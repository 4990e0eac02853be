// Reads a hand-built book account through the exchange crate's own slab
// reader and checks that the byte-level decoder agrees with it on the
// extreme orders and the book size.

use orderbook_feed::slab::decode_slab_orders;
use serum_dex::critbit::{Slab, SlabView};

fn put32(buf: &mut [u8], off: usize, v: u32) {
    for k in 0..4 {
        buf[off + k] = (v >> (8 * k)) as u8;
    }
}

fn put64(buf: &mut [u8], off: usize, v: u64) {
    for k in 0..8 {
        buf[off + k] = (v >> (8 * k)) as u8;
    }
}

#[test]
fn decoder_agrees_with_reference_slab_reader() {
    // slab region: 32-byte header and 5 nodes of 72 bytes; a left-spine
    // tree of three leaves with ascending prices
    let prices: [u64; 3] = [101, 102, 103];
    let quantities: [u64; 3] = [11, 13, 12];
    let mut slab_bytes = vec![0u8; 32 + 5 * 72];
    put32(&mut slab_bytes, 20, 4); // root handle: the top inner node
    put64(&mut slab_bytes, 24, 3); // leaf count
    for i in 0..3 {
        let base = 32 + 72 * i;
        put32(&mut slab_bytes, base, 2); // leaf tag
        put64(&mut slab_bytes, base + 8, i as u64); // key low bits
        put64(&mut slab_bytes, base + 16, prices[i]); // key high bits: price
        put64(&mut slab_bytes, base + 56, quantities[i]);
    }
    // inner node 3: children leaves 0 and 1; inner node 4: children 3 and 2
    let base3 = 32 + 72 * 3;
    put32(&mut slab_bytes, base3, 1);
    put32(&mut slab_bytes, base3 + 24, 0);
    put32(&mut slab_bytes, base3 + 28, 1);
    let base4 = 32 + 72 * 4;
    put32(&mut slab_bytes, base4, 1);
    put32(&mut slab_bytes, base4 + 24, 3);
    put32(&mut slab_bytes, base4 + 28, 2);

    // what the reference implementation reads from these bytes
    let mut reference_copy = slab_bytes.clone();
    let slab = Slab::new(&mut reference_copy);
    let min_handle = slab.find_min().expect("non-empty");
    let max_handle = slab.find_max().expect("non-empty");
    let min_leaf = slab.get(min_handle).and_then(|n| n.as_leaf()).expect("leaf");
    let max_leaf = slab.get(max_handle).and_then(|n| n.as_leaf()).expect("leaf");

    // embed in the account layout: 5-byte head, 8-byte flags, slab, 7-byte tail
    let mut account = Vec::new();
    account.extend_from_slice(&[0u8; 5]);
    account.extend_from_slice(&[0u8; 8]);
    account.extend_from_slice(&slab_bytes);
    account.extend_from_slice(&[0u8; 7]);
    let asc = decode_slab_orders(&account, true).expect("well formed");
    let desc = decode_slab_orders(&account, false).expect("well formed");

    assert_eq!(asc.len(), 3);
    assert_eq!(asc.first().unwrap().price, u64::from(min_leaf.price()));
    assert_eq!(asc.first().unwrap().quantity, min_leaf.quantity());
    assert_eq!(asc.last().unwrap().price, u64::from(max_leaf.price()));
    assert_eq!(asc.last().unwrap().quantity, max_leaf.quantity());
    assert_eq!(desc.first().unwrap().price, u64::from(max_leaf.price()));
    assert_eq!(desc.last().unwrap().price, u64::from(min_leaf.price()));

    let asc_pairs: Vec<(u64, u64)> = asc.iter().map(|o| (o.price, o.quantity)).collect();
    assert_eq!(asc_pairs, vec![(101, 11), (102, 13), (103, 12)]);
}
