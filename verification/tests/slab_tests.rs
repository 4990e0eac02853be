use orderbook_feed::orderbook::RawOrder;
use orderbook_feed::slab::decode_slab_orders;

// Account layout: 5-byte head padding, 8-byte flags header, 32-byte slab
// header (bump index u64, free list length u64, free list head u32, root
// handle u32, leaf count u64), 72-byte nodes, 7-byte tail padding.

fn put32(buf: &mut Vec<u8>, off: usize, v: u32) {
    for k in 0..4 {
        buf[off + k] = (v >> (8 * k)) as u8;
    }
}

fn put64(buf: &mut Vec<u8>, off: usize, v: u64) {
    for k in 0..8 {
        buf[off + k] = (v >> (8 * k)) as u8;
    }
}

fn empty_account(node_count: usize) -> Vec<u8> {
    vec![0u8; 5 + 8 + 32 + 72 * node_count + 7]
}

fn set_header(buf: &mut Vec<u8>, root: u32, leaf_count: u64) {
    put32(buf, 33, root);
    put64(buf, 37, leaf_count);
}

fn node_off(handle: usize) -> usize {
    45 + 72 * handle
}

fn set_leaf(buf: &mut Vec<u8>, handle: usize, price: u64, quantity: u64) {
    let base = node_off(handle);
    put32(buf, base, 2);
    // the key's high 64 bits are the price
    put64(buf, base + 8, handle as u64);
    put64(buf, base + 16, price);
    put64(buf, base + 56, quantity);
}

fn set_inner(buf: &mut Vec<u8>, handle: usize, child0: u32, child1: u32) {
    let base = node_off(handle);
    put32(buf, base, 1);
    put32(buf, base + 24, child0);
    put32(buf, base + 28, child1);
}

fn orders(v: &[(u64, u64)]) -> Vec<RawOrder> {
    v.iter().map(|&(price, quantity)| RawOrder { price, quantity }).collect()
}

#[test]
fn decode_empty_book() {
    let mut buf = empty_account(4);
    set_header(&mut buf, 0, 0);
    let got = decode_slab_orders(&buf, true).expect("well formed");
    assert!(got.is_empty());
}

#[test]
fn decode_single_leaf() {
    let mut buf = empty_account(1);
    set_header(&mut buf, 0, 1);
    set_leaf(&mut buf, 0, 100, 5);
    let got = decode_slab_orders(&buf, true).expect("well formed");
    assert_eq!(got, orders(&[(100, 5)]));
}

#[test]
fn decode_tree_ascending_and_descending() {
    let mut buf = empty_account(3);
    set_header(&mut buf, 0, 2);
    set_inner(&mut buf, 0, 1, 2);
    set_leaf(&mut buf, 1, 100, 5);
    set_leaf(&mut buf, 2, 101, 3);
    let asc = decode_slab_orders(&buf, true).expect("well formed");
    assert_eq!(asc, orders(&[(100, 5), (101, 3)]));
    let desc = decode_slab_orders(&buf, false).expect("well formed");
    assert_eq!(desc, orders(&[(101, 3), (100, 5)]));
}

#[test]
fn decode_too_short_fails() {
    let buf = vec![0u8; 20];
    assert!(decode_slab_orders(&buf, true).is_none());
}

#[test]
fn decode_bad_tag_fails() {
    let mut buf = empty_account(1);
    set_header(&mut buf, 0, 1);
    // tag 0 (uninitialized) where the root should be
    let got = decode_slab_orders(&buf, true);
    assert!(got.is_none());
}

#[test]
fn decode_out_of_range_handle_fails() {
    let mut buf = empty_account(1);
    set_header(&mut buf, 7, 1);
    assert!(decode_slab_orders(&buf, true).is_none());
}

#[test]
fn decode_cyclic_tree_fails() {
    let mut buf = empty_account(1);
    set_header(&mut buf, 0, 1);
    set_inner(&mut buf, 0, 0, 0);
    assert!(decode_slab_orders(&buf, true).is_none());
}

#[test]
fn decode_ignores_trailing_slop_bytes() {
    // ten stray bytes after the last whole node are not part of any node
    let mut buf = empty_account(1);
    set_header(&mut buf, 0, 1);
    set_leaf(&mut buf, 0, 77, 4);
    let tail_start = buf.len() - 7;
    for _ in 0..10 {
        buf.insert(tail_start, 0xAB);
    }
    let got = decode_slab_orders(&buf, true).expect("well formed");
    assert_eq!(got, orders(&[(77, 4)]));
}
