use vstd::prelude::*;
use crate::orderbook::RawOrder;

verus! {

// Layout of a legacy book account, all integers little-endian. The usable
// region excludes a 5-byte prefix and 7-byte suffix; it starts with an
// 8-byte flags header, then a slab: a 32-byte slab header (bump index u64,
// free list length u64, free list head u32, root handle u32, leaf count
// u64) followed by 72-byte nodes. A node's first 4 bytes are its tag:
// 1 is an interior node, whose child handles sit at offsets 24 and 28;
// 2 is a resting order, whose key sits at offset 8 (the price being its
// high 8 bytes, at offset 16) and whose quantity sits at offset 56. The
// orders are the leaves of the binary tree hanging from the root handle;
// reading the tree left-to-right yields them in ascending key order.

/// A little-endian 32-bit integer at byte offset `i`.
pub open spec fn le_u32(s: Seq<u8>, i: int) -> int {
    (s[i] as int) + 256 * (s[i + 1] as int) + 65536 * (s[i + 2] as int) + 16777216 * (s[i
        + 3] as int)
}

/// A little-endian 64-bit integer at byte offset `i`.
pub open spec fn le_u64(s: Seq<u8>, i: int) -> int {
    le_u32(s, i) + 4294967296 * le_u32(s, i + 4)
}

/// Byte offset of node `handle` inside the account bytes.
pub open spec fn node_base(handle: int) -> int {
    45 + 72 * handle
}

/// How many whole nodes fit between the slab header and the tail padding.
pub open spec fn slab_node_count(s: Seq<u8>) -> int {
    if s.len() < 52 {
        0
    } else {
        (s.len() - 52) / 72
    }
}

/// The orders under `handle`, left to right when `ascending`, right to left
/// otherwise; `None` when the walk leaves the node region, meets an
/// unexpected tag, or runs past `fuel` levels (a cycle: a well-formed tree
/// is never deeper than its node count).
pub open spec fn spec_walk(s: Seq<u8>, handle: int, fuel: nat, ascending: bool) -> Option<
    Seq<RawOrder>,
>
    decreases fuel,
{
    if fuel == 0 {
        None
    } else if !(0 <= handle < slab_node_count(s)) {
        None
    } else {
        let base = node_base(handle);
        let tag = le_u32(s, base);
        if tag == 2 {
            Some(
                seq![
                    RawOrder {
                        price: le_u64(s, base + 16) as u64,
                        quantity: le_u64(s, base + 56) as u64,
                    },
                ],
            )
        } else if tag == 1 {
            let c0 = le_u32(s, base + 24);
            let c1 = le_u32(s, base + 28);
            let first = if ascending { c0 } else { c1 };
            let second = if ascending { c1 } else { c0 };
            match spec_walk(s, first, (fuel - 1) as nat, ascending) {
                None => None,
                Some(l) => match spec_walk(s, second, (fuel - 1) as nat, ascending) {
                    None => None,
                    Some(r) => Some(l + r),
                },
            }
        } else {
            None
        }
    }
}

/// The raw orders a legacy book account holds, in the side's iteration
/// order, or `None` when the bytes are malformed: too short for the fixed
/// headers, or a tree walk that fails as described at `spec_walk`. An
/// account whose leaf count reads zero is an empty book.
pub open spec fn spec_decode_slab(s: Seq<u8>, ascending: bool) -> Option<Seq<RawOrder>> {
    if s.len() < 52 {
        None
    } else if le_u64(s, 37) == 0 {
        Some(Seq::empty())
    } else {
        spec_walk(s, le_u32(s, 33), (slab_node_count(s) + 1) as nat, ascending)
    }
}

fn read_u32(data: &Vec<u8>, off: usize) -> (r: u32)
    requires
        off + 4 <= data@.len(),
    ensures
        r as int == le_u32(data@, off as int),
{
    let n = data.len();
    proof {
        assert(off + 4 <= n);
    }
    (data[off] as u32) + 256 * (data[off + 1] as u32) + 65536 * (data[off + 2] as u32)
        + 16777216 * (data[off + 3] as u32)
}

fn read_u64(data: &Vec<u8>, off: usize) -> (r: u64)
    requires
        off + 8 <= data@.len(),
    ensures
        r as int == le_u64(data@, off as int),
{
    let n = data.len();
    proof {
        assert(off + 8 <= n);
    }
    let lo = read_u32(data, off);
    let hi = read_u32(data, off + 4);
    (lo as u64) + 4294967296 * (hi as u64)
}

fn walk(data: &Vec<u8>, handle: u32, fuel: usize, ascending: bool, out: &mut Vec<RawOrder>) -> (ok:
    bool)
    requires
        data@.len() >= 52,
        52 + 72 * slab_node_count(data@) <= data@.len(),
    ensures
        match spec_walk(data@, handle as int, fuel as nat, ascending) {
            Some(s) => ok && final(out)@ == old(out)@ + s,
            None => !ok,
        },
    decreases fuel,
{
    if fuel == 0 {
        return false;
    }
    let nc = (data.len() - 52) / 72;
    if !((handle as usize) < nc) {
        return false;
    }
    let base: usize = 45 + 72 * (handle as usize);
    proof {
        assert(72 * (handle as int) + 72 <= 72 * slab_node_count(data@));
    }
    let tag = read_u32(data, base);
    if tag == 2 {
        let price = read_u64(data, base + 16);
        let quantity = read_u64(data, base + 56);
        out.push(RawOrder { price, quantity });
        proof {
            let s = spec_walk(data@, handle as int, fuel as nat, ascending).unwrap();
            assert(old(out)@ + s =~= old(out)@.push(RawOrder { price, quantity }));
        }
        true
    } else if tag == 1 {
        let c0 = read_u32(data, base + 24);
        let c1 = read_u32(data, base + 28);
        let first = if ascending { c0 } else { c1 };
        let second = if ascending { c1 } else { c0 };
        let ghost mid = out@;
        if !walk(data, first, fuel - 1, ascending, out) {
            return false;
        }
        if !walk(data, second, fuel - 1, ascending, out) {
            return false;
        }
        proof {
            let l = spec_walk(data@, first as int, (fuel - 1) as nat, ascending).unwrap();
            let r = spec_walk(data@, second as int, (fuel - 1) as nat, ascending).unwrap();
            assert(out@ =~= mid + (l + r));
        }
        true
    } else {
        false
    }
}

/// Decodes a legacy book account into its raw orders, in ascending key
/// order for one side and descending for the other. `None` exactly where
/// the byte-level model calls the account malformed; decoding never
/// panics, whatever the bytes hold.
pub fn decode_slab_orders(data: &Vec<u8>, ascending: bool) -> (r: Option<Vec<RawOrder>>)
    ensures
        match r {
            Some(v) => spec_decode_slab(data@, ascending) == Some(v@),
            None => spec_decode_slab(data@, ascending) is None,
        },
{
    if data.len() < 52 {
        return None;
    }
    let leaf_count = read_u64(data, 37);
    if leaf_count == 0 {
        let empty: Vec<RawOrder> = Vec::new();
        proof {
            assert(empty@ =~= Seq::<RawOrder>::empty());
        }
        return Some(empty);
    }
    let root = read_u32(data, 33);
    let nc = (data.len() - 52) / 72;
    proof {
        assert(52 + 72 * slab_node_count(data@) <= data@.len()) by (nonlinear_arith)
            requires
                data@.len() >= 52,
                slab_node_count(data@) == (data@.len() - 52) / 72,
        ;
    }
    let mut out: Vec<RawOrder> = Vec::new();
    if walk(data, root, nc + 1, ascending, &mut out) {
        Some(out)
    } else {
        None
    }
}

} // verus!
