use vstd::prelude::*;

verus! {

/// Which side of the book a level or update belongs to.
#[derive(Clone, Copy, Debug, PartialEq, Eq, Structural)]
pub enum OrderbookSide {
    Bid,
    Ask,
}

/// A raw resting order extracted from a book account: integer price ticks
/// and quantity lots. Scaling to display units happens only at the output
/// boundary, so that level comparison stays exact.
#[derive(Clone, Copy, Debug, PartialEq, Eq, Structural)]
pub struct RawOrder {
    pub price: u64,
    pub quantity: u64,
}

/// One price level: integer tick price and total size in lots. In an update,
/// size 0 marks the removal of the level.
#[derive(Clone, Copy, Debug, PartialEq, Eq, Structural)]
pub struct OrderbookLevel {
    pub price: u64,
    pub size: u64,
}

/// No two levels share a price.
pub open spec fn prices_unique(s: Seq<OrderbookLevel>) -> bool {
    forall|i: int, j: int| 0 <= i < j < s.len() ==> s[i].price != s[j].price
}

/// The size stored for a price, taking the latest entry when a price repeats.
pub open spec fn size_at(s: Seq<OrderbookLevel>, price: u64) -> Option<u64>
    decreases s.len(),
{
    if s.len() == 0 {
        None
    } else if s.last().price == price {
        Some(s.last().size)
    } else {
        size_at(s.drop_last(), price)
    }
}

/// Whether some level carries the price.
pub open spec fn has_price(s: Seq<OrderbookLevel>, price: u64) -> bool {
    size_at(s, price) is Some
}

/// The distinct prices of a raw order sequence, in first-occurrence order.
pub open spec fn first_prices(s: Seq<RawOrder>) -> Seq<u64>
    decreases s.len(),
{
    if s.len() == 0 {
        Seq::empty()
    } else {
        let p = first_prices(s.drop_last());
        if p.contains(s.last().price) {
            p
        } else {
            p.push(s.last().price)
        }
    }
}

/// The total quantity resting at a price.
pub open spec fn qty_sum(s: Seq<RawOrder>, price: u64) -> int
    decreases s.len(),
{
    if s.len() == 0 {
        0
    } else {
        qty_sum(s.drop_last(), price) + (if s.last().price == price {
            s.last().quantity as int
        } else {
            0
        })
    }
}

proof fn lemma_first_prices_unique(s: Seq<RawOrder>)
    ensures
        forall|i: int, j: int|
            0 <= i < j < first_prices(s).len() ==> first_prices(s)[i] != first_prices(s)[j],
    decreases s.len(),
{
    if s.len() > 0 {
        lemma_first_prices_unique(s.drop_last());
        let fp = first_prices(s.drop_last());
        let p = s.last().price;
        if !fp.contains(p) {
            assert forall|i: int, j: int| 0 <= i < j < fp.push(p).len() implies fp.push(p)[i]
                != fp.push(p)[j] by {
                if j == fp.len() {
                    if fp[i] == p {
                        assert(fp.contains(p));
                    }
                }
            }
        }
    }
}

proof fn lemma_first_prices_complete(s: Seq<RawOrder>)
    ensures
        forall|k: int| 0 <= k < s.len() ==> first_prices(s).contains((#[trigger] s[k]).price),
        forall|p: u64| first_prices(s).contains(p) ==> exists|k: int|
            0 <= k < s.len() && s[k].price == p,
    decreases s.len(),
{
    if s.len() > 0 {
        lemma_first_prices_complete(s.drop_last());
        assert forall|k: int| 0 <= k < s.len() implies first_prices(s).contains(
            (#[trigger] s[k]).price,
        ) by {
            if k < s.len() - 1 {
                assert(s.drop_last()[k] == s[k]);
                let fp = first_prices(s.drop_last());
                let w = choose|w: int| 0 <= w < fp.len() && fp[w] == s[k].price;
                if !fp.contains(s.last().price) {
                    assert(fp.push(s.last().price)[w] == s[k].price);
                }
            } else {
                let fp = first_prices(s.drop_last());
                if fp.contains(s.last().price) {
                } else {
                    assert(fp.push(s.last().price).last() == s.last().price);
                }
            }
        }
        assert forall|p: u64| first_prices(s).contains(p) implies exists|k: int|
            0 <= k < s.len() && s[k].price == p by {
            let fp = first_prices(s.drop_last());
            if p == s.last().price {
                assert(s[s.len() - 1].price == p);
            } else {
                assert(fp.contains(p));
                let k = choose|k: int| 0 <= k < s.drop_last().len() && s.drop_last()[k].price == p;
                assert(s[k].price == p);
            }
        }
    }
}

proof fn lemma_qty_sum_absent(s: Seq<RawOrder>, price: u64)
    requires
        forall|k: int| 0 <= k < s.len() ==> (#[trigger] s[k]).price != price,
    ensures
        qty_sum(s, price) == 0,
    decreases s.len(),
{
    if s.len() > 0 {
        assert(forall|k: int|
            0 <= k < s.drop_last().len() ==> (#[trigger] s.drop_last()[k]).price != price);
        lemma_qty_sum_absent(s.drop_last(), price);
    }
}

proof fn lemma_qty_sum_take_step(s: Seq<RawOrder>, i: int, price: u64)
    requires
        0 <= i < s.len(),
    ensures
        qty_sum(s.take(i + 1), price) == qty_sum(s.take(i), price) + (if s[i].price == price {
            s[i].quantity as int
        } else {
            0
        }),
{
    assert(s.take(i + 1).last() == s[i]);
    assert(s.take(i + 1).drop_last() =~= s.take(i));
}

proof fn lemma_qty_sum_take_le(s: Seq<RawOrder>, i: int, price: u64)
    requires
        0 <= i <= s.len(),
    ensures
        qty_sum(s.take(i), price) <= qty_sum(s, price),
    decreases s.len() - i,
{
    if i == s.len() {
        assert(s.take(i) =~= s);
    } else {
        lemma_qty_sum_take_step(s, i, price);
        lemma_qty_sum_take_le(s, i + 1, price);
    }
}

proof fn lemma_first_prices_take_step(s: Seq<RawOrder>, i: int)
    requires
        0 <= i < s.len(),
    ensures
        first_prices(s.take(i + 1)) == (if first_prices(s.take(i)).contains(s[i].price) {
            first_prices(s.take(i))
        } else {
            first_prices(s.take(i)).push(s[i].price)
        }),
{
    assert(s.take(i + 1).last() == s[i]);
    assert(s.take(i + 1).drop_last() =~= s.take(i));
}

/// Collapses a raw order sequence into price levels: one level per distinct
/// price, in first-occurrence order, carrying the total quantity at that
/// price. Returns `None` exactly when some price's total quantity does not
/// fit in a machine word.
pub fn aggregate_levels(orders: &Vec<RawOrder>) -> (r: Option<Vec<OrderbookLevel>>)
    ensures
        match r {
            Some(levels) => {
                &&& levels@.len() == first_prices(orders@).len()
                &&& (forall|k: int|
                    0 <= k < levels@.len() ==> (#[trigger] levels@[k]).price == first_prices(
                        orders@,
                    )[k])
                &&& (forall|k: int|
                    0 <= k < levels@.len() ==> (#[trigger] levels@[k]).size == qty_sum(
                        orders@,
                        levels@[k].price,
                    ))
                &&& prices_unique(levels@)
            },
            None => exists|k: int|
                0 <= k < orders@.len() && qty_sum(orders@, (#[trigger] orders@[k]).price)
                    > u64::MAX,
        },
{
    let mut levels: Vec<OrderbookLevel> = Vec::new();
    let mut i: usize = 0;
    proof {
        lemma_first_prices_unique(orders@);
        lemma_first_prices_complete(orders@);
    }
    while i < orders.len()
        invariant
            i <= orders@.len(),
            levels@.len() == first_prices(orders@.take(i as int)).len(),
            forall|k: int|
                0 <= k < levels@.len() ==> (#[trigger] levels@[k]).price == first_prices(
                    orders@.take(i as int),
                )[k],
            forall|k: int|
                0 <= k < levels@.len() ==> (#[trigger] levels@[k]).size == qty_sum(
                    orders@.take(i as int),
                    levels@[k].price,
                ),
        decreases orders@.len() - i,
    {
        let o = orders[i];
        proof {
            lemma_qty_sum_take_step(orders@, i as int, o.price);
            lemma_first_prices_take_step(orders@, i as int);
            lemma_first_prices_unique(orders@.take(i as int));
            lemma_first_prices_complete(orders@.take(i as int));
            assert forall|q: u64| q != o.price implies qty_sum(orders@.take(i as int + 1), q)
                == qty_sum(orders@.take(i as int), q) by {
                lemma_qty_sum_take_step(orders@, i as int, q);
            }
        }
        // look for an existing level at this price
        let mut idx: usize = 0;
        let mut found: bool = false;
        while idx < levels.len() && !found
            invariant
                idx <= levels@.len(),
                !found ==> forall|k: int| 0 <= k < idx ==> (#[trigger] levels@[k]).price != o.price,
                found ==> idx < levels@.len() && levels@[idx as int].price == o.price,
            decreases levels@.len() - idx, (if found { 0int } else { 1int }),
        {
            if levels[idx].price == o.price {
                found = true;
            } else {
                idx = idx + 1;
            }
        }
        if found {
            let l = levels[idx];
            if l.size > u64::MAX - o.quantity {
                proof {
                    assert(qty_sum(orders@.take(i as int + 1), o.price) > u64::MAX);
                    lemma_qty_sum_take_le(orders@, i as int + 1, o.price);
                    assert(orders@[i as int].price == o.price);
                }
                return None;
            }
            levels.set(idx, OrderbookLevel { price: l.price, size: l.size + o.quantity });
            proof {
                let fp0 = first_prices(orders@.take(i as int));
                assert(fp0.contains(o.price)) by {
                    assert(fp0[idx as int] == o.price);
                }
            }
        } else {
            proof {
                let fp0 = first_prices(orders@.take(i as int));
                if fp0.contains(o.price) {
                    let w = choose|w: int| 0 <= w < fp0.len() && fp0[w] == o.price;
                    assert(levels@[w].price == o.price);
                    assert(false);
                }
                assert forall|k: int|
                    0 <= k < orders@.take(i as int).len() implies (#[trigger] orders@.take(
                    i as int,
                )[k]).price != o.price by {
                    if orders@.take(i as int)[k].price == o.price {
                        assert(fp0.contains(orders@.take(i as int)[k].price));
                    }
                }
                lemma_qty_sum_absent(orders@.take(i as int), o.price);
            }
            levels.push(OrderbookLevel { price: o.price, size: o.quantity });
        }
        i = i + 1;
    }
    proof {
        assert(orders@.take(orders@.len() as int) =~= orders@);
        lemma_first_prices_unique(orders@);
        assert forall|a: int, b: int| 0 <= a < b < levels@.len() implies levels@[a].price
            != levels@[b].price by {
            assert(levels@[a].price == first_prices(orders@)[a]);
            assert(levels@[b].price == first_prices(orders@)[b]);
        }
    }
    Some(levels)
}

/// Removal half of a book diff: one size-0 level for every price present
/// before but absent now, in previous-book order.
pub open spec fn removal_levels(prev: Seq<OrderbookLevel>, cur: Seq<OrderbookLevel>) -> Seq<
    OrderbookLevel,
>
    decreases prev.len(),
{
    if prev.len() == 0 {
        Seq::empty()
    } else {
        let r = removal_levels(prev.drop_last(), cur);
        if has_price(cur, prev.last().price) {
            r
        } else {
            r.push(OrderbookLevel { price: prev.last().price, size: 0 })
        }
    }
}

/// Change half of a book diff: every current level that is new or whose size
/// differs from the previous level at the same price, in current-book order.
pub open spec fn changed_levels(prev: Seq<OrderbookLevel>, cur: Seq<OrderbookLevel>) -> Seq<
    OrderbookLevel,
>
    decreases cur.len(),
{
    if cur.len() == 0 {
        Seq::empty()
    } else {
        let r = changed_levels(prev, cur.drop_last());
        let c = cur.last();
        if size_at(prev, c.price) == Some(c.size) {
            r
        } else {
            r.push(c)
        }
    }
}

/// A full book diff: all removals first, then all new or changed levels.
pub open spec fn spec_diff(prev: Seq<OrderbookLevel>, cur: Seq<OrderbookLevel>) -> Seq<
    OrderbookLevel,
> {
    removal_levels(prev, cur) + changed_levels(prev, cur)
}

/// Drops every level at the given price, keeping the order of the rest.
pub open spec fn remove_price(s: Seq<OrderbookLevel>, price: u64) -> Seq<OrderbookLevel>
    decreases s.len(),
{
    if s.len() == 0 {
        Seq::empty()
    } else {
        let r = remove_price(s.drop_last(), price);
        if s.last().price == price {
            r
        } else {
            r.push(s.last())
        }
    }
}

/// Replaces the level at the update's price, or appends it when absent.
pub open spec fn upsert(s: Seq<OrderbookLevel>, u: OrderbookLevel) -> Seq<OrderbookLevel>
    decreases s.len(),
{
    if s.len() == 0 {
        seq![u]
    } else if s.last().price == u.price {
        s.update(s.len() - 1, u)
    } else {
        upsert(s.drop_last(), u).push(s.last())
    }
}

/// Applies one update level: size 0 removes the price, any other size
/// upserts the level.
pub open spec fn apply_one(s: Seq<OrderbookLevel>, u: OrderbookLevel) -> Seq<OrderbookLevel> {
    if u.size == 0 {
        remove_price(s, u.price)
    } else {
        upsert(s, u)
    }
}

/// Applies the update levels left to right.
pub open spec fn apply_update(s: Seq<OrderbookLevel>, us: Seq<OrderbookLevel>) -> Seq<
    OrderbookLevel,
>
    decreases us.len(),
{
    if us.len() == 0 {
        s
    } else {
        apply_one(apply_update(s, us.drop_last()), us.last())
    }
}

proof fn lemma_remove_price_size(s: Seq<OrderbookLevel>, price: u64, q: u64)
    ensures
        size_at(remove_price(s, price), q) == (if q == price {
            None::<u64>
        } else {
            size_at(s, q)
        }),
    decreases s.len(),
{
    if s.len() > 0 {
        lemma_remove_price_size(s.drop_last(), price, q);
        if s.last().price != price {
            let r = remove_price(s.drop_last(), price);
            assert(r.push(s.last()).drop_last() =~= r);
        }
    }
}

proof fn lemma_upsert_size(s: Seq<OrderbookLevel>, u: OrderbookLevel, q: u64)
    ensures
        size_at(upsert(s, u), q) == (if q == u.price {
            Some(u.size)
        } else {
            size_at(s, q)
        }),
    decreases s.len(),
{
    if s.len() == 0 {
        assert(seq![u].last() == u);
        assert(seq![u].drop_last() =~= Seq::<OrderbookLevel>::empty());
        assert(size_at(Seq::<OrderbookLevel>::empty(), q) is None);
    } else if s.last().price == u.price {
        let r = s.update(s.len() - 1, u);
        assert(r.last() == u);
        assert(r.drop_last() =~= s.drop_last());
    } else {
        lemma_upsert_size(s.drop_last(), u, q);
        let r = upsert(s.drop_last(), u);
        assert(r.push(s.last()).drop_last() =~= r);
    }
}

/// What a whole update does to the size map: the latest update entry for a
/// price wins; a size-0 entry clears it; untouched prices keep their size.
proof fn lemma_apply_size(s: Seq<OrderbookLevel>, us: Seq<OrderbookLevel>, q: u64)
    ensures
        size_at(apply_update(s, us), q) == (match size_at(us, q) {
            Some(sz) => if sz == 0 { None::<u64> } else { Some(sz) },
            None => size_at(s, q),
        }),
    decreases us.len(),
{
    if us.len() > 0 {
        lemma_apply_size(s, us.drop_last(), q);
        let a = apply_update(s, us.drop_last());
        let u = us.last();
        if u.size == 0 {
            lemma_remove_price_size(a, u.price, q);
        } else {
            lemma_upsert_size(a, u, q);
        }
    }
}

proof fn lemma_size_at_concat(a: Seq<OrderbookLevel>, b: Seq<OrderbookLevel>, q: u64)
    ensures
        size_at(a + b, q) == (match size_at(b, q) {
            Some(sz) => Some(sz),
            None => size_at(a, q),
        }),
    decreases b.len(),
{
    if b.len() == 0 {
        assert(a + b =~= a);
    } else {
        assert((a + b).last() == b.last());
        assert((a + b).drop_last() =~= a + b.drop_last());
        lemma_size_at_concat(a, b.drop_last(), q);
    }
}

proof fn lemma_size_at_witness(s: Seq<OrderbookLevel>, q: u64)
    ensures
        size_at(s, q) matches Some(sz) ==> exists|k: int|
            0 <= k < s.len() && (#[trigger] s[k]).price == q && s[k].size == sz,
        (exists|k: int| 0 <= k < s.len() && (#[trigger] s[k]).price == q) ==> size_at(s, q) is Some,
    decreases s.len(),
{
    if s.len() > 0 {
        lemma_size_at_witness(s.drop_last(), q);
        if s.last().price == q {
            assert(s[s.len() - 1].price == q && s[s.len() - 1].size == s.last().size);
        } else {
            if size_at(s.drop_last(), q) is Some {
                let sz = size_at(s.drop_last(), q).unwrap();
                let k = choose|k: int|
                    0 <= k < s.drop_last().len() && (#[trigger] s.drop_last()[k]).price == q
                        && s.drop_last()[k].size == sz;
                assert(s[k].price == q && s[k].size == sz);
            }
            if exists|k: int| 0 <= k < s.len() && (#[trigger] s[k]).price == q {
                let k = choose|k: int| 0 <= k < s.len() && (#[trigger] s[k]).price == q;
                assert(k < s.len() - 1);
                assert(s.drop_last()[k].price == q);
            }
        }
    }
}

/// Pointwise description of the removal half: a price maps to size 0 there
/// exactly when it was present before and is absent now.
proof fn lemma_removals_size(prev: Seq<OrderbookLevel>, cur: Seq<OrderbookLevel>, q: u64)
    ensures
        size_at(removal_levels(prev, cur), q) == (if has_price(prev, q) && !has_price(cur, q) {
            Some(0u64)
        } else {
            None::<u64>
        }),
    decreases prev.len(),
{
    if prev.len() > 0 {
        lemma_removals_size(prev.drop_last(), cur, q);
        let r = removal_levels(prev.drop_last(), cur);
        if !has_price(cur, prev.last().price) {
            assert(r.push(OrderbookLevel { price: prev.last().price, size: 0 }).drop_last() =~= r);
        }
    }
}

/// Pointwise description of the change half: a price maps to the current
/// size exactly when the current book has it and the previous size differs.
proof fn lemma_changed_size(prev: Seq<OrderbookLevel>, cur: Seq<OrderbookLevel>, q: u64)
    requires
        prices_unique(cur),
    ensures
        size_at(changed_levels(prev, cur), q) == (match size_at(cur, q) {
            Some(sz) => if size_at(prev, q) == Some(sz) { None::<u64> } else { Some(sz) },
            None => None::<u64>,
        }),
    decreases cur.len(),
{
    if cur.len() > 0 {
        assert(prices_unique(cur.drop_last()));
        lemma_changed_size(prev, cur.drop_last(), q);
        let r = changed_levels(prev, cur.drop_last());
        let c = cur.last();
        if size_at(prev, c.price) != Some(c.size) {
            assert(r.push(c).drop_last() =~= r);
        }
        if q == c.price && size_at(cur.drop_last(), q) is Some {
            lemma_size_at_witness(cur.drop_last(), q);
            let k = choose|k: int|
                0 <= k < cur.drop_last().len() && (#[trigger] cur.drop_last()[k]).price == q;
            assert(cur[k].price == cur[cur.len() - 1].price);
            assert(false);
        }
    }
}

/// No two levels of a book diff share a price: removals carry prices absent
/// from the current book, changes carry prices present in it, and each half
/// inherits uniqueness from the book it reads.
pub proof fn lemma_diff_unique(prev: Seq<OrderbookLevel>, cur: Seq<OrderbookLevel>)
    requires
        prices_unique(prev),
        prices_unique(cur),
    ensures
        prices_unique(spec_diff(prev, cur)),
{
    let rem = removal_levels(prev, cur);
    let chg = changed_levels(prev, cur);
    lemma_removals_unique(prev, cur);
    lemma_changed_unique(prev, cur);
    assert forall|i: int, j: int| 0 <= i < j < spec_diff(prev, cur).len() implies spec_diff(
        prev,
        cur,
    )[i].price != spec_diff(prev, cur)[j].price by {
        if i < rem.len() && j >= rem.len() {
            assert(spec_diff(prev, cur)[i] == rem[i]);
            assert(spec_diff(prev, cur)[j] == chg[j - rem.len()]);
            lemma_size_at_witness(rem, rem[i].price);
            assert(size_at(rem, rem[i].price) is Some);
            lemma_removals_size(prev, cur, rem[i].price);
            lemma_size_at_witness(chg, chg[j - rem.len()].price);
            assert(size_at(chg, chg[j - rem.len()].price) is Some);
            lemma_changed_size(prev, cur, chg[j - rem.len()].price);
            assert(!has_price(cur, rem[i].price));
            assert(size_at(cur, chg[j - rem.len()].price) is Some);
        } else if j < rem.len() {
            assert(spec_diff(prev, cur)[i] == rem[i]);
            assert(spec_diff(prev, cur)[j] == rem[j]);
        } else {
            assert(spec_diff(prev, cur)[i] == chg[i - rem.len()]);
            assert(spec_diff(prev, cur)[j] == chg[j - rem.len()]);
        }
    }
}

proof fn lemma_removals_unique(prev: Seq<OrderbookLevel>, cur: Seq<OrderbookLevel>)
    requires
        prices_unique(prev),
    ensures
        prices_unique(removal_levels(prev, cur)),
        forall|k: int|
            0 <= k < removal_levels(prev, cur).len() ==> has_price(
                prev,
                (#[trigger] removal_levels(prev, cur)[k]).price,
            ),
    decreases prev.len(),
{
    if prev.len() > 0 {
        assert(prices_unique(prev.drop_last()));
        lemma_removals_unique(prev.drop_last(), cur);
        let r = removal_levels(prev.drop_last(), cur);
        assert forall|k: int| 0 <= k < r.len() implies has_price(
            prev,
            (#[trigger] r[k]).price,
        ) by {
            lemma_size_at_witness(prev.drop_last(), r[k].price);
            let w = choose|w: int|
                0 <= w < prev.drop_last().len() && (#[trigger] prev.drop_last()[w]).price
                    == r[k].price;
            assert(prev[w].price == r[k].price);
            lemma_size_at_witness(prev, r[k].price);
        }
        if !has_price(cur, prev.last().price) {
            let x = OrderbookLevel { price: prev.last().price, size: 0 };
            assert forall|i: int, j: int| 0 <= i < j < r.push(x).len() implies r.push(x)[i].price
                != r.push(x)[j].price by {
                if j == r.len() {
                    assert(has_price(prev.drop_last(), r[i].price)) by {
                        lemma_removals_unique(prev.drop_last(), cur);
                    }
                    lemma_size_at_witness(prev.drop_last(), r[i].price);
                    let w = choose|w: int|
                        0 <= w < prev.drop_last().len() && (#[trigger] prev.drop_last()[w]).price
                            == r[i].price;
                    assert(prev[w].price == r[i].price);
                    assert(prev[w].price != prev[prev.len() - 1].price);
                }
            }
            assert forall|k: int| 0 <= k < r.push(x).len() implies has_price(
                prev,
                (#[trigger] r.push(x)[k]).price,
            ) by {
                if k == r.len() {
                    assert(prev[prev.len() - 1].price == x.price);
                    lemma_size_at_witness(prev, x.price);
                } else {
                    assert(r.push(x)[k] == r[k]);
                }
            }
        }
    }
}

proof fn lemma_changed_unique(prev: Seq<OrderbookLevel>, cur: Seq<OrderbookLevel>)
    requires
        prices_unique(cur),
    ensures
        prices_unique(changed_levels(prev, cur)),
        forall|k: int|
            0 <= k < changed_levels(prev, cur).len() ==> has_price(
                cur,
                (#[trigger] changed_levels(prev, cur)[k]).price,
            ),
    decreases cur.len(),
{
    if cur.len() > 0 {
        assert(prices_unique(cur.drop_last()));
        lemma_changed_unique(prev, cur.drop_last());
        let r = changed_levels(prev, cur.drop_last());
        assert forall|k: int| 0 <= k < r.len() implies has_price(
            cur,
            (#[trigger] r[k]).price,
        ) by {
            lemma_size_at_witness(cur.drop_last(), r[k].price);
            let w = choose|w: int|
                0 <= w < cur.drop_last().len() && (#[trigger] cur.drop_last()[w]).price
                    == r[k].price;
            assert(cur[w].price == r[k].price);
            lemma_size_at_witness(cur, r[k].price);
        }
        let c = cur.last();
        if size_at(prev, c.price) != Some(c.size) {
            assert forall|i: int, j: int| 0 <= i < j < r.push(c).len() implies r.push(c)[i].price
                != r.push(c)[j].price by {
                if j == r.len() {
                    lemma_size_at_witness(cur.drop_last(), r[i].price);
                    let w = choose|w: int|
                        0 <= w < cur.drop_last().len() && (#[trigger] cur.drop_last()[w]).price
                            == r[i].price;
                    assert(cur[w].price == r[i].price);
                    assert(cur[w].price != cur[cur.len() - 1].price);
                }
            }
            assert forall|k: int| 0 <= k < r.push(c).len() implies has_price(
                cur,
                (#[trigger] r.push(c)[k]).price,
            ) by {
                if k == r.len() {
                    assert(cur[cur.len() - 1].price == c.price);
                    lemma_size_at_witness(cur, c.price);
                } else {
                    assert(r.push(c)[k] == r[k]);
                }
            }
        }
    }
}

/// Applying a book diff to the previous book reproduces the current book,
/// price for price: removing the prices whose diff entry has size 0 and
/// upserting the rest yields a book whose size at every price equals the
/// current book's. Current sizes must be nonzero, since size 0 in an update
/// means removal.
pub proof fn lemma_diff_apply(prev: Seq<OrderbookLevel>, cur: Seq<OrderbookLevel>)
    requires
        prices_unique(prev),
        prices_unique(cur),
        forall|k: int| 0 <= k < cur.len() ==> (#[trigger] cur[k]).size != 0,
    ensures
        forall|q: u64|
            size_at(apply_update(prev, spec_diff(prev, cur)), q) == size_at(cur, q),
{
    let rem = removal_levels(prev, cur);
    let chg = changed_levels(prev, cur);
    assert forall|q: u64|
        size_at(apply_update(prev, spec_diff(prev, cur)), q) == size_at(cur, q) by {
        lemma_apply_size(prev, spec_diff(prev, cur), q);
        lemma_size_at_concat(rem, chg, q);
        lemma_removals_size(prev, cur, q);
        lemma_changed_size(prev, cur, q);
        lemma_size_at_witness(cur, q);
        if size_at(cur, q) is Some {
            let sz = size_at(cur, q).unwrap();
            let k = choose|k: int|
                0 <= k < cur.len() && (#[trigger] cur[k]).price == q && cur[k].size == sz;
            assert(sz != 0);
        }
    }
}

/// The levels a raw order sequence collapses to, assuming every price's
/// total quantity fits in a machine word: one level per distinct price in
/// first-occurrence order, sized by the total quantity at that price.
pub open spec fn spec_levels(orders: Seq<RawOrder>) -> Seq<OrderbookLevel> {
    Seq::new(
        first_prices(orders).len(),
        |k: int|
            OrderbookLevel {
                price: first_prices(orders)[k],
                size: qty_sum(orders, first_prices(orders)[k]) as u64,
            },
    )
}

/// The levels any raw order sequence collapses to are price-unique.
pub proof fn lemma_spec_levels_unique(orders: Seq<RawOrder>)
    ensures
        prices_unique(spec_levels(orders)),
{
    lemma_first_prices_unique(orders);
}

/// Copies a level vector element by element.
pub fn clone_levels(v: &Vec<OrderbookLevel>) -> (r: Vec<OrderbookLevel>)
    ensures
        r@ == v@,
{
    let mut out: Vec<OrderbookLevel> = Vec::new();
    let mut i: usize = 0;
    while i < v.len()
        invariant
            i <= v@.len(),
            out@ == v@.take(i as int),
        decreases v@.len() - i,
    {
        out.push(v[i]);
        proof {
            assert(out@ =~= v@.take(i + 1 as int));
        }
        i = i + 1;
    }
    proof {
        assert(v@.take(v@.len() as int) =~= v@);
    }
    out
}

/// Finds the latest level at a price, mirroring `size_at`.
pub fn find_level(levels: &Vec<OrderbookLevel>, price: u64) -> (r: Option<usize>)
    ensures
        match r {
            Some(k) => k < levels@.len() && levels@[k as int].price == price && size_at(
                levels@,
                price,
            ) == Some(levels@[k as int].size),
            None => size_at(levels@, price) is None,
        },
{
    let mut k: usize = levels.len();
    proof {
        assert(levels@.take(levels@.len() as int) =~= levels@);
    }
    while k > 0
        invariant
            k <= levels@.len(),
            size_at(levels@, price) == size_at(levels@.take(k as int), price),
        decreases k,
    {
        proof {
            assert(levels@.take(k as int).last() == levels@[k - 1]);
            assert(levels@.take(k as int).drop_last() =~= levels@.take(k - 1));
        }
        if levels[k - 1].price == price {
            return Some(k - 1);
        }
        k = k - 1;
    }
    None
}

/// Computes the levels of an update event: for every price present before
/// but absent now a size-0 removal, then every level that is new or has a
/// changed size; removals first, each half in its book's order. An empty
/// result means the books agree.
pub fn diff_levels(prev: &Vec<OrderbookLevel>, cur: &Vec<OrderbookLevel>) -> (r: Vec<
    OrderbookLevel,
>)
    ensures
        r@ == spec_diff(prev@, cur@),
{
    let mut out: Vec<OrderbookLevel> = Vec::new();
    let mut i: usize = 0;
    while i < prev.len()
        invariant
            i <= prev@.len(),
            out@ == removal_levels(prev@.take(i as int), cur@),
        decreases prev@.len() - i,
    {
        proof {
            assert(prev@.take(i as int + 1).last() == prev@[i as int]);
            assert(prev@.take(i as int + 1).drop_last() =~= prev@.take(i as int));
        }
        match find_level(cur, prev[i].price) {
            Some(_) => {},
            None => {
                out.push(OrderbookLevel { price: prev[i].price, size: 0 });
            },
        }
        i = i + 1;
    }
    proof {
        assert(prev@.take(prev@.len() as int) =~= prev@);
    }
    let ghost rem = removal_levels(prev@, cur@);
    let mut j: usize = 0;
    while j < cur.len()
        invariant
            j <= cur@.len(),
            out@ == rem + changed_levels(prev@, cur@.take(j as int)),
        decreases cur@.len() - j,
    {
        proof {
            assert(cur@.take(j as int + 1).last() == cur@[j as int]);
            assert(cur@.take(j as int + 1).drop_last() =~= cur@.take(j as int));
        }
        let c = cur[j];
        let changed = match find_level(prev, c.price) {
            Some(k) => prev[k].size != c.size,
            None => true,
        };
        if changed {
            out.push(c);
            proof {
                assert(out@ =~= rem + changed_levels(prev@, cur@.take(j as int)).push(c));
            }
        }
        j = j + 1;
    }
    proof {
        assert(cur@.take(cur@.len() as int) =~= cur@);
    }
    out
}

} // verus!
