use vstd::prelude::*;
use crate::Address;
use crate::chain_data::{
    AccountData, ChainData, SlotData, SlotStatus, sorted_insert, clone_bytes,
};
use crate::orderbook::{
    OrderbookLevel, OrderbookSide, RawOrder, aggregate_levels, clone_levels, diff_levels,
    prices_unique, qty_sum, spec_diff, spec_levels,
};
use crate::slab::{decode_slab_orders, spec_decode_slab};

verus! {

/// Which binary encoding a market's book accounts use; fixed by
/// configuration, never inferred from the bytes.
#[derive(Clone, Copy, Debug, PartialEq, Eq, Structural)]
pub enum BookEncoding {
    Native,
    Legacy,
}

/// Static description of one market, supplied from outside.
#[derive(Debug)]
pub struct MarketConfig {
    pub market: Address,
    pub name: String,
    pub bids: Address,
    pub asks: Address,
    pub base_decimals: u8,
    pub quote_decimals: u8,
    pub encoding: BookEncoding,
}

impl MarketConfig {
    /// The book account of the given side.
    pub open spec fn side_address(self, side: OrderbookSide) -> Address {
        if side is Bid {
            self.bids
        } else {
            self.asks
        }
    }

    /// The book account of the opposite side.
    pub open spec fn other_address(self, side: OrderbookSide) -> Address {
        if side is Bid {
            self.asks
        } else {
            self.bids
        }
    }
}

/// A delta event: only the changed levels, size 0 meaning removal.
#[derive(Debug)]
pub struct OrderbookUpdate {
    pub market: Address,
    pub side: OrderbookSide,
    pub update: Vec<OrderbookLevel>,
    pub slot: u64,
    pub write_version: u64,
}

/// A full-book consistency snapshot of both sides.
#[derive(Debug)]
pub struct OrderbookCheckpoint {
    pub market: Address,
    pub bids: Vec<OrderbookLevel>,
    pub asks: Vec<OrderbookLevel>,
    pub slot: u64,
    pub write_version: u64,
}

/// What the derivation engine emits downstream.
#[derive(Debug)]
pub enum OrderbookFilterMessage {
    Update(OrderbookUpdate),
    Checkpoint(OrderbookCheckpoint),
}

/// An inbound account-state notification.
#[derive(Debug)]
pub struct AccountWrite {
    pub pubkey: Address,
    pub slot: u64,
    pub write_version: u64,
    pub lamports: u64,
    pub owner: Address,
    pub executable: bool,
    pub rent_epoch: u64,
    pub data: Vec<u8>,
}

/// An inbound slot notification.
#[derive(Clone, Copy, Debug)]
pub struct SlotUpdate {
    pub slot: u64,
    pub parent: Option<u64>,
    pub status: SlotStatus,
}

/// Why one side of one market was skipped this pass. The failure is
/// recoverable: the engine keeps the side's last good book and dedup key
/// and goes on with every other market and side.
#[derive(Clone, Copy, Debug)]
pub enum BookDecodeError {
    /// The account bytes do not parse as a book of the market's encoding.
    Malformed { market: Address, side: OrderbookSide, slot: u64 },
    /// Some price's total quantity does not fit in a machine word.
    SizeOverflow { market: Address, side: OrderbookSide, slot: u64 },
}

/// Last fully materialized book and dedup key of one side account.
#[derive(Debug)]
pub struct SideState {
    pub address: Address,
    pub levels: Vec<OrderbookLevel>,
    pub slot: u64,
    pub write_version: u64,
}

/// First side state stored for the given address, scanning from index `i`.
pub open spec fn side_from(s: Seq<SideState>, i: int, addr: Address) -> Option<SideState>
    decreases s.len() - i,
{
    if i < 0 || i >= s.len() {
        None
    } else if s[i].address == addr {
        Some(s[i])
    } else {
        side_from(s, i + 1, addr)
    }
}

proof fn lemma_side_none(s: Seq<SideState>, j: int, q: Address)
    requires
        0 <= j,
        side_from(s, j, q) is None,
    ensures
        forall|i: int| j <= i < s.len() ==> s[i].address != q,
    decreases s.len() - j,
{
    if j < s.len() {
        assert(s[j].address != q);
        lemma_side_none(s, j + 1, q);
    }
}

proof fn lemma_side_update(s: Seq<SideState>, i: int, e: SideState, q: Address, j: int)
    requires
        0 <= i < s.len(),
        e.address == s[i].address,
        forall|a: int, b: int| 0 <= a < b < s.len() ==> s[a].address != s[b].address,
        0 <= j <= s.len(),
    ensures
        side_from(s.update(i, e), j, q) == (if q == e.address && j <= i {
            Some(e)
        } else {
            side_from(s, j, q)
        }),
    decreases s.len() - j,
{
    if j < s.len() {
        if j != i && s[j].address == q && q == e.address {
            if j < i {
                assert(s[j].address != s[i].address);
            } else {
                assert(s[i].address != s[j].address);
            }
        }
        lemma_side_update(s, i, e, q, j + 1);
    }
}

proof fn lemma_side_push(s: Seq<SideState>, e: SideState, q: Address, j: int)
    requires
        0 <= j <= s.len(),
    ensures
        side_from(s.push(e), j, q) == (match side_from(s, j, q) {
            Some(x) => Some(x),
            None => if q == e.address { Some(e) } else { None::<SideState> },
        }),
    decreases s.len() - j,
{
    if j < s.len() {
        lemma_side_push(s, e, q, j + 1);
    } else {
        assert(s.push(e)[j] == e);
        if q != e.address {
            assert(side_from(s.push(e), j + 1, q) is None);
        }
    }
}

/// The order-book derivation engine: a private fork-aware account cache,
/// the market configuration, and per side-account the last materialized
/// book with its dedup key. Single-threaded by design; every operation is
/// synchronous.
pub struct OrderbookEngine {
    chain: ChainData,
    markets: Vec<MarketConfig>,
    sides: Vec<SideState>,
}

impl OrderbookEngine {
    pub closed spec fn chain_state(self) -> ChainData {
        self.chain
    }

    pub closed spec fn markets_seq(self) -> Seq<MarketConfig> {
        self.markets@
    }

    pub closed spec fn sides_seq(self) -> Seq<SideState> {
        self.sides@
    }

    /// The stored state of a side account, if one was materialized.
    pub open spec fn side_state_of(self, a: Address) -> Option<SideState> {
        side_from(self.sides_seq(), 0, a)
    }

    /// The last materialized book of a side account.
    pub open spec fn book_of(self, a: Address) -> Option<Seq<OrderbookLevel>> {
        match self.side_state_of(a) {
            Some(st) => Some(st.levels@),
            None => None,
        }
    }

    /// The dedup key of a side account: slot and write version of the last
    /// account version actually processed.
    pub open spec fn dedup_of(self, a: Address) -> Option<(u64, u64)> {
        match self.side_state_of(a) {
            Some(st) => Some((st.slot, st.write_version)),
            None => None,
        }
    }

    /// The account version a pass over this side would process: the
    /// current resolved version, unless there is none or its key equals
    /// the dedup key (already processed).
    pub open spec fn pending_version(self, a: Address) -> Option<AccountData> {
        match self.chain_state().resolved(a) {
            None => None,
            Some(acc) => if self.dedup_of(a) == Some((acc.slot, acc.write_version)) {
                None
            } else {
                Some(acc)
            },
        }
    }

    /// Whether an address is the bid or ask account of some market.
    pub open spec fn is_relevant(self, a: Address) -> bool {
        exists|i: int|
            0 <= i < self.markets_seq().len() && ((#[trigger] self.markets_seq()[i]).bids == a
                || self.markets_seq()[i].asks == a)
    }

    pub closed spec fn wf(self) -> bool {
        &&& self.chain.wf()
        &&& (forall|i: int, j: int|
            0 <= i < j < self.sides@.len() ==> self.sides@[i].address != self.sides@[j].address)
        &&& (forall|i: int|
            0 <= i < self.sides@.len() ==> prices_unique((#[trigger] self.sides@[i]).levels@))
    }

    /// Every materialized book has pairwise distinct prices.
    pub proof fn lemma_books_unique(self, a: Address)
        requires
            self.wf(),
        ensures
            self.book_of(a) matches Some(levels) ==> prices_unique(levels),
    {
        lemma_side_in_seq(self.sides_seq(), 0, a);
    }

    pub fn new(markets: Vec<MarketConfig>) -> (r: OrderbookEngine)
        ensures
            r.wf(),
            r.markets_seq() == markets@,
            r.sides_seq() =~= Seq::<SideState>::empty(),
            r.chain_state().slots_seq() =~= Seq::<SlotData>::empty(),
            r.chain_state().entries_seq().len() == 0,
    {
        OrderbookEngine { chain: ChainData::new(), markets, sides: Vec::new() }
    }

    fn find_side(&self, a: &Address) -> (r: Option<usize>)
        ensures
            match r {
                Some(i) => i < self.sides@.len() && self.sides@[i as int].address == *a
                    && self.side_state_of(*a) == Some(self.sides@[i as int]),
                None => self.side_state_of(*a) is None,
            },
    {
        let mut i: usize = 0;
        while i < self.sides.len()
            invariant
                i <= self.sides@.len(),
                side_from(self.sides@, 0, *a) == side_from(self.sides@, i as int, *a),
            decreases self.sides@.len() - i,
        {
            if crate::address_eq(&self.sides[i].address, a) {
                return Some(i);
            }
            i = i + 1;
        }
        None
    }

    /// Folds an inbound account write into the private cache, if the
    /// address is a configured book account; any other write is dropped
    /// without effect.
    pub fn apply_account_write(&mut self, w: AccountWrite)
        requires
            old(self).wf(),
        ensures
            final(self).wf(),
            final(self).markets_seq() == old(self).markets_seq(),
            final(self).sides_seq() == old(self).sides_seq(),
            final(self).chain_state().slots_seq() == old(self).chain_state().slots_seq(),
            final(self).chain_state().best_slot_spec() == old(self).chain_state().best_slot_spec(),
            if old(self).is_relevant(w.pubkey) {
                &&& final(self).chain_state().versions_of(w.pubkey) == sorted_insert(
                    old(self).chain_state().versions_of(w.pubkey),
                    write_snapshot(w),
                )
                &&& (forall|a: Address|
                    a != w.pubkey ==> final(self).chain_state().versions_of(a) == old(self).chain_state().versions_of(a))
            } else {
                forall|a: Address|
                    final(self).chain_state().versions_of(a) == old(self).chain_state().versions_of(a)
            },
    {
        let mut relevant: bool = false;
        let mut i: usize = 0;
        while i < self.markets.len()
            invariant
                i <= self.markets@.len(),
                relevant ==> self.is_relevant(w.pubkey),
                !relevant ==> forall|k: int|
                    0 <= k < i ==> !((#[trigger] self.markets@[k]).bids == w.pubkey
                        || self.markets@[k].asks == w.pubkey),
            decreases self.markets@.len() - i,
        {
            if crate::address_eq(&self.markets[i].bids, &w.pubkey) || crate::address_eq(
                &self.markets[i].asks,
                &w.pubkey,
            ) {
                relevant = true;
            }
            i = i + 1;
        }
        if relevant {
            let pubkey = w.pubkey;
            let snapshot = AccountData {
                slot: w.slot,
                write_version: w.write_version,
                lamports: w.lamports,
                owner: w.owner,
                executable: w.executable,
                rent_epoch: w.rent_epoch,
                data: w.data,
            };
            self.chain.update_account(pubkey, snapshot);
        }
    }

    /// Folds an inbound slot notification into the private cache.
    pub fn apply_slot_update(&mut self, u: &SlotUpdate)
        requires
            old(self).wf(),
        ensures
            final(self).wf(),
            final(self).markets_seq() == old(self).markets_seq(),
            final(self).sides_seq() == old(self).sides_seq(),
            final(self).chain_state().entries_seq() == old(self).chain_state().entries_seq(),
            final(self).chain_state().best_slot_spec() == (if old(self).chain_state().best_slot_spec() >= u.slot {
                old(self).chain_state().best_slot_spec()
            } else {
                u.slot
            }),
            final(self).chain_state().slot_rec(u.slot) == Some(
                crate::chain_data::merged_slot_record(
                    old(self).chain_state().slot_rec(u.slot),
                    SlotData { slot: u.slot, parent: u.parent, status: u.status, chain: 0 },
                ),
            ),
            forall|q: u64|
                q != u.slot ==> final(self).chain_state().slot_rec(q) == old(self).chain_state().slot_rec(q),
    {
        self.chain.update_slot(
            SlotData { slot: u.slot, parent: u.parent, status: u.status, chain: 0 },
        );
    }
}

/// What one successful side pass does, relating the engine before and
/// after: the side's book becomes the levels of the decoded orders, its
/// dedup key the processed version, every other side state stays. A
/// checkpoint is emitted iff the opposite side already had a materialized
/// book before the pass; an update is emitted iff the diff against the
/// previous book (empty when none was cached) is non-empty; the checkpoint
/// comes first.
pub open spec fn side_pass_post(
    pre: OrderbookEngine,
    post: OrderbookEngine,
    market_idx: int,
    side: OrderbookSide,
    slot: u64,
    write_version: u64,
    orders: Seq<RawOrder>,
    msgs: Seq<OrderbookFilterMessage>,
) -> bool {
    let cfg = pre.markets_seq()[market_idx];
    let side_addr = cfg.side_address(side);
    let other_addr = cfg.other_address(side);
    let levels = spec_levels(orders);
    let prev = match pre.book_of(side_addr) {
        Some(b) => b,
        None => Seq::empty(),
    };
    let diff = spec_diff(prev, levels);
    let other = pre.book_of(other_addr);
    let n_cp: int = if other is Some {
        1
    } else {
        0
    };
    &&& post.book_of(side_addr) == Some(levels)
    &&& post.dedup_of(side_addr) == Some((slot, write_version))
    &&& (forall|a: Address| a != side_addr ==> post.side_state_of(a) == pre.side_state_of(a))
    &&& msgs.len() == n_cp + (if diff.len() > 0 { 1int } else { 0 })
    &&& (other matches Some(ob) ==> (msgs[0] matches OrderbookFilterMessage::Checkpoint(c)
        && c.market == cfg.market && c.slot == slot && c.write_version == write_version && c.bids@
        == (if side is Bid { levels } else { ob }) && c.asks@ == (if side is Bid { ob } else { levels })))
    &&& (diff.len() > 0 ==> (msgs[n_cp] matches OrderbookFilterMessage::Update(u) && u.market
        == cfg.market && u.side == side && u.slot == slot && u.write_version == write_version
        && u.update@ == diff))
}

/// What one whole side step of a rescan does, whatever its outcome: the
/// cache and configuration are untouched; then, by the side's pending
/// version — nothing pending leaves everything unchanged and contributes
/// nothing; undecodable bytes contribute one malformed-bytes error for
/// this market, side and slot, with the side untouched; decoded orders
/// either complete the pass per `side_pass_post`, or contribute one
/// size-overflow error, with the side untouched, exactly when some
/// price's total quantity overflows.
pub open spec fn side_step_post(
    pre: OrderbookEngine,
    post: OrderbookEngine,
    market_idx: int,
    side: OrderbookSide,
    msgs: Seq<OrderbookFilterMessage>,
    errs: Seq<BookDecodeError>,
) -> bool {
    let cfg = pre.markets_seq()[market_idx];
    let side_addr = cfg.side_address(side);
    &&& post.markets_seq() == pre.markets_seq()
    &&& post.chain_state() == pre.chain_state()
    &&& match pre.pending_version(side_addr) {
        None => msgs.len() == 0 && errs.len() == 0 && post.sides_seq() == pre.sides_seq(),
        Some(acc) => match spec_decode_slab(acc.data@, side is Bid) {
            None => msgs.len() == 0 && errs.len() == 1 && (
            errs[0] matches BookDecodeError::Malformed { market, side: es, slot: el } && market
                == cfg.market && es == side && el == acc.slot) && post.sides_seq()
                == pre.sides_seq(),
            Some(orders) => {
                ||| (errs.len() == 0 && side_pass_post(
                    pre,
                    post,
                    market_idx,
                    side,
                    acc.slot,
                    acc.write_version,
                    orders,
                    msgs,
                ))
                ||| (msgs.len() == 0 && errs.len() == 1 && (
                errs[0] matches BookDecodeError::SizeOverflow { market, side: es, slot: el }
                    && market == cfg.market && es == side && el == acc.slot) && (exists|k: int|
                    0 <= k < orders.len() && qty_sum(orders, (#[trigger] orders[k]).price)
                        > u64::MAX) && post.sides_seq() == pre.sides_seq())
            },
        },
    }
}

/// One recorded step of a rescan: the engine before the market's bids
/// pass, between the two side passes, and after the asks pass, with each
/// half's messages and errors.
pub ghost struct PassStep {
    pub before: OrderbookEngine,
    pub mid: OrderbookEngine,
    pub after: OrderbookEngine,
    pub bid_msgs: Seq<OrderbookFilterMessage>,
    pub bid_errs: Seq<BookDecodeError>,
    pub ask_msgs: Seq<OrderbookFilterMessage>,
    pub ask_errs: Seq<BookDecodeError>,
}

/// What a rescan does at market `i`: a native-encoded market is left
/// alone and contributes nothing; a legacy-encoded market runs the bids
/// step and then the asks step, each per `side_step_post`.
pub open spec fn step_ok(markets: Seq<MarketConfig>, st: PassStep, i: int) -> bool {
    if markets[i].encoding is Native {
        &&& st.mid == st.before
        &&& st.after == st.before
        &&& st.bid_msgs.len() == 0
        &&& st.bid_errs.len() == 0
        &&& st.ask_msgs.len() == 0
        &&& st.ask_errs.len() == 0
    } else {
        &&& side_step_post(st.before, st.mid, i, OrderbookSide::Bid, st.bid_msgs, st.bid_errs)
        &&& side_step_post(st.mid, st.after, i, OrderbookSide::Ask, st.ask_msgs, st.ask_errs)
    }
}

/// The messages of a rescan: each step's, bids before asks, in market
/// order.
pub open spec fn steps_msgs(steps: Seq<PassStep>) -> Seq<OrderbookFilterMessage>
    decreases steps.len(),
{
    if steps.len() == 0 {
        Seq::empty()
    } else {
        steps_msgs(steps.drop_last()) + steps.last().bid_msgs + steps.last().ask_msgs
    }
}

/// The recoverable errors of a rescan, in the same order.
pub open spec fn steps_errs(steps: Seq<PassStep>) -> Seq<BookDecodeError>
    decreases steps.len(),
{
    if steps.len() == 0 {
        Seq::empty()
    } else {
        steps_errs(steps.drop_last()) + steps.last().bid_errs + steps.last().ask_errs
    }
}

/// A whole rescan from `pre` to `post`: one step per configured market,
/// each correct for its market, chained through the intermediate engine
/// states from `pre` to `post`.
pub open spec fn pass_trace_ok(
    markets: Seq<MarketConfig>,
    pre: OrderbookEngine,
    post: OrderbookEngine,
    steps: Seq<PassStep>,
) -> bool {
    &&& steps.len() == markets.len()
    &&& (forall|i: int| 0 <= i < steps.len() ==> step_ok(markets, #[trigger] steps[i], i))
    &&& (forall|i: int|
        0 <= i < steps.len() ==> (#[trigger] steps[i]).before.markets_seq() == markets)
    &&& (forall|i: int|
        0 < i < steps.len() ==> (#[trigger] steps[i]).before == steps[i - 1].after)
    &&& (steps.len() > 0 ==> steps[0].before == pre && steps.last().after == post)
    &&& (steps.len() == 0 ==> post == pre)
}

impl OrderbookEngine {
    /// Step one of a side pass: the version to process. Returns the slot,
    /// write version and account bytes of the side's current resolved
    /// version, or nothing when the cache resolves no version or the
    /// resolved version's key equals the side's dedup key.
    pub fn side_pending(&self, side_address: &Address) -> (r: Option<(u64, u64, Vec<u8>)>)
        requires
            self.wf(),
        ensures
            match r {
                Some(p) => self.pending_version(*side_address) matches Some(acc) && p.0 == acc.slot
                    && p.1 == acc.write_version && p.2@ == acc.data@,
                None => self.pending_version(*side_address) is None,
            },
    {
        match self.chain.account(side_address) {
            None => None,
            Some(acc) => {
                let slot = acc.slot;
                let write_version = acc.write_version;
                let skip = match self.find_side(side_address) {
                    Some(i) => self.sides[i].slot == slot && self.sides[i].write_version
                        == write_version,
                    None => false,
                };
                if skip {
                    None
                } else {
                    Some((slot, write_version, clone_bytes(&acc.data)))
                }
            },
        }
    }

    /// Steps three to six of a side pass, on already-decoded raw orders:
    /// aggregate them into levels, diff against the previous book, emit a
    /// checkpoint iff the opposite side is materialized and an update iff
    /// the diff is non-empty, then overwrite the side's book and dedup
    /// key. Fails, leaving all state untouched, exactly when some price's
    /// total quantity overflows.
    pub fn apply_side_orders(
        &mut self,
        market_idx: usize,
        side: OrderbookSide,
        slot: u64,
        write_version: u64,
        orders: &Vec<RawOrder>,
    ) -> (r: Result<Vec<OrderbookFilterMessage>, BookDecodeError>)
        requires
            old(self).wf(),
            market_idx < old(self).markets_seq().len(),
        ensures
            final(self).wf(),
            final(self).markets_seq() == old(self).markets_seq(),
            final(self).chain_state() == old(self).chain_state(),
            match r {
                Err(e) => {
                    &&& final(self).sides_seq() == old(self).sides_seq()
                    &&& (exists|k: int|
                        0 <= k < orders@.len() && qty_sum(orders@, (#[trigger] orders@[k]).price)
                            > u64::MAX)
                    &&& (e matches BookDecodeError::SizeOverflow { market, side: es, slot: el }
                        && market == old(self).markets_seq()[market_idx as int].market && es == side
                        && el == slot)
                },
                Ok(msgs) => side_pass_post(
                    *old(self),
                    *final(self),
                    market_idx as int,
                    side,
                    slot,
                    write_version,
                    orders@,
                    msgs@,
                ),
            },
    {
        let cfg_market = self.markets[market_idx].market;
        let cfg_bids = self.markets[market_idx].bids;
        let cfg_asks = self.markets[market_idx].asks;
        let is_bid = match side {
            OrderbookSide::Bid => true,
            OrderbookSide::Ask => false,
        };
        let side_addr = if is_bid {
            cfg_bids
        } else {
            cfg_asks
        };
        let other_addr = if is_bid {
            cfg_asks
        } else {
            cfg_bids
        };
        let levels = match aggregate_levels(orders) {
            Some(l) => l,
            None => {
                return Err(
                    BookDecodeError::SizeOverflow { market: cfg_market, side, slot },
                );
            },
        };
        proof {
            assert(levels@ =~= spec_levels(orders@));
        }
        let prev: Vec<OrderbookLevel> = match self.find_side(&side_addr) {
            Some(i) => clone_levels(&self.sides[i].levels),
            None => Vec::new(),
        };
        proof {
            assert(prev@ == (match old(self).book_of(side_addr) {
                Some(b) => b,
                None => Seq::<OrderbookLevel>::empty(),
            }));
        }
        let diff = diff_levels(&prev, &levels);
        let mut msgs: Vec<OrderbookFilterMessage> = Vec::new();
        match self.find_side(&other_addr) {
            Some(oi) => {
                let ob = clone_levels(&self.sides[oi].levels);
                let side_copy = clone_levels(&levels);
                let (bids_v, asks_v) = if is_bid {
                    (side_copy, ob)
                } else {
                    (ob, side_copy)
                };
                msgs.push(
                    OrderbookFilterMessage::Checkpoint(
                        OrderbookCheckpoint {
                            market: cfg_market,
                            bids: bids_v,
                            asks: asks_v,
                            slot,
                            write_version,
                        },
                    ),
                );
            },
            None => {},
        }
        let has_update = diff.len() > 0;
        if has_update {
            msgs.push(
                OrderbookFilterMessage::Update(
                    OrderbookUpdate {
                        market: cfg_market,
                        side,
                        update: diff,
                        slot,
                        write_version,
                    },
                ),
            );
        }
        let st = SideState { address: side_addr, levels, slot, write_version };
        let ghost st_snap = st;
        let ghost sides0 = self.sides@;
        match self.find_side(&side_addr) {
            Some(i) => {
                self.sides.set(i, st);
                proof {
                    lemma_side_update(sides0, i as int, st_snap, side_addr, 0);
                    assert forall|a: Address| a != side_addr implies side_from(self.sides@, 0, a)
                        == side_from(sides0, 0, a) by {
                        lemma_side_update(sides0, i as int, st_snap, a, 0);
                    }
                }
            },
            None => {
                proof {
                    lemma_side_none(sides0, 0, side_addr);
                }
                self.sides.push(st);
                proof {
                    lemma_side_push(sides0, st_snap, side_addr, 0);
                    assert forall|a: Address| a != side_addr implies side_from(self.sides@, 0, a)
                        == side_from(sides0, 0, a) by {
                        lemma_side_push(sides0, st_snap, a, 0);
                    }
                }
            },
        }
        Ok(msgs)
    }

    /// One whole pass over one side of a legacy-encoded market: dedup
    /// gate, decode, then `apply_side_orders`; bids iterate the tree
    /// ascending, asks descending. Nothing pending means an empty result;
    /// a failure leaves the side's book and dedup key untouched, so the
    /// engine carries on with its last good snapshot.
    pub fn process_legacy_side(&mut self, market_idx: usize, side: OrderbookSide) -> (r: Result<
        Vec<OrderbookFilterMessage>,
        BookDecodeError,
    >)
        requires
            old(self).wf(),
            market_idx < old(self).markets_seq().len(),
        ensures
            final(self).wf(),
            final(self).markets_seq() == old(self).markets_seq(),
            final(self).chain_state() == old(self).chain_state(),
            ({
                let cfg = old(self).markets_seq()[market_idx as int];
                let side_addr = cfg.side_address(side);
                match old(self).pending_version(side_addr) {
                    None => r matches Ok(m) && m@.len() == 0 && final(self).sides_seq() == old(self).sides_seq(),
                    Some(acc) => match spec_decode_slab(acc.data@, side is Bid) {
                        None => r matches Err(e) && (e matches BookDecodeError::Malformed {
                            market,
                            side: es,
                            slot: el,
                        } && market == cfg.market && es == side && el == acc.slot) && final(self).sides_seq() == old(self).sides_seq(),
                        Some(orders) => match r {
                            Ok(msgs) => side_pass_post(
                                *old(self),
                                *final(self),
                                market_idx as int,
                                side,
                                acc.slot,
                                acc.write_version,
                                orders,
                                msgs@,
                            ),
                            Err(e) => (e matches BookDecodeError::SizeOverflow {
                                market,
                                side: es,
                                slot: el,
                            } && market == cfg.market && es == side && el == acc.slot) && (
                            exists|k: int|
                                0 <= k < orders.len() && qty_sum(orders, (#[trigger] orders[k]).price)
                                    > u64::MAX) && final(self).sides_seq() == old(self).sides_seq(),
                        },
                    },
                }
            }),
    {
        let is_bid = match side {
            OrderbookSide::Bid => true,
            OrderbookSide::Ask => false,
        };
        let side_addr = if is_bid {
            self.markets[market_idx].bids
        } else {
            self.markets[market_idx].asks
        };
        let cfg_market = self.markets[market_idx].market;
        match self.side_pending(&side_addr) {
            None => Ok(Vec::new()),
            Some((slot, write_version, bytes)) => {
                match decode_slab_orders(&bytes, is_bid) {
                    None => Err(
                        BookDecodeError::Malformed { market: cfg_market, side, slot },
                    ),
                    Some(orders) => {
                        let r = self.apply_side_orders(
                            market_idx,
                            side,
                            slot,
                            write_version,
                            &orders,
                        );
                        proof {
                            if r is Err {
                                let cfg = old(self).markets_seq()[market_idx as int];
                                let acc = old(self).pending_version(cfg.side_address(side)).unwrap();
                                assert(bytes@ == acc.data@);
                                assert(spec_decode_slab(acc.data@, side is Bid) == Some(orders@));
                                let sorders = spec_decode_slab(acc.data@, side is Bid).unwrap();
                                assert(sorders == orders@);
                                let k = choose|k: int|
                                    0 <= k < orders@.len() && qty_sum(
                                        orders@,
                                        (#[trigger] orders@[k]).price,
                                    ) > u64::MAX;
                                assert(sorders[k] == orders@[k]);
                                assert(qty_sum(sorders, sorders[k].price) > u64::MAX);
                                assert(exists|kk: int|
                                    0 <= kk < sorders.len() && qty_sum(
                                        sorders,
                                        (#[trigger] sorders[kk]).price,
                                    ) > u64::MAX);
                            }
                        }
                        r
                    },
                }
            },
        }
    }

    /// Whether an address is a book account of some legacy-encoded market.
    pub open spec fn is_legacy_side(self, a: Address) -> bool {
        exists|i: int|
            0 <= i < self.markets_seq().len() && (#[trigger] self.markets_seq()[i]).encoding
                is Legacy && (self.markets_seq()[i].bids == a || self.markets_seq()[i].asks == a)
    }

    /// One full rescan: for every legacy-encoded market and both its
    /// sides, runs the side pass, collecting the emitted messages in
    /// market order (bids before asks) and a recoverable error for every
    /// side whose bytes failed to decode. The whole pass is pinned by a
    /// trace: some per-market step sequence satisfies `pass_trace_ok`,
    /// whose messages and errors are exactly the ones returned, so every
    /// legacy market's pending work is processed per `side_step_post`.
    /// Native-encoded markets are driven through `side_pending` and
    /// `apply_side_orders` by the caller, who owns their decoder.
    pub fn run_legacy_pass(&mut self) -> (r: (Vec<OrderbookFilterMessage>, Vec<BookDecodeError>))
        requires
            old(self).wf(),
        ensures
            final(self).wf(),
            final(self).markets_seq() == old(self).markets_seq(),
            final(self).chain_state() == old(self).chain_state(),
            forall|a: Address|
                !old(self).is_legacy_side(a) ==> final(self).side_state_of(a) == old(
                    self,
                ).side_state_of(a),
            exists|steps: Seq<PassStep>|
                #[trigger] pass_trace_ok(
                    old(self).markets_seq(),
                    *old(self),
                    *final(self),
                    steps,
                ) && r.0@ == steps_msgs(steps) && r.1@ == steps_errs(steps),
    {
        let mut msgs: Vec<OrderbookFilterMessage> = Vec::new();
        let mut errors: Vec<BookDecodeError> = Vec::new();
        let mut i: usize = 0;
        let ghost markets0 = old(self).markets_seq();
        let ghost mut steps: Seq<PassStep> = Seq::empty();
        while i < self.markets.len()
            invariant
                self.wf(),
                self.markets_seq() == old(self).markets_seq(),
                self.chain_state() == old(self).chain_state(),
                markets0 == old(self).markets_seq(),
                i <= self.markets@.len(),
                forall|a: Address|
                    !old(self).is_legacy_side(a) ==> self.side_state_of(a) == old(
                        self,
                    ).side_state_of(a),
                steps.len() == i,
                forall|k: int| 0 <= k < steps.len() ==> step_ok(markets0, #[trigger] steps[k], k),
                forall|k: int|
                    0 <= k < steps.len() ==> (#[trigger] steps[k]).before.markets_seq()
                        == markets0,
                forall|k: int|
                    0 < k < steps.len() ==> (#[trigger] steps[k]).before == steps[k - 1].after,
                steps.len() > 0 ==> steps[0].before == *old(self) && steps.last().after == *self,
                steps.len() == 0 ==> *self == *old(self),
                msgs@ == steps_msgs(steps),
                errors@ == steps_errs(steps),
            decreases self.markets@.len() - i,
        {
            let is_legacy = match self.markets[i].encoding {
                BookEncoding::Legacy => true,
                BookEncoding::Native => false,
            };
            let ghost before = *self;
            let ghost msgs0 = msgs@;
            let ghost errs0 = errors@;
            let ghost mut st = PassStep {
                before,
                mid: before,
                after: before,
                bid_msgs: Seq::empty(),
                bid_errs: Seq::empty(),
                ask_msgs: Seq::empty(),
                ask_errs: Seq::empty(),
            };
            if is_legacy {
                let r1 = self.process_legacy_side(i, OrderbookSide::Bid);
                let ghost m1 = match r1 {
                    Ok(ref m) => m@,
                    Err(_) => Seq::<OrderbookFilterMessage>::empty(),
                };
                let ghost e1 = match r1 {
                    Ok(_) => Seq::<BookDecodeError>::empty(),
                    Err(e) => seq![e],
                };
                match r1 {
                    Ok(mut m) => {
                        msgs.append(&mut m);
                    },
                    Err(e) => {
                        errors.push(e);
                    },
                }
                proof {
                    assert(side_step_post(before, *self, i as int, OrderbookSide::Bid, m1, e1));
                    assert(msgs@ =~= msgs0 + m1);
                    assert(errors@ =~= errs0 + e1);
                    assert forall|a: Address| !old(self).is_legacy_side(a) implies self
                        .side_state_of(a) == old(self).side_state_of(a) by {
                        assert(old(self).is_legacy_side(before.markets_seq()[i as int].bids));
                        assert(self.side_state_of(a) == before.side_state_of(a));
                    }
                }
                let ghost mid = *self;
                let ghost msgs1 = msgs@;
                let ghost errs1 = errors@;
                let r2 = self.process_legacy_side(i, OrderbookSide::Ask);
                let ghost m2 = match r2 {
                    Ok(ref m) => m@,
                    Err(_) => Seq::<OrderbookFilterMessage>::empty(),
                };
                let ghost e2 = match r2 {
                    Ok(_) => Seq::<BookDecodeError>::empty(),
                    Err(e) => seq![e],
                };
                match r2 {
                    Ok(mut m) => {
                        msgs.append(&mut m);
                    },
                    Err(e) => {
                        errors.push(e);
                    },
                }
                proof {
                    assert(side_step_post(mid, *self, i as int, OrderbookSide::Ask, m2, e2));
                    assert(msgs@ =~= msgs1 + m2);
                    assert(errors@ =~= errs1 + e2);
                    assert forall|a: Address| !old(self).is_legacy_side(a) implies self
                        .side_state_of(a) == old(self).side_state_of(a) by {
                        assert(old(self).is_legacy_side(mid.markets_seq()[i as int].asks));
                        assert(self.side_state_of(a) == mid.side_state_of(a));
                    }
                    st = PassStep {
                        before,
                        mid,
                        after: *self,
                        bid_msgs: m1,
                        bid_errs: e1,
                        ask_msgs: m2,
                        ask_errs: e2,
                    };
                }
            }
            proof {
                assert(step_ok(markets0, st, i as int));
                let prev_steps = steps;
                steps = steps.push(st);
                assert(steps.drop_last() =~= prev_steps);
                assert(steps.last() == st);
                assert(msgs@ =~= steps_msgs(prev_steps) + st.bid_msgs + st.ask_msgs);
                assert(errors@ =~= steps_errs(prev_steps) + st.bid_errs + st.ask_errs);
            }
            i = i + 1;
        }
        proof {
            assert(pass_trace_ok(markets0, *old(self), *self, steps));
        }
        (msgs, errors)
    }
}

/// The cache snapshot an inbound account write denotes.
pub open spec fn write_snapshot(w: AccountWrite) -> AccountData {
    AccountData {
        slot: w.slot,
        write_version: w.write_version,
        lamports: w.lamports,
        owner: w.owner,
        executable: w.executable,
        rent_epoch: w.rent_epoch,
        data: w.data,
    }
}

/// The market an emitted message concerns.
pub open spec fn message_market(m: OrderbookFilterMessage) -> Address {
    match m {
        OrderbookFilterMessage::Update(u) => u.market,
        OrderbookFilterMessage::Checkpoint(c) => c.market,
    }
}

/// The slot an emitted message is tagged with.
pub open spec fn message_slot(m: OrderbookFilterMessage) -> u64 {
    match m {
        OrderbookFilterMessage::Update(u) => u.slot,
        OrderbookFilterMessage::Checkpoint(c) => c.slot,
    }
}

/// The write version an emitted message is tagged with.
pub open spec fn message_write_version(m: OrderbookFilterMessage) -> u64 {
    match m {
        OrderbookFilterMessage::Update(u) => u.write_version,
        OrderbookFilterMessage::Checkpoint(c) => c.write_version,
    }
}

proof fn lemma_side_pass_msg_fields(
    pre: OrderbookEngine,
    post: OrderbookEngine,
    market_idx: int,
    side: OrderbookSide,
    slot: u64,
    write_version: u64,
    orders: Seq<RawOrder>,
    msgs: Seq<OrderbookFilterMessage>,
    k: int,
)
    requires
        0 <= market_idx < pre.markets_seq().len(),
        side_pass_post(pre, post, market_idx, side, slot, write_version, orders, msgs),
        0 <= k < msgs.len(),
    ensures
        message_market(msgs[k]) == pre.markets_seq()[market_idx].market,
        message_slot(msgs[k]) == slot,
        message_write_version(msgs[k]) == write_version,
{
    let cfg = pre.markets_seq()[market_idx];
    let other = pre.book_of(cfg.other_address(side));
    let levels = spec_levels(orders);
    let prev = match pre.book_of(cfg.side_address(side)) {
        Some(b) => b,
        None => Seq::<OrderbookLevel>::empty(),
    };
    let diff = spec_diff(prev, levels);
    let n_cp: int = if other is Some {
        1
    } else {
        0
    };
    if k == 0 && other is Some {
        assert(msgs[0] matches OrderbookFilterMessage::Checkpoint(_));
    } else {
        assert(k == n_cp && diff.len() > 0);
        assert(msgs[k] matches OrderbookFilterMessage::Update(_));
    }
}

/// Every message a rescan emits is attributed: it concerns a configured
/// legacy-encoded market, and it is tagged with the slot and write
/// version of a version that was pending for that market's bids or asks
/// account when its step ran.
pub proof fn lemma_pass_messages_attributed(
    markets: Seq<MarketConfig>,
    steps: Seq<PassStep>,
    k: int,
)
    requires
        steps.len() <= markets.len(),
        forall|i: int| 0 <= i < steps.len() ==> step_ok(markets, #[trigger] steps[i], i),
        forall|i: int|
            0 <= i < steps.len() ==> (#[trigger] steps[i]).before.markets_seq() == markets,
        0 <= k < steps_msgs(steps).len(),
    ensures
        exists|i: int|
            #![trigger steps[i]]
            0 <= i < steps.len() && markets[i].encoding is Legacy && message_market(
                steps_msgs(steps)[k],
            ) == markets[i].market && ((steps[i].before.pending_version(markets[i].bids)
                matches Some(acc) && message_slot(steps_msgs(steps)[k]) == acc.slot
                && message_write_version(steps_msgs(steps)[k]) == acc.write_version) || (
            steps[i].mid.pending_version(markets[i].asks) matches Some(acc)
                && message_slot(steps_msgs(steps)[k]) == acc.slot && message_write_version(
                steps_msgs(steps)[k],
            ) == acc.write_version)),
    decreases steps.len(),
{
    let dl = steps.drop_last();
    let prefix = steps_msgs(dl);
    let last = steps.last();
    let all = steps_msgs(steps);
    assert(all == prefix + last.bid_msgs + last.ask_msgs);
    if k < prefix.len() {
        assert(forall|i: int| 0 <= i < dl.len() ==> dl[i] == steps[i]);
        assert(forall|i: int| 0 <= i < dl.len() ==> step_ok(markets, #[trigger] dl[i], i));
        assert(forall|i: int|
            0 <= i < dl.len() ==> (#[trigger] dl[i]).before.markets_seq() == markets);
        lemma_pass_messages_attributed(markets, dl, k);
        let i = choose|i: int|
            #![trigger dl[i]]
            0 <= i < dl.len() && markets[i].encoding is Legacy && message_market(
                steps_msgs(dl)[k],
            ) == markets[i].market && ((dl[i].before.pending_version(markets[i].bids)
                matches Some(acc) && message_slot(steps_msgs(dl)[k]) == acc.slot
                && message_write_version(steps_msgs(dl)[k]) == acc.write_version) || (
            dl[i].mid.pending_version(markets[i].asks) matches Some(acc) && message_slot(
                steps_msgs(dl)[k],
            ) == acc.slot && message_write_version(steps_msgs(dl)[k]) == acc.write_version));
        assert(dl[i] == steps[i]);
        assert(all[k] == prefix[k]);
    } else {
        let i = steps.len() - 1;
        let cfg = markets[i];
        assert(steps[i] == last);
        assert(step_ok(markets, steps[i], i));
        assert(last.before.markets_seq() == markets);
        if markets[i].encoding is Native {
            assert(false);
        }
        assert(last.mid.markets_seq() == markets);
        assert(side_step_post(last.before, last.mid, i, OrderbookSide::Bid, last.bid_msgs, last.bid_errs));
        assert(side_step_post(last.mid, last.after, i, OrderbookSide::Ask, last.ask_msgs, last.ask_errs));
        if k < prefix.len() + last.bid_msgs.len() {
            let k2 = k - prefix.len();
            assert(all[k] == last.bid_msgs[k2]);
            let acc = last.before.pending_version(cfg.side_address(OrderbookSide::Bid)).unwrap();
            lemma_side_pass_msg_fields(
                last.before,
                last.mid,
                i,
                OrderbookSide::Bid,
                acc.slot,
                acc.write_version,
                crate::slab::spec_decode_slab(acc.data@, true).unwrap(),
                last.bid_msgs,
                k2,
            );
        } else {
            let k2 = k - prefix.len() - last.bid_msgs.len();
            assert(all[k] == last.ask_msgs[k2]);
            let acc = last.mid.pending_version(cfg.side_address(OrderbookSide::Ask)).unwrap();
            lemma_side_pass_msg_fields(
                last.mid,
                last.after,
                i,
                OrderbookSide::Ask,
                acc.slot,
                acc.write_version,
                crate::slab::spec_decode_slab(acc.data@, false).unwrap(),
                last.ask_msgs,
                k2,
            );
        }
    }
}

/// Checkpoint gating: a pass over side S emits a checkpoint exactly when
/// the opposite side already had a materialized book before the pass.
pub proof fn lemma_checkpoint_gating(
    pre: OrderbookEngine,
    post: OrderbookEngine,
    market_idx: int,
    side: OrderbookSide,
    slot: u64,
    write_version: u64,
    orders: Seq<RawOrder>,
    msgs: Seq<OrderbookFilterMessage>,
)
    requires
        0 <= market_idx < pre.markets_seq().len(),
        side_pass_post(pre, post, market_idx, side, slot, write_version, orders, msgs),
    ensures
        (exists|k: int|
            0 <= k < msgs.len() && (#[trigger] msgs[k]) matches OrderbookFilterMessage::Checkpoint(
                _,
            )) <==> pre.book_of(pre.markets_seq()[market_idx].other_address(side)) is Some,
{
    let cfg = pre.markets_seq()[market_idx];
    let other = pre.book_of(cfg.other_address(side));
    let levels = spec_levels(orders);
    let prev = match pre.book_of(cfg.side_address(side)) {
        Some(b) => b,
        None => Seq::<OrderbookLevel>::empty(),
    };
    let diff = spec_diff(prev, levels);
    if other is Some {
        assert(msgs[0] matches OrderbookFilterMessage::Checkpoint(_));
    } else {
        assert forall|k: int| 0 <= k < msgs.len() implies !((#[trigger] msgs[k])
            matches OrderbookFilterMessage::Checkpoint(_)) by {
            assert(k == 0 && diff.len() > 0);
            assert(msgs[0] matches OrderbookFilterMessage::Update(_));
        }
    }
}

/// Uniqueness of everything a side pass emits: the level list of an
/// update and both books a checkpoint carries are price-unique.
pub proof fn lemma_emitted_levels_unique(
    pre: OrderbookEngine,
    post: OrderbookEngine,
    market_idx: int,
    side: OrderbookSide,
    slot: u64,
    write_version: u64,
    orders: Seq<RawOrder>,
    msgs: Seq<OrderbookFilterMessage>,
)
    requires
        pre.wf(),
        0 <= market_idx < pre.markets_seq().len(),
        side_pass_post(pre, post, market_idx, side, slot, write_version, orders, msgs),
    ensures
        forall|k: int|
            0 <= k < msgs.len() ==> (match #[trigger] msgs[k] {
                OrderbookFilterMessage::Update(u) => prices_unique(u.update@),
                OrderbookFilterMessage::Checkpoint(c) => prices_unique(c.bids@) && prices_unique(
                    c.asks@,
                ),
            }),
{
    let cfg = pre.markets_seq()[market_idx];
    let other = pre.book_of(cfg.other_address(side));
    let levels = spec_levels(orders);
    let prev = match pre.book_of(cfg.side_address(side)) {
        Some(b) => b,
        None => Seq::<OrderbookLevel>::empty(),
    };
    crate::orderbook::lemma_spec_levels_unique(orders);
    pre.lemma_books_unique(cfg.side_address(side));
    pre.lemma_books_unique(cfg.other_address(side));
    assert(prices_unique(prev));
    crate::orderbook::lemma_diff_unique(prev, levels);
    let diff = spec_diff(prev, levels);
    let n_cp: int = if other is Some {
        1
    } else {
        0
    };
    assert forall|k: int| 0 <= k < msgs.len() implies (match #[trigger] msgs[k] {
        OrderbookFilterMessage::Update(u) => prices_unique(u.update@),
        OrderbookFilterMessage::Checkpoint(c) => prices_unique(c.bids@) && prices_unique(c.asks@),
    }) by {
        if k == 0 && other is Some {
            assert(msgs[0] matches OrderbookFilterMessage::Checkpoint(_));
        } else {
            assert(k == n_cp && diff.len() > 0);
            assert(msgs[k] matches OrderbookFilterMessage::Update(_));
        }
    }
}

/// Diff correctness at the emission: when a side pass emits an update,
/// applying its levels to the book cached before the pass — removing the
/// prices whose entry has size 0, upserting the rest — yields, price for
/// price, exactly the book cached after the pass. Stated for passes whose
/// new book has no zero-size level, since a zero size in an update means
/// removal.
pub proof fn lemma_update_applies(
    pre: OrderbookEngine,
    post: OrderbookEngine,
    market_idx: int,
    side: OrderbookSide,
    slot: u64,
    write_version: u64,
    orders: Seq<RawOrder>,
    msgs: Seq<OrderbookFilterMessage>,
    k: int,
)
    requires
        pre.wf(),
        0 <= market_idx < pre.markets_seq().len(),
        side_pass_post(pre, post, market_idx, side, slot, write_version, orders, msgs),
        forall|j: int|
            0 <= j < spec_levels(orders).len() ==> (#[trigger] spec_levels(orders)[j]).size != 0,
        0 <= k < msgs.len(),
        msgs[k] matches OrderbookFilterMessage::Update(_),
    ensures
        ({
            let cfg = pre.markets_seq()[market_idx];
            let prev = match pre.book_of(cfg.side_address(side)) {
                Some(b) => b,
                None => Seq::<OrderbookLevel>::empty(),
            };
            let new_book = post.book_of(cfg.side_address(side)).unwrap();
            msgs[k] matches OrderbookFilterMessage::Update(u) ==> forall|q: u64|
                crate::orderbook::size_at(
                    crate::orderbook::apply_update(prev, u.update@),
                    q,
                ) == crate::orderbook::size_at(new_book, q)
        }),
{
    let cfg = pre.markets_seq()[market_idx];
    let side_addr = cfg.side_address(side);
    let other = pre.book_of(cfg.other_address(side));
    let levels = spec_levels(orders);
    let prev = match pre.book_of(side_addr) {
        Some(b) => b,
        None => Seq::<OrderbookLevel>::empty(),
    };
    let diff = spec_diff(prev, levels);
    let n_cp: int = if other is Some {
        1
    } else {
        0
    };
    assert(k == n_cp && diff.len() > 0) by {
        if other is Some && k == 0 {
            assert(msgs[0] matches OrderbookFilterMessage::Checkpoint(_));
        }
    }
    crate::orderbook::lemma_spec_levels_unique(orders);
    pre.lemma_books_unique(side_addr);
    assert(prices_unique(prev));
    crate::orderbook::lemma_diff_apply(prev, levels);
}

/// Dedup idempotence: replaying an account write whose (slot, write_version)
/// key the cache already stores, onto a side that had nothing pending,
/// leaves nothing pending. The next pass over that side therefore emits
/// neither an update nor a checkpoint and changes no state (see the
/// nothing-pending arm of `process_legacy_side`). The last four premises
/// are what `apply_account_write` ensures of the replay.
pub proof fn lemma_dedup_idempotent(pre: OrderbookEngine, post: OrderbookEngine, w: AccountWrite)
    requires
        pre.wf(),
        exists|k: int|
            0 <= k < pre.chain_state().versions_of(w.pubkey).len() && crate::chain_data::vkey_eq(
                #[trigger] pre.chain_state().versions_of(w.pubkey)[k],
                write_snapshot(w),
            ),
        pre.pending_version(w.pubkey) is None,
        post.chain_state().slots_seq() == pre.chain_state().slots_seq(),
        post.chain_state().best_slot_spec() == pre.chain_state().best_slot_spec(),
        post.chain_state().versions_of(w.pubkey) == sorted_insert(
            pre.chain_state().versions_of(w.pubkey),
            write_snapshot(w),
        ),
        post.sides_seq() == pre.sides_seq(),
    ensures
        post.pending_version(w.pubkey) is None,
{
    crate::chain_data::lemma_wf_versions_sorted(pre.chain_state(), w.pubkey);
    crate::chain_data::lemma_resolve_replace(
        pre.chain_state().slots_seq(),
        pre.chain_state().best_slot_spec(),
        pre.chain_state().versions_of(w.pubkey),
        write_snapshot(w),
    );
}

proof fn lemma_side_in_seq(s: Seq<SideState>, j: int, q: Address)
    requires
        0 <= j,
    ensures
        side_from(s, j, q) matches Some(st) ==> exists|k: int|
            j <= k < s.len() && s[k] == st,
    decreases s.len() - j,
{
    if j < s.len() {
        lemma_side_in_seq(s, j + 1, q);
        if s[j].address == q {
            assert(side_from(s, j, q) == Some(s[j]));
        }
    }
}

} // verus!
