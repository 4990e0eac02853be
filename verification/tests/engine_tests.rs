use orderbook_feed::Address;
use orderbook_feed::chain_data::SlotStatus;
use orderbook_feed::engine::{
    AccountWrite, BookDecodeError, BookEncoding, MarketConfig, OrderbookEngine,
    OrderbookFilterMessage, SlotUpdate,
};
use orderbook_feed::orderbook::{OrderbookLevel, OrderbookSide};

fn addr(n: u64) -> Address {
    Address { hi: n as u128, lo: n as u128 }
}

fn put32(buf: &mut Vec<u8>, off: usize, v: u32) {
    for k in 0..4 {
        buf[off + k] = (v >> (8 * k)) as u8;
    }
}

fn put64(buf: &mut Vec<u8>, off: usize, v: u64) {
    for k in 0..8 {
        buf[off + k] = (v >> (8 * k)) as u8;
    }
}

/// A one-or-many-leaf legacy book account holding the given levels, laid
/// out as a left-spine tree so that ascending iteration yields them in
/// the given order.
fn book_account(levels: &[(u64, u64)]) -> Vec<u8> {
    if levels.is_empty() {
        let mut buf = vec![0u8; 5 + 8 + 32 + 7];
        put64(&mut buf, 37, 0);
        return buf;
    }
    let n_inner = levels.len() - 1;
    let n_nodes = levels.len() + n_inner;
    let mut buf = vec![0u8; 5 + 8 + 32 + 72 * n_nodes + 7];
    put64(&mut buf, 37, levels.len() as u64);
    // leaves are nodes 0..len, inner nodes follow; inner node i has
    // children (previous subtree, leaf i+1)
    for (i, (price, qty)) in levels.iter().enumerate() {
        let base = 45 + 72 * i;
        put32(&mut buf, base, 2);
        put64(&mut buf, base + 16, *price);
        put64(&mut buf, base + 56, *qty);
    }
    let mut root: u32 = 0;
    for i in 0..n_inner {
        let handle = levels.len() + i;
        let base = 45 + 72 * handle;
        put32(&mut buf, base, 1);
        put32(&mut buf, base + 24, root);
        put32(&mut buf, base + 28, (i + 1) as u32);
        root = handle as u32;
    }
    put32(&mut buf, 33, root);
    buf
}

fn write(pubkey: Address, slot: u64, write_version: u64, data: Vec<u8>) -> AccountWrite {
    AccountWrite {
        pubkey,
        slot,
        write_version,
        lamports: 1,
        owner: addr(99),
        executable: false,
        rent_epoch: 0,
        data,
    }
}

fn market() -> MarketConfig {
    MarketConfig {
        market: addr(1),
        name: String::from("MARKET"),
        bids: addr(2),
        asks: addr(3),
        base_decimals: 6,
        quote_decimals: 6,
        encoding: BookEncoding::Legacy,
    }
}

fn level(price: u64, size: u64) -> OrderbookLevel {
    OrderbookLevel { price, size }
}

fn slot_update(slot: u64, parent: Option<u64>) -> SlotUpdate {
    SlotUpdate { slot, parent, status: SlotStatus::Processed }
}

#[test]
fn first_side_pass_emits_update_without_checkpoint() {
    let mut e = OrderbookEngine::new(vec![market()]);
    e.apply_slot_update(&slot_update(5, None));
    e.apply_account_write(write(addr(2), 5, 1, book_account(&[(100, 5), (101, 3)])));
    let (msgs, errors) = e.run_legacy_pass();
    assert!(errors.is_empty());
    assert_eq!(msgs.len(), 1);
    match &msgs[0] {
        OrderbookFilterMessage::Update(u) => {
            assert_eq!(u.market, addr(1));
            assert!(matches!(u.side, OrderbookSide::Bid));
            assert_eq!(u.update, vec![level(100, 5), level(101, 3)]);
            assert_eq!(u.slot, 5);
            assert_eq!(u.write_version, 1);
        }
        _ => panic!("expected an update"),
    }
}

#[test]
fn checkpoint_iff_other_side_cached() {
    let mut e = OrderbookEngine::new(vec![market()]);
    e.apply_slot_update(&slot_update(5, None));
    // first pass: only bids known, so no checkpoint
    e.apply_account_write(write(addr(2), 5, 1, book_account(&[(100, 5), (101, 3)])));
    let (msgs, _) = e.run_legacy_pass();
    assert!(msgs.iter().all(|m| matches!(m, OrderbookFilterMessage::Update(_))));
    // second pass: asks arrive, bids are cached, so a checkpoint is owed
    e.apply_account_write(write(addr(3), 5, 1, book_account(&[(110, 7)])));
    let (msgs, errors) = e.run_legacy_pass();
    assert!(errors.is_empty());
    assert_eq!(msgs.len(), 2);
    match &msgs[0] {
        OrderbookFilterMessage::Checkpoint(c) => {
            assert_eq!(c.market, addr(1));
            assert_eq!(c.bids, vec![level(100, 5), level(101, 3)]);
            assert_eq!(c.asks, vec![level(110, 7)]);
            assert_eq!(c.slot, 5);
            assert_eq!(c.write_version, 1);
        }
        _ => panic!("expected the checkpoint first"),
    }
    match &msgs[1] {
        OrderbookFilterMessage::Update(u) => {
            assert!(matches!(u.side, OrderbookSide::Ask));
            assert_eq!(u.update, vec![level(110, 7)]);
        }
        _ => panic!("expected an update second"),
    }
}

#[test]
fn replayed_write_emits_nothing() {
    let mut e = OrderbookEngine::new(vec![market()]);
    e.apply_slot_update(&slot_update(5, None));
    e.apply_account_write(write(addr(2), 5, 1, book_account(&[(100, 5)])));
    e.apply_account_write(write(addr(3), 5, 1, book_account(&[(110, 7)])));
    let (_, errors) = e.run_legacy_pass();
    assert!(errors.is_empty());
    // replay both writes with unchanged (slot, write_version)
    e.apply_account_write(write(addr(2), 5, 1, book_account(&[(100, 5)])));
    e.apply_account_write(write(addr(3), 5, 1, book_account(&[(110, 7)])));
    let (msgs, errors) = e.run_legacy_pass();
    assert!(msgs.is_empty());
    assert!(errors.is_empty());
}

#[test]
fn diff_scenario_against_cached_book() {
    let mut e = OrderbookEngine::new(vec![market()]);
    e.apply_slot_update(&slot_update(5, None));
    e.apply_account_write(write(addr(2), 5, 1, book_account(&[(100, 5), (101, 3)])));
    e.apply_account_write(write(addr(3), 5, 1, book_account(&[(110, 7)])));
    let (_, _) = e.run_legacy_pass();
    // new bids: (101,3) gone, (102,2) new, (100,5) unchanged
    e.apply_slot_update(&slot_update(6, Some(5)));
    e.apply_account_write(write(addr(2), 6, 1, book_account(&[(100, 5), (102, 2)])));
    let (msgs, errors) = e.run_legacy_pass();
    assert!(errors.is_empty());
    assert_eq!(msgs.len(), 2);
    match &msgs[0] {
        OrderbookFilterMessage::Checkpoint(c) => {
            assert_eq!(c.bids, vec![level(100, 5), level(102, 2)]);
            assert_eq!(c.asks, vec![level(110, 7)]);
            assert_eq!(c.slot, 6);
        }
        _ => panic!("expected the checkpoint first"),
    }
    match &msgs[1] {
        OrderbookFilterMessage::Update(u) => {
            assert_eq!(u.update, vec![level(101, 0), level(102, 2)]);
            assert_eq!(u.slot, 6);
            assert_eq!(u.write_version, 1);
        }
        _ => panic!("expected an update second"),
    }
}

#[test]
fn malformed_bytes_skip_the_side_only() {
    let mut e = OrderbookEngine::new(vec![market()]);
    e.apply_slot_update(&slot_update(5, None));
    e.apply_account_write(write(addr(2), 5, 1, book_account(&[(100, 5)])));
    e.apply_account_write(write(addr(3), 5, 1, book_account(&[(110, 7)])));
    let (_, _) = e.run_legacy_pass();
    // garbage bytes for bids; asks unchanged
    e.apply_slot_update(&slot_update(6, Some(5)));
    e.apply_account_write(write(addr(2), 6, 1, vec![1, 2, 3]));
    let (msgs, errors) = e.run_legacy_pass();
    assert!(msgs.is_empty());
    assert_eq!(errors.len(), 1);
    match errors[0] {
        BookDecodeError::Malformed { market, side, slot } => {
            assert_eq!(market, addr(1));
            assert!(matches!(side, OrderbookSide::Bid));
            assert_eq!(slot, 6);
        }
        _ => panic!("expected a malformed-bytes error"),
    }
    // the bids book was preserved: a good write diffs against it
    e.apply_slot_update(&slot_update(7, Some(6)));
    e.apply_account_write(write(addr(2), 7, 1, book_account(&[(100, 6)])));
    let (msgs, errors) = e.run_legacy_pass();
    assert!(errors.is_empty());
    assert_eq!(msgs.len(), 2);
    match &msgs[1] {
        OrderbookFilterMessage::Update(u) => {
            assert_eq!(u.update, vec![level(100, 6)]);
        }
        _ => panic!("expected an update second"),
    }
}

#[test]
fn irrelevant_write_is_dropped() {
    let mut e = OrderbookEngine::new(vec![market()]);
    e.apply_slot_update(&slot_update(5, None));
    e.apply_account_write(write(addr(77), 5, 1, book_account(&[(100, 5)])));
    let (msgs, errors) = e.run_legacy_pass();
    assert!(msgs.is_empty());
    assert!(errors.is_empty());
}

#[test]
fn native_market_is_driven_by_the_caller() {
    let mut cfg = market();
    cfg.encoding = BookEncoding::Native;
    let mut e = OrderbookEngine::new(vec![cfg]);
    e.apply_slot_update(&slot_update(5, None));
    e.apply_account_write(write(addr(2), 5, 1, vec![9, 9, 9]));
    // the legacy pass leaves native markets alone
    let (msgs, errors) = e.run_legacy_pass();
    assert!(msgs.is_empty());
    assert!(errors.is_empty());
    // the caller decodes natively and applies raw orders
    let pending = e.side_pending(&addr(2)).expect("version pending");
    assert_eq!(pending.0, 5);
    assert_eq!(pending.1, 1);
    assert_eq!(pending.2, vec![9, 9, 9]);
    let orders = vec![
        orderbook_feed::orderbook::RawOrder { price: 50, quantity: 1 },
        orderbook_feed::orderbook::RawOrder { price: 51, quantity: 2 },
    ];
    let msgs = e
        .apply_side_orders(0, OrderbookSide::Bid, pending.0, pending.1, &orders)
        .expect("no overflow");
    assert_eq!(msgs.len(), 1);
    match &msgs[0] {
        OrderbookFilterMessage::Update(u) => {
            assert_eq!(u.update, vec![level(50, 1), level(51, 2)]);
        }
        _ => panic!("expected an update"),
    }
    // processed: nothing pending any more
    assert!(e.side_pending(&addr(2)).is_none());
}

#[test]
fn empty_book_materializes_and_gates_checkpoints() {
    let mut e = OrderbookEngine::new(vec![market()]);
    e.apply_slot_update(&slot_update(5, None));
    // an empty bids book: no levels, so no update, and asks are unknown,
    // so no checkpoint either — but the side counts as materialized now
    e.apply_account_write(write(addr(2), 5, 1, book_account(&[])));
    let (msgs, errors) = e.run_legacy_pass();
    assert!(msgs.is_empty());
    assert!(errors.is_empty());
    // asks arrive: the checkpoint carries the empty bids book
    e.apply_account_write(write(addr(3), 5, 1, book_account(&[(110, 7)])));
    let (msgs, errors) = e.run_legacy_pass();
    assert!(errors.is_empty());
    assert_eq!(msgs.len(), 2);
    match &msgs[0] {
        OrderbookFilterMessage::Checkpoint(c) => {
            assert!(c.bids.is_empty());
            assert_eq!(c.asks, vec![level(110, 7)]);
        }
        _ => panic!("expected the checkpoint first"),
    }
}
