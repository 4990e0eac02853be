use orderbook_feed::orderbook::{
    OrderbookLevel, RawOrder, aggregate_levels, diff_levels, find_level,
};

fn order(price: u64, quantity: u64) -> RawOrder {
    RawOrder { price, quantity }
}

fn level(price: u64, size: u64) -> OrderbookLevel {
    OrderbookLevel { price, size }
}

#[test]
fn aggregate_groups_and_sums() {
    let orders = vec![order(100, 2), order(100, 3), order(101, 4)];
    let levels = aggregate_levels(&orders).expect("no overflow");
    assert_eq!(levels, vec![level(100, 5), level(101, 4)]);
}

#[test]
fn aggregate_empty_book() {
    let orders: Vec<RawOrder> = vec![];
    let levels = aggregate_levels(&orders).expect("no overflow");
    assert!(levels.is_empty());
}

#[test]
fn aggregate_keeps_prices_unique() {
    let orders = vec![order(7, 1), order(9, 1), order(7, 2), order(8, 1), order(9, 9)];
    let levels = aggregate_levels(&orders).expect("no overflow");
    assert_eq!(levels, vec![level(7, 3), level(9, 10), level(8, 1)]);
    for i in 0..levels.len() {
        for j in (i + 1)..levels.len() {
            assert_ne!(levels[i].price, levels[j].price);
        }
    }
}

#[test]
fn aggregate_overflow_is_an_error() {
    let orders = vec![order(7, u64::MAX), order(7, 1)];
    assert!(aggregate_levels(&orders).is_none());
}

#[test]
fn diff_example_scenario() {
    // previous bid levels [(100,5),(101,3)]; new decode [(100,5),(102,2)]
    let prev = vec![level(100, 5), level(101, 3)];
    let cur = vec![level(100, 5), level(102, 2)];
    let upd = diff_levels(&prev, &cur);
    assert_eq!(upd, vec![level(101, 0), level(102, 2)]);
}

#[test]
fn diff_of_equal_books_is_empty() {
    let prev = vec![level(100, 5), level(101, 3)];
    let cur = vec![level(100, 5), level(101, 3)];
    assert!(diff_levels(&prev, &cur).is_empty());
}

#[test]
fn diff_size_change_is_emitted() {
    let prev = vec![level(100, 5)];
    let cur = vec![level(100, 7)];
    assert_eq!(diff_levels(&prev, &cur), vec![level(100, 7)]);
}

#[test]
fn diff_removals_come_first() {
    let prev = vec![level(1, 1), level(2, 2)];
    let cur = vec![level(3, 3)];
    assert_eq!(diff_levels(&prev, &cur), vec![level(1, 0), level(2, 0), level(3, 3)]);
}

#[test]
fn diff_applied_to_previous_yields_current() {
    // replay the emitted update onto the previous book by hand
    let prev = vec![level(100, 5), level(101, 3)];
    let cur = vec![level(100, 5), level(102, 2)];
    let upd = diff_levels(&prev, &cur);
    let mut book = prev.clone();
    for u in &upd {
        if u.size == 0 {
            book.retain(|l| l.price != u.price);
        } else if let Some(slot) = book.iter_mut().find(|l| l.price == u.price) {
            slot.size = u.size;
        } else {
            book.push(*u);
        }
    }
    book.sort_by_key(|l| l.price);
    let mut want = cur.clone();
    want.sort_by_key(|l| l.price);
    assert_eq!(book, want);
}

#[test]
fn find_level_returns_latest_match() {
    let levels = vec![level(5, 1), level(6, 2)];
    assert_eq!(find_level(&levels, 6), Some(1));
    assert_eq!(find_level(&levels, 7), None);
}

#[test]
fn aggregate_keeps_zero_quantity_levels() {
    // a resting order of quantity 0 still yields its level, with size 0
    let levels = aggregate_levels(&vec![order(5, 0)]).expect("no overflow");
    assert_eq!(levels, vec![level(5, 0)]);
}
