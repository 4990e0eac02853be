use orderbook_feed::Address;
use orderbook_feed::chain_data::{AccountData, ChainData, SlotData, SlotStatus};

fn addr(n: u64) -> Address {
    Address { hi: n as u128, lo: (n as u128) << 1 }
}

fn snap(slot: u64, write_version: u64, owner: u64, data: Vec<u8>) -> AccountData {
    AccountData {
        slot,
        write_version,
        lamports: 1,
        owner: addr(owner),
        executable: false,
        rent_epoch: 0,
        data,
    }
}

fn slot_rec(slot: u64, parent: Option<u64>, status: SlotStatus) -> SlotData {
    SlotData { slot, parent, status, chain: 0 }
}

#[test]
fn simple_write_and_read() {
    let mut c = ChainData::new();
    c.update_slot(slot_rec(5, None, SlotStatus::Processed));
    c.update_account(addr(1), snap(5, 1, 9, vec![1, 2, 3]));
    let got = c.account(&addr(1)).expect("resolved");
    assert_eq!(got.slot, 5);
    assert_eq!(got.write_version, 1);
    assert_eq!(got.data, vec![1, 2, 3]);
    assert_eq!(c.accounts_count(), 1);
    assert_eq!(c.best_chain_slot(), 5);
}

#[test]
fn unknown_address_is_absent() {
    let c = ChainData::new();
    assert!(c.account(&addr(42)).is_none());
    assert_eq!(c.accounts_count(), 0);
}

#[test]
fn write_ahead_of_best_chain_is_not_current() {
    let mut c = ChainData::new();
    c.update_slot(slot_rec(5, None, SlotStatus::Processed));
    // the stream delivered a write for slot 9 before any slot record for it
    c.update_account(addr(1), snap(9, 1, 9, vec![7]));
    assert!(c.account(&addr(1)).is_none());
    // once the chain reaches slot 9 the write becomes current
    c.update_slot(slot_rec(9, Some(5), SlotStatus::Processed));
    assert_eq!(c.account(&addr(1)).expect("resolved").slot, 9);
}

#[test]
fn fork_loser_is_skipped() {
    let mut c = ChainData::new();
    c.update_slot(slot_rec(5, None, SlotStatus::Processed));
    c.update_account(addr(1), snap(5, 1, 9, vec![5]));
    c.update_slot(slot_rec(6, Some(5), SlotStatus::Processed));
    c.update_account(addr(1), snap(6, 1, 9, vec![6]));
    assert_eq!(c.account(&addr(1)).expect("resolved").data, vec![6]);
    // slot 7 builds on 5, so the write at 6 is on a dead fork
    c.update_slot(slot_rec(7, Some(5), SlotStatus::Processed));
    let got = c.account(&addr(1)).expect("resolved");
    assert_eq!(got.slot, 5);
    assert_eq!(got.data, vec![5]);
}

#[test]
fn write_version_breaks_slot_ties() {
    let mut c = ChainData::new();
    c.update_slot(slot_rec(5, None, SlotStatus::Processed));
    c.update_account(addr(1), snap(5, 1, 9, vec![1]));
    c.update_account(addr(1), snap(5, 3, 9, vec![3]));
    c.update_account(addr(1), snap(5, 2, 9, vec![2]));
    let got = c.account(&addr(1)).expect("resolved");
    assert_eq!(got.write_version, 3);
    assert_eq!(got.data, vec![3]);
}

#[test]
fn same_key_write_replaces() {
    let mut c = ChainData::new();
    c.update_slot(slot_rec(5, None, SlotStatus::Processed));
    c.update_account(addr(1), snap(5, 1, 9, vec![1]));
    c.update_account(addr(1), snap(5, 1, 9, vec![9, 9]));
    let got = c.account(&addr(1)).expect("resolved");
    assert_eq!(got.data, vec![9, 9]);
}

#[test]
fn status_only_advances() {
    let mut c = ChainData::new();
    c.update_slot(slot_rec(5, None, SlotStatus::Rooted));
    assert_eq!(c.newest_rooted_slot(), 5);
    // a later processed-only report of slot 5 does not regress the status
    c.update_slot(slot_rec(5, None, SlotStatus::Processed));
    assert_eq!(c.newest_rooted_slot(), 5);
}

#[test]
fn best_chain_slot_is_monotone() {
    let mut c = ChainData::new();
    c.update_slot(slot_rec(8, None, SlotStatus::Processed));
    c.update_slot(slot_rec(6, None, SlotStatus::Processed));
    assert_eq!(c.best_chain_slot(), 8);
}

#[test]
fn current_accounts_lists_resolved_only() {
    let mut c = ChainData::new();
    c.update_slot(slot_rec(5, None, SlotStatus::Processed));
    c.update_account(addr(1), snap(5, 1, 9, vec![1]));
    c.update_account(addr(2), snap(9, 1, 9, vec![2]));  // ahead of best chain
    let cur = c.current_accounts();
    assert_eq!(cur.len(), 1);
    assert_eq!(cur[0].0, addr(1));
    assert_eq!(cur[0].1.data, vec![1]);
}
