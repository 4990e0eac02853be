use orderbook_feed::Address;
use orderbook_feed::chain_data::{AccountData, SlotData, SlotStatus};
use orderbook_feed::fetcher::{
    AccountFetcherSync, ChainDataFetcher, FetchError, FetchedAccount, PollAction, PollState,
};
use orderbook_feed::shared::SharedChainDataFetcher;

fn addr(n: u64) -> Address {
    Address { hi: n as u128, lo: n as u128 }
}

fn snap(slot: u64, write_version: u64, owner: Address, data: Vec<u8>) -> AccountData {
    AccountData {
        slot,
        write_version,
        lamports: 1,
        owner,
        executable: false,
        rent_epoch: 0,
        data,
    }
}

fn processed_slot(slot: u64, parent: Option<u64>) -> SlotData {
    SlotData { slot, parent, status: SlotStatus::Processed, chain: 0 }
}

fn with_disc(disc: [u8; 8], rest: &[u8]) -> Vec<u8> {
    let mut v = disc.to_vec();
    v.extend_from_slice(rest);
    v
}

#[test]
fn fetch_account_hits_and_misses() {
    let mut f = ChainDataFetcher::new();
    f.update_slot_cache(processed_slot(5, None));
    f.update_account_cache(addr(1), snap(5, 1, addr(9), vec![1, 2]));
    let got = f.fetch_raw_account_sync(&addr(1)).expect("present");
    assert_eq!(got.slot, 5);
    assert_eq!(got.data, vec![1, 2]);
    match f.fetch_raw_account_sync(&addr(2)) {
        Err(FetchError::NotFound { address, cache_size }) => {
            assert_eq!(address, addr(2));
            assert_eq!(cache_size, 1);
        }
        _ => panic!("expected not-found with context"),
    }
}

#[test]
fn program_scan_filters_owner_and_discriminator() {
    let program = addr(9);
    let disc: [u8; 8] = [1, 2, 3, 4, 5, 6, 7, 8];
    let mut f = ChainDataFetcher::new();
    f.update_slot_cache(processed_slot(5, None));
    // matches: right owner, right discriminator
    f.update_account_cache(addr(1), snap(5, 1, program, with_disc(disc, &[50])));
    // wrong owner
    f.update_account_cache(addr(2), snap(5, 1, addr(8), with_disc(disc, &[51])));
    // right owner, wrong discriminator
    f.update_account_cache(addr(3), snap(5, 1, program, with_disc([9; 8], &[52])));
    // right owner, data shorter than a discriminator
    f.update_account_cache(addr(4), snap(5, 1, program, vec![1, 2, 3]));
    // matches again
    f.update_account_cache(addr(5), snap(5, 1, program, with_disc(disc, &[53])));
    let got = f.fetch_program_accounts_sync(&program, &disc).expect("scan never fails");
    assert_eq!(got.len(), 2);
    assert_eq!(got[0].0, addr(1));
    assert_eq!(got[0].1.data[8], 50);
    assert_eq!(got[1].0, addr(5));
    assert_eq!(got[1].1.data[8], 53);
}

#[test]
fn program_scan_without_matches_is_empty_not_an_error() {
    let f = ChainDataFetcher::new();
    let got = f.fetch_program_accounts_sync(&addr(9), &[0; 8]).expect("scan never fails");
    assert!(got.is_empty());
}

#[test]
fn rpc_refresh_absent_account_is_not_found() {
    let mut f = ChainDataFetcher::new();
    match f.apply_rpc_refresh(addr(1), 10, None) {
        Err(FetchError::NotFound { address, cache_size }) => {
            assert_eq!(address, addr(1));
            assert_eq!(cache_size, 0);
        }
        _ => panic!("expected not-found"),
    }
}

#[test]
fn rpc_refresh_advances_chain_and_stores_sentinel_version() {
    let mut f = ChainDataFetcher::new();
    f.update_slot_cache(processed_slot(5, None));
    let fetched = FetchedAccount {
        lamports: 7,
        owner: addr(9),
        executable: false,
        rent_epoch: 0,
        data: vec![4, 2],
    };
    let slot = f.apply_rpc_refresh(addr(1), 8, Some(fetched)).expect("stored");
    assert_eq!(slot, 8);
    let got = f.fetch_raw_account_sync(&addr(1)).expect("present");
    assert_eq!(got.slot, 8);
    assert_eq!(got.write_version, 1);
    assert_eq!(got.data, vec![4, 2]);
}

#[test]
fn poll_confirms_addresses_in_order() {
    let mut p = PollState::new(vec![addr(1), addr(2)], 10);
    assert!(matches!(p.next_action(false), PollAction::Refresh(a) if a == addr(1)));
    // a stale observation keeps the poll on the same address
    p.record_refresh(9);
    assert!(matches!(p.next_action(false), PollAction::Refresh(a) if a == addr(1)));
    p.record_refresh(10);
    assert!(matches!(p.next_action(false), PollAction::Refresh(a) if a == addr(2)));
    p.record_refresh(12);
    assert!(matches!(p.next_action(false), PollAction::Done));
}

#[test]
fn poll_timeout_aborts_whole_batch() {
    let mut p = PollState::new(vec![addr(1), addr(2)], 10);
    p.record_refresh(3);
    // the budget runs out while still waiting on the first address:
    // the batch fails naming it, and the second is never attempted
    assert!(matches!(p.next_action(true), PollAction::Timeout(a) if a == addr(1)));
}

#[test]
fn poll_of_no_addresses_is_immediately_done() {
    let p = PollState::new(Vec::new(), 10);
    assert!(matches!(p.next_action(false), PollAction::Done));
    assert!(matches!(p.next_action(true), PollAction::Done));
}

#[test]
fn shared_fetcher_serves_concurrent_style_access() {
    let shared = SharedChainDataFetcher::new();
    shared.update_slot(processed_slot(5, None));
    let disc: [u8; 8] = [1, 2, 3, 4, 5, 6, 7, 8];
    shared.update_account(addr(1), snap(5, 1, addr(9), with_disc(disc, &[42])));
    let got = shared.fetch_raw_account(&addr(1)).expect("present");
    assert_eq!(got.slot, 5);
    assert_eq!(got.data[8], 42);
    let scanned = shared.fetch_program_accounts(&addr(9), &disc);
    assert_eq!(scanned.len(), 1);
    assert_eq!(scanned[0].0, addr(1));
    let refreshed = shared
        .apply_rpc_refresh(
            addr(2),
            8,
            Some(FetchedAccount {
                lamports: 1,
                owner: addr(9),
                executable: false,
                rent_epoch: 0,
                data: vec![7],
            }),
        )
        .expect("stored");
    assert_eq!(refreshed, 8);
    assert_eq!(shared.fetch_raw_account(&addr(2)).expect("present").write_version, 1);
}
