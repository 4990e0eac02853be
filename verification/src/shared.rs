use vstd::prelude::*;
use vstd::rwlock::{RwLock, RwLockPredicate};
use crate::Address;
use crate::chain_data::{AccountData, SlotData, snap_eq};
use crate::fetcher::{ChainDataFetcher, FetchError, FetchedAccount};

verus! {

/// What the lock guarantees of the fetcher it protects, in every state
/// any thread can observe: it is well formed.
pub struct FetcherPred;

impl RwLockPredicate<ChainDataFetcher> for FetcherPred {
    open spec fn inv(self, v: ChainDataFetcher) -> bool {
        v.wf()
    }
}

/// The shared variant of the fetcher, for concurrent callers: an external
/// updater feeding streamed data, and arbitrary readers and refreshers.
/// Reads take the lock shared; writes take it exclusively and hold it
/// only for the update itself. No caller can pin the cache across calls,
/// so each answer is stated against the momentary state the lock held
/// while answering; the exact per-state contracts live on
/// `ChainDataFetcher`.
pub struct SharedChainDataFetcher {
    lock: RwLock<ChainDataFetcher, FetcherPred>,
}

impl SharedChainDataFetcher {
    pub fn new() -> (r: SharedChainDataFetcher) {
        SharedChainDataFetcher { lock: RwLock::new(ChainDataFetcher::new(), Ghost(FetcherPred)) }
    }

    /// Read-only lookup under a shared lock: a returned snapshot is the
    /// resolved current version of the address in some well-formed cache
    /// state, and a failure names the address it was asked for.
    pub fn fetch_raw_account(&self, address: &Address) -> (r: Result<AccountData, FetchError>)
        ensures
            match r {
                Ok(a) => exists|st: ChainDataFetcher|
                    st.wf() && ((#[trigger] st.chain_state().resolved(*address)) matches Some(acc)
                        && snap_eq(a, acc)),
                Err(e) => e matches FetchError::NotFound { address: ea, cache_size: _ } && ea
                    == *address,
            },
    {
        let handle = self.lock.acquire_read();
        let fetcher = handle.borrow();
        let r = fetcher.fetch_raw_account_impl(address);
        proof {
            if r is Ok {
                assert(fetcher.wf() && fetcher.chain_state().resolved(*address) is Some);
            }
        }
        handle.release_read();
        r
    }

    /// Program scan under a shared lock: every returned entry belongs to
    /// the program and starts with the discriminator; the exact set, for
    /// the state scanned, is what `fetch_program_accounts_impl` states.
    pub fn fetch_program_accounts(&self, program: &Address, discriminator: &[u8; 8]) -> (r: Vec<
        (Address, AccountData),
    >)
        ensures
            forall|k: int|
                0 <= k < r@.len() ==> (#[trigger] r@[k]).1.owner == *program && r@[k].1.data@.len()
                    >= 8 && r@[k].1.data@.take(8) == discriminator@,
    {
        let handle = self.lock.acquire_read();
        let fetcher = handle.borrow();
        let r = fetcher.fetch_program_accounts_impl(program, discriminator);
        proof {
            let expected = crate::fetcher::spec_filtered(
                fetcher.chain_state().current_from(0),
                *program,
                discriminator@,
            );
            lemma_filtered_matches(
                fetcher.chain_state().current_from(0),
                *program,
                discriminator@,
            );
            assert forall|k: int| 0 <= k < r@.len() implies (#[trigger] r@[k]).1.owner == *program
                && r@[k].1.data@.len() >= 8 && r@[k].1.data@.take(8) == discriminator@ by {
                assert(crate::fetcher::matches_program(expected[k].1, *program, discriminator@));
                assert(snap_eq(r@[k].1, expected[k].1));
                assert(r@[k].1.data@ == expected[k].1.data@);
            }
        }
        handle.release_read();
        r
    }

    /// Write path for the external updater, under a brief exclusive lock.
    pub fn update_slot(&self, d: SlotData) {
        let (mut fetcher, handle) = self.lock.acquire_write();
        fetcher.update_slot_cache(d);
        handle.release_write(fetcher);
    }

    /// Write path for the external updater, under a brief exclusive lock.
    pub fn update_account(&self, address: Address, d: AccountData) {
        let (mut fetcher, handle) = self.lock.acquire_write();
        fetcher.update_account_cache(address, d);
        handle.release_write(fetcher);
    }

    /// Folds an RPC response into the cache under an exclusive lock;
    /// whatever state the lock held, success is decided by the response
    /// alone: the context slot comes back exactly when the node reported
    /// an account.
    pub fn apply_rpc_refresh(
        &self,
        address: Address,
        rpc_slot: u64,
        account: Option<FetchedAccount>,
    ) -> (r: Result<u64, FetchError>)
        ensures
            match account {
                None => r matches Err(e) && (e matches FetchError::NotFound {
                    address: ea,
                    cache_size: _,
                } && ea == address),
                Some(_) => r == Ok::<u64, FetchError>(rpc_slot),
            },
    {
        let (mut fetcher, handle) = self.lock.acquire_write();
        let r = fetcher.apply_rpc_refresh(address, rpc_slot, account);
        handle.release_write(fetcher);
        r
    }
}

/// Every entry the program filter keeps matches the program filter.
proof fn lemma_filtered_matches(s: Seq<(Address, AccountData)>, program: Address, disc: Seq<u8>)
    ensures
        forall|k: int|
            0 <= k < crate::fetcher::spec_filtered(s, program, disc).len()
                ==> crate::fetcher::matches_program(
                (#[trigger] crate::fetcher::spec_filtered(s, program, disc)[k]).1,
                program,
                disc,
            ),
    decreases s.len(),
{
    if s.len() > 0 {
        lemma_filtered_matches(s.drop_last(), program, disc);
        let r = crate::fetcher::spec_filtered(s.drop_last(), program, disc);
        if crate::fetcher::matches_program(s.last().1, program, disc) {
            assert(forall|k: int|
                0 <= k < r.len() ==> #[trigger] r.push(s.last())[k] == r[k]);
        }
    }
}

} // verus!
