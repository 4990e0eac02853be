use vstd::prelude::*;
use crate::Address;
use crate::chain_data::{AccountData, ChainData, SlotData, SlotStatus, snap_eq, sorted_insert};

verus! {

/// Errors of the account-fetching layer, with the context observability
/// needs.
#[derive(Clone, Copy, Debug)]
pub enum FetchError {
    /// The address resolves to nothing; carries the cache size seen.
    NotFound { address: Address, cache_size: usize },
    /// The polling deadline passed before this address reached the slot;
    /// carries the wall-clock milliseconds spent.
    Timeout { address: Address, min_slot: u64, elapsed_ms: u64 },
}

/// Synchronous account fetching capability: current bytes of one account,
/// or all accounts of a program matching a discriminator. Implementations
/// answer from already-resident data and never touch the network. Each
/// implementation says in its own spec members what an answer guarantees,
/// so callers of the trait methods inherit the full contract.
pub trait AccountFetcherSync {
    /// What an implementation asks of itself before answering.
    spec fn inv(&self) -> bool;

    /// What a finished account lookup guarantees.
    spec fn account_post(&self, address: Address, r: Result<AccountData, FetchError>) -> bool;

    /// What a finished program scan guarantees.
    spec fn scan_post(
        &self,
        program: Address,
        disc: Seq<u8>,
        r: Result<Vec<(Address, AccountData)>, FetchError>,
    ) -> bool;

    fn fetch_raw_account_sync(&self, address: &Address) -> (r: Result<AccountData, FetchError>)
        requires
            self.inv(),
        ensures
            self.account_post(*address, r),
    ;

    fn fetch_program_accounts_sync(&self, program: &Address, discriminator: &[u8; 8]) -> (r:
        Result<Vec<(Address, AccountData)>, FetchError>)
        requires
            self.inv(),
        ensures
            self.scan_post(*program, discriminator@, r),
    ;
}

/// An account as an RPC response carries it: no slot or write version of
/// its own beyond the response's context slot.
#[derive(Debug)]
pub struct FetchedAccount {
    pub lamports: u64,
    pub owner: Address,
    pub executable: bool,
    pub rent_epoch: u64,
    pub data: Vec<u8>,
}

/// The cache snapshot an RPC response at `rpc_slot` denotes: write version
/// 1 is the sentinel for data observed out of band, whose order relative
/// to streamed writes within the slot is unknown.
pub open spec fn refresh_snapshot(rpc_slot: u64, fa: FetchedAccount) -> AccountData {
    AccountData {
        slot: rpc_slot,
        write_version: 1,
        lamports: fa.lamports,
        owner: fa.owner,
        executable: fa.executable,
        rent_epoch: fa.rent_epoch,
        data: fa.data,
    }
}

/// Whether a snapshot belongs to the program and carries its discriminator:
/// the owner matches and the data's first 8 bytes equal it.
pub open spec fn matches_program(acc: AccountData, program: Address, disc: Seq<u8>) -> bool {
    acc.owner == program && acc.data@.len() >= 8 && acc.data@.take(8) == disc
}

/// The entries whose snapshot matches the program filter, order kept.
pub open spec fn spec_filtered(
    s: Seq<(Address, AccountData)>,
    program: Address,
    disc: Seq<u8>,
) -> Seq<(Address, AccountData)>
    decreases s.len(),
{
    if s.len() == 0 {
        Seq::empty()
    } else {
        let r = spec_filtered(s.drop_last(), program, disc);
        if matches_program(s.last().1, program, disc) {
            r.push(s.last())
        } else {
            r
        }
    }
}

/// Account lookups over a chain data cache that an external updater keeps
/// fresh, with on-demand folding of RPC refresh results. The shared-access
/// story is the caller's: wrap the fetcher in a reader-writer lock, take
/// it shared for the lookups and exclusive for `apply_rpc_refresh`.
pub struct ChainDataFetcher {
    chain_data: ChainData,
}

impl ChainDataFetcher {
    pub closed spec fn chain_state(self) -> ChainData {
        self.chain_data
    }

    /// A fetcher is well formed when its cache is.
    pub closed spec fn wf(self) -> bool {
        self.chain_data.wf()
    }

    pub fn new() -> (r: ChainDataFetcher)
        ensures
            r.wf(),
            r.chain_state().entries_seq().len() == 0,
            r.chain_state().best_slot_spec() == 0,
    {
        ChainDataFetcher { chain_data: ChainData::new() }
    }

    /// Write path for the external updater: folds a streamed slot update
    /// into the cache, under the same merge rule as the cache itself.
    pub fn update_slot_cache(&mut self, d: SlotData)
        requires
            old(self).wf(),
        ensures
            final(self).wf(),
            final(self).chain_state().best_slot_spec() == (if old(
                self,
            ).chain_state().best_slot_spec() >= d.slot {
                old(self).chain_state().best_slot_spec()
            } else {
                d.slot
            }),
            final(self).chain_state().entries_seq() == old(self).chain_state().entries_seq(),
            final(self).chain_state().slot_rec(d.slot) == Some(
                crate::chain_data::merged_slot_record(old(self).chain_state().slot_rec(d.slot), d),
            ),
            forall|q: u64|
                q != d.slot ==> final(self).chain_state().slot_rec(q) == old(
                    self,
                ).chain_state().slot_rec(q),
    {
        self.chain_data.update_slot(d);
    }

    /// Write path for the external updater: stores a streamed account
    /// version at its ordered position in the cache.
    pub fn update_account_cache(&mut self, address: Address, d: AccountData)
        requires
            old(self).wf(),
        ensures
            final(self).wf(),
            final(self).chain_state().versions_of(address) == sorted_insert(
                old(self).chain_state().versions_of(address),
                d,
            ),
            forall|a: Address|
                a != address ==> final(self).chain_state().versions_of(a) == old(
                    self,
                ).chain_state().versions_of(a),
            final(self).chain_state().slots_seq() == old(self).chain_state().slots_seq(),
            final(self).chain_state().best_slot_spec() == old(self).chain_state().best_slot_spec(),
    {
        self.chain_data.update_account(address, d);
    }

    /// Read-only cache lookup; `NotFound`, with the cache size as
    /// diagnostic context, when no version of the address lies on the
    /// best chain.
    pub fn fetch_raw_account_impl(&self, address: &Address) -> (r: Result<AccountData, FetchError>)
        requires
            self.wf(),
        ensures
            match r {
                Ok(a) => self.chain_state().resolved(*address) matches Some(acc) && snap_eq(a, acc),
                Err(e) => self.chain_state().resolved(*address) is None && (
                e matches FetchError::NotFound { address: ea, cache_size } && ea == *address
                    && cache_size == self.chain_state().entries_seq().len()),
            },
    {
        let count = self.chain_data.accounts_count();
        match self.chain_data.account(address) {
            Some(acc) => Ok(acc.duplicate()),
            None => Err(FetchError::NotFound { address: *address, cache_size: count }),
        }
    }

    /// Full scan of the cache: every resolved current snapshot whose owner
    /// is the program and whose data starts with the discriminator, in
    /// cache order. No match is an empty list, not an error; correctness
    /// of the set rests on the external subscription covering the
    /// program's accounts, never on a network call from here.
    pub fn fetch_program_accounts_impl(
        &self,
        program: &Address,
        discriminator: &[u8; 8],
    ) -> (r: Vec<(Address, AccountData)>)
        requires
            self.wf(),
        ensures
            ({
                let expected = spec_filtered(
                    self.chain_state().current_from(0),
                    *program,
                    discriminator@,
                );
                r@.len() == expected.len() && (forall|k: int|
                    0 <= k < r@.len() ==> (#[trigger] r@[k]).0 == expected[k].0 && snap_eq(
                        r@[k].1,
                        expected[k].1,
                    ))
            }),
    {
        let cur = self.chain_data.current_accounts();
        let ghost cf = self.chain_state().current_from(0);
        let mut out: Vec<(Address, AccountData)> = Vec::new();
        let mut i: usize = 0;
        while i < cur.len()
            invariant
                i <= cur@.len(),
                cur@.len() == cf.len(),
                forall|k: int|
                    0 <= k < cf.len() ==> (#[trigger] cur@[k]).0 == cf[k].0 && snap_eq(
                        cur@[k].1,
                        cf[k].1,
                    ),
                ({
                    let expected = spec_filtered(cf.take(i as int), *program, discriminator@);
                    out@.len() == expected.len() && (forall|k: int|
                        0 <= k < out@.len() ==> (#[trigger] out@[k]).0 == expected[k].0 && snap_eq(
                            out@[k].1,
                            expected[k].1,
                        ))
                }),
            decreases cur@.len() - i,
        {
            proof {
                assert(cf.take(i as int + 1).last() == cf[i as int]);
                assert(cf.take(i as int + 1).drop_last() =~= cf.take(i as int));
            }
            let entry = &cur[i];
            let owner_ok = crate::address_eq(&entry.1.owner, program);
            let len_ok = entry.1.data.len() >= 8;
            let mut keep: bool = owner_ok && len_ok;
            if keep {
                let mut j: usize = 0;
                while j < 8 && keep
                    invariant
                        j <= 8,
                        i < cur@.len(),
                        *entry == cur@[i as int],
                        entry.1.data@.len() >= 8,
                        keep ==> forall|k: int|
                            0 <= k < j ==> entry.1.data@[k] == discriminator@[k],
                        !keep ==> exists|k: int|
                            0 <= k < 8 && entry.1.data@[k] != discriminator@[k],
                    decreases 8 - j,
                {
                    if entry.1.data[j] != discriminator[j] {
                        keep = false;
                        proof {
                            assert(entry.1.data@[j as int] != discriminator@[j as int]);
                        }
                    }
                    j = j + 1;
                }
            }
            proof {
                assert(cur@[i as int].1.data@ == cf[i as int].1.data@);
                assert(cur@[i as int].1.owner == cf[i as int].1.owner);
                if keep {
                    assert(cur@[i as int].1.data@.take(8) =~= discriminator@);
                    assert(matches_program(cf[i as int].1, *program, discriminator@));
                } else {
                    assert(!matches_program(cf[i as int].1, *program, discriminator@)) by {
                        if !owner_ok {
                        } else if !len_ok {
                        } else {
                            let k = choose|k: int|
                                0 <= k < 8 && cur@[i as int].1.data@[k] != discriminator@[k];
                            if cf[i as int].1.data@.take(8) == discriminator@ {
                                assert(cf[i as int].1.data@.take(8)[k] == discriminator@[k]);
                            }
                        }
                    }
                }
            }
            if keep {
                out.push((entry.0, entry.1.duplicate()));
            }
            i = i + 1;
        }
        proof {
            assert(cf.take(cf.len() as int) =~= cf);
        }
        out
    }

    /// Folds an RPC account response into the cache, per the refresh rule:
    /// a response slot ahead of the best chain becomes the new tip, as a
    /// processed slot whose parent is the previous best (the response
    /// carries no topology of its own); the account bytes are stored with
    /// the out-of-band write version sentinel. `NotFound` when the node
    /// reported no account, leaving the cache untouched.
    pub fn apply_rpc_refresh(
        &mut self,
        address: Address,
        rpc_slot: u64,
        account: Option<FetchedAccount>,
    ) -> (r: Result<u64, FetchError>)
        requires
            old(self).wf(),
        ensures
            final(self).wf(),
            match account {
                None => {
                    &&& r matches Err(e) && (e matches FetchError::NotFound {
                        address: ea,
                        cache_size,
                    } && ea == address && cache_size == old(self).chain_state().entries_seq().len())
                    &&& final(self).chain_state() == old(self).chain_state()
                },
                Some(fa) => {
                    let stepped = old(self).chain_state().best_slot_spec() < rpc_slot;
                    &&& r == Ok::<u64, FetchError>(rpc_slot)
                    &&& final(self).chain_state().best_slot_spec() == (if stepped {
                        rpc_slot
                    } else {
                        old(self).chain_state().best_slot_spec()
                    })
                    &&& (stepped ==> final(self).chain_state().slot_rec(rpc_slot) == Some(
                        SlotData {
                            slot: rpc_slot,
                            parent: Some(old(self).chain_state().best_slot_spec()),
                            status: SlotStatus::Processed,
                            chain: 0,
                        },
                    ))
                    &&& (forall|q: u64|
                        q != rpc_slot ==> final(self).chain_state().slot_rec(q) == old(
                            self,
                        ).chain_state().slot_rec(q))
                    &&& (!stepped ==> final(self).chain_state().slots_seq() == old(
                        self,
                    ).chain_state().slots_seq())
                    &&& final(self).chain_state().versions_of(address) == sorted_insert(
                        old(self).chain_state().versions_of(address),
                        refresh_snapshot(rpc_slot, fa),
                    )
                    &&& (forall|a: Address|
                        a != address ==> final(self).chain_state().versions_of(a) == old(
                            self,
                        ).chain_state().versions_of(a))
                },
            },
    {
        match account {
            None => {
                let count = self.chain_data.accounts_count();
                Err(FetchError::NotFound { address, cache_size: count })
            },
            Some(fa) => {
                let best = self.chain_data.best_chain_slot();
                if best < rpc_slot {
                    proof {
                        crate::chain_data::lemma_unknown_above_best(self.chain_data, rpc_slot);
                    }
                    self.chain_data.update_slot(
                        SlotData {
                            slot: rpc_slot,
                            parent: Some(best),
                            status: SlotStatus::Processed,
                            chain: 0,
                        },
                    );
                }
                self.chain_data.update_account(
                    address,
                    AccountData {
                        slot: rpc_slot,
                        write_version: 1,
                        lamports: fa.lamports,
                        owner: fa.owner,
                        executable: fa.executable,
                        rent_epoch: fa.rent_epoch,
                        data: fa.data,
                    },
                );
                Ok(rpc_slot)
            },
        }
    }
}

impl AccountFetcherSync for ChainDataFetcher {
    open spec fn inv(&self) -> bool {
        self.wf()
    }

    /// `Ok` exactly when the cache resolves the address, and then the
    /// snapshot returned equals the resolved one; otherwise `NotFound`
    /// naming the address and the cache size.
    open spec fn account_post(&self, address: Address, r: Result<AccountData, FetchError>) -> bool {
        match r {
            Ok(a) => self.chain_state().resolved(address) matches Some(acc) && snap_eq(a, acc),
            Err(e) => self.chain_state().resolved(address) is None && (
            e matches FetchError::NotFound { address: ea, cache_size } && ea == address
                && cache_size == self.chain_state().entries_seq().len()),
        }
    }

    /// The scan never fails: the result is exactly the filter of the
    /// resolved current snapshots by owner and leading discriminator.
    open spec fn scan_post(
        &self,
        program: Address,
        disc: Seq<u8>,
        r: Result<Vec<(Address, AccountData)>, FetchError>,
    ) -> bool {
        match r {
            Ok(v) => {
                let expected = spec_filtered(self.chain_state().current_from(0), program, disc);
                v@.len() == expected.len() && (forall|k: int|
                    0 <= k < v@.len() ==> (#[trigger] v@[k]).0 == expected[k].0 && snap_eq(
                        v@[k].1,
                        expected[k].1,
                    ))
            },
            Err(_) => false,
        }
    }

    fn fetch_raw_account_sync(&self, address: &Address) -> (r: Result<AccountData, FetchError>) {
        self.fetch_raw_account_impl(address)
    }

    fn fetch_program_accounts_sync(&self, program: &Address, discriminator: &[u8; 8]) -> (r:
        Result<Vec<(Address, AccountData)>, FetchError>) {
        Ok(self.fetch_program_accounts_impl(program, discriminator))
    }
}

/// What a poll step decides, given whether the wall-clock budget is spent:
/// finished when every address is confirmed; otherwise a timeout failure
/// naming the current address, or a refresh of it.
pub open spec fn poll_decision(s: PollState, timed_out: bool) -> PollAction {
    if s.index_spec() >= s.addrs_seq().len() {
        PollAction::Done
    } else if timed_out {
        PollAction::Timeout(s.addrs_seq()[s.index_spec() as int])
    } else {
        PollAction::Refresh(s.addrs_seq()[s.index_spec() as int])
    }
}

/// The index a poll reaches from `start` after a sequence of observed
/// slots: each observation at or past the minimum slot confirms the
/// current address and advances to the next.
pub open spec fn poll_run(min_slot: u64, obs: Seq<u64>, start: int) -> int
    decreases obs.len(),
{
    if obs.len() == 0 {
        start
    } else {
        let prev = poll_run(min_slot, obs.drop_last(), start);
        if obs.last() >= min_slot {
            prev + 1
        } else {
            prev
        }
    }
}

/// The next thing a poll should do.
#[derive(Clone, Copy, Debug)]
pub enum PollAction {
    /// Every address was confirmed at or past the minimum slot.
    Done,
    /// Refresh this address and report the observed slot back.
    Refresh(Address),
    /// The budget is spent before this address was confirmed: fail the
    /// whole batch; later addresses are never attempted.
    Timeout(Address),
}

/// Decides the polling of addresses until each is observed at or past a
/// minimum slot, in order, one at a time. The caller performs the
/// refreshes, the sleeping between attempts and the wall-clock reading;
/// this state machine makes every decision.
pub struct PollState {
    addresses: Vec<Address>,
    index: usize,
    min_slot: u64,
}

impl PollState {
    pub closed spec fn addrs_seq(self) -> Seq<Address> {
        self.addresses@
    }

    pub closed spec fn index_spec(self) -> int {
        self.index as int
    }

    pub closed spec fn min_slot_spec(self) -> u64 {
        self.min_slot
    }

    pub open spec fn wf(self) -> bool {
        0 <= self.index_spec() <= self.addrs_seq().len()
    }

    pub fn new(addresses: Vec<Address>, min_slot: u64) -> (r: PollState)
        ensures
            r.wf(),
            r.addrs_seq() == addresses@,
            r.index_spec() == 0,
            r.min_slot_spec() == min_slot,
    {
        PollState { addresses, index: 0, min_slot }
    }

    /// The decision for this iteration; the timeout test happens once per
    /// iteration, cooperatively, never preemptively.
    pub fn next_action(&self, timed_out: bool) -> (r: PollAction)
        requires
            self.wf(),
        ensures
            r == poll_decision(*self, timed_out),
    {
        if self.index >= self.addresses.len() {
            PollAction::Done
        } else if timed_out {
            PollAction::Timeout(self.addresses[self.index])
        } else {
            PollAction::Refresh(self.addresses[self.index])
        }
    }

    /// Records the slot a refresh of the current address observed: the
    /// poll advances to the next address exactly when the observation
    /// reaches the minimum slot, and stays to retry otherwise. Returns
    /// whether it advanced, so the caller knows to sleep before retrying.
    pub fn record_refresh(&mut self, observed_slot: u64) -> (advanced: bool)
        requires
            old(self).wf(),
            old(self).index_spec() < old(self).addrs_seq().len(),
        ensures
            final(self).wf(),
            final(self).addrs_seq() == old(self).addrs_seq(),
            final(self).min_slot_spec() == old(self).min_slot_spec(),
            advanced == (observed_slot >= old(self).min_slot_spec()),
            final(self).index_spec() == (if advanced {
                old(self).index_spec() + 1
            } else {
                old(self).index_spec()
            }),
    {
        let n = self.addresses.len();
        if observed_slot >= self.min_slot {
            proof {
                assert(self.index < n);
            }
            self.index = self.index + 1;
            true
        } else {
            false
        }
    }
}

/// All-or-nothing polling, half one: a timed-out poll fails naming the
/// address it is waiting on, and a poll only ever refreshes the address
/// at its current index — an address is attempted only after every
/// earlier one was confirmed, so a timeout on one address means the
/// later ones are never attempted.
pub proof fn lemma_poll_timeout_aborts(s: PollState, j: int)
    requires
        s.wf(),
        s.index_spec() < s.addrs_seq().len(),
        s.index_spec() < j < s.addrs_seq().len(),
        forall|a: int, b: int|
            0 <= a < b < s.addrs_seq().len() ==> s.addrs_seq()[a] != s.addrs_seq()[b],
    ensures
        poll_decision(s, true) == PollAction::Timeout(s.addrs_seq()[s.index_spec() as int]),
        poll_decision(s, false) != PollAction::Refresh(s.addrs_seq()[j]),
        poll_decision(s, true) != PollAction::Refresh(s.addrs_seq()[j]),
{
    assert(s.addrs_seq()[s.index_spec() as int] != s.addrs_seq()[j]);
}

/// All-or-nothing polling, half two: reaching an index means every
/// position before it was confirmed — for each such position some
/// observation reached the minimum slot while the poll stood exactly
/// there, waiting on that position's address.
pub proof fn lemma_poll_done_requires_all(min_slot: u64, obs: Seq<u64>, start: int, p: int)
    requires
        start <= p < poll_run(min_slot, obs, start),
    ensures
        exists|k: int|
            0 <= k < obs.len() && obs[k] >= min_slot && poll_run(
                min_slot,
                #[trigger] obs.take(k),
                start,
            ) == p,
    decreases obs.len(),
{
    let dl = obs.drop_last();
    let prev = poll_run(min_slot, dl, start);
    if p < prev {
        lemma_poll_done_requires_all(min_slot, dl, start, p);
        let k = choose|k: int|
            0 <= k < dl.len() && dl[k] >= min_slot && poll_run(
                min_slot,
                #[trigger] dl.take(k),
                start,
            ) == p;
        assert(obs.take(k) =~= dl.take(k));
        assert(obs[k] == dl[k]);
        assert(obs[k] >= min_slot && poll_run(min_slot, obs.take(k), start) == p);
    } else {
        assert(p == prev && obs.last() >= min_slot);
        let k = obs.len() - 1;
        assert(obs.take(k) =~= dl);
        assert(obs[k] >= min_slot && poll_run(min_slot, obs.take(k), start) == p);
    }
}

/// The program filter keeps a subsequence: each kept entry is an entry of
/// the scanned sequence, and pairwise-distinct addresses stay distinct.
proof fn lemma_filtered_props(s: Seq<(Address, AccountData)>, program: Address, disc: Seq<u8>)
    ensures
        forall|p: int|
            0 <= p < spec_filtered(s, program, disc).len() ==> exists|k: int|
                0 <= k < s.len() && (#[trigger] spec_filtered(s, program, disc)[p]) == s[k],
    decreases s.len(),
{
    if s.len() > 0 {
        lemma_filtered_props(s.drop_last(), program, disc);
        let r = spec_filtered(s.drop_last(), program, disc);
        let rf = spec_filtered(s, program, disc);
        assert forall|p: int| 0 <= p < rf.len() implies exists|k: int|
            0 <= k < s.len() && (#[trigger] rf[p]) == s[k] by {
            if matches_program(s.last().1, program, disc) && p == r.len() {
                assert(rf[p] == s[s.len() - 1]);
            } else {
                assert(rf[p] == r[p]);
                let k = choose|k: int|
                    0 <= k < s.drop_last().len() && (#[trigger] r[p]) == s.drop_last()[k];
                assert(rf[p] == s[k]);
            }
        }
    }
}

/// No address appears twice in a program scan of a well-formed cache: the
/// scanned current snapshots carry pairwise-distinct addresses, and the
/// filter keeps a subsequence of them.
pub proof fn lemma_scan_addresses_unique(c: ChainData, program: Address, disc: Seq<u8>)
    requires
        c.wf(),
    ensures
        forall|i: int, j: int|
            0 <= i < j < spec_filtered(c.current_from(0), program, disc).len() ==> spec_filtered(
                c.current_from(0),
                program,
                disc,
            )[i].0 != spec_filtered(c.current_from(0), program, disc)[j].0,
{
    crate::chain_data::lemma_current_addresses_unique(c);
    let cf = c.current_from(0);
    let r = spec_filtered(cf, program, disc);
    assert forall|i: int, j: int| 0 <= i < j < r.len() implies r[i].0 != r[j].0 by {
        lemma_filtered_distinct_indices(cf, program, disc, i, j);
    }
}

/// Two distinct positions of the filtered sequence never hold the same
/// entry twice unless the source repeats it: the filter is injective on
/// positions, mapping them to strictly increasing source positions.
proof fn lemma_filtered_distinct_indices(
    s: Seq<(Address, AccountData)>,
    program: Address,
    disc: Seq<u8>,
    i: int,
    j: int,
)
    requires
        0 <= i < j < spec_filtered(s, program, disc).len(),
        forall|a: int, b: int| 0 <= a < b < s.len() ==> s[a].0 != s[b].0,
    ensures
        spec_filtered(s, program, disc)[i].0 != spec_filtered(s, program, disc)[j].0,
    decreases s.len(),
{
    let r = spec_filtered(s.drop_last(), program, disc);
    let rf = spec_filtered(s, program, disc);
    assert(forall|a: int, b: int|
        0 <= a < b < s.drop_last().len() ==> s.drop_last()[a].0 != s.drop_last()[b].0);
    if matches_program(s.last().1, program, disc) && j == r.len() {
        assert(rf[j] == s[s.len() - 1]);
        assert(rf[i] == r[i]);
        lemma_filtered_props(s.drop_last(), program, disc);
        let k = choose|k: int|
            0 <= k < s.drop_last().len() && (#[trigger] r[i]) == s.drop_last()[k];
        assert(s[k].0 != s[s.len() - 1].0);
    } else {
        assert(rf[i] == r[i] && rf[j] == r[j]);
        lemma_filtered_distinct_indices(s.drop_last(), program, disc, i, j);
    }
}

} // verus!
