use vstd::prelude::*;
use crate::Address;

verus! {

/// How finalized a slot is. For a given slot the status only ever
/// advances (`Processed` -> `Confirmed` -> `Rooted`).
#[derive(Clone, Copy, Debug, PartialEq, Eq, Structural)]
pub enum SlotStatus {
    Processed,
    Confirmed,
    Rooted,
}

pub open spec fn status_rank(s: SlotStatus) -> int {
    match s {
        SlotStatus::Processed => 0,
        SlotStatus::Confirmed => 1,
        SlotStatus::Rooted => 2,
    }
}

/// Returns whichever status is further advanced.
pub fn status_max(a: SlotStatus, b: SlotStatus) -> (r: SlotStatus)
    ensures
        r == (if status_rank(a) >= status_rank(b) { a } else { b }),
{
    let ra: u8 = match a {
        SlotStatus::Processed => 0,
        SlotStatus::Confirmed => 1,
        SlotStatus::Rooted => 2,
    };
    let rb: u8 = match b {
        SlotStatus::Processed => 0,
        SlotStatus::Confirmed => 1,
        SlotStatus::Rooted => 2,
    };
    if ra >= rb { a } else { b }
}

/// One node's view of chain topology at a point in time.
#[derive(Clone, Copy, Debug)]
pub struct SlotData {
    pub slot: u64,
    pub parent: Option<u64>,
    pub status: SlotStatus,
    pub chain: u64,
}

/// One observed version of one account. Immutable once created;
/// superseded by later versions, never mutated.
#[derive(Debug)]
pub struct AccountData {
    pub slot: u64,
    pub write_version: u64,
    pub lamports: u64,
    pub owner: Address,
    pub executable: bool,
    pub rent_epoch: u64,
    pub data: Vec<u8>,
}

/// Snapshot equality, field by field (bytes compared as sequences).
pub open spec fn snap_eq(a: AccountData, b: AccountData) -> bool {
    &&& a.slot == b.slot
    &&& a.write_version == b.write_version
    &&& a.lamports == b.lamports
    &&& a.owner == b.owner
    &&& a.executable == b.executable
    &&& a.rent_epoch == b.rent_epoch
    &&& a.data@ == b.data@
}

/// Copies a byte vector element by element.
pub fn clone_bytes(v: &Vec<u8>) -> (r: Vec<u8>)
    ensures
        r@ == v@,
{
    let mut out: Vec<u8> = Vec::new();
    let mut i: usize = 0;
    while i < v.len()
        invariant
            i <= v@.len(),
            out@ == v@.take(i as int),
        decreases v@.len() - i,
    {
        out.push(v[i]);
        proof {
            assert(out@ =~= v@.take(i + 1 as int));
        }
        i = i + 1;
    }
    proof {
        assert(v@.take(v@.len() as int) =~= v@);
    }
    out
}

impl AccountData {
    /// A fresh snapshot with the same contents.
    pub fn duplicate(&self) -> (r: AccountData)
        ensures
            snap_eq(r, *self),
    {
        AccountData {
            slot: self.slot,
            write_version: self.write_version,
            lamports: self.lamports,
            owner: self.owner,
            executable: self.executable,
            rent_epoch: self.rent_epoch,
            data: clone_bytes(&self.data),
        }
    }
}

/// Strict order on account versions: by slot, ties broken by write version.
pub open spec fn vkey_lt(a: AccountData, b: AccountData) -> bool {
    a.slot < b.slot || (a.slot == b.slot && a.write_version < b.write_version)
}

pub open spec fn vkey_eq(a: AccountData, b: AccountData) -> bool {
    a.slot == b.slot && a.write_version == b.write_version
}

pub open spec fn versions_sorted(s: Seq<AccountData>) -> bool {
    forall|i: int, j: int| 0 <= i < j < s.len() ==> vkey_lt(s[i], s[j])
}

/// All stored versions of one account, ordered by (slot, write_version).
#[derive(Debug)]
pub struct AccountEntry {
    pub address: Address,
    pub versions: Vec<AccountData>,
}

/// Inserting a version into a (slot, write_version)-sorted version list:
/// a version with a key already present replaces the stored one, any other
/// lands at its ordered position.
pub open spec fn sorted_insert(s: Seq<AccountData>, d: AccountData) -> Seq<AccountData>
    decreases s.len(),
{
    if s.len() == 0 {
        seq![d]
    } else if vkey_lt(s.last(), d) {
        s.push(d)
    } else if vkey_eq(s.last(), d) {
        s.update(s.len() - 1, d)
    } else {
        sorted_insert(s.drop_last(), d).push(s.last())
    }
}

/// First record with the given slot number, scanning from index `i`.
pub open spec fn slot_record_from(s: Seq<SlotData>, i: int, slot: u64) -> Option<SlotData>
    decreases s.len() - i,
{
    if i < 0 || i >= s.len() {
        None
    } else if s[i].slot == slot {
        Some(s[i])
    } else {
        slot_record_from(s, i + 1, slot)
    }
}

/// Whether slot `s` lies on the chain that ends in `cur`, walking parent
/// links downward. A slot with no stored record, or a record without a
/// parent, ends the walk optimistically: chain information is incomplete
/// there (streams may deliver account writes before slot records), so the
/// write is assumed live rather than dropped.
pub open spec fn live_from(slots: Seq<SlotData>, cur: u64, s: u64) -> bool
    decreases cur,
{
    if s == cur {
        true
    } else if s > cur {
        false
    } else {
        match slot_record_from(slots, 0, cur) {
            None => true,
            Some(r) => match r.parent {
                None => true,
                Some(p) => if p < cur { live_from(slots, p, s) } else { true },
            },
        }
    }
}

/// The most recent live version in a sorted version list: the last element
/// whose slot lies on the best chain.
pub open spec fn resolve_versions(slots: Seq<SlotData>, best: u64, s: Seq<AccountData>) -> Option<AccountData>
    decreases s.len(),
{
    if s.len() == 0 {
        None
    } else if live_from(slots, best, s.last().slot) {
        Some(s.last())
    } else {
        resolve_versions(slots, best, s.drop_last())
    }
}

/// First version list stored for the given address, scanning from index `i`.
pub open spec fn entry_from(s: Seq<AccountEntry>, i: int, addr: Address) -> Option<Seq<AccountData>>
    decreases s.len() - i,
{
    if i < 0 || i >= s.len() {
        None
    } else if s[i].address == addr {
        Some(s[i].versions@)
    } else {
        entry_from(s, i + 1, addr)
    }
}

/// Fork-aware store of account versions and slot topology.
///
/// Fork resolution rule: the best chain is the chain of parent links ending
/// in the highest slot number ever reported (`best_chain_slot`, which only
/// advances). An account version is current if its slot is the last one on
/// that chain holding a version of the account; versions on slots that the
/// parent walk from the best slot skips are orphaned and never returned.
pub struct ChainData {
    slots: Vec<SlotData>,
    accounts: Vec<AccountEntry>,
    best_chain_slot: u64,
    newest_rooted_slot: u64,
}

impl ChainData {
    pub closed spec fn slots_seq(self) -> Seq<SlotData> {
        self.slots@
    }

    pub closed spec fn entries_seq(self) -> Seq<AccountEntry> {
        self.accounts@
    }

    pub closed spec fn best_slot_spec(self) -> u64 {
        self.best_chain_slot
    }

    pub closed spec fn rooted_slot_spec(self) -> u64 {
        self.newest_rooted_slot
    }

    /// The stored record for a slot, if any.
    pub open spec fn slot_rec(self, slot: u64) -> Option<SlotData> {
        slot_record_from(self.slots_seq(), 0, slot)
    }

    /// The stored versions of an address, oldest first; empty if unknown.
    pub open spec fn versions_of(self, addr: Address) -> Seq<AccountData> {
        match entry_from(self.entries_seq(), 0, addr) {
            None => Seq::empty(),
            Some(vs) => vs,
        }
    }

    /// Whether a write at slot `s` lies on the best chain.
    pub open spec fn slot_live(self, s: u64) -> bool {
        live_from(self.slots_seq(), self.best_slot_spec(), s)
    }

    /// The current, fork-consistent version of an address, if any.
    pub open spec fn resolved(self, addr: Address) -> Option<AccountData> {
        resolve_versions(self.slots_seq(), self.best_slot_spec(), self.versions_of(addr))
    }

    pub closed spec fn wf(self) -> bool {
        &&& (forall|i: int, j: int|
            0 <= i < j < self.slots@.len() ==> self.slots@[i].slot != self.slots@[j].slot)
        &&& (forall|i: int|
            0 <= i < self.slots@.len() ==> ((#[trigger] self.slots@[i]).parent matches Some(p)
                ==> p < self.slots@[i].slot))
        &&& (forall|i: int|
            0 <= i < self.slots@.len() ==> (#[trigger] self.slots@[i]).slot
                <= self.best_chain_slot)
        &&& (forall|i: int, j: int|
            0 <= i < j < self.accounts@.len() ==> self.accounts@[i].address
                != self.accounts@[j].address)
        &&& (forall|i: int|
            0 <= i < self.accounts@.len() ==> self.accounts@[i].versions@.len() > 0
                && versions_sorted(self.accounts@[i].versions@))
    }

    pub fn new() -> (r: ChainData)
        ensures
            r.wf(),
            r.slots_seq() =~= Seq::<SlotData>::empty(),
            r.entries_seq() =~= Seq::<AccountEntry>::empty(),
            r.best_slot_spec() == 0,
            r.rooted_slot_spec() == 0,
    {
        ChainData { slots: Vec::new(), accounts: Vec::new(), best_chain_slot: 0, newest_rooted_slot: 0 }
    }

    /// The highest slot number of the best chain seen so far.
    pub fn best_chain_slot(&self) -> (r: u64)
        ensures
            r == self.best_slot_spec(),
    {
        self.best_chain_slot
    }

    /// The highest rooted slot number seen so far.
    pub fn newest_rooted_slot(&self) -> (r: u64)
        ensures
            r == self.rooted_slot_spec(),
    {
        self.newest_rooted_slot
    }

    /// How many addresses the cache holds a version list for.
    pub fn accounts_count(&self) -> (r: usize)
        ensures
            r == self.entries_seq().len(),
    {
        self.accounts.len()
    }

    fn find_slot(&self, slot: u64) -> (r: Option<usize>)
        ensures
            match r {
                Some(i) => i < self.slots@.len() && self.slots@[i as int].slot == slot
                    && self.slot_rec(slot) == Some(self.slots@[i as int]),
                None => self.slot_rec(slot) is None,
            },
    {
        let mut i: usize = 0;
        while i < self.slots.len()
            invariant
                i <= self.slots@.len(),
                slot_record_from(self.slots@, 0, slot) == slot_record_from(self.slots@, i as int, slot),
            decreases self.slots@.len() - i,
        {
            if self.slots[i].slot == slot {
                return Some(i);
            }
            i = i + 1;
        }
        None
    }

    fn find_account(&self, addr: &Address) -> (r: Option<usize>)
        ensures
            match r {
                Some(i) => i < self.accounts@.len() && self.accounts@[i as int].address == *addr
                    && entry_from(self.entries_seq(), 0, *addr) == Some(
                    self.accounts@[i as int].versions@,
                ),
                None => entry_from(self.entries_seq(), 0, *addr) is None,
            },
    {
        let mut i: usize = 0;
        while i < self.accounts.len()
            invariant
                i <= self.accounts@.len(),
                entry_from(self.accounts@, 0, *addr) == entry_from(self.accounts@, i as int, *addr),
            decreases self.accounts@.len() - i,
        {
            if crate::address_eq(&self.accounts[i].address, addr) {
                return Some(i);
            }
            i = i + 1;
        }
        None
    }
}

/// A scan that found nothing means the slot is absent everywhere past `j`.
proof fn lemma_srf_none(s: Seq<SlotData>, j: int, q: u64)
    requires
        0 <= j,
        slot_record_from(s, j, q) is None,
    ensures
        forall|i: int| j <= i < s.len() ==> s[i].slot != q,
    decreases s.len() - j,
{
    if j < s.len() {
        assert(s[j].slot != q);
        lemma_srf_none(s, j + 1, q);
    }
}

/// Updating the record of one slot changes only that slot's lookup.
proof fn lemma_srf_update(s: Seq<SlotData>, i: int, r: SlotData, q: u64, j: int)
    requires
        0 <= i < s.len(),
        r.slot == s[i].slot,
        forall|a: int, b: int| 0 <= a < b < s.len() ==> s[a].slot != s[b].slot,
        0 <= j <= s.len(),
    ensures
        slot_record_from(s.update(i, r), j, q) == (if q == r.slot && j <= i {
            Some(r)
        } else {
            slot_record_from(s, j, q)
        }),
    decreases s.len() - j,
{
    if j < s.len() {
        if j != i && s[j].slot == q && q == r.slot {
            if j < i {
                assert(s[j].slot != s[i].slot);
            } else {
                assert(s[i].slot != s[j].slot);
            }
        }
        lemma_srf_update(s, i, r, q, j + 1);
    }
}

/// Appending a record changes only lookups that previously found nothing.
proof fn lemma_srf_push(s: Seq<SlotData>, r: SlotData, q: u64, j: int)
    requires
        0 <= j <= s.len(),
    ensures
        slot_record_from(s.push(r), j, q) == (match slot_record_from(s, j, q) {
            Some(x) => Some(x),
            None => if q == r.slot { Some(r) } else { None::<SlotData> },
        }),
    decreases s.len() - j,
{
    if j < s.len() {
        lemma_srf_push(s, r, q, j + 1);
    } else {
        assert(s.push(r)[j] == r);
        if q != r.slot {
            assert(slot_record_from(s.push(r), j + 1, q) is None);
        }
    }
}

/// A scan that found nothing means the address is absent everywhere past `j`.
proof fn lemma_entry_none(s: Seq<AccountEntry>, j: int, q: Address)
    requires
        0 <= j,
        entry_from(s, j, q) is None,
    ensures
        forall|i: int| j <= i < s.len() ==> s[i].address != q,
    decreases s.len() - j,
{
    if j < s.len() {
        assert(s[j].address != q);
        lemma_entry_none(s, j + 1, q);
    }
}

/// Replacing one address's entry changes only that address's lookup.
proof fn lemma_entry_update(s: Seq<AccountEntry>, i: int, e: AccountEntry, q: Address, j: int)
    requires
        0 <= i < s.len(),
        e.address == s[i].address,
        forall|a: int, b: int| 0 <= a < b < s.len() ==> s[a].address != s[b].address,
        0 <= j <= s.len(),
    ensures
        entry_from(s.update(i, e), j, q) == (if q == e.address && j <= i {
            Some(e.versions@)
        } else {
            entry_from(s, j, q)
        }),
    decreases s.len() - j,
{
    if j < s.len() {
        if j != i && s[j].address == q && q == e.address {
            if j < i {
                assert(s[j].address != s[i].address);
            } else {
                assert(s[i].address != s[j].address);
            }
        }
        lemma_entry_update(s, i, e, q, j + 1);
    }
}

/// Appending an entry changes only lookups that previously found nothing.
proof fn lemma_entry_push(s: Seq<AccountEntry>, e: AccountEntry, q: Address, j: int)
    requires
        0 <= j <= s.len(),
    ensures
        entry_from(s.push(e), j, q) == (match entry_from(s, j, q) {
            Some(x) => Some(x),
            None => if q == e.address { Some(e.versions@) } else { None::<Seq<AccountData>> },
        }),
    decreases s.len() - j,
{
    if j < s.len() {
        lemma_entry_push(s, e, q, j + 1);
    } else {
        assert(s.push(e)[j] == e);
        if q != e.address {
            assert(entry_from(s.push(e), j + 1, q) is None);
        }
    }
}

/// Where the ordered insert lands, given the scan position `j`: all versions
/// at or past `j` are strictly newer than `d`, the one just before (if any)
/// is not.
proof fn lemma_sorted_insert_char(s: Seq<AccountData>, d: AccountData, j: int)
    requires
        versions_sorted(s),
        0 <= j <= s.len(),
        forall|k: int| j <= k < s.len() ==> vkey_lt(d, s[k]),
        j > 0 ==> !vkey_lt(d, s[j - 1]),
    ensures
        sorted_insert(s, d) == (if j > 0 && vkey_eq(s[j - 1], d) {
            s.update(j - 1, d)
        } else {
            s.take(j) + seq![d] + s.skip(j)
        }),
    decreases s.len(),
{
    if s.len() == 0 {
        assert(sorted_insert(s, d) =~= s.take(j) + seq![d] + s.skip(j));
    } else if j == s.len() {
        if vkey_lt(s.last(), d) {
            assert(s.push(d) =~= s.take(j) + seq![d] + s.skip(j));
        }
    } else {
        assert(vkey_lt(d, s.last()));
        let dl = s.drop_last();
        assert(versions_sorted(dl));
        assert(j > 0 ==> dl[j - 1] == s[j - 1]);
        lemma_sorted_insert_char(dl, d, j);
        if j > 0 && vkey_eq(s[j - 1], d) {
            assert(dl.update(j - 1, d).push(s.last()) =~= s.update(j - 1, d));
        } else {
            assert((dl.take(j) + seq![d] + dl.skip(j)).push(s.last()) =~= s.take(j) + seq![d]
                + s.skip(j));
        }
    }
}

/// The ordered insert keeps the version list sorted.
proof fn lemma_insert_shape_sorted(s: Seq<AccountData>, d: AccountData, j: int)
    requires
        versions_sorted(s),
        0 <= j <= s.len(),
        forall|k: int| j <= k < s.len() ==> vkey_lt(d, s[k]),
        j > 0 ==> !vkey_lt(d, s[j - 1]),
    ensures
        versions_sorted(sorted_insert(s, d)),
        sorted_insert(s, d).len() > 0,
{
    lemma_sorted_insert_char(s, d, j);
    if j > 0 && vkey_eq(s[j - 1], d) {
        let r = s.update(j - 1, d);
        assert forall|a: int, b: int| 0 <= a < b < r.len() implies vkey_lt(r[a], r[b]) by {
            assert(vkey_lt(s[a], s[b]));
        }
    } else {
        let r = s.take(j) + seq![d] + s.skip(j);
        assert forall|a: int, b: int| 0 <= a < b < r.len() implies vkey_lt(r[a], r[b]) by {
            if j > 0 {
                assert(vkey_lt(s[j - 1], d));
            }
            assert(r[a] == (if a < j { s[a] } else if a == j { d } else { s[a - 1] }));
            assert(r[b] == (if b < j { s[b] } else if b == j { d } else { s[b - 1] }));
            if a < j {
                assert(a == j - 1 || vkey_lt(s[a], s[j - 1]));
                assert(vkey_lt(s[a], d));
            }
            if b > j {
                assert(vkey_lt(d, s[b - 1]));
            }
        }
    }
}

impl ChainData {
    /// Merges a slot record: the status advances to the further of the two,
    /// a parent link is adopted only when none is known yet, and a parent
    /// not below its slot is discarded as malformed. The best chain slot
    /// advances monotonically to the highest slot number seen; the newest
    /// rooted slot advances when the merged record is rooted.
    pub fn update_slot(&mut self, d: SlotData)
        requires
            old(self).wf(),
        ensures
            final(self).wf(),
            final(self).best_slot_spec() == (if old(self).best_slot_spec() >= d.slot {
                old(self).best_slot_spec()
            } else {
                d.slot
            }),
            final(self).entries_seq() == old(self).entries_seq(),
            final(self).slot_rec(d.slot) == Some(merged_slot_record(old(self).slot_rec(d.slot), d)),
            forall|q: u64| q != d.slot ==> final(self).slot_rec(q) == old(self).slot_rec(q),
            final(self).rooted_slot_spec() == (if merged_slot_record(
                old(self).slot_rec(d.slot),
                d,
            ).status is Rooted && old(self).rooted_slot_spec() < d.slot {
                d.slot
            } else {
                old(self).rooted_slot_spec()
            }),
    {
        let sanitized: Option<u64> = match d.parent {
            Some(p) => if p < d.slot { Some(p) } else { None },
            None => None,
        };
        let merged: SlotData = match self.find_slot(d.slot) {
            Some(i) => {
                let existing = self.slots[i];
                let merged = SlotData {
                    slot: existing.slot,
                    parent: match existing.parent {
                        Some(p) => Some(p),
                        None => sanitized,
                    },
                    status: status_max(existing.status, d.status),
                    chain: existing.chain,
                };
                proof {
                    lemma_srf_update(self.slots@, i as int, merged, d.slot, 0);
                    assert forall|q: u64| q != d.slot implies slot_record_from(
                        self.slots@.update(i as int, merged),
                        0,
                        q,
                    ) == slot_record_from(self.slots@, 0, q) by {
                        lemma_srf_update(self.slots@, i as int, merged, q, 0);
                    }
                }
                self.slots.set(i, merged);
                merged
            },
            None => {
                let rec = SlotData { slot: d.slot, parent: sanitized, status: d.status, chain: d.chain };
                proof {
                    lemma_srf_none(self.slots@, 0, d.slot);
                    lemma_srf_push(self.slots@, rec, d.slot, 0);
                    assert forall|q: u64| q != d.slot implies slot_record_from(
                        self.slots@.push(rec),
                        0,
                        q,
                    ) == slot_record_from(self.slots@, 0, q) by {
                        lemma_srf_push(self.slots@, rec, q, 0);
                    }
                }
                self.slots.push(rec);
                rec
            },
        };
        if self.best_chain_slot < d.slot {
            self.best_chain_slot = d.slot;
        }
        let is_rooted = match merged.status {
            SlotStatus::Rooted => true,
            _ => false,
        };
        if is_rooted && self.newest_rooted_slot < d.slot {
            self.newest_rooted_slot = d.slot;
        }
    }

    /// Stores a new account version at its ordered position. A version with
    /// the same (slot, write_version) key replaces the stored one; a later
    /// stored version is never overwritten.
    pub fn update_account(&mut self, address: Address, d: AccountData)
        requires
            old(self).wf(),
        ensures
            final(self).wf(),
            final(self).versions_of(address) == sorted_insert(old(self).versions_of(address), d),
            forall|a: Address| a != address ==> final(self).versions_of(a) == old(
                self,
            ).versions_of(a),
            final(self).slots_seq() == old(self).slots_seq(),
            final(self).best_slot_spec() == old(self).best_slot_spec(),
            final(self).rooted_slot_spec() == old(self).rooted_slot_spec(),
    {
        match self.find_account(&address) {
            Some(ei) => {
                let ghost entries0 = self.accounts@;
                let mut e = self.accounts.remove(ei);
                let ghost vs0 = e.versions@;
                let mut j: usize = e.versions.len();
                while j > 0 && vkey_lt_exec(&d, &e.versions[j - 1])
                    invariant
                        j <= e.versions@.len(),
                        e.versions@ == vs0,
                        forall|k: int| j <= k < vs0.len() ==> vkey_lt(d, vs0[k]),
                    decreases j,
                {
                    j = j - 1;
                }
                proof {
                    assert(versions_sorted(vs0));
                    lemma_sorted_insert_char(vs0, d, j as int);
                    lemma_insert_shape_sorted(vs0, d, j as int);
                }
                if j > 0 && vkey_eq_exec(&e.versions[j - 1], &d) {
                    e.versions.set(j - 1, d);
                } else {
                    e.versions.insert(j, d);
                    proof {
                        assert(e.versions@ =~= vs0.take(j as int) + seq![d] + vs0.skip(j as int));
                    }
                }
                proof {
                    assert(e.versions@ =~= sorted_insert(vs0, d));
                }
                let ghost e_final = e;
                self.accounts.insert(ei, e);
                proof {
                    assert(self.accounts@ =~= entries0.update(ei as int, e_final));
                    lemma_entry_update(entries0, ei as int, e_final, address, 0);
                    assert forall|a: Address| a != address implies entry_from(
                        self.accounts@,
                        0,
                        a,
                    ) == entry_from(entries0, 0, a) by {
                        lemma_entry_update(entries0, ei as int, e_final, a, 0);
                    }
                }
            },
            None => {
                proof {
                    lemma_entry_none(self.accounts@, 0, address);
                    assert(sorted_insert(Seq::<AccountData>::empty(), d) =~= seq![d]);
                }
                let mut vs: Vec<AccountData> = Vec::new();
                vs.push(d);
                let e = AccountEntry { address, versions: vs };
                let ghost entries0 = self.accounts@;
                let ghost e_snap = e;
                self.accounts.push(e);
                proof {
                    lemma_entry_push(entries0, e_snap, address, 0);
                    assert forall|a: Address| a != address implies entry_from(
                        self.accounts@,
                        0,
                        a,
                    ) == entry_from(entries0, 0, a) by {
                        lemma_entry_push(entries0, e_snap, a, 0);
                    }
                    assert(e_snap.versions@ =~= seq![d]);
                }
            },
        }
    }
}

impl ChainData {
    /// Whether a write at slot `s` would be returned by lookups: the parent
    /// walk from the best chain slot reaches `s` before passing below it.
    pub fn slot_is_live(&self, s: u64) -> (r: bool)
        requires
            self.wf(),
        ensures
            r == self.slot_live(s),
    {
        let mut cur: u64 = self.best_chain_slot;
        loop
            invariant
                self.wf(),
                self.slot_live(s) == live_from(self.slots_seq(), cur, s),
            decreases cur,
        {
            if s == cur {
                return true;
            }
            if s > cur {
                return false;
            }
            match self.find_slot(cur) {
                None => {
                    return true;
                },
                Some(i) => {
                    let rec = self.slots[i];
                    proof {
                        assert((#[trigger] self.slots@[i as int]).parent matches Some(p) ==> p
                            < self.slots@[i as int].slot);
                    }
                    match rec.parent {
                        None => {
                            return true;
                        },
                        Some(p) => {
                            cur = p;
                        },
                    }
                },
            }
        }
    }

    /// The most recent live version in a sorted version list.
    fn resolve_slice(&self, vs: &Vec<AccountData>) -> (r: Option<usize>)
        requires
            self.wf(),
        ensures
            match r {
                Some(k) => k < vs@.len() && resolve_versions(
                    self.slots_seq(),
                    self.best_slot_spec(),
                    vs@,
                ) == Some(vs@[k as int]),
                None => resolve_versions(self.slots_seq(), self.best_slot_spec(), vs@) is None,
            },
    {
        let mut k: usize = vs.len();
        proof {
            assert(vs@.take(vs@.len() as int) =~= vs@);
        }
        while k > 0
            invariant
                self.wf(),
                k <= vs@.len(),
                resolve_versions(self.slots_seq(), self.best_slot_spec(), vs@)
                    == resolve_versions(self.slots_seq(), self.best_slot_spec(), vs@.take(k as int)),
            decreases k,
        {
            proof {
                assert(vs@.take(k as int).last() == vs@[k - 1]);
            }
            if self.slot_is_live(vs[k - 1].slot) {
                return Some(k - 1);
            }
            proof {
                assert(vs@.take(k as int).drop_last() =~= vs@.take(k - 1));
            }
            k = k - 1;
        }
        None
    }

    /// Resolves the current, fork-consistent version of an address; `None`
    /// if no stored version lies on the best chain.
    pub fn account(&self, address: &Address) -> (r: Option<&AccountData>)
        requires
            self.wf(),
        ensures
            match r {
                Some(a) => self.resolved(*address) == Some(*a),
                None => self.resolved(*address) is None,
            },
    {
        match self.find_account(address) {
            None => None,
            Some(ei) => {
                match self.resolve_slice(&self.accounts[ei].versions) {
                    Some(k) => Some(&self.accounts[ei].versions[k]),
                    None => None,
                }
            },
        }
    }

    /// All addresses with a resolved current version, in storage order,
    /// paired with that version. Scanning every entry keeps this correct
    /// whether or not the streaming subscription was complete.
    pub open spec fn current_from(self, i: int) -> Seq<(Address, AccountData)>
        decreases self.entries_seq().len() - i,
    {
        if i < 0 || i >= self.entries_seq().len() {
            Seq::empty()
        } else {
            let rest = self.current_from(i + 1);
            match resolve_versions(
                self.slots_seq(),
                self.best_slot_spec(),
                self.entries_seq()[i].versions@,
            ) {
                Some(a) => seq![(self.entries_seq()[i].address, a)] + rest,
                None => rest,
            }
        }
    }

    /// Materializes `current_from(0)`: every resolved current snapshot.
    pub fn current_accounts(&self) -> (r: Vec<(Address, AccountData)>)
        requires
            self.wf(),
        ensures
            r@.len() == self.current_from(0).len(),
            forall|k: int|
                0 <= k < r@.len() ==> r@[k].0 == self.current_from(0)[k].0 && snap_eq(
                    r@[k].1,
                    self.current_from(0)[k].1,
                ),
    {
        let mut out: Vec<(Address, AccountData)> = Vec::new();
        let mut i: usize = 0;
        while i < self.accounts.len()
            invariant
                self.wf(),
                i <= self.entries_seq().len(),
                out@.len() + self.current_from(i as int).len() == self.current_from(0).len(),
                forall|k: int|
                    0 <= k < out@.len() ==> out@[k].0 == self.current_from(0)[k].0 && snap_eq(
                        out@[k].1,
                        self.current_from(0)[k].1,
                    ),
                forall|k: int|
                    0 <= k < self.current_from(i as int).len() ==> self.current_from(i as int)[k]
                        == self.current_from(0)[out@.len() + k],
            decreases self.entries_seq().len() - i,
        {
            let ghost prev_out = out@;
            let ghost cf_i = self.current_from(i as int);
            let ghost cf_n = self.current_from(i as int + 1);
            match self.resolve_slice(&self.accounts[i].versions) {
                Some(k) => {
                    proof {
                        assert(cf_i == seq![
                            (
                                self.entries_seq()[i as int].address,
                                self.entries_seq()[i as int].versions@[k as int],
                            ),
                        ] + cf_n);
                    }
                    let pair = (self.accounts[i].address, self.accounts[i].versions[k].duplicate());
                    out.push(pair);
                    proof {
                        assert(cf_i[0] == self.current_from(0)[prev_out.len() as int]);
                        assert forall|kk: int| 0 <= kk < out@.len() implies out@[kk].0
                            == self.current_from(0)[kk].0 && snap_eq(
                            out@[kk].1,
                            self.current_from(0)[kk].1,
                        ) by {
                            if kk < prev_out.len() {
                                assert(out@[kk] == prev_out[kk]);
                            } else {
                                assert(out@[kk].1 == out@[kk as int].1);
                            }
                        }
                        assert forall|kk: int| 0 <= kk < cf_n.len() implies cf_n[kk]
                            == self.current_from(0)[out@.len() + kk] by {
                            assert(cf_i[kk + 1] == self.current_from(0)[prev_out.len() + kk + 1]);
                            assert(cf_i[kk + 1] == cf_n[kk]);
                        }
                    }
                },
                None => {
                    proof {
                        assert(cf_i == cf_n);
                    }
                },
            }
            i = i + 1;
        }
        out
    }
}

/// Exec mirror of `vkey_lt`.
pub fn vkey_lt_exec(a: &AccountData, b: &AccountData) -> (r: bool)
    ensures
        r == vkey_lt(*a, *b),
{
    a.slot < b.slot || (a.slot == b.slot && a.write_version < b.write_version)
}

/// Exec mirror of `vkey_eq`.
pub fn vkey_eq_exec(a: &AccountData, b: &AccountData) -> (r: bool)
    ensures
        r == vkey_eq(*a, *b),
{
    a.slot == b.slot && a.write_version == b.write_version
}

proof fn lemma_entry_in_seq(s: Seq<AccountEntry>, j: int, q: Address)
    requires
        0 <= j,
    ensures
        entry_from(s, j, q) matches Some(vs) ==> exists|k: int|
            j <= k < s.len() && (#[trigger] s[k]).versions@ == vs,
    decreases s.len() - j,
{
    if j < s.len() {
        lemma_entry_in_seq(s, j + 1, q);
        if s[j].address == q {
            assert(s[j].versions@ == entry_from(s, j, q).unwrap());
        } else {
            if entry_from(s, j + 1, q) is Some {
                let vs = entry_from(s, j + 1, q).unwrap();
                let k = choose|k: int| j + 1 <= k < s.len() && (#[trigger] s[k]).versions@ == vs;
                assert(s[k].versions@ == vs);
            }
        }
    }
}

/// Within a well-formed cache, every stored version list is sorted.
pub proof fn lemma_wf_versions_sorted(c: ChainData, a: Address)
    requires
        c.wf(),
    ensures
        versions_sorted(c.versions_of(a)),
{
    lemma_entry_in_seq(c.entries_seq(), 0, a);
    if entry_from(c.entries_seq(), 0, a) is Some {
        let vs = entry_from(c.entries_seq(), 0, a).unwrap();
        let k = choose|k: int|
            0 <= k < c.entries_seq().len() && (#[trigger] c.entries_seq()[k]).versions@ == vs;
        assert(versions_sorted(c.entries_seq()[k].versions@));
    }
}

proof fn lemma_srf_some_member(s: Seq<SlotData>, j: int, q: u64)
    requires
        0 <= j,
    ensures
        slot_record_from(s, j, q) is Some ==> exists|k: int|
            j <= k < s.len() && (#[trigger] s[k]).slot == q,
    decreases s.len() - j,
{
    if j < s.len() {
        lemma_srf_some_member(s, j + 1, q);
        if s[j].slot == q {
            assert(s[j].slot == q);
        } else {
            if slot_record_from(s, j + 1, q) is Some {
                let k = choose|k: int| j + 1 <= k < s.len() && (#[trigger] s[k]).slot == q;
                assert(s[k].slot == q);
            }
        }
    }
}

/// A well-formed cache stores no record for any slot past the best chain
/// slot: the best chain slot bounds everything seen.
pub proof fn lemma_unknown_above_best(c: ChainData, q: u64)
    requires
        c.wf(),
        q > c.best_slot_spec(),
    ensures
        c.slot_rec(q) is None,
{
    lemma_srf_some_member(c.slots_seq(), 0, q);
    if c.slot_rec(q) is Some {
        let k = choose|k: int|
            0 <= k < c.slots_seq().len() && (#[trigger] c.slots_seq()[k]).slot == q;
        assert(c.slots_seq()[k].slot <= c.best_slot_spec());
    }
}

/// Inserting a version whose (slot, write_version) key is already stored
/// never changes which key resolves: the store keeps resolving to a version
/// with the same slot and write version, or keeps resolving to none.
pub proof fn lemma_resolve_replace(slots: Seq<SlotData>, best: u64, vs: Seq<AccountData>, d: AccountData)
    requires
        versions_sorted(vs),
        exists|k: int| 0 <= k < vs.len() && vkey_eq(#[trigger] vs[k], d),
    ensures
        match (resolve_versions(slots, best, vs), resolve_versions(
            slots,
            best,
            sorted_insert(vs, d),
        )) {
            (Some(a), Some(b)) => a.slot == b.slot && a.write_version == b.write_version,
            (None, None) => true,
            _ => false,
        },
    decreases vs.len(),
{
    let k = choose|k: int| 0 <= k < vs.len() && vkey_eq(#[trigger] vs[k], d);
    if vkey_lt(vs.last(), d) {
        if k < vs.len() - 1 {
            assert(vkey_lt(vs[k], vs[vs.len() - 1]));
        }
        assert(false);
    } else if vkey_eq(vs.last(), d) {
        let r = vs.update(vs.len() - 1, d);
        assert(r.last() == d);
        assert(r.drop_last() =~= vs.drop_last());
    } else {
        let r = sorted_insert(vs.drop_last(), d).push(vs.last());
        assert(r.last() == vs.last());
        assert(r.drop_last() =~= sorted_insert(vs.drop_last(), d));
        if !live_from(slots, best, vs.last().slot) {
            assert(k < vs.len() - 1);
            assert(vs.drop_last()[k] == vs[k]);
            lemma_resolve_replace(slots, best, vs.drop_last(), d);
        }
    }
}

proof fn lemma_current_from_props(c: ChainData, i: int)
    requires
        c.wf(),
        0 <= i,
    ensures
        forall|p: int|
            0 <= p < c.current_from(i).len() ==> exists|k: int|
                i <= k < c.entries_seq().len() && (#[trigger] c.current_from(i)[p]).0
                    == c.entries_seq()[k].address,
        forall|p: int, q: int|
            0 <= p < q < c.current_from(i).len() ==> c.current_from(i)[p].0 != c.current_from(
                i,
            )[q].0,
    decreases c.entries_seq().len() - i,
{
    if i < c.entries_seq().len() {
        lemma_current_from_props(c, i + 1);
        let rest = c.current_from(i + 1);
        match resolve_versions(
            c.slots_seq(),
            c.best_slot_spec(),
            c.entries_seq()[i].versions@,
        ) {
            Some(a) => {
                let cf = c.current_from(i);
                assert(cf == seq![(c.entries_seq()[i].address, a)] + rest);
                assert(cf[0].0 == c.entries_seq()[i].address);
                assert forall|p: int| 0 <= p < cf.len() implies exists|k: int|
                    i <= k < c.entries_seq().len() && (#[trigger] cf[p]).0
                        == c.entries_seq()[k].address by {
                    if p == 0 {
                        assert(cf[p].0 == c.entries_seq()[i].address);
                    } else {
                        assert(cf[p] == rest[p - 1]);
                        let k = choose|k: int|
                            i + 1 <= k < c.entries_seq().len() && (#[trigger] rest[p - 1]).0
                                == c.entries_seq()[k].address;
                        assert(cf[p].0 == c.entries_seq()[k].address);
                    }
                }
                assert forall|p: int, q: int| 0 <= p < q < cf.len() implies cf[p].0
                    != cf[q].0 by {
                    if p == 0 {
                        assert(cf[q] == rest[q - 1]);
                        let k = choose|k: int|
                            i + 1 <= k < c.entries_seq().len() && (#[trigger] rest[q - 1]).0
                                == c.entries_seq()[k].address;
                        assert(c.entries_seq()[i].address != c.entries_seq()[k].address);
                    } else {
                        assert(cf[p] == rest[p - 1] && cf[q] == rest[q - 1]);
                    }
                }
            },
            None => {},
        }
    }
}

/// The addresses of the resolved current snapshots are pairwise distinct:
/// a scan over them lists each address at most once.
pub proof fn lemma_current_addresses_unique(c: ChainData)
    requires
        c.wf(),
    ensures
        forall|i: int, j: int|
            0 <= i < j < c.current_from(0).len() ==> c.current_from(0)[i].0 != c.current_from(
                0,
            )[j].0,
{
    lemma_current_from_props(c, 0);
}

/// The record stored for a slot after merging an incoming record into what
/// was known before.
pub open spec fn merged_slot_record(existing: Option<SlotData>, d: SlotData) -> SlotData {
    let sanitized: Option<u64> = match d.parent {
        Some(p) => if p < d.slot { Some(p) } else { None },
        None => None,
    };
    match existing {
        Some(e) => SlotData {
            slot: e.slot,
            parent: if e.parent is Some { e.parent } else { sanitized },
            status: if status_rank(e.status) >= status_rank(d.status) { e.status } else { d.status },
            chain: e.chain,
        },
        None => SlotData { slot: d.slot, parent: sanitized, status: d.status, chain: d.chain },
    }
}

} // verus!
