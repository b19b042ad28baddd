//! The raft log store that keeps its log on disk: the entries after the
//! last snapshot, the hard state and the membership, and what to write to
//! the disk for each change.
use protobuf::Message as _;
use raft::eraftpb as pb;
use vstd::prelude::*;

use crate::eraftpb::{
    duplicate_entries, empty_conf_state, entries_view, ConfState, Entry, EntryType, EntryView, HardState,
    RaftState, RaftStateView, Snapshot, SnapshotMetadata, SnapshotMetadataView, SnapshotView, StorageError,
};
use crate::kit::{decimal, decimal_string, lemma_decimal_injective};

verus! {

/// The key under which the last applied snapshot is stored.
pub open spec fn snapshot_key() -> Seq<char> {
    seq!['s', 'n', 'a', 'p', 's', 'h', 'o', 't']
}

/// The key under which the entry with index `index` is stored.
pub open spec fn entry_key(index: nat) -> Seq<char> {
    seq!['e', 'n', 't', 'r', 'i', 'e', 's'] + decimal(index)
}

/// Writes the key of an entry.
fn format_entry_key(index: u64) -> (key: String)
    ensures
        key@ == entry_key(index as nat),
{
    let prefix = "entries";
    proof {
        reveal_strlit("entries");
    }
    let digits = decimal_string(index);
    let key = String::from_str(prefix).concat(digits.as_str());
    proof {
        assert(key@ =~= entry_key(index as nat));
    }
    key
}

/// The entry's payloads leave room for the rest of its wire encoding in
/// the 32-bit size that protobuf counts a message in; a larger entry makes
/// protobuf's size count overflow.
pub open spec fn fits_wire_size(e: EntryView) -> bool {
    e.data.len() + e.context.len() <= 0xffff_ff00
}

/// The snapshot's data and membership leave room for the rest of its wire
/// encoding in protobuf's 32-bit size count.
pub open spec fn snapshot_fits(s: SnapshotView) -> bool {
    let cs = s.metadata.conf_state;
    s.data.len() + 16 * (cs.voters.len() + cs.learners.len() + cs.voters_outgoing.len() + cs.learners_next.len())
        <= 0xffff_ff00
}

/// The size of an entry in raft's wire encoding.
pub uninterp spec fn entry_wire_size(e: EntryView) -> u32;

/// The size that `protobuf::Message::compute_size` gives for the raft
/// crate's `eraftpb::Entry` holding the fields of `e`. Only that the size
/// is a function of the fields is claimed. The size is counted in 32 bits,
/// so the payloads must leave room for the rest.
#[verifier::external_body]
fn encoded_size(e: &Entry) -> (n: u32)
    requires
        fits_wire_size(e@),
    ensures
        n == entry_wire_size(e@),
{
    let mut m = pb::Entry::default();
    m.set_entry_type(match e.entry_type {
        EntryType::EntryNormal => pb::EntryType::EntryNormal,
        EntryType::EntryConfChange => pb::EntryType::EntryConfChange,
        EntryType::EntryConfChangeV2 => pb::EntryType::EntryConfChangeV2,
    });
    m.term = e.term;
    m.index = e.index;
    m.data = e.data.clone().into();
    m.context = e.context.clone().into();
    m.sync_log = e.sync_log;
    m.compute_size()
}

/// The bytes of an entry in raft's wire encoding.
pub uninterp spec fn entry_encoding(e: EntryView) -> Seq<u8>;

/// The entry that bytes hold in raft's wire encoding, if any.
pub uninterp spec fn entry_decoding(bytes: Seq<u8>) -> Option<EntryView>;

/// The bytes that `protobuf::Message::write_to_bytes` gives for the raft
/// crate's `eraftpb::Entry` holding the fields of `e`. Claimed: the bytes
/// are a function of the fields, and protobuf's reading of them gives the
/// same fields back (proto3 leaves out fields at their default, which
/// reading restores). The size is counted in 32 bits, as for
/// `encoded_size`.
#[verifier::external_body]
fn encode_entry(e: &Entry) -> (b: Vec<u8>)
    requires
        fits_wire_size(e@),
    ensures
        b@ == entry_encoding(e@),
        entry_decoding(b@) == Some(e@),
{
    let mut m = pb::Entry::default();
    m.set_entry_type(match e.entry_type {
        EntryType::EntryNormal => pb::EntryType::EntryNormal,
        EntryType::EntryConfChange => pb::EntryType::EntryConfChange,
        EntryType::EntryConfChangeV2 => pb::EntryType::EntryConfChangeV2,
    });
    m.term = e.term;
    m.index = e.index;
    m.data = e.data.clone().into();
    m.context = e.context.clone().into();
    m.sync_log = e.sync_log;
    m.write_to_bytes().unwrap()
}

/// Reads an entry from raft's wire encoding with
/// `protobuf::Message::merge_from_bytes` on the raft crate's
/// `eraftpb::Entry`. Only that the result is a function of the bytes is
/// claimed; `None` is protobuf's error.
#[verifier::external_body]
fn decode_entry(bytes: &[u8]) -> (r: Option<Entry>)
    ensures
        (match r {
            Some(e) => entry_decoding(bytes@) == Some(e@),
            None => entry_decoding(bytes@) is None,
        }),
{
    let mut m = pb::Entry::default();
    match m.merge_from_bytes(bytes) {
        Ok(()) => Some(Entry {
            entry_type: match m.get_entry_type() {
                pb::EntryType::EntryNormal => EntryType::EntryNormal,
                pb::EntryType::EntryConfChange => EntryType::EntryConfChange,
                pb::EntryType::EntryConfChangeV2 => EntryType::EntryConfChangeV2,
            },
            term: m.term, index: m.index, sync_log: m.sync_log,
            data: m.data.to_vec(), context: m.context.to_vec(),
        }),
        Err(_) => None,
    }
}

/// The bytes of a snapshot in raft's wire encoding.
pub uninterp spec fn snapshot_encoding(s: SnapshotView) -> Seq<u8>;

/// The metadata of the snapshot that bytes hold in raft's wire encoding,
/// if they hold one.
pub uninterp spec fn snapshot_metadata_decoding(bytes: Seq<u8>) -> Option<SnapshotMetadataView>;

/// The bytes that `protobuf::Message::write_to_bytes` gives for the raft
/// crate's `eraftpb::Snapshot` holding the fields of `s`. Claimed: the
/// bytes are a function of the fields, and protobuf's reading of them gives
/// the same metadata back. The size is counted in 32 bits.
#[verifier::external_body]
fn encode_snapshot(s: &Snapshot) -> (b: Vec<u8>)
    requires
        snapshot_fits(s@),
    ensures
        b@ == snapshot_encoding(s@),
        snapshot_metadata_decoding(b@) == Some(s@.metadata),
{
    let mut m = pb::Snapshot::default();
    m.data = s.data.clone().into();
    let meta = m.mut_metadata();
    meta.index = s.metadata.index;
    meta.term = s.metadata.term;
    let cs = meta.mut_conf_state();
    cs.voters = s.metadata.conf_state.voters.clone();
    cs.learners = s.metadata.conf_state.learners.clone();
    cs.voters_outgoing = s.metadata.conf_state.voters_outgoing.clone();
    cs.learners_next = s.metadata.conf_state.learners_next.clone();
    cs.auto_leave = s.metadata.conf_state.auto_leave;
    m.write_to_bytes().unwrap()
}

/// Reads the metadata of a snapshot from raft's wire encoding with
/// `protobuf::Message::merge_from_bytes` on the raft crate's
/// `eraftpb::Snapshot`. Only that the result is a function of the bytes is
/// claimed; `None` is protobuf's error.
#[verifier::external_body]
fn decode_snapshot_metadata(bytes: &[u8]) -> (r: Option<SnapshotMetadata>)
    ensures
        (match r {
            Some(m) => snapshot_metadata_decoding(bytes@) == Some(m@),
            None => snapshot_metadata_decoding(bytes@) is None,
        }),
{
    let mut m = pb::Snapshot::default();
    match m.merge_from_bytes(bytes) {
        Ok(()) => {
            let (md, cs) = (m.get_metadata(), m.get_metadata().get_conf_state());
            Some(SnapshotMetadata { index: md.index, term: md.term, conf_state: ConfState {
                voters: cs.voters.clone(), learners: cs.learners.clone(), voters_outgoing: cs.voters_outgoing.clone(),
                learners_next: cs.learners_next.clone(), auto_leave: cs.auto_leave } })
        },
        Err(_) => None,
    }
}

/// The wire sizes of a run of entries.
pub open spec fn wire_sizes(s: Seq<EntryView>) -> Seq<u32> {
    s.map_values(|e: EntryView| entry_wire_size(e))
}

/// The sum of a run of sizes.
pub open spec fn sizes_sum(sizes: Seq<u32>) -> int
    decreases sizes.len(),
{
    if sizes.len() == 0 {
        0
    } else {
        sizes_sum(sizes.drop_last()) + sizes.last() as int
    }
}

/// Raft's size limit keeps entry `j` of a run with sizes `sizes` under the
/// limit `m`: the entries before it have size 0 in all, or the total with
/// it is at most `m`.
pub open spec fn kept_under(sizes: Seq<u32>, j: int, m: u64) -> bool {
    sizes_sum(sizes.take(j)) == 0 || sizes_sum(sizes.take(j + 1)) <= m
}

/// Raft's size limit cuts `all` under `max`: there are two entries or more
/// and a limit other than `u64::MAX`.
pub open spec fn limit_cuts(all: Seq<EntryView>, max: Option<u64>) -> bool {
    all.len() > 1 && match max {
        Some(m) => m != u64::MAX,
        None => false,
    }
}

/// Every entry of `all` whose size raft's limit `m` counts, each one that
/// follows only kept entries, fits protobuf's size count.
pub open spec fn counted_fit(all: Seq<EntryView>, m: u64) -> bool {
    forall|i: int|
        0 <= i < all.len() && (forall|j: int| 0 <= j < i ==> kept_under(wire_sizes(all), j, m)) ==> fits_wire_size(
            #[trigger] all[i],
        )
}

/// Raft's size limit can count the sizes it needs of `all` under `max`.
pub open spec fn sizes_countable(all: Seq<EntryView>, max: Option<u64>) -> bool {
    limit_cuts(all, max) ==> counted_fit(all, max->0)
}

/// `out` is what raft's `limit_size` leaves of `all`, whose entries have
/// sizes `sizes`, under the limit `max`: all of it when there is at most
/// one entry or no limit (`None` or `u64::MAX`); otherwise the longest
/// prefix each of whose entries is kept.
pub open spec fn size_limited(out: Seq<EntryView>, all: Seq<EntryView>, sizes: Seq<u32>, max: Option<u64>) -> bool {
    if !limit_cuts(all, max) {
        out == all
    } else {
        &&& out.len() <= all.len()
        &&& out == all.take(out.len() as int)
        &&& forall|j: int| 0 <= j < out.len() ==> #[trigger] kept_under(sizes, j, max->0)
        &&& out.len() == all.len() || !kept_under(sizes, out.len() as int, max->0)
    }
}

proof fn lemma_sizes_sum_take(s: Seq<u32>, i: int)
    requires
        0 <= i < s.len(),
    ensures
        sizes_sum(s.take(i + 1)) == sizes_sum(s.take(i)) + s[i] as int,
{
    assert(s.take(i + 1).drop_last() =~= s.take(i));
}

/// One step of raft's size limit: whether the next entry, of size `size`,
/// is kept when the entries kept before it have size `total` in all (it is
/// when that total is 0 or when the total with it is at most `max`), and
/// the total with it.
pub fn limit_step(total: u128, size: u32, max: u64) -> (r: (bool, u128))
    requires
        total <= u64::MAX,
    ensures
        r.0 == (total == 0 || total + size <= max),
        r.1 == total + size,
{
    let t = total + size as u128;
    (total == 0 || t <= max as u128, t)
}

/// How many of the entries `lo..hi` of `ents` raft's size limit `m` keeps,
/// counting the size of each entry it reaches; `None` when an entry it
/// reaches does not fit protobuf's size count.
fn limit_count(ents: &[Entry], lo: usize, hi: usize, m: u64) -> (r: Option<usize>)
    requires
        lo <= hi <= ents@.len(),
    ensures
        ({
            let all = entries_view(ents@).subrange(lo as int, hi as int);
            let sizes = wire_sizes(all);
            &&& (r is Some) == counted_fit(all, m)
            &&& r matches Some(c) ==> c <= all.len() && (forall|j: int| 0 <= j < c ==> #[trigger] kept_under(sizes, j, m))
                && (c == all.len() || !kept_under(sizes, c as int, m))
        }),
{
    let ghost all = entries_view(ents@).subrange(lo as int, hi as int);
    let ghost sizes = wire_sizes(all);
    let n = hi - lo;
    let mut total: u128 = 0;
    let mut count: usize = 0;
    while count < n
        invariant_except_break
            lo <= hi <= ents@.len(),
            n == hi - lo,
            all == entries_view(ents@).subrange(lo as int, hi as int),
            sizes == wire_sizes(all),
            total <= u64::MAX,
            count <= n,
            total == sizes_sum(sizes.take(count as int)),
            forall|j: int| 0 <= j < count ==> #[trigger] kept_under(sizes, j, m),
            forall|i: int| 0 <= i < count ==> fits_wire_size(#[trigger] all[i]),
        ensures
            all == entries_view(ents@).subrange(lo as int, hi as int),
            sizes == wire_sizes(all),
            count <= n,
            forall|j: int| 0 <= j < count ==> #[trigger] kept_under(sizes, j, m),
            forall|i: int| 0 <= i < count ==> fits_wire_size(#[trigger] all[i]),
            count == n || (fits_wire_size(all[count as int]) && !kept_under(sizes, count as int, m)),
        decreases n - count,
    {
        let e = &ents[lo + count];
        assert(all[count as int] == e@);
        if !(e.data.len() as u64 <= 0xffff_ff00 && e.context.len() as u64 <= 0xffff_ff00 - e.data.len() as u64) {
            proof {
                assert(forall|j: int| 0 <= j < count ==> #[trigger] kept_under(sizes, j, m));
                assert(!fits_wire_size(all[count as int]));
            }
            return None;
        }
        let s = encoded_size(e);
        proof {
            lemma_sizes_sum_take(sizes, count as int);
        }
        let (keep, t) = limit_step(total, s, m);
        if !keep {
            break;
        }
        total = t;
        count = count + 1;
    }
    proof {
        if count == n {
            assert forall|i: int|
                0 <= i < all.len() && (forall|j: int| 0 <= j < i ==> kept_under(wire_sizes(all), j, m)) implies fits_wire_size(
                #[trigger] all[i],
            ) by {}
        } else {
            assert forall|i: int|
                0 <= i < all.len() && (forall|j: int| 0 <= j < i ==> kept_under(wire_sizes(all), j, m)) implies fits_wire_size(
                #[trigger] all[i],
            ) by {
                if i > count {
                    assert(kept_under(wire_sizes(all), count as int, m));
                }
            }
        }
    }
    Some(count)
}

/// The value a write puts on the disk: the bytes of `value` under `key`.
pub struct DbWrite {
    pub key: String,
    pub value: Vec<u8>,
}

pub struct DbWriteView {
    pub key: Seq<char>,
    pub value: Seq<u8>,
}

impl View for DbWrite {
    type V = DbWriteView;

    open spec fn view(&self) -> DbWriteView {
        DbWriteView { key: self.key@, value: self.value@ }
    }
}

/// The writes of a vector, as values.
pub open spec fn writes_view(v: Seq<DbWrite>) -> Seq<DbWriteView> {
    v.map_values(|w: DbWrite| w@)
}

/// The write that stores entry `e` under its index.
pub open spec fn entry_write(e: EntryView) -> DbWriteView {
    DbWriteView { key: entry_key(e.index as nat), value: entry_encoding(e) }
}

/// The write that stores snapshot `s`.
pub open spec fn snapshot_write(s: SnapshotView) -> DbWriteView {
    DbWriteView { key: snapshot_key(), value: snapshot_encoding(s) }
}

/// The entries of `ents` read back from their encodings.
pub open spec fn decodes_back(ents: Seq<EntryView>) -> bool {
    forall|k: int| 0 <= k < ents.len() ==> entry_decoding(entry_encoding(#[trigger] ents[k])) == Some(ents[k])
}

/// The hard state, membership and snapshot metadata of a store loaded from
/// a disk that holds a snapshot with metadata `meta`, if any: the hard
/// state's term and commit and the membership come from the snapshot, whose
/// metadata keeps the empty membership (it is taken out of it); with no
/// snapshot all is zero and empty.
pub open spec fn recovered_state(meta: Option<SnapshotMetadataView>) -> (RaftStateView, SnapshotMetadataView) {
    match meta {
        Some(m) => (
            RaftStateView {
                hard_state: HardState { term: m.term, vote: 0, commit: m.index },
                conf_state: m.conf_state,
            },
            SnapshotMetadataView { conf_state: empty_conf_state(), index: m.index, term: m.term },
        ),
        None => (
            RaftStateView { hard_state: HardState { term: 0, vote: 0, commit: 0 }, conf_state: empty_conf_state() },
            SnapshotMetadataView { conf_state: empty_conf_state(), index: 0, term: 0 },
        ),
    }
}

/// The entries of `s` have consecutive indices.
pub open spec fn contiguous(s: Seq<EntryView>) -> bool {
    forall|i: int| 0 <= i < s.len() ==> #[trigger] s[i].index == s[0].index + i
}

/// The in-memory state of the log store: the entries after the last
/// snapshot, the hard state and membership, and what the last snapshot
/// covers.
pub struct LevelStorageCore {
    pub entries: Vec<Entry>,
    pub raft_state: RaftState,
    pub snapshot_metadata: SnapshotMetadata,
}

impl LevelStorageCore {
    /// The entries, as values.
    pub open spec fn log(&self) -> Seq<EntryView> {
        entries_view(self.entries@)
    }

    /// The index of the first entry still held: that of the first entry,
    /// or the one after the snapshot when no entry is held.
    pub open spec fn first_index_spec(&self) -> int {
        if self.log().len() > 0 {
            self.log()[0].index as int
        } else {
            self.snapshot_metadata.index + 1
        }
    }

    /// The index of the last entry held, or that of the snapshot when no
    /// entry is held.
    pub open spec fn last_index_spec(&self) -> int {
        if self.log().len() > 0 {
            self.log().last().index as int
        } else {
            self.snapshot_metadata.index as int
        }
    }

    /// The store is well formed: its entries have consecutive indices, all
    /// after the snapshot, and the index after the last one fits in a `u64`.
    pub open spec fn wf(&self) -> bool {
        &&& self.snapshot_metadata.index < u64::MAX
        &&& contiguous(self.log())
        &&& self.log().len() > 0 ==> {
            &&& self.log()[0].index > self.snapshot_metadata.index
            &&& self.log().last().index < u64::MAX
        }
    }

    /// Whether an entry with index `index` is held.
    pub open spec fn has_entry_at_spec(&self, index: int) -> bool {
        self.log().len() > 0 && self.first_index_spec() <= index <= self.last_index_spec()
    }

    /// The entry with index `index`, when one is held.
    pub open spec fn entry_at(&self, index: int) -> EntryView {
        self.log()[index - self.first_index_spec()]
    }

    /// What `term` answers for `idx`.
    pub open spec fn term_spec(&self, idx: u64) -> Result<u64, StorageError> {
        if idx == self.snapshot_metadata.index {
            Ok(self.snapshot_metadata.term)
        } else if idx < self.first_index_spec() {
            Err(StorageError::Compacted)
        } else if idx - self.first_index_spec() >= self.log().len() {
            Err(StorageError::Unavailable)
        } else {
            Ok(self.entry_at(idx as int).term)
        }
    }

    /// The entries with indices in `low..high`, before any size limit, or
    /// `Compacted` when `low` is before the first entry held.
    pub open spec fn entries_spec(&self, low: u64, high: u64) -> Result<Seq<EntryView>, StorageError> {
        if low < self.first_index_spec() {
            Err(StorageError::Compacted)
        } else {
            Ok(self.log().subrange(low - self.first_index_spec(), high - self.first_index_spec()))
        }
    }

    /// `entries(low, high, ..)` does not panic: a range that starts at a
    /// held entry lies within the entries held.
    pub open spec fn entries_ok(&self, low: u64, high: u64) -> bool {
        low >= self.first_index_spec() ==> {
            &&& self.log().len() > 0
            &&& low <= high
            &&& high <= self.last_index_spec() + 1
        }
    }

    /// `ents` can be appended: they are consecutive, they start within the
    /// entries held or right after the last one, and the index after the
    /// last of them fits in a `u64`.
    pub open spec fn append_ok(&self, ents: Seq<EntryView>) -> bool {
        ents.len() > 0 ==> {
            &&& contiguous(ents)
            &&& self.first_index_spec() <= ents[0].index <= self.last_index_spec() + 1
            &&& ents.last().index < u64::MAX
        }
    }

    /// The entries held after appending `ents`: those before the first of
    /// them, then `ents`.
    pub open spec fn appended(&self, ents: Seq<EntryView>) -> Seq<EntryView> {
        if ents.len() == 0 {
            self.log()
        } else {
            self.log().take(ents[0].index - self.first_index_spec()) + ents
        }
    }

    /// The state after the snapshot with metadata `meta` was applied.
    pub open spec fn applied_snapshot(&self, meta: SnapshotMetadataView) -> (RaftStateView, SnapshotMetadataView) {
        (
            RaftStateView {
                hard_state: HardState { term: meta.term, commit: meta.index, ..self.raft_state.hard_state },
                conf_state: meta.conf_state,
            },
            meta,
        )
    }

    /// The snapshot the store produces: it covers the log up to the
    /// committed index, with the term and membership stored.
    pub open spec fn snapshot_spec(&self) -> SnapshotView {
        SnapshotView {
            data: Seq::empty(),
            metadata: SnapshotMetadataView {
                conf_state: self.raft_state.conf_state@,
                index: self.raft_state.hard_state.commit,
                term: self.raft_state.hard_state.term,
            },
        }
    }

    /// In a well-formed store the entries held are those with indices from
    /// the first to the last index.
    pub proof fn lemma_indices(&self)
        requires
            self.wf(),
        ensures
            self.last_index_spec() == self.first_index_spec() + self.log().len() - 1,
            forall|i: int| #![trigger self.log()[i]]
                0 <= i < self.log().len() ==> self.log()[i].index == self.first_index_spec() + i,
    {
        if self.log().len() > 0 {
            assert(self.log()[self.log().len() - 1].index == self.log()[0].index + self.log().len() - 1);
        }
    }

    /// The index of the first entry held, or the one after the snapshot.
    pub fn first_index(&self) -> (i: u64)
        requires
            self.wf(),
        ensures
            i == self.first_index_spec(),
    {
        if self.entries.len() > 0 {
            self.entries[0].index
        } else {
            self.snapshot_metadata.index + 1
        }
    }

    /// The index of the last entry held, or that of the snapshot.
    pub fn last_index(&self) -> (i: u64)
        requires
            self.wf(),
        ensures
            i == self.last_index_spec(),
    {
        let n = self.entries.len();
        if n > 0 {
            self.entries[n - 1].index
        } else {
            self.snapshot_metadata.index
        }
    }

    /// Whether an entry with index `index` is held.
    pub fn has_entry_at(&self, index: u64) -> (b: bool)
        requires
            self.wf(),
        ensures
            b == self.has_entry_at_spec(index as int),
    {
        self.entries.len() > 0 && index >= self.first_index() && index <= self.last_index()
    }

    /// Saves the hard state.
    pub fn set_hardstate(&mut self, hs: HardState)
        ensures
            final(self).raft_state.hard_state == hs,
            final(self).raft_state.conf_state@ == old(self).raft_state.conf_state@,
            final(self).log() == old(self).log(),
            final(self).snapshot_metadata@ == old(self).snapshot_metadata@,
    {
        self.raft_state.hard_state = hs;
    }

    /// The hard state.
    pub fn hard_state(&self) -> (hs: &HardState)
        ensures
            *hs == self.raft_state.hard_state,
    {
        &self.raft_state.hard_state
    }

    /// The hard state, to change in place.
    pub fn mut_hard_state(&mut self) -> (hs: &mut HardState)
        ensures
            *hs == old(self).raft_state.hard_state,
            final(self).raft_state.hard_state == *final(hs),
            final(self).raft_state.conf_state@ == old(self).raft_state.conf_state@,
            final(self).log() == old(self).log(),
            final(self).snapshot_metadata@ == old(self).snapshot_metadata@,
    {
        &mut self.raft_state.hard_state
    }

    /// Commits to `index`: the hard state takes that index and the term of
    /// its entry. An entry with that index must be held.
    pub fn commit_to(&mut self, index: u64) -> (r: Result<(), StorageError>)
        requires
            old(self).wf(),
            old(self).has_entry_at_spec(index as int),
        ensures
            r is Ok,
            final(self).wf(),
            final(self).raft_state.hard_state == (HardState {
                commit: index,
                term: old(self).entry_at(index as int).term,
                ..old(self).raft_state.hard_state
            }),
            final(self).raft_state.conf_state@ == old(self).raft_state.conf_state@,
            final(self).log() == old(self).log(),
            final(self).snapshot_metadata@ == old(self).snapshot_metadata@,
    {
        proof {
            self.lemma_indices();
            assert(self.log()[0].index == self.entries@[0].index);
            assert(index - self.entries@[0].index < self.entries.len());
        }
        let diff = (index - self.entries[0].index) as usize;
        let term = self.entries[diff].term;
        self.raft_state.hard_state.commit = index;
        self.raft_state.hard_state.term = term;
        Ok(())
    }

    /// Saves the membership.
    pub fn set_conf_state(&mut self, cs: ConfState)
        ensures
            final(self).raft_state.conf_state@ == cs@,
            final(self).raft_state.hard_state == old(self).raft_state.hard_state,
            final(self).log() == old(self).log(),
            final(self).snapshot_metadata@ == old(self).snapshot_metadata@,
    {
        self.raft_state.conf_state = cs;
    }

    /// Sets the membership of a store that holds none yet.
    pub fn initialize_with_conf_state(&mut self, cs: ConfState)
        requires
            old(self).raft_state.conf_state@ == empty_conf_state(),
        ensures
            final(self).raft_state.conf_state@ == cs@,
            final(self).raft_state.hard_state == old(self).raft_state.hard_state,
            final(self).log() == old(self).log(),
            final(self).snapshot_metadata@ == old(self).snapshot_metadata@,
    {
        self.raft_state.conf_state = cs;
    }

    /// Overwrites the store with the given snapshot, which must not be
    /// older than the first entry held; it is written to the disk. Applying
    /// it drops all entries and takes the hard state's term and commit, and
    /// the membership, from it.
    pub fn apply_snapshot(&mut self, snapshot: Snapshot) -> (res: (Vec<DbWrite>, Result<(), StorageError>))
        requires
            old(self).wf(),
            snapshot.metadata.index < u64::MAX,
            old(self).first_index_spec() <= snapshot.metadata.index,
            snapshot_fits(snapshot@),
        ensures
            final(self).wf(),
            writes_view(res.0@) == seq![snapshot_write(snapshot@)],
            snapshot_metadata_decoding(snapshot_encoding(snapshot@)) == Some(snapshot@.metadata),
            res.1 is Ok,
            final(self).log() == Seq::<EntryView>::empty(),
            (final(self).raft_state@, final(self).snapshot_metadata@) == old(self).applied_snapshot(snapshot.metadata@),
    {
        let bytes = encode_snapshot(&snapshot);
        let mut writes: Vec<DbWrite> = Vec::new();
        let key = String::from_str("snapshot");
        proof {
            reveal_strlit("snapshot");
            assert(key@ =~= snapshot_key());
        }
        writes.push(DbWrite { key, value: bytes });
        proof {
            assert(writes_view(writes@) =~= seq![snapshot_write(snapshot@)]);
        }
        let meta = snapshot.metadata;
        self.snapshot_metadata = meta.duplicate();
        self.raft_state.hard_state.term = meta.term;
        self.raft_state.hard_state.commit = meta.index;
        self.entries = Vec::new();
        self.raft_state.conf_state = meta.conf_state;
        proof {
            assert(self.log() =~= Seq::<EntryView>::empty());
        }
        (writes, Ok(()))
    }

    /// The snapshot of the store: it covers the log up to the committed
    /// index, with the stored term and membership, and holds no data.
    pub fn snapshot(&self) -> (s: Snapshot)
        ensures
            s@ == self.snapshot_spec(),
    {
        let s = Snapshot {
            data: Vec::new(),
            metadata: SnapshotMetadata {
                conf_state: self.raft_state.conf_state.duplicate(),
                index: self.raft_state.hard_state.commit,
                term: self.raft_state.hard_state.term,
            },
        };
        proof {
            assert(s@.data =~= Seq::<u8>::empty());
        }
        s
    }

    /// Discards the entries before `compact_index`. Nothing happens when
    /// `compact_index` is not after the first entry held; otherwise it must
    /// not be beyond the entry after the last one.
    pub fn compact(&mut self, compact_index: u64) -> (r: Result<(), StorageError>)
        requires
            old(self).wf(),
            compact_index > old(self).first_index_spec() ==> compact_index <= old(self).last_index_spec() + 1,
        ensures
            r is Ok,
            final(self).wf(),
            compact_index <= old(self).first_index_spec() ==> final(self).log() == old(self).log(),
            compact_index > old(self).first_index_spec() ==> final(self).log() == old(self).log().skip(
                compact_index - old(self).first_index_spec(),
            ),
            final(self).raft_state@ == old(self).raft_state@,
            final(self).snapshot_metadata@ == old(self).snapshot_metadata@,
    {
        if compact_index <= self.first_index() {
            return Ok(());
        }
        let ghost old_log = self.log();
        if self.entries.len() > 0 {
            let offset = (compact_index - self.entries[0].index) as usize;
            let rest = self.entries.split_off(offset);
            self.entries = rest;
            proof {
                assert(self.log() =~= old_log.skip(offset as int));
                assert forall|i: int| 0 <= i < self.log().len() implies #[trigger] self.log()[i].index
                    == self.log()[0].index + i by {
                    assert(self.log()[i] == old_log[offset + i]);
                    assert(self.log()[0] == old_log[offset as int]);
                }
            }
        }
        Ok(())
    }

    /// Appends `ents`, dropping the entries held from the index of the first
    /// of them on, and returns the writes that store each of them under its
    /// index. Nothing happens for no entries. The entries must not overwrite
    /// compacted ones nor leave a gap after the last one, and they must have
    /// consecutive indices, as raft hands them over: the store finds an
    /// entry by its offset from the first one, which counts on that.
    pub fn append(&mut self, ents: &[Entry]) -> (res: (Vec<DbWrite>, Result<(), StorageError>))
        requires
            old(self).wf(),
            old(self).append_ok(entries_view(ents@)),
            forall|k: int| 0 <= k < ents@.len() ==> fits_wire_size(#[trigger] ents@[k]@),
        ensures
            res.1 is Ok,
            final(self).wf(),
            final(self).log() == old(self).appended(entries_view(ents@)),
            writes_view(res.0@) == entries_view(ents@).map_values(|e: EntryView| entry_write(e)),
            decodes_back(entries_view(ents@)),
            final(self).raft_state@ == old(self).raft_state@,
            final(self).snapshot_metadata@ == old(self).snapshot_metadata@,
    {
        let ghost new_ents = entries_view(ents@);
        if ents.len() == 0 {
            proof {
                assert(writes_view(Seq::<DbWrite>::empty()) =~= new_ents.map_values(
                    |e: EntryView| entry_write(e),
                ));
            }
            return (Vec::new(), Ok(()));
        }
        let ghost old_log = self.log();
        let ghost first = self.first_index_spec();
        let diff = (ents[0].index - self.first_index()) as usize;
        self.entries.truncate(diff);
        let copies = duplicate_entries(ents);
        let mut i: usize = 0;
        let mut writes: Vec<DbWrite> = Vec::new();
        while i < ents.len()
            invariant
                i <= ents@.len(),
                new_ents == entries_view(ents@),
                copies@.len() == ents@.len(),
                entries_view(copies@) == new_ents,
                diff <= old_log.len(),
                self.log() == old_log.take(diff as int) + new_ents.take(i as int),
                writes_view(writes@) == new_ents.take(i as int).map_values(|e: EntryView| entry_write(e)),
                decodes_back(new_ents.take(i as int)),
                forall|k: int| 0 <= k < ents@.len() ==> fits_wire_size(#[trigger] ents@[k]@),
                self.raft_state == old(self).raft_state,
                self.snapshot_metadata == old(self).snapshot_metadata,
            decreases ents@.len() - i,
        {
            let e = ents[i].duplicate();
            let key = format_entry_key(ents[i].index);
            let ghost prev_log = self.log();
            let ghost prev_writes = writes_view(writes@);
            self.entries.push(e);
            let ghost we = copies@[i as int];
            let bytes = encode_entry(&ents[i]);
            writes.push(DbWrite { key, value: bytes });
            proof {
                assert(entries_view(copies@)[i as int] == new_ents[i as int]);
                assert(new_ents.take(i as int + 1) =~= new_ents.take(i as int).push(new_ents[i as int]));
                assert(self.log() =~= prev_log.push(new_ents[i as int]));
                assert(self.log() =~= old_log.take(diff as int) + new_ents.take(i as int + 1));
                assert(writes_view(writes@) =~= prev_writes.push(entry_write(new_ents[i as int])));
                assert(writes_view(writes@) =~= new_ents.take(i as int + 1).map_values(
                    |e: EntryView| entry_write(e),
                ));
                assert(new_ents[i as int] == ents@[i as int]@);
                assert(decodes_back(new_ents.take(i as int + 1)));
            }
            i = i + 1;
        }
        proof {
            assert(new_ents.take(new_ents.len() as int) =~= new_ents);
            assert(decodes_back(new_ents));
            assert(self.log() == old(self).appended(new_ents));
            let l = self.log();
            assert forall|k: int| 0 <= k < l.len() implies #[trigger] l[k].index == l[0].index + k by {
                if diff == 0 {
                    assert(l[k] == new_ents[k]);
                } else {
                    assert(l[0] == old_log[0]);
                    if k < diff {
                        assert(l[k] == old_log[k]);
                    } else {
                        assert(l[k] == new_ents[k - diff]);
                        assert(new_ents[0].index == first + diff);
                    }
                }
            }
        }
        (writes, Ok(()))
    }

    /// Commits to `idx` and, when given, sets the membership.
    pub fn commit_to_and_set_conf_states(&mut self, idx: u64, cs: Option<ConfState>) -> (r: Result<(), StorageError>)
        requires
            old(self).wf(),
            old(self).has_entry_at_spec(idx as int),
        ensures
            r is Ok,
            final(self).wf(),
            final(self).raft_state.hard_state == (HardState {
                commit: idx,
                term: old(self).entry_at(idx as int).term,
                ..old(self).raft_state.hard_state
            }),
            cs is Some ==> final(self).raft_state.conf_state@ == cs->0@,
            cs is None ==> final(self).raft_state.conf_state@ == old(self).raft_state.conf_state@,
            final(self).log() == old(self).log(),
            final(self).snapshot_metadata@ == old(self).snapshot_metadata@,
    {
        let r = self.commit_to(idx);
        if let Some(cs) = cs {
            self.raft_state.conf_state = cs;
        }
        r
    }

    /// The hard state and membership, as raft finds them when it starts.
    pub fn initial_state(&self) -> (rs: RaftState)
        ensures
            rs@ == self.raft_state@,
    {
        self.raft_state.duplicate()
    }

    /// The term of the entry with index `idx`: that of the snapshot for its
    /// index, `Compacted` before the first entry held, `Unavailable` after
    /// the last one. While no entry is held, only indices up to the
    /// snapshot's can be asked for.
    pub fn term(&self, idx: u64) -> (r: Result<u64, StorageError>)
        requires
            self.wf(),
            self.log().len() > 0 || idx <= self.snapshot_metadata.index,
        ensures
            r == self.term_spec(idx),
    {
        if idx == self.snapshot_metadata.index {
            return Ok(self.snapshot_metadata.term);
        }
        if idx < self.first_index() {
            return Err(StorageError::Compacted);
        }
        let offset = self.entries[0].index;
        if idx - offset >= self.entries.len() as u64 {
            return Err(StorageError::Unavailable);
        }
        Ok(self.entries[(idx - offset) as usize].term)
    }

    /// The entries with indices in `low..high`, cut to `max_size` bytes as
    /// raft's `limit_size` does, or `Compacted` when `low` is before the
    /// first entry held. A range that starts at a held entry must lie within
    /// the entries held, and each entry whose size the limit counts must fit
    /// protobuf's size count.
    pub fn entries(&self, low: u64, high: u64, max_size: Option<u64>) -> (r: Result<Vec<Entry>, StorageError>)
        requires
            self.wf(),
            self.entries_ok(low, high),
            self.entries_spec(low, high) matches Ok(all) ==> sizes_countable(all, max_size),
        ensures
            match (r, self.entries_spec(low, high)) {
                (Ok(v), Ok(all)) => size_limited(entries_view(v@), all, wire_sizes(all), max_size),
                (Err(e), Err(f)) => e == f,
                _ => false,
            },
    {
        if low < self.first_index() {
            return Err(StorageError::Compacted);
        }
        proof {
            self.lemma_indices();
            assert(self.log()[0].index == self.entries@[0].index);
            assert(high - self.entries@[0].index <= self.entries.len());
        }
        let offset = self.entries[0].index;
        let lo = (low - offset) as usize;
        let hi = (high - offset) as usize;
        let ghost all = self.log().subrange(lo as int, hi as int);
        assert(self.entries_spec(low, high) == Ok::<Seq<EntryView>, StorageError>(all));
        let count = match max_size {
            Some(m) => {
                if hi - lo > 1 && m != u64::MAX {
                    match limit_count(self.entries.as_slice(), lo, hi, m) {
                        Some(c) => c,
                        None => {
                            proof {
                                assert(limit_cuts(all, max_size));
                            }
                            0
                        },
                    }
                } else {
                    hi - lo
                }
            },
            None => hi - lo,
        };
        let end = lo + count;
        let mut ents: Vec<Entry> = Vec::new();
        let mut i = lo;
        while i < end
            invariant
                lo <= i <= end <= hi <= self.entries@.len(),
                entries_view(ents@) == self.log().subrange(lo as int, i as int),
            decreases end - i,
        {
            let ghost prev = entries_view(ents@);
            ents.push(self.entries[i].duplicate());
            proof {
                assert(entries_view(ents@) =~= prev.push(self.log()[i as int]));
                assert(self.log().subrange(lo as int, i + 1) =~= self.log().subrange(lo as int, i as int).push(
                    self.log()[i as int],
                ));
            }
            i = i + 1;
        }
        proof {
            assert(entries_view(ents@) =~= all.take(count as int));
            if !limit_cuts(all, max_size) {
                assert(all.take(count as int) =~= all);
            }
        }
        Ok(ents)
    }

    /// Whether raft's size limit `max_size` can count the sizes it needs of
    /// the entries `low..high`: each entry it reaches fits protobuf's size
    /// count.
    pub fn entries_countable(&self, low: u64, high: u64, max_size: Option<u64>) -> (b: bool)
        requires
            self.wf(),
            self.entries_ok(low, high),
        ensures
            b == (self.entries_spec(low, high) matches Ok(all) ==> sizes_countable(all, max_size)),
    {
        if low < self.first_index() {
            return true;
        }
        proof {
            self.lemma_indices();
            assert(self.log()[0].index == self.entries@[0].index);
            assert(high - self.entries@[0].index <= self.entries.len());
        }
        let offset = self.entries[0].index;
        let lo = (low - offset) as usize;
        let hi = (high - offset) as usize;
        let ghost all = self.log().subrange(lo as int, hi as int);
        assert(self.entries_spec(low, high) == Ok::<Seq<EntryView>, StorageError>(all));
        match max_size {
            Some(m) => {
                if hi - lo > 1 && m != u64::MAX {
                    limit_count(self.entries.as_slice(), lo, hi, m).is_some()
                } else {
                    true
                }
            },
            None => true,
        }
    }

    /// The snapshot raft asks for at `request_index`: the store's snapshot,
    /// moved up to `request_index` when that is later.
    pub fn snapshot_at(&self, request_index: u64) -> (r: Result<Snapshot, StorageError>)
        ensures
            r matches Ok(s) && s@ == (SnapshotView {
                metadata: SnapshotMetadataView {
                    index: if self.raft_state.hard_state.commit < request_index {
                        request_index
                    } else {
                        self.raft_state.hard_state.commit
                    },
                    ..self.snapshot_spec().metadata
                },
                ..self.snapshot_spec()
            }),
    {
        let mut snap = self.snapshot();
        if snap.metadata.index < request_index {
            snap.metadata.index = request_index;
        }
        Ok(snap)
    }

    /// The store as it is found on the disk before its entries are read:
    /// no entry, and, when a snapshot was stored, the hard state's term and
    /// commit and the membership taken from the snapshot's metadata `meta`.
    /// The membership is taken out of that metadata, which keeps the empty
    /// one. A stored snapshot must leave room for the index of the next
    /// entry.
    pub fn recover(meta: Option<SnapshotMetadata>) -> (core: Self)
        requires
            meta matches Some(m) ==> m.index < u64::MAX,
        ensures
            core.wf(),
            core.log() == Seq::<EntryView>::empty(),
            (core.raft_state@, core.snapshot_metadata@) == recovered_state(
                match meta {
                    Some(m) => Some(m@),
                    None => None,
                },
            ),
    {
        let mut raft_state = RaftState::default();
        let mut snapshot_metadata = SnapshotMetadata::default();
        if let Some(meta) = meta {
            raft_state.hard_state.term = meta.term;
            raft_state.hard_state.commit = meta.index;
            raft_state.conf_state = meta.conf_state;
            snapshot_metadata = SnapshotMetadata { conf_state: ConfState::default(), index: meta.index, term: meta.term };
        }
        let core = LevelStorageCore { entries: Vec::new(), raft_state, snapshot_metadata };
        proof {
            assert(core.log() =~= Seq::<EntryView>::empty());
        }
        core
    }

    /// The store as it is found on the disk before its entries are read,
    /// from the bytes stored under the snapshot's key, if any. `None` when
    /// those bytes are not a snapshot, or when the snapshot leaves no room
    /// for the index of a next entry.
    pub fn recover_from_disk(snapshot: Option<&[u8]>) -> (r: Option<Self>)
        ensures
            match snapshot {
                None => r matches Some(core) && core.wf() && core.log() == Seq::<EntryView>::empty()
                    && (core.raft_state@, core.snapshot_metadata@) == recovered_state(None),
                Some(b) => match snapshot_metadata_decoding(b@) {
                    Some(m) => if m.index < u64::MAX {
                        r matches Some(core) && core.wf() && core.log() == Seq::<EntryView>::empty()
                            && (core.raft_state@, core.snapshot_metadata@) == recovered_state(Some(m))
                    } else {
                        r is None
                    },
                    None => r is None,
                },
            },
    {
        match snapshot {
            None => Some(Self::recover(None)),
            Some(b) => match decode_snapshot_metadata(b) {
                Some(m) => {
                    if m.index < u64::MAX {
                        Some(Self::recover(Some(m)))
                    } else {
                        None
                    }
                },
                None => None,
            },
        }
    }

    /// Whether the store is well formed.
    pub fn is_well_formed(&self) -> (b: bool)
        ensures
            b == self.wf(),
    {
        if self.snapshot_metadata.index == u64::MAX {
            return false;
        }
        let n = self.entries.len();
        if n == 0 {
            return true;
        }
        let first = self.entries[0].index;
        if first <= self.snapshot_metadata.index || self.entries[n - 1].index == u64::MAX {
            proof {
                assert(self.log()[0].index == first);
                assert(self.log().last().index == self.entries@[n - 1].index);
            }
            return false;
        }
        let mut i: usize = 0;
        while i < n
            invariant
                n == self.entries@.len(),
                first == self.log()[0].index,
                i <= n,
                forall|j: int| 0 <= j < i ==> #[trigger] self.log()[j].index == first + j,
            decreases n - i,
        {
            if self.entries[i].index as u128 != first as u128 + i as u128 {
                proof {
                    assert(self.log()[i as int].index != self.log()[0].index + i);
                }
                return false;
            }
            i = i + 1;
        }
        proof {
            assert(self.log().last() == self.log()[n - 1]);
        }
        true
    }

    /// The key of the next entry to read from the disk when the store is
    /// loaded: that of the index after the snapshot's plus the number of
    /// entries read so far.
    pub fn next_entry_key(&self) -> (key: String)
        requires
            self.snapshot_metadata.index + 1 + self.entries@.len() <= u64::MAX,
        ensures
            key@ == entry_key((self.snapshot_metadata.index + 1 + self.log().len()) as nat),
    {
        let next = self.snapshot_metadata.index + 1 + self.entries.len() as u64;
        format_entry_key(next)
    }

    /// Reads the bytes stored under the key of the next entry and takes the
    /// entry they hold as the entry after the last one held, whatever its
    /// own index; `false`, with the store unchanged, when they hold none.
    pub fn recover_entry_bytes(&mut self, bytes: &[u8]) -> (ok: bool)
        ensures
            ok == (entry_decoding(bytes@) is Some),
            ok ==> final(self).log() == old(self).log().push(entry_decoding(bytes@)->0),
            !ok ==> final(self).log() == old(self).log(),
            final(self).raft_state@ == old(self).raft_state@,
            final(self).snapshot_metadata@ == old(self).snapshot_metadata@,
    {
        match decode_entry(bytes) {
            Some(e) => {
                self.recover_entry(e);
                true
            },
            None => false,
        }
    }

    /// Takes `e`, read from the disk under the key of the next entry, as the
    /// entry after the last one held, whatever its own index.
    pub fn recover_entry(&mut self, e: Entry)
        ensures
            final(self).log() == old(self).log().push(e@),
            final(self).raft_state@ == old(self).raft_state@,
            final(self).snapshot_metadata@ == old(self).snapshot_metadata@,
    {
        let ghost old_log = self.log();
        self.entries.push(e);
        proof {
            assert(self.log() =~= old_log.push(e@));
        }
    }
}

} // verus!

verus! {

/// Reading a range: in a well-formed store, a range that starts at a held
/// entry and ends at most one past the last one holds, with no size limit,
/// exactly `high - low` entries, the `k`-th being the entry held at index
/// `low + k`; a size limit keeps a prefix of them.
pub proof fn lemma_entries_range(s: LevelStorageCore, low: u64, high: u64, max: Option<u64>)
    requires
        s.wf(),
        s.log().len() > 0,
        s.log()[0].index <= low <= high <= s.log().last().index + 1,
    ensures
        s.entries_spec(low, high) matches Ok(v) && {
            &&& v.len() == high - low
            &&& forall|k: int| 0 <= k < v.len() ==> (#[trigger] v[k]).index == low + k
            &&& forall|k: int| 0 <= k < v.len() ==> #[trigger] v[k] == s.log()[low - s.log()[0].index + k]
            &&& forall|out: Seq<EntryView>| size_limited(out, v, wire_sizes(v), None) ==> out == v
            &&& forall|out: Seq<EntryView>| #[trigger] size_limited(out, v, wire_sizes(v), max) ==> out.len() <= v.len()
                && out == v.take(out.len() as int)
        },
{
    s.lemma_indices();
    let first = s.log()[0].index;
    let v = s.log().subrange(low - first, high - first);
    assert(s.entries_spec(low, high) == Ok::<Seq<EntryView>, StorageError>(v));
    assert forall|k: int| 0 <= k < v.len() implies (#[trigger] v[k]).index == low + k by {
        assert(v[k] == s.log()[low - first + k]);
    }
    assert forall|out: Seq<EntryView>| #[trigger] size_limited(out, v, wire_sizes(v), max) implies out.len()
        <= v.len() && out == v.take(out.len() as int) by {
        if !limit_cuts(v, max) {
            assert(v.take(v.len() as int) =~= v);
        }
    }
}

/// The terms a store answers: in a well-formed store, the snapshot's term
/// at the snapshot's index, whether or not entries are held; each held
/// entry's term at its index; `Compacted` at any other index before the
/// first one held; `Unavailable` past the last one.
pub proof fn lemma_term_answers(s: LevelStorageCore, idx: u64)
    requires
        s.wf(),
    ensures
        s.term_spec(s.snapshot_metadata.index) == Ok::<u64, StorageError>(s.snapshot_metadata.term),
        forall|k: int| 0 <= k < s.log().len() ==> s.term_spec((#[trigger] s.log()[k]).index) == Ok::<
            u64,
            StorageError,
        >(s.log()[k].term),
        idx != s.snapshot_metadata.index && (if s.log().len() > 0 {
            idx < s.log()[0].index
        } else {
            idx <= s.snapshot_metadata.index
        }) ==> s.term_spec(idx) == Err::<u64, StorageError>(StorageError::Compacted),
        (if s.log().len() > 0 {
            idx > s.log().last().index
        } else {
            idx > s.snapshot_metadata.index
        }) ==> s.term_spec(idx) == Err::<u64, StorageError>(StorageError::Unavailable),
{
    s.lemma_indices();
    assert forall|k: int| 0 <= k < s.log().len() implies s.term_spec((#[trigger] s.log()[k]).index) == Ok::<
        u64,
        StorageError,
    >(s.log()[k].term) by {
        assert(s.log()[k].index >= s.log()[0].index);
        assert(s.entry_at(s.log()[k].index as int) == s.log()[k]);
    }
}

/// The snapshot a store gives covers the committed index, with the hard
/// state's term and the stored membership, whatever the terms of the
/// entries, and holds no data; asked at a later index, it covers that one.
pub proof fn lemma_snapshot_contents(s: LevelStorageCore)
    ensures
        s.snapshot_spec().metadata.conf_state == s.raft_state.conf_state@,
        s.snapshot_spec().metadata.index == s.raft_state.hard_state.commit,
        s.snapshot_spec().metadata.term == s.raft_state.hard_state.term,
        s.snapshot_spec().data == Seq::<u8>::empty(),
{
}

/// What a restart recovers from a stored snapshot with metadata `m`: the
/// hard state's term and commit are the snapshot's term and index and no
/// vote is recovered, the membership is the snapshot's, and the snapshot
/// point keeps the index and term with the empty membership; with no
/// snapshot, all is zero and empty.
pub proof fn lemma_recovered_state(meta: Option<SnapshotMetadataView>)
    ensures
        match meta {
            Some(m) => {
                &&& recovered_state(meta).0.hard_state == HardState { term: m.term, vote: 0, commit: m.index }
                &&& recovered_state(meta).0.conf_state == m.conf_state
                &&& recovered_state(meta).1.index == m.index
                &&& recovered_state(meta).1.term == m.term
                &&& recovered_state(meta).1.conf_state == empty_conf_state()
            },
            None => {
                &&& recovered_state(meta).0.hard_state == HardState { term: 0, vote: 0, commit: 0 }
                &&& recovered_state(meta).0.conf_state == empty_conf_state()
                &&& recovered_state(meta).1.index == 0
                &&& recovered_state(meta).1.term == 0
                &&& recovered_state(meta).1.conf_state == empty_conf_state()
            },
        },
{
}

/// Reading back what was appended: after `ents` were appended, the entries
/// in their range are `ents`, the last index is that of their last entry,
/// and the term of each of their indices is that entry's term.
pub proof fn lemma_read_after_append(s: LevelStorageCore, ents: Seq<EntryView>, t: LevelStorageCore)
    requires
        s.wf(),
        s.append_ok(ents),
        ents.len() > 0,
        t.wf(),
        t.log() == s.appended(ents),
        t.snapshot_metadata@ == s.snapshot_metadata@,
    ensures
        t.first_index_spec() == s.first_index_spec(),
        t.last_index_spec() == ents.last().index,
        t.entries_spec(ents[0].index, (ents.last().index + 1) as u64) == Ok::<Seq<EntryView>, StorageError>(ents),
        forall|k: int| 0 <= k < ents.len() ==> t.term_spec(#[trigger] ents[k].index) == Ok::<u64, StorageError>(ents[k].term),
{
    let first = s.first_index_spec();
    let diff = ents[0].index - first;
    s.lemma_indices();
    t.lemma_indices();
    assert(ents.last().index == ents[0].index + ents.len() - 1);
    assert(diff <= s.log().len());
    assert(t.log().len() == diff + ents.len());
    if diff > 0 {
        assert(t.log()[0] == s.log()[0]);
    } else {
        assert(t.log()[0] == ents[0]);
    }
    assert(t.first_index_spec() == first);
    assert(t.log().last() == ents.last());
    assert(t.log().subrange(diff, diff + ents.len()) =~= ents);
    assert forall|k: int| 0 <= k < ents.len() implies t.term_spec(#[trigger] ents[k].index)
        == Ok::<u64, StorageError>(ents[k].term) by {
        assert(ents[k].index == ents[0].index + k);
        assert(t.log()[diff + k] == ents[k]);
        if s.log().len() > 0 {
            assert(s.log()[0].index > s.snapshot_metadata.index);
        }
    }
}

/// Compaction keeps what follows: after compacting to `i`, within the
/// entries held, the first index is `i`, the last index is unchanged, terms
/// and entries from `i` on read as before, and reads before `i` (but the
/// term at the snapshot's index) answer `Compacted`.
pub proof fn lemma_compact(s: LevelStorageCore, i: u64, t: LevelStorageCore)
    requires
        s.wf(),
        s.first_index_spec() < i <= s.last_index_spec(),
        t.wf(),
        t.log() == s.log().skip(i - s.first_index_spec()),
        t.snapshot_metadata@ == s.snapshot_metadata@,
    ensures
        t.first_index_spec() == i,
        t.last_index_spec() == s.last_index_spec(),
        forall|j: u64| i <= j ==> #[trigger] t.term_spec(j) == s.term_spec(j),
        forall|j: u64| j < i && j != s.snapshot_metadata.index ==> #[trigger] t.term_spec(j) == Err::<
            u64,
            StorageError,
        >(StorageError::Compacted),
        forall|low: u64, high: u64|
            i <= low <= high <= s.last_index_spec() + 1 ==> #[trigger] t.entries_spec(low, high) == s.entries_spec(
                low,
                high,
            ),
        forall|low: u64, high: u64| low < i ==> #[trigger] t.entries_spec(low, high) == Err::<
            Seq<EntryView>,
            StorageError,
        >(StorageError::Compacted),
{
    s.lemma_indices();
    t.lemma_indices();
    let off = i - s.first_index_spec();
    assert(t.log()[0] == s.log()[off]);
    assert(t.log().len() == s.log().len() - off);
    assert forall|j: u64| i <= j implies #[trigger] t.term_spec(j) == s.term_spec(j) by {
        if j - i < t.log().len() {
            assert(t.log()[j - i] == s.log()[off + (j - i)]);
        }
        assert(s.log()[0].index > s.snapshot_metadata.index);
    }
    assert forall|low: u64, high: u64| i <= low <= high <= s.last_index_spec() + 1 implies #[trigger] t.entries_spec(
        low,
        high,
    ) == s.entries_spec(low, high) by {
        let f = s.first_index_spec();
        assert(t.log().subrange(low - i, high - i) =~= s.log().subrange(low - f, high - f));
    }
}

/// Applying a snapshot: afterwards the store starts right after it, knows
/// its term, and its own snapshot covers the same point with the same
/// membership.
pub proof fn lemma_apply_snapshot(s: LevelStorageCore, meta: SnapshotMetadataView, t: LevelStorageCore)
    requires
        s.wf(),
        meta.index < u64::MAX,
        s.first_index_spec() <= meta.index,
        t.log() == Seq::<EntryView>::empty(),
        (t.raft_state@, t.snapshot_metadata@) == s.applied_snapshot(meta),
    ensures
        t.wf(),
        t.first_index_spec() == meta.index + 1,
        t.last_index_spec() == meta.index,
        t.term_spec(meta.index) == Ok::<u64, StorageError>(meta.term),
        forall|j: u64| j != meta.index ==> #[trigger] t.term_spec(j) is Err,
        t.snapshot_spec().metadata == meta,
{
}

/// Committing then snapshotting: after committing to an index held, the
/// store's snapshot covers that index, with that entry's term.
pub proof fn lemma_commit_then_snapshot(s: LevelStorageCore, i: u64, t: LevelStorageCore)
    requires
        s.wf(),
        s.has_entry_at_spec(i as int),
        t.raft_state.hard_state == (HardState { commit: i, term: s.entry_at(i as int).term, ..s.raft_state.hard_state }),
        t.raft_state.conf_state@ == s.raft_state.conf_state@,
        t.log() == s.log(),
        t.snapshot_metadata@ == s.snapshot_metadata@,
    ensures
        s.term_spec(i) == Ok::<u64, StorageError>(t.raft_state.hard_state.term),
        t.snapshot_spec().metadata.index == i,
        t.snapshot_spec().metadata.term == s.entry_at(i as int).term,
        t.snapshot_spec().metadata.conf_state == s.raft_state.conf_state@,
{
    s.lemma_indices();
    assert(s.log()[0].index > s.snapshot_metadata.index);
}

} // verus!

verus! {

/// The disk after `writes` were made, in order, on `db`.
pub open spec fn apply_writes(
    db: Map<Seq<char>, Seq<u8>>,
    writes: Seq<DbWriteView>,
) -> Map<Seq<char>, Seq<u8>>
    decreases writes.len(),
{
    if writes.len() == 0 {
        db
    } else {
        apply_writes(db, writes.drop_last()).insert(writes.last().key, writes.last().value)
    }
}

/// The entries the store takes when it is loaded from `db`, reading the
/// keys of the indices `next`, `next + 1`, ... for at most `fuel` keys: it
/// takes the entry stored under each key and stops at the first key that
/// holds none.
pub open spec fn loaded_entries(db: Map<Seq<char>, Seq<u8>>, next: nat, fuel: nat) -> Seq<EntryView>
    decreases fuel,
{
    if fuel == 0 {
        Seq::empty()
    } else {
        match stored_entry(db, next) {
            Some(e) => seq![e] + loaded_entries(db, next + 1, (fuel - 1) as nat),
            None => Seq::empty(),
        }
    }
}

/// The entry stored under the key of index `i`, if there is one.
pub open spec fn stored_entry(db: Map<Seq<char>, Seq<u8>>, i: nat) -> Option<EntryView> {
    if db.contains_key(entry_key(i)) {
        entry_decoding(db[entry_key(i)])
    } else {
        None
    }
}

proof fn lemma_entry_key_injective(a: nat, b: nat)
    requires
        entry_key(a) == entry_key(b),
    ensures
        a == b,
{
    let p = seq!['e', 'n', 't', 'r', 'i', 'e', 's'];
    assert(entry_key(a).skip(7) =~= decimal(a));
    assert(entry_key(b).skip(7) =~= decimal(b));
    lemma_decimal_injective(a, b);
}

/// What the disk holds after the writes of the first `n` of `ents` on
/// `db`: each of them under the key of its index, and every other key as
/// before.
#[verifier::spinoff_prover]
proof fn lemma_entry_writes(db: Map<Seq<char>, Seq<u8>>, ents: Seq<EntryView>, n: int)
    requires
        0 <= n <= ents.len(),
        contiguous(ents),
    ensures
        ({
            let d = apply_writes(db, ents.take(n).map_values(|e: EntryView| entry_write(e)));
            &&& forall|k: int| 0 <= k < n ==> #[trigger] d.contains_key(entry_key(ents[k].index as nat))
                && d[entry_key(ents[k].index as nat)] == entry_encoding(ents[k])
            &&& forall|key: Seq<char>| (forall|k: int| 0 <= k < n ==> key != #[trigger] entry_key(ents[k].index as nat))
                ==> (#[trigger] d.contains_key(key) == db.contains_key(key) && (db.contains_key(key) ==> d[key] == db[key]))
        }),
    decreases n,
{
    let w = ents.take(n).map_values(|e: EntryView| entry_write(e));
    if n > 0 {
        lemma_entry_writes(db, ents, n - 1);
        assert(w.drop_last() =~= ents.take(n - 1).map_values(|e: EntryView| entry_write(e)));
        let prev = apply_writes(db, w.drop_last());
        let d = apply_writes(db, w);
        assert(d == prev.insert(entry_key(ents[n - 1].index as nat), entry_encoding(ents[n - 1])));
        assert forall|k: int| 0 <= k < n implies #[trigger] d.contains_key(entry_key(ents[k].index as nat))
            && d[entry_key(ents[k].index as nat)] == entry_encoding(ents[k]) by {
            if k < n - 1 {
                assert(prev.contains_key(entry_key(ents[k].index as nat)));
                if entry_key(ents[k].index as nat) == entry_key(ents[n - 1].index as nat) {
                    lemma_entry_key_injective(ents[k].index as nat, ents[n - 1].index as nat);
                    assert(ents[k].index == ents[0].index + k);
                    assert(ents[n - 1].index == ents[0].index + n - 1);
                }
            }
        }
        assert forall|key: Seq<char>| (forall|k: int| 0 <= k < n ==> key != #[trigger] entry_key(ents[k].index as nat))
            implies (#[trigger] d.contains_key(key) == db.contains_key(key) && (db.contains_key(key) ==> d[key] == db[key])) by {
            assert(key != entry_key(ents[n - 1].index as nat));
            assert forall|k: int| 0 <= k < n - 1 implies key != #[trigger] entry_key(ents[k].index as nat) by {
                assert(key != entry_key(ents[k].index as nat));
            }
            assert(prev.contains_key(key) == db.contains_key(key) && (db.contains_key(key) ==> prev[key] == db[key]));
            assert(d.contains_key(key) == prev.contains_key(key));
            if d.contains_key(key) {
                assert(d[key] == prev[key]);
            }
        }
    } else {
        assert(w.len() == 0);
        assert(apply_writes(db, w) == db);
    }
}

proof fn lemma_loaded_run(db: Map<Seq<char>, Seq<u8>>, start: nat, log: Seq<EntryView>, k: int)
    requires
        0 <= k <= log.len(),
        disk_holds_log(db, start, log),
    ensures
        loaded_entries(db, (start + k) as nat, (log.len() - k + 1) as nat) == log.skip(k),
    decreases log.len() - k,
{
    let fuel = (log.len() - k + 1) as nat;
    if k == log.len() {
        assert(log.skip(k) =~= Seq::<EntryView>::empty());
        assert(!db.contains_key(entry_key((start + k) as nat)));
        assert(loaded_entries(db, (start + k) as nat, fuel) == Seq::<EntryView>::empty());
    } else {
        lemma_loaded_run(db, start, log, k + 1);
        assert(stored_entry(db, (start + k) as nat) == Some(log[k]));
        assert(loaded_entries(db, (start + k) as nat, fuel) == seq![log[k]] + loaded_entries(
            db,
            (start + k + 1) as nat,
            (fuel - 1) as nat,
        ));
        assert(log.skip(k) =~= seq![log[k]] + log.skip(k + 1));
    }
}

/// The disk holds `log` from index `start` on: the entry at each position
/// is stored under the key of `start` plus that position, and no key of an
/// index after them is stored.
pub open spec fn disk_holds_log(db: Map<Seq<char>, Seq<u8>>, start: nat, log: Seq<EntryView>) -> bool {
    &&& forall|k: int| 0 <= k < log.len() ==> #[trigger] stored_entry(db, (start + k) as nat) == Some(log[k])
    &&& forall|i: nat| i >= start + log.len() ==> !#[trigger] db.contains_key(entry_key(i))
}

/// The disk holds the store's log: the log starts right after the
/// snapshot, and the disk holds it from there on.
pub open spec fn disk_holds(db: Map<Seq<char>, Seq<u8>>, s: LevelStorageCore) -> bool {
    &&& s.log().len() > 0 ==> s.log()[0].index == s.snapshot_metadata.index + 1
    &&& disk_holds_log(db, (s.snapshot_metadata.index + 1) as nat, s.log())
}

/// What a disk that held `old` holds after the entries of `new` were
/// written over it: `new`, then the entries of `old` past its end.
pub open spec fn overlay(old: Seq<EntryView>, new: Seq<EntryView>) -> Seq<EntryView> {
    if new.len() >= old.len() {
        new
    } else {
        new + old.skip(new.len() as int)
    }
}

/// A disk that holds a log loads back as that log: the loader, starting at
/// its first index, reads exactly its entries.
pub proof fn lemma_disk_loads(db: Map<Seq<char>, Seq<u8>>, start: nat, log: Seq<EntryView>)
    requires
        disk_holds_log(db, start, log),
    ensures
        loaded_entries(db, start, (log.len() + 1) as nat) == log,
{
    lemma_loaded_run(db, start, log, 0);
    assert(log.skip(0) =~= log);
}

/// One step of loading: with the first `n` keys read into `log`, reading
/// the next key adds the entry stored there, or stops when there is none.
pub proof fn lemma_loader_step(db: Map<Seq<char>, Seq<u8>>, start: nat, n: nat)
    requires
        loaded_entries(db, start, n).len() == n,
    ensures
        loaded_entries(db, start, n + 1) == match stored_entry(db, start + n) {
            Some(e) => loaded_entries(db, start, n).push(e),
            None => loaded_entries(db, start, n),
        },
    decreases n,
{
    if n == 0 {
        match stored_entry(db, start) {
            Some(e) => {
                assert(loaded_entries(db, start + 1, 0) == Seq::<EntryView>::empty());
                assert(seq![e] + Seq::<EntryView>::empty() =~= Seq::<EntryView>::empty().push(e));
            },
            None => {},
        }
    } else {
        assert(stored_entry(db, start) is Some);
        let first = stored_entry(db, start).unwrap();
        let m = (n - 1) as nat;
        let rest = loaded_entries(db, start + 1, m);
        assert(loaded_entries(db, start, n) == seq![first] + rest);
        assert(rest.len() == m);
        lemma_loader_step(db, start + 1, m);
        assert(start + 1 + m == start + n);
        assert(loaded_entries(db, start, n + 1) == seq![first] + loaded_entries(db, start + 1, m + 1));
        match stored_entry(db, start + n) {
            Some(e) => {
                assert(seq![first] + rest.push(e) =~= (seq![first] + rest).push(e));
            },
            None => {},
        }
    }
}

/// After the writes of the consecutive `ents`, the key of each of their
/// indices holds its entry, and every other entry key holds what it held.
proof fn lemma_stored_after_writes(db: Map<Seq<char>, Seq<u8>>, ents: Seq<EntryView>, i: nat)
    requires
        contiguous(ents),
        decodes_back(ents),
        ents.len() > 0,
    ensures
        ({
            let d = apply_writes(db, ents.map_values(|e: EntryView| entry_write(e)));
            let f = ents[0].index;
            &&& f <= i < f + ents.len() ==> stored_entry(d, i) == Some(ents[i - f])
            &&& !(f <= i < f + ents.len()) ==> d.contains_key(entry_key(i)) == db.contains_key(entry_key(i))
                && stored_entry(d, i) == stored_entry(db, i)
        }),
{
    let d = apply_writes(db, ents.map_values(|e: EntryView| entry_write(e)));
    assert(ents.take(ents.len() as int) =~= ents);
    lemma_entry_writes(db, ents, ents.len() as int);
    let f = ents[0].index;
    if f <= i < f + ents.len() {
        let k = i - f;
        assert(ents[k].index == i);
        assert(d.contains_key(entry_key(ents[k].index as nat)));
    } else {
        assert forall|k: int| 0 <= k < ents.len() implies entry_key(i) != #[trigger] entry_key(ents[k].index as nat) by {
            assert(ents[k].index == f + k);
            if entry_key(i) == entry_key(ents[k].index as nat) {
                lemma_entry_key_injective(i, ents[k].index as nat);
            }
        }
        assert(d.contains_key(entry_key(i)) == db.contains_key(entry_key(i)));
    }
}

/// Appending keeps the disk in step with the log, past a tail that was cut:
/// when the disk holds the store's log and entries are appended, the disk
/// after their writes holds the new log followed by the old entries past
/// its end, which a restart loads back; after an append at the end, that
/// is the new log.
pub proof fn lemma_append_keeps_disk(
    db: Map<Seq<char>, Seq<u8>>,
    s: LevelStorageCore,
    ents: Seq<EntryView>,
    t: LevelStorageCore,
)
    requires
        s.wf(),
        disk_holds(db, s),
        s.append_ok(ents),
        decodes_back(ents),
        t.log() == s.appended(ents),
    ensures
        disk_holds_log(
            apply_writes(db, ents.map_values(|e: EntryView| entry_write(e))),
            (s.snapshot_metadata.index + 1) as nat,
            overlay(s.log(), t.log()),
        ),
        loaded_entries(
            apply_writes(db, ents.map_values(|e: EntryView| entry_write(e))),
            (s.snapshot_metadata.index + 1) as nat,
            (overlay(s.log(), t.log()).len() + 1) as nat,
        ) == overlay(s.log(), t.log()),
        t.log().len() >= s.log().len() ==> overlay(s.log(), t.log()) == t.log(),
{
    let d = apply_writes(db, ents.map_values(|e: EntryView| entry_write(e)));
    let start = (s.snapshot_metadata.index + 1) as nat;
    s.lemma_indices();
    let o = overlay(s.log(), t.log());
    if ents.len() == 0 {
        assert(ents.map_values(|e: EntryView| entry_write(e)) =~= Seq::<DbWriteView>::empty());
        assert(o == s.log());
    } else {
        let n = s.log().len();
        let m = ents.len();
        assert(s.first_index_spec() == start);
        let p = ents[0].index - start;
        assert(t.log() =~= s.log().take(p) + ents);
        assert forall|k: int| 0 <= k < o.len() implies #[trigger] stored_entry(d, (start + k) as nat) == Some(o[k]) by {
            lemma_stored_after_writes(db, ents, (start + k) as nat);
            if p <= k < p + m {
                assert(o[k] == ents[k - p]);
            } else {
                assert(o[k] == s.log()[k]);
                assert(stored_entry(db, (start + k) as nat) == Some(s.log()[k]));
            }
        }
        assert forall|i: nat| i >= start + o.len() implies !#[trigger] d.contains_key(entry_key(i)) by {
            lemma_stored_after_writes(db, ents, i);
            assert(!db.contains_key(entry_key(i)));
        }
    }
    lemma_disk_loads(d, start, o);
}

/// No entry is stored under the snapshot's key.
proof fn lemma_snapshot_key_is_no_entry_key(i: nat)
    ensures
        snapshot_key() != entry_key(i),
{
    assert(snapshot_key()[0] != entry_key(i)[0]);
}

/// What a restarted node finds of what it wrote: when entries were appended
/// to a fresh store, the disk after their writes holds no snapshot, and
/// loading it gives back exactly those entries.
pub proof fn lemma_load_after_append(s: LevelStorageCore, ents: Seq<EntryView>, t: LevelStorageCore)
    requires
        s.wf(),
        s.log() == Seq::<EntryView>::empty(),
        s.snapshot_metadata.index == 0,
        s.append_ok(ents),
        decodes_back(ents),
        t.log() == s.appended(ents),
    ensures
        ({
            let db = apply_writes(Map::empty(), ents.map_values(|e: EntryView| entry_write(e)));
            &&& !db.contains_key(snapshot_key())
            &&& loaded_entries(db, 1, (ents.len() + 1) as nat) == ents
        }),
{
    let empty = Map::<Seq<char>, Seq<u8>>::empty();
    let db = apply_writes(empty, ents.map_values(|e: EntryView| entry_write(e)));
    assert(disk_holds(empty, s));
    lemma_append_keeps_disk(empty, s, ents, t);
    if ents.len() > 0 {
        assert(ents.take(ents.len() as int) =~= ents);
        lemma_entry_writes(empty, ents, ents.len() as int);
        assert forall|k: int| 0 <= k < ents.len() implies snapshot_key() != #[trigger] entry_key(ents[k].index as nat) by {
            lemma_snapshot_key_is_no_entry_key(ents[k].index as nat);
        }
        assert(!db.contains_key(snapshot_key()));
        assert(t.log() =~= ents);
    } else {
        assert(ents.map_values(|e: EntryView| entry_write(e)) =~= Seq::<DbWriteView>::empty());
        assert(t.log() == ents);
    }
    lemma_disk_loads(db, 1, ents);
}

/// The entries of `log`, which starts at `first`, past the index `index`.
pub open spec fn entries_after(log: Seq<EntryView>, first: int, index: int) -> Seq<EntryView> {
    let k = index + 1 - first;
    if k <= 0 {
        log
    } else if k <= log.len() {
        log.skip(k)
    } else {
        Seq::empty()
    }
}

/// Applying a snapshot leaves the entries past it on the disk: when the
/// disk held the store's log, after the snapshot's write it holds, from the
/// index after the snapshot's, the old entries past that index, and a
/// restart loads them back after the snapshot.
pub proof fn lemma_snapshot_keeps_tail(db: Map<Seq<char>, Seq<u8>>, s: LevelStorageCore, snap: SnapshotView)
    requires
        s.wf(),
        disk_holds(db, s),
        s.first_index_spec() <= snap.metadata.index,
    ensures
        ({
            let d = apply_writes(db, seq![snapshot_write(snap)]);
            let start = (snap.metadata.index + 1) as nat;
            let tail = entries_after(s.log(), s.first_index_spec(), snap.metadata.index as int);
            &&& disk_holds_log(d, start, tail)
            &&& loaded_entries(d, start, (tail.len() + 1) as nat) == tail
        }),
{
    let d = apply_writes(db, seq![snapshot_write(snap)]);
    let w = seq![snapshot_write(snap)];
    assert(w.drop_last() =~= Seq::<DbWriteView>::empty());
    assert(apply_writes(db, w.drop_last()) == db);
    assert(w.last() == snapshot_write(snap));
    assert(d =~= db.insert(snapshot_key(), snapshot_encoding(snap)));
    s.lemma_indices();
    let first = s.first_index_spec();
    let base = (s.snapshot_metadata.index + 1) as nat;
    assert(first == base);
    if first <= snap.metadata.index {
        let start = (snap.metadata.index + 1) as nat;
        let log = s.log();
        let k0 = snap.metadata.index + 1 - first;
        let tail = entries_after(log, first, snap.metadata.index as int);
        assert forall|i: nat| #[trigger] stored_entry(d, i) == stored_entry(db, i) by {
            lemma_snapshot_key_is_no_entry_key(i);
        }
        assert forall|k: int| 0 <= k < tail.len() implies #[trigger] stored_entry(d, (start + k) as nat) == Some(tail[k]) by {
            assert(tail[k] == log[k0 + k]);
            assert((start + k) as nat == (base + (k0 + k)) as nat);
            assert(stored_entry(db, (base + (k0 + k)) as nat) == Some(log[k0 + k]));
        }
        assert forall|i: nat| i >= start + tail.len() implies !#[trigger] d.contains_key(entry_key(i)) by {
            lemma_snapshot_key_is_no_entry_key(i);
            assert(i >= base + log.len());
            assert(!db.contains_key(entry_key(i)));
        }
        lemma_disk_loads(d, start, tail);
    }
}

/// What a restarted node finds of an applied snapshot: the snapshot write
/// leaves the snapshot on the disk, and the store loaded from it has the
/// term, commit, membership and snapshot point that applying it gave.
pub proof fn lemma_load_after_snapshot(
    s: LevelStorageCore,
    snap: SnapshotView,
    t: LevelStorageCore,
    db: Map<Seq<char>, Seq<u8>>,
)
    requires
        s.wf(),
        snap.metadata.index < u64::MAX,
        s.first_index_spec() <= snap.metadata.index,
        t.log() == Seq::<EntryView>::empty(),
        (t.raft_state@, t.snapshot_metadata@) == s.applied_snapshot(snap.metadata),
        snapshot_metadata_decoding(snapshot_encoding(snap)) == Some(snap.metadata),
    ensures
        ({
            let disk = apply_writes(db, seq![snapshot_write(snap)]);
            let (rs, meta) = recovered_state(snapshot_metadata_decoding(disk[snapshot_key()]));
            &&& disk.contains_key(snapshot_key())
            &&& disk[snapshot_key()] == snapshot_encoding(snap)
            &&& rs.hard_state == HardState {
                term: t.raft_state.hard_state.term,
                vote: 0,
                commit: t.raft_state.hard_state.commit,
            }
            &&& rs.conf_state == t.raft_state@.conf_state
            &&& meta.index == t.snapshot_metadata.index
            &&& meta.term == t.snapshot_metadata.term
        }),
{
    let w = seq![snapshot_write(snap)];
    assert(w.drop_last() =~= Seq::<DbWriteView>::empty());
}

} // verus!
