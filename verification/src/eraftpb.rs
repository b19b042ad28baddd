//! The values a raft log is made of: entries, hard state, configuration and
//! snapshots, held as plain values. The node converts them to and from the
//! raft crate's messages where it talks to raft or to the disk.
use vstd::prelude::*;

verus! {

/// What an entry of the log carries.
#[derive(Clone, Copy, PartialEq, Eq, Debug, Structural)]
pub enum EntryType {
    EntryNormal,
    EntryConfChange,
    EntryConfChangeV2,
}

/// The kinds of membership change.
#[derive(Clone, Copy, PartialEq, Eq, Debug, Structural)]
pub enum ConfChangeType {
    AddNode,
    RemoveNode,
    AddLearnerNode,
}

/// The errors a log store reports to raft.
#[derive(Clone, Copy, PartialEq, Eq, Debug, Structural)]
pub enum StorageError {
    Compacted,
    Unavailable,
    SnapshotOutOfDate,
    SnapshotTemporarilyUnavailable,
}

/// An entry of the raft log.
#[derive(Clone, Debug)]
pub struct Entry {
    pub entry_type: EntryType,
    pub term: u64,
    pub index: u64,
    pub data: Vec<u8>,
    pub context: Vec<u8>,
    pub sync_log: bool,
}

/// An entry as a mathematical value.
pub struct EntryView {
    pub entry_type: EntryType,
    pub term: u64,
    pub index: u64,
    pub data: Seq<u8>,
    pub context: Seq<u8>,
    pub sync_log: bool,
}

impl View for Entry {
    type V = EntryView;

    open spec fn view(&self) -> EntryView {
        EntryView {
            entry_type: self.entry_type,
            term: self.term,
            index: self.index,
            data: self.data@,
            context: self.context@,
            sync_log: self.sync_log,
        }
    }
}

/// The entries of a vector, as values.
pub open spec fn entries_view(v: Seq<Entry>) -> Seq<EntryView> {
    v.map_values(|e: Entry| e@)
}

impl Entry {
    /// A copy of the entry.
    pub fn duplicate(&self) -> (e: Entry)
        ensures
            e@ == self@,
    {
        let data = self.data.clone();
        let context = self.context.clone();
        proof {
            assert(data@ =~= self.data@);
            assert(context@ =~= self.context@);
        }
        Entry {
            entry_type: self.entry_type,
            term: self.term,
            index: self.index,
            data,
            context,
            sync_log: self.sync_log,
        }
    }
}

/// Copies of the entries of `ents`, in order.
pub fn duplicate_entries(ents: &[Entry]) -> (v: Vec<Entry>)
    ensures
        entries_view(v@) == entries_view(ents@),
{
    let mut v: Vec<Entry> = Vec::new();
    let mut i: usize = 0;
    while i < ents.len()
        invariant
            i <= ents@.len(),
            v@.len() == i,
            entries_view(v@) == entries_view(ents@.take(i as int)),
        decreases ents@.len() - i,
    {
        let e = ents[i].duplicate();
        let ghost old_v = v@;
        v.push(e);
        proof {
            let t = ents@.take(i as int + 1);
            assert forall|j: int| 0 <= j < v@.len() implies #[trigger] entries_view(v@)[j] == entries_view(t)[j] by {
                if j < i {
                    assert(entries_view(old_v)[j] == entries_view(ents@.take(i as int))[j]);
                }
            }
            assert(entries_view(v@) =~= entries_view(t));
        }
        i = i + 1;
    }
    proof {
        assert(ents@.take(ents@.len() as int) =~= ents@);
    }
    v
}

/// The state raft must keep on disk: the current term, the vote cast in it
/// and the highest index known to be committed.
#[derive(Clone, Copy, PartialEq, Eq, Debug, Structural)]
pub struct HardState {
    pub term: u64,
    pub vote: u64,
    pub commit: u64,
}

impl HardState {
    /// Term, vote and commit all 0.
    pub fn default() -> (hs: HardState)
        ensures
            hs == (HardState { term: 0, vote: 0, commit: 0 }),
    {
        HardState { term: 0, vote: 0, commit: 0 }
    }
}

/// The membership of the cluster.
#[derive(Clone, Debug)]
pub struct ConfState {
    pub voters: Vec<u64>,
    pub learners: Vec<u64>,
    pub voters_outgoing: Vec<u64>,
    pub learners_next: Vec<u64>,
    pub auto_leave: bool,
}

/// A membership as a mathematical value.
pub struct ConfStateView {
    pub voters: Seq<u64>,
    pub learners: Seq<u64>,
    pub voters_outgoing: Seq<u64>,
    pub learners_next: Seq<u64>,
    pub auto_leave: bool,
}

impl View for ConfState {
    type V = ConfStateView;

    open spec fn view(&self) -> ConfStateView {
        ConfStateView {
            voters: self.voters@,
            learners: self.learners@,
            voters_outgoing: self.voters_outgoing@,
            learners_next: self.learners_next@,
            auto_leave: self.auto_leave,
        }
    }
}

/// The empty membership.
pub open spec fn empty_conf_state() -> ConfStateView {
    ConfStateView {
        voters: Seq::empty(),
        learners: Seq::empty(),
        voters_outgoing: Seq::empty(),
        learners_next: Seq::empty(),
        auto_leave: false,
    }
}

/// The membership made of the given voters and learners.
pub open spec fn conf_state_of(voters: Seq<u64>, learners: Seq<u64>) -> ConfStateView {
    ConfStateView { voters, learners, ..empty_conf_state() }
}

fn duplicate_ids(v: &Vec<u64>) -> (c: Vec<u64>)
    ensures
        c@ == v@,
{
    let c = v.clone();
    proof {
        assert(c@ =~= v@);
    }
    c
}

impl ConfState {
    /// The empty membership.
    pub fn default() -> (cs: ConfState)
        ensures
            cs@ == empty_conf_state(),
    {
        ConfState {
            voters: Vec::new(),
            learners: Vec::new(),
            voters_outgoing: Vec::new(),
            learners_next: Vec::new(),
            auto_leave: false,
        }
    }

    /// The membership made of the given voters and learners.
    pub fn from_nodes(voters: Vec<u64>, learners: Vec<u64>) -> (cs: ConfState)
        ensures
            cs@ == conf_state_of(voters@, learners@),
    {
        ConfState {
            voters,
            learners,
            voters_outgoing: Vec::new(),
            learners_next: Vec::new(),
            auto_leave: false,
        }
    }

    /// Whether this is the empty membership.
    pub fn is_default(&self) -> (b: bool)
        ensures
            b == (self@ == empty_conf_state()),
    {
        let b = self.voters.len() == 0 && self.learners.len() == 0
            && self.voters_outgoing.len() == 0 && self.learners_next.len() == 0
            && !self.auto_leave;
        proof {
            if b {
                assert(self.voters@ =~= Seq::<u64>::empty());
                assert(self.learners@ =~= Seq::<u64>::empty());
                assert(self.voters_outgoing@ =~= Seq::<u64>::empty());
                assert(self.learners_next@ =~= Seq::<u64>::empty());
            }
        }
        b
    }

    /// A copy of the membership.
    pub fn duplicate(&self) -> (cs: ConfState)
        ensures
            cs@ == self@,
    {
        ConfState {
            voters: duplicate_ids(&self.voters),
            learners: duplicate_ids(&self.learners),
            voters_outgoing: duplicate_ids(&self.voters_outgoing),
            learners_next: duplicate_ids(&self.learners_next),
            auto_leave: self.auto_leave,
        }
    }
}

/// What a snapshot covers: the log up to `index`, whose last entry has
/// term `term`, and the membership at that point.
#[derive(Clone, Debug)]
pub struct SnapshotMetadata {
    pub conf_state: ConfState,
    pub index: u64,
    pub term: u64,
}

pub struct SnapshotMetadataView {
    pub conf_state: ConfStateView,
    pub index: u64,
    pub term: u64,
}

impl View for SnapshotMetadata {
    type V = SnapshotMetadataView;

    open spec fn view(&self) -> SnapshotMetadataView {
        SnapshotMetadataView { conf_state: self.conf_state@, index: self.index, term: self.term }
    }
}

impl SnapshotMetadata {
    /// Index and term 0, empty membership.
    pub fn default() -> (m: SnapshotMetadata)
        ensures
            m@ == (SnapshotMetadataView { conf_state: empty_conf_state(), index: 0, term: 0 }),
    {
        SnapshotMetadata { conf_state: ConfState::default(), index: 0, term: 0 }
    }

    pub fn duplicate(&self) -> (m: SnapshotMetadata)
        ensures
            m@ == self@,
    {
        SnapshotMetadata { conf_state: self.conf_state.duplicate(), index: self.index, term: self.term }
    }
}

/// A snapshot of the state machine, with what it covers.
#[derive(Clone, Debug)]
pub struct Snapshot {
    pub data: Vec<u8>,
    pub metadata: SnapshotMetadata,
}

pub struct SnapshotView {
    pub data: Seq<u8>,
    pub metadata: SnapshotMetadataView,
}

impl View for Snapshot {
    type V = SnapshotView;

    open spec fn view(&self) -> SnapshotView {
        SnapshotView { data: self.data@, metadata: self.metadata@ }
    }
}

impl Snapshot {
    /// The empty snapshot.
    pub fn default() -> (s: Snapshot)
        ensures
            s@.data == Seq::<u8>::empty(),
            s@.metadata == (SnapshotMetadataView { conf_state: empty_conf_state(), index: 0, term: 0 }),
    {
        Snapshot { data: Vec::new(), metadata: SnapshotMetadata::default() }
    }

    pub fn duplicate(&self) -> (s: Snapshot)
        ensures
            s@ == self@,
    {
        let data = self.data.clone();
        proof {
            assert(data@ =~= self.data@);
        }
        Snapshot { data, metadata: self.metadata.duplicate() }
    }
}

/// What raft finds in its store when it starts.
#[derive(Clone, Debug)]
pub struct RaftState {
    pub hard_state: HardState,
    pub conf_state: ConfState,
}

pub struct RaftStateView {
    pub hard_state: HardState,
    pub conf_state: ConfStateView,
}

impl View for RaftState {
    type V = RaftStateView;

    open spec fn view(&self) -> RaftStateView {
        RaftStateView { hard_state: self.hard_state, conf_state: self.conf_state@ }
    }
}

impl RaftState {
    /// Nothing stored: zero hard state, empty membership.
    pub fn default() -> (rs: RaftState)
        ensures
            rs@ == (RaftStateView {
                hard_state: HardState { term: 0, vote: 0, commit: 0 },
                conf_state: empty_conf_state(),
            }),
    {
        RaftState { hard_state: HardState::default(), conf_state: ConfState::default() }
    }

    /// Whether a membership was ever stored.
    pub fn initialized(&self) -> (b: bool)
        ensures
            b == (self.conf_state@ != empty_conf_state()),
    {
        !self.conf_state.is_default()
    }

    pub fn duplicate(&self) -> (rs: RaftState)
        ensures
            rs@ == self@,
    {
        RaftState { hard_state: self.hard_state, conf_state: self.conf_state.duplicate() }
    }
}

/// A membership change.
#[derive(Clone, Debug)]
pub struct ConfChange {
    pub id: u64,
    pub change_type: ConfChangeType,
    pub node_id: u64,
    pub context: Vec<u8>,
}

pub struct ConfChangeView {
    pub id: u64,
    pub change_type: ConfChangeType,
    pub node_id: u64,
    pub context: Seq<u8>,
}

impl View for ConfChange {
    type V = ConfChangeView;

    open spec fn view(&self) -> ConfChangeView {
        ConfChangeView {
            id: self.id,
            change_type: self.change_type,
            node_id: self.node_id,
            context: self.context@,
        }
    }
}

} // verus!
