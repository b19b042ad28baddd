use std::collections::HashMap;

use protobuf::Message as _;
use raftfwk::eraftpb::{ConfState, Entry, EntryType, HardState, Snapshot, SnapshotMetadata, StorageError};
use raftfwk::level_storage::{limit_step, DbWrite, LevelStorageCore};

fn ent(index: u64, term: u64, data: &[u8]) -> Entry {
    Entry {
        entry_type: EntryType::EntryNormal,
        term,
        index,
        data: data.to_vec(),
        context: vec![],
        sync_log: false,
    }
}

fn indices(v: &[Entry]) -> Vec<u64> {
    v.iter().map(|e| e.index).collect()
}

fn fresh_with(ents: &[Entry]) -> LevelStorageCore {
    let mut core = LevelStorageCore::recover(None);
    let (_, r) = core.append(ents);
    assert!(r.is_ok());
    core
}

fn snapshot(index: u64, term: u64, voters: Vec<u64>) -> Snapshot {
    Snapshot {
        data: b"state".to_vec(),
        metadata: SnapshotMetadata { conf_state: ConfState::from_nodes(voters, vec![]), index, term },
    }
}

#[test]
fn fresh_store_is_empty() {
    let core = LevelStorageCore::recover(None);
    assert_eq!(core.first_index(), 1);
    assert_eq!(core.last_index(), 0);
    assert!(!core.has_entry_at(0));
    assert_eq!(core.term(0), Ok(0));
    assert!(!core.initial_state().initialized());
    assert_eq!(*core.hard_state(), HardState { term: 0, vote: 0, commit: 0 });
}

#[test]
fn append_then_read_back() {
    let ents = vec![ent(1, 1, b"a"), ent(2, 1, b"b"), ent(3, 2, b"c")];
    let mut core = LevelStorageCore::recover(None);
    let (writes, r) = core.append(&ents);
    assert!(r.is_ok());
    let keys: Vec<String> = writes.iter().map(|w| w.key.clone()).collect();
    assert_eq!(keys, vec!["entries1", "entries2", "entries3"]);
    assert_eq!(core.first_index(), 1);
    assert_eq!(core.last_index(), 3);
    let got = core.entries(1, 4, None).unwrap();
    assert_eq!(indices(&got), vec![1, 2, 3]);
    assert_eq!(got[2].data, b"c".to_vec());
    assert_eq!(core.term(2), Ok(1));
    assert_eq!(core.term(3), Ok(2));
    assert_eq!(core.term(4), Err(StorageError::Unavailable));
    assert_eq!(core.entries(2, 3, None).unwrap()[0].index, 2);
}

#[test]
fn append_nothing_writes_nothing() {
    let mut core = fresh_with(&[ent(1, 1, b"a")]);
    let (writes, r) = core.append(&[]);
    assert!(r.is_ok());
    assert!(writes.is_empty());
    assert_eq!(core.last_index(), 1);
}

#[test]
fn append_overwrites_the_tail() {
    let mut core = fresh_with(&[ent(1, 1, b"a"), ent(2, 1, b"b"), ent(3, 1, b"c")]);
    let (writes, r) = core.append(&[ent(2, 2, b"x")]);
    assert!(r.is_ok());
    assert_eq!(writes.len(), 1);
    assert_eq!(writes[0].key, "entries2");
    assert_eq!(core.last_index(), 2);
    assert_eq!(core.term(2), Ok(2));
    assert_eq!(core.term(1), Ok(1));
}

#[test]
fn commit_to_takes_the_entry_term() {
    let mut core = fresh_with(&[ent(1, 1, b"a"), ent(2, 3, b"b")]);
    assert!(core.commit_to(2).is_ok());
    assert_eq!(core.raft_state.hard_state.commit, 2);
    assert_eq!(core.raft_state.hard_state.term, 3);
    let s = core.snapshot();
    assert_eq!(s.metadata.index, 2);
    assert_eq!(s.metadata.term, 3);
    assert!(s.data.is_empty());
}

#[test]
fn commit_to_and_set_conf_states_sets_membership() {
    let mut core = fresh_with(&[ent(1, 1, b"a")]);
    assert!(core.commit_to_and_set_conf_states(1, Some(ConfState::from_nodes(vec![1, 2], vec![3]))).is_ok());
    assert_eq!(core.raft_state.conf_state.voters, vec![1, 2]);
    assert_eq!(core.raft_state.conf_state.learners, vec![3]);
    assert_eq!(core.raft_state.hard_state.commit, 1);
}

#[test]
fn compact_drops_the_prefix() {
    let mut core = fresh_with(&[ent(1, 1, b"a"), ent(2, 1, b"b"), ent(3, 2, b"c")]);
    assert!(core.compact(1).is_ok());
    assert_eq!(core.first_index(), 1);
    assert!(core.compact(3).is_ok());
    assert_eq!(core.first_index(), 3);
    assert_eq!(core.last_index(), 3);
    assert_eq!(core.term(2), Err(StorageError::Compacted));
    assert_eq!(core.term(3), Ok(2));
    assert_eq!(core.entries(2, 4, None).err(), Some(StorageError::Compacted));
    assert_eq!(indices(&core.entries(3, 4, None).unwrap()), vec![3]);
}

#[test]
fn apply_snapshot_replaces_the_log() {
    let mut core = fresh_with(&[ent(1, 1, b"a"), ent(2, 1, b"b")]);
    let (writes, r) = core.apply_snapshot(snapshot(5, 3, vec![1, 2]));
    assert!(r.is_ok());
    assert_eq!(writes.len(), 1);
    assert_eq!(writes[0].key, "snapshot");
    assert_eq!(core.first_index(), 6);
    assert_eq!(core.last_index(), 5);
    assert_eq!(core.term(5), Ok(3));
    assert_eq!(core.term(4), Err(StorageError::Compacted));
    assert_eq!(core.raft_state.hard_state.commit, 5);
    assert_eq!(core.raft_state.hard_state.term, 3);
    assert_eq!(core.raft_state.conf_state.voters, vec![1, 2]);
    let s = core.snapshot_at(2).unwrap();
    assert_eq!(s.metadata.index, 5);
    let s = core.snapshot_at(9).unwrap();
    assert_eq!(s.metadata.index, 9);
    assert_eq!(s.metadata.term, 3);
}

#[test]
fn apply_snapshot_at_the_first_index() {
    let mut core = fresh_with(&[ent(1, 1, b"a"), ent(2, 1, b"b")]);
    let (writes, r) = core.apply_snapshot(snapshot(1, 1, vec![1]));
    assert!(r.is_ok());
    assert_eq!(writes.len(), 1);
    assert_eq!(writes[0].key, "snapshot");
    assert!(core.entries.is_empty());
    assert_eq!(core.first_index(), 2);
    assert_eq!(core.raft_state.hard_state.commit, 1);
}

#[test]
fn initialize_with_conf_state_on_empty_store() {
    let mut core = LevelStorageCore::recover(None);
    core.initialize_with_conf_state(ConfState::from_nodes(vec![4], vec![]));
    assert!(core.initial_state().initialized());
    assert_eq!(core.initial_state().conf_state.voters, vec![4]);
    core.set_conf_state(ConfState::default());
    assert!(!core.initial_state().initialized());
}

#[test]
fn hard_state_updates() {
    let mut core = LevelStorageCore::recover(None);
    core.set_hardstate(HardState { term: 4, vote: 2, commit: 0 });
    assert_eq!(core.hard_state().vote, 2);
    core.mut_hard_state().vote = 3;
    assert_eq!(core.hard_state().term, 4);
    assert_eq!(core.hard_state().vote, 3);
}

fn wire_size(e: &Entry) -> u64 {
    let mut m = raft::eraftpb::Entry::default();
    m.term = e.term;
    m.index = e.index;
    m.data = e.data.clone().into();
    m.compute_size() as u64
}

#[test]
fn entries_are_cut_to_the_size_limit() {
    let ents = vec![ent(1, 1, &[7u8; 10]), ent(2, 1, &[7u8; 10]), ent(3, 1, &[7u8; 10])];
    let s = wire_size(&ents[0]);
    assert_eq!(s, wire_size(&ents[1]));
    assert!(s > 10);
    let core = fresh_with(&ents);
    assert_eq!(core.entries(1, 4, None).unwrap().len(), 3);
    assert_eq!(core.entries(1, 4, Some(u64::MAX)).unwrap().len(), 3);
    assert_eq!(core.entries(1, 4, Some(0)).unwrap().len(), 1);
    assert_eq!(core.entries(1, 4, Some(2 * s - 1)).unwrap().len(), 1);
    assert_eq!(core.entries(1, 4, Some(2 * s)).unwrap().len(), 2);
    assert_eq!(core.entries(1, 4, Some(3 * s)).unwrap().len(), 3);
    assert_eq!(core.entries(3, 4, Some(0)).unwrap().len(), 1);
}

fn apply(db: &mut HashMap<String, Vec<u8>>, writes: Vec<DbWrite>) {
    for w in writes {
        db.insert(w.key, w.value);
    }
}

fn load(db: &HashMap<String, Vec<u8>>) -> LevelStorageCore {
    let mut core = LevelStorageCore::recover_from_disk(db.get("snapshot").map(|b| b.as_slice())).unwrap();
    loop {
        let key = core.next_entry_key();
        match db.get(&key) {
            Some(b) => assert!(core.recover_entry_bytes(b)),
            None => break,
        }
    }
    core
}

#[test]
fn load_gives_back_what_was_appended() {
    let mut db = HashMap::new();
    let mut core = LevelStorageCore::recover(None);
    let (w, _) = core.append(&[ent(1, 1, b"a"), ent(2, 1, b"b")]);
    apply(&mut db, w);
    let (w, _) = core.append(&[ent(3, 2, b"c")]);
    apply(&mut db, w);
    let back = load(&db);
    assert_eq!(indices(&back.entries), vec![1, 2, 3]);
    assert_eq!(back.entries[2].data, b"c".to_vec());
    assert_eq!(back.term(3), Ok(2));
}

#[test]
fn load_starts_after_the_snapshot() {
    let mut db = HashMap::new();
    let mut core = fresh_with(&[]);
    let (w, _) = core.append(&[ent(1, 1, b"a"), ent(2, 1, b"b"), ent(3, 1, b"c")]);
    apply(&mut db, w);
    let (w, r) = core.apply_snapshot(snapshot(2, 1, vec![1]));
    assert!(r.is_ok());
    apply(&mut db, w);
    let back = load(&db);
    assert_eq!(back.raft_state.hard_state.commit, 2);
    assert_eq!(back.raft_state.hard_state.term, 1);
    assert_eq!(back.raft_state.conf_state.voters, vec![1]);
    assert!(back.snapshot_metadata.conf_state.voters.is_empty());
    assert_eq!(indices(&back.entries), vec![3]);
    assert_eq!(back.first_index(), 3);
}

#[test]
fn recover_entry_takes_what_is_stored() {
    let mut core = LevelStorageCore::recover(None);
    assert_eq!(core.next_entry_key(), "entries1");
    core.recover_entry(ent(7, 1, b"x"));
    assert_eq!(indices(&core.entries), vec![7]);
    assert_eq!(core.next_entry_key(), "entries2");
    assert!(core.is_well_formed());
    core.recover_entry(ent(9, 1, b"y"));
    assert_eq!(indices(&core.entries), vec![7, 9]);
    assert!(!core.is_well_formed());
    let mut core = LevelStorageCore::recover(None);
    core.recover_entry(ent(1, 1, b"x"));
    assert!(core.is_well_formed());
}

#[test]
fn load_after_overwriting_the_tail_keeps_the_old_tail() {
    let mut db = HashMap::new();
    let mut core = LevelStorageCore::recover(None);
    let (w, _) = core.append(&[ent(1, 1, b"a"), ent(2, 1, b"b"), ent(3, 1, b"c")]);
    apply(&mut db, w);
    let (w, _) = core.append(&[ent(2, 2, b"B")]);
    apply(&mut db, w);
    assert_eq!(indices(&core.entries), vec![1, 2]);
    let back = load(&db);
    assert_eq!(indices(&back.entries), vec![1, 2, 3]);
    assert_eq!(back.entries[1].data, b"B".to_vec());
    assert_eq!(back.entries[2].data, b"c".to_vec());
}

#[test]
fn limit_step_keeps_what_fits() {
    // sizes 5, 3, 4 under a limit of 8: the first always, the second brings 8
    assert_eq!(limit_step(0, 5, 8), (true, 5));
    assert_eq!(limit_step(5, 3, 8), (true, 8));
    assert_eq!(limit_step(8, 4, 8), (false, 12));
    // after entries of size 0 the next is kept whatever its size
    assert_eq!(limit_step(0, 0, 3), (true, 0));
    assert_eq!(limit_step(0, 5, 3), (true, 5));
    assert_eq!(limit_step(5, 5, 3), (false, 10));
    assert_eq!(limit_step(0, 100, 0), (true, 100));
}

#[test]
fn stored_bytes_are_raft_encoding() {
    let mut core = LevelStorageCore::recover(None);
    let e = ent(1, 2, b"payload");
    let (w, _) = core.append(&[e.duplicate()]);
    assert_eq!(w[0].key, "entries1");
    let mut m = raft::eraftpb::Entry::default();
    m.merge_from_bytes(&w[0].value).unwrap();
    assert_eq!((m.index, m.term), (1, 2));
    assert_eq!(m.data.to_vec(), b"payload".to_vec());
    let mut back = LevelStorageCore::recover(None);
    assert!(back.recover_entry_bytes(&w[0].value));
    assert_eq!(back.entries[0].data, b"payload".to_vec());
    assert!(!back.recover_entry_bytes(&[0xff, 0xff]));
    assert_eq!(back.entries.len(), 1);
}

#[test]
fn recover_from_disk_reads_the_snapshot() {
    let mut core = LevelStorageCore::recover(None);
    let (w, _) = core.apply_snapshot(snapshot(4, 2, vec![1, 3]));
    let back = LevelStorageCore::recover_from_disk(Some(&w[0].value)).unwrap();
    assert_eq!(back.raft_state.hard_state.commit, 4);
    assert_eq!(back.raft_state.hard_state.term, 2);
    assert_eq!(back.raft_state.conf_state.voters, vec![1, 3]);
    assert_eq!(back.first_index(), 5);
    assert!(LevelStorageCore::recover_from_disk(Some(&[0xff])).is_none());
    assert_eq!(LevelStorageCore::recover_from_disk(None).unwrap().first_index(), 1);
}

#[test]
fn entries_countable_on_ordinary_entries() {
    let core = fresh_with(&[ent(1, 1, b"a"), ent(2, 1, b"b")]);
    assert!(core.entries_countable(1, 3, Some(1)));
    assert!(core.entries_countable(1, 3, None));
}

#[test]
fn test_storage() {
    let mut core = LevelStorageCore::recover(None);
    let (_, r) = core.append(&[ent(1, 1, b"x"), ent(2, 2, b"y")]);
    assert!(r.is_ok());
    assert_eq!(core.first_index(), 1);
    assert_eq!(core.last_index(), 2);
    assert!(core.has_entry_at(2));
    assert!(!core.has_entry_at(3));
}
