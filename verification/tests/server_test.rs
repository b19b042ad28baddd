use protobuf::Message as _;
use raftfwk::eraftpb::{ConfChange, ConfChangeType, Entry, EntryType};
use raftfwk::mpc::{MpcReply, MpcReplyCode};
use raftfwk::msg::{Command, CommandType};
use raftfwk::server::{
    answer_request, CommitAction, ConfAction, JoinError, RaftConfig, RequestAction, ServerState,
};

fn state(cluster: Option<&str>) -> ServerState {
    let cfg = RaftConfig::join(1, 8010, cluster.map(String::from));
    ServerState::new(cfg, 0).0
}

fn entry(entry_type: EntryType, index: u64, data: Vec<u8>) -> Entry {
    Entry { entry_type, term: 1, index, data, context: vec![], sync_log: false }
}

fn encoded_conf_change(change_type: raft::eraftpb::ConfChangeType, node_id: u64, addr: &str) -> Vec<u8> {
    let mut cc = raft::eraftpb::ConfChange::default();
    cc.set_change_type(change_type);
    cc.node_id = node_id;
    cc.context = addr.as_bytes().to_vec().into();
    cc.write_to_bytes().unwrap()
}

#[test]
fn config_defaults() {
    let c = RaftConfig::simple(2, 8020);
    assert_eq!((c.id, c.port, c.election_tick, c.heartbeat_tick, c.pre_vote, c.snap_count), (2, 8020, 10, 3, false, 10));
    assert!(c.cluster.is_none());
    let j = RaftConfig::join(3, 8030, Some(String::from("127.0.0.1:8010")));
    assert_eq!(j.cluster.as_deref(), Some("127.0.0.1:8010"));
    assert_eq!(j.snap_count, 10);
}

#[test]
fn new_node_that_starts_a_cluster() {
    let (s, cfg, init) = ServerState::new(RaftConfig::simple(1, 8010), 7);
    assert_eq!(s.cluster, "");
    assert_eq!(s.peers.len(), 1);
    assert_eq!(s.peers.get(&1).unwrap(), "127.0.0.1:8010");
    assert_eq!(s.applied_index, 7);
    assert_eq!(s.snapshot_index, 7);
    assert_eq!(cfg.applied, 7);
    assert_eq!(cfg.max_size_per_msg, 1024 * 1024 * 1024);
    assert_eq!(cfg.max_inflight_msgs, 256);
    assert_eq!(cfg.election_tick, 10);
    assert_eq!(init.unwrap().voters, vec![1]);
}

#[test]
fn new_node_that_joins_a_cluster() {
    let (s, _, init) = ServerState::new(RaftConfig::join(2, 8020, Some(String::from("127.0.0.1:8010"))), 0);
    assert_eq!(s.cluster, "127.0.0.1:8010");
    assert!(init.is_none());
}

#[test]
fn tick_updates_the_context() {
    let mut s = state(None);
    let ctx = s.tick(1);
    assert_eq!(ctx.leader_id, 1);
    assert!(ctx.is_leader());
    assert_eq!(ctx.peers.get(&1).unwrap(), "127.0.0.1:8010");
    assert_eq!(s.context.leader_id, 1);
}

#[test]
fn join_command_becomes_add_node() {
    let s = state(None);
    let mut cmd = Command::new_join(2, 8020);
    assert!(s.on_command(&cmd).is_none());
    cmd.host = Some(String::from("10.0.0.2"));
    let cc = s.on_command(&cmd).unwrap();
    assert_eq!(cc.change_type, ConfChangeType::AddNode);
    assert_eq!(cc.node_id, 2);
    assert_eq!(cc.context, b"10.0.0.2:8020".to_vec());
}

#[test]
fn conf_changes_update_peers() {
    let mut s = state(None);
    let cc = s.add_follower(2, &String::from("10.0.0.2:8020"));
    match s.apply_conf_change(&cc) {
        ConfAction::AddNode { node_id, addr_ok } => assert!(node_id == 2 && addr_ok),
        _ => panic!("expected AddNode"),
    }
    assert_eq!(s.peers.get(&2).unwrap(), "10.0.0.2:8020");
    let learner = ConfChange { id: 0, change_type: ConfChangeType::AddLearnerNode, node_id: 3, context: vec![] };
    assert!(matches!(s.apply_conf_change(&learner), ConfAction::AddLearner { node_id: 3 }));
    assert!(s.peers.get(&3).is_none());
    let remove = ConfChange { id: 0, change_type: ConfChangeType::RemoveNode, node_id: 2, context: vec![] };
    assert!(matches!(s.apply_conf_change(&remove), ConfAction::RemoveNode { node_id: 2 }));
    assert!(s.peers.get(&2).is_none());
    let bad = ConfChange { id: 0, change_type: ConfChangeType::AddNode, node_id: 4, context: vec![0xff, 0xfe] };
    assert!(matches!(s.apply_conf_change(&bad), ConfAction::AddNode { node_id: 4, addr_ok: false }));
    assert!(s.peers.get(&4).is_none());
}

#[test]
fn committed_entries() {
    let mut s = state(None);
    assert!(matches!(s.on_committed_entry(&entry(EntryType::EntryNormal, 3, vec![])), CommitAction::Skip));
    assert_eq!(s.applied_index, 0);
    assert!(matches!(s.on_committed_entry(&entry(EntryType::EntryNormal, 4, vec![1])), CommitAction::Deliver));
    assert_eq!(s.applied_index, 4);
    let data = encoded_conf_change(raft::eraftpb::ConfChangeType::AddNode, 5, "10.0.0.5:8050");
    match s.on_committed_entry(&entry(EntryType::EntryConfChange, 5, data)) {
        CommitAction::Conf(ConfAction::AddNode { node_id: 5, addr_ok: true }, cc) => assert_eq!(cc.node_id, 5),
        _ => panic!("expected the node to be added"),
    }
    assert_eq!(s.peers.get(&5).unwrap(), "10.0.0.5:8050");
    assert_eq!(s.applied_index, 5);
    assert!(matches!(
        s.on_committed_entry(&entry(EntryType::EntryConfChange, 6, vec![0xff, 0xff, 0xff])),
        CommitAction::BadConfChange
    ));
    assert_eq!(s.applied_index, 5);
    assert!(matches!(s.on_committed_entry(&entry(EntryType::EntryConfChangeV2, 7, vec![1])), CommitAction::Applied));
    assert_eq!(s.applied_index, 7);
}

#[test]
fn snapshots_every_snap_count_entries() {
    let mut s = state(None);
    s.applied_index = 10;
    assert_eq!(s.maybe_snapshot(), None);
    s.applied_index = 11;
    assert_eq!(s.maybe_snapshot(), Some(11));
    s.snapshot_taken();
    assert_eq!(s.snapshot_index, 11);
    assert_eq!(s.maybe_snapshot(), None);
}

#[test]
fn address_of_known_and_unknown() {
    let s = state(None);
    assert_eq!(s.address_of(1).unwrap(), "127.0.0.1:8010");
    assert!(s.address_of(9).is_none());
}

#[test]
fn requests_without_command_go_to_raft() {
    let (reply, action) = answer_request(1, 1, None, &String::from("ipv4:10.0.0.9:4000"));
    assert_eq!(reply.code, MpcReplyCode::OK);
    assert!(reply.context.is_empty());
    assert!(matches!(action, RequestAction::ForwardRaft));
}

#[test]
fn join_refused_by_follower() {
    let (reply, action) = answer_request(2, 1, Some(Command::new_join(3, 8030)), &String::from("ipv4:10.0.0.3:4000"));
    assert_eq!(reply.code, MpcReplyCode::ERR);
    assert_eq!(reply.msg, "The node is not the leader");
    assert!(matches!(action, RequestAction::Nothing));
}

#[test]
fn join_accepted_by_leader_and_read_back() {
    let (reply, action) = answer_request(1, 1, Some(Command::new_join(3, 8030)), &String::from("ipv4:10.0.0.3:4000"));
    assert_eq!(reply.code, MpcReplyCode::OK);
    assert_eq!(reply.context, 1u64.to_le_bytes().to_vec());
    match action {
        RequestAction::ForwardCommand(c) => {
            assert_eq!(c.command, CommandType::Join);
            assert_eq!((c.id, c.port), (3, 8030));
            assert_eq!(c.host.as_deref(), Some("10.0.0.3"));
        }
        _ => panic!("expected the command to be passed on"),
    }
    let mut joiner = state(Some("127.0.0.1:8010"));
    assert_eq!(joiner.on_join_reply(&reply), Ok(1));
    assert_eq!(joiner.peers.get(&1).unwrap(), "127.0.0.1:8010");
}

#[test]
fn join_reply_errors() {
    let mut joiner = state(Some("127.0.0.1:8010"));
    let mut refused = MpcReply::new();
    refused.set_code(MpcReplyCode::ERR);
    assert_eq!(joiner.on_join_reply(&refused), Err(JoinError::Refused));
    let short = MpcReply::new();
    assert_eq!(joiner.on_join_reply(&short), Err(JoinError::BadLeaderId));
    let mut id = MpcReply::new();
    id.set_context(vec![5, 0, 0, 0, 0, 0, 0, 0, 0xaa]);
    assert_eq!(joiner.on_join_reply(&id), Ok(5));
    assert_eq!(joiner.peers.get(&5).unwrap(), "127.0.0.1:8010");
}
