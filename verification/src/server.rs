//! The decisions of a raft node: how it is configured, whom it knows of,
//! what it does with committed entries, with commands from other nodes, and
//! with the replies to its own requests. The node's loop performs what these
//! functions decide.
use protobuf::Message as _;
use raft::eraftpb as pb;
use std::collections::HashMap;
use vstd::bytes::{spec_u64_from_le_bytes, spec_u64_to_le_bytes};
use vstd::prelude::*;
use vstd::string::*;
use vstd::utf8::{decode_utf8, encode_utf8, valid_utf8};

use crate::eraftpb::{conf_state_of, ConfChange, ConfChangeType, ConfChangeView, ConfState, Entry, EntryType};
use crate::kit::{address, count_char, format_address, get_peer_host, is_second_piece, string_from_utf8};
use crate::mpc::{MpcReply, MpcReplyCode};
use crate::msg::{Command, CommandType};
use crate::service::RaftContext;

verus! {

broadcast use vstd::std_specs::hash::group_hash_axioms;

#[verifier::external_type_specification]
#[verifier::external_body]
pub struct ExBincodeErrorKind(bincode::ErrorKind);

/// `bincode::serialize` of a `u64`: bincode's default configuration writes
/// it as its 8 bytes in little-endian order into a growing `Vec`, which
/// cannot fail.
#[verifier::external_body]
fn bincode_encode_u64(v: u64) -> (r: Result<Vec<u8>, Box<bincode::ErrorKind>>)
    ensures
        (match r {
            Ok(b) => b@ == spec_u64_to_le_bytes(v),
            Err(_) => false,
        }),
{
    bincode::serialize(&v)
}

/// `bincode::deserialize::<u64>`: bincode's default configuration reads the
/// first 8 bytes in little-endian order and allows bytes after them; fewer
/// than 8 bytes are an error.
#[verifier::external_body]
fn bincode_decode_u64(bytes: &[u8]) -> (r: Result<u64, Box<bincode::ErrorKind>>)
    ensures
        (match r {
            Ok(v) => bytes@.len() >= 8 && v == spec_u64_from_le_bytes(bytes@.take(8)),
            Err(_) => bytes@.len() < 8,
        }),
{
    bincode::deserialize::<u64>(bytes)
}

/// The membership change that raft's wire encoding `data` holds, if any.
pub uninterp spec fn conf_change_decoding(data: Seq<u8>) -> Option<ConfChangeView>;

/// Decodes a membership change from raft's wire encoding with
/// `protobuf::Message::merge_from_bytes` on the raft crate's
/// `eraftpb::ConfChange`. Only that the result is a function of the bytes
/// is claimed.
#[verifier::external_body]
fn decode_conf_change(data: &[u8]) -> (r: Option<ConfChange>)
    ensures
        (match r {
            Some(cc) => conf_change_decoding(data@) == Some(cc@),
            None => conf_change_decoding(data@) is None,
        }),
{
    let mut cc = pb::ConfChange::default();
    match cc.merge_from_bytes(data) {
        Ok(()) => Some(ConfChange {
            id: cc.id,
            change_type: match cc.get_change_type() {
                pb::ConfChangeType::AddNode => ConfChangeType::AddNode,
                pb::ConfChangeType::RemoveNode => ConfChangeType::RemoveNode,
                pb::ConfChangeType::AddLearnerNode => ConfChangeType::AddLearnerNode,
            },
            node_id: cc.node_id,
            context: cc.context.to_vec(),
        }),
        Err(_) => None,
    }
}

/// The settings of a raft node.
pub struct RaftConfig {
    pub id: u64,
    pub port: u16,
    pub election_tick: usize,
    pub heartbeat_tick: usize,
    pub cluster: Option<String>,
    pub pre_vote: bool,
    pub snap_count: u64,
}

/// The settings every node starts from: elections after 10 ticks,
/// heartbeats every 3, no pre-vote, a snapshot every 10 applied entries.
pub open spec fn default_settings(c: RaftConfig) -> bool {
    &&& c.election_tick == 10
    &&& c.heartbeat_tick == 3
    &&& !c.pre_vote
    &&& c.snap_count == 10
}

impl RaftConfig {
    /// The settings of node `id` listening on `port` that starts a cluster.
    pub fn simple(id: u64, port: u16) -> (c: Self)
        ensures
            c.id == id,
            c.port == port,
            c.cluster is None,
            default_settings(c),
    {
        RaftConfig { id, port, election_tick: 10, heartbeat_tick: 3, cluster: None, pre_vote: false, snap_count: 10 }
    }

    /// The settings of node `id` listening on `port` that joins the cluster
    /// whose leader is at `cluster`, or starts one when it is `None`.
    pub fn join(id: u64, port: u16, cluster: Option<String>) -> (c: Self)
        ensures
            c.id == id,
            c.port == port,
            c.cluster == cluster,
            default_settings(c),
    {
        RaftConfig { id, port, election_tick: 10, heartbeat_tick: 3, cluster, pre_vote: false, snap_count: 10 }
    }
}

/// What the raft library is configured with.
pub struct NodeConfig {
    pub id: u64,
    pub election_tick: usize,
    pub heartbeat_tick: usize,
    pub pre_vote: bool,
    pub max_size_per_msg: u64,
    pub max_inflight_msgs: usize,
    pub applied: u64,
}

/// The address at which a node with this port is reached on this machine.
pub open spec fn local_address(port: u16) -> Seq<char> {
    address(seq!['1', '2', '7', '.', '0', '.', '0', '.', '1'], port)
}

/// What the node does with a committed membership change besides updating
/// whom it knows of.
pub enum ConfAction {
    /// Add this voter to raft's configuration, if raft does not know it;
    /// `addr_ok` tells whether the change carried a valid address.
    AddNode { node_id: u64, addr_ok: bool },
    RemoveNode { node_id: u64 },
    AddLearner { node_id: u64 },
}

/// What the node does with a committed entry.
pub enum CommitAction {
    /// The entry carries nothing and is passed over.
    Skip,
    /// Hand the entry's data to the application.
    Deliver,
    /// Carry out this membership change, the one the entry holds, then
    /// store raft's membership.
    Conf(ConfAction, ConfChange),
    /// Nothing to do beyond counting the entry as applied.
    Applied,
    /// The entry claims a membership change that cannot be decoded.
    BadConfChange,
}

/// How a join request that was answered ended.
#[derive(PartialEq, Eq, Debug, Structural)]
pub enum JoinError {
    /// The answer carries no leader id.
    BadLeaderId,
    /// The node asked refused; its message says why.
    Refused,
}

/// What the node does with a request it received.
pub enum RequestAction {
    /// Hand the request to raft as a raft message.
    ForwardRaft,
    /// Hand this command to the node's loop.
    ForwardCommand(Command),
    /// Nothing.
    Nothing,
}

/// The state a raft node keeps besides raft's own: its identity, whom it
/// knows of, and how far the log was applied and snapshotted.
pub struct ServerState {
    pub id: u64,
    pub port: u16,
    pub cluster: String,
    pub context: RaftContext,
    pub peers: HashMap<u64, String>,
    pub snapshot_index: u64,
    pub applied_index: u64,
    pub snap_count: u64,
}

/// The membership change that adds node `id` at `addr`.
pub open spec fn add_node_change(id: u64, addr: Seq<char>) -> ConfChangeView {
    ConfChangeView { id: 0, change_type: ConfChangeType::AddNode, node_id: id, context: encode_utf8(addr) }
}

/// `new` is whom the node knows of, and `action` what it does, after the
/// membership change `cc` was applied to `old`: an added node is known at
/// the address the change carries, when that is valid UTF-8; a removed node
/// is forgotten; a learner changes nothing here.
pub open spec fn conf_applied(
    old: Map<u64, String>,
    cc: ConfChangeView,
    new: Map<u64, String>,
    action: ConfAction,
) -> bool {
    match cc.change_type {
        ConfChangeType::AddNode => {
            &&& action == (ConfAction::AddNode { node_id: cc.node_id, addr_ok: valid_utf8(cc.context) })
            &&& valid_utf8(cc.context) ==> {
                &&& new.dom() == old.dom().insert(cc.node_id)
                &&& new[cc.node_id]@ == decode_utf8(cc.context)
                &&& forall|k: u64| k != cc.node_id && #[trigger] old.contains_key(k) ==> new[k] == old[k]
            }
            &&& !valid_utf8(cc.context) ==> new == old
        },
        ConfChangeType::RemoveNode => {
            &&& action == (ConfAction::RemoveNode { node_id: cc.node_id })
            &&& new == old.remove(cc.node_id)
        },
        ConfChangeType::AddLearnerNode => {
            &&& action == (ConfAction::AddLearner { node_id: cc.node_id })
            &&& new == old
        },
    }
}

/// The leader id a join answer's payload carries, if it carries one.
pub open spec fn reply_leader(context: Seq<u8>) -> Option<u64> {
    if context.len() >= 8 {
        Some(spec_u64_from_le_bytes(context.take(8)))
    } else {
        None
    }
}

/// The text of the refusal of a node that is not the leader.
pub open spec fn not_leader_text() -> Seq<char> {
    seq!['T', 'h', 'e', ' ', 'n', 'o', 'd', 'e', ' ', 'i', 's', ' ', 'n', 'o', 't', ' ', 't', 'h', 'e', ' ', 'l', 'e', 'a', 'd', 'e', 'r']
}

/// The membership a node stores before it starts: itself alone when it
/// starts a cluster, none when it joins one.
pub fn initial_conf_state(params: &RaftConfig) -> (cs: Option<ConfState>)
    ensures
        params.cluster is Some ==> cs is None,
        params.cluster is None ==> (cs matches Some(c) && c@ == conf_state_of(seq![params.id], Seq::empty())),
{
    match params.cluster {
        Some(_) => None,
        None => {
            let mut voters: Vec<u64> = Vec::new();
            voters.push(params.id);
            let cs = ConfState::from_nodes(voters, Vec::new());
            proof {
                assert(cs@ =~= conf_state_of(seq![params.id], Seq::empty()));
            }
            Some(cs)
        },
    }
}

impl ServerState {
    /// The node's context names the node itself.
    pub open spec fn wf(&self) -> bool {
        self.context.id == self.id
    }

    /// The state of a node started with `params` on a store whose commit
    /// index is `last_applied`, with the raft configuration and, for a node
    /// that starts a cluster, the membership to store first: itself alone.
    /// It knows only of itself, at `127.0.0.1` and its port. A cluster
    /// address that is not `host:port` is a caller's error.
    pub fn new(params: RaftConfig, last_applied: u64) -> (res: (ServerState, NodeConfig, Option<ConfState>))
        requires
            params.cluster matches Some(c) ==> count_char(c@, ':') == 1,
        ensures
            res.0.id == params.id,
            res.0.port == params.port,
            params.cluster matches Some(c) ==> res.0.cluster@ == c@ && res.2 is None,
            params.cluster is None ==> res.0.cluster@ == Seq::<char>::empty() && (res.2 matches Some(cs) && cs@
                == conf_state_of(seq![params.id], Seq::empty())),
            res.0.peers@.dom() == set![params.id],
            res.0.peers@[params.id]@ == local_address(params.port),
            res.0.context.id == params.id,
            res.0.wf(),
            res.0.context.leader_id == 0,
            res.0.context.peers@ == Map::<u64, String>::empty(),
            res.0.snapshot_index == last_applied,
            res.0.applied_index == last_applied,
            res.0.snap_count == params.snap_count,
            res.1 == (NodeConfig {
                id: params.id,
                election_tick: params.election_tick,
                heartbeat_tick: params.heartbeat_tick,
                pre_vote: params.pre_vote,
                max_size_per_msg: 1073741824u64,
                max_inflight_msgs: 256usize,
                applied: last_applied,
            }),
    {
        let init = initial_conf_state(&params);
        let cluster = match params.cluster {
            Some(v) => v,
            None => String::new(),
        };
        let cfg = NodeConfig {
            id: params.id,
            election_tick: params.election_tick,
            heartbeat_tick: params.heartbeat_tick,
            pre_vote: params.pre_vote,
            max_size_per_msg: 1024 * 1024 * 1024,
            max_inflight_msgs: 256,
            applied: last_applied,
        };
        let local = String::from_str("127.0.0.1");
        proof {
            reveal_strlit("127.0.0.1");
        }
        let addr = format_address(&local, params.port);
        let mut peers: HashMap<u64, String> = HashMap::new();
        peers.insert(params.id, addr);
        proof {
            assert(peers@.dom() =~= set![params.id]);
        }
        let state = ServerState {
            id: params.id,
            port: params.port,
            cluster,
            context: RaftContext::new(params.id),
            peers,
            snapshot_index: last_applied,
            applied_index: last_applied,
            snap_count: params.snap_count,
        };
        (state, cfg, init)
    }

    /// Called on each tick with the leader raft knows of: the context takes
    /// that leader and whom the node knows of, and a copy of it is returned
    /// for the application.
    pub fn tick(&mut self, leader_id: u64) -> (ctx: RaftContext)
        ensures
            final(self).context.id == old(self).context.id,
            final(self).context.leader_id == leader_id,
            final(self).context.peers@ == old(self).peers@,
            ctx.id == final(self).context.id,
            ctx.leader_id == leader_id,
            ctx.peers@ == old(self).peers@,
            final(self).peers@ == old(self).peers@,
            final(self).id == old(self).id,
            final(self).wf() == old(self).wf(),
            final(self).cluster == old(self).cluster,
            final(self).snapshot_index == old(self).snapshot_index,
            final(self).applied_index == old(self).applied_index,
            final(self).snap_count == old(self).snap_count,
    {
        self.context.leader_id = leader_id;
        self.context.peers = self.peers.clone();
        RaftContext { id: self.context.id, leader_id, peers: self.peers.clone() }
    }

    /// The membership change that adds follower `id` reachable at `addr`.
    pub fn add_follower(&self, id: u64, addr: &String) -> (cc: ConfChange)
        ensures
            cc@ == add_node_change(id, addr@),
    {
        let bytes = addr.as_str().as_bytes();
        let context = vstd::slice::slice_to_vec(bytes);
        ConfChange { id: 0, change_type: ConfChangeType::AddNode, node_id: id, context }
    }

    /// The membership change a command from another node asks for: a join
    /// request that carries the sender's host adds the sender as a follower
    /// at `host:port`; one without a host asks for nothing.
    pub fn on_command(&self, cmd: &Command) -> (cc: Option<ConfChange>)
        ensures
            cmd.host matches Some(h) ==> (cc matches Some(c) && c@ == add_node_change(cmd.id, address(h@, cmd.port))),
            cmd.host is None ==> cc is None,
    {
        match cmd.command {
            CommandType::Join => match &cmd.host {
                Some(host) => {
                    let addr = format_address(host, cmd.port);
                    Some(self.add_follower(cmd.id, &addr))
                },
                None => None,
            },
        }
    }

    /// Carries out a committed membership change on whom the node knows of:
    /// an added node is known at the address the change carries, when that
    /// is valid UTF-8; a removed node is forgotten; a learner changes
    /// nothing here. Raft's own configuration is changed by the caller as
    /// the returned action says.
    pub fn apply_conf_change(&mut self, cc: &ConfChange) -> (action: ConfAction)
        ensures
            conf_applied(old(self).peers@, cc@, final(self).peers@, action),
            final(self).id == old(self).id,
            final(self).wf() == old(self).wf(),
            final(self).cluster == old(self).cluster,
            final(self).context == old(self).context,
            final(self).snapshot_index == old(self).snapshot_index,
            final(self).applied_index == old(self).applied_index,
            final(self).snap_count == old(self).snap_count,
    {
        let node_id = cc.node_id;
        let bytes = cc.context.clone();
        proof {
            assert(bytes@ =~= cc.context@);
        }
        let node_addr = string_from_utf8(bytes);
        match cc.change_type {
            ConfChangeType::AddNode => {
                let addr_ok = node_addr.is_some();
                if let Some(a) = node_addr {
                    self.peers.insert(node_id, a);
                }
                ConfAction::AddNode { node_id, addr_ok }
            },
            ConfChangeType::RemoveNode => {
                self.peers.remove(&node_id);
                ConfAction::RemoveNode { node_id }
            },
            ConfChangeType::AddLearnerNode => ConfAction::AddLearner { node_id },
        }
    }

    /// What the node does with a committed entry. An entry without data is
    /// passed over. Otherwise the entry counts as applied: a membership
    /// change is decoded and carried out, a normal entry is handed to the
    /// application. A membership change that cannot be decoded changes
    /// nothing and is reported, for the caller to stop on.
    pub fn on_committed_entry(&mut self, entry: &Entry) -> (action: CommitAction)
        ensures
            final(self).id == old(self).id,
            final(self).wf() == old(self).wf(),
            final(self).cluster == old(self).cluster,
            final(self).context == old(self).context,
            final(self).snapshot_index == old(self).snapshot_index,
            final(self).snap_count == old(self).snap_count,
            entry.data@.len() == 0 ==> action is Skip && final(self).peers@ == old(self).peers@
                && final(self).applied_index == old(self).applied_index,
            entry.data@.len() > 0 && entry.entry_type == EntryType::EntryConfChange ==> match conf_change_decoding(
                entry.data@,
            ) {
                Some(cc) => {
                    &&& action matches CommitAction::Conf(a, c) && c@ == cc && conf_applied(old(self).peers@, cc, final(self).peers@, a)
                    &&& final(self).applied_index == entry.index
                },
                None => {
                    &&& action is BadConfChange
                    &&& final(self).peers@ == old(self).peers@
                    &&& final(self).applied_index == old(self).applied_index
                },
            },
            entry.data@.len() > 0 && entry.entry_type == EntryType::EntryNormal ==> action is Deliver
                && final(self).peers@ == old(self).peers@ && final(self).applied_index == entry.index,
            entry.data@.len() > 0 && entry.entry_type == EntryType::EntryConfChangeV2 ==> action is Applied
                && final(self).peers@ == old(self).peers@ && final(self).applied_index == entry.index,
    {
        if entry.data.len() == 0 {
            return CommitAction::Skip;
        }
        let action = match entry.entry_type {
            EntryType::EntryConfChange => match decode_conf_change(entry.data.as_slice()) {
                Some(cc) => {
                    let a = self.apply_conf_change(&cc);
                    CommitAction::Conf(a, cc)
                },
                None => {
                    return CommitAction::BadConfChange;
                },
            },
            EntryType::EntryNormal => CommitAction::Deliver,
            EntryType::EntryConfChangeV2 => CommitAction::Applied,
        };
        self.applied_index = entry.index;
        action
    }

    /// The index at which to take a snapshot, when more than `snap_count`
    /// entries were applied since the last one. The snapshot index must not
    /// be past the applied index.
    pub fn maybe_snapshot(&self) -> (at: Option<u64>)
        requires
            self.snapshot_index <= self.applied_index,
        ensures
            self.applied_index - self.snapshot_index > self.snap_count ==> at == Some(self.applied_index),
            self.applied_index - self.snapshot_index <= self.snap_count ==> at is None,
    {
        if self.applied_index - self.snapshot_index <= self.snap_count {
            return None;
        }
        Some(self.applied_index)
    }

    /// Records that a snapshot was taken at the applied index.
    pub fn snapshot_taken(&mut self)
        ensures
            final(self).snapshot_index == old(self).applied_index,
            final(self).applied_index == old(self).applied_index,
            final(self).peers@ == old(self).peers@,
            final(self).id == old(self).id,
            final(self).wf() == old(self).wf(),
            final(self).cluster == old(self).cluster,
            final(self).context == old(self).context,
            final(self).snap_count == old(self).snap_count,
    {
        self.snapshot_index = self.applied_index;
    }

    /// The address of node `to`, if the node knows of it.
    pub fn address_of(&self, to: u64) -> (addr: Option<String>)
        ensures
            self.peers@.contains_key(to) ==> addr == Some(self.peers@[to]),
            !self.peers@.contains_key(to) ==> addr is None,
    {
        match self.peers.get(&to) {
            Some(a) => Some(a.clone()),
            None => None,
        }
    }

    /// Takes the answer to this node's join request: an accepted answer
    /// carries the leader's id, and the leader is then known at the cluster
    /// address the request went to; a refusal, or an accepted answer
    /// without an id, is an error and changes nothing.
    pub fn on_join_reply(&mut self, reply: &MpcReply) -> (r: Result<u64, JoinError>)
        ensures
            reply.code == MpcReplyCode::ERR ==> r == Err::<u64, JoinError>(JoinError::Refused)
                && final(self).peers@ == old(self).peers@,
            reply.code == MpcReplyCode::OK ==> match reply_leader(reply.context@) {
                Some(l) => r == Ok::<u64, JoinError>(l) && final(self).peers@ == old(self).peers@.insert(
                    l,
                    old(self).cluster,
                ),
                None => r == Err::<u64, JoinError>(JoinError::BadLeaderId) && final(self).peers@ == old(
                    self,
                ).peers@,
            },
            final(self).id == old(self).id,
            final(self).wf() == old(self).wf(),
            final(self).cluster == old(self).cluster,
            final(self).context == old(self).context,
            final(self).snapshot_index == old(self).snapshot_index,
            final(self).applied_index == old(self).applied_index,
            final(self).snap_count == old(self).snap_count,
    {
        match reply.code {
            MpcReplyCode::OK => match bincode_decode_u64(reply.context.as_slice()) {
                Ok(leader_id) => {
                    self.peers.insert(leader_id, self.cluster.clone());
                    Ok(leader_id)
                },
                Err(_) => Err(JoinError::BadLeaderId),
            },
            MpcReplyCode::ERR => Err(JoinError::Refused),
        }
    }
}


/// How node `id`, which knows `leader_id` as the leader, answers a request
/// from the peer at `peer`, given the command the request decodes to, if
/// any. A request that is no command is a raft message, passed on to raft.
/// A join request is refused by a node that is not the leader; the leader
/// accepts it with its own id as payload, and passes the command on with
/// the host part of the peer's address, which must then hold a `:`.
pub fn answer_request(id: u64, leader_id: u64, cmd: Option<Command>, peer: &String) -> (res: (
    MpcReply,
    RequestAction,
))
    requires
        cmd is Some && leader_id == id ==> peer@.contains(':'),
    ensures
        cmd is None ==> {
            &&& res.0.code == MpcReplyCode::OK
            &&& res.0.msg@ == Seq::<char>::empty()
            &&& res.0.context@ == Seq::<u8>::empty()
            &&& res.0.unknown_fields@ == Seq::<u8>::empty()
            &&& res.1 is ForwardRaft
        },
        cmd is Some && leader_id != id ==> {
            &&& res.0.code == MpcReplyCode::ERR
            &&& res.0.msg@ == not_leader_text()
            &&& res.0.context@ == Seq::<u8>::empty()
            &&& res.0.unknown_fields@ == Seq::<u8>::empty()
            &&& res.1 is Nothing
        },
        cmd is Some && leader_id == id ==> {
            let c = cmd->0;
            &&& res.0.code == MpcReplyCode::OK
            &&& res.0.msg@ == Seq::<char>::empty()
            &&& res.0.context@ == spec_u64_to_le_bytes(leader_id)
            &&& res.0.unknown_fields@ == Seq::<u8>::empty()
            &&& res.1 matches RequestAction::ForwardCommand(fwd) && fwd.command == c.command && fwd.id == c.id
                && fwd.port == c.port && (fwd.host matches Some(h) && is_second_piece(h@, peer@, ':'))
        },
{
    let mut resp = MpcReply::new();
    resp.set_code(MpcReplyCode::OK);
    match cmd {
        Some(mut cmd) => match cmd.command {
            CommandType::Join => {
                if leader_id != id {
                    resp.set_code(MpcReplyCode::ERR);
                    let text = String::from_str("The node is not the leader");
                    proof {
                        reveal_strlit("The node is not the leader");
                        assert(text@ =~= not_leader_text());
                    }
                    resp.set_msg(text);
                    (resp, RequestAction::Nothing)
                } else {
                    cmd.host = Some(get_peer_host(peer));
                    match bincode_encode_u64(leader_id) {
                        Ok(bs) => resp.set_context(bs),
                        Err(_) => resp.set_code(MpcReplyCode::ERR),
                    }
                    (resp, RequestAction::ForwardCommand(cmd))
                }
            },
        },
        None => (resp, RequestAction::ForwardRaft),
    }
}

/// A join answered by the leader names the leader: the payload of the
/// leader's acceptance is read back, by the node that asked, as the
/// leader's id.
pub proof fn lemma_join_reply_names_leader(leader_id: u64)
    ensures
        reply_leader(spec_u64_to_le_bytes(leader_id)) == Some(leader_id),
{
    vstd::bytes::lemma_auto_spec_u64_to_from_le_bytes();
    assert(spec_u64_to_le_bytes(leader_id).take(8) =~= spec_u64_to_le_bytes(leader_id));
}

/// A node that joins is known at the address it joined from: once the
/// membership change made for its join request is applied, the node is
/// known at `host:port`.
pub proof fn lemma_joined_node_address(
    old: Map<u64, String>,
    id: u64,
    host: Seq<char>,
    port: u16,
    new: Map<u64, String>,
    action: ConfAction,
)
    requires
        conf_applied(old, add_node_change(id, address(host, port)), new, action),
    ensures
        action == (ConfAction::AddNode { node_id: id, addr_ok: true }),
        new.contains_key(id),
        new[id]@ == address(host, port),
        forall|k: u64| k != id && #[trigger] old.contains_key(k) ==> new.contains_key(k) && new[k] == old[k],
{
    vstd::utf8::encode_utf8_valid_utf8(address(host, port));
    vstd::utf8::encode_utf8_decode_utf8(address(host, port));
}

} // verus!
