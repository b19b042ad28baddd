use std::collections::HashMap;
use vstd::prelude::*;

verus! {

/// Status information of a raft node, handed to the application.
#[derive(Clone, Debug)]
pub struct RaftContext {
    pub id: u64,
    pub leader_id: u64,
    pub peers: HashMap<u64, String>,
}

impl RaftContext {
    /// The context of node `id`, which knows of no leader (0) and no peer.
    pub fn new(id: u64) -> (ctx: Self)
        ensures
            ctx.id == id,
            ctx.leader_id == 0,
            ctx.peers@ == Map::<u64, String>::empty(),
    {
        RaftContext { id, leader_id: 0, peers: HashMap::new() }
    }

    /// Whether this node is the leader it knows of.
    pub fn is_leader(&self) -> (b: bool)
        ensures
            b == (self.id == self.leader_id),
    {
        self.id == self.leader_id
    }
}

} // verus!
