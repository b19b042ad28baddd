use vstd::prelude::*;

verus! {

/// What a node knows of the cluster it belongs to.
pub struct ServerMeta {
    pub leader_id: u64,
}

impl ServerMeta {
    /// A node that knows of no leader yet (leader id 0).
    pub fn default() -> (meta: Self)
        ensures
            meta.leader_id == 0,
    {
        ServerMeta { leader_id: 0 }
    }
}

} // verus!
