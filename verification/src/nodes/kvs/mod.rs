//! A key-value storage node and the gossip by which it passes writes on to
//! the other members of its cluster.

pub mod gossip;

use vstd::prelude::*;

verus! {

/// Who a storage node is: its own address and the addresses of the other
/// members of its cluster.
pub struct KvsNodeInfo {
    node_id: String,
    membership: Vec<String>,
}

impl KvsNodeInfo {
    /// The node's own address.
    pub closed spec fn node_id_view(&self) -> Seq<char> {
        self.node_id@
    }

    /// The addresses of the other members, in order.
    pub closed spec fn membership_view(&self) -> Seq<Seq<char>> {
        self.membership@.map_values(|m: String| m@)
    }

    /// A node at `node_id_arg` in a cluster with the members `membership_arg`.
    pub fn new(node_id_arg: String, membership_arg: Vec<String>) -> (r: KvsNodeInfo)
        ensures
            r.node_id_view() == node_id_arg@,
            r.membership_view() == membership_arg@.map_values(|m: String| m@),
    {
        KvsNodeInfo { node_id: node_id_arg, membership: membership_arg }
    }

    /// A copy of the node's own address.
    pub fn get_node_id(&self) -> (r: String)
        ensures
            r@ == self.node_id_view(),
    {
        self.node_id.clone()
    }

    /// A copy of the members' addresses, in order.
    pub fn get_membership(&self) -> (r: Vec<String>)
        ensures
            r@.map_values(|m: String| m@) == self.membership_view(),
    {
        let r = self.membership.clone();
        assert(r@.map_values(|m: String| m@) =~= self.membership@.map_values(|m: String| m@));
        r
    }
}

} // verus!
