//! Gossip between storage nodes: after a write, a node sends the key and the
//! value to every member of its cluster.

use vstd::prelude::*;
use vstd::string::StringExecFns;

verus! {

/// The service that receives the writes that other nodes pass on.
pub struct GossipEntity {}

/// The address at which the gossip service of `member` is reached.
pub open spec fn endpoint_of(member: Seq<char>) -> Seq<char> {
    "http://"@ + member
}

/// The addresses to which a write is passed on: one per member, in the order
/// of `membership`, each the member's address behind `http://`.
pub fn gossip_endpoints(membership: &Vec<String>) -> (r: Vec<String>)
    ensures
        r@.len() == membership@.len(),
        forall|i: int| 0 <= i < r@.len() ==> #[trigger] r@[i]@ == endpoint_of(membership@[i]@),
        forall|i: int| 0 <= i < r@.len() ==> #[trigger] r@[i]@ == "http://"@ + membership@[i]@,
{
    let mut r: Vec<String> = Vec::new();
    let mut i: usize = 0;
    while i < membership.len()
        invariant
            i <= membership@.len(),
            r@.len() == i,
            forall|j: int| 0 <= j < i ==> #[trigger] r@[j]@ == endpoint_of(membership@[j]@),
        decreases membership@.len() - i,
    {
        let dst = String::from_str("http://").concat(membership[i].as_str());
        r.push(dst);
        i += 1;
    }
    r
}

/// An endpoint is `http://` followed by the whole address of the member: seven
/// bytes longer than the address, which it ends with unchanged.
pub proof fn law_endpoint_holds_whole_member(member: Seq<char>)
    ensures
        endpoint_of(member).len() == 7 + member.len(),
        endpoint_of(member).subrange(0, 7) == seq!['h', 't', 't', 'p', ':', '/', '/'],
        endpoint_of(member).subrange(7, endpoint_of(member).len() as int) == member,
{
    reveal_strlit("http://");
    let e = endpoint_of(member);
    assert(e.subrange(0, 7) =~= seq!['h', 't', 't', 'p', ':', '/', '/']);
    assert(e.subrange(7, e.len() as int) =~= member);
}

} // verus!
