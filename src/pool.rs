//! The membership model of one namespace and the operations on it.

use crate::data::NodeModel;
use crate::decimal::decimal_of;
use crate::error::ErrorResponse;
use crate::hash::ring_position;
use vstd::prelude::*;

verus! {

/// Positions strictly ascend along the sequence; in particular no two
/// members share a position.
pub open spec fn ids_ascending(nodes: Seq<NodeModel>) -> bool {
    forall|i: int, j: int| 0 <= i < j < nodes.len() ==> nodes[i].id < nodes[j].id
}

/// Every member sits at the position of its endpoint.
pub open spec fn positions_match(nodes: Seq<NodeModel>) -> bool {
    forall|i: int| 0 <= i < nodes.len() ==> nodes[i].id == ring_position(#[trigger] nodes[i].ip)
}

/// Some member sits at position `id`.
pub open spec fn has_id(nodes: Seq<NodeModel>, id: u32) -> bool {
    exists|i: int| 0 <= i < nodes.len() && nodes[i].id == id
}

/// The index of the first member that satisfies `p`, or the length when none does.
pub open spec fn first_index(nodes: Seq<NodeModel>, p: spec_fn(NodeModel) -> bool) -> int
    decreases nodes.len(),
{
    if nodes.len() == 0 {
        0
    } else if p(nodes[0]) {
        0
    } else {
        1 + first_index(nodes.drop_first(), p)
    }
}

/// Where a member at position `id` belongs: before the first member at or above it.
pub open spec fn insertion_index(nodes: Seq<NodeModel>, id: u32) -> int {
    first_index(nodes, |n: NodeModel| n.id >= id)
}

/// The membership after registering endpoint `ip`: unchanged when its position
/// is taken, else a healthy member inserted in position order.
pub open spec fn with_added(nodes: Seq<NodeModel>, ip: Seq<char>) -> Seq<NodeModel> {
    let id = ring_position(ip);
    if has_id(nodes, id) {
        nodes
    } else {
        nodes.insert(insertion_index(nodes, id), NodeModel { id, ip, healthy: true })
    }
}

/// The membership after removing the member at position `id`, if any.
pub open spec fn with_removed(nodes: Seq<NodeModel>, id: u32) -> Seq<NodeModel> {
    if has_id(nodes, id) {
        nodes.remove(first_index(nodes, |n: NodeModel| n.id == id))
    } else {
        nodes
    }
}

/// The membership after setting the health flag of the member at position `id`.
pub open spec fn with_health(nodes: Seq<NodeModel>, id: u32, healthy: bool) -> Seq<NodeModel> {
    nodes.map_values(
        |n: NodeModel|
            if n.id == id {
                NodeModel { id: n.id, ip: n.ip, healthy }
            } else {
                n
            },
    )
}

/// The index a client at position `cid` is routed to: the first healthy
/// member at or above `cid`, else (wrapping round) the first healthy member;
/// the length when no member is healthy.
pub open spec fn lookup_index(nodes: Seq<NodeModel>, cid: u32) -> int {
    let k = first_index(nodes, |n: NodeModel| n.healthy && n.id >= cid);
    if k < nodes.len() {
        k
    } else {
        first_index(nodes, |n: NodeModel| n.healthy)
    }
}

/// The position a client at `cid` is routed to, if any member is healthy.
pub open spec fn ring_lookup(nodes: Seq<NodeModel>, cid: u32) -> Option<u32> {
    let k = lookup_index(nodes, cid);
    if 0 <= k < nodes.len() {
        Some(nodes[k].id)
    } else {
        None
    }
}

/// What a lookup of a client at `cid` answers: the routed position in
/// decimal; an internal error when the ring is empty or has no healthy member.
pub open spec fn lookup_outcome(
    nodes: Seq<NodeModel>,
    cid: u32,
    r: Result<String, ErrorResponse>,
) -> bool {
    match ring_lookup(nodes, cid) {
        Some(id) => r matches Ok(s) && s@ == decimal_of(id as nat),
        None => r matches Err(e) && if nodes.len() == 0 {
            e.is_internal_with("no service found in namespace"@)
        } else {
            e.is_internal_with("no healthy service found in namespace"@)
        },
    }
}

/// What setting the health of endpoint `ip` does: the flag of its member
/// changes and nothing moves; a bad request when no member sits at its position.
pub open spec fn health_outcome(
    before: Seq<NodeModel>,
    after: Seq<NodeModel>,
    ip: Seq<char>,
    healthy: bool,
    r: Result<(), ErrorResponse>,
) -> bool {
    if has_id(before, ring_position(ip)) {
        r is Ok && after == with_health(before, ring_position(ip), healthy)
    } else {
        r matches Err(e) && e.is_bad_request_with("can't find service inside the namespace"@)
            && after == before
    }
}

/// `first_index` is the first index satisfying `p`.
pub proof fn lemma_first_index(nodes: Seq<NodeModel>, p: spec_fn(NodeModel) -> bool)
    ensures
        0 <= first_index(nodes, p) <= nodes.len(),
        forall|j: int| 0 <= j < first_index(nodes, p) ==> !p(#[trigger] nodes[j]),
        first_index(nodes, p) < nodes.len() ==> p(nodes[first_index(nodes, p)]),
    decreases nodes.len(),
{
    if nodes.len() > 0 && !p(nodes[0]) {
        let rest = nodes.drop_first();
        lemma_first_index(rest, p);
        assert forall|j: int| 0 <= j < first_index(nodes, p) implies !p(#[trigger] nodes[j]) by {
            if j > 0 {
                assert(nodes[j] == rest[j - 1]);
            }
        }
    }
}

/// An index before which nothing satisfies `p`, and at which `p` holds or the
/// sequence ends, is `first_index`.
pub proof fn lemma_first_index_at(nodes: Seq<NodeModel>, p: spec_fn(NodeModel) -> bool, i: int)
    requires
        0 <= i <= nodes.len(),
        forall|j: int| 0 <= j < i ==> !p(#[trigger] nodes[j]),
        i < nodes.len() ==> p(nodes[i]),
    ensures
        first_index(nodes, p) == i,
    decreases i,
{
    if i > 0 {
        let rest = nodes.drop_first();
        assert(!p(nodes[0]));
        assert forall|j: int| 0 <= j < i - 1 implies !p(#[trigger] rest[j]) by {
            assert(rest[j] == nodes[j + 1]);
        }
        lemma_first_index_at(rest, p, i - 1);
    }
}

/// Registering an endpoint keeps positions strictly ascending and matched to endpoints.
pub proof fn lemma_added_keeps_order(nodes: Seq<NodeModel>, ip: Seq<char>)
    requires
        ids_ascending(nodes),
        positions_match(nodes),
    ensures
        ids_ascending(with_added(nodes, ip)),
        positions_match(with_added(nodes, ip)),
{
    let id = ring_position(ip);
    if !has_id(nodes, id) {
        let k = insertion_index(nodes, id);
        let p = |n: NodeModel| n.id >= id;
        lemma_first_index(nodes, p);
        let r = with_added(nodes, ip);
        assert(k < nodes.len() ==> nodes[k].id > id);
        assert forall|i: int, j: int| 0 <= i < j < r.len() implies r[i].id < r[j].id by {
            if j < k {
            } else if j == k {
                assert(!p(nodes[i]));
            } else if i < k {
                assert(!p(nodes[i]));
                assert(nodes[k].id <= nodes[j - 1].id);
            } else if i == k {
                assert(nodes[k].id <= nodes[j - 1].id);
            } else {
            }
        }
        assert forall|i: int| 0 <= i < r.len() implies r[i].id == ring_position(
            #[trigger] r[i].ip,
        ) by {
            if i < k {
                assert(r[i] == nodes[i]);
            } else if i > k {
                assert(r[i] == nodes[i - 1]);
            }
        }
    }
}

/// Changing a health flag moves no member: positions and endpoints stay where
/// they were, so the order is kept.
pub proof fn lemma_health_keeps_order(nodes: Seq<NodeModel>, id: u32, healthy: bool)
    ensures
        with_health(nodes, id, healthy).len() == nodes.len(),
        forall|i: int|
            0 <= i < nodes.len() ==> (#[trigger] with_health(nodes, id, healthy)[i]).id
                == nodes[i].id && with_health(nodes, id, healthy)[i].ip == nodes[i].ip,
        ids_ascending(nodes) ==> ids_ascending(with_health(nodes, id, healthy)),
        positions_match(nodes) ==> positions_match(with_health(nodes, id, healthy)),
{
    let r = with_health(nodes, id, healthy);
    assert forall|i: int| 0 <= i < nodes.len() implies r[i].id == nodes[i].id && r[i].ip
        == nodes[i].ip by {}
}

/// Removing a member keeps positions strictly ascending and matched to endpoints.
pub proof fn lemma_removed_keeps_order(nodes: Seq<NodeModel>, id: u32)
    requires
        ids_ascending(nodes),
        positions_match(nodes),
    ensures
        ids_ascending(with_removed(nodes, id)),
        positions_match(with_removed(nodes, id)),
{
    if has_id(nodes, id) {
        let k = first_index(nodes, |n: NodeModel| n.id == id);
        lemma_first_index(nodes, |n: NodeModel| n.id == id);
        let r = with_removed(nodes, id);
        assert forall|i: int, j: int| 0 <= i < j < r.len() implies r[i].id < r[j].id by {
            if i < k && j >= k {
                assert(r[j] == nodes[j + 1]);
            } else if i >= k {
                assert(r[i] == nodes[i + 1]);
                assert(r[j] == nodes[j + 1]);
            }
        }
        assert forall|i: int| 0 <= i < r.len() implies r[i].id == ring_position(
            #[trigger] r[i].ip,
        ) by {
            if i >= k {
                assert(r[i] == nodes[i + 1]);
            }
        }
    }
}

/// The membership after registering endpoint `ip` `k` times in a row.
pub open spec fn added_times(nodes: Seq<NodeModel>, ip: Seq<char>, k: nat) -> Seq<NodeModel>
    decreases k,
{
    if k == 0 {
        nodes
    } else {
        with_added(added_times(nodes, ip, (k - 1) as nat), ip)
    }
}

/// Registering the same endpoint again changes nothing: any number `k >= 1`
/// of registrations leaves what the first left, at most one member more.
pub proof fn lemma_register_idempotent(nodes: Seq<NodeModel>, ip: Seq<char>, k: nat)
    requires
        k >= 1,
    ensures
        added_times(nodes, ip, k) == with_added(nodes, ip),
        with_added(nodes, ip).len() <= nodes.len() + 1,
        has_id(with_added(nodes, ip), ring_position(ip)),
    decreases k,
{
    let id = ring_position(ip);
    let once = with_added(nodes, ip);
    if !has_id(nodes, id) {
        let i = insertion_index(nodes, id);
        lemma_first_index(nodes, |n: NodeModel| n.id >= id);
        assert(once[i].id == id);
    }
    assert(has_id(once, id));
    assert(with_added(once, ip) == once);
    assert(added_times(nodes, ip, 0) == nodes);
    if k > 1 {
        lemma_register_idempotent(nodes, ip, (k - 1) as nat);
    }
}

/// Some healthy member sits at position `id`.
pub open spec fn healthy_at(nodes: Seq<NodeModel>, id: u32) -> bool {
    exists|i: int| 0 <= i < nodes.len() && nodes[i].healthy && nodes[i].id == id
}

/// On an ordered ring a client at `cid` is routed to the least healthy
/// position at or above `cid`, else to the least healthy position; to none
/// only when no member is healthy.
pub proof fn lemma_lookup_least(nodes: Seq<NodeModel>, cid: u32)
    requires
        ids_ascending(nodes),
    ensures
        match ring_lookup(nodes, cid) {
            Some(x) => healthy_at(nodes, x) && if x >= cid {
                forall|y: u32| healthy_at(nodes, y) && y >= cid ==> x <= y
            } else {
                forall|y: u32| healthy_at(nodes, y) ==> y < cid && x <= y
            },
            None => forall|y: u32| !healthy_at(nodes, y),
        },
{
    let serving = |n: NodeModel| n.healthy && n.id >= cid;
    let any_healthy = |n: NodeModel| n.healthy;
    lemma_first_index(nodes, serving);
    lemma_first_index(nodes, any_healthy);
    let k1 = first_index(nodes, serving);
    let k2 = first_index(nodes, any_healthy);
    if k1 < nodes.len() {
        let x = nodes[k1].id;
        assert(healthy_at(nodes, x));
        assert forall|y: u32| healthy_at(nodes, y) && y >= cid implies x <= y by {
            let i = choose|i: int| 0 <= i < nodes.len() && nodes[i].healthy && nodes[i].id == y;
            assert(serving(nodes[i]));
        }
    } else {
        assert forall|y: u32| healthy_at(nodes, y) implies y < cid by {
            let i = choose|i: int| 0 <= i < nodes.len() && nodes[i].healthy && nodes[i].id == y;
            assert(!serving(nodes[i]));
        }
        if k2 < nodes.len() {
            let x = nodes[k2].id;
            assert(healthy_at(nodes, x));
            assert forall|y: u32| healthy_at(nodes, y) implies x <= y by {
                let i = choose|i: int|
                    0 <= i < nodes.len() && nodes[i].healthy && nodes[i].id == y;
                assert(any_healthy(nodes[i]));
            }
        } else {
            assert forall|y: u32| !healthy_at(nodes, y) by {
                if healthy_at(nodes, y) {
                    let i = choose|i: int|
                        0 <= i < nodes.len() && nodes[i].healthy && nodes[i].id == y;
                    assert(!any_healthy(nodes[i]));
                }
            }
        }
    }
}

/// Lookups are sticky: two ordered rings with the same healthy positions
/// route every client to the same position.
pub proof fn lemma_lookup_sticky(a: Seq<NodeModel>, b: Seq<NodeModel>, cid: u32)
    requires
        ids_ascending(a),
        ids_ascending(b),
        forall|y: u32| healthy_at(a, y) <==> healthy_at(b, y),
    ensures
        ring_lookup(a, cid) == ring_lookup(b, cid),
{
    lemma_lookup_least(a, cid);
    lemma_lookup_least(b, cid);
    match (ring_lookup(a, cid), ring_lookup(b, cid)) {
        (Some(xa), Some(xb)) => {
            assert(healthy_at(b, xa));
            assert(healthy_at(a, xb));
        },
        (Some(xa), None) => {
            assert(healthy_at(b, xa));
        },
        (None, Some(xb)) => {
            assert(healthy_at(a, xb));
        },
        (None, None) => {},
    }
}

/// The membership of one namespace, ordered by ring position.
pub trait NodePool {
    /// The members, in ring order.
    spec fn members(&self) -> Seq<NodeModel>;

    /// The namespace served; no operation changes it.
    spec fn pool_namespace(&self) -> Seq<char>;

    /// Routes a client to a member by consistent hashing of its identifier.
    fn get(&self, client_ip_addr: String) -> (r: Result<String, ErrorResponse>)
        ensures
            lookup_outcome(self.members(), ring_position(client_ip_addr@), r),
    ;

    /// Registers an endpoint; registering one whose position is taken changes nothing.
    fn add_server(&mut self, ip_addr: String) -> (r: Result<u32, ErrorResponse>)
        ensures
            r == Ok::<u32, ErrorResponse>(ring_position(ip_addr@)),
            final(self).pool_namespace() == old(self).pool_namespace(),
            final(self).members() == with_added(old(self).members(), ip_addr@),
    ;

    /// Sets the health flag of the member at the endpoint's position.
    fn set_health_status(&mut self, ip_addr: String, is_healthy: bool) -> (r: Result<
        (),
        ErrorResponse,
    >)
        ensures
            final(self).pool_namespace() == old(self).pool_namespace(),
            health_outcome(old(self).members(), final(self).members(), ip_addr@, is_healthy, r),
    ;
}

} // verus!
