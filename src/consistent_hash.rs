//! The consistent-hash ring of one namespace.

use crate::data::{Node, NodeModel, NodeRecord, NodeRecordModel};
use crate::decimal::{decimal_of, decimal_string};
use crate::error::ErrorResponse;
use crate::hash::{ip_to_hash, ring_position};
use crate::pool::{
    NodePool, has_id, ids_ascending, lemma_added_keeps_order, lemma_first_index_at,
    lemma_health_keeps_order, lemma_removed_keeps_order, positions_match, with_added,
    with_health, with_removed,
};
use vstd::prelude::*;

verus! {

/// The members of one namespace, sorted strictly ascending by position.
pub struct Ring {
    namespace: String,
    nodes: Vec<Node>,
}

/// The mathematical value of a [`Ring`].
pub struct RingView {
    pub namespace: Seq<char>,
    pub nodes: Seq<NodeModel>,
}

impl View for Ring {
    type V = RingView;

    closed spec fn view(&self) -> RingView {
        RingView { namespace: self.namespace@, nodes: self.nodes@.map_values(|n: Node| n@) }
    }
}

impl Ring {
    /// Members strictly ascend by position, each at the position of its endpoint.
    #[verifier::type_invariant]
    pub open spec fn well_formed(&self) -> bool {
        ids_ascending(self@.nodes) && positions_match(self@.nodes)
    }

    /// The name of the namespace this ring serves.
    pub fn namespace(&self) -> (r: &String)
        ensures
            r@ == self@.namespace,
    {
        &self.namespace
    }

    /// The members in ring order, which strictly ascends by position.
    pub fn nodes(&self) -> (r: &Vec<Node>)
        ensures
            r@.map_values(|n: Node| n@) == self@.nodes,
            ids_ascending(self@.nodes),
            positions_match(self@.nodes),
    {
        proof {
            use_type_invariant(self);
        }
        &self.nodes
    }

    /// Number of members.
    pub fn len(&self) -> (r: usize)
        ensures
            r == self@.nodes.len(),
    {
        self.nodes.len()
    }
}

/// Builds the ring of `namespace` by registering each endpoint of `ip_list`
/// in turn; all members start healthy.
pub fn build(namespace: String, ip_list: Vec<String>) -> (r: Ring)
    ensures
        r@.namespace == namespace@,
        r@.nodes == with_all_added(Seq::empty(), ip_list@.map_values(|s: String| s@)),
        ids_ascending(r@.nodes),
        positions_match(r@.nodes),
{
    let mut res = Ring { namespace, nodes: Vec::new() };
    assert(res@.nodes =~= Seq::<NodeModel>::empty());
    let ghost ips = ip_list@.map_values(|s: String| s@);
    let mut i: usize = 0;
    while i < ip_list.len()
        invariant
            i <= ip_list.len(),
            ips == ip_list@.map_values(|s: String| s@),
            res@.namespace == namespace@,
            res@.nodes == with_all_added(Seq::empty(), ips.take(i as int)),
        decreases ip_list.len() - i,
    {
        let ip = ip_list[i].clone();
        let _ = res.add_server(ip);
        proof {
            assert(ips.take(i + 1).drop_last() =~= ips.take(i as int));
        }
        i += 1;
    }
    assert(ips.take(i as int) =~= ips);
    proof {
        use_type_invariant(&res);
    }
    res
}

/// How the members of a ring are reported: position in decimal, endpoint, namespace.
pub open spec fn ring_records(ring: RingView) -> Seq<NodeRecordModel> {
    ring.nodes.map_values(
        |n: NodeModel|
            NodeRecordModel { id: decimal_of(n.id as nat), ip_address: n.ip, namespace: ring.namespace },
    )
}

/// The membership after registering each endpoint of `ips` in turn.
pub open spec fn with_all_added(nodes: Seq<NodeModel>, ips: Seq<Seq<char>>) -> Seq<NodeModel>
    decreases ips.len(),
{
    if ips.len() == 0 {
        nodes
    } else {
        with_added(with_all_added(nodes, ips.drop_last()), ips.last())
    }
}

impl NodePool for Ring {
    open spec fn members(&self) -> Seq<NodeModel> {
        self@.nodes
    }

    open spec fn pool_namespace(&self) -> Seq<char> {
        self@.namespace
    }

    fn get(&self, client_ip_addr: String) -> (r: Result<String, ErrorResponse>) {
        proof {
            use_type_invariant(self);
        }
        let client_id = ip_to_hash(client_ip_addr.as_str());
        let n = self.nodes.len();
        if n == 0 {
            return Err(ErrorResponse::Internal(String::from_str("no service found in namespace")));
        }
        let ghost nodes = self@.nodes;
        let ghost serving = |m: NodeModel| m.healthy && m.id >= client_id;
        let ghost any_healthy = |m: NodeModel| m.healthy;
        let mut i: usize = 0;
        while i < n && !(self.nodes[i].healthy && self.nodes[i].id >= client_id)
            invariant
                i <= n,
                n == nodes.len(),
                nodes == self@.nodes,
                forall|j: int|
                    0 <= j < i ==> !((#[trigger] nodes[j]).healthy && nodes[j].id >= client_id),
            decreases n - i,
        {
            assert(nodes[i as int] == self.nodes@[i as int]@);
            i += 1;
        }
        proof {
            lemma_first_index_at(nodes, serving, i as int);
        }
        if i < n {
            return Ok(decimal_string(self.nodes[i].id));
        }
        // Wrap round: the first healthy member from the start of the ring.

        let mut w: usize = 0;
        while w < n && !self.nodes[w].healthy
            invariant
                w <= n,
                n == nodes.len(),
                nodes == self@.nodes,
                forall|j: int| 0 <= j < w ==> !(#[trigger] nodes[j]).healthy,
            decreases n - w,
        {
            assert(nodes[w as int] == self.nodes@[w as int]@);
            w += 1;
        }
        proof {
            lemma_first_index_at(nodes, any_healthy, w as int);
        }
        if w < n {
            Ok(decimal_string(self.nodes[w].id))
        } else {
            Err(ErrorResponse::Internal(String::from_str("no healthy service found in namespace")))
        }
    }

    fn add_server(&mut self, ip_addr: String) -> (r: Result<u32, ErrorResponse>) {
        proof {
            use_type_invariant(&*self);
        }
        let node_id = ip_to_hash(ip_addr.as_str());
        let ghost nodes = self@.nodes;
        let ghost p = |m: NodeModel| m.id >= node_id;
        let n = self.nodes.len();
        let mut i: usize = 0;
        while i < n && self.nodes[i].id < node_id
            invariant
                i <= n,
                n == nodes.len(),
                nodes == self@.nodes,
                forall|j: int| 0 <= j < i ==> (#[trigger] nodes[j]).id < node_id,
            decreases n - i,
        {
            assert(nodes[i as int] == self.nodes@[i as int]@);
            i += 1;
        }
        proof {
            if i < n {
                assert(nodes[i as int] == self.nodes@[i as int]@);
            }
            lemma_first_index_at(nodes, p, i as int);
            lemma_added_keeps_order(nodes, ip_addr@);
        }
        if i < n && self.nodes[i].id == node_id {
            assert(has_id(nodes, node_id));
            return Ok(node_id);
        }
        proof {
            assert forall|j: int| 0 <= j < nodes.len() implies nodes[j].id != node_id by {
                if j >= i {
                    assert(nodes[i as int].id <= nodes[j].id);
                }
            }
        }
        let mut members = Vec::new();
        std::mem::swap(&mut members, &mut self.nodes);
        members.insert(i, Node { id: node_id, ip: ip_addr, healthy: true });
        assert(members@.map_values(|m: Node| m@) =~= with_added(nodes, ip_addr@));
        self.nodes = members;
        Ok(node_id)
    }

    fn set_health_status(&mut self, ip_addr: String, is_healthy: bool) -> (r: Result<
        (),
        ErrorResponse,
    >) {
        proof {
            use_type_invariant(&*self);
        }
        let node_id = ip_to_hash(ip_addr.as_str());
        let ghost nodes = self@.nodes;
        let n = self.nodes.len();
        let mut i: usize = 0;
        while i < n && self.nodes[i].id != node_id
            invariant
                i <= n,
                n == nodes.len(),
                nodes == self@.nodes,
                forall|j: int| 0 <= j < i ==> (#[trigger] nodes[j]).id != node_id,
            decreases n - i,
        {
            assert(nodes[i as int] == self.nodes@[i as int]@);
            i += 1;
        }
        if i == n {
            return Err(
                ErrorResponse::BadRequest(String::from_str("can't find service inside the namespace")),
            );
        }
        proof {
            assert(nodes[i as int] == self.nodes@[i as int]@);
            assert(has_id(nodes, node_id));
            assert forall|j: int| 0 <= j < nodes.len() && j != i implies nodes[j].id != node_id by {
                if j < i {
                    assert(nodes[j].id < nodes[i as int].id);
                } else {
                    assert(nodes[i as int].id < nodes[j].id);
                }
            }
            lemma_health_keeps_order(nodes, node_id, is_healthy);
        }
        if self.nodes[i].healthy != is_healthy {
            let mut members = Vec::new();
            std::mem::swap(&mut members, &mut self.nodes);
            members[i].healthy = is_healthy;
            assert(members@.map_values(|m: Node| m@) =~= with_health(nodes, node_id, is_healthy));
            self.nodes = members;
        } else {
            assert(nodes =~= with_health(nodes, node_id, is_healthy));
        }
        Ok(())
    }
}

impl Ring {
    /// Removes the member at the endpoint's position; nothing happens when none sits there.
    pub fn remove_server(&mut self, ip_addr: String)
        ensures
            final(self)@.namespace == old(self)@.namespace,
            final(self)@.nodes == with_removed(old(self)@.nodes, ring_position(ip_addr@)),
    {
        proof {
            use_type_invariant(&*self);
        }
        let node_id = ip_to_hash(ip_addr.as_str());
        let ghost nodes = self@.nodes;
        let ghost p = |m: NodeModel| m.id == node_id;
        let n = self.nodes.len();
        let mut i: usize = 0;
        while i < n && self.nodes[i].id != node_id
            invariant
                i <= n,
                n == nodes.len(),
                nodes == self@.nodes,
                forall|j: int| 0 <= j < i ==> (#[trigger] nodes[j]).id != node_id,
            decreases n - i,
        {
            assert(nodes[i as int] == self.nodes@[i as int]@);
            i += 1;
        }
        proof {
            if i < n {
                assert(nodes[i as int] == self.nodes@[i as int]@);
                assert(has_id(nodes, node_id));
            }
            lemma_first_index_at(nodes, p, i as int);
            lemma_removed_keeps_order(nodes, node_id);
        }
        if i < n {
            let mut members = Vec::new();
            std::mem::swap(&mut members, &mut self.nodes);
            let _ = members.remove(i);
            assert(members@.map_values(|m: Node| m@) =~= nodes.remove(i as int));
            self.nodes = members;
        }
    }

    /// A copy of the members for reporting, each tagged with the namespace.
    pub fn repr(&self) -> (r: Vec<NodeRecord>)
        ensures
            r@.map_values(|x: NodeRecord| x@) == ring_records(self@),
    {
        let mut result: Vec<NodeRecord> = Vec::new();
        let n = self.nodes.len();
        let mut i: usize = 0;
        while i < n
            invariant
                i <= n,
                n == self@.nodes.len(),
                result@.len() == i,
                result@.map_values(|x: NodeRecord| x@) == ring_records(self@).take(i as int),
            decreases n - i,
        {
            let node = &self.nodes[i];
            assert(self@.nodes[i as int] == self.nodes@[i as int]@);
            result.push(
                NodeRecord {
                    id: decimal_string(node.id),
                    ip_address: node.ip.clone(),
                    namespace: self.namespace.clone(),
                },
            );
            assert(result@.map_values(|x: NodeRecord| x@) =~= ring_records(self@).take(
                i + 1,
            ));
            i += 1;
        }
        assert(ring_records(self@).take(i as int) =~= ring_records(self@));
        result
    }
}

} // verus!
