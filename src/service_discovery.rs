//! The discovery engine: registration, lookup, heartbeats and failure reports
//! over a catalogue of namespaces.

use crate::consistent_hash::{build, ring_records, with_all_added, Ring, RingView};
use crate::data::{NodeModel, NodeRecord, NodeRecordModel, UtilizationMetric};
use crate::error::ErrorResponse;
use crate::hash::ring_position;
use crate::pool::{
    NodePool, first_index, has_id, ids_ascending, lemma_added_keeps_order,
    lemma_first_index, lemma_health_keeps_order, lemma_removed_keeps_order, lookup_outcome,
    positions_match, with_added, with_health, with_removed,
};
use vstd::prelude::*;

verus! {

/// The index of the ring serving namespace `ns`, or the length when none does.
pub open spec fn ring_index(rings: Seq<RingView>, ns: Seq<char>) -> int
    decreases rings.len(),
{
    if rings.len() == 0 {
        0
    } else if rings[0].namespace == ns {
        0
    } else {
        1 + ring_index(rings.drop_first(), ns)
    }
}

/// `ring_index` is the first index serving `ns`.
pub proof fn lemma_ring_index(rings: Seq<RingView>, ns: Seq<char>)
    ensures
        0 <= ring_index(rings, ns) <= rings.len(),
        forall|j: int| 0 <= j < ring_index(rings, ns) ==> (#[trigger] rings[j]).namespace != ns,
        ring_index(rings, ns) < rings.len() ==> rings[ring_index(rings, ns)].namespace == ns,
    decreases rings.len(),
{
    if rings.len() > 0 && rings[0].namespace != ns {
        let rest = rings.drop_first();
        lemma_ring_index(rest, ns);
        assert forall|j: int| 0 <= j < ring_index(rings, ns) implies (
        #[trigger] rings[j]).namespace != ns by {
            if j > 0 {
                assert(rings[j] == rest[j - 1]);
            }
        }
    }
}

/// An index before which no ring serves `ns`, and at which one does or the
/// sequence ends, is `ring_index`.
pub proof fn lemma_ring_index_at(rings: Seq<RingView>, ns: Seq<char>, i: int)
    requires
        0 <= i <= rings.len(),
        forall|j: int| 0 <= j < i ==> (#[trigger] rings[j]).namespace != ns,
        i < rings.len() ==> rings[i].namespace == ns,
    ensures
        ring_index(rings, ns) == i,
    decreases i,
{
    if i > 0 {
        let rest = rings.drop_first();
        assert(rings[0].namespace != ns);
        assert forall|j: int| 0 <= j < i - 1 implies (#[trigger] rest[j]).namespace != ns by {
            assert(rest[j] == rings[j + 1]);
        }
        lemma_ring_index_at(rest, ns, i - 1);
    }
}

/// No two rings serve the same namespace.
pub open spec fn namespaces_unique(rings: Seq<RingView>) -> bool {
    forall|i: int, j: int|
        0 <= i < j < rings.len() ==> rings[i].namespace != rings[j].namespace
}

/// Some member at position `id` is marked unhealthy.
pub open spec fn unhealthy_at(nodes: Seq<NodeModel>, id: u32) -> bool {
    exists|i: int| 0 <= i < nodes.len() && !nodes[i].healthy && nodes[i].id == id
}

/// The companion of a ring holds exactly the positions of its unhealthy members.
pub open spec fn coupled(main: Seq<NodeModel>, companion: Seq<NodeModel>) -> bool {
    forall|id: u32| has_id(companion, id) <==> unhealthy_at(main, id)
}

/// An ordered ring: positions strictly ascend and match the endpoints.
pub open spec fn ordered(nodes: Seq<NodeModel>) -> bool {
    ids_ascending(nodes) && positions_match(nodes)
}

/// The catalogue's invariant: one ring per namespace, each with a companion for
/// the same namespace that holds exactly its unhealthy positions.
pub open spec fn catalogue_consistent(rings: Seq<RingView>, companions: Seq<RingView>) -> bool {
    &&& rings.len() == companions.len()
    &&& namespaces_unique(rings)
    &&& forall|i: int|
        0 <= i < rings.len() ==> {
            &&& (#[trigger] companions[i]).namespace == rings[i].namespace
            &&& ordered(rings[i].nodes)
            &&& ordered(companions[i].nodes)
            &&& coupled(rings[i].nodes, companions[i].nodes)
        }
}

/// The catalogue after adding the rings of `rings` in turn; a ring whose
/// namespace is already served takes the place of the earlier one.
pub open spec fn merged(rings: Seq<RingView>) -> Seq<RingView>
    decreases rings.len(),
{
    if rings.len() == 0 {
        Seq::empty()
    } else {
        let prev = merged(rings.drop_last());
        let i = ring_index(prev, rings.last().namespace);
        if i < prev.len() {
            prev.update(i, rings.last())
        } else {
            prev.push(rings.last())
        }
    }
}

/// The heartbeat report: the members of every companion, in catalogue order.
pub open spec fn report_of(companions: Seq<RingView>) -> Seq<NodeRecordModel>
    decreases companions.len(),
{
    if companions.len() == 0 {
        Seq::empty()
    } else {
        report_of(companions.drop_last()) + ring_records(companions.last())
    }
}

/// Registering adds the endpoint's position and no unhealthy member.
proof fn lemma_added_positions(nodes: Seq<NodeModel>, ip: Seq<char>)
    requires
        ordered(nodes),
    ensures
        forall|x: u32|
            has_id(#[trigger] with_added(nodes, ip), x) <==> has_id(nodes, x) || x == ring_position(
                ip,
            ),
        forall|x: u32| unhealthy_at(#[trigger] with_added(nodes, ip), x) <==> unhealthy_at(nodes, x),
{
    let id = ring_position(ip);
    let r = with_added(nodes, ip);
    if !has_id(nodes, id) {
        let k = first_index(nodes, |n: NodeModel| n.id >= id);
        lemma_first_index(nodes, |n: NodeModel| n.id >= id);
        assert(r[k].id == id);
        assert forall|x: u32| has_id(r, x) <==> has_id(nodes, x) || x == id by {
            if has_id(r, x) {
                let j = choose|j: int| 0 <= j < r.len() && r[j].id == x;
                if j < k {
                    assert(r[j] == nodes[j]);
                } else if j > k {
                    assert(r[j] == nodes[j - 1]);
                }
            }
            if has_id(nodes, x) {
                let j = choose|j: int| 0 <= j < nodes.len() && nodes[j].id == x;
                if j < k {
                    assert(r[j] == nodes[j]);
                } else {
                    assert(r[j + 1] == nodes[j]);
                }
            }
        }
        assert forall|x: u32| unhealthy_at(r, x) <==> unhealthy_at(nodes, x) by {
            if unhealthy_at(r, x) {
                let j = choose|j: int| 0 <= j < r.len() && !r[j].healthy && r[j].id == x;
                if j < k {
                    assert(r[j] == nodes[j]);
                } else if j > k {
                    assert(r[j] == nodes[j - 1]);
                }
            }
            if unhealthy_at(nodes, x) {
                let j = choose|j: int| 0 <= j < nodes.len() && !nodes[j].healthy && nodes[j].id == x;
                if j < k {
                    assert(r[j] == nodes[j]);
                } else {
                    assert(r[j + 1] == nodes[j]);
                }
            }
        }
    }
}

/// Setting the health of the member at `id` changes whether `id` is
/// unhealthy, and nothing else.
proof fn lemma_health_positions(nodes: Seq<NodeModel>, id: u32, healthy: bool)
    requires
        ordered(nodes),
    ensures
        forall|x: u32|
            has_id(#[trigger] with_health(nodes, id, healthy), x) <==> has_id(nodes, x),
        forall|x: u32|
            unhealthy_at(#[trigger] with_health(nodes, id, healthy), x) <==> if x == id {
                !healthy && has_id(nodes, id)
            } else {
                unhealthy_at(nodes, x)
            },
{
    let r = with_health(nodes, id, healthy);
    lemma_health_keeps_order(nodes, id, healthy);
    assert forall|x: u32| has_id(r, x) <==> has_id(nodes, x) by {
        if has_id(r, x) {
            let j = choose|j: int| 0 <= j < r.len() && r[j].id == x;
            assert(nodes[j].id == x);
        }
        if has_id(nodes, x) {
            let j = choose|j: int| 0 <= j < nodes.len() && nodes[j].id == x;
            assert(r[j].id == x);
        }
    }
    assert forall|x: u32|
        unhealthy_at(r, x) <==> if x == id {
            !healthy && has_id(nodes, id)
        } else {
            unhealthy_at(nodes, x)
        } by {
        if unhealthy_at(r, x) {
            let j = choose|j: int| 0 <= j < r.len() && !r[j].healthy && r[j].id == x;
            assert(nodes[j].id == x);
        }
        if x == id && !healthy && has_id(nodes, id) {
            let j = choose|j: int| 0 <= j < nodes.len() && nodes[j].id == id;
            assert(!r[j].healthy && r[j].id == x);
        }
        if x != id && unhealthy_at(nodes, x) {
            let j = choose|j: int| 0 <= j < nodes.len() && !nodes[j].healthy && nodes[j].id == x;
            assert(!r[j].healthy && r[j].id == x);
        }
    }
}

/// Removing the member at `id` removes that position and no other.
proof fn lemma_removed_positions(nodes: Seq<NodeModel>, id: u32)
    requires
        ordered(nodes),
    ensures
        forall|x: u32|
            has_id(#[trigger] with_removed(nodes, id), x) <==> has_id(nodes, x) && x != id,
{
    let r = with_removed(nodes, id);
    if has_id(nodes, id) {
        let k = first_index(nodes, |n: NodeModel| n.id == id);
        lemma_first_index(nodes, |n: NodeModel| n.id == id);
        assert forall|x: u32| has_id(r, x) <==> has_id(nodes, x) && x != id by {
            if has_id(r, x) {
                let j = choose|j: int| 0 <= j < r.len() && r[j].id == x;
                if j < k {
                    assert(r[j] == nodes[j]);
                    assert(nodes[j].id < nodes[k].id);
                } else {
                    assert(r[j] == nodes[j + 1]);
                    assert(nodes[k].id < nodes[j + 1].id);
                }
            }
            if has_id(nodes, x) && x != id {
                let j = choose|j: int| 0 <= j < nodes.len() && nodes[j].id == x;
                if j < k {
                    assert(r[j] == nodes[j]);
                } else {
                    assert(j != k);
                    assert(r[j - 1] == nodes[j]);
                }
            }
        }
    }
}

/// Replacing one ring and its companion by an ordered, coupled pair for the
/// same namespace keeps the catalogue consistent.
proof fn lemma_replace_keeps_consistent(
    rings: Seq<RingView>,
    companions: Seq<RingView>,
    i: int,
    ring: RingView,
    companion: RingView,
)
    requires
        catalogue_consistent(rings, companions),
        0 <= i < rings.len(),
        ring.namespace == rings[i].namespace,
        companion.namespace == ring.namespace,
        ordered(ring.nodes),
        ordered(companion.nodes),
        coupled(ring.nodes, companion.nodes),
    ensures
        catalogue_consistent(rings.update(i, ring), companions.update(i, companion)),
{
    let r = rings.update(i, ring);
    let c = companions.update(i, companion);
    assert forall|a: int, b: int| 0 <= a < b < r.len() implies r[a].namespace != r[b].namespace by {
        assert(r[a].namespace == rings[a].namespace && r[b].namespace == rings[b].namespace);
    }
    assert forall|x: int| 0 <= x < r.len() implies {
        &&& (#[trigger] c[x]).namespace == r[x].namespace
        &&& ordered(r[x].nodes)
        &&& ordered(c[x].nodes)
        &&& coupled(r[x].nodes, c[x].nodes)
    } by {
        if x != i {
            assert(r[x] == rings[x] && c[x] == companions[x]);
        }
    }
}

/// The registry: for each namespace a ring of all known members, and a
/// companion ring of those currently unhealthy.
pub struct ServiceDiscovery {
    service_map: Vec<Ring>,
    unhealthy_services: Vec<Ring>,
}

impl ServiceDiscovery {
    /// The rings, one per namespace.
    pub closed spec fn rings(&self) -> Seq<RingView> {
        self.service_map@.map_values(|r: Ring| r@)
    }

    /// The companion rings, at the same indices as their rings.
    pub closed spec fn companions(&self) -> Seq<RingView> {
        self.unhealthy_services@.map_values(|r: Ring| r@)
    }

    pub open spec fn well_formed(&self) -> bool {
        catalogue_consistent(self.rings(), self.companions())
    }
}

impl ServiceDiscovery {
    /// The catalogue of `service_map`, each ring with a companion holding its
    /// unhealthy members. A ring whose namespace came earlier takes its place.
    pub fn new(service_map: Vec<Ring>) -> (s: Self)
        ensures
            s.well_formed(),
            s.rings() == merged(service_map@.map_values(|r: Ring| r@)),
    {
        let ghost input = service_map@.map_values(|r: Ring| r@);
        let mut res = ServiceDiscovery { service_map: Vec::new(), unhealthy_services: Vec::new() };
        assert(res.rings() =~= merged(input.take(0)));
        assert(res.companions() =~= Seq::<RingView>::empty());
        for ring in it: service_map.into_iter()
            invariant
                input == service_map@.map_values(|r: Ring| r@),
                it.seq() == service_map@,
                res.well_formed(),
                res.rings() == merged(input.take(it.index() as int)),
        {
            let ghost k = it.index() as int;
            let ghost prev = res.rings();
            proof {
                use_type_invariant(&ring);
            }
            let companion = companion_of(&ring);
            let i = res.find_ring(ring.namespace());
            proof {
                lemma_ring_index(prev, ring@.namespace);
                assert(input.take(k + 1).drop_last() =~= input.take(k));
                assert(input.take(k + 1).last() == ring@);
            }
            let ghost prev_comps = res.companions();
            let ghost added = ring@;
            let ghost added_comp = companion@;
            if i < res.service_map.len() {
                res.service_map.set(i, ring);
                res.unhealthy_services.set(i, companion);
                assert(res.rings() =~= prev.update(i as int, added));
                assert(res.companions() =~= prev_comps.update(i as int, added_comp));
            } else {
                res.service_map.push(ring);
                res.unhealthy_services.push(companion);
                assert(res.rings() =~= prev.push(added));
                assert(res.companions() =~= prev_comps.push(added_comp));
            }
            proof {
                let rings = res.rings();
                let comps = res.companions();
                assert forall|a: int, b: int|
                    0 <= a < b < rings.len() implies rings[a].namespace != rings[b].namespace by {
                    if a != i && b != i {
                        assert(rings[a] == prev[a] && rings[b] == prev[b]);
                    }
                }
                assert forall|x: int| 0 <= x < rings.len() implies {
                    &&& (#[trigger] comps[x]).namespace == rings[x].namespace
                    &&& ordered(rings[x].nodes)
                    &&& ordered(comps[x].nodes)
                    &&& coupled(rings[x].nodes, comps[x].nodes)
                } by {
                    if x != i {
                        assert(rings[x] == prev[x] && comps[x] == prev_comps[x]);
                    }
                }
            }
            assert(res.rings() =~= merged(input.take(k + 1)));
        }
        assert(input.take(input.len() as int) =~= input);
        res
    }

    /// The index of the ring serving `namespace`, or the number of rings.
    fn find_ring(&self, namespace: &String) -> (r: usize)
        ensures
            r == ring_index(self.rings(), namespace@),
            r <= self.service_map@.len(),
            self.rings().len() == self.service_map@.len(),
            self.companions().len() == self.unhealthy_services@.len(),
    {
        let n = self.service_map.len();
        let mut i: usize = 0;
        while i < n && !self.service_map[i].namespace().eq(namespace)
            invariant
                i <= n,
                n == self.rings().len(),
                forall|j: int| 0 <= j < i ==> (#[trigger] self.rings()[j]).namespace != namespace@,
            decreases n - i,
        {
            assert(self.rings()[i as int] == self.service_map@[i as int]@);
            i += 1;
        }
        proof {
            if i < n {
                assert(self.rings()[i as int] == self.service_map@[i as int]@);
            }
            lemma_ring_index_at(self.rings(), namespace@, i as int);
        }
        i
    }

    /// The unhealthy members of every namespace, in catalogue order.
    fn unhealthy_report(&self) -> (r: Vec<NodeRecord>)
        ensures
            r@.map_values(|x: NodeRecord| x@) == report_of(self.companions()),
    {
        let ghost comps = self.companions();
        let mut out: Vec<NodeRecord> = Vec::new();
        assert(out@.map_values(|x: NodeRecord| x@) =~= report_of(comps.take(0)));
        let n = self.unhealthy_services.len();
        let mut k: usize = 0;
        while k < n
            invariant
                k <= n,
                n == comps.len(),
                comps == self.companions(),
                out@.map_values(|x: NodeRecord| x@) == report_of(comps.take(k as int)),
            decreases n - k,
        {
            let mut part = self.unhealthy_services[k].repr();
            let ghost before = out@;
            out.append(&mut part);
            proof {
                assert(comps.take(k + 1).drop_last() =~= comps.take(k as int));
                assert(comps.take(k + 1).last() == self.unhealthy_services@[k as int]@);
                assert(out@.map_values(|x: NodeRecord| x@) =~= before.map_values(
                    |x: NodeRecord| x@,
                ) + ring_records(comps[k as int]));
            }
            k += 1;
        }
        assert(comps.take(n as int) =~= comps);
        out
    }
}

impl ServiceDiscovery {
    /// Registers endpoint `ip_address` in `namespace`, returning its position.
    /// An unknown namespace is a bad request.
    pub fn register_node(&mut self, namespace: String, ip_address: String) -> (r: Result<
        u32,
        ErrorResponse,
    >)
        requires
            old(self).well_formed(),
        ensures
            final(self).well_formed(),
            final(self).companions() == old(self).companions(),
            ({
                let i = ring_index(old(self).rings(), namespace@);
                if i < old(self).rings().len() {
                    &&& r == Ok::<u32, ErrorResponse>(ring_position(ip_address@))
                    &&& final(self).rings() == old(self).rings().update(
                        i,
                        RingView {
                            namespace: namespace@,
                            nodes: with_added(old(self).rings()[i].nodes, ip_address@),
                        },
                    )
                } else {
                    &&& r matches Err(e) && e.is_bad_request_with("namespace not found"@)
                    &&& final(self).rings() == old(self).rings()
                }
            }),
    {
        let i = self.find_ring(&namespace);
        if i == self.service_map.len() {
            return Err(ErrorResponse::BadRequest(String::from_str("namespace not found")));
        }
        let ghost rings = self.rings();
        let ghost comps = self.companions();
        let ghost nodes = rings[i as int].nodes;
        let ghost ip = ip_address@;
        proof {
            lemma_ring_index(rings, namespace@);
            assert(comps[i as int].namespace == rings[i as int].namespace);
            lemma_added_keeps_order(nodes, ip);
            lemma_added_positions(nodes, ip);
            assert(rings[i as int] == self.service_map@[i as int]@);
        }
        let r = self.service_map[i].add_server(ip_address);
        proof {
            let updated = RingView { namespace: namespace@, nodes: with_added(nodes, ip) };
            assert(self.rings() =~= rings.update(i as int, updated));
            assert(comps.update(i as int, comps[i as int]) =~= comps);
            lemma_replace_keeps_consistent(rings, comps, i as int, updated, comps[i as int]);
        }
        r
    }

    /// Routes client `client_ip_address` to a member of `namespace` by
    /// consistent hashing; the answer is the member's position in decimal.
    pub fn service_lookup(&self, namespace: String, client_ip_address: String) -> (r: Result<
        String,
        ErrorResponse,
    >)
        ensures
            ({
                let i = ring_index(self.rings(), namespace@);
                if i < self.rings().len() {
                    lookup_outcome(self.rings()[i].nodes, ring_position(client_ip_address@), r)
                } else {
                    r matches Err(e) && e.is_bad_request_with("namespace not found"@)
                }
            }),
    {
        let i = self.find_ring(&namespace);
        if i == self.service_map.len() {
            return Err(ErrorResponse::BadRequest(String::from_str("namespace not found")));
        }
        assert(self.rings()[i as int] == self.service_map@[i as int]@);
        self.service_map[i].get(client_ip_address)
    }

    /// Marks endpoint `ip_address` of `namespace` unhealthy and records it in
    /// the namespace's companion. A report on an unknown namespace is ignored;
    /// one on an endpoint that is not a member is a bad request.
    pub fn mark_node_unhealthy(&mut self, namespace: String, ip_address: String) -> (r: Result<
        (),
        ErrorResponse,
    >)
        requires
            old(self).well_formed(),
        ensures
            final(self).well_formed(),
            ({
                let i = ring_index(old(self).rings(), namespace@);
                let pos = ring_position(ip_address@);
                if i < old(self).rings().len() && has_id(old(self).rings()[i].nodes, pos) {
                    &&& r is Ok
                    &&& final(self).rings() == old(self).rings().update(
                        i,
                        RingView {
                            namespace: namespace@,
                            nodes: with_health(old(self).rings()[i].nodes, pos, false),
                        },
                    )
                    &&& final(self).companions() == old(self).companions().update(
                        i,
                        RingView {
                            namespace: namespace@,
                            nodes: with_added(old(self).companions()[i].nodes, ip_address@),
                        },
                    )
                } else {
                    &&& if i < old(self).rings().len() {
                        r matches Err(e) && e.is_bad_request_with(
                            "can't find service inside the namespace"@,
                        )
                    } else {
                        r is Ok
                    }
                    &&& final(self).rings() == old(self).rings()
                    &&& final(self).companions() == old(self).companions()
                }
            }),
    {
        let i = self.find_ring(&namespace);
        if i == self.service_map.len() {
            return Ok(());
        }
        let ghost rings = self.rings();
        let ghost comps = self.companions();
        let ghost nodes = rings[i as int].nodes;
        let ghost comp = comps[i as int].nodes;
        let ghost ip = ip_address@;
        let ghost pos = ring_position(ip);
        proof {
            lemma_ring_index(rings, namespace@);
            lemma_health_keeps_order(nodes, pos, false);
            lemma_health_positions(nodes, pos, false);
            lemma_added_keeps_order(comp, ip);
            lemma_added_positions(comp, ip);
            assert(rings[i as int] == self.service_map@[i as int]@);
            assert(comps[i as int] == self.unhealthy_services@[i as int]@);
        }
        match self.service_map[i].set_health_status(ip_address.clone(), false) {
            Ok(_) => {},
            Err(e) => {
                assert(self.rings() =~= rings);
                return Err(e);
            },
        }
        let _ = self.unhealthy_services[i].add_server(ip_address);
        proof {
            let ring = RingView { namespace: namespace@, nodes: with_health(nodes, pos, false) };
            let companion = RingView { namespace: namespace@, nodes: with_added(comp, ip) };
            assert(self.rings() =~= rings.update(i as int, ring));
            assert(self.companions() =~= comps.update(i as int, companion));
            lemma_replace_keeps_consistent(rings, comps, i as int, ring, companion);
        }
        Ok(())
    }

    /// Applies a heartbeat: endpoint `ip_address` of `namespace` becomes
    /// healthy exactly when `metric` is within the limits, and its companion
    /// follows. Answers the unhealthy members of every namespace, also when
    /// `namespace` is unknown; an endpoint that is not a member is a bad request.
    pub fn node_heartbeat(
        &mut self,
        namespace: String,
        ip_address: String,
        metric: UtilizationMetric,
    ) -> (r: Result<Vec<NodeRecord>, ErrorResponse>)
        requires
            old(self).well_formed(),
        ensures
            final(self).well_formed(),
            ({
                let i = ring_index(old(self).rings(), namespace@);
                let pos = ring_position(ip_address@);
                let healthy = metric.within_limits();
                if i < old(self).rings().len() && !has_id(old(self).rings()[i].nodes, pos) {
                    &&& r matches Err(e) && e.is_bad_request_with(
                        "can't find service inside the namespace"@,
                    )
                    &&& final(self).rings() == old(self).rings()
                    &&& final(self).companions() == old(self).companions()
                } else {
                    &&& if i < old(self).rings().len() {
                        &&& final(self).rings() == old(self).rings().update(
                            i,
                            RingView {
                                namespace: namespace@,
                                nodes: with_health(old(self).rings()[i].nodes, pos, healthy),
                            },
                        )
                        &&& final(self).companions() == old(self).companions().update(
                            i,
                            RingView {
                                namespace: namespace@,
                                nodes: if healthy {
                                    with_removed(old(self).companions()[i].nodes, pos)
                                } else {
                                    with_added(old(self).companions()[i].nodes, ip_address@)
                                },
                            },
                        )
                    } else {
                        &&& final(self).rings() == old(self).rings()
                        &&& final(self).companions() == old(self).companions()
                    }
                    &&& r matches Ok(v) && v@.map_values(|x: NodeRecord| x@) == report_of(
                        final(self).companions(),
                    )
                }
            }),
    {
        let is_healthy = metric.is_healthy();
        let i = self.find_ring(&namespace);
        if i < self.service_map.len() {
            let ghost rings = self.rings();
            let ghost comps = self.companions();
            let ghost nodes = rings[i as int].nodes;
            let ghost comp = comps[i as int].nodes;
            let ghost ip = ip_address@;
            let ghost pos = ring_position(ip);
            proof {
                lemma_ring_index(rings, namespace@);
                lemma_health_keeps_order(nodes, pos, is_healthy);
                lemma_health_positions(nodes, pos, is_healthy);
                lemma_added_keeps_order(comp, ip);
                lemma_added_positions(comp, ip);
                lemma_removed_keeps_order(comp, pos);
                lemma_removed_positions(comp, pos);
                assert(rings[i as int] == self.service_map@[i as int]@);
                assert(comps[i as int] == self.unhealthy_services@[i as int]@);
            }
            match self.service_map[i].set_health_status(ip_address.clone(), is_healthy) {
                Ok(_) => {},
                Err(e) => {
                    assert(self.rings() =~= rings);
                    return Err(e);
                },
            }
            if is_healthy {
                self.unhealthy_services[i].remove_server(ip_address);
            } else {
                let _ = self.unhealthy_services[i].add_server(ip_address);
            }
            proof {
                let ring = RingView {
                    namespace: namespace@,
                    nodes: with_health(nodes, pos, is_healthy),
                };
                let companion = RingView {
                    namespace: namespace@,
                    nodes: if is_healthy {
                        with_removed(comp, pos)
                    } else {
                        with_added(comp, ip)
                    },
                };
                assert(self.rings() =~= rings.update(i as int, ring));
                assert(self.companions() =~= comps.update(i as int, companion));
                lemma_replace_keeps_consistent(rings, comps, i as int, ring, companion);
            }
        }
        Ok(self.unhealthy_report())
    }
}

/// The catalogue coupling: in a well-formed registry (every registry that the
/// operations above produce), a member of a namespace is unhealthy exactly when
/// the namespace's companion holds its position.
pub proof fn lemma_unhealthy_mirrored(registry: ServiceDiscovery, i: int, id: u32)
    requires
        registry.well_formed(),
        0 <= i < registry.rings().len(),
    ensures
        registry.companions()[i].namespace == registry.rings()[i].namespace,
        unhealthy_at(registry.rings()[i].nodes, id) <==> has_id(
            registry.companions()[i].nodes,
            id,
        ),
{
    assert(registry.companions()[i].namespace == registry.rings()[i].namespace);
}

/// The bootstrap catalogue: for each namespace, the endpoints it starts with.
pub struct ServiceDefinition {
    pub services: Vec<(String, Vec<String>)>,
}

/// The ring that a namespace of the bootstrap catalogue starts with.
pub open spec fn initial_ring(entry: (String, Vec<String>)) -> RingView {
    RingView {
        namespace: entry.0@,
        nodes: with_all_added(Seq::empty(), entry.1@.map_values(|s: String| s@)),
    }
}

impl ServiceDiscovery {
    /// Builds the registry from the bootstrap catalogue: each namespace's
    /// endpoints registered in turn, every companion empty.
    pub fn from_definition(definition: ServiceDefinition) -> (s: Self)
        ensures
            s.well_formed(),
            s.rings() == merged(definition.services@.map_values(|e: (String, Vec<String>)| initial_ring(e))),
    {
        let ghost entries = definition.services@;
        let mut rings: Vec<Ring> = Vec::new();
        for entry in it: definition.services.into_iter()
            invariant
                it.seq() == entries,
                rings@.len() == it.index(),
                rings@.map_values(|r: Ring| r@) == entries.take(it.index() as int).map_values(
                    |e: (String, Vec<String>)| initial_ring(e),
                ),
        {
            let ghost k = it.index() as int;
            assert(entry == entries[k]);
            let (name, ips) = entry;
            let ring = build(name, ips);
            assert(ring@ == initial_ring(entries[k]));
            let ghost before = rings@;
            rings.push(ring);
            assert forall|j: int| 0 <= j < k implies #[trigger] rings@[j]@ == initial_ring(
                entries[j],
            ) by {
                assert(rings@[j] == before[j]);
                assert(before.map_values(|r: Ring| r@)[j] == entries.take(k).map_values(
                    |e: (String, Vec<String>)| initial_ring(e),
                )[j]);
            }
            assert(rings@.map_values(|r: Ring| r@) =~= entries.take(k + 1).map_values(
                |e: (String, Vec<String>)| initial_ring(e),
            ));
        }
        assert(entries.take(entries.len() as int) =~= entries);
        ServiceDiscovery::new(rings)
    }
}

impl ServiceDiscovery {
    /// The ring serving `namespace`, if any.
    pub fn ring(&self, namespace: &String) -> (r: Option<&Ring>)
        ensures
            ({
                let i = ring_index(self.rings(), namespace@);
                match r {
                    Some(ring) => i < self.rings().len() && ring@ == self.rings()[i],
                    None => i == self.rings().len(),
                }
            }),
    {
        let i = self.find_ring(namespace);
        if i < self.service_map.len() {
            Some(&self.service_map[i])
        } else {
            None
        }
    }

    /// The companion ring of unhealthy members of `namespace`, if any.
    pub fn unhealthy_ring(&self, namespace: &String) -> (r: Option<&Ring>)
        requires
            self.well_formed(),
        ensures
            ({
                let i = ring_index(self.rings(), namespace@);
                match r {
                    Some(ring) => i < self.rings().len() && ring@ == self.companions()[i],
                    None => i == self.rings().len(),
                }
            }),
    {
        let i = self.find_ring(namespace);
        if i < self.unhealthy_services.len() {
            Some(&self.unhealthy_services[i])
        } else {
            None
        }
    }
}

/// A companion for `ring`: same namespace, holding exactly its unhealthy positions.
fn companion_of(ring: &Ring) -> (c: Ring)
    ensures
        c@.namespace == ring@.namespace,
        coupled(ring@.nodes, c@.nodes),
        ordered(c@.nodes),
{
    let nodes = ring.nodes();
    let ghost model = ring@.nodes;
    let no_endpoints: Vec<String> = Vec::new();
    assert(no_endpoints@.map_values(|s: String| s@) =~= Seq::<Seq<char>>::empty());
    let mut c = build(ring.namespace().clone(), no_endpoints);
    proof {
        use_type_invariant(&c);
    }
    let n = nodes.len();
    let mut k: usize = 0;
    while k < n
        invariant
            k <= n,
            n == model.len(),
            nodes@.map_values(|m: crate::data::Node| m@) == model,
            ordered(model),
            c@.namespace == ring@.namespace,
            ordered(c@.nodes),
            forall|x: u32|
                has_id(c@.nodes, x) <==> exists|j: int|
                    0 <= j < k && !model[j].healthy && #[trigger] model[j].id == x,
        decreases n - k,
    {
        assert(model[k as int] == nodes@[k as int]@);
        let ghost before = c@.nodes;
        let ghost member = model[k as int];
        proof {
            lemma_added_positions(before, member.ip);
            lemma_added_keeps_order(before, member.ip);
        }
        if !nodes[k].healthy {
            let _ = c.add_server(nodes[k].ip.clone());
        }
        proof {
            assert(member.id == ring_position(member.ip));
            assert forall|x: u32|
                has_id(c@.nodes, x) <==> exists|j: int|
                    0 <= j < k + 1 && !model[j].healthy && #[trigger] model[j].id == x by {
                if has_id(c@.nodes, x) {
                    if !has_id(before, x) {
                        assert(!member.healthy && model[k as int].id == x);
                    }
                }
                if exists|j: int| 0 <= j < k + 1 && !model[j].healthy && #[trigger] model[j].id == x {
                    let j = choose|j: int|
                        0 <= j < k + 1 && !model[j].healthy && #[trigger] model[j].id == x;
                    if j < k {
                        assert(has_id(before, x));
                    }
                }
            }
        }
        k += 1;
    }
    proof {
        assert forall|x: u32| has_id(c@.nodes, x) <==> unhealthy_at(model, x) by {
            if unhealthy_at(model, x) {
                let j = choose|j: int| 0 <= j < model.len() && !model[j].healthy && model[j].id == x;
                assert(!model[j].healthy && model[j].id == x);
            }
        }
    }
    c
}

} // verus!
