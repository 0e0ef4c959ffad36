use vstd::prelude::*;
use crate::gtfs::Stop;
use crate::gtfs::Trip;
use crate::gtfs::Route;
use crate::gtfs::Service;
use crate::gtfs::PlanarPoint;
use crate::gtfs::find_trip_index;
use crate::gtfs::find_service_index;
use crate::geo_utils::get_pedestrian_connections;
use crate::geo_utils::manhattan;
use crate::stop_groups::StopGroup;
use crate::stop_groups::create_stop_groups;
use crate::stop_groups::stop_groups_ok;
use std::collections::HashMap;
use vstd::string::StringExecFns;
use crate::sorting::pair_lt;
use crate::sorting::sorted_unique;
use crate::sorting::strictly_sorted;

verus! {

/// Where a node of the graph is: waiting at a stop (by index), or aboard a trip (by trip
/// index and the index of the trip's service).
#[derive(Clone, Copy, Debug, PartialEq, Eq, Structural)]
pub enum Location {
    Stop(usize),
    Trip(usize, usize),
}

/// A vertex of the time-expanded graph: a place at a time, with its out-edges.
pub struct Node {
    pub location: Location,
    pub node_id: usize,
    pub time: u32,
    pub edges: Vec<usize>,
}

impl Node {
    pub fn new(location: Location, node_id: usize, time: u32) -> (r: Node)
        ensures
            r.location == location,
            r.node_id == node_id,
            r.time == time,
            r.edges@ == Seq::<usize>::empty(),
    {
        Node { location, node_id, time, edges: Vec::new() }
    }

    pub fn get_time(&self) -> (r: u32)
        ensures
            r == self.time,
    {
        self.time
    }

    pub fn get_edges(&self) -> (r: &Vec<usize>)
        ensures
            r@ == self.edges@,
    {
        &self.edges
    }

    pub fn add_edge(&mut self, node: usize)
        ensures
            final(self).edges@ == old(self).edges@.push(node),
            final(self).location == old(self).location,
            final(self).node_id == old(self).node_id,
            final(self).time == old(self).time,
    {
        self.edges.push(node);
    }

    pub fn get_location(&self) -> (r: &Location)
        ensures
            *r == self.location,
    {
        &self.location
    }

    /// A copy of the node, out-edges included.
    pub fn duplicate(&self) -> (r: Node)
        ensures
            r.location == self.location,
            r.node_id == self.node_id,
            r.time == self.time,
            r.edges@ == self.edges@,
    {
        Node {
            location: self.location,
            node_id: self.node_id,
            time: self.time,
            edges: self.edges.clone(),
        }
    }
}

/// `v` is among the out-edges of node `u`.
pub open spec fn has_edge(nodes: Seq<Node>, u: int, v: int) -> bool {
    0 <= u < nodes.len() && nodes[u].edges@.contains(v as usize)
}

/// Every out-edge of every node leads to a node no earlier than itself.
pub open spec fn edges_monotone(nodes: Seq<Node>) -> bool {
    forall|u: int, k: int|
        0 <= u < nodes.len() && 0 <= k < nodes[u].edges@.len() ==> nodes[u].time <= nodes[(
        #[trigger] nodes[u].edges@[k]) as int].time
}

/// Sum of the numbers of stop times of the first `n` trips.
pub open spec fn stop_time_count(trips: Seq<Trip>, n: int) -> int
    decreases n,
{
    if n <= 0 {
        0
    } else {
        stop_time_count(trips, n - 1) + trips[n - 1].stop_times@.len()
    }
}

/// The nodes of stop time `i` of trip `t` start at `first + 3 * i`: the node aboard the trip at
/// departure, the departure node at the stop, and the arrival node at the stop, `tau` seconds
/// after arrival. The node aboard leads to the arrival node and then to the next node aboard.
pub open spec fn trip_block_ok(
    nodes: Seq<Node>,
    stops: Seq<Stop>,
    trip: Trip,
    t: int,
    service: int,
    first: int,
    tau: int,
) -> bool {
    let n = trip.stop_times@.len();
    &&& 0 <= first
    &&& first + 3 * n <= nodes.len()
    &&& forall|i: int|
        0 <= i < n ==> {
            let st = #[trigger] trip.stop_times@[i];
            let b = first + 3 * i;
            &&& nodes[b].location == Location::Trip(t as usize, service as usize)
            &&& nodes[b].time == st.departure_time
            &&& nodes[b].edges@ == (if i + 1 < n {
                seq![(b + 2) as usize, (b + 3) as usize]
            } else {
                seq![(b + 2) as usize]
            })
            &&& nodes[b + 1].location is Stop
            &&& nodes[b + 1].location->Stop_0 < stops.len()
            &&& stops[nodes[b + 1].location->Stop_0 as int].stop_id@ == st.stop_id@
            &&& nodes[b + 1].time == st.departure_time
            &&& nodes[b + 1].edges@.len() >= 1
            &&& nodes[b + 1].edges@[0] == b as usize
            &&& nodes[b + 2].location == nodes[b + 1].location
            &&& nodes[b + 2].time == st.arrival_time + tau
        }
}

/// Conditions of `trip_block_ok` for the first `m` stop times of the trip.
pub open spec fn trip_block_upto(
    nodes: Seq<Node>,
    stops: Seq<Stop>,
    trip: Trip,
    t: int,
    service: int,
    first: int,
    tau: int,
    m: int,
) -> bool {
    let n = trip.stop_times@.len();
    &&& 0 <= first
    &&& 0 <= m <= n
    &&& first + 3 * m <= nodes.len()
    &&& forall|i: int|
        0 <= i < m ==> {
            let st = #[trigger] trip.stop_times@[i];
            let b = first + 3 * i;
            &&& nodes[b].location == Location::Trip(t as usize, service as usize)
            &&& nodes[b].time == st.departure_time
            &&& nodes[b].edges@ == (if i + 1 < n {
                seq![(b + 2) as usize, (b + 3) as usize]
            } else {
                seq![(b + 2) as usize]
            })
            &&& nodes[b + 1].location is Stop
            &&& nodes[b + 1].location->Stop_0 < stops.len()
            &&& stops[nodes[b + 1].location->Stop_0 as int].stop_id@ == st.stop_id@
            &&& nodes[b + 1].time == st.departure_time
            &&& nodes[b + 1].edges@.len() >= 1
            &&& nodes[b + 1].edges@[0] == b as usize
            &&& nodes[b + 2].location == nodes[b + 1].location
            &&& nodes[b + 2].time == st.arrival_time + tau
        }
}

/// Position of the first node of trip `t`: three nodes for each stop time of the trips before.
pub open spec fn block_start(trips: Seq<Trip>, t: int) -> int {
    3 * stop_time_count(trips, t)
}

proof fn lemma_stop_time_count_mono(trips: Seq<Trip>, a: int, b: int)
    requires
        0 <= a <= b <= trips.len(),
    ensures
        stop_time_count(trips, a) <= stop_time_count(trips, b),
        0 <= stop_time_count(trips, a),
    decreases b,
{
    if a < b {
        lemma_stop_time_count_mono(trips, a, b - 1);
    } else if a > 0 {
        lemma_stop_time_count_mono(trips, a - 1, a - 1);
    }
}

/// Appending the three nodes of one stop time keeps `built_nodes_ok`.
proof fn lemma_stop_time_nodes_pushed(
    old_nodes: Seq<Node>,
    nodes: Seq<Node>,
    n_stops: int,
    trips: Seq<Trip>,
    trip_service: Seq<usize>,
    lim: int,
    t: int,
    i: int,
)
    requires
        built_nodes_ok(old_nodes, n_stops, trips, trip_service, lim),
        trip_service.len() == trips.len(),
        0 <= t < trips.len(),
        t <= usize::MAX,
        0 <= i < trips[t].stop_times@.len(),
        old_nodes.len() == block_start(trips, t) + 3 * i,
        lim == block_start(trips, t) + 3 * trips[t].stop_times@.len(),
        nodes.len() == old_nodes.len() + 3,
        forall|v: int| 0 <= v < old_nodes.len() ==> nodes[v] == old_nodes[v],
        ({
            let b = old_nodes.len() as int;
            &&& nodes[b].node_id == b
            &&& nodes[b].location == Location::Trip(t as usize, trip_service[t])
            &&& forall|k: int| 0 <= k < nodes[b].edges@.len() ==> nodes[b].edges@[k] < lim
            &&& nodes[b].time == nodes[b + 1].time
            &&& nodes[b + 1].node_id == b + 1
            &&& nodes[b + 1].location is Stop
            &&& nodes[b + 1].location->Stop_0 < n_stops
            &&& nodes[b + 1].edges@ == seq![b as usize]
            &&& nodes[b + 2].node_id == b + 2
            &&& nodes[b + 2].location == nodes[b + 1].location
            &&& nodes[b + 2].edges@.len() == 0
        }),
    ensures
        built_nodes_ok(nodes, n_stops, trips, trip_service, lim),
{
    let b = old_nodes.len() as int;
    assert forall|v: int, k: int|
        0 <= v < nodes.len() && 0 <= k < nodes[v].edges@.len() implies (#[trigger] nodes[v].edges@[k])
        < lim by {
        if v < b {
            assert(old_nodes[v].edges@[k] == nodes[v].edges@[k]);
        }
    }
    assert forall|v: int, k: int|
        0 <= v < nodes.len() && nodes[v].location is Stop && 0 <= k < nodes[v].edges@.len()
            implies nodes[v].time <= nodes[(#[trigger] nodes[v].edges@[k]) as int].time by {
        if v < b {
            assert(old_nodes[v].edges@[k] == nodes[v].edges@[k]);
            assert(old_nodes[v].edges@[k] < old_nodes.len());
        }
    }
    assert forall|v: int, k: int|
        0 <= v < nodes.len() && nodes[v].location is Stop && 0 <= k < nodes[v].edges@.len()
            implies (#[trigger] nodes[v].edges@[k]) < nodes.len() by {
        if v < b {
            assert(old_nodes[v].edges@[k] == nodes[v].edges@[k]);
        }
    }
    assert forall|v: int|
        0 <= v < nodes.len() && (#[trigger] nodes[v]).location is Trip implies {
            let tt = nodes[v].location->Trip_0 as int;
            &&& tt < trips.len()
            &&& nodes[v].location->Trip_1 == trip_service[tt]
            &&& block_start(trips, tt) <= v < block_start(trips, tt) + 3 * trips[tt].stop_times@.len()
            &&& (v - block_start(trips, tt)) % 3 == 0
        } by {
        if v < b {
            assert(old_nodes[v] == nodes[v]);
        } else if v == b {
            assert(nodes[v].location->Trip_0 as int == t);
            assert(v - block_start(trips, t) == 3 * i);
            assert((3 * i) % 3 == 0) by (nonlinear_arith);
        } else {
            assert(nodes[v].location is Stop);
        }
    }
}

/// What holds of every node created so far: its id, where its edges lead (below `lim`), that
/// the stop it is at exists, which trip block a node aboard belongs to, and that the edges of
/// a node at a stop go forward in time.
pub open spec fn built_nodes_ok(
    nodes: Seq<Node>,
    n_stops: int,
    trips: Seq<Trip>,
    trip_service: Seq<usize>,
    lim: int,
) -> bool {
    &&& forall|v: int| 0 <= v < nodes.len() ==> (#[trigger] nodes[v]).node_id == v
    &&& forall|v: int, k: int|
        0 <= v < nodes.len() && 0 <= k < nodes[v].edges@.len() ==> (#[trigger] nodes[v].edges@[k])
            < lim
    &&& forall|v: int|
        0 <= v < nodes.len() && (#[trigger] nodes[v]).location is Stop ==> nodes[v].location->Stop_0
            < n_stops
    &&& forall|v: int, k: int|
        0 <= v < nodes.len() && nodes[v].location is Stop && 0 <= k < nodes[v].edges@.len()
            ==> (#[trigger] nodes[v].edges@[k]) < nodes.len()
    &&& forall|v: int|
        0 <= v < nodes.len() && (#[trigger] nodes[v]).location is Trip ==> {
            let t = nodes[v].location->Trip_0 as int;
            &&& t < trips.len()
            &&& nodes[v].location->Trip_1 == trip_service[t]
            &&& block_start(trips, t) <= v < block_start(trips, t) + 3 * trips[t].stop_times@.len()
            &&& (v - block_start(trips, t)) % 3 == 0
        }
    &&& forall|v: int, k: int|
        0 <= v < nodes.len() && nodes[v].location is Stop && 0 <= k < nodes[v].edges@.len()
            ==> nodes[v].time <= nodes[(#[trigger] nodes[v].edges@[k]) as int].time
}

/// Pass one: for each stop time of each trip, the node aboard, the departure node and the
/// arrival node, with the boarding, alighting and staying-aboard edges.
#[verifier::rlimit(50)]
fn create_transport_nodes(
    trips: &Vec<Trip>,
    trip_service: &Vec<usize>,
    stop_index: &Vec<Vec<usize>>,
    stops: &Vec<Stop>,
    tau: u32,
) -> (r: Vec<Node>)
    requires
        trip_service.len() == trips.len(),
        stop_index.len() == trips.len(),
        forall|t: int|
            0 <= t < trips.len() ==> (#[trigger] stop_index@[t]).len()
                == trips@[t].stop_times@.len(),
        forall|t: int, i: int|
            0 <= t < trips.len() && 0 <= i < trips@[t].stop_times@.len() ==> {
                &&& (#[trigger] stop_index@[t]@[i]) < stops.len()
                &&& stops@[stop_index@[t]@[i] as int].stop_id@ == trips@[t].stop_times@[i].stop_id@
                &&& trips@[t].stop_times@[i].arrival_time + tau <= u32::MAX
            },
        3 * stop_time_count(trips@, trips.len() as int) <= usize::MAX,
    ensures
        r.len() == block_start(trips@, trips.len() as int),
        built_nodes_ok(r@, stops.len() as int, trips@, trip_service@, r.len() as int),
        forall|t: int|
            0 <= t < trips.len() ==> trip_block_ok(
                r@,
                stops@,
                #[trigger] trips@[t],
                t,
                trip_service@[t] as int,
                block_start(trips@, t),
                tau as int,
            ),
{
    let mut nodes: Vec<Node> = Vec::new();
    let mut t: usize = 0;
    while t < trips.len()
        invariant
            trip_service.len() == trips.len(),
            stop_index.len() == trips.len(),
            forall|t: int|
                0 <= t < trips.len() ==> (#[trigger] stop_index@[t]).len()
                    == trips@[t].stop_times@.len(),
            forall|t: int, i: int|
                0 <= t < trips.len() && 0 <= i < trips@[t].stop_times@.len() ==> {
                    &&& (#[trigger] stop_index@[t]@[i]) < stops.len()
                    &&& stops@[stop_index@[t]@[i] as int].stop_id@
                        == trips@[t].stop_times@[i].stop_id@
                    &&& trips@[t].stop_times@[i].arrival_time + tau <= u32::MAX
                },
            3 * stop_time_count(trips@, trips.len() as int) <= usize::MAX,
            t <= trips.len(),
            nodes.len() == block_start(trips@, t as int),
            built_nodes_ok(nodes@, stops.len() as int, trips@, trip_service@, nodes.len() as int),
            forall|u: int|
                0 <= u < t ==> trip_block_ok(
                    nodes@,
                    stops@,
                    #[trigger] trips@[u],
                    u,
                    trip_service@[u] as int,
                    block_start(trips@, u),
                    tau as int,
                ),
        decreases trips.len() - t,
    {
        let trip = &trips[t];
        let n = trip.stop_times.len();
        let base = nodes.len();
        proof {
            lemma_stop_time_count_mono(trips@, t as int + 1, trips.len() as int);
            lemma_stop_time_count_mono(trips@, t as int, t as int);
        }
        let ghost lim = base + 3 * n;
        let mut i: usize = 0;
        while i < n
            invariant
                trip_service.len() == trips.len(),
                stop_index.len() == trips.len(),
                forall|t: int|
                    0 <= t < trips.len() ==> (#[trigger] stop_index@[t]).len()
                        == trips@[t].stop_times@.len(),
                forall|t: int, i: int|
                    0 <= t < trips.len() && 0 <= i < trips@[t].stop_times@.len() ==> {
                        &&& (#[trigger] stop_index@[t]@[i]) < stops.len()
                        &&& stops@[stop_index@[t]@[i] as int].stop_id@
                            == trips@[t].stop_times@[i].stop_id@
                        &&& trips@[t].stop_times@[i].arrival_time + tau <= u32::MAX
                    },
                t < trips.len(),
                trip == trips@[t as int],
                n == trip.stop_times@.len(),
                base == block_start(trips@, t as int),
                lim == base + 3 * n,
                lim <= usize::MAX,
                i <= n,
                nodes.len() == base + 3 * i,
                built_nodes_ok(nodes@, stops.len() as int, trips@, trip_service@, lim),
                forall|u: int|
                    0 <= u < t ==> trip_block_ok(
                        nodes@,
                        stops@,
                        #[trigger] trips@[u],
                        u,
                        trip_service@[u] as int,
                        block_start(trips@, u),
                        tau as int,
                    ),
                trip_block_upto(
                    nodes@,
                    stops@,
                    trips@[t as int],
                    t as int,
                    trip_service@[t as int] as int,
                    base as int,
                    tau as int,
                    i as int,
                ),
            decreases n - i,
        {
            let st = &trip.stop_times[i];
            let b = nodes.len();
            let ghost old_nodes = nodes@;
            let edges_aboard = if i + 1 < n {
                vec![b + 2, b + 3]
            } else {
                vec![b + 2]
            };
            let s = stop_index[t][i];
            nodes.push(
                Node {
                    location: Location::Trip(t, trip_service[t]),
                    node_id: b,
                    time: st.departure_time,
                    edges: edges_aboard,
                },
            );
            nodes.push(
                Node { location: Location::Stop(s), node_id: b + 1, time: st.departure_time, edges: vec![b] },
            );
            nodes.push(
                Node {
                    location: Location::Stop(s),
                    node_id: b + 2,
                    time: st.arrival_time + tau,
                    edges: Vec::new(),
                },
            );
            proof {
                assert(forall|v: int| 0 <= v < old_nodes.len() ==> nodes@[v] == old_nodes[v]);
                if i + 1 < n {
                    assert(nodes@[b as int].edges@ == seq![(b + 2) as usize, (b + 3) as usize]);
                } else {
                    assert(nodes@[b as int].edges@ == seq![(b + 2) as usize]);
                }
                assert(nodes@[b + 1].edges@ == seq![b]);
                assert(nodes@[b + 2].edges@.len() == 0);
                lemma_stop_time_nodes_pushed(
                    old_nodes,
                    nodes@,
                    stops.len() as int,
                    trips@,
                    trip_service@,
                    lim,
                    t as int,
                    i as int,
                );
                assert forall|u: int| 0 <= u < t implies trip_block_ok(
                    nodes@,
                    stops@,
                    #[trigger] trips@[u],
                    u,
                    trip_service@[u] as int,
                    block_start(trips@, u),
                    tau as int,
                ) by {
                    lemma_stop_time_count_mono(trips@, u + 1, t as int);
                }
            }
            i += 1;
        }
        t += 1;
    }
    nodes
}

/// The sort key of node `v`: its time, then its id.
pub open spec fn time_key(nodes: Seq<Node>, v: int) -> (u32, usize) {
    (nodes[v].time, v as usize)
}

/// `chain` holds exactly the nodes at stop `s`, each once, in increasing order of time (ties
/// by id).
pub open spec fn chain_ok(nodes: Seq<Node>, chain: Seq<usize>, s: int) -> bool {
    &&& forall|k: int|
        0 <= k < chain.len() ==> (#[trigger] chain[k]) < nodes.len() && nodes[chain[k] as int].location
            == Location::Stop(s as usize)
    &&& forall|v: int|
        0 <= v < nodes.len() && (#[trigger] nodes[v]).location == Location::Stop(s as usize)
            ==> chain.contains(v as usize)
    &&& forall|k: int, l: int|
        0 <= k < l < chain.len() ==> pair_lt(
            time_key(nodes, #[trigger] chain[k] as int),
            time_key(nodes, #[trigger] chain[l] as int),
        )
}

/// `nodes` is `old` with out-edges appended only to nodes at a stop, each leading to an existing
/// node no earlier than its source.
pub open spec fn grows_forward(old: Seq<Node>, nodes: Seq<Node>) -> bool {
    &&& nodes.len() == old.len()
    &&& forall|v: int|
        0 <= v < nodes.len() ==> {
            &&& (#[trigger] nodes[v]).location == old[v].location
            &&& nodes[v].time == old[v].time
            &&& nodes[v].node_id == old[v].node_id
            &&& old[v].edges@.len() <= nodes[v].edges@.len()
            &&& nodes[v].edges@.subrange(0, old[v].edges@.len() as int) == old[v].edges@
        }
    &&& forall|v: int, k: int|
        0 <= v < nodes.len() && old[v].edges@.len() <= k < nodes[v].edges@.len() ==> {
            &&& nodes[v].location is Stop
            &&& (#[trigger] nodes[v].edges@[k]) < nodes.len()
            &&& nodes[v].time <= nodes[nodes[v].edges@[k] as int].time
        }
}

proof fn lemma_grows_forward_trans(a: Seq<Node>, b: Seq<Node>, c: Seq<Node>)
    requires
        grows_forward(a, b),
        grows_forward(b, c),
    ensures
        grows_forward(a, c),
{
    assert forall|v: int| 0 <= v < c.len() implies (#[trigger] c[v].edges@).subrange(
        0,
        a[v].edges@.len() as int,
    ) == a[v].edges@ by {
        assert(b[v] == b[v]);
        assert(c[v] == c[v]);
        assert(b[v].edges@.subrange(0, a[v].edges@.len() as int) == a[v].edges@);
        assert(c[v].edges@.subrange(0, b[v].edges@.len() as int) == b[v].edges@);
        assert(c[v].edges@.subrange(0, a[v].edges@.len() as int) =~= a[v].edges@);
    }
    assert forall|v: int, k: int|
        0 <= v < c.len() && a[v].edges@.len() <= k < c[v].edges@.len() implies {
            &&& c[v].location is Stop
            &&& (#[trigger] c[v].edges@[k]) < c.len()
            &&& c[v].time <= c[c[v].edges@[k] as int].time
        } by {
        assert(b[v] == b[v]);
        assert(c[v] == c[v]);
        if k < b[v].edges@.len() {
            assert(c[v].edges@.subrange(0, b[v].edges@.len() as int)[k] == c[v].edges@[k]);
            assert(b[v].edges@[k] == c[v].edges@[k]);
            assert(c[b[v].edges@[k] as int] == c[b[v].edges@[k] as int]);
        }
    }
}

proof fn lemma_grows_forward_refl(a: Seq<Node>)
    ensures
        grows_forward(a, a),
{
    assert forall|v: int| 0 <= v < a.len() implies (#[trigger] a[v]).edges@.subrange(
        0,
        a[v].edges@.len() as int,
    ) == a[v].edges@ by {
        assert(a[v].edges@.subrange(0, a[v].edges@.len() as int) =~= a[v].edges@);
    }
}

/// Appends edge `u -> v` to `nodes`, where `u` is at a stop and `v` is no earlier.
fn add_forward_edge(nodes: &mut Vec<Node>, u: usize, v: usize)
    requires
        u < old(nodes).len(),
        v < old(nodes).len(),
        old(nodes)@[u as int].location is Stop,
        old(nodes)@[u as int].time <= old(nodes)@[v as int].time,
    ensures
        grows_forward(old(nodes)@, final(nodes)@),
        final(nodes)@[u as int].edges@ == old(nodes)@[u as int].edges@.push(v),
        forall|w: int| 0 <= w < final(nodes)@.len() && w != u ==> final(nodes)@[w] == old(nodes)@[w],
{
    let ghost old_nodes = nodes@;
    nodes[u].add_edge(v);
    proof {
        assert forall|w: int| 0 <= w < nodes@.len() implies (#[trigger] nodes@[w]).edges@.subrange(
            0,
            old_nodes[w].edges@.len() as int,
        ) == old_nodes[w].edges@ by {
            if w == u {
                assert(nodes@[w].edges@.subrange(0, old_nodes[w].edges@.len() as int)
                    =~= old_nodes[w].edges@);
            }
        }
    }
}

/// The ids of the nodes at each stop, in increasing order of time.
fn collect_stop_chains(nodes: &Vec<Node>, n_stops: usize) -> (chains: Vec<Vec<usize>>)
    requires
        forall|v: int|
            0 <= v < nodes.len() && (#[trigger] nodes@[v]).location is Stop
                ==> nodes@[v].location->Stop_0 < n_stops,
    ensures
        chains.len() == n_stops,
        forall|s: int| 0 <= s < n_stops ==> chain_ok(nodes@, #[trigger] chains@[s]@, s),
{
    let mut keys: Vec<(u32, usize)> = Vec::new();
    let mut v: usize = 0;
    while v < nodes.len()
        invariant
            v <= nodes.len(),
            forall|q: int|
                0 <= q < keys.len() ==> {
                    &&& (#[trigger] keys@[q]).1 < nodes.len()
                    &&& nodes@[keys@[q].1 as int].location is Stop
                    &&& keys@[q] == time_key(nodes@, keys@[q].1 as int)
                },
            forall|w: int|
                0 <= w < v && (#[trigger] nodes@[w]).location is Stop ==> keys@.contains(
                    time_key(nodes@, w),
                ),
        decreases nodes.len() - v,
    {
        let ghost old_keys = keys@;
        if let Location::Stop(_) = nodes[v].location {
            keys.push((nodes[v].time, v));
            proof {
                assert(keys@[keys.len() - 1] == time_key(nodes@, v as int));
            }
        }
        proof {
            assert forall|w: int|
                0 <= w < v + 1 && (#[trigger] nodes@[w]).location is Stop implies keys@.contains(
                time_key(nodes@, w),
            ) by {
                if w < v {
                    assert(old_keys.contains(time_key(nodes@, w)));
                    let q = choose|q: int| 0 <= q < old_keys.len() && old_keys[q] == time_key(nodes@, w);
                    assert(keys@[q] == old_keys[q]);
                }
            }
        }
        v += 1;
    }
    let sorted = sorted_unique(&keys);
    proof {
        assert forall|q: int| 0 <= q < sorted.len() implies {
            &&& (#[trigger] sorted@[q]).1 < nodes.len()
            &&& nodes@[sorted@[q].1 as int].location is Stop
            &&& sorted@[q] == time_key(nodes@, sorted@[q].1 as int)
        } by {
            assert(sorted@.contains(sorted@[q]));
            let q2 = choose|q2: int| 0 <= q2 < keys.len() && keys@[q2] == sorted@[q];
            assert(keys@[q2] == sorted@[q]);
        }
    }
    let mut chains: Vec<Vec<usize>> = Vec::new();
    while chains.len() < n_stops
        invariant
            chains.len() <= n_stops,
            forall|s: int| 0 <= s < chains.len() ==> (#[trigger] chains@[s]@).len() == 0,
        decreases n_stops - chains.len(),
    {
        chains.push(Vec::new());
    }
    let mut p: usize = 0;
    while p < sorted.len()
        invariant
            forall|v: int|
                0 <= v < nodes.len() && (#[trigger] nodes@[v]).location is Stop
                    ==> nodes@[v].location->Stop_0 < n_stops,
            strictly_sorted(sorted@),
            forall|x: (u32, usize)| sorted@.contains(x) <==> keys@.contains(x),
            forall|q: int|
                0 <= q < sorted.len() ==> {
                    &&& (#[trigger] sorted@[q]).1 < nodes.len()
                    &&& nodes@[sorted@[q].1 as int].location is Stop
                    &&& sorted@[q] == time_key(nodes@, sorted@[q].1 as int)
                },
            forall|q: int|
                0 <= q < keys.len() ==> {
                    &&& (#[trigger] keys@[q]).1 < nodes.len()
                    &&& nodes@[keys@[q].1 as int].location is Stop
                    &&& keys@[q] == time_key(nodes@, keys@[q].1 as int)
                },
            p <= sorted.len(),
            chains.len() == n_stops,
            forall|s: int, k: int|
                0 <= s < n_stops && 0 <= k < chains@[s]@.len() ==> {
                    &&& (#[trigger] chains@[s]@[k]) < nodes.len()
                    &&& nodes@[chains@[s]@[k] as int].location == Location::Stop(s as usize)
                    &&& exists|q: int|
                        0 <= q < p && sorted@[q] == time_key(nodes@, chains@[s]@[k] as int)
                },
            forall|q: int|
                0 <= q < p ==> chains@[nodes@[(#[trigger] sorted@[q]).1 as int].location->Stop_0 as int]@.contains(
                    sorted@[q].1,
                ),
            forall|s: int, k: int, l: int|
                0 <= s < n_stops && 0 <= k < l < chains@[s]@.len() ==> pair_lt(
                    time_key(nodes@, #[trigger] chains@[s]@[k] as int),
                    time_key(nodes@, #[trigger] chains@[s]@[l] as int),
                ),
        decreases sorted.len() - p,
    {
        let key = sorted[p];
        proof {
            assert(sorted@.contains(key));
            assert(keys@.contains(key));
            let q = choose|q: int| 0 <= q < keys.len() && keys@[q] == key;
            assert(keys@[q] == key);
        }
        let v = key.1;
        let s = match nodes[v].location {
            Location::Stop(s) => s,
            Location::Trip(_, _) => {
                proof {
                    assert(false);
                }
                0
            },
        };
        let ghost old_chains = chains@;
        chains[s].push(v);
        proof {
            assert(chains@[s as int]@ == old_chains[s as int]@.push(v));
            assert forall|t: int| 0 <= t < n_stops && t != s implies chains@[t] == old_chains[t] by {}
            assert forall|t: int, k: int|
                0 <= t < n_stops && 0 <= k < chains@[t]@.len() implies {
                    &&& (#[trigger] chains@[t]@[k]) < nodes.len()
                    &&& nodes@[chains@[t]@[k] as int].location == Location::Stop(t as usize)
                    &&& exists|q: int|
                        0 <= q < p + 1 && sorted@[q] == time_key(nodes@, chains@[t]@[k] as int)
                } by {
                if t == s && k == old_chains[t]@.len() {
                    assert(sorted@[p as int] == time_key(nodes@, v as int));
                } else {
                    assert(chains@[t]@[k] == old_chains[t]@[k]);
                    let q = choose|q: int|
                        0 <= q < p && sorted@[q] == time_key(nodes@, old_chains[t]@[k] as int);
                    assert(sorted@[q] == time_key(nodes@, chains@[t]@[k] as int));
                }
            }
            assert forall|q: int| 0 <= q < p + 1 implies chains@[nodes@[(#[trigger] sorted@[q]).1 as int].location->Stop_0 as int]@.contains(
                sorted@[q].1,
            ) by {
                if q == p {
                    assert(chains@[s as int]@[old_chains[s as int]@.len() as int] == v);
                } else {
                    let t = nodes@[sorted@[q].1 as int].location->Stop_0 as int;
                    let k = choose|k: int| 0 <= k < old_chains[t]@.len() && old_chains[t]@[k] == sorted@[q].1;
                    assert(chains@[t]@[k] == sorted@[q].1);
                }
            }
            assert forall|t: int, k: int, l: int|
                0 <= t < n_stops && 0 <= k < l < chains@[t]@.len() implies pair_lt(
                    time_key(nodes@, #[trigger] chains@[t]@[k] as int),
                    time_key(nodes@, #[trigger] chains@[t]@[l] as int),
                ) by {
                if t == s && l == old_chains[t]@.len() {
                    assert(chains@[t]@[k] == old_chains[t]@[k]);
                    let q = choose|q: int|
                        0 <= q < p && sorted@[q] == time_key(nodes@, old_chains[t]@[k] as int);
                    assert(pair_lt(sorted@[q], sorted@[p as int]));
                } else {
                    assert(chains@[t]@[k] == old_chains[t]@[k]);
                    assert(chains@[t]@[l] == old_chains[t]@[l]);
                }
            }
        }
        p += 1;
    }
    proof {
        assert forall|s: int| 0 <= s < n_stops implies chain_ok(nodes@, #[trigger] chains@[s]@, s) by {
            assert forall|w: int|
                0 <= w < nodes.len() && (#[trigger] nodes@[w]).location == Location::Stop(s as usize)
                    implies chains@[s]@.contains(w as usize) by {
                assert(keys@.contains(time_key(nodes@, w)));
                assert(sorted@.contains(time_key(nodes@, w)));
                let q = choose|q: int| 0 <= q < sorted.len() && sorted@[q] == time_key(nodes@, w);
                assert(sorted@[q].1 == w);
            }
        }
    }
    chains
}

proof fn lemma_chain_ok_kept(old: Seq<Node>, nodes: Seq<Node>, chain: Seq<usize>, s: int)
    requires
        grows_forward(old, nodes),
        chain_ok(old, chain, s),
    ensures
        chain_ok(nodes, chain, s),
{
    assert forall|v: int|
        0 <= v < nodes.len() && (#[trigger] nodes[v]).location == Location::Stop(s as usize)
            implies chain.contains(v as usize) by {
        assert(old[v].location == nodes[v].location);
    }
    assert forall|k: int| 0 <= k < chain.len() implies (#[trigger] chain[k]) < nodes.len()
        && nodes[chain[k] as int].location == Location::Stop(s as usize) by {
        assert(old[chain[k] as int].location == nodes[chain[k] as int].location);
    }
    assert forall|k: int, l: int| 0 <= k < l < chain.len() implies pair_lt(
        time_key(nodes, #[trigger] chain[k] as int),
        time_key(nodes, #[trigger] chain[l] as int),
    ) by {
        assert(old[chain[k] as int].time == nodes[chain[k] as int].time);
        assert(old[chain[l] as int].time == nodes[chain[l] as int].time);
    }
}

proof fn lemma_edge_kept(old: Seq<Node>, nodes: Seq<Node>, u: int, v: int)
    requires
        grows_forward(old, nodes),
        has_edge(old, u, v),
    ensures
        has_edge(nodes, u, v),
{
    let k = choose|k: int| 0 <= k < old[u].edges@.len() && old[u].edges@[k] == v as usize;
    assert(nodes[u] == nodes[u]);
    assert(nodes[u].edges@.subrange(0, old[u].edges@.len() as int)[k] == nodes[u].edges@[k]);
}

/// Pass two: an edge from each node at a stop to the next one there in time.
fn add_node_chaining(nodes: &mut Vec<Node>, chains: &Vec<Vec<usize>>)
    requires
        forall|s: int| 0 <= s < chains.len() ==> chain_ok(old(nodes)@, #[trigger] chains@[s]@, s),
    ensures
        grows_forward(old(nodes)@, final(nodes)@),
        forall|s: int, k: int|
            0 <= s < chains.len() && 0 <= k < chains@[s]@.len() - 1 ==> has_edge(
                final(nodes)@,
                #[trigger] chains@[s]@[k] as int,
                chains@[s]@[k + 1] as int,
            ),
{
    let ghost orig = nodes@;
    proof {
        lemma_grows_forward_refl(orig);
    }
    let mut s: usize = 0;
    while s < chains.len()
        invariant
            s <= chains.len(),
            grows_forward(orig, nodes@),
            forall|s: int| 0 <= s < chains.len() ==> chain_ok(orig, #[trigger] chains@[s]@, s),
            forall|t: int, k: int|
                0 <= t < s && 0 <= k < chains@[t]@.len() - 1 ==> has_edge(
                    nodes@,
                    #[trigger] chains@[t]@[k] as int,
                    chains@[t]@[k + 1] as int,
                ),
        decreases chains.len() - s,
    {
        let chain = &chains[s];
        let mut k: usize = 0;
        while k < chain.len() && k + 1 < chain.len()
            invariant
                k <= chain.len(),
                s < chains.len(),
                chain == chains@[s as int],
                grows_forward(orig, nodes@),
                forall|s: int| 0 <= s < chains.len() ==> chain_ok(orig, #[trigger] chains@[s]@, s),
                forall|t: int, k: int|
                    0 <= t < s && 0 <= k < chains@[t]@.len() - 1 ==> has_edge(
                        nodes@,
                        #[trigger] chains@[t]@[k] as int,
                        chains@[t]@[k + 1] as int,
                    ),
                forall|j: int|
                    0 <= j < k && j < chain@.len() - 1 ==> has_edge(
                        nodes@,
                        #[trigger] chain@[j] as int,
                        chain@[j + 1] as int,
                    ),
            decreases chain.len() - k,
        {
            let ghost before = nodes@;
            proof {
                lemma_chain_ok_kept(orig, nodes@, chain@, s as int);
                assert(pair_lt(
                    time_key(nodes@, chain@[k as int] as int),
                    time_key(nodes@, chain@[k + 1] as int),
                ));
            }
            add_forward_edge(nodes, chain[k], chain[k + 1]);
            proof {
                lemma_grows_forward_trans(orig, before, nodes@);
                assert forall|t: int, kk: int|
                    0 <= t < s && 0 <= kk < chains@[t]@.len() - 1 implies has_edge(
                        nodes@,
                        #[trigger] chains@[t]@[kk] as int,
                        chains@[t]@[kk + 1] as int,
                    ) by {
                    lemma_edge_kept(before, nodes@, chains@[t]@[kk] as int, chains@[t]@[kk + 1] as int);
                }
                assert forall|j: int|
                    0 <= j < k + 1 && j < chain@.len() - 1 implies has_edge(
                        nodes@,
                        #[trigger] chain@[j] as int,
                        chain@[j + 1] as int,
                    ) by {
                    if j < k {
                        lemma_edge_kept(before, nodes@, chain@[j] as int, chain@[j + 1] as int);
                    } else {
                        let u = chain@[k as int] as int;
                        assert(nodes@[u].edges@[before[u].edges@.len() as int] == chain@[k + 1]);
                    }
                }
            }
            k += 1;
        }
        s += 1;
    }
}

/// The times of the nodes of `chain` do not decrease along it.
pub open spec fn times_sorted(nodes: Seq<Node>, chain: Seq<usize>) -> bool {
    &&& forall|k: int| 0 <= k < chain.len() ==> (#[trigger] chain[k]) < nodes.len()
    &&& forall|k: int, l: int|
        0 <= k <= l < chain.len() ==> nodes[chain[k] as int].time <= nodes[chain[l] as int].time
}

pub proof fn lemma_chain_times_sorted(nodes: Seq<Node>, chain: Seq<usize>, s: int)
    requires
        chain_ok(nodes, chain, s),
    ensures
        times_sorted(nodes, chain),
{
    assert forall|k: int, l: int| 0 <= k <= l < chain.len() implies nodes[chain[k] as int].time
        <= nodes[chain[l] as int].time by {
        if k < l {
            assert(pair_lt(time_key(nodes, chain[k] as int), time_key(nodes, chain[l] as int)));
        }
    }
}

/// The first node of `chain` whose time is at least `time`, where there is one.
pub fn bin_search(nodes: &Vec<Node>, time: u64, chain: &Vec<usize>) -> (r: Option<usize>)
    requires
        times_sorted(nodes@, chain@),
    ensures
        r matches Some(v) ==> exists|p: int|
            0 <= p < chain.len() && chain@[p] == v && nodes@[v as int].time >= time && forall|q: int|
                0 <= q < p ==> nodes@[chain@[q] as int].time < time,
        r is None ==> forall|q: int| 0 <= q < chain.len() ==> nodes@[chain@[q] as int].time < time,
{
    let mut lo: usize = 0;
    let mut hi: usize = chain.len();
    while lo < hi
        invariant
            times_sorted(nodes@, chain@),
            lo <= hi <= chain.len(),
            forall|q: int| 0 <= q < lo ==> nodes@[chain@[q] as int].time < time,
            forall|q: int| hi <= q < chain.len() ==> nodes@[chain@[q] as int].time >= time,
        decreases hi - lo,
    {
        let middle = lo + (hi - lo) / 2;
        if nodes[chain[middle]].time as u64 >= time {
            hi = middle;
        } else {
            lo = middle + 1;
        }
    }
    if lo < chain.len() {
        Some(chain[lo])
    } else {
        None
    }
}

/// Seconds to walk `dist` metres at `speed` millimetres per second, rounded up.
pub open spec fn walk_seconds(dist: int, speed: int) -> int {
    (dist * 1000 + speed - 1) / speed
}

/// `p` is the first position of `chain` whose node is no earlier than `reach`.
pub open spec fn first_at_or_after(nodes: Seq<Node>, chain: Seq<usize>, reach: int, p: int) -> bool {
    &&& 0 <= p < chain.len()
    &&& nodes[chain[p] as int].time >= reach
    &&& forall|q: int| 0 <= q < p ==> nodes[chain[q] as int].time < reach
}

/// The `k`-th node at stop `s` has an edge to the first node at stop `t` that can be reached
/// by walking `d` metres at `speed` millimetres per second, where there is one.
pub open spec fn walk_edge_ok(
    nodes: Seq<Node>,
    chains: Seq<Vec<usize>>,
    s: int,
    t: int,
    d: int,
    speed: int,
    k: int,
) -> bool {
    forall|p: int|
        #[trigger] first_at_or_after(
            nodes,
            chains[t]@,
            nodes[chains[s]@[k] as int].time + walk_seconds(d, speed),
            p,
        ) ==> has_edge(nodes, chains[s]@[k] as int, chains[t]@[p] as int)
}

/// `(s2, j2, k2)` comes before `(s, j, k)` in lexicographic order.
pub open spec fn lex_before(s2: int, j2: int, k2: int, s: int, j: int, k: int) -> bool {
    s2 < s || (s2 == s && (j2 < j || (j2 == j && k2 < k)))
}

/// The walking edges of every link `j` of every stop `s` and node `k` before `(s, j, k)` are there.
pub open spec fn walk_edges_upto(
    nodes: Seq<Node>,
    chains: Seq<Vec<usize>>,
    links: Seq<Vec<(usize, u32)>>,
    speed: int,
    s: int,
    j: int,
    k: int,
) -> bool {
    forall|s2: int, j2: int, k2: int|
        0 <= s2 < links.len() && 0 <= j2 < links[s2]@.len() && 0 <= k2 < chains[s2]@.len()
            && lex_before(s2, j2, k2, s, j, k) ==> #[trigger] walk_edge_ok(
            nodes,
            chains,
            s2,
            links[s2]@[j2].0 as int,
            links[s2]@[j2].1 as int,
            speed,
            k2,
        )
}

proof fn lemma_first_unique(nodes: Seq<Node>, chain: Seq<usize>, reach: int, p1: int, p2: int)
    requires
        first_at_or_after(nodes, chain, reach, p1),
        first_at_or_after(nodes, chain, reach, p2),
    ensures
        p1 == p2,
{
    if p1 < p2 {
        assert(nodes[chain[p1] as int].time < reach);
    }
    if p2 < p1 {
        assert(nodes[chain[p2] as int].time < reach);
    }
}

proof fn lemma_walk_edges_kept(
    old: Seq<Node>,
    nodes: Seq<Node>,
    chains: Seq<Vec<usize>>,
    links: Seq<Vec<(usize, u32)>>,
    speed: int,
    s: int,
    j: int,
    k: int,
)
    requires
        grows_forward(old, nodes),
        walk_edges_upto(old, chains, links, speed, s, j, k),
        forall|a: int| 0 <= a < chains.len() ==> chain_ok(old, #[trigger] chains[a]@, a),
        forall|a: int, b: int|
            0 <= a < links.len() && 0 <= b < links[a]@.len() ==> (#[trigger] links[a]@[b]).0
                < chains.len(),
        links.len() == chains.len(),
    ensures
        walk_edges_upto(nodes, chains, links, speed, s, j, k),
{
    assert forall|s2: int, j2: int, k2: int|
        0 <= s2 < links.len() && 0 <= j2 < links[s2]@.len() && 0 <= k2 < chains[s2]@.len()
            && lex_before(s2, j2, k2, s, j, k) implies #[trigger] walk_edge_ok(
        nodes,
        chains,
        s2,
        links[s2]@[j2].0 as int,
        links[s2]@[j2].1 as int,
        speed,
        k2,
    ) by {
        let t = links[s2]@[j2].0 as int;
        let d = links[s2]@[j2].1 as int;
        assert(walk_edge_ok(old, chains, s2, t, d, speed, k2));
        assert(chain_ok(old, chains[s2]@, s2));
        assert(chain_ok(old, chains[t]@, t));
        let u = chains[s2]@[k2] as int;
        assert(nodes[u].time == old[u].time);
        assert forall|p: int|
            #[trigger] first_at_or_after(
                nodes,
                chains[t]@,
                nodes[u].time + walk_seconds(d, speed),
                p,
            ) implies has_edge(nodes, u, chains[t]@[p] as int) by {
            assert(nodes[chains[t]@[p] as int].time == old[chains[t]@[p] as int].time);
            assert forall|q: int| 0 <= q < p implies old[chains[t]@[q] as int].time < nodes[u].time
                + walk_seconds(d, speed) by {
                assert(nodes[chains[t]@[q] as int].time == old[chains[t]@[q] as int].time);
            }
            assert(first_at_or_after(old, chains[t]@, old[u].time + walk_seconds(d, speed), p));
            lemma_edge_kept(old, nodes, u, chains[t]@[p] as int);
        }
    }
}

/// Pass three: from each node at a stop, an edge to the first node at each stop within walking
/// distance that can be reached on foot.
#[verifier::rlimit(40)]
fn add_pedestrian_connections(
    nodes: &mut Vec<Node>,
    chains: &Vec<Vec<usize>>,
    links: &Vec<Vec<(usize, u32)>>,
    speed: u32,
)
    requires
        speed >= 1,
        links.len() == chains.len(),
        forall|s: int| 0 <= s < chains.len() ==> chain_ok(old(nodes)@, #[trigger] chains@[s]@, s),
        forall|s: int, j: int|
            0 <= s < links.len() && 0 <= j < links@[s]@.len() ==> (#[trigger] links@[s]@[j]).0
                < chains.len(),
    ensures
        grows_forward(old(nodes)@, final(nodes)@),
        walk_edges_upto(final(nodes)@, chains@, links@, speed as int, links.len() as int, 0, 0),
{
    let ghost orig = nodes@;
    proof {
        lemma_grows_forward_refl(orig);
    }
    let mut s: usize = 0;
    while s < links.len()
        invariant
            speed >= 1,
            links.len() == chains.len(),
            s <= links.len(),
            grows_forward(orig, nodes@),
            forall|s: int| 0 <= s < chains.len() ==> chain_ok(orig, #[trigger] chains@[s]@, s),
            forall|s: int, j: int|
                0 <= s < links.len() && 0 <= j < links@[s]@.len() ==> (#[trigger] links@[s]@[j]).0
                    < chains.len(),
            walk_edges_upto(nodes@, chains@, links@, speed as int, s as int, 0, 0),
        decreases links.len() - s,
    {
        let from_chain = &chains[s];
        let mut j: usize = 0;
        while j < links[s].len()
            invariant
                speed >= 1,
                links.len() == chains.len(),
                s < links.len(),
                from_chain == chains@[s as int],
                j <= links@[s as int].len(),
                grows_forward(orig, nodes@),
                forall|s: int| 0 <= s < chains.len() ==> chain_ok(orig, #[trigger] chains@[s]@, s),
                forall|s: int, j: int|
                    0 <= s < links.len() && 0 <= j < links@[s]@.len() ==> (
                    #[trigger] links@[s]@[j]).0 < chains.len(),
                walk_edges_upto(nodes@, chains@, links@, speed as int, s as int, j as int, 0),
            decreases links@[s as int].len() - j,
        {
            let (target, dist) = links[s][j];
            let to_chain = &chains[target];
            let total: u64 = dist as u64 * 1000 + speed as u64 - 1;
            let walk: u64 = total / speed as u64;
            proof {
                assert(total / (speed as u64) <= total) by (nonlinear_arith)
                    requires
                        speed >= 1,
                ;
            }
            let mut k: usize = 0;
            while k < from_chain.len()
                invariant
                    speed >= 1,
                    links.len() == chains.len(),
                    s < chains.len(),
                    j < links@[s as int].len(),
                    (target, dist) == links@[s as int]@[j as int],
                    target < chains.len(),
                    from_chain == chains@[s as int],
                    to_chain == chains@[target as int],
                    walk == walk_seconds(dist as int, speed as int),
                    walk <= u32::MAX as u64 * 1001,
                    k <= from_chain.len(),
                    grows_forward(orig, nodes@),
                    forall|s: int| 0 <= s < chains.len() ==> chain_ok(orig, #[trigger] chains@[s]@, s),
                    forall|s: int, j: int|
                        0 <= s < links.len() && 0 <= j < links@[s]@.len() ==> (
                        #[trigger] links@[s]@[j]).0 < chains.len(),
                    walk_edges_upto(nodes@, chains@, links@, speed as int, s as int, j as int, k as int),
                decreases from_chain.len() - k,
            {
                let u = from_chain[k];
                let ghost before = nodes@;
                proof {
                    lemma_chain_ok_kept(orig, nodes@, from_chain@, s as int);
                    lemma_chain_ok_kept(orig, nodes@, to_chain@, target as int);
                    lemma_chain_times_sorted(nodes@, to_chain@, target as int);
                    assert forall|a: int| 0 <= a < chains.len() implies chain_ok(
                        before,
                        #[trigger] chains@[a]@,
                        a,
                    ) by {
                        lemma_chain_ok_kept(orig, before, chains@[a]@, a);
                    }
                }
                let reach: u64 = nodes[u].time as u64 + walk;
                match bin_search(nodes, reach, to_chain) {
                    Some(v) => {
                        add_forward_edge(nodes, u, v);
                        proof {
                            lemma_grows_forward_trans(orig, before, nodes@);
                            lemma_walk_edges_kept(
                                before,
                                nodes@,
                                chains@,
                                links@,
                                speed as int,
                                s as int,
                                j as int,
                                k as int,
                            );
                            let pv = choose|p: int|
                                0 <= p < to_chain.len() && to_chain@[p] == v && before[v as int].time
                                    >= reach && forall|q: int|
                                    0 <= q < p ==> before[to_chain@[q] as int].time < reach;
                            assert(first_at_or_after(before, to_chain@, reach as int, pv));
                            assert(nodes@[u as int].edges@ == before[u as int].edges@.push(v));
                            assert(nodes@[u as int].edges@[before[u as int].edges@.len() as int] == v);
                            assert forall|p: int|
                                #[trigger] first_at_or_after(
                                    nodes@,
                                    chains@[target as int]@,
                                    nodes@[chains@[s as int]@[k as int] as int].time
                                        + walk_seconds(dist as int, speed as int),
                                    p,
                                ) implies has_edge(
                                nodes@,
                                chains@[s as int]@[k as int] as int,
                                chains@[target as int]@[p] as int,
                            ) by {
                                assert forall|q: int| 0 <= q < p implies before[to_chain@[q] as int].time
                                    < reach by {
                                    assert(nodes@[to_chain@[q] as int].time == before[to_chain@[q] as int].time);
                                }
                                assert(nodes@[to_chain@[p] as int].time == before[to_chain@[p] as int].time);
                                assert(first_at_or_after(before, to_chain@, reach as int, p));
                                lemma_first_unique(before, to_chain@, reach as int, p, pv);
                            }
                            assert(walk_edge_ok(
                                nodes@,
                                chains@,
                                s as int,
                                target as int,
                                dist as int,
                                speed as int,
                                k as int,
                            ));
                        }
                    },
                    None => {
                        proof {
                            assert forall|p: int|
                                #[trigger] first_at_or_after(
                                    nodes@,
                                    chains@[target as int]@,
                                    nodes@[chains@[s as int]@[k as int] as int].time
                                        + walk_seconds(dist as int, speed as int),
                                    p,
                                ) implies has_edge(
                                nodes@,
                                chains@[s as int]@[k as int] as int,
                                chains@[target as int]@[p] as int,
                            ) by {
                                assert(nodes@[to_chain@[p] as int].time < reach);
                            }
                            assert(walk_edge_ok(
                                nodes@,
                                chains@,
                                s as int,
                                target as int,
                                dist as int,
                                speed as int,
                                k as int,
                            ));
                        }
                    },
                }
                k += 1;
            }
            j += 1;
        }
        s += 1;
    }
}

proof fn lemma_built_nodes_kept(
    old: Seq<Node>,
    nodes: Seq<Node>,
    n_stops: int,
    trips: Seq<Trip>,
    trip_service: Seq<usize>,
)
    requires
        built_nodes_ok(old, n_stops, trips, trip_service, old.len() as int),
        grows_forward(old, nodes),
    ensures
        built_nodes_ok(nodes, n_stops, trips, trip_service, nodes.len() as int),
{
    assert forall|v: int, k: int|
        0 <= v < nodes.len() && 0 <= k < nodes[v].edges@.len() implies (#[trigger] nodes[v].edges@[k])
        < nodes.len() by {
        assert(nodes[v] == nodes[v]);
        if k < old[v].edges@.len() {
            assert(nodes[v].edges@.subrange(0, old[v].edges@.len() as int)[k] == nodes[v].edges@[k]);
            assert(old[v].edges@[k] == nodes[v].edges@[k]);
        }
    }
    assert forall|v: int, k: int|
        0 <= v < nodes.len() && nodes[v].location is Stop && 0 <= k < nodes[v].edges@.len()
            implies nodes[v].time <= nodes[(#[trigger] nodes[v].edges@[k]) as int].time by {
        assert(nodes[v] == nodes[v]);
        if k < old[v].edges@.len() {
            assert(nodes[v].edges@.subrange(0, old[v].edges@.len() as int)[k] == nodes[v].edges@[k]);
            assert(old[v].edges@[k] == nodes[v].edges@[k]);
            assert(old[v].location is Stop);
            assert(nodes[nodes[v].edges@[k] as int] == nodes[nodes[v].edges@[k] as int]);
        }
    }
    assert forall|v: int, k: int|
        0 <= v < nodes.len() && nodes[v].location is Stop && 0 <= k < nodes[v].edges@.len()
            implies (#[trigger] nodes[v].edges@[k]) < nodes.len() by {
        assert(nodes[v] == nodes[v]);
    }
    assert forall|v: int| 0 <= v < nodes.len() && (#[trigger] nodes[v]).location is Stop implies nodes[v].location->Stop_0 < n_stops by {
        assert(old[v].location == nodes[v].location);
    }
    assert forall|v: int| 0 <= v < nodes.len() && (#[trigger] nodes[v]).location is Trip implies {
            let t = nodes[v].location->Trip_0 as int;
            &&& t < trips.len()
            &&& nodes[v].location->Trip_1 == trip_service[t]
            &&& block_start(trips, t) <= v < block_start(trips, t) + 3 * trips[t].stop_times@.len()
            &&& (v - block_start(trips, t)) % 3 == 0
        } by {
        assert(old[v].location == nodes[v].location);
    }
}

proof fn lemma_trip_block_kept(
    old: Seq<Node>,
    nodes: Seq<Node>,
    stops: Seq<Stop>,
    trip: Trip,
    t: int,
    service: int,
    first: int,
    tau: int,
)
    requires
        trip_block_ok(old, stops, trip, t, service, first, tau),
        grows_forward(old, nodes),
    ensures
        trip_block_ok(nodes, stops, trip, t, service, first, tau),
{
    let n = trip.stop_times@.len();
    assert forall|i: int| 0 <= i < n implies {
        let b = first + 3 * i;
        &&& (#[trigger] trip.stop_times@[i]) == trip.stop_times@[i]
        &&& nodes[b].edges@ == old[b].edges@
        &&& nodes[b + 1].edges@[0] == old[b + 1].edges@[0]
        &&& nodes[b] == nodes[b]
        &&& nodes[b + 1] == nodes[b + 1]
        &&& nodes[b + 2] == nodes[b + 2]
    } by {
        let st = trip.stop_times@[i];
        let b = first + 3 * i;
        assert(nodes[b] == nodes[b]);
        assert(nodes[b + 1] == nodes[b + 1]);
        assert(st == trip.stop_times@[i]);
        assert(old[b].location is Trip);
        assert(nodes[b].location is Trip);
        assert(old[b].edges@.len() <= nodes[b].edges@.len());
        if nodes[b].edges@.len() > old[b].edges@.len() {
            let k = old[b].edges@.len() as int;
            assert(0 <= b < nodes.len());
            assert(old[b].edges@.len() <= k < nodes[b].edges@.len());
            assert(nodes[b].edges@[k] < nodes.len());
            assert(nodes[b].location is Stop);
        }
        assert(nodes[b].edges@.subrange(0, old[b].edges@.len() as int) == old[b].edges@);
        assert(nodes[b].edges@ =~= old[b].edges@);
        assert(nodes[b + 1].edges@.subrange(0, old[b + 1].edges@.len() as int)[0] == nodes[b + 1].edges@[0]);
    }
}

/// Settings of the graph build.
pub struct NetworkConfig {
    /// Walking radius, in metres; also the side of the grid cells.
    pub pedestrian_radius: u32,
    /// Walking speed, in millimetres per second.
    pub pedestrian_speed: u32,
    /// Seconds added to every arrival to change platforms.
    pub min_transfer_time: u32,
}

impl NetworkConfig {
    /// 500 m radius, 1 m/s walking speed and 60 s transfer time.
    pub fn default_config() -> (r: NetworkConfig)
        ensures
            r.pedestrian_radius == 500,
            r.pedestrian_speed == 1000,
            r.min_transfer_time == 60,
    {
        NetworkConfig { pedestrian_radius: 500, pedestrian_speed: 1000, min_transfer_time: 60 }
    }
}

/// Why a feed cannot be built into a network.
#[derive(Clone, Copy, Debug, PartialEq, Eq, Structural)]
pub enum FeedError {
    /// The trip at this index names a service that the feed does not hold.
    UnknownService { trip: usize },
    /// The stop time at this position of this trip names a stop that the feed does not hold.
    UnknownStop { trip: usize, stop_time: usize },
    /// The arrival time of this stop time plus the transfer time does not fit in 32 bits.
    TimeOverflow { trip: usize, stop_time: usize },
}

/// The built transit network: the feed's tables, the time-expanded graph, the time-sorted node
/// chain of every stop, and the stop groups.
pub struct Network {
    pub stops: Vec<Stop>,
    pub routes: Vec<Route>,
    pub trips: Vec<Trip>,
    pub services: Vec<Service>,
    /// Index in `services` of the service of each trip.
    pub trip_service: Vec<usize>,
    pub stop_node_chains: Vec<Vec<usize>>,
    pub stop_groups: Vec<StopGroup>,
    pub nodes: Vec<Node>,
    pub min_transfer_time: u32,
    /// Walking radius, in metres.
    pub pedestrian_radius: u32,
    /// Walking speed, in millimetres per second.
    pub pedestrian_speed: u32,
    /// Position of each stop by id; only a fast path, every answer is checked.
    pub stop_lookup: HashMap<String, usize>,
    /// Position of each trip by id; only a fast path, every answer is checked.
    pub trip_lookup: HashMap<String, usize>,
}

impl Network {
    /// The graph fits the feed: each trip's nodes form its block, each node at a stop has
    /// edges forward in time only, each stop's chain holds exactly its nodes in time order, and
    /// the stops are grouped.
    pub open spec fn wf(&self) -> bool {
        let nodes = self.nodes@;
        &&& self.trip_service.len() == self.trips.len()
        &&& forall|t: int|
            0 <= t < self.trips.len() ==> {
                &&& (#[trigger] self.trip_service@[t]) < self.services.len()
                &&& self.services@[self.trip_service@[t] as int].service_id@
                    == self.trips@[t].service_id@
            }
        &&& nodes.len() == block_start(self.trips@, self.trips.len() as int)
        &&& built_nodes_ok(
            nodes,
            self.stops.len() as int,
            self.trips@,
            self.trip_service@,
            nodes.len() as int,
        )
        &&& forall|t: int|
            0 <= t < self.trips.len() ==> trip_block_ok(
                nodes,
                self.stops@,
                #[trigger] self.trips@[t],
                t,
                self.trip_service@[t] as int,
                block_start(self.trips@, t),
                self.min_transfer_time as int,
            )
        &&& self.stop_node_chains.len() == self.stops.len()
        &&& forall|s: int|
            0 <= s < self.stops.len() ==> chain_ok(nodes, #[trigger] self.stop_node_chains@[s]@, s)
        &&& stop_groups_ok(self.stops@, self.stop_groups@)
    }
}

impl Network {
    /// Each node at a stop has an edge to the next node in time at that stop.
    pub open spec fn chain_edges_present(&self) -> bool {
        forall|s: int, k: int|
            0 <= s < self.stop_node_chains.len() && 0 <= k < self.stop_node_chains@[s]@.len() - 1
                ==> has_edge(
                self.nodes@,
                #[trigger] self.stop_node_chains@[s]@[k] as int,
                self.stop_node_chains@[s]@[k + 1] as int,
            )
    }

    /// Each node at a stop has an edge to the first node, at every stop within the walking
    /// radius (itself included), that can be reached by walking the Manhattan distance between
    /// the two, where there is such a node.
    pub open spec fn walking_edges_present(&self) -> bool {
        forall|s: int, t: int, k: int|
            0 <= s < self.stops.len() && 0 <= t < self.stops.len() && manhattan(
                self.stops@[s].position,
                self.stops@[t].position,
            ) <= self.pedestrian_radius && 0 <= k < self.stop_node_chains@[s]@.len()
                ==> #[trigger] walk_edge_ok(
                self.nodes@,
                self.stop_node_chains@,
                s,
                t,
                manhattan(self.stops@[s].position, self.stops@[t].position),
                self.pedestrian_speed as int,
                k,
            )
    }
}

/// Some service of `services` has id `id`.
pub open spec fn service_known(services: Seq<Service>, id: Seq<char>) -> bool {
    exists|sv: int| 0 <= sv < services.len() && (#[trigger] services[sv]).service_id@ == id
}

/// Some stop of `stops` has id `id`.
pub open spec fn stop_known(stops: Seq<Stop>, id: Seq<char>) -> bool {
    exists|s: int| 0 <= s < stops.len() && (#[trigger] stops[s]).stop_id@ == id
}

/// Every trip names a service of the feed, every stop time a stop of the feed, and every arrival
/// plus `tau` fits in 32 bits.
pub open spec fn feed_refs_ok(stops: Seq<Stop>, trips: Seq<Trip>, services: Seq<Service>, tau: int) -> bool {
    &&& forall|t: int|
        0 <= t < trips.len() ==> service_known(services, (#[trigger] trips[t]).service_id@)
    &&& forall|t: int, i: int|
        0 <= t < trips.len() && 0 <= i < trips[t].stop_times@.len() ==> {
            &&& stop_known(stops, (#[trigger] trips[t].stop_times@[i]).stop_id@)
            &&& trips[t].stop_times@[i].arrival_time + tau <= u32::MAX
        }
}

/// Index of the stop with id `id`; the map is a fast path whose answer is checked, with a
/// search in order on a miss.
fn find_stop(index: &HashMap<String, usize>, stops: &Vec<Stop>, id: &String) -> (r: Option<usize>)
    ensures
        r matches Some(s) ==> s < stops.len() && stops@[s as int].stop_id@ == id@,
        r is None ==> forall|s: int| 0 <= s < stops.len() ==> (#[trigger] stops@[s]).stop_id@ != id@,
{
    if let Some(s) = index.get(id) {
        let s = *s;
        if s < stops.len() && stops[s].stop_id == *id {
            return Some(s);
        }
    }
    let mut s: usize = 0;
    while s < stops.len()
        invariant
            s <= stops.len(),
            forall|k: int| 0 <= k < s ==> (#[trigger] stops@[k]).stop_id@ != id@,
        decreases stops.len() - s,
    {
        if stops[s].stop_id == *id {
            return Some(s);
        }
        s += 1;
    }
    None
}

impl Network {
    /// Builds the network of a feed: resolves each trip's service and each stop time's stop,
    /// creates the nodes of every stop time, chains the nodes of every stop in time order, adds
    /// walking edges between stops within the walking radius, and groups the stops.
    pub fn new(
        stops: Vec<Stop>,
        routes: Vec<Route>,
        trips: Vec<Trip>,
        services: Vec<Service>,
        config: &NetworkConfig,
    ) -> (r: Result<Network, FeedError>)
        requires
            config.pedestrian_radius >= 1,
            config.pedestrian_speed >= 1,
            3 * stop_time_count(trips@, trips.len() as int) <= usize::MAX,
        ensures
            r is Ok <==> feed_refs_ok(stops@, trips@, services@, config.min_transfer_time as int),
            r matches Ok(nw) ==> {
                &&& nw.wf()
                &&& nw.stops@ == stops@
                &&& nw.routes@ == routes@
                &&& nw.trips@ == trips@
                &&& nw.services@ == services@
                &&& nw.min_transfer_time == config.min_transfer_time
                &&& nw.pedestrian_radius == config.pedestrian_radius
                &&& nw.pedestrian_speed == config.pedestrian_speed
                &&& nw.chain_edges_present()
                &&& nw.walking_edges_present()
            },
            r matches Err(FeedError::UnknownService { trip }) ==> trip < trips.len()
                && !service_known(services@, trips@[trip as int].service_id@),
            r matches Err(FeedError::UnknownStop { trip, stop_time }) ==> trip < trips.len()
                && stop_time < trips@[trip as int].stop_times@.len() && !stop_known(
                stops@,
                trips@[trip as int].stop_times@[stop_time as int].stop_id@,
            ),
            r matches Err(FeedError::TimeOverflow { trip, stop_time }) ==> trip < trips.len()
                && stop_time < trips@[trip as int].stop_times@.len()
                && trips@[trip as int].stop_times@[stop_time as int].arrival_time
                + config.min_transfer_time > u32::MAX,
    {
        let tau = config.min_transfer_time;
        let mut service_index: HashMap<String, usize> = HashMap::new();
        let mut k: usize = 0;
        while k < services.len()
            decreases services.len() - k,
        {
            service_index.insert(services[k].service_id.clone(), k);
            k += 1;
        }
        let mut stop_lookup: HashMap<String, usize> = HashMap::new();
        let mut k: usize = 0;
        while k < stops.len()
            decreases stops.len() - k,
        {
            stop_lookup.insert(stops[k].stop_id.clone(), k);
            k += 1;
        }
        let mut trip_service: Vec<usize> = Vec::new();
        let mut stop_index: Vec<Vec<usize>> = Vec::new();
        let mut t: usize = 0;
        while t < trips.len()
            invariant
                tau == config.min_transfer_time,
                t <= trips.len(),
                trip_service.len() == t,
                stop_index.len() == t,
                forall|u: int|
                    0 <= u < t ==> {
                        &&& (#[trigger] trip_service@[u]) < services.len()
                        &&& services@[trip_service@[u] as int].service_id@ == trips@[u].service_id@
                    },
                forall|u: int|
                    0 <= u < t ==> (#[trigger] stop_index@[u]).len() == trips@[u].stop_times@.len(),
                forall|u: int, i: int|
                    0 <= u < t && 0 <= i < trips@[u].stop_times@.len() ==> {
                        &&& (#[trigger] stop_index@[u]@[i]) < stops.len()
                        &&& stops@[stop_index@[u]@[i] as int].stop_id@
                            == trips@[u].stop_times@[i].stop_id@
                        &&& trips@[u].stop_times@[i].arrival_time + tau <= u32::MAX
                    },
            decreases trips.len() - t,
        {
            let trip = &trips[t];
            match find_service_index(&service_index, &services, &trip.service_id) {
                Some(sv) => {
                    trip_service.push(sv);
                },
                None => {
                    proof {
                        if service_known(services@, trips@[t as int].service_id@) {
                            let sv = choose|sv: int|
                                0 <= sv < services.len() && (#[trigger] services@[sv]).service_id@
                                    == trips@[t as int].service_id@;
                            assert(services@[sv].service_id@ != trip.service_id@);
                        }
                    }
                    return Err(FeedError::UnknownService { trip: t });
                },
            }
            let mut row: Vec<usize> = Vec::new();
            let mut i: usize = 0;
            while i < trip.stop_times.len()
                invariant
                    tau == config.min_transfer_time,
                    t < trips.len(),
                    trip == trips@[t as int],
                    i <= trip.stop_times.len(),
                    row.len() == i,
                    forall|j: int|
                        0 <= j < i ==> {
                            &&& (#[trigger] row@[j]) < stops.len()
                            &&& stops@[row@[j] as int].stop_id@ == trip.stop_times@[j].stop_id@
                            &&& trip.stop_times@[j].arrival_time + tau <= u32::MAX
                        },
                decreases trip.stop_times.len() - i,
            {
                let st = &trip.stop_times[i];
                match find_stop(&stop_lookup, &stops, &st.stop_id) {
                    Some(s) => {
                        row.push(s);
                    },
                    None => {
                        proof {
                            if stop_known(stops@, st.stop_id@) {
                                let s = choose|s: int|
                                    0 <= s < stops.len() && (#[trigger] stops@[s]).stop_id@
                                        == st.stop_id@;
                                assert(stops@[s].stop_id@ != st.stop_id@);
                            }
                        }
                        return Err(FeedError::UnknownStop { trip: t, stop_time: i });
                    },
                }
                if st.arrival_time as u64 + tau as u64 > u32::MAX as u64 {
                    proof {
                        assert(trips@[t as int].stop_times@[i as int] == *st);
                    }
                    return Err(FeedError::TimeOverflow { trip: t, stop_time: i });
                }
                i += 1;
            }
            stop_index.push(row);
            t += 1;
        }
        proof {
            assert forall|u: int| 0 <= u < trips.len() implies service_known(
                services@,
                (#[trigger] trips@[u]).service_id@,
            ) by {
                assert(services@[trip_service@[u] as int].service_id@ == trips@[u].service_id@);
            }
            assert forall|u: int, i: int|
                0 <= u < trips.len() && 0 <= i < trips@[u].stop_times@.len() implies {
                    &&& stop_known(stops@, (#[trigger] trips@[u].stop_times@[i]).stop_id@)
                    &&& trips@[u].stop_times@[i].arrival_time + tau <= u32::MAX
                } by {
                assert(stops@[stop_index@[u]@[i] as int].stop_id@ == trips@[u].stop_times@[i].stop_id@);
            }
        }
        let mut nodes = create_transport_nodes(&trips, &trip_service, &stop_index, &stops, tau);
        let ghost nodes1 = nodes@;
        let chains = collect_stop_chains(&nodes, stops.len());
        add_node_chaining(&mut nodes, &chains);
        let ghost nodes2 = nodes@;
        proof {
            assert forall|s: int| 0 <= s < chains.len() implies chain_ok(
                nodes2,
                #[trigger] chains@[s]@,
                s,
            ) by {
                lemma_chain_ok_kept(nodes1, nodes2, chains@[s]@, s);
            }
        }
        let mut positions: Vec<PlanarPoint> = Vec::new();
        let mut k: usize = 0;
        while k < stops.len()
            invariant
                k <= stops.len(),
                positions.len() == k,
                forall|j: int| 0 <= j < k ==> #[trigger] positions@[j] == stops@[j].position,
            decreases stops.len() - k,
        {
            positions.push(stops[k].position);
            k += 1;
        }
        let links = get_pedestrian_connections(&positions, config.pedestrian_radius);
        add_pedestrian_connections(&mut nodes, &chains, &links, config.pedestrian_speed);
        proof {
            lemma_grows_forward_trans(nodes1, nodes2, nodes@);
            lemma_built_nodes_kept(nodes1, nodes@, stops.len() as int, trips@, trip_service@);
            assert forall|s: int, k: int|
                0 <= s < chains.len() && 0 <= k < chains@[s]@.len() - 1 implies has_edge(
                nodes@,
                #[trigger] chains@[s]@[k] as int,
                chains@[s]@[k + 1] as int,
            ) by {
                lemma_edge_kept(nodes2, nodes@, chains@[s]@[k] as int, chains@[s]@[k + 1] as int);
            }
            assert forall|s: int, t: int, k: int|
                0 <= s < stops.len() && 0 <= t < stops.len() && manhattan(
                    stops@[s].position,
                    stops@[t].position,
                ) <= config.pedestrian_radius && 0 <= k < chains@[s]@.len() implies #[trigger] walk_edge_ok(
                nodes@,
                chains@,
                s,
                t,
                manhattan(stops@[s].position, stops@[t].position),
                config.pedestrian_speed as int,
                k,
            ) by {
                let m = manhattan(positions@[s], positions@[t]);
                assert(positions@[s] == stops@[s].position);
                assert(positions@[t] == stops@[t].position);
                assert(links@[s]@.contains((t as usize, m as u32)));
                let j = choose|j: int| 0 <= j < links@[s]@.len() && links@[s]@[j] == (t as usize, m as u32);
                assert(links@[s]@[j] == (t as usize, m as u32));
                assert(walk_edge_ok(
                    nodes@,
                    chains@,
                    s,
                    links@[s]@[j].0 as int,
                    links@[s]@[j].1 as int,
                    config.pedestrian_speed as int,
                    k,
                ));
            }
            assert forall|s: int| 0 <= s < chains.len() implies chain_ok(
                nodes@,
                #[trigger] chains@[s]@,
                s,
            ) by {
                lemma_chain_ok_kept(nodes2, nodes@, chains@[s]@, s);
            }
            assert forall|t: int| 0 <= t < trips.len() implies trip_block_ok(
                nodes@,
                stops@,
                #[trigger] trips@[t],
                t,
                trip_service@[t] as int,
                block_start(trips@, t),
                tau as int,
            ) by {
                lemma_trip_block_kept(
                    nodes1,
                    nodes@,
                    stops@,
                    trips@[t],
                    t,
                    trip_service@[t] as int,
                    block_start(trips@, t),
                    tau as int,
                );
            }
        }
        let stop_groups = create_stop_groups(&stops);
        let mut trip_lookup: HashMap<String, usize> = HashMap::new();
        let mut k: usize = 0;
        while k < trips.len()
            decreases trips.len() - k,
        {
            trip_lookup.insert(trips[k].trip_id.clone(), k);
            k += 1;
        }
        Ok(
            Network {
                stops,
                routes,
                trips,
                services,
                trip_service,
                stop_node_chains: chains,
                stop_groups,
                nodes,
                min_transfer_time: tau,
                pedestrian_radius: config.pedestrian_radius,
                pedestrian_speed: config.pedestrian_speed,
                stop_lookup,
                trip_lookup,
            },
        )
    }
}

/// Along each trip, a vehicle leaves a stop no earlier than the stops before and no later
/// than `tau` seconds after it arrives there.
pub open spec fn trip_times_consistent(trip: Trip, tau: int) -> bool {
    &&& forall|i: int|
        0 <= i < trip.stop_times@.len() ==> (#[trigger] trip.stop_times@[i]).departure_time
            <= trip.stop_times@[i].arrival_time + tau
    &&& forall|i: int, j: int|
        0 <= i <= j < trip.stop_times@.len() ==> (#[trigger] trip.stop_times@[i]).departure_time
            <= (#[trigger] trip.stop_times@[j]).departure_time
}

proof fn lemma_aboard_edge(
    nodes: Seq<Node>,
    stops: Seq<Stop>,
    trip: Trip,
    t: int,
    service: int,
    b0: int,
    tau: int,
    u: int,
    k: int,
)
    requires
        trip_block_ok(nodes, stops, trip, t, service, b0, tau),
        trip_times_consistent(trip, tau),
        nodes.len() <= usize::MAX,
        b0 <= u < b0 + 3 * trip.stop_times@.len(),
        (u - b0) % 3 == 0,
        0 <= k < nodes[u].edges@.len(),
    ensures
        nodes[u].time <= nodes[nodes[u].edges@[k] as int].time,
{
    let d = u - b0;
    let i = d / 3;
    assert(d == 3 * i && 0 <= i < trip.stop_times@.len()) by (nonlinear_arith)
        requires
            d % 3 == 0,
            i == d / 3,
            0 <= d < 3 * trip.stop_times@.len(),
    ;
    let st = trip.stop_times@[i];
    assert(nodes[u].time == st.departure_time);
    assert(nodes[u + 2].time == st.arrival_time + tau);
    assert(st.departure_time <= st.arrival_time + tau);
    if i + 1 < trip.stop_times@.len() {
        let st2 = trip.stop_times@[i + 1];
        assert(nodes[u].edges@ == seq![(u + 2) as usize, (u + 3) as usize]);
        assert(nodes[b0 + 3 * (i + 1)].time == st2.departure_time);
        assert(st.departure_time <= st2.departure_time);
        assert(nodes[u].edges@[k] == u + 2 || nodes[u].edges@[k] == u + 3);
    } else {
        assert(nodes[u].edges@ == seq![(u + 2) as usize]);
    }
}

/// Every edge of the graph leads to a node no earlier than its source, wherever the feed's trips
/// keep their times consistent (with a dwell longer than the transfer time, the alighting edge
/// would go back in time).
pub proof fn lemma_edges_monotone(nw: &Network)
    requires
        nw.wf(),
        forall|t: int|
            0 <= t < nw.trips.len() ==> trip_times_consistent(
                #[trigger] nw.trips@[t],
                nw.min_transfer_time as int,
            ),
    ensures
        edges_monotone(nw.nodes@),
{
    let nodes = nw.nodes@;
    assert(nodes.len() == nw.nodes.len());
    assert forall|u: int, k: int|
        0 <= u < nodes.len() && 0 <= k < nodes[u].edges@.len() implies nodes[u].time <= nodes[(
    #[trigger] nodes[u].edges@[k]) as int].time by {
        if nodes[u].location is Trip {
            let t = nodes[u].location->Trip_0 as int;
            lemma_aboard_edge(
                nodes,
                nw.stops@,
                nw.trips@[t],
                t,
                nw.trip_service@[t] as int,
                block_start(nw.trips@, t),
                nw.min_transfer_time as int,
                u,
                k,
            );
        }
    }
}

/// The chain of stop `s` holds exactly the nodes at `s`, each once, with times that never
/// decrease along it.
pub proof fn lemma_stop_node_chain(nw: &Network, s: int)
    requires
        nw.wf(),
        0 <= s < nw.stops.len(),
    ensures
        forall|k: int, l: int|
            0 <= k <= l < nw.stop_node_chains@[s]@.len() ==> nw.nodes@[nw.stop_node_chains@[s]@[k] as int].time
                <= nw.nodes@[nw.stop_node_chains@[s]@[l] as int].time,
        forall|k: int|
            0 <= k < nw.stop_node_chains@[s]@.len() ==> nw.nodes@[(
            #[trigger] nw.stop_node_chains@[s]@[k]) as int].location == Location::Stop(s as usize),
        forall|v: int|
            0 <= v < nw.nodes.len() && (#[trigger] nw.nodes@[v]).location == Location::Stop(s as usize)
                ==> nw.stop_node_chains@[s]@.contains(v as usize),
        forall|k: int, l: int|
            0 <= k < l < nw.stop_node_chains@[s]@.len() ==> #[trigger] nw.stop_node_chains@[s]@[k]
                != #[trigger] nw.stop_node_chains@[s]@[l],
{
    let chain = nw.stop_node_chains@[s]@;
    assert(chain_ok(nw.nodes@, chain, s));
    lemma_chain_times_sorted(nw.nodes@, chain, s);
    assert forall|k: int, l: int| 0 <= k < l < chain.len() implies #[trigger] chain[k] != #[trigger] chain[l] by {
        assert(pair_lt(time_key(nw.nodes@, chain[k] as int), time_key(nw.nodes@, chain[l] as int)));
    }
}

/// Trip `t` with `n` stop times owns the `3 * n` nodes from `block_start(trips, t)` on: for stop
/// time `i` the node aboard, the departure node and the arrival node, the arrival node
/// `arrival + tau - departure` seconds after the node aboard. No other node is aboard trip `t`.
pub proof fn lemma_trip_nodes(nw: &Network, t: int)
    requires
        nw.wf(),
        0 <= t < nw.trips.len(),
    ensures
        ({
            let trip = nw.trips@[t];
            let b0 = block_start(nw.trips@, t);
            let tau = nw.min_transfer_time as int;
            &&& b0 + 3 * trip.stop_times@.len() <= nw.nodes.len()
            &&& forall|i: int|
                0 <= i < trip.stop_times@.len() ==> {
                    let st = #[trigger] trip.stop_times@[i];
                    let b = b0 + 3 * i;
                    &&& nw.nodes@[b].location == Location::Trip(
                        t as usize,
                        nw.trip_service@[t],
                    )
                    &&& nw.nodes@[b].time == st.departure_time
                    &&& nw.nodes@[b + 1].location is Stop
                    &&& nw.stops@[nw.nodes@[b + 1].location->Stop_0 as int].stop_id@ == st.stop_id@
                    &&& nw.nodes@[b + 1].time == st.departure_time
                    &&& nw.nodes@[b + 2].location == nw.nodes@[b + 1].location
                    &&& nw.nodes@[b + 2].time - nw.nodes@[b].time == st.arrival_time + tau
                        - st.departure_time
                    &&& st.departure_time <= st.arrival_time + tau ==> nw.nodes@[b + 2].time
                        >= nw.nodes@[b].time
                }
            &&& forall|v: int|
                0 <= v < nw.nodes.len() && (#[trigger] nw.nodes@[v]).location is Trip
                    && nw.nodes@[v].location->Trip_0 == t ==> b0 <= v < b0 + 3
                    * trip.stop_times@.len() && (v - b0) % 3 == 0
        }),
{
    let trip = nw.trips@[t];
    let b0 = block_start(nw.trips@, t);
    assert(trip_block_ok(
        nw.nodes@,
        nw.stops@,
        trip,
        t,
        nw.trip_service@[t] as int,
        b0,
        nw.min_transfer_time as int,
    ));
}

impl Network {
    /// The node with id `id`.
    pub fn get_node(&self, id: usize) -> (r: &Node)
        requires
            id < self.nodes.len(),
        ensures
            *r == self.nodes@[id as int],
    {
        &self.nodes[id]
    }

    /// The stop with id `id`, if the feed has one.
    pub fn get_stop(&self, id: &String) -> (r: Option<&Stop>)
        ensures
            r matches Some(st) ==> st.stop_id@ == id@ && exists|s: int|
                0 <= s < self.stops.len() && #[trigger] self.stops@[s] == *st,
            r is None ==> !stop_known(self.stops@, id@),
    {
        match find_stop(&self.stop_lookup, &self.stops, id) {
            Some(s) => {
                proof {
                    assert(self.stops@[s as int] == self.stops@[s as int]);
                }
                Some(&self.stops[s])
            },
            None => None,
        }
    }

    /// The trip with id `id`, if the feed has one.
    pub fn get_trip(&self, id: &String) -> (r: Option<&Trip>)
        ensures
            r matches Some(tr) ==> tr.trip_id@ == id@ && exists|t: int|
                0 <= t < self.trips.len() && #[trigger] self.trips@[t] == *tr,
            r is None ==> forall|t: int| 0 <= t < self.trips.len() ==> (#[trigger] self.trips@[t]).trip_id@ != id@,
    {
        match find_trip_index(&self.trip_lookup, &self.trips, id) {
            Some(t) => {
                proof {
                    assert(self.trips@[t as int] == self.trips@[t as int]);
                }
                Some(&self.trips[t])
            },
            None => None,
        }
    }

    /// The short name of the trip's route for a trip with a headsign, or `Unnamed trip`.
    pub fn get_trip_short_name(&self, trip: &Trip) -> (r: String)
        requires
            exists|k: int| 0 <= k < self.routes.len() && (#[trigger] self.routes@[k]).route_id@ == trip.route_id@,
        ensures
            trip.trip_headsign is None ==> r@ == "Unnamed trip"@,
            trip.trip_headsign is Some ==> exists|k: int|
                0 <= k < self.routes.len() && (#[trigger] self.routes@[k]).route_id@ == trip.route_id@
                    && r@ == self.routes@[k].route_short_name@,
    {
        let mut k: usize = 0;
        while k < self.routes.len()
            invariant
                k <= self.routes.len(),
                forall|j: int| 0 <= j < k ==> (#[trigger] self.routes@[j]).route_id@ != trip.route_id@,
            decreases self.routes.len() - k,
        {
            if self.routes[k].route_id == trip.route_id {
                return match &trip.trip_headsign {
                    Some(_) => self.routes[k].route_short_name.clone(),
                    None => String::from_str("Unnamed trip"),
                };
            }
            k += 1;
        }
        proof {
            let j = choose|j: int| 0 <= j < self.routes.len() && (#[trigger] self.routes@[j]).route_id@ == trip.route_id@;
            assert(self.routes@[j].route_id@ != trip.route_id@);
        }
        String::from_str("Unnamed trip")
    }
}

} // verus!
