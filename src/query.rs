use vstd::prelude::*;
use crate::gtfs::Date;
use crate::gtfs::does_trip_operate;
use crate::gtfs::operates_on;
use crate::network::Location;
use crate::network::Network;
use crate::network::Node;
use crate::network::bin_search;
use crate::network::chain_ok;
use crate::network::edges_monotone;
use crate::network::has_edge;
use crate::min_heap::heap_pop;
use crate::min_heap::heap_push;
use crate::min_heap::is_min_heap;
use crate::network::lemma_chain_times_sorted;
use crate::stop_groups::get_stop_group_by_name;
use crate::stop_groups::owns_best_name;

verus! {

/// Edge `u -> v` exists and may be taken on `date`: a node aboard a trip is entered only on
/// the days its service operates.
pub open spec fn admissible(nw: &Network, date: Date, u: int, v: int) -> bool {
    &&& has_edge(nw.nodes@, u, v)
    &&& 0 <= v < nw.nodes.len()
    &&& (nw.nodes@[v].location is Trip ==> operates_on(
        &nw.services@[nw.nodes@[v].location->Trip_1 as int],
        date,
    ))
}

/// `p` is a sequence of nodes joined by edges that may be taken on `date`.
pub open spec fn is_walk(nw: &Network, date: Date, p: Seq<usize>) -> bool {
    &&& p.len() >= 1
    &&& forall|i: int| 0 <= i < p.len() ==> (#[trigger] p[i]) < nw.nodes.len()
    &&& forall|i: int| 0 <= i < p.len() - 1 ==> admissible(nw, date, #[trigger] p[i] as int, p[i + 1] as int)
}

/// Node `v` waits at one of the stops of group `g`.
pub open spec fn at_group(nw: &Network, g: int, v: int) -> bool {
    &&& nw.nodes@[v].location is Stop
    &&& nw.stop_groups@[g].stops@.contains(nw.nodes@[v].location->Stop_0)
}

/// `v` is the first node of stop `s`'s chain at or after time `t0`.
pub open spec fn is_first_departure(nw: &Network, s: int, t0: int, v: usize) -> bool {
    exists|p: int|
        0 <= p < nw.stop_node_chains@[s]@.len() && nw.stop_node_chains@[s]@[p] == v
            && nw.nodes@[v as int].time >= t0 && forall|q: int|
            0 <= q < p ==> nw.nodes@[nw.stop_node_chains@[s]@[q] as int].time < t0
}

/// `v` is where a journey from group `g` at time `t0` may start: the first node at or after
/// `t0` at one of the group's stops.
pub open spec fn is_seed(nw: &Network, g: int, t0: int, v: usize) -> bool {
    exists|k: int|
        0 <= k < nw.stop_groups@[g].stops@.len() && #[trigger] is_first_departure(
            nw,
            nw.stop_groups@[g].stops@[k] as int,
            t0,
            v,
        )
}

impl Network {
    /// The first node at or after `time` at each stop of group `g` that has one.
    pub fn get_departures_from_stop_group_after_time(&self, g: usize, time: u32) -> (r: Vec<usize>)
        requires
            self.wf(),
            g < self.stop_groups.len(),
        ensures
            forall|j: int| 0 <= j < r.len() ==> #[trigger] r@[j] < self.nodes.len(),
            forall|j: int| 0 <= j < r.len() ==> is_seed(self, g as int, time as int, #[trigger] r@[j]),
            forall|v: usize| is_seed(self, g as int, time as int, v) ==> r@.contains(v),
    {
        let group = &self.stop_groups[g];
        proof {
            assert forall|kk: int| 0 <= kk < group.stops@.len() implies (#[trigger] group.stops@[kk])
                < self.stops.len() && self.stop_node_chains@[group.stops@[kk] as int]@.len() >= 0 by {
                assert(group.stops@[kk] < self.stops.len());
            }
        }
        let mut r: Vec<usize> = Vec::new();
        let mut k: usize = 0;
        while k < group.stops.len()
            invariant
                g < self.stop_groups.len(),
                self.stop_node_chains.len() == self.stops.len(),
                forall|s: int|
                    0 <= s < self.stops.len() ==> chain_ok(
                        self.nodes@,
                        #[trigger] self.stop_node_chains@[s]@,
                        s,
                    ),
                forall|kk: int| 0 <= kk < group.stops@.len() ==> (#[trigger] group.stops@[kk])
                    < self.stops.len(),
                group == self.stop_groups@[g as int],
                k <= group.stops.len(),
                forall|j: int| 0 <= j < r.len() ==> #[trigger] r@[j] < self.nodes.len(),
                forall|j: int| 0 <= j < r.len() ==> is_seed(self, g as int, time as int, #[trigger] r@[j]),
                forall|kk: int, v: usize|
                    0 <= kk < k && #[trigger] is_first_departure(
                        self,
                        group.stops@[kk] as int,
                        time as int,
                        v,
                    ) ==> r@.contains(v),
            decreases group.stops.len() - k,
        {
            let s = group.stops[k];
            proof {
                assert(group.stops@[k as int] < self.stops.len());
                assert(chain_ok(self.nodes@, self.stop_node_chains@[s as int]@, s as int));
                lemma_chain_times_sorted(self.nodes@, self.stop_node_chains@[s as int]@, s as int);
            }
            let ghost old_r = r@;
            match bin_search(&self.nodes, time as u64, &self.stop_node_chains[s]) {
                Some(v) => {
                    r.push(v);
                    proof {
                        assert(is_first_departure(self, s as int, time as int, v));
                        assert(is_seed(self, g as int, time as int, v));
                        assert(r@[old_r.len() as int] == v);
                    }
                },
                None => {},
            }
            proof {
                assert forall|kk: int, v: usize|
                    0 <= kk < k + 1 && #[trigger] is_first_departure(
                        self,
                        group.stops@[kk] as int,
                        time as int,
                        v,
                    ) implies r@.contains(v) by {
                    if kk < k {
                        assert(old_r.contains(v));
                        let j = choose|j: int| 0 <= j < old_r.len() && old_r[j] == v;
                        assert(r@[j] == v);
                    } else {
                        let chain = self.stop_node_chains@[s as int]@;
                        let p = choose|p: int|
                            0 <= p < chain.len() && chain[p] == v && self.nodes@[v as int].time
                                >= time && forall|q: int|
                                0 <= q < p ==> self.nodes@[chain[q] as int].time < time;
                        assert(self.nodes@[chain[p] as int].time >= time);
                        assert(r@.len() > old_r.len());
                        let v2 = r@[old_r.len() as int];
                        let p2 = choose|p2: int|
                            0 <= p2 < chain.len() && chain[p2] == v2 && self.nodes@[v2 as int].time
                                >= time && forall|q: int|
                                0 <= q < p2 ==> self.nodes@[chain[q] as int].time < time;
                        if p < p2 {
                            assert(self.nodes@[chain[p] as int].time < time);
                        }
                        if p2 < p {
                            assert(self.nodes@[chain[p2] as int].time < time);
                        }
                        assert(v2 == v);
                    }
                }
            }
            k += 1;
        }
        proof {
            assert forall|v: usize| is_seed(self, g as int, time as int, v) implies r@.contains(v) by {
                let kk = choose|kk: int|
                    0 <= kk < group.stops@.len() && #[trigger] is_first_departure(
                        self,
                        group.stops@[kk] as int,
                        time as int,
                        v,
                    );
            }
        }
        r
    }
}

/// Number of `false` entries of `s`.
pub open spec fn count_false(s: Seq<bool>) -> int
    decreases s.len(),
{
    if s.len() == 0 {
        0
    } else {
        count_false(s.drop_last()) + if s.last() {
            0int
        } else {
            1int
        }
    }
}

proof fn lemma_count_false(s: Seq<bool>, i: int)
    requires
        0 <= i < s.len(),
        !s[i],
    ensures
        count_false(s.update(i, true)) == count_false(s) - 1,
        count_false(s) >= 1,
    decreases s.len(),
{
    lemma_count_false_nonneg(s.drop_last());
    if i == s.len() - 1 {
        assert(s.update(i, true).drop_last() =~= s.drop_last());
    } else {
        assert(s.update(i, true).drop_last() =~= s.drop_last().update(i, true));
        lemma_count_false(s.drop_last(), i);
    }
}

proof fn lemma_count_false_nonneg(s: Seq<bool>)
    ensures
        count_false(s) >= 0,
    decreases s.len(),
{
    if s.len() > 0 {
        lemma_count_false_nonneg(s.drop_last());
    }
}

/// Along a walk of a graph whose edges never go back in time, times do not decrease.
proof fn lemma_walk_times(nw: &Network, date: Date, q: Seq<usize>, i: int)
    requires
        edges_monotone(nw.nodes@),
        is_walk(nw, date, q),
        0 <= i < q.len(),
    ensures
        nw.nodes@[q[i] as int].time <= nw.nodes@[q[q.len() - 1] as int].time,
    decreases q.len() - i,
{
    if i < q.len() - 1 {
        lemma_walk_times(nw, date, q, i + 1);
        assert(admissible(nw, date, q[i] as int, q[i + 1] as int));
        let u = q[i] as int;
        let k = choose|k: int| 0 <= k < nw.nodes@[u].edges@.len() && nw.nodes@[u].edges@[k] == q[i + 1];
        assert(nw.nodes@[u].edges@[k] == q[i + 1]);
    }
}

/// Where the seeds are discovered, every settled node's admissible successors are discovered,
/// and every discovered node that is not settled is no earlier than `bound`, every node of a
/// walk from a seed whose times stay below `bound` is settled.
proof fn lemma_walk_settled(
    nw: &Network,
    date: Date,
    seeds: Seq<usize>,
    disc: Seq<bool>,
    settled: Seq<bool>,
    q: Seq<usize>,
    bound: int,
    i: int,
)
    requires
        is_walk(nw, date, q),
        seeds.contains(q[0]),
        disc.len() == nw.nodes.len(),
        settled.len() == nw.nodes.len(),
        forall|x: int| 0 <= x < seeds.len() ==> disc[#[trigger] seeds[x] as int],
        forall|u: int, v: int|
            0 <= u < nw.nodes.len() && settled[u] && #[trigger] admissible(nw, date, u, v)
                ==> disc[v],
        forall|v: int|
            0 <= v < nw.nodes.len() && #[trigger] disc[v] && !settled[v] ==> nw.nodes@[v].time
                >= bound,
        forall|j: int| 0 <= j < q.len() ==> nw.nodes@[#[trigger] q[j] as int].time < bound,
        0 <= i < q.len(),
    ensures
        settled[q[i] as int],
    decreases i,
{
    if i == 0 {
        let x = choose|x: int| 0 <= x < seeds.len() && seeds[x] == q[0];
        assert(disc[seeds[x] as int]);
    } else {
        lemma_walk_settled(nw, date, seeds, disc, settled, q, bound, i - 1);
        assert(admissible(nw, date, q[i - 1] as int, q[i - 1 + 1] as int));
    }
    assert(q[i] < nw.nodes.len());
    assert(nw.nodes@[q[i] as int].time < bound);
}

/// What the search needs of the graph: edges lead to nodes, and the service of a node aboard
/// a trip is one of the network's services.
pub open spec fn search_ready(nw: &Network) -> bool {
    &&& forall|u: int, k: int|
        0 <= u < nw.nodes.len() && 0 <= k < nw.nodes@[u].edges@.len() ==> (
        #[trigger] nw.nodes@[u].edges@[k]) < nw.nodes.len()
    &&& forall|v: int|
        0 <= v < nw.nodes.len() && (#[trigger] nw.nodes@[v]).location is Trip
            ==> nw.nodes@[v].location->Trip_1 < nw.services.len()
}

proof fn lemma_search_ready(nw: &Network)
    requires
        nw.wf(),
    ensures
        search_ready(nw),
{
    assert forall|v: int|
        0 <= v < nw.nodes.len() && (#[trigger] nw.nodes@[v]).location is Trip implies nw.nodes@[v].location->Trip_1
        < nw.services.len() by {
        let t = nw.nodes@[v].location->Trip_0 as int;
        assert(nw.trip_service@[t] < nw.services.len());
    }
}

impl Network {
    /// Whether stop `s` belongs to group `g`.
    fn group_contains(&self, g: usize, s: usize) -> (r: bool)
        requires
            g < self.stop_groups.len(),
        ensures
            r == self.stop_groups@[g as int].stops@.contains(s),
    {
        let stops = &self.stop_groups[g].stops;
        let mut k: usize = 0;
        while k < stops.len()
            invariant
                g < self.stop_groups.len(),
                stops == self.stop_groups@[g as int].stops,
                k <= stops.len(),
                forall|j: int| 0 <= j < k ==> stops@[j] != s,
            decreases stops.len() - k,
        {
            if stops[k] == s {
                proof {
                    assert(stops@[k as int] == s);
                }
                return true;
            }
            k += 1;
        }
        false
    }

    /// Whether node `v` waits at a stop of group `g`.
    fn is_destination(&self, v: usize, g: usize) -> (r: bool)
        requires
            v < self.nodes.len(),
            g < self.stop_groups.len(),
        ensures
            r == at_group(self, g as int, v as int),
    {
        match self.nodes[v].location {
            Location::Stop(s) => self.group_contains(g, s),
            Location::Trip(_, _) => false,
        }
    }

    /// Whether edge `u -> v` may be taken on `date`.
    fn can_take_edge(&self, date: &Date, v: usize) -> (r: bool)
        requires
            search_ready(self),
            v < self.nodes.len(),
            date.is_valid(),
        ensures
            r == (self.nodes@[v as int].location is Trip ==> operates_on(
                &self.services@[self.nodes@[v as int].location->Trip_1 as int],
                *date,
            )),
    {
        match self.nodes[v].location {
            Location::Trip(_, sv) => does_trip_operate(date, &self.services[sv]),
            Location::Stop(_) => true,
        }
    }

    /// Earliest-arrival search from `seeds` to the stops of group `dest`, on `date`. Nodes are
    /// settled in order of time; on settling a node at a destination stop, the walk that
    /// discovered it is returned.
    pub fn search(&self, seeds: &Vec<usize>, dest: usize, date: &Date) -> (r: Option<Vec<usize>>)
        requires
            self.wf(),
            date.is_valid(),
            dest < self.stop_groups.len(),
            forall|j: int| 0 <= j < seeds.len() ==> #[trigger] seeds@[j] < self.nodes.len(),
        ensures
            r matches Some(path) ==> {
                &&& is_walk(self, *date, path@)
                &&& seeds@.contains(path@[0])
                &&& at_group(self, dest as int, path@.last() as int)
                &&& edges_monotone(self.nodes@) ==> forall|q: Seq<usize>|
                    is_walk(self, *date, q) && seeds@.contains(q[0]) && #[trigger] at_group(
                        self,
                        dest as int,
                        q.last() as int,
                    ) ==> self.nodes@[path@.last() as int].time <= self.nodes@[q.last() as int].time
            },
            r is None ==> forall|q: Seq<usize>|
                is_walk(self, *date, q) && seeds@.contains(q[0]) ==> !#[trigger] at_group(
                    self,
                    dest as int,
                    q.last() as int,
                ),
    {
        proof {
            lemma_search_ready(self);
        }
        let n = self.nodes.len();
        let mut discovered: Vec<bool> = Vec::new();
        let mut settled: Vec<bool> = Vec::new();
        let mut parent: Vec<Option<usize>> = Vec::new();
        while discovered.len() < n
            invariant
                discovered.len() == settled.len(),
                discovered.len() == parent.len(),
                discovered.len() <= n,
                forall|v: int| 0 <= v < discovered.len() ==> !(#[trigger] discovered@[v]),
                forall|v: int| 0 <= v < settled.len() ==> !(#[trigger] settled@[v]),
                forall|v: int| 0 <= v < parent.len() ==> (#[trigger] parent@[v]) is None,
            decreases n - discovered.len(),
        {
            discovered.push(false);
            settled.push(false);
            parent.push(None);
        }
        let mut queue: Vec<(u32, usize)> = Vec::new();
        let ghost mut order: Seq<int> = Seq::new(n as nat, |v: int| 0int);
        let ghost mut counter: int = 1;
        let mut j: usize = 0;
        while j < seeds.len()
            invariant
                n == self.nodes.len(),
                discovered.len() == n,
                settled.len() == n,
                parent.len() == n,
                order.len() == n,
                j <= seeds.len(),
                forall|x: int| 0 <= x < seeds.len() ==> #[trigger] seeds@[x] < n,
                forall|v: int| 0 <= v < n ==> !(#[trigger] settled@[v]),
                forall|v: int| 0 <= v < n ==> (#[trigger] parent@[v]) is None,
                forall|x: int| 0 <= x < j ==> discovered@[#[trigger] seeds@[x] as int],
                forall|v: int| 0 <= v < n && #[trigger] discovered@[v] ==> seeds@.contains(v as usize),
                is_min_heap(queue@),
                forall|q: int|
                    0 <= q < queue.len() ==> {
                        &&& (#[trigger] queue@[q]).1 < n
                        &&& queue@[q].0 == self.nodes@[queue@[q].1 as int].time
                        &&& discovered@[queue@[q].1 as int]
                    },
                forall|v: int|
                    0 <= v < n && #[trigger] discovered@[v] ==> queue@.contains(
                        (self.nodes@[v].time, v as usize),
                    ),
                forall|v: int| 0 <= v < n ==> #[trigger] order[v] == 0,
                counter == 1,
            decreases seeds.len() - j,
        {
            let v = seeds[j];
            if !discovered[v] {
                let ghost old_queue = queue@;
                let ghost old_disc = discovered@;
                discovered[v] = true;
                heap_push(&mut queue, (self.nodes[v].time, v));
                proof {
                    assert(queue@.contains((self.nodes@[v as int].time, v)));
                    assert forall|w: int|
                        0 <= w < n && #[trigger] discovered@[w] implies queue@.contains(
                        (self.nodes@[w].time, w as usize),
                    ) by {
                        if w != v {
                            assert(old_disc[w]);
                            assert(old_queue.contains((self.nodes@[w].time, w as usize)));
                        }
                    }
                    assert forall|q: int| 0 <= q < queue.len() implies {
                        &&& (#[trigger] queue@[q]).1 < n
                        &&& queue@[q].0 == self.nodes@[queue@[q].1 as int].time
                        &&& discovered@[queue@[q].1 as int]
                    } by {
                        assert(queue@.contains(queue@[q]));
                        if queue@[q] != (self.nodes@[v as int].time, v) {
                            let q2 = choose|q2: int| 0 <= q2 < old_queue.len() && old_queue[q2] == queue@[q];
                            assert(old_queue[q2] == queue@[q]);
                        }
                    }
                    assert(seeds@.contains(v));
                }
            }
            j += 1;
        }
        proof {
            lemma_count_false_nonneg(discovered@);
        }
        while queue.len() > 0
            invariant
                search_ready(self),
                date.is_valid(),
                dest < self.stop_groups.len(),
                n == self.nodes.len(),
                discovered.len() == n,
                settled.len() == n,
                parent.len() == n,
                order.len() == n,
                count_false(discovered@) >= 0,
                forall|x: int| 0 <= x < seeds.len() ==> #[trigger] seeds@[x] < n,
                forall|x: int| 0 <= x < seeds.len() ==> discovered@[#[trigger] seeds@[x] as int],
                is_min_heap(queue@),
                forall|q: int|
                    0 <= q < queue.len() ==> {
                        &&& (#[trigger] queue@[q]).1 < n
                        &&& queue@[q].0 == self.nodes@[queue@[q].1 as int].time
                        &&& discovered@[queue@[q].1 as int]
                    },
                forall|v: int|
                    0 <= v < n && #[trigger] discovered@[v] && !settled@[v] ==> queue@.contains(
                        (self.nodes@[v].time, v as usize),
                    ),
                forall|v: int| 0 <= v < n && #[trigger] settled@[v] ==> discovered@[v],
                forall|u: int, v: int|
                    0 <= u < n && settled@[u] && #[trigger] admissible(self, *date, u, v)
                        ==> discovered@[v],
                forall|v: int| 0 <= v < n && #[trigger] settled@[v] ==> !at_group(self, dest as int, v),
                forall|v: int|
                    0 <= v < n && #[trigger] discovered@[v] ==> match parent@[v] {
                        None => seeds@.contains(v as usize),
                        Some(p) => p < n && discovered@[p as int] && admissible(self, *date, p as int, v)
                            && 0 <= order[p as int] < order[v],
                    },
                forall|v: int| 0 <= v < n && #[trigger] discovered@[v] ==> order[v] < counter,
                forall|v: int| 0 <= v < n ==> #[trigger] order[v] >= 0,
                counter >= 1,
            decreases count_false(discovered@) + queue.len(),
        {
            let ghost q_before = queue@;
            let ghost measure = count_false(discovered@) + q_before.len();
            let (k, u) = heap_pop(&mut queue);
            proof {
                let q = choose|q: int| 0 <= q < q_before.len() && q_before[q] == (k, u);
                assert(q_before[q] == (k, u));
                assert forall|v: int|
                    0 <= v < n && #[trigger] discovered@[v] && !settled@[v] && v != u implies queue@.contains(
                        (self.nodes@[v].time, v as usize),
                    ) by {
                    assert(q_before.contains((self.nodes@[v].time, v as usize)));
                }
                assert forall|q: int|
                    0 <= q < queue.len() implies {
                        &&& (#[trigger] queue@[q]).1 < n
                        &&& queue@[q].0 == self.nodes@[queue@[q].1 as int].time
                        &&& discovered@[queue@[q].1 as int]
                    } by {
                    assert(queue@.contains(queue@[q]));
                    let q2 = choose|q2: int| 0 <= q2 < q_before.len() && q_before[q2] == queue@[q];
                    assert(q_before[q2] == queue@[q]);
                }
            }
            if settled[u] {
                continue;
            }
            if self.is_destination(u, dest) {
                proof {
                    assert forall|q: Seq<usize>|
                        edges_monotone(self.nodes@) && is_walk(self, *date, q) && seeds@.contains(q[0])
                            && #[trigger] at_group(self, dest as int, q.last() as int) implies self.nodes@[u as int].time
                        <= self.nodes@[q.last() as int].time by {
                        if self.nodes@[q.last() as int].time < self.nodes@[u as int].time {
                            assert forall|jj: int| 0 <= jj < q.len() implies self.nodes@[#[trigger] q[jj] as int].time
                                < self.nodes@[u as int].time by {
                                lemma_walk_times(self, *date, q, jj);
                            }
                            assert forall|v: int|
                                0 <= v < n && #[trigger] discovered@[v] && !settled@[v] implies self.nodes@[v].time
                                >= self.nodes@[u as int].time by {
                                assert(q_before.contains((self.nodes@[v].time, v as usize)));
                                let q2 = choose|q2: int|
                                    0 <= q2 < q_before.len() && q_before[q2] == (self.nodes@[v].time, v as usize);
                                assert(q_before[q2] == (self.nodes@[v].time, v as usize));
                            }
                            lemma_walk_settled(
                                self,
                                *date,
                                seeds@,
                                discovered@,
                                settled@,
                                q,
                                self.nodes@[u as int].time as int,
                                q.len() - 1,
                            );
                            assert(settled@[q.last() as int]);
                        }
                    }
                }
                return Some(self.reconstruct(&parent, Ghost(order), Ghost(seeds@), Ghost(discovered@), u, Ghost(*date)));
            }
            let ghost settled_before = settled@;
            settled[u] = true;
            let edges = &self.nodes[u].edges;
            let mut e: usize = 0;
            while e < edges.len()
                invariant
                    search_ready(self),
                    date.is_valid(),
                    dest < self.stop_groups.len(),
                    n == self.nodes.len(),
                    u < n,
                    edges == self.nodes@[u as int].edges,
                    e <= edges.len(),
                    discovered.len() == n,
                    settled.len() == n,
                    parent.len() == n,
                    order.len() == n,
                    settled@[u as int],
                    !at_group(self, dest as int, u as int),
                    count_false(discovered@) >= 0,
                    count_false(discovered@) + queue.len() < measure,
                    forall|v: int| 0 <= v < n ==> #[trigger] order[v] >= 0,
                    forall|x: int| 0 <= x < seeds.len() ==> #[trigger] seeds@[x] < n,
                    forall|x: int| 0 <= x < seeds.len() ==> discovered@[#[trigger] seeds@[x] as int],
                    is_min_heap(queue@),
                    forall|q: int|
                        0 <= q < queue.len() ==> {
                            &&& (#[trigger] queue@[q]).1 < n
                            &&& queue@[q].0 == self.nodes@[queue@[q].1 as int].time
                            &&& discovered@[queue@[q].1 as int]
                        },
                    forall|v: int|
                        0 <= v < n && #[trigger] discovered@[v] && !settled@[v] ==> queue@.contains(
                            (self.nodes@[v].time, v as usize),
                        ),
                    forall|v: int| 0 <= v < n && #[trigger] settled@[v] ==> discovered@[v],
                    forall|w: int, v: int|
                        0 <= w < n && w != u && settled@[w] && #[trigger] admissible(self, *date, w, v)
                            ==> discovered@[v],
                    forall|ee: int|
                        0 <= ee < e && admissible(self, *date, u as int, #[trigger] edges@[ee] as int)
                            ==> discovered@[edges@[ee] as int],
                    forall|v: int| 0 <= v < n && #[trigger] settled@[v] ==> !at_group(self, dest as int, v),
                    forall|v: int|
                        0 <= v < n && #[trigger] discovered@[v] ==> match parent@[v] {
                            None => seeds@.contains(v as usize),
                            Some(p) => p < n && discovered@[p as int] && admissible(
                                self,
                                *date,
                                p as int,
                                v,
                            ) && 0 <= order[p as int] < order[v],
                        },
                    forall|v: int| 0 <= v < n && #[trigger] discovered@[v] ==> order[v] < counter,
                    counter >= 1,
                decreases edges.len() - e,
            {
                let v = edges[e];
                proof {
                    assert(edges@[e as int] < n);
                }
                if !discovered[v] && self.can_take_edge(date, v) {
                    let ghost old_queue = queue@;
                    let ghost old_disc = discovered@;
                    proof {
                        lemma_count_false(discovered@, v as int);
                        assert(self.nodes@[u as int].edges@.contains(v));
                        assert(admissible(self, *date, u as int, v as int));
                    }
                    discovered[v] = true;
                    parent[v] = Some(u);
                    proof {
                        order = order.update(v as int, counter);
                        counter = counter + 1;
                    }
                    heap_push(&mut queue, (self.nodes[v].time, v));
                    proof {
                        assert(discovered@ == old_disc.update(v as int, true));
                        assert(queue@.contains((self.nodes@[v as int].time, v)));
                        assert forall|w: int|
                            0 <= w < n && #[trigger] discovered@[w] && !settled@[w] implies queue@.contains(
                            (self.nodes@[w].time, w as usize),
                        ) by {
                            if w != v {
                                assert(old_queue.contains((self.nodes@[w].time, w as usize)));
                            }
                        }
                        assert forall|q: int| 0 <= q < queue.len() implies {
                            &&& (#[trigger] queue@[q]).1 < n
                            &&& queue@[q].0 == self.nodes@[queue@[q].1 as int].time
                            &&& discovered@[queue@[q].1 as int]
                        } by {
                            assert(queue@.contains(queue@[q]));
                            if queue@[q] != (self.nodes@[v as int].time, v) {
                                let q2 = choose|q2: int| 0 <= q2 < old_queue.len() && old_queue[q2] == queue@[q];
                                assert(old_queue[q2] == queue@[q]);
                            }
                        }
                    }
                }
                e += 1;
            }
            proof {
                assert forall|w: int, v: int|
                    0 <= w < n && settled@[w] && #[trigger] admissible(self, *date, w, v) implies discovered@[v] by {
                    if w == u {
                        let ee = choose|ee: int| 0 <= ee < edges@.len() && edges@[ee] == v as usize;
                        assert(admissible(self, *date, u as int, edges@[ee] as int));
                    }
                }
            }
        }
        proof {
            assert forall|q: Seq<usize>|
                is_walk(self, *date, q) && seeds@.contains(q[0]) implies !#[trigger] at_group(
                self,
                dest as int,
                q.last() as int,
            ) by {
                lemma_walk_settled(
                    self,
                    *date,
                    seeds@,
                    discovered@,
                    settled@,
                    q,
                    0x1_0000_0000,
                    q.len() - 1,
                );
            }
        }
        None
    }
}

impl Network {
    /// The walk that discovered node `u`: its parents followed back to a seed, in order.
    fn reconstruct(
        &self,
        parent: &Vec<Option<usize>>,
        order: Ghost<Seq<int>>,
        seeds: Ghost<Seq<usize>>,
        discovered: Ghost<Seq<bool>>,
        u: usize,
        date: Ghost<Date>,
    ) -> (path: Vec<usize>)
        requires
            parent.len() == self.nodes.len(),
            order@.len() == self.nodes.len(),
            discovered@.len() == self.nodes.len(),
            u < self.nodes.len(),
            discovered@[u as int],
            forall|v: int| 0 <= v < self.nodes.len() ==> #[trigger] order@[v] >= 0,
            forall|v: int|
                0 <= v < self.nodes.len() && #[trigger] discovered@[v] ==> match parent@[v] {
                    None => seeds@.contains(v as usize),
                    Some(p) => p < self.nodes.len() && discovered@[p as int] && admissible(
                        self,
                        date@,
                        p as int,
                        v,
                    ) && 0 <= order@[p as int] < order@[v],
                },
        ensures
            is_walk(self, date@, path@),
            seeds@.contains(path@[0]),
            path@.last() == u,
    {
        let n = self.nodes.len();
        let mut rev: Vec<usize> = vec![u];
        let mut cur = u;
        loop
            invariant
                n == self.nodes.len(),
                parent.len() == n,
                order@.len() == n,
                discovered@.len() == n,
                forall|v: int| 0 <= v < n ==> #[trigger] order@[v] >= 0,
                forall|v: int|
                    0 <= v < n && #[trigger] discovered@[v] ==> match parent@[v] {
                        None => seeds@.contains(v as usize),
                        Some(p) => p < n && discovered@[p as int] && admissible(
                            self,
                            date@,
                            p as int,
                            v,
                        ) && 0 <= order@[p as int] < order@[v],
                    },
                rev.len() >= 1,
                rev@[0] == u,
                rev@.last() == cur,
                cur < n,
                discovered@[cur as int],
                forall|i: int| 0 <= i < rev.len() ==> #[trigger] rev@[i] < n,
                forall|i: int|
                    0 <= i < rev.len() - 1 ==> admissible(self, date@, #[trigger] rev@[i + 1] as int, rev@[i] as int),
            ensures
                seeds@.contains(cur),
            decreases order@[cur as int],
        {
            match parent[cur] {
                Some(p) => {
                    let ghost old_rev = rev@;
                    rev.push(p);
                    proof {
                        assert forall|i: int|
                            0 <= i < rev.len() - 1 implies admissible(
                            self,
                            date@,
                            #[trigger] rev@[i + 1] as int,
                            rev@[i] as int,
                        ) by {
                            if i < old_rev.len() - 1 {
                                assert(rev@[i + 1] == old_rev[i + 1]);
                            }
                        }
                    }
                    cur = p;
                },
                None => {
                    break;
                },
            }
        }
        let mut path: Vec<usize> = Vec::new();
        let mut i: usize = rev.len();
        while i > 0
            invariant
                i <= rev.len(),
                path.len() == rev.len() - i,
                forall|j: int| 0 <= j < path.len() ==> path@[j] == rev@[rev.len() - 1 - j],
            decreases i,
        {
            i -= 1;
            path.push(rev[i]);
        }
        proof {
            assert forall|j: int| 0 <= j < path@.len() implies (#[trigger] path@[j]) < n by {
                assert(rev@[rev.len() - 1 - j] < n);
            }
            assert forall|j: int| 0 <= j < path@.len() - 1 implies admissible(
                self,
                date@,
                #[trigger] path@[j] as int,
                path@[j + 1] as int,
            ) by {
                let k = rev.len() - 2 - j;
                assert(admissible(self, date@, rev@[k + 1] as int, rev@[k] as int));
            }
            assert(path@[0] == cur);
        }
        path
    }
}

/// Why a query has no journey.
#[derive(Clone, Copy, Debug, PartialEq, Eq, Structural)]
pub enum QueryError {
    UnknownDepartureStop,
    UnknownDestinationStop,
    NoJourney,
}

/// A journey: the nodes visited, in order, from the first departure to the arrival.
pub struct Connection {
    pub nodes: Vec<Node>,
}

/// The node ids of a journey, in order.
pub open spec fn journey_ids(conn: &Connection) -> Seq<usize> {
    conn.nodes@.map_values(|n: Node| n.node_id)
}

/// `path` starts at a departure of group `gd` at or after `t0`, reaches a stop of group `ga`,
/// and takes only edges that may be taken on `date`.
pub open spec fn is_journey(nw: &Network, date: Date, t0: int, gd: int, ga: int, path: Seq<usize>) -> bool {
    &&& is_walk(nw, date, path)
    &&& is_seed(nw, gd, t0, path[0])
    &&& at_group(nw, ga, path.last() as int)
}

/// No journey from group `gd` at `t0` to group `ga` on `date` arrives before `path` does.
pub open spec fn is_earliest(nw: &Network, date: Date, t0: int, gd: int, ga: int, path: Seq<usize>) -> bool {
    forall|q: Seq<usize>|
        #[trigger] is_journey(nw, date, t0, gd, ga, q) ==> nw.nodes@[path.last() as int].time
            <= nw.nodes@[q.last() as int].time
}

impl Network {
    /// The earliest journey on `date` from the station best matching `dep_stop_name`, leaving at
    /// or after `time` seconds after midnight, to the station best matching `dest_stop_name`.
    pub fn find_connection(
        &self,
        dep_stop_name: &String,
        dest_stop_name: &String,
        date: &Date,
        time: u32,
    ) -> (r: Result<Connection, QueryError>)
        requires
            self.wf(),
            date.is_valid(),
        ensures
            r == Err::<Connection, QueryError>(QueryError::UnknownDepartureStop) <==> self.stop_groups.len()
                == 0,
            !(r matches Err(QueryError::UnknownDestinationStop)),
            r matches Ok(conn) ==> exists|gd: int, ga: int|
                #[trigger] owns_best_name(self.stop_groups@, dep_stop_name@, gd)
                    && #[trigger] owns_best_name(self.stop_groups@, dest_stop_name@, ga) && 0 <= gd
                    < self.stop_groups.len() && 0 <= ga < self.stop_groups.len() && is_journey(
                    self,
                    *date,
                    time as int,
                    gd,
                    ga,
                    journey_ids(&conn),
                ) && (edges_monotone(self.nodes@) ==> is_earliest(
                    self,
                    *date,
                    time as int,
                    gd,
                    ga,
                    journey_ids(&conn),
                )),
            r matches Ok(conn) ==> forall|i: int|
                0 <= i < conn.nodes.len() ==> {
                    let id = (#[trigger] conn.nodes@[i]).node_id as int;
                    &&& conn.nodes@[i].location == self.nodes@[id].location
                    &&& conn.nodes@[i].time == self.nodes@[id].time
                },
            r == Err::<Connection, QueryError>(QueryError::NoJourney) ==> exists|gd: int, ga: int|
                #[trigger] owns_best_name(self.stop_groups@, dep_stop_name@, gd)
                    && #[trigger] owns_best_name(self.stop_groups@, dest_stop_name@, ga) && 0 <= gd
                    < self.stop_groups.len() && 0 <= ga < self.stop_groups.len() && forall|q: Seq<usize>|
                    !#[trigger] is_journey(self, *date, time as int, gd, ga, q),
    {
        let start = match get_stop_group_by_name(&self.stop_groups, dep_stop_name) {
            Some(g) => g,
            None => {
                proof {
                    if self.stop_groups.len() > 0 {
                        assert(self.stop_groups@[0].names@.len() >= 1);
                    }
                }
                return Err(QueryError::UnknownDepartureStop);
            },
        };
        let dest = match get_stop_group_by_name(&self.stop_groups, dest_stop_name) {
            Some(g) => g,
            None => {
                proof {
                    assert(self.stop_groups@[start as int].names@.len() >= 1);
                }
                return Err(QueryError::UnknownDestinationStop);
            },
        };
        let seeds = self.get_departures_from_stop_group_after_time(start, time);
        match self.search(&seeds, dest, date) {
            Some(path) => {
                let mut nodes: Vec<Node> = Vec::new();
                let mut i: usize = 0;
                while i < path.len()
                    invariant
                        self.wf(),
                        i <= path.len(),
                        nodes.len() == i,
                        forall|j: int| 0 <= j < path.len() ==> (#[trigger] path@[j]) < self.nodes.len(),
                        forall|j: int|
                            0 <= j < i ==> {
                                &&& (#[trigger] nodes@[j]).node_id == path@[j]
                                &&& nodes@[j].location == self.nodes@[path@[j] as int].location
                                &&& nodes@[j].time == self.nodes@[path@[j] as int].time
                            },
                    decreases path.len() - i,
                {
                    let node = self.nodes[path[i]].duplicate();
                    proof {
                        assert(self.nodes@[path@[i as int] as int].node_id == path@[i as int]);
                    }
                    nodes.push(node);
                    i += 1;
                }
                let conn = Connection { nodes };
                proof {
                    assert(journey_ids(&conn) =~= path@);
                    assert(seeds@.contains(path@[0]));
                    let jj = choose|jj: int| 0 <= jj < seeds.len() && seeds@[jj] == path@[0];
                    assert(is_seed(self, start as int, time as int, seeds@[jj]));
                    assert forall|q: Seq<usize>|
                        edges_monotone(self.nodes@) && #[trigger] is_journey(
                            self,
                            *date,
                            time as int,
                            start as int,
                            dest as int,
                            q,
                        ) implies self.nodes@[path@.last() as int].time <= self.nodes@[q.last() as int].time by {
                        assert(seeds@.contains(q[0]));
                        assert(at_group(self, dest as int, q.last() as int));
                    }
                    assert(owns_best_name(self.stop_groups@, dep_stop_name@, start as int));
                    assert(owns_best_name(self.stop_groups@, dest_stop_name@, dest as int));
                }
                Ok(conn)
            },
            None => {
                proof {
                    assert forall|q: Seq<usize>|
                        !#[trigger] is_journey(self, *date, time as int, start as int, dest as int, q) by {
                        if is_journey(self, *date, time as int, start as int, dest as int, q) {
                            assert(seeds@.contains(q[0]));
                            assert(at_group(self, dest as int, q.last() as int));
                        }
                    }
                    assert(owns_best_name(self.stop_groups@, dep_stop_name@, start as int));
                    assert(owns_best_name(self.stop_groups@, dest_stop_name@, dest as int));
                }
                Err(QueryError::NoJourney)
            },
        }
    }
}

} // verus!
