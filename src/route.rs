use vstd::prelude::*;
use crate::geom::{dist2, distance_squared};
use crate::map_model::{Filters, MapModel, Road};
use crate::types::{blocks_spec, LtnError, Mode, Pt};

verus! {

/// Whether a road may be used: always when filters are ignored, and otherwise
/// only when no filter on it blocks general traffic.
pub open spec fn usable(roads: Seq<Road>, mask: Seq<bool>, fs: Filters, respect: bool, r: int) -> bool {
    &&& 0 <= r < roads.len()
    &&& mask[r]
    &&& (respect ==> !(fs[r] matches Some(f) && blocks_spec(f.kind, Mode::General)))
}

/// Whether a road joins intersections a and b, in either direction.
pub open spec fn links(rd: Road, a: usize, b: usize) -> bool {
    (rd.src == a && rd.dst == b) || (rd.dst == a && rd.src == b)
}

/// A walk: intersections `nodes`, and between each two the road `rs[i]` that joins them.
pub open spec fn is_walk(roads: Seq<Road>, mask: Seq<bool>, fs: Filters, respect: bool, nodes: Seq<usize>, rs: Seq<usize>) -> bool {
    &&& nodes.len() == rs.len() + 1
    &&& forall|i: int|
        0 <= i < rs.len() ==> usable(roads, mask, fs, respect, #[trigger] rs[i] as int) && links(
            roads[rs[i] as int],
            nodes[i],
            nodes[i + 1],
        )
}

/// The total length of the roads of a walk.
pub open spec fn walk_len(roads: Seq<Road>, rs: Seq<usize>) -> int
    decreases rs.len(),
{
    if rs.len() == 0 {
        0
    } else {
        walk_len(roads, rs.drop_last()) + roads[rs.last() as int].length
    }
}

pub open spec fn walk_between(
    roads: Seq<Road>,
    mask: Seq<bool>,
    fs: Filters,
    respect: bool,
    start: usize,
    end: usize,
    nodes: Seq<usize>,
    rs: Seq<usize>,
) -> bool {
    is_walk(roads, mask, fs, respect, nodes, rs) && nodes[0] == start && nodes.last() == end
}

/// Whether some walk leads from `start` to `end` whose length fits in 64 bits.
pub open spec fn reachable(roads: Seq<Road>, mask: Seq<bool>, fs: Filters, respect: bool, start: usize, end: usize) -> bool {
    exists|nodes: Seq<usize>, rs: Seq<usize>|
        #[trigger] walk_between(roads, mask, fs, respect, start, end, nodes, rs) && walk_len(roads, rs) <= u64::MAX
}

/// A route: the intersections passed, the roads taken and the total length.
pub struct Route {
    pub nodes: Vec<usize>,
    pub roads: Vec<usize>,
    pub length: u64,
}

impl Route {
    pub fn duplicate(&self) -> (r: Route)
        ensures
            r.nodes@ == self.nodes@,
            r.roads@ == self.roads@,
            r.length == self.length,
    {
        Route { nodes: self.nodes.clone(), roads: self.roads.clone(), length: self.length }
    }
}

/// The route is a walk from `start` to `end` and no walk between them is shorter.
pub open spec fn is_shortest(
    roads: Seq<Road>,
    mask: Seq<bool>,
    fs: Filters,
    respect: bool,
    start: usize,
    end: usize,
    route: Route,
) -> bool {
    &&& walk_between(roads, mask, fs, respect, start, end, route.nodes@, route.roads@)
    &&& route.length == walk_len(roads, route.roads@)
    &&& forall|nodes: Seq<usize>, rs: Seq<usize>|
        #[trigger] walk_between(roads, mask, fs, respect, start, end, nodes, rs) ==> walk_len(roads, rs) >= route.length
}

/// A walk that respects filters is also one that ignores them, so ignoring
/// filters never gives a longer shortest route, and finds a route wherever
/// the filtered search does.
pub proof fn lemma_ignoring_filters_no_longer(
    roads: Seq<Road>,
    mask: Seq<bool>,
    fs: Filters,
    start: usize,
    end: usize,
    with_filters: Route,
    without_filters: Route,
)
    requires
        is_shortest(roads, mask, fs, true, start, end, with_filters),
        is_shortest(roads, mask, fs, false, start, end, without_filters),
    ensures
        without_filters.length <= with_filters.length,
{
    lemma_walk_ignoring_filters(roads, mask, fs, with_filters.nodes@, with_filters.roads@);
    assert(walk_between(roads, mask, fs, false, start, end, with_filters.nodes@, with_filters.roads@));
}

/// A filtered walk is an unfiltered one; so whenever the filtered network
/// connects two intersections, the unfiltered one does too.
pub proof fn lemma_walk_ignoring_filters(roads: Seq<Road>, mask: Seq<bool>, fs: Filters, nodes: Seq<usize>, rs: Seq<usize>)
    requires
        is_walk(roads, mask, fs, true, nodes, rs),
    ensures
        is_walk(roads, mask, fs, false, nodes, rs),
{
    assert forall|i: int| 0 <= i < rs.len() implies usable(roads, mask, fs, false, #[trigger] rs[i] as int) && links(
        roads[rs[i] as int],
        nodes[i],
        nodes[i + 1],
    ) by {
        assert(usable(roads, mask, fs, true, rs[i] as int));
    }
}

pub proof fn lemma_reachable_ignoring_filters(roads: Seq<Road>, mask: Seq<bool>, fs: Filters, start: usize, end: usize)
    requires
        reachable(roads, mask, fs, true, start, end),
    ensures
        reachable(roads, mask, fs, false, start, end),
{
    let (nodes, rs) = choose|nodes: Seq<usize>, rs: Seq<usize>| #[trigger] walk_between(roads, mask, fs, true, start, end, nodes, rs) && walk_len(roads, rs) <= u64::MAX;
    lemma_walk_ignoring_filters(roads, mask, fs, nodes, rs);
    assert(walk_between(roads, mask, fs, false, start, end, nodes, rs));
}

/// Where the filtered search reports `NoRoute` but the network without
/// filters connects the two intersections, the unfiltered search succeeds
/// whenever a walk ignoring filters fits in 64 bits.
pub proof fn lemma_unfiltered_succeeds_when_connected(
    roads: Seq<Road>,
    mask: Seq<bool>,
    fs: Filters,
    n_intersections: nat,
    start: usize,
    end: usize,
    filtered: Result<Route, LtnError>,
    unfiltered: Result<Route, LtnError>,
)
    requires
        route_outcome(roads, mask, fs, n_intersections, true, start, end, filtered),
        route_outcome(roads, mask, fs, n_intersections, false, start, end, unfiltered),
        filtered == Err::<Route, LtnError>(LtnError::NoRoute),
        reachable(roads, mask, fs, false, start, end),
    ensures
        unfiltered is Ok,
{
}

/// Relaxing from a to b along a road of length w cannot improve b (or the
/// sum would not fit in 64 bits).
pub open spec fn step_ok(dist: Seq<Option<u64>>, a: usize, b: usize, w: u64) -> bool {
    dist[a as int] is Some && dist[a as int].unwrap() + w <= u64::MAX ==> dist[b as int] is Some
        && dist[b as int].unwrap() <= dist[a as int].unwrap() + w
}

pub open spec fn relaxed(roads: Seq<Road>, mask: Seq<bool>, fs: Filters, respect: bool, dist: Seq<Option<u64>>, r: int) -> bool {
    usable(roads, mask, fs, respect, r) ==> step_ok(dist, roads[r].src, roads[r].dst, roads[r].length) && step_ok(
        dist,
        roads[r].dst,
        roads[r].src,
        roads[r].length,
    )
}

/// Where no road can improve any distance, every walk from the start is at
/// least as long as the distance recorded for its end.
proof fn lemma_relaxed_bounds_walks(
    roads: Seq<Road>,
    mask: Seq<bool>,
    fs: Filters,
    respect: bool,
    dist: Seq<Option<u64>>,
    start: usize,
    nodes: Seq<usize>,
    rs: Seq<usize>,
)
    requires
        forall|r: int| 0 <= r < roads.len() ==> #[trigger] relaxed(roads, mask, fs, respect, dist, r),
        dist[start as int] == Some(0u64),
        is_walk(roads, mask, fs, respect, nodes, rs),
        nodes[0] == start,
        walk_len(roads, rs) <= u64::MAX,
    ensures
        dist[nodes.last() as int] is Some,
        dist[nodes.last() as int].unwrap() <= walk_len(roads, rs),
    decreases rs.len(),
{
    if rs.len() > 0 {
        let k = rs.len() - 1;
        let pn = nodes.drop_last();
        let pr = rs.drop_last();
        assert forall|i: int| 0 <= i < pr.len() implies usable(roads, mask, fs, respect, #[trigger] pr[i] as int) && links(
            roads[pr[i] as int],
            pn[i],
            pn[i + 1],
        ) by {
            assert(pr[i] == rs[i]);
            assert(usable(roads, mask, fs, respect, rs[i] as int));
        }
        lemma_relaxed_bounds_walks(roads, mask, fs, respect, dist, start, pn, pr);
        assert(usable(roads, mask, fs, respect, rs[k] as int));
        assert(relaxed(roads, mask, fs, respect, dist, rs[k] as int));
        assert(pn.last() == nodes[k]);
    }
}

/// The weight of an entry in the termination measure: unreached counts as 2^64.
pub open spec fn weight(d: Option<u64>) -> int {
    match d {
        Some(x) => x as int,
        None => 0x1_0000_0000_0000_0000,
    }
}

pub open spec fn measure(dist: Seq<Option<u64>>, k: nat) -> int
    decreases k,
{
    if k == 0 {
        0
    } else {
        measure(dist, (k - 1) as nat) + weight(dist[k - 1])
    }
}

proof fn lemma_measure_update(dist: Seq<Option<u64>>, j: int, v: Option<u64>, k: nat)
    requires
        0 <= j < dist.len(),
        k <= dist.len(),
    ensures
        k > j ==> measure(dist.update(j, v), k) == measure(dist, k) - weight(dist[j]) + weight(v),
        k <= j ==> measure(dist.update(j, v), k) == measure(dist, k),
    decreases k,
{
    if k > 0 {
        lemma_measure_update(dist, j, v, (k - 1) as nat);
    }
}

proof fn lemma_measure_nonneg(dist: Seq<Option<u64>>, k: nat)
    requires
        k <= dist.len(),
    ensures
        measure(dist, k) >= 0,
    decreases k,
{
    if k > 0 {
        lemma_measure_nonneg(dist, (k - 1) as nat);
    }
}

/// Every intersection on a recorded route already has a distance no greater
/// than the part of the route that leads to it.
pub open spec fn prefix_bounded(roads: Seq<Road>, dist: Seq<Option<u64>>, nodes: Seq<usize>, rs: Seq<usize>) -> bool {
    forall|k: int|
        0 <= k < nodes.len() ==> 0 <= #[trigger] nodes[k] < dist.len() && dist[nodes[k] as int] is Some
            && dist[nodes[k] as int].unwrap() <= walk_len(roads, rs.take(k))
}

proof fn lemma_walk_len_prefix(roads: Seq<Road>, rs: Seq<usize>, k: int)
    requires
        0 <= k <= rs.len(),
    ensures
        walk_len(roads, rs.take(k)) <= walk_len(roads, rs),
    decreases rs.len(),
{
    if k < rs.len() {
        assert(rs.take(k) == rs.drop_last().take(k));
        lemma_walk_len_prefix(roads, rs.drop_last(), k);
    } else {
        assert(rs.take(k) == rs);
    }
}

pub open spec fn sound(
    roads: Seq<Road>,
    mask: Seq<bool>,
    fs: Filters,
    respect: bool,
    start: usize,
    dist: Seq<Option<u64>>,
    pn: Seq<Vec<usize>>,
    pr: Seq<Vec<usize>>,
) -> bool {
    &&& pn.len() == dist.len()
    &&& pr.len() == dist.len()
    &&& forall|v: int|
        0 <= v < dist.len() && #[trigger] dist[v] is Some ==> walk_between(
            roads,
            mask,
            fs,
            respect,
            start,
            v as usize,
            pn[v]@,
            pr[v]@,
        ) && walk_len(roads, pr[v]@) == dist[v].unwrap() && pn[v]@.no_duplicates() && prefix_bounded(
            roads,
            dist,
            pn[v]@,
            pr[v]@,
        )
}

/// Tries to improve b from a along road r; reports whether b changed. A sum
/// that would not fit in 64 bits improves nothing.
fn relax_step(
    m: &MapModel,
    mask: &Vec<bool>,
    respect: bool,
    start: usize,
    dist: &mut Vec<Option<u64>>,
    pn: &mut Vec<Vec<usize>>,
    pr: &mut Vec<Vec<usize>>,
    r: usize,
    a: usize,
    b: usize,
) -> (changed: bool)
    requires
        m.wf(),
        mask@.len() == m.roads@.len(),
        r < m.roads@.len(),
        usable(m.roads@, mask@, m.filters@, respect, r as int),
        links(m.roads@[r as int], a, b),
        old(dist)@.len() == m.intersections@.len(),
        sound(m.roads@, mask@, m.filters@, respect, start, old(dist)@, old(pn)@, old(pr)@),
    ensures
        final(dist)@.len() == old(dist)@.len(),
        sound(m.roads@, mask@, m.filters@, respect, start, final(dist)@, final(pn)@, final(pr)@),
        !changed ==> final(dist)@ == old(dist)@ && step_ok(old(dist)@, a, b, m.roads@[r as int].length),
        changed ==> measure(final(dist)@, final(dist)@.len()) < measure(old(dist)@, old(dist)@.len()),
        forall|v: int| 0 <= v < old(dist)@.len() && #[trigger] old(dist)@[v] is Some ==> final(dist)@[v] is Some
            && final(dist)@[v].unwrap() <= old(dist)@[v].unwrap(),
{
    let w = m.roads[r].length;
    match dist[a] {
        None => false,
        Some(da) => {
            if da > u64::MAX - w {
                return false;
            }
            let nd = da + w;
            let better = match dist[b] {
                None => true,
                Some(db) => nd < db,
            };
            if !better {
                return false;
            }
            let ghost d0 = dist@;
            let ghost pn0 = pn@;
            let ghost pr0 = pr@;
            let mut nodes = pn[a].clone();
            let mut rds = pr[a].clone();
            proof {
                assert(nodes@ == pn0[a as int]@);
                assert(rds@ == pr0[a as int]@);
            }
            let ghost on = nodes@;
            let ghost orr = rds@;
            proof {
                assert(d0[a as int] is Some);
                assert(!on.contains(b)) by {
                    if on.contains(b) {
                        let k = choose|k: int| 0 <= k < on.len() && on[k] == b;
                        assert(prefix_bounded(m.roads@, d0, on, orr));
                        assert(on[k] == b);
                        lemma_walk_len_prefix(m.roads@, orr, k);
                    }
                }
            }
            nodes.push(b);
            rds.push(r);
            proof {
                assert(rds@.drop_last() == orr);
                assert forall|i: int| 0 <= i < rds@.len() implies usable(m.roads@, mask@, m.filters@, respect, #[trigger] rds@[i] as int)
                    && links(m.roads@[rds@[i] as int], nodes@[i], nodes@[i + 1]) by {
                    if i < orr.len() {
                        assert(rds@[i] == orr[i]);
                        assert(usable(m.roads@, mask@, m.filters@, respect, orr[i] as int));
                        assert(nodes@[i] == on[i] && nodes@[i + 1] == on[i + 1]);
                    } else {
                        assert(nodes@[i] == on.last());
                    }
                }
            }
            dist.set(b, Some(nd));
            pn.set(b, nodes);
            pr.set(b, rds);
            proof {
                lemma_measure_update(d0, b as int, Some(nd), d0.len());
                assert forall|v: int| 0 <= v < dist@.len() && #[trigger] dist@[v] is Some implies walk_between(
                    m.roads@,
                    mask@,
                    m.filters@,
                    respect,
                    start,
                    v as usize,
                    pn@[v]@,
                    pr@[v]@,
                ) && walk_len(m.roads@, pr@[v]@) == dist@[v].unwrap() && pn@[v]@.no_duplicates() && prefix_bounded(
                    m.roads@,
                    dist@,
                    pn@[v]@,
                    pr@[v]@,
                ) by {
                    if v != b {
                        assert(d0[v] is Some);
                        assert(prefix_bounded(m.roads@, d0, pn0[v]@, pr0[v]@));
                        assert forall|k: int| 0 <= k < pn@[v]@.len() implies 0 <= #[trigger] pn@[v]@[k] < dist@.len()
                            && dist@[pn@[v]@[k] as int] is Some && dist@[pn@[v]@[k] as int].unwrap() <= walk_len(
                            m.roads@,
                            pr@[v]@.take(k),
                        ) by {
                            assert(pn@[v]@[k] == pn0[v]@[k]);
                        }
                    } else {
                        assert(prefix_bounded(m.roads@, d0, on, orr));
                        assert forall|k: int| 0 <= k < nodes@.len() implies 0 <= #[trigger] nodes@[k] < dist@.len()
                            && dist@[nodes@[k] as int] is Some && dist@[nodes@[k] as int].unwrap() <= walk_len(
                            m.roads@,
                            rds@.take(k),
                        ) by {
                            if k < on.len() {
                                assert(nodes@[k] == on[k]);
                                assert(rds@.take(k) == orr.take(k));
                                assert(on[k] != b);
                            } else {
                                assert(rds@.take(k) == rds@);
                            }
                        }
                        assert(nodes@.no_duplicates()) by {
                            assert forall|i: int, j: int| 0 <= i < j < nodes@.len() implies nodes@[i] != nodes@[j] by {
                                if j < on.len() {
                                    assert(nodes@[i] == on[i] && nodes@[j] == on[j]);
                                } else {
                                    assert(nodes@[i] == on[i]);
                                }
                            }
                        }
                    }
                }
            }
            true
        },
    }
}

/// What a search between two intersections returns: an unknown
/// intersection is reported; otherwise the shortest route, which passes no
/// intersection twice, when some walk
/// connects them with a length that fits in 64 bits, and `NoRoute` when none does.
pub open spec fn route_outcome(
    roads: Seq<Road>,
    mask: Seq<bool>,
    fs: Filters,
    n_intersections: nat,
    respect: bool,
    start: usize,
    end: usize,
    res: Result<Route, LtnError>,
) -> bool {
    &&& res matches Ok(route) ==> is_shortest(roads, mask, fs, respect, start, end, route)
        && route.nodes@.no_duplicates()
    &&& (start >= n_intersections || end >= n_intersections) ==> res == Err::<Route, LtnError>(
        LtnError::InvalidIntersection(if start >= n_intersections { start } else { end }),
    )
    &&& (start < n_intersections && end < n_intersections) ==> ((res is Ok <==> reachable(
        roads,
        mask,
        fs,
        respect,
        start,
        end,
    )) && (res is Err ==> res == Err::<Route, LtnError>(LtnError::NoRoute)))
}

/// Every road may be used.
pub open spec fn all_roads(n: nat) -> Seq<bool> {
    Seq::new(n, |i: int| true)
}

/// The shortest route between two intersections over the whole network,
/// measured along road lengths, optionally skipping roads whose filter
/// blocks general traffic.
pub fn shortest_path(m: &MapModel, start: usize, end: usize, respect_filters: bool) -> (res: Result<Route, LtnError>)
    requires
        m.wf(),
    ensures
        route_outcome(m.roads@, all_roads(m.roads@.len()), m.filters@, m.intersections@.len(), respect_filters, start, end, res),
{
    let mut mask: Vec<bool> = Vec::new();
    let mut i: usize = 0;
    while i < m.roads.len()
        invariant
            i <= m.roads@.len(),
            mask@ == all_roads(i as nat),
        decreases m.roads@.len() - i,
    {
        mask.push(true);
        proof {
            assert(mask@ =~= all_roads((i + 1) as nat));
        }
        i = i + 1;
    }
    search(m, &mask, start, end, respect_filters)
}

/// The shortest route between two intersections using only the roads that
/// `mask` allows.
pub fn search(m: &MapModel, mask: &Vec<bool>, start: usize, end: usize, respect_filters: bool) -> (res: Result<Route, LtnError>)
    requires
        m.wf(),
        mask@.len() == m.roads@.len(),
    ensures
        route_outcome(m.roads@, mask@, m.filters@, m.intersections@.len(), respect_filters, start, end, res),
{
    let ni = m.intersections.len();
    if start >= ni {
        return Err(LtnError::InvalidIntersection(start));
    }
    if end >= ni {
        return Err(LtnError::InvalidIntersection(end));
    }
    let mut dist: Vec<Option<u64>> = Vec::new();
    let mut pn: Vec<Vec<usize>> = Vec::new();
    let mut pr: Vec<Vec<usize>> = Vec::new();
    let mut i: usize = 0;
    while i < ni
        invariant
            i <= ni,
            ni == m.intersections@.len(),
            start < ni,
            dist@.len() == i,
            pn@.len() == i,
            pr@.len() == i,
            forall|v: int| 0 <= v < i ==> (#[trigger] dist@[v] is Some <==> v == start),
            forall|v: int| 0 <= v < i && v == start ==> #[trigger] dist@[v] == Some(0u64) && pn@[v]@ == seq![start] && pr@[v]@.len() == 0,
        decreases ni - i,
    {
        if i == start {
            dist.push(Some(0));
            let mut one: Vec<usize> = Vec::new();
            one.push(start);
            proof {
                assert(one@ =~= seq![start]);
            }
            pn.push(one);
        } else {
            dist.push(None);
            pn.push(Vec::new());
        }
        pr.push(Vec::new());
        i = i + 1;
    }
    proof {
        assert forall|v: int| 0 <= v < dist@.len() && #[trigger] dist@[v] is Some implies walk_between(
            m.roads@,
            mask@,
            m.filters@,
            respect_filters,
            start,
            v as usize,
            pn@[v]@,
            pr@[v]@,
        ) && walk_len(m.roads@, pr@[v]@) == dist@[v].unwrap() by {
            assert(v == start);
        }
    }
    let nr = m.roads.len();
    let mut done = false;
    while !done
        invariant
            m.wf(),
            mask@.len() == m.roads@.len(),
            nr == m.roads@.len(),
            ni == m.intersections@.len(),
            start < ni,
            end < ni,
            dist@.len() == ni,
            dist@[start as int] == Some(0u64),
            sound(m.roads@, mask@, m.filters@, respect_filters, start, dist@, pn@, pr@),
            done ==> forall|r: int| 0 <= r < nr ==> #[trigger] relaxed(m.roads@, mask@, m.filters@, respect_filters, dist@, r),
        decreases measure(dist@, ni as nat) + if done { 0int } else { 1int },
    {
        let ghost m0 = measure(dist@, ni as nat);
        let mut changed = false;
        let mut r: usize = 0;
        while r < nr
            invariant
                m.wf(),
                mask@.len() == m.roads@.len(),
                nr == m.roads@.len(),
                ni == m.intersections@.len(),
                start < ni,
                end < ni,
                r <= nr,
                dist@.len() == ni,
                dist@[start as int] == Some(0u64),
                sound(m.roads@, mask@, m.filters@, respect_filters, start, dist@, pn@, pr@),
                changed ==> measure(dist@, ni as nat) < m0,
                !changed ==> measure(dist@, ni as nat) == m0,
                !changed ==> forall|r2: int| 0 <= r2 < r ==> #[trigger] relaxed(m.roads@, mask@, m.filters@, respect_filters, dist@, r2),
            decreases nr - r,
        {
            let rd = &m.roads[r];
            let ok = mask[r] && if respect_filters {
                match m.filters[r] {
                    Some(f) => !f.kind.blocks(Mode::General),
                    None => true,
                }
            } else {
                true
            };
            if ok {
                let c1 = relax_step(m, mask, respect_filters, start, &mut dist, &mut pn, &mut pr, r, rd.src, rd.dst);
                let c2 = relax_step(m, mask, respect_filters, start, &mut dist, &mut pn, &mut pr, r, rd.dst, rd.src);
                if c1 || c2 {
                    changed = true;
                }
            } else {
                proof {
                    assert(!usable(m.roads@, mask@, m.filters@, respect_filters, r as int));
                }
            }
            r = r + 1;
        }
        if !changed {
            done = true;
        }
        proof {
            lemma_measure_nonneg(dist@, ni as nat);
        }
    }
    match &dist[end] {
        None => {
            proof {
                if reachable(m.roads@, mask@, m.filters@, respect_filters, start, end) {
                    let (nodes, rs) = choose|nodes: Seq<usize>, rs: Seq<usize>| #[trigger] walk_between(m.roads@, mask@, m.filters@, respect_filters, start, end, nodes, rs) && walk_len(m.roads@, rs) <= u64::MAX;
                    lemma_relaxed_bounds_walks(m.roads@, mask@, m.filters@, respect_filters, dist@, start, nodes, rs);
                }
            }
            Err(LtnError::NoRoute)
        },
        Some(d) => {
            let route = Route { nodes: pn[end].clone(), roads: pr[end].clone(), length: *d };
            proof {
                assert(route.nodes@ == pn@[end as int]@);
                assert(route.roads@ == pr@[end as int]@);
                assert forall|nodes: Seq<usize>, rs: Seq<usize>|
                    #[trigger] walk_between(m.roads@, mask@, m.filters@, respect_filters, start, end, nodes, rs) implies walk_len(m.roads@, rs) >= route.length by {
                    if walk_len(m.roads@, rs) <= u64::MAX {
                        lemma_relaxed_bounds_walks(m.roads@, mask@, m.filters@, respect_filters, dist@, start, nodes, rs);
                    }
                }
                assert(walk_between(m.roads@, mask@, m.filters@, respect_filters, start, end, route.nodes@, route.roads@));
            }
            Ok(route)
        },
    }
}

/// The intersection nearest to a point; of equally near ones, the lowest id.
pub fn snap_to_intersection(m: &MapModel, p: Pt) -> (r: Result<usize, LtnError>)
    ensures
        r is Err <==> m.intersections@.len() == 0,
        r matches Err(e) ==> e == LtnError::InvalidPoint,
        r matches Ok(i) ==> i < m.intersections@.len() && (forall|j: int|
            0 <= j < m.intersections@.len() ==> dist2(m.intersections@[i as int].point, p) <= dist2(
                #[trigger] m.intersections@[j].point,
                p,
            )) && (forall|j: int|
            0 <= j < i ==> dist2(m.intersections@[i as int].point, p) < dist2(#[trigger] m.intersections@[j].point, p)),
{
    let n = m.intersections.len();
    if n == 0 {
        return Err(LtnError::InvalidPoint);
    }
    let mut best: usize = 0;
    let mut best_d = distance_squared(m.intersections[0].point, p);
    let mut j: usize = 1;
    while j < n
        invariant
            n == m.intersections@.len(),
            1 <= j <= n,
            best < j,
            best_d == dist2(m.intersections@[best as int].point, p),
            forall|k: int| 0 <= k < j ==> best_d <= dist2(#[trigger] m.intersections@[k].point, p),
            forall|k: int| 0 <= k < best ==> best_d < dist2(#[trigger] m.intersections@[k].point, p),
        decreases n - j,
    {
        let d = distance_squared(m.intersections[j].point, p);
        if d < best_d {
            best = j;
            best_d = d;
        }
        j = j + 1;
    }
    Ok(best)
}

/// The routes between the intersections nearest two points: ignoring
/// filters, and respecting them. Either side may fail on its own.
pub struct RouteComparison {
    pub before: Result<Route, LtnError>,
    pub after: Result<Route, LtnError>,
}

pub fn compare_route(m: &MapModel, p1: Pt, p2: Pt) -> (r: Result<RouteComparison, LtnError>)
    requires
        m.wf(),
    ensures
        r is Err <==> m.intersections@.len() == 0,
        r matches Err(e) ==> e == LtnError::InvalidPoint,
        r matches Ok(c) ==> exists|s: usize, e: usize|
            s < m.intersections@.len() && e < m.intersections@.len()
            && (forall|j: int| 0 <= j < m.intersections@.len() ==> dist2(m.intersections@[s as int].point, p1) <= dist2(#[trigger] m.intersections@[j].point, p1))
            && (forall|j: int| 0 <= j < m.intersections@.len() ==> dist2(m.intersections@[e as int].point, p2) <= dist2(#[trigger] m.intersections@[j].point, p2))
            && #[trigger] route_outcome(m.roads@, all_roads(m.roads@.len()), m.filters@, m.intersections@.len(), false, s, e, c.before)
            && route_outcome(m.roads@, all_roads(m.roads@.len()), m.filters@, m.intersections@.len(), true, s, e, c.after),
{
    let s = snap_to_intersection(m, p1)?;
    let e = snap_to_intersection(m, p2)?;
    let before = shortest_path(m, s, e, false);
    let after = shortest_path(m, s, e, true);
    Ok(RouteComparison { before, after })
}

} // verus!
