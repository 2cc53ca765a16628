use vstd::prelude::*;
use crate::map_model::MapModel;
use crate::neighbourhood::Neighbourhood;
use crate::route::{is_shortest, reachable, search, Route};

verus! {

/// An entrance: an interior intersection that some boundary road reaches.
pub open spec fn is_entrance(m: &MapModel, nb: &Neighbourhood, i: int) -> bool {
    &&& 0 <= i < m.intersections@.len()
    &&& nb.interior_intersections@[i]
    &&& exists|r: int|
        0 <= r < m.roads@.len() && #[trigger] nb.boundary_roads@[r] && (m.roads@[r].src == i || m.roads@[r].dst == i)
}

/// A shortcut between entrances a < b: the shortest filter-respecting route
/// over interior roads only, passing no intersection twice.
pub open spec fn is_shortcut(m: &MapModel, nb: &Neighbourhood, a: usize, b: usize, route: Route) -> bool {
    &&& a < b
    &&& is_entrance(m, nb, a as int)
    &&& is_entrance(m, nb, b as int)
    &&& is_shortest(m.roads@, nb.interior_roads@, m.filters@, true, a, b, route)
    &&& route.nodes@.no_duplicates()
}

pub open spec fn route_crosses(route: Route, road: usize) -> bool {
    route.roads@.contains(road)
}

/// The shortcut set of a neighbourhood: each route is a shortcut, the routes
/// come in increasing order of their first entrance, and every pair of
/// entrances that interior roads connect has one.
pub open spec fn shortcut_set(m: &MapModel, nb: &Neighbourhood, v: Seq<Route>) -> bool {
    &&& forall|k: int| 0 <= k < v.len() ==> #[trigger] is_shortcut(m, nb, v[k].nodes@[0], v[k].nodes@.last(), v[k])
    &&& forall|k: int, l: int| 0 <= k < l < v.len() ==> v[k].nodes@[0] <= v[l].nodes@[0]
    &&& covers_pairs(m, nb, v)
}

/// Every pair of entrances a < b that interior roads connect has a route.
pub open spec fn covers_pairs(m: &MapModel, nb: &Neighbourhood, v: Seq<Route>) -> bool {
    forall|a: usize, b: usize|
        a < b && is_entrance(m, nb, a as int) && is_entrance(m, nb, b as int) && #[trigger] reachable(
            m.roads@,
            nb.interior_roads@,
            m.filters@,
            true,
            a,
            b,
        ) ==> exists|k: int| 0 <= k < v.len() && v[k].nodes@[0] == a && v[k].nodes@.last() == b
}

impl Neighbourhood {
    /// Marks the entrances among the intersections.
    pub fn entrances(&self, m: &MapModel) -> (r: Vec<bool>)
        requires
            m.wf(),
            self.describes(m),
        ensures
            r@.len() == m.intersections@.len(),
            forall|i: int| 0 <= i < r@.len() ==> #[trigger] r@[i] == is_entrance(m, self, i),
    {
        let ni = m.intersections.len();
        let mut flags: Vec<bool> = Vec::new();
        let mut i: usize = 0;
        while i < ni
            invariant
                i <= ni,
                flags@.len() == i,
                forall|k: int| 0 <= k < i ==> !#[trigger] flags@[k],
            decreases ni - i,
        {
            flags.push(false);
            i = i + 1;
        }
        let mut r: usize = 0;
        while r < m.roads.len()
            invariant
                m.wf(),
                self.describes(m),
                ni == m.intersections@.len(),
                r <= m.roads@.len(),
                flags@.len() == ni,
                forall|k: int|
                    0 <= k < ni ==> (#[trigger] flags@[k] == (self.interior_intersections@[k] && exists|q: int|
                        0 <= q < r && #[trigger] self.boundary_roads@[q] && (m.roads@[q].src == k || m.roads@[q].dst == k))),
            decreases m.roads@.len() - r,
        {
            if self.boundary_roads[r] {
                let s = m.roads[r].src;
                let d = m.roads[r].dst;
                if self.interior_intersections[s] {
                    flags.set(s, true);
                }
                if self.interior_intersections[d] {
                    flags.set(d, true);
                }
            }
            proof {
                assert forall|k: int|
                    0 <= k < ni implies (#[trigger] flags@[k] == (self.interior_intersections@[k] && exists|q: int|
                        0 <= q < r + 1 && #[trigger] self.boundary_roads@[q] && (m.roads@[q].src == k || m.roads@[q].dst == k))) by {
                    if self.boundary_roads@[r as int] && self.interior_intersections@[k] && (m.roads@[r as int].src == k || m.roads@[r as int].dst == k) {
                        assert(flags@[k]);
                    }
                }
            }
            r = r + 1;
        }
        flags
    }

    /// For every pair of entrances a < b that interior roads connect, the
    /// shortest filter-respecting route between them, in increasing order of a.
    pub fn find_shortcuts(&self, m: &MapModel) -> (r: Vec<Route>)
        requires
            m.wf(),
            self.describes(m),
        ensures
            shortcut_set(m, self, r@),
    {
        let ent = self.entrances(m);
        let ni = m.intersections.len();
        let mut out: Vec<Route> = Vec::new();
        let mut a: usize = 0;
        while a < ni
            invariant
                m.wf(),
                self.describes(m),
                ni == m.intersections@.len(),
                ent@.len() == ni,
                forall|i: int| 0 <= i < ni ==> #[trigger] ent@[i] == is_entrance(m, self, i),
                a <= ni,
                forall|k: int| 0 <= k < out@.len() ==> #[trigger] is_shortcut(m, self, out@[k].nodes@[0], out@[k].nodes@.last(), out@[k]),
                forall|k: int| 0 <= k < out@.len() ==> out@[k].nodes@[0] < a,
                forall|k: int, l: int| 0 <= k < l < out@.len() ==> out@[k].nodes@[0] <= out@[l].nodes@[0],
                forall|x: usize, y: usize|
                    x < a && x < y && is_entrance(m, self, x as int) && is_entrance(m, self, y as int) && #[trigger] reachable(m.roads@, self.interior_roads@, m.filters@, true, x, y)
                        ==> exists|k: int| 0 <= k < out@.len() && out@[k].nodes@[0] == x && out@[k].nodes@.last() == y,
            decreases ni - a,
        {
            if ent[a] {
                let mut b: usize = a + 1;
                while b < ni
                    invariant
                        m.wf(),
                        self.describes(m),
                        ni == m.intersections@.len(),
                        ent@.len() == ni,
                        forall|i: int| 0 <= i < ni ==> #[trigger] ent@[i] == is_entrance(m, self, i),
                        a < ni,
                        ent@[a as int],
                        a < b <= ni,
                        forall|k: int| 0 <= k < out@.len() ==> #[trigger] is_shortcut(m, self, out@[k].nodes@[0], out@[k].nodes@.last(), out@[k]),
                        forall|k: int| 0 <= k < out@.len() ==> out@[k].nodes@[0] <= a,
                        forall|k: int, l: int| 0 <= k < l < out@.len() ==> out@[k].nodes@[0] <= out@[l].nodes@[0],
                        forall|x: usize, y: usize|
                            x < a && x < y && is_entrance(m, self, x as int) && is_entrance(m, self, y as int) && #[trigger] reachable(m.roads@, self.interior_roads@, m.filters@, true, x, y)
                                ==> exists|k: int| 0 <= k < out@.len() && out@[k].nodes@[0] == x && out@[k].nodes@.last() == y,
                        forall|y: usize|
                            a < y < b && is_entrance(m, self, y as int) && #[trigger] reachable(m.roads@, self.interior_roads@, m.filters@, true, a, y)
                                ==> exists|k: int| 0 <= k < out@.len() && out@[k].nodes@[0] == a && out@[k].nodes@.last() == y,
                    decreases ni - b,
                {
                    if ent[b] {
                        match search(m, &self.interior_roads, a, b, true) {
                            Ok(route) => {
                                let ghost before = out@;
                                out.push(route);
                                proof {
                                    assert forall|x: usize, y: usize|
                                        x < a && x < y && is_entrance(m, self, x as int) && is_entrance(m, self, y as int) && #[trigger] reachable(m.roads@, self.interior_roads@, m.filters@, true, x, y)
                                            implies exists|k: int| 0 <= k < out@.len() && out@[k].nodes@[0] == x && out@[k].nodes@.last() == y by {
                                        let k = choose|k: int| 0 <= k < before.len() && before[k].nodes@[0] == x && before[k].nodes@.last() == y;
                                        assert(out@[k] == before[k]);
                                    }
                                    assert forall|y: usize|
                                        a < y < b + 1 && is_entrance(m, self, y as int) && #[trigger] reachable(m.roads@, self.interior_roads@, m.filters@, true, a, y)
                                            implies exists|k: int| 0 <= k < out@.len() && out@[k].nodes@[0] == a && out@[k].nodes@.last() == y by {
                                        if y < b {
                                            let k = choose|k: int| 0 <= k < before.len() && before[k].nodes@[0] == a && before[k].nodes@.last() == y;
                                            assert(out@[k] == before[k]);
                                        } else {
                                            assert(out@[before.len() as int] == route);
                                        }
                                    }
                                    assert forall|k: int| 0 <= k < out@.len() implies #[trigger] is_shortcut(m, self, out@[k].nodes@[0], out@[k].nodes@.last(), out@[k]) by {
                                        if k < before.len() {
                                            assert(out@[k] == before[k]);
                                        }
                                    }
                                }
                            },
                            Err(_) => {},
                        }
                    }
                    b = b + 1;
                }
            }
            a = a + 1;
        }
        proof {
            assert forall|x: usize, y: usize|
                x < y && is_entrance(m, self, x as int) && is_entrance(m, self, y as int) && #[trigger] reachable(m.roads@, self.interior_roads@, m.filters@, true, x, y)
                    implies exists|k: int| 0 <= k < out@.len() && out@[k].nodes@[0] == x && out@[k].nodes@.last() == y by {
                assert(x < a);
            }
            assert(covers_pairs(m, self, out@));
        }
        out
    }
}

/// `idx` lists, once each, exactly the routes of `all` that use `road`, by
/// increasing length; routes of equal length keep their order in `all`.
pub open spec fn ordered_subset(all: Seq<Route>, road: usize, idx: Seq<usize>) -> bool {
    &&& forall|x: usize| idx.contains(x) <==> (x < all.len() && route_crosses(all[x as int], road))
    &&& forall|i: int| 0 <= i < idx.len() ==> #[trigger] idx[i] < all.len()
    &&& forall|i: int, j: int|
        0 <= i < j < idx.len() ==> all[idx[i] as int].length < all[idx[j] as int].length || (all[idx[i] as int].length
            == all[idx[j] as int].length && idx[i] < idx[j])
}

pub open spec fn same_route(a: Route, b: Route) -> bool {
    a.nodes@ == b.nodes@ && a.roads@ == b.roads@ && a.length == b.length
}

/// `v` is the part of the shortcut set `all` that uses `road`, in the order
/// that `ordered_subset` gives.
pub open spec fn crossing_selection(
    m: &MapModel,
    nb: &Neighbourhood,
    road: usize,
    all: Seq<Route>,
    idx: Seq<usize>,
    v: Seq<Route>,
) -> bool {
    &&& shortcut_set(m, nb, all)
    &&& ordered_subset(all, road, idx)
    &&& v.len() == idx.len()
    &&& forall|k: int| 0 <= k < v.len() ==> #[trigger] same_route(v[k], all[idx[k] as int])
}

/// `v` is what some shortcut set of the neighbourhood gives for `road`.
pub open spec fn selected_from_shortcuts(m: &MapModel, nb: &Neighbourhood, road: usize, v: Seq<Route>) -> bool {
    exists|all: Seq<Route>, idx: Seq<usize>| #[trigger] crossing_selection(m, nb, road, all, idx, v)
}

/// The shortcuts that use `road`, as indices into `all`, ordered by
/// increasing length; shortcuts of equal length keep their order in `all`.
pub fn subset(all: &Vec<Route>, road: usize) -> (r: Vec<usize>)
    ensures
        ordered_subset(all@, road, r@),
{
    let mut out: Vec<usize> = Vec::new();
    let mut k: usize = 0;
    while k < all.len()
        invariant
            k <= all@.len(),
            forall|x: usize| out@.contains(x) <==> (x < k && route_crosses(all@[x as int], road)),
            forall|i: int| 0 <= i < out@.len() ==> #[trigger] out@[i] < k,
            forall|i: int, j: int|
                0 <= i < j < out@.len() ==> all@[out@[i] as int].length < all@[out@[j] as int].length || (all@[out@[i] as int].length
                    == all@[out@[j] as int].length && out@[i] < out@[j]),
        decreases all@.len() - k,
    {
        let mut crosses = false;
        let mut q: usize = 0;
        while q < all[k].roads.len()
            invariant
                k < all@.len(),
                q <= all@[k as int].roads@.len(),
                crosses == exists|t: int| 0 <= t < q && all@[k as int].roads@[t] == road,
            decreases all@[k as int].roads@.len() - q,
        {
            if all[k].roads[q] == road {
                crosses = true;
            }
            q = q + 1;
        }
        if crosses {
            let len = all[k].length;
            let mut pos: usize = 0;
            while pos < out.len() && all[out[pos]].length <= len
                invariant
                    k < all@.len(),
                    len == all@[k as int].length,
                    pos <= out@.len(),
                    forall|i: int| 0 <= i < out@.len() ==> #[trigger] out@[i] < k,
                    forall|i: int, j: int|
                        0 <= i < j < out@.len() ==> all@[out@[i] as int].length < all@[out@[j] as int].length || (all@[out@[i] as int].length
                            == all@[out@[j] as int].length && out@[i] < out@[j]),
                    forall|i: int| 0 <= i < pos ==> all@[#[trigger] out@[i] as int].length <= len,
                decreases out@.len() - pos,
            {
                pos = pos + 1;
            }
            proof {
                if pos < out@.len() {
                    assert forall|i: int| pos <= i < out@.len() implies all@[#[trigger] out@[i] as int].length > len by {
                        if i > pos {
                            assert(all@[out@[pos as int] as int].length <= all@[out@[i] as int].length);
                        }
                    }
                }
            }
            let ghost before = out@;
            out.insert(pos, k);
            proof {
                assert forall|i: int| 0 <= i < out@.len() implies #[trigger] out@[i] < k + 1 by {
                    if i < pos {
                        assert(out@[i] == before[i]);
                    } else if i > pos {
                        assert(out@[i] == before[i - 1]);
                    }
                }
                assert forall|i: int, j: int|
                    0 <= i < j < out@.len() implies all@[out@[i] as int].length < all@[out@[j] as int].length || (all@[out@[i] as int].length
                        == all@[out@[j] as int].length && out@[i] < out@[j]) by {
                    let bi = if i < pos { i } else { i - 1 };
                    let bj = if j < pos { j } else { j - 1 };
                    if i != pos && j != pos {
                        assert(out@[i] == before[bi]);
                        assert(out@[j] == before[bj]);
                    } else if i == pos {
                        assert(out@[j] == before[j - 1]);
                        assert(all@[before[j - 1] as int].length > len);
                    } else {
                        assert(out@[i] == before[i]);
                        assert(all@[before[i] as int].length <= len);
                        assert(before[i] < k);
                    }
                }
                assert forall|x: usize| out@.contains(x) <==> (x < k + 1 && route_crosses(all@[x as int], road)) by {
                    if out@.contains(x) {
                        let i = choose|i: int| 0 <= i < out@.len() && out@[i] == x;
                        if i < pos {
                            assert(before[i] == x);
                            assert(before.contains(x));
                        } else if i > pos {
                            assert(before[i - 1] == x);
                            assert(before.contains(x));
                        }
                    }
                    if x < k + 1 && route_crosses(all@[x as int], road) {
                        if x == k {
                            assert(out@[pos as int] == x);
                        } else {
                            assert(before.contains(x));
                            let i = choose|i: int| 0 <= i < before.len() && before[i] == x;
                            if i < pos {
                                assert(out@[i] == x);
                            } else {
                                assert(out@[i + 1] == x);
                            }
                        }
                    }
                    if x == k && out@.contains(x) {
                        let t = choose|t: int| 0 <= t < all@[k as int].roads@.len() && all@[k as int].roads@[t] == road;
                        assert(all@[k as int].roads@.contains(road));
                    }
                }
            }
        } else {
            proof {
                assert(!all@[k as int].roads@.contains(road)) by {
                    if all@[k as int].roads@.contains(road) {
                        let t = choose|t: int| 0 <= t < all@[k as int].roads@.len() && all@[k as int].roads@[t] == road;
                    }
                }
            }
        }
        k = k + 1;
    }
    out
}

} // verus!
