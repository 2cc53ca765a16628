use vstd::prelude::*;
use crate::map_model::{no_filters, Filters, MapModel, Road};
use crate::neighbourhood::Neighbourhood;
use crate::types::{blocks_spec, Mode};

verus! {

/// Whether a filter on road r blocks `mode`.
pub open spec fn blocked(fs: Filters, mode: Mode, r: int) -> bool {
    fs[r] matches Some(f) && blocks_spec(f.kind, mode)
}

/// Whether road r can be entered at intersection x. A blocking filter
/// splits the road: the road keeps the part reached from its first
/// endpoint, and no longer links through its second.
pub open spec fn open_at(roads: Seq<Road>, fs: Filters, mode: Mode, r: int, x: usize) -> bool {
    roads[r].src == x || (roads[r].dst == x && !blocked(fs, mode, r))
}

/// Two interior roads that can both be entered at an intersection they share.
pub open spec fn adjacent(
    roads: Seq<Road>,
    interior: Seq<bool>,
    fs: Filters,
    mode: Mode,
    a: int,
    b: int,
) -> bool {
    &&& 0 <= a < roads.len()
    &&& 0 <= b < roads.len()
    &&& interior[a]
    &&& interior[b]
    &&& ((open_at(roads, fs, mode, a, roads[b].src) && open_at(roads, fs, mode, b, roads[b].src)) || (open_at(
        roads,
        fs,
        mode,
        a,
        roads[b].dst,
    ) && open_at(roads, fs, mode, b, roads[b].dst)))
}

/// A sequence of roads, each meeting the next where both can be entered.
pub open spec fn is_path(roads: Seq<Road>, interior: Seq<bool>, fs: Filters, mode: Mode, p: Seq<int>) -> bool {
    &&& p.len() >= 1
    &&& forall|i: int| 0 <= i < p.len() ==> 0 <= #[trigger] p[i] < roads.len()
    &&& forall|i: int|
        0 <= i < p.len() - 1 ==> #[trigger] adjacent(roads, interior, fs, mode, p[i], p[i + 1])
}

/// Whether a filter-respecting path leads from road a to road b.
pub open spec fn connected(
    roads: Seq<Road>,
    interior: Seq<bool>,
    fs: Filters,
    mode: Mode,
    a: int,
    b: int,
) -> bool {
    exists|p: Seq<int>| #[trigger] is_path(roads, interior, fs, mode, p) && p[0] == a && p.last() == b
}

/// A labelling of the roads is the cell partition for `mode`: exactly the
/// interior roads carry a cell id, and two of them share one iff a
/// filter-respecting path connects them.
pub open spec fn is_cell_partition(
    roads: Seq<Road>,
    interior: Seq<bool>,
    fs: Filters,
    mode: Mode,
    labels: Seq<Option<usize>>,
) -> bool {
    &&& labels.len() == roads.len()
    &&& forall|r: int| 0 <= r < roads.len() ==> (#[trigger] labels[r] is Some <==> interior[r])
    &&& forall|a: int, b: int|
        0 <= a < roads.len() && 0 <= b < roads.len() && interior[a] && interior[b] ==> (labels[a]
            == labels[b] <==> #[trigger] connected(roads, interior, fs, mode, a, b))
}

proof fn lemma_adjacent_symmetric(roads: Seq<Road>, interior: Seq<bool>, fs: Filters, mode: Mode, a: int, b: int)
    ensures
        adjacent(roads, interior, fs, mode, a, b) == adjacent(roads, interior, fs, mode, b, a),
{
}

proof fn lemma_connected_self(roads: Seq<Road>, interior: Seq<bool>, fs: Filters, mode: Mode, a: int)
    requires
        0 <= a < roads.len(),
    ensures
        connected(roads, interior, fs, mode, a, a),
{
    let p = seq![a];
    assert(is_path(roads, interior, fs, mode, p));
}

proof fn lemma_connected_extend(
    roads: Seq<Road>,
    interior: Seq<bool>,
    fs: Filters,
    mode: Mode,
    a: int,
    b: int,
    c: int,
)
    requires
        connected(roads, interior, fs, mode, a, b),
        adjacent(roads, interior, fs, mode, b, c),
    ensures
        connected(roads, interior, fs, mode, a, c),
{
    let p = choose|p: Seq<int>| #[trigger] is_path(roads, interior, fs, mode, p) && p[0] == a && p.last() == b;
    let q = p.push(c);
    assert forall|i: int| 0 <= i < q.len() - 1 implies #[trigger] adjacent(roads, interior, fs, mode, q[i], q[i + 1]) by {
        if i < p.len() - 1 {
            assert(q[i] == p[i] && q[i + 1] == p[i + 1]);
        }
    }
    assert(is_path(roads, interior, fs, mode, q));
}

proof fn lemma_connected_symmetric(roads: Seq<Road>, interior: Seq<bool>, fs: Filters, mode: Mode, a: int, b: int)
    requires
        connected(roads, interior, fs, mode, a, b),
    ensures
        connected(roads, interior, fs, mode, b, a),
{
    let p = choose|p: Seq<int>| #[trigger] is_path(roads, interior, fs, mode, p) && p[0] == a && p.last() == b;
    let n = p.len();
    let q = Seq::new(n, |i: int| p[n - 1 - i]);
    assert forall|i: int| 0 <= i < q.len() - 1 implies #[trigger] adjacent(roads, interior, fs, mode, q[i], q[i + 1]) by {
        let j = n - 2 - i;
        assert(adjacent(roads, interior, fs, mode, p[j], p[j + 1]));
        lemma_adjacent_symmetric(roads, interior, fs, mode, p[j], p[j + 1]);
    }
    assert(is_path(roads, interior, fs, mode, q));
}

proof fn lemma_connected_trans(
    roads: Seq<Road>,
    interior: Seq<bool>,
    fs: Filters,
    mode: Mode,
    a: int,
    b: int,
    c: int,
)
    requires
        connected(roads, interior, fs, mode, a, b),
        connected(roads, interior, fs, mode, b, c),
    ensures
        connected(roads, interior, fs, mode, a, c),
{
    let p = choose|p: Seq<int>| #[trigger] is_path(roads, interior, fs, mode, p) && p[0] == a && p.last() == b;
    let q = choose|q: Seq<int>| #[trigger] is_path(roads, interior, fs, mode, q) && q[0] == b && q.last() == c;
    let r = p + q.subrange(1, q.len() as int);
    assert forall|i: int| 0 <= i < r.len() implies 0 <= #[trigger] r[i] < roads.len() by {
        if i >= p.len() {
            assert(r[i] == q[i - p.len() + 1]);
        }
    }
    assert forall|i: int| 0 <= i < r.len() - 1 implies #[trigger] adjacent(roads, interior, fs, mode, r[i], r[i + 1]) by {
        if i < p.len() - 1 {
            assert(r[i] == p[i] && r[i + 1] == p[i + 1]);
        } else if i == p.len() - 1 {
            assert(r[i] == q[0]);
            assert(r[i + 1] == q[1]);
            assert(adjacent(roads, interior, fs, mode, q[0], q[1]));
        } else {
            let k = i - p.len() + 1;
            assert(r[i] == q[k] && r[i + 1] == q[k + 1]);
            assert(adjacent(roads, interior, fs, mode, q[k], q[k + 1]));
        }
    }
    if q.len() == 1 {
        assert(r == p);
    } else {
        assert(r.last() == q.last());
    }
    assert(is_path(roads, interior, fs, mode, r));
}

/// Every road adjacent to r carries r's label.
pub open spec fn closed(
    roads: Seq<Road>,
    interior: Seq<bool>,
    fs: Filters,
    mode: Mode,
    labels: Seq<Option<usize>>,
    r: int,
) -> bool {
    forall|t: int| #[trigger] adjacent(roads, interior, fs, mode, r, t) ==> labels[t] == labels[r]
}

/// Along a path from a road whose neighbours all share its label, the label
/// stays the same.
proof fn lemma_path_keeps_label(
    roads: Seq<Road>,
    interior: Seq<bool>,
    fs: Filters,
    mode: Mode,
    labels: Seq<Option<usize>>,
    p: Seq<int>,
    k: int,
)
    requires
        is_path(roads, interior, fs, mode, p),
        0 <= k < p.len(),
        forall|r: int| 0 <= r < roads.len() && labels[r] is Some ==> #[trigger] closed(roads, interior, fs, mode, labels, r),
        forall|r: int| 0 <= r < roads.len() && interior[r] ==> #[trigger] labels[r] is Some,
        interior[p[0]],
    ensures
        labels[p[k]] == labels[p[0]],
    decreases k,
{
    if k > 0 {
        lemma_path_keeps_label(roads, interior, fs, mode, labels, p, k - 1);
        let j = k - 1;
        assert(adjacent(roads, interior, fs, mode, p[j], p[j + 1]));
        assert(labels[p[k - 1]] is Some);
        assert(closed(roads, interior, fs, mode, labels, p[k - 1]));
    }
}

/// Some road carries cell id c.
pub open spec fn label_used(labels: Seq<Option<usize>>, c: usize) -> bool {
    exists|x: int| 0 <= x < labels.len() && labels[x] == Some(c)
}

/// No road with a lower id shares road a's label.
pub open spec fn lowest_in_cell(labels: Seq<Option<usize>>, a: int) -> bool {
    forall|s: int| 0 <= s < a ==> labels[s] != labels[a]
}

/// Cell ids run from 0 to `count - 1`, each in use, in increasing order of
/// each cell's lowest road id.
pub open spec fn numbered_by_lowest_road(labels: Seq<Option<usize>>, count: usize) -> bool {
    &&& forall|x: int| 0 <= x < labels.len() && #[trigger] labels[x] is Some ==> labels[x].unwrap() < count
    &&& forall|c: usize| c < count ==> #[trigger] label_used(labels, c)
    &&& forall|a: int, b: int|
        0 <= a < b < labels.len() && labels[a] is Some && labels[b] is Some && lowest_in_cell(labels, a)
            && lowest_in_cell(labels, b) ==> #[trigger] labels[a].unwrap() < #[trigger] labels[b].unwrap()
}

/// Each cell's seed is its lowest road and carries the cell's id; seeds increase with ids.
pub open spec fn seeds_ok(labels: Seq<Option<usize>>, rep: Seq<int>) -> bool {
    &&& forall|c: int| 0 <= c < rep.len() ==> 0 <= #[trigger] rep[c] < labels.len() && labels[rep[c]] == Some(c as usize)
    &&& forall|i: int, j: int| 0 <= i < j < rep.len() ==> #[trigger] rep[i] < #[trigger] rep[j]
    &&& forall|r: int| 0 <= r < labels.len() && #[trigger] labels[r] is Some ==> labels[r].unwrap() < rep.len() && rep[labels[r].unwrap() as int] <= r
}

/// Number of unlabelled entries among the first `k`.
pub open spec fn count_none(labels: Seq<Option<usize>>, k: nat) -> nat
    decreases k,
{
    if k == 0 {
        0
    } else {
        count_none(labels, (k - 1) as nat) + if labels[k - 1] is None {
            1nat
        } else {
            0nat
        }
    }
}

proof fn lemma_count_none_label(labels: Seq<Option<usize>>, j: int, v: usize, k: nat)
    requires
        0 <= j < labels.len(),
        labels[j] is None,
        k <= labels.len(),
    ensures
        k > j ==> count_none(labels.update(j, Some(v)), k) + 1 == count_none(labels, k),
        k <= j ==> count_none(labels.update(j, Some(v)), k) == count_none(labels, k),
    decreases k,
{
    if k > 0 {
        lemma_count_none_label(labels, j, v, (k - 1) as nat);
    }
}

/// With every filter removed, a neighbourhood whose interior roads are all
/// connected to one another forms exactly one cell.
pub proof fn lemma_no_filters_one_cell(
    roads: Seq<Road>,
    interior: Seq<bool>,
    mode: Mode,
    labels: Seq<Option<usize>>,
)
    requires
        is_cell_partition(roads, interior, no_filters(roads.len()), mode, labels),
        forall|a: int, b: int|
            0 <= a < roads.len() && 0 <= b < roads.len() && interior[a] && interior[b]
                ==> #[trigger] connected(roads, interior, no_filters(roads.len()), mode, a, b),
    ensures
        forall|a: int, b: int|
            0 <= a < roads.len() && 0 <= b < roads.len() && interior[a] && interior[b] ==> #[trigger] labels[a]
                == #[trigger] labels[b],
        forall|a: int| 0 <= a < roads.len() && interior[a] ==> #[trigger] labels[a] is Some,
{
    assert forall|a: int, b: int|
        0 <= a < roads.len() && 0 <= b < roads.len() && interior[a] && interior[b] implies #[trigger] labels[a]
            == #[trigger] labels[b] by {
        assert(connected(roads, interior, no_filters(roads.len()), mode, a, b));
    }
}

impl Neighbourhood {
    /// Labels every interior road with the id of its access cell for `mode`;
    /// other roads get no label. Cell ids are 0, 1, ... in increasing order
    /// of the lowest road id in each cell. Also returns the number of cells.
    pub fn compute_cells(&self, m: &MapModel, mode: Mode) -> (r: (Vec<Option<usize>>, usize))
        requires
            m.wf(),
            self.describes(m),
        ensures
            is_cell_partition(m.roads@, self.interior_roads@, m.filters@, mode, r.0@),
            numbered_by_lowest_road(r.0@, r.1),
    {
        let n = m.roads.len();
        let ghost roads = m.roads@;
        let ghost interior = self.interior_roads@;
        let ghost fs = m.filters@;
        let mut labels: Vec<Option<usize>> = Vec::new();
        let mut i: usize = 0;
        while i < n
            invariant
                i <= n,
                labels@.len() == i,
                forall|k: int| 0 <= k < i ==> #[trigger] labels@[k] is None,
            decreases n - i,
        {
            labels.push(None);
            i = i + 1;
        }
        let ghost mut rep: Seq<int> = Seq::empty();
        let mut next: usize = 0;
        let mut s: usize = 0;
        while s < n
            invariant
                m.wf(),
                self.describes(m),
                n == roads.len(),
                roads == m.roads@,
                interior == self.interior_roads@,
                fs == m.filters@,
                s <= n,
                labels@.len() == n,
                rep.len() == next,
                next <= s,
                seeds_ok(labels@, rep),
                forall|c: int| 0 <= c < rep.len() ==> #[trigger] rep[c] < s,
                forall|r: int| 0 <= r < n && #[trigger] labels@[r] is Some ==> interior[r] && labels@[r].unwrap() < next,
                forall|r: int| 0 <= r < s && interior[r] ==> #[trigger] labels@[r] is Some,
                forall|r: int| 0 <= r < n && labels@[r] is Some ==> #[trigger] closed(roads, interior, fs, mode, labels@, r),
                forall|r: int|
                    0 <= r < n && #[trigger] labels@[r] is Some ==> connected(
                        roads,
                        interior,
                        fs,
                        mode,
                        rep[labels@[r].unwrap() as int],
                        r,
                    ),
            decreases n - s,
        {
            if self.interior_roads[s] && labels[s].is_none() {
                let c = next;
                let ghost old_labels = labels@;
                proof {
                    lemma_count_none_label(labels@, s as int, c, n as nat);
                    rep = rep.push(s as int);
                    lemma_connected_self(roads, interior, fs, mode, s as int);
                }
                labels.set(s, Some(c));
                proof {
                    assert forall|r: int| 0 <= r < n && #[trigger] labels@[r] is Some implies labels@[r].unwrap() < rep.len()
                        && rep[labels@[r].unwrap() as int] <= r by {
                        if r != s {
                            assert(old_labels[r] is Some);
                        }
                    }
                    assert forall|k: int| 0 <= k < rep.len() implies 0 <= #[trigger] rep[k] < labels@.len() && labels@[rep[k]] == Some(k as usize) by {
                        if k < c {
                            assert(rep[k] < s);
                        }
                    }
                }
                let mut stack: Vec<usize> = Vec::new();
                stack.push(s);
                let ghost mut unl: nat = count_none(labels@, n as nat);
                proof {
                    assert forall|r: int| 0 <= r < n && labels@[r] is Some && !stack@.contains(r as usize)
                        implies #[trigger] closed(roads, interior, fs, mode, labels@, r) by {
                        assert(stack@[0] == s);
                        assert(r != s);
                        assert(old_labels[r] is Some);
                        assert(closed(roads, interior, fs, mode, old_labels, r));
                        assert forall|t: int| #[trigger] adjacent(roads, interior, fs, mode, r, t)
                            implies labels@[t] == labels@[r] by {
                            if t == s {
                                assert(old_labels[t] == old_labels[r]);
                            }
                        }
                    }
                }
                while stack.len() > 0
                    invariant
                        m.wf(),
                        self.describes(m),
                        n == roads.len(),
                        roads == m.roads@,
                        interior == self.interior_roads@,
                        fs == m.filters@,
                        s < n,
                        c == next,
                        rep.len() == next + 1,
                        labels@.len() == n,
                        unl == count_none(labels@, n as nat),
                        next < s + 1,
                        seeds_ok(labels@, rep),
                        rep[c as int] == s,
                        labels@[s as int] == Some(c),
                        forall|r: int| 0 <= r < n && #[trigger] labels@[r] is Some ==> interior[r] && labels@[r].unwrap() <= c,
                        forall|r: int| 0 <= r < s && interior[r] ==> #[trigger] labels@[r] is Some,
                        forall|k: int| 0 <= k < stack@.len() ==> #[trigger] stack@[k] < n && labels@[stack@[k] as int] == Some(c),
                        forall|r: int| 0 <= r < n && labels@[r] is Some && !stack@.contains(r as usize)
                            ==> #[trigger] closed(roads, interior, fs, mode, labels@, r),
                        forall|r: int|
                            0 <= r < n && #[trigger] labels@[r] is Some ==> connected(
                                roads,
                                interior,
                                fs,
                                mode,
                                rep[labels@[r].unwrap() as int],
                                r,
                            ),
                    decreases unl, stack@.len(),
                {
                    let ghost unl0 = unl;
                    let ghost stack_before_pop = stack@;
                    let cur = stack.pop().unwrap();
                    let ghost stack_after_pop = stack@;
                    proof {
                        assert(stack_before_pop == stack_after_pop.push(cur));
                        assert forall|r: int| 0 <= r < n && labels@[r] is Some && !stack@.contains(r as usize) && r != cur
                            implies #[trigger] closed(roads, interior, fs, mode, labels@, r) by {
                            if stack_before_pop.contains(r as usize) {
                                let k = choose|k: int| 0 <= k < stack_before_pop.len() && stack_before_pop[k] == r as usize;
                                if k < stack_after_pop.len() {
                                    assert(stack_after_pop[k] == r as usize);
                                }
                            }
                        }
                    }
                    let mut t: usize = 0;
                    while t < n
                        invariant
                            m.wf(),
                            self.describes(m),
                            n == roads.len(),
                            roads == m.roads@,
                            interior == self.interior_roads@,
                            fs == m.filters@,
                            s < n,
                            cur < n,
                            t <= n,
                            c == next,
                            rep.len() == next + 1,
                            labels@.len() == n,
                            unl == count_none(labels@, n as nat),
                            unl <= unl0,
                            seeds_ok(labels@, rep),
                            rep[c as int] == s,
                            unl == unl0 ==> stack@ == stack_after_pop,
                            labels@[s as int] == Some(c),
                            labels@[cur as int] == Some(c),
                            forall|r: int| 0 <= r < n && #[trigger] labels@[r] is Some ==> interior[r] && labels@[r].unwrap() <= c,
                            forall|r: int| 0 <= r < s && interior[r] ==> #[trigger] labels@[r] is Some,
                            forall|k: int| 0 <= k < stack@.len() ==> #[trigger] stack@[k] < n && labels@[stack@[k] as int] == Some(c),
                            forall|r: int| 0 <= r < n && labels@[r] is Some && !stack@.contains(r as usize) && r != cur
                                ==> #[trigger] closed(roads, interior, fs, mode, labels@, r),
                            forall|t2: int| 0 <= t2 < t && #[trigger] adjacent(roads, interior, fs, mode, cur as int, t2)
                                ==> labels@[t2] == Some(c),
                            forall|r: int|
                                0 <= r < n && #[trigger] labels@[r] is Some ==> connected(
                                    roads,
                                    interior,
                                    fs,
                                    mode,
                                    rep[labels@[r].unwrap() as int],
                                    r,
                                ),
                        decreases n - t,
                    {
                        let rc = &m.roads[cur];
                        let rt = &m.roads[t];
                        let blk_c = match m.filters[cur] {
                            Some(f) => f.kind.blocks(mode),
                            None => false,
                        };
                        let blk_t = match m.filters[t] {
                            Some(f) => f.kind.blocks(mode),
                            None => false,
                        };
                        let c_at_src = rc.src == rt.src || (rc.dst == rt.src && !blk_c);
                        let c_at_dst = rc.src == rt.dst || (rc.dst == rt.dst && !blk_c);
                        let t_at_dst = rt.src == rt.dst || !blk_t;
                        let adj = self.interior_roads[cur] && self.interior_roads[t] && (c_at_src || (c_at_dst
                            && t_at_dst));
                        proof {
                            assert(adj == adjacent(roads, interior, fs, mode, cur as int, t as int));
                        }
                        if adj {
                            if labels[t].is_none() {
                                let ghost before = labels@;
                                let ghost st0 = stack@;
                                proof {
                                    lemma_count_none_label(labels@, t as int, c, n as nat);
                                    lemma_connected_extend(roads, interior, fs, mode, rep[c as int], cur as int, t as int);
                                }
                                proof {
                                    assert(interior[t as int]);
                                    assert(t >= s);
                                }
                                labels.set(t, Some(c));
                                stack.push(t);
                                proof {
                                    assert forall|r: int| 0 <= r < n && #[trigger] labels@[r] is Some implies labels@[r].unwrap() < rep.len()
                                        && rep[labels@[r].unwrap() as int] <= r by {
                                        if r != t {
                                            assert(before[r] is Some);
                                        }
                                    }
                                    assert forall|k: int| 0 <= k < rep.len() implies 0 <= #[trigger] rep[k] < labels@.len() && labels@[rep[k]] == Some(k as usize) by {
                                        assert(before[rep[k]] is Some);
                                    }
                                }
                                proof {
                                    unl = count_none(labels@, n as nat);
                                    assert forall|r: int| 0 <= r < n && labels@[r] is Some && !stack@.contains(r as usize) && r != cur
                                        implies #[trigger] closed(roads, interior, fs, mode, labels@, r) by {
                                        assert(stack@[st0.len() as int] == t);
                                        assert(r != t);
                                        assert(before[r] is Some);
                                        assert(!st0.contains(r as usize)) by {
                                            if st0.contains(r as usize) {
                                                let k = choose|k: int| 0 <= k < st0.len() && st0[k] == r as usize;
                                                assert(stack@[k] == r as usize);
                                            }
                                        }
                                        assert(closed(roads, interior, fs, mode, before, r));
                                        assert forall|u: int| #[trigger] adjacent(roads, interior, fs, mode, r, u)
                                            implies labels@[u] == labels@[r] by {
                                            if u == t {
                                                assert(before[u] == before[r]);
                                            }
                                        }
                                    }
                                    assert forall|k: int| 0 <= k < stack@.len() implies #[trigger] stack@[k] < n && labels@[stack@[k] as int] == Some(c) by {
                                        if k < stack@.len() - 1 {
                                            assert(stack@[k] == st0[k]);
                                        }
                                    }
                                }
                            } else {
                                proof {
                                    let lt = labels@[t as int];
                                    if lt != Some(c) {
                                        assert(!stack@.contains(t)) by {
                                            if stack@.contains(t) {
                                                let k = choose|k: int| 0 <= k < stack@.len() && stack@[k] == t;
                                                assert(labels@[stack@[k] as int] == Some(c));
                                            }
                                        }
                                        assert(t != cur);
                                        assert(closed(roads, interior, fs, mode, labels@, t as int));
                                        lemma_adjacent_symmetric(roads, interior, fs, mode, cur as int, t as int);
                                        assert(adjacent(roads, interior, fs, mode, t as int, cur as int));
                                    }
                                }
                            }
                        }
                        t = t + 1;
                    }
                    proof {
                        assert(closed(roads, interior, fs, mode, labels@, cur as int));
                    }
                }
                next = next + 1;
            }
            s = s + 1;
        }
        proof {
            let ls = labels@;
            assert forall|c: usize| c < next implies #[trigger] label_used(ls, c) by {
                assert(ls[rep[c as int]] == Some(c));
            }
            assert forall|a: int, b: int|
                0 <= a < b < ls.len() && ls[a] is Some && ls[b] is Some && lowest_in_cell(ls, a)
                    && lowest_in_cell(ls, b) implies #[trigger] ls[a].unwrap() < #[trigger] ls[b].unwrap() by {
                let la = ls[a].unwrap() as int;
                let lb = ls[b].unwrap() as int;
                assert(rep[la] == a) by {
                    if rep[la] < a {
                        assert(ls[rep[la]] == ls[a]);
                    }
                }
                assert(rep[lb] == b) by {
                    if rep[lb] < b {
                        assert(ls[rep[lb]] == ls[b]);
                    }
                }
                if la >= lb {
                    if la > lb {
                        assert(rep[lb] < rep[la]);
                    }
                }
            }
            assert forall|a: int, b: int|
                0 <= a < n && 0 <= b < n && interior[a] && interior[b] implies (ls[a] == ls[b]
                    <==> #[trigger] connected(roads, interior, fs, mode, a, b)) by {
                if ls[a] == ls[b] {
                    let ca = rep[ls[a].unwrap() as int];
                    lemma_connected_symmetric(roads, interior, fs, mode, ca, a);
                    lemma_connected_trans(roads, interior, fs, mode, a, ca, b);
                }
                if connected(roads, interior, fs, mode, a, b) {
                    let p = choose|p: Seq<int>| #[trigger] is_path(roads, interior, fs, mode, p) && p[0] == a && p.last() == b;
                    lemma_path_keeps_label(roads, interior, fs, mode, ls, p, p.len() - 1);
                }
            }
        }
        (labels, next)
    }
}

} // verus!
