use vstd::prelude::*;
use crate::geom::{inside, point_in_polygon, polylines_intersect, polylines_meet, ring_is_valid, valid_ring};
use crate::map_model::MapModel;
use crate::types::{LtnError, Pt};

verus! {

/// A boundary ring and the partition of the network that it induces: which
/// intersections lie inside, which roads are interior (both endpoints inside)
/// and which are boundary roads (exactly one endpoint inside).
pub struct Neighbourhood {
    pub boundary: Vec<Pt>,
    pub interior_intersections: Vec<bool>,
    pub interior_roads: Vec<bool>,
    pub boundary_roads: Vec<bool>,
}

impl Neighbourhood {
    /// The partition is exactly the one that the boundary induces on `m`.
    pub open spec fn describes(&self, m: &MapModel) -> bool {
        &&& valid_ring(self.boundary@)
        &&& self.interior_intersections@.len() == m.intersections@.len()
        &&& self.interior_roads@.len() == m.roads@.len()
        &&& self.boundary_roads@.len() == m.roads@.len()
        &&& forall|i: int|
            0 <= i < m.intersections@.len() ==> #[trigger] self.interior_intersections@[i] == inside(
                self.boundary@,
                m.intersections@[i].point,
            )
        &&& forall|r: int|
            0 <= r < m.roads@.len() ==> #[trigger] self.interior_roads@[r] == (
            self.interior_intersections@[m.roads@[r].src as int]
                && self.interior_intersections@[m.roads@[r].dst as int])
        &&& forall|r: int|
            0 <= r < m.roads@.len() ==> #[trigger] self.boundary_roads@[r] == (
            self.interior_intersections@[m.roads@[r].src as int]
                != self.interior_intersections@[m.roads@[r].dst as int])
    }

    /// Classifies the network against a boundary ring; a ring with fewer than
    /// three vertices, zero area or crossing edges is refused.
    pub fn new(m: &MapModel, boundary: Vec<Pt>) -> (r: Result<Neighbourhood, LtnError>)
        requires
            m.wf(),
        ensures
            r is Ok <==> valid_ring(boundary@),
            r matches Ok(nb) ==> nb.describes(m) && nb.boundary@ == boundary@,
            r matches Err(e) ==> e == LtnError::InvalidBoundary,
    {
        if !ring_is_valid(&boundary) {
            return Err(LtnError::InvalidBoundary);
        }
        let mut ii: Vec<bool> = Vec::new();
        let mut i: usize = 0;
        while i < m.intersections.len()
            invariant
                i <= m.intersections@.len(),
                ii@.len() == i,
                forall|k: int| 0 <= k < i ==> #[trigger] ii@[k] == inside(boundary@, m.intersections@[k].point),
            decreases m.intersections@.len() - i,
        {
            ii.push(point_in_polygon(&boundary, m.intersections[i].point));
            i = i + 1;
        }
        let mut ir: Vec<bool> = Vec::new();
        let mut br: Vec<bool> = Vec::new();
        let mut r: usize = 0;
        while r < m.roads.len()
            invariant
                m.wf(),
                r <= m.roads@.len(),
                ii@.len() == m.intersections@.len(),
                ir@.len() == r,
                br@.len() == r,
                forall|k: int|
                    0 <= k < r ==> #[trigger] ir@[k] == (ii@[m.roads@[k].src as int] && ii@[m.roads@[k].dst as int]),
                forall|k: int|
                    0 <= k < r ==> #[trigger] br@[k] == (ii@[m.roads@[k].src as int] != ii@[m.roads@[k].dst as int]),
            decreases m.roads@.len() - r,
        {
            let a = ii[m.roads[r].src];
            let b = ii[m.roads[r].dst];
            ir.push(a && b);
            br.push(a != b);
            r = r + 1;
        }
        Ok(Neighbourhood { boundary, interior_intersections: ii, interior_roads: ir, boundary_roads: br })
    }

    /// The interior roads whose geometry meets a drawn line, in increasing id order.
    pub fn roads_crossing_line(&self, m: &MapModel, line: &Vec<Pt>) -> (r: Vec<usize>)
        requires
            m.wf(),
            self.describes(m),
        ensures
            forall|i: int, j: int| 0 <= i < j < r@.len() ==> r@[i] < r@[j],
            forall|k: int| 0 <= k < r@.len() ==> #[trigger] r@[k] < m.roads@.len(),
            forall|x: usize|
                r@.contains(x) <==> (x < m.roads@.len() && self.interior_roads@[x as int]
                    && polylines_meet(m.roads@[x as int].geometry@, line@)),
    {
        let mut out: Vec<usize> = Vec::new();
        let mut x: usize = 0;
        while x < m.roads.len()
            invariant
                m.wf(),
                self.describes(m),
                x <= m.roads@.len(),
                forall|i: int, j: int| 0 <= i < j < out@.len() ==> out@[i] < out@[j],
                forall|k: int| 0 <= k < out@.len() ==> #[trigger] out@[k] < x,
                forall|y: usize|
                    out@.contains(y) <==> (y < x && self.interior_roads@[y as int]
                        && polylines_meet(m.roads@[y as int].geometry@, line@)),
            decreases m.roads@.len() - x,
        {
            if self.interior_roads[x] && polylines_intersect(&m.roads[x].geometry, line) {
                let ghost before = out@;
                out.push(x);
                proof {
                    assert forall|y: usize|
                        out@.contains(y) <==> (y < x + 1 && self.interior_roads@[y as int]
                            && polylines_meet(m.roads@[y as int].geometry@, line@)) by {
                        if out@.contains(y) && y != x {
                            let k = choose|k: int| 0 <= k < out@.len() && out@[k] == y;
                            assert(before[k] == y);
                            assert(before.contains(y));
                        }
                        if y < x && self.interior_roads@[y as int]
                            && polylines_meet(m.roads@[y as int].geometry@, line@) {
                            assert(before.contains(y));
                            let k = choose|k: int| 0 <= k < before.len() && before[k] == y;
                            assert(out@[k] == y);
                        }
                        if y == x {
                            assert(out@[before.len() as int] == y);
                        }
                    }
                }
            }
            x = x + 1;
        }
        proof {
            assert forall|k: int| 0 <= k < out@.len() implies #[trigger] out@[k] < m.roads@.len() by {
                assert(out@[k] < x);
            }
        }
        out
    }
}

} // verus!
