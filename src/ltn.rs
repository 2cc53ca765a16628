use vstd::prelude::*;
use crate::cells::{is_cell_partition, numbered_by_lowest_road};
use crate::map_model::{apply_many, Command, Intersection, MapModel, Road};
use crate::neighbourhood::Neighbourhood;
use crate::route::{compare_route, route_outcome, RouteComparison};
use crate::geom::{dist2, polylines_meet, valid_ring};
use crate::savefile::{decode, decoding, encode, encoding, lemma_decoding_valid, views, SaveRecord};
use crate::types::{FilterKind, LtnError, ModalFilter, Mode, Pt};
use crate::route::Route;
use crate::shortcuts::{crossing_selection, selected_from_shortcuts, is_shortcut, ordered_subset, route_crosses, same_route, subset};

verus! {

/// The batch that a drawn line gives: one filter of `kind` for each interior
/// road whose geometry the line meets, in increasing road id order.
pub open spec fn batch_for_line(
    roads: Seq<Road>,
    interior: Seq<bool>,
    line: Seq<Pt>,
    kind: FilterKind,
    items: Seq<(usize, ModalFilter)>,
) -> bool {
    &&& forall|i: int, j: int| 0 <= i < j < items.len() ==> items[i].0 < items[j].0
    &&& forall|x: usize|
        (exists|i: int| 0 <= i < items.len() && #[trigger] items[i].0 == x) <==> (x < roads.len()
            && interior[x as int] && polylines_meet(roads[x as int].geometry@, line))
    &&& forall|i: int| 0 <= i < items.len() ==> #[trigger] items[i].1 == ModalFilter { kind, position: None }
}

/// A road network under analysis, with at most one active neighbourhood.
pub struct LTN {
    pub map: MapModel,
    pub neighbourhood: Option<Neighbourhood>,
}

impl LTN {
    pub open spec fn wf(&self) -> bool {
        &&& self.map.wf()
        &&& self.neighbourhood matches Some(nb) ==> nb.describes(&self.map)
    }

    /// Builds the session from the map source's roads and intersections.
    pub fn new(roads: Vec<Road>, intersections: Vec<Intersection>) -> (r: Result<LTN, LtnError>)
        ensures
            r is Ok <==> MapModel::topology_ok(roads@, intersections@),
            r matches Ok(l) ==> l.wf() && l.neighbourhood is None && l.map.roads@ == roads@
                && l.map.intersections@ == intersections@ && l.map.filters@ == crate::map_model::no_filters(roads@.len())
                && l.map.commands@.len() == 0 && l.map.cursor == 0,
            r matches Err(e) ==> e == LtnError::InvariantViolation,
    {
        let map = MapModel::new(roads, intersections)?;
        Ok(LTN { map, neighbourhood: None })
    }

    /// Replaces the neighbourhood with the one a boundary ring induces; an
    /// invalid ring leaves the session as it was.
    pub fn set_neighbourhood(&mut self, boundary: Vec<Pt>) -> (r: Result<(), LtnError>)
        requires
            old(self).wf(),
        ensures
            final(self).wf(),
            final(self).map == old(self).map,
            r is Ok <==> valid_ring(boundary@),
            r matches Ok(_) ==> final(self).neighbourhood matches Some(nb) && nb.boundary@ == boundary@,
            r matches Err(e) ==> e == LtnError::InvalidBoundary && *final(self) == *old(self),
    {
        let nb = Neighbourhood::new(&self.map, boundary)?;
        self.neighbourhood = Some(nb);
        Ok(())
    }

    pub fn unset_neighbourhood(&mut self)
        requires
            old(self).wf(),
        ensures
            final(self).wf(),
            final(self).map == old(self).map,
            final(self).neighbourhood is None,
    {
        self.neighbourhood = None;
    }

    /// Places a filter on an interior road of the active neighbourhood.
    pub fn add_modal_filter(&mut self, road: usize, kind: FilterKind, position: Option<u16>) -> (r: Result<(), LtnError>)
        requires
            old(self).wf(),
        ensures
            final(self).wf(),
            final(self).map.roads == old(self).map.roads,
            old(self).neighbourhood is None ==> r == Err::<(), LtnError>(LtnError::NoNeighbourhood),
            old(self).neighbourhood is Some && road >= old(self).map.roads@.len() ==> r == Err::<(), LtnError>(LtnError::InvalidRoad(road)),
            old(self).neighbourhood matches Some(nb) && road < old(self).map.roads@.len() && !nb.interior_roads@[road as int]
                ==> r == Err::<(), LtnError>(LtnError::NotInterior(road)),
            old(self).neighbourhood matches Some(nb) && road < old(self).map.roads@.len() && nb.interior_roads@[road as int]
                && old(self).map.cursor < usize::MAX ==> r is Ok,
            r is Ok ==> final(self).map.filters@ == old(self).map.filters@.update(
                road as int,
                Some(ModalFilter { kind, position }),
            ),
            r is Ok ==> final(self).map.commands@ == old(self).map.commands@.take(old(self).map.cursor as int).push(
                Command::SetFilter(road, ModalFilter { kind, position }),
            ),
            r is Ok ==> final(self).map.cursor == old(self).map.cursor + 1,
            final(self).neighbourhood == old(self).neighbourhood,
            r is Err ==> *final(self) == *old(self),
    {
        match &self.neighbourhood {
            None => Err(LtnError::NoNeighbourhood),
            Some(nb) => {
                if road >= self.map.roads.len() {
                    return Err(LtnError::InvalidRoad(road));
                }
                if !nb.interior_roads[road] {
                    return Err(LtnError::NotInterior(road));
                }
                self.map.add_modal_filter(road, ModalFilter { kind, position })
            },
        }
    }

    /// Filters, in one undoable batch, every interior road that a drawn line
    /// crosses; returns how many roads were filtered.
    pub fn add_many_modal_filters(&mut self, line: &Vec<Pt>, kind: FilterKind) -> (r: Result<usize, LtnError>)
        requires
            old(self).wf(),
        ensures
            final(self).wf(),
            final(self).map.roads == old(self).map.roads,
            old(self).neighbourhood is None <==> r == Err::<usize, LtnError>(LtnError::NoNeighbourhood),
            old(self).neighbourhood is Some && old(self).map.cursor < usize::MAX ==> r is Ok,
            final(self).neighbourhood == old(self).neighbourhood,
            r matches Err(e) ==> *final(self) == *old(self) && (e == LtnError::NoNeighbourhood || e == LtnError::InvariantViolation),
            r matches Ok(n) ==> old(self).neighbourhood matches Some(nb) && exists|items: Seq<(usize, ModalFilter)>|
                #[trigger] batch_for_line(old(self).map.roads@, nb.interior_roads@, line@, kind, items) && items.len() == n
                    && final(self).map.filters@ == apply_many(old(self).map.filters@, items),
            r matches Ok(n) && n > 0 ==> final(self).map.cursor == old(self).map.cursor + 1
                && final(self).map.commands@.len() == old(self).map.cursor + 1
                && final(self).map.commands@.take(old(self).map.cursor as int) == old(self).map.commands@.take(
                old(self).map.cursor as int,
            ) && (final(self).map.commands@[old(self).map.cursor as int] matches Command::SetMany(v)
                && batch_for_line(old(self).map.roads@, old(self).neighbourhood->Some_0.interior_roads@, line@, kind, v@)
                && final(self).map.filters@ == apply_many(old(self).map.filters@, v@)),
            r matches Ok(n) && n == 0 ==> *final(self) == *old(self),
    {
        match &self.neighbourhood {
            None => Err(LtnError::NoNeighbourhood),
            Some(nb) => {
                let hits = nb.roads_crossing_line(&self.map, line);
                let mut items: Vec<(usize, ModalFilter)> = Vec::new();
                let mut i: usize = 0;
                while i < hits.len()
                    invariant
                        i <= hits@.len(),
                        items@.len() == i,
                        forall|k: int| 0 <= k < i ==> #[trigger] items@[k] == (hits@[k], ModalFilter { kind, position: None }),
                    decreases hits@.len() - i,
                {
                    items.push((hits[i], ModalFilter { kind, position: None }));
                    i = i + 1;
                }
                let n = items.len();
                let ghost iv = items@;
                proof {
                    assert forall|x: usize|
                        (exists|i: int| 0 <= i < n && #[trigger] iv[i].0 == x) <==> hits@.contains(x) by {
                        if hits@.contains(x) {
                            let k = choose|k: int| 0 <= k < hits@.len() && hits@[k] == x;
                            assert(iv[k] == (hits@[k], ModalFilter { kind, position: None }));
                            assert(iv[k].0 == x);
                        }
                        if exists|i: int| 0 <= i < n && #[trigger] iv[i].0 == x {
                            let k = choose|i: int| 0 <= i < n && #[trigger] iv[i].0 == x;
                            assert(iv[k] == (hits@[k], ModalFilter { kind, position: None }));
                            assert(hits@[k] == x);
                        }
                    }
                }
                let ghost roads0 = self.map.roads@;
                proof {
                    assert forall|x: usize|
                        (exists|i: int| 0 <= i < iv.len() && #[trigger] iv[i].0 == x) <==> (x < roads0.len()
                            && nb.interior_roads@[x as int] && polylines_meet(roads0[x as int].geometry@, line@)) by {
                        assert(hits@.contains(x) <==> (x < roads0.len()
                            && nb.interior_roads@[x as int] && polylines_meet(roads0[x as int].geometry@, line@)));
                    }
                }
                let res = self.map.add_many_modal_filters(items);
                match res {
                    Ok(()) => {
                        proof {
                            assert forall|i: int, j: int| 0 <= i < j < n implies iv[i].0 < iv[j].0 by {
                                assert(iv[i] == (hits@[i], ModalFilter { kind, position: None }));
                                assert(iv[j] == (hits@[j], ModalFilter { kind, position: None }));
                            }
                            assert forall|i: int| 0 <= i < n implies #[trigger] iv[i].1 == ModalFilter { kind, position: None } by {
                                assert(iv[i] == (hits@[i], ModalFilter { kind, position: None }));
                            }
                            assert(batch_for_line(roads0, nb.interior_roads@, line@, kind, iv));
                        }
                        Ok(n)
                    },
                    Err(_) => Err(LtnError::InvariantViolation),
                }
            },
        }
    }

    /// Removes the filter on a road, if there is one.
    pub fn delete_modal_filter(&mut self, road: usize)
        requires
            old(self).wf(),
        ensures
            final(self).wf(),
            final(self).map.roads == old(self).map.roads,
            final(self).neighbourhood == old(self).neighbourhood,
            old(self).map.cursor < usize::MAX ==> final(self).map.filters@ == crate::map_model::set_at(old(self).map.filters@, road, None),
            (road < old(self).map.roads@.len() && old(self).map.filters@[road as int] is Some
                && old(self).map.cursor < usize::MAX) ==> final(self).map.commands@
                == old(self).map.commands@.take(old(self).map.cursor as int).push(Command::DeleteFilter(road))
                && final(self).map.cursor == old(self).map.cursor + 1,
            !(road < old(self).map.roads@.len() && old(self).map.filters@[road as int] is Some) ==> *final(self)
                == *old(self),
    {
        self.map.delete_modal_filter(road);
    }

    pub fn undo(&mut self)
        requires
            old(self).wf(),
        ensures
            final(self).wf(),
            final(self).map.roads == old(self).map.roads,
            final(self).map.commands == old(self).map.commands,
            final(self).map.cursor == if old(self).map.cursor > 0 { old(self).map.cursor - 1 } else { 0 },
            final(self).neighbourhood == old(self).neighbourhood,
    {
        self.map.undo();
    }

    pub fn redo(&mut self)
        requires
            old(self).wf(),
        ensures
            final(self).wf(),
            final(self).map.roads == old(self).map.roads,
            final(self).map.commands == old(self).map.commands,
            final(self).map.cursor == if old(self).map.cursor < old(self).map.commands@.len() {
                old(self).map.cursor + 1
            } else {
                old(self).map.cursor as int
            },
            final(self).neighbourhood == old(self).neighbourhood,
    {
        self.map.redo();
    }

    /// The access cells of the active neighbourhood for a travel mode.
    pub fn cells(&self, mode: Mode) -> (r: Result<(Vec<Option<usize>>, usize), LtnError>)
        requires
            self.wf(),
        ensures
            self.neighbourhood is None <==> r is Err,
            r matches Err(e) ==> e == LtnError::NoNeighbourhood,
            r matches Ok((labels, count)) ==> self.neighbourhood matches Some(nb) && is_cell_partition(
                self.map.roads@,
                nb.interior_roads@,
                self.map.filters@,
                mode,
                labels@,
            ) && numbered_by_lowest_road(labels@, count),
    {
        match &self.neighbourhood {
            None => Err(LtnError::NoNeighbourhood),
            Some(nb) => Ok(nb.compute_cells(&self.map, mode)),
        }
    }

    /// The filter set and, if a neighbourhood is active, its boundary, as savefile records.
    pub fn to_savefile(&self) -> (r: Vec<SaveRecord>)
        requires
            self.wf(),
        ensures
            views(r@) == encoding(
                self.map.roads@,
                self.map.filters@,
                match &self.neighbourhood {
                    Some(n) => Some(n.boundary@),
                    None => None,
                },
            ),
    {
        encode(&self.map, self.neighbourhood.as_ref())
    }

    /// Restores a saved filter set (as one undoable step) and the saved
    /// boundary, if any; returns whether a boundary was restored. A
    /// malformed savefile leaves the session untouched.
    pub fn load_savefile(&mut self, recs: &Vec<SaveRecord>) -> (r: Result<bool, LtnError>)
        requires
            old(self).wf(),
        ensures
            final(self).wf(),
            final(self).map.roads == old(self).map.roads,
            decoding(old(self).map.roads@, views(recs@)) is None ==> r == Err::<bool, LtnError>(LtnError::MalformedSavefile),
            decoding(old(self).map.roads@, views(recs@)) is Some && old(self).map.cursor < usize::MAX ==> r is Ok,
            r matches Ok(has_boundary) ==> decoding(old(self).map.roads@, views(recs@)) matches Some((fs, b)) && final(self).map.filters@ == fs && has_boundary == b is Some && (match b {
                Some(ring) => final(self).neighbourhood matches Some(nb) && nb.boundary@ == ring,
                None => final(self).neighbourhood is None,
            }),
            r is Err ==> *final(self) == *old(self),
    {
        let (fs, b) = decode(&self.map, recs)?;
        proof {
            lemma_decoding_valid(self.map.roads@, views(recs@), views(recs@).len());
        }
        let nb = match b {
            Some(ring) => match Neighbourhood::new(&self.map, ring) {
                Ok(nb) => Some(nb),
                Err(_) => return Err(LtnError::MalformedSavefile),
            },
            None => None,
        };
        self.map.load_filters(&fs)?;
        let has = nb.is_some();
        self.neighbourhood = nb;
        Ok(has)
    }

    /// The shortcuts through the active neighbourhood that use `road`, by
    /// increasing length, ties by increasing first entrance.
    pub fn get_shortcuts_crossing_road(&self, road: usize) -> (r: Result<Vec<Route>, LtnError>)
        requires
            self.wf(),
        ensures
            self.neighbourhood is None <==> r is Err,
            r matches Err(e) ==> e == LtnError::NoNeighbourhood,
            r matches Ok(v) ==> self.neighbourhood matches Some(nb) && selected_from_shortcuts(&self.map, &nb, road, v@),
            r matches Ok(v) ==> self.neighbourhood matches Some(nb) && forall|k: int|
                0 <= k < v@.len() ==> #[trigger] is_shortcut(&self.map, &nb, v@[k].nodes@[0], v@[k].nodes@.last(), v@[k])
                    && route_crosses(v@[k], road),
            r matches Ok(v) ==> forall|i: int, j: int| 0 <= i < j < v@.len() ==> v@[i].length < v@[j].length
                || (v@[i].length == v@[j].length && v@[i].nodes@[0] <= v@[j].nodes@[0]),
    {
        match &self.neighbourhood {
            None => Err(LtnError::NoNeighbourhood),
            Some(nb) => {
                let all = nb.find_shortcuts(&self.map);
                let idx = subset(&all, road);
                let mut out: Vec<Route> = Vec::new();
                let mut i: usize = 0;
                while i < idx.len()
                    invariant
                        i <= idx@.len(),
                        out@.len() == i,
                        ordered_subset(all@, road, idx@),
                        forall|q: int| 0 <= q < i ==> #[trigger] same_route(out@[q], all@[idx@[q] as int]),
                    decreases idx@.len() - i,
                {
                    let ghost before = out@;
                    out.push(all[idx[i]].duplicate());
                    proof {
                        assert forall|q: int| 0 <= q < i + 1 implies #[trigger] same_route(out@[q], all@[idx@[q] as int]) by {
                            if q < i {
                                assert(out@[q] == before[q]);
                            }
                        }
                    }
                    i = i + 1;
                }
                proof {
                    assert(crossing_selection(&self.map, nb, road, all@, idx@, out@));
                    assert(self.neighbourhood == Some(*nb));
                    assert(selected_from_shortcuts(&self.map, nb, road, out@));
                    assert forall|k: int| 0 <= k < out@.len() implies #[trigger] is_shortcut(&self.map, nb, out@[k].nodes@[0], out@[k].nodes@.last(), out@[k])
                        && route_crosses(out@[k], road) by {
                        let x = idx@[k];
                        assert(same_route(out@[k], all@[x as int]));
                        assert(is_shortcut(&self.map, nb, all@[x as int].nodes@[0], all@[x as int].nodes@.last(), all@[x as int]));
                        assert(idx@.contains(x));
                    }
                    assert forall|p: int, q: int| 0 <= p < q < out@.len() implies out@[p].length < out@[q].length
                        || (out@[p].length == out@[q].length && out@[p].nodes@[0] <= out@[q].nodes@[0]) by {
                        assert(same_route(out@[p], all@[idx@[p] as int]));
                        assert(same_route(out@[q], all@[idx@[q] as int]));
                        assert(idx@[p] < all@.len());
                        assert(idx@[q] < all@.len());
                    }
                }
                Ok(out)
            },
        }
    }

    /// Routes between the intersections nearest two points, ignoring and
    /// respecting filters.
    pub fn compare_route(&self, p1: Pt, p2: Pt) -> (r: Result<RouteComparison, LtnError>)
        requires
            self.wf(),
        ensures
            r is Err <==> self.map.intersections@.len() == 0,
            r matches Err(e) ==> e == LtnError::InvalidPoint,
            r matches Ok(c) ==> exists|s: usize, e: usize|
                s < self.map.intersections@.len() && e < self.map.intersections@.len()
                && (forall|j: int| 0 <= j < self.map.intersections@.len() ==> dist2(self.map.intersections@[s as int].point, p1) <= dist2(#[trigger] self.map.intersections@[j].point, p1))
                && (forall|j: int| 0 <= j < self.map.intersections@.len() ==> dist2(self.map.intersections@[e as int].point, p2) <= dist2(#[trigger] self.map.intersections@[j].point, p2))
                && #[trigger] route_outcome(self.map.roads@, crate::route::all_roads(self.map.roads@.len()), self.map.filters@, self.map.intersections@.len(), false, s, e, c.before)
                && route_outcome(self.map.roads@, crate::route::all_roads(self.map.roads@.len()), self.map.filters@, self.map.intersections@.len(), true, s, e, c.after),
            r matches Ok(c) ==> (c.before is Ok && c.after is Ok ==> c.before->Ok_0.length <= c.after->Ok_0.length),
    {
        let r = compare_route(&self.map, p1, p2);
        proof {
            if r is Ok {
                let c = r->Ok_0;
                if c.before is Ok && c.after is Ok {
                    let b = c.before->Ok_0;
                    let a = c.after->Ok_0;
                    let (s, e) = choose|s: usize, e: usize|
                        s < self.map.intersections@.len() && e < self.map.intersections@.len()
                        && (forall|j: int| 0 <= j < self.map.intersections@.len() ==> dist2(self.map.intersections@[s as int].point, p1) <= dist2(#[trigger] self.map.intersections@[j].point, p1))
                        && (forall|j: int| 0 <= j < self.map.intersections@.len() ==> dist2(self.map.intersections@[e as int].point, p2) <= dist2(#[trigger] self.map.intersections@[j].point, p2))
                        && #[trigger] route_outcome(self.map.roads@, crate::route::all_roads(self.map.roads@.len()), self.map.filters@, self.map.intersections@.len(), false, s, e, c.before)
                        && route_outcome(self.map.roads@, crate::route::all_roads(self.map.roads@.len()), self.map.filters@, self.map.intersections@.len(), true, s, e, c.after);
                    crate::route::lemma_ignoring_filters_no_longer(
                        self.map.roads@,
                        crate::route::all_roads(self.map.roads@.len()),
                        self.map.filters@,
                        s,
                        e,
                        a,
                        b,
                    );
                }
            }
        }
        r
    }
}

} // verus!
