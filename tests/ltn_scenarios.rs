use ltn::ltn::LTN;
use ltn::map_model::{Intersection, Road};
use ltn::route::shortest_path;
use ltn::savefile::SaveRecord;
use ltn::types::{FilterKind, LtnError, ModalFilter, Mode, Pt};

fn pt(x: i32, y: i32) -> Pt {
    Pt { x, y }
}

fn road(src: usize, dst: usize, a: Pt, b: Pt, length: u64, name: &str) -> Road {
    Road {
        src,
        dst,
        geometry: vec![a, b],
        length,
        tags: vec![("name".to_string(), name.to_string())],
    }
}

/// A square A(0,0) B(1000,0) C(1000,1000) D(0,1000) with roads
/// 0: A-B, 1: B-C, 2: C-D, 3: A-D, 4: A-C (the diagonal).
fn square() -> LTN {
    let a = pt(0, 0);
    let b = pt(1000, 0);
    let c = pt(1000, 1000);
    let d = pt(0, 1000);
    let ints = vec![
        Intersection { point: a },
        Intersection { point: b },
        Intersection { point: c },
        Intersection { point: d },
    ];
    let roads = vec![
        road(0, 1, a, b, 1000, "ab"),
        road(1, 2, b, c, 1000, "bc"),
        road(2, 3, c, d, 1000, "cd"),
        road(0, 3, a, d, 1000, "ad"),
        road(0, 2, a, c, 1414, "ac"),
    ];
    LTN::new(roads, ints).unwrap()
}

fn big_boundary() -> Vec<Pt> {
    vec![pt(-500, -500), pt(1500, -500), pt(1500, 1500), pt(-500, 1500)]
}

fn with_neighbourhood() -> LTN {
    let mut l = square();
    l.set_neighbourhood(big_boundary()).unwrap();
    l
}

fn cells(l: &LTN) -> Vec<Option<usize>> {
    l.cells(Mode::General).unwrap().0
}

#[test]
fn filtering_diagonal_splits_no_cell() {
    let mut l = with_neighbourhood();
    l.add_modal_filter(4, FilterKind::NoEntry, None).unwrap();
    let (c, n) = l.cells(Mode::General).unwrap();
    assert_eq!(n, 1);
    assert_eq!(c, vec![Some(0); 5]);
}

#[test]
fn filtering_two_sides_isolates_corner() {
    let mut l = with_neighbourhood();
    l.add_modal_filter(4, FilterKind::NoEntry, None).unwrap();
    l.add_modal_filter(1, FilterKind::BusGate, None).unwrap();
    l.add_modal_filter(2, FilterKind::WalkCycleOnly, Some(500)).unwrap();
    let (c, n) = l.cells(Mode::General).unwrap();
    // A, B and D stay one cell; C is reached only over the part of C-D on
    // its own side of that road's filter.
    assert_eq!(n, 2);
    assert_eq!(c, vec![Some(0), Some(0), Some(1), Some(0), Some(0)]);
}

#[test]
fn cycling_cells_ignore_permeable_filters() {
    let mut l = with_neighbourhood();
    l.add_modal_filter(1, FilterKind::BusGate, None).unwrap();
    l.add_modal_filter(2, FilterKind::WalkCycleOnly, None).unwrap();
    let (c, n) = l.cells(Mode::Cycling).unwrap();
    assert_eq!(n, 1);
    assert!(c.iter().all(|x| *x == Some(0)));
}

#[test]
fn no_filters_gives_one_cell() {
    let l = with_neighbourhood();
    let (c, n) = l.cells(Mode::General).unwrap();
    assert_eq!(n, 1);
    assert_eq!(c, vec![Some(0); 5]);
}

#[test]
fn removing_all_filters_restores_one_cell() {
    let mut l = with_neighbourhood();
    for r in 0..5 {
        l.add_modal_filter(r, FilterKind::NoEntry, None).unwrap();
    }
    assert_eq!(l.cells(Mode::General).unwrap(), (vec![Some(0), Some(1), Some(2), Some(0), Some(0)], 3));
    for r in 0..5 {
        l.delete_modal_filter(r);
    }
    assert_eq!(l.cells(Mode::General).unwrap().1, 1);
}

#[test]
fn line_across_three_roads_is_one_batch() {
    let mut l = with_neighbourhood();
    let before = cells(&l);
    let line = vec![pt(500, -100), pt(500, 1100)];
    let n = l.add_many_modal_filters(&line, FilterKind::NoEntry).unwrap();
    assert_eq!(n, 3);
    let placed: Vec<usize> = (0..5).filter(|r| l.map.filters[*r].is_some()).collect();
    assert_eq!(placed, vec![0, 2, 4]);
    assert_eq!(l.map.commands.len(), 1);
    assert_ne!(cells(&l), before);
    l.undo();
    assert!(l.map.filters.iter().all(|f| f.is_none()));
    assert_eq!(cells(&l), before);
    l.redo();
    let placed: Vec<usize> = (0..5).filter(|r| l.map.filters[*r].is_some()).collect();
    assert_eq!(placed, vec![0, 2, 4]);
}

#[test]
fn compare_route_detours_round_closure() {
    let mut l = with_neighbourhood();
    l.add_modal_filter(0, FilterKind::NoEntry, None).unwrap();
    let cmp = l.compare_route(pt(10, 10), pt(990, -20)).unwrap();
    let before = cmp.before.unwrap();
    let after = cmp.after.unwrap();
    assert_eq!(before.roads, vec![0]);
    assert_eq!(before.length, 1000);
    assert_eq!(after.roads, vec![4, 1]);
    assert_eq!(after.nodes, vec![0, 2, 1]);
    assert_eq!(after.length, 2414);
    assert!(after.length > before.length);
}

#[test]
fn no_route_when_filters_cut_the_network() {
    let mut l = with_neighbourhood();
    l.add_modal_filter(0, FilterKind::NoEntry, None).unwrap();
    l.add_modal_filter(1, FilterKind::NoEntry, None).unwrap();
    assert_eq!(shortest_path(&l.map, 0, 1, true).err(), Some(LtnError::NoRoute));
    let r = shortest_path(&l.map, 0, 1, false).unwrap();
    assert_eq!(r.length, 1000);
}

#[test]
fn ignoring_filters_is_never_longer() {
    let mut l = with_neighbourhood();
    l.add_modal_filter(4, FilterKind::SchoolStreet, None).unwrap();
    let with = shortest_path(&l.map, 0, 2, true).unwrap();
    let without = shortest_path(&l.map, 0, 2, false).unwrap();
    assert_eq!(with.length, 2000);
    assert_eq!(without.length, 1414);
    assert!(without.length <= with.length);
}

#[test]
fn route_to_unknown_intersection_is_invalid() {
    let l = square();
    assert_eq!(shortest_path(&l.map, 0, 9, false).err(), Some(LtnError::InvalidIntersection(9)));
    assert_eq!(shortest_path(&l.map, 0, 0, false).unwrap().length, 0);
}

#[test]
fn undo_redo_replay_matches_direct_edits() {
    let mut l = with_neighbourhood();
    l.add_modal_filter(0, FilterKind::NoEntry, None).unwrap();
    l.add_modal_filter(1, FilterKind::BusGate, Some(250)).unwrap();
    l.delete_modal_filter(0);
    let live = l.map.filters.clone();
    l.undo();
    l.undo();
    l.undo();
    assert!(l.map.filters.iter().all(|f| f.is_none()));
    l.undo();
    assert_eq!(l.map.cursor, 0);
    l.redo();
    l.redo();
    l.redo();
    l.redo();
    assert_eq!(l.map.filters, live);
    assert_eq!(l.map.filters[1], Some(ModalFilter { kind: FilterKind::BusGate, position: Some(250) }));
}

#[test]
fn new_edit_drops_undone_tail() {
    let mut l = with_neighbourhood();
    l.add_modal_filter(0, FilterKind::NoEntry, None).unwrap();
    l.add_modal_filter(1, FilterKind::NoEntry, None).unwrap();
    l.undo();
    l.add_modal_filter(2, FilterKind::NoEntry, None).unwrap();
    assert_eq!(l.map.commands.len(), 2);
    l.redo();
    assert!(l.map.filters[1].is_none());
    assert!(l.map.filters[2].is_some());
}

#[test]
fn replacing_a_filter_is_its_own_step() {
    let mut l = with_neighbourhood();
    l.add_modal_filter(3, FilterKind::NoEntry, None).unwrap();
    l.add_modal_filter(3, FilterKind::BusGate, None).unwrap();
    assert_eq!(l.map.filters[3].unwrap().kind, FilterKind::BusGate);
    l.undo();
    assert_eq!(l.map.filters[3].unwrap().kind, FilterKind::NoEntry);
}

#[test]
fn delete_without_filter_is_a_no_op() {
    let mut l = with_neighbourhood();
    l.delete_modal_filter(2);
    l.delete_modal_filter(99);
    assert_eq!(l.map.commands.len(), 0);
}

#[test]
fn filter_errors() {
    let mut l = square();
    assert_eq!(l.add_modal_filter(0, FilterKind::NoEntry, None), Err(LtnError::NoNeighbourhood));
    l.set_neighbourhood(vec![pt(-10, -10), pt(1010, -10), pt(1010, 500), pt(-10, 500)]).unwrap();
    assert_eq!(l.add_modal_filter(7, FilterKind::NoEntry, None), Err(LtnError::InvalidRoad(7)));
    // Only A and B lie inside: A-B is interior, B-C is a boundary road.
    assert_eq!(l.add_modal_filter(1, FilterKind::NoEntry, None), Err(LtnError::NotInterior(1)));
    assert_eq!(l.add_modal_filter(0, FilterKind::NoEntry, None), Ok(()));
    let (c, n) = l.cells(Mode::General).unwrap();
    assert_eq!(c, vec![Some(0), None, None, None, None]);
    assert_eq!(n, 1);
    let nb = l.neighbourhood.as_ref().unwrap();
    assert_eq!(nb.interior_intersections, vec![true, true, false, false]);
    assert_eq!(nb.interior_roads, vec![true, false, false, false, false]);
    assert_eq!(nb.boundary_roads, vec![false, true, false, true, true]);
}

#[test]
fn degenerate_boundaries_are_refused() {
    let mut l = square();
    assert_eq!(l.set_neighbourhood(vec![pt(0, 0), pt(10, 10)]), Err(LtnError::InvalidBoundary));
    assert_eq!(
        l.set_neighbourhood(vec![pt(0, 0), pt(10, 10), pt(20, 20)]),
        Err(LtnError::InvalidBoundary)
    );
    // A bow tie crosses itself.
    assert_eq!(
        l.set_neighbourhood(vec![pt(0, 0), pt(100, 100), pt(100, 0), pt(0, 100)]),
        Err(LtnError::InvalidBoundary)
    );
    assert!(l.neighbourhood.is_none());
}

#[test]
fn bad_topology_is_refused() {
    let a = pt(0, 0);
    let b = pt(5, 0);
    let ints = vec![Intersection { point: a }, Intersection { point: b }];
    assert!(LTN::new(vec![road(0, 2, a, b, 5, "x")], ints.clone()).is_err());
    assert!(LTN::new(vec![road(0, 1, a, pt(6, 0), 5, "x")], ints.clone()).is_err());
    assert!(LTN::new(vec![road(0, 1, a, b, 5, "x")], ints).is_ok());
}

#[test]
fn savefile_round_trip() {
    let mut l = with_neighbourhood();
    l.add_modal_filter(1, FilterKind::SchoolStreet, Some(300)).unwrap();
    l.add_modal_filter(4, FilterKind::NoEntry, None).unwrap();
    let saved = l.to_savefile();
    assert_eq!(saved.len(), 3);
    match &saved[0] {
        SaveRecord::Filter { road, kind, position, .. } => {
            assert_eq!(*road, 1);
            assert_eq!(kind, "school_street");
            assert_eq!(*position, Some(300));
        }
        _ => panic!("expected a filter record"),
    }
    let live = l.map.filters.clone();
    let mut fresh = square();
    assert_eq!(fresh.load_savefile(&saved), Ok(true));
    assert_eq!(fresh.map.filters, live);
    assert_eq!(fresh.neighbourhood.as_ref().unwrap().boundary, big_boundary());
    fresh.undo();
    assert!(fresh.map.filters.iter().all(|f| f.is_none()));
}

#[test]
fn savefile_without_boundary() {
    let mut l = square();
    l.set_neighbourhood(big_boundary()).unwrap();
    l.add_modal_filter(2, FilterKind::BusGate, None).unwrap();
    l.unset_neighbourhood();
    let saved = l.to_savefile();
    assert_eq!(saved.len(), 1);
    let mut fresh = with_neighbourhood();
    assert_eq!(fresh.load_savefile(&saved), Ok(false));
    assert!(fresh.neighbourhood.is_none());
    assert_eq!(fresh.map.filters[2].unwrap().kind, FilterKind::BusGate);
}

#[test]
fn malformed_savefiles_leave_state_untouched() {
    let mut l = with_neighbourhood();
    l.add_modal_filter(0, FilterKind::NoEntry, None).unwrap();
    let wrong_geometry = vec![SaveRecord::Filter {
        road: 1,
        geometry: vec![pt(0, 0), pt(1, 1)],
        kind: "no_entry".to_string(),
        position: None,
    }];
    assert_eq!(l.load_savefile(&wrong_geometry), Err(LtnError::MalformedSavefile));
    let unknown_kind = vec![SaveRecord::Filter {
        road: 1,
        geometry: vec![pt(1000, 0), pt(1000, 1000)],
        kind: "speed_bump".to_string(),
        position: None,
    }];
    assert_eq!(l.load_savefile(&unknown_kind), Err(LtnError::MalformedSavefile));
    let unknown_road = vec![SaveRecord::Filter {
        road: 12,
        geometry: vec![pt(1000, 0), pt(1000, 1000)],
        kind: "no_entry".to_string(),
        position: None,
    }];
    assert_eq!(l.load_savefile(&unknown_road), Err(LtnError::MalformedSavefile));
    let bad_ring = vec![SaveRecord::Boundary { ring: vec![pt(0, 0), pt(1, 1)] }];
    assert_eq!(l.load_savefile(&bad_ring), Err(LtnError::MalformedSavefile));
    let two_rings = vec![
        SaveRecord::Boundary { ring: big_boundary() },
        SaveRecord::Boundary { ring: big_boundary() },
    ];
    assert_eq!(l.load_savefile(&two_rings), Err(LtnError::MalformedSavefile));
    assert!(l.map.filters[0].is_some());
    assert_eq!(l.map.commands.len(), 1);
    assert!(l.neighbourhood.is_some());
}

#[test]
fn kind_names_round_trip() {
    for k in [FilterKind::WalkCycleOnly, FilterKind::NoEntry, FilterKind::BusGate, FilterKind::SchoolStreet] {
        assert_eq!(FilterKind::from_name(&k.to_name()), Some(k));
    }
    assert_eq!(FilterKind::NoEntry.to_name(), "no_entry");
    assert_eq!(FilterKind::from_name(&"bus".to_string()), None);
    assert!(FilterKind::NoEntry.blocks(Mode::Cycling));
    assert!(!FilterKind::BusGate.blocks(Mode::Cycling));
    assert!(FilterKind::WalkCycleOnly.blocks(Mode::General));
}

#[test]
fn compare_route_needs_intersections() {
    let l = LTN::new(vec![], vec![]).unwrap();
    assert_eq!(l.compare_route(pt(0, 0), pt(1, 1)).err(), Some(LtnError::InvalidPoint));
}

#[test]
fn replayed_history_matches_a_shadow_copy() {
    let mut l = with_neighbourhood();
    let mut shadow: Vec<Option<ModalFilter>> = vec![None; 5];
    let mut history: Vec<Vec<Option<ModalFilter>>> = vec![shadow.clone()];
    let kinds = [FilterKind::NoEntry, FilterKind::BusGate, FilterKind::SchoolStreet, FilterKind::WalkCycleOnly];
    for step in 0..12usize {
        let road = (step * 7) % 5;
        if step % 3 == 2 {
            if shadow[road].is_some() {
                shadow[road] = None;
                l.delete_modal_filter(road);
                history.push(shadow.clone());
            } else {
                l.delete_modal_filter(road);
            }
        } else {
            let f = ModalFilter { kind: kinds[step % 4], position: Some((step * 100) as u16) };
            shadow[road] = Some(f);
            l.add_modal_filter(road, f.kind, f.position).unwrap();
            history.push(shadow.clone());
        }
        assert_eq!(l.map.filters, shadow);
    }
    assert_eq!(l.map.commands.len(), history.len() - 1);
    for back in (0..history.len() - 1).rev() {
        l.undo();
        assert_eq!(l.map.filters, history[back]);
    }
    for fwd in 1..history.len() {
        l.redo();
        assert_eq!(l.map.filters, history[fwd]);
    }
}

#[test]
fn disconnected_points_give_two_absent_routes() {
    let a = pt(0, 0);
    let b = pt(100, 0);
    let c = pt(5000, 0);
    let d = pt(5100, 0);
    let ints = vec![Intersection { point: a }, Intersection { point: b }, Intersection { point: c }, Intersection { point: d }];
    let roads = vec![road(0, 1, a, b, 100, "w"), road(2, 3, c, d, 100, "e")];
    let l = LTN::new(roads, ints).unwrap();
    let cmp = l.compare_route(pt(0, 1), pt(5100, 1)).unwrap();
    assert_eq!(cmp.before.err(), Some(LtnError::NoRoute));
    assert_eq!(cmp.after.err(), Some(LtnError::NoRoute));
}

#[test]
fn lengths_beyond_64_bits_find_no_route() {
    let a = pt(0, 0);
    let b = pt(10, 0);
    let c = pt(20, 0);
    let ints = vec![Intersection { point: a }, Intersection { point: b }, Intersection { point: c }];
    let half = u64::MAX / 2 + 1;
    let roads = vec![road(0, 1, a, b, half, "x"), road(1, 2, b, c, half, "y")];
    let l = LTN::new(roads, ints).unwrap();
    assert_eq!(shortest_path(&l.map, 0, 1, false).unwrap().length, half);
    assert_eq!(shortest_path(&l.map, 0, 2, false).err(), Some(LtnError::NoRoute));
}

#[test]
fn routes_pass_each_intersection_once() {
    let mut l = with_neighbourhood();
    l.add_modal_filter(0, FilterKind::NoEntry, None).unwrap();
    l.add_modal_filter(4, FilterKind::NoEntry, None).unwrap();
    let r = shortest_path(&l.map, 0, 1, true).unwrap();
    assert_eq!(r.nodes, vec![0, 3, 2, 1]);
    assert_eq!(r.roads, vec![3, 2, 1]);
    assert_eq!(r.length, 3000);
    let mut seen = r.nodes.clone();
    seen.sort();
    seen.dedup();
    assert_eq!(seen.len(), r.nodes.len());
}

#[test]
fn one_batch_then_one_undo_restores_the_log_position() {
    let mut l = with_neighbourhood();
    l.add_modal_filter(3, FilterKind::BusGate, None).unwrap();
    let before = l.map.filters.clone();
    let n = l.add_many_modal_filters(&vec![pt(500, -100), pt(500, 1100)], FilterKind::NoEntry).unwrap();
    assert_eq!(n, 3);
    assert_eq!(l.map.cursor, 2);
    l.undo();
    assert_eq!(l.map.cursor, 1);
    assert_eq!(l.map.filters, before);
}
