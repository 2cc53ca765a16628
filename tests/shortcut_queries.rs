use ltn::ltn::LTN;
use ltn::map_model::{Intersection, Road};
use ltn::route::Route;
use ltn::shortcuts::subset;
use ltn::types::{FilterKind, LtnError, Pt};

fn pt(x: i32, y: i32) -> Pt {
    Pt { x, y }
}

fn link(src: usize, dst: usize, pts: &[Pt], length: u64) -> Road {
    Road { src, dst, geometry: vec![pts[src], pts[dst]], length, tags: vec![] }
}

/// A square P Q R S inside the boundary, with roads leaving it at P and R.
fn ladder() -> LTN {
    let pts = [pt(0, 0), pt(1000, 0), pt(1000, 1000), pt(0, 1000), pt(-2000, 0), pt(3000, 1000)];
    let ints = pts.iter().map(|p| Intersection { point: *p }).collect();
    let roads = vec![
        link(0, 1, &pts, 900),
        link(1, 2, &pts, 1000),
        link(2, 3, &pts, 1000),
        link(3, 0, &pts, 1000),
        link(4, 0, &pts, 2000),
        link(2, 5, &pts, 2000),
    ];
    let mut l = LTN::new(roads, ints).unwrap();
    l.set_neighbourhood(vec![pt(-500, -500), pt(1500, -500), pt(1500, 1500), pt(-500, 1500)]).unwrap();
    l
}

#[test]
fn shortcut_uses_the_shorter_side() {
    let l = ladder();
    let on_pq = l.get_shortcuts_crossing_road(0).unwrap();
    assert_eq!(on_pq.len(), 1);
    assert_eq!(on_pq[0].nodes, vec![0, 1, 2]);
    assert_eq!(on_pq[0].roads, vec![0, 1]);
    assert_eq!(on_pq[0].length, 1900);
    assert!(l.get_shortcuts_crossing_road(2).unwrap().is_empty());
    assert!(l.get_shortcuts_crossing_road(4).unwrap().is_empty());
}

#[test]
fn filter_moves_the_shortcut() {
    let mut l = ladder();
    l.add_modal_filter(0, FilterKind::NoEntry, None).unwrap();
    assert!(l.get_shortcuts_crossing_road(0).unwrap().is_empty());
    let on_rs = l.get_shortcuts_crossing_road(2).unwrap();
    assert_eq!(on_rs.len(), 1);
    assert_eq!(on_rs[0].roads, vec![3, 2]);
    assert_eq!(on_rs[0].length, 2000);
    l.add_modal_filter(3, FilterKind::BusGate, None).unwrap();
    assert!(l.get_shortcuts_crossing_road(2).unwrap().is_empty());
}

#[test]
fn entrances_are_interior_ends_of_boundary_roads() {
    let l = ladder();
    let nb = l.neighbourhood.as_ref().unwrap();
    assert_eq!(nb.entrances(&l.map), vec![true, false, true, false, false, false]);
}

#[test]
fn shortcuts_need_a_neighbourhood() {
    let mut l = ladder();
    l.unset_neighbourhood();
    assert_eq!(l.get_shortcuts_crossing_road(0).err(), Some(LtnError::NoNeighbourhood));
}

#[test]
fn subset_orders_by_length_then_position() {
    let r = |roads: Vec<usize>, length: u64| Route { nodes: vec![0; roads.len() + 1], roads, length };
    let all = vec![r(vec![1, 2], 50), r(vec![3], 10), r(vec![2], 50), r(vec![2, 7], 20), r(vec![9], 1)];
    assert_eq!(subset(&all, 2), vec![3, 0, 2]);
    assert_eq!(subset(&all, 9), vec![4]);
    assert!(subset(&all, 5).is_empty());
}
