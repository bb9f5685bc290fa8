use botpath::curve::{tube_indices, Curve};

#[test]
fn two_point_prism() {
    let mut c: Curve<u32> = Curve::new();
    c.set_sides(3);
    c.set_subdivisions(1);
    c.place_point(10);
    c.place_point(20);
    assert_eq!(c.ring_count(), Some(2));
    let idx = c.mesh_indices().unwrap();
    // one cap triangle at each end, two triangles per side between the rings
    assert_eq!(idx.len(), 3 + 18 + 3);
    assert_eq!(idx[0..3], [0, 1, 2]);
    assert_eq!(idx[21..24], [3, 4, 5]);
    assert_eq!(idx[3..9], [1, 0, 4, 0, 3, 4]);
    assert_eq!(idx[15..21], [0, 2, 3, 2, 5, 3]);
    assert!(idx.iter().all(|&i| i < 6));
}

#[test]
fn tube_index_layout() {
    let idx = tube_indices(3, 4);
    assert_eq!(idx.len(), 2 * 6 + 6 * 4 * 2);
    assert_eq!(idx[0..6], [0, 1, 2, 0, 2, 3]);
    // second strip starts at ring 1
    assert_eq!(idx[6 + 24..6 + 30], [5, 4, 9, 4, 8, 9]);
    assert_eq!(idx[idx.len() - 6..], [8, 9, 10, 8, 10, 11]);
}

#[test]
fn fewer_than_three_sides_have_no_caps() {
    let idx = tube_indices(2, 2);
    assert_eq!(idx, vec![1, 0, 3, 0, 2, 3, 0, 1, 2, 1, 3, 2]);
    assert_eq!(tube_indices(2, 0).len(), 0);
    assert_eq!(tube_indices(0, 5).len(), 0);
}

#[test]
fn single_ring_has_two_caps() {
    assert_eq!(tube_indices(1, 3), vec![0, 1, 2, 0, 1, 2]);
}

#[test]
fn fewer_than_two_points_make_no_mesh() {
    let mut c: Curve<u32> = Curve::new();
    assert_eq!(c.ring_count(), Some(0));
    assert_eq!(c.mesh_indices(), Some(vec![]));
    c.place_point(1);
    assert_eq!(c.ring_count(), Some(0));
    assert_eq!(c.mesh_indices(), Some(vec![]));
}

#[test]
fn ring_count_follows_subdivisions() {
    let c = Curve::restored(vec![1u32, 2, 3, 4], 5, 16, String::from("c"), false);
    assert_eq!(c.ring_count(), Some(3 * 16 + 1));
    assert_eq!(c.mesh_indices().unwrap().len(), 2 * 9 + 6 * 5 * 48);
}

#[test]
fn oversized_tube_is_refused() {
    let c = Curve::restored(vec![0u8, 1, 2], 3, u32::MAX, String::new(), false);
    assert_eq!(c.ring_count(), None);
    assert_eq!(c.mesh_indices(), None);
    let c = Curve::restored(vec![0u8, 1], 1 << 20, 1 << 12, String::new(), false);
    assert_eq!(c.ring_count(), None);
}

#[test]
fn new_curve_defaults() {
    let c: Curve<u8> = Curve::new();
    assert_eq!(c.sides(), 3);
    assert_eq!(c.subdivisions(), 16);
    assert_eq!(c.name(), "");
    assert!(!c.is_bundle());
    assert_eq!(c.selected_point(), 0);
    assert!(!c.needs_rebuild());
}

#[test]
fn dirty_flag_transitions() {
    let mut c: Curve<u8> = Curve::new();
    c.place_point(1);
    assert!(c.needs_rebuild());
    c.finish_rebuild();
    assert!(!c.needs_rebuild());
    c.select_previous();
    c.select_next();
    c.set_name(String::from("n"));
    c.set_bundle(true);
    assert!(!c.needs_rebuild());
    c.set_subdivisions(4);
    assert!(c.needs_rebuild());
    c.finish_rebuild();
    c.set_point(0, 9);
    assert!(c.needs_rebuild());
    c.finish_rebuild();
    c.request_rebuild();
    assert!(c.needs_rebuild());
}

#[test]
fn placing_appends_or_replaces_at_the_selection() {
    let mut c: Curve<u8> = Curve::new();
    assert_eq!(c.inherit_from(), None);
    c.place_point(1);
    c.place_point(2);
    c.place_point(3);
    assert_eq!(c.points(), &vec![1, 2, 3]);
    assert_eq!(c.selected_point(), 3);
    assert_eq!(c.inherit_from(), Some(2));
    c.select_previous();
    c.select_previous();
    assert_eq!(c.selected_point(), 1);
    assert_eq!(c.inherit_from(), Some(1));
    c.place_point(7);
    assert_eq!(c.points(), &vec![1, 7, 3]);
    assert_eq!(c.selected_point(), 2);
    c.select_next();
    c.select_next();
    c.select_next();
    assert_eq!(c.selected_point(), 3);
    c.select_previous();
    c.select_previous();
    c.select_previous();
    c.select_previous();
    assert_eq!(c.selected_point(), 0);
}

#[test]
fn add_before_selected_inserts() {
    let mut c = Curve::restored(vec![1u8, 2, 3], 3, 1, String::new(), false);
    c.finish_rebuild();
    c.select_previous();
    c.select_previous();
    assert_eq!(c.selected_point(), 1);
    c.add_before_selected(9);
    assert_eq!(c.points(), &vec![1, 9, 2, 3]);
    assert_eq!(c.selected_point(), 1);
    assert!(c.needs_rebuild());
}

#[test]
fn restored_curve_starts_dirty() {
    let c = Curve::restored(vec![5u8, 6], 7, 8, String::from("path"), true);
    assert!(c.needs_rebuild());
    assert_eq!(c.points(), &vec![5, 6]);
    assert_eq!(c.sides(), 7);
    assert_eq!(c.subdivisions(), 8);
    assert_eq!(c.name(), "path");
    assert!(c.is_bundle());
    assert_eq!(c.selected_point(), 2);
}

#[test]
fn rebuild_runs_only_when_due() {
    let mut c: Curve<u8> = Curve::new();
    assert_eq!(c.rebuild(), None);
    c.set_subdivisions(1);
    c.place_point(1);
    c.place_point(2);
    let idx = c.rebuild().unwrap();
    assert_eq!(idx.len(), 24);
    assert!(!c.needs_rebuild());
    assert_eq!(c.rebuild(), None);
}

#[test]
fn oversized_rebuild_stays_due() {
    let mut c = Curve::restored(vec![0u8, 1, 2], 3, u32::MAX, String::new(), false);
    assert_eq!(c.rebuild(), None);
    assert!(c.needs_rebuild());
    c.set_subdivisions(2);
    assert_eq!(c.rebuild().map(|v| v.len()), Some(3 + 6 * 3 * 4 + 3));
    assert!(!c.needs_rebuild());
}
