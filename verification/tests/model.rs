use synthetic::geometry::Pt2D;
use synthetic::lanes::LaneType;
use synthetic::model::{
    IntersectionType, Model, ModelError, BACKWARDS, BUILDING_LENGTH, FORWARDS,
    INTERSECTION_RADIUS, LANE_THICKNESS,
};

fn pt(x: i64, y: i64) -> Pt2D {
    Pt2D::new(x, y).unwrap()
}

fn xy(p: Pt2D) -> (i64, i64) {
    (p.x(), p.y())
}

/// Intersections 0, 1, 2 in a row, 100 m apart, and roads 0-1 and 1-2.
fn street() -> Model {
    let mut m = Model::new();
    assert_eq!(m.create_i(pt(0, 0)), 0);
    assert_eq!(m.create_i(pt(100_000, 0)), 1);
    assert_eq!(m.create_i(pt(200_000, 0)), 2);
    assert_eq!(m.create_road(0, 1), Ok((0, 1)));
    assert_eq!(m.create_road(1, 2), Ok((1, 2)));
    m
}

/// Whether every road of `m` ends at two of its intersections and is filed
/// under the pair of their ids.
fn roads_end_at_intersections(m: &Model) -> bool {
    m.road_ids().iter().all(|id| {
        let (i1, i2) = m.get_r_ends(*id).unwrap();
        m.get_i(i1).is_some() && m.get_i(i2).is_some() && *id == (i1.min(i2), i1.max(i2))
    })
}

#[test]
fn new_model_is_empty() {
    let m = Model::new();
    assert!(m.name.is_none());
    assert!(m.intersection_ids().is_empty());
    assert!(m.road_ids().is_empty());
    assert!(m.building_ids().is_empty());
    assert_eq!(m.mouseover_intersection(pt(0, 0)), None);
    assert_eq!(m.mouseover_road(pt(0, 0)), None);
    assert_eq!(m.mouseover_building(pt(0, 0)), None);
}

#[test]
fn units_are_millimetres() {
    assert_eq!(INTERSECTION_RADIUS, 10_000);
    assert_eq!(BUILDING_LENGTH, 30_000);
    assert_eq!(LANE_THICKNESS, 2_500);
}

#[test]
fn intersections_are_numbered_by_count() {
    let mut m = Model::new();
    assert_eq!(m.create_i(pt(5, 6)), 0);
    assert_eq!(m.create_i(pt(7, 8)), 1);
    assert_eq!(m.create_i(pt(9, 10)), 2);
    assert_eq!(m.intersection_ids(), vec![0, 1, 2]);
    assert_eq!(xy(m.get_i_center(1).unwrap()), (7, 8));
    assert_eq!(m.get_i_type(1), Ok(IntersectionType::StopSign));
    assert_eq!(m.get_i_label(1), Ok(None));
}

#[test]
fn intersection_id_can_come_again_after_a_removal() {
    let mut m = Model::new();
    m.create_i(pt(0, 0));
    m.create_i(pt(1, 1));
    m.create_i(pt(2, 2));
    assert_eq!(m.remove_i(1), Ok(()));
    assert_eq!(m.intersection_ids(), vec![0, 2]);
    m.set_i_label(2, "old".to_string()).unwrap();
    // two are left, so the next id is 2 again: the new intersection takes its place
    assert_eq!(m.create_i(pt(9, 9)), 2);
    assert_eq!(m.intersection_ids(), vec![0, 2]);
    assert_eq!(xy(m.get_i_center(2).unwrap()), (9, 9));
    assert_eq!(m.get_i_label(2), Ok(None));
    assert_eq!(m.create_i(pt(3, 3)), 2);
    assert_eq!(m.remove_i(0), Ok(()));
    assert_eq!(m.create_i(pt(4, 4)), 1);
    assert_eq!(m.intersection_ids(), vec![1, 2]);
}

#[test]
fn intersection_moves_and_keeps_the_rest() {
    let mut m = street();
    m.set_i_label(1, "middle".to_string()).unwrap();
    m.toggle_i_type(1).unwrap();
    assert_eq!(m.move_i(1, pt(100_000, 50_000)), Ok(()));
    assert_eq!(xy(m.get_i_center(1).unwrap()), (100_000, 50_000));
    assert_eq!(m.get_i_label(1), Ok(Some("middle".to_string())));
    assert_eq!(m.get_i_type(1), Ok(IntersectionType::TrafficSignal));
    assert_eq!(xy(m.get_i_center(0).unwrap()), (0, 0));
}

#[test]
fn intersection_label_is_set_and_replaced() {
    let mut m = street();
    assert_eq!(m.get_i_label(0), Ok(None));
    assert_eq!(m.set_i_label(0, "first".to_string()), Ok(()));
    assert_eq!(m.get_i_label(0), Ok(Some("first".to_string())));
    assert_eq!(m.set_i_label(0, "".to_string()), Ok(()));
    assert_eq!(m.get_i_label(0), Ok(Some("".to_string())));
    assert_eq!(m.get_i_label(1), Ok(None));
}

#[test]
fn operations_on_a_missing_intersection_are_refused() {
    let mut m = street();
    assert_eq!(m.move_i(7, pt(1, 1)), Err(ModelError::EntityNotFound));
    assert_eq!(m.set_i_label(7, "x".to_string()), Err(ModelError::EntityNotFound));
    assert_eq!(m.toggle_i_type(7), Err(ModelError::EntityNotFound));
    assert_eq!(m.remove_i(7), Err(ModelError::EntityNotFound));
    assert_eq!(m.get_i_label(7), Err(ModelError::EntityNotFound));
    assert_eq!(m.get_i_center(7).err(), Some(ModelError::EntityNotFound));
    assert_eq!(m.get_i_type(7), Err(ModelError::EntityNotFound));
    assert!(m.get_i(7).is_none());
    assert_eq!(m.intersection_ids(), vec![0, 1, 2]);
}

#[test]
fn toggle_cycles_through_border_at_the_end_of_one_road() {
    let mut m = street();
    // intersection 0 ends one road
    assert_eq!(m.get_i_type(0), Ok(IntersectionType::StopSign));
    m.toggle_i_type(0).unwrap();
    assert_eq!(m.get_i_type(0), Ok(IntersectionType::TrafficSignal));
    m.toggle_i_type(0).unwrap();
    assert_eq!(m.get_i_type(0), Ok(IntersectionType::Border));
    m.toggle_i_type(0).unwrap();
    assert_eq!(m.get_i_type(0), Ok(IntersectionType::StopSign));
}

#[test]
fn toggle_skips_border_elsewhere() {
    let mut m = street();
    // intersection 1 ends two roads
    m.toggle_i_type(1).unwrap();
    assert_eq!(m.get_i_type(1), Ok(IntersectionType::TrafficSignal));
    m.toggle_i_type(1).unwrap();
    assert_eq!(m.get_i_type(1), Ok(IntersectionType::StopSign));
    // an intersection without roads
    let lone = m.create_i(pt(0, 500_000));
    m.toggle_i_type(lone).unwrap();
    m.toggle_i_type(lone).unwrap();
    assert_eq!(m.get_i_type(lone), Ok(IntersectionType::StopSign));
    // three roads
    m.create_road(1, lone).unwrap();
    m.toggle_i_type(1).unwrap();
    m.toggle_i_type(1).unwrap();
    assert_eq!(m.get_i_type(1), Ok(IntersectionType::StopSign));
    // now `lone` ends one road
    m.toggle_i_type(lone).unwrap();
    m.toggle_i_type(lone).unwrap();
    assert_eq!(m.get_i_type(lone), Ok(IntersectionType::Border));
}

#[test]
fn toggle_counts_a_road_to_itself_once() {
    let mut m = Model::new();
    m.create_i(pt(0, 0));
    assert_eq!(m.create_road(0, 0), Ok((0, 0)));
    m.toggle_i_type(0).unwrap();
    m.toggle_i_type(0).unwrap();
    assert_eq!(m.get_i_type(0), Ok(IntersectionType::Border));
}

#[test]
fn removing_an_intersection_in_use_is_refused() {
    let mut m = street();
    assert_eq!(m.remove_i(1), Err(ModelError::ReferentialIntegrityViolation));
    assert_eq!(m.remove_i(0), Err(ModelError::ReferentialIntegrityViolation));
    // both the intersection and the road are still there
    assert_eq!(m.intersection_ids(), vec![0, 1, 2]);
    assert_eq!(m.road_ids(), vec![(0, 1), (1, 2)]);
    assert_eq!(xy(m.get_i_center(1).unwrap()), (100_000, 0));
    assert_eq!(m.get_r_ends((0, 1)), Ok((0, 1)));
    assert!(roads_end_at_intersections(&m));
}

#[test]
fn removing_an_intersection_without_roads_succeeds() {
    let mut m = street();
    m.remove_road((0, 1)).unwrap();
    assert_eq!(m.remove_i(0), Ok(()));
    assert_eq!(m.intersection_ids(), vec![1, 2]);
    assert_eq!(m.remove_i(1), Err(ModelError::ReferentialIntegrityViolation));
    m.remove_road((1, 2)).unwrap();
    assert_eq!(m.remove_i(1), Ok(()));
    assert_eq!(m.remove_i(2), Ok(()));
    assert!(m.intersection_ids().is_empty());
}

#[test]
fn roads_keep_ending_at_intersections() {
    let mut m = Model::new();
    assert!(roads_end_at_intersections(&m));
    for k in 0..5 {
        m.create_i(pt(k * 50_000, 0));
        assert!(roads_end_at_intersections(&m));
    }
    for (a, b) in [(0, 1), (3, 1), (4, 4), (2, 0), (1, 0), (9, 1), (1, 9)] {
        let _ = m.create_road(a, b);
        assert!(roads_end_at_intersections(&m));
    }
    assert_eq!(m.road_ids(), vec![(0, 1), (0, 2), (1, 3), (4, 4)]);
    for id in 0..6 {
        let _ = m.remove_i(id);
        assert!(roads_end_at_intersections(&m));
        let _ = m.toggle_i_type(id);
        let _ = m.move_i(id, pt(1, 1));
        assert!(roads_end_at_intersections(&m));
    }
    assert_eq!(m.intersection_ids(), vec![0, 1, 2, 3, 4]);
    m.remove_road((4, 4)).unwrap();
    m.remove_i(4).unwrap();
    // the next id is 4 again
    assert_eq!(m.create_i(pt(7, 7)), 4);
    m.remove_road((1, 3)).unwrap();
    m.remove_i(3).unwrap();
    // four are left, so the new intersection replaces number 4
    assert_eq!(m.create_i(pt(8, 8)), 4);
    assert!(roads_end_at_intersections(&m));
    let _ = m.edit_lanes((0, 1), "d/d".to_string());
    let _ = m.swap_lanes((0, 2));
    assert!(roads_end_at_intersections(&m));
}

#[test]
fn road_has_default_lanes_and_no_labels() {
    let m = street();
    assert_eq!(m.get_lanes((0, 1)), Ok("dps/dps".to_string()));
    assert_eq!(m.get_r_label(((0, 1), FORWARDS)), Ok(None));
    assert_eq!(m.get_r_label(((0, 1), BACKWARDS)), Ok(None));
    assert_eq!(m.get_r_ends((1, 2)), Ok((1, 2)));
}

#[test]
fn road_is_the_same_from_either_end() {
    let mut ab = Model::new();
    ab.create_i(pt(0, 0));
    ab.create_i(pt(100_000, 0));
    let mut ba = Model::new();
    ba.create_i(pt(0, 0));
    ba.create_i(pt(100_000, 0));
    let id_ab = ab.create_road(0, 1).unwrap();
    let id_ba = ba.create_road(1, 0).unwrap();
    assert_eq!(id_ab, (0, 1));
    assert_eq!(id_ab, id_ba);
    assert_eq!(ab.get_lanes(id_ab), ba.get_lanes(id_ba));
    assert_eq!(ab.get_r_label((id_ab, FORWARDS)), ba.get_r_label((id_ba, FORWARDS)));
    assert_eq!(ab.get_r_label((id_ab, BACKWARDS)), ba.get_r_label((id_ba, BACKWARDS)));
    assert_eq!(ab.road_ids(), ba.road_ids());
    // and the other order finds the road there
    assert_eq!(ab.create_road(1, 0), Err(ModelError::AlreadyExists));
    assert_eq!(ba.create_road(0, 1), Err(ModelError::AlreadyExists));
    assert_eq!(ab.road_ids(), vec![(0, 1)]);
    // the road runs as it was drawn
    assert_eq!(ab.get_r_ends((0, 1)), Ok((0, 1)));
    assert_eq!(ba.get_r_ends((0, 1)), Ok((1, 0)));
}

#[test]
fn road_that_exists_is_not_made_again() {
    let mut m = street();
    m.edit_lanes((0, 1), "d/d".to_string()).unwrap();
    m.set_r_label(((0, 1), FORWARDS), "main".to_string()).unwrap();
    assert_eq!(m.create_road(0, 1), Err(ModelError::AlreadyExists));
    assert_eq!(m.create_road(1, 0), Err(ModelError::AlreadyExists));
    assert_eq!(m.get_lanes((0, 1)), Ok("d/d".to_string()));
    assert_eq!(m.get_r_label(((0, 1), FORWARDS)), Ok(Some("main".to_string())));
    assert_eq!(m.road_ids(), vec![(0, 1), (1, 2)]);
}

#[test]
fn road_needs_both_intersections() {
    let mut m = street();
    assert_eq!(m.create_road(0, 5), Err(ModelError::EntityNotFound));
    assert_eq!(m.create_road(5, 0), Err(ModelError::EntityNotFound));
    assert_eq!(m.create_road(5, 6), Err(ModelError::EntityNotFound));
    assert_eq!(m.road_ids(), vec![(0, 1), (1, 2)]);
    assert_eq!(m.create_road(2, 0), Ok((0, 2)));
    assert_eq!(m.road_ids(), vec![(0, 1), (0, 2), (1, 2)]);
}

#[test]
fn lanes_are_edited_by_their_notation() {
    let mut m = street();
    assert_eq!(m.edit_lanes((0, 1), "dub/s".to_string()), Ok(()));
    assert_eq!(m.get_lanes((0, 1)), Ok("dub/s".to_string()));
    let road = m.get_r((0, 1)).unwrap();
    assert_eq!(road.lanes.fwd, vec![LaneType::Driving, LaneType::Bus, LaneType::Biking]);
    assert_eq!(road.lanes.back, vec![LaneType::Sidewalk]);
    assert_eq!(m.get_lanes((1, 2)), Ok("dps/dps".to_string()));
    assert_eq!(m.edit_lanes((0, 1), "d".to_string()), Ok(()));
    assert_eq!(m.get_lanes((0, 1)), Ok("d/".to_string()));
}

#[test]
fn bad_lane_text_leaves_the_road_as_it_was() {
    let mut m = street();
    m.edit_lanes((0, 1), "dd/ss".to_string()).unwrap();
    assert_eq!(m.edit_lanes((0, 1), "dx/s".to_string()), Err(ModelError::LaneSpecParseError));
    assert_eq!(m.edit_lanes((0, 1), "d/p/s".to_string()), Err(ModelError::LaneSpecParseError));
    assert_eq!(m.get_lanes((0, 1)), Ok("dd/ss".to_string()));
    // the text is looked at first
    assert_eq!(m.edit_lanes((5, 6), "??".to_string()), Err(ModelError::LaneSpecParseError));
    assert_eq!(m.edit_lanes((5, 6), "d/d".to_string()), Err(ModelError::EntityNotFound));
    assert_eq!(m.edit_lanes((1, 0), "d/d".to_string()), Err(ModelError::EntityNotFound));
}

#[test]
fn lanes_swap_directions() {
    let mut m = street();
    m.edit_lanes((0, 1), "dub/s".to_string()).unwrap();
    m.set_r_label(((0, 1), FORWARDS), "out".to_string()).unwrap();
    assert_eq!(m.swap_lanes((0, 1)), Ok(()));
    assert_eq!(m.get_lanes((0, 1)), Ok("s/dub".to_string()));
    // labels stay with their direction
    assert_eq!(m.get_r_label(((0, 1), FORWARDS)), Ok(Some("out".to_string())));
    assert_eq!(m.get_r_label(((0, 1), BACKWARDS)), Ok(None));
    assert_eq!(m.swap_lanes((0, 1)), Ok(()));
    assert_eq!(m.get_lanes((0, 1)), Ok("dub/s".to_string()));
    assert_eq!(m.swap_lanes((0, 2)), Err(ModelError::EntityNotFound));
}

#[test]
fn road_labels_belong_to_a_direction() {
    let mut m = street();
    assert_eq!(m.set_r_label(((0, 1), FORWARDS), "north".to_string()), Ok(()));
    assert_eq!(m.get_r_label(((0, 1), FORWARDS)), Ok(Some("north".to_string())));
    assert_eq!(m.get_r_label(((0, 1), BACKWARDS)), Ok(None));
    assert_eq!(m.set_r_label(((0, 1), BACKWARDS), "south".to_string()), Ok(()));
    assert_eq!(m.get_r_label(((0, 1), FORWARDS)), Ok(Some("north".to_string())));
    assert_eq!(m.get_r_label(((0, 1), BACKWARDS)), Ok(Some("south".to_string())));
    assert_eq!(m.get_r_label(((1, 2), FORWARDS)), Ok(None));
    assert_eq!(
        m.set_r_label(((0, 2), FORWARDS), "x".to_string()),
        Err(ModelError::EntityNotFound)
    );
    assert_eq!(m.get_r_label(((0, 2), BACKWARDS)), Err(ModelError::EntityNotFound));
}

#[test]
fn road_is_removed_if_present() {
    let mut m = street();
    assert_eq!(m.remove_road((0, 1)), Ok(()));
    assert_eq!(m.road_ids(), vec![(1, 2)]);
    assert_eq!(m.remove_road((0, 1)), Err(ModelError::EntityNotFound));
    assert_eq!(m.remove_road((2, 1)), Err(ModelError::EntityNotFound));
    assert_eq!(m.get_lanes((0, 1)), Err(ModelError::EntityNotFound));
    assert_eq!(m.get_r_ends((0, 1)), Err(ModelError::EntityNotFound));
    assert!(m.get_r((0, 1)).is_none());
    assert_eq!(m.create_road(1, 0), Ok((0, 1)));
    assert_eq!(m.get_r_ends((0, 1)), Ok((1, 0)));
}

#[test]
fn buildings_are_numbered_by_count() {
    let mut m = Model::new();
    assert_eq!(m.create_b(pt(1, 2)), 0);
    assert_eq!(m.create_b(pt(3, 4)), 1);
    assert_eq!(m.building_ids(), vec![0, 1]);
    assert_eq!(xy(m.get_b_center(1).unwrap()), (3, 4));
    assert_eq!(m.get_b_label(1), Ok(None));
    assert_eq!(m.remove_b(0), Ok(()));
    // one is left, so the next id is 1 again
    m.set_b_label(1, "old".to_string()).unwrap();
    assert_eq!(m.create_b(pt(5, 6)), 1);
    assert_eq!(m.building_ids(), vec![1]);
    assert_eq!(xy(m.get_b_center(1).unwrap()), (5, 6));
    assert_eq!(m.get_b_label(1), Ok(None));
}

#[test]
fn building_moves_and_is_labelled() {
    let mut m = Model::new();
    m.create_b(pt(0, 0));
    m.create_b(pt(10, 10));
    assert_eq!(m.set_b_label(0, "home".to_string()), Ok(()));
    assert_eq!(m.move_b(0, pt(-5, 5)), Ok(()));
    assert_eq!(xy(m.get_b_center(0).unwrap()), (-5, 5));
    assert_eq!(m.get_b_label(0), Ok(Some("home".to_string())));
    assert_eq!(xy(m.get_b_center(1).unwrap()), (10, 10));
    assert_eq!(m.get_b_label(1), Ok(None));
    assert_eq!(m.get_b(0).unwrap().label, Some("home".to_string()));
}

#[test]
fn operations_on_a_missing_building_are_refused() {
    let mut m = Model::new();
    m.create_b(pt(0, 0));
    assert_eq!(m.move_b(3, pt(1, 1)), Err(ModelError::EntityNotFound));
    assert_eq!(m.set_b_label(3, "x".to_string()), Err(ModelError::EntityNotFound));
    assert_eq!(m.get_b_label(3), Err(ModelError::EntityNotFound));
    assert_eq!(m.get_b_center(3).err(), Some(ModelError::EntityNotFound));
    assert_eq!(m.remove_b(3), Err(ModelError::EntityNotFound));
    assert!(m.get_b(3).is_none());
    assert_eq!(m.building_ids(), vec![0]);
}

#[test]
fn buildings_need_no_intersections() {
    let mut m = street();
    m.create_b(pt(0, 0));
    assert_eq!(m.remove_b(0), Ok(()));
    assert_eq!(m.intersection_ids(), vec![0, 1, 2]);
    assert_eq!(m.road_ids(), vec![(0, 1), (1, 2)]);
}

#[test]
fn point_hits_the_first_intersection_around_it() {
    let mut m = Model::new();
    m.create_i(pt(0, 0));
    m.create_i(pt(15_000, 0));
    m.create_i(pt(100_000, 0));
    assert_eq!(m.mouseover_intersection(pt(0, 0)), Some(0));
    assert_eq!(m.mouseover_intersection(pt(9_999, 0)), Some(0));
    // within reach of both 0 and 1
    assert_eq!(m.mouseover_intersection(pt(7_000, 0)), Some(0));
    // on the rim of 0, inside 1
    assert_eq!(m.mouseover_intersection(pt(10_000, 0)), Some(1));
    assert_eq!(m.mouseover_intersection(pt(8_000, 6_000)), Some(1));
    assert_eq!(m.mouseover_intersection(pt(6_000, 8_000)), None);
    assert_eq!(m.mouseover_intersection(pt(100_000, 9_999)), Some(2));
    assert_eq!(m.mouseover_intersection(pt(100_000, 10_000)), None);
    assert_eq!(m.mouseover_intersection(pt(50_000, 0)), None);
    m.remove_i(0).unwrap();
    assert_eq!(m.mouseover_intersection(pt(7_000, 0)), Some(1));
    assert_eq!(m.mouseover_intersection(pt(0, 0)), None);
}

#[test]
fn point_hits_the_first_building_around_it() {
    let mut m = Model::new();
    m.create_b(pt(0, 0));
    m.create_b(pt(20_000, 0));
    assert_eq!(m.mouseover_building(pt(0, 0)), Some(0));
    assert_eq!(m.mouseover_building(pt(14_999, -14_999)), Some(0));
    // inside both
    assert_eq!(m.mouseover_building(pt(10_000, 0)), Some(0));
    // on the edge of 0, inside 1
    assert_eq!(m.mouseover_building(pt(15_000, 0)), Some(1));
    assert_eq!(m.mouseover_building(pt(34_999, 14_999)), Some(1));
    assert_eq!(m.mouseover_building(pt(35_000, 0)), None);
    assert_eq!(m.mouseover_building(pt(0, 15_000)), None);
    m.move_b(0, pt(-100_000, 0)).unwrap();
    assert_eq!(m.mouseover_building(pt(10_000, 0)), Some(1));
    assert_eq!(m.mouseover_building(pt(-100_000, 0)), Some(0));
}

#[test]
fn point_hits_a_road_on_the_side_of_its_direction() {
    let m = street();
    // Three lanes of 2.5 m each way; the road 0-1 runs along growing x, so its
    // forward lanes lie towards growing y.
    assert_eq!(m.mouseover_road(pt(50_000, 1)), Some(((0, 1), FORWARDS)));
    assert_eq!(m.mouseover_road(pt(50_000, 7_499)), Some(((0, 1), FORWARDS)));
    assert_eq!(m.mouseover_road(pt(50_000, 7_500)), None);
    assert_eq!(m.mouseover_road(pt(50_000, -1)), Some(((0, 1), BACKWARDS)));
    assert_eq!(m.mouseover_road(pt(50_000, -7_499)), Some(((0, 1), BACKWARDS)));
    assert_eq!(m.mouseover_road(pt(50_000, -7_500)), None);
    // on the centre line, and beside the ends
    assert_eq!(m.mouseover_road(pt(50_000, 0)), None);
    assert_eq!(m.mouseover_road(pt(-1, 100)), None);
    assert_eq!(m.mouseover_road(pt(0, 100)), None);
    assert_eq!(m.mouseover_road(pt(100_000, 100)), None);
    assert_eq!(m.mouseover_road(pt(150_000, 100)), Some(((1, 2), FORWARDS)));
    assert_eq!(m.mouseover_road(pt(200_001, 100)), None);
}

#[test]
fn road_drawn_the_other_way_has_its_sides_exchanged() {
    let mut m = Model::new();
    m.create_i(pt(0, 0));
    m.create_i(pt(100_000, 0));
    m.create_road(1, 0).unwrap();
    assert_eq!(m.mouseover_road(pt(50_000, 1)), Some(((0, 1), BACKWARDS)));
    assert_eq!(m.mouseover_road(pt(50_000, -1)), Some(((0, 1), FORWARDS)));
}

#[test]
fn road_is_as_wide_as_its_lanes() {
    let mut m = street();
    m.edit_lanes((0, 1), "d/".to_string()).unwrap();
    assert_eq!(m.mouseover_road(pt(50_000, 2_499)), Some(((0, 1), FORWARDS)));
    assert_eq!(m.mouseover_road(pt(50_000, 2_500)), None);
    assert_eq!(m.mouseover_road(pt(50_000, -1)), None);
    m.swap_lanes((0, 1)).unwrap();
    assert_eq!(m.mouseover_road(pt(50_000, 2_499)), None);
    assert_eq!(m.mouseover_road(pt(50_000, -2_499)), Some(((0, 1), BACKWARDS)));
    m.edit_lanes((0, 1), "dddd/s".to_string()).unwrap();
    assert_eq!(m.mouseover_road(pt(50_000, 9_999)), Some(((0, 1), FORWARDS)));
    assert_eq!(m.mouseover_road(pt(50_000, 10_000)), None);
}

#[test]
fn point_hits_the_first_road_around_it() {
    let mut m = Model::new();
    m.create_i(pt(0, 0));
    m.create_i(pt(100_000, 0));
    m.create_i(pt(0, 5_000));
    m.create_i(pt(100_000, 5_000));
    // two roads side by side, 5 m apart: the forward side of (0, 1) and the
    // backward side of (2, 3) overlap between them
    m.create_road(2, 3).unwrap();
    m.create_road(0, 1).unwrap();
    assert_eq!(m.road_ids(), vec![(0, 1), (2, 3)]);
    assert_eq!(m.mouseover_road(pt(50_000, 2_500)), Some(((0, 1), FORWARDS)));
    assert_eq!(m.mouseover_road(pt(50_000, 6_000)), Some(((0, 1), FORWARDS)));
    assert_eq!(m.mouseover_road(pt(50_000, 8_000)), Some(((2, 3), FORWARDS)));
    m.remove_road((0, 1)).unwrap();
    assert_eq!(m.mouseover_road(pt(50_000, 2_500)), Some(((2, 3), BACKWARDS)));
    assert_eq!(m.mouseover_road(pt(50_000, 6_000)), Some(((2, 3), FORWARDS)));
}

#[test]
fn road_between_intersections_at_one_place_is_hit_nowhere() {
    let mut m = Model::new();
    m.create_i(pt(0, 0));
    m.create_i(pt(0, 0));
    m.create_road(0, 1).unwrap();
    m.create_road(0, 0).unwrap();
    assert_eq!(m.mouseover_road(pt(0, 0)), None);
    assert_eq!(m.mouseover_road(pt(1, 1)), None);
}

#[test]
fn moving_an_intersection_moves_its_roads() {
    let mut m = street();
    assert_eq!(m.mouseover_road(pt(50_000, 1_000)), Some(((0, 1), FORWARDS)));
    m.move_i(1, pt(0, 100_000)).unwrap();
    // the road 0-1 now runs along growing y: its forward lanes lie towards shrinking x
    assert_eq!(m.mouseover_road(pt(50_000, 1_000)), None);
    assert_eq!(m.mouseover_road(pt(-1_000, 50_000)), Some(((0, 1), FORWARDS)));
    assert_eq!(m.mouseover_road(pt(1_000, 50_000)), Some(((0, 1), BACKWARDS)));
}

#[test]
fn shapes_of_the_entities() {
    let mut m = street();
    m.create_b(pt(5, 5));
    let c = m.get_i(1).unwrap().circle();
    assert_eq!((xy(c.center), c.radius), ((100_000, 0), 10_000));
    let r = m.get_b(0).unwrap().polygon();
    assert_eq!((xy(r.center), r.half_width, r.half_height), ((5, 5), 15_000, 15_000));
    let road = m.get_r((0, 1)).unwrap();
    let s = road.polygon(FORWARDS, pt(0, 0), pt(100_000, 0));
    assert_eq!((xy(s.from), xy(s.to), s.width, s.right), ((0, 0), (100_000, 0), 7_500, true));
    let t = road.polygon(BACKWARDS, pt(0, 0), pt(100_000, 0));
    assert_eq!((t.width, t.right), (7_500, false));
}
