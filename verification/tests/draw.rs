use synthetic::draw::CENTER_LINE_THICKNESS;
use synthetic::geometry::Pt2D;
use synthetic::lanes::LaneType;
use synthetic::model::{IntersectionType, Model, BACKWARDS, FORWARDS};

fn pt(x: i64, y: i64) -> Pt2D {
    Pt2D::new(x, y).unwrap()
}

fn town() -> Model {
    let mut m = Model::new();
    m.create_i(pt(0, 0));
    m.create_i(pt(100_000, 0));
    m.create_i(pt(100_000, 80_000));
    m.create_road(1, 2).unwrap();
    m.create_road(1, 0).unwrap();
    m.set_i_label(0, "west".to_string()).unwrap();
    m.toggle_i_type(1).unwrap();
    m.edit_lanes((0, 1), "du/s".to_string()).unwrap();
    m.set_r_label(((0, 1), BACKWARDS), "in".to_string()).unwrap();
    m.create_b(pt(50_000, 30_000));
    m.create_b(pt(50_000, 50_000));
    m.remove_b(0).unwrap();
    m.set_b_label(1, "shop".to_string()).unwrap();
    m
}

#[test]
fn drawing_lists_every_entity_by_id() {
    let d = town().draw(None);
    assert_eq!(CENTER_LINE_THICKNESS, 500);
    assert_eq!((d.current_i, d.current_r, d.current_b), (None, None, None));
    let roads: Vec<(usize, usize)> = d.roads.iter().map(|r| r.id).collect();
    assert_eq!(roads, vec![(0, 1), (1, 2)]);
    let intersections: Vec<usize> = d.intersections.iter().map(|i| i.id).collect();
    assert_eq!(intersections, vec![0, 1, 2]);
    let buildings: Vec<usize> = d.buildings.iter().map(|b| b.id).collect();
    assert_eq!(buildings, vec![1]);
    assert!(d.roads.iter().all(|r| !r.highlight_fwd && !r.highlight_back));
    assert!(d.intersections.iter().all(|i| !i.highlighted));
    assert!(d.buildings.iter().all(|b| !b.highlighted));
}

#[test]
fn drawn_road_runs_as_it_was_drawn() {
    let d = town().draw(None);
    let r = &d.roads[0];
    assert_eq!((r.from.x(), r.from.y(), r.to.x(), r.to.y()), (100_000, 0, 0, 0));
    assert_eq!(r.lanes.fwd, vec![LaneType::Driving, LaneType::Bus]);
    assert_eq!(r.lanes.back, vec![LaneType::Sidewalk]);
    assert_eq!(r.fwd_label, None);
    assert_eq!(r.back_label, Some("in".to_string()));
    let s = &d.roads[1];
    assert_eq!((s.from.x(), s.from.y(), s.to.x(), s.to.y()), (100_000, 0, 100_000, 80_000));
    assert_eq!(s.lanes.to_string(), "dps/dps");
}

#[test]
fn drawn_intersections_and_buildings_have_their_shapes() {
    let d = town().draw(None);
    let i = &d.intersections[0];
    assert_eq!((i.circle.center.x(), i.circle.center.y(), i.circle.radius), (0, 0, 10_000));
    assert_eq!(i.label, Some("west".to_string()));
    assert_eq!(i.intersection_type, IntersectionType::StopSign);
    assert_eq!(d.intersections[1].intersection_type, IntersectionType::TrafficSignal);
    assert_eq!(d.intersections[1].label, None);
    let b = &d.buildings[0];
    assert_eq!((b.rect.center.x(), b.rect.center.y()), (50_000, 50_000));
    assert_eq!((b.rect.half_width, b.rect.half_height), (15_000, 15_000));
    assert_eq!(b.label, Some("shop".to_string()));
}

#[test]
fn drawing_highlights_what_lies_under_the_cursor() {
    let m = town();
    // on the intersection 1 and beside the road (1, 2), whose forward lanes
    // lie towards shrinking x
    let d = m.draw(Some(pt(99_000, 5_000)));
    assert_eq!(d.current_i, Some(1));
    assert_eq!(d.current_r, Some(((1, 2), FORWARDS)));
    assert_eq!(d.current_b, None);
    let lit: Vec<bool> = d.intersections.iter().map(|i| i.highlighted).collect();
    assert_eq!(lit, vec![false, true, false]);
    assert_eq!((d.roads[0].highlight_fwd, d.roads[0].highlight_back), (false, false));
    assert_eq!((d.roads[1].highlight_fwd, d.roads[1].highlight_back), (true, false));
    // beside the road (0, 1), which runs towards shrinking x: its backward
    // lane lies towards growing y
    let e = m.draw(Some(pt(50_000, 1_000)));
    assert_eq!(e.current_r, Some(((0, 1), BACKWARDS)));
    assert_eq!((e.roads[0].highlight_fwd, e.roads[0].highlight_back), (false, true));
    assert_eq!((e.roads[1].highlight_fwd, e.roads[1].highlight_back), (false, false));
    assert_eq!(e.current_i, None);
    let f = m.draw(Some(pt(50_000, 40_000)));
    assert_eq!(f.current_b, Some(1));
    assert!(f.buildings[0].highlighted);
    assert_eq!(f.current_r, None);
}

#[test]
fn drawing_of_an_empty_model_is_empty() {
    let d = Model::new().draw(Some(pt(0, 0)));
    assert!(d.roads.is_empty() && d.intersections.is_empty() && d.buildings.is_empty());
    assert_eq!((d.current_i, d.current_r, d.current_b), (None, None, None));
}
