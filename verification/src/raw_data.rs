//! The flat records that a map builder downstream reads, and the two ways
//! between them and the model.
//!
//! Going out, every road, intersection and building becomes one record; the
//! ids are gone, and a road is tied to its intersections only by the points
//! it shares with them. Coming back, the ties are found again by comparing
//! points, and every road gets the default lanes: the two ways are not each
//! other's inverse.

use std::collections::BTreeMap;
use vstd::prelude::*;
use vstd::string::StringExecFns;
use crate::geometry::{floor_div, in_frame, Point, Pt2D, FRAME_LIMIT};
use crate::gps::{to_local, Bounds, GPSBounds, LonLat, Position, TransformError};
use crate::lanes::{encode, LaneType, RoadSpec};
use crate::model::{
    copy_label, export_path, new_building, new_road, road_id, text, Building, BuildingID,
    BuildingView, Intersection, IntersectionID, IntersectionType, IntersectionView, Model,
    ModelError, ModelSnapshot, ModelView, Road, RoadID, RoadView, BUILDING_LENGTH,
};
use crate::ordered::{
    ascending, ascending_pairs, filed, lemma_filed, lists, lookup_point, put_point,
};

verus! {

/// A list of tags: keys with their values.
pub open spec fn tags_of(tags: Seq<(String, String)>) -> Seq<(Seq<char>, Seq<char>)> {
    tags.map_values(|t: (String, String)| (t.0@, t.1@))
}

pub open spec fn positions_of(points: Seq<LonLat>) -> Seq<Position> {
    points.map_values(|g: LonLat| g@)
}

pub struct RawRoad {
    pub points: Vec<LonLat>,
    pub osm_tags: Vec<(String, String)>,
    pub osm_way_id: usize,
    pub parking_lane_fwd: bool,
    pub parking_lane_back: bool,
}

pub struct RawRoadView {
    pub points: Seq<Position>,
    pub tags: Seq<(Seq<char>, Seq<char>)>,
    pub way_id: usize,
    pub parking_fwd: bool,
    pub parking_back: bool,
}

impl View for RawRoad {
    type V = RawRoadView;

    open spec fn view(&self) -> RawRoadView {
        RawRoadView {
            points: positions_of(self.points@),
            tags: tags_of(self.osm_tags@),
            way_id: self.osm_way_id,
            parking_fwd: self.parking_lane_fwd,
            parking_back: self.parking_lane_back,
        }
    }
}

pub struct RawIntersection {
    pub point: LonLat,
    pub intersection_type: IntersectionType,
    pub label: Option<String>,
}

pub struct RawIntersectionView {
    pub point: Position,
    pub kind: IntersectionType,
    pub label: Option<Seq<char>>,
}

impl View for RawIntersection {
    type V = RawIntersectionView;

    open spec fn view(&self) -> RawIntersectionView {
        RawIntersectionView {
            point: self.point@,
            kind: self.intersection_type,
            label: text(self.label),
        }
    }
}

pub struct RawBuilding {
    pub points: Vec<LonLat>,
    pub osm_tags: Vec<(String, String)>,
    pub osm_way_id: usize,
}

pub struct RawBuildingView {
    pub points: Seq<Position>,
    pub tags: Seq<(Seq<char>, Seq<char>)>,
    pub way_id: usize,
}

impl View for RawBuilding {
    type V = RawBuildingView;

    open spec fn view(&self) -> RawBuildingView {
        RawBuildingView {
            points: positions_of(self.points@),
            tags: tags_of(self.osm_tags@),
            way_id: self.osm_way_id,
        }
    }
}

/// A map in its raw form.
pub struct RawMap {
    pub roads: Vec<RawRoad>,
    pub intersections: Vec<RawIntersection>,
    pub buildings: Vec<RawBuilding>,
    /// Whether the positions are local coordinates under another name.
    pub coordinates_in_world_space: bool,
}

pub struct RawMapView {
    pub roads: Seq<RawRoadView>,
    pub intersections: Seq<RawIntersectionView>,
    pub buildings: Seq<RawBuildingView>,
    pub world_space: bool,
}

impl View for RawMap {
    type V = RawMapView;

    open spec fn view(&self) -> RawMapView {
        RawMapView {
            roads: self.roads@.map_values(|r: RawRoad| r@),
            intersections: self.intersections@.map_values(|i: RawIntersection| i@),
            buildings: self.buildings@.map_values(|b: RawBuilding| b@),
            world_space: self.coordinates_in_world_space,
        }
    }
}

// Model to raw
/// A point of the local frame under the name of a position.
pub open spec fn as_position(p: Point) -> Position {
    Position { lon: p.x, lat: p.y }
}

/// The tag `key`, where there is a value for it.
pub open spec fn optional_tag(key: Seq<char>, value: Option<Seq<char>>) -> Seq<
    (Seq<char>, Seq<char>),
> {
    match value {
        Some(v) => seq![(key, v)],
        None => Seq::empty(),
    }
}

/// The tags of a road, in the order of their keys.
pub open spec fn road_tags(r: RoadView) -> Seq<(Seq<char>, Seq<char>)> {
    optional_tag("back_label"@, r.back_label) + optional_tag("fwd_label"@, r.fwd_label) + seq![
        ("synthetic_lanes"@, encode(r.lanes)),
    ]
}

/// The record of the road `id` of `v`, as the `idx`-th of the roads.
pub open spec fn exported_road(v: ModelView, id: RoadID, idx: usize) -> RawRoadView {
    let r = v.roads[id];
    RawRoadView {
        points: seq![
            as_position(v.intersections[r.i1].center),
            as_position(v.intersections[r.i2].center),
        ],
        tags: road_tags(r),
        way_id: idx,
        parking_fwd: r.lanes.fwd.contains(LaneType::Parking),
        parking_back: r.lanes.back.contains(LaneType::Parking),
    }
}

pub open spec fn exported_intersection(i: IntersectionView) -> RawIntersectionView {
    RawIntersectionView { point: as_position(i.center), kind: i.kind, label: i.label }
}

/// The corners of the square of side `2 * half` around `c`, from the one of
/// least `x` and `y` on, with `x` changing first.
pub open spec fn corners(c: Point, half: int) -> Seq<Position> {
    seq![
        Position { lon: c.x - half, lat: c.y - half },
        Position { lon: c.x + half, lat: c.y - half },
        Position { lon: c.x + half, lat: c.y + half },
        Position { lon: c.x - half, lat: c.y + half },
    ]
}

pub open spec fn exported_building(b: BuildingView, idx: usize) -> RawBuildingView {
    RawBuildingView {
        points: corners(b.center, BUILDING_LENGTH as int / 2),
        tags: optional_tag("label"@, b.label),
        way_id: idx,
    }
}

/// Whether `raw` is the export of `v`: one record for each road, each
/// intersection and each building, in the order of their ids, with
/// positions that are local coordinates.
pub open spec fn exports(raw: RawMapView, v: ModelView) -> bool {
    &&& raw.world_space
    &&& exists|ids: Seq<RoadID>|
        {
            &&& ascending_pairs(ids)
            &&& lists(ids, v.roads.dom())
            &&& raw.roads.len() == ids.len()
            &&& forall|k: int|
                0 <= k < ids.len() ==> #[trigger] raw.roads[k] == exported_road(
                    v,
                    ids[k],
                    k as usize,
                )
        }
    &&& exists|ids: Seq<IntersectionID>|
        {
            &&& ascending(ids)
            &&& lists(ids, v.intersections.dom())
            &&& raw.intersections.len() == ids.len()
            &&& forall|k: int|
                0 <= k < ids.len() ==> #[trigger] raw.intersections[k] == exported_intersection(
                    v.intersections[ids[k]],
                )
        }
    &&& exists|ids: Seq<BuildingID>|
        {
            &&& ascending(ids)
            &&& lists(ids, v.buildings.dom())
            &&& raw.buildings.len() == ids.len()
            &&& forall|k: int|
                0 <= k < ids.len() ==> #[trigger] raw.buildings[k] == exported_building(
                    v.buildings[ids[k]],
                    k as usize,
                )
        }
}

fn position_of(p: Pt2D) -> (g: LonLat)
    ensures
        g@ == as_position(p@),
{
    LonLat::new(p.x(), p.y())
}

fn has_parking(lanes: &Vec<LaneType>) -> (r: bool)
    ensures
        r == lanes@.contains(LaneType::Parking),
{
    let mut i: usize = 0;
    while i < lanes.len()
        invariant
            i <= lanes.len(),
            forall|k: int| 0 <= k < i ==> lanes@[k] != LaneType::Parking,
        decreases lanes.len() - i,
    {
        if lanes[i] == LaneType::Parking {
            return true;
        }
        i = i + 1;
    }
    false
}

fn push_optional_tag(tags: &mut Vec<(String, String)>, key: &str, value: &Option<String>)
    ensures
        tags_of(final(tags)@) == tags_of(old(tags)@) + optional_tag(key@, text(*value)),
{
    match value {
        Some(v) => {
            tags.push((String::from_str(key), v.clone()));
            assert(tags_of(tags@) =~= tags_of(old(tags)@) + optional_tag(key@, text(*value)));
        },
        None => {
            assert(tags_of(tags@) =~= tags_of(old(tags)@) + optional_tag(key@, text(*value)));
        },
    }
}

fn export_road(road: &Road, from: Pt2D, to: Pt2D, idx: usize) -> (r: RawRoad)
    ensures
        r@ == (RawRoadView {
            points: seq![as_position(from@), as_position(to@)],
            tags: road_tags(road@),
            way_id: idx,
            parking_fwd: road@.lanes.fwd.contains(LaneType::Parking),
            parking_back: road@.lanes.back.contains(LaneType::Parking),
        }),
{
    let mut osm_tags: Vec<(String, String)> = Vec::new();
    assert(tags_of(osm_tags@) =~= Seq::empty());
    push_optional_tag(&mut osm_tags, "back_label", &road.back_label);
    push_optional_tag(&mut osm_tags, "fwd_label", &road.fwd_label);
    let ghost before = tags_of(osm_tags@);
    osm_tags.push((String::from_str("synthetic_lanes"), road.lanes.to_string()));
    assert(tags_of(osm_tags@) =~= before + seq![("synthetic_lanes"@, encode(road@.lanes))]);
    assert(tags_of(osm_tags@) =~= road_tags(road@));
    let mut points: Vec<LonLat> = Vec::new();
    points.push(position_of(from));
    points.push(position_of(to));
    assert(positions_of(points@) =~= seq![as_position(from@), as_position(to@)]);
    RawRoad {
        points,
        osm_tags,
        osm_way_id: idx,
        parking_lane_fwd: has_parking(&road.lanes.fwd),
        parking_lane_back: has_parking(&road.lanes.back),
    }
}

fn export_building(b: &Building, idx: usize) -> (r: RawBuilding)
    ensures
        r@ == exported_building(b@, idx),
{
    let half: i64 = (BUILDING_LENGTH / 2) as i64;
    let x: i64 = b.center.x();
    let y: i64 = b.center.y();
    let mut points: Vec<LonLat> = Vec::new();
    points.push(LonLat::new(x - half, y - half));
    points.push(LonLat::new(x + half, y - half));
    points.push(LonLat::new(x + half, y + half));
    points.push(LonLat::new(x - half, y + half));
    assert(positions_of(points@) =~= corners(b@.center, BUILDING_LENGTH as int / 2));
    let mut osm_tags: Vec<(String, String)> = Vec::new();
    assert(tags_of(osm_tags@) =~= Seq::empty());
    push_optional_tag(&mut osm_tags, "label", &b.label);
    assert(tags_of(osm_tags@) =~= optional_tag("label"@, b@.label));
    RawBuilding { points, osm_tags, osm_way_id: idx }
}

impl Model {
    /// The model in its raw form.
    pub fn to_raw(&self) -> (raw: RawMap)
        requires
            self.wf(),
        ensures
            exports(raw@, self@),
    {
        let ghost v = self@;
        let r_ids = self.road_ids();
        let mut roads: Vec<RawRoad> = Vec::new();
        let mut i: usize = 0;
        while i < r_ids.len()
            invariant
                i <= r_ids.len(),
                v == self@,
                v.wf(),
                lists(r_ids@, v.roads.dom()),
                roads@.len() == i,
                forall|k: int|
                    0 <= k < i ==> (#[trigger] roads@[k])@ == exported_road(
                        v,
                        r_ids@[k],
                        k as usize,
                    ),
            decreases r_ids.len() - i,
        {
            let id = r_ids[i];
            assert(r_ids@.contains(id));
            assert(v.roads.contains_key(id));
            let road = self.get_r(id);
            let from = match road {
                Some(road) => self.get_i(road.i1),
                None => None,
            };
            let to = match road {
                Some(road) => self.get_i(road.i2),
                None => None,
            };
            match (road, from, to) {
                (Some(road), Some(from), Some(to)) => {
                    roads.push(export_road(road, from.center, to.center, i));
                },
                _ => {},
            }
            i = i + 1;
        }
        let i_ids = self.intersection_ids();
        let mut intersections: Vec<RawIntersection> = Vec::new();
        let mut j: usize = 0;
        while j < i_ids.len()
            invariant
                j <= i_ids.len(),
                v == self@,
                lists(i_ids@, v.intersections.dom()),
                intersections@.len() == j,
                forall|k: int|
                    0 <= k < j ==> (#[trigger] intersections@[k])@ == exported_intersection(
                        v.intersections[i_ids@[k]],
                    ),
            decreases i_ids.len() - j,
        {
            let id = i_ids[j];
            assert(i_ids@.contains(id));
            match self.get_i(id) {
                Some(x) => {
                    intersections.push(
                        RawIntersection {
                            point: position_of(x.center),
                            intersection_type: x.intersection_type,
                            label: copy_label(&x.label),
                        },
                    );
                },
                None => {},
            }
            j = j + 1;
        }
        let b_ids = self.building_ids();
        let mut buildings: Vec<RawBuilding> = Vec::new();
        let mut h: usize = 0;
        while h < b_ids.len()
            invariant
                h <= b_ids.len(),
                v == self@,
                lists(b_ids@, v.buildings.dom()),
                buildings@.len() == h,
                forall|k: int|
                    0 <= k < h ==> (#[trigger] buildings@[k])@ == exported_building(
                        v.buildings[b_ids@[k]],
                        k as usize,
                    ),
            decreases b_ids.len() - h,
        {
            let id = b_ids[h];
            assert(b_ids@.contains(id));
            match self.get_b(id) {
                Some(x) => {
                    buildings.push(export_building(x, h));
                },
                None => {},
            }
            h = h + 1;
        }
        let raw = RawMap { roads, intersections, buildings, coordinates_in_world_space: true };
        proof {
            let rv = raw@;
            assert(rv.roads.len() == r_ids@.len());
            assert forall|k: int| 0 <= k < r_ids@.len() implies #[trigger] rv.roads[k]
                == exported_road(v, r_ids@[k], k as usize) by {
                assert(rv.roads[k] == raw.roads@[k]@);
            }
            assert forall|k: int| 0 <= k < i_ids@.len() implies #[trigger] rv.intersections[k]
                == exported_intersection(v.intersections[i_ids@[k]]) by {
                assert(rv.intersections[k] == raw.intersections@[k]@);
            }
            assert forall|k: int| 0 <= k < b_ids@.len() implies #[trigger] rv.buildings[k]
                == exported_building(v.buildings[b_ids@[k]], k as usize) by {
                assert(rv.buildings[k] == raw.buildings@[k]@);
            }
        }
        raw
    }

    /// The path to export the model to and what to write there.
    pub fn export(&self) -> (r: Result<(String, RawMap), ModelError>)
        requires
            self.wf(),
        ensures
            match r {
                Ok((path, raw)) => {
                    &&& self@.name is Some
                    &&& path@ == export_path(self@.name->0)
                    &&& exports(raw@, self@)
                },
                Err(e) => e == ModelError::Unnamed && self@.name is None,
            },
    {
        match self.export_path() {
            Ok(path) => Ok((path, self.to_raw())),
            Err(e) => Err(e),
        }
    }
}

// The box around a raw map
impl RawMapView {
    /// Whether `g` is a point of one of the first `n` roads.
    pub open spec fn road_point(self, n: int, g: Position) -> bool {
        exists|r: int, k: int|
            0 <= r < n && 0 <= k < self.roads[r].points.len() && self.roads[r].points[k] == g
    }

    /// Whether `g` is the point of one of the first `n` intersections.
    pub open spec fn intersection_point(self, n: int, g: Position) -> bool {
        exists|i: int| 0 <= i < n && self.intersections[i].point == g
    }

    /// Whether `g` is a point of one of the first `n` buildings.
    pub open spec fn building_point(self, n: int, g: Position) -> bool {
        exists|b: int, k: int|
            0 <= b < n && 0 <= k < self.buildings[b].points.len() && self.buildings[b].points[k]
                == g
    }

    /// Whether `g` is one of the map's positions.
    pub open spec fn has_point(self, g: Position) -> bool {
        ||| self.road_point(self.roads.len() as int, g)
        ||| self.intersection_point(self.intersections.len() as int, g)
        ||| self.building_point(self.buildings.len() as int, g)
    }

    /// Whether `b` is the least box around the map's positions, or, for a
    /// map without positions, the point at the origin.
    pub open spec fn boxed_by(self, b: Bounds) -> bool {
        if exists|g: Position| self.has_point(g) {
            &&& forall|g: Position| self.has_point(g) ==> b.contains(g)
            &&& exists|g: Position| self.has_point(g) && g.lon == b.min_lon
            &&& exists|g: Position| self.has_point(g) && g.lon == b.max_lon
            &&& exists|g: Position| self.has_point(g) && g.lat == b.min_lat
            &&& exists|g: Position| self.has_point(g) && g.lat == b.max_lat
        } else {
            b.min_lon == 0 && b.max_lon == 0 && b.min_lat == 0 && b.max_lat == 0
        }
    }

    proof fn lemma_next_road(self, n: int, g: Position)
        requires
            0 <= n < self.roads.len(),
        ensures
            self.road_point(n + 1, g) <==> self.road_point(n, g) || self.roads[n].points.contains(
                g,
            ),
    {
        if self.road_point(n + 1, g) {
            let (r, k) = choose|r: int, k: int|
                0 <= r < n + 1 && 0 <= k < self.roads[r].points.len() && self.roads[r].points[k]
                    == g;
            if r < n {
                assert(self.road_point(n, g));
            } else {
                assert(self.roads[n].points[k] == g);
            }
        }
        if self.road_point(n, g) {
            let (r, k) = choose|r: int, k: int|
                0 <= r < n && 0 <= k < self.roads[r].points.len() && self.roads[r].points[k] == g;
            assert(0 <= r < n + 1 && self.roads[r].points[k] == g);
        }
        if self.roads[n].points.contains(g) {
            let k = choose|k: int| 0 <= k < self.roads[n].points.len() && self.roads[n].points[k] == g;
            assert(0 <= n < n + 1 && self.roads[n].points[k] == g);
        }
    }

    proof fn lemma_next_intersection(self, n: int, g: Position)
        requires
            0 <= n < self.intersections.len(),
        ensures
            self.intersection_point(n + 1, g) <==> self.intersection_point(n, g)
                || self.intersections[n].point == g,
    {
        if self.intersection_point(n + 1, g) {
            let i = choose|i: int| 0 <= i < n + 1 && self.intersections[i].point == g;
            if i < n {
                assert(self.intersection_point(n, g));
            }
        }
        if self.intersection_point(n, g) {
            let i = choose|i: int| 0 <= i < n && self.intersections[i].point == g;
            assert(0 <= i < n + 1 && self.intersections[i].point == g);
        }
        if self.intersections[n].point == g {
            assert(0 <= n < n + 1 && self.intersections[n].point == g);
        }
    }

    proof fn lemma_next_building(self, n: int, g: Position)
        requires
            0 <= n < self.buildings.len(),
        ensures
            self.building_point(n + 1, g) <==> self.building_point(n, g)
                || self.buildings[n].points.contains(g),
    {
        if self.building_point(n + 1, g) {
            let (b, k) = choose|b: int, k: int|
                0 <= b < n + 1 && 0 <= k < self.buildings[b].points.len()
                    && self.buildings[b].points[k] == g;
            if b < n {
                assert(self.building_point(n, g));
            } else {
                assert(self.buildings[n].points[k] == g);
            }
        }
        if self.building_point(n, g) {
            let (b, k) = choose|b: int, k: int|
                0 <= b < n && 0 <= k < self.buildings[b].points.len()
                    && self.buildings[b].points[k] == g;
            assert(0 <= b < n + 1 && self.buildings[b].points[k] == g);
        }
        if self.buildings[n].points.contains(g) {
            let k = choose|k: int|
                0 <= k < self.buildings[n].points.len() && self.buildings[n].points[k] == g;
            assert(0 <= n < n + 1 && self.buildings[n].points[k] == g);
        }
    }
}

proof fn lemma_member(s: Seq<Position>, at: int)
    requires
        0 <= at < s.len(),
    ensures
        s.contains(s[at]),
{
}

/// A position is among two runs of positions put together where it is
/// among either.
proof fn lemma_among_both(a: Seq<Position>, b: Seq<Position>, g: Position)
    ensures
        (a + b).contains(g) <==> a.contains(g) || b.contains(g),
{
    let c = a + b;
    if c.contains(g) {
        let at = choose|at: int| 0 <= at < c.len() && c[at] == g;
        if at < a.len() {
            assert(a[at] == g);
        } else {
            assert(b[at - a.len()] == g);
        }
    }
    if a.contains(g) {
        let at = choose|at: int| 0 <= at < a.len() && a[at] == g;
        assert(c[at] == g);
    }
    if b.contains(g) {
        let at = choose|at: int| 0 <= at < b.len() && b[at] == g;
        assert(c[a.len() + at] == g);
    }
}

fn append_points(out: &mut Vec<LonLat>, pts: &Vec<LonLat>)
    ensures
        final(out)@ == old(out)@ + pts@,
        forall|g: Position| #[trigger]
            positions_of(final(out)@).contains(g) <==> (positions_of(old(out)@).contains(g)
                || positions_of(pts@).contains(g)),
{
    let mut k: usize = 0;
    while k < pts.len()
        invariant
            k <= pts.len(),
            out@ == old(out)@ + pts@.take(k as int),
        decreases pts.len() - k,
    {
        out.push(pts[k]);
        assert(pts@.take(k + 1) =~= pts@.take(k as int).push(pts@[k as int]));
        k = k + 1;
    }
    assert(pts@.take(k as int) =~= pts@);
    proof {
        assert(positions_of(out@) =~= positions_of(old(out)@) + positions_of(pts@));
        assert forall|g: Position| #[trigger]
            positions_of(out@).contains(g) <==> (positions_of(old(out)@).contains(g)
                || positions_of(pts@).contains(g)) by {
            lemma_among_both(positions_of(old(out)@), positions_of(pts@), g);
        }
    }
}

impl RawMap {
    /// Every position of the map.
    pub fn all_points(&self) -> (out: Vec<LonLat>)
        ensures
            forall|g: Position| self@.has_point(g) <==> #[trigger] positions_of(out@).contains(g),
    {
        let ghost v = self@;
        let mut out: Vec<LonLat> = Vec::new();
        let mut r: usize = 0;
        while r < self.roads.len()
            invariant
                r <= self.roads.len(),
                v == self@,
                forall|g: Position| #[trigger]
                    positions_of(out@).contains(g) <==> v.road_point(r as int, g),
            decreases self.roads.len() - r,
        {
            append_points(&mut out, &self.roads[r].points);
            proof {
                assert(v.roads[r as int].points == positions_of(self.roads@[r as int].points@));
                assert forall|g: Position| #[trigger]
                    positions_of(out@).contains(g) <==> v.road_point(r + 1, g) by {
                    v.lemma_next_road(r as int, g);
                }
            }
            r = r + 1;
        }
        let mut i: usize = 0;
        assert(forall|g: Position| !v.intersection_point(0, g));
        while i < self.intersections.len()
            invariant
                i <= self.intersections.len(),
                v == self@,
                forall|g: Position| #[trigger]
                    positions_of(out@).contains(g) <==> (v.road_point(v.roads.len() as int, g)
                        || v.intersection_point(i as int, g)),
            decreases self.intersections.len() - i,
        {
            let ghost before = out@;
            out.push(self.intersections[i].point);
            proof {
                let p = v.intersections[i as int].point;
                assert(positions_of(out@) =~= positions_of(before) + seq![p]);
                assert forall|g: Position| #[trigger]
                    positions_of(out@).contains(g) <==> (v.road_point(v.roads.len() as int, g)
                        || v.intersection_point(i + 1, g)) by {
                    v.lemma_next_intersection(i as int, g);
                    lemma_among_both(positions_of(before), seq![p], g);
                    if seq![p].contains(g) {
                        let at = choose|at: int| 0 <= at < seq![p].len() && seq![p][at] == g;
                    }
                    if p == g {
                        assert(seq![p][0] == g);
                    }
                }
            }
            i = i + 1;
        }
        let mut b: usize = 0;
        assert(forall|g: Position| !v.building_point(0, g));
        while b < self.buildings.len()
            invariant
                b <= self.buildings.len(),
                v == self@,
                forall|g: Position| #[trigger]
                    positions_of(out@).contains(g) <==> (v.road_point(v.roads.len() as int, g)
                        || v.intersection_point(v.intersections.len() as int, g)
                        || v.building_point(b as int, g)),
            decreases self.buildings.len() - b,
        {
            append_points(&mut out, &self.buildings[b].points);
            proof {
                assert(v.buildings[b as int].points == positions_of(
                    self.buildings@[b as int].points@,
                ));
                assert forall|g: Position| #[trigger]
                    positions_of(out@).contains(g) <==> (v.road_point(v.roads.len() as int, g)
                        || v.intersection_point(v.intersections.len() as int, g)
                        || v.building_point(b + 1, g)) by {
                    v.lemma_next_building(b as int, g);
                }
            }
            b = b + 1;
        }
        out
    }

    /// The least box around the map's positions, laid under the local frame
    /// that reaches from the origin to `max_world_pt`; nothing where a
    /// coordinate of that point is negative.
    pub fn get_gps_bounds(&self, max_world_pt: Pt2D) -> (r: Option<GPSBounds>)
        ensures
            r is Some <==> max_world_pt@.x >= 0 && max_world_pt@.y >= 0,
            r is Some ==> {
                &&& self@.boxed_by(r->0@)
                &&& r->0@.width == max_world_pt@.x
                &&& r->0@.height == max_world_pt@.y
                &&& r->0@.world_space == self@.world_space
            },
    {
        let pts = self.all_points();
        let ghost ps = positions_of(pts@);
        if pts.len() == 0 {
            proof {
                assert forall|g: Position| !self@.has_point(g) by {
                    if self@.has_point(g) {
                        assert(ps.contains(g));
                    }
                }
            }
            return GPSBounds::new(0, 0, 0, 0, max_world_pt, self.coordinates_in_world_space);
        }
        let mut min_lon: i64 = pts[0].longitude;
        let mut max_lon: i64 = pts[0].longitude;
        let mut min_lat: i64 = pts[0].latitude;
        let mut max_lat: i64 = pts[0].latitude;
        let ghost mut at_min_lon: int = 0;
        let ghost mut at_max_lon: int = 0;
        let ghost mut at_min_lat: int = 0;
        let ghost mut at_max_lat: int = 0;
        let mut k: usize = 1;
        while k < pts.len()
            invariant
                1 <= k <= pts.len(),
                ps == positions_of(pts@),
                0 <= at_min_lon < k && ps[at_min_lon].lon == min_lon,
                0 <= at_max_lon < k && ps[at_max_lon].lon == max_lon,
                0 <= at_min_lat < k && ps[at_min_lat].lat == min_lat,
                0 <= at_max_lat < k && ps[at_max_lat].lat == max_lat,
                forall|j: int|
                    0 <= j < k ==> min_lon <= (#[trigger] ps[j]).lon <= max_lon && min_lat
                        <= ps[j].lat <= max_lat,
            decreases pts.len() - k,
        {
            let g = pts[k];
            if g.longitude < min_lon {
                min_lon = g.longitude;
                proof {
                    at_min_lon = k as int;
                }
            }
            if g.longitude > max_lon {
                max_lon = g.longitude;
                proof {
                    at_max_lon = k as int;
                }
            }
            if g.latitude < min_lat {
                min_lat = g.latitude;
                proof {
                    at_min_lat = k as int;
                }
            }
            if g.latitude > max_lat {
                max_lat = g.latitude;
                proof {
                    at_max_lat = k as int;
                }
            }
            k = k + 1;
        }
        let r = GPSBounds::new(
            min_lon,
            min_lat,
            max_lon,
            max_lat,
            max_world_pt,
            self.coordinates_in_world_space,
        );
        proof {
            if r is Some {
                let b = r->0@;
                let v = self@;
                lemma_member(ps, 0);
                lemma_member(ps, at_min_lon);
                lemma_member(ps, at_max_lon);
                lemma_member(ps, at_min_lat);
                lemma_member(ps, at_max_lat);
                assert(v.has_point(ps[0]));
                assert forall|g: Position| v.has_point(g) implies b.contains(g) by {
                    assert(ps.contains(g));
                    let at = choose|at: int| 0 <= at < ps.len() && ps[at] == g;
                    assert(b.min_lon <= ps[at].lon <= b.max_lon);
                }
                assert(v.has_point(ps[at_min_lon]) && ps[at_min_lon].lon == b.min_lon);
                assert(v.has_point(ps[at_max_lon]) && ps[at_max_lon].lon == b.max_lon);
                assert(v.has_point(ps[at_min_lat]) && ps[at_min_lat].lat == b.min_lat);
                assert(v.has_point(ps[at_max_lat]) && ps[at_max_lat].lat == b.max_lat);
            }
        }
        r
    }
}

// Raw to model
/// The first record that stands in the way of an import, by its place among
/// the records of its kind.
#[derive(Clone, Copy, Debug, PartialEq, Eq, Structural)]
pub enum ImportError {
    /// The far corner of the local frame has a negative coordinate.
    BadFrame,
    /// The intersection's position has no place in the local frame.
    BadIntersection(usize),
    /// The road has no points, or one of its ends has no place in the local
    /// frame or lies on no intersection.
    BadRoad(usize),
    /// The building has no points, or one of them has no place in the local
    /// frame.
    BadBuilding(usize),
}

pub open spec fn total_x(pts: Seq<Point>) -> int
    decreases pts.len(),
{
    if pts.len() == 0 {
        0
    } else {
        total_x(pts.drop_last()) + pts.last().x
    }
}

pub open spec fn total_y(pts: Seq<Point>) -> int
    decreases pts.len(),
{
    if pts.len() == 0 {
        0
    } else {
        total_y(pts.drop_last()) + pts.last().y
    }
}

/// The mean of `pts`, each coordinate rounded down.
pub open spec fn centroid(pts: Seq<Point>) -> Point {
    Point { x: total_x(pts) / (pts.len() as int), y: total_y(pts) / (pts.len() as int) }
}

impl RawMapView {
    pub open spec fn intersection_ok(self, b: Bounds, k: int) -> bool {
        to_local(b, self.intersections[k].point) is Ok
    }

    /// Where the `k`-th intersection lies in the local frame.
    pub open spec fn center(self, b: Bounds, k: int) -> Point {
        to_local(b, self.intersections[k].point)->Ok_0
    }

    pub open spec fn imported_intersection(self, b: Bounds, k: int) -> IntersectionView {
        IntersectionView {
            center: self.center(b, k),
            kind: self.intersections[k].kind,
            label: self.intersections[k].label,
        }
    }

    /// Whether the `i`-th intersection is the last that lies on `p`.
    pub open spec fn intersection_at(self, b: Bounds, p: Point, i: int) -> bool {
        &&& 0 <= i < self.intersections.len()
        &&& self.intersection_ok(b, i)
        &&& self.center(b, i) == p
        &&& forall|j: int|
            i < j < self.intersections.len() ==> !(self.intersection_ok(b, j) && #[trigger] self.center(
                b,
                j,
            ) == p)
    }

    /// Whether a road can end at `g`: on an intersection.
    pub open spec fn end_ok(self, b: Bounds, g: Position) -> bool {
        &&& to_local(b, g) is Ok
        &&& exists|i: int| self.intersection_at(b, to_local(b, g)->Ok_0, i)
    }

    /// The intersection that a road ending at `g` ends at.
    pub open spec fn end_of(self, b: Bounds, g: Position) -> int {
        choose|i: int| self.intersection_at(b, to_local(b, g)->Ok_0, i)
    }

    pub open spec fn road_ok(self, b: Bounds, k: int) -> bool {
        let pts = self.roads[k].points;
        pts.len() > 0 && self.end_ok(b, pts[0]) && self.end_ok(b, pts.last())
    }

    /// The road that the `k`-th record gives and the id it is filed under:
    /// from the intersection under its first point to the one under its last.
    pub open spec fn imported_road(self, b: Bounds, k: int) -> (RoadID, RoadView) {
        let pts = self.roads[k].points;
        let i1 = self.end_of(b, pts[0]) as usize;
        let i2 = self.end_of(b, pts.last()) as usize;
        (road_id(i1, i2), new_road(i1, i2))
    }

    pub open spec fn building_ok(self, b: Bounds, k: int) -> bool {
        let pts = self.buildings[k].points;
        pts.len() > 0 && forall|j: int| 0 <= j < pts.len() ==> to_local(b, #[trigger] pts[j]) is Ok
    }

    /// The points of the `k`-th building in the local frame.
    pub open spec fn outline(self, b: Bounds, k: int) -> Seq<Point> {
        let pts = self.buildings[k].points;
        Seq::new(pts.len(), |j: int| to_local(b, pts[j])->Ok_0)
    }

    pub open spec fn imported_building(self, b: Bounds, k: int) -> BuildingView {
        new_building(centroid(self.outline(b, k)))
    }

    /// The model that the records give: an intersection for each
    /// intersection record and a building for each building record, with
    /// the record's place as id, and the roads filed one after another.
    pub open spec fn imported(self, b: Bounds) -> ModelView {
        ModelView {
            name: None,
            intersections: filed(
                Seq::new(
                    self.intersections.len(),
                    |k: int| (k as usize, self.imported_intersection(b, k)),
                ),
            ),
            roads: filed(Seq::new(self.roads.len(), |k: int| self.imported_road(b, k))),
            buildings: filed(
                Seq::new(self.buildings.len(), |k: int| (k as usize, self.imported_building(b, k))),
            ),
        }
    }

    /// What an import of these records under `b` has to return.
    pub open spec fn import_outcome(self, b: Bounds, r: Result<ModelView, ImportError>) -> bool {
        match r {
            Ok(m) => {
                &&& forall|k: int| 0 <= k < self.intersections.len() ==> self.intersection_ok(b, k)
                &&& forall|k: int| 0 <= k < self.roads.len() ==> self.road_ok(b, k)
                &&& forall|k: int| 0 <= k < self.buildings.len() ==> self.building_ok(b, k)
                &&& m == self.imported(b)
            },
            Err(ImportError::BadFrame) => false,
            Err(ImportError::BadIntersection(at)) => {
                &&& at < self.intersections.len()
                &&& !self.intersection_ok(b, at as int)
                &&& forall|k: int| 0 <= k < at ==> self.intersection_ok(b, k)
            },
            Err(ImportError::BadRoad(at)) => {
                &&& forall|k: int| 0 <= k < self.intersections.len() ==> self.intersection_ok(b, k)
                &&& at < self.roads.len()
                &&& !self.road_ok(b, at as int)
                &&& forall|k: int| 0 <= k < at ==> self.road_ok(b, k)
            },
            Err(ImportError::BadBuilding(at)) => {
                &&& forall|k: int| 0 <= k < self.intersections.len() ==> self.intersection_ok(b, k)
                &&& forall|k: int| 0 <= k < self.roads.len() ==> self.road_ok(b, k)
                &&& at < self.buildings.len()
                &&& !self.building_ok(b, at as int)
                &&& forall|k: int| 0 <= k < at ==> self.building_ok(b, k)
            },
        }
    }

    /// One intersection at most is the last that lies on a point.
    proof fn lemma_one_intersection_at(self, b: Bounds, p: Point, i: int, j: int)
        requires
            self.intersection_at(b, p, i),
            self.intersection_at(b, p, j),
        ensures
            i == j,
    {
        if i < j {
            assert(self.center(b, j) == p);
        } else if j < i {
            assert(self.center(b, i) == p);
        }
    }
}

/// The result of an import as specifications see it.
pub open spec fn outcome_of(r: Result<Model, ImportError>) -> Result<ModelView, ImportError> {
    match r {
        Ok(m) => Ok(m@),
        Err(e) => Err(e),
    }
}

/// The sums of the coordinates of points of the frame stay within the
/// number of points times the frame's limit.
proof fn lemma_total_bounds(pts: Seq<Point>)
    requires
        forall|j: int| 0 <= j < pts.len() ==> in_frame(#[trigger] pts[j]),
    ensures
        -(pts.len() * FRAME_LIMIT) <= total_x(pts) <= pts.len() * FRAME_LIMIT,
        -(pts.len() * FRAME_LIMIT) <= total_y(pts) <= pts.len() * FRAME_LIMIT,
    decreases pts.len(),
{
    if pts.len() > 0 {
        let t = pts.drop_last();
        assert forall|j: int| 0 <= j < t.len() implies in_frame(#[trigger] t[j]) by {
            assert(t[j] == pts[j]);
        }
        lemma_total_bounds(t);
        assert(in_frame(pts[pts.len() - 1]));
        assert(pts.len() * FRAME_LIMIT == t.len() * FRAME_LIMIT + FRAME_LIMIT) by (nonlinear_arith)
            requires
                pts.len() == t.len() + 1,
        ;
    }
}

/// The mean of points of the frame lies in the frame.
proof fn lemma_centroid_in_frame(pts: Seq<Point>)
    requires
        pts.len() > 0,
        forall|j: int| 0 <= j < pts.len() ==> in_frame(#[trigger] pts[j]),
    ensures
        in_frame(centroid(pts)),
{
    lemma_total_bounds(pts);
    let n = pts.len() as int;
    let sx = total_x(pts);
    let sy = total_y(pts);
    vstd::arithmetic::div_mod::lemma_fundamental_div_mod(sx, n);
    vstd::arithmetic::div_mod::lemma_mod_bound(sx, n);
    vstd::arithmetic::div_mod::lemma_fundamental_div_mod(sy, n);
    vstd::arithmetic::div_mod::lemma_mod_bound(sy, n);
    let qx = sx / n;
    let rx = sx % n;
    let qy = sy / n;
    let ry = sy % n;
    assert(-FRAME_LIMIT <= qx <= FRAME_LIMIT) by (nonlinear_arith)
        requires
            sx == n * qx + rx,
            0 <= rx < n,
            n > 0,
            -(n * FRAME_LIMIT) <= sx <= n * FRAME_LIMIT,
    ;
    assert(-FRAME_LIMIT <= qy <= FRAME_LIMIT) by (nonlinear_arith)
        requires
            sy == n * qy + ry,
            0 <= ry < n,
            n > 0,
            -(n * FRAME_LIMIT) <= sy <= n * FRAME_LIMIT,
    ;
}

/// The mean of the points of a building in the local frame, where all of
/// them have a place there.
fn building_center(pts: &Vec<LonLat>, bounds: &GPSBounds) -> (r: Option<Pt2D>)
    ensures
        r is Some <==> (pts@.len() > 0 && forall|j: int|
            0 <= j < pts@.len() ==> to_local(bounds@, #[trigger] positions_of(pts@)[j]) is Ok),
        r is Some ==> r->0@ == centroid(
            Seq::new(pts@.len(), |j: int| to_local(bounds@, positions_of(pts@)[j])->Ok_0),
        ),
{
    let n = pts.len();
    if n == 0 {
        return None;
    }
    let ghost ps = positions_of(pts@);
    let ghost local = Seq::new(pts@.len(), |j: int| to_local(bounds@, ps[j])->Ok_0);
    let mut sum_x: i128 = 0;
    let mut sum_y: i128 = 0;
    let mut j: usize = 0;
    while j < n
        invariant
            j <= n,
            n == pts.len(),
            ps == positions_of(pts@),
            local == Seq::new(pts@.len(), |j: int| to_local(bounds@, ps[j])->Ok_0),
            forall|k: int| 0 <= k < j ==> to_local(bounds@, #[trigger] ps[k]) is Ok,
            sum_x == total_x(local.take(j as int)),
            sum_y == total_y(local.take(j as int)),
            -(j * FRAME_LIMIT) <= sum_x <= j * FRAME_LIMIT,
            -(j * FRAME_LIMIT) <= sum_y <= j * FRAME_LIMIT,
        decreases n - j,
    {
        let p = match pts[j].to_pt(bounds) {
            Ok(p) => p,
            Err(_) => {
                assert(!(to_local(bounds@, ps[j as int]) is Ok));
                return None;
            },
        };
        let px: i64 = p.x();
        let py: i64 = p.y();
        proof {
            assert(local.take(j + 1).drop_last() =~= local.take(j as int));
            assert(local.take(j + 1).last() == p@);
            assert((j + 1) * FRAME_LIMIT == j * FRAME_LIMIT + FRAME_LIMIT) by (nonlinear_arith);
            assert(j * FRAME_LIMIT <= 0xffff_ffff_ffff_ffff * FRAME_LIMIT) by (nonlinear_arith)
                requires
                    j <= 0xffff_ffff_ffff_ffff,
            ;
        }
        sum_x = sum_x + px as i128;
        sum_y = sum_y + py as i128;
        j = j + 1;
    }
    proof {
        assert(local.take(n as int) =~= local);
        assert forall|k: int| 0 <= k < local.len() implies in_frame(#[trigger] local[k]) by {
            assert(to_local(bounds@, ps[k]) is Ok);
        }
        lemma_centroid_in_frame(local);
        assert(n * FRAME_LIMIT <= 0xffff_ffff_ffff_ffff * FRAME_LIMIT) by (nonlinear_arith)
            requires
                n <= 0xffff_ffff_ffff_ffff,
        ;
    }
    let cx: i128 = floor_div(sum_x, n as i128);
    let cy: i128 = floor_div(sum_y, n as i128);
    Pt2D::new(cx as i64, cy as i64)
}

impl Model {
    /// The model that the records of `raw` give under `bounds`: intersections
    /// and buildings at the places of their records, and a road with the
    /// default lanes between the intersections under each road record's
    /// first and last point. Nothing is made of a map with a record that
    /// cannot be placed.
    pub fn import_within(raw: &RawMap, bounds: &GPSBounds) -> (r: Result<Model, ImportError>)
        ensures
            raw@.import_outcome(bounds@, outcome_of(r)),
            r matches Ok(m) ==> m.wf(),
    {
        let ghost v = raw@;
        let ghost b = bounds@;
        let mut index: BTreeMap<(i64, i64), usize> = BTreeMap::new();
        let mut intersections: Vec<(IntersectionID, Intersection)> = Vec::new();
        let ghost mut centers: Seq<Point> = Seq::empty();
        let mut i: usize = 0;
        while i < raw.intersections.len()
            invariant
                i <= raw.intersections.len(),
                v == raw@,
                b == bounds@,
                centers.len() == i,
                intersections@.len() == i,
                forall|k: int| 0 <= k < i ==> v.intersection_ok(b, k),
                forall|k: int| 0 <= k < i ==> #[trigger] centers[k] == v.center(b, k),
                intersections@.map_values(|e: (IntersectionID, Intersection)| (e.0, e.1@))
                    == Seq::new(i as nat, |k: int| (k as usize, v.imported_intersection(b, k))),
                forall|x: i64, y: i64| #[trigger]
                    index@.contains_key((x, y)) ==> {
                        &&& index@[(x, y)] < i
                        &&& centers[index@[(x, y)] as int] == (Point { x: x as int, y: y as int })
                        &&& forall|j: int|
                            index@[(x, y)] < j < i ==> #[trigger] centers[j] != (Point {
                                x: x as int,
                                y: y as int,
                            })
                    },
                forall|k: int|
                    0 <= k < i ==> index@.contains_key(
                        ((#[trigger] centers[k]).x as i64, centers[k].y as i64),
                    ),
            decreases raw.intersections.len() - i,
        {
            let record = &raw.intersections[i];
            assert(v.intersections[i as int] == record@);
            let center = match record.point.to_pt(bounds) {
                Ok(p) => p,
                Err(_) => {
                    return Err(ImportError::BadIntersection(i));
                },
            };
            let ghost before = index@;
            let ghost entries = intersections@;
            put_point(&mut index, (center.x(), center.y()), i);
            intersections.push(
                (
                    i,
                    Intersection {
                        center,
                        intersection_type: record.intersection_type,
                        label: copy_label(&record.label),
                    },
                ),
            );
            proof {
                centers = centers.push(center@);
                let was = entries.map_values(|e: (IntersectionID, Intersection)| (e.0, e.1@));
                let now = intersections@.map_values(
                    |e: (IntersectionID, Intersection)| (e.0, e.1@),
                );
                let goal = Seq::new(
                    (i + 1) as nat,
                    |k: int| (k as usize, v.imported_intersection(b, k)),
                );
                assert forall|k: int| 0 <= k < i + 1 implies now[k] == goal[k] by {
                    if k < i {
                        assert(intersections@[k] == entries[k]);
                        assert(now[k] == was[k]);
                    }
                }
                assert(now =~= goal);
                assert forall|x: i64, y: i64| #[trigger] index@.contains_key((x, y)) implies {
                    &&& index@[(x, y)] < i + 1
                    &&& centers[index@[(x, y)] as int] == (Point { x: x as int, y: y as int })
                    &&& forall|j: int|
                        index@[(x, y)] < j < i + 1 ==> #[trigger] centers[j] != (Point {
                            x: x as int,
                            y: y as int,
                        })
                } by {
                    if x == center@.x && y == center@.y {
                    } else {
                        assert(before.contains_key((x, y)));
                    }
                }
            }
            i = i + 1;
        }
        let n_i = raw.intersections.len();
        let mut roads: Vec<(RoadID, Road)> = Vec::new();
        let mut k: usize = 0;
        while k < raw.roads.len()
            invariant
                k <= raw.roads.len(),
                v == raw@,
                b == bounds@,
                n_i == raw.intersections.len(),
                centers.len() == n_i,
                roads@.len() == k,
                forall|k: int| 0 <= k < n_i ==> v.intersection_ok(b, k),
                forall|k: int| 0 <= k < n_i ==> #[trigger] centers[k] == v.center(b, k),
                forall|x: i64, y: i64| #[trigger]
                    index@.contains_key((x, y)) ==> {
                        &&& index@[(x, y)] < n_i
                        &&& centers[index@[(x, y)] as int] == (Point { x: x as int, y: y as int })
                        &&& forall|j: int|
                            index@[(x, y)] < j < n_i ==> #[trigger] centers[j] != (Point {
                                x: x as int,
                                y: y as int,
                            })
                    },
                forall|k: int|
                    0 <= k < n_i ==> index@.contains_key(
                        ((#[trigger] centers[k]).x as i64, centers[k].y as i64),
                    ),
                forall|j: int| 0 <= j < k ==> v.road_ok(b, j),
                roads@.map_values(|e: (RoadID, Road)| (e.0, e.1@)) == Seq::new(
                    k as nat,
                    |j: int| v.imported_road(b, j),
                ),
            decreases raw.roads.len() - k,
        {
            let record = &raw.roads[k];
            assert(v.roads[k as int] == record@);
            let n: usize = record.points.len();
            if n == 0 {
                return Err(ImportError::BadRoad(k));
            }
            let ghost g1 = record@.points[0];
            let ghost g2 = record@.points[n - 1];
            assert(g1 == record.points@[0]@);
            assert(g2 == record.points@[n - 1]@);
            let first = match record.points[0].to_pt(bounds) {
                Ok(p) => p,
                Err(_) => {
                    return Err(ImportError::BadRoad(k));
                },
            };
            let last = match record.points[n - 1].to_pt(bounds) {
                Ok(p) => p,
                Err(_) => {
                    return Err(ImportError::BadRoad(k));
                },
            };
            let i1 = match lookup_point(&index, (first.x(), first.y())) {
                Some(id) => id,
                None => {
                    proof {
                        if v.end_ok(b, g1) {
                            let at = choose|at: int| v.intersection_at(b, first@, at);
                            assert(centers[at] == first@);
                        }
                    }
                    return Err(ImportError::BadRoad(k));
                },
            };
            let i2 = match lookup_point(&index, (last.x(), last.y())) {
                Some(id) => id,
                None => {
                    proof {
                        if v.end_ok(b, g2) {
                            let at = choose|at: int| v.intersection_at(b, last@, at);
                            assert(centers[at] == last@);
                        }
                    }
                    return Err(ImportError::BadRoad(k));
                },
            };
            proof {
                assert(v.intersection_at(b, first@, i1 as int)) by {
                    assert(centers[i1 as int] == first@);
                    assert forall|j: int| i1 < j < v.intersections.len() implies !(
                    v.intersection_ok(b, j) && #[trigger] v.center(b, j) == first@) by {
                        assert(centers[j] != first@);
                    }
                }
                assert(v.intersection_at(b, last@, i2 as int)) by {
                    assert(centers[i2 as int] == last@);
                    assert forall|j: int| i2 < j < v.intersections.len() implies !(
                    v.intersection_ok(b, j) && #[trigger] v.center(b, j) == last@) by {
                        assert(centers[j] != last@);
                    }
                }
                v.lemma_one_intersection_at(b, first@, i1 as int, v.end_of(b, g1));
                v.lemma_one_intersection_at(b, last@, i2 as int, v.end_of(b, g2));
                assert(v.road_ok(b, k as int));
            }
            let id: RoadID = if i1 < i2 {
                (i1, i2)
            } else {
                (i2, i1)
            };
            let ghost entries = roads@;
            roads.push(
                (
                    id,
                    Road {
                        i1,
                        i2,
                        lanes: RoadSpec::default_lanes(),
                        fwd_label: None,
                        back_label: None,
                    },
                ),
            );
            proof {
                let was = entries.map_values(|e: (RoadID, Road)| (e.0, e.1@));
                let now = roads@.map_values(|e: (RoadID, Road)| (e.0, e.1@));
                let goal = Seq::new((k + 1) as nat, |j: int| v.imported_road(b, j));
                assert forall|j: int| 0 <= j < k + 1 implies now[j] == goal[j] by {
                    if j < k {
                        assert(roads@[j] == entries[j]);
                        assert(now[j] == was[j]);
                    }
                }
                assert(now =~= goal);
            }
            k = k + 1;
        }
        let mut buildings: Vec<(BuildingID, Building)> = Vec::new();
        let mut h: usize = 0;
        while h < raw.buildings.len()
            invariant
                h <= raw.buildings.len(),
                v == raw@,
                b == bounds@,
                buildings@.len() == h,
                forall|k: int| 0 <= k < raw.intersections.len() ==> v.intersection_ok(b, k),
                forall|j: int| 0 <= j < raw.roads.len() ==> v.road_ok(b, j),
                forall|j: int| 0 <= j < h ==> v.building_ok(b, j),
                buildings@.map_values(|e: (BuildingID, Building)| (e.0, e.1@)) == Seq::new(
                    h as nat,
                    |j: int| (j as usize, v.imported_building(b, j)),
                ),
            decreases raw.buildings.len() - h,
        {
            let record = &raw.buildings[h];
            assert(v.buildings[h as int] == record@);
            let center = match building_center(&record.points, bounds) {
                Some(p) => p,
                None => {
                    return Err(ImportError::BadBuilding(h));
                },
            };
            assert(v.building_ok(b, h as int));
            assert(center@ == centroid(v.outline(b, h as int))) by {
                assert(v.outline(b, h as int) =~= Seq::new(
                    record.points@.len(),
                    |j: int| to_local(b, positions_of(record.points@)[j])->Ok_0,
                ));
            }
            let ghost entries = buildings@;
            buildings.push((h, Building { label: None, center }));
            proof {
                let was = entries.map_values(|e: (BuildingID, Building)| (e.0, e.1@));
                let now = buildings@.map_values(|e: (BuildingID, Building)| (e.0, e.1@));
                let goal = Seq::new(
                    (h + 1) as nat,
                    |j: int| (j as usize, v.imported_building(b, j)),
                );
                assert forall|j: int| 0 <= j < h + 1 implies now[j] == goal[j] by {
                    if j < h {
                        assert(buildings@[j] == entries[j]);
                        assert(now[j] == was[j]);
                    }
                }
                assert(now =~= goal);
            }
            h = h + 1;
        }
        let snap = ModelSnapshot { name: None, intersections, roads, buildings };
        proof {
            let s = snap@;
            assert(s.restored() == v.imported(b));
            lemma_filed(s.intersections);
            lemma_filed(s.roads);
            lemma_filed(s.buildings);
            let m = s.restored();
            assert forall|id: RoadID| #[trigger] m.roads.contains_key(id) implies {
                &&& m.intersections.contains_key(m.roads[id].i1)
                &&& m.intersections.contains_key(m.roads[id].i2)
                &&& id == road_id(m.roads[id].i1, m.roads[id].i2)
            } by {
                let at = choose|at: int|
                    0 <= at < s.roads.len() && s.roads[at].0 == id && s.roads[at].1 == m.roads[id];
                assert(v.road_ok(b, at));
                let pts = v.roads[at].points;
                let e1 = v.end_of(b, pts[0]);
                let e2 = v.end_of(b, pts.last());
                assert(v.intersection_at(b, to_local(b, pts[0])->Ok_0, e1));
                assert(v.intersection_at(b, to_local(b, pts.last())->Ok_0, e2));
                assert(s.intersections[e1].0 == e1);
                assert(s.intersections[e2].0 == e2);
            }
            assert(m.wf());
        }
        match Model::load(&snap) {
            Ok(m) => Ok(m),
            // Every road ends at intersections filed above: the load cannot fail.
            Err(_) => Err(ImportError::BadRoad(0)),
        }
    }
}

impl RawMapView {
    /// One box at most is the least around the map's positions.
    pub proof fn lemma_one_box(self, a: Bounds, b: Bounds)
        requires
            self.boxed_by(a),
            self.boxed_by(b),
        ensures
            a.min_lon == b.min_lon,
            a.max_lon == b.max_lon,
            a.min_lat == b.min_lat,
            a.max_lat == b.max_lat,
    {
        if exists|g: Position| self.has_point(g) {
            let g1 = choose|g: Position| self.has_point(g) && g.lon == a.min_lon;
            let g2 = choose|g: Position| self.has_point(g) && g.lon == b.min_lon;
            assert(b.contains(g1) && a.contains(g2));
            let g3 = choose|g: Position| self.has_point(g) && g.lon == a.max_lon;
            let g4 = choose|g: Position| self.has_point(g) && g.lon == b.max_lon;
            assert(b.contains(g3) && a.contains(g4));
            let g5 = choose|g: Position| self.has_point(g) && g.lat == a.min_lat;
            let g6 = choose|g: Position| self.has_point(g) && g.lat == b.min_lat;
            assert(b.contains(g5) && a.contains(g6));
            let g7 = choose|g: Position| self.has_point(g) && g.lat == a.max_lat;
            let g8 = choose|g: Position| self.has_point(g) && g.lat == b.max_lat;
            assert(b.contains(g7) && a.contains(g8));
        }
    }

    /// Whether `b` is the bounds that an import of this map works under: the
    /// least box around its positions, laid under the frame that reaches to
    /// `max_world_pt`.
    pub open spec fn framed_by(self, b: Bounds, max_world_pt: Point) -> bool {
        &&& self.boxed_by(b)
        &&& b.width == max_world_pt.x
        &&& b.height == max_world_pt.y
        &&& b.world_space == self.world_space
    }
}

impl Model {
    /// The model that the records of `raw` give, with the least box around
    /// the positions of `raw` laid under the local frame that reaches from
    /// the origin to `max_world_pt`. See [`Model::import_within`].
    pub fn import(raw: &RawMap, max_world_pt: Pt2D) -> (r: Result<Model, ImportError>)
        ensures
            r matches Ok(m) ==> m.wf(),
            r == Err::<Model, ImportError>(ImportError::BadFrame) <==> (max_world_pt@.x < 0
                || max_world_pt@.y < 0),
            forall|b: Bounds| #[trigger]
                raw@.framed_by(b, max_world_pt@) && max_world_pt@.x >= 0 && max_world_pt@.y >= 0
                    ==> raw@.import_outcome(b, outcome_of(r)),
    {
        let bounds = match raw.get_gps_bounds(max_world_pt) {
            Some(bounds) => bounds,
            None => {
                return Err(ImportError::BadFrame);
            },
        };
        let r = Model::import_within(raw, &bounds);
        proof {
            assert forall|b: Bounds| #[trigger]
                raw@.framed_by(b, max_world_pt@) implies raw@.import_outcome(b, outcome_of(r)) by {
                raw@.lemma_one_box(b, bounds@);
                assert(b == bounds@);
            }
        }
        r
    }
}

/// Under world-space bounds a point of the frame has the position of the
/// same numbers: what the export writes is what the inverse projection
/// gives.
pub proof fn lemma_world_space_position(b: Bounds, p: Point)
    requires
        b.world_space,
        in_frame(p),
    ensures
        crate::gps::to_gps(b, p) == Ok::<Position, TransformError>(as_position(p)),
        to_local(b, as_position(p)) == Ok::<Point, TransformError>(p),
{
}

} // verus!
