//! What there is to draw of a model.
//!
//! The model names the shapes and says which of them lies under the cursor;
//! colours, fonts and the drawing itself are the affair of whoever shows
//! them.

use vstd::prelude::*;
use crate::geometry::{Circle, Point, Pt2D, Rect};
use crate::lanes::{Lanes, RoadSpec};
use crate::model::{
    copy_label, text, BuildingID, Direction, IntersectionID, IntersectionType, Model, ModelView,
    RoadID, BACKWARDS, BUILDING_LENGTH, FORWARDS, INTERSECTION_RADIUS,
};
use crate::ordered::{ascending, ascending_pairs, lists};

verus! {

/// The width of the line down the middle of a road, in millimetres.
pub const CENTER_LINE_THICKNESS: u32 = 500;

/// A road to draw: its lanes beside the line between its ends, forward
/// lanes on the right of it, and a label for each side that has one.
pub struct DrawnRoad {
    pub id: RoadID,
    pub from: Pt2D,
    pub to: Pt2D,
    pub lanes: RoadSpec,
    pub highlight_fwd: bool,
    pub highlight_back: bool,
    pub fwd_label: Option<String>,
    pub back_label: Option<String>,
}

pub struct DrawnRoadView {
    pub id: RoadID,
    pub from: Point,
    pub to: Point,
    pub lanes: Lanes,
    pub highlight_fwd: bool,
    pub highlight_back: bool,
    pub fwd_label: Option<Seq<char>>,
    pub back_label: Option<Seq<char>>,
}

impl View for DrawnRoad {
    type V = DrawnRoadView;

    open spec fn view(&self) -> DrawnRoadView {
        DrawnRoadView {
            id: self.id,
            from: self.from@,
            to: self.to@,
            lanes: self.lanes@,
            highlight_fwd: self.highlight_fwd,
            highlight_back: self.highlight_back,
            fwd_label: text(self.fwd_label),
            back_label: text(self.back_label),
        }
    }
}

/// An intersection to draw.
pub struct DrawnIntersection {
    pub id: IntersectionID,
    pub circle: Circle,
    pub intersection_type: IntersectionType,
    pub highlighted: bool,
    pub label: Option<String>,
}

pub struct DrawnIntersectionView {
    pub id: IntersectionID,
    pub center: Point,
    pub radius: u32,
    pub kind: IntersectionType,
    pub highlighted: bool,
    pub label: Option<Seq<char>>,
}

impl View for DrawnIntersection {
    type V = DrawnIntersectionView;

    open spec fn view(&self) -> DrawnIntersectionView {
        DrawnIntersectionView {
            id: self.id,
            center: self.circle.center@,
            radius: self.circle.radius,
            kind: self.intersection_type,
            highlighted: self.highlighted,
            label: text(self.label),
        }
    }
}

/// A building to draw.
pub struct DrawnBuilding {
    pub id: BuildingID,
    pub rect: Rect,
    pub highlighted: bool,
    pub label: Option<String>,
}

pub struct DrawnBuildingView {
    pub id: BuildingID,
    pub center: Point,
    pub half_width: u32,
    pub half_height: u32,
    pub highlighted: bool,
    pub label: Option<Seq<char>>,
}

impl View for DrawnBuilding {
    type V = DrawnBuildingView;

    open spec fn view(&self) -> DrawnBuildingView {
        DrawnBuildingView {
            id: self.id,
            center: self.rect.center@,
            half_width: self.rect.half_width,
            half_height: self.rect.half_height,
            highlighted: self.highlighted,
            label: text(self.label),
        }
    }
}

/// All there is to draw, in the order of drawing: the roads, then the
/// intersections, then the buildings, each kind in the order of its ids.
pub struct Drawing {
    /// What lies under the cursor, of each kind.
    pub current_i: Option<IntersectionID>,
    pub current_r: Option<(RoadID, Direction)>,
    pub current_b: Option<BuildingID>,
    pub roads: Vec<DrawnRoad>,
    pub intersections: Vec<DrawnIntersection>,
    pub buildings: Vec<DrawnBuilding>,
}

impl ModelView {
    pub open spec fn drawn_road(self, id: RoadID, current: Option<(RoadID, Direction)>) -> DrawnRoadView {
        let r = self.roads[id];
        DrawnRoadView {
            id,
            from: self.intersections[r.i1].center,
            to: self.intersections[r.i2].center,
            lanes: r.lanes,
            highlight_fwd: current == Some((id, FORWARDS)),
            highlight_back: current == Some((id, BACKWARDS)),
            fwd_label: r.fwd_label,
            back_label: r.back_label,
        }
    }

    pub open spec fn drawn_intersection(self, id: IntersectionID, current: Option<IntersectionID>) -> DrawnIntersectionView {
        let i = self.intersections[id];
        DrawnIntersectionView {
            id,
            center: i.center,
            radius: INTERSECTION_RADIUS,
            kind: i.kind,
            highlighted: current == Some(id),
            label: i.label,
        }
    }

    pub open spec fn drawn_building(self, id: BuildingID, current: Option<BuildingID>) -> DrawnBuildingView {
        let b = self.buildings[id];
        DrawnBuildingView {
            id,
            center: b.center,
            half_width: (BUILDING_LENGTH / 2) as u32,
            half_height: (BUILDING_LENGTH / 2) as u32,
            highlighted: current == Some(id),
            label: b.label,
        }
    }
}

impl Drawing {
    /// Whether this is the drawing of `v` with the cursor at `cursor`: one
    /// shape for each entity, in the order of ids, with the first entity of
    /// each kind under the cursor highlighted.
    pub open spec fn shows(&self, v: ModelView, cursor: Option<Point>) -> bool {
        &&& match cursor {
            Some(p) => {
                &&& v.intersection_under(p, self.current_i)
                &&& v.road_under(p, self.current_r)
                &&& v.building_under(p, self.current_b)
            },
            None => self.current_i is None && self.current_r is None && self.current_b is None,
        }
        &&& lists(self.roads@.map_values(|r: DrawnRoad| r.id), v.roads.dom())
        &&& ascending_pairs(self.roads@.map_values(|r: DrawnRoad| r.id))
        &&& forall|k: int|
            0 <= k < self.roads@.len() ==> (#[trigger] self.roads@[k])@ == v.drawn_road(
                self.roads@[k].id,
                self.current_r,
            )
        &&& lists(self.intersections@.map_values(|i: DrawnIntersection| i.id), v.intersections.dom())
        &&& ascending(self.intersections@.map_values(|i: DrawnIntersection| i.id))
        &&& forall|k: int|
            0 <= k < self.intersections@.len() ==> (#[trigger] self.intersections@[k])@
                == v.drawn_intersection(self.intersections@[k].id, self.current_i)
        &&& lists(self.buildings@.map_values(|b: DrawnBuilding| b.id), v.buildings.dom())
        &&& ascending(self.buildings@.map_values(|b: DrawnBuilding| b.id))
        &&& forall|k: int|
            0 <= k < self.buildings@.len() ==> (#[trigger] self.buildings@[k])@
                == v.drawn_building(self.buildings@[k].id, self.current_b)
    }
}

impl Model {
    /// What there is to draw of the model, with the cursor at `cursor` or
    /// nowhere.
    pub fn draw(&self, cursor: Option<Pt2D>) -> (d: Drawing)
        requires
            self.wf(),
        ensures
            d.shows(
                self@,
                match cursor {
                    Some(c) => Some(c@),
                    None => None,
                },
            ),
    {
        let ghost v = self@;
        let current_i = match cursor {
            Some(c) => self.mouseover_intersection(c),
            None => None,
        };
        let current_b = match cursor {
            Some(c) => self.mouseover_building(c),
            None => None,
        };
        let current_r = match cursor {
            Some(c) => self.mouseover_road(c),
            None => None,
        };
        let r_ids = self.road_ids();
        let mut roads: Vec<DrawnRoad> = Vec::new();
        let mut i: usize = 0;
        while i < r_ids.len()
            invariant
                i <= r_ids.len(),
                v == self@,
                v.wf(),
                lists(r_ids@, v.roads.dom()),
                roads@.len() == i,
                forall|k: int| 0 <= k < i ==> (#[trigger] roads@[k]).id == r_ids@[k],
                forall|k: int|
                    0 <= k < i ==> (#[trigger] roads@[k])@ == v.drawn_road(r_ids@[k], current_r),
            decreases r_ids.len() - i,
        {
            let id = r_ids[i];
            assert(r_ids@.contains(id));
            assert(v.roads.contains_key(id));
            let road = self.get_r(id);
            let from = match road {
                Some(road) => self.get_i(road.i1),
                None => None,
            };
            let to = match road {
                Some(road) => self.get_i(road.i2),
                None => None,
            };
            match (road, from, to) {
                (Some(road), Some(from), Some(to)) => {
                    let highlight_fwd = match current_r {
                        Some((at, side)) => at.0 == id.0 && at.1 == id.1 && side == FORWARDS,
                        None => false,
                    };
                    let highlight_back = match current_r {
                        Some((at, side)) => at.0 == id.0 && at.1 == id.1 && side == BACKWARDS,
                        None => false,
                    };
                    roads.push(
                        DrawnRoad {
                            id,
                            from: from.center,
                            to: to.center,
                            lanes: road.lanes.duplicate(),
                            highlight_fwd,
                            highlight_back,
                            fwd_label: copy_label(&road.fwd_label),
                            back_label: copy_label(&road.back_label),
                        },
                    );
                },
                _ => {},
            }
            i = i + 1;
        }
        let i_ids = self.intersection_ids();
        let mut intersections: Vec<DrawnIntersection> = Vec::new();
        let mut j: usize = 0;
        while j < i_ids.len()
            invariant
                j <= i_ids.len(),
                v == self@,
                lists(i_ids@, v.intersections.dom()),
                intersections@.len() == j,
                forall|k: int| 0 <= k < j ==> (#[trigger] intersections@[k]).id == i_ids@[k],
                forall|k: int|
                    0 <= k < j ==> (#[trigger] intersections@[k])@ == v.drawn_intersection(
                        i_ids@[k],
                        current_i,
                    ),
            decreases i_ids.len() - j,
        {
            let id = i_ids[j];
            assert(i_ids@.contains(id));
            match self.get_i(id) {
                Some(x) => {
                    let highlighted = match current_i {
                        Some(at) => at == id,
                        None => false,
                    };
                    intersections.push(
                        DrawnIntersection {
                            id,
                            circle: x.circle(),
                            intersection_type: x.intersection_type,
                            highlighted,
                            label: copy_label(&x.label),
                        },
                    );
                },
                None => {},
            }
            j = j + 1;
        }
        let b_ids = self.building_ids();
        let mut buildings: Vec<DrawnBuilding> = Vec::new();
        let mut h: usize = 0;
        while h < b_ids.len()
            invariant
                h <= b_ids.len(),
                v == self@,
                lists(b_ids@, v.buildings.dom()),
                buildings@.len() == h,
                forall|k: int| 0 <= k < h ==> (#[trigger] buildings@[k]).id == b_ids@[k],
                forall|k: int|
                    0 <= k < h ==> (#[trigger] buildings@[k])@ == v.drawn_building(
                        b_ids@[k],
                        current_b,
                    ),
            decreases b_ids.len() - h,
        {
            let id = b_ids[h];
            assert(b_ids@.contains(id));
            match self.get_b(id) {
                Some(x) => {
                    let highlighted = match current_b {
                        Some(at) => at == id,
                        None => false,
                    };
                    buildings.push(
                        DrawnBuilding {
                            id,
                            rect: x.polygon(),
                            highlighted,
                            label: copy_label(&x.label),
                        },
                    );
                },
                None => {},
            }
            h = h + 1;
        }
        let d = Drawing { current_i, current_r, current_b, roads, intersections, buildings };
        proof {
            assert(d.roads@.map_values(|r: DrawnRoad| r.id) =~= r_ids@);
            assert(d.intersections@.map_values(|i: DrawnIntersection| i.id) =~= i_ids@);
            assert(d.buildings@.map_values(|b: DrawnBuilding| b.id) =~= b_ids@);
        }
        d
    }
}

} // verus!
