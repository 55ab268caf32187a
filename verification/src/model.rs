//! The editable road network: intersections, the roads between them, and
//! buildings.
//!
//! Intersections and buildings are numbered by the size of their collection
//! when they were made. A road is known by the pair of its intersections,
//! smaller id first, so that two intersections are joined by one road at
//! most. No road outlives an intersection it ends at.

use std::collections::BTreeMap;
use vstd::prelude::*;
use crate::geometry::{
    circle_contains, rect_contains, strip_contains, Circle, Point, Pt2D, Rect, Strip,
};
use crate::lanes::{decode, default_lanes, encode, Lanes, RoadSpec};
use crate::ordered::{
    ascending, ascending_pairs, count, filed, ids, lemma_filed, lemma_filed_listing, lists,
    lookup, lookup_pair, pair_ids, pair_lt, put, put_pair, take, take_pair,
};
use vstd::string::StringExecFns;

verus! {

pub type BuildingID = usize;

pub type IntersectionID = usize;

pub type RoadID = (IntersectionID, IntersectionID);

pub type Direction = bool;

pub const FORWARDS: Direction = true;

pub const BACKWARDS: Direction = false;

/// The radius within which a point hits an intersection, in millimetres.
pub const INTERSECTION_RADIUS: u32 = 10_000;

/// The side of the square that a building covers, in millimetres.
pub const BUILDING_LENGTH: u32 = 30_000;

/// The width of one lane, in millimetres.
pub const LANE_THICKNESS: u32 = 2_500;

#[derive(Clone, Copy, Debug, PartialEq, Eq, Structural)]
pub enum IntersectionType {
    StopSign,
    TrafficSignal,
    Border,
}

/// Why the model refused an operation. The model is unchanged then.
#[derive(Clone, Copy, Debug, PartialEq, Eq, Structural)]
pub enum ModelError {
    /// Nothing is known under the id that was given.
    EntityNotFound,
    /// The two intersections are joined by a road already.
    AlreadyExists,
    /// A road still ends at the intersection.
    ReferentialIntegrityViolation,
    /// The text describes no lanes.
    LaneSpecParseError,
    /// The model has no name to derive a file's path from.
    Unnamed,
}

/// What a label says, if there is one.
pub open spec fn text(label: Option<String>) -> Option<Seq<char>> {
    match label {
        Some(s) => Some(s@),
        None => None,
    }
}

pub struct IntersectionView {
    pub center: Point,
    pub kind: IntersectionType,
    pub label: Option<Seq<char>>,
}

pub struct RoadView {
    pub i1: IntersectionID,
    pub i2: IntersectionID,
    pub lanes: Lanes,
    pub fwd_label: Option<Seq<char>>,
    pub back_label: Option<Seq<char>>,
}

pub struct BuildingView {
    pub center: Point,
    pub label: Option<Seq<char>>,
}

/// The model as specifications see it.
pub struct ModelView {
    pub name: Option<Seq<char>>,
    pub intersections: Map<IntersectionID, IntersectionView>,
    pub roads: Map<RoadID, RoadView>,
    pub buildings: Map<BuildingID, BuildingView>,
}

/// The id of the road between `i1` and `i2`, whichever is named first.
pub open spec fn road_id(i1: IntersectionID, i2: IntersectionID) -> RoadID {
    if i1 < i2 {
        (i1, i2)
    } else {
        (i2, i1)
    }
}

/// Whether the road `id` ends at the intersection `i`.
pub open spec fn touches(id: RoadID, i: IntersectionID) -> bool {
    id.0 == i || id.1 == i
}

/// An intersection as it is made: a stop sign without a label.
pub open spec fn new_intersection(center: Point) -> IntersectionView {
    IntersectionView { center, kind: IntersectionType::StopSign, label: None }
}

/// A road as it is made: from `i1` to `i2`, with the default lanes and no
/// labels.
pub open spec fn new_road(i1: IntersectionID, i2: IntersectionID) -> RoadView {
    RoadView { i1, i2, lanes: default_lanes(), fwd_label: None, back_label: None }
}

pub open spec fn new_building(center: Point) -> BuildingView {
    BuildingView { center, label: None }
}

/// The type that follows `kind` when an intersection is toggled. Only an
/// intersection at the end of exactly one road can become a border.
pub open spec fn toggled(kind: IntersectionType, one_road: bool) -> IntersectionType {
    match kind {
        IntersectionType::StopSign => IntersectionType::TrafficSignal,
        IntersectionType::TrafficSignal => if one_road {
            IntersectionType::Border
        } else {
            IntersectionType::StopSign
        },
        IntersectionType::Border => IntersectionType::StopSign,
    }
}

impl ModelView {
    /// Every road ends at two intersections of the model and is filed under
    /// the pair of their ids; the three collections are finite.
    pub open spec fn wf(self) -> bool {
        &&& self.intersections.dom().finite()
        &&& self.roads.dom().finite()
        &&& self.buildings.dom().finite()
        &&& forall|id: RoadID| #[trigger]
            self.roads.contains_key(id) ==> {
                &&& self.intersections.contains_key(self.roads[id].i1)
                &&& self.intersections.contains_key(self.roads[id].i2)
                &&& id == road_id(self.roads[id].i1, self.roads[id].i2)
            }
    }

    pub open spec fn empty() -> ModelView {
        ModelView {
            name: None,
            intersections: Map::empty(),
            roads: Map::empty(),
            buildings: Map::empty(),
        }
    }

    pub open spec fn with_intersection(self, id: IntersectionID, i: IntersectionView) -> ModelView {
        ModelView { intersections: self.intersections.insert(id, i), ..self }
    }

    pub open spec fn without_intersection(self, id: IntersectionID) -> ModelView {
        ModelView { intersections: self.intersections.remove(id), ..self }
    }

    pub open spec fn with_road(self, id: RoadID, r: RoadView) -> ModelView {
        ModelView { roads: self.roads.insert(id, r), ..self }
    }

    pub open spec fn without_road(self, id: RoadID) -> ModelView {
        ModelView { roads: self.roads.remove(id), ..self }
    }

    pub open spec fn with_building(self, id: BuildingID, b: BuildingView) -> ModelView {
        ModelView { buildings: self.buildings.insert(id, b), ..self }
    }

    pub open spec fn without_building(self, id: BuildingID) -> ModelView {
        ModelView { buildings: self.buildings.remove(id), ..self }
    }

    /// Whether some road ends at the intersection `i`.
    pub open spec fn in_use(self, i: IntersectionID) -> bool {
        exists|id: RoadID| #[trigger] self.roads.contains_key(id) && touches(id, i)
    }

    /// Whether exactly one road ends at the intersection `i`.
    pub open spec fn one_road_at(self, i: IntersectionID) -> bool {
        exists|id: RoadID|
            {
                &&& #[trigger] self.roads.contains_key(id)
                &&& touches(id, i)
                &&& forall|other: RoadID| #[trigger]
                    self.roads.contains_key(other) && touches(other, i) ==> other == id
            }
    }

    /// Whether `p` hits the intersection `id`.
    pub open spec fn hits_intersection(self, id: IntersectionID, p: Point) -> bool {
        &&& self.intersections.contains_key(id)
        &&& circle_contains(self.intersections[id].center, INTERSECTION_RADIUS as int, p)
    }

    /// Whether `p` hits the building `id`.
    pub open spec fn hits_building(self, id: BuildingID, p: Point) -> bool {
        &&& self.buildings.contains_key(id)
        &&& rect_contains(
            self.buildings[id].center,
            BUILDING_LENGTH as int / 2,
            BUILDING_LENGTH as int / 2,
            p,
        )
    }

    /// The lanes of the road `id` that run in `direction`.
    pub open spec fn lanes_towards(self, id: RoadID, direction: Direction) -> Seq<
        crate::lanes::LaneType,
    > {
        if direction {
            self.roads[id].lanes.fwd
        } else {
            self.roads[id].lanes.back
        }
    }

    /// Whether `p` hits the side of the road `id` that runs in `direction`:
    /// the band beside the line from the road's first intersection to its
    /// second, as wide as that direction's lanes, on the side of positive
    /// cross product for the forward direction.
    pub open spec fn hits_road(self, id: RoadID, direction: Direction, p: Point) -> bool {
        &&& self.roads.contains_key(id)
        &&& strip_contains(
            self.intersections[self.roads[id].i1].center,
            self.intersections[self.roads[id].i2].center,
            LANE_THICKNESS as int * self.lanes_towards(id, direction).len(),
            direction,
            p,
        )
    }
}

impl ModelView {
    /// Whether `r` is the first intersection, in the order of ids, that `p`
    /// hits, or nothing where it hits none.
    pub open spec fn intersection_under(self, p: Point, r: Option<IntersectionID>) -> bool {
        match r {
            Some(id) => {
                &&& self.hits_intersection(id, p)
                &&& forall|j: IntersectionID| j < id ==> !self.hits_intersection(j, p)
            },
            None => forall|j: IntersectionID| !self.hits_intersection(j, p),
        }
    }

    /// Whether `r` is the first road, in the order of ids, that `p` hits,
    /// with the side that is hit (the forward one where both are), or
    /// nothing where it hits none.
    pub open spec fn road_under(self, p: Point, r: Option<(RoadID, Direction)>) -> bool {
        match r {
            Some((id, direction)) => {
                &&& self.hits_road(id, direction, p)
                &&& direction == BACKWARDS ==> !self.hits_road(id, FORWARDS, p)
                &&& forall|other: RoadID, d: Direction|
                    pair_lt(other, id) ==> !self.hits_road(other, d, p)
            },
            None => forall|other: RoadID, d: Direction| !self.hits_road(other, d, p),
        }
    }

    /// Whether `r` is the first building, in the order of ids, that `p`
    /// hits, or nothing where it hits none.
    pub open spec fn building_under(self, p: Point, r: Option<BuildingID>) -> bool {
        match r {
            Some(id) => {
                &&& self.hits_building(id, p)
                &&& forall|j: BuildingID| j < id ==> !self.hits_building(j, p)
            },
            None => forall|j: BuildingID| !self.hits_building(j, p),
        }
    }
}

pub struct Intersection {
    pub center: Pt2D,
    pub intersection_type: IntersectionType,
    pub label: Option<String>,
}

impl View for Intersection {
    type V = IntersectionView;

    open spec fn view(&self) -> IntersectionView {
        IntersectionView {
            center: self.center@,
            kind: self.intersection_type,
            label: text(self.label),
        }
    }
}

impl Intersection {
    pub fn circle(&self) -> (c: Circle)
        ensures
            c.center@ == self@.center,
            c.radius == INTERSECTION_RADIUS,
    {
        Circle::new(self.center, INTERSECTION_RADIUS)
    }
}

pub struct Road {
    pub i1: IntersectionID,
    pub i2: IntersectionID,
    pub lanes: RoadSpec,
    pub fwd_label: Option<String>,
    pub back_label: Option<String>,
}

impl View for Road {
    type V = RoadView;

    open spec fn view(&self) -> RoadView {
        RoadView {
            i1: self.i1,
            i2: self.i2,
            lanes: self.lanes@,
            fwd_label: text(self.fwd_label),
            back_label: text(self.back_label),
        }
    }
}

pub struct Building {
    pub label: Option<String>,
    pub center: Pt2D,
}

impl View for Building {
    type V = BuildingView;

    open spec fn view(&self) -> BuildingView {
        BuildingView { center: self.center@, label: text(self.label) }
    }
}

impl Building {
    pub fn polygon(&self) -> (r: Rect)
        ensures
            r.center@ == self@.center,
            r.half_width == BUILDING_LENGTH / 2,
            r.half_height == BUILDING_LENGTH / 2,
    {
        Rect::rectangle(self.center, BUILDING_LENGTH, BUILDING_LENGTH)
    }
}

pub struct Model {
    pub name: Option<String>,
    intersections: BTreeMap<IntersectionID, Intersection>,
    roads: BTreeMap<RoadID, Road>,
    buildings: BTreeMap<BuildingID, Building>,
}

impl View for Model {
    type V = ModelView;

    closed spec fn view(&self) -> ModelView {
        ModelView {
            name: text(self.name),
            intersections: self.intersections@.map_values(|i: Intersection| i@),
            roads: self.roads@.map_values(|r: Road| r@),
            buildings: self.buildings@.map_values(|b: Building| b@),
        }
    }
}

/// A copy of a label.
pub fn copy_label(label: &Option<String>) -> (r: Option<String>)
    ensures
        text(r) == text(*label),
{
    match label {
        Some(s) => Some(s.clone()),
        None => None,
    }
}

impl Model {
    /// Whether the model keeps its rules; every operation preserves this.
    pub open spec fn wf(&self) -> bool {
        self@.wf()
    }

    pub fn new() -> (m: Model)
        ensures
            m@ == ModelView::empty(),
            m.wf(),
    {
        let m = Model {
            name: None,
            intersections: BTreeMap::new(),
            roads: BTreeMap::new(),
            buildings: BTreeMap::new(),
        };
        assert(m@.intersections =~= Map::empty());
        assert(m@.roads =~= Map::empty());
        assert(m@.buildings =~= Map::empty());
        m
    }
}

// Intersections
impl Model {
    /// Makes an intersection at `center` and returns its id, which is the
    /// number of intersections there were. Where removals have left an
    /// intersection under that id, the new one takes its place.
    pub fn create_i(&mut self, center: Pt2D) -> (id: IntersectionID)
        requires
            old(self).wf(),
        ensures
            id == old(self)@.intersections.len(),
            final(self)@ == old(self)@.with_intersection(id, new_intersection(center@)),
            final(self).wf(),
    {
        let id: usize = count(&self.intersections);
        let i = Intersection { center, intersection_type: IntersectionType::StopSign, label: None };
        put(&mut self.intersections, id, i);
        proof {
            assert(old(self)@.intersections.dom() =~= old(self).intersections@.dom());
            assert(self@.intersections =~= old(self)@.intersections.insert(
                id,
                new_intersection(center@),
            ));
        }
        id
    }

    pub fn move_i(&mut self, id: IntersectionID, center: Pt2D) -> (r: Result<(), ModelError>)
        requires
            old(self).wf(),
        ensures
            final(self).wf(),
            match r {
                Ok(()) => {
                    &&& old(self)@.intersections.contains_key(id)
                    &&& final(self)@ == old(self)@.with_intersection(
                        id,
                        IntersectionView { center: center@, ..old(self)@.intersections[id] },
                    )
                },
                Err(e) => {
                    &&& e == ModelError::EntityNotFound
                    &&& !old(self)@.intersections.contains_key(id)
                    &&& final(self)@ == old(self)@
                },
            },
    {
        match take(&mut self.intersections, id) {
            Some(i) => {
                let moved = Intersection {
                    center,
                    intersection_type: i.intersection_type,
                    label: i.label,
                };
                put(&mut self.intersections, id, moved);
                proof {
                    assert(self@.intersections =~= old(self)@.intersections.insert(id, moved@));
                }
                Ok(())
            },
            None => {
                proof {
                    assert(self@.intersections =~= old(self)@.intersections);
                }
                Err(ModelError::EntityNotFound)
            },
        }
    }

    pub fn set_i_label(&mut self, id: IntersectionID, label: String) -> (r: Result<
        (),
        ModelError,
    >)
        requires
            old(self).wf(),
        ensures
            final(self).wf(),
            match r {
                Ok(()) => {
                    &&& old(self)@.intersections.contains_key(id)
                    &&& final(self)@ == old(self)@.with_intersection(
                        id,
                        IntersectionView { label: Some(label@), ..old(self)@.intersections[id] },
                    )
                },
                Err(e) => {
                    &&& e == ModelError::EntityNotFound
                    &&& !old(self)@.intersections.contains_key(id)
                    &&& final(self)@ == old(self)@
                },
            },
    {
        match take(&mut self.intersections, id) {
            Some(i) => {
                let labelled = Intersection {
                    center: i.center,
                    intersection_type: i.intersection_type,
                    label: Some(label),
                };
                put(&mut self.intersections, id, labelled);
                proof {
                    assert(self@.intersections =~= old(self)@.intersections.insert(
                        id,
                        labelled@,
                    ));
                }
                Ok(())
            },
            None => {
                proof {
                    assert(self@.intersections =~= old(self)@.intersections);
                }
                Err(ModelError::EntityNotFound)
            },
        }
    }

    pub fn get_i_label(&self, id: IntersectionID) -> (r: Result<Option<String>, ModelError>)
        ensures
            match r {
                Ok(label) => self@.intersections.contains_key(id) && text(label)
                    == self@.intersections[id].label,
                Err(e) => e == ModelError::EntityNotFound && !self@.intersections.contains_key(id),
            },
    {
        match lookup(&self.intersections, id) {
            Some(i) => Ok(copy_label(&i.label)),
            None => Err(ModelError::EntityNotFound),
        }
    }

    pub fn get_i_center(&self, id: IntersectionID) -> (r: Result<Pt2D, ModelError>)
        ensures
            match r {
                Ok(center) => self@.intersections.contains_key(id) && center@
                    == self@.intersections[id].center,
                Err(e) => e == ModelError::EntityNotFound && !self@.intersections.contains_key(id),
            },
    {
        match lookup(&self.intersections, id) {
            Some(i) => Ok(i.center),
            None => Err(ModelError::EntityNotFound),
        }
    }

    pub fn get_i_type(&self, id: IntersectionID) -> (r: Result<IntersectionType, ModelError>)
        ensures
            match r {
                Ok(kind) => self@.intersections.contains_key(id) && kind
                    == self@.intersections[id].kind,
                Err(e) => e == ModelError::EntityNotFound && !self@.intersections.contains_key(id),
            },
    {
        match lookup(&self.intersections, id) {
            Some(i) => Ok(i.intersection_type),
            None => Err(ModelError::EntityNotFound),
        }
    }
}

impl Model {
    /// How many roads end at the intersection `id`: none, one, or (as 2)
    /// more than one.
    fn roads_at(&self, id: IntersectionID) -> (n: usize)
        ensures
            n <= 2,
            n == 0 <==> !self@.in_use(id),
            n == 1 <==> self@.one_road_at(id),
    {
        let keys = pair_ids(&self.roads);
        let ghost v = self@;
        assert(v.roads.dom() =~= self.roads@.dom());
        let mut n: usize = 0;
        let ghost mut first: int = 0;
        let ghost mut second: int = 0;
        let mut i: usize = 0;
        while i < keys.len()
            invariant
                i <= keys.len(),
                n <= 2,
                n == 0 ==> forall|j: int| 0 <= j < i ==> !touches(#[trigger] keys@[j], id),
                n == 1 ==> 0 <= first < i && touches(keys@[first], id) && forall|j: int|
                    0 <= j < i && j != first ==> !touches(#[trigger] keys@[j], id),
                n == 2 ==> 0 <= first < second < i && touches(keys@[first], id) && touches(
                    keys@[second],
                    id,
                ),
            decreases keys.len() - i,
        {
            let k = keys[i];
            if k.0 == id || k.1 == id {
                if n == 0 {
                    n = 1;
                    proof {
                        first = i as int;
                    }
                } else if n == 1 {
                    n = 2;
                    proof {
                        second = i as int;
                    }
                }
            }
            i = i + 1;
        }
        proof {
            if n == 0 {
                assert forall|k: RoadID| #[trigger] v.roads.contains_key(k) implies !touches(
                    k,
                    id,
                ) by {
                    assert(keys@.contains(k));
                }
            }
            if n >= 1 {
                assert(keys@.contains(keys@[first]));
                assert(v.roads.contains_key(keys@[first]) && touches(keys@[first], id));
            }
            if n == 1 {
                assert forall|other: RoadID| #[trigger]
                    v.roads.contains_key(other) && touches(other, id) implies other
                    == keys@[first] by {
                    assert(keys@.contains(other));
                }
            }
            if n == 2 {
                assert(keys@.contains(keys@[second]));
                assert(v.roads.contains_key(keys@[second]) && touches(keys@[second], id));
                assert(pair_lt(keys@[first], keys@[second]));
            }
        }
        n
    }

    /// Moves the intersection to the next type: a stop sign becomes a
    /// traffic signal, a traffic signal becomes a border where exactly one
    /// road ends at it and a stop sign elsewhere, a border becomes a stop
    /// sign.
    pub fn toggle_i_type(&mut self, id: IntersectionID) -> (r: Result<(), ModelError>)
        requires
            old(self).wf(),
        ensures
            final(self).wf(),
            match r {
                Ok(()) => {
                    &&& old(self)@.intersections.contains_key(id)
                    &&& final(self)@ == old(self)@.with_intersection(
                        id,
                        IntersectionView {
                            kind: toggled(
                                old(self)@.intersections[id].kind,
                                old(self)@.one_road_at(id),
                            ),
                            ..old(self)@.intersections[id]
                        },
                    )
                },
                Err(e) => {
                    &&& e == ModelError::EntityNotFound
                    &&& !old(self)@.intersections.contains_key(id)
                    &&& final(self)@ == old(self)@
                },
            },
    {
        let one_road = self.roads_at(id) == 1;
        match take(&mut self.intersections, id) {
            Some(i) => {
                let next = match i.intersection_type {
                    IntersectionType::StopSign => IntersectionType::TrafficSignal,
                    IntersectionType::TrafficSignal => {
                        if one_road {
                            IntersectionType::Border
                        } else {
                            IntersectionType::StopSign
                        }
                    },
                    IntersectionType::Border => IntersectionType::StopSign,
                };
                let changed = Intersection {
                    center: i.center,
                    intersection_type: next,
                    label: i.label,
                };
                put(&mut self.intersections, id, changed);
                proof {
                    assert(self@.intersections =~= old(self)@.intersections.insert(
                        id,
                        changed@,
                    ));
                }
                Ok(())
            },
            None => {
                proof {
                    assert(self@.intersections =~= old(self)@.intersections);
                }
                Err(ModelError::EntityNotFound)
            },
        }
    }

    /// Removes the intersection, unless a road still ends at it.
    pub fn remove_i(&mut self, id: IntersectionID) -> (r: Result<(), ModelError>)
        requires
            old(self).wf(),
        ensures
            final(self).wf(),
            match r {
                Ok(()) => {
                    &&& old(self)@.intersections.contains_key(id)
                    &&& !old(self)@.in_use(id)
                    &&& final(self)@ == old(self)@.without_intersection(id)
                },
                Err(e) => {
                    &&& final(self)@ == old(self)@
                    &&& e == if old(self)@.in_use(id) {
                        ModelError::ReferentialIntegrityViolation
                    } else {
                        ModelError::EntityNotFound
                    }
                    &&& old(self)@.in_use(id) || !old(self)@.intersections.contains_key(id)
                },
            },
    {
        if self.roads_at(id) != 0 {
            return Err(ModelError::ReferentialIntegrityViolation);
        }
        match take(&mut self.intersections, id) {
            Some(_) => {
                proof {
                    assert(self@.intersections =~= old(self)@.intersections.remove(id));
                    assert forall|k: RoadID| #[trigger] self@.roads.contains_key(k) implies {
                        &&& self@.intersections.contains_key(self@.roads[k].i1)
                        &&& self@.intersections.contains_key(self@.roads[k].i2)
                    } by {
                        assert(old(self)@.roads.contains_key(k));
                        assert(!touches(k, id));
                    }
                }
                Ok(())
            },
            None => {
                proof {
                    assert(self@.intersections =~= old(self)@.intersections);
                }
                Err(ModelError::EntityNotFound)
            },
        }
    }

    /// The first intersection, in the order of ids, that `pt` hits.
    pub fn mouseover_intersection(&self, pt: Pt2D) -> (r: Option<IntersectionID>)
        ensures
            self@.intersection_under(pt@, r),
    {
        let keys = ids(&self.intersections);
        let ghost v = self@;
        assert(v.intersections.dom() =~= self.intersections@.dom());
        let mut i: usize = 0;
        while i < keys.len()
            invariant
                i <= keys.len(),
                v == self@,
                ascending(keys@),
                lists(keys@, v.intersections.dom()),
                forall|j: int| 0 <= j < i ==> !v.hits_intersection(#[trigger] keys@[j], pt@),
            decreases keys.len() - i,
        {
            let id = keys[i];
            assert(keys@.contains(id));
            match lookup(&self.intersections, id) {
                Some(x) => {
                    if x.circle().contains_pt(pt) {
                        proof {
                            assert forall|j: IntersectionID| j < id implies !v.hits_intersection(
                                j,
                                pt@,
                            ) by {
                                if v.intersections.contains_key(j) {
                                    assert(keys@.contains(j));
                                    let at = choose|at: int|
                                        0 <= at < keys@.len() && keys@[at] == j;
                                    assert(at < i) by {
                                        if at > i {
                                        }
                                    }
                                }
                            }
                        }
                        return Some(id);
                    }
                },
                None => {},
            }
            i = i + 1;
        }
        proof {
            assert forall|j: IntersectionID| !v.hits_intersection(j, pt@) by {
                if v.intersections.contains_key(j) {
                    assert(keys@.contains(j));
                }
            }
        }
        None
    }
}

// Roads
impl Road {
    /// The band that the lanes of one direction cover: beside the line from
    /// `from`, the centre of the road's first intersection, to `to`, the
    /// centre of its second.
    pub fn polygon(&self, direction: Direction, from: Pt2D, to: Pt2D) -> (r: Strip)
        ensures
            r.from == from,
            r.to == to,
            r.right == direction,
            r.width == LANE_THICKNESS as int * (if direction {
                self@.lanes.fwd.len()
            } else {
                self@.lanes.back.len()
            }),
    {
        let n: usize = if direction {
            self.lanes.fwd.len()
        } else {
            self.lanes.back.len()
        };
        assert(LANE_THICKNESS as int * n <= 2_500 * 0x1_0000_0000_0000_0000) by (nonlinear_arith)
            requires
                LANE_THICKNESS == 2_500,
                n <= 0xffff_ffff_ffff_ffff,
        ;
        Strip { from, to, width: LANE_THICKNESS as u128 * n as u128, right: direction }
    }
}

impl Model {
    /// Joins two intersections by a road with the default lanes, unless one
    /// joins them already. The road runs from `i1` to `i2`.
    pub fn create_road(&mut self, i1: IntersectionID, i2: IntersectionID) -> (r: Result<
        RoadID,
        ModelError,
    >)
        requires
            old(self).wf(),
        ensures
            final(self).wf(),
            match r {
                Ok(id) => {
                    &&& id == road_id(i1, i2)
                    &&& old(self)@.intersections.contains_key(i1)
                    &&& old(self)@.intersections.contains_key(i2)
                    &&& !old(self)@.roads.contains_key(id)
                    &&& final(self)@ == old(self)@.with_road(id, new_road(i1, i2))
                },
                Err(e) => {
                    &&& final(self)@ == old(self)@
                    &&& e == if old(self)@.roads.contains_key(road_id(i1, i2)) {
                        ModelError::AlreadyExists
                    } else {
                        ModelError::EntityNotFound
                    }
                    &&& old(self)@.roads.contains_key(road_id(i1, i2)) || !(
                    old(self)@.intersections.contains_key(i1)
                        && old(self)@.intersections.contains_key(i2))
                },
            },
    {
        let id: RoadID = if i1 < i2 {
            (i1, i2)
        } else {
            (i2, i1)
        };
        if lookup_pair(&self.roads, id).is_some() {
            return Err(ModelError::AlreadyExists);
        }
        if lookup(&self.intersections, i1).is_none() || lookup(&self.intersections, i2).is_none() {
            return Err(ModelError::EntityNotFound);
        }
        let road = Road {
            i1,
            i2,
            lanes: RoadSpec::default_lanes(),
            fwd_label: None,
            back_label: None,
        };
        put_pair(&mut self.roads, id, road);
        proof {
            assert(self@.roads =~= old(self)@.roads.insert(id, new_road(i1, i2)));
        }
        Ok(id)
    }

    /// Gives the road the lanes that `spec` describes.
    pub fn edit_lanes(&mut self, id: RoadID, spec: String) -> (r: Result<(), ModelError>)
        requires
            old(self).wf(),
        ensures
            final(self).wf(),
            match r {
                Ok(()) => {
                    &&& decode(spec@) is Some
                    &&& old(self)@.roads.contains_key(id)
                    &&& final(self)@ == old(self)@.with_road(
                        id,
                        RoadView { lanes: decode(spec@)->0, ..old(self)@.roads[id] },
                    )
                },
                Err(e) => {
                    &&& final(self)@ == old(self)@
                    &&& e == if decode(spec@) is None {
                        ModelError::LaneSpecParseError
                    } else {
                        ModelError::EntityNotFound
                    }
                    &&& decode(spec@) is None || !old(self)@.roads.contains_key(id)
                },
            },
    {
        let lanes = match RoadSpec::parse(spec.as_str()) {
            Some(lanes) => lanes,
            None => {
                return Err(ModelError::LaneSpecParseError);
            },
        };
        match take_pair(&mut self.roads, id) {
            Some(road) => {
                let changed = Road {
                    i1: road.i1,
                    i2: road.i2,
                    lanes,
                    fwd_label: road.fwd_label,
                    back_label: road.back_label,
                };
                put_pair(&mut self.roads, id, changed);
                proof {
                    assert(self@.roads =~= old(self)@.roads.insert(id, changed@));
                }
                Ok(())
            },
            None => {
                proof {
                    assert(self@.roads =~= old(self)@.roads);
                }
                Err(ModelError::EntityNotFound)
            },
        }
    }

    /// Exchanges the road's forward and backward lanes.
    pub fn swap_lanes(&mut self, id: RoadID) -> (r: Result<(), ModelError>)
        requires
            old(self).wf(),
        ensures
            final(self).wf(),
            match r {
                Ok(()) => {
                    &&& old(self)@.roads.contains_key(id)
                    &&& final(self)@ == old(self)@.with_road(
                        id,
                        RoadView {
                            lanes: Lanes {
                                fwd: old(self)@.roads[id].lanes.back,
                                back: old(self)@.roads[id].lanes.fwd,
                            },
                            ..old(self)@.roads[id]
                        },
                    )
                },
                Err(e) => {
                    &&& e == ModelError::EntityNotFound
                    &&& !old(self)@.roads.contains_key(id)
                    &&& final(self)@ == old(self)@
                },
            },
    {
        match take_pair(&mut self.roads, id) {
            Some(road) => {
                let changed = Road {
                    i1: road.i1,
                    i2: road.i2,
                    lanes: RoadSpec { fwd: road.lanes.back, back: road.lanes.fwd },
                    fwd_label: road.fwd_label,
                    back_label: road.back_label,
                };
                put_pair(&mut self.roads, id, changed);
                proof {
                    assert(self@.roads =~= old(self)@.roads.insert(id, changed@));
                }
                Ok(())
            },
            None => {
                proof {
                    assert(self@.roads =~= old(self)@.roads);
                }
                Err(ModelError::EntityNotFound)
            },
        }
    }

    /// Labels one direction of a road.
    pub fn set_r_label(&mut self, pair: (RoadID, Direction), label: String) -> (r: Result<
        (),
        ModelError,
    >)
        requires
            old(self).wf(),
        ensures
            final(self).wf(),
            match r {
                Ok(()) => {
                    &&& old(self)@.roads.contains_key(pair.0)
                    &&& final(self)@ == old(self)@.with_road(
                        pair.0,
                        if pair.1 {
                            RoadView { fwd_label: Some(label@), ..old(self)@.roads[pair.0] }
                        } else {
                            RoadView { back_label: Some(label@), ..old(self)@.roads[pair.0] }
                        },
                    )
                },
                Err(e) => {
                    &&& e == ModelError::EntityNotFound
                    &&& !old(self)@.roads.contains_key(pair.0)
                    &&& final(self)@ == old(self)@
                },
            },
    {
        match take_pair(&mut self.roads, pair.0) {
            Some(road) => {
                let changed = if pair.1 {
                    Road {
                        i1: road.i1,
                        i2: road.i2,
                        lanes: road.lanes,
                        fwd_label: Some(label),
                        back_label: road.back_label,
                    }
                } else {
                    Road {
                        i1: road.i1,
                        i2: road.i2,
                        lanes: road.lanes,
                        fwd_label: road.fwd_label,
                        back_label: Some(label),
                    }
                };
                put_pair(&mut self.roads, pair.0, changed);
                proof {
                    assert(self@.roads =~= old(self)@.roads.insert(pair.0, changed@));
                }
                Ok(())
            },
            None => {
                proof {
                    assert(self@.roads =~= old(self)@.roads);
                }
                Err(ModelError::EntityNotFound)
            },
        }
    }

    pub fn get_r_label(&self, pair: (RoadID, Direction)) -> (r: Result<
        Option<String>,
        ModelError,
    >)
        ensures
            match r {
                Ok(label) => self@.roads.contains_key(pair.0) && text(label) == if pair.1 {
                    self@.roads[pair.0].fwd_label
                } else {
                    self@.roads[pair.0].back_label
                },
                Err(e) => e == ModelError::EntityNotFound && !self@.roads.contains_key(pair.0),
            },
    {
        match lookup_pair(&self.roads, pair.0) {
            Some(road) => {
                if pair.1 {
                    Ok(copy_label(&road.fwd_label))
                } else {
                    Ok(copy_label(&road.back_label))
                }
            },
            None => Err(ModelError::EntityNotFound),
        }
    }

    pub fn remove_road(&mut self, id: RoadID) -> (r: Result<(), ModelError>)
        requires
            old(self).wf(),
        ensures
            final(self).wf(),
            match r {
                Ok(()) => old(self)@.roads.contains_key(id) && final(self)@
                    == old(self)@.without_road(id),
                Err(e) => {
                    &&& e == ModelError::EntityNotFound
                    &&& !old(self)@.roads.contains_key(id)
                    &&& final(self)@ == old(self)@
                },
            },
    {
        match take_pair(&mut self.roads, id) {
            Some(_) => {
                proof {
                    assert(self@.roads =~= old(self)@.roads.remove(id));
                }
                Ok(())
            },
            None => {
                proof {
                    assert(self@.roads =~= old(self)@.roads);
                }
                Err(ModelError::EntityNotFound)
            },
        }
    }

    /// The road's lanes in their one-line notation.
    pub fn get_lanes(&self, id: RoadID) -> (r: Result<String, ModelError>)
        ensures
            match r {
                Ok(s) => self@.roads.contains_key(id) && s@ == encode(self@.roads[id].lanes),
                Err(e) => e == ModelError::EntityNotFound && !self@.roads.contains_key(id),
            },
    {
        match lookup_pair(&self.roads, id) {
            Some(road) => Ok(road.lanes.to_string()),
            None => Err(ModelError::EntityNotFound),
        }
    }

    /// The intersections that the road runs from and to.
    pub fn get_r_ends(&self, id: RoadID) -> (r: Result<(IntersectionID, IntersectionID), ModelError>)
        ensures
            match r {
                Ok(ends) => self@.roads.contains_key(id) && ends.0 == self@.roads[id].i1 && ends.1
                    == self@.roads[id].i2,
                Err(e) => e == ModelError::EntityNotFound && !self@.roads.contains_key(id),
            },
    {
        match lookup_pair(&self.roads, id) {
            Some(road) => Ok((road.i1, road.i2)),
            None => Err(ModelError::EntityNotFound),
        }
    }

    /// Whether `pt` hits the side of the road `id` that runs in `direction`.
    fn road_hit(&self, id: RoadID, direction: Direction, pt: Pt2D) -> (r: bool)
        requires
            self.wf(),
        ensures
            r == self@.hits_road(id, direction, pt@),
    {
        let road = match lookup_pair(&self.roads, id) {
            Some(road) => road,
            None => {
                return false;
            },
        };
        assert(self@.roads.contains_key(id));
        assert(self@.roads[id] == road@);
        let from = match lookup(&self.intersections, road.i1) {
            Some(i) => i.center,
            None => {
                return false;
            },
        };
        let to = match lookup(&self.intersections, road.i2) {
            Some(i) => i.center,
            None => {
                return false;
            },
        };
        road.polygon(direction, from, to).contains_pt(pt)
    }

    /// The first road, in the order of ids, that `pt` hits, and the side of
    /// it: the forward side where both are hit.
    pub fn mouseover_road(&self, pt: Pt2D) -> (r: Option<(RoadID, Direction)>)
        requires
            self.wf(),
        ensures
            self@.road_under(pt@, r),
    {
        let keys = pair_ids(&self.roads);
        let ghost v = self@;
        assert(v.roads.dom() =~= self.roads@.dom());
        let mut i: usize = 0;
        while i < keys.len()
            invariant
                i <= keys.len(),
                v == self@,
                self.wf(),
                ascending_pairs(keys@),
                lists(keys@, v.roads.dom()),
                forall|j: int, d: Direction|
                    0 <= j < i ==> !#[trigger] v.hits_road(keys@[j], d, pt@),
            decreases keys.len() - i,
        {
            let id = keys[i];
            let hit_fwd = self.road_hit(id, FORWARDS, pt);
            let hit_back = if hit_fwd {
                false
            } else {
                self.road_hit(id, BACKWARDS, pt)
            };
            if hit_fwd || hit_back {
                proof {
                    assert forall|other: RoadID, d: Direction| pair_lt(other, id) implies !v.hits_road(
                        other,
                        d,
                        pt@,
                    ) by {
                        if v.roads.contains_key(other) {
                            assert(keys@.contains(other));
                            let at = choose|at: int| 0 <= at < keys@.len() && keys@[at] == other;
                            assert(at < i) by {
                                if at > i {
                                    assert(pair_lt(keys@[i as int], keys@[at]));
                                }
                            }
                        }
                    }
                }
                return Some((id, hit_fwd));
            }
            assert forall|d: Direction| !v.hits_road(keys@[i as int], d, pt@) by {
                if d {
                } else {
                }
            }
            i = i + 1;
        }
        proof {
            assert forall|other: RoadID, d: Direction| !v.hits_road(other, d, pt@) by {
                if v.roads.contains_key(other) {
                    assert(keys@.contains(other));
                }
            }
        }
        None
    }
}

// Buildings
impl Model {
    /// Makes a building at `center` and returns its id, which is the number
    /// of buildings there were. Where removals have left a building under
    /// that id, the new one takes its place.
    pub fn create_b(&mut self, center: Pt2D) -> (id: BuildingID)
        requires
            old(self).wf(),
        ensures
            id == old(self)@.buildings.len(),
            final(self)@ == old(self)@.with_building(id, new_building(center@)),
            final(self).wf(),
    {
        let id: usize = count(&self.buildings);
        let b = Building { label: None, center };
        put(&mut self.buildings, id, b);
        proof {
            assert(old(self)@.buildings.dom() =~= old(self).buildings@.dom());
            assert(self@.buildings =~= old(self)@.buildings.insert(id, new_building(center@)));
        }
        id
    }

    pub fn move_b(&mut self, id: BuildingID, center: Pt2D) -> (r: Result<(), ModelError>)
        requires
            old(self).wf(),
        ensures
            final(self).wf(),
            match r {
                Ok(()) => {
                    &&& old(self)@.buildings.contains_key(id)
                    &&& final(self)@ == old(self)@.with_building(
                        id,
                        BuildingView { center: center@, ..old(self)@.buildings[id] },
                    )
                },
                Err(e) => {
                    &&& e == ModelError::EntityNotFound
                    &&& !old(self)@.buildings.contains_key(id)
                    &&& final(self)@ == old(self)@
                },
            },
    {
        match take(&mut self.buildings, id) {
            Some(b) => {
                let moved = Building { label: b.label, center };
                put(&mut self.buildings, id, moved);
                proof {
                    assert(self@.buildings =~= old(self)@.buildings.insert(id, moved@));
                }
                Ok(())
            },
            None => {
                proof {
                    assert(self@.buildings =~= old(self)@.buildings);
                }
                Err(ModelError::EntityNotFound)
            },
        }
    }

    pub fn set_b_label(&mut self, id: BuildingID, label: String) -> (r: Result<(), ModelError>)
        requires
            old(self).wf(),
        ensures
            final(self).wf(),
            match r {
                Ok(()) => {
                    &&& old(self)@.buildings.contains_key(id)
                    &&& final(self)@ == old(self)@.with_building(
                        id,
                        BuildingView { label: Some(label@), ..old(self)@.buildings[id] },
                    )
                },
                Err(e) => {
                    &&& e == ModelError::EntityNotFound
                    &&& !old(self)@.buildings.contains_key(id)
                    &&& final(self)@ == old(self)@
                },
            },
    {
        match take(&mut self.buildings, id) {
            Some(b) => {
                let labelled = Building { label: Some(label), center: b.center };
                put(&mut self.buildings, id, labelled);
                proof {
                    assert(self@.buildings =~= old(self)@.buildings.insert(id, labelled@));
                }
                Ok(())
            },
            None => {
                proof {
                    assert(self@.buildings =~= old(self)@.buildings);
                }
                Err(ModelError::EntityNotFound)
            },
        }
    }

    pub fn get_b_label(&self, id: BuildingID) -> (r: Result<Option<String>, ModelError>)
        ensures
            match r {
                Ok(label) => self@.buildings.contains_key(id) && text(label)
                    == self@.buildings[id].label,
                Err(e) => e == ModelError::EntityNotFound && !self@.buildings.contains_key(id),
            },
    {
        match lookup(&self.buildings, id) {
            Some(b) => Ok(copy_label(&b.label)),
            None => Err(ModelError::EntityNotFound),
        }
    }

    pub fn get_b_center(&self, id: BuildingID) -> (r: Result<Pt2D, ModelError>)
        ensures
            match r {
                Ok(center) => self@.buildings.contains_key(id) && center@
                    == self@.buildings[id].center,
                Err(e) => e == ModelError::EntityNotFound && !self@.buildings.contains_key(id),
            },
    {
        match lookup(&self.buildings, id) {
            Some(b) => Ok(b.center),
            None => Err(ModelError::EntityNotFound),
        }
    }

    pub fn remove_b(&mut self, id: BuildingID) -> (r: Result<(), ModelError>)
        requires
            old(self).wf(),
        ensures
            final(self).wf(),
            match r {
                Ok(()) => old(self)@.buildings.contains_key(id) && final(self)@
                    == old(self)@.without_building(id),
                Err(e) => {
                    &&& e == ModelError::EntityNotFound
                    &&& !old(self)@.buildings.contains_key(id)
                    &&& final(self)@ == old(self)@
                },
            },
    {
        match take(&mut self.buildings, id) {
            Some(_) => {
                proof {
                    assert(self@.buildings =~= old(self)@.buildings.remove(id));
                }
                Ok(())
            },
            None => {
                proof {
                    assert(self@.buildings =~= old(self)@.buildings);
                }
                Err(ModelError::EntityNotFound)
            },
        }
    }

    /// The first building, in the order of ids, that `pt` hits.
    pub fn mouseover_building(&self, pt: Pt2D) -> (r: Option<BuildingID>)
        ensures
            self@.building_under(pt@, r),
    {
        let keys = ids(&self.buildings);
        let ghost v = self@;
        assert(v.buildings.dom() =~= self.buildings@.dom());
        let mut i: usize = 0;
        while i < keys.len()
            invariant
                i <= keys.len(),
                v == self@,
                ascending(keys@),
                lists(keys@, v.buildings.dom()),
                forall|j: int| 0 <= j < i ==> !v.hits_building(#[trigger] keys@[j], pt@),
            decreases keys.len() - i,
        {
            let id = keys[i];
            assert(keys@.contains(id));
            match lookup(&self.buildings, id) {
                Some(b) => {
                    if b.polygon().contains_pt(pt) {
                        proof {
                            assert forall|j: BuildingID| j < id implies !v.hits_building(
                                j,
                                pt@,
                            ) by {
                                if v.buildings.contains_key(j) {
                                    assert(keys@.contains(j));
                                    let at = choose|at: int|
                                        0 <= at < keys@.len() && keys@[at] == j;
                                    assert(at < i) by {
                                        if at > i {
                                        }
                                    }
                                }
                            }
                        }
                        return Some(id);
                    }
                },
                None => {},
            }
            i = i + 1;
        }
        proof {
            assert forall|j: BuildingID| !v.hits_building(j, pt@) by {
                if v.buildings.contains_key(j) {
                    assert(keys@.contains(j));
                }
            }
        }
        None
    }
}

// Copies
impl RoadSpec {
    pub fn duplicate(&self) -> (r: RoadSpec)
        ensures
            r@ == self@,
    {
        let mut fwd: Vec<crate::lanes::LaneType> = Vec::new();
        let mut i: usize = 0;
        while i < self.fwd.len()
            invariant
                i <= self.fwd.len(),
                fwd@ == self.fwd@.take(i as int),
            decreases self.fwd.len() - i,
        {
            fwd.push(self.fwd[i]);
            assert(self.fwd@.take(i + 1) =~= self.fwd@.take(i as int).push(self.fwd@[i as int]));
            i = i + 1;
        }
        assert(fwd@ =~= self.fwd@);
        let mut back: Vec<crate::lanes::LaneType> = Vec::new();
        let mut j: usize = 0;
        while j < self.back.len()
            invariant
                j <= self.back.len(),
                back@ == self.back@.take(j as int),
            decreases self.back.len() - j,
        {
            back.push(self.back[j]);
            assert(self.back@.take(j + 1) =~= self.back@.take(j as int).push(
                self.back@[j as int],
            ));
            j = j + 1;
        }
        assert(back@ =~= self.back@);
        RoadSpec { fwd, back }
    }
}

impl Intersection {
    pub fn duplicate(&self) -> (r: Intersection)
        ensures
            r@ == self@,
    {
        Intersection {
            center: self.center,
            intersection_type: self.intersection_type,
            label: copy_label(&self.label),
        }
    }
}

impl Road {
    pub fn duplicate(&self) -> (r: Road)
        ensures
            r@ == self@,
    {
        Road {
            i1: self.i1,
            i2: self.i2,
            lanes: self.lanes.duplicate(),
            fwd_label: copy_label(&self.fwd_label),
            back_label: copy_label(&self.back_label),
        }
    }
}

impl Building {
    pub fn duplicate(&self) -> (r: Building)
        ensures
            r@ == self@,
    {
        Building { label: copy_label(&self.label), center: self.center }
    }
}

// Listings
impl Model {
    /// The ids of the intersections, in ascending order.
    pub fn intersection_ids(&self) -> (r: Vec<IntersectionID>)
        ensures
            ascending(r@),
            lists(r@, self@.intersections.dom()),
    {
        assert(self@.intersections.dom() =~= self.intersections@.dom());
        ids(&self.intersections)
    }

    /// The ids of the roads, in ascending order.
    pub fn road_ids(&self) -> (r: Vec<RoadID>)
        ensures
            ascending_pairs(r@),
            lists(r@, self@.roads.dom()),
    {
        assert(self@.roads.dom() =~= self.roads@.dom());
        pair_ids(&self.roads)
    }

    /// The ids of the buildings, in ascending order.
    pub fn building_ids(&self) -> (r: Vec<BuildingID>)
        ensures
            ascending(r@),
            lists(r@, self@.buildings.dom()),
    {
        assert(self@.buildings.dom() =~= self.buildings@.dom());
        ids(&self.buildings)
    }

    pub fn get_i(&self, id: IntersectionID) -> (r: Option<&Intersection>)
        ensures
            r is Some <==> self@.intersections.contains_key(id),
            r is Some ==> r->0@ == self@.intersections[id],
    {
        lookup(&self.intersections, id)
    }

    pub fn get_r(&self, id: RoadID) -> (r: Option<&Road>)
        ensures
            r is Some <==> self@.roads.contains_key(id),
            r is Some ==> r->0@ == self@.roads[id],
    {
        lookup_pair(&self.roads, id)
    }

    pub fn get_b(&self, id: BuildingID) -> (r: Option<&Building>)
        ensures
            r is Some <==> self@.buildings.contains_key(id),
            r is Some ==> r->0@ == self@.buildings[id],
    {
        lookup(&self.buildings, id)
    }
}

// Snapshots
/// All that a model holds, entry by entry.
pub struct ModelSnapshot {
    pub name: Option<String>,
    pub intersections: Vec<(IntersectionID, Intersection)>,
    pub roads: Vec<(RoadID, Road)>,
    pub buildings: Vec<(BuildingID, Building)>,
}

pub struct SnapshotView {
    pub name: Option<Seq<char>>,
    pub intersections: Seq<(IntersectionID, IntersectionView)>,
    pub roads: Seq<(RoadID, RoadView)>,
    pub buildings: Seq<(BuildingID, BuildingView)>,
}

impl View for ModelSnapshot {
    type V = SnapshotView;

    open spec fn view(&self) -> SnapshotView {
        SnapshotView {
            name: text(self.name),
            intersections: self.intersections@.map_values(
                |e: (IntersectionID, Intersection)| (e.0, e.1@),
            ),
            roads: self.roads@.map_values(|e: (RoadID, Road)| (e.0, e.1@)),
            buildings: self.buildings@.map_values(|e: (BuildingID, Building)| (e.0, e.1@)),
        }
    }
}

/// Whether `s` holds the entries of `m`, each once.
pub open spec fn records<K, V>(s: Seq<(K, V)>, m: Map<K, V>) -> bool {
    &&& forall|i: int, j: int| 0 <= i < j < s.len() ==> s[i].0 != s[j].0
    &&& forall|i: int|
        0 <= i < s.len() ==> m.contains_key(#[trigger] s[i].0) && m[s[i].0] == s[i].1
    &&& forall|k: K| #[trigger] m.contains_key(k) ==> exists|i: int| 0 <= i < s.len() && s[i].0 == k
}

impl SnapshotView {
    /// The model that the entries give when they are filed in their order.
    pub open spec fn restored(self) -> ModelView {
        ModelView {
            name: self.name,
            intersections: filed(self.intersections),
            roads: filed(self.roads),
            buildings: filed(self.buildings),
        }
    }

    /// Whether this is a snapshot of `v`: it has the name of `v` and holds
    /// each of its entries once, in ascending order of their ids.
    pub open spec fn taken_from(self, v: ModelView) -> bool {
        &&& self.name == v.name
        &&& records(self.intersections, v.intersections)
        &&& records(self.roads, v.roads)
        &&& records(self.buildings, v.buildings)
        &&& ascending(self.intersections.map_values(|e: (IntersectionID, IntersectionView)| e.0))
        &&& ascending_pairs(self.roads.map_values(|e: (RoadID, RoadView)| e.0))
        &&& ascending(self.buildings.map_values(|e: (BuildingID, BuildingView)| e.0))
    }
}

/// A snapshot restores the model it was taken from.
pub proof fn lemma_restore_snapshot(s: SnapshotView, v: ModelView)
    requires
        s.taken_from(v),
    ensures
        s.restored() == v,
{
    lemma_filed_listing(s.intersections, v.intersections);
    lemma_filed_listing(s.roads, v.roads);
    lemma_filed_listing(s.buildings, v.buildings);
}

/// Where a model of the given name is saved.
pub open spec fn save_path(name: Seq<char>) -> Seq<char> {
    "../data/synthetic_maps/"@ + name + ".json"@
}

/// Where a model of the given name is exported to.
pub open spec fn export_path(name: Seq<char>) -> Seq<char> {
    "../data/raw_maps/"@ + name + ".abst"@
}

impl Model {
    /// The path of the file that the model is saved to.
    pub fn save_path(&self) -> (r: Result<String, ModelError>)
        ensures
            match r {
                Ok(path) => self@.name is Some && path@ == save_path(self@.name->0),
                Err(e) => e == ModelError::Unnamed && self@.name is None,
            },
    {
        match &self.name {
            Some(name) => {
                let mut path = String::from_str("../data/synthetic_maps/");
                path.append(name.as_str());
                path.append(".json");
                Ok(path)
            },
            None => Err(ModelError::Unnamed),
        }
    }

    /// The path of the file that the model is exported to.
    pub fn export_path(&self) -> (r: Result<String, ModelError>)
        ensures
            match r {
                Ok(path) => self@.name is Some && path@ == export_path(self@.name->0),
                Err(e) => e == ModelError::Unnamed && self@.name is None,
            },
    {
        match &self.name {
            Some(name) => {
                let mut path = String::from_str("../data/raw_maps/");
                path.append(name.as_str());
                path.append(".abst");
                Ok(path)
            },
            None => Err(ModelError::Unnamed),
        }
    }

    /// All that the model holds, to be written down.
    pub fn snapshot(&self) -> (snap: ModelSnapshot)
        ensures
            snap@.taken_from(self@),
    {
        let ghost v = self@;
        let i_ids = self.intersection_ids();
        let mut intersections: Vec<(IntersectionID, Intersection)> = Vec::new();
        let mut i: usize = 0;
        while i < i_ids.len()
            invariant
                i <= i_ids.len(),
                v == self@,
                lists(i_ids@, v.intersections.dom()),
                intersections@.len() == i,
                forall|k: int|
                    0 <= k < i ==> (#[trigger] intersections@[k]).0 == i_ids@[k]
                        && intersections@[k].1@ == v.intersections[i_ids@[k]],
            decreases i_ids.len() - i,
        {
            let id = i_ids[i];
            assert(i_ids@.contains(id));
            match self.get_i(id) {
                Some(x) => {
                    intersections.push((id, x.duplicate()));
                },
                None => {},
            }
            i = i + 1;
        }
        let r_ids = self.road_ids();
        let mut roads: Vec<(RoadID, Road)> = Vec::new();
        let mut j: usize = 0;
        while j < r_ids.len()
            invariant
                j <= r_ids.len(),
                v == self@,
                lists(r_ids@, v.roads.dom()),
                roads@.len() == j,
                forall|k: int|
                    0 <= k < j ==> (#[trigger] roads@[k]).0 == r_ids@[k] && roads@[k].1@
                        == v.roads[r_ids@[k]],
            decreases r_ids.len() - j,
        {
            let id = r_ids[j];
            assert(r_ids@.contains(id));
            match self.get_r(id) {
                Some(x) => {
                    roads.push((id, x.duplicate()));
                },
                None => {},
            }
            j = j + 1;
        }
        let b_ids = self.building_ids();
        let mut buildings: Vec<(BuildingID, Building)> = Vec::new();
        let mut h: usize = 0;
        while h < b_ids.len()
            invariant
                h <= b_ids.len(),
                v == self@,
                lists(b_ids@, v.buildings.dom()),
                buildings@.len() == h,
                forall|k: int|
                    0 <= k < h ==> (#[trigger] buildings@[k]).0 == b_ids@[k] && buildings@[k].1@
                        == v.buildings[b_ids@[k]],
            decreases b_ids.len() - h,
        {
            let id = b_ids[h];
            assert(b_ids@.contains(id));
            match self.get_b(id) {
                Some(x) => {
                    buildings.push((id, x.duplicate()));
                },
                None => {},
            }
            h = h + 1;
        }
        let snap = ModelSnapshot {
            name: copy_label(&self.name),
            intersections,
            roads,
            buildings,
        };
        proof {
            let s = snap@;
            assert(s.intersections.map_values(|e: (IntersectionID, IntersectionView)| e.0)
                =~= i_ids@);
            assert(s.roads.map_values(|e: (RoadID, RoadView)| e.0) =~= r_ids@);
            assert(s.buildings.map_values(|e: (BuildingID, BuildingView)| e.0) =~= b_ids@);
            assert forall|k: IntersectionID| #[trigger]
                v.intersections.contains_key(k) implies exists|i: int|
                0 <= i < s.intersections.len() && s.intersections[i].0 == k by {
                assert(i_ids@.contains(k));
                let at = choose|at: int| 0 <= at < i_ids@.len() && i_ids@[at] == k;
                assert(s.intersections[at].0 == k);
            }
            assert forall|k: RoadID| #[trigger] v.roads.contains_key(k) implies exists|i: int|
                0 <= i < s.roads.len() && s.roads[i].0 == k by {
                assert(r_ids@.contains(k));
                let at = choose|at: int| 0 <= at < r_ids@.len() && r_ids@[at] == k;
                assert(s.roads[at].0 == k);
            }
            assert forall|k: BuildingID| #[trigger]
                v.buildings.contains_key(k) implies exists|i: int|
                0 <= i < s.buildings.len() && s.buildings[i].0 == k by {
                assert(b_ids@.contains(k));
                let at = choose|at: int| 0 <= at < b_ids@.len() && b_ids@[at] == k;
                assert(s.buildings[at].0 == k);
            }
            assert forall|a: int, b: int| 0 <= a < b < s.intersections.len() implies s.intersections[a].0
                != s.intersections[b].0 by {
                assert(i_ids@[a] < i_ids@[b]);
            }
            assert forall|a: int, b: int| 0 <= a < b < s.roads.len() implies s.roads[a].0
                != s.roads[b].0 by {
                assert(pair_lt(r_ids@[a], r_ids@[b]));
            }
            assert forall|a: int, b: int| 0 <= a < b < s.buildings.len() implies s.buildings[a].0
                != s.buildings[b].0 by {
                assert(b_ids@[a] < b_ids@[b]);
            }
        }
        snap
    }

    /// The path to save the model under and what to write there.
    pub fn save(&self) -> (r: Result<(String, ModelSnapshot), ModelError>)
        ensures
            match r {
                Ok((path, snap)) => {
                    &&& self@.name is Some
                    &&& path@ == save_path(self@.name->0)
                    &&& snap@.taken_from(self@)
                },
                Err(e) => e == ModelError::Unnamed && self@.name is None,
            },
    {
        match self.save_path() {
            Ok(path) => Ok((path, self.snapshot())),
            Err(e) => Err(e),
        }
    }

    /// The model that `snap` describes: its entries filed in their order,
    /// provided that the roads among them end at intersections among them
    /// and are filed under the pairs of their ends.
    pub fn load(snap: &ModelSnapshot) -> (r: Result<Model, ModelError>)
        ensures
            match r {
                Ok(m) => m@ == snap@.restored() && m.wf(),
                Err(e) => e == ModelError::ReferentialIntegrityViolation && !snap@.restored().wf(),
            },
    {
        let ghost s = snap@;
        let mut m = Model::new();
        let mut i: usize = 0;
        while i < snap.intersections.len()
            invariant
                i <= snap.intersections.len(),
                s == snap@,
                m.roads@ == Map::<RoadID, Road>::empty(),
                m.buildings@ == Map::<BuildingID, Building>::empty(),
                m.name is None,
                m.intersections@.map_values(|x: Intersection| x@) == filed(
                    s.intersections.take(i as int),
                ),
            decreases snap.intersections.len() - i,
        {
            let e = &snap.intersections[i];
            let ghost before = m.intersections@;
            put(&mut m.intersections, e.0, e.1.duplicate());
            proof {
                assert(s.intersections.take(i + 1).drop_last() =~= s.intersections.take(i as int));
                assert(m.intersections@.map_values(|x: Intersection| x@) =~= before.map_values(
                    |x: Intersection| x@,
                ).insert(e.0, e.1@));
            }
            i = i + 1;
        }
        assert(s.intersections.take(i as int) =~= s.intersections);
        let mut j: usize = 0;
        while j < snap.roads.len()
            invariant
                j <= snap.roads.len(),
                s == snap@,
                m.buildings@ == Map::<BuildingID, Building>::empty(),
                m.name is None,
                m.intersections@.map_values(|x: Intersection| x@) == filed(s.intersections),
                m.roads@.map_values(|x: Road| x@) == filed(s.roads.take(j as int)),
            decreases snap.roads.len() - j,
        {
            let e = &snap.roads[j];
            let ghost before = m.roads@;
            put_pair(&mut m.roads, e.0, e.1.duplicate());
            proof {
                assert(s.roads.take(j + 1).drop_last() =~= s.roads.take(j as int));
                assert(m.roads@.map_values(|x: Road| x@) =~= before.map_values(|x: Road| x@).insert(
                    e.0,
                    e.1@,
                ));
            }
            j = j + 1;
        }
        assert(s.roads.take(j as int) =~= s.roads);
        let mut h: usize = 0;
        while h < snap.buildings.len()
            invariant
                h <= snap.buildings.len(),
                s == snap@,
                m.name is None,
                m.intersections@.map_values(|x: Intersection| x@) == filed(s.intersections),
                m.roads@.map_values(|x: Road| x@) == filed(s.roads),
                m.buildings@.map_values(|x: Building| x@) == filed(s.buildings.take(h as int)),
            decreases snap.buildings.len() - h,
        {
            let e = &snap.buildings[h];
            let ghost before = m.buildings@;
            put(&mut m.buildings, e.0, e.1.duplicate());
            proof {
                assert(s.buildings.take(h + 1).drop_last() =~= s.buildings.take(h as int));
                assert(m.buildings@.map_values(|x: Building| x@) =~= before.map_values(
                    |x: Building| x@,
                ).insert(e.0, e.1@));
            }
            h = h + 1;
        }
        assert(s.buildings.take(h as int) =~= s.buildings);
        m.name = copy_label(&snap.name);
        assert(m@ == s.restored());
        proof {
            lemma_filed(s.intersections);
            lemma_filed(s.roads);
            lemma_filed(s.buildings);
        }
        if m.roads_sound() {
            Ok(m)
        } else {
            Err(ModelError::ReferentialIntegrityViolation)
        }
    }

    /// Whether every road ends at two intersections of the model and is
    /// filed under the pair of their ids.
    fn roads_sound(&self) -> (r: bool)
        ensures
            r == (forall|id: RoadID| #[trigger]
                self@.roads.contains_key(id) ==> {
                    &&& self@.intersections.contains_key(self@.roads[id].i1)
                    &&& self@.intersections.contains_key(self@.roads[id].i2)
                    &&& id == road_id(self@.roads[id].i1, self@.roads[id].i2)
                }),
    {
        let keys = self.road_ids();
        let ghost v = self@;
        let mut i: usize = 0;
        while i < keys.len()
            invariant
                i <= keys.len(),
                v == self@,
                lists(keys@, v.roads.dom()),
                forall|k: int|
                    0 <= k < i ==> {
                        &&& v.intersections.contains_key(v.roads[#[trigger] keys@[k]].i1)
                        &&& v.intersections.contains_key(v.roads[keys@[k]].i2)
                        &&& keys@[k] == road_id(v.roads[keys@[k]].i1, v.roads[keys@[k]].i2)
                    },
            decreases keys.len() - i,
        {
            let id = keys[i];
            assert(keys@.contains(id));
            match self.get_r(id) {
                Some(road) => {
                    let canonical: RoadID = if road.i1 < road.i2 {
                        (road.i1, road.i2)
                    } else {
                        (road.i2, road.i1)
                    };
                    if self.get_i(road.i1).is_none() || self.get_i(road.i2).is_none() || id.0
                        != canonical.0 || id.1 != canonical.1 {
                        assert(v.roads.contains_key(id));
                        return false;
                    }
                },
                None => {},
            }
            i = i + 1;
        }
        proof {
            assert forall|id: RoadID| #[trigger] v.roads.contains_key(id) implies {
                &&& v.intersections.contains_key(v.roads[id].i1)
                &&& v.intersections.contains_key(v.roads[id].i2)
                &&& id == road_id(v.roads[id].i1, v.roads[id].i2)
            } by {
                assert(keys@.contains(id));
            }
        }
        true
    }
}

// What holds of every model
/// In a model that keeps its rules, both ends of every road are
/// intersections of the model.
pub proof fn lemma_roads_end_at_intersections(v: ModelView, id: RoadID)
    requires
        v.wf(),
        v.roads.contains_key(id),
    ensures
        v.intersections.contains_key(v.roads[id].i1),
        v.intersections.contains_key(v.roads[id].i2),
        v.intersections.contains_key(id.0),
        v.intersections.contains_key(id.1),
{
}

/// A road between two intersections is one road, whichever of them is
/// named first: it has the same id and is made with the same lanes and
/// labels, and once it is made from one end, it is found there from the
/// other. Only the direction in which it runs is the one it was drawn in.
pub proof fn lemma_road_from_either_end(v: ModelView, a: IntersectionID, b: IntersectionID)
    ensures
        road_id(a, b) == road_id(b, a),
        new_road(a, b).lanes == new_road(b, a).lanes,
        new_road(a, b).fwd_label == new_road(b, a).fwd_label,
        new_road(a, b).back_label == new_road(b, a).back_label,
        v.with_road(road_id(a, b), new_road(a, b)).roads.contains_key(road_id(b, a)),
        v.with_road(road_id(a, b), new_road(a, b)).roads.dom() == v.with_road(
            road_id(b, a),
            new_road(b, a),
        ).roads.dom(),
{
}

} // verus!
