//! Sub-areas of a region, read from a document of geographic features and
//! laid onto a map.
//!
//! Only polygons are taken. Each ring of a polygon is projected into the
//! local frame of the map, checked, and moved by a fixed offset; what
//! cannot be taken is passed over with a warning that names the feature.
//! A polygon is kept for a map when one of its corners lies strictly inside
//! the map's boundary. This looks at corners only: a polygon that crosses
//! the boundary with its edges alone, or that surrounds it, is not kept.

use vstd::prelude::*;
use crate::geometry::{
    all_in_frame, is_vertex, points_of, polygon_contains, shift_all, valid_ring, Point, Polygon,
    Pt2D, Ring,
};
use crate::gps::{to_local, Bounds, GPSBounds, LonLat, Position};
use crate::raw_data::positions_of;

verus! {

/// How far, in millimetres, a polygon is moved along `x` after projection.
/// The offset aligns the source data of the region with the map.
pub const CALIBRATION_DX: i64 = -60_000;

/// How far, in millimetres, a polygon is moved along `y` after projection.
pub const CALIBRATION_DY: i64 = 140_000;

#[verifier::external_type_specification]
#[verifier::external_body]
pub struct ExJsonValue(serde_json::Value);

#[verifier::external_type_specification]
#[verifier::external_body]
#[verifier::reject_recursive_types(K)]
#[verifier::reject_recursive_types(V)]
pub struct ExJsonMap<K, V>(serde_json::Map<K, V>);

/// The free-form attributes of a feature. The library carries them along
/// and never looks inside.
pub type Properties = serde_json::Map<String, serde_json::Value>;

/// A copy of a feature's attributes, made by `Clone::clone` of
/// `serde_json::Map<String, serde_json::Value>`, which copies the map entry
/// by entry: the copy is taken to equal the map it was made from.
#[verifier::external_body]
fn clone_properties(p: &Properties) -> (r: Properties)
    ensures
        r == *p,
{
    p.clone()
}

/// The shape of a feature. Of a shape that is no polygon only the kind is
/// kept.
pub enum Geometry {
    Point,
    MultiPoint,
    LineString,
    MultiLineString,
    /// The rings of a polygon: its outline, then its holes.
    Polygon(Vec<Vec<LonLat>>),
    MultiPolygon,
    GeometryCollection,
}

pub enum GeometryView {
    Polygon(Seq<Seq<Position>>),
    Other,
}

impl View for Geometry {
    type V = GeometryView;

    open spec fn view(&self) -> GeometryView {
        match self {
            Geometry::Polygon(rings) => GeometryView::Polygon(
                rings@.map_values(|ring: Vec<LonLat>| positions_of(ring@)),
            ),
            _ => GeometryView::Other,
        }
    }
}

pub struct Feature {
    pub geometry: Option<Geometry>,
    pub properties: Option<Properties>,
}

pub struct FeatureView {
    pub geometry: Option<GeometryView>,
    pub properties: Option<Properties>,
}

impl View for Feature {
    type V = FeatureView;

    open spec fn view(&self) -> FeatureView {
        FeatureView {
            geometry: shape_of(self.geometry),
            properties: self.properties,
        }
    }
}

/// A document of geographic features.
pub enum GeoJson {
    Geometry(Geometry),
    Feature(Feature),
    FeatureCollection(Vec<Feature>),
}

impl View for GeoJson {
    type V = Seq<FeatureView>;

    /// The features of the document. A shape alone counts as a feature
    /// without attributes.
    open spec fn view(&self) -> Seq<FeatureView> {
        match self {
            GeoJson::Geometry(g) => seq![FeatureView { geometry: Some(g@), properties: None }],
            GeoJson::Feature(f) => seq![f@],
            GeoJson::FeatureCollection(fs) => fs@.map_values(|f: Feature| f@),
        }
    }
}

/// Why a feature was passed over.
#[derive(Clone, Copy, Debug, PartialEq, Eq, Structural)]
pub enum Skipped {
    /// The feature's shape is no polygon.
    UnsupportedGeometry,
    /// A ring of the polygon could not be built: it has a point outside the
    /// local frame, before or after the offset, fewer than three distinct
    /// corners, no closing point, or a point that it passes through twice.
    RingConstruction,
    /// No corner of the polygon lies strictly inside the boundary.
    OutsideBoundary,
}

/// Why a single shape gave no polygon.
#[derive(Clone, Copy, Debug, PartialEq, Eq, Structural)]
pub enum IngestError {
    /// The bounds of the map have no area.
    DegenerateBounds,
    /// See [`Skipped::UnsupportedGeometry`].
    UnsupportedGeometry,
    /// See [`Skipped::RingConstruction`].
    RingConstruction,
}

/// A feature that was passed over, by its place in the document.
#[derive(Clone, Copy, Debug, PartialEq, Eq, Structural)]
pub struct Warning {
    pub feature: usize,
    pub reason: Skipped,
}

// What the ingestion computes
/// The ring in the local frame, where each of its points has a place there.
pub open spec fn project_ring(b: Bounds, ring: Seq<Position>) -> Option<Seq<Point>> {
    if forall|i: int| 0 <= i < ring.len() ==> to_local(b, #[trigger] ring[i]) is Ok {
        Some(Seq::new(ring.len(), |i: int| to_local(b, ring[i])->Ok_0))
    } else {
        None
    }
}

/// The ring projected, checked and moved by the offset.
pub open spec fn place_ring(b: Bounds, ring: Seq<Position>) -> Option<Seq<Point>> {
    match project_ring(b, ring) {
        Some(pts) => {
            let moved = shift_all(pts, CALIBRATION_DX as int, CALIBRATION_DY as int);
            if valid_ring(pts) && all_in_frame(moved) {
                Some(moved)
            } else {
                None
            }
        },
        None => None,
    }
}

/// The polygon of the given rings on the map, where each of them can be
/// placed.
pub open spec fn assemble(b: Bounds, rings: Seq<Seq<Position>>) -> Option<Seq<Seq<Point>>> {
    if forall|k: int| 0 <= k < rings.len() ==> place_ring(b, #[trigger] rings[k]) is Some {
        Some(Seq::new(rings.len(), |k: int| place_ring(b, rings[k])->0))
    } else {
        None
    }
}

/// Whether a corner of `polygon` lies strictly inside `boundary`.
pub open spec fn reaches(polygon: Seq<Seq<Point>>, boundary: Seq<Seq<Point>>) -> bool {
    exists|v: Point| is_vertex(polygon, v) && polygon_contains(boundary, v)
}

/// What becomes of a feature.
pub enum Fate {
    /// The feature has no shape: nothing is said of it.
    Ignored,
    Warned(Skipped),
    Kept(Seq<Seq<Point>>),
}

/// What becomes of a feature with the shape `geometry` under the bounds
/// `b`, with or without a boundary to hold its polygon against.
pub open spec fn fate(
    b: Bounds,
    boundary: Option<Seq<Seq<Point>>>,
    geometry: Option<GeometryView>,
) -> Fate {
    match geometry {
        None => Fate::Ignored,
        Some(GeometryView::Other) => Fate::Warned(Skipped::UnsupportedGeometry),
        Some(GeometryView::Polygon(rings)) => match assemble(b, rings) {
            None => Fate::Warned(Skipped::RingConstruction),
            Some(polygon) => match boundary {
                Some(edge) => if reaches(polygon, edge) {
                    Fate::Kept(polygon)
                } else {
                    Fate::Warned(Skipped::OutsideBoundary)
                },
                None => Fate::Kept(polygon),
            },
        },
    }
}

/// The polygons kept of the first `n` features, with their attributes, in
/// the order of the features.
pub open spec fn kept(
    b: Bounds,
    boundary: Option<Seq<Seq<Point>>>,
    fs: Seq<FeatureView>,
    n: nat,
) -> Seq<(Seq<Seq<Point>>, Option<Properties>)>
    decreases n,
{
    if n == 0 {
        Seq::empty()
    } else {
        let before = kept(b, boundary, fs, (n - 1) as nat);
        match fate(b, boundary, fs[n - 1].geometry) {
            Fate::Kept(polygon) => before.push((polygon, fs[n - 1].properties)),
            _ => before,
        }
    }
}

/// The warnings about the first `n` features, in the order of the features.
pub open spec fn warned(
    b: Bounds,
    boundary: Option<Seq<Seq<Point>>>,
    fs: Seq<FeatureView>,
    n: nat,
) -> Seq<Warning>
    decreases n,
{
    if n == 0 {
        Seq::empty()
    } else {
        let before = warned(b, boundary, fs, (n - 1) as nat);
        match fate(b, boundary, fs[n - 1].geometry) {
            Fate::Warned(reason) => before.push(Warning { feature: (n - 1) as usize, reason }),
            _ => before,
        }
    }
}

/// The sub-areas found in a document, and what was passed over.
pub struct SubAreas {
    pub areas: Vec<(Polygon, Option<Properties>)>,
    pub warnings: Vec<Warning>,
}

pub open spec fn areas_of(areas: Seq<(Polygon, Option<Properties>)>) -> Seq<
    (Seq<Seq<Point>>, Option<Properties>),
> {
    areas.map_values(|a: (Polygon, Option<Properties>)| (a.0@, a.1))
}

impl SubAreas {
    /// Whether these are the sub-areas and warnings that the features `fs`
    /// give.
    pub open spec fn drawn_from(
        &self,
        b: Bounds,
        boundary: Option<Seq<Seq<Point>>>,
        fs: Seq<FeatureView>,
    ) -> bool {
        &&& areas_of(self.areas@) == kept(b, boundary, fs, fs.len())
        &&& self.warnings@ == warned(b, boundary, fs, fs.len())
    }
}

/// The ring through the given positions on the map.
fn ring_from_gps(pts: &Vec<LonLat>, bounds: &GPSBounds) -> (r: Option<Ring>)
    requires
        !bounds@.degenerate(),
    ensures
        r is Some <==> place_ring(bounds@, positions_of(pts@)) is Some,
        r is Some ==> r->0@ == place_ring(bounds@, positions_of(pts@))->0,
{
    let ghost b = bounds@;
    let ghost ring = positions_of(pts@);
    let mut transformed: Vec<Pt2D> = Vec::new();
    let mut i: usize = 0;
    while i < pts.len()
        invariant
            i <= pts.len(),
            b == bounds@,
            ring == positions_of(pts@),
            transformed@.len() == i,
            forall|k: int| 0 <= k < i ==> to_local(b, #[trigger] ring[k]) is Ok,
            forall|k: int|
                0 <= k < i ==> (#[trigger] transformed@[k])@ == to_local(b, ring[k])->Ok_0,
        decreases pts.len() - i,
    {
        match pts[i].to_pt(bounds) {
            Ok(p) => {
                transformed.push(p);
            },
            Err(_) => {
                assert(!(to_local(b, ring[i as int]) is Ok));
                return None;
            },
        }
        i = i + 1;
    }
    let ghost projected = project_ring(b, ring)->0;
    assert(points_of(transformed@) =~= projected);
    match Ring::new(transformed) {
        Some(r) => r.translate(CALIBRATION_DX, CALIBRATION_DY),
        None => None,
    }
}

/// The polygon of the given rings of positions on the map with the bounds
/// `bounds`: each ring projected into the local frame, checked, and moved by
/// the calibration offset.
pub fn map_poly_from_json_gps(raw: &Vec<Vec<LonLat>>, bounds: &GPSBounds) -> (r: Result<
    Polygon,
    IngestError,
>)
    ensures
        match r {
            Ok(polygon) => {
                &&& !bounds@.degenerate()
                &&& assemble(bounds@, raw@.map_values(|ring: Vec<LonLat>| positions_of(ring@)))
                    == Some(polygon@)
            },
            Err(e) => e == if bounds@.degenerate() {
                IngestError::DegenerateBounds
            } else {
                IngestError::RingConstruction
            } && (bounds@.degenerate() || assemble(
                bounds@,
                raw@.map_values(|ring: Vec<LonLat>| positions_of(ring@)),
            ) is None),
        },
{
    if bounds.is_degenerate() {
        return Err(IngestError::DegenerateBounds);
    }
    let ghost b = bounds@;
    let ghost rings_in = raw@.map_values(|ring: Vec<LonLat>| positions_of(ring@));
    let mut rings: Vec<Ring> = Vec::new();
    let mut k: usize = 0;
    while k < raw.len()
        invariant
            k <= raw.len(),
            b == bounds@,
            !b.degenerate(),
            rings_in == raw@.map_values(|ring: Vec<LonLat>| positions_of(ring@)),
            rings@.len() == k,
            forall|j: int| 0 <= j < k ==> place_ring(b, #[trigger] rings_in[j]) is Some,
            forall|j: int| 0 <= j < k ==> (#[trigger] rings@[j])@ == place_ring(b, rings_in[j])->0,
        decreases raw.len() - k,
    {
        assert(rings_in[k as int] == positions_of(raw@[k as int]@));
        match ring_from_gps(&raw[k], bounds) {
            Some(ring) => {
                rings.push(ring);
            },
            None => {
                assert(place_ring(b, rings_in[k as int]) is None);
                return Err(IngestError::RingConstruction);
            },
        }
        k = k + 1;
    }
    let polygon = Polygon::from_rings(rings);
    assert(polygon@ =~= assemble(b, rings_in)->0);
    Ok(polygon)
}

/// The polygon of a shape on the map, if the shape is a polygon.
pub fn match_geometry(geom: &Geometry, bounds: &GPSBounds) -> (r: Result<Polygon, IngestError>)
    ensures
        match r {
            Ok(polygon) => {
                &&& !bounds@.degenerate()
                &&& geom@ matches GeometryView::Polygon(rings)
                &&& assemble(bounds@, rings) == Some(polygon@)
            },
            Err(IngestError::UnsupportedGeometry) => geom@ is Other,
            Err(IngestError::DegenerateBounds) => geom@ is Polygon && bounds@.degenerate(),
            Err(IngestError::RingConstruction) => {
                &&& !bounds@.degenerate()
                &&& geom@ matches GeometryView::Polygon(rings)
                &&& assemble(bounds@, rings) is None
            },
        },
{
    match geom {
        Geometry::Polygon(p) => map_poly_from_json_gps(p, bounds),
        _ => Err(IngestError::UnsupportedGeometry),
    }
}

/// What becomes of one feature.
enum Taken {
    Ignored,
    Warned(Skipped),
    Kept(Polygon),
}

/// The shape as specifications see it, if there is one.
pub open spec fn shape_of(geometry: Option<Geometry>) -> Option<GeometryView> {
    match geometry {
        Some(g) => Some(g@),
        None => None,
    }
}

/// Takes the polygon of a shape, if it is one that can be placed and,
/// where there is a boundary, reaches into it.
fn take_shape(geom: &Geometry, bounds: &GPSBounds, boundary: Option<&Polygon>) -> (r: Result<
    Polygon,
    Skipped,
>)
    requires
        !bounds@.degenerate(),
    ensures
        match r {
            Ok(polygon) => fate(bounds@, edge_of(boundary), Some(geom@)) == Fate::Kept(polygon@),
            Err(reason) => fate(bounds@, edge_of(boundary), Some(geom@)) == Fate::Warned(reason),
        },
{
    match match_geometry(geom, bounds) {
        Ok(polygon) => match boundary {
            Some(edge) => {
                if polygon.has_vertex_inside(edge) {
                    Ok(polygon)
                } else {
                    Err(Skipped::OutsideBoundary)
                }
            },
            None => Ok(polygon),
        },
        Err(IngestError::UnsupportedGeometry) => Err(Skipped::UnsupportedGeometry),
        Err(_) => Err(Skipped::RingConstruction),
    }
}

/// Takes the polygon of a feature's shape, if it has one.
fn take_feature(geometry: &Option<Geometry>, bounds: &GPSBounds, boundary: Option<&Polygon>) -> (r:
    Taken)
    requires
        !bounds@.degenerate(),
    ensures
        match r {
            Taken::Ignored => fate(bounds@, edge_of(boundary), shape_of(*geometry)) is Ignored,
            Taken::Warned(reason) => fate(bounds@, edge_of(boundary), shape_of(*geometry))
                == Fate::Warned(reason),
            Taken::Kept(polygon) => fate(bounds@, edge_of(boundary), shape_of(*geometry))
                == Fate::Kept(polygon@),
        },
{
    match geometry {
        None => Taken::Ignored,
        Some(geom) => match take_shape(geom, bounds, boundary) {
            Ok(polygon) => Taken::Kept(polygon),
            Err(reason) => Taken::Warned(reason),
        },
    }
}

/// The outline and holes of the boundary, if there is one.
pub open spec fn edge_of(boundary: Option<&Polygon>) -> Option<Seq<Seq<Point>>> {
    match boundary {
        Some(p) => Some(p@),
        None => None,
    }
}

/// Goes through the features of a document in their order.
fn scan(gj: &GeoJson, bounds: &GPSBounds, boundary: Option<&Polygon>) -> (r: Result<
    SubAreas,
    IngestError,
>)
    ensures
        match r {
            Ok(found) => !bounds@.degenerate() && found.drawn_from(
                bounds@,
                edge_of(boundary),
                gj@,
            ),
            Err(e) => e == IngestError::DegenerateBounds && bounds@.degenerate(),
        },
{
    if bounds.is_degenerate() {
        return Err(IngestError::DegenerateBounds);
    }
    let ghost b = bounds@;
    let ghost edge = edge_of(boundary);
    let ghost fs = gj@;
    let mut areas: Vec<(Polygon, Option<Properties>)> = Vec::new();
    let mut warnings: Vec<Warning> = Vec::new();
    match gj {
        GeoJson::Geometry(g) => {
            assert(kept(b, edge, fs, 0) =~= Seq::empty());
            assert(warned(b, edge, fs, 0) =~= Seq::empty());
            assert(areas_of(areas@) =~= Seq::empty());
            match take_shape(g, bounds, boundary) {
                Err(reason) => {
                    warnings.push(Warning { feature: 0, reason });
                },
                Ok(polygon) => {
                    areas.push((polygon, None));
                },
            }
            assert(areas_of(areas@) =~= kept(b, edge, fs, 1));
            assert(warnings@ =~= warned(b, edge, fs, 1));
        },
        GeoJson::Feature(feature) => {
            assert(kept(b, edge, fs, 0) =~= Seq::empty());
            assert(warned(b, edge, fs, 0) =~= Seq::empty());
            assert(areas_of(areas@) =~= Seq::empty());
            match take_feature(&feature.geometry, bounds, boundary) {
                Taken::Ignored => {},
                Taken::Warned(reason) => {
                    warnings.push(Warning { feature: 0, reason });
                },
                Taken::Kept(polygon) => {
                    areas.push((polygon, copy_properties(&feature.properties)));
                },
            }
            assert(areas_of(areas@) =~= kept(b, edge, fs, 1));
            assert(warnings@ =~= warned(b, edge, fs, 1));
        },
        GeoJson::FeatureCollection(features) => {
            let mut i: usize = 0;
            assert(areas_of(areas@) =~= Seq::empty());
            while i < features.len()
                invariant
                    i <= features.len(),
                    b == bounds@,
                    !b.degenerate(),
                    edge == edge_of(boundary),
                    fs == features@.map_values(|f: Feature| f@),
                    areas_of(areas@) == kept(b, edge, fs, i as nat),
                    warnings@ == warned(b, edge, fs, i as nat),
                decreases features.len() - i,
            {
                let feature = &features[i];
                assert(fs[i as int] == feature@);
                let ghost before = areas_of(areas@);
                match take_feature(&feature.geometry, bounds, boundary) {
                    Taken::Ignored => {},
                    Taken::Warned(reason) => {
                        warnings.push(Warning { feature: i, reason });
                    },
                    Taken::Kept(polygon) => {
                        areas.push((polygon, copy_properties(&feature.properties)));
                        assert(areas_of(areas@) =~= before.push((polygon@, feature@.properties)));
                    },
                }
                i = i + 1;
            }
        },
    }
    Ok(SubAreas { areas, warnings })
}

fn copy_properties(p: &Option<Properties>) -> (r: Option<Properties>)
    ensures
        r == *p,
{
    match p {
        Some(m) => Some(clone_properties(m)),
        None => None,
    }
}

/// The polygons of a document on the map with the bounds `bounds`, each
/// with the attributes of its feature, and a warning for each feature whose
/// shape could not be taken.
pub fn process_geojson(gj: &GeoJson, bounds: &GPSBounds) -> (r: Result<SubAreas, IngestError>)
    ensures
        match r {
            Ok(found) => !bounds@.degenerate() && found.drawn_from(bounds@, None, gj@),
            Err(e) => e == IngestError::DegenerateBounds && bounds@.degenerate(),
        },
{
    scan(gj, bounds, None)
}

/// The sub-areas of a document that reach into the map: the polygons with a
/// corner strictly inside `boundary`, each with the attributes of its
/// feature, and a warning for every other feature that has a shape.
pub fn get_geneva_sub_area(gj: &GeoJson, bounds: &GPSBounds, boundary: &Polygon) -> (r: Result<
    SubAreas,
    IngestError,
>)
    ensures
        match r {
            Ok(found) => !bounds@.degenerate() && found.drawn_from(
                bounds@,
                Some(boundary@),
                gj@,
            ),
            Err(e) => e == IngestError::DegenerateBounds && bounds@.degenerate(),
        },
{
    scan(gj, bounds, Some(boundary))
}

/// As [`get_geneva_sub_area`], without the attributes.
pub fn read_geneva_sub_area(gj: &GeoJson, bounds: &GPSBounds, boundary: &Polygon) -> (r: Result<
    Vec<Polygon>,
    IngestError,
>)
    ensures
        match r {
            Ok(polygons) => {
                &&& !bounds@.degenerate()
                &&& polygons@.len() == kept(bounds@, Some(boundary@), gj@, gj@.len()).len()
                &&& forall|k: int|
                    0 <= k < polygons@.len() ==> (#[trigger] polygons@[k])@ == kept(
                        bounds@,
                        Some(boundary@),
                        gj@,
                        gj@.len(),
                    )[k].0
            },
            Err(e) => e == IngestError::DegenerateBounds && bounds@.degenerate(),
        },
{
    let found = match get_geneva_sub_area(gj, bounds, boundary) {
        Ok(found) => found,
        Err(e) => {
            return Err(e);
        },
    };
    let ghost all = areas_of(found.areas@);
    let mut areas = found.areas;
    let mut out: Vec<Polygon> = Vec::new();
    while areas.len() > 0
        invariant
            areas_of(areas@) == all.take(areas@.len() as int),
            areas@.len() + out@.len() == all.len(),
            forall|k: int|
                0 <= k < out@.len() ==> (#[trigger] out@[k])@ == all[all.len() - 1 - k].0,
        decreases areas.len(),
    {
        let ghost before = areas@;
        match areas.pop() {
            Some(area) => {
                assert(areas_of(before)[before.len() - 1].0 == area.0@);
                assert(areas_of(areas@) =~= all.take(areas@.len() as int));
                out.push(area.0);
            },
            None => {},
        }
    }
    let mut polygons: Vec<Polygon> = Vec::new();
    let ghost reversed = out@;
    while out.len() > 0
        invariant
            out@ == reversed.take(out@.len() as int),
            reversed.len() == all.len(),
            out@.len() + polygons@.len() == all.len(),
            forall|k: int| 0 <= k < reversed.len() ==> (#[trigger] reversed[k])@ == all[all.len() - 1 - k].0,
            forall|k: int| 0 <= k < polygons@.len() ==> (#[trigger] polygons@[k])@ == all[k].0,
        decreases out.len(),
    {
        let ghost before = out@;
        match out.pop() {
            Some(polygon) => {
                assert(polygon == reversed[before.len() - 1]);
                assert(out@ =~= reversed.take(out@.len() as int));
                polygons.push(polygon);
            },
            None => {},
        }
    }
    Ok(polygons)
}

/// Of the polygons that can be placed, those with a corner strictly inside
/// the boundary are kept and no others.
pub proof fn lemma_filter(b: Bounds, boundary: Seq<Seq<Point>>, rings: Seq<Seq<Position>>)
    requires
        assemble(b, rings) is Some,
    ensures
        reaches(assemble(b, rings)->0, boundary) ==> fate(
            b,
            Some(boundary),
            Some(GeometryView::Polygon(rings)),
        ) == Fate::Kept(assemble(b, rings)->0),
        !reaches(assemble(b, rings)->0, boundary) ==> fate(
            b,
            Some(boundary),
            Some(GeometryView::Polygon(rings)),
        ) == Fate::Warned(Skipped::OutsideBoundary),
{
}

// Residents
/// What a building of a map is used for.
#[derive(Clone, Copy, Debug, PartialEq, Eq, Structural)]
pub enum BuildingType {
    Residential { num_residents: usize, num_housing_units: usize },
    /// Residents, then workers.
    ResidentialCommercial(usize, usize),
    /// Workers.
    Commercial(usize),
    Empty,
}

impl BuildingType {
    /// Whether people live in a building of this type.
    pub open spec fn is_home(self) -> bool {
        self is Residential || self is ResidentialCommercial
    }

    /// This type with `n` residents, where people live in it.
    pub open spec fn housing(self, n: usize) -> BuildingType {
        match self {
            BuildingType::Residential { num_housing_units, .. } => BuildingType::Residential {
                num_residents: n,
                num_housing_units,
            },
            BuildingType::ResidentialCommercial(_, workers) => BuildingType::ResidentialCommercial(
                n,
                workers,
            ),
            other => other,
        }
    }

    /// This type with `n` residents; nothing where nobody lives in it.
    pub fn with_residents(self, n: usize) -> (r: Option<BuildingType>)
        ensures
            r == if self.is_home() {
                Some(self.housing(n))
            } else {
                None::<BuildingType>
            },
    {
        match self {
            BuildingType::Residential { num_housing_units, .. } => Some(
                BuildingType::Residential { num_residents: n, num_housing_units },
            ),
            BuildingType::ResidentialCommercial(_, workers) => Some(
                BuildingType::ResidentialCommercial(n, workers),
            ),
            _ => None,
        }
    }
}

/// Whether `home`, a building's place and a number of residents, names a
/// building of `types` that people live in.
pub open spec fn can_settle(types: Seq<BuildingType>, home: (usize, usize)) -> bool {
    home.0 < types.len() && types[home.0 as int].is_home()
}

/// The types after the first `n` of `homes` got their residents, one after
/// another.
pub open spec fn settled(types: Seq<BuildingType>, homes: Seq<(usize, usize)>, n: nat) -> Seq<
    BuildingType,
>
    decreases n,
{
    if n == 0 {
        types
    } else {
        let before = settled(types, homes, (n - 1) as nat);
        let at = homes[n - 1].0 as int;
        before.update(at, before[at].housing(homes[n - 1].1))
    }
}

/// Gives each building named in `homes` the number of residents that stands
/// beside it. Where one of `homes` names no building that people live in,
/// nothing is changed, and the place of the first such entry is returned.
pub fn distribute_residents(buildings: &mut Vec<BuildingType>, homes: &Vec<(usize, usize)>) -> (r:
    Result<(), usize>)
    ensures
        match r {
            Ok(()) => {
                &&& forall|k: int| 0 <= k < homes@.len() ==> can_settle(old(buildings)@, homes@[k])
                &&& final(buildings)@ == settled(old(buildings)@, homes@, homes@.len())
            },
            Err(at) => {
                &&& final(buildings)@ == old(buildings)@
                &&& at < homes@.len()
                &&& !can_settle(old(buildings)@, homes@[at as int])
                &&& forall|k: int| 0 <= k < at ==> can_settle(old(buildings)@, homes@[k])
            },
        },
{
    let mut k: usize = 0;
    while k < homes.len()
        invariant
            k <= homes.len(),
            buildings@ == old(buildings)@,
            forall|j: int| 0 <= j < k ==> can_settle(old(buildings)@, homes@[j]),
        decreases homes.len() - k,
    {
        let home = homes[k];
        if home.0 >= buildings.len() {
            return Err(k);
        }
        if buildings[home.0].with_residents(home.1).is_none() {
            return Err(k);
        }
        k = k + 1;
    }
    let mut i: usize = 0;
    while i < homes.len()
        invariant
            i <= homes.len(),
            buildings@.len() == old(buildings)@.len(),
            forall|j: int| 0 <= j < homes@.len() ==> can_settle(old(buildings)@, homes@[j]),
            forall|j: int|
                0 <= j < buildings@.len() ==> (#[trigger] buildings@[j]).is_home() == old(
                    buildings,
                )@[j].is_home(),
            buildings@ == settled(old(buildings)@, homes@, i as nat),
        decreases homes.len() - i,
    {
        let home = homes[i];
        assert(can_settle(old(buildings)@, homes@[i as int]));
        match buildings[home.0].with_residents(home.1) {
            Some(changed) => {
                buildings.set(home.0, changed);
            },
            None => {},
        }
        i = i + 1;
    }
    Ok(())
}

} // verus!
