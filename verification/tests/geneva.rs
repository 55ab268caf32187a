use synthetic::geneva::{
    distribute_residents, get_geneva_sub_area, map_poly_from_json_gps, match_geometry,
    process_geojson, read_geneva_sub_area, BuildingType, Feature, GeoJson, Geometry, IngestError,
    Properties, Skipped, Warning, CALIBRATION_DX, CALIBRATION_DY,
};
use synthetic::geometry::{Polygon, Pt2D, Ring, FRAME_LIMIT};
use synthetic::gps::{GPSBounds, LonLat};

fn pt(x: i64, y: i64) -> Pt2D {
    Pt2D::new(x, y).unwrap()
}

fn at(lon: i64, lat: i64) -> LonLat {
    LonLat::new(lon, lat)
}

/// Positions are millimetres here: the box and the frame have the same
/// extent, 1 km each way, with y counted from the top.
fn bounds() -> GPSBounds {
    GPSBounds::new(0, 0, 1_000_000, 1_000_000, pt(1_000_000, 1_000_000), false).unwrap()
}

/// The square from `lo` to `hi` on both axes, as positions.
fn square(lo: i64, hi: i64) -> Vec<LonLat> {
    vec![at(lo, lo), at(hi, lo), at(hi, hi), at(lo, hi), at(lo, lo)]
}

/// The square from `lo` to `hi` on both axes of the local frame.
fn boundary(lo: i64, hi: i64) -> Polygon {
    let pts = vec![pt(lo, lo), pt(hi, lo), pt(hi, hi), pt(lo, hi), pt(lo, lo)];
    Polygon::from_rings(vec![Ring::new(pts).unwrap()])
}

fn corners(p: &Polygon) -> Vec<Vec<(i64, i64)>> {
    p.rings().iter().map(|r| r.points().iter().map(|q| (q.x(), q.y())).collect()).collect()
}

fn named(name: &str) -> Properties {
    let mut p = Properties::new();
    p.insert("name".to_string(), serde_json::Value::String(name.to_string()));
    p.insert("residents".to_string(), serde_json::Value::from(1312));
    p
}

fn feature(geometry: Geometry, name: &str) -> Feature {
    Feature { geometry: Some(geometry), properties: Some(named(name)) }
}

#[test]
fn calibration_offset() {
    assert_eq!((CALIBRATION_DX, CALIBRATION_DY), (-60_000, 140_000));
}

#[test]
fn polygon_is_projected_and_moved_by_the_offset() {
    let p = map_poly_from_json_gps(&vec![square(100_000, 200_000)], &bounds()).unwrap();
    // x as it is, y counted from the top, then (-60 m, +140 m)
    assert_eq!(
        corners(&p),
        vec![vec![
            (40_000, 1_040_000),
            (140_000, 1_040_000),
            (140_000, 940_000),
            (40_000, 940_000),
            (40_000, 1_040_000),
        ]]
    );
}

#[test]
fn polygon_keeps_its_holes() {
    let p = map_poly_from_json_gps(
        &vec![square(100_000, 500_000), square(200_000, 300_000)],
        &bounds(),
    )
    .unwrap();
    assert_eq!(p.rings().len(), 2);
    assert_eq!(corners(&p)[1][0], (140_000, 940_000));
    assert!(p.contains_pt(pt(100_000, 1_000_000)));
    // (250 000, 250 000) lies in the hole: at (190 000, 890 000) on the map
    assert!(!p.contains_pt(pt(190_000, 890_000)));
    let none = map_poly_from_json_gps(&vec![], &bounds()).unwrap();
    assert!(none.rings().is_empty());
}

#[test]
fn degenerate_rings_give_no_polygon() {
    let b = bounds();
    let open = vec![at(0, 0), at(10, 0), at(10, 10), at(0, 10)];
    assert_eq!(
        map_poly_from_json_gps(&vec![open], &b).err(),
        Some(IngestError::RingConstruction)
    );
    let two_corners = vec![at(0, 0), at(10, 0), at(0, 0)];
    assert_eq!(
        map_poly_from_json_gps(&vec![two_corners], &b).err(),
        Some(IngestError::RingConstruction)
    );
    let twice = vec![at(0, 0), at(10, 0), at(10, 10), at(10, 0), at(0, 10), at(0, 0)];
    assert_eq!(
        map_poly_from_json_gps(&vec![twice], &b).err(),
        Some(IngestError::RingConstruction)
    );
    assert_eq!(
        map_poly_from_json_gps(&vec![vec![]], &b).err(),
        Some(IngestError::RingConstruction)
    );
    // a sound outline does not make up for a bad hole
    assert_eq!(
        map_poly_from_json_gps(&vec![square(0, 100), vec![at(1, 1)]], &b).err(),
        Some(IngestError::RingConstruction)
    );
}

#[test]
fn rings_that_leave_the_frame_give_no_polygon() {
    let b = bounds();
    let far = vec![at(0, 0), at(i64::MAX, 0), at(0, 10), at(0, 0)];
    assert_eq!(map_poly_from_json_gps(&vec![far], &b).err(), Some(IngestError::RingConstruction));
    // in the frame after projection, outside it after the offset
    let edge = GPSBounds::new(0, 0, 10, 10, pt(FRAME_LIMIT, FRAME_LIMIT), false).unwrap();
    let low = vec![at(0, 0), at(5, 0), at(5, 5), at(0, 0)];
    assert!(at(0, 0).to_pt(&edge).is_ok());
    assert_eq!(map_poly_from_json_gps(&vec![low], &edge).err(), Some(IngestError::RingConstruction));
    let high = vec![at(5, 10), at(10, 10), at(10, 5), at(5, 10)];
    assert!(map_poly_from_json_gps(&vec![high], &edge).is_ok());
}

#[test]
fn positions_that_fall_together_make_a_ring_degenerate() {
    // 10 units of the box to 1 of the frame: the corners fall on two points
    let coarse = GPSBounds::new(0, 0, 100, 100, pt(10, 10), false).unwrap();
    let small = vec![at(1, 1), at(5, 1), at(5, 5), at(1, 5), at(1, 1)];
    assert_eq!(
        map_poly_from_json_gps(&vec![small], &coarse).err(),
        Some(IngestError::RingConstruction)
    );
    let wide = vec![at(0, 0), at(50, 0), at(50, 50), at(0, 50), at(0, 0)];
    assert!(map_poly_from_json_gps(&vec![wide], &coarse).is_ok());
}

#[test]
fn degenerate_bounds_give_nothing() {
    let line = GPSBounds::new(0, 0, 0, 10, pt(10, 10), false).unwrap();
    assert_eq!(
        map_poly_from_json_gps(&vec![square(0, 10)], &line).err(),
        Some(IngestError::DegenerateBounds)
    );
    assert_eq!(map_poly_from_json_gps(&vec![], &line).err(), Some(IngestError::DegenerateBounds));
    assert_eq!(
        match_geometry(&Geometry::Polygon(vec![]), &line).err(),
        Some(IngestError::DegenerateBounds)
    );
    assert_eq!(match_geometry(&Geometry::Point, &line).err(), Some(IngestError::UnsupportedGeometry));
    let doc = GeoJson::FeatureCollection(vec![]);
    assert_eq!(process_geojson(&doc, &line).err(), Some(IngestError::DegenerateBounds));
    assert_eq!(
        get_geneva_sub_area(&doc, &line, &boundary(0, 10)).err(),
        Some(IngestError::DegenerateBounds)
    );
    assert_eq!(
        read_geneva_sub_area(&doc, &line, &boundary(0, 10)).err(),
        Some(IngestError::DegenerateBounds)
    );
}

#[test]
fn only_polygons_are_taken() {
    let b = bounds();
    for other in [
        Geometry::Point,
        Geometry::MultiPoint,
        Geometry::LineString,
        Geometry::MultiLineString,
        Geometry::MultiPolygon,
        Geometry::GeometryCollection,
    ] {
        assert_eq!(match_geometry(&other, &b).err(), Some(IngestError::UnsupportedGeometry));
    }
    let p = match_geometry(&Geometry::Polygon(vec![square(100_000, 200_000)]), &b).unwrap();
    assert_eq!(corners(&p)[0][0], (40_000, 1_040_000));
    assert_eq!(
        match_geometry(&Geometry::Polygon(vec![vec![at(0, 0)]]), &b).err(),
        Some(IngestError::RingConstruction)
    );
}

#[test]
fn features_are_processed_in_their_order() {
    let doc = GeoJson::FeatureCollection(vec![
        feature(Geometry::LineString, "a line"),
        feature(Geometry::Polygon(vec![square(100_000, 200_000)]), "first"),
        Feature { geometry: None, properties: Some(named("nothing")) },
        feature(Geometry::Polygon(vec![vec![at(0, 0), at(1, 1)]]), "broken"),
        Feature { geometry: Some(Geometry::Polygon(vec![square(300_000, 400_000)])), properties: None },
        feature(Geometry::MultiPolygon, "many"),
    ]);
    let found = process_geojson(&doc, &bounds()).unwrap();
    assert_eq!(found.areas.len(), 2);
    assert_eq!(corners(&found.areas[0].0)[0][0], (40_000, 1_040_000));
    assert_eq!(found.areas[0].1, Some(named("first")));
    assert_eq!(corners(&found.areas[1].0)[0][0], (240_000, 840_000));
    assert_eq!(found.areas[1].1, None);
    assert_eq!(
        found.warnings,
        vec![
            Warning { feature: 0, reason: Skipped::UnsupportedGeometry },
            Warning { feature: 3, reason: Skipped::RingConstruction },
            Warning { feature: 5, reason: Skipped::UnsupportedGeometry },
        ]
    );
}

#[test]
fn attributes_pass_through_untouched() {
    let mut attrs = Properties::new();
    attrs.insert("NUMERO".to_string(), serde_json::Value::from(42));
    attrs.insert("nested".to_string(), serde_json::Value::Array(vec![serde_json::Value::Null]));
    let doc = GeoJson::Feature(Feature {
        geometry: Some(Geometry::Polygon(vec![square(100_000, 200_000)])),
        properties: Some(attrs.clone()),
    });
    let found = process_geojson(&doc, &bounds()).unwrap();
    assert_eq!(found.areas.len(), 1);
    assert_eq!(found.areas[0].1, Some(attrs));
    assert_eq!(found.areas[0].1.as_ref().unwrap().get("NUMERO"), Some(&serde_json::Value::from(42)));
    assert!(found.warnings.is_empty());
}

#[test]
fn a_shape_alone_is_a_document() {
    let alone = GeoJson::Geometry(Geometry::Polygon(vec![square(100_000, 200_000)]));
    let found = process_geojson(&alone, &bounds()).unwrap();
    assert_eq!(found.areas.len(), 1);
    assert_eq!(found.areas[0].1, None);
    let point = process_geojson(&GeoJson::Geometry(Geometry::Point), &bounds()).unwrap();
    assert!(point.areas.is_empty());
    assert_eq!(point.warnings, vec![Warning { feature: 0, reason: Skipped::UnsupportedGeometry }]);
    let bare = GeoJson::Feature(Feature { geometry: None, properties: None });
    let nothing = process_geojson(&bare, &bounds()).unwrap();
    assert!(nothing.areas.is_empty() && nothing.warnings.is_empty());
    let empty = process_geojson(&GeoJson::FeatureCollection(vec![]), &bounds()).unwrap();
    assert!(empty.areas.is_empty() && empty.warnings.is_empty());
}

#[test]
fn three_features_one_retained() {
    // The map's boundary is the square from 0 to 300 m. After the offset the
    // first polygon has the corner (40 000, 240 000) strictly inside it; the
    // second lies far to the east.
    let edge = boundary(0, 300_000);
    let doc = GeoJson::FeatureCollection(vec![
        feature(Geometry::Point, "a point"),
        feature(Geometry::Polygon(vec![square(100_000, 900_000)]), "inside"),
        feature(Geometry::Polygon(vec![square(600_000, 700_000)]), "outside"),
    ]);
    let found = get_geneva_sub_area(&doc, &bounds(), &edge).unwrap();
    assert_eq!(found.areas.len(), 1);
    assert_eq!(found.areas[0].1, Some(named("inside")));
    assert_eq!(corners(&found.areas[0].0)[0][3], (40_000, 240_000));
    assert_eq!(found.warnings.len(), 2);
    let count = |reason: Skipped| found.warnings.iter().filter(|w| w.reason == reason).count();
    assert_eq!(count(Skipped::UnsupportedGeometry), 1);
    assert_eq!(count(Skipped::RingConstruction), 0);
    assert_eq!(count(Skipped::OutsideBoundary), 1);
    assert_eq!(
        found.warnings,
        vec![
            Warning { feature: 0, reason: Skipped::UnsupportedGeometry },
            Warning { feature: 2, reason: Skipped::OutsideBoundary },
        ]
    );
    // without the boundary both polygons are taken
    let all = process_geojson(&doc, &bounds()).unwrap();
    assert_eq!(all.areas.len(), 2);
    assert_eq!(all.warnings, vec![Warning { feature: 0, reason: Skipped::UnsupportedGeometry }]);
}

#[test]
fn polygons_are_read_without_their_attributes() {
    let edge = boundary(0, 300_000);
    let doc = GeoJson::FeatureCollection(vec![
        feature(Geometry::Polygon(vec![square(100_000, 900_000)]), "first"),
        feature(Geometry::Polygon(vec![square(600_000, 700_000)]), "outside"),
        feature(Geometry::Point, "a point"),
        feature(Geometry::Polygon(vec![square(200_000, 900_000)]), "second"),
        feature(Geometry::Polygon(vec![square(150_000, 900_000)]), "third"),
    ]);
    let polygons = read_geneva_sub_area(&doc, &bounds(), &edge).unwrap();
    let firsts: Vec<(i64, i64)> = polygons.iter().map(|p| corners(p)[0][3]).collect();
    assert_eq!(firsts, vec![(40_000, 240_000), (140_000, 240_000), (90_000, 240_000)]);
}

#[test]
fn polygon_around_the_boundary_is_not_retained() {
    // The known approximation: the polygon covers the whole boundary, but
    // none of its corners lies inside.
    let edge = boundary(400_000, 500_000);
    let doc = GeoJson::Feature(feature(Geometry::Polygon(vec![square(100_000, 900_000)]), "around"));
    let found = get_geneva_sub_area(&doc, &bounds(), &edge).unwrap();
    assert!(found.areas.is_empty());
    assert_eq!(found.warnings, vec![Warning { feature: 0, reason: Skipped::OutsideBoundary }]);
}

#[test]
fn residents_move_into_homes() {
    assert_eq!(
        BuildingType::Residential { num_residents: 1, num_housing_units: 4 }.with_residents(9),
        Some(BuildingType::Residential { num_residents: 9, num_housing_units: 4 })
    );
    assert_eq!(
        BuildingType::ResidentialCommercial(1, 7).with_residents(9),
        Some(BuildingType::ResidentialCommercial(9, 7))
    );
    assert_eq!(BuildingType::Commercial(7).with_residents(9), None);
    assert_eq!(BuildingType::Empty.with_residents(9), None);
}

#[test]
fn residents_are_distributed_in_the_order_given() {
    let mut buildings = vec![
        BuildingType::Residential { num_residents: 0, num_housing_units: 2 },
        BuildingType::Commercial(5),
        BuildingType::ResidentialCommercial(0, 3),
        BuildingType::Empty,
        BuildingType::Residential { num_residents: 8, num_housing_units: 1 },
    ];
    assert_eq!(distribute_residents(&mut buildings, &vec![(2, 10), (0, 4), (2, 11)]), Ok(()));
    assert_eq!(
        buildings,
        vec![
            BuildingType::Residential { num_residents: 4, num_housing_units: 2 },
            BuildingType::Commercial(5),
            BuildingType::ResidentialCommercial(11, 3),
            BuildingType::Empty,
            BuildingType::Residential { num_residents: 8, num_housing_units: 1 },
        ]
    );
    assert_eq!(distribute_residents(&mut buildings, &vec![]), Ok(()));
}

#[test]
fn residents_for_a_building_that_is_no_home_change_nothing() {
    let start = vec![
        BuildingType::Residential { num_residents: 0, num_housing_units: 2 },
        BuildingType::Commercial(5),
        BuildingType::Empty,
    ];
    let mut buildings = start.clone();
    assert_eq!(distribute_residents(&mut buildings, &vec![(0, 4), (1, 2), (2, 2)]), Err(1));
    assert_eq!(buildings, start);
    assert_eq!(distribute_residents(&mut buildings, &vec![(2, 1)]), Err(0));
    assert_eq!(distribute_residents(&mut buildings, &vec![(0, 4), (0, 5), (3, 1)]), Err(2));
    assert_eq!(buildings, start);
}
