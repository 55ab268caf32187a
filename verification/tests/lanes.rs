use synthetic::lanes::{LaneType, RoadSpec};

#[test]
fn lane_letters() {
    assert_eq!(LaneType::Driving.to_char(), 'd');
    assert_eq!(LaneType::Parking.to_char(), 'p');
    assert_eq!(LaneType::Sidewalk.to_char(), 's');
    assert_eq!(LaneType::Biking.to_char(), 'b');
    assert_eq!(LaneType::Bus.to_char(), 'u');
    assert_eq!(LaneType::from_char('d'), Some(LaneType::Driving));
    assert_eq!(LaneType::from_char('p'), Some(LaneType::Parking));
    assert_eq!(LaneType::from_char('s'), Some(LaneType::Sidewalk));
    assert_eq!(LaneType::from_char('b'), Some(LaneType::Biking));
    assert_eq!(LaneType::from_char('u'), Some(LaneType::Bus));
    assert_eq!(LaneType::from_char('x'), None);
    assert_eq!(LaneType::from_char('/'), None);
    assert_eq!(LaneType::from_char('D'), None);
}

#[test]
fn default_lanes_are_driving_parking_sidewalk() {
    let spec = RoadSpec::default_lanes();
    assert_eq!(spec.fwd, vec![LaneType::Driving, LaneType::Parking, LaneType::Sidewalk]);
    assert_eq!(spec.back, vec![LaneType::Driving, LaneType::Parking, LaneType::Sidewalk]);
    assert_eq!(spec.to_string(), "dps/dps");
}

#[test]
fn lanes_are_written_with_a_slash_between_the_directions() {
    let spec = RoadSpec {
        fwd: vec![LaneType::Driving, LaneType::Bus, LaneType::Biking],
        back: vec![LaneType::Sidewalk],
    };
    assert_eq!(spec.to_string(), "dub/s");
    assert_eq!(RoadSpec { fwd: vec![], back: vec![] }.to_string(), "/");
    assert_eq!(RoadSpec { fwd: vec![LaneType::Parking], back: vec![] }.to_string(), "p/");
    assert_eq!(RoadSpec { fwd: vec![], back: vec![LaneType::Parking] }.to_string(), "/p");
}

#[test]
fn lanes_are_read_from_their_letters() {
    let spec = RoadSpec::parse("dub/sp").unwrap();
    assert_eq!(spec.fwd, vec![LaneType::Driving, LaneType::Bus, LaneType::Biking]);
    assert_eq!(spec.back, vec![LaneType::Sidewalk, LaneType::Parking]);
    let one_way = RoadSpec::parse("ds/").unwrap();
    assert_eq!(one_way.fwd, vec![LaneType::Driving, LaneType::Sidewalk]);
    assert!(one_way.back.is_empty());
    let nothing = RoadSpec::parse("/").unwrap();
    assert!(nothing.fwd.is_empty() && nothing.back.is_empty());
}

#[test]
fn text_without_a_slash_has_forward_lanes_only() {
    let spec = RoadSpec::parse("dd").unwrap();
    assert_eq!(spec.fwd, vec![LaneType::Driving, LaneType::Driving]);
    assert!(spec.back.is_empty());
    let empty = RoadSpec::parse("").unwrap();
    assert!(empty.fwd.is_empty() && empty.back.is_empty());
}

#[test]
fn unknown_letters_are_refused() {
    assert!(RoadSpec::parse("dxs/dps").is_none());
    assert!(RoadSpec::parse("dps/dpz").is_none());
    assert!(RoadSpec::parse("d s/d").is_none());
    assert!(RoadSpec::parse("DPS/DPS").is_none());
    assert!(RoadSpec::parse("dé/d").is_none());
    assert!(RoadSpec::parse("x").is_none());
}

#[test]
fn a_second_slash_is_refused() {
    assert!(RoadSpec::parse("d/p/s").is_none());
    assert!(RoadSpec::parse("//").is_none());
    assert!(RoadSpec::parse("dps/dps/").is_none());
}

#[test]
fn decoding_an_encoding_gives_the_lanes_back() {
    let kinds = [
        LaneType::Driving,
        LaneType::Parking,
        LaneType::Sidewalk,
        LaneType::Biking,
        LaneType::Bus,
    ];
    // every composition of up to two lanes each way
    let mut sides: Vec<Vec<LaneType>> = vec![vec![]];
    for a in kinds {
        sides.push(vec![a]);
        for b in kinds {
            sides.push(vec![a, b]);
        }
    }
    for fwd in &sides {
        for back in &sides {
            let spec = RoadSpec { fwd: fwd.clone(), back: back.clone() };
            let again = RoadSpec::parse(&spec.to_string()).unwrap();
            assert_eq!(&again.fwd, fwd);
            assert_eq!(&again.back, back);
        }
    }
}

#[test]
fn copy_of_lanes_is_equal() {
    let spec = RoadSpec::parse("dub/sp").unwrap();
    let copy = spec.duplicate();
    assert_eq!(copy.fwd, spec.fwd);
    assert_eq!(copy.back, spec.back);
}
