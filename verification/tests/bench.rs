use via::bench::{class_of, way_class, Class, Edge, StreetSet};
use via::ecology::Biome;

#[test]
fn street_sets_keep_their_kinds() {
    assert!(StreetSet::Carriageway.keeps("residential"));
    assert!(StreetSet::Carriageway.keeps("service"));
    assert!(StreetSet::Carriageway.keeps("motorway_link"));
    assert!(!StreetSet::Carriageway.keeps("footway"));
    assert!(StreetSet::AllWays.keeps("footway"));
    assert!(StreetSet::AllWays.keeps("steps"));
    assert!(!StreetSet::AllWays.keeps("alley"));
    assert!(!StreetSet::AllWays.keeps("bridleway"));
    assert_eq!(StreetSet::Carriageway.label(), "carriageway");
    assert_eq!(StreetSet::AllWays.label(), "all_ways");
}

#[test]
fn classes_follow_the_road_hierarchy() {
    assert_eq!(class_of("motorway"), Class::Corridor);
    assert_eq!(class_of("primary_link"), Class::Corridor);
    assert_eq!(class_of("residential"), Class::Street);
    assert_eq!(class_of("service"), Class::Lane);
    assert_eq!(class_of("footway"), Class::Lane);
}

#[test]
fn driveways_and_parking_aisles_are_excluded() {
    assert_eq!(way_class(StreetSet::Carriageway, "service", Some("driveway")), None);
    assert_eq!(way_class(StreetSet::AllWays, "service", Some("parking_aisle")), None);
    assert_eq!(way_class(StreetSet::Carriageway, "service", Some("alley")), Some(Class::Lane));
    assert_eq!(way_class(StreetSet::Carriageway, "tertiary", None), Some(Class::Street));
    assert_eq!(way_class(StreetSet::Carriageway, "path", None), None);
    assert_eq!(way_class(StreetSet::AllWays, "path", None), Some(Class::Lane));
    let e = Edge { a: 0, b: 1, class: Class::Street };
    assert_eq!((e.a, e.b, e.class), (0, 1, Class::Street));
}

#[test]
fn biome_codes_roundtrip_and_name_the_legend() {
    assert_eq!(Biome::Water.code(), 0);
    assert_eq!(Biome::Lake.code(), 13);
    assert_eq!(Biome::from_code(7), Some(Biome::Savanna));
    assert_eq!(Biome::from_code(14), None);
    for c in 0..14u32 {
        assert_eq!(Biome::from_code(c).unwrap().code(), c);
    }
    assert_eq!(Biome::TemperateSeasonalForest.name(), "temperate_seasonal_forest");
    assert_eq!(Biome::BareRock.name(), "bare_rock");
}
