use via::text::InvalidLabel;
use via::{corridors, settlement, suitability};

#[test]
fn labels_are_confined_to_safe_filename_characters() {
    for ok in ["village_site", "site-2", "a"] {
        assert!(suitability::validate_label(ok).is_ok(), "{ok:?} should be accepted");
    }
    for bad in ["", "Village", "a b", "a/b", "../x", "sité"] {
        assert!(suitability::validate_label(bad).is_err(), "{bad:?} should be rejected");
    }
    assert_eq!(
        suitability::raster_filename("village_site", "slope"),
        "suitability.village_site.slope.vrast"
    );
    assert_eq!(
        suitability::summary_filename("village_site"),
        "suitability.village_site.json"
    );
}

#[test]
fn corridor_labels_and_filenames() {
    assert_eq!(corridors::validate_label("site-2"), Ok(()));
    assert_eq!(corridors::validate_label(""), Err(InvalidLabel));
    assert_eq!(corridors::validate_label("Site"), Err(InvalidLabel));
    assert_eq!(corridors::raster_filename("site", "trunk"), "corridors.site.trunk.vrast");
    assert_eq!(corridors::summary_filename("site"), "corridors.site.json");
    assert_eq!(
        corridors::via_suit_raster_filename("coast", "navigable"),
        "suitability.coast.navigable.vrast"
    );
}

#[test]
fn settlement_labels_refuse_hyphens() {
    assert!(settlement::validate_label("site_2").is_ok());
    assert_eq!(settlement::validate_label("site-2"), Err(InvalidLabel));
    assert_eq!(settlement::validate_label(""), Err(InvalidLabel));
    assert_eq!(settlement::summary_filename("site_2"), "settlement.site_2.json");
}
