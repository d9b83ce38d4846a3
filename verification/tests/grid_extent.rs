use via::corridors::lattice_sources;
use via::navigability::{head_of_navigation, mouth_connected};
use via::passes::{detect, detect_min_persistence};
use via::qa::basin_boundary_cols;
use via::suitability::extract_patches;
use via::terrain::ocean_mask;

#[test]
fn an_empty_grid_has_no_cells_to_report() {
    assert!(ocean_mask(0, 4, &[]).is_empty());
    assert!(ocean_mask(3, 0, &[]).is_empty());
    assert!(via::confluence::detect(0, 2, &[], &[], &[]).is_empty());
    assert!(lattice_sources(2, 0, &[], &[], &[], 1).is_empty());
    assert!(mouth_connected(0, 0, &[], &[], &[]).is_empty());
    assert!(head_of_navigation(0, 5, &[], &[], &[]).is_empty());
    assert!(detect(4, 0, &[], &[]).is_empty());
    assert!(detect_min_persistence(0, 4, &[], &[], 0).is_empty());
    assert!(basin_boundary_cols(0, 1, &[], &[], &[]).is_empty());
    assert!(extract_patches(0, 7, &[], 1).is_empty());
}

#[test]
fn entries_past_the_grid_are_not_read() {
    let below = [true, false, true, true, false, true];
    assert_eq!(ocean_mask(3, 1, &below), ocean_mask(3, 1, &below[..3]));
    let heights = [5, 1, 5, 0, 1, 0, 9, 9];
    let land = [true, true, true, true, true, true, false, true];
    assert_eq!(detect(3, 2, &heights, &land), detect(3, 2, &heights[..6], &land[..6]));
    assert_eq!(
        detect_min_persistence(3, 2, &heights, &land, 0),
        detect_min_persistence(3, 2, &heights[..6], &land[..6], 0)
    );
    let suitable = [true, false, true, true, true, true, true];
    assert_eq!(extract_patches(2, 2, &suitable, 1), vec![vec![0, 2, 3]]);
    let keys = [3i64, 1, 2, 4, 0];
    let basin = [0u32, 0, 1, 1, 7];
    let land4 = [true, true, true, true, true];
    assert_eq!(
        basin_boundary_cols(2, 2, &keys, &basin, &land4),
        basin_boundary_cols(2, 2, &keys[..4], &basin[..4], &land4[..4])
    );
}

#[test]
fn flow_readers_ignore_entries_past_the_grid() {
    let receivers = [0u32, 0, 1, 2, 99];
    let land = [false, true, true, true, true];
    let navigable = [0u32, 1, 1, 1, 1];
    assert_eq!(
        mouth_connected(4, 1, &receivers, &land, &navigable),
        mouth_connected(4, 1, &receivers[..4], &land[..4], &navigable[..4])
    );
    assert_eq!(
        head_of_navigation(4, 1, &receivers, &land, &navigable),
        head_of_navigation(4, 1, &receivers[..4], &land[..4], &navigable[..4])
    );
    let strahler = [0u32, 2, 1, 1, 5];
    let area = [4u64, 3, 2, 1, 8];
    assert_eq!(
        via::confluence::detect(4, 1, &receivers, &strahler, &area),
        via::confluence::detect(4, 1, &receivers[..4], &strahler[..4], &area[..4])
    );
    assert_eq!(
        via::qa::mainstem(4, 1, &receivers, &strahler, &area, 1),
        via::qa::mainstem(4, 1, &receivers[..4], &strahler[..4], &area[..4], 1)
    );
    assert_eq!(via::qa::mainstem(4, 1, &receivers, &strahler, &area, 1), vec![1, 2, 3]);
    let dry = [true, true, true, true, false];
    assert_eq!(
        lattice_sources(4, 1, &land, &strahler, &dry, 1),
        lattice_sources(4, 1, &land[..4], &strahler[..4], &dry[..4], 1)
    );
    let water = [true, false, false, false, true];
    assert_eq!(
        via::corridors::anchor(4, 1, &land, &water, 2),
        via::corridors::anchor(4, 1, &land[..4], &water[..4], 2)
    );
}

#[test]
fn the_confluence_gate_reads_only_the_grid() {
    assert!(via::confluence::verify_definition(0, 3, &[], &[], &[]));
    // 3×2: cells 2 and 4 both drain into 1, which drains to the ocean at 0.
    let receivers = [0u32, 0, 1, 0, 1, 4, 9];
    let strahler = [0u32, 2, 1, 0, 1, 1, 7];
    let area = [6u64, 5, 1, 1, 2, 1, 0];
    let sites = via::confluence::detect(3, 2, &receivers, &strahler, &area);
    assert_eq!(sites.len(), 1);
    assert_eq!(sites[0].cell, 1);
    assert!(via::confluence::verify_definition(3, 2, &receivers, &strahler, &sites));
    assert!(via::confluence::verify_definition(3, 2, &receivers[..6], &strahler[..6], &sites));
}
