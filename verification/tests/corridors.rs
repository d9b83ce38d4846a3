use via::corridors::{
    anchor, lattice_sources, node_set, resolve_spacing, river_mouths, SiteClass, SpacingTooFine, StepMode,
};

#[test]
fn river_mouths_are_river_cells_draining_to_ocean() {
    // 4×1: ocean at 0, river 3 -> 2 -> 1 -> 0; cell 1 is the mouth.
    let receivers = vec![0u32, 0, 1, 2];
    let strahler = vec![0u32, 1, 1, 1];
    assert_eq!(river_mouths(4, 1, &receivers, &strahler), vec![1]);
    // A non-river cell draining to the ocean is no mouth.
    let strahler = vec![0u32, 0, 1, 1];
    assert_eq!(river_mouths(4, 1, &receivers, &strahler), Vec::<u32>::new());
}

#[test]
fn spacing_defaults_to_a_32nd_of_the_longer_side() {
    assert_eq!(resolve_spacing(None, 128, 64), Ok(4));
    assert_eq!(resolve_spacing(None, 10, 20), Ok(1));
    assert_eq!(resolve_spacing(Some(7), 128, 64), Ok(7));
}

#[test]
fn too_fine_a_lattice_is_refused() {
    // 1-cell spacing on 300×300: 90000 sources, 90000·89999 > u32::MAX.
    assert_eq!(
        resolve_spacing(Some(1), 300, 300),
        Err(SpacingTooFine { spacing: 1, bound: 90_000 })
    );
    // 65536 sources: 65536·65535 = 2^32 - 2^16 fits.
    assert_eq!(resolve_spacing(Some(1), 256, 256), Ok(1));
    // 65537 sources do not.
    assert!(resolve_spacing(Some(1), 65_537, 1).is_err());
}

#[test]
fn node_set_orders_classes_then_cells() {
    let w = 4;
    let land = vec![true, true, false, false, true, false, false, false];
    let water = vec![false, false, true, false, false, false, false, false];
    let nodes = node_set(w, &land, &water, &[4, 1], &[2], &[7, 0]);
    let got: Vec<(SiteClass, u32, bool)> = nodes.iter().map(|n| (n.class, n.cell, n.anchored)).collect();
    assert_eq!(
        got,
        vec![
            (SiteClass::Pass, 1, true),
            (SiteClass::Pass, 4, true),
            (SiteClass::HeadOfNavigation, 2, true),
            (SiteClass::RiverMouth, 0, true),
            (SiteClass::RiverMouth, 7, false),
        ]
    );
    assert_eq!((nodes[1].x, nodes[1].y), (0, 1));
    assert!(nodes.iter().all(|n| n.component == -1));
}

#[test]
fn serialized_names() {
    assert_eq!(SiteClass::HeadOfNavigation.name(), "head_of_navigation");
    assert_eq!(SiteClass::RiverMouth.name(), "river_mouth");
    assert_eq!(SiteClass::Pass.name(), "pass");
    assert_eq!(StepMode::Water.name(), "water");
    assert_eq!(StepMode::Land.name(), "land");
}

#[test]
fn lattice_sources_sit_on_dry_ground_at_the_spacing() {
    // 7×5, spacing 3: offset 1, lattice columns 1 and 4, rows 1 and 4.
    let (w, h) = (7u32, 5u32);
    let n = (w * h) as usize;
    let land = vec![true; n];
    let strahler = vec![0u32; n];
    let dry = vec![true; n];
    assert_eq!(
        lattice_sources(w, h, &land, &strahler, &dry, 3),
        vec![w + 1, w + 4, 4 * w + 1, 4 * w + 4]
    );
    // A channel cell, a wet cell and a missing land node drop out.
    let mut strahler = strahler;
    strahler[(w + 1) as usize] = 2;
    let mut dry = dry;
    dry[(w + 4) as usize] = false;
    let mut land = land;
    land[(4 * w + 1) as usize] = false;
    assert_eq!(lattice_sources(w, h, &land, &strahler, &dry, 3), vec![4 * w + 4]);
}

#[test]
fn unit_spacing_takes_every_dry_cell() {
    let land = vec![true, false, true, true];
    let strahler = vec![0u32; 4];
    let dry = vec![true; 4];
    assert_eq!(lattice_sources(2, 2, &land, &strahler, &dry, 1), vec![0, 2, 3]);
    // An offset past the grid leaves no source.
    assert!(lattice_sources(2, 2, &land, &strahler, &dry, 6).is_empty());
}

#[test]
fn a_site_anchors_on_land_first_then_water() {
    // 3×2 grid: cell 1 carries both nodes, cell 2 only water, cell 3 none.
    let (w, h) = (3u32, 2u32);
    let land_node = vec![true, true, false, false, true, true];
    let water_node = vec![false, true, true, false, false, false];
    assert_eq!(anchor(w, h, &land_node, &water_node, 1), Some(1));
    assert_eq!(anchor(w, h, &land_node, &water_node, 2), Some(6 + 2));
    assert_eq!(anchor(w, h, &land_node, &water_node, 3), None);
}

#[test]
fn river_mouths_read_only_the_grid_cells() {
    // An empty grid has no mouths.
    assert!(river_mouths(0, 0, &[], &[]).is_empty());
    assert!(river_mouths(3, 0, &[0, 1], &[1, 1]).is_empty());
    // Slices longer than the grid: only the first w*h cells are read.
    // 2×1 grid: cell 1 drains into ocean cell 0; cell 2 lies past the grid.
    assert_eq!(river_mouths(2, 1, &[0, 0, 0], &[0, 1, 1]), vec![1]);
}

#[test]
fn the_trunk_raster_counts_each_edge_once_per_cell() {
    let paths = vec![vec![1u32, 2, 2, 3], vec![3, 4], vec![], vec![2, 1, 2]];
    assert_eq!(via::corridors::trunk_raster(6, &paths), vec![0, 2, 2, 2, 1, 0]);
    assert_eq!(via::corridors::trunk_raster(3, &[]), vec![0, 0, 0]);
}
