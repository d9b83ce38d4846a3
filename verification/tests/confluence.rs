use via::confluence::{detect, river_donors_of, verify_definition, ConfluenceSite};

// 5×5 grid; a main stem flows west along row 2 and a tributary joins
// from the north at (2,2). Receivers elsewhere self-point (ocean).
fn fixture() -> (u32, u32, Vec<u32>, Vec<u32>, Vec<u64>) {
    let (w, h) = (5u32, 5u32);
    let n = (w * h) as usize;
    let idx = |x: u32, y: u32| y * w + x;
    let mut receivers: Vec<u32> = (0..n as u32).collect();
    let mut strahler = vec![0u32; n];
    let mut area = vec![1u64; n];
    // Main stem: (4,2) -> (3,2) -> (2,2) -> (1,2) -> (0,2).
    for x in 1..=4 {
        receivers[idx(x, 2) as usize] = idx(x - 1, 2);
        strahler[idx(x, 2) as usize] = 1;
    }
    // Outlet cell (0,2) stays strahler 0: not a river.
    // Tributary: (2,0) -> (2,1) -> (2,2).
    receivers[idx(2, 0) as usize] = idx(2, 1);
    receivers[idx(2, 1) as usize] = idx(2, 2);
    strahler[idx(2, 0) as usize] = 1;
    strahler[idx(2, 1) as usize] = 1;
    // Drainage: main stem donor (3,2) carries 10 cells, tributary
    // donor (2,1) carries 4.
    area[idx(3, 2) as usize] = 10;
    area[idx(2, 1) as usize] = 4;
    (w, h, receivers, strahler, area)
}

fn symmetry_ratio(s: &ConfluenceSite) -> f64 {
    s.donor_area_cells_smaller as f64 / s.donor_area_cells_larger as f64
}

#[test]
fn junction_is_detected_with_exact_symmetry_ratio() {
    let (w, h, receivers, strahler, area) = fixture();
    let sites = detect(w, h, &receivers, &strahler, &area);
    assert_eq!(sites.len(), 1);
    let s = &sites[0];
    assert_eq!((s.x, s.y), (2, 2));
    assert_eq!(s.river_donors, 2);
    assert_eq!(s.donor_area_cells_larger, 10);
    assert_eq!(s.donor_area_cells_smaller, 4);
    assert!((symmetry_ratio(s) - 0.4).abs() < 1e-12);
    assert!(verify_definition(w, h, &receivers, &strahler, &sites));
}

#[test]
fn verification_rejects_missing_and_spurious_sites() {
    let (w, h, receivers, strahler, area) = fixture();
    let sites = detect(w, h, &receivers, &strahler, &area);
    assert!(!verify_definition(w, h, &receivers, &strahler, &[]));
    let mut spurious = sites.clone();
    spurious.push(ConfluenceSite {
        cell: 0,
        x: 0,
        y: 0,
        strahler: 0,
        river_donors: 2,
        donor_area_cells_larger: 1,
        donor_area_cells_smaller: 1,
    });
    assert!(!verify_definition(w, h, &receivers, &strahler, &spurious));
}

#[test]
fn wrong_donor_count_is_rejected() {
    let (w, h, receivers, strahler, area) = fixture();
    let mut sites = detect(w, h, &receivers, &strahler, &area);
    sites[0].river_donors = 3;
    assert!(!verify_definition(w, h, &receivers, &strahler, &sites));
}

#[test]
fn three_donors_keep_the_two_largest() {
    let (w, h, mut receivers, mut strahler, mut area) = fixture();
    // A third river donor from the south: (2,3) -> (2,2), 7 cells.
    receivers[(3 * w + 2) as usize] = 2 * w + 2;
    strahler[(3 * w + 2) as usize] = 1;
    area[(3 * w + 2) as usize] = 7;
    let donors = river_donors_of(w, h, 2 * w + 2, &receivers, &strahler);
    // Scan order: N, E, S.
    assert_eq!(donors, vec![w + 2, 2 * w + 3, 3 * w + 2]);
    let sites = detect(w, h, &receivers, &strahler, &area);
    assert_eq!(sites.len(), 1);
    assert_eq!(sites[0].river_donors, 3);
    assert_eq!(sites[0].donor_area_cells_larger, 10);
    assert_eq!(sites[0].donor_area_cells_smaller, 7);
    assert!(verify_definition(w, h, &receivers, &strahler, &sites));
}

#[test]
fn equal_donor_areas_give_ratio_one() {
    let (w, h, receivers, strahler, mut area) = fixture();
    area[(2 * w + 3) as usize] = 4;
    let sites = detect(w, h, &receivers, &strahler, &area);
    assert_eq!(sites[0].donor_area_cells_larger, 4);
    assert_eq!(sites[0].donor_area_cells_smaller, 4);
    assert_eq!(symmetry_ratio(&sites[0]), 1.0);
}

#[test]
fn patches_are_ranked_by_size_deterministically() {
    // Two patches: a 2×2 block and a 1×3 strip, min 2 cells.
    let w = 6;
    let mut suitable = vec![false; 36];
    for &(x, y) in &[(0u32, 0u32), (1, 0), (0, 1), (1, 1)] {
        suitable[(y * w + x) as usize] = true;
    }
    for &(x, y) in &[(4u32, 4u32), (5, 4), (4, 5)] {
        suitable[(y * w + x) as usize] = true;
    }
    let patches = via::suitability::extract_patches(w, 6, &suitable, 2);
    assert_eq!(patches.len(), 2);
    assert_eq!(patches[0].len(), 4);
    assert_eq!(patches[1].len(), 3);
    assert_eq!(patches[0][0], 0); // scan order within the patch
}

#[test]
fn small_patches_are_dropped_and_ties_go_to_the_first_cell() {
    // 4×3: two 2-cell strips and one single cell, min 2 cells.
    let w = 4;
    let suitable = vec![
        true, true, false, true, //
        false, false, false, false, //
        false, false, true, true,
    ];
    let patches = via::suitability::extract_patches(w, 3, &suitable, 2);
    assert_eq!(patches, vec![vec![0, 1], vec![10, 11]]);
    // Diagonal contact does not join 4-connected patches.
    let suitable = vec![true, false, false, true];
    let patches = via::suitability::extract_patches(2, 2, &suitable, 1);
    assert_eq!(patches, vec![vec![0], vec![3]]);
}

#[test]
fn patch_cells_come_in_breadth_first_order() {
    // 3×3 fully suitable: from cell 0, west/east/north/south neighbours in
    // turn: 0, then 1 and 3, then 2 and 4 (from 1), then 6 (from 3), ...
    let suitable = vec![true; 9];
    let patches = via::suitability::extract_patches(3, 3, &suitable, 1);
    assert_eq!(patches, vec![vec![0, 1, 3, 2, 4, 6, 5, 7, 8]]);
}

#[test]
fn patches_share_no_cell_and_skip_only_small_components() {
    // 5×3: a 5-cell strip on row 0, a 2-cell pair and a lone cell on row 2.
    let suitable = vec![
        true, true, true, true, true, //
        false, false, false, false, false, //
        true, true, false, true, false,
    ];
    let patches = via::suitability::extract_patches(5, 3, &suitable, 2);
    assert_eq!(patches, vec![vec![0, 1, 2, 3, 4], vec![10, 11]]);
    for (k, p) in patches.iter().enumerate() {
        for q in &patches[k + 1..] {
            assert!(p.iter().all(|c| !q.contains(c)));
        }
    }
    assert!(patches.iter().all(|p| !p.contains(&13)));
}
