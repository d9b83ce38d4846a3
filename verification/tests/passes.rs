use via::passes::{detect, detect_min_persistence, is_higher, ring_test, SaddleSite};

// The stage reports sites whose persistence, in metres, reaches the
// configured floor; heights are whole centimetres, so the floor is the
// least whole number of centimetres at or above it.
fn detect_m(w: u32, h: u32, heights: &[i32], land: &[bool], min_persistence_m: f64) -> Vec<SaddleSite> {
    detect_min_persistence(w, h, heights, land, (min_persistence_m * 100.0).ceil() as i64)
}

fn persistence_m(s: &SaddleSite) -> f64 {
    s.persistence_cm as f64 / 100.0
}

// 7×5, all land: two peaks on row 2 (A = 100 m at x=1, B = 80 m at
// x=5) joined over a 50 m col at x=3; everything else 1 cm.
fn fixture() -> (u32, u32, Vec<i32>, Vec<bool>) {
    let (w, h) = (7u32, 5u32);
    let n = (w * h) as usize;
    let mut heights = vec![1i32; n];
    let row = |x: u32| (2 * w + x) as usize;
    heights[row(1)] = 10_000;
    heights[row(2)] = 6_000;
    heights[row(3)] = 5_000;
    heights[row(4)] = 6_000;
    heights[row(5)] = 8_000;
    (w, h, heights, vec![true; n])
}

#[test]
fn col_between_two_peaks_gets_exact_persistence() {
    let (w, h, heights, land) = fixture();
    let sites = detect_m(w, h, &heights, &land, 0.0);
    // Exactly one site above the trivial floor: the col at (3,2),
    // pairing away peak B (80 m): persistence = 80 − 50 = 30 m.
    let major: Vec<_> = sites.iter().filter(|s| persistence_m(s) > 1.0).collect();
    assert_eq!(major.len(), 1);
    let s = major[0];
    assert_eq!((s.x, s.y), (3, 2));
    assert!((persistence_m(s) - 30.0).abs() < 1e-9);
    assert_eq!(s.peak_cell, 2 * w + 5);
    assert!(s.ring_saddle, "ideal col should satisfy the ring operator");
}

#[test]
fn persistence_floor_prunes() {
    let (w, h, heights, land) = fixture();
    assert!(!detect_m(w, h, &heights, &land, 29.0).is_empty());
    assert!(detect_m(w, h, &heights, &land, 31.0)
        .iter()
        .all(|s| persistence_m(s) >= 31.0));
}

#[test]
fn equal_height_plateau_col_yields_exactly_one_major_site() {
    // Widen the col to three equal-height cells; the tie-break must
    // pick exactly one merge cell, deterministically.
    let (w, h, mut heights, land) = fixture();
    heights[(2 * w + 2) as usize] = 5_000;
    heights[(2 * w + 4) as usize] = 5_000;
    let a = detect_m(w, h, &heights, &land, 10.0);
    let b = detect_m(w, h, &heights, &land, 10.0);
    assert_eq!(a.len(), 1);
    assert_eq!(a[0].cell, b[0].cell);
    assert!((persistence_m(&a[0]) - 30.0).abs() < 1e-9);
}

#[test]
fn ocean_cells_are_outside_the_domain() {
    let (w, h, heights, mut land) = fixture();
    // Sink everything except the two peaks and the col into ocean.
    for (i, l) in land.iter_mut().enumerate() {
        let x = (i as u32) % w;
        let y = (i as u32) / w;
        *l = y == 2 && (1..=5).contains(&x);
    }
    let sites = detect_m(w, h, &heights, &land, 0.0);
    assert_eq!(sites.len(), 1);
    assert_eq!((sites[0].x, sites[0].y), (3, 2));
}

#[test]
fn site_records_carry_exact_heights() {
    let (w, h, heights, land) = fixture();
    let sites = detect(w, h, &heights, &land);
    let s = sites.iter().find(|s| s.cell == 2 * w + 3).unwrap();
    assert_eq!(s.elevation_cm, 5_000);
    assert_eq!(s.peak_elevation_cm, 8_000);
    assert_eq!(s.persistence_cm, 3_000);
    // Ascending cell order.
    assert!(sites.windows(2).all(|p| p[0].cell < p[1].cell));
}

#[test]
fn a_single_peak_has_no_pass() {
    // 3×3 cone: every cell drains up to the centre's one component.
    let heights = vec![1, 2, 1, 2, 9, 2, 1, 2, 1];
    let land = vec![true; 9];
    assert!(detect(3, 3, &heights, &land).is_empty());
}

#[test]
fn sweep_order_breaks_ties_by_index() {
    let heights = vec![5, 5, 7];
    assert!(is_higher(&heights, 0, 1));
    assert!(!is_higher(&heights, 1, 0));
    assert!(is_higher(&heights, 2, 0));
}

#[test]
fn ring_operator_counts_sign_changes() {
    // Centre 5 with higher N and S neighbours and lower E and W: four
    // sign changes around the ring.
    let heights = vec![0, 9, 0, 0, 5, 0, 0, 9, 0];
    assert!(ring_test(3, 3, &heights, 4));
    // A pit: every neighbour higher, no change.
    let heights = vec![9, 9, 9, 9, 5, 9, 9, 9, 9];
    assert!(!ring_test(3, 3, &heights, 4));
}

#[test]
fn the_floor_keeps_exactly_the_persistent_sites() {
    let (w, h, heights, land) = fixture();
    let all = detect(w, h, &heights, &land);
    let kept = detect_min_persistence(w, h, &heights, &land, 3_000);
    let expected: Vec<SaddleSite> = all.iter().copied().filter(|s| s.persistence_cm >= 3_000).collect();
    assert_eq!(kept, expected);
    assert_eq!(kept.len(), 1);
    assert!(detect_min_persistence(w, h, &heights, &land, 3_001).is_empty());
}
