use via::qa::{basin_boundary_cols, mainstem};

// Heights in metres become order keys in millimetres.
fn keys(heights: &[f64]) -> Vec<i64> {
    heights.iter().map(|&h| (h * 1000.0).round() as i64).collect()
}

#[test]
fn col_between_two_basins_is_their_boundary_minimum() {
    // 5×3, two land basins split at x=2; heights dip at (2,1).
    let (w, h) = (5u32, 3u32);
    let n = (w * h) as usize;
    let mut heights = vec![10.0f64; n];
    let mut basin = vec![0u32; n];
    let land = vec![true; n];
    for y in 0..3 {
        for x in 3..5 {
            basin[(y * w + x) as usize] = 1;
        }
    }
    heights[(w + 2) as usize] = 4.0; // the low crossing at (2,1)
    let cols = basin_boundary_cols(w, h, &keys(&heights), &basin, &land);
    assert_eq!(cols, vec![w + 2]);
}

#[test]
fn equal_heights_break_ties_by_index() {
    // Flat ground: the first boundary cell in scan order is the col.
    let (w, h) = (4u32, 2u32);
    let n = (w * h) as usize;
    let basin = vec![0, 0, 1, 1, 0, 0, 1, 1];
    let land = vec![true; n];
    let cols = basin_boundary_cols(w, h, &vec![7i64; n], &basin, &land);
    assert_eq!(cols, vec![1]);
}

#[test]
fn each_basin_pair_has_its_own_col_and_water_is_no_boundary() {
    // 3×3: basins 0 | 1 | 2 by column; the middle row is water except the
    // ends, so basins 0 and 2 never meet.
    let (w, h) = (3u32, 3u32);
    let basin = vec![0, 1, 2, 0, 1, 2, 0, 1, 2];
    let land = vec![true, true, true, true, false, true, true, true, true];
    let heights = vec![5, 9, 9, 9, 0, 3, 9, 1, 9];
    let cols = basin_boundary_cols(w, h, &heights, &basin, &land);
    // Pair (0,1): candidates 0,1,3,6,7 → cell 7 (height 1).
    // Pair (1,2): candidates 1,2,5,7,8 → cell 7 (height 1).
    assert_eq!(cols, vec![7]);
    let no_land = vec![false; 9];
    assert!(basin_boundary_cols(w, h, &heights, &basin, &no_land).is_empty());
}

#[test]
fn mainstem_follows_the_largest_donor() {
    // 4×3. Mouth (0,1) at cell 4; the river runs east along row 1 to
    // cell 7, with a smaller tributary from (1,0) = cell 1 into cell 5.
    let (w, h) = (4u32, 3u32);
    let n = (w * h) as usize;
    let mut receivers: Vec<u32> = (0..n as u32).collect();
    let mut strahler = vec![0u32; n];
    let mut area = vec![1u64; n];
    for x in 1..4u32 {
        receivers[(w + x) as usize] = w + x - 1;
        strahler[(w + x) as usize] = 1;
    }
    strahler[4] = 1;
    receivers[1] = 5;
    strahler[1] = 1;
    area[4] = 10;
    area[5] = 8;
    area[6] = 4;
    area[7] = 2;
    area[1] = 3;
    let stem = mainstem(w, h, &receivers, &strahler, &area, 4);
    assert_eq!(stem, vec![4, 5, 6, 7]);
    // With the tributary larger than the reach above, the stem turns.
    area[1] = 5;
    let stem = mainstem(w, h, &receivers, &strahler, &area, 4);
    assert_eq!(stem, vec![4, 5, 1]);
    // Equal areas: the smaller cell index wins.
    area[1] = 4;
    let stem = mainstem(w, h, &receivers, &strahler, &area, 4);
    assert_eq!(stem, vec![4, 5, 1]);
}

#[test]
fn mainstem_stops_on_a_receiver_cycle() {
    // Cells 0 and 1 drain into each other: the walk is cut past w*h cells.
    let (w, h) = (2u32, 1u32);
    let receivers = vec![1u32, 0];
    let strahler = vec![1u32, 1];
    let area = vec![1u64, 1];
    let stem = mainstem(w, h, &receivers, &strahler, &area, 0);
    assert_eq!(stem, vec![0, 1, 0]);
}
