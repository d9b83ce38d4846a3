use via::terrain::ocean_mask;

#[test]
fn only_border_connected_water_is_ocean() {
    // 5×5: a below-sea channel from the west border into the interior,
    // and an enclosed sub-sea pocket at (3,3).
    let w = 5u32;
    let mut below = vec![false; 25];
    for x in 0..3u32 {
        below[(2 * w + x) as usize] = true;
    }
    below[(3 * w + 3) as usize] = true;
    let ocean = ocean_mask(w, 5, &below);
    assert!(ocean[(2 * w) as usize] && ocean[(2 * w + 2) as usize]);
    // (2,2) and (3,3) are diagonal neighbours: D8 reaches the pocket.
    assert!(ocean[(3 * w + 3) as usize]);
    assert_eq!(ocean.iter().filter(|&&o| o).count(), 4);
}

#[test]
fn an_enclosed_pocket_is_not_base_level() {
    let w = 5u32;
    let mut below = vec![false; 25];
    below[(2 * w + 2) as usize] = true;
    below[0] = true;
    let ocean = ocean_mask(w, 5, &below);
    assert!(ocean[0]);
    assert!(!ocean[(2 * w + 2) as usize]);
}
