use via::navigability::{head_of_navigation, mouth_connected, verify_heads};

// 8×3: ocean at x=0; a river along row 1 from x=7 down to the mouth at
// x=1. The banded predicate marks the river cells navigable.
fn fixture() -> (u32, u32, Vec<u32>, Vec<bool>, Vec<u32>) {
    let (w, h) = (8u32, 3u32);
    let n = (w * h) as usize;
    let idx = |x: u32, y: u32| (y * w + x) as usize;
    let mut receivers: Vec<u32> = (0..n as u32).collect();
    let mut land = vec![true; n];
    let mut navigable = vec![0u32; n];
    for y in 0..h {
        land[idx(0, y)] = false;
    }
    for x in 1..w {
        receivers[idx(x, 1)] = idx(x - 1, 1) as u32;
        navigable[idx(x, 1)] = 1;
    }
    (w, h, receivers, land, navigable)
}

#[test]
fn navigable_river_has_one_head_at_the_top() {
    let (w, h, receivers, land, navigable) = fixture();
    let heads = head_of_navigation(w, h, &receivers, &land, &navigable);
    assert_eq!(heads, vec![w + 7]);
    let (x, y) = (heads[0] % w, heads[0] / w);
    assert_eq!((x, y), (7, 1));
    assert!(verify_heads(&receivers, &land, &navigable, &heads));
}

#[test]
fn isolated_pocket_above_a_break_is_not_a_head() {
    let (w, h, receivers, land, mut navigable) = fixture();
    // A steep, fast reach at x=4 breaks navigability mid-river.
    navigable[(w + 4) as usize] = 0;
    let heads = head_of_navigation(w, h, &receivers, &land, &navigable);
    // The mouth-connected set ends at x=3; the navigable pocket at
    // x=5..7 is isolated and contributes no head.
    assert_eq!(heads, vec![w + 3]);
    let connected = mouth_connected(w, h, &receivers, &land, &navigable);
    assert!(connected[(w + 1) as usize] && connected[(w + 3) as usize]);
    assert!(!connected[(w + 5) as usize] && !connected[(w + 7) as usize]);
    assert!(verify_heads(&receivers, &land, &navigable, &heads));
}

#[test]
fn verification_rejects_a_pocket_head() {
    let (w, h, receivers, land, mut navigable) = fixture();
    navigable[(w + 4) as usize] = 0;
    let mut heads = head_of_navigation(w, h, &receivers, &land, &navigable);
    heads.push(w + 7);
    assert!(!verify_heads(&receivers, &land, &navigable, &heads));
}

#[test]
fn verification_rejects_a_missing_head() {
    let (_w, _h, receivers, land, navigable) = fixture();
    assert!(!verify_heads(&receivers, &land, &navigable, &[]));
}

#[test]
fn verification_fails_on_a_receiver_cycle() {
    let (w, _h, mut receivers, land, navigable) = fixture();
    // (6,1) and (7,1) drain into each other: the walk from (7,1) never
    // reaches a mouth or a break.
    receivers[(w + 6) as usize] = w + 7;
    assert!(!verify_heads(&receivers, &land, &navigable, &[]));
    assert!(!verify_heads(&receivers, &land, &navigable, &[w + 7]));
}

#[test]
fn a_tributary_adds_its_own_head() {
    let (w, h, mut receivers, land, mut navigable) = fixture();
    // (3,0) drains into (3,1) and is navigable: two heads now.
    receivers[3] = w + 3;
    navigable[3] = 1;
    let heads = head_of_navigation(w, h, &receivers, &land, &navigable);
    assert_eq!(heads, vec![3, w + 7]);
    assert!(verify_heads(&receivers, &land, &navigable, &heads));
}

#[test]
fn nothing_is_connected_without_a_mouth() {
    let (w, h, receivers, land, mut navigable) = fixture();
    navigable[(w + 1) as usize] = 0;
    let connected = mouth_connected(w, h, &receivers, &land, &navigable);
    assert!(connected.iter().all(|&c| !c));
    assert!(head_of_navigation(w, h, &receivers, &land, &navigable).is_empty());
}

#[test]
fn a_navigable_pocket_cut_off_downstream_is_not_connected() {
    // Cell 1 drains straight to the ocean cell 0; cell 3 drains through
    // the unnavigable cell 2, so no navigable chain reaches the sea.
    let c = mouth_connected(4, 1, &[0, 0, 1, 2], &[false, true, true, true], &[0, 1, 0, 1]);
    assert_eq!(c, vec![false, true, false, false]);
}
