use allcolors::colortree::{ColorTree, Point};

fn pt(r: u32, g: u32, b: u32) -> Point {
    Point { r, g, b }
}

fn sqdist(a: (u32, u32, u32), b: (u32, u32, u32)) -> u32 {
    let dr = a.0 as i64 - b.0 as i64;
    let dg = a.1 as i64 - b.1 as i64;
    let db = a.2 as i64 - b.2 as i64;
    (dr * dr + dg * dg + db * db) as u32
}

#[test]
fn fresh_tree_live_counts() {
    assert_eq!(ColorTree::new(0).live_count(), 1);
    assert_eq!(ColorTree::new(1).live_count(), 8);
    assert_eq!(ColorTree::new(2).live_count(), 64);
    assert_eq!(ColorTree::new(3).live_count(), 512);
}

#[test]
fn live_count_drops_by_one_per_successful_removal() {
    let mut t = ColorTree::new(1);
    assert_eq!(t.live_count(), 8);
    assert!(t.remove(pt(0, 0, 0)));
    assert_eq!(t.live_count(), 7);
    assert!(t.remove(pt(1, 1, 1)));
    assert_eq!(t.live_count(), 6);
    assert!(t.remove(pt(0, 1, 0)));
    assert_eq!(t.live_count(), 5);
}

#[test]
fn remove_twice_returns_true_then_false() {
    let mut t = ColorTree::new(2);
    let p = pt(1, 2, 3);
    assert_eq!(t.remove(p), true);
    assert_eq!(t.live_count(), 63);
    assert_eq!(t.remove(p), false);
    assert_eq!(t.live_count(), 63);
}

#[test]
fn nearest_finds_exact_match_on_fresh_tree() {
    let t = ColorTree::new(2);
    let r = t.nearest(pt(2, 3, 1));
    assert_eq!(r, Some((pt(2, 3, 1), 0)));
}

#[test]
fn nearest_matches_exhaustive_scan() {
    let mut t = ColorTree::new(2);
    let mut avail: Vec<(u32, u32, u32)> = Vec::new();
    for r in 0..4 {
        for g in 0..4 {
            for b in 0..4 {
                avail.push((r, g, b));
            }
        }
    }
    let removals = [
        (0, 0, 0),
        (3, 3, 3),
        (1, 2, 3),
        (2, 2, 2),
        (0, 3, 1),
        (1, 1, 1),
        (2, 0, 3),
        (3, 1, 0),
    ];
    for &(r, g, b) in removals.iter() {
        assert!(t.remove(pt(r, g, b)));
        avail.retain(|&c| c != (r, g, b));
    }
    let targets = [
        (0, 0, 0),
        (3, 3, 3),
        (1, 1, 2),
        (2, 3, 0),
        (0, 2, 1),
        (3, 0, 3),
        (1, 3, 3),
        (2, 1, 1),
    ];
    for &tg in targets.iter() {
        let (p, d) = t.nearest(pt(tg.0, tg.1, tg.2)).expect("colors remain");
        let best = avail.iter().map(|&c| sqdist(tg, c)).min().unwrap();
        assert_eq!(d, best);
        assert_eq!(d, sqdist(tg, (p.r, p.g, p.b)));
        assert!(avail.contains(&(p.r, p.g, p.b)));
    }
}

#[test]
fn nearest_returns_nothing_after_exhaustion() {
    let mut t = ColorTree::new(1);
    for r in 0..2 {
        for g in 0..2 {
            for b in 0..2 {
                assert!(t.remove(pt(r, g, b)));
            }
        }
    }
    assert_eq!(t.live_count(), 0);
    for r in 0..2 {
        for g in 0..2 {
            for b in 0..2 {
                assert_eq!(t.nearest(pt(r, g, b)), None);
            }
        }
    }
}

#[test]
fn nearest_prefers_the_remaining_corner() {
    let mut t = ColorTree::new(1);
    // strip the lower corner's own color, then query it
    assert!(t.remove(pt(0, 0, 0)));
    let (p, d) = t.nearest(pt(0, 0, 0)).expect("seven colors remain");
    // nearest remaining neighbors are at squared distance 1
    assert_eq!(d, 1);
    assert_eq!(sqdist((0, 0, 0), (p.r, p.g, p.b)), 1);
}
