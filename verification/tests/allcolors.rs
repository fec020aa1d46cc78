use allcolors::allcolors::{derive_dimensions, scale_channel, AllColors};

#[test]
fn derived_dimensions_match_the_sizing_formula() {
    assert_eq!(derive_dimensions(1, 1, 1), (2, 2));
    assert_eq!(derive_dimensions(2, 1, 1), (7, 7));
    assert_eq!(derive_dimensions(8, 1, 1), (3891, 3891));
    assert_eq!(derive_dimensions(8, 3, 2), (4765, 3177));
    assert_eq!(derive_dimensions(0, 1, 1), (0, 0));
}

#[test]
fn scaling_maxes_out_at_the_display_range() {
    assert_eq!(scale_channel(255, 8), 255);
    assert_eq!(scale_channel(15, 4), 240);
    assert_eq!(scale_channel(0, 8), 0);
    assert_eq!(scale_channel(1, 1), 128);
    assert_eq!(scale_channel(3, 2), 192);
}

#[test]
fn average_is_the_quadratic_mean_of_placed_neighbors() {
    let mut ac = AllColors::new(2, 3, 3);
    ac.seed(0, 0, (3, 0, 0));
    ac.seed(0, 2, (1, 0, 0));
    // neighbors of (0, 1): squares 9 and 1, mean 5, root 2
    assert_eq!(ac.average(0, 1), (2, 0, 0));
    // the block around (2, 2) holds no placed cell: black
    assert_eq!(ac.average(2, 2), (0, 0, 0));
}

#[test]
fn seeding_consumes_the_color_once() {
    let mut ac = AllColors::new(1, 2, 2);
    assert_eq!(ac.ctree.live_count(), 8);
    ac.seed(0, 0, (0, 0, 0));
    assert_eq!(ac.ctree.live_count(), 7);
    assert_eq!(ac.image.get_color(0, 0), Some((0, 0, 0)));
    assert!(!ac.done());
}

#[test]
fn iterate_on_complete_engine_is_a_no_op() {
    let mut ac = AllColors::new(1, 2, 2);
    assert!(ac.done());
    assert!(ac.iterate());
    assert!(ac.done());
    assert_eq!(ac.ctree.live_count(), 8);
}

#[test]
fn full_growth_places_distinct_colors_everywhere() {
    let (w, h) = derive_dimensions(1, 1, 1);
    assert_eq!((w, h), (2, 2));
    let mut ac = AllColors::new(1, w, h);
    ac.seed(0, 0, (0, 0, 0));
    let mut steps = 0;
    while !ac.done() && steps < 100 {
        assert!(ac.iterate());
        steps += 1;
    }
    assert!(ac.done());
    let mut colors: Vec<(u8, u8, u8)> = Vec::new();
    for x in 0..2 {
        for y in 0..2 {
            let c = ac.image.get_color(x, y).expect("every cell placed");
            assert!(c.0 < 2 && c.1 < 2 && c.2 < 2);
            assert!(!colors.contains(&c), "duplicate color placed");
            colors.push(c);
        }
    }
    assert_eq!(colors.len(), 4);
    // exactly the four remaining colors stay in the index
    assert_eq!(ac.ctree.live_count(), 4);
}

#[test]
fn snapshot_rescales_to_full_display_range() {
    let mut ac = AllColors::new(4, 2, 2);
    ac.seed(0, 0, (15, 15, 15));
    let v = ac.to_image();
    assert_eq!(v.len(), 2);
    assert_eq!(v[0].len(), 2);
    assert_eq!(v[0][0], (240, 240, 240));
    assert_eq!(v[1][1], (0, 0, 0));
}

#[test]
fn exhausted_index_leaves_the_cell_unresolved() {
    // a 2-by-2 grid with a single color: the frontier outlives the index
    let mut ac = AllColors::new(0, 2, 2);
    ac.seed(0, 0, (0, 0, 0));
    assert!(!ac.done());
    assert_eq!(ac.ctree.live_count(), 0);
    // the step reports the exhaustion and drops the cell from the frontier
    assert!(!ac.iterate());
    assert_eq!(ac.image.num_open(), 2);
}
