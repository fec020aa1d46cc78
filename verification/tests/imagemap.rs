use allcolors::imagemap::Image;

#[test]
fn fresh_grid_is_complete_and_empty() {
    let im = Image::new(2, 2);
    assert!(im.done());
    assert_eq!(im.num_open(), 0);
    assert_eq!(im.get_color(0, 0), None);
}

#[test]
fn place_and_read_back() {
    let mut im = Image::new(3, 3);
    im.place(1, 1, (7, 8, 9));
    assert_eq!(im.get_color(1, 1), Some((7, 8, 9)));
    assert_eq!(im.get_color(0, 0), None);
    assert_eq!(im.get_color(-1, 0), None);
    assert_eq!(im.get_color(0, 3), None);
}

#[test]
fn place_opens_only_free_neighbors_once() {
    let mut im = Image::new(3, 3);
    im.place(0, 0, (1, 1, 1));
    // three in-bounds free neighbors of the corner
    assert_eq!(im.num_open(), 3);
    im.place(2, 2, (2, 2, 2));
    // (1, 1) is adjacent to both placements but pending only once
    assert_eq!(im.num_open(), 5);
    let mut seen: Vec<(usize, usize)> = Vec::new();
    while let Some(p) = im.get_open() {
        assert!(!seen.contains(&p), "coordinate pending twice");
        seen.push(p);
    }
    assert_eq!(seen.len(), 5);
    let expected = [(0, 1), (1, 0), (1, 1), (1, 2), (2, 1)];
    for e in expected.iter() {
        assert!(seen.contains(e));
    }
    assert!(im.done());
}

#[test]
fn pending_membership_is_observable() {
    let mut im = Image::new(3, 3);
    assert!(!im.is_open(0, 1));
    im.place(0, 0, (1, 1, 1));
    assert!(im.is_open(0, 1));
    assert!(im.is_open(1, 0));
    assert!(im.is_open(1, 1));
    assert!(!im.is_open(0, 0));
    assert!(!im.is_open(2, 2));
}

#[test]
fn center_placement_opens_all_eight_neighbors() {
    let mut im = Image::new(3, 3);
    im.place(1, 1, (5, 5, 5));
    assert_eq!(im.num_open(), 8);
}

#[test]
fn get_open_draws_each_pending_coordinate_exactly_once() {
    let mut im = Image::new(4, 4);
    im.place(0, 0, (1, 2, 3));
    let n = im.num_open();
    assert_eq!(n, 3);
    let mut drawn: Vec<(usize, usize)> = Vec::new();
    for k in 0..n {
        let p = im.get_open().expect("still pending");
        assert_eq!(im.num_open(), n - k - 1);
        assert!(!drawn.contains(&p));
        drawn.push(p);
    }
    assert_eq!(im.get_open(), None);
}

#[test]
fn snapshot_shows_placed_cells_and_default_elsewhere() {
    let mut im = Image::new(2, 3);
    im.place(1, 2, (9, 9, 9));
    let v = im.to_image((4, 5, 6));
    assert_eq!(v.len(), 2);
    assert_eq!(v[0].len(), 3);
    assert_eq!(v[1][2], (9, 9, 9));
    assert_eq!(v[0][0], (4, 5, 6));
    assert_eq!(v[1][1], (4, 5, 6));
}
