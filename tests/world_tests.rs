use my_library::{GridError, RandomNumberGenerator, Rect, World};

fn generate(width: usize, height: usize) -> Result<World, GridError> {
    let mut rng = RandomNumberGenerator::seeded(0);
    World::new(width, height, &mut rng)
}

fn solid(w: &World, x: usize, y: usize) -> bool {
    w.solid[w.mapidx(x, y)]
}

#[test]
fn spawn_clearing_of_a_large_world() {
    let w = generate(200, 200).unwrap();
    assert_eq!(w.width, 200);
    assert_eq!(w.height, 200);
    assert_eq!(w.solid.len(), 40000);
    for y in 0..200 {
        for x in 0..200 {
            let in_clearing = (99..=101).contains(&x) && (99..=101).contains(&y);
            assert_eq!(solid(&w, x, y), !in_clearing, "tile ({x}, {y})");
        }
    }
    assert_eq!(w.solid.iter().filter(|&&s| !s).count(), 9);
}

#[test]
fn border_columns_stay_solid_but_rows_may_clear() {
    // centre (1, 1): the clearing touches both border columns and both border rows
    let w = generate(3, 3).unwrap();
    for y in 0..3 {
        assert!(solid(&w, 0, y));
        assert!(solid(&w, 2, y));
        assert!(!solid(&w, 1, y));
    }
}

#[test]
fn clearing_reaches_the_top_row() {
    let w = generate(5, 3).unwrap();
    // centre (2, 1): rows 0..=2, columns 1..=3
    for y in 0..3 {
        for x in 0..5 {
            assert_eq!(solid(&w, x, y), !(1..=3).contains(&x), "tile ({x}, {y})");
        }
    }
}

#[test]
fn too_small_grids_are_rejected() {
    assert_eq!(generate(2, 200).err(), Some(GridError::InvalidGridSize));
    assert_eq!(generate(200, 2).err(), Some(GridError::InvalidGridSize));
    assert_eq!(generate(0, 0).err(), Some(GridError::InvalidGridSize));
    assert!(generate(3, 3).is_ok());
}

#[test]
fn clear_tiles_at_a_corner() {
    let mut w = generate(6, 6).unwrap();
    w.clear_tiles(0, 0);
    // column 0 is a border column; column 1 clears in rows 0 and 1
    assert!(solid(&w, 0, 0));
    assert!(solid(&w, 0, 1));
    assert!(!solid(&w, 1, 0));
    assert!(!solid(&w, 1, 1));
    assert!(solid(&w, 2, 0));
}

#[test]
fn mapidx_is_row_major() {
    let w = generate(7, 4).unwrap();
    assert_eq!(w.mapidx(0, 0), 0);
    assert_eq!(w.mapidx(6, 0), 6);
    assert_eq!(w.mapidx(0, 1), 7);
    assert_eq!(w.mapidx(3, 2), 17);
}

#[test]
fn solid_boxes_are_centred_tiles() {
    let w = generate(4, 3).unwrap();
    let boxes = w.solid_boxes(24);
    // centre (2, 1) clears columns 1..=2 of rows 0..=2; 12 - 6 tiles stay
    assert_eq!(boxes.len(), 6);
    // tile (0, 0): x = 0 * 24 - 48 - 12, y = 0 * 24 - 36 - 12
    assert!(boxes.contains(&Rect::new(-60, -48, -36, -24)));
    // tile (3, 2): x = 72 - 48 - 12, y = 48 - 36 - 12
    assert!(boxes.contains(&Rect::new(12, 0, 36, 24)));
    assert!(!boxes.contains(&Rect::new(-36, -48, -12, -24)));
}

#[test]
fn clear_tiles_with_centre_past_the_bottom_edge() {
    let mut w = generate(5, 9).unwrap();
    let before = w.solid.clone();
    // centre row 9 == height: only row 8 of the neighbourhood is on the grid
    w.clear_tiles(2, 9);
    for y in 0..9 {
        for x in 0..5 {
            let expected = before[w.mapidx(x, y)] && !(y == 8 && (1..=3).contains(&x));
            assert_eq!(solid(&w, x, y), expected, "tile ({x}, {y})");
        }
    }
}

#[test]
fn clear_tiles_far_off_the_grid_changes_nothing() {
    let mut w = generate(6, 6).unwrap();
    let before = w.solid.clone();
    w.clear_tiles(usize::MAX, usize::MAX);
    w.clear_tiles(40, 2);
    assert_eq!(w.solid, before);
}

#[test]
fn clearing_twice_is_clearing_once() {
    let mut once = generate(8, 7).unwrap();
    let mut twice = generate(8, 7).unwrap();
    once.clear_tiles(6, 0);
    twice.clear_tiles(6, 0);
    twice.clear_tiles(6, 0);
    assert_eq!(once.solid, twice.solid);
}

#[test]
fn generation_leaves_the_generator_alone() {
    let mut rng = RandomNumberGenerator::seeded(77);
    let before = rng.rng.clone();
    let _ = World::new(10, 10, &mut rng).unwrap();
    assert!(rng.rng == before);
}

#[test]
fn solid_boxes_come_once_each_in_row_major_order() {
    let w = generate(30, 20).unwrap();
    let boxes = w.solid_boxes(24);
    assert_eq!(boxes.len(), w.solid.iter().filter(|&&s| s).count());
    for pair in boxes.windows(2) {
        let (a, b) = (pair[0], pair[1]);
        assert!(a.min_y < b.min_y || (a.min_y == b.min_y && a.min_x < b.min_x));
    }
    let mut k = 0;
    for y in 0..20 {
        for x in 0..30 {
            if solid(&w, x, y) {
                let min_x = x as i64 * 24 - 30 * 24 / 2 - 12;
                let min_y = y as i64 * 24 - 20 * 24 / 2 - 12;
                assert_eq!(boxes[k], Rect::new(min_x, min_y, min_x + 24, min_y + 24));
                k += 1;
            }
        }
    }
}
