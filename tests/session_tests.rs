use my_library::physics::UNIT;
use my_library::quadtree::QuadError;
use my_library::{GridError, RandomNumberGenerator, Rect, Session, SessionError};

fn session(width: usize, height: usize, tile: i64, ew: i64, eh: i64) -> Result<Session, SessionError> {
    let mut rng = RandomNumberGenerator::seeded(9);
    Session::new(width, height, tile, ew, eh, 6, &mut rng)
}

#[test]
fn session_indexes_every_solid_tile() {
    let s = session(200, 200, 24 * UNIT, 10240 * UNIT, 7680 * UNIT).unwrap();
    assert_eq!(s.bodies.slots.len(), 0);
    let all = s.query(&Rect::new(-5120 * UNIT, -3840 * UNIT, 5120 * UNIT, 3840 * UNIT));
    assert_eq!(all.len(), 40000 - 9);
    let near = s.query(&Rect::new(-40 * UNIT, -40 * UNIT, 40 * UNIT, 40 * UNIT));
    let expected: Vec<Rect> = s.world.solid_boxes(24 * UNIT).into_iter()
        .filter(|b| b.overlaps(&Rect::new(-40 * UNIT, -40 * UNIT, 40 * UNIT, 40 * UNIT))).collect();
    assert_eq!(near.len(), expected.len());
    for b in &expected {
        assert!(near.contains(b));
    }
    assert!(s.query(&Rect::new(2500 * UNIT, 0, 2600 * UNIT, 10)).is_empty());
}

#[test]
fn session_errors() {
    assert_eq!(session(2, 10, 24, 100, 100).err(), Some(SessionError::Grid(GridError::InvalidGridSize)));
    assert_eq!(session(10, 10, 0, 100, 100).err(), Some(SessionError::InvalidTileSize));
    assert_eq!(session(10, 10, i64::MAX / 4, 100, 100).err(), Some(SessionError::InvalidTileSize));
    assert_eq!(session(10, 10, 24, 0, 100).err(), Some(SessionError::Index(QuadError::InvalidExtent)));
    assert!(session(10, 10, 24, 100, 100).is_ok());
}

#[test]
fn session_world_follows_generation() {
    let s = session(9, 7, 24, 1000, 1000).unwrap();
    for y in 0..7 {
        for x in 0..9 {
            let cleared = (3..=5).contains(&x) && (2..=4).contains(&y);
            assert_eq!(s.world.solid[s.world.mapidx(x, y)], !cleared);
        }
    }
}
