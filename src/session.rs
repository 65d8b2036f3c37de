use vstd::prelude::*;
use crate::geometry::{Rect, overlaps, lemma_enclosed_misses};
use crate::physics::Bodies;
use crate::quadtree::{QuadError, StaticQuadTree};
use crate::random::RandomNumberGenerator;
use crate::world::{GridError, MIN_GRID_SIZE, World, cleared, grid_extent, lemma_tile_in_extent, tile_box, tiles_fit};

verus! {

/// Why a session could not be set up.
#[derive(Debug, Clone, Copy, PartialEq, Eq, Structural)]
pub enum SessionError {
    /// The world could not be generated.
    Grid(GridError),
    /// The tile size is not positive, or the tiles do not fit in `i64` coordinates.
    InvalidTileSize,
    /// The spatial index could not be built.
    Index(QuadError),
}

/// A session: the generated world, the spatial index over its solid tiles,
/// and the bodies that move.
pub struct Session {
    pub world: World,
    pub index: StaticQuadTree,
    pub bodies: Bodies,
    pub tile_size: i64,
}

/// The grid size is rejected by world generation.
pub open spec fn bad_grid(width: int, height: int) -> bool {
    width < MIN_GRID_SIZE || height < MIN_GRID_SIZE || width * height > usize::MAX
}

impl Session {
    pub open spec fn wf(&self) -> bool {
        &&& self.world.wf()
        &&& self.index.wf()
        &&& tiles_fit(self.world.width as int, self.world.height as int, self.tile_size as int)
        &&& forall|b: Rect| #[trigger] self.index.boxes().contains(b) <==> self.world.is_solid_box(self.tile_size as int, b)
    }

    /// Generates a `width × height` world, builds an index over a
    /// `extent_width × extent_height` region with at most `max_depth` levels,
    /// and stores in it the box of every solid tile of side `tile_size`.
    pub fn new(
        width: usize,
        height: usize,
        tile_size: i64,
        extent_width: i64,
        extent_height: i64,
        max_depth: usize,
        rng: &mut RandomNumberGenerator,
    ) -> (r: Result<Session, SessionError>)
        ensures
            r == Err::<Session, SessionError>(SessionError::Grid(GridError::InvalidGridSize)) <==> bad_grid(width as int, height as int),
            r == Err::<Session, SessionError>(SessionError::InvalidTileSize) <==> !bad_grid(width as int, height as int)
                && !tiles_fit(width as int, height as int, tile_size as int),
            r == Err::<Session, SessionError>(SessionError::Index(QuadError::InvalidExtent)) <==> !bad_grid(width as int, height as int)
                && tiles_fit(width as int, height as int, tile_size as int) && (extent_width <= 0 || extent_height <= 0),
            *final(rng) == *old(rng),
            r matches Ok(s) ==> s.wf() && s.world.width == width && s.world.height == height && s.tile_size == tile_size
                && (forall|x: int, y: int| 0 <= x < width && 0 <= y < height ==>
                    (s.world.solid_at(x, y) <==> !cleared(width as int, height as int,
                        (width / 2) as int, (height / 2) as int, x, y)))
                && s.bodies.slots@.len() == 0 && s.index.max_depth == max_depth
                && s.index.root.region == StaticQuadTree::root_region(extent_width as int, extent_height as int),
    {
        let world = match World::new(width, height, rng) {
            Ok(w) => w,
            Err(e) => return Err(SessionError::Grid(e)),
        };
        if tile_size <= 0 || width as i128 + 1 > i64::MAX as i128 / tile_size as i128
            || height as i128 + 1 > i64::MAX as i128 / tile_size as i128 {
            proof {
                if tile_size > 0 {
                    assert(!tiles_fit(width as int, height as int, tile_size as int)) by (nonlinear_arith)
                        requires
                            tile_size > 0,
                            width + 1 > (i64::MAX as int) / (tile_size as int) || height + 1 > (i64::MAX as int) / (tile_size as int);
                }
            }
            return Err(SessionError::InvalidTileSize);
        }
        proof {
            assert(tiles_fit(width as int, height as int, tile_size as int)) by (nonlinear_arith)
                requires
                    tile_size > 0,
                    width + 1 <= (i64::MAX as int) / (tile_size as int),
                    height + 1 <= (i64::MAX as int) / (tile_size as int);
        }
        let mut index = match StaticQuadTree::build(extent_width, extent_height, max_depth) {
            Ok(t) => t,
            Err(e) => return Err(SessionError::Index(e)),
        };
        let boxes = world.solid_boxes(tile_size);
        let mut i: usize = 0;
        while i < boxes.len()
            invariant
                i <= boxes@.len(),
                index.wf(),
                index.max_depth == max_depth,
                index.root.region == StaticQuadTree::root_region(extent_width as int, extent_height as int),
                forall|b: Rect| #[trigger] index.boxes().contains(b) <==> exists|j: int| 0 <= j < i && boxes@[j] == b,
            decreases boxes@.len() - i,
        {
            let ghost before = index.boxes();
            index.insert(boxes[i]);
            proof {
                assert forall|b: Rect| #[trigger] index.boxes().contains(b) <==> exists|j: int| 0 <= j < i + 1 && boxes@[j] == b by {
                    if b == boxes@[i as int] {
                    } else if index.boxes().contains(b) {
                        assert(before.contains(b));
                    }
                }
            }
            i = i + 1;
        }
        proof {
            assert forall|b: Rect| #[trigger] index.boxes().contains(b) <==> world.is_solid_box(tile_size as int, b) by {
                assert(boxes@.contains(b) <==> exists|j: int| 0 <= j < boxes@.len() && boxes@[j] == b);
            }
        }
        Ok(Session { world, index, bodies: Bodies::new(), tile_size })
    }

    /// Every solid tile box that overlaps `region`.
    pub fn query(&self, region: &Rect) -> (r: Vec<Rect>)
        requires
            self.wf(),
        ensures
            forall|b: Rect| #![trigger r@.contains(b)] r@.contains(b) <==> self.world.is_solid_box(self.tile_size as int, b)
                && overlaps(b, *region),
            r@.no_duplicates(),
    {
        self.index.query(region)
    }
}

/// No tile box of a grid overlaps a region that misses the grid's extent.
pub proof fn lemma_query_outside_grid(width: int, height: int, size: int, q: Rect)
    requires
        width >= 1,
        height >= 1,
        tiles_fit(width, height, size),
        !overlaps(grid_extent(width, height, size), q),
    ensures
        forall|x: int, y: int| 0 <= x < width && 0 <= y < height ==> !overlaps(#[trigger] tile_box(width, height, size, x, y), q),
{
    assert forall|x: int, y: int| 0 <= x < width && 0 <= y < height implies !overlaps(#[trigger] tile_box(width, height, size, x, y), q) by {
        lemma_tile_in_extent(width, height, size, x, y);
        lemma_enclosed_misses(grid_extent(width, height, size), tile_box(width, height, size, x, y), q);
    }
}

/// A query of a session over a region that misses the grid's extent finds nothing.
pub proof fn lemma_session_query_outside(s: &Session, q: Rect, found: Seq<Rect>)
    requires
        s.wf(),
        !overlaps(grid_extent(s.world.width as int, s.world.height as int, s.tile_size as int), q),
        forall|b: Rect| #![trigger found.contains(b)] found.contains(b) <==> s.world.is_solid_box(s.tile_size as int, b) && overlaps(b, q),
    ensures
        found.len() == 0,
{
    if s.world.width >= 1 && s.world.height >= 1 {
        lemma_query_outside_grid(s.world.width as int, s.world.height as int, s.tile_size as int, q);
    }
    if found.len() > 0 {
        assert(found.contains(found[0]));
    }
}

} // verus!
