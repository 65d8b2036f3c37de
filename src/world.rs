use vstd::prelude::*;
use crate::geometry::{Rect, encloses};

verus! {

/// Smallest width or height a generated world may have.
pub const MIN_GRID_SIZE: usize = 3;

/// Why a world could not be generated.
#[derive(Debug, Clone, Copy, PartialEq, Eq, Structural)]
pub enum GridError {
    /// Width or height below `MIN_GRID_SIZE`.
    InvalidGridSize,
}

/// A dense grid of tiles, `true` meaning solid.
pub struct World {
    pub solid: Vec<bool>,
    pub width: usize,
    pub height: usize,
}

/// Whether the spawn clearing around `(cx, cy)` empties tile `(x, y)`:
/// it lies in the 3×3 neighbourhood, off the left and right border columns.
pub open spec fn cleared(width: int, height: int, cx: int, cy: int, x: int, y: int) -> bool {
    cx - 1 <= x <= cx + 1 && cy - 1 <= y <= cy + 1 && 0 < x < width - 1 && 0 <= y < height
}

/// The box of tile `(x, y)` of a `width × height` grid of tiles of side
/// `size`, laid out so that the grid is centred on the origin.
pub open spec fn tile_box(width: int, height: int, size: int, x: int, y: int) -> Rect {
    let min_x = x * size - (width * size) / 2 - size / 2;
    let min_y = y * size - (height * size) / 2 - size / 2;
    Rect { min_x: min_x as i64, min_y: min_y as i64, max_x: (min_x + size) as i64, max_y: (min_y + size) as i64 }
}

/// The rectangle covered by all the tiles of such a grid.
pub open spec fn grid_extent(width: int, height: int, size: int) -> Rect {
    Rect {
        min_x: (-((width * size) / 2) - size / 2) as i64,
        min_y: (-((height * size) / 2) - size / 2) as i64,
        max_x: ((width - 1) * size - (width * size) / 2 - size / 2 + size) as i64,
        max_y: ((height - 1) * size - (height * size) / 2 - size / 2 + size) as i64,
    }
}

/// Tiles of side `size` fit a `width × height` grid in `i64` coordinates.
pub open spec fn tiles_fit(width: int, height: int, size: int) -> bool {
    size > 0 && (width + 1) * size <= i64::MAX && (height + 1) * size <= i64::MAX
}

/// A tile box of a grid lies inside the grid's extent.
pub proof fn lemma_tile_in_extent(width: int, height: int, size: int, x: int, y: int)
    requires
        width >= 1,
        height >= 1,
        tiles_fit(width, height, size),
        0 <= x < width,
        0 <= y < height,
    ensures
        encloses(grid_extent(width, height, size), tile_box(width, height, size, x, y)),
{
    lemma_tile_coords(width, height, size, x, y);
    lemma_tile_coords(width, height, size, 0, 0);
    lemma_tile_coords(width, height, size, width - 1, height - 1);
    assert(x * size <= (width - 1) * size && y * size <= (height - 1) * size) by (nonlinear_arith)
        requires x <= width - 1, y <= height - 1, size > 0;
    assert(0 <= x * size && 0 <= y * size) by (nonlinear_arith)
        requires x >= 0, y >= 0, size > 0;
}

/// The coordinates of a tile box fit in `i64`.
proof fn lemma_tile_coords(width: int, height: int, size: int, x: int, y: int)
    requires
        tiles_fit(width, height, size),
        0 <= x < width,
        0 <= y < height,
    ensures
        i64::MIN <= x * size - (width * size) / 2 - size / 2,
        x * size - (width * size) / 2 - size / 2 + size <= i64::MAX,
        i64::MIN <= y * size - (height * size) / 2 - size / 2,
        y * size - (height * size) / 2 - size / 2 + size <= i64::MAX,
{
    assert(0 <= x * size <= width * size && (width + 1) * size == width * size + size) by (nonlinear_arith)
        requires 0 <= x < width, size > 0;
    assert(0 <= y * size <= height * size && (height + 1) * size == height * size + size) by (nonlinear_arith)
        requires 0 <= y < height, size > 0;
}

/// `a` comes before `b` in row-major order of their lower corners.
pub open spec fn row_major_before(a: Rect, b: Rect) -> bool {
    a.min_y < b.min_y || (a.min_y == b.min_y && a.min_x < b.min_x)
}

/// Tile boxes follow the row-major order of their tiles.
proof fn lemma_tiles_ordered(width: int, height: int, size: int, x1: int, y1: int, x2: int, y2: int)
    requires
        tiles_fit(width, height, size),
        0 <= x1 < width,
        0 <= y1 < height,
        0 <= x2 < width,
        0 <= y2 < height,
        y1 < y2 || (y1 == y2 && x1 < x2),
    ensures
        row_major_before(tile_box(width, height, size, x1, y1), tile_box(width, height, size, x2, y2)),
{
    lemma_tile_coords(width, height, size, x1, y1);
    lemma_tile_coords(width, height, size, x2, y2);
    if y1 < y2 {
        assert(y1 * size < y2 * size) by (nonlinear_arith)
            requires y1 < y2, size > 0;
    } else {
        assert(x1 * size < x2 * size) by (nonlinear_arith)
            requires x1 < x2, size > 0;
    }
}

impl World {
    pub open spec fn wf(&self) -> bool {
        self.solid@.len() == self.width * self.height && self.width * self.height <= usize::MAX
    }

    /// Index of tile `(x, y)` in row-major order.
    pub open spec fn index_of(&self, x: int, y: int) -> int {
        y * self.width + x
    }

    /// The tile at `(x, y)` is solid.
    pub open spec fn solid_at(&self, x: int, y: int) -> bool {
        self.solid@[self.index_of(x, y)]
    }

    pub fn mapidx(&self, x: usize, y: usize) -> (r: usize)
        requires
            self.wf(),
            x < self.width,
            y < self.height,
        ensures
            r == self.index_of(x as int, y as int),
            r < self.solid@.len(),
    {
        proof {
            assert(y * self.width + x < self.height * self.width) by (nonlinear_arith)
                requires
                    x < self.width,
                    y < self.height,
            ;
            assert(self.height * self.width == self.width * self.height) by (nonlinear_arith);
        }
        y * self.width + x
    }

    /// Builds a world of `width × height` solid tiles with a spawn clearing
    /// centred at `(width / 2, height / 2)`. The random source is kept for
    /// randomised variants of generation; this one does not draw from it.
    pub fn new(width: usize, height: usize, rng: &mut crate::random::RandomNumberGenerator) -> (r: Result<World, GridError>)
        ensures
            r is Err <==> width < MIN_GRID_SIZE || height < MIN_GRID_SIZE || width * height > usize::MAX,
            r is Err ==> r->Err_0 == GridError::InvalidGridSize,
            *final(rng) == *old(rng),
            r matches Ok(w) ==> w.wf() && w.width == width && w.height == height
                && (forall|x: int, y: int| 0 <= x < width && 0 <= y < height ==>
                    (w.solid_at(x, y) <==> !cleared(width as int, height as int,
                        (width / 2) as int, (height / 2) as int, x, y))),
    {
        if width < MIN_GRID_SIZE || height < MIN_GRID_SIZE {
            return Err(GridError::InvalidGridSize);
        }
        let total = width.checked_mul(height);
        let n = match total {
            Some(n) => n,
            None => return Err(GridError::InvalidGridSize),
        };
        let mut solid: Vec<bool> = Vec::new();
        let mut i: usize = 0;
        while i < n
            invariant
                i <= n,
                solid@.len() == i,
                forall|k: int| 0 <= k < i ==> solid@[k],
            decreases n - i,
        {
            solid.push(true);
            i = i + 1;
        }
        let mut result = World { solid, width, height };
        result.clear_tiles(width / 2, height / 2);
        proof {
            assert forall|x: int, y: int| 0 <= x < width && 0 <= y < height implies
                (result.solid_at(x, y) <==> !cleared(width as int, height as int,
                    (width / 2) as int, (height / 2) as int, x, y)) by {
                let cx = (width / 2) as int;
                let cy = (height / 2) as int;
                assert(0 <= y * width + x < width * height) by (nonlinear_arith)
                    requires 0 <= x < width, 0 <= y < height;
                assert(result.index_of(x, y) == y * width + x);
            }
        }
        Ok(result)
    }

    /// Clears the 3×3 neighbourhood of `(x, y)`, leaving the left and right
    /// border columns solid. Rows at the top and bottom edge may be cleared.
    /// Neighbours off the grid are skipped, so the centre may lie anywhere.
    pub fn clear_tiles(&mut self, x: usize, y: usize)
        requires
            old(self).wf(),
        ensures
            final(self).wf(),
            final(self).width == old(self).width,
            final(self).height == old(self).height,
            forall|tx: int, ty: int| 0 <= tx < old(self).width && 0 <= ty < old(self).height ==>
                (final(self).solid_at(tx, ty) <==> old(self).solid_at(tx, ty) && !cleared(
                    old(self).width as int, old(self).height as int, x as int, y as int, tx, ty)),
    {
        let ghost start = *self;
        let mut dx: usize = 0;
        while dx < 3
            invariant
                0 <= dx <= 3,
                self.wf(),
                self.width == start.width,
                self.height == start.height,
                forall|tx: int, ty: int| #![trigger self.solid_at(tx, ty)] 0 <= tx < self.width && 0 <= ty < self.height ==>
                    (self.solid_at(tx, ty) <==> start.solid_at(tx, ty) && !(cleared(
                        self.width as int, self.height as int, x as int, y as int, tx, ty)
                        && tx < x + dx - 1)),
            decreases 3 - dx,
        {
            let mut dy: usize = 0;
            while dy < 3
                invariant
                    0 <= dx < 3,
                    0 <= dy <= 3,
                    self.wf(),
                    self.width == start.width,
                    self.height == start.height,
                    forall|tx: int, ty: int| #![trigger self.solid_at(tx, ty)] 0 <= tx < self.width && 0 <= ty < self.height ==>
                        (self.solid_at(tx, ty) <==> start.solid_at(tx, ty) && !(cleared(
                            self.width as int, self.height as int, x as int, y as int, tx, ty)
                            && (tx < x + dx - 1 || (tx == x + dx - 1 && ty < y + dy - 1)))),
                decreases 3 - dy,
            {
                let ghost pre = *self;
                // the tile (x + dx - 1, y + dy - 1), where it is on the grid
                if (x >= 1 || dx >= 1) && (y >= 1 || dy >= 1) && (x < usize::MAX || dx < 2)
                    && (y < usize::MAX || dy < 2) {
                    let tx = if x >= 1 { x - 1 + dx } else { dx - 1 };
                    let ty = if y >= 1 { y - 1 + dy } else { dy - 1 };
                    if tx > 0 && tx < self.width && tx + 1 < self.width && ty < self.height {
                        let idx = self.mapidx(tx, ty);
                        let ghost before = *self;
                        self.solid.set(idx, false);
                        proof {
                            assert forall|ax: int, ay: int| 0 <= ax < self.width && 0 <= ay < self.height
                                implies self.solid_at(ax, ay) == (if ax == tx && ay == ty { false } else {
                                    before.solid_at(ax, ay) }) by {
                                assert(0 <= ay * self.width + ax < self.width * self.height) by (nonlinear_arith)
                                    requires 0 <= ax < self.width, 0 <= ay < self.height;
                                assert(self.solid@ == before.solid@.update(idx as int, false));
                                if ax != tx || ay != ty {
                                    if ay == ty {
                                    } else if ay < ty {
                                        assert(ay * self.width + ax < ty * self.width) by (nonlinear_arith)
                                            requires ay < ty, 0 <= ax < self.width, ay >= 0;
                                    } else {
                                        assert(ty * self.width + tx < ay * self.width) by (nonlinear_arith)
                                            requires ty < ay, 0 <= tx < self.width, ty >= 0;
                                    }
                                    assert(self.index_of(ax, ay) != idx);
                                }
                            }
                        }
                    }
                }
                proof {
                    assert forall|ax: int, ay: int| 0 <= ax < self.width && 0 <= ay < self.height
                        implies (self.solid_at(ax, ay) <==> start.solid_at(ax, ay) && !(cleared(
                            self.width as int, self.height as int, x as int, y as int, ax, ay)
                            && (ax < x + dx - 1 || (ax == x + dx - 1 && ay < y + dy)))) by {
                        assert(pre.solid_at(ax, ay) <==> start.solid_at(ax, ay) && !(cleared(
                            self.width as int, self.height as int, x as int, y as int, ax, ay)
                            && (ax < x + dx - 1 || (ax == x + dx - 1 && ay < y + dy - 1))));
                    }
                }
                dy = dy + 1;
            }
            dx = dx + 1;
        }
    }
    /// `b` is the box of a solid tile of this world, for tiles of side `size`.
    pub open spec fn is_solid_box(&self, size: int, b: Rect) -> bool {
        exists|x: int, y: int| 0 <= x < self.width && 0 <= y < self.height && #[trigger] self.solid_at(x, y)
            && b == tile_box(self.width as int, self.height as int, size, x, y)
    }

    /// The boxes of the solid tiles among the first `x` of row `y`, in order.
    pub open spec fn row_boxes(&self, size: int, y: int, x: int) -> Seq<Rect>
        decreases x,
    {
        if x <= 0 {
            Seq::empty()
        } else if self.solid_at(x - 1, y) {
            self.row_boxes(size, y, x - 1).push(tile_box(self.width as int, self.height as int, size, x - 1, y))
        } else {
            self.row_boxes(size, y, x - 1)
        }
    }

    /// The boxes of the solid tiles of the first `y` rows, row by row.
    pub open spec fn rows_boxes(&self, size: int, y: int) -> Seq<Rect>
        decreases y,
    {
        if y <= 0 {
            Seq::empty()
        } else {
            self.rows_boxes(size, y - 1) + self.row_boxes(size, y - 1, self.width as int)
        }
    }

    /// One box per solid tile, for tiles of side `size`, row by row.
    pub open spec fn solid_box_seq(&self, size: int) -> Seq<Rect> {
        self.rows_boxes(size, self.height as int)
    }

    /// The box of every solid tile, for tiles of side `size`, row by row:
    /// one box per solid tile.
    pub fn solid_boxes(&self, size: i64) -> (r: Vec<Rect>)
        requires
            self.wf(),
            tiles_fit(self.width as int, self.height as int, size as int),
        ensures
            r@ == self.solid_box_seq(size as int),
            r@.no_duplicates(),
            forall|b: Rect| #![trigger r@.contains(b)] r@.contains(b) <==> self.is_solid_box(size as int, b),
    {
        let mut out: Vec<Rect> = Vec::new();
        let w = self.width as i128;
        let h = self.height as i128;
        let s = size as i128;
        let mut y: usize = 0;
        while y < self.height
            invariant
                self.wf(),
                tiles_fit(self.width as int, self.height as int, size as int),
                w == self.width, h == self.height, s == size,
                y <= self.height,
                out@ == self.rows_boxes(size as int, y as int),
                forall|i: int, j: int| 0 <= i < j < out@.len() ==> row_major_before(#[trigger] out@[i], #[trigger] out@[j]),
                forall|i: int, tx: int| 0 <= i < out@.len() && 0 <= tx < self.width && y < self.height ==>
                    row_major_before(#[trigger] out@[i], #[trigger] tile_box(self.width as int, self.height as int, size as int, tx, y as int)),
                forall|b: Rect| #![trigger out@.contains(b)] out@.contains(b) <==> exists|tx: int, ty: int|
                    0 <= tx < self.width && 0 <= ty < y && #[trigger] self.solid_at(tx, ty)
                    && b == tile_box(self.width as int, self.height as int, size as int, tx, ty),
            decreases self.height - y,
        {
            proof {
                assert(self.row_boxes(size as int, y as int, 0) =~= Seq::<Rect>::empty());
                assert(out@ =~= self.rows_boxes(size as int, y as int) + self.row_boxes(size as int, y as int, 0));
                assert forall|i: int, tx: int| 0 <= i < out@.len() && 0 <= tx < self.width && y + 1 < self.height implies
                    row_major_before(#[trigger] out@[i], #[trigger] tile_box(self.width as int, self.height as int, size as int, tx, y + 1)) by {
                    lemma_tiles_ordered(self.width as int, self.height as int, size as int, 0, y as int, tx, y + 1);
                    assert(row_major_before(out@[i], tile_box(self.width as int, self.height as int, size as int, 0, y as int)));
                }
            }
            let mut x: usize = 0;
            while x < self.width
                invariant
                    self.wf(),
                    tiles_fit(self.width as int, self.height as int, size as int),
                    w == self.width, h == self.height, s == size,
                    y < self.height,
                    x <= self.width,
                    out@ == self.rows_boxes(size as int, y as int) + self.row_boxes(size as int, y as int, x as int),
                    forall|i: int, j: int| 0 <= i < j < out@.len() ==> row_major_before(#[trigger] out@[i], #[trigger] out@[j]),
                    forall|i: int, tx: int| 0 <= i < out@.len() && x <= tx < self.width ==>
                        row_major_before(#[trigger] out@[i], #[trigger] tile_box(self.width as int, self.height as int, size as int, tx, y as int)),
                    forall|i: int, tx: int| 0 <= i < out@.len() && 0 <= tx < self.width && y + 1 < self.height ==>
                        row_major_before(#[trigger] out@[i], #[trigger] tile_box(self.width as int, self.height as int, size as int, tx, y + 1)),
                    forall|b: Rect| #![trigger out@.contains(b)] out@.contains(b) <==> exists|tx: int, ty: int|
                        0 <= tx < self.width && 0 <= ty < self.height && (ty < y || (ty == y && tx < x))
                        && #[trigger] self.solid_at(tx, ty)
                        && b == tile_box(self.width as int, self.height as int, size as int, tx, ty),
                decreases self.width - x,
            {
                let idx = self.mapidx(x, y);
                let ghost before = out@;
                if self.solid[idx] {
                    proof {
                        lemma_tile_coords(self.width as int, self.height as int, size as int, x as int, y as int);
                        assert(x * s <= w * s && y * s <= h * s) by (nonlinear_arith)
                            requires x < w, y < h, s > 0;
                        assert(w * s <= i64::MAX && h * s <= i64::MAX) by (nonlinear_arith)
                            requires (w + 1) * s <= i64::MAX, (h + 1) * s <= i64::MAX, s > 0;
                    }
                    let min_x = (x as i128) * s - (w * s) / 2 - s / 2;
                    let min_y = (y as i128) * s - (h * s) / 2 - s / 2;
                    let b = Rect {
                        min_x: min_x as i64,
                        min_y: min_y as i64,
                        max_x: (min_x + s) as i64,
                        max_y: (min_y + s) as i64,
                    };
                    out.push(b);
                    proof {
                        assert(b == tile_box(self.width as int, self.height as int, size as int, x as int, y as int));
                        assert(out@ =~= self.rows_boxes(size as int, y as int) + self.row_boxes(size as int, y as int, x + 1));
                        assert forall|tx: int| x < tx < self.width implies row_major_before(b, #[trigger]
                            tile_box(self.width as int, self.height as int, size as int, tx, y as int)) by {
                            lemma_tiles_ordered(self.width as int, self.height as int, size as int, x as int, y as int, tx, y as int);
                        }
                        assert forall|tx: int| 0 <= tx < self.width && y + 1 < self.height implies row_major_before(b, #[trigger]
                            tile_box(self.width as int, self.height as int, size as int, tx, y + 1)) by {
                            lemma_tiles_ordered(self.width as int, self.height as int, size as int, x as int, y as int, tx, y + 1);
                        }
                        assert(out@[out@.len() - 1] == b);
                        assert(self.solid_at(x as int, y as int));
                        assert forall|c: Rect| #![trigger out@.contains(c)] out@.contains(c) <==> before.contains(c) || c == b by {
                            if before.contains(c) {
                                let k = choose|k: int| 0 <= k < before.len() && before[k] == c;
                                assert(out@[k] == c);
                            }
                            if c == b {
                                assert(out@[out@.len() - 1] == c);
                            }
                        }
                    }
                }
                proof {
                    assert(out@ =~= self.rows_boxes(size as int, y as int) + self.row_boxes(size as int, y as int, x + 1));
                    assert forall|c: Rect| #![trigger out@.contains(c)] out@.contains(c) <==> exists|tx: int, ty: int|
                        0 <= tx < self.width && 0 <= ty < self.height && (ty < y || (ty == y && tx < x + 1))
                        && #[trigger] self.solid_at(tx, ty)
                        && c == tile_box(self.width as int, self.height as int, size as int, tx, ty) by {
                        if out@.contains(c) && !before.contains(c) {
                            assert(self.solid_at(x as int, y as int));
                        }
                    }
                }
                x = x + 1;
            }
            proof {
                assert(out@ =~= self.rows_boxes(size as int, y + 1));
            }
            y = y + 1;
        }
        proof {
            assert forall|i: int, j: int| 0 <= i < out@.len() && 0 <= j < out@.len() && i != j implies out@[i] != out@[j] by {
                if i < j {
                    assert(row_major_before(out@[i], out@[j]));
                } else {
                    assert(row_major_before(out@[j], out@[i]));
                }
            }
        }
        out
    }
}

} // verus!
