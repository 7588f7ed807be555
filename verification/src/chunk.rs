//! One 8x8 tile of the infinite grid and its transition rule.

use vstd::prelude::*;

verus! {

use crate::bits::{bit, get_bit_at, or_bit, and_not_bit, xor_bit};
use crate::bits::{lemma_row_zero, lemma_row_nonzero, lemma_row_ext};

/// Boundary context for one chunk: the four adjacent boundary words and a
/// 4-bit corner mask, each zero where the neighbor is absent.
///
/// `left` column i (counting rows top down) is the rightmost column of the
/// chunk one step left; `right` likewise its neighbor's leftmost column;
/// `top` is the bottom row of the chunk one step up (up is the positive
/// chunk-space y direction) and `bottom` the top row of the chunk one step
/// down. Columns 0..4 of `corners` are the nearest corner cells of the
/// four diagonal neighbors, in the order down-left's top-right,
/// down-right's top-left, up-left's bottom-right, up-right's bottom-left.
#[derive(Clone, Copy)]
pub struct Edges {
    pub left: u8,
    pub right: u8,
    pub top: u8,
    pub bottom: u8,
    pub corners: u8,
}

/// One fixed 8x8 tile: eight packed rows, a chunk-space coordinate and the
/// flag that gates whether the chunk takes part in a generation.
#[derive(Clone, Copy)]
pub struct Chunk {
    /// Row-major grid, row 0 at the top; within a row, column 0 is the
    /// leftmost cell, held in the most significant bit.
    pub chunk: [u8; 8],
    pub active: bool,
    /// Chunk-space coordinate; y grows upward.
    pub pos: [i32; 2],
}

/// The cell at column `x`, row `y` of a packed grid.
pub open spec fn cell(grid: Seq<u8>, x: int, y: int) -> bool
    recommends
        0 <= x < 8,
        0 <= y < 8,
{
    bit(grid[y], x as u8)
}

/// True when no cell of the grid is live.
pub open spec fn grid_empty(grid: Seq<u8>) -> bool {
    forall|y: int| 0 <= y < 8 ==> grid[y] == 0
}

/// True when the whole boundary context is dead.
pub open spec fn edges_empty(e: Edges) -> bool {
    e.left == 0 && e.right == 0 && e.top == 0 && e.bottom == 0 && e.corners == 0
}

/// The cell at an extended coordinate of the 10x10 window around a chunk:
/// inside the grid it reads the grid, one step outside it reads the
/// matching boundary word or corner bit of the Edges context.
pub open spec fn ext_cell(grid: Seq<u8>, e: Edges, x: int, y: int) -> bool
    recommends
        -1 <= x <= 8,
        -1 <= y <= 8,
{
    if 0 <= x < 8 && 0 <= y < 8 {
        cell(grid, x, y)
    } else if x == -1 && 0 <= y < 8 {
        bit(e.left, y as u8)
    } else if x == 8 && 0 <= y < 8 {
        bit(e.right, y as u8)
    } else if 0 <= x < 8 && y == -1 {
        bit(e.top, x as u8)
    } else if 0 <= x < 8 && y == 8 {
        bit(e.bottom, x as u8)
    } else if x == -1 && y == -1 {
        bit(e.corners, 2)
    } else if x == 8 && y == -1 {
        bit(e.corners, 3)
    } else if x == -1 && y == 8 {
        bit(e.corners, 0)
    } else if x == 8 && y == 8 {
        bit(e.corners, 1)
    } else {
        false
    }
}

pub open spec fn b2i(b: bool) -> int {
    if b {
        1
    } else {
        0
    }
}

/// Live cells in the 3x3 neighborhood block of (`x`, `y`), the cell itself
/// included; positions beyond the grid come from the Edges context.
pub open spec fn live_count(grid: Seq<u8>, e: Edges, x: int, y: int) -> int
    recommends
        0 <= x < 8,
        0 <= y < 8,
{
    b2i(ext_cell(grid, e, x - 1, y - 1)) + b2i(ext_cell(grid, e, x, y - 1)) + b2i(
        ext_cell(grid, e, x + 1, y - 1),
    ) + b2i(ext_cell(grid, e, x - 1, y)) + b2i(ext_cell(grid, e, x, y)) + b2i(
        ext_cell(grid, e, x + 1, y),
    ) + b2i(ext_cell(grid, e, x - 1, y + 1)) + b2i(ext_cell(grid, e, x, y + 1)) + b2i(
        ext_cell(grid, e, x + 1, y + 1),
    )
}

/// The transition rule. The count runs over the whole 3x3 block, the cell
/// itself included: a live cell stays alive when the block holds exactly
/// 3 or 4 live cells, a dead cell is born when it holds exactly 3.
pub open spec fn next_cell(grid: Seq<u8>, e: Edges, x: int, y: int) -> bool
    recommends
        0 <= x < 8,
        0 <= y < 8,
{
    if cell(grid, x, y) {
        live_count(grid, e, x, y) == 3 || live_count(grid, e, x, y) == 4
    } else {
        live_count(grid, e, x, y) == 3
    }
}

impl Chunk {
    /// A fresh, empty, active chunk at the given chunk-space coordinate.
    pub fn new(pos: [i32; 2]) -> (r: Chunk)
        ensures
            r.pos == pos,
            r.active,
            grid_empty(r.chunk@),
    {
        Chunk { chunk: [0u8; 8], active: true, pos }
    }

    /// An active chunk at `pos` holding the given packed grid.
    pub fn from(pos: [i32; 2], chunk: [u8; 8]) -> (r: Chunk)
        ensures
            r.pos == pos,
            r.active,
            r.chunk@ == chunk@,
    {
        Chunk { chunk, active: true, pos }
    }

    /// Replaces the whole grid, leaving coordinate and flag alone.
    pub fn set(&mut self, chunk: [u8; 8])
        ensures
            final(self).chunk@ == chunk@,
            final(self).pos == old(self).pos,
            final(self).active == old(self).active,
    {
        self.chunk = chunk;
    }

    /// Writes one cell. The coordinate must be in range: out-of-range
    /// access is a caller error, never clamped.
    pub fn set_bit(self, pos: (u8, u8), val: bool) -> (r: Self)
        requires
            pos.0 < 8,
            pos.1 < 8,
        ensures
            r.pos == self.pos,
            r.active == self.active,
            forall|x: int, y: int|
                0 <= x < 8 && 0 <= y < 8 ==> cell(r.chunk@, x, y) == (if x == pos.0 && y == pos.1 {
                    val
                } else {
                    cell(self.chunk@, x, y)
                }),
    {
        let mut out = self;
        let row = out.chunk[pos.1 as usize];
        let new_row = if val {
            or_bit(row, pos.0)
        } else {
            and_not_bit(row, pos.0)
        };
        out.chunk[pos.1 as usize] = new_row;
        proof {
            assert(out.chunk@ == self.chunk@.update(pos.1 as int, new_row));
        }
        out
    }

    /// Flips one cell; every other cell keeps its state.
    pub fn toggle_bit(&mut self, pos: (u8, u8))
        requires
            pos.0 < 8,
            pos.1 < 8,
        ensures
            final(self).pos == old(self).pos,
            final(self).active == old(self).active,
            forall|x: int, y: int|
                0 <= x < 8 && 0 <= y < 8 ==> cell(final(self).chunk@, x, y) == (if x == pos.0 && y
                    == pos.1 {
                    !cell(old(self).chunk@, x, y)
                } else {
                    cell(old(self).chunk@, x, y)
                }),
    {
        let row = self.chunk[pos.1 as usize];
        let new_row = xor_bit(row, pos.0);
        self.chunk[pos.1 as usize] = new_row;
    }

    pub fn set_active(&mut self, val: bool)
        ensures
            final(self).active == val,
            final(self).chunk == old(self).chunk,
            final(self).pos == old(self).pos,
    {
        self.active = val;
    }

    pub fn toggle_active(&mut self)
        ensures
            final(self).active == !old(self).active,
            final(self).chunk == old(self).chunk,
            final(self).pos == old(self).pos,
    {
        self.active = !self.active;
    }

    /// The packed top row.
    pub fn top(&self) -> (r: u8)
        ensures
            r == self.chunk@[0],
    {
        self.chunk[0]
    }

    /// The packed bottom row.
    pub fn bottom(&self) -> (r: u8)
        ensures
            r == self.chunk@[7],
    {
        self.chunk[7]
    }

    /// The leftmost column, packed top down: column i of the result is
    /// the cell in row i, column 0.
    pub fn left(&self) -> (r: u8)
        ensures
            forall|i: u8| i < 8 ==> bit(r, i) == cell(self.chunk@, 0, i as int),
    {
        let mut out: u8 = 0;
        proof {
            assert forall|m: u8| m < 8 implies !bit(out, m) by {
                crate::bits::lemma_bit_zero(m);
            }
        }
        for i in 0..8u8
            invariant
                forall|m: u8| m < i ==> bit(out, m) == cell(self.chunk@, 0, m as int),
                forall|m: u8| i <= m < 8 ==> !bit(out, m),
        {
            if get_bit_at(self.chunk[i as usize], 0) {
                out = or_bit(out, i);
            }
        }
        out
    }

    /// The rightmost column, packed top down: column i of the result is
    /// the cell in row i, column 7.
    pub fn right(&self) -> (r: u8)
        ensures
            forall|i: u8| i < 8 ==> bit(r, i) == cell(self.chunk@, 7, i as int),
    {
        let mut out: u8 = 0;
        proof {
            assert forall|m: u8| m < 8 implies !bit(out, m) by {
                crate::bits::lemma_bit_zero(m);
            }
        }
        for i in 0..8u8
            invariant
                forall|m: u8| m < i ==> bit(out, m) == cell(self.chunk@, 7, m as int),
                forall|m: u8| i <= m < 8 ==> !bit(out, m),
        {
            if get_bit_at(self.chunk[i as usize], 7) {
                out = or_bit(out, i);
            }
        }
        out
    }

    /// Reads column `n` of a packed row; columns count from the left.
    /// Out-of-range columns are a caller error.
    pub fn get_bit_at(input: u8, n: u8) -> (r: bool)
        requires
            n < 8,
        ensures
            r == bit(input, n),
    {
        get_bit_at(input, n)
    }

    /// Reads one cell; the point must lie inside the 8x8 grid.
    pub fn get_bit_at_point(&self, point: (i8, i8)) -> (r: bool)
        requires
            0 <= point.0 < 8,
            0 <= point.1 < 8,
        ensures
            r == cell(self.chunk@, point.0 as int, point.1 as int),
    {
        get_bit_at(self.chunk[point.1 as usize], point.0 as u8)
    }

    /// Reads one packed row.
    pub fn get_byte_at(&self, n: usize) -> (r: u8)
        requires
            n < 8,
        ensures
            r == self.chunk@[n as int],
    {
        self.chunk[n]
    }

    /// Reads one extended coordinate of the 10x10 window around this
    /// chunk: the grid inside, the Edges context one step outside.
    fn ext_at(&self, edges: &Edges, x: i8, y: i8) -> (b: bool)
        requires
            -1 <= x <= 8,
            -1 <= y <= 8,
        ensures
            b == ext_cell(self.chunk@, *edges, x as int, y as int),
    {
        if 0 <= x && x < 8 && 0 <= y && y < 8 {
            get_bit_at(self.chunk[y as usize], x as u8)
        } else if x == -1 && 0 <= y && y < 8 {
            get_bit_at(edges.left, y as u8)
        } else if x == 8 && 0 <= y && y < 8 {
            get_bit_at(edges.right, y as u8)
        } else if 0 <= x && x < 8 && y == -1 {
            get_bit_at(edges.top, x as u8)
        } else if 0 <= x && x < 8 && y == 8 {
            get_bit_at(edges.bottom, x as u8)
        } else if x == -1 && y == -1 {
            get_bit_at(edges.corners, 2)
        } else if x == 8 && y == -1 {
            get_bit_at(edges.corners, 3)
        } else if x == -1 && y == 8 {
            get_bit_at(edges.corners, 0)
        } else {
            get_bit_at(edges.corners, 1)
        }
    }

    /// Evaluates the transition rule for one cell against the given
    /// boundary context.
    pub fn survive(&self, point: (i8, i8), edges: &Edges) -> (r: bool)
        requires
            0 <= point.0 < 8,
            0 <= point.1 < 8,
        ensures
            r == next_cell(self.chunk@, *edges, point.0 as int, point.1 as int),
    {
        let x = point.0;
        let y = point.1;
        let mut count: u8 = 0;
        if self.ext_at(edges, x - 1, y - 1) {
            count = count + 1;
        }
        if self.ext_at(edges, x, y - 1) {
            count = count + 1;
        }
        if self.ext_at(edges, x + 1, y - 1) {
            count = count + 1;
        }
        if self.ext_at(edges, x - 1, y) {
            count = count + 1;
        }
        if self.ext_at(edges, x, y) {
            count = count + 1;
        }
        if self.ext_at(edges, x + 1, y) {
            count = count + 1;
        }
        if self.ext_at(edges, x - 1, y + 1) {
            count = count + 1;
        }
        if self.ext_at(edges, x, y + 1) {
            count = count + 1;
        }
        if self.ext_at(edges, x + 1, y + 1) {
            count = count + 1;
        }
        if self.get_bit_at_point(point) {
            count == 3 || count == 4
        } else {
            count == 3
        }
    }

    /// Advances this chunk one generation against the given boundary
    /// context and returns its activation mask.
    ///
    /// A chunk takes part when it is already active or any part of the
    /// context is live; a chunk that ends the generation with an empty
    /// grid under an empty context goes inactive. Column `n` of the mask
    /// reports, for each compass direction in the order up-left, up,
    /// up-right, left, right, down-left, down, down-right, that the fresh
    /// grid holds a live cell on that side or corner.
    pub fn iterate(&mut self, edges: &Edges) -> (mask: u8)
        ensures
            final(self).pos == old(self).pos,
            !(old(self).active || !edges_empty(*edges)) ==> *final(self) == *old(self) && mask == 0,
            (old(self).active || !edges_empty(*edges)) ==> {
                &&& forall|x: int, y: int|
                    0 <= x < 8 && 0 <= y < 8 ==> cell(final(self).chunk@, x, y) == next_cell(
                        old(self).chunk@,
                        *edges,
                        x,
                        y,
                    )
                &&& final(self).active == !(grid_empty(final(self).chunk@) && edges_empty(*edges))
                &&& forall|n: u8| n < 8 ==> bit(mask, n) == mask_bit(final(self).chunk@, n)
            },
    {
        if !(edges.left == 0 && edges.right == 0 && edges.top == 0 && edges.bottom == 0
            && edges.corners == 0) {
            self.active = true;
        }
        if self.active {
            let ghost old_grid = self.chunk@;
            let mut new_chunk: [u8; 8] = [0u8; 8];
            for y in 0..8usize
                invariant
                    self.chunk@ == old_grid,
                    self.active,
                    self.pos == old(self).pos,
                    forall|yy: int|
                        0 <= yy < y ==> forall|xx: u8|
                            xx < 8 ==> bit(#[trigger] new_chunk@[yy], xx) == next_cell(
                                old_grid,
                                *edges,
                                xx as int,
                                yy,
                            ),
            {
                let mut byte: u8 = 0;
                proof {
                    assert forall|m: u8| m < 8 implies !bit(byte, m) by {
                        crate::bits::lemma_bit_zero(m);
                    }
                }
                for x in 0..8u8
                    invariant
                        y < 8,
                        self.chunk@ == old_grid,
                        self.active,
                        self.pos == old(self).pos,
                        forall|m: u8|
                            m < x ==> bit(byte, m) == next_cell(old_grid, *edges, m as int, y as int),
                        forall|m: u8| x <= m < 8 ==> !bit(byte, m),
                {
                    if self.survive((x as i8, y as i8), edges) {
                        byte = or_bit(byte, x);
                    }
                }
                new_chunk[y] = byte;
            }
            self.chunk = new_chunk;
            let mut empty = true;
            for y in 0..8usize
                invariant
                    self.chunk@ == new_chunk@,
                    self.active,
                    self.pos == old(self).pos,
                    empty == (forall|j: int| 0 <= j < y ==> new_chunk@[j] == 0),
            {
                if self.chunk[y] != 0 {
                    empty = false;
                }
            }
            if empty && edges.left == 0 && edges.right == 0 && edges.top == 0 && edges.bottom == 0
                && edges.corners == 0 {
                self.active = false;
            }
            let ghost g = self.chunk@;
            let c00 = self.get_bit_at_point((0, 0));
            let c70 = self.get_bit_at_point((7, 0));
            let c07 = self.get_bit_at_point((0, 7));
            let c77 = self.get_bit_at_point((7, 7));
            let row_top = self.top();
            let row_bottom = self.bottom();
            let col_left = self.left();
            let col_right = self.right();
            proof {
                lemma_word_nonzero_cells(row_top, g, 1);
                lemma_word_nonzero_cells(row_bottom, g, 2);
                lemma_word_nonzero_cells(col_left, g, 3);
                lemma_word_nonzero_cells(col_right, g, 4);
            }
            let mut mask: u8 = 0;
            proof {
                assert forall|m: u8| m < 8 implies !bit(mask, m) by {
                    crate::bits::lemma_bit_zero(m);
                }
            }
            if c00 {
                mask = or_bit(mask, 0);
            }
            assert(forall|m: u8| m < 8 ==> bit(mask, m) == (m == 0 && c00));
            if row_top != 0 {
                mask = or_bit(mask, 1);
            }
            assert(forall|m: u8|
                m < 8 ==> bit(mask, m) == (m == 0 && c00 || m == 1 && row_top != 0));
            if c70 {
                mask = or_bit(mask, 2);
            }
            assert(forall|m: u8|
                m < 8 ==> bit(mask, m) == (m == 0 && c00 || m == 1 && row_top != 0 || m == 2
                    && c70));
            if col_left != 0 {
                mask = or_bit(mask, 3);
            }
            assert(forall|m: u8|
                m < 8 ==> bit(mask, m) == (m == 0 && c00 || m == 1 && row_top != 0 || m == 2 && c70
                    || m == 3 && col_left != 0));
            if col_right != 0 {
                mask = or_bit(mask, 4);
            }
            assert(forall|m: u8|
                m < 8 ==> bit(mask, m) == (m == 0 && c00 || m == 1 && row_top != 0 || m == 2 && c70
                    || m == 3 && col_left != 0 || m == 4 && col_right != 0));
            if c07 {
                mask = or_bit(mask, 5);
            }
            assert(forall|m: u8|
                m < 8 ==> bit(mask, m) == (m == 0 && c00 || m == 1 && row_top != 0 || m == 2 && c70
                    || m == 3 && col_left != 0 || m == 4 && col_right != 0 || m == 5 && c07));
            if row_bottom != 0 {
                mask = or_bit(mask, 6);
            }
            assert(forall|m: u8|
                m < 8 ==> bit(mask, m) == (m == 0 && c00 || m == 1 && row_top != 0 || m == 2 && c70
                    || m == 3 && col_left != 0 || m == 4 && col_right != 0 || m == 5 && c07 || m == 6
                    && row_bottom != 0));
            if c77 {
                mask = or_bit(mask, 7);
            }
            assert(forall|m: u8|
                m < 8 ==> bit(mask, m) == (m == 0 && c00 || m == 1 && row_top != 0 || m == 2 && c70
                    || m == 3 && col_left != 0 || m == 4 && col_right != 0 || m == 5 && c07 || m == 6
                    && row_bottom != 0 || m == 7 && c77));
            mask
        } else {
            0
        }
    }
}

/// Column `n` of a chunk's activation mask: a live cell on that side or
/// corner of the grid, directions in the order up-left, up, up-right,
/// left, right, down-left, down, down-right.
pub open spec fn mask_bit(g: Seq<u8>, n: u8) -> bool
    recommends
        n < 8,
{
    if n == 0 {
        cell(g, 0, 0)
    } else if n == 1 {
        exists|x: int| 0 <= x < 8 && cell(g, x, 0)
    } else if n == 2 {
        cell(g, 7, 0)
    } else if n == 3 {
        exists|y: int| 0 <= y < 8 && cell(g, 0, y)
    } else if n == 4 {
        exists|y: int| 0 <= y < 8 && cell(g, 7, y)
    } else if n == 5 {
        cell(g, 0, 7)
    } else if n == 6 {
        exists|x: int| 0 <= x < 8 && cell(g, x, 7)
    } else {
        cell(g, 7, 7)
    }
}

/// Ties a boundary word built from a grid to the mask columns 1, 2, 3
/// and 6: the word is nonzero exactly when its side holds a live cell.
proof fn lemma_word_nonzero_cells(w: u8, g: Seq<u8>, side: u8)
    requires
        side == 1 ==> w == g[0],
        side == 2 ==> w == g[7],
        side == 3 ==> forall|i: u8| i < 8 ==> bit(w, i) == cell(g, 0, i as int),
        side == 4 ==> forall|i: u8| i < 8 ==> bit(w, i) == cell(g, 7, i as int),
        1 <= side <= 4,
    ensures
        side == 1 ==> ((w != 0) == mask_bit(g, 1)),
        side == 2 ==> ((w != 0) == mask_bit(g, 6)),
        side == 3 ==> ((w != 0) == mask_bit(g, 3)),
        side == 4 ==> ((w != 0) == mask_bit(g, 4)),
{
    lemma_row_nonzero(w);
    if w != 0 {
        let m = choose|m: u8| m < 8 && bit(w, m);
        if side == 1 {
            assert(cell(g, m as int, 0));
        } else if side == 2 {
            assert(cell(g, m as int, 7));
        } else if side == 3 {
            assert(cell(g, 0, m as int));
        } else {
            assert(cell(g, 7, m as int));
        }
    }
    if side == 1 && mask_bit(g, 1) {
        let x = choose|x: int| 0 <= x < 8 && cell(g, x, 0);
        assert((x as u8) < 8 && bit(w, x as u8));
    }
    if side == 2 && mask_bit(g, 6) {
        let x = choose|x: int| 0 <= x < 8 && cell(g, x, 7);
        assert((x as u8) < 8 && bit(w, x as u8));
    }
    if side == 3 && mask_bit(g, 3) {
        let y = choose|y: int| 0 <= y < 8 && cell(g, 0, y);
        assert((y as u8) < 8 && bit(w, y as u8));
    }
    if side == 4 && mask_bit(g, 4) {
        let y = choose|y: int| 0 <= y < 8 && cell(g, 7, y);
        assert((y as u8) < 8 && bit(w, y as u8));
    }
}

/// A grid is empty exactly when every cell of it is dead.
pub proof fn lemma_grid_empty_cells(g: Seq<u8>)
    requires
        g.len() == 8,
    ensures
        grid_empty(g) <==> (forall|x: int, y: int| 0 <= x < 8 && 0 <= y < 8 ==> !cell(g, x, y)),
{
    if grid_empty(g) {
        assert forall|x: int, y: int| 0 <= x < 8 && 0 <= y < 8 implies !cell(g, x, y) by {
            crate::bits::lemma_bit_zero(x as u8);
        }
    }
    if forall|x: int, y: int| 0 <= x < 8 && 0 <= y < 8 ==> !cell(g, x, y) {
        assert forall|y: int| 0 <= y < 8 implies g[y] == 0 by {
            assert(!cell(g, 0, y) && !cell(g, 1, y) && !cell(g, 2, y) && !cell(g, 3, y) && !cell(
                g,
                4,
                y,
            ) && !cell(g, 5, y) && !cell(g, 6, y) && !cell(g, 7, y));
            lemma_row_zero(g[y]);
        }
    }
}

/// Toggling the same cell twice restores the grid exactly: grids that
/// stand in the cell-flip relation twice over are equal.
pub proof fn lemma_toggle_twice(g0: Seq<u8>, g1: Seq<u8>, g2: Seq<u8>, x: int, y: int)
    requires
        g0.len() == 8,
        g1.len() == 8,
        g2.len() == 8,
        0 <= x < 8,
        0 <= y < 8,
        forall|i: int, j: int|
            0 <= i < 8 && 0 <= j < 8 ==> cell(g1, i, j) == (if i == x && j == y {
                !cell(g0, i, j)
            } else {
                cell(g0, i, j)
            }),
        forall|i: int, j: int|
            0 <= i < 8 && 0 <= j < 8 ==> cell(g2, i, j) == (if i == x && j == y {
                !cell(g1, i, j)
            } else {
                cell(g1, i, j)
            }),
    ensures
        g2 == g0,
{
    assert forall|j: int| 0 <= j < 8 implies g2[j] == g0[j] by {
        assert(cell(g2, 0, j) == cell(g0, 0, j));
        assert(cell(g2, 1, j) == cell(g0, 1, j));
        assert(cell(g2, 2, j) == cell(g0, 2, j));
        assert(cell(g2, 3, j) == cell(g0, 3, j));
        assert(cell(g2, 4, j) == cell(g0, 4, j));
        assert(cell(g2, 5, j) == cell(g0, 5, j));
        assert(cell(g2, 6, j) == cell(g0, 6, j));
        assert(cell(g2, 7, j) == cell(g0, 7, j));
        lemma_row_ext(g2[j], g0[j]);
    }
    assert(g2 =~= g0);
}

/// The transition rule cell by cell, the neighborhood count taken over
/// the whole 3x3 block with the cell itself included: a live cell whose
/// block holds 2 live cells dies, with 3 or 4 it survives; a dead cell
/// is born exactly with a block of 3, and stays dead with 2 or 4.
pub proof fn lemma_transition_rule(g: Seq<u8>, e: Edges, x: int, y: int)
    requires
        0 <= x < 8,
        0 <= y < 8,
    ensures
        cell(g, x, y) && live_count(g, e, x, y) == 2 ==> !next_cell(g, e, x, y),
        cell(g, x, y) && (live_count(g, e, x, y) == 3 || live_count(g, e, x, y) == 4) ==> next_cell(
            g,
            e,
            x,
            y,
        ),
        !cell(g, x, y) && live_count(g, e, x, y) == 3 ==> next_cell(g, e, x, y),
        !cell(g, x, y) && (live_count(g, e, x, y) == 2 || live_count(g, e, x, y) == 4)
            ==> !next_cell(g, e, x, y),
{
}

} // verus!
