//! The toroidal Game of Life universe: fixed dimensions, a bit-packed cell
//! buffer, and a snapshot buffer read during a tick so that every cell's
//! next state depends only on the previous generation.

use crate::bits;
use crate::bits::BitBuffer;
use vstd::prelude::*;
use vstd::string::StringExecFns;

verus! {

/// The number of bytes needed to hold `w * h` cells, one bit each:
/// the ceiling of `w * h / 8`.
pub open spec fn buffer_len(w: int, h: int) -> int {
    (w * h + 7) / 8
}

/// The flat index of grid coordinate (`row`, `col`) in row-major order.
pub open spec fn cell_index(w: int, row: int, col: int) -> int {
    row * w + col
}

/// The coordinate one step before `x` on a wrapped axis of length `n`.
pub open spec fn wrap_prev(x: int, n: int) -> int {
    if x == 0 {
        n - 1
    } else {
        x - 1
    }
}

/// The coordinate one step after `x` on a wrapped axis of length `n`.
pub open spec fn wrap_next(x: int, n: int) -> int {
    if x == n - 1 {
        0
    } else {
        x + 1
    }
}

/// One if the cell is live, zero if dead.
pub open spec fn live_as_count(b: bool) -> int {
    if b {
        1
    } else {
        0
    }
}

/// The number of live cells among the eight Moore neighbors of
/// (`row`, `col`) in grid `g`, with toroidal wraparound on both axes.
pub open spec fn live_neighbors(g: Seq<bool>, w: int, h: int, row: int, col: int) -> int {
    let north = wrap_prev(row, h);
    let south = wrap_next(row, h);
    let west = wrap_prev(col, w);
    let east = wrap_next(col, w);
    live_as_count(g[cell_index(w, north, west)]) + live_as_count(g[cell_index(w, north, col)])
        + live_as_count(g[cell_index(w, north, east)]) + live_as_count(g[cell_index(w, row, west)])
        + live_as_count(g[cell_index(w, row, east)]) + live_as_count(g[cell_index(w, south, west)])
        + live_as_count(g[cell_index(w, south, col)]) + live_as_count(
        g[cell_index(w, south, east)],
    )
}

/// The standard B3/S23 transition rule: a live cell survives with two or
/// three live neighbors and otherwise dies (underpopulation below two,
/// overpopulation above three); a dead cell comes alive with exactly three
/// live neighbors; every other cell keeps its state.
pub open spec fn next_state(alive: bool, neighbors: int) -> bool {
    if alive && neighbors < 2 {
        false
    } else if alive && (neighbors == 2 || neighbors == 3) {
        true
    } else if alive && neighbors > 3 {
        false
    } else if !alive && neighbors == 3 {
        true
    } else {
        alive
    }
}

/// The grid one generation after `g`, applying the transition rule to every
/// cell with neighbor counts read from `g` itself.
pub open spec fn next_grid(g: Seq<bool>, w: int, h: int) -> Seq<bool> {
    Seq::new((w * h) as nat, |i: int| next_state(g[i], live_neighbors(g, w, h, i / w, i % w)))
}

/// The deterministic initial pattern: cell `i` is live exactly when
/// `i % 2 == 0` or `i % 7 == 0`.
pub open spec fn seeded_grid(w: int, h: int) -> Seq<bool> {
    Seq::new((w * h) as nat, |i: int| i % 2 == 0 || i % 7 == 0)
}

/// The grid with every cell dead.
pub open spec fn dead_grid(w: int, h: int) -> Seq<bool> {
    Seq::new((w * h) as nat, |i: int| false)
}

/// The grid `g` with the cell at `idx` flipped.
pub open spec fn toggled(g: Seq<bool>, idx: int) -> Seq<bool> {
    g.update(idx, !g[idx])
}

/// The text snapshot of grid `g`: one `'1'` or `'0'` per cell in row-major
/// order, with a line break ending each of the `h` rows, so row `r` occupies
/// positions `r * (w + 1)` up to its break at `r * (w + 1) + w`.
pub open spec fn render_chars(g: Seq<bool>, w: int, h: int) -> Seq<char> {
    Seq::new(
        (h * (w + 1)) as nat,
        |k: int|
            if k % (w + 1) == w {
                '\n'
            } else if g[(k / (w + 1)) * w + k % (w + 1)] {
                '1'
            } else {
                '0'
            },
    )
}

/// The Game of Life state: fixed dimensions, the current generation in
/// `cells`, and a same-sized snapshot buffer `scratch` that a tick fills
/// with the previous generation before rewriting `cells`.
pub struct Universe {
    pub width: u32,
    pub height: u32,
    pub cells: BitBuffer,
    pub scratch: BitBuffer,
}

impl Universe {
    /// Well-formedness: positive dimensions whose product fits the index
    /// type, and both buffers exactly as long as the packed cells need.
    pub open spec fn wf(self) -> bool {
        &&& 1 <= self.width
        &&& 1 <= self.height
        &&& self.width as int * self.height as int <= u32::MAX as int
        &&& self.cells@.len() == buffer_len(self.width as int, self.height as int)
        &&& self.scratch@.len() == buffer_len(self.width as int, self.height as int)
    }

    /// The current generation as a flat sequence of cell states, cell `i`
    /// at grid coordinate (`i / width`, `i % width`).
    pub open spec fn grid(self) -> Seq<bool> {
        Seq::new(
            (self.width as int * self.height as int) as nat,
            |i: int| self.cells.bit(i),
        )
    }

    /// The snapshot buffer as a flat sequence of cell states.
    spec fn snapshot(self) -> Seq<bool> {
        Seq::new(
            (self.width as int * self.height as int) as nat,
            |i: int| self.scratch.bit(i),
        )
    }

    /// Allocates zeroed buffers of `ceil(width * height / 8)` bytes and
    /// seeds the deterministic initial pattern.
    pub fn new(width: u32, height: u32) -> (r: Universe)
        requires
            1 <= width,
            1 <= height,
            width as int * height as int <= u32::MAX as int,
        ensures
            r.wf(),
            r.width == width,
            r.height == height,
            r.grid() == seeded_grid(width as int, height as int),
            forall|j: int|
                width as int * height as int <= j < 8 * r.cells@.len() ==> !r.cells.bit(j),
            forall|i: int| 0 <= i < r.scratch@.len() ==> r.scratch@[i] == 0u8,
    {
        let len = (width * height) as usize;
        let vlen = if len % 8 == 0 {
            len / 8
        } else {
            len / 8 + 1
        };
        proof {
            lemma_ceil_div8(len as int);
            lemma_cells_fit_in_bytes(len as int);
        }
        let mut cells = BitBuffer::new(vlen);
        proof {
            bits::lemma_all_zero_bytes_all_dead(cells@);
        }
        let mut i: usize = 0;
        while i < len
            invariant
                i <= len,
                cells@.len() == vlen,
                len <= 8 * vlen,
                forall|j: int| 0 <= j < i ==> cells.bit(j) == (j % 2 == 0 || j % 7 == 0),
                forall|j: int| i <= j < 8 * vlen ==> !cells.bit(j),
            decreases len - i,
        {
            if i % 2 == 0 || i % 7 == 0 {
                cells.set(i, true);
            } else {
                cells.set(i, false);
            }
            i = i + 1;
        }
        let scratch = BitBuffer::new(vlen);
        let r = Universe { width, height, cells, scratch };
        proof {
            assert(r.grid() =~= seeded_grid(width as int, height as int));
        }
        r
    }

    /// The flat index of (`row`, `column`); callers pass coordinates already
    /// normalized into the grid, so no wraparound happens here.
    fn get_index(&self, row: u32, column: u32) -> (r: usize)
        requires
            self.wf(),
            row < self.height,
            column < self.width,
        ensures
            r as int == cell_index(self.width as int, row as int, column as int),
            r < self.width as int * self.height as int,
    {
        proof {
            lemma_index_in_range(
                self.width as int,
                self.height as int,
                row as int,
                column as int,
            );
        }
        (row * self.width + column) as usize
    }

    /// Reads one cell of the previous-generation snapshot.
    fn snapshot_at(&self, row: u32, column: u32) -> (r: bool)
        requires
            self.wf(),
            row < self.height,
            column < self.width,
        ensures
            r == self.snapshot()[cell_index(self.width as int, row as int, column as int)],
    {
        proof {
            lemma_cells_fit_in_bytes(self.width as int * self.height as int);
        }
        let idx = self.get_index(row, column);
        self.scratch.get(idx)
    }

    /// Counts live cells among the eight Moore neighbors of (`row`, `column`),
    /// read from the previous-generation snapshot, with toroidal wraparound.
    fn live_neighbor_count(&self, row: u32, column: u32) -> (count: u8)
        requires
            self.wf(),
            row < self.height,
            column < self.width,
        ensures
            count as int == live_neighbors(
                self.snapshot(),
                self.width as int,
                self.height as int,
                row as int,
                column as int,
            ),
            count <= 8,
    {
        let mut count: u8 = 0;
        let north = if row == 0 {
            self.height - 1
        } else {
            row - 1
        };
        let south = if row == self.height - 1 {
            0
        } else {
            row + 1
        };
        let west = if column == 0 {
            self.width - 1
        } else {
            column - 1
        };
        let east = if column == self.width - 1 {
            0
        } else {
            column + 1
        };
        proof {
            assert(north as int == wrap_prev(row as int, self.height as int));
            assert(south as int == wrap_next(row as int, self.height as int));
            assert(west as int == wrap_prev(column as int, self.width as int));
            assert(east as int == wrap_next(column as int, self.width as int));
        }

        count += if self.snapshot_at(north, west) {
            1
        } else {
            0
        };
        count += if self.snapshot_at(north, column) {
            1
        } else {
            0
        };
        count += if self.snapshot_at(north, east) {
            1
        } else {
            0
        };
        count += if self.snapshot_at(row, west) {
            1
        } else {
            0
        };
        count += if self.snapshot_at(row, east) {
            1
        } else {
            0
        };
        count += if self.snapshot_at(south, west) {
            1
        } else {
            0
        };
        count += if self.snapshot_at(south, column) {
            1
        } else {
            0
        };
        count += if self.snapshot_at(south, east) {
            1
        } else {
            0
        };
        count
    }

    /// Advances one generation: snapshots the current cells, then rewrites
    /// every cell from the snapshot under the transition rule, so reads and
    /// writes never alias within the pass.
    pub fn tick(&mut self)
        requires
            old(self).wf(),
        ensures
            final(self).wf(),
            final(self).width == old(self).width,
            final(self).height == old(self).height,
            final(self).grid() == next_grid(
                old(self).grid(),
                old(self).width as int,
                old(self).height as int,
            ),
            final(self).scratch@ == old(self).cells@,
            forall|j: int|
                old(self).width as int * old(self).height as int <= j < 8 * old(
                    self,
                ).cells@.len() ==> final(self).cells.bit(j) == old(self).cells.bit(j),
    {
        let w = self.width;
        let h = self.height;
        self.scratch.copy_from(&self.cells);
        let ghost g0 = self.grid();
        proof {
            assert(self.snapshot() =~= g0);
            assert(g0 == old(self).grid());
            assert(self.scratch@ == old(self).cells@);
            lemma_cells_fit_in_bytes(w as int * h as int);
        }

        let mut row: u32 = 0;
        while row < h
            invariant
                self.wf(),
                self.width == w,
                self.height == h,
                row <= h,
                self.snapshot() == g0,
                self.scratch@ == old(self).cells@,
                self.cells@.len() == old(self).cells@.len(),
                g0.len() == w as int * h as int,
                w as int * h as int <= 8 * self.cells@.len(),
                0 <= row as int * w as int <= w as int * h as int,
                forall|k: int|
                    0 <= k < row as int * w as int ==> self.grid()[k] == next_grid(
                        g0,
                        w as int,
                        h as int,
                    )[k],
                forall|j: int|
                    w as int * h as int <= j < 8 * self.cells@.len() ==> self.cells.bit(j) == old(
                        self,
                    ).cells.bit(j),
            decreases h - row,
        {
            let mut col: u32 = 0;
            while col < w
                invariant
                    self.wf(),
                    self.width == w,
                    self.height == h,
                    row < h,
                    col <= w,
                    self.snapshot() == g0,
                    self.scratch@ == old(self).cells@,
                    self.cells@.len() == old(self).cells@.len(),
                    g0.len() == w as int * h as int,
                    w as int * h as int <= 8 * self.cells@.len(),
                    0 <= row as int * w as int + col as int <= w as int * h as int,
                    forall|k: int|
                        0 <= k < row as int * w as int + col as int ==> self.grid()[k] == next_grid(
                            g0,
                            w as int,
                            h as int,
                        )[k],
                    forall|j: int|
                        w as int * h as int <= j < 8 * self.cells@.len() ==> self.cells.bit(j)
                            == old(self).cells.bit(j),
                decreases w - col,
            {
                let idx = self.get_index(row, col);
                let ghost pre = *self;
                let cell = self.scratch.get(idx);
                let live_neighbor_cells = self.live_neighbor_count(row, col);

                let next_cell = if cell && live_neighbor_cells < 2 {
                    // underpopulation
                    false
                } else if cell && (live_neighbor_cells == 2 || live_neighbor_cells == 3) {
                    // survival
                    true
                } else if cell && live_neighbor_cells > 3 {
                    // overpopulation
                    false
                } else if !cell && live_neighbor_cells == 3 {
                    // reproduction
                    true
                } else {
                    // stasis
                    cell
                };

                self.cells.set(idx, next_cell);
                proof {
                    vstd::arithmetic::div_mod::lemma_fundamental_div_mod_converse(
                        idx as int,
                        w as int,
                        row as int,
                        col as int,
                    );
                    assert(next_cell == next_state(
                        g0[idx as int],
                        live_neighbors(g0, w as int, h as int, row as int, col as int),
                    ));
                    assert forall|k: int|
                        0 <= k < row as int * w as int + col as int + 1 implies self.grid()[k]
                        == next_grid(g0, w as int, h as int)[k] by {
                        if k == idx as int {
                            assert(self.grid()[k] == self.cells.bit(k));
                            assert(self.cells.bit(idx as int) == next_cell);
                        } else {
                            assert(self.cells.bit(k) == pre.cells.bit(k));
                            assert(pre.grid()[k] == next_grid(g0, w as int, h as int)[k]);
                        }
                    }
                    assert forall|j: int|
                        w as int * h as int <= j < 8 * self.cells@.len() implies self.cells.bit(j)
                        == old(self).cells.bit(j) by {
                        assert(self.cells.bit(j) == pre.cells.bit(j));
                    }
                }
                col = col + 1;
            }
            proof {
                assert((row as int + 1) * w as int == row as int * w as int + w as int)
                    by (nonlinear_arith);
            }
            row = row + 1;
        }
        proof {
            assert(h as int * w as int == w as int * h as int) by (nonlinear_arith);
            assert(self.grid() =~= next_grid(g0, w as int, h as int));
        }
    }

    /// Flips one cell of the current generation immediately; no neighbor
    /// recomputation happens until the next tick.
    pub fn toggle_cell(&mut self, row: u32, column: u32)
        requires
            old(self).wf(),
            row < old(self).height,
            column < old(self).width,
        ensures
            final(self).wf(),
            final(self).width == old(self).width,
            final(self).height == old(self).height,
            final(self).grid() == toggled(
                old(self).grid(),
                cell_index(old(self).width as int, row as int, column as int),
            ),
            final(self).scratch == old(self).scratch,
            final(self).cells@.len() == old(self).cells@.len(),
            forall|j: int|
                0 <= j < 8 * old(self).cells@.len() && j != cell_index(
                    old(self).width as int,
                    row as int,
                    column as int,
                ) ==> final(self).cells.bit(j) == old(self).cells.bit(j),
    {
        proof {
            lemma_cells_fit_in_bytes(self.width as int * self.height as int);
        }
        let ghost pre = *self;
        let idx = self.get_index(row, column);
        self.cells.toggle(idx);
        proof {
            assert(self.grid() =~= toggled(pre.grid(), idx as int));
        }
    }

    /// Writes one cell of the current generation, for a host layering direct
    /// edits (such as random regeneration) on top of the simulation.
    pub fn set_cell(&mut self, idx: u32, alive: bool)
        requires
            old(self).wf(),
            idx < old(self).width as int * old(self).height as int,
        ensures
            final(self).wf(),
            final(self).width == old(self).width,
            final(self).height == old(self).height,
            final(self).grid() == old(self).grid().update(idx as int, alive),
            final(self).scratch == old(self).scratch,
            final(self).cells@.len() == old(self).cells@.len(),
            forall|j: int|
                0 <= j < 8 * old(self).cells@.len() && j != idx ==> final(self).cells.bit(j)
                    == old(self).cells.bit(j),
    {
        proof {
            lemma_cells_fit_in_bytes(self.width as int * self.height as int);
        }
        let ghost pre = *self;
        self.cells.set(idx as usize, alive);
        proof {
            assert(self.grid() =~= pre.grid().update(idx as int, alive));
        }
    }

    /// Kills every cell of the current generation.
    pub fn clear(&mut self)
        requires
            old(self).wf(),
        ensures
            final(self).wf(),
            final(self).width == old(self).width,
            final(self).height == old(self).height,
            final(self).grid() == dead_grid(old(self).width as int, old(self).height as int),
            final(self).scratch == old(self).scratch,
            final(self).cells@.len() == old(self).cells@.len(),
            forall|i: int| 0 <= i < final(self).cells@.len() ==> final(self).cells@[i] == 0u8,
    {
        self.cells.zero_fill();
        proof {
            bits::lemma_zero_byte_bits();
            assert forall|k: int|
                0 <= k < self.width as int * self.height as int implies !self.cells.bit(k) by {
                lemma_cells_fit_in_bytes(self.width as int * self.height as int);
                vstd::arithmetic::div_mod::lemma_fundamental_div_mod(k, 8);
            }
            assert(self.grid() =~= dead_grid(self.width as int, self.height as int));
        }
    }

    /// The fixed grid width.
    pub fn width(&self) -> (r: u32)
        ensures
            r == self.width,
    {
        self.width
    }

    /// The fixed grid height.
    pub fn height(&self) -> (r: u32)
        ensures
            r == self.height,
    {
        self.height
    }

    /// The byte length of the packed cell buffer: the ceiling of
    /// `width * height / 8`.
    pub fn bytes(&self) -> (r: u32)
        requires
            self.wf(),
        ensures
            r as int == buffer_len(self.width as int, self.height as int),
    {
        proof {
            assert(1 <= self.width as int * self.height as int) by (nonlinear_arith)
                requires
                    1 <= self.width,
                    1 <= self.height,
            ;
            lemma_buffer_len_fits(self.width as int * self.height as int);
        }
        self.cells.byte_len() as u32
    }

    /// Read-only access to the packed cell buffer: bit `b` of byte `i`
    /// holds cell index `8 * i + b`, set when live.
    pub fn cells(&self) -> (r: &Vec<u8>)
        ensures
            r@ == self.cells@,
    {
        self.cells.as_bytes()
    }

    /// A text snapshot of the current generation: `'1'` per live cell,
    /// `'0'` per dead cell, row-major, each row ended by a line break.
    pub fn render(&self) -> (r: String)
        requires
            self.wf(),
        ensures
            r@ == render_chars(self.grid(), self.width as int, self.height as int),
    {
        let w = self.width;
        let h = self.height;
        let ghost g = self.grid();
        proof {
            lemma_cells_fit_in_bytes(w as int * h as int);
        }
        let mut s = String::new();
        let mut row: u32 = 0;
        while row < h
            invariant
                self.wf(),
                self.width == w,
                self.height == h,
                row <= h,
                g == self.grid(),
                g.len() == w as int * h as int,
                w as int * h as int <= 8 * self.cells@.len(),
                s@.len() == row as int * (w as int + 1),
                0 <= row as int * (w as int + 1) <= h as int * (w as int + 1),
                forall|k: int|
                    0 <= k < s@.len() ==> s@[k] == render_chars(g, w as int, h as int)[k],
            decreases h - row,
        {
            let mut col: u32 = 0;
            while col < w
                invariant
                    self.wf(),
                    self.width == w,
                    self.height == h,
                    row < h,
                    col <= w,
                    g == self.grid(),
                    g.len() == w as int * h as int,
                    w as int * h as int <= 8 * self.cells@.len(),
                    s@.len() == row as int * (w as int + 1) + col as int,
                    forall|k: int|
                        0 <= k < s@.len() ==> s@[k] == render_chars(g, w as int, h as int)[k],
                decreases w - col,
            {
                let idx = self.get_index(row, col);
                let alive = self.cells.get(idx);
                let ghost pre_s = s@;
                if alive {
                    s.append("1");
                } else {
                    s.append("0");
                }
                proof {
                    reveal_strlit("1");
                    reveal_strlit("0");
                    lemma_render_index(w as int, h as int, row as int, col as int);
                    assert(s@ =~= pre_s.push(if alive {
                        '1'
                    } else {
                        '0'
                    }));
                    assert(render_chars(g, w as int, h as int)[pre_s.len() as int] == (if alive {
                        '1'
                    } else {
                        '0'
                    }));
                }
                col = col + 1;
            }
            let ghost pre_s = s@;
            s.append("\n");
            proof {
                reveal_strlit("\n");
                lemma_render_index(w as int, h as int, row as int, w as int);
                assert(s@ =~= pre_s.push('\n'));
                assert(render_chars(g, w as int, h as int)[pre_s.len() as int] == '\n');
                assert((row as int + 1) * (w as int + 1) == row as int * (w as int + 1) + (
                w as int + 1)) by (nonlinear_arith);
            }
            row = row + 1;
        }
        proof {
            assert(s@ =~= render_chars(g, w as int, h as int));
        }
        s
    }
}

/// The output position of column `col` in row `row` of the rendered text,
/// with `col == w` standing for the row's line break: where it falls, and
/// how it decomposes back into the row and the column.
proof fn lemma_render_index(w: int, h: int, row: int, col: int)
    requires
        1 <= w,
        1 <= h,
        0 <= row < h,
        0 <= col <= w,
    ensures
        0 <= row * (w + 1) + col,
        row * (w + 1) + col < h * (w + 1),
        (row * (w + 1) + col) / (w + 1) == row,
        (row * (w + 1) + col) % (w + 1) == col,
{
    assert(0 <= row * (w + 1) + col && row * (w + 1) + col < h * (w + 1)) by (nonlinear_arith)
        requires
            1 <= w,
            1 <= h,
            0 <= row < h,
            0 <= col <= w,
    ;
    vstd::arithmetic::div_mod::lemma_fundamental_div_mod_converse(
        row * (w + 1) + col,
        w + 1,
        row,
        col,
    );
}

/// Each position of the rendered text decomposes into a row below `h` and
/// a column at most `w`; positions short of the row's line break index a
/// cell strictly inside the grid.
proof fn lemma_render_pos(k: int, w: int, h: int)
    requires
        1 <= w,
        1 <= h,
        0 <= k < h * (w + 1),
    ensures
        0 <= k / (w + 1) < h,
        0 <= k % (w + 1) <= w,
        k % (w + 1) < w ==> 0 <= (k / (w + 1)) * w + k % (w + 1) < w * h,
{
    vstd::arithmetic::div_mod::lemma_fundamental_div_mod(k, w + 1);
    vstd::arithmetic::div_mod::lemma_mod_bound(k, w + 1);
    vstd::arithmetic::div_mod::lemma_div_pos_is_pos(k, w + 1);
    let q = k / (w + 1);
    let r = k % (w + 1);
    assert(q < h) by (nonlinear_arith)
        requires
            1 <= w,
            k == (w + 1) * q + r,
            0 <= r,
            0 <= q,
            k < h * (w + 1),
    ;
    assert(r < w ==> 0 <= q * w + r < w * h) by (nonlinear_arith)
        requires
            1 <= w,
            0 <= q < h,
            0 <= r,
    ;
}

/// A normalized coordinate pair indexes strictly inside the `w * h` cells.
proof fn lemma_index_in_range(w: int, h: int, row: int, col: int)
    by (nonlinear_arith)
    requires
        1 <= w,
        1 <= h,
        0 <= row < h,
        0 <= col < w,
    ensures
        0 <= row * w + col,
        row * w + col < w * h,
{
}

/// Toggling the same cell twice restores the grid exactly: direct cell
/// edits are involutions.
pub proof fn lemma_toggle_involution(g: Seq<bool>, idx: int)
    requires
        0 <= idx < g.len(),
    ensures
        toggled(toggled(g, idx), idx) == g,
{
    assert(toggled(toggled(g, idx), idx) =~= g);
}

/// Rendering is deterministic in the grid state: two renderings of the same
/// state, with no mutation in between, yield the same text.
pub proof fn lemma_render_idempotent(g: Seq<bool>, w: int, h: int, first: Seq<char>, second: Seq<char>)
    requires
        first == render_chars(g, w, h),
        second == render_chars(g, w, h),
    ensures
        first == second,
{
}

/// The packed buffer holds exactly the ceiling of `w * h / 8` bytes: all
/// `w * h` cell bits fit, with strictly less than one spare byte.
pub proof fn lemma_buffer_len_exact(w: int, h: int)
    requires
        0 <= w * h,
    ensures
        w * h <= 8 * buffer_len(w, h),
        8 * buffer_len(w, h) < w * h + 8,
{
    vstd::arithmetic::div_mod::lemma_fundamental_div_mod(w * h + 7, 8);
}

/// A cleared grid renders as nothing but `'0'` cells: every character of
/// the text is `'0'`, except the line break ending each row.
pub proof fn lemma_cleared_render(w: int, h: int)
    requires
        1 <= w,
        1 <= h,
    ensures
        render_chars(dead_grid(w, h), w, h).len() == h * (w + 1),
        forall|k: int|
            0 <= k < h * (w + 1) ==> render_chars(dead_grid(w, h), w, h)[k] == (if k % (w + 1)
                == w {
                '\n'
            } else {
                '0'
            }),
{
    assert forall|k: int|
        0 <= k < h * (w + 1) implies render_chars(dead_grid(w, h), w, h)[k] == (if k % (w + 1)
        == w {
        '\n'
    } else {
        '0'
    }) by {
        lemma_render_pos(k, w, h);
    }
}

/// Rounding `n` bits up to whole bytes agrees with the branch on `n % 8`
/// that the allocation takes.
proof fn lemma_ceil_div8(n: int)
    requires
        0 <= n,
    ensures
        (n + 7) / 8 == if n % 8 == 0 {
            n / 8
        } else {
            n / 8 + 1
        },
{
    vstd::arithmetic::div_mod::lemma_fundamental_div_mod(n, 8);
    vstd::arithmetic::div_mod::lemma_fundamental_div_mod(n + 7, 8);
}

/// Every cell index below `n` has its bit inside `ceil(n / 8)` bytes.
proof fn lemma_cells_fit_in_bytes(n: int)
    requires
        0 <= n,
    ensures
        n <= 8 * ((n + 7) / 8),
{
    vstd::arithmetic::div_mod::lemma_fundamental_div_mod(n + 7, 8);
}

/// Rounding `n` bits up to whole bytes never exceeds `n` bytes for a
/// nonempty grid, so the byte count fits wherever the cell count does.
proof fn lemma_buffer_len_fits(n: int)
    requires
        1 <= n,
    ensures
        1 <= (n + 7) / 8 <= n,
{
    vstd::arithmetic::div_mod::lemma_fundamental_div_mod(n + 7, 8);
}

} // verus!
