use vstd::prelude::*;
use vstd::arithmetic::div_mod::lemma_fundamental_div_mod_converse;

verus! {

/// Side length of a freshly created universe.
pub const UNIVERSE_SIZE: u32 = 64;

/// State of one cell of the automaton.
#[derive(Clone, Copy, Debug, PartialEq, Eq, Structural)]
pub enum Cell {
    Dead,
    Alive,
}

/// Standard Conway transition for one cell given its live-neighbour count:
/// a live cell survives with two or three live neighbours, a dead cell is born
/// with exactly three, every other cell is dead in the next generation.
pub open spec fn life_rule(alive: bool, live_neighbours: int) -> bool {
    if alive {
        live_neighbours == 2 || live_neighbours == 3
    } else {
        live_neighbours == 3
    }
}

/// Row-major position of `(row, col)` in a grid `w` cells wide.
pub open spec fn index_of(w: int, row: int, col: int) -> int {
    row * w + col
}

/// Contribution of the cell at offset `(dr, dc)` from `(row, col)`, both
/// coordinates wrapped around the torus: 1 when that cell is alive. The offset
/// pair `(0, 0)`, the cell itself, contributes nothing.
pub open spec fn neighbour_term(
    cells: Seq<bool>,
    w: int,
    h: int,
    row: int,
    col: int,
    dr: int,
    dc: int,
) -> int {
    if dr == 0 && dc == 0 {
        0
    } else if cells[index_of(w, (row + dr) % h, (col + dc) % w)] {
        1
    } else {
        0
    }
}

/// The three contributions of one row offset, column offsets `w - 1`, `0`, `1`.
pub open spec fn neighbour_row(cells: Seq<bool>, w: int, h: int, row: int, col: int, dr: int) -> int {
    neighbour_term(cells, w, h, row, col, dr, w - 1) + neighbour_term(cells, w, h, row, col, dr, 0)
        + neighbour_term(cells, w, h, row, col, dr, 1)
}

/// Live cells of the Moore neighbourhood of `(row, col)` on a `w` x `h` torus:
/// row offsets `h - 1`, `0`, `1` (that is -1, 0, +1 modulo `h`) against column
/// offsets `w - 1`, `0`, `1`.
pub open spec fn live_neighbours(cells: Seq<bool>, w: int, h: int, row: int, col: int) -> int {
    neighbour_row(cells, w, h, row, col, h - 1) + neighbour_row(cells, w, h, row, col, 0)
        + neighbour_row(cells, w, h, row, col, 1)
}

/// The generation that follows `cells`, every cell computed from `cells` alone.
pub open spec fn next_generation(cells: Seq<bool>, w: int, h: int) -> Seq<bool> {
    Seq::new(
        (w * h) as nat,
        |i: int| life_rule(cells[i], live_neighbours(cells, w, h, i / w, i % w)),
    )
}

/// Whether any of the (up to) 32 cells packed into word `k` is alive.
pub open spec fn word_has_life(cells: Seq<bool>, k: int) -> bool {
    exists|b: int| 0 <= b < 32 && 32 * k + b < cells.len() && #[trigger] cells[32 * k + b]
}

/// Bit `b` of `word`.
pub open spec fn bit_of(word: u32, b: u32) -> bool {
    (word >> b) & 1u32 == 1u32
}

/// Number of 32-bit words that hold `n` cells.
pub open spec fn word_count(n: nat) -> nat {
    (n + 31) / 32
}

proof fn lemma_index_in_grid(w: int, h: int, row: int, col: int)
    requires
        0 <= row < h,
        0 <= col < w,
    ensures
        0 <= index_of(w, row, col) < w * h,
{
    assert(row * w + col < w * h) by (nonlinear_arith)
        requires
            0 <= row < h,
            0 <= col < w,
    ;
    assert(0 <= row * w) by (nonlinear_arith)
        requires
            0 <= row,
            0 <= w,
    ;
}

proof fn lemma_row_in_grid(w: int, h: int, row: int, col: int)
    requires
        0 <= row,
        0 <= col,
        0 < w,
        0 <= h,
        row * w + col < w * h,
    ensures
        row < h,
{
    if row >= h {
        assert(h * w <= row * w) by (nonlinear_arith)
            requires
                row >= h,
                w > 0,
        ;
    }
}

proof fn lemma_set_bit(word: u32, b: u32, k: u32)
    requires
        b < 32,
        k < 32,
    ensures
        bit_of(word | (1u32 << b), k) == if k == b {
            true
        } else {
            bit_of(word, k)
        },
{
    assert(((word | (1u32 << b)) >> k) & 1u32 == if k == b {
        1u32
    } else {
        (word >> k) & 1u32
    }) by (bit_vector)
        requires
            b < 32,
            k < 32,
    ;
}

proof fn lemma_zero_bits(k: u32)
    requires
        k < 32,
    ensures
        !bit_of(0u32, k),
{
    assert((0u32 >> k) & 1u32 == 0u32) by (bit_vector);
}

/// A toroidal Game of Life grid, stored row-major, one `bool` per cell.
pub struct Universe {
    width: u32,
    height: u32,
    cells: Vec<bool>,
    generation: u64,
}

impl Universe {
    /// Number of columns.
    pub closed spec fn grid_width(&self) -> nat {
        self.width as nat
    }

    /// Number of rows.
    pub closed spec fn grid_height(&self) -> nat {
        self.height as nat
    }

    /// Cell states, row-major: cell `(row, col)` is at `row * width + col`.
    pub closed spec fn grid(&self) -> Seq<bool> {
        self.cells@
    }

    /// Number of generations advanced since creation or the last resize
    /// (saturating).
    pub closed spec fn generations(&self) -> u64 {
        self.generation
    }

    /// The grid holds exactly one state per cell.
    pub open spec fn wf(&self) -> bool {
        self.grid().len() == self.grid_width() * self.grid_height()
    }

    /// State of cell `(row, col)`.
    pub open spec fn alive_at(&self, row: int, col: int) -> bool {
        self.grid()[index_of(self.grid_width() as int, row, col)]
    }

    /// A `UNIVERSE_SIZE` x `UNIVERSE_SIZE` universe whose cell `i` (row-major) is
    /// alive when `draws[i]` is `true`; cells without a draw start dead. The
    /// host passes random draws to seed a random universe.
    pub fn new(draws: &Vec<bool>) -> (u: Universe)
        ensures
            u.wf(),
            u.grid_width() == UNIVERSE_SIZE,
            u.grid_height() == UNIVERSE_SIZE,
            u.generations() == 0,
            forall|i: int|
                0 <= i < UNIVERSE_SIZE * UNIVERSE_SIZE ==> #[trigger] u.grid()[i] == (i
                    < draws@.len() && draws@[i]),
    {
        let width = UNIVERSE_SIZE;
        let height = UNIVERSE_SIZE;
        let size: usize = (width * height) as usize;
        let mut cells: Vec<bool> = Vec::with_capacity(size);
        let mut i: usize = 0;
        while i < size
            invariant
                size == UNIVERSE_SIZE * UNIVERSE_SIZE,
                i <= size,
                cells@.len() == i,
                forall|j: int| 0 <= j < i ==> #[trigger] cells@[j] == (j < draws@.len() && draws@[j]),
            decreases size - i,
        {
            let alive = i < draws.len() && draws[i];
            cells.push(alive);
            i += 1;
        }
        Universe { width, height, cells, generation: 0 }
    }

    /// Number of generations advanced since creation or the last resize
    /// (saturating at `u64::MAX`).
    pub fn generation(&self) -> (r: u64)
        ensures
            r == self.generations(),
    {
        self.generation
    }

    pub fn width(&self) -> (r: u32)
        ensures
            r == self.grid_width(),
    {
        self.width
    }

    pub fn height(&self) -> (r: u32)
        ensures
            r == self.grid_height(),
    {
        self.height
    }

    /// The cell states packed one bit per cell into 32-bit words, the layout a
    /// host reads: cell `i` is bit `i % 32` of word `i / 32`; bits past the last
    /// cell are clear.
    pub fn cells_ptr(&self) -> (r: Vec<u32>)
        requires
            self.wf(),
        ensures
            r@.len() == word_count(self.grid().len()),
            forall|k: int, b: u32|
                0 <= k < r@.len() && b < 32 ==> #[trigger] bit_of(r@[k], b) == (32 * k + b
                    < self.grid().len() && self.grid()[32 * k + b]),
    {
        let n = self.cells.len();
        let words: usize = n / 32 + if n % 32 == 0 {
            0
        } else {
            1
        };
        assert(words == word_count(n as nat));
        let mut r: Vec<u32> = Vec::with_capacity(words);
        let mut k: usize = 0;
        while k < words
            invariant
                n == self.cells@.len(),
                words == word_count(n as nat),
                k <= words,
                r@.len() == k,
                forall|k2: int, b: u32|
                    0 <= k2 < k && b < 32 ==> #[trigger] bit_of(r@[k2], b) == (32 * k2 + b < n
                        && self.cells@[32 * k2 + b]),
            decreases words - k,
        {
            let mut word: u32 = 0;
            let mut b: u32 = 0;
            proof {
                assert forall|b2: u32| b2 < 32 implies !bit_of(0u32, b2) by {
                    lemma_zero_bits(b2);
                }
            }
            while b < 32
                invariant
                    n == self.cells@.len(),
                    k < words,
                    words == word_count(n as nat),
                    b <= 32,
                    forall|b2: u32|
                        b2 < 32 ==> bit_of(word, b2) == (b2 < b && 32 * k + b2 < n
                            && self.cells@[32 * k + b2]),
                decreases 32 - b,
            {
                let i: usize = 32 * k + b as usize;
                let alive = i < n && self.cells[i];
                let old_word = word;
                if alive {
                    word = word | (1u32 << b);
                }
                proof {
                    assert forall|b2: u32| b2 < 32 implies bit_of(word, b2) == (b2 < b + 1 && 32
                        * k + b2 < n && self.cells@[32 * k + b2]) by {
                        if alive {
                            lemma_set_bit(old_word, b, b2);
                        }
                    }
                }
                b += 1;
            }
            r.push(word);
            k += 1;
        }
        r
    }

    fn get_index(&self, row: u32, col: u32) -> (r: usize)
        requires
            self.wf(),
            row < self.grid_height(),
            col < self.grid_width(),
        ensures
            r == index_of(self.grid_width() as int, row as int, col as int),
            r < self.grid().len(),
    {
        proof {
            lemma_index_in_grid(self.width as int, self.height as int, row as int, col as int);
        }
        let n = self.cells.len();
        assert(row * self.width + col < n);
        row as usize * self.width as usize + col as usize
    }

    /// Flips the state of cell `(row, col)`.
    pub fn toggle_cell(&mut self, row: u32, col: u32)
        requires
            old(self).wf(),
            row < old(self).grid_height(),
            col < old(self).grid_width(),
        ensures
            final(self).wf(),
            final(self).grid_width() == old(self).grid_width(),
            final(self).grid_height() == old(self).grid_height(),
            final(self).generations() == old(self).generations(),
            final(self).grid() == old(self).grid().update(
                index_of(old(self).grid_width() as int, row as int, col as int),
                !old(self).alive_at(row as int, col as int),
            ),
    {
        let idx = self.get_index(row, col);
        let flipped = !self.cells[idx];
        self.cells.set(idx, flipped);
    }

    /// State of cell `(row, col)`; a position outside the grid reads as dead.
    pub fn cell_at(&self, row: u32, col: u32) -> (c: Cell)
        requires
            self.wf(),
        ensures
            c == (if row < self.grid_height() && col < self.grid_width() && self.alive_at(
                row as int,
                col as int,
            ) {
                Cell::Alive
            } else {
                Cell::Dead
            }),
    {
        if row < self.height && col < self.width && self.cells[self.get_index(row, col)] {
            Cell::Alive
        } else {
            Cell::Dead
        }
    }

    /// Replaces the grid by a `width` x `height` grid of dead cells. Destructive:
    /// no earlier cell state survives. A zero width or height gives an empty grid.
    pub fn resize(&mut self, width: u32, height: u32)
        requires
            width * height <= usize::MAX,
        ensures
            final(self).wf(),
            final(self).grid_width() == width,
            final(self).grid_height() == height,
            final(self).generations() == 0,
            forall|i: int| 0 <= i < width * height ==> !#[trigger] final(self).grid()[i],
    {
        self.width = width;
        self.height = height;
        let size: usize = (width as usize) * (height as usize);
        let mut cells: Vec<bool> = Vec::with_capacity(size);
        let mut i: usize = 0;
        while i < size
            invariant
                i <= size,
                cells@.len() == i,
                forall|j: int| 0 <= j < i ==> !#[trigger] cells@[j],
            decreases size - i,
        {
            cells.push(false);
            i += 1;
        }
        self.cells = cells;
        self.generation = 0;
    }

    /// `resize` to `width` columns, keeping the number of rows.
    pub fn set_width(&mut self, width: u32)
        requires
            width * old(self).grid_height() <= usize::MAX,
        ensures
            final(self).wf(),
            final(self).grid_width() == width,
            final(self).grid_height() == old(self).grid_height(),
            final(self).generations() == 0,
            forall|i: int|
                0 <= i < width * old(self).grid_height() ==> !#[trigger] final(self).grid()[i],
    {
        let height = self.height;
        self.resize(width, height);
    }

    /// `resize` to `height` rows, keeping the number of columns.
    pub fn set_height(&mut self, height: u32)
        requires
            old(self).grid_width() * height <= usize::MAX,
        ensures
            final(self).wf(),
            final(self).grid_width() == old(self).grid_width(),
            final(self).grid_height() == height,
            final(self).generations() == 0,
            forall|i: int|
                0 <= i < old(self).grid_width() * height ==> !#[trigger] final(self).grid()[i],
    {
        let width = self.width;
        self.resize(width, height);
    }

    fn neighbour_term(&self, row: u32, col: u32, dr: u32, dc: u32) -> (r: u8)
        requires
            self.wf(),
            row < self.grid_height(),
            col < self.grid_width(),
            dr <= self.grid_height(),
            dc <= self.grid_width(),
        ensures
            r == neighbour_term(
                self.grid(),
                self.grid_width() as int,
                self.grid_height() as int,
                row as int,
                col as int,
                dr as int,
                dc as int,
            ),
    {
        if dr == 0 && dc == 0 {
            return 0;
        }
        let neighbour_row = ((row as u64 + dr as u64) % self.height as u64) as u32;
        let neighbour_col = ((col as u64 + dc as u64) % self.width as u64) as u32;
        let idx = self.get_index(neighbour_row, neighbour_col);
        if self.cells[idx] {
            1
        } else {
            0
        }
    }

    /// Live cells among the eight wrapped neighbours of `(row, col)`.
    pub fn live_neighbour_count(&self, row: u32, col: u32) -> (r: u8)
        requires
            self.wf(),
            row < self.grid_height(),
            col < self.grid_width(),
        ensures
            r == live_neighbours(
                self.grid(),
                self.grid_width() as int,
                self.grid_height() as int,
                row as int,
                col as int,
            ),
    {
        let up = self.height - 1;
        let left = self.width - 1;
        let above = self.neighbour_term(row, col, up, left) + self.neighbour_term(row, col, up, 0)
            + self.neighbour_term(row, col, up, 1);
        let level = self.neighbour_term(row, col, 0, left) + self.neighbour_term(row, col, 0, 0)
            + self.neighbour_term(row, col, 0, 1);
        let below = self.neighbour_term(row, col, 1, left) + self.neighbour_term(row, col, 1, 0)
            + self.neighbour_term(row, col, 1, 1);
        above + level + below
    }

    /// The next generation, computed from a snapshot of the current one.
    fn next_cells(&self) -> (r: Vec<bool>)
        requires
            self.wf(),
        ensures
            r@ == next_generation(
                self.grid(),
                self.grid_width() as int,
                self.grid_height() as int,
            ),
    {
        let n = self.cells.len();
        let mut next: Vec<bool> = self.cells.clone();
        let ghost spec_next = next_generation(self.cells@, self.width as int, self.height as int);
        let mut i: usize = 0;
        let mut row: u32 = 0;
        let mut col: u32 = 0;
        while i < n
            invariant
                self.wf(),
                n == self.cells@.len(),
                spec_next == next_generation(self.cells@, self.width as int, self.height as int),
                next@.len() == n,
                i <= n,
                n > 0 ==> col < self.width,
                i == index_of(self.width as int, row as int, col as int),
                forall|j: int| 0 <= j < i ==> #[trigger] next@[j] == spec_next[j],
            decreases n - i,
        {
            proof {
                lemma_row_in_grid(self.width as int, self.height as int, row as int, col as int);
                lemma_fundamental_div_mod_converse(
                    i as int,
                    self.width as int,
                    row as int,
                    col as int,
                );
            }
            let alive = self.cells[i];
            let live = self.live_neighbour_count(row, col);
            let next_cell = if alive {
                live == 2 || live == 3
            } else {
                live == 3
            };
            next.set(i, next_cell);
            i += 1;
            col += 1;
            if col == self.width {
                proof {
                    assert((row + 1) * self.width == row * self.width + self.width) by (nonlinear_arith);
                }
                col = 0;
                row += 1;
            }
        }
        assert(next@ =~= spec_next);
        next
    }

    /// Brings every listed cell `(row, col)` to life; other cells keep their state.
    pub fn set_cells(&mut self, coords: &[(u32, u32)])
        requires
            old(self).wf(),
            forall|k: int|
                0 <= k < coords@.len() ==> (#[trigger] coords@[k]).0 < old(self).grid_height()
                    && coords@[k].1 < old(self).grid_width(),
        ensures
            final(self).wf(),
            final(self).grid_width() == old(self).grid_width(),
            final(self).grid_height() == old(self).grid_height(),
            final(self).generations() == old(self).generations(),
            forall|i: int|
                0 <= i < old(self).grid().len() ==> #[trigger] final(self).grid()[i] == (
                old(self).grid()[i] || exists|k: int|
                    0 <= k < coords@.len() && index_of(
                        old(self).grid_width() as int,
                        (#[trigger] coords@[k]).0 as int,
                        coords@[k].1 as int,
                    ) == i),
    {
        let ghost start = self.cells@;
        let ghost w = self.width as int;
        let mut k: usize = 0;
        while k < coords.len()
            invariant
                self.wf(),
                self.width == old(self).width,
                self.height == old(self).height,
                self.generation == old(self).generation,
                start == old(self).cells@,
                start.len() == self.cells@.len(),
                w == self.width,
                k <= coords@.len(),
                forall|k2: int|
                    0 <= k2 < coords@.len() ==> (#[trigger] coords@[k2]).0 < self.height
                        && coords@[k2].1 < self.width,
                forall|i: int|
                    0 <= i < start.len() ==> #[trigger] self.cells@[i] == (start[i]
                        || exists|k2: int|
                        0 <= k2 < k && index_of(w, (#[trigger] coords@[k2]).0 as int, coords@[k2].1 as int)
                            == i),
            decreases coords@.len() - k,
        {
            let (row, col) = coords[k];
            let idx = self.get_index(row, col);
            let ghost before = self.cells@;
            self.cells.set(idx, true);
            proof {
                assert forall|i: int| 0 <= i < start.len() implies #[trigger] self.cells@[i] == (
                start[i] || exists|k2: int|
                    0 <= k2 < k + 1 && index_of(w, (#[trigger] coords@[k2]).0 as int, coords@[k2].1 as int)
                        == i) by {
                    if i == idx {
                        assert(index_of(w, coords@[k as int].0 as int, coords@[k as int].1 as int) == i);
                    } else {
                        assert(self.cells@[i] == before[i]);
                        if exists|k2: int|
                            0 <= k2 < k + 1 && index_of(w, (#[trigger] coords@[k2]).0 as int, coords@[k2].1 as int)
                                == i {
                            let k2 = choose|k2: int|
                                0 <= k2 < k + 1 && index_of(w, (#[trigger] coords@[k2]).0 as int, coords@[k2].1 as int)
                                    == i;
                            assert(k2 != k);
                        }
                    }
                }
            }
            k += 1;
        }
    }

    /// One entry per packed 32-bit word of the grid (see `cells_ptr`): `Alive`
    /// when any cell packed into that word is alive, else `Dead`.
    pub fn get_cells(self) -> (r: Vec<Cell>)
        requires
            self.wf(),
        ensures
            r@.len() == word_count(self.grid().len()),
            forall|k: int|
                0 <= k < r@.len() ==> #[trigger] r@[k] == if word_has_life(self.grid(), k) {
                    Cell::Alive
                } else {
                    Cell::Dead
                },
    {
        let n = self.cells.len();
        let words: usize = n / 32 + if n % 32 == 0 {
            0
        } else {
            1
        };
        let mut r: Vec<Cell> = Vec::with_capacity(words);
        let mut k: usize = 0;
        while k < words
            invariant
                n == self.cells@.len(),
                words == word_count(n as nat),
                k <= words,
                r@.len() == k,
                forall|k2: int|
                    0 <= k2 < k ==> #[trigger] r@[k2] == if word_has_life(self.cells@, k2) {
                        Cell::Alive
                    } else {
                        Cell::Dead
                    },
            decreases words - k,
        {
            let mut any = false;
            let mut b: usize = 0;
            while b < 32
                invariant
                    n == self.cells@.len(),
                    k < words,
                    words == word_count(n as nat),
                    b <= 32,
                    any == exists|b2: int|
                        0 <= b2 < b && 32 * k + b2 < n && #[trigger] self.cells@[32 * k + b2],
                decreases 32 - b,
            {
                let i: usize = 32 * k + b;
                if i < n && self.cells[i] {
                    any = true;
                }
                b += 1;
            }
            r.push(if any { Cell::Alive } else { Cell::Dead });
            k += 1;
        }
        r
    }

    /// Advances every cell by one generation under the Conway rule.
    pub fn tick(&mut self)
        requires
            old(self).wf(),
        ensures
            final(self).wf(),
            final(self).grid_width() == old(self).grid_width(),
            final(self).grid_height() == old(self).grid_height(),
            final(self).grid() == next_generation(
                old(self).grid(),
                old(self).grid_width() as int,
                old(self).grid_height() as int,
            ),
            final(self).generations() == if old(self).generations() < u64::MAX {
                old(self).generations() + 1
            } else {
                old(self).generations() as int
            },
    {
        let next = self.next_cells();
        self.cells = next;
        if self.generation < u64::MAX {
            self.generation = self.generation + 1;
        }
    }
}

} // verus!
