//! The toroidal grid of cells and the automaton step.

use itertools::Itertools;
use vstd::arithmetic::div_mod::{lemma_fundamental_div_mod, lemma_fundamental_div_mod_converse};
use vstd::prelude::*;

verus! {

/// State of a dead cell.
pub const DEAD: u8 = 0;

/// State of a live cell.
pub const ALIVE: u8 = 1;

/// The grid as a mathematical value: dimensions and row-major cell states
/// (the cell at `(x, y)` is at offset `y * width + x`).
pub struct GridView {
    pub width: nat,
    pub height: nat,
    pub cells: Seq<u8>,
}

/// Dimensions that a grid may have: positive, and small enough that every
/// coordinate, shifted by one, still fits in an `isize` and the cell count
/// fits in a `usize`.
pub open spec fn valid_dims(width: int, height: int) -> bool {
    &&& 0 < width <= isize::MAX
    &&& 0 < height <= isize::MAX
    &&& width * height <= usize::MAX
}

/// A coordinate folded onto `[0, size)`: Euclidean remainder, defined for
/// negative coordinates too.
pub open spec fn wrap(coord: int, size: int) -> int {
    coord % size
}

/// The decision table of the automaton: the next state of a cell in state
/// `current` with `n` live neighbours.
pub open spec fn rule(current: u8, n: int) -> u8 {
    if n == 3 {
        ALIVE
    } else if n == 2 {
        if current == ALIVE { ALIVE } else { DEAD }
    } else {
        DEAD
    }
}

impl GridView {
    pub open spec fn wf(&self) -> bool {
        &&& valid_dims(self.width as int, self.height as int)
        &&& self.cells.len() == self.width * self.height
        &&& forall|i: int| 0 <= i < self.cells.len() ==> #[trigger] self.cells[i] <= ALIVE
    }

    /// Offset of an in-range coordinate.
    pub open spec fn offset(&self, x: int, y: int) -> int {
        y * self.width + x
    }

    /// State at any integer coordinate, both axes wrapped independently.
    pub open spec fn get(&self, x: int, y: int) -> u8 {
        self.cells[self.offset(wrap(x, self.width as int), wrap(y, self.height as int))]
    }

    /// Sum of the states of the eight cells around `(x, y)`, the cell itself
    /// excluded.
    pub open spec fn neighbor_sum(&self, x: int, y: int) -> int {
        self.get(x - 1, y - 1) + self.get(x - 1, y) + self.get(x - 1, y + 1)
            + self.get(x, y - 1) + self.get(x, y + 1)
            + self.get(x + 1, y - 1) + self.get(x + 1, y) + self.get(x + 1, y + 1)
    }

    /// Next state of the cell at `(x, y)`, read off this generation alone.
    pub open spec fn next_state(&self, x: int, y: int) -> u8 {
        rule(self.get(x, y), self.neighbor_sum(x, y))
    }

    /// The `k`-th entry of the column-major listing of the cells: `x` outer,
    /// `y` inner.
    pub open spec fn element(&self, k: int) -> ((usize, usize), u8) {
        let x = k / self.height as int;
        let y = k % self.height as int;
        ((x as usize, y as usize), self.get(x, y))
    }

    /// The next generation: every cell takes its next state, all of them
    /// computed from this generation.
    pub open spec fn next(&self) -> GridView {
        GridView {
            width: self.width,
            height: self.height,
            cells: Seq::new(
                self.cells.len(),
                |i: int| self.next_state(i % self.width as int, i / self.width as int),
            ),
        }
    }
}

/// Rust's truncating remainder, moved up by `size` when negative, is the
/// Euclidean remainder.
proof fn lemma_truncated_rem(x: int, size: int)
    requires
        0 < size,
    ensures
        ({
            let t = if x >= 0 { x % size } else { -((-x) % size) };
            (if t < 0 { t + size } else { t }) == wrap(x, size)
        }),
{
    if x < 0 {
        let q = (-x) / size;
        let r = (-x) % size;
        lemma_fundamental_div_mod(-x, size);
        if r > 0 {
            assert(x == (-q - 1) * size + (size - r)) by (nonlinear_arith)
                requires -x == size * q + r;
            lemma_fundamental_div_mod_converse(x, size, -q - 1, size - r);
        } else {
            assert(x == (-q) * size + 0) by (nonlinear_arith)
                requires -x == size * q + r, r == 0;
            lemma_fundamental_div_mod_converse(x, size, -q, 0);
        }
    }
}

/// A cell of an in-range coordinate lies inside the cell sequence.
proof fn lemma_offset_in_range(width: int, height: int, x: int, y: int)
    requires
        0 <= x < width,
        0 <= y < height,
    ensures
        0 <= y * width + x < width * height,
{
    assert(y * width + x < width * height) by (nonlinear_arith)
        requires 0 <= x < width, 0 <= y < height;
    assert(0 <= y * width) by (nonlinear_arith)
        requires 0 <= x < width, 0 <= y;
}

/// Any coordinate, wrapped, reads a cell of the grid, and that cell is dead
/// or alive.
pub proof fn lemma_get_in_range(g: GridView, x: int, y: int)
    requires
        g.wf(),
    ensures
        0 <= wrap(x, g.width as int) < g.width,
        0 <= wrap(y, g.height as int) < g.height,
        0 <= g.offset(wrap(x, g.width as int), wrap(y, g.height as int)) < g.cells.len(),
        g.get(x, y) <= ALIVE,
{
    let (wx, wy) = (wrap(x, g.width as int), wrap(y, g.height as int));
    lemma_offset_in_range(g.width as int, g.height as int, wx, wy);
}

/// Every cell has between zero and eight live neighbours.
pub proof fn lemma_neighbor_sum_range(g: GridView, x: int, y: int)
    requires
        g.wf(),
    ensures
        0 <= g.neighbor_sum(x, y) <= 8,
{
    lemma_get_in_range(g, x - 1, y - 1);
    lemma_get_in_range(g, x - 1, y);
    lemma_get_in_range(g, x - 1, y + 1);
    lemma_get_in_range(g, x, y - 1);
    lemma_get_in_range(g, x, y + 1);
    lemma_get_in_range(g, x + 1, y - 1);
    lemma_get_in_range(g, x + 1, y);
    lemma_get_in_range(g, x + 1, y + 1);
}

/// The offsets of a 3x3 block around a cell, in the order in which they are
/// visited: `dx` outer, `dy` inner.
pub open spec fn block_offsets() -> Seq<(isize, isize)> {
    seq![
        (-1isize, -1isize), (-1isize, 0isize), (-1isize, 1isize),
        (0isize, -1isize), (0isize, 0isize), (0isize, 1isize),
        (1isize, -1isize), (1isize, 0isize), (1isize, 1isize),
    ]
}

/// Sum of the states at `(x + dx, y + dy)` over the offsets `ps`, skipping
/// the zero offset.
pub open spec fn offsets_sum(g: GridView, x: int, y: int, ps: Seq<(isize, isize)>) -> int
    decreases ps.len(),
{
    if ps.len() == 0 {
        0
    } else {
        let d = ps.last();
        offsets_sum(g, x, y, ps.drop_last()) + if d.0 == 0 && d.1 == 0 {
            0
        } else {
            g.get(x + d.0, y + d.1) as int
        }
    }
}

/// Summing over the whole block, centre skipped, gives the neighbour sum.
proof fn lemma_block_sum(g: GridView, x: int, y: int)
    ensures
        offsets_sum(g, x, y, block_offsets()) == g.neighbor_sum(x, y),
{
    reveal_with_fuel(offsets_sum, 10);
    let s = block_offsets();
    assert(s.drop_last() =~= s.take(8));
    assert(s.take(8).drop_last() =~= s.take(7));
    assert(s.take(7).drop_last() =~= s.take(6));
    assert(s.take(6).drop_last() =~= s.take(5));
    assert(s.take(5).drop_last() =~= s.take(4));
    assert(s.take(4).drop_last() =~= s.take(3));
    assert(s.take(3).drop_last() =~= s.take(2));
    assert(s.take(2).drop_last() =~= s.take(1));
    assert(s.take(1).drop_last() =~= s.take(0));
}

/// Relies on itertools::Itertools::cartesian_product: every pair of an
/// element of `a` and one of `b`, `a` varying slowest.
#[verifier::external_body]
fn product_pairs(a: &Vec<isize>, b: &Vec<isize>) -> (r: Vec<(isize, isize)>)
    requires
        a.len() * b.len() <= usize::MAX,
    ensures
        r.len() == a.len() * b.len(),
        forall|k: int|
            0 <= k < r.len() ==> #[trigger] r@[k] == (a@[k / b.len() as int], b@[k % b.len() as int]),
{
    a.iter().cartesian_product(b.iter()).map(|(p, q)| (*p, *q)).collect()
}

/// Relies on rand::random: a value drawn from the thread-local generator.
/// Nothing is known of it.
pub assume_specification<T>[ rand::random::<T> ]() -> (r: T)
    where
        rand::distributions::Standard: rand::distributions::Distribution<T>,
;

/// The decision table: next state of a cell in state `current` with `n`
/// live neighbours.
pub fn apply_rule(current: u8, n: usize) -> (r: u8)
    ensures
        r == rule(current, n as int),
{
    match n {
        3 => ALIVE,
        2 => if current == ALIVE { ALIVE } else { DEAD },
        _ => DEAD,
    }
}

/// An index below `width * height` splits into an in-range coordinate.
proof fn lemma_split_index(i: int, width: int, height: int)
    requires
        0 < width,
        0 <= i < width * height,
    ensures
        0 <= i % width < width,
        0 <= i / width < height,
{
    assert(0 <= i / width < height) by (nonlinear_arith)
        requires 0 < width, 0 <= i < width * height;
}

/// A grid of cells, each `DEAD` or `ALIVE`, with wrap-around coordinates.
pub struct Canvas {
    width: usize,
    height: usize,
    cells: Vec<u8>,
}

impl View for Canvas {
    type V = GridView;

    closed spec fn view(&self) -> GridView {
        GridView { width: self.width as nat, height: self.height as nat, cells: self.cells@ }
    }
}

impl Canvas {
    pub open spec fn wf(&self) -> bool {
        self@.wf()
    }

    /// A `width` x `height` grid whose cell at offset `i` is alive when
    /// `bytes[i]` is odd.
    pub fn from_bytes(width: usize, height: usize, bytes: &Vec<u8>) -> (r: Canvas)
        requires
            valid_dims(width as int, height as int),
            bytes.len() == width * height,
        ensures
            r.wf(),
            r@ == (GridView {
                width: width as nat,
                height: height as nat,
                cells: Seq::new(bytes.len() as nat, |i: int| bytes@[i] % 2),
            }),
    {
        let mut cells: Vec<u8> = Vec::new();
        let mut i: usize = 0;
        while i < bytes.len()
            invariant
                i <= bytes.len(),
                cells.len() == i,
                forall|k: int| 0 <= k < i ==> #[trigger] cells@[k] == bytes@[k] % 2,
            decreases bytes.len() - i,
        {
            cells.push(bytes[i] % 2);
            i += 1;
        }
        let r = Canvas { width, height, cells };
        assert(r@.cells =~= Seq::new(bytes.len() as nat, |i: int| bytes@[i] % 2));
        r
    }

    /// A `width` x `height` grid of dead cells.
    pub fn empty(width: usize, height: usize) -> (r: Canvas)
        requires
            valid_dims(width as int, height as int),
        ensures
            r.wf(),
            r@ == (GridView {
                width: width as nat,
                height: height as nat,
                cells: Seq::new((width * height) as nat, |i: int| DEAD),
            }),
    {
        let n: usize = width * height;
        let cells: Vec<u8> = vec![DEAD; n];
        let r = Canvas { width, height, cells };
        assert(r@.cells =~= Seq::new((width * height) as nat, |i: int| DEAD));
        r
    }

    /// A `width` x `height` grid in which each cell is drawn dead or alive
    /// at random.
    pub fn new(width: usize, height: usize) -> (r: Canvas)
        requires
            valid_dims(width as int, height as int),
        ensures
            r.wf(),
            r@.width == width,
            r@.height == height,
    {
        let n: usize = width * height;
        let mut bytes: Vec<u8> = Vec::new();
        let mut i: usize = 0;
        while i < n
            invariant
                n == width * height,
                i <= n,
                bytes.len() == i,
            decreases n - i,
        {
            bytes.push(rand::random::<u8>());
            i += 1;
        }
        Canvas::from_bytes(width, height, &bytes)
    }

    pub fn width(&self) -> (r: usize)
        ensures
            r == self@.width,
    {
        self.width
    }

    pub fn height(&self) -> (r: usize)
        ensures
            r == self@.height,
    {
        self.height
    }

    /// State at `(x, y)`, both coordinates wrapped onto the grid.
    pub fn get_value(&self, x: isize, y: isize) -> (r: u8)
        requires
            self.wf(),
        ensures
            r == self@.get(x as int, y as int),
            r <= ALIVE,
    {
        let w = self.width as isize;
        let h = self.height as isize;
        let rx = x % w;
        let ry = y % h;
        proof {
            lemma_get_in_range(self@, x as int, y as int);
        }
        let xx: isize = if rx < 0 { rx + w } else { rx };
        let yy: isize = if ry < 0 { ry + h } else { ry };
        proof {
            lemma_truncated_rem(x as int, w as int);
            lemma_truncated_rem(y as int, h as int);
        }
        self.cells[yy as usize * self.width + xx as usize]
    }

    /// Number of live cells among the eight around `(x, y)`.
    pub fn get_neighbors(&self, x: usize, y: usize) -> (r: usize)
        requires
            self.wf(),
            x < self@.width,
            y < self@.height,
        ensures
            r == self@.neighbor_sum(x as int, y as int),
            r <= 8,
    {
        let deltas: Vec<isize> = vec![-1, 0, 1];
        assert(deltas.len() * deltas.len() == 9) by {
            assert(deltas.len() == 3);
        }
        let pairs = product_pairs(&deltas, &deltas);
        proof {
            assert(deltas@[0] == -1isize && deltas@[1] == 0isize && deltas@[2] == 1isize);
            assert(pairs@.len() == 9);
            assert(pairs@[0] == (-1isize, -1isize));
            assert(pairs@[1] == (-1isize, 0isize));
            assert(pairs@[2] == (-1isize, 1isize));
            assert(pairs@[3] == (0isize, -1isize));
            assert(pairs@[4] == (0isize, 0isize));
            assert(pairs@[5] == (0isize, 1isize));
            assert(pairs@[6] == (1isize, -1isize));
            assert(pairs@[7] == (1isize, 0isize));
            assert(pairs@[8] == (1isize, 1isize));
            assert(pairs@ =~= block_offsets());
        }
        let mut number: usize = 0;
        let mut i: usize = 0;
        while i < pairs.len()
            invariant
                self.wf(),
                x < self@.width,
                y < self@.height,
                pairs@ == block_offsets(),
                i <= pairs.len(),
                number <= i,
                number == offsets_sum(self@, x as int, y as int, pairs@.take(i as int)),
            decreases pairs.len() - i,
        {
            let (dx, dy) = pairs[i];
            if dx != 0 || dy != 0 {
                number += self.get_value(x as isize + dx, y as isize + dy) as usize;
            }
            assert(pairs@.take(i + 1).drop_last() =~= pairs@.take(i as int));
            i += 1;
        }
        proof {
            assert(pairs@.take(9) =~= block_offsets());
            lemma_block_sum(self@, x as int, y as int);
            lemma_neighbor_sum_range(self@, x as int, y as int);
        }
        number
    }

    /// The next generation, computed from this one alone into a new grid.
    pub fn next_generation(&self) -> (r: Canvas)
        requires
            self.wf(),
        ensures
            r.wf(),
            r@ == self@.next(),
    {
        let n: usize = self.cells.len();
        let mut cells: Vec<u8> = Vec::new();
        let mut i: usize = 0;
        while i < n
            invariant
                self.wf(),
                n == self@.cells.len(),
                i <= n,
                cells.len() == i,
                forall|k: int|
                    0 <= k < i ==> #[trigger] cells@[k] == self@.next_state(
                        k % self.width as int,
                        k / self.width as int,
                    ),
            decreases n - i,
        {
            let x = i % self.width;
            let y = i / self.width;
            proof {
                lemma_split_index(i as int, self.width as int, self.height as int);
            }
            let current = self.get_value(x as isize, y as isize);
            let count = self.get_neighbors(x, y);
            cells.push(apply_rule(current, count));
            i += 1;
        }
        let r = Canvas { width: self.width, height: self.height, cells };
        assert(r@.cells =~= self@.next().cells);
        r
    }

    /// Every cell with its coordinate and state, `x` outer and `y` inner.
    pub fn iter_elements(&self) -> (r: Vec<((usize, usize), u8)>)
        requires
            self.wf(),
        ensures
            r.len() == self@.cells.len(),
            forall|k: int| 0 <= k < r.len() ==> #[trigger] r@[k] == self@.element(k),
    {
        let w = self.width;
        let h = self.height;
        let mut r: Vec<((usize, usize), u8)> = Vec::new();
        let mut x: usize = 0;
        while x < w
            invariant
                self.wf(),
                w == self@.width,
                h == self@.height,
                x <= w,
                r.len() == x * h,
                forall|k: int| 0 <= k < r.len() ==> #[trigger] r@[k] == self@.element(k),
            decreases w - x,
        {
            let mut y: usize = 0;
            while y < h
                invariant
                    self.wf(),
                    w == self@.width,
                    h == self@.height,
                    x < w,
                    y <= h,
                    r.len() == x * h + y,
                    forall|k: int| 0 <= k < r.len() ==> #[trigger] r@[k] == self@.element(k),
                decreases h - y,
            {
                proof {
                    lemma_fundamental_div_mod_converse(x * h + y, h as int, x as int, y as int);
                }
                let v = self.get_value(x as isize, y as isize);
                r.push(((x, y), v));
                y += 1;
            }
            assert(x * h + h == (x + 1) * h) by (nonlinear_arith);
            x += 1;
        }
        assert(w * h == self@.cells.len());
        r
    }
}

} // verus!
