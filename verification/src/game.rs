//! Board, cells and the shift/merge move engine.

use std::io::Write;
use vstd::prelude::*;

verus! {

/// The four shift directions a player may choose.
#[derive(Debug, Clone, Copy, Eq, PartialEq, Structural)]
pub enum Direction {
    UP,
    DOWN,
    LEFT,
    RIGHT,
}

/// One grid cell: either empty or holding a tile with a non-negative
/// exponent `e` (the tile's value is `2^e`).
#[derive(Debug, Clone, Copy)]
pub struct Cell {
    score: Option<u32>,
}

impl View for Cell {
    type V = Option<u32>;

    closed spec fn view(&self) -> Option<u32> {
        self.score
    }
}

impl Cell {
    pub fn new() -> (c: Cell)
        ensures
            c@ is None,
    {
        Cell { score: None }
    }

    pub fn is_set(&self) -> (r: bool)
        ensures
            r == (self@ is Some),
    {
        self.score.is_some()
    }

    pub fn get_score(&self) -> (r: Option<u32>)
        ensures
            r == self@,
    {
        self.score
    }

    pub fn set_score(&mut self, score: u32)
        ensures
            final(self)@ == Some(score),
    {
        self.score = Some(score);
    }

    pub fn set_none(&mut self)
        ensures
            final(self)@ is None,
    {
        self.score = None;
    }

    /// Raises the exponent of an occupied cell by one; empty cells are
    /// left alone and reported with `false`.
    pub fn incr_score(&mut self) -> (r: bool)
        requires
            old(self)@ is Some ==> old(self)@->0 < u32::MAX,
        ensures
            r == (old(self)@ is Some),
            old(self)@ is Some ==> final(self)@ == Some((old(self)@->0 + 1) as u32),
            old(self)@ is None ==> final(self)@ == old(self)@,
    {
        match self.score {
            None => false,
            Some(s) => {
                self.score = Some(s + 1);
                true
            }
        }
    }
}

/// Mathematical model of a board: a row-major grid of optional tile
/// exponents.
pub ghost struct BoardView {
    pub width: nat,
    pub height: nat,
    pub cells: Seq<Option<u32>>,
}

impl BoardView {
    /// Every coordinate maps to exactly one cell.
    pub open spec fn wf(self) -> bool {
        self.cells.len() == self.width * self.height
    }

    pub open spec fn cell(self, x: int, y: int) -> Option<u32> {
        self.cells[y * self.width + x]
    }

    pub open spec fn row(self, y: int) -> Seq<Option<u32>> {
        Seq::new(self.width, |x: int| self.cell(x, y))
    }

    pub open spec fn col(self, x: int) -> Seq<Option<u32>> {
        Seq::new(self.height, |y: int| self.cell(x, y))
    }

    /// How many cells currently hold a tile.
    pub open spec fn occupied_count(self) -> nat {
        count_occupied(self.cells)
    }

    /// Exponents are small enough that a merge can still raise one.
    pub open spec fn ok(self) -> bool {
        line_ok(self.cells)
    }
}

/// Number of occupied cells in a line or a whole grid.
pub open spec fn count_occupied(s: Seq<Option<u32>>) -> nat
    decreases s.len(),
{
    if s.len() == 0 {
        0
    } else if s[0] is Some {
        1 + count_occupied(s.skip(1))
    } else {
        count_occupied(s.skip(1))
    }
}

/// All exponents present in the line leave room for one merge.
pub open spec fn line_ok(s: Seq<Option<u32>>) -> bool {
    forall|i: int| 0 <= i < s.len() && s[i] is Some ==> s[i]->0 < u32::MAX
}

/// A 2048 grid; created empty, mutated in place by the game loop and
/// cloned whenever the search branches a hypothetical state.
#[derive(Debug)]
pub struct Board {
    height: usize,
    width: usize,
    data: Vec<Cell>,
}

impl View for Board {
    type V = BoardView;

    closed spec fn view(&self) -> BoardView {
        BoardView {
            width: self.width as nat,
            height: self.height as nat,
            cells: Seq::new(self.data@.len() as nat, |i: int| self.data@[i]@),
        }
    }
}

impl Board {
    /// The canonical empty 4-by-4 starting grid.
    pub fn new() -> (b: Board)
        ensures
            b@.wf(),
            b@.width == 4,
            b@.height == 4,
            forall|i: int| 0 <= i < 16 ==> b@.cells[i] is None,
    {
        let mut data: Vec<Cell> = Vec::new();
        let mut i: usize = 0;
        while i < 16
            invariant
                i <= 16,
                data@.len() == i,
                forall|k: int| 0 <= k < i ==> data@[k]@ is None,
            decreases 16 - i,
        {
            data.push(Cell::new());
            i += 1;
        }
        Board { height: 4, width: 4, data }
    }

    pub fn width(&self) -> (w: usize)
        ensures
            w == self@.width,
    {
        self.width
    }

    pub fn height(&self) -> (h: usize)
        ensures
            h == self@.height,
    {
        self.height
    }

    pub fn get_cell(&self, x: usize, y: usize) -> (c: &Cell)
        requires
            self@.wf(),
            x < self@.width,
            y < self@.height,
        ensures
            c@ == self@.cell(x as int, y as int),
    {
        proof {
            vstd::std_specs::vec::axiom_spec_len(&self.data);
            lemma_grid_index(self@.width, self@.height, x as int, y as int);
        }
        &self.data[y * self.width + x]
    }

    pub fn get_mut_cell(&mut self, x: usize, y: usize) -> (c: &mut Cell)
        requires
            old(self)@.wf(),
            x < old(self)@.width,
            y < old(self)@.height,
        ensures
            c@ == old(self)@.cell(x as int, y as int),
            final(self)@.width == old(self)@.width,
            final(self)@.height == old(self)@.height,
            final(self)@.cells =~= old(self)@.cells.update(
                y * old(self)@.width + x,
                final(c)@,
            ),
            final(self)@.wf(),
    {
        proof {
            vstd::std_specs::vec::axiom_spec_len(&self.data);
            lemma_grid_index(self@.width, self@.height, x as int, y as int);
        }
        let i = y * self.width + x;
        &mut self.data[i]
    }

    /// A copy of row `index`, left to right.
    pub fn get_row(&self, index: usize) -> (r: Vec<Cell>)
        requires
            self@.wf(),
            index < self@.height,
        ensures
            line_view(r@) == self@.row(index as int),
    {
        let mut r: Vec<Cell> = Vec::new();
        let mut i: usize = 0;
        while i < self.width
            invariant
                self@.wf(),
                index < self@.height,
                i <= self@.width,
                r@.len() == i,
                forall|k: int| 0 <= k < i ==> r@[k]@ == self@.cell(k, index as int),
            decreases self@.width - i,
        {
            r.push(*self.get_cell(i, index));
            i += 1;
        }
        proof {
            assert(line_view(r@) =~= self@.row(index as int));
        }
        r
    }

    /// A copy of column `index`, top to bottom.
    pub fn get_col(&self, index: usize) -> (r: Vec<Cell>)
        requires
            self@.wf(),
            index < self@.width,
        ensures
            line_view(r@) == self@.col(index as int),
    {
        let mut r: Vec<Cell> = Vec::new();
        let mut i: usize = 0;
        while i < self.height
            invariant
                self@.wf(),
                index < self@.width,
                i <= self@.height,
                r@.len() == i,
                forall|k: int| 0 <= k < i ==> r@[k]@ == self@.cell(index as int, k),
            decreases self@.height - i,
        {
            r.push(*self.get_cell(index, i));
            i += 1;
        }
        proof {
            assert(line_view(r@) =~= self@.col(index as int));
        }
        r
    }

    /// Writes `row` back as row `index`.
    pub fn set_row(&mut self, index: usize, row: &Vec<Cell>)
        requires
            old(self)@.wf(),
            index < old(self)@.height,
            row@.len() == old(self)@.width,
        ensures
            final(self)@.wf(),
            final(self)@.width == old(self)@.width,
            final(self)@.height == old(self)@.height,
            final(self)@.row(index as int) == line_view(row@),
            forall|y: int| 0 <= y < old(self)@.height && y != index
                ==> final(self)@.row(y) == old(self)@.row(y),
    {
        let mut i: usize = 0;
        while i < self.width
            invariant
                self@.wf(),
                self@.width == old(self)@.width,
                self@.height == old(self)@.height,
                index < self@.height,
                row@.len() == self@.width,
                i <= self@.width,
                forall|k: int| 0 <= k < i ==> self@.cell(k, index as int) == row@[k]@,
                forall|x: int, y: int|
                    0 <= x < self@.width && 0 <= y < self@.height
                        && !(y == index && x < i) ==> self@.cell(x, y) == old(self)@.cell(x, y),
            decreases self@.width - i,
        {
            proof {
                lemma_grid_index(self@.width, self@.height, i as int, index as int);
            }
            proof {
                vstd::std_specs::vec::axiom_spec_len(&self.data);
                lemma_grid_index(self@.width, self@.height, i as int, index as int);
            }
            let ghost prev = self@;
            let j = index * self.width + i;
            let c = row[i];
            self.data[j] = c;
            proof {
                assert forall|x: int, y: int| 0 <= x < self@.width && 0 <= y < self@.height
                    implies self@.cell(x, y) == (if x == i && y == index {
                    c@
                } else {
                    prev.cell(x, y)
                }) by {
                    lemma_grid_unique(self@.width, self@.height, x, y, i as int, index as int);
                    lemma_grid_index(self@.width, self@.height, x, y);
                }
            }
            i += 1;
        }
        proof {
            assert(final(self)@.row(index as int) =~= line_view(row@));
            assert forall|y: int| 0 <= y < old(self)@.height && y != index
                implies final(self)@.row(y) == old(self)@.row(y) by {
                assert(final(self)@.row(y) =~= old(self)@.row(y));
            }
        }
    }

    /// Writes `col` back as column `index`.
    pub fn set_col(&mut self, index: usize, col: &Vec<Cell>)
        requires
            old(self)@.wf(),
            index < old(self)@.width,
            col@.len() == old(self)@.height,
        ensures
            final(self)@.wf(),
            final(self)@.width == old(self)@.width,
            final(self)@.height == old(self)@.height,
            final(self)@.col(index as int) == line_view(col@),
            forall|x: int| 0 <= x < old(self)@.width && x != index
                ==> final(self)@.col(x) == old(self)@.col(x),
    {
        let mut i: usize = 0;
        while i < self.height
            invariant
                self@.wf(),
                self@.width == old(self)@.width,
                self@.height == old(self)@.height,
                index < self@.width,
                col@.len() == self@.height,
                i <= self@.height,
                forall|k: int| 0 <= k < i ==> self@.cell(index as int, k) == col@[k]@,
                forall|x: int, y: int|
                    0 <= x < self@.width && 0 <= y < self@.height
                        && !(x == index && y < i) ==> self@.cell(x, y) == old(self)@.cell(x, y),
            decreases self@.height - i,
        {
            proof {
                lemma_grid_index(self@.width, self@.height, index as int, i as int);
            }
            proof {
                vstd::std_specs::vec::axiom_spec_len(&self.data);
                lemma_grid_index(self@.width, self@.height, index as int, i as int);
            }
            let ghost prev = self@;
            let j = i * self.width + index;
            let c = col[i];
            self.data[j] = c;
            proof {
                assert forall|x: int, y: int| 0 <= x < self@.width && 0 <= y < self@.height
                    implies self@.cell(x, y) == (if x == index && y == i {
                    c@
                } else {
                    prev.cell(x, y)
                }) by {
                    lemma_grid_unique(self@.width, self@.height, x, y, index as int, i as int);
                    lemma_grid_index(self@.width, self@.height, x, y);
                }
            }
            i += 1;
        }
        proof {
            assert(final(self)@.col(index as int) =~= line_view(col@));
            assert forall|x: int| 0 <= x < old(self)@.width && x != index
                implies final(self)@.col(x) == old(self)@.col(x) by {
                assert(final(self)@.col(x) =~= old(self)@.col(x));
            }
        }
    }

    /// The raw cells in row-major order.
    pub fn board_data(&self) -> (d: &Vec<Cell>)
        ensures
            d@.len() == self@.cells.len(),
            forall|i: int| 0 <= i < d@.len() ==> d@[i]@ == self@.cells[i],
    {
        &self.data
    }
}

/// A flat grid index stays in bounds and is unique per coordinate.
pub proof fn lemma_grid_index(w: nat, h: nat, x: int, y: int)
    by (nonlinear_arith)
    requires
        0 <= x < w,
        0 <= y < h,
    ensures
        0 <= y * w + x < w * h,
{
}

/// Distinct coordinates give distinct flat grid indices.
proof fn lemma_grid_unique(w: nat, h: nat, x1: int, y1: int, x2: int, y2: int)
    by (nonlinear_arith)
    requires
        0 <= x1 < w,
        0 <= y1 < h,
        0 <= x2 < w,
        0 <= y2 < h,
    ensures
        (y1 * w + x1 == y2 * w + x2) <==> (x1 == x2 && y1 == y2),
{
}

/// The per-cell contents of a line of cells.
pub open spec fn line_view(s: Seq<Cell>) -> Seq<Option<u32>> {
    Seq::new(s.len(), |i: int| s[i]@)
}

/// The exponents of the occupied cells of a line, in order.
pub open spec fn occupied_values(s: Seq<Option<u32>>) -> Seq<u32>
    decreases s.len(),
{
    if s.len() == 0 {
        Seq::empty()
    } else if s[0] is Some {
        seq![s[0]->0] + occupied_values(s.skip(1))
    } else {
        occupied_values(s.skip(1))
    }
}

/// Greedy single-pass pairing: two adjacent equal exponents become one
/// raised exponent, and the merged tile takes no further part.
pub open spec fn merge_pairs(s: Seq<u32>) -> Seq<u32>
    decreases s.len(),
{
    if s.len() >= 2 && s[0] == s[1] {
        seq![(s[0] + 1) as u32] + merge_pairs(s.skip(2))
    } else if s.len() >= 1 {
        seq![s[0]] + merge_pairs(s.skip(1))
    } else {
        Seq::empty()
    }
}

/// The canonical result of shifting a line toward index 0: merged
/// occupied values packed at the front, empties behind them.
pub open spec fn combined_line(s: Seq<Option<u32>>) -> Seq<Option<u32>> {
    let m = merge_pairs(occupied_values(s));
    Seq::new(s.len(), |i: int| if i < m.len() { Some(m[i]) } else { None })
}

/// Whether the line has at least one empty cell.
pub open spec fn has_empty(s: Seq<Option<u32>>) -> bool {
    exists|i: int| 0 <= i < s.len() && s[i] is None
}

/// Relies on rand::Rng::gen_range: a sample from `0..n` lies below `n`;
/// the precondition keeps the range non-empty, so the call cannot panic.
#[verifier::external_body]
fn random_below(n: usize) -> (r: usize)
    requires
        n > 0,
    ensures
        r < n,
{
    rand::Rng::gen_range(&mut rand::thread_rng(), 0..n)
}

/// In-place operations on one extracted row or column.
pub trait ModRow {
    /// The tile contents of this line.
    spec fn line(&self) -> Seq<Option<u32>>;

    /// Slides every tile toward index 0 and merges adjacent equal
    /// tiles once; reports whether anything moved or merged.
    fn combine_row(&mut self) -> (changed: bool)
        requires
            line_ok(old(self).line()),
        ensures
            final(self).line() == combined_line(old(self).line()),
            changed == (final(self).line() != old(self).line()),
    ;

    /// Puts a fresh tile of exponent 0 on an empty cell chosen at
    /// random; reports `false` when the line is fully occupied.
    fn add_random_zero(&mut self) -> (added: bool)
        ensures
            added == has_empty(old(self).line()),
            added ==> exists|i: int|
                0 <= i < old(self).line().len() && old(self).line()[i] is None
                    && final(self).line() == old(self).line().update(i, Some(0u32)),
            !added ==> final(self).line() == old(self).line(),
    ;
}

impl ModRow for Vec<Cell> {
    open spec fn line(&self) -> Seq<Option<u32>> {
        line_view(self@)
    }

    fn combine_row(&mut self) -> (changed: bool) {
        let ghost orig: Seq<Option<u32>> = line_view(self@);
        let n = self.len();

        // Gather the occupied exponents in order.
        let mut occ: Vec<u32> = Vec::new();
        let mut i: usize = 0;
        proof {
            assert(orig.skip(0) =~= orig);
            assert(Seq::<u32>::empty() + occupied_values(orig) =~= occupied_values(orig));
        }
        while i < n
            invariant
                self@.len() == n,
                line_view(self@) == orig,
                line_ok(orig),
                i <= n,
                occ@.len() <= i,
                occupied_values(orig) == occ@ + occupied_values(orig.skip(i as int)),
                forall|k: int| 0 <= k < occ@.len() ==> occ@[k] < u32::MAX,
            decreases n - i,
        {
            proof {
                assert(orig.skip(i as int).skip(1) =~= orig.skip(i + 1));
                assert(orig.skip(i as int)[0] == orig[i as int]);
            }
            match self[i].get_score() {
                Some(v) => {
                    occ.push(v);
                    proof {
                        assert(occupied_values(orig) =~= occ@ + occupied_values(
                            orig.skip(i + 1),
                        ));
                    }
                }
                None => {
                }
            }
            i += 1;
        }
        proof {
            assert(orig.skip(n as int) =~= Seq::<Option<u32>>::empty());
            assert(occupied_values(orig) =~= occ@);
        }

        // Merge adjacent equal exponents, each at most once.
        let mut merged: Vec<u32> = Vec::new();
        let mut j: usize = 0;
        proof {
            assert(occ@.skip(0) =~= occ@);
            assert(Seq::<u32>::empty() + merge_pairs(occ@) =~= merge_pairs(occ@));
        }
        while j < occ.len()
            invariant
                occ@ == occupied_values(orig),
                forall|k: int| 0 <= k < occ@.len() ==> occ@[k] < u32::MAX,
                j <= occ@.len(),
                merged@.len() <= j,
                merge_pairs(occ@) == merged@ + merge_pairs(occ@.skip(j as int)),
            decreases occ@.len() - j,
        {
            proof {
                assert(occ@.skip(j as int)[0] == occ@[j as int]);
                if j + 1 < occ@.len() {
                    assert(occ@.skip(j as int)[1] == occ@[j + 1]);
                }
                assert(occ@.skip(j as int).skip(1) =~= occ@.skip(j + 1));
                if j + 2 <= occ@.len() {
                    assert(occ@.skip(j as int).skip(2) =~= occ@.skip(j + 2));
                }
            }
            if j + 1 < occ.len() && occ[j] == occ[j + 1] {
                merged.push(occ[j] + 1);
                proof {
                    assert(merge_pairs(occ@) =~= merged@ + merge_pairs(occ@.skip(j + 2)));
                }
                j += 2;
            } else {
                merged.push(occ[j]);
                proof {
                    assert(merge_pairs(occ@) =~= merged@ + merge_pairs(occ@.skip(j + 1)));
                }
                j += 1;
            }
        }
        proof {
            assert(occ@.skip(occ@.len() as int) =~= Seq::<u32>::empty());
            assert(merge_pairs(occupied_values(orig)) =~= merged@);
        }

        // Write the packed line back, watching whether anything changed.
        let ghost target: Seq<Option<u32>> = combined_line(orig);
        let mut changed = false;
        let mut k: usize = 0;
        while k < n
            invariant
                self@.len() == n,
                orig.len() == n,
                merged@ == merge_pairs(occupied_values(orig)),
                target == combined_line(orig),
                k <= n,
                forall|m: int| 0 <= m < k ==> line_view(self@)[m] == target[m],
                forall|m: int| k <= m < n ==> line_view(self@)[m] == orig[m],
                changed == exists|m: int| 0 <= m < k && target[m] != orig[m],
            decreases n - k,
        {
            let oldv = self[k].get_score();
            let newv: Option<u32> = if k < merged.len() {
                Some(merged[k])
            } else {
                None
            };
            let differs = match (oldv, newv) {
                (None, None) => false,
                (Some(a), Some(b)) => a != b,
                _ => true,
            };
            if differs {
                changed = true;
            }
            self[k] = Cell { score: newv };
            proof {
                if differs {
                    assert(target[k as int] != orig[k as int]);
                } else {
                    assert(target[k as int] == orig[k as int]);
                }
            }
            k += 1;
        }
        proof {
            assert(line_view(self@) =~= target);
            if changed {
                assert(line_view(self@) != orig);
            } else {
                assert(target =~= orig);
            }
        }
        changed
    }

    fn add_random_zero(&mut self) -> (added: bool) {
        let n = self.len();
        let mut empties: Vec<usize> = Vec::new();
        let mut i: usize = 0;
        while i < n
            invariant
                self@.len() == n,
                line_view(self@) == old(self).line(),
                i <= n,
                forall|k: int| #![trigger empties@[k]]
                    0 <= k < empties@.len() ==> empties@[k] < i && line_view(
                        self@,
                    )[empties@[k] as int] is None,
                empties@.len() == 0 ==> forall|m: int|
                    0 <= m < i ==> line_view(self@)[m] is Some,
            decreases n - i,
        {
            if !self[i].is_set() {
                empties.push(i);
            }
            i += 1;
        }
        if empties.len() == 0 {
            return false;
        }
        let pick = random_below(empties.len());
        let idx = empties[pick];
        self[idx] = Cell { score: Some(0) };
        proof {
            assert(line_view(self@) =~= old(self).line().update(idx as int, Some(0u32)));
        }
        true
    }
}

impl Clone for Board {
    /// A deep, independent copy: the search branches hypothetical
    /// states without ever touching the live board.
    fn clone(&self) -> (r: Board)
        ensures
            r@ == self@,
    {
        let mut data: Vec<Cell> = Vec::new();
        let n = self.data.len();
        let mut i: usize = 0;
        while i < n
            invariant
                self.data@.len() == n,
                i <= n,
                data@.len() == i,
                forall|k: int| 0 <= k < i ==> data@[k] == self.data@[k],
            decreases n - i,
        {
            data.push(self.data[i]);
            i += 1;
        }
        let r = Board { height: self.height, width: self.width, data };
        proof {
            assert(r@.cells =~= self@.cells);
        }
        r
    }
}

/// How many rows or columns a shift along `dir` touches.
pub open spec fn line_count(b: BoardView, dir: Direction) -> nat {
    match dir {
        Direction::LEFT | Direction::RIGHT => b.height,
        Direction::UP | Direction::DOWN => b.width,
    }
}

/// Line `i` of the board read front-first along the shift direction:
/// the cell tiles slide towards comes first.
pub open spec fn oriented_line(b: BoardView, dir: Direction, i: int) -> Seq<Option<u32>> {
    match dir {
        Direction::LEFT => b.row(i),
        Direction::RIGHT => b.row(i).reverse(),
        Direction::UP => b.col(i),
        Direction::DOWN => b.col(i).reverse(),
    }
}

/// What a shift along `dir` leaves at coordinate `(x, y)`.
pub open spec fn shifted_cell(b: BoardView, dir: Direction, x: int, y: int) -> Option<u32> {
    match dir {
        Direction::LEFT => combined_line(oriented_line(b, dir, y))[x],
        Direction::RIGHT => combined_line(oriented_line(b, dir, y))[b.width - 1 - x],
        Direction::UP => combined_line(oriented_line(b, dir, x))[y],
        Direction::DOWN => combined_line(oriented_line(b, dir, x))[b.height - 1 - y],
    }
}

/// The whole board after a shift-and-merge along `dir`.
pub open spec fn shifted(b: BoardView, dir: Direction) -> BoardView {
    BoardView {
        width: b.width,
        height: b.height,
        cells: Seq::new(
            b.cells.len(),
            |k: int| shifted_cell(b, dir, k % (b.width as int), k / (b.width as int)),
        ),
    }
}

/// Any flat index of a non-degenerate grid splits into coordinates.
pub proof fn lemma_grid_split(w: nat, h: nat, k: int)
    requires
        w > 0,
        0 <= k < w * h,
    ensures
        0 <= k % (w as int) < w,
        0 <= k / (w as int) < h,
        (k / (w as int)) * (w as int) + k % (w as int) == k,
{
    let wi = w as int;
    vstd::arithmetic::div_mod::lemma_fundamental_div_mod(k, wi);
    vstd::arithmetic::div_mod::lemma_mod_bound(k, wi);
    let x = k % wi;
    let y = k / wi;
    assert(k == wi * y + x);
    assert(wi * y == y * wi) by (nonlinear_arith);
    assert(0 <= y && y < h) by (nonlinear_arith)
        requires wi > 0, k == wi * y + x, 0 <= x < wi, 0 <= k < wi * (h as int);
}

/// Flat index arithmetic: the coordinates of `y * w + x` are `(x, y)`.
proof fn lemma_grid_coords(w: nat, h: nat, x: int, y: int)
    by (nonlinear_arith)
    requires
        0 <= x < w,
        0 <= y < h,
    ensures
        (y * w + x) % (w as int) == x,
        (y * w + x) / (w as int) == y,
{
}

/// Reading `shifted` back cell by cell.
pub proof fn lemma_shifted_cell(b: BoardView, dir: Direction, x: int, y: int)
    requires
        b.wf(),
        0 <= x < b.width,
        0 <= y < b.height,
    ensures
        shifted(b, dir).cell(x, y) == shifted_cell(b, dir, x, y),
{
    lemma_grid_index(b.width, b.height, x, y);
    lemma_grid_coords(b.width, b.height, x, y);
}

/// Two well-formed boards of the same size with equal rows are equal.
proof fn lemma_rows_equal(a: BoardView, b: BoardView)
    requires
        a.wf(),
        b.wf(),
        a.width == b.width,
        a.height == b.height,
        forall|y: int| 0 <= y < a.height ==> a.row(y) == b.row(y),
    ensures
        a.cells == b.cells,
{
    assert forall|k: int| 0 <= k < a.cells.len() implies a.cells[k] == b.cells[k] by {
        let w = a.width as int;
        let x = k % w;
        let y = k / w;
        lemma_grid_split(a.width, a.height, k);
        assert(a.row(y)[x] == a.cell(x, y));
        assert(b.row(y)[x] == b.cell(x, y));
    }
    assert(a.cells =~= b.cells);
}

/// Two well-formed boards of the same size with equal columns are equal.
proof fn lemma_cols_equal(a: BoardView, b: BoardView)
    requires
        a.wf(),
        b.wf(),
        a.width == b.width,
        a.height == b.height,
        forall|x: int| 0 <= x < a.width ==> a.col(x) == b.col(x),
    ensures
        a.cells == b.cells,
{
    assert forall|k: int| 0 <= k < a.cells.len() implies a.cells[k] == b.cells[k] by {
        let w = a.width as int;
        let x = k % w;
        let y = k / w;
        lemma_grid_split(a.width, a.height, k);
        assert(a.col(x)[y] == a.cell(x, y));
        assert(b.col(x)[y] == b.cell(x, y));
    }
    assert(a.cells =~= b.cells);
}

/// A fresh copy of `v` in back-to-front order.
fn reversed_line(v: &Vec<Cell>) -> (r: Vec<Cell>)
    ensures
        line_view(r@) == line_view(v@).reverse(),
{
    let n = v.len();
    let mut r: Vec<Cell> = Vec::new();
    let mut i: usize = 0;
    while i < n
        invariant
            v@.len() == n,
            i <= n,
            r@.len() == i,
            forall|k: int| 0 <= k < i ==> r@[k]@ == v@[n - 1 - k]@,
        decreases n - i,
    {
        r.push(*&v[n - 1 - i]);
        i += 1;
    }
    proof {
        assert(line_view(r@) =~= line_view(v@).reverse());
    }
    r
}

/// Row `y` after a horizontal shift.
pub open spec fn target_row(b: BoardView, dir: Direction, y: int) -> Seq<Option<u32>> {
    match dir {
        Direction::LEFT => combined_line(b.row(y)),
        _ => combined_line(b.row(y).reverse()).reverse(),
    }
}

/// Column `x` after a vertical shift.
pub open spec fn target_col(b: BoardView, dir: Direction, x: int) -> Seq<Option<u32>> {
    match dir {
        Direction::UP => combined_line(b.col(x)),
        _ => combined_line(b.col(x).reverse()).reverse(),
    }
}

/// The board with a tile of exponent `e` put at `(x, y)`.
pub open spec fn with_tile(b: BoardView, x: int, y: int, e: u32) -> BoardView {
    BoardView { cells: b.cells.update(y * b.width + x, Some(e)), ..b }
}

/// The x coordinate of slot `i` on the insertion edge for `dir`: the
/// far end of oriented line `i`, on the edge the player pushed away
/// from.
pub open spec fn edge_x(b: BoardView, dir: Direction, i: int) -> int {
    match dir {
        Direction::UP | Direction::DOWN => i,
        Direction::LEFT => b.width - 1,
        Direction::RIGHT => 0,
    }
}

/// The y coordinate of slot `i` on the insertion edge for `dir`.
pub open spec fn edge_y(b: BoardView, dir: Direction, i: int) -> int {
    match dir {
        Direction::UP => b.height - 1,
        Direction::DOWN => 0,
        Direction::LEFT | Direction::RIGHT => i,
    }
}

/// Whether the insertion edge for `dir` has an empty slot.
pub open spec fn has_empty_edge(b: BoardView, dir: Direction) -> bool {
    exists|i: int|
        0 <= i < line_count(b, dir) && b.cell(
            #[trigger] edge_x(b, dir, i),
            edge_y(b, dir, i),
        ) is None
}

/// Lines of equal length are equal exactly when their reversals are.
proof fn lemma_reverse_eq(s: Seq<Option<u32>>, t: Seq<Option<u32>>)
    requires
        s.len() == t.len(),
    ensures
        (s.reverse() == t.reverse()) <==> (s == t),
{
    if s.reverse() == t.reverse() {
        assert forall|i: int| 0 <= i < s.len() implies s[i] == t[i] by {
            assert(s.reverse()[s.len() - 1 - i] == s[i]);
            assert(t.reverse()[t.len() - 1 - i] == t[i]);
        }
        assert(s =~= t);
    }
    if s == t {
        assert(s.reverse() =~= t.reverse());
    }
}

/// How `with_tile` reads back row by row and column by column.
pub proof fn lemma_with_tile_lines(b: BoardView, x: int, y: int, e: u32)
    requires
        b.wf(),
        0 <= x < b.width,
        0 <= y < b.height,
    ensures
        with_tile(b, x, y, e).wf(),
        with_tile(b, x, y, e).width == b.width,
        with_tile(b, x, y, e).height == b.height,
        with_tile(b, x, y, e).row(y) == b.row(y).update(x, Some(e)),
        with_tile(b, x, y, e).col(x) == b.col(x).update(y, Some(e)),
        forall|u: int| 0 <= u < b.height && u != y ==> with_tile(b, x, y, e).row(u) == b.row(u),
        forall|u: int| 0 <= u < b.width && u != x ==> with_tile(b, x, y, e).col(u) == b.col(u),
{
    let w = with_tile(b, x, y, e);
    lemma_grid_index(b.width, b.height, x, y);
    assert forall|u: int, v: int| 0 <= u < b.width && 0 <= v < b.height implies w.cell(u, v) == (
    if u == x && v == y {
        Some(e)
    } else {
        b.cell(u, v)
    }) by {
        lemma_grid_unique(b.width, b.height, u, v, x, y);
        lemma_grid_index(b.width, b.height, u, v);
    }
    assert(w.row(y) =~= b.row(y).update(x, Some(e)));
    assert(w.col(x) =~= b.col(x).update(y, Some(e)));
    assert forall|u: int| 0 <= u < b.height && u != y implies w.row(u) == b.row(u) by {
        assert(w.row(u) =~= b.row(u));
    }
    assert forall|u: int| 0 <= u < b.width && u != x implies w.col(u) == b.col(u) by {
        assert(w.col(u) =~= b.col(u));
    }
}

/// A line of a board whose exponents all leave merge room is itself ok.
proof fn lemma_lines_ok(b: BoardView)
    requires
        b.wf(),
        b.ok(),
    ensures
        forall|y: int| 0 <= y < b.height ==> line_ok(#[trigger] b.row(y)),
        forall|x: int| 0 <= x < b.width ==> line_ok(#[trigger] b.col(x)),
        forall|y: int| 0 <= y < b.height ==> line_ok(#[trigger] b.row(y).reverse()),
        forall|x: int| 0 <= x < b.width ==> line_ok(#[trigger] b.col(x).reverse()),
{
    assert forall|y: int| 0 <= y < b.height implies line_ok(#[trigger] b.row(y)) && line_ok(
        b.row(y).reverse(),
    ) by {
        assert forall|i: int| 0 <= i < b.row(y).len() && b.row(y)[i] is Some implies b.row(
            y,
        )[i]->0 < u32::MAX by {
            lemma_grid_index(b.width, b.height, i, y);
        }
        assert forall|i: int|
            0 <= i < b.row(y).reverse().len() && b.row(y).reverse()[i] is Some implies b.row(
            y,
        ).reverse()[i]->0 < u32::MAX by {
            assert(b.row(y).reverse()[i] == b.row(y)[b.width - 1 - i]);
        }
    }
    assert forall|x: int| 0 <= x < b.width implies line_ok(#[trigger] b.col(x)) && line_ok(
        b.col(x).reverse(),
    ) by {
        assert forall|i: int| 0 <= i < b.col(x).len() && b.col(x)[i] is Some implies b.col(
            x,
        )[i]->0 < u32::MAX by {
            lemma_grid_index(b.width, b.height, x, i);
        }
        assert forall|i: int|
            0 <= i < b.col(x).reverse().len() && b.col(x).reverse()[i] is Some implies b.col(
            x,
        ).reverse()[i]->0 < u32::MAX by {
            assert(b.col(x).reverse()[i] == b.col(x)[b.height - 1 - i]);
        }
    }
}

/// A random insertion on the edge row `y`, lifted to the whole board.
proof fn lemma_edge_row(b: BoardView, dir: Direction, a: BoardView, y: int, added: bool)
    requires
        b.wf(),
        a.wf(),
        b.width > 0,
        b.height > 0,
        dir == Direction::UP || dir == Direction::DOWN,
        y == if dir == Direction::UP { b.height - 1 } else { 0int },
        a.width == b.width,
        a.height == b.height,
        added == has_empty(b.row(y)),
        added ==> exists|i: int|
            0 <= i < b.row(y).len() && b.row(y)[i] is None && a.row(y) == b.row(y).update(
                i,
                Some(0u32),
            ),
        !added ==> a.row(y) == b.row(y),
        forall|u: int| 0 <= u < b.height && u != y ==> a.row(u) == b.row(u),
    ensures
        added == has_empty_edge(b, dir),
        added ==> exists|i: int|
            0 <= i < line_count(b, dir) && b.cell(
                #[trigger] edge_x(b, dir, i),
                edge_y(b, dir, i),
            ) is None && a == with_tile(b, edge_x(b, dir, i), edge_y(b, dir, i), 0),
        !added ==> a == b,
{
    if added {
        let i = choose|i: int|
            0 <= i < b.row(y).len() && b.row(y)[i] is None && a.row(y) == b.row(y).update(
                i,
                Some(0u32),
            );
        assert(b.row(y)[i] == b.cell(i, y));
        assert(edge_x(b, dir, i) == i && edge_y(b, dir, i) == y);
        assert(b.cell(edge_x(b, dir, i), edge_y(b, dir, i)) is None);
        lemma_with_tile_lines(b, i, y, 0);
        let w = with_tile(b, i, y, 0);
        assert forall|u: int| 0 <= u < b.height implies a.row(u) == w.row(u) by {}
        lemma_rows_equal(a, w);
        assert(a == w);
    } else {
        assert forall|i: int| 0 <= i < line_count(b, dir) implies !(b.cell(
            #[trigger] edge_x(b, dir, i),
            edge_y(b, dir, i),
        ) is None) by {
            if b.cell(i, y) is None {
                assert(b.row(y)[i] is None);
            }
        }
        lemma_rows_equal(a, b);
        assert(a == b);
    }
}

/// A random insertion on the edge column `x`, lifted to the board.
proof fn lemma_edge_col(b: BoardView, dir: Direction, a: BoardView, x: int, added: bool)
    requires
        b.wf(),
        a.wf(),
        b.width > 0,
        b.height > 0,
        dir == Direction::LEFT || dir == Direction::RIGHT,
        x == if dir == Direction::LEFT { b.width - 1 } else { 0int },
        a.width == b.width,
        a.height == b.height,
        added == has_empty(b.col(x)),
        added ==> exists|i: int|
            0 <= i < b.col(x).len() && b.col(x)[i] is None && a.col(x) == b.col(x).update(
                i,
                Some(0u32),
            ),
        !added ==> a.col(x) == b.col(x),
        forall|u: int| 0 <= u < b.width && u != x ==> a.col(u) == b.col(u),
    ensures
        added == has_empty_edge(b, dir),
        added ==> exists|i: int|
            0 <= i < line_count(b, dir) && b.cell(
                #[trigger] edge_x(b, dir, i),
                edge_y(b, dir, i),
            ) is None && a == with_tile(b, edge_x(b, dir, i), edge_y(b, dir, i), 0),
        !added ==> a == b,
{
    if added {
        let i = choose|i: int|
            0 <= i < b.col(x).len() && b.col(x)[i] is None && a.col(x) == b.col(x).update(
                i,
                Some(0u32),
            );
        assert(b.col(x)[i] == b.cell(x, i));
        assert(edge_x(b, dir, i) == x && edge_y(b, dir, i) == i);
        assert(b.cell(edge_x(b, dir, i), edge_y(b, dir, i)) is None);
        lemma_with_tile_lines(b, x, i, 0);
        let w = with_tile(b, x, i, 0);
        assert forall|u: int| 0 <= u < b.width implies a.col(u) == w.col(u) by {}
        lemma_cols_equal(a, w);
        assert(a == w);
    } else {
        assert forall|i: int| 0 <= i < line_count(b, dir) implies !(b.cell(
            #[trigger] edge_x(b, dir, i),
            edge_y(b, dir, i),
        ) is None) by {
            if b.cell(x, i) is None {
                assert(b.col(x)[i] is None);
            }
        }
        lemma_cols_equal(a, b);
        assert(a == b);
    }
}

impl Board {
    fn step_horizontal(&mut self, dir: Direction) -> (changed: bool)
        requires
            old(self)@.wf(),
            old(self)@.ok(),
            dir == Direction::LEFT || dir == Direction::RIGHT,
        ensures
            final(self)@ == shifted(old(self)@, dir),
            changed == (final(self)@.cells != old(self)@.cells),
    {
        proof {
            lemma_lines_ok(old(self)@);
        }
        let mut changed = false;
        let h = self.height;
        let mut y: usize = 0;
        while y < h
            invariant
                self@.wf(),
                old(self)@.wf(),
                old(self)@.ok(),
                self@.width == old(self)@.width,
                self@.height == old(self)@.height,
                h == self@.height,
                y <= h,
                dir == Direction::LEFT || dir == Direction::RIGHT,
                forall|u: int| 0 <= u < y ==> self@.row(u) == target_row(old(self)@, dir, u),
                forall|u: int| y <= u < h ==> self@.row(u) == old(self)@.row(u),
                changed == exists|u: int|
                    0 <= u < y && target_row(old(self)@, dir, u) != old(self)@.row(u),
                forall|u: int| 0 <= u < h ==> line_ok(#[trigger] old(self)@.row(u)) && line_ok(
                    old(self)@.row(u).reverse(),
                ),
            decreases h - y,
        {
            let ghost oldline = old(self)@.row(y as int);
            let mut row = self.get_row(y);
            let is_right = match dir {
                Direction::RIGHT => true,
                _ => false,
            };
            if is_right {
                row = reversed_line(&row);
            }
            let c = row.combine_row();
            if is_right {
                row = reversed_line(&row);
            }
            proof {
                if is_right {
                    assert(line_view(row@) == combined_line(oldline.reverse()).reverse());
                    lemma_reverse_eq(combined_line(oldline.reverse()), oldline.reverse());
                    assert(oldline.reverse().reverse() =~= oldline);
                    lemma_reverse_eq(combined_line(oldline.reverse()).reverse(), oldline);
                    assert(c == (target_row(old(self)@, dir, y as int) != oldline));
                } else {
                    assert(c == (target_row(old(self)@, dir, y as int) != oldline));
                }
            }
            proof {
                assert(line_view(row@).len() == row@.len());
                assert(line_view(row@).len() == old(self)@.width);
            }
            self.set_row(y, &row);
            if c {
                changed = true;
            }
            proof {
                if c {
                    assert(target_row(old(self)@, dir, y as int) != old(self)@.row(y as int));
                }
            }
            y += 1;
        }
        proof {
            let sh = shifted(old(self)@, dir);
            assert(sh.wf());
            assert forall|u: int| 0 <= u < h implies sh.row(u) == target_row(
                old(self)@,
                dir,
                u,
            ) by {
                assert forall|x: int| 0 <= x < sh.width implies sh.row(u)[x] == target_row(
                    old(self)@,
                    dir,
                    u,
                )[x] by {
                    lemma_shifted_cell(old(self)@, dir, x, u);
                    if dir == Direction::RIGHT {
                        let ori = old(self)@.row(u).reverse();
                        assert(combined_line(ori).reverse()[x] == combined_line(ori)[sh.width - 1
                            - x]);
                    }
                }
                assert(sh.row(u) =~= target_row(old(self)@, dir, u));
            }
            lemma_rows_equal(self@, sh);
            assert(self@ == sh);
            if changed {
                let u = choose|u: int|
                    0 <= u < h && target_row(old(self)@, dir, u) != old(self)@.row(u);
                assert(sh.row(u) != old(self)@.row(u));
                assert(sh.cells != old(self)@.cells);
            } else {
                lemma_rows_equal(sh, old(self)@);
            }
        }
        changed
    }

    fn step_vertical(&mut self, dir: Direction) -> (changed: bool)
        requires
            old(self)@.wf(),
            old(self)@.ok(),
            dir == Direction::UP || dir == Direction::DOWN,
        ensures
            final(self)@ == shifted(old(self)@, dir),
            changed == (final(self)@.cells != old(self)@.cells),
    {
        proof {
            lemma_lines_ok(old(self)@);
        }
        let mut changed = false;
        let w = self.width;
        let mut x: usize = 0;
        while x < w
            invariant
                self@.wf(),
                old(self)@.wf(),
                old(self)@.ok(),
                self@.width == old(self)@.width,
                self@.height == old(self)@.height,
                w == self@.width,
                x <= w,
                dir == Direction::UP || dir == Direction::DOWN,
                forall|u: int| 0 <= u < x ==> self@.col(u) == target_col(old(self)@, dir, u),
                forall|u: int| x <= u < w ==> self@.col(u) == old(self)@.col(u),
                changed == exists|u: int|
                    0 <= u < x && target_col(old(self)@, dir, u) != old(self)@.col(u),
                forall|u: int| 0 <= u < w ==> line_ok(#[trigger] old(self)@.col(u)) && line_ok(
                    old(self)@.col(u).reverse(),
                ),
            decreases w - x,
        {
            let ghost oldline = old(self)@.col(x as int);
            let mut col = self.get_col(x);
            let is_down = match dir {
                Direction::DOWN => true,
                _ => false,
            };
            if is_down {
                col = reversed_line(&col);
            }
            let c = col.combine_row();
            if is_down {
                col = reversed_line(&col);
            }
            proof {
                if is_down {
                    assert(line_view(col@) == combined_line(oldline.reverse()).reverse());
                    lemma_reverse_eq(combined_line(oldline.reverse()), oldline.reverse());
                    assert(oldline.reverse().reverse() =~= oldline);
                    lemma_reverse_eq(combined_line(oldline.reverse()).reverse(), oldline);
                    assert(c == (target_col(old(self)@, dir, x as int) != oldline));
                } else {
                    assert(c == (target_col(old(self)@, dir, x as int) != oldline));
                }
            }
            proof {
                assert(line_view(col@).len() == col@.len());
                assert(line_view(col@).len() == old(self)@.height);
            }
            self.set_col(x, &col);
            if c {
                changed = true;
            }
            proof {
                if c {
                    assert(target_col(old(self)@, dir, x as int) != old(self)@.col(x as int));
                }
            }
            x += 1;
        }
        proof {
            let sh = shifted(old(self)@, dir);
            assert(sh.wf());
            assert forall|u: int| 0 <= u < w implies sh.col(u) == target_col(
                old(self)@,
                dir,
                u,
            ) by {
                assert forall|y: int| 0 <= y < sh.height implies sh.col(u)[y] == target_col(
                    old(self)@,
                    dir,
                    u,
                )[y] by {
                    lemma_shifted_cell(old(self)@, dir, u, y);
                    if dir == Direction::DOWN {
                        let ori = old(self)@.col(u).reverse();
                        assert(combined_line(ori).reverse()[y] == combined_line(ori)[sh.height - 1
                            - y]);
                    }
                }
                assert(sh.col(u) =~= target_col(old(self)@, dir, u));
            }
            lemma_cols_equal(self@, sh);
            assert(self@ == sh);
            if changed {
                let u = choose|u: int|
                    0 <= u < w && target_col(old(self)@, dir, u) != old(self)@.col(u);
                assert(sh.col(u) != old(self)@.col(u));
                assert(sh.cells != old(self)@.cells);
            } else {
                lemma_cols_equal(sh, old(self)@);
            }
        }
        changed
    }

    /// Slot `index` of the insertion edge for `dir`: the edge the
    /// player pushed away from, where the adversary places new tiles.
    pub fn step_add_index(&mut self, dir: Direction, index: usize) -> (added: bool)
        requires
            old(self)@.wf(),
            old(self)@.width > 0,
            old(self)@.height > 0,
            index < line_count(old(self)@, dir),
        ensures
            added == (old(self)@.cell(
                edge_x(old(self)@, dir, index as int),
                edge_y(old(self)@, dir, index as int),
            ) is None),
            added ==> final(self)@ == with_tile(
                old(self)@,
                edge_x(old(self)@, dir, index as int),
                edge_y(old(self)@, dir, index as int),
                0,
            ),
            !added ==> final(self)@ == old(self)@,
    {
        let (x, y) = match dir {
            Direction::UP => (index, self.height - 1),
            Direction::DOWN => (index, 0),
            Direction::LEFT => (self.width - 1, index),
            Direction::RIGHT => (0, index),
        };
        if self.get_cell(x, y).is_set() {
            false
        } else {
            proof {
                lemma_grid_index(self@.width, self@.height, x as int, y as int);
            }
            self.get_mut_cell(x, y).set_score(0);
            proof {
                assert(self@ == with_tile(old(self)@, x as int, y as int, 0u32));
            }
            true
        }
    }

    /// Puts a tile of exponent 0 on a uniformly random empty slot of
    /// the insertion edge for `dir`; `false` means the edge is full.
    pub fn step_add(&mut self, dir: Direction) -> (added: bool)
        requires
            old(self)@.wf(),
            old(self)@.width > 0,
            old(self)@.height > 0,
        ensures
            added == has_empty_edge(old(self)@, dir),
            added ==> exists|i: int|
                0 <= i < line_count(old(self)@, dir) && old(self)@.cell(
                    #[trigger] edge_x(old(self)@, dir, i),
                    edge_y(old(self)@, dir, i),
                ) is None && final(self)@ == with_tile(
                    old(self)@,
                    edge_x(old(self)@, dir, i),
                    edge_y(old(self)@, dir, i),
                    0,
                ),
            !added ==> final(self)@ == old(self)@,
    {
        match dir {
            Direction::UP | Direction::DOWN => {
                let y = if let Direction::UP = dir {
                    self.height - 1
                } else {
                    0
                };
                let mut row = self.get_row(y);
                let added = row.add_random_zero();
                proof {
                    assert(line_view(row@).len() == row@.len());
                }
                self.set_row(y, &row);
                proof {
                    lemma_edge_row(old(self)@, dir, self@, y as int, added);
                }
                added
            }
            Direction::LEFT | Direction::RIGHT => {
                let x = if let Direction::LEFT = dir {
                    self.width - 1
                } else {
                    0
                };
                let mut col = self.get_col(x);
                let added = col.add_random_zero();
                proof {
                    assert(line_view(col@).len() == col@.len());
                }
                self.set_col(x, &col);
                proof {
                    lemma_edge_col(old(self)@, dir, self@, x as int, added);
                }
                added
            }
        }
    }

    /// One whole player move: shift-and-merge along `dir`, then a
    /// random tile insertion on the edge opposite `dir`.  Returns
    /// `false` exactly when the direction is a dead end: the shift
    /// changed nothing and the insertion edge is full.
    pub fn step(&mut self, dir: Direction) -> (moved: bool)
        requires
            old(self)@.wf(),
            old(self)@.ok(),
            old(self)@.width > 0,
            old(self)@.height > 0,
        ensures
            moved == has_empty_edge(shifted(old(self)@, dir), dir),
            moved ==> exists|i: int|
                0 <= i < line_count(old(self)@, dir) && shifted(old(self)@, dir).cell(
                    #[trigger] edge_x(old(self)@, dir, i),
                    edge_y(old(self)@, dir, i),
                ) is None && final(self)@ == with_tile(
                    shifted(old(self)@, dir),
                    edge_x(old(self)@, dir, i),
                    edge_y(old(self)@, dir, i),
                    0,
                ),
            !moved ==> final(self)@ == shifted(old(self)@, dir),
    {
        self.step_rows(dir);
        let added = self.step_add(dir);
        proof {
            let sh = shifted(old(self)@, dir);
            if added {
                let i = choose|i: int|
                    0 <= i < line_count(sh, dir) && sh.cell(
                        #[trigger] edge_x(sh, dir, i),
                        edge_y(sh, dir, i),
                    ) is None && self@ == with_tile(sh, edge_x(sh, dir, i), edge_y(sh, dir, i), 0);
                assert(edge_x(sh, dir, i) == edge_x(old(self)@, dir, i));
                assert(edge_y(sh, dir, i) == edge_y(old(self)@, dir, i));
                assert(sh.cell(
                    edge_x(old(self)@, dir, i),
                    edge_y(old(self)@, dir, i),
                ) is None);
            }
        }
        added
    }

    /// Shift-and-merge along `dir`; reports whether any cell changed.
    pub fn step_rows(&mut self, dir: Direction) -> (changed: bool)
        requires
            old(self)@.wf(),
            old(self)@.ok(),
        ensures
            final(self)@ == shifted(old(self)@, dir),
            changed == (final(self)@.cells != old(self)@.cells),
    {
        match dir {
            Direction::UP | Direction::DOWN => self.step_vertical(dir),
            Direction::LEFT | Direction::RIGHT => self.step_horizontal(dir),
        }
    }
}

/// Two adjacent equal tiles at the head of a line merge into one tile
/// of the next value, and the merged tile takes no further part in
/// the same move: the rest of the line is paired up on its own, even
/// when it starts with the value the merge just produced.
pub proof fn lemma_merge_once(v: u32, rest: Seq<u32>)
    requires
        v < u32::MAX,
    ensures
        merge_pairs(seq![v, v] + rest) == seq![(v + 1) as u32] + merge_pairs(rest),
{
    let s = seq![v, v] + rest;
    assert(s.len() >= 2 && s[0] == v && s[1] == v);
    assert(s.skip(2) =~= rest);
}

/// Filling an empty cell raises the occupied count by exactly one.
proof fn lemma_count_fill(s: Seq<Option<u32>>, i: int, e: u32)
    requires
        0 <= i < s.len(),
        s[i] is None,
    ensures
        count_occupied(s.update(i, Some(e))) == count_occupied(s) + 1,
    decreases s.len(),
{
    let t = s.update(i, Some(e));
    if i == 0 {
        assert(t.skip(1) =~= s.skip(1));
    } else {
        assert(t.skip(1) =~= s.skip(1).update(i - 1, Some(e)));
        lemma_count_fill(s.skip(1), i - 1, e);
    }
}

/// A successful insertion is exactly one more occupied cell.
pub proof fn lemma_insert_count(b: BoardView, x: int, y: int, e: u32)
    requires
        b.wf(),
        0 <= x < b.width,
        0 <= y < b.height,
        b.cell(x, y) is None,
    ensures
        with_tile(b, x, y, e).occupied_count() == b.occupied_count() + 1,
{
    lemma_grid_index(b.width, b.height, x, y);
    lemma_count_fill(b.cells, y * b.width + x, e);
}

/// Occupied cells over one whole move, on moves whose shift merged
/// nothing (the shift kept the occupied count): the count never
/// drops, and rises by exactly one when the insertion succeeds.
pub proof fn lemma_move_occupancy(b: BoardView, dir: Direction, i: int)
    requires
        b.wf(),
        b.width > 0,
        b.height > 0,
        shifted(b, dir).occupied_count() == b.occupied_count(),
        0 <= i < line_count(b, dir),
        shifted(b, dir).cell(edge_x(b, dir, i), edge_y(b, dir, i)) is None,
    ensures
        with_tile(
            shifted(b, dir),
            edge_x(b, dir, i),
            edge_y(b, dir, i),
            0,
        ).occupied_count() == b.occupied_count() + 1,
{
    let sh = shifted(b, dir);
    let x = edge_x(b, dir, i);
    let y = edge_y(b, dir, i);
    assert(0 <= x < sh.width && 0 <= y < sh.height);
    lemma_insert_count(sh, x, y, 0);
}


/// Merging never lengthens a line, and only a merge shortens it.
proof fn lemma_merge_pairs_len(s: Seq<u32>)
    ensures
        merge_pairs(s).len() <= s.len(),
        merge_pairs(s).len() == s.len() ==> merge_pairs(s) == s,
    decreases s.len(),
{
    if s.len() >= 2 && s[0] == s[1] {
        lemma_merge_pairs_len(s.skip(2));
    } else if s.len() >= 1 {
        lemma_merge_pairs_len(s.skip(1));
        if merge_pairs(s).len() == s.len() {
            assert(merge_pairs(s) =~= s);
        }
    }
}

/// A line with as many occupied values as cells is fully occupied.
proof fn lemma_occupied_all(l: Seq<Option<u32>>)
    ensures
        occupied_values(l).len() <= l.len(),
        occupied_values(l).len() == l.len() ==> forall|i: int|
            0 <= i < l.len() ==> l[i] == Some(occupied_values(l)[i]),
    decreases l.len(),
{
    if l.len() > 0 {
        lemma_occupied_all(l.skip(1));
        if l[0] is Some && occupied_values(l).len() == l.len() {
            assert(occupied_values(l.skip(1)).len() == l.skip(1).len());
            assert forall|i: int| 0 <= i < l.len() implies l[i] == Some(
                occupied_values(l)[i],
            ) by {
                if i > 0 {
                    assert(l[i] == l.skip(1)[i - 1]);
                    assert(occupied_values(l)[i] == occupied_values(l.skip(1))[i - 1]);
                }
            }
        }
    }
}

/// A combined line whose far end is still occupied was already fully
/// packed: the shift changed nothing in that line.
proof fn lemma_combined_identity(l: Seq<Option<u32>>)
    requires
        l.len() > 0,
        combined_line(l)[l.len() - 1] is Some,
    ensures
        combined_line(l) == l,
{
    let occ = occupied_values(l);
    let m = merge_pairs(occ);
    lemma_merge_pairs_len(occ);
    lemma_occupied_all(l);
    assert(m.len() == l.len());
    assert(occ.len() == l.len());
    assert(m == occ);
    assert(combined_line(l) =~= l);
}

/// Shifting rewrites each oriented line into its combined form.
pub proof fn lemma_shifted_lines(b: BoardView, dir: Direction)
    requires
        b.wf(),
    ensures
        forall|i: int|
            0 <= i < line_count(b, dir) ==> #[trigger] oriented_line(shifted(b, dir), dir, i)
                == combined_line(oriented_line(b, dir, i)),
{
    let sh = shifted(b, dir);
    assert forall|i: int| 0 <= i < line_count(b, dir) implies #[trigger] oriented_line(
        sh,
        dir,
        i,
    ) == combined_line(oriented_line(b, dir, i)) by {
        let l = oriented_line(b, dir, i);
        let t = combined_line(l);
        match dir {
            Direction::LEFT => {
                assert forall|x: int| 0 <= x < b.width implies oriented_line(sh, dir, i)[x]
                    == t[x] by {
                    lemma_shifted_cell(b, dir, x, i);
                }
            }
            Direction::RIGHT => {
                assert forall|x: int| 0 <= x < b.width implies oriented_line(sh, dir, i)[x]
                    == t[x] by {
                    assert(oriented_line(sh, dir, i)[x] == sh.row(i)[b.width - 1 - x]);
                    lemma_shifted_cell(b, dir, b.width - 1 - x, i);
                }
            }
            Direction::UP => {
                assert forall|y: int| 0 <= y < b.height implies oriented_line(sh, dir, i)[y]
                    == t[y] by {
                    lemma_shifted_cell(b, dir, i, y);
                }
            }
            Direction::DOWN => {
                assert forall|y: int| 0 <= y < b.height implies oriented_line(sh, dir, i)[y]
                    == t[y] by {
                    assert(oriented_line(sh, dir, i)[y] == sh.col(i)[b.height - 1 - y]);
                    lemma_shifted_cell(b, dir, i, b.height - 1 - y);
                }
            }
        }
        assert(oriented_line(sh, dir, i) =~= t);
    }
}

/// The far end of oriented line `i` of a board is its insertion-edge
/// slot `i`.
proof fn lemma_edge_is_line_end(b: BoardView, dir: Direction, i: int)
    requires
        b.wf(),
        b.width > 0,
        b.height > 0,
        0 <= i < line_count(b, dir),
    ensures
        oriented_line(b, dir, i)[oriented_line(b, dir, i).len() - 1] == b.cell(
            edge_x(b, dir, i),
            edge_y(b, dir, i),
        ),
{
    match dir {
        Direction::LEFT => {
            assert(oriented_line(b, dir, i)[b.width - 1] == b.cell(b.width - 1, i));
        }
        Direction::RIGHT => {
            assert(oriented_line(b, dir, i)[b.width - 1] == b.row(i)[0]);
        }
        Direction::UP => {
            assert(oriented_line(b, dir, i)[b.height - 1] == b.cell(i, b.height - 1));
        }
        Direction::DOWN => {
            assert(oriented_line(b, dir, i)[b.height - 1] == b.col(i)[0]);
        }
    }
}

/// A shift that changes the board always frees a slot on the
/// insertion edge: a changed line cannot stay fully packed.
pub proof fn lemma_shift_change_frees_edge(b: BoardView, dir: Direction)
    requires
        b.wf(),
        b.width > 0,
        b.height > 0,
    ensures
        shifted(b, dir).cells != b.cells ==> has_empty_edge(shifted(b, dir), dir),
{
    let sh = shifted(b, dir);
    lemma_shifted_lines(b, dir);
    if !has_empty_edge(sh, dir) {
        assert forall|i: int| 0 <= i < line_count(b, dir) implies #[trigger] oriented_line(
            sh,
            dir,
            i,
        ) == oriented_line(b, dir, i) by {
            let l = oriented_line(b, dir, i);
            assert(!(sh.cell(edge_x(b, dir, i), edge_y(b, dir, i)) is None)) by {
                assert(edge_x(sh, dir, i) == edge_x(b, dir, i));
                assert(edge_y(sh, dir, i) == edge_y(b, dir, i));
            }
            lemma_edge_is_line_end(sh, dir, i);
            assert(combined_line(l)[l.len() - 1] is Some);
            lemma_combined_identity(l);
        }
        match dir {
            Direction::LEFT | Direction::RIGHT => {
                assert forall|y: int| 0 <= y < b.height implies sh.row(y) == b.row(y) by {
                    assert(oriented_line(sh, dir, y) == oriented_line(b, dir, y));
                    if dir == Direction::LEFT {
                        assert(sh.row(y) == oriented_line(sh, dir, y));
                        assert(b.row(y) == oriented_line(b, dir, y));
                    } else {
                        assert(sh.row(y).reverse() == b.row(y).reverse());
                        lemma_reverse_eq(sh.row(y), b.row(y));
                    }
                }
                lemma_rows_equal(sh, b);
            }
            Direction::UP | Direction::DOWN => {
                assert forall|x: int| 0 <= x < b.width implies sh.col(x) == b.col(x) by {
                    assert(oriented_line(sh, dir, x) == oriented_line(b, dir, x));
                    if dir == Direction::UP {
                        assert(sh.col(x) == oriented_line(sh, dir, x));
                        assert(b.col(x) == oriented_line(b, dir, x));
                    } else {
                        assert(sh.col(x).reverse() == b.col(x).reverse());
                        lemma_reverse_eq(sh.col(x), b.col(x));
                    }
                }
                lemma_cols_equal(sh, b);
            }
        }
        assert(sh.cells == b.cells);
    }
}

/// One whole move returns `false` exactly when the chosen direction
/// is currently illegal: the shift produces an identical board and
/// the insertion edge opposite the direction has no empty cell.
pub proof fn lemma_move_signal(b: BoardView, dir: Direction)
    requires
        b.wf(),
        b.width > 0,
        b.height > 0,
    ensures
        !has_empty_edge(shifted(b, dir), dir) <==> (shifted(b, dir).cells == b.cells
            && !has_empty_edge(b, dir)),
{
    let sh = shifted(b, dir);
    lemma_shift_change_frees_edge(b, dir);
    if sh.cells == b.cells {
        assert forall|i: int| 0 <= i < line_count(b, dir) implies (sh.cell(
            #[trigger] edge_x(sh, dir, i),
            edge_y(sh, dir, i),
        ) is None) == (b.cell(edge_x(b, dir, i), edge_y(b, dir, i)) is None) by {
            assert(edge_x(sh, dir, i) == edge_x(b, dir, i));
            assert(edge_y(sh, dir, i) == edge_y(b, dir, i));
        }
        assert(has_empty_edge(sh, dir) == has_empty_edge(b, dir)) by {
            if has_empty_edge(sh, dir) {
                let i = choose|i: int|
                    0 <= i < line_count(sh, dir) && sh.cell(
                        #[trigger] edge_x(sh, dir, i),
                        edge_y(sh, dir, i),
                    ) is None;
                assert(b.cell(edge_x(b, dir, i), edge_y(b, dir, i)) is None);
            }
            if has_empty_edge(b, dir) {
                let i = choose|i: int|
                    0 <= i < line_count(b, dir) && b.cell(
                        #[trigger] edge_x(b, dir, i),
                        edge_y(b, dir, i),
                    ) is None;
                assert(sh.cell(edge_x(sh, dir, i), edge_y(sh, dir, i)) is None);
            }
        }
    }
}

/// Two to the power `e`.
pub open spec fn pow2(e: nat) -> int
    decreases e,
{
    if e == 0 {
        1
    } else {
        2 * pow2((e - 1) as nat)
    }
}

/// Powers of two are positive.
pub proof fn lemma_pow2_pos(e: nat)
    ensures
        pow2(e) >= 1,
    decreases e,
{
    if e > 0 {
        lemma_pow2_pos((e - 1) as nat);
    }
}

/// Powers of two grow with the exponent.
pub proof fn lemma_pow2_mono(i: nat, j: nat)
    requires
        i <= j,
    ensures
        1 <= pow2(i) <= pow2(j),
    decreases j,
{
    lemma_pow2_pos(i);
    if i < j {
        lemma_pow2_mono(i, (j - 1) as nat);
    }
}


/// Two to the tile's exponent, computed by repeated doubling.
fn pow2_i32(e: u32) -> (r: i32)
    requires
        pow2(e as nat) <= i32::MAX,
    ensures
        r as int == pow2(e as nat),
        r >= 1,
{
    let mut r: i32 = 1;
    let mut i: u32 = 0;
    while i < e
        invariant
            i <= e,
            r as int == pow2(i as nat),
            pow2(e as nat) <= i32::MAX,
        decreases e - i,
    {
        proof {
            lemma_pow2_mono((i + 1) as nat, e as nat);
        }
        r = r * 2;
        i += 1;
    }
    proof {
        lemma_pow2_pos(e as nat);
    }
    r
}

/// The sum of the values of all tiles on the grid, each worth two to
/// its exponent.
pub open spec fn sum_tile_values(s: Seq<Option<u32>>) -> int
    decreases s.len(),
{
    if s.len() == 0 {
        0
    } else {
        (match s[0] {
            Some(e) => pow2(e as nat),
            None => 0int,
        }) + sum_tile_values(s.skip(1))
    }
}

/// Tile values are positive, so the sum never goes negative.
proof fn lemma_sum_nonneg(s: Seq<Option<u32>>)
    ensures
        sum_tile_values(s) >= 0,
    decreases s.len(),
{
    if s.len() > 0 {
        lemma_sum_nonneg(s.skip(1));
        if s[0] is Some {
            lemma_pow2_pos(s[0]->0 as nat);
        }
    }
}

/// The game score: the total tile value, minus one per occupied
/// cell, plus one.
pub open spec fn game_score(b: BoardView) -> int {
    sum_tile_values(b.cells) - count_occupied(b.cells) + 1
}

/// Whether some tile holds exactly exponent `e`.
pub open spec fn has_tile(b: BoardView, e: u32) -> bool {
    exists|i: int| 0 <= i < b.cells.len() && b.cells[i] == Some(e)
}

/// The decimal digit character for `n < 10`.
pub open spec fn dec_digit(n: nat) -> char {
    if n == 0 {
        '0'
    } else if n == 1 {
        '1'
    } else if n == 2 {
        '2'
    } else if n == 3 {
        '3'
    } else if n == 4 {
        '4'
    } else if n == 5 {
        '5'
    } else if n == 6 {
        '6'
    } else if n == 7 {
        '7'
    } else if n == 8 {
        '8'
    } else {
        '9'
    }
}

/// The decimal representation of `n`, most significant digit first.
pub open spec fn dec_str(n: nat) -> Seq<char>
    decreases n,
{
    if n < 10 {
        seq![dec_digit(n)]
    } else {
        dec_str(n / 10) + seq![dec_digit(n % 10)]
    }
}

/// Relies on u32::to_string: the decimal representation of `n`, most
/// significant digit first, with no sign and no leading zeros.
#[verifier::external_body]
fn u32_to_string(n: u32) -> (r: String)
    ensures
        r@ == dec_str(n as nat),
{
    n.to_string()
}

/// Relies on std::io::Write for std::io::Stdout: prints `s` as is.
#[verifier::external_body]
fn emit_text(s: &str) {
    let _ = write!(std::io::stdout(), "{}", s);
}

impl Cell {
    /// One character (or number) for a board dump: the exponent of an
    /// occupied cell, a star for an empty one.
    pub fn as_symbol(&self) -> (r: String)
        ensures
            self@ is Some ==> r@ == dec_str(self@->0 as nat),
            self@ is None ==> r@ == seq!['*'],
    {
        match self.score {
            Some(s) => u32_to_string(s),
            None => {
                let r = "*".to_owned();
                proof {
                    reveal_strlit("*");
                    assert(r@ =~= seq!['*']);
                }
                r
            }
        }
    }

    /// The tile's displayed value: two to its exponent in decimal,
    /// or the empty string for an empty cell.
    pub fn as_string(&self) -> (r: String)
        requires
            self@ is Some ==> pow2(self@->0 as nat) <= i32::MAX,
        ensures
            self@ is Some ==> r@ == dec_str(pow2(self@->0 as nat) as nat),
            self@ is None ==> r@ == Seq::<char>::empty(),
    {
        match self.score {
            Some(s) => {
                let v = pow2_i32(s);
                u32_to_string(v as u32)
            }
            None => String::new(),
        }
    }
}

/// A live game: the board, and the exponent a tile must reach to win.
#[derive(Debug)]
pub struct Game {
    score_target: u32,
    board: Board,
}

impl Game {
    pub closed spec fn board_view(&self) -> BoardView {
        self.board@
    }

    pub closed spec fn target(&self) -> u32 {
        self.score_target
    }

    /// A fresh game on the canonical empty 4-by-4 board, won when a
    /// tile reaches exponent 11 (value 2048).
    pub fn new() -> (g: Game)
        ensures
            g.board_view().wf(),
            g.board_view().width == 4,
            g.board_view().height == 4,
            forall|i: int| 0 <= i < 16 ==> g.board_view().cells[i] is None,
            g.target() == 11,
    {
        Game { score_target: 11, board: Board::new() }
    }

    pub fn get_board(&self) -> (b: &Board)
        ensures
            b@ == self.board_view(),
    {
        &self.board
    }

    pub fn get_mut_board(&mut self) -> (b: &mut Board)
        ensures
            b@ == old(self).board_view(),
            final(self).board_view() == final(b)@,
            final(self).target() == old(self).target(),
    {
        &mut self.board
    }

    /// One player move on the live board: shift along `dir`, then a
    /// random insertion; `false` signals a dead-end direction.
    pub fn step(&mut self, dir: Direction) -> (moved: bool)
        requires
            old(self).board_view().wf(),
            old(self).board_view().ok(),
            old(self).board_view().width > 0,
            old(self).board_view().height > 0,
        ensures
            final(self).target() == old(self).target(),
            moved == has_empty_edge(shifted(old(self).board_view(), dir), dir),
            moved ==> exists|i: int|
                0 <= i < line_count(old(self).board_view(), dir) && shifted(
                    old(self).board_view(),
                    dir,
                ).cell(
                    #[trigger] edge_x(old(self).board_view(), dir, i),
                    edge_y(old(self).board_view(), dir, i),
                ) is None && final(self).board_view() == with_tile(
                    shifted(old(self).board_view(), dir),
                    edge_x(old(self).board_view(), dir, i),
                    edge_y(old(self).board_view(), dir, i),
                    0,
                ),
            !moved ==> final(self).board_view() == shifted(old(self).board_view(), dir),
    {
        self.board.step(dir)
    }

    /// The current score.
    pub fn get_score(&self) -> (score: i32)
        requires
            sum_tile_values(self.board_view().cells) + 1 <= i32::MAX,
            self.board_view().cells.len() <= i32::MAX,
        ensures
            score as int == game_score(self.board_view()),
    {
        let data = self.board.board_data();
        let n = data.len();
        let ghost cs = self.board_view().cells;
        let mut score: i32 = 0;
        let mut cnt: i32 = 0;
        let mut i: usize = 0;
        proof {
            assert(cs.skip(0) =~= cs);
        }
        while i < n
            invariant
                n == cs.len(),
                data@.len() == n,
                forall|k: int| 0 <= k < n ==> data@[k]@ == cs[k],
                i <= n,
                n <= i32::MAX,
                0 <= cnt <= i,
                score >= 0,
                sum_tile_values(cs) + 1 <= i32::MAX,
                sum_tile_values(cs) == score + sum_tile_values(cs.skip(i as int)),
                count_occupied(cs) == cnt + count_occupied(cs.skip(i as int)),
            decreases n - i,
        {
            proof {
                assert(cs.skip(i as int)[0] == cs[i as int]);
                assert(cs.skip(i as int).skip(1) =~= cs.skip(i + 1));
                lemma_sum_nonneg(cs.skip(i + 1));
            }
            match data[i].get_score() {
                Some(e) => {
                    proof {
                        lemma_sum_nonneg(cs.skip(i as int));
                    }
                    let v = pow2_i32(e);
                    score = score + v;
                    cnt = cnt + 1;
                }
                None => {
                }
            }
            i += 1;
        }
        proof {
            assert(cs.skip(n as int) =~= Seq::<Option<u32>>::empty());
        }
        score - cnt + 1
    }

    /// Whether some tile has reached the winning exponent.
    pub fn has_won(&self) -> (won: bool)
        ensures
            won == has_tile(self.board_view(), self.target()),
    {
        let data = self.board.board_data();
        let n = data.len();
        let ghost cs = self.board_view().cells;
        let mut i: usize = 0;
        while i < n
            invariant
                cs == self.board_view().cells,
                n == cs.len(),
                data@.len() == n,
                forall|k: int| 0 <= k < n ==> data@[k]@ == cs[k],
                i <= n,
                forall|k: int| 0 <= k < i ==> cs[k] != Some(self.target()),
            decreases n - i,
        {
            match data[i].get_score() {
                Some(e) => {
                    if e == self.score_target {
                        proof {
                            assert(self.board_view().cells[i as int] == Some(self.target()));
                            assert(has_tile(self.board_view(), self.target()));
                        }
                        return true;
                    }
                }
                None => {
                }
            }
            i += 1;
        }
        false
    }

    /// Starts over on a fresh empty board.
    pub fn reset(&mut self)
        ensures
            final(self).board_view().wf(),
            final(self).board_view().width == 4,
            final(self).board_view().height == 4,
            forall|i: int| 0 <= i < 16 ==> final(self).board_view().cells[i] is None,
            final(self).target() == old(self).target(),
    {
        self.board = Board::new();
    }

    /// Dumps the board to standard output, one row per line.
    pub fn print_board(&self)
        requires
            self.board_view().wf(),
    {
        self.board.print_board();
    }
}

impl Board {
    /// Dumps the grid to standard output: each cell's exponent, or a
    /// star for an empty cell, one row per line.
    pub fn print_board(&self)
        requires
            self@.wf(),
    {
        let mut y: usize = 0;
        while y < self.height
            invariant
                self@.wf(),
            decreases self@.height - y,
        {
            let mut x: usize = 0;
            while x < self.width
                invariant
                    self@.wf(),
                    y < self@.height,
                decreases self@.width - x,
            {
                let s = self.get_cell(x, y).as_symbol();
                emit_text(s.as_str());
                x += 1;
            }
            emit_text("\n");
            y += 1;
        }
    }
}

} // verus!
