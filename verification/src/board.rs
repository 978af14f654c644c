//! The board: the grid of per-cell candidate sets, the undecided-cell
//! index, the per-line complexity cache and the dead-end blacklist,
//! and the propagation engine that drives them.
//!
//! The candidate sets, the undecided index and the complexity cache
//! are three views of the same underlying fact; every mutation goes
//! through one entry point that updates all three together.

use vstd::prelude::*;
use crate::allowed::allowed_char_intersection;
use crate::bytes::strictly_sorted;
use crate::errors::ContradictionError;
use crate::errors::PatternError;
use crate::errors::SolveError;
use crate::hints::CompiledHint;
use crate::hints::Hints;
use crate::hints::hint_is_match;
use crate::hints::match_answered;
use crate::hints::pattern_matches;

verus! {

/// A cell index within a row-major grid is in bounds.
proof fn lemma_grid_index(x: int, y: int, w: int, h: int)
    requires
        0 <= x < w,
        0 <= y < h,
    ensures
        0 <= y * w + x < w * h,
{
    assert(y * w + x < w * h) by (nonlinear_arith)
        requires
            0 <= x < w,
            0 <= y < h,
    ;
}

/// Two distinct in-bounds grid positions have distinct indices.
proof fn lemma_grid_index_injective(x1: int, y1: int, x2: int, y2: int, w: int)
    requires
        0 <= x1 < w,
        0 <= x2 < w,
        0 <= y1,
        0 <= y2,
        y1 * w + x1 == y2 * w + x2,
    ensures
        x1 == x2 && y1 == y2,
{
    assert(x1 == x2 && y1 == y2) by (nonlinear_arith)
        requires
            0 <= x1 < w,
            0 <= x2 < w,
            0 <= y1,
            0 <= y2,
            y1 * w + x1 == y2 * w + x2,
    ;
}

/// Saturating product: the heuristic complexity arithmetic. The value
/// orders search attempts only and never affects correctness.
pub open spec fn sat_mul(a: u64, b: u64) -> u64 {
    if a as int * b as int > u64::MAX as int {
        u64::MAX
    } else {
        (a as int * b as int) as u64
    }
}

/// Saturating product of two machine words.
fn sat_mul_exec(a: u64, b: u64) -> (r: u64)
    ensures
        r == sat_mul(a, b),
{
    match a.checked_mul(b) {
        Some(v) => v,
        None => u64::MAX,
    }
}

/// The complexity of a row: the saturating product of the candidate-set
/// sizes of its first `upto` cells.
pub open spec fn row_product(cells: Seq<Vec<u8>>, w: int, y: int, upto: int) -> u64
    decreases upto,
{
    if upto <= 0 {
        1u64
    } else {
        sat_mul(row_product(cells, w, y, upto - 1), cells[y * w + (upto - 1)]@.len() as u64)
    }
}

/// The complexity of a column: the saturating product of the
/// candidate-set sizes of its first `upto` cells.
pub open spec fn col_product(cells: Seq<Vec<u8>>, w: int, x: int, upto: int) -> u64
    decreases upto,
{
    if upto <= 0 {
        1u64
    } else {
        sat_mul(col_product(cells, w, x, upto - 1), cells[(upto - 1) * w + x]@.len() as u64)
    }
}

/// A row product reads only the row's cells.
proof fn lemma_row_product_congruence(c1: Seq<Vec<u8>>, c2: Seq<Vec<u8>>, w: int, y: int, upto: int)
    requires
        forall|x: int| 0 <= x < upto ==> c1[y * w + x]@.len() == (#[trigger] c2[y * w + x])@.len(),
    ensures
        row_product(c1, w, y, upto) == row_product(c2, w, y, upto),
    decreases upto,
{
    if upto > 0 {
        lemma_row_product_congruence(c1, c2, w, y, upto - 1);
    }
}

/// A column product reads only the column's cells.
proof fn lemma_col_product_congruence(c1: Seq<Vec<u8>>, c2: Seq<Vec<u8>>, w: int, x: int, upto: int)
    requires
        forall|y: int| 0 <= y < upto ==> c1[y * w + x]@.len() == (#[trigger] c2[y * w + x])@.len(),
    ensures
        col_product(c1, w, x, upto) == col_product(c2, w, x, upto),
    decreases upto,
{
    if upto > 0 {
        lemma_col_product_congruence(c1, c2, w, x, upto - 1);
    }
}

/// The saturating product of the candidate-set sizes of a line's first
/// `upto` cells: what the complexity heuristic of a row or column
/// means.
pub open spec fn line_product(line: Seq<Seq<u8>>, upto: int) -> u64
    decreases upto,
{
    if upto <= 0 {
        1u64
    } else {
        sat_mul(line_product(line, upto - 1), line[upto - 1].len() as u64)
    }
}

/// A row's cached product is the line product of its candidate sets.
proof fn lemma_row_product_as_line(cells: Seq<Vec<u8>>, line: Seq<Seq<u8>>, w: int, y: int, k: int)
    requires
        forall|x: int| 0 <= x < k ==> (#[trigger] line[x]) == cells[y * w + x]@,
    ensures
        row_product(cells, w, y, k) == line_product(line, k),
    decreases k,
{
    if k > 0 {
        lemma_row_product_as_line(cells, line, w, y, k - 1);
    }
}

/// A column's cached product is the line product of its candidate sets.
proof fn lemma_col_product_as_line(cells: Seq<Vec<u8>>, line: Seq<Seq<u8>>, w: int, x: int, k: int)
    requires
        forall|y: int| 0 <= y < k ==> (#[trigger] line[y]) == cells[y * w + x]@,
    ensures
        col_product(cells, w, x, k) == line_product(line, k),
    decreases k,
{
    if k > 0 {
        lemma_col_product_as_line(cells, line, w, x, k - 1);
    }
}

/// The total number of candidates left on a grid: the solver's
/// progress measure.
pub open spec fn sum_lens(cells: Seq<Vec<u8>>) -> nat
    decreases cells.len(),
{
    if cells.len() == 0 {
        0
    } else {
        sum_lens(cells.drop_last()) + cells.last()@.len()
    }
}

/// Replacing one cell changes the total candidate count by exactly the
/// size difference.
proof fn lemma_sum_lens_update(cells: Seq<Vec<u8>>, i: int, v: Vec<u8>)
    requires
        0 <= i < cells.len(),
    ensures
        sum_lens(cells.update(i, v)) + cells[i]@.len() == sum_lens(cells) + v@.len(),
    decreases cells.len(),
{
    let upd = cells.update(i, v);
    if i == cells.len() - 1 {
        assert(upd.drop_last() =~= cells.drop_last());
        assert(upd.last() == v);
    } else {
        assert(upd.drop_last() =~= cells.drop_last().update(i, v));
        assert(upd.last() == cells.last());
        lemma_sum_lens_update(cells.drop_last(), i, v);
    }
}

/// The strict order on blacklist entries: column targets after row
/// targets, then by x, then by y.
pub open spec fn target_lt(a: (bool, usize, usize), b: (bool, usize, usize)) -> bool {
    ||| (!a.0 && b.0)
    ||| (a.0 == b.0 && a.1 < b.1)
    ||| (a.0 == b.0 && a.1 == b.1 && a.2 < b.2)
}

/// A numeric encoding of a blacklist entry, strictly monotone in
/// [`target_lt`] for in-range entries.
pub open spec fn target_enc(t: (bool, usize, usize), w: int, h: int) -> int {
    (if t.0 {
        w * h
    } else {
        0
    }) + t.1 * h + t.2
}

/// The encoding respects the entry order.
proof fn lemma_target_enc_lt(a: (bool, usize, usize), b: (bool, usize, usize), w: int, h: int)
    requires
        target_lt(a, b),
        a.1 < w,
        a.2 < h,
        b.1 < w,
        b.2 < h,
    ensures
        target_enc(a, w, h) < target_enc(b, w, h),
{
    assert(a.1 * h + a.2 < w * h) by (nonlinear_arith)
        requires
            a.1 < w,
            a.2 < h,
            0 <= a.1,
            0 <= a.2,
    ;
    assert(b.1 * h + b.2 < w * h) by (nonlinear_arith)
        requires
            b.1 < w,
            b.2 < h,
            0 <= b.1,
            0 <= b.2,
    ;
    if a.0 == b.0 {
        if a.1 < b.1 {
            assert(a.1 * h + a.2 < b.1 * h + b.2) by (nonlinear_arith)
                requires
                    a.1 < b.1,
                    0 <= a.2 < h,
                    0 <= b.2,
            ;
        }
    }
}

/// The encoding stays below twice the grid size.
proof fn lemma_target_enc_range(t: (bool, usize, usize), w: int, h: int)
    requires
        t.1 < w,
        t.2 < h,
        0 <= w,
        0 <= h,
    ensures
        0 <= target_enc(t, w, h) < 2 * w * h,
{
    assert(t.1 * h + t.2 < w * h) by (nonlinear_arith)
        requires
            t.1 < w,
            t.2 < h,
            0 <= t.1,
            0 <= t.2,
    ;
    assert(t.1 * h + t.2 >= 0) by (nonlinear_arith)
        requires
            0 <= t.1,
            0 <= t.2,
            0 <= h,
    ;
    assert(w * h >= 0) by (nonlinear_arith)
        requires
            0 <= w,
            0 <= h,
    ;
    assert(2 * w * h == w * h + w * h) by (nonlinear_arith);
}

/// In a strictly ordered blacklist every entry's encoding is at least
/// its position.
proof fn lemma_blacklist_index_lb(bl: Seq<(bool, usize, usize)>, w: int, h: int, k: int)
    requires
        0 <= w,
        0 <= h,
        0 <= k < bl.len(),
        forall|j1: int, j2: int| 0 <= j1 < j2 < bl.len() ==> target_lt(#[trigger] bl[j1], #[trigger] bl[j2]),
        forall|j: int| 0 <= j < bl.len() ==> (#[trigger] bl[j]).1 < w && bl[j].2 < h,
    ensures
        target_enc(bl[k], w, h) >= k,
    decreases k,
{
    lemma_target_enc_range(bl[k], w, h);
    if k > 0 {
        lemma_blacklist_index_lb(bl, w, h, k - 1);
        lemma_target_enc_lt(bl[k - 1], bl[k], w, h);
    }
}

/// A strictly ordered blacklist of in-range entries holds at most two
/// entries per cell.
proof fn lemma_blacklist_len(bl: Seq<(bool, usize, usize)>, w: int, h: int)
    requires
        0 <= w,
        0 <= h,
        forall|j1: int, j2: int| 0 <= j1 < j2 < bl.len() ==> target_lt(#[trigger] bl[j1], #[trigger] bl[j2]),
        forall|j: int| 0 <= j < bl.len() ==> (#[trigger] bl[j]).1 < w && bl[j].2 < h,
    ensures
        bl.len() <= 2 * w * h,
{
    if bl.len() > 2 * w * h {
        let k = 2 * w * h;
        lemma_blacklist_index_lb(bl, w, h, k);
        lemma_target_enc_range(bl[k], w, h);
        assert(false);
    }
}

/// One refinement target under consideration: the row (or column) of
/// the pivot cell (x, y), carrying that line's cached complexity and
/// the pivot's position in the undecided list.
struct Choice {
    complexity: u64,
    is_column: bool,
    index: usize,
    x: usize,
    y: usize,
}

/// The board: per-cell candidate sets with their derived state.
pub struct Board {
    width: usize,
    height: usize,
    /// Row-major candidate sets: the cell (x, y) is at `x + y * width`.
    cells: Vec<Vec<u8>>,
    /// The (x, y) of every cell with more than one candidate.
    undecided: Vec<(usize, usize)>,
    /// Per row, the saturating product of its candidate-set sizes.
    row_complexity: Vec<u64>,
    /// Per column, the saturating product of its candidate-set sizes.
    col_complexity: Vec<u64>,
    /// Refinement targets known, since the last board-wide change, to
    /// yield no pruning; kept sorted by [`target_lt`].
    blacklist: Vec<(bool, usize, usize)>,
}

impl Board {
    /// The board's width.
    pub closed spec fn spec_width(&self) -> int {
        self.width as int
    }

    /// The board's height.
    pub closed spec fn spec_height(&self) -> int {
        self.height as int
    }

    /// The candidate set of the cell (x, y).
    pub closed spec fn cell(&self, x: int, y: int) -> Seq<u8> {
        self.cells@[y * self.spec_width() + x]@
    }

    /// The candidate sets of row y, in column order.
    pub closed spec fn row_of(&self, y: int) -> Seq<Seq<u8>> {
        Seq::new(self.width as nat, |x: int| self.cells@[y * self.spec_width() + x]@)
    }

    /// The candidate sets of column x, in row order.
    pub closed spec fn col_of(&self, x: int) -> Seq<Seq<u8>> {
        Seq::new(self.height as nat, |y: int| self.cells@[y * self.spec_width() + x]@)
    }

    /// Whether a refinement target is currently blacklisted.
    pub closed spec fn blacklisted(&self, t: (bool, usize, usize)) -> bool {
        self.blacklist@.contains(t)
    }

    /// How many targets are currently blacklisted.
    pub closed spec fn spec_blacklist_len(&self) -> int {
        self.blacklist@.len() as int
    }

    /// The cached complexity of a target: the saturating product of
    /// the candidate-set sizes over the target's line.
    pub closed spec fn target_complexity(&self, t: (bool, usize, usize)) -> u64 {
        if t.0 {
            self.col_complexity@[t.1 as int]
        } else {
            self.row_complexity@[t.2 as int]
        }
    }

    /// The total number of candidates left on the board.
    pub closed spec fn total_candidates(&self) -> nat {
        sum_lens(self.cells@)
    }

    /// A target is eligible when its pivot is undecided and it is not
    /// blacklisted.
    pub open spec fn eligible(&self, t: (bool, usize, usize)) -> bool {
        &&& 0 <= t.1 < self.spec_width()
        &&& 0 <= t.2 < self.spec_height()
        &&& self.cell(t.1 as int, t.2 as int).len() > 1
        &&& !self.blacklisted(t)
    }

    /// The search is exhausted when every target of every undecided
    /// cell is blacklisted.
    pub open spec fn exhausted(&self) -> bool {
        forall|x: int, y: int|
            0 <= x < self.spec_width() && 0 <= y < self.spec_height() && (#[trigger] self.cell(
                x,
                y,
            )).len() > 1 ==> self.blacklisted((false, x as usize, y as usize)) && self.blacklisted(
                (true, x as usize, y as usize),
            )
    }

    /// Well-formedness: the three derived views (undecided index,
    /// complexity cache, blacklist) agree with the grid.
    pub closed spec fn inv(&self) -> bool {
        let w = self.width as int;
        let h = self.height as int;
        &&& w * h == self.cells@.len()
        &&& self.cells@.len() <= usize::MAX
        &&& 2 * w * h < usize::MAX
        &&& forall|i: int| 0 <= i < self.cells@.len() ==> strictly_sorted(
            (#[trigger] self.cells@[i])@,
        )
        &&& forall|i: int| 0 <= i < self.cells@.len() ==> (#[trigger] self.cells@[i])@.len() >= 1
        &&& forall|i: int, k: int| 0 <= i < self.cells@.len() && 0 <= k < self.cells@[i]@.len()
            ==> 0x20 <= (#[trigger] self.cells@[i]@[k]) && self.cells@[i]@[k] <= 0x7E
        &&& forall|j: int| 0 <= j < self.undecided@.len() ==> (#[trigger] self.undecided@[j]).0
            < self.width && self.undecided@[j].1 < self.height && self.cells@[
            self.undecided@[j].1 as int * w + self.undecided@[j].0 as int]@.len() > 1
        &&& forall|x: int, y: int| 0 <= x < w && 0 <= y < h && (#[trigger] self.cells@[y * w + x])@.len() > 1
            ==> self.undecided@.contains((x as usize, y as usize))
        &&& self.undecided@.no_duplicates()
        &&& self.row_complexity@.len() == h
        &&& self.col_complexity@.len() == w
        &&& forall|y: int| 0 <= y < h ==> (#[trigger] self.row_complexity@[y]) == row_product(
            self.cells@,
            w,
            y,
            w,
        )
        &&& forall|x: int| 0 <= x < w ==> (#[trigger] self.col_complexity@[x]) == col_product(
            self.cells@,
            w,
            x,
            h,
        )
        &&& forall|j1: int, j2: int| 0 <= j1 < j2 < self.blacklist@.len() ==> target_lt(
            #[trigger] self.blacklist@[j1],
            #[trigger] self.blacklist@[j2],
        )
        &&& forall|j: int| 0 <= j < self.blacklist@.len() ==> (#[trigger] self.blacklist@[j]).1
            < self.width && self.blacklist@[j].2 < self.height
    }

    /// The board's width.
    pub fn width(&self) -> (r: usize)
        ensures
            r as int == self.spec_width(),
    {
        self.width
    }

    /// The board's height.
    pub fn height(&self) -> (r: usize)
        ensures
            r as int == self.spec_height(),
    {
        self.height
    }

    /// The candidate set of the cell (x, y).
    pub fn allowed_chars(&self, x: usize, y: usize) -> (r: &Vec<u8>)
        requires
            self.inv(),
            x < self.spec_width(),
            y < self.spec_height(),
        ensures
            r@ == self.cell(x as int, y as int),
    {
        proof {
            lemma_grid_index(x as int, y as int, self.width as int, self.height as int);
        }
        &self.cells[x + y * self.width]
    }

    /// The candidate sets of row y and column x are the board's cells.
    pub proof fn lemma_line_views(&self, x: int, y: int)
        requires
            0 <= x < self.spec_width(),
            0 <= y < self.spec_height(),
        ensures
            self.row_of(y).len() == self.spec_width(),
            self.col_of(x).len() == self.spec_height(),
            self.row_of(y)[x] == self.cell(x, y),
            self.col_of(x)[y] == self.cell(x, y),
    {
    }

    /// The cached (row, column) complexity of the cell (x, y): the
    /// saturating product of the candidate-set sizes over the whole
    /// row, and over the whole column.
    pub fn tree_complexity(&self, x: usize, y: usize) -> (r: (u64, u64))
        requires
            self.inv(),
            x < self.spec_width(),
            y < self.spec_height(),
        ensures
            r.0 == self.target_complexity((false, x, y)),
            r.1 == self.target_complexity((true, x, y)),
            r.0 == line_product(self.row_of(y as int), self.spec_width()),
            r.1 == line_product(self.col_of(x as int), self.spec_height()),
    {
        proof {
            lemma_row_product_as_line(
                self.cells@,
                self.row_of(y as int),
                self.spec_width(),
                y as int,
                self.spec_width(),
            );
            lemma_col_product_as_line(
                self.cells@,
                self.col_of(x as int),
                self.spec_width(),
                x as int,
                self.spec_height(),
            );
        }
        (self.row_complexity[y], self.col_complexity[x])
    }

    /// Whether any cell still has more than one candidate.
    pub fn still_undecided(&self) -> (r: bool)
        requires
            self.inv(),
        ensures
            r == exists|x: int, y: int|
                0 <= x < self.spec_width() && 0 <= y < self.spec_height() && (#[trigger] self.cell(
                    x,
                    y,
                )).len() > 1,
    {
        let r = self.undecided.len() > 0;
        proof {
            if r {
                let t = self.undecided@[0];
                assert(self.cell(t.0 as int, t.1 as int).len() > 1);
            } else {
                assert forall|x: int, y: int|
                    0 <= x < self.spec_width() && 0 <= y < self.spec_height()
                    implies !((#[trigger] self.cell(x, y)).len() > 1) by {
                    if self.cell(x, y).len() > 1 {
                        assert(self.undecided@.contains((x as usize, y as usize)));
                    }
                }
            }
        }
        r
    }

    /// Build a board from per-row and per-column allowed sets: each
    /// cell starts with the intersection of its row's and its column's
    /// set. An empty intersection is an immediate contradiction,
    /// reported with the offending coordinates and both contributing
    /// sets.
    #[verifier::loop_isolation(false)]
    #[verifier::rlimit(100)]
    pub fn new(
        width: usize,
        height: usize,
        row_allowed_chars: &Vec<Vec<u8>>,
        col_allowed_chars: &Vec<Vec<u8>>,
    ) -> (r: Result<Board, SolveError>)
        requires
            row_allowed_chars@.len() == height,
            col_allowed_chars@.len() == width,
            forall|i: int| 0 <= i < height ==> strictly_sorted(
                (#[trigger] row_allowed_chars@[i])@,
            ),
            forall|i: int| 0 <= i < width ==> strictly_sorted((#[trigger] col_allowed_chars@[i])@),
            forall|i: int, k: int| 0 <= i < height && 0 <= k < row_allowed_chars@[i]@.len()
                ==> 0x20 <= (#[trigger] row_allowed_chars@[i]@[k]) && row_allowed_chars@[i]@[k]
                <= 0x7E,
            width as int * height as int <= usize::MAX,
            2 * (width as int) * (height as int) < usize::MAX,
        ensures
            r matches Ok(b) ==> {
                &&& b.inv()
                &&& b.spec_width() == width
                &&& b.spec_height() == height
                &&& b.spec_blacklist_len() == 0
                &&& forall|x: int, y: int| 0 <= x < width && 0 <= y < height ==> (#[trigger] b.cell(
                    x,
                    y,
                )).to_set() == row_allowed_chars@[y]@.to_set().intersect(
                    col_allowed_chars@[x]@.to_set(),
                )
                &&& forall|x: int, y: int| 0 <= x < width && 0 <= y < height
                    ==> strictly_sorted(#[trigger] b.cell(x, y))
            },
            r matches Err(e) ==> e matches SolveError::Contradiction(
                ContradictionError::EmptyIntersection { x, y, row_allowed, col_allowed },
            ) && x < width && y < height && row_allowed@ == row_allowed_chars@[y as int]@
                && col_allowed@ == col_allowed_chars@[x as int]@ && row_allowed_chars@[
            y as int]@.to_set().intersect(col_allowed_chars@[x as int]@.to_set()) =~= Set::empty(),
            r is Err <==> exists|x: int, y: int|
                0 <= x < width && 0 <= y < height && (#[trigger] row_allowed_chars@[y]@.to_set().intersect(
                    col_allowed_chars@[x]@.to_set())) =~= Set::empty(),
    {
        let mut cells: Vec<Vec<u8>> = Vec::new();
        let mut undecided: Vec<(usize, usize)> = Vec::new();
        proof {
            assert(0int * (width as int) == 0) by (nonlinear_arith);
        }
        for y in 0..height
            invariant
                cells@.len() == y * width as int,
                forall|i: int| 0 <= i < cells@.len() ==> strictly_sorted((#[trigger] cells@[i])@),
                forall|i: int| 0 <= i < cells@.len() ==> (#[trigger] cells@[i])@.len() >= 1,
                forall|i: int, k: int| 0 <= i < cells@.len() && 0 <= k < cells@[i]@.len()
                    ==> 0x20 <= (#[trigger] cells@[i]@[k]) && cells@[i]@[k] <= 0x7E,
                forall|x2: int, y2: int| 0 <= x2 < width && 0 <= y2 < y ==> (#[trigger] cells@[
                    y2 * width as int + x2])@.to_set() == row_allowed_chars@[y2]@.to_set().intersect(
                    col_allowed_chars@[x2]@.to_set()),
                forall|x2: int, y2: int| 0 <= x2 < width && 0 <= y2 < y
                    ==> !((#[trigger] row_allowed_chars@[y2]@.to_set().intersect(
                        col_allowed_chars@[x2]@.to_set())) =~= Set::empty()),
                forall|j: int| 0 <= j < undecided@.len() ==> (#[trigger] undecided@[j]).0 < width
                    && undecided@[j].1 < height && undecided@[j].1 * width as int + undecided@[j].0
                    < cells@.len() && cells@[undecided@[j].1 as int * width as int
                    + undecided@[j].0 as int]@.len() > 1,
                forall|x2: int, y2: int| 0 <= x2 < width && 0 <= y2 < y && (#[trigger] cells@[
                    y2 * width as int + x2])@.len() > 1 ==> undecided@.contains(
                    (x2 as usize, y2 as usize)),
                forall|j1: int, j2: int| 0 <= j1 < j2 < undecided@.len()
                    ==> (#[trigger] undecided@[j1]).1 as int * width as int + undecided@[j1].0
                    < (#[trigger] undecided@[j2]).1 as int * width as int + undecided@[j2].0,
        {
            for x in 0..width
                invariant
                    cells@.len() == y * width as int + x,
                    forall|i: int| 0 <= i < cells@.len() ==> strictly_sorted(
                        (#[trigger] cells@[i])@,
                    ),
                    forall|i: int| 0 <= i < cells@.len() ==> (#[trigger] cells@[i])@.len() >= 1,
                    forall|i: int, k: int| 0 <= i < cells@.len() && 0 <= k < cells@[i]@.len()
                        ==> 0x20 <= (#[trigger] cells@[i]@[k]) && cells@[i]@[k] <= 0x7E,
                    forall|x2: int, y2: int| 0 <= x2 < width && 0 <= y2 < y ==> (#[trigger] cells@[
                        y2 * width as int + x2])@.to_set()
                        == row_allowed_chars@[y2]@.to_set().intersect(
                        col_allowed_chars@[x2]@.to_set()),
                    forall|x2: int| 0 <= x2 < x ==> (#[trigger] cells@[y * width as int
                        + x2])@.to_set() == row_allowed_chars@[y as int]@.to_set().intersect(
                        col_allowed_chars@[x2]@.to_set()),
                    forall|x2: int, y2: int| 0 <= x2 < width && 0 <= y2 < y
                        ==> !((#[trigger] row_allowed_chars@[y2]@.to_set().intersect(
                            col_allowed_chars@[x2]@.to_set())) =~= Set::empty()),
                    forall|x2: int| 0 <= x2 < x
                        ==> !((#[trigger] row_allowed_chars@[y as int]@.to_set().intersect(
                            col_allowed_chars@[x2]@.to_set())) =~= Set::empty()),
                    forall|j: int| 0 <= j < undecided@.len() ==> (#[trigger] undecided@[j]).0
                        < width && undecided@[j].1 < height && undecided@[j].1 * width as int
                        + undecided@[j].0 < cells@.len() && cells@[undecided@[j].1 as int
                        * width as int + undecided@[j].0 as int]@.len() > 1,
                    forall|x2: int, y2: int| 0 <= x2 < width && 0 <= y2 < y && (#[trigger] cells@[
                        y2 * width as int + x2])@.len() > 1 ==> undecided@.contains(
                        (x2 as usize, y2 as usize)),
                    forall|x2: int| 0 <= x2 < x && (#[trigger] cells@[y * width as int
                        + x2])@.len() > 1 ==> undecided@.contains((x2 as usize, y as usize)),
                    forall|j1: int, j2: int| 0 <= j1 < j2 < undecided@.len()
                        ==> (#[trigger] undecided@[j1]).1 as int * width as int + undecided@[j1].0
                        < (#[trigger] undecided@[j2]).1 as int * width as int + undecided@[j2].0,
            {
                proof {
                    lemma_grid_index(x as int, y as int, width as int, height as int);
                }
                let ghost pre_und = undecided@;
                let allowed = allowed_char_intersection(
                    row_allowed_chars[y].as_slice(),
                    col_allowed_chars[x].as_slice(),
                );
                if allowed.len() == 0 {
                    proof {
                        assert(allowed@.to_set() =~= Set::empty());
                    }
                    let row_copy = crate::allowed::copy_bytes(row_allowed_chars[y].as_slice());
                    let col_copy = crate::allowed::copy_bytes(col_allowed_chars[x].as_slice());
                    return Err(SolveError::Contradiction(ContradictionError::EmptyIntersection {
                        x,
                        y,
                        row_allowed: row_copy,
                        col_allowed: col_copy,
                    }));
                }
                if allowed.len() > 1 {
                    undecided.push((x, y));
                }
                proof {
                    assert forall|e: (usize, usize)| pre_und.contains(e)
                        implies undecided@.contains(e) by {
                        let j = choose|j: int| 0 <= j < pre_und.len() && pre_und[j] == e;
                        assert(undecided@[j] == e);
                    }
                    if allowed@.len() > 1 {
                        assert(undecided@[undecided@.len() - 1] == (x, y));
                        assert(undecided@.contains((x, y)));
                    }
                    if allowed@.to_set() =~= Set::empty() {
                        assert(allowed@.to_set().contains(allowed@[0]));
                        assert(false);
                    }
                    assert forall|x2: int, y2: int| 0 <= x2 < width && 0 <= y2 < y
                        implies #[trigger] (y2 * (width as int) + x2) < (y as int) * (
                    width as int) + x by {
                        assert(y2 * (width as int) + x2 < (y as int) * (width as int) + x)
                            by (nonlinear_arith)
                            requires
                                0 <= x2 < width as int,
                                0 <= y2 < y as int,
                                0 <= x,
                        ;
                    }
                    assert forall|k: int| 0 <= k < allowed@.len()
                        implies 0x20 <= #[trigger] allowed@[k] && allowed@[k] <= 0x7E by {
                        assert(allowed@.to_set().contains(allowed@[k]));
                        assert(row_allowed_chars@[y as int]@.to_set().contains(allowed@[k]));
                        let m = choose|m: int| 0 <= m < row_allowed_chars@[y as int]@.len()
                            && row_allowed_chars@[y as int]@[m] == allowed@[k];
                        assert(0x20 <= row_allowed_chars@[y as int]@[m]);
                    }
                }
                cells.push(allowed);
            }
            proof {
                assert((y as int + 1) * (width as int) == (y as int) * (width as int)
                    + (width as int)) by (nonlinear_arith);
            }
        }
        let ghost gcells = cells@;
        proof {
            assert((width as int) * (height as int) == (height as int) * (width as int))
                by (nonlinear_arith);
            assert forall|x: int, y: int| 0 <= x < width && 0 <= y < height
                implies 0 <= #[trigger] (y * width as int + x) < gcells.len() by {
                lemma_grid_index(x, y, width as int, height as int);
            }
        }
        let mut row_complexity: Vec<u64> = Vec::new();
        for y in 0..height
            invariant
                cells@ == gcells,
                row_complexity@.len() == y,
                forall|y2: int| 0 <= y2 < y ==> (#[trigger] row_complexity@[y2]) == row_product(
                    gcells,
                    width as int,
                    y2,
                    width as int,
                ),
        {
            let mut p: u64 = 1;
            for x in 0..width
                invariant
                    cells@ == gcells,
                    p == row_product(gcells, width as int, y as int, x as int),
            {
                proof {
                    lemma_grid_index(x as int, y as int, width as int, height as int);
                }
                p = sat_mul_exec(p, cells[x + y * width].len() as u64);
            }
            row_complexity.push(p);
        }
        let mut col_complexity: Vec<u64> = Vec::new();
        for x in 0..width
            invariant
                cells@ == gcells,
                col_complexity@.len() == x,
                forall|x2: int| 0 <= x2 < x ==> (#[trigger] col_complexity@[x2]) == col_product(
                    gcells,
                    width as int,
                    x2,
                    height as int,
                ),
        {
            let mut p: u64 = 1;
            for y in 0..height
                invariant
                    cells@ == gcells,
                    p == col_product(gcells, width as int, x as int, y as int),
            {
                proof {
                    lemma_grid_index(x as int, y as int, width as int, height as int);
                }
                p = sat_mul_exec(p, cells[x + y * width].len() as u64);
            }
            col_complexity.push(p);
        }
        let board = Board {
            width,
            height,
            cells,
            undecided,
            row_complexity,
            col_complexity,
            blacklist: Vec::new(),
        };
        proof {
            assert forall|j1: int, j2: int|
                0 <= j1 < board.undecided@.len() && 0 <= j2 < board.undecided@.len() && j1 != j2
                implies board.undecided@[j1] != board.undecided@[j2] by {
                if j1 < j2 {
                    assert((board.undecided@[j1].1 as int) * (width as int)
                        + board.undecided@[j1].0 < (board.undecided@[j2].1 as int) * (width as int)
                        + board.undecided@[j2].0);
                } else {
                    assert((board.undecided@[j2].1 as int) * (width as int)
                        + board.undecided@[j2].0 < (board.undecided@[j1].1 as int) * (width as int)
                        + board.undecided@[j1].0);
                }
            }
        }
        Ok(board)
    }
}

/// Whether one line assignment satisfies an optional hint.
pub open spec fn hint_ok(h: Option<CompiledHint>, line: Seq<u8>) -> bool {
    match h {
        Option::Some(c) => pattern_matches(c.spec_pattern(), line),
        Option::None => true,
    }
}

/// Whether one optional hint gets a definite engine answer on a line.
pub open spec fn hint_answered(h: Option<CompiledHint>, w: Seq<u8>) -> bool {
    match h {
        Option::Some(c) => match_answered(c.spec_pattern(), w),
        Option::None => true,
    }
}

/// Whether the engine answers both of a line's hints on every
/// printable line text of the given length: then a feasibility pass
/// over that line cannot fail.
pub open spec fn line_answered(ha: Option<CompiledHint>, hb: Option<CompiledHint>, n: int) -> bool {
    forall|w: Seq<u8>|
        w.len() == n && (forall|k: int| 0 <= k < n ==> 0x20 <= #[trigger] w[k] && w[k] <= 0x7E)
            ==> (#[trigger] hint_answered(ha, w)) && hint_answered(hb, w)
}

/// The spec-level option behind an optional hint reference.
pub open spec fn deref_opt_hint(h: Option<&CompiledHint>) -> Option<CompiledHint> {
    match h {
        Option::Some(x) => Option::Some(*x),
        Option::None => Option::None,
    }
}

/// The candidate sets of a line, as plain sequences.
pub open spec fn views_of(line: Seq<Vec<u8>>) -> Seq<Seq<u8>> {
    Seq::new(line.len(), |i: int| line[i]@)
}

/// An assignment `w` extends the enumeration state of a line check: it
/// agrees with the already-fixed prefix, holds `c` at the pivot, keeps
/// every decided cell at its single candidate, and draws every
/// position not yet fixed from that cell's own candidates.
pub open spec fn extends_from(
    w: Seq<u8>,
    line: Seq<Seq<u8>>,
    pivot: int,
    c: u8,
    prefix: Seq<u8>,
    idx: int,
) -> bool {
    &&& w.len() == line.len()
    &&& w[pivot] == c
    &&& forall|i: int| 0 <= i < idx && i != pivot ==> w[i] == prefix[i]
    &&& forall|i: int| 0 <= i < line.len() && i != pivot && (#[trigger] line[i]).len() == 1
        ==> w[i] == line[i][0]
    &&& forall|i: int| idx <= i < line.len() && i != pivot ==> (#[trigger] line[i]).contains(w[i])
}

/// Whether some assignment extending the enumeration state satisfies
/// both of the line's hints.
pub open spec fn feasible_from(
    line: Seq<Seq<u8>>,
    pivot: int,
    c: u8,
    prefix: Seq<u8>,
    idx: int,
    ha: Option<CompiledHint>,
    hb: Option<CompiledHint>,
) -> bool {
    exists|w: Seq<u8>|
        extends_from(w, line, pivot, c, prefix, idx) && hint_ok(ha, w) && hint_ok(hb, w)
}

/// Whether fixing the pivot cell of a line to the byte `c` leaves some
/// assignment of the line's other cells that satisfies the line's
/// hints: a decided cell keeps its single candidate, every other cell
/// ranges over its own candidates. This check considers exactly one
/// line; it never consults the orthogonal lines.
pub open spec fn line_feasible(
    line: Seq<Seq<u8>>,
    pivot: int,
    c: u8,
    ha: Option<CompiledHint>,
    hb: Option<CompiledHint>,
) -> bool {
    feasible_from(line, pivot, c, Seq::empty(), 0, ha, hb)
}

/// Depth-first enumeration of a line's open positions from `idx` on:
/// decides whether any completion of the current buffer satisfies both
/// hints, asking the external matcher once per full assignment.
#[verifier::loop_isolation(false)]
fn search_line(
    line: &Vec<Vec<u8>>,
    pivot: usize,
    c: u8,
    buf: &mut Vec<u8>,
    idx: usize,
    ha: Option<&CompiledHint>,
    hb: Option<&CompiledHint>,
) -> (r: Result<bool, SolveError>)
    requires
        pivot < line@.len(),
        idx <= line@.len(),
        old(buf)@.len() == line@.len(),
        old(buf)@[pivot as int] == c,
        0x20 <= c && c <= 0x7E,
        forall|i: int, k: int| 0 <= i < line@.len() && 0 <= k < line@[i]@.len()
            ==> 0x20 <= (#[trigger] line@[i]@[k]) && line@[i]@[k] <= 0x7E,
        forall|i: int| 0 <= i < line@.len() ==> (#[trigger] line@[i])@.len() >= 1,
        forall|i: int| 0 <= i < line@.len() && i != pivot && (#[trigger] line@[i])@.len() == 1
            ==> old(buf)@[i] == line@[i]@[0],
        forall|i: int| 0 <= i < idx && i != pivot ==> (#[trigger] line@[i])@.contains(old(buf)@[i]),
    ensures
        final(buf)@.len() == line@.len(),
        final(buf)@[pivot as int] == c,
        forall|i: int| 0 <= i < idx ==> final(buf)@[i] == old(buf)@[i],
        forall|i: int| 0 <= i < line@.len() && i != pivot && (#[trigger] line@[i])@.len() == 1
            ==> final(buf)@[i] == line@[i]@[0],
        r matches Ok(b) ==> (b <==> feasible_from(
            views_of(line@),
            pivot as int,
            c,
            old(buf)@.take(idx as int),
            idx as int,
            deref_opt_hint(ha),
            deref_opt_hint(hb),
        )),
        r is Err ==> r == Err::<bool, SolveError>(SolveError::Pattern(PatternError::MatchFailed)),
        r is Err ==> ha is Some || hb is Some,
        r is Err ==> !line_answered(deref_opt_hint(ha), deref_opt_hint(hb), line@.len() as int),
    decreases line@.len() - idx,
{
    let ghost dha = deref_opt_hint(ha);
    let ghost dhb = deref_opt_hint(hb);
    if idx == line.len() {
        proof {
            assert forall|w: Seq<u8>|
                extends_from(w, views_of(line@), pivot as int, c, buf@.take(idx as int), idx as int)
                implies w =~= buf@ by {
                assert forall|i: int| 0 <= i < w.len() implies w[i] == buf@[i] by {
                    if i != pivot {
                        assert(w[i] == buf@.take(idx as int)[i]);
                    }
                }
            }
            assert forall|k: int| 0 <= k < buf@.len()
                implies 0x20 <= #[trigger] buf@[k] && buf@[k] <= 0x7E by {
                if k != pivot {
                    assert(line@[k]@.contains(buf@[k]));
                    let m = choose|m: int| 0 <= m < line@[k]@.len() && line@[k]@[m] == buf@[k];
                }
            }
        }
        let ok_a = match ha {
            Option::Some(h) => {
                match hint_is_match(h, buf.as_slice()) {
                    Option::Some(m) => m,
                    Option::None => {
                        proof {
                            assert(!hint_answered(dha, buf@));
                            if line_answered(dha, dhb, line@.len() as int) {
                                assert(hint_answered(dha, buf@));
                            }
                        }
                        return Err(SolveError::Pattern(PatternError::MatchFailed));
                    },
                }
            },
            Option::None => true,
        };
        if !ok_a {
            proof {
                if feasible_from(views_of(line@), pivot as int, c, buf@.take(idx as int), idx as int, dha,
                    dhb) {
                    let w = choose|w: Seq<u8>|
                        extends_from(w, views_of(line@), pivot as int, c, buf@.take(idx as int), idx as int)
                            && hint_ok(dha, w) && hint_ok(dhb, w);
                    assert(w =~= buf@);
                    assert(false);
                }
            }
            return Ok(false);
        }
        let ok_b = match hb {
            Option::Some(h) => {
                match hint_is_match(h, buf.as_slice()) {
                    Option::Some(m) => m,
                    Option::None => {
                        proof {
                            assert(!hint_answered(dhb, buf@));
                            if line_answered(dha, dhb, line@.len() as int) {
                                assert(hint_answered(dha, buf@));
                                assert(hint_answered(dhb, buf@));
                            }
                        }
                        return Err(SolveError::Pattern(PatternError::MatchFailed));
                    },
                }
            },
            Option::None => true,
        };
        proof {
            if ok_b {
                assert(extends_from(
                    buf@,
                    views_of(line@),
                    pivot as int,
                    c,
                    buf@.take(idx as int),
                    idx as int,
                ) && hint_ok(dha, buf@) && hint_ok(dhb, buf@));
            } else {
                if feasible_from(views_of(line@), pivot as int, c, buf@.take(idx as int), idx as int, dha,
                    dhb) {
                    let w = choose|w: Seq<u8>|
                        extends_from(w, views_of(line@), pivot as int, c, buf@.take(idx as int), idx as int)
                            && hint_ok(dha, w) && hint_ok(dhb, w);
                    assert(w =~= buf@);
                    assert(false);
                }
            }
        }
        Ok(ok_b)
    } else if idx == pivot || line[idx].len() == 1 {
        proof {
            if idx != pivot {
                assert(line@[idx as int]@[0] == buf@[idx as int]);
                assert(line@[idx as int]@.contains(buf@[idx as int]));
            }
        }
        let r = search_line(line, pivot, c, buf, idx + 1, ha, hb);
        proof {
            let pre = old(buf)@.take(idx as int);
            let pre1 = old(buf)@.take(idx as int + 1);
            assert(buf@.take(idx as int + 1) == pre1) by {
                assert forall|i: int| 0 <= i < idx + 1 implies buf@[i] == old(buf)@[i] by {}
                assert(buf@.take(idx as int + 1) =~= pre1);
            }
            if r matches Ok(b) {
                let lv = views_of(line@);
                assert(lv[idx as int] == line@[idx as int]@);
                assert(feasible_from(lv, pivot as int, c, pre, idx as int, dha, dhb)
                    <==> feasible_from(lv, pivot as int, c, pre1, idx as int + 1, dha, dhb))
                    by {
                    if feasible_from(lv, pivot as int, c, pre, idx as int, dha, dhb) {
                        let w = choose|w: Seq<u8>|
                            extends_from(w, lv, pivot as int, c, pre, idx as int) && hint_ok(
                                dha,
                                w,
                            ) && hint_ok(dhb, w);
                        assert forall|i: int| 0 <= i < idx + 1 && i != pivot
                            implies w[i] == pre1[i] by {
                            if i < idx {
                                assert(w[i] == pre[i]);
                            } else {
                                assert(lv[idx as int].len() == 1);
                                assert(w[i] == lv[idx as int][0]);
                                assert(pre1[idx as int] == old(buf)@[idx as int]);
                            }
                        }
                        assert(extends_from(w, lv, pivot as int, c, pre1, idx as int + 1));
                    }
                    if feasible_from(lv, pivot as int, c, pre1, idx as int + 1, dha, dhb) {
                        let w = choose|w: Seq<u8>|
                            extends_from(w, lv, pivot as int, c, pre1, idx as int + 1)
                                && hint_ok(dha, w) && hint_ok(dhb, w);
                        assert forall|i: int| idx <= i < lv.len() && i != pivot
                            implies (#[trigger] lv[i]).contains(w[i]) by {
                            if i == idx {
                                assert(w[i] == lv[idx as int][0]);
                                assert(lv[i].contains(w[i]));
                            }
                        }
                        assert forall|i: int| 0 <= i < idx && i != pivot
                            implies w[i] == pre[i] by {
                            assert(w[i] == pre1[i]);
                        }
                        assert(extends_from(w, lv, pivot as int, c, pre, idx as int));
                    }
                }
            }
        }
        r
    } else {
        let n = line[idx].len();
        let ghost base = old(buf)@.take(idx as int);
        for j in 0..n
            invariant
                buf@.len() == line@.len(),
                buf@[pivot as int] == c,
                forall|i: int| 0 <= i < idx ==> buf@[i] == old(buf)@[i],
                forall|i: int| 0 <= i < line@.len() && i != pivot && (#[trigger] line@[i])@.len()
                    == 1 ==> buf@[i] == line@[i]@[0],
                forall|m: int| 0 <= m < j ==> !feasible_from(
                    views_of(line@),
                    pivot as int,
                    c,
                    base.push(line@[idx as int]@[m]),
                    idx as int + 1,
                    dha,
                    dhb,
                ),
        {
            let cnd = line[idx][j];
            buf.set(idx, cnd);
            let ghost pre_call = buf@;
            proof {
                assert(buf@.take(idx as int + 1) =~= base.push(line@[idx as int]@[j as int]));
                assert(line@[idx as int]@.contains(cnd));
            }
            let r = search_line(line, pivot, c, buf, idx + 1, ha, hb);
            match r {
                Err(e) => {
                    return Err(e);
                },
                Ok(true) => {
                    proof {
                        let lv = views_of(line@);
                        let pre1 = pre_call.take(idx as int + 1);
                        let w = choose|w: Seq<u8>|
                            extends_from(w, lv, pivot as int, c, pre1, idx as int + 1)
                                && hint_ok(dha, w) && hint_ok(dhb, w);
                        assert forall|i: int| 0 <= i < idx && i != pivot
                            implies w[i] == base[i] by {
                            assert(w[i] == pre1[i]);
                        }
                        assert forall|i: int| idx <= i < lv.len() && i != pivot
                            implies (#[trigger] lv[i]).contains(w[i]) by {
                            if i == idx {
                                assert(w[i] == pre1[idx as int]);
                                assert(pre1[idx as int] == line@[idx as int]@[j as int]);
                                assert(lv[i] == line@[i]@);
                                assert(lv[i].contains(w[i]));
                            }
                        }
                        assert(extends_from(w, lv, pivot as int, c, base, idx as int));
                        assert(feasible_from(lv, pivot as int, c, base, idx as int, dha, dhb));
                    }
                    return Ok(true);
                },
                Ok(false) => {
                    proof {
                        assert(pre_call.take(idx as int + 1) =~= base.push(
                            line@[idx as int]@[j as int],
                        ));
                    }
                },
            }
        }
        proof {
            let lv = views_of(line@);
            if feasible_from(lv, pivot as int, c, base, idx as int, dha, dhb) {
                let w = choose|w: Seq<u8>|
                    extends_from(w, lv, pivot as int, c, base, idx as int) && hint_ok(dha, w)
                        && hint_ok(dhb, w);
                assert(lv[idx as int].contains(w[idx as int]));
                let m = choose|m: int|
                    0 <= m < lv[idx as int].len() && lv[idx as int][m] == w[idx as int];
                assert forall|i: int| 0 <= i < idx + 1 && i != pivot
                    implies w[i] == base.push(lv[idx as int][m])[i] by {
                    if i < idx {
                        assert(w[i] == base[i]);
                    }
                }
                assert(extends_from(
                    w,
                    lv,
                    pivot as int,
                    c,
                    base.push(lv[idx as int][m]),
                    idx as int + 1,
                ));
                assert(feasible_from(lv, pivot as int, c, base.push(line@[idx as int]@[m]),
                    idx as int + 1, dha, dhb));
                assert(false);
            }
        }
        Ok(false)
    }
}

/// For each candidate byte of the pivot cell, decide whether it can
/// complete its line, and keep the survivors in order: the
/// line-feasibility pass of one refinement step.
#[verifier::loop_isolation(false)]
fn filter_feasible(
    line: &Vec<Vec<u8>>,
    pivot: usize,
    ha: Option<&CompiledHint>,
    hb: Option<&CompiledHint>,
) -> (r: Result<Vec<u8>, SolveError>)
    requires
        pivot < line@.len(),
        forall|i: int| 0 <= i < line@.len() ==> strictly_sorted((#[trigger] line@[i])@)
            && line@[i]@.len() >= 1,
        forall|i: int, k: int| 0 <= i < line@.len() && 0 <= k < line@[i]@.len()
            ==> 0x20 <= (#[trigger] line@[i]@[k]) && line@[i]@[k] <= 0x7E,
    ensures
        r matches Ok(v) ==> strictly_sorted(v@) && (forall|b: u8| #[trigger] v@.contains(b)
            <==> line@[pivot as int]@.contains(b) && line_feasible(
            views_of(line@),
            pivot as int,
            b,
            deref_opt_hint(ha),
            deref_opt_hint(hb),
        )),
        r is Err ==> r == Err::<Vec<u8>, SolveError>(SolveError::Pattern(PatternError::MatchFailed)),
        r is Err ==> ha is Some || hb is Some,
        r is Err ==> !line_answered(deref_opt_hint(ha), deref_opt_hint(hb), line@.len() as int),
{
    let ghost dha = deref_opt_hint(ha);
    let ghost dhb = deref_opt_hint(hb);
    let mut buf: Vec<u8> = Vec::new();
    for i in 0..line.len()
        invariant
            buf@.len() == i,
            forall|k: int| 0 <= k < i ==> buf@[k] == line@[k]@[0],
    {
        buf.push(line[i][0]);
    }
    let mut out: Vec<u8> = Vec::new();
    let n = line[pivot].len();
    for j in 0..n
        invariant
            buf@.len() == line@.len(),
            forall|i: int| 0 <= i < line@.len() && i != pivot && (#[trigger] line@[i])@.len() == 1
                ==> buf@[i] == line@[i]@[0],
            strictly_sorted(out@),
            forall|k: int| 0 <= k < out@.len() ==> exists|m: int|
                0 <= m < j && line@[pivot as int]@[m] == #[trigger] out@[k],
            forall|b: u8| #[trigger] out@.contains(b) <==> ((exists|m: int|
                0 <= m < j && line@[pivot as int]@[m] == b) && line_feasible(
                views_of(line@),
                pivot as int,
                b,
                dha,
                dhb,
            )),
    {
        let cnd = line[pivot][j];
        buf.set(pivot, cnd);
        let ghost pre_buf = buf@;
        let r = match search_line(line, pivot, cnd, &mut buf, 0, ha, hb) {
            Ok(b) => b,
            Err(e) => {
                return Err(e);
            },
        };
        proof {
            assert(pre_buf.take(0) =~= Seq::<u8>::empty());
        }
        if r {
            proof {
                assert forall|k: int| 0 <= k < out@.len() implies out@[k] < cnd by {
                    assert(out@.contains(out@[k]));
                    let m = choose|m: int|
                        0 <= m < j && line@[pivot as int]@[m] == out@[k];
                    assert(line@[pivot as int]@[m] < line@[pivot as int]@[j as int]);
                }
                assert(line@[pivot as int]@.contains(cnd));
            }
            let ghost pre_out = out@;
            out.push(cnd);
            proof {
                assert forall|b: u8| #[trigger] out@.contains(b) implies ((exists|m: int|
                    0 <= m < j + 1 && line@[pivot as int]@[m] == b) && line_feasible(
                    views_of(line@),
                    pivot as int,
                    b,
                    dha,
                    dhb,
                )) by {
                    let k = choose|k: int| 0 <= k < out@.len() && out@[k] == b;
                    if k < pre_out.len() {
                        assert(pre_out[k] == b);
                        assert(pre_out.contains(b));
                    } else {
                        assert(b == cnd);
                        assert(line@[pivot as int]@[j as int] == b);
                    }
                }
                assert forall|b: u8| ((exists|m: int|
                    0 <= m < j + 1 && line@[pivot as int]@[m] == b) && line_feasible(
                    views_of(line@),
                    pivot as int,
                    b,
                    dha,
                    dhb,
                )) implies #[trigger] out@.contains(b) by {
                    let m = choose|m: int| 0 <= m < j + 1 && line@[pivot as int]@[m] == b;
                    if m < j {
                        assert(pre_out.contains(b));
                        let k = choose|k: int| 0 <= k < pre_out.len() && pre_out[k] == b;
                        assert(out@[k] == b);
                    } else {
                        assert(out@[out@.len() - 1] == b);
                    }
                }
            }
        } else {
            proof {
                assert forall|b: u8| #[trigger] out@.contains(b) implies ((exists|m: int|
                    0 <= m < j + 1 && line@[pivot as int]@[m] == b) && line_feasible(
                    views_of(line@),
                    pivot as int,
                    b,
                    dha,
                    dhb,
                )) by {}
                assert forall|b: u8| ((exists|m: int|
                    0 <= m < j + 1 && line@[pivot as int]@[m] == b) && line_feasible(
                    views_of(line@),
                    pivot as int,
                    b,
                    dha,
                    dhb,
                )) implies #[trigger] out@.contains(b) by {
                    let m = choose|m: int| 0 <= m < j + 1 && line@[pivot as int]@[m] == b;
                    if m == j {
                        assert(b == cnd);
                        assert(!line_feasible(views_of(line@), pivot as int, b, dha, dhb));
                        assert(false);
                    }
                }
            }
        }
    }
    proof {
        assert forall|b: u8| #[trigger] out@.contains(b)
            implies line@[pivot as int]@.contains(b) && line_feasible(
            views_of(line@),
            pivot as int,
            b,
            dha,
            dhb,
        ) by {
            let m = choose|m: int| 0 <= m < n && line@[pivot as int]@[m] == b;
            assert(line@[pivot as int]@.contains(b));
        }
        assert forall|b: u8| line@[pivot as int]@.contains(b) && line_feasible(
            views_of(line@),
            pivot as int,
            b,
            dha,
            dhb,
        ) implies #[trigger] out@.contains(b) by {
            let m = choose|m: int|
                0 <= m < line@[pivot as int]@.len() && line@[pivot as int]@[m] == b;
        }
    }
    Ok(out)
}

/// Whether a sequence of blacklist entries is strictly ordered.
pub open spec fn targets_sorted(bl: Seq<(bool, usize, usize)>) -> bool {
    forall|j1: int, j2: int| 0 <= j1 < j2 < bl.len() ==> target_lt(
        #[trigger] bl[j1],
        #[trigger] bl[j2],
    )
}

/// The strict order on targets, decided in code.
fn target_lt_exec(a: (bool, usize, usize), b: (bool, usize, usize)) -> (r: bool)
    ensures
        r == target_lt(a, b),
{
    if a.0 != b.0 {
        !a.0
    } else if a.1 != b.1 {
        a.1 < b.1
    } else {
        a.2 < b.2
    }
}

/// Insert a new entry into a sorted blacklist, keeping it sorted.
#[verifier::loop_isolation(false)]
fn insert_target(bl: &mut Vec<(bool, usize, usize)>, t: (bool, usize, usize))
    requires
        targets_sorted(old(bl)@),
        !old(bl)@.contains(t),
        old(bl)@.len() < usize::MAX,
    ensures
        targets_sorted(final(bl)@),
        final(bl)@.len() == old(bl)@.len() + 1,
        forall|e: (bool, usize, usize)| #[trigger] final(bl)@.contains(e) <==> old(bl)@.contains(e)
            || e == t,
{
    let ghost orig = bl@;
    let mut i: usize = 0;
    while i < bl.len() && target_lt_exec(bl[i], t)
        invariant
            i <= bl@.len(),
            bl@ == orig,
            forall|k: int| 0 <= k < i ==> target_lt(#[trigger] bl@[k], t),
        decreases bl@.len() - i,
    {
        i = i + 1;
    }
    proof {
        if i < orig.len() {
            let e = orig[i as int];
            if !target_lt(t, e) {
                assert(e.0 == t.0 && e.1 == t.1 && e.2 == t.2);
                assert(e == t);
                assert(orig.contains(t));
                assert(false);
            }
        }
    }
    bl.insert(i, t);
    proof {
        assert forall|j1: int, j2: int| 0 <= j1 < j2 < bl@.len()
            implies target_lt(#[trigger] bl@[j1], #[trigger] bl@[j2]) by {
            if j1 < i && j2 > i {
                assert(bl@[j1] == orig[j1]);
                assert(bl@[j2] == orig[j2 - 1]);
                assert(target_lt(orig[j1], t));
                assert(target_lt(t, orig[i as int]));
                if j2 - 1 > i {
                    assert(target_lt(orig[i as int], orig[j2 - 1]));
                }
            } else if j2 == i {
                assert(bl@[j1] == orig[j1]);
            } else if j1 == i {
                assert(bl@[j2] == orig[j2 - 1]);
                assert(target_lt(t, orig[i as int]));
                if j2 - 1 > i {
                    assert(target_lt(orig[i as int], orig[j2 - 1]));
                }
            } else if j2 < i {
                assert(bl@[j1] == orig[j1]);
                assert(bl@[j2] == orig[j2]);
            } else {
                assert(bl@[j1] == orig[j1 - 1]);
                assert(bl@[j2] == orig[j2 - 1]);
            }
        }
        assert forall|e: (bool, usize, usize)| #[trigger] bl@.contains(e)
            implies orig.contains(e) || e == t by {
            let k = choose|k: int| 0 <= k < bl@.len() && bl@[k] == e;
            if k < i {
                assert(orig[k] == e);
            } else if k > i {
                assert(orig[k - 1] == e);
            }
        }
        assert forall|e: (bool, usize, usize)| orig.contains(e) || e == t
            implies #[trigger] bl@.contains(e) by {
            if e == t {
                assert(bl@[i as int] == e);
            } else {
                let k = choose|k: int| 0 <= k < orig.len() && orig[k] == e;
                if k < i {
                    assert(bl@[k] == e);
                } else {
                    assert(bl@[k + 1] == e);
                }
            }
        }
    }
}

/// Whether compiled hints cover a board's dimensions.
pub open spec fn hints_fit(h: Hints, w: int, ht: int) -> bool {
    &&& h.top@.len() == w
    &&& h.bottom@.len() == w
    &&& h.left@.len() == ht
    &&& h.right@.len() == ht
}

/// Whether the byte `c` could complete the line a target tests: the
/// pivot's column with its top and bottom hints, or the pivot's row
/// with its left and right hints.
pub open spec fn cell_feasible(b: Board, h: Hints, is_column: bool, x: int, y: int, c: u8) -> bool {
    if is_column {
        line_feasible(b.col_of(x), y, c, h.top@[x], h.bottom@[x])
    } else {
        line_feasible(b.row_of(y), x, c, h.left@[y], h.right@[y])
    }
}

/// Whether the line a target tests carries at least one hint: only
/// then is the external matcher ever consulted.
pub open spec fn target_has_hint(h: Hints, t: (bool, usize, usize)) -> bool {
    if t.0 {
        h.top@[t.1 as int] is Some || h.bottom@[t.1 as int] is Some
    } else {
        h.left@[t.2 as int] is Some || h.right@[t.2 as int] is Some
    }
}

/// Whether the engine answers both hints of the line a target tests,
/// on every printable text of that line's length.
pub open spec fn target_answered(b: Board, h: Hints, t: (bool, usize, usize)) -> bool {
    if t.0 {
        line_answered(h.top@[t.1 as int], h.bottom@[t.1 as int], b.spec_height())
    } else {
        line_answered(h.left@[t.2 as int], h.right@[t.2 as int], b.spec_width())
    }
}

/// Whether the engine answers every hint of the board on every
/// printable line text of the right length: then no refinement step
/// can fail with a matcher give-up.
pub open spec fn hints_answered(h: Hints, w: int, ht: int) -> bool {
    &&& forall|x: int| 0 <= x < w ==> #[trigger] line_answered(h.top@[x], h.bottom@[x], ht)
    &&& forall|y: int| 0 <= y < ht ==> #[trigger] line_answered(h.left@[y], h.right@[y], w)
}

/// The chosen target has minimal cached complexity among all eligible
/// targets.
pub open spec fn minimal_choice(pre: Board, t: (bool, usize, usize)) -> bool {
    forall|u: (bool, usize, usize)| #[trigger] pre.eligible(u) ==> pre.target_complexity(t)
        <= pre.target_complexity(u)
}

/// What one successful refinement step did for its chosen target:
/// either no candidate could be pruned and the target joined the
/// blacklist, or the pivot's candidates were cut down to exactly the
/// line-feasible ones and the whole blacklist was cleared.
pub open spec fn step_outcome(pre: Board, post: Board, h: Hints, t: (bool, usize, usize)) -> bool {
    ||| ({
        &&& forall|c: u8| pre.cell(t.1 as int, t.2 as int).contains(c) ==> cell_feasible(
            pre,
            h,
            t.0,
            t.1 as int,
            t.2 as int,
            c,
        )
        &&& forall|x: int, y: int| 0 <= x < pre.spec_width() && 0 <= y < pre.spec_height()
            ==> (#[trigger] post.cell(x, y)) == pre.cell(x, y)
        &&& post.blacklisted(t)
        &&& post.spec_blacklist_len() == pre.spec_blacklist_len() + 1
        &&& forall|u: (bool, usize, usize)| #[trigger] post.blacklisted(u) <==> pre.blacklisted(u)
            || u == t
    })
    ||| ({
        &&& forall|c: u8| (#[trigger] post.cell(t.1 as int, t.2 as int).contains(c)) <==> pre.cell(
            t.1 as int,
            t.2 as int,
        ).contains(c) && cell_feasible(pre, h, t.0, t.1 as int, t.2 as int, c)
        &&& post.cell(t.1 as int, t.2 as int).len() < pre.cell(t.1 as int, t.2 as int).len()
        &&& forall|x: int, y: int| 0 <= x < pre.spec_width() && 0 <= y < pre.spec_height() && !(x
            == t.1 && y == t.2) ==> (#[trigger] post.cell(x, y)) == pre.cell(x, y)
        &&& post.spec_blacklist_len() == 0
    })
}

impl Board {
    /// Whether a refinement target is in the blacklist, decided in
    /// code.
    fn blacklist_contains(&self, t: (bool, usize, usize)) -> (r: bool)
        ensures
            r == self.blacklisted(t),
    {
        let mut i: usize = 0;
        while i < self.blacklist.len()
            invariant
                i <= self.blacklist@.len(),
                forall|j: int| 0 <= j < i ==> self.blacklist@[j] != t,
            decreases self.blacklist@.len() - i,
        {
            let e = self.blacklist[i];
            if e.0 == t.0 && e.1 == t.1 && e.2 == t.2 {
                proof {
                    assert(e == t);
                }
                return true;
            }
            i = i + 1;
        }
        proof {
            if self.blacklisted(t) {
                let j = choose|j: int| 0 <= j < self.blacklist@.len() && self.blacklist@[j] == t;
                assert(false);
            }
        }
        false
    }

    /// Scan every undecided cell's two targets and keep the eligible
    /// one of lowest cached complexity; a later tie wins, matching the
    /// scan order. None means the search is exhausted.
    #[verifier::loop_isolation(false)]
    fn find_best_choice(&self) -> (r: Option<Choice>)
        requires
            self.inv(),
        ensures
            r is None ==> self.exhausted(),
            r matches Some(ch) ==> {
                &&& ch.index < self.undecided@.len()
                &&& self.undecided@[ch.index as int] == (ch.x, ch.y)
                &&& self.eligible((ch.is_column, ch.x, ch.y))
                &&& ch.complexity == self.target_complexity((ch.is_column, ch.x, ch.y))
                &&& forall|j: int, col: bool| 0 <= j < self.undecided@.len() && !(#[trigger] self.blacklisted(
                    (col, self.undecided@[j].0, self.undecided@[j].1),
                )) ==> ch.complexity <= self.target_complexity(
                    (col, self.undecided@[j].0, self.undecided@[j].1),
                )
            },
    {
        let mut best: Option<Choice> = None;
        let n = self.undecided.len();
        for idx in 0..n
            invariant
                best is None ==> forall|j: int, col: bool| 0 <= j < idx ==> #[trigger] self.blacklisted(
                    (col, self.undecided@[j].0, self.undecided@[j].1),
                ),
                best matches Some(ch) ==> {
                    &&& ch.index < self.undecided@.len()
                    &&& self.undecided@[ch.index as int] == (ch.x, ch.y)
                    &&& self.eligible((ch.is_column, ch.x, ch.y))
                    &&& ch.complexity == self.target_complexity((ch.is_column, ch.x, ch.y))
                    &&& forall|j: int, col: bool| 0 <= j < idx && !(#[trigger] self.blacklisted(
                        (col, self.undecided@[j].0, self.undecided@[j].1),
                    )) ==> ch.complexity <= self.target_complexity(
                        (col, self.undecided@[j].0, self.undecided@[j].1),
                    )
                },
        {
            let (x, y) = self.undecided[idx];
            let row_c = self.row_complexity[y];
            let col_c = self.col_complexity[x];
            if !self.blacklist_contains((false, x, y)) {
                let replace = match &best {
                    Option::None => true,
                    Option::Some(b) => !(b.complexity < row_c),
                };
                if replace {
                    best = Some(Choice { complexity: row_c, is_column: false, index: idx, x, y });
                }
            }
            if !self.blacklist_contains((true, x, y)) {
                let replace = match &best {
                    Option::None => true,
                    Option::Some(b) => !(b.complexity < col_c),
                };
                if replace {
                    best = Some(Choice { complexity: col_c, is_column: true, index: idx, x, y });
                }
            }
        }
        proof {
            if best is None {
                assert forall|x: int, y: int|
                    0 <= x < self.spec_width() && 0 <= y < self.spec_height() && (
                    #[trigger] self.cell(x, y)).len() > 1
                    implies self.blacklisted((false, x as usize, y as usize)) && self.blacklisted(
                    (true, x as usize, y as usize),
                ) by {
                    assert(self.undecided@.contains((x as usize, y as usize)));
                    let j = choose|j: int|
                        0 <= j < self.undecided@.len() && self.undecided@[j] == (
                        x as usize,
                        y as usize,
                        );
                    assert(self.blacklisted((false, self.undecided@[j].0, self.undecided@[j].1)));
                    assert(self.blacklisted((true, self.undecided@[j].0, self.undecided@[j].1)));
                }
            }
        }
        best
    }
}

/// Recompute one row's cached complexity from the grid.
#[verifier::loop_isolation(false)]
fn compute_row_product(cells: &Vec<Vec<u8>>, w: usize, h: usize, y: usize) -> (r: u64)
    requires
        cells@.len() == w as int * h as int,
        w as int * h as int <= usize::MAX,
        y < h,
    ensures
        r == row_product(cells@, w as int, y as int, w as int),
{
    let mut p: u64 = 1;
    for x in 0..w
        invariant
            p == row_product(cells@, w as int, y as int, x as int),
    {
        proof {
            lemma_grid_index(x as int, y as int, w as int, h as int);
        }
        p = sat_mul_exec(p, cells[x + y * w].len() as u64);
    }
    p
}

/// Recompute one column's cached complexity from the grid.
#[verifier::loop_isolation(false)]
fn compute_col_product(cells: &Vec<Vec<u8>>, w: usize, h: usize, x: usize) -> (r: u64)
    requires
        cells@.len() == w as int * h as int,
        w as int * h as int <= usize::MAX,
        x < w,
    ensures
        r == col_product(cells@, w as int, x as int, h as int),
{
    let mut p: u64 = 1;
    for y in 0..h
        invariant
            p == col_product(cells@, w as int, x as int, y as int),
    {
        proof {
            lemma_grid_index(x as int, y as int, w as int, h as int);
        }
        p = sat_mul_exec(p, cells[x + y * w].len() as u64);
    }
    p
}

impl Board {
    /// Copy the cells of row y into a line for a feasibility pass.
    #[verifier::loop_isolation(false)]
    fn build_row_line(&self, y: usize) -> (line: Vec<Vec<u8>>)
        requires
            self.inv(),
            y < self.spec_height(),
        ensures
            views_of(line@) == self.row_of(y as int),
            line@.len() == self.spec_width(),
    {
        let mut line: Vec<Vec<u8>> = Vec::new();
        for x in 0..self.width
            invariant
                line@.len() == x,
                forall|k: int| 0 <= k < x ==> (#[trigger] line@[k])@ == self.cell(k, y as int),
        {
            proof {
                lemma_grid_index(x as int, y as int, self.width as int, self.height as int);
            }
            line.push(crate::allowed::copy_bytes(self.cells[x + y * self.width].as_slice()));
        }
        proof {
            assert(views_of(line@) =~= self.row_of(y as int));
        }
        line
    }

    /// Copy the cells of column x into a line for a feasibility pass.
    #[verifier::loop_isolation(false)]
    fn build_col_line(&self, x: usize) -> (line: Vec<Vec<u8>>)
        requires
            self.inv(),
            x < self.spec_width(),
        ensures
            views_of(line@) == self.col_of(x as int),
            line@.len() == self.spec_height(),
    {
        let mut line: Vec<Vec<u8>> = Vec::new();
        for y in 0..self.height
            invariant
                line@.len() == y,
                forall|k: int| 0 <= k < y ==> (#[trigger] line@[k])@ == self.cell(x as int, k),
        {
            proof {
                lemma_grid_index(x as int, y as int, self.width as int, self.height as int);
            }
            line.push(crate::allowed::copy_bytes(self.cells[x + y * self.width].as_slice()));
        }
        proof {
            assert(views_of(line@) =~= self.col_of(x as int));
        }
        line
    }
}

/// Two strictly increasing byte sequences where the first is contained
/// in the second: the first is no longer, and equal lengths force
/// equal sets.
proof fn lemma_sorted_subset_len(a: Seq<u8>, b: Seq<u8>)
    requires
        strictly_sorted(a),
        strictly_sorted(b),
        forall|e: u8| a.contains(e) ==> b.contains(e),
    ensures
        a.len() <= b.len(),
        a.len() == b.len() ==> a.to_set() == b.to_set(),
{
    crate::bytes::lemma_strictly_sorted_no_duplicates(a);
    crate::bytes::lemma_strictly_sorted_no_duplicates(b);
    a.unique_seq_to_set();
    b.unique_seq_to_set();
    vstd::seq_lib::seq_to_set_is_finite(a);
    vstd::seq_lib::seq_to_set_is_finite(b);
    assert(a.to_set().subset_of(b.to_set()));
    vstd::set_lib::lemma_len_subset(a.to_set(), b.to_set());
    if a.len() == b.len() {
        vstd::set_lib::lemma_subset_equality(a.to_set(), b.to_set());
    }
}

impl Board {
    /// One refinement step. Pick the eligible target of minimum cached
    /// complexity; test every candidate byte of its pivot against the
    /// target's line; then either prune the pivot's candidate set and
    /// clear the whole blacklist, or record the target as a dead end.
    /// Ok(false) reports exhaustion: every target of every undecided
    /// cell is already blacklisted. A contradiction (no candidate can
    /// complete the line) and a matcher failure leave the board
    /// untouched. Candidate sets only ever shrink.
    #[verifier::loop_isolation(false)]
    #[verifier::rlimit(100)]
    pub fn make_progress(&mut self, hints: &Hints) -> (r: Result<bool, SolveError>)
        requires
            old(self).inv(),
            hints_fit(*hints, old(self).spec_width(), old(self).spec_height()),
        ensures
            final(self).inv(),
            final(self).spec_width() == old(self).spec_width(),
            final(self).spec_height() == old(self).spec_height(),
            forall|x: int, y: int|
                0 <= x < old(self).spec_width() && 0 <= y < old(self).spec_height() ==> (
                #[trigger] final(self).cell(x, y)).to_set() <= old(self).cell(x, y).to_set(),
            (r == Ok::<bool, SolveError>(false)) <==> old(self).exhausted(),
            r == Ok::<bool, SolveError>(false) ==> *final(self) == *old(self),
            r is Err ==> *final(self) == *old(self),
            r is Err ==> r matches Err(SolveError::Pattern(PatternError::MatchFailed)) || r
                matches Err(SolveError::Contradiction(ContradictionError::EmptyRefinement { .. })),
            r == Err::<bool, SolveError>(SolveError::Pattern(PatternError::MatchFailed))
                ==> exists|t: (bool, usize, usize)|
                (#[trigger] old(self).eligible(t)) && minimal_choice(*old(self), t)
                    && target_has_hint(*hints, t) && !target_answered(*old(self), *hints, t),
            r matches Err(SolveError::Contradiction(e)) ==> e matches
                ContradictionError::EmptyRefinement { x, y, is_column, candidates } && old(
            self).eligible((is_column, x, y)) && minimal_choice(*old(self), (is_column, x, y))
                && candidates@ == old(self).cell(x as int, y as int) && (forall|c: u8|
            old(self).cell(x as int, y as int).contains(c) ==> !cell_feasible(
                *old(self),
                *hints,
                is_column,
                x as int,
                y as int,
                c,
            )),
            r == Ok::<bool, SolveError>(true) ==> exists|t: (bool, usize, usize)|
                (#[trigger] old(self).eligible(t)) && minimal_choice(*old(self), t)
                    && step_outcome(*old(self), *final(self), *hints, t),
            r == Ok::<bool, SolveError>(true) ==> final(self).total_candidates() < old(
            self).total_candidates() || (final(self).total_candidates() == old(
            self).total_candidates() && final(self).spec_blacklist_len() == old(
            self).spec_blacklist_len() + 1),
    {
        let ghost pre = *old(self);
        let best = match self.find_best_choice() {
            Option::None => {
                return Ok(false);
            },
            Option::Some(c) => c,
        };
        let x = best.x;
        let y = best.y;
        let is_column = best.is_column;
        let ghost t = (is_column, x, y);
        proof {
            assert(pre.eligible(t));
            if pre.exhausted() {
                assert(pre.blacklisted((false, x, y)) && pre.blacklisted((true, x, y)));
                assert(false);
            }
            assert forall|u: (bool, usize, usize)| #[trigger] pre.eligible(u)
                implies pre.target_complexity(t) <= pre.target_complexity(u) by {
                let w = pre.width as int;
                assert(pre.cells@[u.2 as int * w + u.1 as int]@.len() > 1);
                assert(pre.undecided@.contains((u.1, u.2)));
                let j = choose|j: int|
                    0 <= j < pre.undecided@.len() && pre.undecided@[j] == (u.1, u.2);
                assert(!pre.blacklisted((u.0, pre.undecided@[j].0, pre.undecided@[j].1)));
            }
        }
        let w = self.width;
        let h = self.height;
        let line;
        let pivot: usize;
        let ha: Option<&CompiledHint>;
        let hb: Option<&CompiledHint>;
        if is_column {
            line = self.build_col_line(x);
            pivot = y;
            ha = match &hints.top[x] {
                Option::Some(hc) => Option::Some(hc),
                Option::None => Option::None,
            };
            hb = match &hints.bottom[x] {
                Option::Some(hc) => Option::Some(hc),
                Option::None => Option::None,
            };
        } else {
            line = self.build_row_line(y);
            pivot = x;
            ha = match &hints.left[y] {
                Option::Some(hc) => Option::Some(hc),
                Option::None => Option::None,
            };
            hb = match &hints.right[y] {
                Option::Some(hc) => Option::Some(hc),
                Option::None => Option::None,
            };
        }
        proof {
            lemma_grid_index(x as int, y as int, w as int, h as int);
            assert(deref_opt_hint(ha) == if is_column {
                hints.top@[x as int]
            } else {
                hints.left@[y as int]
            });
            assert(deref_opt_hint(hb) == if is_column {
                hints.bottom@[x as int]
            } else {
                hints.right@[y as int]
            });
            assert forall|i: int| 0 <= i < line@.len()
                implies strictly_sorted((#[trigger] line@[i])@) && line@[i]@.len() >= 1 by {
                assert(views_of(line@)[i] == line@[i]@);
                if is_column {
                    lemma_grid_index(x as int, i, w as int, h as int);
                    assert(line@[i]@ == self.cell(x as int, i));
                } else {
                    lemma_grid_index(i, y as int, w as int, h as int);
                    assert(line@[i]@ == self.cell(i, y as int));
                }
            }
            assert forall|i: int, k: int| 0 <= i < line@.len() && 0 <= k < line@[i]@.len()
                implies 0x20 <= (#[trigger] line@[i]@[k]) && line@[i]@[k] <= 0x7E by {
                assert(views_of(line@)[i] == line@[i]@);
                if is_column {
                    lemma_grid_index(x as int, i, w as int, h as int);
                    assert(line@[i]@ == self.cells@[i * (w as int) + x as int]@);
                } else {
                    lemma_grid_index(i, y as int, w as int, h as int);
                    assert(line@[i]@ == self.cells@[(y as int) * (w as int) + i]@);
                }
            }
            assert(views_of(line@)[pivot as int] == line@[pivot as int]@);
            assert(line@[pivot as int]@ == pre.cell(x as int, y as int));
        }
        let really = match filter_feasible(&line, pivot, ha, hb) {
            Ok(v) => v,
            Err(e) => {
                proof {
                    assert(target_has_hint(*hints, t));
                    assert(!target_answered(pre, *hints, t));
                }
                return Err(e);
            },
        };
        proof {
            assert forall|b: u8| #[trigger] really@.contains(b)
                implies pre.cell(x as int, y as int).contains(b) && cell_feasible(
                pre,
                *hints,
                is_column,
                x as int,
                y as int,
                b,
            ) by {}
            assert forall|b: u8|
                pre.cell(x as int, y as int).contains(b) && cell_feasible(
                    pre,
                    *hints,
                    is_column,
                    x as int,
                    y as int,
                    b,
                ) implies #[trigger] really@.contains(b) by {}
            lemma_sorted_subset_len(really@, pre.cell(x as int, y as int));
        }
        let idx_flat = x + y * w;
        let possible_len = self.cells[idx_flat].len();
        if really.len() == possible_len {
            proof {
                assert(really@.to_set() == pre.cell(x as int, y as int).to_set());
                assert forall|c: u8| pre.cell(x as int, y as int).contains(c)
                    implies cell_feasible(pre, *hints, is_column, x as int, y as int, c) by {
                    assert(pre.cell(x as int, y as int).to_set().contains(c));
                    assert(really@.to_set().contains(c));
                    assert(really@.contains(c));
                }
                lemma_blacklist_len(self.blacklist@, w as int, h as int);
            }
            insert_target(&mut self.blacklist, (is_column, x, y));
            proof {
                assert forall|j: int| 0 <= j < self.blacklist@.len()
                    implies (#[trigger] self.blacklist@[j]).1 < self.width
                        && self.blacklist@[j].2 < self.height by {
                    assert(self.blacklist@.contains(self.blacklist@[j]));
                }
                assert(self.blacklisted(t)) by {
                    assert(self.blacklist@.contains(t));
                }
                assert(step_outcome(pre, *self, *hints, t));
                assert forall|x2: int, y2: int|
                    0 <= x2 < pre.spec_width() && 0 <= y2 < pre.spec_height()
                    implies (#[trigger] self.cell(x2, y2)).to_set() <= pre.cell(x2, y2).to_set()
                    by {}
            }
            return Ok(true);
        }
        if really.len() == 0 {
            let cand = crate::allowed::copy_bytes(self.cells[idx_flat].as_slice());
            proof {
                assert forall|c: u8| pre.cell(x as int, y as int).contains(c)
                    implies !cell_feasible(pre, *hints, is_column, x as int, y as int, c) by {
                    if cell_feasible(pre, *hints, is_column, x as int, y as int, c) {
                        assert(really@.contains(c));
                    }
                }
            }
            return Err(SolveError::Contradiction(ContradictionError::EmptyRefinement {
                x,
                y,
                is_column,
                candidates: cand,
            }));
        }
        // Prune: replace the pivot's candidate set, clear the
        // blacklist, and refresh the two affected line complexities.
        self.blacklist = Vec::new();
        if really.len() == 1 {
            proof {
                assert(pre.undecided@[best.index as int] == (x, y));
            }
            self.undecided.remove(best.index);
        }
        proof {
            lemma_sum_lens_update(self.cells@, idx_flat as int, really);
        }
        let ghost mid_und = self.undecided@;
        self.cells.set(idx_flat, really);
        let rp = compute_row_product(&self.cells, w, h, y);
        self.row_complexity.set(y, rp);
        let cp = compute_col_product(&self.cells, w, h, x);
        self.col_complexity.set(x, cp);
        proof {
            let wi = w as int;
            let hi = h as int;
            let idx = idx_flat as int;
            // every other index is a different cell
            assert forall|x2: int, y2: int|
                0 <= x2 < wi && 0 <= y2 < hi && !(x2 == x as int && y2 == y as int)
                implies #[trigger] (y2 * wi + x2) != idx by {
                lemma_grid_index(x2, y2, wi, hi);
                if y2 * wi + x2 == idx {
                    lemma_grid_index_injective(x2, y2, x as int, y as int, wi);
                }
            }
            assert forall|x2: int, y2: int|
                0 <= x2 < wi && 0 <= y2 < hi && !(x2 == x as int && y2 == y as int)
                implies (#[trigger] self.cell(x2, y2)) == pre.cell(x2, y2) by {
                lemma_grid_index(x2, y2, wi, hi);
            }
            assert(self.cell(x as int, y as int) == really@);
            // complexity caches for the untouched lines
            assert forall|y2: int| 0 <= y2 < hi && y2 != y as int
                implies (#[trigger] self.row_complexity@[y2]) == row_product(
                self.cells@,
                wi,
                y2,
                wi,
            ) by {
                assert forall|x3: int| 0 <= x3 < wi
                    implies pre.cells@[y2 * wi + x3]@.len() == (#[trigger] self.cells@[y2 * wi
                        + x3])@.len() by {
                    lemma_grid_index(x3, y2, wi, hi);
                    if y2 * wi + x3 == idx {
                        lemma_grid_index_injective(x3, y2, x as int, y as int, wi);
                    }
                }
                lemma_row_product_congruence(pre.cells@, self.cells@, wi, y2, wi);
            }
            assert forall|x2: int| 0 <= x2 < wi && x2 != x as int
                implies (#[trigger] self.col_complexity@[x2]) == col_product(
                self.cells@,
                wi,
                x2,
                hi,
            ) by {
                assert forall|y3: int| 0 <= y3 < hi
                    implies pre.cells@[y3 * wi + x2]@.len() == (#[trigger] self.cells@[y3 * wi
                        + x2])@.len() by {
                    lemma_grid_index(x2, y3, wi, hi);
                    if y3 * wi + x2 == idx {
                        lemma_grid_index_injective(x2, y3, x as int, y as int, wi);
                    }
                }
                lemma_col_product_congruence(pre.cells@, self.cells@, wi, x2, hi);
            }
            // the undecided index still matches the grid
            if really@.len() == 1 {
                assert(mid_und == pre.undecided@.remove(best.index as int));
                assert forall|j: int| 0 <= j < mid_und.len()
                    implies (#[trigger] mid_und[j]).0 < self.width && mid_und[j].1 < self.height
                        && self.cells@[mid_und[j].1 as int * wi + mid_und[j].0 as int]@.len() > 1
                    by {
                    let o = if j < best.index as int {
                        j
                    } else {
                        j + 1
                    };
                    assert(mid_und[j] == pre.undecided@[o]);
                    if pre.undecided@[o] == (x, y) {
                        assert(o != best.index as int);
                        assert(pre.undecided@[best.index as int] == (x, y));
                        assert(false);
                    }
                    let ex = mid_und[j].0 as int;
                    let ey = mid_und[j].1 as int;
                    lemma_grid_index(ex, ey, wi, hi);
                    if ey * wi + ex == idx {
                        lemma_grid_index_injective(ex, ey, x as int, y as int, wi);
                        assert(false);
                    }
                    assert(self.cells@[ey * wi + ex] == pre.cells@[ey * wi + ex]);
                }
                assert forall|x2: int, y2: int|
                    0 <= x2 < wi && 0 <= y2 < hi && (#[trigger] self.cells@[y2 * wi + x2])@.len()
                        > 1 implies self.undecided@.contains((x2 as usize, y2 as usize)) by {
                    lemma_grid_index(x2, y2, wi, hi);
                    assert(pre.cells@[y2 * wi + x2]@.len() > 1);
                    assert(pre.undecided@.contains((x2 as usize, y2 as usize)));
                    let o = choose|o: int|
                        0 <= o < pre.undecided@.len() && pre.undecided@[o] == (
                        x2 as usize,
                        y2 as usize,
                        );
                    assert(o != best.index as int);
                    if o < best.index as int {
                        assert(mid_und[o] == pre.undecided@[o]);
                    } else {
                        assert(mid_und[o - 1] == pre.undecided@[o]);
                    }
                }
                assert forall|j1: int, j2: int|
                    0 <= j1 < mid_und.len() && 0 <= j2 < mid_und.len() && j1 != j2
                    implies mid_und[j1] != mid_und[j2] by {
                    let o1 = if j1 < best.index as int {
                        j1
                    } else {
                        j1 + 1
                    };
                    let o2 = if j2 < best.index as int {
                        j2
                    } else {
                        j2 + 1
                    };
                    assert(mid_und[j1] == pre.undecided@[o1]);
                    assert(mid_und[j2] == pre.undecided@[o2]);
                }
            } else {
                assert forall|x2: int, y2: int|
                    0 <= x2 < wi && 0 <= y2 < hi && (#[trigger] self.cells@[y2 * wi + x2])@.len()
                        > 1 implies self.undecided@.contains((x2 as usize, y2 as usize)) by {
                    lemma_grid_index(x2, y2, wi, hi);
                    if !(x2 == x as int && y2 == y as int) {
                        assert(pre.cells@[y2 * wi + x2]@.len() > 1);
                    } else {
                        assert(pre.cells@[idx]@.len() > 1);
                    }
                }
                assert forall|j: int| 0 <= j < self.undecided@.len()
                    implies (#[trigger] self.undecided@[j]).0 < self.width
                        && self.undecided@[j].1 < self.height && self.cells@[
                    self.undecided@[j].1 as int * wi + self.undecided@[j].0 as int]@.len() > 1
                    by {
                    let ex = self.undecided@[j].0 as int;
                    let ey = self.undecided@[j].1 as int;
                    lemma_grid_index(ex, ey, wi, hi);
                    if ey * wi + ex == idx {
                        lemma_grid_index_injective(ex, ey, x as int, y as int, wi);
                        assert(self.cells@[ey * wi + ex]@.len() > 1);
                    } else {
                        assert(self.cells@[ey * wi + ex] == pre.cells@[ey * wi + ex]);
                    }
                }
            }
            // printable candidates survive pruning
            assert forall|i: int, k: int|
                0 <= i < self.cells@.len() && 0 <= k < self.cells@[i]@.len()
                implies 0x20 <= (#[trigger] self.cells@[i]@[k]) && self.cells@[i]@[k] <= 0x7E by {
                if i == idx {
                    assert(really@.contains(really@[k]));
                    assert(pre.cell(x as int, y as int).contains(really@[k]));
                    let m = choose|m: int|
                        0 <= m < pre.cells@[idx]@.len() && pre.cells@[idx]@[m] == really@[k];
                }
            }
            assert(self.inv());
            assert(step_outcome(pre, *self, *hints, t)) by {
                assert(self.cell(x as int, y as int).len() < pre.cell(x as int, y as int).len());
            }
            assert forall|x2: int, y2: int|
                0 <= x2 < pre.spec_width() && 0 <= y2 < pre.spec_height()
                implies (#[trigger] self.cell(x2, y2)).to_set() <= pre.cell(x2, y2).to_set() by {
                if x2 == x as int && y2 == y as int {
                    assert forall|b: u8| self.cell(x2, y2).to_set().contains(b)
                        implies pre.cell(x2, y2).to_set().contains(b) by {
                        assert(really@.contains(b));
                    }
                }
            }
            assert(self.total_candidates() < pre.total_candidates());
        }
        Ok(true)
    }

    /// Run refinement steps until every cell is decided, the search is
    /// exhausted, or a step fails. On success the decided grid comes
    /// back in row-major order, each character drawn from the cell's
    /// initial candidates.
    #[verifier::loop_isolation(false)]
    pub fn solve(&mut self, hints: &Hints) -> (r: Result<Vec<u8>, SolveError>)
        requires
            old(self).inv(),
            hints_fit(*hints, old(self).spec_width(), old(self).spec_height()),
        ensures
            final(self).inv(),
            final(self).spec_width() == old(self).spec_width(),
            final(self).spec_height() == old(self).spec_height(),
            forall|x: int, y: int|
                0 <= x < old(self).spec_width() && 0 <= y < old(self).spec_height() ==> (
                #[trigger] final(self).cell(x, y)).to_set() <= old(self).cell(x, y).to_set(),
            r matches Ok(g) ==> {
                &&& g@.len() == old(self).spec_width() * old(self).spec_height()
                &&& forall|x: int, y: int|
                    0 <= x < old(self).spec_width() && 0 <= y < old(self).spec_height() ==> (
                    #[trigger] final(self).cell(x, y)).len() == 1
                &&& forall|x: int, y: int|
                    0 <= x < old(self).spec_width() && 0 <= y < old(self).spec_height()
                        ==> #[trigger] g@[y * old(self).spec_width() + x] == final(self).cell(
                        x,
                        y,
                    )[0] && old(self).cell(x, y).contains(g@[y * old(self).spec_width() + x])
            },
            r == Err::<Vec<u8>, SolveError>(SolveError::SearchExhausted)
                ==> final(self).exhausted() && exists|x: int, y: int|
                0 <= x < old(self).spec_width() && 0 <= y < old(self).spec_height() && (
                #[trigger] final(self).cell(x, y)).len() > 1,
            r is Err ==> r == Err::<Vec<u8>, SolveError>(SolveError::SearchExhausted) || r matches
                Err(SolveError::Pattern(PatternError::MatchFailed)) || r matches Err(
                SolveError::Contradiction(ContradictionError::EmptyRefinement { .. }),
            ),
            r is Err ==> exists|x: int, y: int|
                0 <= x < old(self).spec_width() && 0 <= y < old(self).spec_height() && (
                #[trigger] old(self).cell(x, y)).len() > 1,
            hints_answered(*hints, old(self).spec_width(), old(self).spec_height()) ==> r != Err::<
                Vec<u8>,
                SolveError,
            >(SolveError::Pattern(PatternError::MatchFailed)),
    {
        let ghost pre = *old(self);
        while self.still_undecided()
            invariant
                self.inv(),
                self.spec_width() == pre.spec_width(),
                self.spec_height() == pre.spec_height(),
                hints_fit(*hints, self.spec_width(), self.spec_height()),
                forall|x: int, y: int|
                    0 <= x < pre.spec_width() && 0 <= y < pre.spec_height() ==> (
                    #[trigger] self.cell(x, y)).to_set() <= pre.cell(x, y).to_set(),
            decreases self.total_candidates(),
                2 * self.spec_width() * self.spec_height() - self.spec_blacklist_len(),
        {
            proof {
                lemma_blacklist_len_board(self);
                // the loop ran, so some cell was undecided; its
                // initial candidate set was no smaller
                let (ux, uy) = choose|ux: int, uy: int|
                    0 <= ux < self.spec_width() && 0 <= uy < self.spec_height() && (
                    #[trigger] self.cell(ux, uy)).len() > 1;
                lemma_grid_index(ux, uy, pre.spec_width(), pre.spec_height());
                assert forall|e: u8| self.cell(ux, uy).contains(e)
                    implies pre.cell(ux, uy).contains(e) by {
                    assert(self.cell(ux, uy).to_set().contains(e));
                    assert(pre.cell(ux, uy).to_set().contains(e));
                }
                lemma_sorted_subset_len(self.cell(ux, uy), pre.cell(ux, uy));
                assert(pre.cell(ux, uy).len() > 1);
            }
            let ghost mid = *self;
            let step = self.make_progress(hints);
            proof {
                lemma_blacklist_len_board(self);
                assert forall|x: int, y: int|
                    0 <= x < pre.spec_width() && 0 <= y < pre.spec_height()
                    implies (#[trigger] self.cell(x, y)).to_set() <= pre.cell(x, y).to_set() by {
                    assert(self.cell(x, y).to_set() <= mid.cell(x, y).to_set());
                    assert forall|b: u8| self.cell(x, y).to_set().contains(b)
                        implies pre.cell(x, y).to_set().contains(b) by {
                        assert(mid.cell(x, y).to_set().contains(b));
                    }
                }
            }
            match step {
                Ok(true) => {},
                Ok(false) => {
                    return Err(SolveError::SearchExhausted);
                },
                Err(e) => {
                    proof {
                        if e == SolveError::Pattern(PatternError::MatchFailed)
                            && hints_answered(*hints, pre.spec_width(), pre.spec_height()) {
                            let t = choose|t: (bool, usize, usize)|
                                (#[trigger] mid.eligible(t)) && minimal_choice(mid, t)
                                    && target_has_hint(*hints, t) && !target_answered(
                                    mid,
                                    *hints,
                                    t,
                                );
                            assert(line_answered(
                                hints.top@[t.1 as int],
                                hints.bottom@[t.1 as int],
                                mid.spec_height(),
                            ) || !t.0);
                            assert(line_answered(
                                hints.left@[t.2 as int],
                                hints.right@[t.2 as int],
                                mid.spec_width(),
                            ) || t.0);
                            assert(false);
                        }
                    }
                    return Err(e);
                },
            }
        }
        let n = self.cells.len();
        let mut g: Vec<u8> = Vec::new();
        proof {
            assert forall|x2: int, y2: int|
                0 <= x2 < self.spec_width() && 0 <= y2 < self.spec_height()
                implies (#[trigger] self.cell(x2, y2)).len() == 1 by {
                lemma_grid_index(x2, y2, self.spec_width(), self.spec_height());
                if self.cell(x2, y2).len() > 1 {
                    assert(self.undecided@.contains((x2 as usize, y2 as usize)));
                }
            }
        }
        for i in 0..n
            invariant
                g@.len() == i,
                forall|k: int| 0 <= k < i ==> #[trigger] g@[k] == self.cells@[k]@[0],
        {
            g.push(self.cells[i][0]);
        }
        proof {
            assert forall|x2: int, y2: int|
                0 <= x2 < self.spec_width() && 0 <= y2 < self.spec_height()
                implies #[trigger] g@[y2 * pre.spec_width() + x2] == self.cell(x2, y2)[0] && pre.cell(
                x2,
                y2,
            ).contains(g@[y2 * pre.spec_width() + x2]) by {
                lemma_grid_index(x2, y2, self.spec_width(), self.spec_height());
                assert(self.cell(x2, y2).contains(self.cell(x2, y2)[0]));
                assert(self.cell(x2, y2).to_set().contains(self.cell(x2, y2)[0]));
                assert(pre.cell(x2, y2).to_set().contains(self.cell(x2, y2)[0]));
            }
        }
        Ok(g)
    }
}

/// The blacklist of a well-formed board leaves room for one more
/// entry.
proof fn lemma_blacklist_len_board(b: &Board)
    requires
        b.inv(),
    ensures
        b.spec_blacklist_len() <= 2 * b.spec_width() * b.spec_height(),
{
    lemma_blacklist_len(b.blacklist@, b.spec_width(), b.spec_height());
}

} // verus!
