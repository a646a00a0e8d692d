//! The board and its mathematical model: a row-major content grid
//! (mines and adjacency counts) and a row-major operational-state grid,
//! together with the spec functions the engine's contracts speak of.

use vstd::prelude::*;

use crate::types::BoardError;
use crate::types::CellContent;
use crate::types::CellState;
use crate::types::Coordinate;

verus! {

/// Mathematical model of a board: the dimensions, the number of mines,
/// and the two grids, each stored row-major with the origin top-left.
#[verifier::ext_equal]
pub struct BoardView {
    pub width: int,
    pub height: int,
    pub bombs: int,
    pub map: Seq<CellContent>,
    pub op: Seq<CellState>,
}

/// Column offset of the k-th of the eight neighbor directions, in the
/// fixed enumeration order the engine uses everywhere.
pub open spec fn offset_dx(k: int) -> int {
    if k == 0 { -1 } else if k == 1 { 0 } else if k == 2 { 1 }
    else if k == 3 { -1 } else if k == 4 { 1 }
    else if k == 5 { -1 } else if k == 6 { 0 } else { 1 }
}

/// Row offset of the k-th of the eight neighbor directions.
pub open spec fn offset_dy(k: int) -> int {
    if k == 0 { 1 } else if k == 1 { 1 } else if k == 2 { 1 }
    else if k == 3 { 0 } else if k == 4 { 0 }
    else { -1 }
}

/// 8-connectivity: the second cell is one of the eight neighbors of the
/// first.
pub open spec fn is_neighbor(x1: int, y1: int, x2: int, y2: int) -> bool {
    exists |k: int| 0 <= k < 8 && x2 == x1 + #[trigger] offset_dx(k) && y2 == y1 + offset_dy(k)
}

/// How many cells of `s` hold a mine.
pub open spec fn count_mines(s: Seq<CellContent>) -> int
    decreases s.len(),
{
    if s.len() == 0 {
        0
    } else {
        count_mines(s.drop_last()) + if s.last() is Mine { 1int } else { 0int }
    }
}

/// How many cells of `s` are revealed.
pub open spec fn count_revealed(s: Seq<CellState>) -> int
    decreases s.len(),
{
    if s.len() == 0 {
        0
    } else {
        count_revealed(s.drop_last()) + if s.last() is Revealed { 1int } else { 0int }
    }
}

/// How many entries of `s` are true.
pub open spec fn count_true(s: Seq<bool>) -> int
    decreases s.len(),
{
    if s.len() == 0 {
        0
    } else {
        count_true(s.drop_last()) + if s.last() { 1int } else { 0int }
    }
}

impl BoardView {
    /// The number of cells of the grid.
    pub open spec fn area(self) -> int {
        self.width * self.height
    }

    pub open spec fn in_bounds(self, x: int, y: int) -> bool {
        0 <= x < self.width && 0 <= y < self.height
    }

    /// Row-major index of a cell.
    pub open spec fn idx(self, x: int, y: int) -> int {
        y * self.width + x
    }

    pub open spec fn cell_at(self, x: int, y: int) -> CellContent {
        self.map[self.idx(x, y)]
    }

    pub open spec fn state_at(self, x: int, y: int) -> CellState {
        self.op[self.idx(x, y)]
    }

    pub open spec fn is_mine(self, x: int, y: int) -> bool {
        self.in_bounds(x, y) && self.cell_at(x, y) is Mine
    }

    /// 1 when the cell is an in-bounds mine, else 0.
    pub open spec fn mine_at(self, x: int, y: int) -> int {
        if self.is_mine(x, y) { 1 } else { 0 }
    }

    /// Mines among the first `k` neighbor directions of a cell.
    pub open spec fn adj_sum(self, x: int, y: int, k: int) -> int
        decreases k,
    {
        if k <= 0 {
            0
        } else {
            self.adj_sum(x, y, k - 1) + self.mine_at(x + offset_dx(k - 1), y + offset_dy(k - 1))
        }
    }

    /// The number of mine-bearing neighbors of a cell under
    /// 8-connectivity.
    pub open spec fn adjacent_mines(self, x: int, y: int) -> int {
        self.adj_sum(x, y, 8)
    }

    /// An in-bounds cell with no mine-bearing neighbor.
    pub open spec fn zero_cell(self, x: int, y: int) -> bool {
        self.in_bounds(x, y) && self.cell_at(x, y) == CellContent::SafeCount(0u8)
    }

    /// There is a path of at most `n` neighbor steps from the first
    /// cell to the second that passes only through zero-count cells.
    pub open spec fn zero_linked(self, x1: int, y1: int, x2: int, y2: int, n: nat) -> bool
        decreases n,
    {
        &&& self.zero_cell(x1, y1)
        &&& self.zero_cell(x2, y2)
        &&& if x1 == x2 && y1 == y2 {
                true
            } else if n == 0 {
                false
            } else {
                exists |k: int|
                    0 <= k < 8 && self.zero_linked(
                        x1,
                        y1,
                        x2 - #[trigger] offset_dx(k),
                        y2 - offset_dy(k),
                        (n - 1) as nat,
                    )
            }
    }

    /// The second cell lies in the maximal connected zero-count region
    /// of the first.
    pub open spec fn zero_reached(self, x1: int, y1: int, x2: int, y2: int) -> bool {
        exists |n: nat| self.zero_linked(x1, y1, x2, y2, n)
    }

    /// Structural well-formedness: consistent dimensions and grid
    /// lengths, dimensions small enough to index.
    pub open spec fn grid_wf(self) -> bool {
        &&& 0 <= self.width <= u16::MAX
        &&& 0 <= self.height <= u16::MAX
        &&& 0 <= self.bombs
        &&& self.map.len() == self.area()
        &&& self.op.len() == self.area()
    }

    /// The content grid is honest: it holds exactly `bombs` mines, and
    /// every safe cell carries the exact count of its mine-bearing
    /// neighbors.
    pub open spec fn content_ok(self) -> bool {
        &&& count_mines(self.map) == self.bombs
        &&& forall |x: int, y: int| #![trigger self.cell_at(x, y)]
                self.in_bounds(x, y) ==> (self.cell_at(x, y) matches CellContent::SafeCount(n)
                    ==> n as int == self.adjacent_mines(x, y))
    }

    /// Every in-bounds neighbor of the cell is revealed.
    pub open spec fn neighbors_revealed(self, x: int, y: int) -> bool {
        forall |k: int|
            0 <= k < 8 && self.in_bounds(x + #[trigger] offset_dx(k), y + offset_dy(k))
                ==> self.state_at(x + offset_dx(k), y + offset_dy(k)) is Revealed
    }

    /// No revealed zero-count cell has a covered neighbor: the state a
    /// finished chain reveal always leaves behind.
    pub open spec fn flood_closed(self) -> bool {
        forall |x: int, y: int|
            #[trigger] self.zero_cell(x, y) && self.state_at(x, y) is Revealed
                ==> self.neighbors_revealed(x, y)
    }

    /// Every cell is covered.
    pub open spec fn all_hidden(self) -> bool {
        forall |i: int| 0 <= i < self.op.len() ==> self.op[i] is Hidden
    }

    /// The win condition: as many revealed cells as there are safe
    /// cells.
    pub open spec fn win_now(self) -> bool {
        count_revealed(self.op) == self.area() - self.bombs
    }

    /// Full board invariant: well-formed grids, honest content, and no
    /// half-finished chain reveal.
    pub open spec fn inv(self) -> bool {
        self.grid_wf() && self.content_ok() && self.flood_closed()
    }
}

pub proof fn lemma_idx_bounds(v: BoardView, x: int, y: int)
    requires
        v.in_bounds(x, y),
    ensures
        0 <= v.idx(x, y) < v.area(),
{
    assert(0 <= y * v.width + x && y * v.width + x < v.width * v.height) by (nonlinear_arith)
        requires
            0 <= x < v.width,
            0 <= y < v.height,
    ;
}

pub proof fn lemma_idx_inj(v: BoardView, x1: int, y1: int, x2: int, y2: int)
    requires
        v.in_bounds(x1, y1),
        v.in_bounds(x2, y2),
        v.idx(x1, y1) == v.idx(x2, y2),
    ensures
        x1 == x2 && y1 == y2,
{
    assert(x1 == x2 && y1 == y2) by (nonlinear_arith)
        requires
            0 <= x1 < v.width,
            0 <= x2 < v.width,
            0 <= y1,
            0 <= y2,
            y1 * v.width + x1 == y2 * v.width + x2,
    ;
}

pub proof fn lemma_adj_sum_bounds(v: BoardView, x: int, y: int, k: int)
    requires
        0 <= k,
    ensures
        0 <= v.adj_sum(x, y, k) <= k,
    decreases k,
{
    if k > 0 {
        lemma_adj_sum_bounds(v, x, y, k - 1);
    }
}

/// A cell with no mine-bearing neighbor among its first `k` directions
/// has none in any single one of them.
pub proof fn lemma_adj_zero_no_mine(v: BoardView, x: int, y: int, k: int, j: int)
    requires
        0 <= j < k,
        v.adj_sum(x, y, k) == 0,
    ensures
        !v.is_mine(x + offset_dx(j), y + offset_dy(j)),
    decreases k,
{
    lemma_adj_sum_bounds(v, x, y, k - 1);
    if j < k - 1 {
        lemma_adj_zero_no_mine(v, x, y, k - 1, j);
    }
}

/// Adjacency counts depend only on the mine positions.
pub proof fn lemma_adj_sum_same(v1: BoardView, v2: BoardView, x: int, y: int, k: int)
    requires
        forall |a: int, b: int| #[trigger] v1.is_mine(a, b) <==> v2.is_mine(a, b),
    ensures
        v1.adj_sum(x, y, k) == v2.adj_sum(x, y, k),
    decreases k,
{
    if k > 0 {
        lemma_adj_sum_same(v1, v2, x, y, k - 1);
        assert(v1.is_mine(x + offset_dx(k - 1), y + offset_dy(k - 1)) <==> v2.is_mine(
            x + offset_dx(k - 1),
            y + offset_dy(k - 1),
        ));
    }
}

pub proof fn lemma_count_mines_bounds(s: Seq<CellContent>)
    ensures
        0 <= count_mines(s) <= s.len(),
    decreases s.len(),
{
    if s.len() > 0 {
        lemma_count_mines_bounds(s.drop_last());
    }
}

pub proof fn lemma_count_revealed_bounds(s: Seq<CellState>)
    ensures
        0 <= count_revealed(s) <= s.len(),
    decreases s.len(),
{
    if s.len() > 0 {
        lemma_count_revealed_bounds(s.drop_last());
    }
}

pub proof fn lemma_count_mines_push(s: Seq<CellContent>, c: CellContent)
    ensures
        count_mines(s.push(c)) == count_mines(s) + if c is Mine { 1int } else { 0int },
{
    assert(s.push(c).drop_last() =~= s);
}

pub proof fn lemma_count_true_push(s: Seq<bool>, c: bool)
    ensures
        count_true(s.push(c)) == count_true(s) + if c { 1int } else { 0int },
{
    assert(s.push(c).drop_last() =~= s);
}

pub proof fn lemma_count_revealed_update(s: Seq<CellState>, i: int, v: CellState)
    requires
        0 <= i < s.len(),
    ensures
        count_revealed(s.update(i, v)) == count_revealed(s)
            - (if s[i] is Revealed { 1int } else { 0int })
            + (if v is Revealed { 1int } else { 0int }),
    decreases s.len(),
{
    if i == s.len() - 1 {
        assert(s.update(i, v).drop_last() =~= s.drop_last());
        assert(s.update(i, v).last() == v);
    } else {
        assert(s.update(i, v).drop_last() =~= s.drop_last().update(i, v));
        lemma_count_revealed_update(s.drop_last(), i, v);
        assert(s.update(i, v).last() == s.last());
    }
}

pub proof fn lemma_count_true_update(s: Seq<bool>, i: int, v: bool)
    requires
        0 <= i < s.len(),
    ensures
        count_true(s.update(i, v)) == count_true(s)
            - (if s[i] { 1int } else { 0int })
            + (if v { 1int } else { 0int }),
    decreases s.len(),
{
    if i == s.len() - 1 {
        assert(s.update(i, v).drop_last() =~= s.drop_last());
        assert(s.update(i, v).last() == v);
    } else {
        assert(s.update(i, v).drop_last() =~= s.drop_last().update(i, v));
        lemma_count_true_update(s.drop_last(), i, v);
        assert(s.update(i, v).last() == s.last());
    }
}

/// Two content grids with the same mines in the same places hold the
/// same number of mines.
pub proof fn lemma_count_mines_pointwise(s1: Seq<CellContent>, s2: Seq<CellContent>)
    requires
        s1.len() == s2.len(),
        forall |j: int| 0 <= j < s1.len() ==> (s1[j] is Mine <==> s2[j] is Mine),
    ensures
        count_mines(s1) == count_mines(s2),
    decreases s1.len(),
{
    if s1.len() > 0 {
        lemma_count_mines_pointwise(s1.drop_last(), s2.drop_last());
    }
}

/// A change of the operational grid alone does not touch the content
/// facts.
pub proof fn lemma_content_ok_same(v1: BoardView, v2: BoardView)
    requires
        v2.width == v1.width,
        v2.height == v1.height,
        v2.bombs == v1.bombs,
        v2.map == v1.map,
        v1.content_ok(),
    ensures
        v2.content_ok(),
{
    assert forall |a: int, b: int| #[trigger] v1.is_mine(a, b) <==> v2.is_mine(a, b) by {};
    assert forall |x: int, y: int| #![trigger v2.cell_at(x, y)] v2.in_bounds(x, y) implies
        (v2.cell_at(x, y) matches CellContent::SafeCount(n) ==> n as int == v2.adjacent_mines(
            x,
            y,
        )) by {
        lemma_adj_sum_same(v1, v2, x, y, 8);
        assert(v1.cell_at(x, y) == v2.cell_at(x, y));
    };
}

/// The list holds a coordinate with the given components.
pub open spec fn in_list(w: Seq<Coordinate>, x: int, y: int) -> bool {
    exists |i: int| #![trigger w[i]] 0 <= i < w.len() && w[i].x as int == x && w[i].y as int == y
}

/// The in-bounds neighbors of a cell among its first `k` directions, in
/// enumeration order.
pub open spec fn neighbor_seq(v: BoardView, x: int, y: int, k: int) -> Seq<Coordinate>
    decreases k,
{
    if k <= 0 {
        Seq::empty()
    } else {
        let rest = neighbor_seq(v, x, y, k - 1);
        let nx = x + offset_dx(k - 1);
        let ny = y + offset_dy(k - 1);
        if v.in_bounds(nx, ny) {
            rest.push(Coordinate { x: nx as u16, y: ny as u16 })
        } else {
            rest
        }
    }
}

/// The not-yet-revealed in-bounds neighbors of a cell among its first
/// `k` directions, in enumeration order: the cells a chain reveal is
/// still allowed to open, flagged ones included.
pub open spec fn cover_seq(v: BoardView, x: int, y: int, k: int) -> Seq<Coordinate>
    decreases k,
{
    if k <= 0 {
        Seq::empty()
    } else {
        let rest = cover_seq(v, x, y, k - 1);
        let nx = x + offset_dx(k - 1);
        let ny = y + offset_dy(k - 1);
        if v.in_bounds(nx, ny) && !(v.state_at(nx, ny) is Revealed) {
            rest.push(Coordinate { x: nx as u16, y: ny as u16 })
        } else {
            rest
        }
    }
}

pub proof fn lemma_neighbor_seq_len(v: BoardView, x: int, y: int, k: int)
    requires
        0 <= k,
    ensures
        neighbor_seq(v, x, y, k).len() <= k,
    decreases k,
{
    if k > 0 {
        lemma_neighbor_seq_len(v, x, y, k - 1);
    }
}

/// Every in-bounds neighbor direction is represented in the
/// enumeration.
pub proof fn lemma_neighbor_seq_complete(v: BoardView, x: int, y: int, k: int, j: int)
    requires
        0 <= j < k <= 8,
        v.width <= u16::MAX,
        v.height <= u16::MAX,
        v.in_bounds(x + offset_dx(j), y + offset_dy(j)),
    ensures
        in_list(neighbor_seq(v, x, y, k), x + offset_dx(j), y + offset_dy(j)),
    decreases k,
{
    let w = neighbor_seq(v, x, y, k);
    if j == k - 1 {
        let rest = neighbor_seq(v, x, y, k - 1);
        assert(w[rest.len() as int].x as int == x + offset_dx(j));
        assert(w[rest.len() as int].y as int == y + offset_dy(j));
    } else {
        lemma_neighbor_seq_complete(v, x, y, k - 1, j);
        let rest = neighbor_seq(v, x, y, k - 1);
        let i = choose |i: int|
            #![trigger rest[i]]
            0 <= i < rest.len() && rest[i].x as int == x + offset_dx(j) && rest[i].y as int == y
                + offset_dy(j);
        assert(w[i] == rest[i]);
    }
}

/// Everything the enumeration holds is an in-bounds neighbor.
pub proof fn lemma_neighbor_seq_sound(v: BoardView, x: int, y: int, k: int, i: int)
    requires
        0 <= k <= 8,
        v.width <= u16::MAX,
        v.height <= u16::MAX,
        0 <= i < neighbor_seq(v, x, y, k).len(),
    ensures
        exists |j: int|
            0 <= j < k && v.in_bounds(x + #[trigger] offset_dx(j), y + offset_dy(j))
                && neighbor_seq(v, x, y, k)[i] == (Coordinate {
                x: (x + offset_dx(j)) as u16,
                y: (y + offset_dy(j)) as u16,
            }),
    decreases k,
{
    let rest = neighbor_seq(v, x, y, k - 1);
    if v.in_bounds(x + offset_dx(k - 1), y + offset_dy(k - 1)) && i == rest.len() {
        assert(0 <= k - 1 < k && v.in_bounds(x + offset_dx(k - 1), y + offset_dy(k - 1))
            && neighbor_seq(v, x, y, k)[i] == (Coordinate {
            x: (x + offset_dx(k - 1)) as u16,
            y: (y + offset_dy(k - 1)) as u16,
        }));
    } else {
        lemma_neighbor_seq_sound(v, x, y, k - 1, i);
        assert(neighbor_seq(v, x, y, k)[i] == rest[i]);
    }
}

/// The glyph of one cell in the textual dump: an asterisk for a mine,
/// the count's digit otherwise.
pub open spec fn cell_char(c: CellContent) -> u8 {
    match c {
        CellContent::Mine => 42u8,
        CellContent::SafeCount(n) => if n <= 8 {
            (48 + n as int) as u8
        } else {
            63u8
        },
    }
}

/// A separator line of `k` dashes.
pub open spec fn dash_line(k: int) -> Seq<u8>
    decreases k,
{
    if k <= 0 {
        Seq::empty()
    } else {
        dash_line(k - 1).push(45u8)
    }
}

/// The first `k` cells of row `y`, each as a space and a glyph.
pub open spec fn row_render(v: BoardView, y: int, k: int) -> Seq<u8>
    decreases k,
{
    if k <= 0 {
        Seq::empty()
    } else {
        row_render(v, y, k - 1) + seq![32u8, cell_char(v.map[v.idx(k - 1, y)])]
    }
}

/// The first `k` rows, each between bars and ended by a newline.
pub open spec fn rows_render(v: BoardView, k: int) -> Seq<u8>
    decreases k,
{
    if k <= 0 {
        Seq::empty()
    } else {
        rows_render(v, k - 1) + seq![124u8] + row_render(v, k - 1, v.width) + seq![
            32u8,
            124u8,
            10u8,
        ]
    }
}

/// The whole textual dump of the content grid, bordered by separator
/// lines.
pub open spec fn board_render(v: BoardView) -> Seq<u8> {
    dash_line(2 * v.width + 3) + seq![10u8] + rows_render(v, v.height) + dash_line(2 * v.width + 3)
}

/// The characters of an ASCII byte sequence.
pub open spec fn ascii_chars(s: Seq<u8>) -> Seq<char> {
    s.map_values(|b: u8| b as char)
}

pub proof fn lemma_dash_line_ascii(k: int)
    ensures
        forall |i: int| 0 <= i < dash_line(k).len() ==> dash_line(k)[i] < 128,
    decreases k,
{
    if k > 0 {
        lemma_dash_line_ascii(k - 1);
        assert forall |i: int| 0 <= i < dash_line(k).len() implies dash_line(k)[i] < 128 by {
            if i < dash_line(k - 1).len() {
                assert(dash_line(k)[i] == dash_line(k - 1)[i]);
            } else {
                assert(dash_line(k)[i] == 45u8);
            }
        };
    }
}

pub proof fn lemma_row_render_ascii(v: BoardView, y: int, k: int)
    ensures
        forall |i: int| 0 <= i < row_render(v, y, k).len() ==> row_render(v, y, k)[i] < 128,
    decreases k,
{
    if k > 0 {
        lemma_row_render_ascii(v, y, k - 1);
        let prev = row_render(v, y, k - 1);
        assert forall |i: int| 0 <= i < row_render(v, y, k).len() implies row_render(v, y, k)[i]
            < 128 by {
            if i < prev.len() {
                assert(row_render(v, y, k)[i] == prev[i]);
            } else if i == prev.len() {
                assert(row_render(v, y, k)[i] == 32u8);
            } else {
                assert(row_render(v, y, k)[i] == cell_char(v.map[v.idx(k - 1, y)]));
            }
        };
    }
}

pub proof fn lemma_rows_render_ascii(v: BoardView, k: int)
    ensures
        forall |i: int| 0 <= i < rows_render(v, k).len() ==> rows_render(v, k)[i] < 128,
    decreases k,
{
    if k > 0 {
        lemma_rows_render_ascii(v, k - 1);
        lemma_row_render_ascii(v, k - 1, v.width);
        let prev = rows_render(v, k - 1);
        let row = row_render(v, k - 1, v.width);
        assert forall |i: int| 0 <= i < rows_render(v, k).len() implies rows_render(v, k)[i]
            < 128 by {
            if i < prev.len() {
                assert(rows_render(v, k)[i] == prev[i]);
            } else if i == prev.len() {
                assert(rows_render(v, k)[i] == 124u8);
            } else if i < prev.len() + 1 + row.len() {
                assert(rows_render(v, k)[i] == row[i - prev.len() - 1]);
            } else if i == prev.len() + 1 + row.len() {
                assert(rows_render(v, k)[i] == 32u8);
            } else if i == prev.len() + 2 + row.len() {
                assert(rows_render(v, k)[i] == 124u8);
            } else {
                assert(rows_render(v, k)[i] == 10u8);
            }
        };
    }
}

/// Every byte of the textual dump is ASCII.
pub proof fn lemma_board_render_ascii(v: BoardView)
    ensures
        forall |i: int| 0 <= i < board_render(v).len() ==> board_render(v)[i] < 128,
{
    lemma_dash_line_ascii(2 * v.width + 3);
    lemma_rows_render_ascii(v, v.height);
}

/// Relies on String::from_utf8: a buffer of ASCII bytes is valid UTF-8
/// and decodes to exactly those characters, one per byte.
#[verifier::external_body]
fn ascii_to_string(bytes: Vec<u8>) -> (r: String)
    requires
        forall |i: int| 0 <= i < bytes@.len() ==> bytes@[i] < 128,
    ensures
        r@ == ascii_chars(bytes@),
{
    match String::from_utf8(bytes) {
        Ok(s) => s,
        Err(_) => String::new(),
    }
}

/// The board: the content grid, the operational-state grid, and the
/// configuration they were generated from. Callers are meant to go
/// through the engine's operations, which keep the invariant `inv`;
/// writing the grids directly voids every contract that relies on it.
#[derive(Debug)]
pub struct Board {
    pub width: u16,
    pub height: u16,
    pub bomb_count: u16,
    pub map: Vec<CellContent>,
    pub op_map: Vec<CellState>,
}

impl View for Board {
    type V = BoardView;

    open spec fn view(&self) -> BoardView {
        BoardView {
            width: self.width as int,
            height: self.height as int,
            bombs: self.bomb_count as int,
            map: self.map@,
            op: self.op_map@,
        }
    }
}

impl Default for Board {
    /// The empty board: every intent on it is out of bounds until a
    /// reset gives it a real grid.
    fn default() -> (b: Self)
        ensures
            b@.width == 0 && b@.height == 0 && b@.bombs == 0,
            b@.map.len() == 0 && b@.op.len() == 0,
            b@.inv(),
    {
        let b = Board {
            width: 0,
            height: 0,
            bomb_count: 0,
            map: Vec::new(),
            op_map: Vec::new(),
        };
        proof {
            assert(count_mines(b@.map) == 0);
        }
        b
    }
}

impl Board {
    pub fn width(&self) -> (r: u16)
        ensures
            r as int == self@.width,
    {
        self.width
    }

    pub fn height(&self) -> (r: u16)
        ensures
            r as int == self@.height,
    {
        self.height
    }

    pub fn bomb_count(&self) -> (r: u16)
        ensures
            r as int == self@.bombs,
    {
        self.bomb_count
    }

    pub fn contains(&self, c: Coordinate) -> (r: bool)
        ensures
            r == self@.in_bounds(c.x as int, c.y as int),
    {
        c.x < self.width && c.y < self.height
    }

    /// Row-major index of an in-bounds coordinate.
    pub(crate) fn index_of(&self, c: Coordinate) -> (i: usize)
        requires
            self@.grid_wf(),
            self@.in_bounds(c.x as int, c.y as int),
        ensures
            i as int == self@.idx(c.x as int, c.y as int),
            i < self@.map.len(),
            i < self@.op.len(),
    {
        proof {
            lemma_idx_bounds(self@, c.x as int, c.y as int);
        }
        let n = self.map.len();
        assert(self@.area() <= usize::MAX as int);
        (c.y as usize) * (self.width as usize) + (c.x as usize)
    }

    pub fn is_bomb_at(&self, c: Coordinate) -> (r: bool)
        requires
            self@.grid_wf(),
            self@.in_bounds(c.x as int, c.y as int),
        ensures
            r == self@.is_mine(c.x as int, c.y as int),
    {
        let i = self.index_of(c);
        match self.map[i] {
            CellContent::Mine => true,
            CellContent::SafeCount(_) => false,
        }
    }

    /// The raw (content, state) pair of a cell, enough for a caller to
    /// pick a rendering for it, also after the game ends.
    pub fn cell_info(&self, c: Coordinate) -> (r: Result<(CellContent, CellState), BoardError>)
        requires
            self@.grid_wf(),
        ensures
            match r {
                Ok(p) => self@.in_bounds(c.x as int, c.y as int)
                    && p.0 == self@.cell_at(c.x as int, c.y as int)
                    && p.1 == self@.state_at(c.x as int, c.y as int),
                Err(e) => e == BoardError::OutOfBounds && !self@.in_bounds(c.x as int, c.y as int),
            },
    {
        if !self.contains(c) {
            return Err(BoardError::OutOfBounds);
        }
        let i = self.index_of(c);
        Ok((self.map[i], self.op_map[i]))
    }

    /// The in-bounds neighbor of a cell in direction `k`, following the
    /// fixed enumeration order of the eight offsets.
    fn neighbor_at(&self, c: Coordinate, k: usize) -> (r: Option<Coordinate>)
        requires
            k < 8,
            self@.in_bounds(c.x as int, c.y as int),
        ensures
            match r {
                Some(d) => self@.in_bounds(d.x as int, d.y as int)
                    && d.x as int == c.x as int + offset_dx(k as int)
                    && d.y as int == c.y as int + offset_dy(k as int),
                None => !self@.in_bounds(
                    c.x as int + offset_dx(k as int),
                    c.y as int + offset_dy(k as int),
                ),
            },
    {
        let (dx, dy): (i32, i32) = match k {
            0 => (-1, 1),
            1 => (0, 1),
            2 => (1, 1),
            3 => (-1, 0),
            4 => (1, 0),
            5 => (-1, -1),
            6 => (0, -1),
            _ => (1, -1),
        };
        let nx = c.x as i32 + dx;
        let ny = c.y as i32 + dy;
        if 0 <= nx && nx < self.width as i32 && 0 <= ny && ny < self.height as i32 {
            Some(Coordinate { x: nx as u16, y: ny as u16 })
        } else {
            None
        }
    }

    /// The number of mine-bearing neighbors of a safe cell; 0 for a
    /// mine cell itself.
    pub fn bomb_count_at(&self, c: Coordinate) -> (r: u8)
        requires
            self@.grid_wf(),
            self@.in_bounds(c.x as int, c.y as int),
        ensures
            !self@.is_mine(c.x as int, c.y as int)
                ==> r as int == self@.adjacent_mines(c.x as int, c.y as int),
            self@.is_mine(c.x as int, c.y as int) ==> r == 0,
    {
        if self.is_bomb_at(c) {
            return 0;
        }
        let mut n: u8 = 0;
        let mut k: usize = 0;
        while k < 8
            invariant
                k <= 8,
                self@.grid_wf(),
                self@.in_bounds(c.x as int, c.y as int),
                n as int == self@.adj_sum(c.x as int, c.y as int, k as int),
                n <= k,
            decreases 8 - k,
        {
            match self.neighbor_at(c, k) {
                Some(d) => {
                    if self.is_bomb_at(d) {
                        n = n + 1;
                    }
                },
                None => {},
            }
            k = k + 1;
        }
        n
    }

    /// The in-bounds neighbors of a cell, in the fixed enumeration
    /// order of the eight offsets.
    pub fn safe_square_at(&self, c: Coordinate) -> (r: Vec<Coordinate>)
        requires
            self@.in_bounds(c.x as int, c.y as int),
        ensures
            r@ == neighbor_seq(self@, c.x as int, c.y as int, 8),
    {
        let mut r: Vec<Coordinate> = Vec::new();
        let mut k: usize = 0;
        while k < 8
            invariant
                k <= 8,
                self@.in_bounds(c.x as int, c.y as int),
                r@ == neighbor_seq(self@, c.x as int, c.y as int, k as int),
            decreases 8 - k,
        {
            match self.neighbor_at(c, k) {
                Some(d) => {
                    proof {
                        assert(d == (Coordinate {
                            x: (c.x as int + offset_dx(k as int)) as u16,
                            y: (c.y as int + offset_dy(k as int)) as u16,
                        }));
                    }
                    r.push(d);
                },
                None => {},
            }
            k = k + 1;
        }
        r
    }

    /// The not-yet-revealed in-bounds neighbors of a cell, in the fixed
    /// enumeration order of the eight offsets: the cells a chain reveal
    /// from this cell would still open, flagged ones included.
    pub fn adust_cover_around(&self, c: Coordinate) -> (r: Vec<Coordinate>)
        requires
            self@.grid_wf(),
            self@.in_bounds(c.x as int, c.y as int),
        ensures
            r@ == cover_seq(self@, c.x as int, c.y as int, 8),
    {
        let mut r: Vec<Coordinate> = Vec::new();
        let mut k: usize = 0;
        while k < 8
            invariant
                k <= 8,
                self@.grid_wf(),
                self@.in_bounds(c.x as int, c.y as int),
                r@ == cover_seq(self@, c.x as int, c.y as int, k as int),
            decreases 8 - k,
        {
            match self.neighbor_at(c, k) {
                Some(d) => {
                    proof {
                        assert(d == (Coordinate {
                            x: (c.x as int + offset_dx(k as int)) as u16,
                            y: (c.y as int + offset_dy(k as int)) as u16,
                        }));
                    }
                    let i = self.index_of(d);
                    match self.op_map[i] {
                        CellState::Revealed => {},
                        _ => {
                            r.push(d);
                        },
                    }
                },
                None => {},
            }
            k = k + 1;
        }
        r
    }

    /// A human-readable dump of the content grid, for diagnostics and
    /// test fixtures: rows of glyphs between separator lines.
    #[verifier::loop_isolation(false)]
    pub fn console_output(&self) -> (r: String)
        requires
            self@.grid_wf(),
        ensures
            r@ == ascii_chars(board_render(self@)),
    {
        let width = self.width;
        let height = self.height;
        let sep_len: usize = 2 * (width as usize) + 3;
        let mut bytes: Vec<u8> = Vec::new();
        let mut k: usize = 0;
        while k < sep_len
            invariant
                k <= sep_len,
                bytes@ == dash_line(k as int),
            decreases sep_len - k,
        {
            bytes.push(45);
            k = k + 1;
        }
        bytes.push(10);
        let ghost head = bytes@;
        proof {
            assert(head =~= dash_line(2 * self@.width + 3) + seq![10u8]);
        }
        let mut y: u16 = 0;
        while y < height
            invariant
                y <= height,
                bytes@ == head + rows_render(self@, y as int),
            decreases height - y,
        {
            let ghost row_head = bytes@;
            bytes.push(124);
            let mut x: u16 = 0;
            while x < width
                invariant
                    x <= width,
                    y < height,
                    bytes@ == row_head + seq![124u8] + row_render(self@, y as int, x as int),
                decreases width - x,
            {
                let c = Coordinate::new(x, y);
                let i = self.index_of(c);
                let ch: u8 = match self.map[i] {
                    CellContent::Mine => 42,
                    CellContent::SafeCount(n) => if n <= 8 {
                        48 + n
                    } else {
                        63
                    },
                };
                bytes.push(32);
                bytes.push(ch);
                proof {
                    assert(bytes@ =~= row_head + seq![124u8] + row_render(
                        self@,
                        y as int,
                        x as int + 1,
                    ));
                }
                x = x + 1;
            }
            bytes.push(32);
            bytes.push(124);
            bytes.push(10);
            proof {
                assert(bytes@ =~= head + rows_render(self@, y as int + 1));
            }
            y = y + 1;
        }
        let ghost body = bytes@;
        let mut k2: usize = 0;
        while k2 < sep_len
            invariant
                k2 <= sep_len,
                bytes@ == body + dash_line(k2 as int),
            decreases sep_len - k2,
        {
            proof {
                assert(body + dash_line(k2 as int + 1) =~= (body + dash_line(k2 as int)).push(
                    45u8,
                ));
            }
            bytes.push(45);
            k2 = k2 + 1;
        }
        proof {
            assert(bytes@ =~= board_render(self@));
            lemma_board_render_ascii(self@);
        }
        ascii_to_string(bytes)
    }

    /// How many cells are currently revealed.
    pub fn revealed_count(&self) -> (r: usize)
        ensures
            r as int == count_revealed(self@.op),
    {
        let mut n: usize = 0;
        let mut i: usize = 0;
        let len = self.op_map.len();
        while i < len
            invariant
                i <= len,
                len == self@.op.len(),
                n <= i,
                n as int == count_revealed(self@.op.take(i as int)),
            decreases len - i,
        {
            proof {
                assert(self@.op.take(i + 1 as int).drop_last() =~= self@.op.take(i as int));
                assert(self@.op.take(i + 1 as int).last() == self@.op[i as int]);
            }
            match self.op_map[i] {
                CellState::Revealed => {
                    n = n + 1;
                },
                _ => {},
            }
            i = i + 1;
        }
        proof {
            assert(self@.op.take(len as int) =~= self@.op);
        }
        n
    }
}

} // verus!
