//! Grid generation: random mine placement by a Fisher-Yates shuffle,
//! deterministic placement from a given mine list, and the adjacency
//! fill both share.

use vstd::prelude::*;

use rand::Rng;

use crate::board::Board;
use crate::board::BoardView;
use crate::board::count_mines;
use crate::board::count_true;
use crate::board::in_list;
use crate::board::lemma_adj_sum_same;
use crate::board::lemma_count_mines_pointwise;
use crate::board::lemma_count_mines_push;
use crate::board::lemma_count_true_push;
use crate::board::lemma_count_true_update;
use crate::board::lemma_idx_bounds;
use crate::board::lemma_idx_inj;
use crate::types::BoardError;
use crate::types::BoardOptions;
use crate::types::CellContent;
use crate::types::CellState;
use crate::types::Coordinate;

verus! {

/// A board freshly generated from the given configuration: the right
/// dimensions and mine count, an honest content grid, every cell
/// covered.
pub open spec fn fresh_board(v: BoardView, options: BoardOptions) -> bool {
    &&& v.width == options.width as int
    &&& v.height == options.height as int
    &&& v.bombs == options.bomb_count as int
    &&& v.inv()
    &&& v.all_hidden()
}

/// Every listed mine lies on the configured grid.
pub open spec fn mines_in_bounds(options: BoardOptions, mines: Seq<Coordinate>) -> bool {
    forall |j: int| #![trigger mines[j]]
        0 <= j < mines.len() ==> mines[j].x < options.width && mines[j].y < options.height
}

/// No coordinate is listed twice.
pub open spec fn mines_distinct(mines: Seq<Coordinate>) -> bool {
    forall |j1: int, j2: int| 0 <= j1 < j2 < mines.len() ==> mines[j1] != mines[j2]
}

/// Relies on rand::thread_rng and rand::Rng::gen_range: a draw from the
/// non-empty inclusive range `0..=max` lies in that range, whatever the
/// generator returns.
#[verifier::external_body]
fn random_index_up_to(max: usize) -> (r: usize)
    ensures
        r <= max,
{
    rand::thread_rng().gen_range(0..=max)
}

/// A mask of `area` slots of which exactly `bombs` are set, arranged by
/// a Fisher-Yates shuffle over the whole array.
#[verifier::loop_isolation(false)]
fn random_mask(area: usize, bombs: usize) -> (m: Vec<bool>)
    requires
        bombs <= area,
    ensures
        m@.len() == area as int,
        count_true(m@) == bombs as int,
{
    let mut m: Vec<bool> = Vec::new();
    let mut i: usize = 0;
    while i < area
        invariant
            i <= area,
            m@.len() == i as int,
            count_true(m@) == if i <= bombs { i as int } else { bombs as int },
        decreases area - i,
    {
        proof {
            lemma_count_true_push(m@, i < bombs);
        }
        m.push(i < bombs);
        i = i + 1;
    }
    let mut j: usize = area;
    while j > 1
        invariant
            j <= area,
            m@.len() == area as int,
            count_true(m@) == bombs as int,
        decreases j,
    {
        j = j - 1;
        let t = random_index_up_to(j);
        let a = m[j];
        let b = m[t];
        proof {
            lemma_count_true_update(m@, j as int, b);
            lemma_count_true_update(m@.update(j as int, b), t as int, a);
        }
        m[j] = b;
        m[t] = a;
    }
    m
}

impl Board {
    /// Replace both grids wholesale: mines where the mask is set, every
    /// safe cell's count filled in, every cell covered.
    #[verifier::loop_isolation(false)]
    fn apply_mask(&mut self, options: &BoardOptions, mask: &Vec<bool>)
        requires
            options.valid(),
            mask@.len() == options.spec_area(),
            count_true(mask@) == options.bomb_count as int,
        ensures
            fresh_board(final(self)@, *options),
            forall |i: int| 0 <= i < mask@.len()
                ==> (#[trigger] final(self)@.map[i] is Mine <==> mask@[i]),
    {
        let width = options.width;
        let height = options.height;
        let area = mask.len();
        let mut map: Vec<CellContent> = Vec::new();
        let mut i: usize = 0;
        while i < area
            invariant
                i <= area,
                map@.len() == i as int,
                forall |j: int| 0 <= j < i as int ==> (#[trigger] map@[j] is Mine <==> mask@[j]),
                count_mines(map@) == count_true(mask@.take(i as int)),
            decreases area - i,
        {
            let cell = if mask[i] {
                CellContent::Mine
            } else {
                CellContent::SafeCount(0)
            };
            proof {
                lemma_count_mines_push(map@, cell);
                assert(mask@.take(i + 1 as int).drop_last() =~= mask@.take(i as int));
                assert(mask@.take(i + 1 as int).last() == mask@[i as int]);
            }
            map.push(cell);
            i = i + 1;
        }
        proof {
            assert(mask@.take(area as int) =~= mask@);
        }
        let mut op: Vec<CellState> = Vec::new();
        let mut i2: usize = 0;
        while i2 < area
            invariant
                i2 <= area,
                op@.len() == i2 as int,
                forall |j: int| 0 <= j < i2 as int ==> op@[j] is Hidden,
            decreases area - i2,
        {
            op.push(CellState::Hidden);
            i2 = i2 + 1;
        }
        self.width = width;
        self.height = height;
        self.bomb_count = options.bomb_count;
        self.map = map;
        self.op_map = op;
        let ghost m0 = self@;
        self.fill_counts();
        proof {
            lemma_count_mines_pointwise(self@.map, m0.map);
            assert forall |x: int, y: int| self@.zero_cell(x, y) implies self@.state_at(x, y)
                is Hidden by {
                lemma_idx_bounds(self@, x, y);
            };
        }
    }

    /// Walk the grid and store in every safe cell the exact count of
    /// its mine-bearing neighbors.
    #[verifier::loop_isolation(false)]
    fn fill_counts(&mut self)
        requires
            old(self)@.grid_wf(),
        ensures
            final(self)@.width == old(self)@.width,
            final(self)@.height == old(self)@.height,
            final(self)@.bombs == old(self)@.bombs,
            final(self)@.op == old(self)@.op,
            final(self)@.grid_wf(),
            forall |j: int| 0 <= j < old(self)@.map.len()
                ==> (#[trigger] final(self)@.map[j] is Mine <==> old(self)@.map[j] is Mine),
            forall |a: int, b: int| #![trigger final(self)@.cell_at(a, b)]
                final(self)@.in_bounds(a, b)
                    ==> (final(self)@.cell_at(a, b) matches CellContent::SafeCount(n)
                        ==> n as int == final(self)@.adjacent_mines(a, b)),
    {
        let width = self.width;
        let height = self.height;
        let mut y: u16 = 0;
        while y < height
            invariant
                y <= height,
                self@.width == old(self)@.width,
                self@.height == old(self)@.height,
                self@.bombs == old(self)@.bombs,
                self@.op == old(self)@.op,
                self@.map.len() == old(self)@.map.len(),
                forall |j: int| 0 <= j < old(self)@.map.len()
                    ==> (#[trigger] self@.map[j] is Mine <==> old(self)@.map[j] is Mine),
                forall |a: int, b: int| #![trigger self@.cell_at(a, b)]
                    self@.in_bounds(a, b) && b < y as int
                        ==> (self@.cell_at(a, b) matches CellContent::SafeCount(n)
                            ==> n as int == self@.adjacent_mines(a, b)),
            decreases height - y,
        {
            let mut x: u16 = 0;
            while x < width
                invariant
                    x <= width,
                    y < height,
                    self@.width == old(self)@.width,
                    self@.height == old(self)@.height,
                    self@.bombs == old(self)@.bombs,
                    self@.op == old(self)@.op,
                    self@.map.len() == old(self)@.map.len(),
                    forall |j: int| 0 <= j < old(self)@.map.len()
                        ==> (#[trigger] self@.map[j] is Mine <==> old(self)@.map[j] is Mine),
                    forall |a: int, b: int| #![trigger self@.cell_at(a, b)]
                        self@.in_bounds(a, b) && (b < y as int || (b == y as int && a < x as int))
                            ==> (self@.cell_at(a, b) matches CellContent::SafeCount(n)
                                ==> n as int == self@.adjacent_mines(a, b)),
                decreases width - x,
            {
                let c = Coordinate::new(x, y);
                if !self.is_bomb_at(c) {
                    let n = self.bomb_count_at(c);
                    let i = self.index_of(c);
                    let ghost before = self@;
                    self.map[i] = CellContent::SafeCount(n);
                    proof {
                        assert forall |a: int, b: int| #[trigger] before.is_mine(a, b)
                            <==> self@.is_mine(a, b) by {
                            if before.in_bounds(a, b) {
                                lemma_idx_bounds(before, a, b);
                            }
                        };
                        assert forall |a: int, b: int| self@.in_bounds(a, b) implies
                            #[trigger] self@.adjacent_mines(a, b) == before.adjacent_mines(a, b) by {
                            lemma_adj_sum_same(self@, before, a, b, 8);
                        };
                        assert forall |a: int, b: int|
                            self@.in_bounds(a, b) && !(a == x as int && b == y as int) implies
                            #[trigger] self@.cell_at(a, b) == before.cell_at(a, b) by {
                            lemma_idx_bounds(before, a, b);
                            if before.idx(a, b) == i as int {
                                lemma_idx_inj(before, a, b, x as int, y as int);
                            }
                        };
                    }
                }
                x = x + 1;
            }
            y = y + 1;
        }
    }

    /// Discard the previous grids and generate a fresh board for the
    /// given configuration: exactly `bomb_count` mines placed by a
    /// uniform shuffle, every safe cell holding its exact neighbor-mine
    /// count, every cell covered. An invalid configuration is rejected
    /// and keeps the previous board.
    pub fn reset(&mut self, options: &BoardOptions) -> (r: Result<(), BoardError>)
        ensures
            match r {
                Ok(()) => options.valid() && fresh_board(final(self)@, *options),
                Err(e) => e == BoardError::InvalidConfig && !options.valid()
                    && *final(self) == *old(self),
            },
    {
        if !options.is_valid() {
            return Err(BoardError::InvalidConfig);
        }
        proof {
            assert((options.width as int) * (options.height as int) <= 65535int * 65535int)
                by (nonlinear_arith)
                requires
                    options.width <= 65535,
                    options.height <= 65535,
            ;
        }
        let area = (options.width as usize) * (options.height as usize);
        let bombs = options.bomb_count as usize;
        let mask = random_mask(area, bombs);
        self.apply_mask(options, &mask);
        Ok(())
    }

    /// Discard the previous grids and build a fresh board whose mines
    /// sit exactly at the listed coordinates: the deterministic
    /// counterpart of `reset`, for callers that inject the placement.
    /// The list must match the configured mine count, stay on the grid
    /// and name no coordinate twice; a bad intent is rejected and keeps
    /// the previous board.
    #[verifier::loop_isolation(false)]
    pub fn reset_with_mines(&mut self, options: &BoardOptions, mines: &Vec<Coordinate>) -> (r:
        Result<(), BoardError>)
        ensures
            match r {
                Ok(()) => {
                    &&& options.valid()
                    &&& mines@.len() == options.bomb_count as int
                    &&& mines_in_bounds(*options, mines@)
                    &&& mines_distinct(mines@)
                    &&& fresh_board(final(self)@, *options)
                    &&& forall |x: int, y: int|
                        final(self)@.in_bounds(x, y)
                            ==> (#[trigger] final(self)@.is_mine(x, y) <==> in_list(mines@, x, y))
                },
                Err(e) => *final(self) == *old(self) && (if !options.valid() || mines@.len()
                    != options.bomb_count as int {
                    e == BoardError::InvalidConfig
                } else if !mines_in_bounds(*options, mines@) {
                    e == BoardError::OutOfBounds
                } else {
                    e == BoardError::InvalidConfig && !mines_distinct(mines@)
                }),
            },
    {
        if !options.is_valid() {
            return Err(BoardError::InvalidConfig);
        }
        if mines.len() != options.bomb_count as usize {
            return Err(BoardError::InvalidConfig);
        }
        let mut j: usize = 0;
        while j < mines.len()
            invariant
                j <= mines@.len(),
                forall |t: int| #![trigger mines@[t]]
                    0 <= t < j as int
                        ==> mines@[t].x < options.width && mines@[t].y < options.height,
            decreases mines@.len() - j,
        {
            let c = mines[j];
            if !(c.x < options.width && c.y < options.height) {
                return Err(BoardError::OutOfBounds);
            }
            j = j + 1;
        }
        proof {
            assert((options.width as int) * (options.height as int) <= 65535int * 65535int)
                by (nonlinear_arith)
                requires
                    options.width <= 65535,
                    options.height <= 65535,
            ;
        }
        let area = (options.width as usize) * (options.height as usize);
        let ghost gv = BoardView {
            width: options.width as int,
            height: options.height as int,
            bombs: options.bomb_count as int,
            map: Seq::empty(),
            op: Seq::empty(),
        };
        let mut mask: Vec<bool> = Vec::new();
        let mut f: usize = 0;
        while f < area
            invariant
                f <= area,
                mask@.len() == f as int,
                count_true(mask@) == 0,
                forall |i: int| 0 <= i < f as int ==> !(#[trigger] mask@[i]),
            decreases area - f,
        {
            proof {
                lemma_count_true_push(mask@, false);
            }
            mask.push(false);
            f = f + 1;
        }
        let mut p: usize = 0;
        while p < mines.len()
            invariant
                p <= mines@.len(),
                mask@.len() == area as int,
                count_true(mask@) == p as int,
                forall |i: int| 0 <= i < area as int
                    ==> (#[trigger] mask@[i] <==> exists |t: int| #![trigger mines@[t]]
                        0 <= t < p as int && gv.idx(mines@[t].x as int, mines@[t].y as int) == i),
                forall |t1: int, t2: int| #![trigger mines@[t1], mines@[t2]]
                    0 <= t1 < t2 < p as int
                        ==> gv.idx(mines@[t1].x as int, mines@[t1].y as int) != gv.idx(
                        mines@[t2].x as int,
                        mines@[t2].y as int,
                    ),
            decreases mines@.len() - p,
        {
            let c = mines[p];
            proof {
                lemma_idx_bounds(gv, c.x as int, c.y as int);
            }
            let i = (c.y as usize) * (options.width as usize) + (c.x as usize);
            if mask[i] {
                proof {
                    let t = choose |t: int| #![trigger mines@[t]]
                        0 <= t < p as int && gv.idx(mines@[t].x as int, mines@[t].y as int)
                            == i as int;
                    lemma_idx_inj(gv, mines@[t].x as int, mines@[t].y as int, c.x as int,
                        c.y as int);
                    assert(mines@[t] == mines@[p as int]);
                }
                return Err(BoardError::InvalidConfig);
            }
            let ghost mask0 = mask@;
            proof {
                lemma_count_true_update(mask@, i as int, true);
                assert forall |t1: int| 0 <= t1 < p as int implies gv.idx(
                    mines@[t1].x as int,
                    mines@[t1].y as int,
                ) != i as int by {
                    if gv.idx(mines@[t1].x as int, mines@[t1].y as int) == i as int {
                        assert(mask0[i as int]);
                    }
                };
            }
            mask[i] = true;
            proof {
                assert forall |i2: int| 0 <= i2 < area as int implies
                    (#[trigger] mask@[i2] <==> exists |t: int| #![trigger mines@[t]]
                        0 <= t < p as int + 1 && gv.idx(mines@[t].x as int, mines@[t].y as int)
                            == i2) by {
                    if i2 == i as int {
                        assert(gv.idx(mines@[p as int].x as int, mines@[p as int].y as int) == i2);
                    } else {
                        if exists |t: int| #![trigger mines@[t]]
                            0 <= t < p as int + 1 && gv.idx(mines@[t].x as int,
                                mines@[t].y as int) == i2 {
                            let t = choose |t: int| #![trigger mines@[t]]
                                0 <= t < p as int + 1 && gv.idx(mines@[t].x as int,
                                    mines@[t].y as int) == i2;
                            assert(t < p as int);
                            assert(mask0[i2]);
                        }
                    }
                };
            }
            p = p + 1;
        }
        proof {
            assert forall |j1: int, j2: int| 0 <= j1 < j2 < mines@.len() implies mines@[j1]
                != mines@[j2] by {
                if mines@[j1] == mines@[j2] {
                    assert(gv.idx(mines@[j1].x as int, mines@[j1].y as int) == gv.idx(
                        mines@[j2].x as int,
                        mines@[j2].y as int,
                    ));
                }
            };
        }
        self.apply_mask(options, &mask);
        proof {
            assert forall |x: int, y: int| self@.in_bounds(x, y) implies
                (#[trigger] self@.is_mine(x, y) <==> in_list(mines@, x, y)) by {
                lemma_idx_bounds(gv, x, y);
                if self@.is_mine(x, y) {
                    let t = choose |t: int| #![trigger mines@[t]]
                        0 <= t < mines@.len() && gv.idx(mines@[t].x as int, mines@[t].y as int)
                            == gv.idx(x, y);
                    lemma_idx_inj(gv, mines@[t].x as int, mines@[t].y as int, x, y);
                }
                if in_list(mines@, x, y) {
                    let t = choose |t: int| #![trigger mines@[t]]
                        0 <= t < mines@.len() && mines@[t].x as int == x && mines@[t].y as int
                            == y;
                    assert(gv.idx(mines@[t].x as int, mines@[t].y as int) == gv.idx(x, y));
                    assert(mask@[gv.idx(x, y)]);
                }
            };
        }
        Ok(())
    }
}

} // verus!
