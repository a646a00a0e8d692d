//! The reveal/flag state machine: direct and chain reveal with flood
//! propagation over zero-count regions, flag toggling, and win/loss
//! detection.

use vstd::prelude::*;

use crate::board::Board;
use crate::board::BoardView;
use crate::board::count_revealed;
use crate::board::in_list;
use crate::board::lemma_adj_zero_no_mine;
use crate::board::lemma_content_ok_same;
use crate::board::lemma_count_revealed_bounds;
use crate::board::lemma_count_revealed_update;
use crate::board::lemma_idx_bounds;
use crate::board::lemma_idx_inj;
use crate::board::lemma_neighbor_seq_complete;
use crate::board::lemma_neighbor_seq_len;
use crate::board::lemma_neighbor_seq_sound;
use crate::board::offset_dx;
use crate::board::offset_dy;
use crate::types::BoardError;
use crate::types::CellContent;
use crate::types::CellState;
use crate::types::Coordinate;
use crate::types::GameOutcome;
use crate::types::RevealReport;

verus! {

/// What one flag toggle does to one cell's state.
pub open spec fn flip_state(s: CellState) -> CellState {
    match s {
        CellState::Hidden => CellState::Flagged,
        CellState::Flagged => CellState::Hidden,
        CellState::Revealed => CellState::Revealed,
    }
}

/// The board after a flag toggle at an in-bounds cell.
pub open spec fn toggled(v: BoardView, x: int, y: int) -> BoardView {
    BoardView {
        width: v.width,
        height: v.height,
        bombs: v.bombs,
        map: v.map,
        op: v.op.update(v.idx(x, y), flip_state(v.state_at(x, y))),
    }
}

/// A reveal intent that does nothing: the cell is already revealed, or
/// it is flagged and the intent is a direct (non-chain) one.
pub open spec fn uncover_noop(v: BoardView, x: int, y: int, is_chain: bool) -> bool {
    v.state_at(x, y) is Revealed || (v.state_at(x, y) is Flagged && !is_chain)
}

/// Frame of a reveal: dimensions, content and mine count are untouched,
/// and cell states only ever move to `Revealed`.
pub open spec fn uncover_frame(pre: BoardView, post: BoardView) -> bool {
    &&& post.width == pre.width
    &&& post.height == pre.height
    &&& post.bombs == pre.bombs
    &&& post.map == pre.map
    &&& post.op.len() == pre.op.len()
    &&& forall |i: int|
        0 <= i < pre.op.len() ==> post.op[i] == pre.op[i] || #[trigger] post.op[i] is Revealed
}

/// The cell `(a, b)` sits on the border of the zero-count region of
/// `(x, y)`: it neighbors some zero-count cell connected to `(x, y)`
/// through zero-count cells.
pub open spec fn border_of_zero_region(v: BoardView, x: int, y: int, a: int, b: int) -> bool {
    exists |zx: int, zy: int, k: int|
        #![trigger v.zero_reached(x, y, zx, zy), offset_dx(k)]
        0 <= k < 8 && v.zero_reached(x, y, zx, zy) && a == zx + offset_dx(k) && b == zy
            + offset_dy(k)
}

/// `changed` holds exactly the cells whose state differs between `pre`
/// and `post`: each in bounds, each at most once.
pub open spec fn changed_exact(pre: BoardView, post: BoardView, changed: Seq<Coordinate>) -> bool {
    &&& forall |k: int| #![trigger changed[k]]
        0 <= k < changed.len() ==> pre.in_bounds(changed[k].x as int, changed[k].y as int)
    &&& forall |k1: int, k2: int| 0 <= k1 < k2 < changed.len() ==> changed[k1] != changed[k2]
    &&& forall |x: int, y: int| #![trigger post.state_at(x, y)]
        pre.in_bounds(x, y)
            ==> (post.state_at(x, y) != pre.state_at(x, y) <==> in_list(changed, x, y))
}

/// Everything a reveal accepted by the engine guarantees.
pub open spec fn uncover_post(
    pre: BoardView,
    post: BoardView,
    c: Coordinate,
    is_chain: bool,
    changed: Seq<Coordinate>,
    outcome: GameOutcome,
) -> bool {
    &&& pre.in_bounds(c.x as int, c.y as int)
    &&& uncover_frame(pre, post)
    &&& changed_exact(pre, post, changed)
    &&& (uncover_noop(pre, c.x as int, c.y as int, is_chain) ==> post == pre && changed.len() == 0
        && outcome == GameOutcome::Ongoing)
    &&& (!uncover_noop(pre, c.x as int, c.y as int, is_chain) ==> {
        &&& post.state_at(c.x as int, c.y as int) is Revealed
        &&& (pre.is_mine(c.x as int, c.y as int) ==> post.op == pre.op.update(
            pre.idx(c.x as int, c.y as int),
            CellState::Revealed,
        ) && outcome == GameOutcome::Loss(c))
        &&& (!pre.is_mine(c.x as int, c.y as int) ==> {
            &&& (forall |a: int, b: int|
                #[trigger] pre.is_mine(a, b) ==> post.state_at(a, b) == pre.state_at(a, b))
            &&& outcome == (if post.win_now() {
                GameOutcome::Win
            } else {
                GameOutcome::Ongoing
            })
            &&& (pre.cell_at(c.x as int, c.y as int) != CellContent::SafeCount(0u8)
                ==> post.op == pre.op.update(pre.idx(c.x as int, c.y as int), CellState::Revealed))
            &&& (pre.cell_at(c.x as int, c.y as int) == CellContent::SafeCount(0u8)
                ==> forall |a: int, b: int| #![trigger post.state_at(a, b)]
                    pre.in_bounds(a, b) && post.state_at(a, b) != pre.state_at(a, b)
                        ==> (a == c.x as int && b == c.y as int) || border_of_zero_region(
                        pre,
                        c.x as int,
                        c.y as int,
                        a,
                        b,
                    ))
        })
    })
}

/// Every covered in-bounds neighbor of the cell still waits in the
/// worklist.
pub open spec fn pending_ok(v: BoardView, w: Seq<Coordinate>, x: int, y: int) -> bool {
    forall |k: int|
        0 <= k < 8 && v.in_bounds(x + #[trigger] offset_dx(k), y + offset_dy(k))
            ==> v.state_at(x + offset_dx(k), y + offset_dy(k)) is Revealed || in_list(
            w,
            x + offset_dx(k),
            y + offset_dy(k),
        )
}

/// `flood_closed` up to the pending worklist.
pub open spec fn closed_except(v: BoardView, w: Seq<Coordinate>) -> bool {
    forall |x: int, y: int|
        #[trigger] v.zero_cell(x, y) && v.state_at(x, y) is Revealed ==> pending_ok(v, w, x, y)
}

/// Every worklist entry is in bounds and on the border of the zero
/// region of the start cell.
pub open spec fn work_ok(v: BoardView, x: int, y: int, w: Seq<Coordinate>) -> bool {
    forall |k: int| #![trigger w[k]]
        0 <= k < w.len() ==> v.in_bounds(w[k].x as int, w[k].y as int) && border_of_zero_region(
            v,
            x,
            y,
            w[k].x as int,
            w[k].y as int,
        )
}

/// A coordinate in either part is in the concatenation.
proof fn lemma_in_list_concat(w1: Seq<Coordinate>, w2: Seq<Coordinate>, x: int, y: int)
    requires
        in_list(w1, x, y) || in_list(w2, x, y),
    ensures
        in_list(w1 + w2, x, y),
{
    if in_list(w1, x, y) {
        let i = choose |i: int|
            #![trigger w1[i]]
            0 <= i < w1.len() && w1[i].x as int == x && w1[i].y as int == y;
        assert((w1 + w2)[i] == w1[i]);
    } else {
        let i = choose |i: int|
            #![trigger w2[i]]
            0 <= i < w2.len() && w2[i].x as int == x && w2[i].y as int == y;
        assert((w1 + w2)[w1.len() + i] == w2[i]);
    }
}

/// One more step along the border of a zero region stays in the region
/// when the border cell itself has a zero count.
proof fn lemma_zero_reached_step(v: BoardView, x: int, y: int, zx: int, zy: int, k: int)
    requires
        v.zero_reached(x, y, zx, zy),
        0 <= k < 8,
        v.zero_cell(zx + offset_dx(k), zy + offset_dy(k)),
    ensures
        v.zero_reached(x, y, zx + offset_dx(k), zy + offset_dy(k)),
{
    let n = choose |n: nat| v.zero_linked(x, y, zx, zy, n);
    let a = zx + offset_dx(k);
    let b = zy + offset_dy(k);
    if a == x && b == y {
        assert(v.zero_linked(x, y, a, b, 0));
    } else {
        assert(v.zero_linked(x, y, a - offset_dx(k), b - offset_dy(k), n));
        assert(v.zero_linked(x, y, a, b, n + 1));
    }
}

/// A border cell of a zero region is never a mine: the zero count of
/// the cell it neighbors says so.
proof fn lemma_border_not_mine(v: BoardView, x: int, y: int, a: int, b: int)
    requires
        v.content_ok(),
        border_of_zero_region(v, x, y, a, b),
    ensures
        !v.is_mine(a, b),
{
    let (zx, zy, k) = choose |zx: int, zy: int, k: int|
        #![trigger v.zero_reached(x, y, zx, zy), offset_dx(k)]
        0 <= k < 8 && v.zero_reached(x, y, zx, zy) && a == zx + offset_dx(k) && b == zy
            + offset_dy(k);
    let n = choose |n: nat| v.zero_linked(x, y, zx, zy, n);
    assert(v.zero_cell(zx, zy));
    assert(v.adjacent_mines(zx, zy) == 0);
    lemma_adj_zero_no_mine(v, zx, zy, 8, k);
}

/// A board differing from `pre` only in that one covered in-bounds cell
/// was revealed, with `changed` exact so far, stays exact after pushing
/// that cell.
proof fn lemma_changed_push(
    pre: BoardView,
    mid: BoardView,
    post: BoardView,
    changed: Seq<Coordinate>,
    d: Coordinate,
)
    requires
        pre.grid_wf(),
        mid.width == pre.width,
        mid.height == pre.height,
        mid.op.len() == pre.op.len(),
        post.width == mid.width,
        post.height == mid.height,
        post.op == mid.op.update(mid.idx(d.x as int, d.y as int), CellState::Revealed),
        pre.in_bounds(d.x as int, d.y as int),
        !(mid.state_at(d.x as int, d.y as int) is Revealed),
        mid.state_at(d.x as int, d.y as int) == pre.state_at(d.x as int, d.y as int),
        changed_exact(pre, mid, changed),
    ensures
        changed_exact(pre, post, changed.push(d)),
{
    let dx_ = d.x as int;
    let dy_ = d.y as int;
    let di = pre.idx(dx_, dy_);
    lemma_idx_bounds(pre, dx_, dy_);
    assert(!in_list(changed, dx_, dy_));
    let grown = changed.push(d);
    assert forall |k1: int, k2: int| 0 <= k1 < k2 < grown.len() implies grown[k1]
        != grown[k2] by {
        if k2 == grown.len() - 1 {
            if grown[k1] == d {
                assert(changed[k1] == d);
                assert(in_list(changed, dx_, dy_));
            }
        }
    };
    assert forall |x: int, y: int| pre.in_bounds(x, y) implies
        (#[trigger] post.state_at(x, y) != pre.state_at(x, y) <==> in_list(grown, x, y)) by {
        lemma_idx_bounds(pre, x, y);
        if pre.idx(x, y) == di {
            lemma_idx_inj(pre, x, y, dx_, dy_);
            assert(grown[grown.len() - 1] == d);
            assert(in_list(grown, x, y));
        } else {
            assert(post.state_at(x, y) == mid.state_at(x, y));
            if in_list(grown, x, y) {
                let i = choose |i: int|
                    #![trigger grown[i]]
                    0 <= i < grown.len() && grown[i].x as int == x && grown[i].y as int == y;
                assert(i < changed.len());
                assert(in_list(changed, x, y));
            }
            if in_list(changed, x, y) {
                let i = choose |i: int|
                    #![trigger changed[i]]
                    0 <= i < changed.len() && changed[i].x as int == x && changed[i].y as int == y;
                assert(grown[i] == changed[i]);
                assert(in_list(grown, x, y));
            }
        }
    };
}

/// Nothing changed yet: the empty list is exact.
proof fn lemma_changed_empty(pre: BoardView, changed: Seq<Coordinate>)
    requires
        changed.len() == 0,
    ensures
        changed_exact(pre, pre, changed),
{
}

/// Popping the last worklist entry keeps every pending obligation, as
/// long as that entry ends up revealed, the rest of the list is kept,
/// and any obligation of the entry's own cell is re-established by the
/// caller.
proof fn lemma_pending_after_pop(
    pre: BoardView,
    mid: BoardView,
    post: BoardView,
    work0: Seq<Coordinate>,
    work1: Seq<Coordinate>,
    d: Coordinate,
)
    requires
        pre.grid_wf(),
        mid.width == pre.width,
        mid.height == pre.height,
        mid.map == pre.map,
        mid.op.len() == pre.op.len(),
        post.width == mid.width,
        post.height == mid.height,
        post.map == mid.map,
        post.op.len() == mid.op.len(),
        work0.len() > 0,
        work0[work0.len() - 1] == d,
        pre.in_bounds(d.x as int, d.y as int),
        post == mid || post.op == mid.op.update(mid.idx(d.x as int, d.y as int), CellState::Revealed),
        post.state_at(d.x as int, d.y as int) is Revealed,
        forall |t: int| #![trigger work0[t]]
            0 <= t < work0.len() - 1 ==> in_list(work1, work0[t].x as int, work0[t].y as int),
        closed_except(mid, work0),
        post.zero_cell(d.x as int, d.y as int) && post.state_at(d.x as int, d.y as int)
            is Revealed ==> pending_ok(post, work1, d.x as int, d.y as int),
    ensures
        closed_except(post, work1),
{
    let dx_ = d.x as int;
    let dy_ = d.y as int;
    lemma_idx_bounds(pre, dx_, dy_);
    assert forall |x: int, y: int|
        #[trigger] post.zero_cell(x, y) && post.state_at(x, y) is Revealed implies pending_ok(
            post,
            work1,
            x,
            y,
        ) by {
        lemma_idx_bounds(pre, x, y);
        if x == dx_ && y == dy_ {
        } else {
            if pre.idx(x, y) == pre.idx(dx_, dy_) {
                lemma_idx_inj(pre, x, y, dx_, dy_);
            }
            assert(mid.state_at(x, y) == post.state_at(x, y));
            assert(mid.zero_cell(x, y) && mid.state_at(x, y) is Revealed);
            assert(pending_ok(mid, work0, x, y));
            assert forall |k: int|
                0 <= k < 8 && post.in_bounds(x + #[trigger] offset_dx(k), y + offset_dy(k))
                    implies post.state_at(x + offset_dx(k), y + offset_dy(k)) is Revealed
                    || in_list(work1, x + offset_dx(k), y + offset_dy(k)) by {
                let nx = x + offset_dx(k);
                let ny = y + offset_dy(k);
                lemma_idx_bounds(pre, nx, ny);
                if mid.state_at(nx, ny) is Revealed {
                    if pre.idx(nx, ny) == pre.idx(dx_, dy_) {
                        lemma_idx_inj(pre, nx, ny, dx_, dy_);
                    }
                    assert(post.state_at(nx, ny) is Revealed);
                } else {
                    assert(in_list(work0, nx, ny));
                    let t = choose |t: int|
                        #![trigger work0[t]]
                        0 <= t < work0.len() && work0[t].x as int == nx && work0[t].y as int == ny;
                    if t < work0.len() - 1 {
                        assert(in_list(work1, nx, ny));
                    } else {
                        assert(work0[t] == d);
                        assert(post.state_at(nx, ny) is Revealed);
                    }
                }
            };
        }
    };
}

impl Board {
    /// Toggle the flag of a covered cell: `Hidden` and `Flagged` swap,
    /// a revealed cell is left alone. An out-of-bounds coordinate is
    /// rejected without touching the board.
    pub fn toggle_flag(&mut self, c: Coordinate) -> (r: Result<(), BoardError>)
        requires
            old(self)@.inv(),
        ensures
            final(self)@.inv(),
            match r {
                Ok(()) => old(self)@.in_bounds(c.x as int, c.y as int) && final(self)@ == toggled(
                    old(self)@,
                    c.x as int,
                    c.y as int,
                ),
                Err(e) => e == BoardError::OutOfBounds && !old(self)@.in_bounds(
                    c.x as int,
                    c.y as int,
                ) && *final(self) == *old(self),
            },
    {
        if !self.contains(c) {
            return Err(BoardError::OutOfBounds);
        }
        let ghost pre = self@;
        let i = self.index_of(c);
        match self.op_map[i] {
            CellState::Hidden => {
                self.op_map[i] = CellState::Flagged;
            },
            CellState::Flagged => {
                self.op_map[i] = CellState::Hidden;
            },
            CellState::Revealed => {},
        }
        proof {
            assert(self@.op =~= toggled(pre, c.x as int, c.y as int).op);
            assert(self@ =~= toggled(pre, c.x as int, c.y as int));
            lemma_content_ok_same(pre, self@);
            assert forall |a: int, b: int| pre.in_bounds(a, b) implies
                (#[trigger] self@.state_at(a, b) is Revealed <==> pre.state_at(a, b)
                    is Revealed) by {
                lemma_idx_bounds(pre, a, b);
            };
            assert forall |x: int, y: int|
                #[trigger] self@.zero_cell(x, y) && self@.state_at(x, y) is Revealed implies
                self@.neighbors_revealed(x, y) by {
                assert(pre.zero_cell(x, y));
                assert(pre.state_at(x, y) is Revealed);
                assert(pre.neighbors_revealed(x, y));
                assert forall |k: int|
                    0 <= k < 8 && self@.in_bounds(x + #[trigger] offset_dx(k), y + offset_dy(k))
                        implies self@.state_at(x + offset_dx(k), y + offset_dy(k))
                    is Revealed by {
                    assert(pre.state_at(x + offset_dx(k), y + offset_dy(k)) is Revealed);
                };
            };
        }
        Ok(())
    }

    /// Reveal a cell. An already revealed cell is a no-op; a flagged
    /// cell blocks a direct reveal but not a chain one. Revealing a
    /// mine loses the game on the spot; revealing a zero-count cell
    /// floods its whole zero region and the numbered border around it;
    /// and once every safe cell is revealed the operation reports the
    /// win. The report lists exactly the cells whose state changed.
    #[verifier::loop_isolation(false)]
    pub fn uncover(&mut self, c: Coordinate, is_chain: bool) -> (r: Result<
        RevealReport,
        BoardError,
    >)
        requires
            old(self)@.inv(),
        ensures
            final(self)@.inv(),
            match r {
                Ok(rep) => uncover_post(
                    old(self)@,
                    final(self)@,
                    c,
                    is_chain,
                    rep.changed@,
                    rep.outcome,
                ),
                Err(e) => e == BoardError::OutOfBounds && !old(self)@.in_bounds(
                    c.x as int,
                    c.y as int,
                ) && *final(self) == *old(self),
            },
    {
        if !self.contains(c) {
            return Err(BoardError::OutOfBounds);
        }
        let ghost pre = self@;
        let cx = c.x;
        let cy = c.y;
        let i = self.index_of(c);
        let st = self.op_map[i];
        if st == CellState::Revealed || (st == CellState::Flagged && !is_chain) {
            let rep = RevealReport { changed: Vec::new(), outcome: GameOutcome::Ongoing };
            proof {
                lemma_changed_empty(pre, rep.changed@);
            }
            return Ok(rep);
        }
        let content = self.map[i];
        let mut changed: Vec<Coordinate> = Vec::new();
        self.op_map[i] = CellState::Revealed;
        changed.push(c);
        proof {
            lemma_changed_empty(pre, Seq::<Coordinate>::empty());
            lemma_changed_push(pre, pre, self@, Seq::<Coordinate>::empty(), c);
            assert(changed@ =~= Seq::<Coordinate>::empty().push(c));
            lemma_content_ok_same(pre, self@);
        }
        if content == CellContent::Mine {
            proof {
                self.lemma_single_reveal_closed(pre, c, i as int);
            }
            return Ok(RevealReport { changed, outcome: GameOutcome::Loss(c) });
        }
        let is_zero = content == CellContent::SafeCount(0);
        if is_zero {
            self.flood_from(c, Ghost(pre), &mut changed);
            proof {
                lemma_content_ok_same(pre, self@);
            }
        } else {
            proof {
                self.lemma_single_reveal_closed(pre, c, i as int);
            }
        }
        let rc = self.revealed_count();
        let total = self.map.len();
        proof {
            lemma_count_revealed_bounds(self@.op);
            assert(self@.width * self@.height <= 65535int * 65535int) by (nonlinear_arith)
                requires
                    0 <= self@.width <= 65535,
                    0 <= self@.height <= 65535,
            ;
        }
        let outcome = if rc + (self.bomb_count as usize) == total {
            GameOutcome::Win
        } else {
            GameOutcome::Ongoing
        };
        proof {
            assert forall |a: int, b: int| #[trigger] pre.is_mine(a, b) implies self@.state_at(
                a,
                b,
            ) == pre.state_at(a, b) by {
                lemma_idx_bounds(pre, a, b);
                if pre.idx(a, b) == i as int {
                    lemma_idx_inj(pre, a, b, cx as int, cy as int);
                }
            };
        }
        Ok(RevealReport { changed, outcome })
    }

    /// Revealing one non-zero cell keeps the board flood-closed: the
    /// new revealed cell carries no obligation, and the old ones were
    /// already met.
    proof fn lemma_single_reveal_closed(&self, pre: BoardView, c: Coordinate, i: int)
        requires
            pre.inv(),
            pre.in_bounds(c.x as int, c.y as int),
            i == pre.idx(c.x as int, c.y as int),
            !(pre.cell_at(c.x as int, c.y as int) == CellContent::SafeCount(0u8)),
            self@.width == pre.width,
            self@.height == pre.height,
            self@.bombs == pre.bombs,
            self@.map == pre.map,
            self@.op == pre.op.update(i, CellState::Revealed),
        ensures
            self@.flood_closed(),
    {
        lemma_idx_bounds(pre, c.x as int, c.y as int);
        assert forall |x: int, y: int|
            #[trigger] self@.zero_cell(x, y) && self@.state_at(x, y) is Revealed implies
            self@.neighbors_revealed(x, y) by {
            lemma_idx_bounds(pre, x, y);
            if pre.idx(x, y) == i {
                lemma_idx_inj(pre, x, y, c.x as int, c.y as int);
            } else {
                assert(pre.zero_cell(x, y) && pre.state_at(x, y) is Revealed);
                assert(pre.neighbors_revealed(x, y));
                assert forall |k: int|
                    0 <= k < 8 && self@.in_bounds(x + #[trigger] offset_dx(k), y + offset_dy(k))
                        implies self@.state_at(x + offset_dx(k), y + offset_dy(k))
                    is Revealed by {
                    lemma_idx_bounds(pre, x + offset_dx(k), y + offset_dy(k));
                };
            }
        };
    }

    /// Chain reveal: starting from a just-revealed zero-count cell,
    /// reveal every covered cell on the border of its zero region until
    /// none is left.
    #[verifier::loop_isolation(false)]
    fn flood_from(
        &mut self,
        c: Coordinate,
        Ghost(pre): Ghost<BoardView>,
        changed: &mut Vec<Coordinate>,
    )
        requires
            pre.inv(),
            pre.in_bounds(c.x as int, c.y as int),
            pre.cell_at(c.x as int, c.y as int) == CellContent::SafeCount(0u8),
            old(self)@.width == pre.width,
            old(self)@.height == pre.height,
            old(self)@.bombs == pre.bombs,
            old(self)@.map == pre.map,
            old(self)@.op == pre.op.update(pre.idx(c.x as int, c.y as int), CellState::Revealed),
            changed_exact(pre, old(self)@, old(changed)@),
            forall |k: int| #![trigger old(changed)@[k]]
                0 <= k < old(changed)@.len() ==> old(changed)@[k] == c,
        ensures
            final(self)@.grid_wf(),
            final(self)@.width == pre.width,
            final(self)@.height == pre.height,
            final(self)@.bombs == pre.bombs,
            final(self)@.map == pre.map,
            final(self)@.op.len() == pre.op.len(),
            forall |j: int| #![trigger final(self)@.op[j]]
                0 <= j < pre.op.len() ==> final(self)@.op[j] == pre.op[j] || final(self)@.op[j]
                    is Revealed,
            final(self)@.state_at(c.x as int, c.y as int) is Revealed,
            final(self)@.flood_closed(),
            changed_exact(pre, final(self)@, final(changed)@),
            forall |k: int| #![trigger final(changed)@[k]]
                0 <= k < final(changed)@.len() ==> final(changed)@[k] == c
                    || border_of_zero_region(
                    pre,
                    c.x as int,
                    c.y as int,
                    final(changed)@[k].x as int,
                    final(changed)@[k].y as int,
                ),
            forall |a: int, b: int|
                #[trigger] pre.is_mine(a, b) ==> final(self)@.state_at(a, b) == pre.state_at(a, b),
    {
        let cx = c.x;
        let cy = c.y;
        let ghost ci = pre.idx(cx as int, cy as int);
        proof {
            lemma_idx_bounds(pre, cx as int, cy as int);
            assert(pre.zero_cell(cx as int, cy as int));
            assert(pre.zero_linked(cx as int, cy as int, cx as int, cy as int, 0));
            assert(pre.zero_reached(cx as int, cy as int, cx as int, cy as int));
        }
        let mut work: Vec<Coordinate> = self.safe_square_at(c);
        proof {
            assert forall |k: int| #![trigger work@[k]] 0 <= k < work@.len() implies
                pre.in_bounds(work@[k].x as int, work@[k].y as int) && border_of_zero_region(
                    pre,
                    cx as int,
                    cy as int,
                    work@[k].x as int,
                    work@[k].y as int,
                ) by {
                lemma_neighbor_seq_sound(self@, cx as int, cy as int, 8, k);
            };
            assert forall |x: int, y: int|
                #[trigger] self@.zero_cell(x, y) && self@.state_at(x, y) is Revealed implies
                pending_ok(self@, work@, x, y) by {
                lemma_idx_bounds(pre, x, y);
                if pre.idx(x, y) == ci {
                    lemma_idx_inj(pre, x, y, cx as int, cy as int);
                    assert forall |k: int|
                        0 <= k < 8 && self@.in_bounds(
                            x + #[trigger] offset_dx(k),
                            y + offset_dy(k),
                        ) implies self@.state_at(x + offset_dx(k), y + offset_dy(k)) is Revealed
                        || in_list(work@, x + offset_dx(k), y + offset_dy(k)) by {
                        lemma_neighbor_seq_complete(self@, cx as int, cy as int, 8, k);
                    };
                } else {
                    assert(pre.zero_cell(x, y) && pre.state_at(x, y) is Revealed);
                    assert(pre.neighbors_revealed(x, y));
                    assert forall |k: int|
                        0 <= k < 8 && self@.in_bounds(
                            x + #[trigger] offset_dx(k),
                            y + offset_dy(k),
                        ) implies self@.state_at(x + offset_dx(k), y + offset_dy(k)) is Revealed
                        || in_list(work@, x + offset_dx(k), y + offset_dy(k)) by {
                        lemma_idx_bounds(pre, x + offset_dx(k), y + offset_dy(k));
                    };
                }
            };
        }
        while work.len() > 0
            invariant
                self@.grid_wf(),
                self@.width == pre.width,
                self@.height == pre.height,
                self@.bombs == pre.bombs,
                self@.map == pre.map,
                self@.op.len() == pre.op.len(),
                forall |j: int| #![trigger self@.op[j]]
                    0 <= j < pre.op.len() ==> self@.op[j] == pre.op[j] || self@.op[j] is Revealed,
                self@.state_at(cx as int, cy as int) is Revealed,
                work_ok(pre, cx as int, cy as int, work@),
                changed_exact(pre, self@, changed@),
                forall |k: int| #![trigger changed@[k]]
                    0 <= k < changed@.len() ==> changed@[k] == c || border_of_zero_region(
                        pre,
                        cx as int,
                        cy as int,
                        changed@[k].x as int,
                        changed@[k].y as int,
                    ),
                forall |a: int, b: int|
                    #[trigger] pre.is_mine(a, b) ==> self@.state_at(a, b) == pre.state_at(a, b),
                closed_except(self@, work@),
            decreases 9 * (self@.op.len() - count_revealed(self@.op)) + work@.len(),
        {
            proof {
                lemma_count_revealed_bounds(self@.op);
            }
            let ghost work0 = work@;
            let d = work.pop().unwrap();
            let ghost dx_ = d.x as int;
            let ghost dy_ = d.y as int;
            proof {
                assert(work0[work0.len() - 1] == d);
                assert(pre.in_bounds(dx_, dy_));
                lemma_idx_bounds(pre, dx_, dy_);
            }
            let di = self.index_of(d);
            let ds = self.op_map[di];
            if ds != CellState::Revealed {
                let ghost mid = self@;
                proof {
                    lemma_border_not_mine(pre, cx as int, cy as int, dx_, dy_);
                    lemma_count_revealed_update(mid.op, di as int, CellState::Revealed);
                }
                self.op_map[di] = CellState::Revealed;
                proof {
                    lemma_changed_push(pre, mid, self@, changed@, d);
                    assert forall |a: int, b: int| #[trigger] pre.is_mine(a, b) implies
                        self@.state_at(a, b) == pre.state_at(a, b) by {
                        lemma_idx_bounds(pre, a, b);
                        if pre.idx(a, b) == di as int {
                            lemma_idx_inj(pre, a, b, dx_, dy_);
                        }
                    };
                }
                changed.push(d);
                let dc = self.map[di];
                let ghost post_reveal = self@;
                if dc == CellContent::SafeCount(0) {
                    proof {
                        assert(pre.zero_cell(dx_, dy_));
                        let (zx, zy, k) = choose |zx: int, zy: int, k: int|
                            #![trigger pre.zero_reached(cx as int, cy as int, zx, zy), offset_dx(k)]
                            0 <= k < 8 && pre.zero_reached(cx as int, cy as int, zx, zy) && dx_
                                == zx + offset_dx(k) && dy_ == zy + offset_dy(k);
                        lemma_zero_reached_step(pre, cx as int, cy as int, zx, zy, k);
                        assert(pre.zero_reached(cx as int, cy as int, dx_, dy_));
                    }
                    let mut nbrs = self.safe_square_at(d);
                    let ghost nbrs0 = nbrs@;
                    proof {
                        lemma_neighbor_seq_len(self@, dx_, dy_, 8);
                    }
                    work.append(&mut nbrs);
                    proof {
                        assert(work@ == work0.drop_last() + nbrs0);
                        assert forall |k: int| #![trigger work@[k]] 0 <= k < work@.len() implies
                            pre.in_bounds(work@[k].x as int, work@[k].y as int)
                                && border_of_zero_region(
                                pre,
                                cx as int,
                                cy as int,
                                work@[k].x as int,
                                work@[k].y as int,
                            ) by {
                            if k < work0.len() - 1 {
                                assert(work@[k] == work0[k]);
                            } else {
                                let k2 = k - (work0.len() - 1);
                                assert(work@[k] == nbrs0[k2]);
                                lemma_neighbor_seq_sound(post_reveal, dx_, dy_, 8, k2);
                                let j = choose |j: int|
                                    0 <= j < 8 && post_reveal.in_bounds(
                                        dx_ + #[trigger] offset_dx(j),
                                        dy_ + offset_dy(j),
                                    ) && nbrs0[k2] == (Coordinate {
                                        x: (dx_ + offset_dx(j)) as u16,
                                        y: (dy_ + offset_dy(j)) as u16,
                                    });
                                assert(border_of_zero_region(
                                    pre,
                                    cx as int,
                                    cy as int,
                                    dx_ + offset_dx(j),
                                    dy_ + offset_dy(j),
                                ));
                            }
                        };
                        assert forall |t: int| #![trigger work0[t]] 0 <= t < work0.len() - 1
                            implies in_list(work@, work0[t].x as int, work0[t].y as int) by {
                            assert(work0.drop_last()[t] == work0[t]);
                            lemma_in_list_concat(
                                work0.drop_last(),
                                nbrs0,
                                work0[t].x as int,
                                work0[t].y as int,
                            );
                        };
                        assert forall |k: int|
                            0 <= k < 8 && self@.in_bounds(
                                dx_ + #[trigger] offset_dx(k),
                                dy_ + offset_dy(k),
                            ) implies self@.state_at(dx_ + offset_dx(k), dy_ + offset_dy(k))
                            is Revealed || in_list(work@, dx_ + offset_dx(k), dy_ + offset_dy(k))
                            by {
                            lemma_neighbor_seq_complete(post_reveal, dx_, dy_, 8, k);
                            lemma_in_list_concat(
                                work0.drop_last(),
                                nbrs0,
                                dx_ + offset_dx(k),
                                dy_ + offset_dy(k),
                            );
                        };
                        lemma_pending_after_pop(pre, mid, self@, work0, work@, d);
                    }
                } else {
                    proof {
                        assert forall |t: int| #![trigger work0[t]] 0 <= t < work0.len() - 1
                            implies in_list(work@, work0[t].x as int, work0[t].y as int) by {
                            assert(work@[t] == work0[t]);
                        };
                        assert(!(self@.zero_cell(dx_, dy_)));
                        lemma_pending_after_pop(pre, mid, self@, work0, work@, d);
                    }
                }
            } else {
                proof {
                    assert forall |t: int| #![trigger work0[t]] 0 <= t < work0.len() - 1 implies
                        in_list(work@, work0[t].x as int, work0[t].y as int) by {
                        assert(work@[t] == work0[t]);
                    };
                    if self@.zero_cell(dx_, dy_) {
                        assert(pending_ok(self@, work0, dx_, dy_));
                        assert forall |k: int|
                            0 <= k < 8 && self@.in_bounds(
                                dx_ + #[trigger] offset_dx(k),
                                dy_ + offset_dy(k),
                            ) implies self@.state_at(dx_ + offset_dx(k), dy_ + offset_dy(k))
                            is Revealed || in_list(work@, dx_ + offset_dx(k), dy_ + offset_dy(k))
                            by {
                            let nx = dx_ + offset_dx(k);
                            let ny = dy_ + offset_dy(k);
                            if !(self@.state_at(nx, ny) is Revealed) {
                                assert(in_list(work0, nx, ny));
                                let t = choose |t: int|
                                    #![trigger work0[t]]
                                    0 <= t < work0.len() && work0[t].x as int == nx
                                        && work0[t].y as int == ny;
                                if t < work0.len() - 1 {
                                    assert(work@[t] == work0[t]);
                                    assert(in_list(work@, nx, ny));
                                } else {
                                    assert(work0[t] == d);
                                    lemma_idx_bounds(pre, nx, ny);
                                    assert(self@.state_at(nx, ny) is Revealed);
                                }
                            }
                        };
                    }
                    lemma_pending_after_pop(pre, self@, self@, work0, work@, d);
                }
            }
            proof {
                lemma_count_revealed_bounds(self@.op);
            }
        }
        proof {
            assert forall |x: int, y: int|
                #[trigger] self@.zero_cell(x, y) && self@.state_at(x, y) is Revealed implies
                self@.neighbors_revealed(x, y) by {
                assert(pending_ok(self@, work@, x, y));
                assert forall |k: int|
                    0 <= k < 8 && self@.in_bounds(x + #[trigger] offset_dx(k), y + offset_dy(k))
                        implies self@.state_at(x + offset_dx(k), y + offset_dy(k)) is Revealed by {
                    assert(!in_list(work@, x + offset_dx(k), y + offset_dy(k)));
                };
            };
        }
    }
}

} // verus!
