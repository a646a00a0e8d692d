//! Board-wide laws: facts that tie several operations together, proved
//! once and for all boards.

use vstd::prelude::*;

use crate::board::BoardView;
use crate::board::count_mines;
use crate::board::count_revealed;
use crate::board::is_neighbor;
use crate::board::lemma_adj_sum_bounds;
use crate::board::lemma_count_mines_bounds;
use crate::board::lemma_idx_bounds;
use crate::board::offset_dx;
use crate::board::offset_dy;
use crate::engine::flip_state;
use crate::engine::toggled;
use crate::types::CellContent;
use crate::types::CellState;

verus! {

/// Counting argument behind the win check: as long as only safe cells
/// are revealed, the revealed count stays below the number of safe
/// cells, and reaches it exactly when every safe cell is revealed.
proof fn lemma_revealed_vs_mines(map: Seq<CellContent>, op: Seq<CellState>)
    requires
        map.len() == op.len(),
        forall |i: int| 0 <= i < op.len() ==> (op[i] is Revealed ==> !(#[trigger] map[i]
            is Mine)),
    ensures
        count_revealed(op) <= op.len() - count_mines(map),
        (count_revealed(op) == op.len() - count_mines(map)) <==> (forall |i: int|
            0 <= i < op.len() ==> (#[trigger] op[i] is Revealed <==> !(map[i] is Mine))),
    decreases op.len(),
{
    if op.len() > 0 {
        let n = op.len() - 1;
        assert forall |i: int| 0 <= i < n implies
            (op.drop_last()[i] is Revealed ==> !(#[trigger] map.drop_last()[i] is Mine)) by {
            assert(op.drop_last()[i] == op[i]);
            assert(map.drop_last()[i] == map[i]);
        };
        lemma_revealed_vs_mines(map.drop_last(), op.drop_last());
        let prefix_full = forall |i: int|
            0 <= i < n ==> (#[trigger] op.drop_last()[i] is Revealed <==> !(map.drop_last()[i]
                is Mine));
        let all_full = forall |i: int|
            0 <= i < op.len() ==> (#[trigger] op[i] is Revealed <==> !(map[i] is Mine));
        let last_full = (op[n] is Revealed <==> !(map[n] is Mine));
        assert(all_full <==> (prefix_full && last_full)) by {
            if prefix_full && last_full {
                assert forall |i: int| 0 <= i < op.len() implies
                    (#[trigger] op[i] is Revealed <==> !(map[i] is Mine)) by {
                    if i < n {
                        assert(op.drop_last()[i] is Revealed <==> !(map.drop_last()[i] is Mine));
                    }
                };
            }
            if all_full {
                assert forall |i: int| 0 <= i < n implies
                    (#[trigger] op.drop_last()[i] is Revealed <==> !(map.drop_last()[i]
                        is Mine)) by {
                    assert(op[i] is Revealed <==> !(map[i] is Mine));
                };
            }
        };
    }
}

/// The two faces of the win condition agree: on a board where no mine
/// has been revealed, the revealed count equals the number of safe
/// cells exactly when every safe cell is revealed.
pub proof fn lemma_win_is_all_safe_revealed(v: BoardView)
    requires
        v.grid_wf(),
        v.content_ok(),
        forall |i: int| 0 <= i < v.op.len() ==> (v.op[i] is Revealed ==> !(#[trigger] v.map[i]
            is Mine)),
    ensures
        v.win_now() <==> (forall |i: int|
            0 <= i < v.op.len() ==> (#[trigger] v.op[i] is Revealed <==> !(v.map[i] is Mine))),
{
    lemma_revealed_vs_mines(v.map, v.op);
}

/// The eight offsets enumerate exactly the 8-connected neighborhood: the
/// cells one step away in any direction, the cell itself excluded.
pub proof fn lemma_is_neighbor_iff(x1: int, y1: int, x2: int, y2: int)
    ensures
        is_neighbor(x1, y1, x2, y2) <==> ((x1 != x2 || y1 != y2) && -1 <= x2 - x1 <= 1 && -1 <= y2
            - y1 <= 1),
{
    if (x1 != x2 || y1 != y2) && -1 <= x2 - x1 <= 1 && -1 <= y2 - y1 <= 1 {
        let dx = x2 - x1;
        let dy = y2 - y1;
        if dx == -1 && dy == 1 {
            assert(x2 == x1 + offset_dx(0) && y2 == y1 + offset_dy(0));
        } else if dx == 0 && dy == 1 {
            assert(x2 == x1 + offset_dx(1) && y2 == y1 + offset_dy(1));
        } else if dx == 1 && dy == 1 {
            assert(x2 == x1 + offset_dx(2) && y2 == y1 + offset_dy(2));
        } else if dx == -1 && dy == 0 {
            assert(x2 == x1 + offset_dx(3) && y2 == y1 + offset_dy(3));
        } else if dx == 1 && dy == 0 {
            assert(x2 == x1 + offset_dx(4) && y2 == y1 + offset_dy(4));
        } else if dx == -1 && dy == -1 {
            assert(x2 == x1 + offset_dx(5) && y2 == y1 + offset_dy(5));
        } else if dx == 0 && dy == -1 {
            assert(x2 == x1 + offset_dx(6) && y2 == y1 + offset_dy(6));
        } else {
            assert(x2 == x1 + offset_dx(7) && y2 == y1 + offset_dy(7));
        }
    }
}

/// A well-formed, honest board never holds more mines than cells, its
/// mine count is never negative, and every stored neighbor count lies
/// between 0 and 8.
pub proof fn lemma_board_counts(v: BoardView)
    requires
        v.grid_wf(),
        v.content_ok(),
    ensures
        0 <= v.bombs <= v.area(),
        count_mines(v.map) == v.bombs,
        forall |x: int, y: int| #![trigger v.cell_at(x, y)]
            v.in_bounds(x, y) ==> (v.cell_at(x, y) matches CellContent::SafeCount(n) ==> 0 <= n
                as int <= 8),
{
    lemma_count_mines_bounds(v.map);
    assert forall |x: int, y: int| #![trigger v.cell_at(x, y)] v.in_bounds(x, y) implies
        (v.cell_at(x, y) matches CellContent::SafeCount(n) ==> 0 <= n as int <= 8) by {
        lemma_adj_sum_bounds(v, x, y, 8);
    };
}

/// Flag toggling is a true involution, and a no-op on a revealed cell.
pub proof fn lemma_flag_toggle_involution(v: BoardView, x: int, y: int)
    requires
        v.grid_wf(),
        v.in_bounds(x, y),
    ensures
        toggled(toggled(v, x, y), x, y) == v,
        v.state_at(x, y) is Revealed ==> toggled(v, x, y) == v,
{
    lemma_idx_bounds(v, x, y);
    let t1 = toggled(v, x, y);
    assert(t1.state_at(x, y) == flip_state(v.state_at(x, y)));
    assert(toggled(t1, x, y).op =~= v.op);
    assert(toggled(t1, x, y) =~= v);
    if v.state_at(x, y) is Revealed {
        assert(t1.op =~= v.op);
        assert(t1 =~= v);
    }
}

/// Flood convergence, step-indexed: on a flood-closed board, if one
/// cell of a zero-count region is revealed, then so is every cell of
/// the region a path of at most `n` steps away, together with all its
/// neighbors.
pub proof fn lemma_flood_convergence_linked(
    v: BoardView,
    x1: int,
    y1: int,
    x2: int,
    y2: int,
    n: nat,
)
    requires
        v.flood_closed(),
        v.state_at(x1, y1) is Revealed,
        v.zero_linked(x1, y1, x2, y2, n),
    ensures
        v.state_at(x2, y2) is Revealed,
        v.neighbors_revealed(x2, y2),
    decreases n,
{
    if x1 == x2 && y1 == y2 {
        assert(v.zero_cell(x2, y2));
    } else {
        let k = choose |k: int|
            0 <= k < 8 && v.zero_linked(
                x1,
                y1,
                x2 - #[trigger] offset_dx(k),
                y2 - offset_dy(k),
                (n - 1) as nat,
            );
        lemma_flood_convergence_linked(v, x1, y1, x2 - offset_dx(k), y2 - offset_dy(k), (
        n - 1) as nat);
        assert(v.in_bounds(x2, y2));
        assert(v.state_at((x2 - offset_dx(k)) + offset_dx(k), (y2 - offset_dy(k)) + offset_dy(k))
            is Revealed);
    }
}

/// Flood convergence: on a flood-closed board — and every board the
/// engine hands out is one — a revealed cell's maximal connected
/// zero-count region is entirely revealed, and so is the numbered
/// border around it. The final state does not depend on the order in
/// which the chain visited the cells.
pub proof fn lemma_flood_convergence(v: BoardView, x1: int, y1: int, x2: int, y2: int)
    requires
        v.flood_closed(),
        v.state_at(x1, y1) is Revealed,
        v.zero_reached(x1, y1, x2, y2),
    ensures
        v.state_at(x2, y2) is Revealed,
        v.neighbors_revealed(x2, y2),
{
    let n = choose |n: nat| v.zero_linked(x1, y1, x2, y2, n);
    lemma_flood_convergence_linked(v, x1, y1, x2, y2, n);
}

} // verus!
