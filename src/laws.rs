//! Properties of the toroidal grid and of the step, stated over the
//! mathematical view and proved.

use crate::grid::{lemma_get_in_range, wrap, GridView};
use vstd::arithmetic::div_mod::{lemma_fundamental_div_mod, lemma_fundamental_div_mod_converse};
use vstd::prelude::*;

verus! {

/// Column `-1` is the last column and column `width` is the first; row `-1`
/// is the last row and row `height` is the first.
pub proof fn lemma_wrap_around(g: GridView, x: int, y: int)
    requires
        g.wf(),
    ensures
        g.get(-1, y) == g.get(g.width - 1, y),
        g.get(g.width as int, y) == g.get(0, y),
        g.get(x, -1) == g.get(x, g.height - 1),
        g.get(x, g.height as int) == g.get(x, 0),
{
    let (w, h) = (g.width as int, g.height as int);
    lemma_fundamental_div_mod_converse(-1, w, -1, w - 1);
    lemma_fundamental_div_mod_converse(w - 1, w, 0, w - 1);
    lemma_fundamental_div_mod_converse(w, w, 1, 0);
    lemma_fundamental_div_mod_converse(0, w, 0, 0);
    lemma_fundamental_div_mod_converse(-1, h, -1, h - 1);
    lemma_fundamental_div_mod_converse(h - 1, h, 0, h - 1);
    lemma_fundamental_div_mod_converse(h, h, 1, 0);
    lemma_fundamental_div_mod_converse(0, h, 0, 0);
}

/// The cells of `g` after writing, at each coordinate of `order` in turn,
/// the next state computed from `g` itself.
pub open spec fn write_in_order(g: GridView, order: Seq<(int, int)>) -> Seq<u8>
    decreases order.len(),
{
    if order.len() == 0 {
        g.cells
    } else {
        let (x, y) = order.last();
        write_in_order(g, order.drop_last()).update(g.offset(x, y), g.next_state(x, y))
    }
}

/// `order` lists only coordinates of `g`, and each of them at least once.
pub open spec fn covers(g: GridView, order: Seq<(int, int)>) -> bool {
    &&& forall|k: int|
        0 <= k < order.len() ==> 0 <= (#[trigger] order[k]).0 < g.width && 0 <= order[k].1
            < g.height
    &&& forall|x: int, y: int|
        0 <= x < g.width && 0 <= y < g.height ==> #[trigger] order.contains((x, y))
}

/// The next generation holds at the offset of an in-range coordinate the
/// next state of that coordinate.
proof fn lemma_next_at(g: GridView, x: int, y: int)
    requires
        g.wf(),
        0 <= x < g.width,
        0 <= y < g.height,
    ensures
        0 <= g.offset(x, y) < g.cells.len(),
        g.next().cells[g.offset(x, y)] == g.next_state(x, y),
{
    lemma_get_in_range(g, x, y);
    assert(wrap(x, g.width as int) == x && wrap(y, g.height as int) == y) by {
        lemma_fundamental_div_mod_converse(x, g.width as int, 0, x);
        lemma_fundamental_div_mod_converse(y, g.height as int, 0, y);
    }
    lemma_fundamental_div_mod_converse(g.offset(x, y), g.width as int, y, x);
}

proof fn lemma_written_cells(g: GridView, order: Seq<(int, int)>)
    requires
        g.wf(),
        forall|k: int|
            0 <= k < order.len() ==> 0 <= (#[trigger] order[k]).0 < g.width && 0 <= order[k].1
                < g.height,
    ensures
        write_in_order(g, order).len() == g.cells.len(),
        forall|k: int|
            0 <= k < order.len() ==> write_in_order(g, order)[g.offset(
                (#[trigger] order[k]).0,
                order[k].1,
            )] == g.next().cells[g.offset(order[k].0, order[k].1)],
    decreases order.len(),
{
    if order.len() > 0 {
        let prefix = order.drop_last();
        assert forall|k: int| 0 <= k < prefix.len() implies 0 <= (#[trigger] prefix[k]).0 < g.width
            && 0 <= prefix[k].1 < g.height by {
            assert(prefix[k] == order[k]);
        }
        lemma_written_cells(g, prefix);
        let (x, y) = order.last();
        lemma_next_at(g, x, y);
        assert forall|k: int| 0 <= k < order.len() implies write_in_order(g, order)[g.offset(
            (#[trigger] order[k]).0,
            order[k].1,
        )] == g.next().cells[g.offset(order[k].0, order[k].1)] by {
            lemma_next_at(g, order[k].0, order[k].1);
            if k < order.len() - 1 {
                assert(prefix[k] == order[k]);
            }
        }
    }
}

/// A step reads the previous generation only: writing the next states, each
/// computed from the previous generation, in any order that reaches every
/// cell gives the next generation, so any two such orders agree.
pub proof fn lemma_step_order_independent(g: GridView, order: Seq<(int, int)>)
    requires
        g.wf(),
        covers(g, order),
    ensures
        write_in_order(g, order) == g.next().cells,
{
    lemma_written_cells(g, order);
    let (w, h) = (g.width as int, g.height as int);
    assert forall|i: int| 0 <= i < g.cells.len() implies write_in_order(g, order)[i]
        == g.next().cells[i] by {
        let (x, y) = (i % w, i / w);
        assert(0 <= i / w < h) by (nonlinear_arith)
            requires 0 < w, 0 <= i < w * h;
        lemma_fundamental_div_mod(i, w);
        assert(order.contains((x, y)));
        let k = choose|k: int| 0 <= k < order.len() && #[trigger] order[k] == (x, y);
        assert(g.offset(order[k].0, order[k].1) == i);
    }
    assert(write_in_order(g, order) =~= g.next().cells);
}

} // verus!
