//! What holds of collapses, of taking them back, and of two solves from the
//! same inputs.

use array2d::Array2D;
use vstd::prelude::*;
use crate::consistency::{consistent, ordered};
use crate::constraint::{
    constrained, keeps, labels, neighbor, offers_at, opposite, real_neighbors, supported,
};
use crate::decision::{remaining, rewind, ChangeView, DecisionView, NotCollapsable, TreeView};
use crate::edge::{fits_spec, lemma_fits_symmetric};
use crate::propagate::{propagate_spec, propagated};
use crate::select::{
    lemma_scan, lemma_select, lowest_cells, seen, select_spec, viable, Selection,
};
use crate::seqs::{
    dedup, lemma_dedup, lemma_filter_all, lemma_filter_members, lemma_sublist_members,
    lemma_sublist_no_duplicates,
};
use crate::solver::{
    collapse_spec, collapsed, first_tiles, full_wave, grid_height, grid_view, grid_width,
    is_outcome, seed_cells,
};
use crate::tile::{Coord, Field, FieldView, ParamsView};
use crate::wave::WaveView;

verus! {

/// The collapse of a cell with two or more candidates lowers the total
/// entropy.
pub proof fn lemma_collapse_lowers_entropy(w: WaveView, pos: Coord, f: FieldView)
    requires
        w.wf(),
        w.cell(pos).len() >= 2,
    ensures
        collapsed(w, pos, f).entropy() < w.entropy(),
{
    w.lemma_put(pos, seq![f]);
}

/// Unwinding the undo log after a propagation gives what unwinding it
/// before the propagation gives: propagation writes every narrowing down.
pub proof fn lemma_rewind_after_propagation(
    p: ParamsView,
    w: WaveView,
    log: Seq<ChangeView>,
    work: Seq<Coord>,
    force: bool,
)
    requires
        w.wf(),
    ensures
        rewind(propagate_spec(p, w, log, work, force).0, propagate_spec(p, w, log, work, force).1)
            == rewind(w, log),
    decreases w.entropy() + (if force { 1nat } else { 0nat }), work.len(),
{
    if work.len() > 0 {
        let pos = work.last();
        let rest = work.drop_last();
        lemma_dedup(rest);
        if !w.has(pos) {
            lemma_rewind_after_propagation(p, w, log, dedup(rest), false);
        } else {
            let kept = constrained(p, w, pos);
            lemma_filter_all(w.cell(pos), |f: FieldView| keeps(f, offers_at(p, w, pos)));
            w.lemma_put(pos, kept);
            if kept.len() == 0 {
            } else if kept.len() < w.cell(pos).len() || force {
                let after = w.put(pos, kept);
                let log1 = log.push(propagated(pos, w.cell(pos)));
                let next = dedup(rest + real_neighbors(w, pos));
                lemma_rewind_after_propagation(p, after, log1, next, false);
                w.lemma_put_back(pos, kept);
                assert(log1.drop_last() =~= log);
            } else {
                lemma_rewind_after_propagation(p, w, log, dedup(rest), false);
            }
        }
    }
}

/// Taking a collapse back restores the wave, and with it the entropy, that
/// there was just before the collapse, whatever propagation did after it
/// and whether or not it succeeded; the undo log is again what it was then.
pub proof fn lemma_undo_restores(
    p: ParamsView,
    w: WaveView,
    t: TreeView,
    pos: Coord,
    f: FieldView,
    work: Seq<Coord>,
    force: bool,
)
    requires
        w.wf(),
    ensures
        ({
            let decided = t.decide(pos, w.cell(pos), f);
            let out = propagate_spec(p, collapsed(w, pos, f), decided.changes, work, force);
            let narrowed = TreeView { changes: out.1, ..decided };
            &&& narrowed.undo(out.0).0 == w
            &&& narrowed.undo(out.0).0.entropy() == w.entropy()
            &&& narrowed.undo(out.0).1.changes == t.changes
            &&& narrowed.undo(out.0).2
        }),
{
    let decided = t.decide(pos, w.cell(pos), f);
    let start = collapsed(w, pos, f);
    w.lemma_put(pos, seq![f]);
    lemma_rewind_after_propagation(p, start, decided.changes, work, force);
    w.lemma_put_back(pos, seq![f]);
    assert(decided.changes.drop_last() =~= t.changes);
    assert(rewind(start, decided.changes) == (w, t.changes));
    assert(decided.decisions.drop_last() =~= t.decisions);
}

/// No candidate that is left for a cell after the forbidden tiles have been
/// taken out is the tile of a forbidden decision for that cell whose parent
/// is the parent of the decision on top of the branch.
pub proof fn lemma_remaining_excludes_forbidden(w: WaveView, t: TreeView, pos: Coord)
    ensures
        forall|i: int, k: int|
            0 <= i < remaining(w.cell(pos), t.forbidden_options(pos)).len() && 0 <= k
                < t.forbidden.len() && t.forbidden[k].previous_id == t.top_previous()
                && t.forbidden[k].position == pos ==> #[trigger] remaining(
                w.cell(pos),
                t.forbidden_options(pos),
            )[i] != (#[trigger] t.forbidden[k]).chosen_field,
{
    let banned = t.forbidden_options(pos);
    let left = remaining(w.cell(pos), banned);
    let chosen = |e: DecisionView| e.previous_id == t.top_previous() && e.position == pos;
    lemma_filter_members(w.cell(pos), |g: FieldView| !banned.contains(g));
    lemma_filter_members(t.forbidden, chosen);
    assert forall|i: int, k: int|
        0 <= i < left.len() && 0 <= k < t.forbidden.len() && t.forbidden[k].previous_id
            == t.top_previous() && t.forbidden[k].position == pos implies #[trigger] left[i] != (
    #[trigger] t.forbidden[k]).chosen_field by {
        let e = t.forbidden[k];
        assert(t.forbidden.contains(e));
        let picked = t.forbidden.filter(chosen);
        assert(picked.contains(e));
        let j = choose|j: int| 0 <= j < picked.len() && picked[j] == e;
        assert(banned[j] == e.chosen_field);
        assert(banned.contains(e.chosen_field));
        assert(left.contains(left[i]));
    }
}

/// Two solves from the same catalog, the same boundaries and the same
/// generator state end alike: both fail, or both give the same grid, tile
/// for tile; and both leave the generator in the same state.
pub proof fn lemma_runs_agree(
    p: ParamsView,
    s: u64,
    first: Result<Array2D<Field>, NotCollapsable>,
    first_after: u64,
    second: Result<Array2D<Field>, NotCollapsable>,
    second_after: u64,
)
    requires
        is_outcome(p, s, first, first_after),
        is_outcome(p, s, second, second_after),
    ensures
        first is Ok == second is Ok,
        first is Ok ==> grid_view(first->Ok_0) == grid_view(second->Ok_0),
        first_after == second_after,
{
}

/// In a wave whose candidate lists follow the order of the catalog, every
/// candidate is a tile of the catalog and, where no tile is in the catalog
/// twice, no candidate is in a cell twice.
pub proof fn lemma_candidates_distinct(p: ParamsView, w: WaveView, c: Coord)
    requires
        ordered(p, w),
        w.has(c),
    ensures
        forall|i: int| 0 <= i < w.cell(c).len() ==> p.catalog().contains(#[trigger] w.cell(c)[i]),
        p.catalog().no_duplicates() ==> w.cell(c).no_duplicates(),
{
    lemma_sublist_members(w.cell(c), p.catalog());
    if p.catalog().no_duplicates() {
        lemma_sublist_no_duplicates(w.cell(c), p.catalog());
    }
}

/// Propagation changes nothing in a wave in which no cell is empty and
/// every cell is consistent, from whatever cells it starts.
pub proof fn lemma_propagate_fixpoint(
    p: ParamsView,
    w: WaveView,
    log: Seq<ChangeView>,
    work: Seq<Coord>,
)
    requires
        w.wf(),
        w.inhabited(),
        forall|c: Coord| w.has(c) ==> #[trigger] consistent(p, w, c),
    ensures
        propagate_spec(p, w, log, work, false) == (w, log, true),
    decreases work.len(),
{
    if work.len() > 0 {
        let pos = work.last();
        let rest = work.drop_last();
        lemma_dedup(rest);
        if w.has(pos) {
            assert(consistent(p, w, pos));
            assert(w.cell(pos).len() > 0);
            lemma_filter_all(w.cell(pos), |f: FieldView| keeps(f, offers_at(p, w, pos)));
        }
        lemma_propagate_fixpoint(p, w, log, dedup(rest));
    }
}

/// The selector finds nothing to decide exactly when no cell has two or
/// more candidates, and then leaves the generator as it is.
pub proof fn lemma_nothing_to_decide(w: WaveView, t: TreeView, s: u64)
    requires
        w.wf(),
    ensures
        (forall|c: Coord| w.has(c) ==> (#[trigger] w.cell(c)).len() < 2) <==> select_spec(w, t, s).0
            == Selection::Done,
        select_spec(w, t, s).0 == Selection::Done ==> select_spec(w, t, s).1 == s,
{
    lemma_scan(w, w.width);
    let tied = lowest_cells(w);
    if tied.len() > 0 {
        assert(w.has(tied[0]) && w.cell(tied[0]).len() >= 2);
    } else {
        assert forall|c: Coord| w.has(c) implies (#[trigger] w.cell(c)).len() < 2 by {
            assert(seen(w, w.width as int, 0, c));
        }
    }
}

/// Where one undecided cell has fewer candidates than every other, and a
/// candidate is left there that is not forbidden, the selector picks that
/// cell.
pub proof fn lemma_only_lowest_is_selected(w: WaveView, t: TreeView, s: u64, lowest: Coord)
    requires
        w.wf(),
        w.has(lowest),
        w.cell(lowest).len() >= 2,
        remaining(w.cell(lowest), t.forbidden_options(lowest)).len() > 0,
        forall|c: Coord|
            w.has(c) && c != lowest ==> (#[trigger] w.cell(c)).len() < 2 || w.cell(c).len()
                > w.cell(lowest).len(),
    ensures
        select_spec(w, t, s).0 == Selection::Cell(lowest),
{
    lemma_scan(w, w.width);
    lemma_select(w, t, s);
    let tied = lowest_cells(w);
    let open = viable(w, t, tied);
    assert(seen(w, w.width as int, 0, lowest));
    if tied.len() > 0 {
        assert(w.has(tied[0]));
        assert(w.cell(tied[0]).len() >= 2);
        if tied[0] != lowest {
            assert(w.cell(tied[0]).len() > w.cell(lowest).len());
        }
    }
    assert(tied.contains(lowest));
    lemma_filter_members(
        tied,
        |c: Coord| remaining(w.cell(c), t.forbidden_options(c)).len() > 0,
    );
    assert(open.contains(lowest));
}

/// Whether a tile fits itself: its east edge fits its west edge, and its
/// south edge fits its north edge.
pub open spec fn fits_itself(t: FieldView) -> bool {
    fits_spec(t.sides[1], t.sides[3]) && fits_spec(t.sides[2], t.sides[0])
}

/// Whether every virtual cell of every boundary holds a tile that fits the
/// tile `t` on the side that faces that boundary.
pub open spec fn boundaries_allow(p: ParamsView, t: FieldView) -> bool {
    forall|s: int, k: int|
        0 <= s < 4 && 0 <= k < p.boundary(s).len() ==> supported(
            labels(#[trigger] p.boundary(s)[k], opposite(s)),
            t.sides[s],
        )
}

/// With a catalog of one tile that fits itself and that every boundary
/// allows, the grid is solved without a draw: every cell holds that tile.
pub proof fn lemma_single_tile_solves(p: ParamsView, t: FieldView, s: u64)
    requires
        p.catalog() == seq![t],
        fits_itself(t),
        boundaries_allow(p, t),
        grid_width(p) <= usize::MAX,
        grid_height(p) <= usize::MAX,
    ensures
        collapse_spec(p, s) == (
            Some(
                Seq::new(
                    grid_height(p),
                    |y: int| Seq::new(grid_width(p), |x: int| t),
                ),
            ),
            s,
        ),
{
    let width = grid_width(p);
    let height = grid_height(p);
    let start = full_wave(p.catalog(), width, height);
    let one = seq![t];
    lemma_fits_symmetric(t.sides[1], t.sides[3]);
    lemma_fits_symmetric(t.sides[2], t.sides[0]);
    assert forall|d: int| 0 <= d < 4 implies supported(
        labels(one, opposite(d)),
        #[trigger] t.sides[d],
    ) by {
        assert(labels(one, opposite(d))[0] == t.sides[opposite(d)]);
    }
    assert forall|c: Coord| start.has(c) implies #[trigger] consistent(p, start, c) by {
        assert(start.cell(c) == one);
        assert forall|d: int| 0 <= d < 4 implies supported(
            #[trigger] offers_at(p, start, c)[d],
            t.sides[d],
        ) by {
            let around = neighbor(p, start, c, d);
            if around != one {
                let k = if d == 0 || d == 2 {
                    c.x as int
                } else {
                    c.y as int
                };
                assert(around == p.boundary(d)[k]);
            }
        }
        assert(keeps(one[0], offers_at(p, start, c)));
    }
    lemma_propagate_fixpoint(p, start, Seq::empty(), seed_cells(width, height));
    let tree = TreeView { changes: Seq::empty(), ..TreeView::empty() };
    lemma_nothing_to_decide(start, tree, s);
    assert(first_tiles(start) =~~= Seq::new(height, |y: int| Seq::new(width, |x: int| t)));
}

/// A grid without cells is solved without a draw, whatever the catalog.
pub proof fn lemma_no_cells_solves(p: ParamsView, s: u64)
    requires
        grid_width(p) == 0 || grid_height(p) == 0,
        grid_width(p) <= usize::MAX,
        grid_height(p) <= usize::MAX,
    ensures
        collapse_spec(p, s).0 is Some,
        collapse_spec(p, s).1 == s,
        forall|y: int| 0 <= y < collapse_spec(p, s).0->0.len() ==> (#[trigger] collapse_spec(
            p,
            s,
        ).0->0[y]).len() == 0,
{
    let start = full_wave(p.catalog(), grid_width(p), grid_height(p));
    let tree = TreeView { changes: Seq::empty(), ..TreeView::empty() };
    assert(start.wf());
    assert(propagate_spec(p, start, Seq::empty(), Seq::empty(), false) == (
        start,
        Seq::<ChangeView>::empty(),
        true,
    ));
    lemma_nothing_to_decide(start, tree, s);
}

} // verus!
