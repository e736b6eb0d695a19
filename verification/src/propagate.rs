//! Propagation: narrowing candidate lists by the local constraint until
//! nothing changes any more.

use array2d::Array2D;
use vstd::prelude::*;
use crate::constraint::{
    clear_duplicate_coords, constrain, constrained, find_real_neighbors, keeps, offers_at,
    real_neighbors,
};
use crate::consistency::lemma_propagate_narrows;
use crate::decision::{ChangeKind, ChangeView, DecisionTree, TreeView};
use crate::seqs::{dedup, lemma_dedup, lemma_filter_all};
use crate::tile::{views, Coord, Field, FieldView, Params, ParamsView};
use crate::wave::{dimensions, read_cell, view_of, write_cell, WaveView};

verus! {

/// A cell has no candidate left.
#[derive(Clone, Copy, PartialEq, Eq, Structural, Debug)]
pub struct Contradiction;

/// The entry that propagation writes to the undo log for a cell.
pub open spec fn propagated(position: Coord, old_candidates: Seq<FieldView>) -> ChangeView {
    ChangeView { position, old_candidates, kind: ChangeKind::Propagated }
}

/// The wave and the undo log after propagation from the cells in `work`,
/// and whether it reached a fixpoint without emptying a cell.
///
/// The cell at the end of `work` is taken first. Its candidates are
/// narrowed to those that its neighbours allow. If none is left,
/// propagation stops there and fails, with the cell unchanged. If the list
/// became shorter, or `force` is set, the old list goes to the undo log and
/// the adjacent cells are added to `work`. Then `work` loses its repeated
/// cells, and propagation goes on without `force`. A position outside the
/// grid is skipped.
pub open spec fn propagate_spec(
    p: ParamsView,
    w: WaveView,
    log: Seq<ChangeView>,
    work: Seq<Coord>,
    force: bool,
) -> (WaveView, Seq<ChangeView>, bool)
    decreases w.entropy() + (if force { 1nat } else { 0nat }), work.len(),
    when w.wf()
    via propagate_decreases
{
    if work.len() == 0 {
        (w, log, true)
    } else {
        let pos = work.last();
        let rest = work.drop_last();
        if !w.has(pos) {
            propagate_spec(p, w, log, dedup(rest), false)
        } else {
            let kept = constrained(p, w, pos);
            if kept.len() == 0 {
                (w, log, false)
            } else if kept.len() < w.cell(pos).len() || force {
                propagate_spec(
                    p,
                    w.put(pos, kept),
                    log.push(propagated(pos, w.cell(pos))),
                    dedup(rest + real_neighbors(w, pos)),
                    false,
                )
            } else {
                propagate_spec(p, w, log, dedup(rest), false)
            }
        }
    }
}

#[via_fn]
proof fn propagate_decreases(
    p: ParamsView,
    w: WaveView,
    log: Seq<ChangeView>,
    work: Seq<Coord>,
    force: bool,
) {
    if work.len() > 0 {
        let pos = work.last();
        let rest = work.drop_last();
        lemma_dedup(rest);
        if w.has(pos) {
            let kept = constrained(p, w, pos);
            w.lemma_put(pos, kept);
            lemma_filter_all(w.cell(pos), |f: FieldView| keeps(f, offers_at(p, w, pos)));
        }
    }
}

/// Narrows the wave from the cells in `worklist` until nothing changes any
/// more, and writes every narrowing to the undo log of `tree`.
///
/// The cell at the end of the list is taken first; with `force` set it is
/// written to the log even if it keeps all its candidates. Fails as soon as
/// a cell would lose its last candidate; that cell is left as it was, and
/// the narrowings made until then stay, in the wave and in the log.
#[verifier::loop_isolation(false)]
pub fn propagate<'p>(
    params: &Params<'p>,
    wave: &mut Array2D<Vec<&'p Field>>,
    tree: &mut DecisionTree<'p>,
    worklist: Vec<Coord>,
    force: bool,
) -> (r: Result<(), Contradiction>)
    ensures
        ({
            let out = propagate_spec(
                params@,
                view_of(*old(wave)),
                old(tree)@.changes,
                worklist@,
                force,
            );
            &&& view_of(*final(wave)) == out.0
            &&& final(tree)@ == (TreeView { changes: out.1, ..old(tree)@ })
            &&& r is Ok == out.2
        }),
        view_of(*final(wave)).wf(),
        view_of(*final(wave)).width == view_of(*old(wave)).width,
        view_of(*final(wave)).height() == view_of(*old(wave)).height(),
        view_of(*final(wave)).entropy() <= view_of(*old(wave)).entropy(),
        view_of(*old(wave)).inhabited() ==> view_of(*final(wave)).inhabited(),
{
    let _ = dimensions(wave);
    proof {
        lemma_propagate_narrows(params@, view_of(*wave), tree@.changes, worklist@, force);
    }
    let ghost goal = propagate_spec(params@, view_of(*wave), tree@.changes, worklist@, force);
    let ghost before = tree@;
    let mut work = worklist;
    let mut forced = force;
    let _ = dimensions(wave);
    while work.len() > 0
        invariant
            view_of(*wave).wf(),
            tree@.decisions == before.decisions,
            tree@.forbidden == before.forbidden,
            tree@.next_id == before.next_id,
            propagate_spec(params@, view_of(*wave), tree@.changes, work@, forced) == goal,
        decreases view_of(*wave).entropy() + (if forced { 1nat } else { 0nat }), work.len(),
    {
        let ghost w = view_of(*wave);
        let ghost all = work@;
        let pos = work.pop().unwrap();
        assert(work@ =~= all.drop_last());
        let (width, height) = dimensions(wave);
        proof {
            lemma_dedup(work@);
        }
        if pos.x < width && pos.y < height {
            let old_list = read_cell(wave, pos);
            let kept = constrain(params, wave, pos);
            proof {
                w.lemma_put(pos, views(kept@));
                lemma_filter_all(
                    w.cell(pos),
                    |f: FieldView|
                        keeps(f, offers_at(params@, w, pos)),
                );
            }
            if kept.len() == 0 {
                return Err(Contradiction);
            }
            if kept.len() < old_list.len() || forced {
                let mut around = find_real_neighbors(wave, pos);
                tree.record(pos, old_list);
                write_cell(wave, pos, kept);
                work.append(&mut around);
            }
        }
        work = clear_duplicate_coords(work);
        forced = false;
    }
    Ok(())
}

/// Narrows the wave after the candidates of cell `pos` have changed:
/// propagates from the cells adjacent to `pos`, and returns the number of
/// cells that were narrowed, counting a cell each time it was.
pub fn update_field<'p>(
    params: &Params<'p>,
    wave: &mut Array2D<Vec<&'p Field>>,
    pos: Coord,
) -> (r: Result<usize, Contradiction>)
    ensures
        ({
            let out = propagate_spec(
                params@,
                view_of(*old(wave)),
                Seq::empty(),
                real_neighbors(view_of(*old(wave)), pos),
                false,
            );
            &&& view_of(*final(wave)) == out.0
            &&& r == (if out.2 {
                Ok::<usize, Contradiction>(out.1.len() as usize)
            } else {
                Err::<usize, Contradiction>(Contradiction)
            })
        }),
{
    let next = find_real_neighbors(wave, pos);
    let mut tree = DecisionTree::new();
    match propagate(params, wave, &mut tree, next, false) {
        Ok(()) => Ok(tree.history_len()),
        Err(e) => Err(e),
    }
}

} // verus!
