//! The decision tree: the undo log of the search, the collapses of the
//! current branch, and the collapses that were tried there and failed.
//!
//! A new decision takes over the parent of the decision on top of the
//! branch, so the decisions of one run of collapses are siblings. A
//! forbidding therefore holds for the whole run: a tile that failed in a
//! cell is not tried there again.

use array2d::Array2D;
use vstd::prelude::*;
use crate::tile::{views, Coord, Field, FieldView};
use crate::wave::{dimensions, read_cell, view_of, write_cell, WaveView};

verus! {

/// The search is exhausted: every decision has been tried and forbidden.
#[derive(Clone, Copy, PartialEq, Eq, Structural, Debug)]
pub struct NotCollapsable;

/// Why a candidate list was replaced.
#[derive(Clone, Copy, PartialEq, Eq, Structural, Debug)]
pub enum ChangeKind {
    /// The search collapsed the cell.
    Chosen,
    /// Propagation narrowed the cell.
    Propagated,
}

/// What an entry of the undo log is: the cell, the candidates that it held
/// just before the change, and the kind of change.
pub struct ChangeView {
    pub position: Coord,
    pub old_candidates: Seq<FieldView>,
    pub kind: ChangeKind,
}

/// An entry of the undo log.
pub struct Change<'a> {
    pub position: Coord,
    pub old_candidates: Vec<&'a Field>,
    pub kind: ChangeKind,
}

impl<'a> View for Change<'a> {
    type V = ChangeView;

    open spec fn view(&self) -> ChangeView {
        ChangeView {
            position: self.position,
            old_candidates: views(self.old_candidates@),
            kind: self.kind,
        }
    }
}

/// What a decision is: its number, the number of its parent, the cell that
/// was collapsed, and the tile that it was collapsed to.
pub struct DecisionView {
    pub id: u64,
    pub previous_id: Option<u64>,
    pub position: Coord,
    pub chosen_field: FieldView,
}

/// A collapse of one cell to one tile.
pub struct Decision<'a> {
    pub id: u64,
    pub previous_id: Option<u64>,
    pub position: Coord,
    pub chosen_field: &'a Field,
}

impl<'a> View for Decision<'a> {
    type V = DecisionView;

    open spec fn view(&self) -> DecisionView {
        DecisionView {
            id: self.id,
            previous_id: self.previous_id,
            position: self.position,
            chosen_field: self.chosen_field@,
        }
    }
}

/// What a decision tree is: the undo log, oldest entry first; the decisions
/// of the current branch, oldest first; the forbidden decisions; and the
/// number that the next decision gets.
pub struct TreeView {
    pub changes: Seq<ChangeView>,
    pub decisions: Seq<DecisionView>,
    pub forbidden: Seq<DecisionView>,
    pub next_id: u64,
}

/// The wave and the undo log after the log has been unwound from its newest
/// entry down to, and including, the newest `Chosen` entry; with no such
/// entry the whole log is unwound.
pub open spec fn rewind(w: WaveView, changes: Seq<ChangeView>) -> (WaveView, Seq<ChangeView>)
    decreases changes.len(),
{
    if changes.len() == 0 {
        (w, changes)
    } else {
        let last = changes.last();
        let restored = w.put(last.position, last.old_candidates);
        if last.kind == ChangeKind::Chosen {
            (restored, changes.drop_last())
        } else {
            rewind(restored, changes.drop_last())
        }
    }
}

/// The candidates of a cell that are not among the forbidden tiles.
pub open spec fn remaining(cell: Seq<FieldView>, forbidden: Seq<FieldView>) -> Seq<FieldView> {
    cell.filter(|f: FieldView| !forbidden.contains(f))
}

impl TreeView {
    /// The tree of a search that has not begun.
    pub open spec fn empty() -> TreeView {
        TreeView {
            changes: Seq::empty(),
            decisions: Seq::empty(),
            forbidden: Seq::empty(),
            next_id: 0,
        }
    }

    /// The parent of the decision on top of the branch; none on an empty branch.
    pub open spec fn top_previous(self) -> Option<u64> {
        if self.decisions.len() > 0 {
            self.decisions.last().previous_id
        } else {
            None
        }
    }

    /// The tree with one more entry in the undo log.
    pub open spec fn record(self, change: ChangeView) -> TreeView {
        TreeView { changes: self.changes.push(change), ..self }
    }

    /// The tree after the collapse of cell `position`, which held `old`, to
    /// the tile `f`.
    pub open spec fn decide(self, position: Coord, old: Seq<FieldView>, f: FieldView) -> TreeView {
        TreeView {
            changes: self.changes.push(
                ChangeView { position, old_candidates: old, kind: ChangeKind::Chosen },
            ),
            decisions: self.decisions.push(
                DecisionView {
                    id: self.next_id,
                    previous_id: self.top_previous(),
                    position,
                    chosen_field: f,
                },
            ),
            forbidden: self.forbidden,
            next_id: (self.next_id + 1) as u64,
        }
    }

    /// The tree after the decision on top of the branch has been taken off
    /// and forbidden; nothing when the branch is empty. Forbidden decisions
    /// with another parent than that decision are dropped.
    pub open spec fn forbid_last(self) -> Option<TreeView> {
        if self.decisions.len() == 0 {
            None
        } else {
            let d = self.decisions.last();
            Some(
                TreeView {
                    changes: self.changes,
                    decisions: self.decisions.drop_last(),
                    forbidden: self.forbidden.filter(
                        |e: DecisionView| e.previous_id == d.previous_id,
                    ).push(d),
                    next_id: self.next_id,
                },
            )
        }
    }

    /// The tiles that are forbidden in cell `position` on the current
    /// branch: those of the forbidden decisions for that cell whose parent
    /// is the parent of the decision on top.
    pub open spec fn forbidden_options(self, position: Coord) -> Seq<FieldView> {
        self.forbidden.filter(
            |e: DecisionView| e.previous_id == self.top_previous() && e.position == position,
        ).map_values(|e: DecisionView| e.chosen_field)
    }

    /// The wave and the tree after the newest collapse has been taken back
    /// and forbidden, and whether there was a decision to forbid.
    pub open spec fn undo(self, w: WaveView) -> (WaveView, TreeView, bool) {
        let (restored, log) = rewind(w, self.changes);
        let unwound = TreeView { changes: log, ..self };
        match unwound.forbid_last() {
            Some(t) => (restored, t, true),
            None => (restored, unwound, false),
        }
    }
}

/// The decision tree of a search.
pub struct DecisionTree<'a> {
    pub(crate) changes: Vec<Change<'a>>,
    pub(crate) decisions: Vec<Decision<'a>>,
    pub(crate) forbidden: Vec<Decision<'a>>,
    pub(crate) next_id: u64,
}

impl<'a> View for DecisionTree<'a> {
    type V = TreeView;

    open(crate) spec fn view(&self) -> TreeView {
        TreeView {
            changes: views(self.changes@),
            decisions: views(self.decisions@),
            forbidden: views(self.forbidden@),
            next_id: self.next_id,
        }
    }
}

impl<'a> DecisionTree<'a> {
    /// The tree of a search that has not begun.
    pub fn new() -> (t: DecisionTree<'a>)
        ensures
            t@ == TreeView::empty(),
    {
        let t = DecisionTree {
            changes: Vec::new(),
            decisions: Vec::new(),
            forbidden: Vec::new(),
            next_id: 0,
        };
        assert(t@.changes =~= Seq::empty());
        assert(t@.decisions =~= Seq::empty());
        assert(t@.forbidden =~= Seq::empty());
        t
    }

    /// The number of entries in the undo log.
    pub fn history_len(&self) -> (n: usize)
        ensures
            n == self@.changes.len(),
    {
        self.changes.len()
    }

    /// The number of decisions on the current branch.
    pub fn depth(&self) -> (n: usize)
        ensures
            n == self@.decisions.len(),
    {
        self.decisions.len()
    }

    /// The number of forbidden decisions.
    pub fn forbidden_len(&self) -> (n: usize)
        ensures
            n == self@.forbidden.len(),
    {
        self.forbidden.len()
    }

    /// Whether the numbers for decisions have run out.
    pub fn exhausted(&self) -> (r: bool)
        ensures
            r == (self@.next_id == u64::MAX),
    {
        self.next_id == u64::MAX
    }

    /// Adds an entry to the undo log: cell `position` held `old_candidates`
    /// before propagation narrowed it.
    pub fn record(&mut self, position: Coord, old_candidates: Vec<&'a Field>)
        ensures
            final(self)@ == old(self)@.record(
                ChangeView {
                    position,
                    old_candidates: views(old_candidates@),
                    kind: ChangeKind::Propagated,
                },
            ),
    {
        let ghost before = self@;
        let change = Change { position, old_candidates, kind: ChangeKind::Propagated };
        self.changes.push(change);
        assert(self@.changes =~= before.changes.push(change@));
    }

    /// Records the collapse of cell `position` to the tile `field`: the
    /// candidates that the cell holds go to the undo log as a `Chosen`
    /// entry, and a decision with the next number goes on top of the branch.
    pub fn decide(&mut self, wave: &Array2D<Vec<&'a Field>>, position: Coord, field: &'a Field)
        requires
            old(self)@.next_id < u64::MAX,
        ensures
            final(self)@ == old(self)@.decide(position, view_of(*wave).cell(position), field@),
    {
        let ghost before = self@;
        let old_candidates = read_cell(wave, position);
        let previous_id = if self.decisions.len() > 0 {
            self.decisions[self.decisions.len() - 1].previous_id
        } else {
            None
        };
        let change = Change { position, old_candidates, kind: ChangeKind::Chosen };
        let decision = Decision { id: self.next_id, previous_id, position, chosen_field: field };
        self.changes.push(change);
        self.decisions.push(decision);
        self.next_id = self.next_id + 1;
        assert(self@.changes =~= before.changes.push(change@));
        assert(self@.decisions =~= before.decisions.push(decision@));
    }

    /// Takes the decision on top of the branch off and forbids it. Forbidden
    /// decisions with another parent than that decision are dropped. Fails,
    /// and changes nothing, when the branch is empty.
    pub fn forbid_last_decision(&mut self) -> (r: Result<(), NotCollapsable>)
        ensures
            match old(self)@.forbid_last() {
                Some(t) => r is Ok && final(self)@ == t,
                None => r is Err && final(self)@ == old(self)@,
            },
    {
        let ghost before = self@;
        match self.decisions.pop() {
            None => Err(NotCollapsable),
            Some(last) => {
                let ghost pred = |e: DecisionView| e.previous_id == last@.previous_id;
                let mut kept: Vec<Decision<'a>> = Vec::new();
                let mut i: usize = 0;
                proof {
                    reveal(Seq::filter);
                    assert(before.forbidden.take(0) =~= Seq::<DecisionView>::empty());
                    assert(views(kept@) =~= before.forbidden.take(0).filter(pred));
                }
                while i < self.forbidden.len()
                    invariant
                        i <= self.forbidden.len(),
                        views(self.forbidden@) == before.forbidden,
                        pred == (|e: DecisionView| e.previous_id == last@.previous_id),
                        views(kept@) == before.forbidden.take(i as int).filter(pred),
                    decreases self.forbidden.len() - i,
                {
                    let e = &self.forbidden[i];
                    let ghost so_far = views(kept@);
                    proof {
                        reveal(Seq::filter);
                        assert(before.forbidden.take(i + 1).drop_last()
                            =~= before.forbidden.take(i as int));
                        assert(before.forbidden.take(i + 1).last() == e@);
                    }
                    if e.previous_id == last.previous_id {
                        let copy = Decision {
                            id: e.id,
                            previous_id: e.previous_id,
                            position: e.position,
                            chosen_field: e.chosen_field,
                        };
                        kept.push(copy);
                        assert(views(kept@) =~= so_far.push(e@));
                    }
                    i += 1;
                }
                proof {
                    assert(before.forbidden.take(self.forbidden.len() as int)
                        =~= before.forbidden);
                }
                let ghost filtered = views(kept@);
                kept.push(last);
                assert(views(kept@) =~= filtered.push(last@));
                self.forbidden = kept;
                assert(self@.decisions =~= before.decisions.drop_last());
                Ok(())
            },
        }
    }

    /// The tiles that are forbidden in cell `position` on the current branch.
    pub fn get_forbidden_options(&self, position: Coord) -> (r: Vec<&'a Field>)
        ensures
            views(r@) == self@.forbidden_options(position),
    {
        let top = if self.decisions.len() > 0 {
            self.decisions[self.decisions.len() - 1].previous_id
        } else {
            None
        };
        let ghost all = self@.forbidden;
        let ghost pred = |e: DecisionView| e.previous_id == self@.top_previous() && e.position
            == position;
        let ghost pick = |e: DecisionView| e.chosen_field;
        let mut out: Vec<&'a Field> = Vec::new();
        let mut i: usize = 0;
        proof {
            reveal(Seq::filter);
            assert(all.take(0) =~= Seq::<DecisionView>::empty());
            assert(views(out@) =~= all.take(0).filter(pred).map_values(pick));
        }
        while i < self.forbidden.len()
            invariant
                i <= self.forbidden.len(),
                all == self@.forbidden,
                top == self@.top_previous(),
                pred == (|e: DecisionView|
                    e.previous_id == self@.top_previous() && e.position == position),
                pick == (|e: DecisionView| e.chosen_field),
                views(out@) == all.take(i as int).filter(pred).map_values(pick),
            decreases self.forbidden.len() - i,
        {
            let e = &self.forbidden[i];
            let ghost so_far = all.take(i as int).filter(pred);
            proof {
                reveal(Seq::filter);
                assert(all.take(i + 1).drop_last() =~= all.take(i as int));
                assert(all.take(i + 1).last() == e@);
            }
            if e.previous_id == top && e.position == position {
                let ghost picked = views(out@);
                out.push(e.chosen_field);
                assert(views(out@) =~= picked.push(e@.chosen_field));
                assert(so_far.push(e@).map_values(pick) =~= so_far.map_values(pick).push(
                    pick(e@),
                ));
            }
            i += 1;
        }
        assert(all.take(self.forbidden.len() as int) =~= all);
        out
    }

    /// The candidates of cell `position` that are not forbidden there on the
    /// current branch, in their order.
    pub fn remaining_options(&self, wave: &Array2D<Vec<&'a Field>>, position: Coord) -> (r: Vec<
        &'a Field,
    >)
        ensures
            views(r@) == remaining(
                view_of(*wave).cell(position),
                self@.forbidden_options(position),
            ),
            forall|i: int|
                0 <= i < r@.len() ==> !self@.forbidden_options(position).contains(
                    #[trigger] r@[i]@,
                ),
    {
        let cell = read_cell(wave, position);
        let forbidden = self.get_forbidden_options(position);
        let ghost all = views(cell@);
        let ghost banned = views(forbidden@);
        let ghost pred = |f: FieldView| !banned.contains(f);
        let mut out: Vec<&'a Field> = Vec::new();
        let mut i: usize = 0;
        proof {
            reveal(Seq::filter);
            assert(all.take(0) =~= Seq::<FieldView>::empty());
            assert(views(out@) =~= all.take(0).filter(pred));
        }
        while i < cell.len()
            invariant
                i <= cell.len(),
                all == views(cell@),
                banned == views(forbidden@),
                pred == (|f: FieldView| !banned.contains(f)),
                views(out@) == all.take(i as int).filter(pred),
                forall|k: int| 0 <= k < out@.len() ==> !banned.contains(#[trigger] out@[k]@),
            decreases cell.len() - i,
        {
            let f: &'a Field = cell[i];
            let ghost so_far = views(out@);
            proof {
                reveal(Seq::filter);
                assert(all.take(i + 1).drop_last() =~= all.take(i as int));
                assert(all.take(i + 1).last() == f@);
            }
            let mut found = false;
            let mut k: usize = 0;
            while k < forbidden.len()
                invariant
                    k <= forbidden.len(),
                    banned == views(forbidden@),
                    found == (exists|j: int| 0 <= j < k && banned[j] == f@),
                decreases forbidden.len() - k,
            {
                if forbidden[k].same(f) {
                    assert(banned[k as int] == f@);
                    found = true;
                }
                k += 1;
            }
            if !found {
                out.push(f);
                assert(views(out@) =~= so_far.push(f@));
            }
            i += 1;
        }
        assert(all.take(cell.len() as int) =~= all);
        out
    }

    /// Takes the newest collapse back: unwinds the undo log, restoring each
    /// cell, down to and including the newest `Chosen` entry, then forbids
    /// the decision on top of the branch. Fails when there is no decision to
    /// forbid: the search is exhausted.
    pub fn undo(&mut self, wave: &mut Array2D<Vec<&'a Field>>) -> (r: Result<(), NotCollapsable>)
        ensures
            ({
                let out = old(self)@.undo(view_of(*old(wave)));
                &&& view_of(*final(wave)) == out.0
                &&& final(self)@ == out.1
                &&& r is Ok == out.2
            }),
            view_of(*final(wave)).wf(),
    {
        let ghost before = self@;
        let ghost target = rewind(view_of(*wave), self@.changes);
        let mut done = false;
        let _ = dimensions(wave);
        while !done
            invariant
                self@.decisions == before.decisions,
                self@.forbidden == before.forbidden,
                self@.next_id == before.next_id,
                view_of(*wave).wf(),
                !done ==> rewind(view_of(*wave), self@.changes) == target,
                done ==> (view_of(*wave), self@.changes) == target,
            decreases self.changes.len() + (if done { 0int } else { 1int }),
        {
            let ghost log = self@.changes;
            match self.changes.pop() {
                None => {
                    done = true;
                },
                Some(change) => {
                    assert(self@.changes =~= log.drop_last());
                    assert(log.last() == change@);
                    let chosen = match change.kind {
                        ChangeKind::Chosen => true,
                        ChangeKind::Propagated => false,
                    };
                    write_cell(wave, change.position, change.old_candidates);
                    if chosen {
                        done = true;
                    }
                },
            }
        }
        self.forbid_last_decision()
    }
}

} // verus!
