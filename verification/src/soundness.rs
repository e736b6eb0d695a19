//! Why a solved grid fits: what holds of the wave and the decision tree at
//! every round of the search.

use vstd::prelude::*;
use crate::consistency::{
    accounted, adjacent, cell_accounted, consistent, count_chosen, interior,
    lemma_offers_unchanged, lemma_propagate_narrows, lemma_visit_changed, lemma_visit_unchanged,
    ordered, settled, within,
};
use crate::constraint::{
    constrained, keeps, labels, neighbor, offers_at, opposite, real_neighbors, supported,
};
use crate::decision::{remaining, rewind, ChangeKind, ChangeView, TreeView};
use crate::edge::{fits_spec, lemma_fits_symmetric};
use crate::propagate::{propagate_spec, propagated};
use crate::random::{draw, next_state};
use crate::select::{lemma_select, select_spec, Selection};
use crate::seqs::{
    dedup, is_sublist, lemma_dedup, lemma_filter_all, lemma_filter_members, lemma_filter_sublist,
    lemma_single_sublist, lemma_sublist_refl, lemma_sublist_trans,
};
use crate::solver::{
    collapse_spec, collapsed, column_cells, first_tiles, full_wave, grid_height, grid_width,
    lemma_ticket_index_bound, row_cells, seed_cells, solve_spec, total_weight, weighted_choice,
};
use crate::tile::{Coord, FieldView, ParamsView};
use crate::wave::WaveView;

verus! {

/// A wave at rest: it is well formed, no cell is empty, the candidates of
/// every cell are tiles of the catalog in the order of the catalog, and
/// every cell is consistent, but for cells that touch no boundary and were
/// never narrowed.
pub open spec fn good(p: ParamsView, w: WaveView) -> bool {
    &&& w.wf()
    &&& w.inhabited()
    &&& within(p, w)
    &&& ordered(p, w)
    &&& settled(p, w)
}

/// Unwinding the undo log restores, before every `Chosen` entry, a wave at
/// rest.
pub open spec fn sound_history(p: ParamsView, w: WaveView, log: Seq<ChangeView>) -> bool
    decreases log.len(),
{
    if log.len() == 0 {
        true
    } else {
        let last = log.last();
        let back = w.put(last.position, last.old_candidates);
        &&& last.kind == ChangeKind::Chosen ==> good(p, back)
        &&& sound_history(p, back, log.drop_last())
    }
}

/// What holds between the rounds of the search: the wave is at rest, the
/// undo log leads back to waves at rest, and the log has one `Chosen` entry
/// for each decision of the branch.
pub open spec fn search_ok(p: ParamsView, w: WaveView, t: TreeView) -> bool {
    &&& good(p, w)
    &&& sound_history(p, w, t.changes)
    &&& count_chosen(t.changes) == t.decisions.len()
}

/// Propagation from a wave in which every cell is accounted for keeps every
/// cell inhabited and within the catalog, keeps the undo log sound, and,
/// where it succeeds, leaves the wave settled.
pub proof fn lemma_propagate_sound(
    p: ParamsView,
    w: WaveView,
    log: Seq<ChangeView>,
    work: Seq<Coord>,
    force: bool,
)
    requires
        w.wf(),
        w.inhabited(),
        within(p, w),
        ordered(p, w),
        accounted(p, w, work, force),
        sound_history(p, w, log),
    ensures
        propagate_spec(p, w, log, work, force).0.wf(),
        propagate_spec(p, w, log, work, force).0.inhabited(),
        within(p, propagate_spec(p, w, log, work, force).0),
        ordered(p, propagate_spec(p, w, log, work, force).0),
        sound_history(
            p,
            propagate_spec(p, w, log, work, force).0,
            propagate_spec(p, w, log, work, force).1,
        ),
        propagate_spec(p, w, log, work, force).2 ==> settled(
            p,
            propagate_spec(p, w, log, work, force).0,
        ),
    decreases w.entropy() + (if force { 1nat } else { 0nat }), work.len(),
{
    if work.len() == 0 {
        assert forall|c: Coord| w.has(c) implies #[trigger] cell_accounted(
            p,
            w,
            Seq::empty(),
            false,
            c,
        ) by {
            assert(cell_accounted(p, w, work, force, c));
        }
    } else {
        let pos = work.last();
        let rest = work.drop_last();
        lemma_dedup(rest);
        if !w.has(pos) {
            lemma_visit_unchanged(p, w, work, force);
            lemma_propagate_sound(p, w, log, dedup(rest), false);
        } else {
            let kept = constrained(p, w, pos);
            let pred = |f: FieldView| keeps(f, offers_at(p, w, pos));
            lemma_filter_all(w.cell(pos), pred);
            lemma_filter_members(w.cell(pos), pred);
            w.lemma_put(pos, kept);
            if kept.len() == 0 {
            } else if kept.len() < w.cell(pos).len() || force {
                let after = w.put(pos, kept);
                let log1 = log.push(propagated(pos, w.cell(pos)));
                let next = dedup(rest + real_neighbors(w, pos));
                lemma_visit_changed(p, w, work, force);
                assert forall|c: Coord| after.has(c) implies (#[trigger] after.cell(c)).len()
                    > 0 by {
                    if c != pos {
                        assert(after.cell(c) == w.cell(c));
                    }
                }
                assert forall|c: Coord, i: int|
                    after.has(c) && 0 <= i < after.cell(c).len() implies p.catalog().contains(
                    #[trigger] after.cell(c)[i],
                ) by {
                    if c == pos {
                        assert(kept.contains(kept[i]));
                        let f = kept[i];
                        let k = choose|k: int| 0 <= k < w.cell(pos).len() && w.cell(pos)[k] == f;
                        assert(p.catalog().contains(w.cell(pos)[k]));
                    } else {
                        assert(after.cell(c) == w.cell(c));
                        assert(p.catalog().contains(w.cell(c)[i]));
                    }
                }
                assert(sound_history(p, after, log1)) by {
                    w.lemma_put_back(pos, kept);
                    assert(log1.drop_last() =~= log);
                    assert(log1.last() == propagated(pos, w.cell(pos)));
                }
                assert forall|c: Coord| after.has(c) implies is_sublist(
                    #[trigger] after.cell(c),
                    p.catalog(),
                ) by {
                    if c == pos {
                        lemma_filter_sublist(w.cell(pos), pred);
                        assert(is_sublist(w.cell(pos), p.catalog()));
                        lemma_sublist_trans(kept, w.cell(pos), p.catalog());
                    } else {
                        assert(after.cell(c) == w.cell(c));
                    }
                }
                lemma_propagate_sound(p, after, log1, next, false);
            } else {
                lemma_visit_unchanged(p, w, work, force);
                lemma_propagate_sound(p, w, log, dedup(rest), false);
            }
        }
    }
}

/// Unwinding a sound undo log keeps the shape of the wave and leaves a
/// sound log; if the log has a `Chosen` entry, the wave that comes back is
/// at rest, and the log has one `Chosen` entry less.
pub proof fn lemma_rewind_sound(p: ParamsView, w: WaveView, log: Seq<ChangeView>)
    requires
        w.wf(),
        sound_history(p, w, log),
    ensures
        rewind(w, log).0.wf(),
        rewind(w, log).0.width == w.width,
        rewind(w, log).0.height() == w.height(),
        sound_history(p, rewind(w, log).0, rewind(w, log).1),
        count_chosen(log) > 0 ==> good(p, rewind(w, log).0) && count_chosen(rewind(w, log).1)
            + 1 == count_chosen(log),
        count_chosen(log) == 0 ==> count_chosen(rewind(w, log).1) == 0,
    decreases log.len(),
{
    if log.len() > 0 {
        let last = log.last();
        let back = w.put(last.position, last.old_candidates);
        w.lemma_put(last.position, last.old_candidates);
        if last.kind != ChangeKind::Chosen {
            lemma_rewind_sound(p, back, log.drop_last());
        }
    }
}

/// Taking the newest collapse back leads from a sound undo log to a state
/// in which the invariant of the search holds, with one decision less on
/// the branch and the same number for the next decision.
pub proof fn lemma_undo_sound(p: ParamsView, w: WaveView, t: TreeView)
    requires
        w.wf(),
        sound_history(p, w, t.changes),
        count_chosen(t.changes) == t.decisions.len(),
    ensures
        t.undo(w).0.wf(),
        t.undo(w).0.width == w.width,
        t.undo(w).0.height() == w.height(),
        t.undo(w).1.next_id == t.next_id,
        t.undo(w).2 ==> search_ok(p, t.undo(w).0, t.undo(w).1),
        t.undo(w).2 ==> t.undo(w).1.decisions.len() + 1 == t.decisions.len(),
{
    lemma_rewind_sound(p, w, t.changes);
}

/// A draw by weight falls on a place of the list.
pub proof fn lemma_weighted_choice_bound(list: Seq<FieldView>, s: u64)
    requires
        list.len() > 0,
    ensures
        weighted_choice(list, s) < list.len(),
{
    if total_weight(list) != 0 {
        lemma_ticket_index_bound(list, (draw(s) as nat) % total_weight(list));
    }
}

/// After the collapse of an undecided cell of a wave at rest to one of its
/// candidates, every cell is accounted for when propagation starts from
/// that cell and writes it whatever comes of it.
pub proof fn lemma_collapse_accounted(p: ParamsView, w: WaveView, pos: Coord, f: FieldView)
    requires
        good(p, w),
        w.has(pos),
        w.cell(pos).contains(f),
    ensures
        collapsed(w, pos, f).wf(),
        collapsed(w, pos, f).inhabited(),
        within(p, collapsed(w, pos, f)),
        ordered(p, collapsed(w, pos, f)),
        accounted(p, collapsed(w, pos, f), seq![pos], true),
{
    let after = collapsed(w, pos, f);
    let work = seq![pos];
    w.lemma_put(pos, seq![f]);
    assert forall|c: Coord| after.has(c) implies is_sublist(
        #[trigger] after.cell(c),
        p.catalog(),
    ) by {
        if c == pos {
            let k = choose|k: int| 0 <= k < w.cell(pos).len() && w.cell(pos)[k] == f;
            assert(p.catalog().contains(w.cell(pos)[k]));
            lemma_single_sublist(f, p.catalog());
        } else {
            assert(after.cell(c) == w.cell(c));
        }
    }
    assert forall|c: Coord| after.has(c) implies (#[trigger] after.cell(c)).len() > 0 by {
        if c != pos {
            assert(after.cell(c) == w.cell(c));
        }
    }
    assert forall|c: Coord, i: int|
        after.has(c) && 0 <= i < after.cell(c).len() implies p.catalog().contains(
        #[trigger] after.cell(c)[i],
    ) by {
        if c == pos {
            let k = choose|k: int| 0 <= k < w.cell(pos).len() && w.cell(pos)[k] == f;
            assert(p.catalog().contains(w.cell(pos)[k]));
        } else {
            assert(after.cell(c) == w.cell(c));
            assert(p.catalog().contains(w.cell(c)[i]));
        }
    }
    assert forall|c: Coord| after.has(c) implies #[trigger] cell_accounted(
        p,
        after,
        work,
        true,
        c,
    ) by {
        if c == pos {
            assert(work[0] == c);
        } else if adjacent(pos, c) {
            assert(work.last() == pos);
        } else {
            lemma_offers_unchanged(p, w, pos, seq![f], c);
            assert(after.cell(c) == w.cell(c));
            assert(cell_accounted(p, w, Seq::empty(), false, c));
        }
    }
}

/// Where the search ends solved, what holds between its rounds holds at
/// its end, the wave has the shape of the wave that it began with, and
/// every cell has one candidate.
pub proof fn lemma_solve_sound(p: ParamsView, w: WaveView, t: TreeView, s: u64)
    requires
        search_ok(p, w, t),
    ensures
        solve_spec(p, w, t, s).solved ==> {
            &&& search_ok(p, solve_spec(p, w, t, s).wave, solve_spec(p, w, t, s).tree)
            &&& solve_spec(p, w, t, s).wave.width == w.width
            &&& solve_spec(p, w, t, s).wave.height() == w.height()
            &&& forall|c: Coord|
                solve_spec(p, w, t, s).wave.has(c) ==> (#[trigger] solve_spec(
                    p,
                    w,
                    t,
                    s,
                ).wave.cell(c)).len() == 1
        },
    decreases u64::MAX - t.next_id, t.decisions.len(),
{
    let (selection, s1) = select_spec(w, t, s);
    lemma_select(w, t, s);
    match selection {
        Selection::Done => {},
        Selection::Stuck => {
            lemma_undo_sound(p, w, t);
            let (w1, t1, ok) = t.undo(w);
            if ok {
                lemma_solve_sound(p, w1, t1, s1);
            }
        },
        Selection::Cell(pos) => {
            if t.next_id != u64::MAX {
                let left = remaining(w.cell(pos), t.forbidden_options(pos));
                lemma_weighted_choice_bound(left, s1);
                let f = left[weighted_choice(left, s1) as int];
                assert(left.contains(f));
                lemma_filter_members(
                    w.cell(pos),
                    |g: FieldView| !t.forbidden_options(pos).contains(g),
                );
                let s2 = next_state(s1);
                let t1 = t.decide(pos, w.cell(pos), f);
                let w1 = collapsed(w, pos, f);
                lemma_collapse_accounted(p, w, pos, f);
                assert(sound_history(p, w1, t1.changes)) by {
                    w.lemma_put_back(pos, seq![f]);
                    assert(t1.changes.drop_last() =~= t.changes);
                }
                assert(count_chosen(t1.changes) == count_chosen(t.changes) + 1) by {
                    assert(t1.changes.drop_last() =~= t.changes);
                }
                lemma_propagate_sound(p, w1, t1.changes, seq![pos], true);
                lemma_propagate_narrows(p, w1, t1.changes, seq![pos], true);
                w.lemma_put(pos, seq![f]);
                let (w2, log2, ok) = propagate_spec(p, w1, t1.changes, seq![pos], true);
                let t2 = TreeView { changes: log2, ..t1 };
                if ok {
                    lemma_solve_sound(p, w2, t2, s2);
                } else {
                    lemma_undo_sound(p, w2, t2);
                    let (w3, t3, undone) = t2.undo(w2);
                    if undone {
                        lemma_solve_sound(p, w3, t3, s2);
                    }
                }
            }
        },
    }
}

/// The grid has `height` rows of `width` tiles.
pub open spec fn rectangular(g: Seq<Seq<FieldView>>, width: nat, height: nat) -> bool {
    g.len() == height && forall|y: int| 0 <= y < g.len() ==> (#[trigger] g[y]).len() == width
}

/// Every tile of the grid is a tile of the catalog.
pub open spec fn from_catalog(p: ParamsView, g: Seq<Seq<FieldView>>) -> bool {
    forall|x: int, y: int|
        0 <= y < g.len() && 0 <= x < g[y].len() ==> p.catalog().contains(#[trigger] g[y][x])
}

/// The tile at column `x`, row `y` fits the tile east of it and the tile
/// south of it, where there is one.
pub open spec fn cell_edges_fit(g: Seq<Seq<FieldView>>, x: int, y: int) -> bool {
    &&& x + 1 < g[y].len() ==> fits_spec(g[y][x].sides[1], g[y][x + 1].sides[3]) && fits_spec(
        g[y][x + 1].sides[3],
        g[y][x].sides[1],
    )
    &&& y + 1 < g.len() ==> fits_spec(g[y][x].sides[2], g[y + 1][x].sides[0]) && fits_spec(
        g[y + 1][x].sides[0],
        g[y][x].sides[2],
    )
}

/// Every pair of abutting edges in the grid fits.
pub open spec fn edges_fit(g: Seq<Seq<FieldView>>) -> bool {
    forall|x: int, y: int|
        0 <= y < g.len() && 0 <= x < g[y].len() ==> #[trigger] cell_edges_fit(g, x, y)
}

/// On every side on which the tile at column `x`, row `y` lies at the rim
/// of the grid, a tile of the virtual cell there fits it.
pub open spec fn cell_meets_boundaries(
    p: ParamsView,
    g: Seq<Seq<FieldView>>,
    x: int,
    y: int,
) -> bool {
    &&& y == 0 ==> supported(labels(p.virtual_cell(0, x), 2), g[y][x].sides[0])
    &&& x + 1 == g[y].len() ==> supported(labels(p.virtual_cell(1, y), 3), g[y][x].sides[1])
    &&& y + 1 == g.len() ==> supported(labels(p.virtual_cell(2, x), 0), g[y][x].sides[2])
    &&& x == 0 ==> supported(labels(p.virtual_cell(3, y), 1), g[y][x].sides[3])
}

/// Every tile at the rim of the grid is fitted by its boundary.
pub open spec fn boundaries_fit(p: ParamsView, g: Seq<Seq<FieldView>>) -> bool {
    forall|x: int, y: int|
        0 <= y < g.len() && 0 <= x < g[y].len() ==> #[trigger] cell_meets_boundaries(p, g, x, y)
}

/// What a solved grid is: it has the size that the boundaries give, its
/// tiles are tiles of the catalog, all abutting edges fit, and the
/// boundaries fit the rim.
pub open spec fn valid_grid(p: ParamsView, g: Seq<Seq<FieldView>>) -> bool {
    &&& rectangular(g, grid_width(p), grid_height(p))
    &&& from_catalog(p, g)
    &&& edges_fit(g)
    &&& boundaries_fit(p, g)
}

/// A label that is supported by the one tile of a list fits the label of
/// that tile.
proof fn lemma_lone_support(list: Seq<FieldView>, side: int, mine: Seq<char>)
    requires
        list.len() == 1,
        supported(labels(list, side), mine),
    ensures
        fits_spec(list[0].sides[side], mine),
        fits_spec(mine, list[0].sides[side]),
{
    let offered = labels(list, side);
    let i = choose|i: int| 0 <= i < offered.len() && fits_spec(#[trigger] offered[i], mine);
    assert(offered[i] == list[0].sides[side]);
    lemma_fits_symmetric(list[0].sides[side], mine);
}

/// In a consistent cell with one candidate, that tile is supported from
/// direction `d`.
proof fn lemma_support_from(p: ParamsView, w: WaveView, c: Coord, d: int)
    requires
        w.has(c),
        w.cell(c).len() == 1,
        consistent(p, w, c),
        0 <= d < 4,
    ensures
        supported(
            labels(neighbor(p, w, c, d), opposite(d)),
            w.cell(c)[0].sides[d],
        ),
{
    let f = w.cell(c)[0];
    assert(keeps(f, offers_at(p, w, c)));
    assert(supported(offers_at(p, w, c)[d], f.sides[d]));
}

/// In a wave at rest with one candidate in every cell, the candidates make
/// a grid in which all abutting edges fit and the boundaries fit the rim.
pub proof fn lemma_settled_grid_fits(p: ParamsView, w: WaveView)
    requires
        good(p, w),
        forall|c: Coord| w.has(c) ==> (#[trigger] w.cell(c)).len() == 1,
    ensures
        rectangular(first_tiles(w), w.width, w.height()),
        from_catalog(p, first_tiles(w)),
        edges_fit(first_tiles(w)),
        boundaries_fit(p, first_tiles(w)),
{
    let g = first_tiles(w);
    assert forall|x: int, y: int| 0 <= y < g.len() && 0 <= x < g[y].len() implies p.catalog().contains(
        #[trigger] g[y][x],
    ) by {
        let c = Coord { x: x as usize, y: y as usize };
        assert(w.has(c));
        assert(p.catalog().contains(w.cell(c)[0]));
    }
    assert forall|x: int, y: int| 0 <= y < g.len() && 0 <= x < g[y].len() implies (
    #[trigger] cell_edges_fit(g, x, y)) && cell_meets_boundaries(p, g, x, y) by {
        let c = Coord { x: x as usize, y: y as usize };
        assert(w.has(c));
        assert(w.cell(c).len() == 1);
        let f = w.cell(c)[0];
        assert(g[y][x] == f);
        assert(cell_accounted(p, w, Seq::empty(), false, c));
        let none: Seq<Coord> = Seq::empty();
        assert(!none.contains(c));
        if consistent(p, w, c) {
            lemma_support_from(p, w, c, 0);
            lemma_support_from(p, w, c, 1);
            lemma_support_from(p, w, c, 2);
            lemma_support_from(p, w, c, 3);
            if x + 1 < w.width {
                let e = Coord { x: (x + 1) as usize, y: y as usize };
                assert(w.has(e));
                assert(w.cell(e).len() == 1);
                assert(neighbor(p, w, c, 1) == w.cell(e));
                lemma_lone_support(w.cell(e), 3, f.sides[1]);
            }
            if y + 1 < w.height() {
                let so = Coord { x: x as usize, y: (y + 1) as usize };
                assert(w.has(so));
                assert(w.cell(so).len() == 1);
                assert(neighbor(p, w, c, 2) == w.cell(so));
                lemma_lone_support(w.cell(so), 0, f.sides[2]);
            }
        } else {
            assert(interior(w, c) && w.cell(c) == p.catalog());
            assert(p.catalog().len() == 1);
            let corner = Coord { x: 0, y: 0 };
            assert(w.has(corner));
            assert(w.cell(corner).len() == 1);
            assert(cell_accounted(p, w, Seq::empty(), false, corner));
            assert(!none.contains(corner));
            assert(consistent(p, w, corner));
            let e0 = Coord { x: 1, y: 0 };
            let s0 = Coord { x: 0, y: 1 };
            let e = Coord { x: (x + 1) as usize, y: y as usize };
            let so = Coord { x: x as usize, y: (y + 1) as usize };
            assert(w.has(e0) && w.has(s0) && w.has(e) && w.has(so));
            assert(w.cell(e0).len() == 1 && w.cell(s0).len() == 1);
            assert(w.cell(e).len() == 1 && w.cell(so).len() == 1);
            assert(p.catalog().contains(w.cell(corner)[0]));
            assert(p.catalog().contains(w.cell(e0)[0]));
            assert(p.catalog().contains(w.cell(s0)[0]));
            assert(p.catalog().contains(w.cell(e)[0]));
            assert(p.catalog().contains(w.cell(so)[0]));
            assert(w.cell(corner)[0] == f);
            assert(w.cell(e0)[0] == f);
            assert(w.cell(s0)[0] == f);
            assert(w.cell(e)[0] == f);
            assert(w.cell(so)[0] == f);
            lemma_support_from(p, w, corner, 1);
            lemma_support_from(p, w, corner, 2);
            assert(neighbor(p, w, corner, 1) == w.cell(e0));
            assert(neighbor(p, w, corner, 2) == w.cell(s0));
            lemma_lone_support(w.cell(e0), 3, f.sides[1]);
            lemma_lone_support(w.cell(s0), 0, f.sides[2]);
        }
    }
    assert forall|x: int, y: int| 0 <= y < g.len() && 0 <= x < g[y].len() implies #[trigger] cell_meets_boundaries(
        p,
        g,
        x,
        y,
    ) by {
        assert(cell_edges_fit(g, x, y));
    }
}

/// Every cell that touches a boundary is among the cells from which the
/// first propagation starts.
pub proof fn lemma_seed_cells_cover(width: nat, height: nat, c: Coord)
    requires
        width <= usize::MAX,
        height <= usize::MAX,
        c.x < width,
        c.y < height,
        !(0 < c.x && c.x + 1 < width && 0 < c.y && c.y + 1 < height),
    ensures
        seed_cells(width, height).contains(c),
{
    let top = row_cells(width, 0);
    let bottom = row_cells(width, height - 1);
    let left = column_cells(0, height);
    let right = column_cells(width - 1, height);
    let all = seed_cells(width, height);
    assert(all == top + bottom + left + right);
    if c.y == 0 {
        assert(all[c.x as int] == c);
    } else if c.y + 1 == height {
        assert(all[width + c.x] == c);
    } else if c.x == 0 {
        assert(left[c.y - 1] == c);
        assert(all[width + width + (c.y - 1)] == c);
    } else {
        assert(right[c.y - 1] == c);
        assert(all[width + width + left.len() + (c.y - 1)] == c);
    }
}

/// With an empty catalog and a grid that has a cell, there is no solved
/// grid: the first propagation finds a cell without candidates.
pub proof fn lemma_empty_catalog(p: ParamsView, s: u64)
    requires
        p.catalog().len() == 0,
        0 < grid_width(p) <= usize::MAX,
        0 < grid_height(p) <= usize::MAX,
    ensures
        collapse_spec(p, s).0 is None,
        collapse_spec(p, s).1 == s,
{
    let width = grid_width(p);
    let height = grid_height(p);
    let start = full_wave(p.catalog(), width, height);
    let seeds = seed_cells(width, height);
    let top = row_cells(width, 0);
    let bottom = row_cells(width, height - 1);
    let left = column_cells(0, height);
    let right = column_cells(width - 1, height);
    assert(seeds == top + bottom + left + right);
    let pos = seeds.last();
    if height >= 3 {
        assert(pos == right[height - 3]);
    } else {
        assert(pos == bottom[width - 1]);
    }
    assert(start.has(pos));
    assert(start.wf());
    assert(start.cell(pos).len() == 0);
    lemma_filter_all(start.cell(pos), |f: FieldView| keeps(f, offers_at(p, start, pos)));
    assert(constrained(p, start, pos).len() == 0);
}

/// A solve gives only solved grids: whatever the generator draws, the grid
/// that comes out has the size that the boundaries give, holds tiles of
/// the catalog, has no pair of abutting edges that does not fit, and meets
/// the boundaries.
pub proof fn lemma_collapse_sound(p: ParamsView, s: u64)
    requires
        grid_width(p) <= usize::MAX,
        grid_height(p) <= usize::MAX,
    ensures
        match collapse_spec(p, s).0 {
            Some(g) => valid_grid(p, g),
            None => true,
        },
{
    let width = grid_width(p);
    let height = grid_height(p);
    let start = full_wave(p.catalog(), width, height);
    let seeds = seed_cells(width, height);
    let none: Seq<ChangeView> = Seq::empty();
    if p.catalog().len() == 0 && width > 0 && height > 0 {
        lemma_empty_catalog(p, s);
    } else {
        assert(start.wf());
        assert forall|c: Coord| start.has(c) implies (#[trigger] start.cell(c)).len() > 0 by {}
        assert forall|c: Coord, i: int|
            start.has(c) && 0 <= i < start.cell(c).len() implies p.catalog().contains(
            #[trigger] start.cell(c)[i],
        ) by {
            assert(start.cell(c) == p.catalog());
        }
        assert forall|c: Coord| start.has(c) implies is_sublist(
            #[trigger] start.cell(c),
            p.catalog(),
        ) by {
            lemma_sublist_refl(p.catalog());
        }
        assert forall|c: Coord| start.has(c) implies #[trigger] cell_accounted(
            p,
            start,
            seeds,
            false,
            c,
        ) by {
            if interior(start, c) {
                assert(start.cell(c) == p.catalog());
            } else {
                lemma_seed_cells_cover(width, height, c);
            }
        }
        lemma_propagate_sound(p, start, none, seeds, false);
        lemma_propagate_narrows(p, start, none, seeds, false);
        let (seeded, log, ok) = propagate_spec(p, start, none, seeds, false);
        if ok {
            let t = TreeView { changes: log, ..TreeView::empty() };
            lemma_solve_sound(p, seeded, t, s);
            let end = solve_spec(p, seeded, t, s);
            if end.solved {
                lemma_settled_grid_fits(p, end.wave);
            }
        }
    }
}

} // verus!
