//! What propagation establishes: cells whose candidates are all supported
//! by their neighbours.

use vstd::prelude::*;
use crate::constraint::{cell_if_inside, constrained, keeps, neighbor, offers_at, real_neighbors};
use crate::decision::{ChangeKind, ChangeView};
use crate::propagate::{propagate_spec, propagated};
use crate::seqs::{dedup, is_sublist, lemma_dedup, lemma_filter_all, lemma_filter_members};
use crate::tile::{Coord, FieldView, ParamsView};
use crate::wave::WaveView;

verus! {

/// Every candidate of cell `c` is supported from all four directions.
pub open spec fn consistent(p: ParamsView, w: WaveView, c: Coord) -> bool {
    forall|i: int|
        0 <= i < w.cell(c).len() ==> keeps(#[trigger] w.cell(c)[i], offers_at(p, w, c))
}

/// Whether two positions are next to each other in a row or in a column.
pub open spec fn adjacent(a: Coord, b: Coord) -> bool {
    ||| (a.x == b.x && (a.y + 1 == b.y || b.y + 1 == a.y))
    ||| (a.y == b.y && (a.x + 1 == b.x || b.x + 1 == a.x))
}

/// Whether cell `c` touches no boundary.
pub open spec fn interior(w: WaveView, c: Coord) -> bool {
    0 < c.x && c.x + 1 < w.width && 0 < c.y && c.y + 1 < w.height()
}

/// Every candidate of every cell is a tile of the catalog.
pub open spec fn within(p: ParamsView, w: WaveView) -> bool {
    forall|c: Coord, i: int|
        w.has(c) && 0 <= i < w.cell(c).len() ==> p.catalog().contains(#[trigger] w.cell(c)[i])
}

/// The candidates of every cell are tiles of the catalog in the order of
/// the catalog: every list can be had from the catalog by leaving tiles
/// out. Where no tile is in the catalog twice, no candidate is in a cell
/// twice.
pub open spec fn ordered(p: ParamsView, w: WaveView) -> bool {
    forall|c: Coord| w.has(c) ==> is_sublist(#[trigger] w.cell(c), p.catalog())
}

/// What holds of cell `c` while propagation has the cells of `work` still
/// to visit: the cell is consistent, or it is still to be visited, or it is
/// next to the cell that is visited first and written whatever comes of
/// it, or it touches no boundary and still holds the whole catalog.
pub open spec fn cell_accounted(
    p: ParamsView,
    w: WaveView,
    work: Seq<Coord>,
    force: bool,
    c: Coord,
) -> bool {
    ||| consistent(p, w, c)
    ||| work.contains(c)
    ||| (force && work.len() > 0 && w.has(work.last()) && adjacent(work.last(), c))
    ||| (interior(w, c) && w.cell(c) == p.catalog())
}

/// Every cell of the wave is accounted for.
pub open spec fn accounted(p: ParamsView, w: WaveView, work: Seq<Coord>, force: bool) -> bool {
    forall|c: Coord| w.has(c) ==> #[trigger] cell_accounted(p, w, work, force, c)
}

/// Every cell is consistent, but for cells that touch no boundary and were
/// never narrowed.
pub open spec fn settled(p: ParamsView, w: WaveView) -> bool {
    accounted(p, w, Seq::empty(), false)
}

/// The number of `Chosen` entries of an undo log.
pub open spec fn count_chosen(log: Seq<ChangeView>) -> nat
    decreases log.len(),
{
    if log.len() == 0 {
        0
    } else {
        count_chosen(log.drop_last()) + (if log.last().kind == ChangeKind::Chosen {
            1nat
        } else {
            0nat
        })
    }
}

/// A cell that is not next to the replaced cell sees the same neighbours
/// as before.
pub proof fn lemma_offers_unchanged(
    p: ParamsView,
    w: WaveView,
    pos: Coord,
    list: Seq<FieldView>,
    c: Coord,
)
    requires
        w.wf(),
        !adjacent(pos, c),
    ensures
        offers_at(p, w.put(pos, list), c) == offers_at(p, w, c),
{
    w.lemma_put_at(pos, list);
    let after = w.put(pos, list);
    assert forall|d: int| 0 <= d < 4 implies neighbor(p, after, c, d) == neighbor(p, w, c, d) by {
        if d == 0 {
            assert(after.at(c.x as int, c.y - 1) == w.at(c.x as int, c.y - 1));
        } else if d == 1 {
            assert(after.at(c.x + 1, c.y as int) == w.at(c.x + 1, c.y as int));
        } else if d == 2 {
            assert(after.at(c.x as int, c.y + 1) == w.at(c.x as int, c.y + 1));
        } else {
            assert(after.at(c.x - 1, c.y as int) == w.at(c.x - 1, c.y as int));
        }
    }
    assert(offers_at(p, after, c) =~= offers_at(p, w, c));
}

/// A cell of the grid next to `pos` is among the adjacent cells of `pos`.
pub proof fn lemma_adjacent_listed(w: WaveView, pos: Coord, c: Coord)
    requires
        w.has(c),
        adjacent(pos, c),
    ensures
        real_neighbors(w, pos).contains(c),
{
    let all = real_neighbors(w, pos);
    let north = cell_if_inside(w, pos.x as int, pos.y - 1);
    let east = cell_if_inside(w, pos.x + 1, pos.y as int);
    let south = cell_if_inside(w, pos.x as int, pos.y + 1);
    if pos.x == c.x && c.y + 1 == pos.y {
        assert(all[0] == c);
    } else if pos.y == c.y && pos.x + 1 == c.x {
        assert(all[north.len() as int] == c);
    } else if pos.x == c.x && pos.y + 1 == c.y {
        assert(all[(north.len() + east.len()) as int] == c);
    } else {
        assert(all[(north.len() + east.len() + south.len()) as int] == c);
    }
}

/// After a visit that narrows a cell, or writes it whatever comes of it,
/// every cell is accounted for again, with the adjacent cells added to the
/// cells to visit.
pub proof fn lemma_visit_changed(p: ParamsView, w: WaveView, work: Seq<Coord>, force: bool)
    requires
        w.wf(),
        work.len() > 0,
        w.has(work.last()),
        accounted(p, w, work, force),
    ensures
        accounted(
            p,
            w.put(work.last(), constrained(p, w, work.last())),
            dedup(work.drop_last() + real_neighbors(w, work.last())),
            false,
        ),
{
    let pos = work.last();
    let rest = work.drop_last();
    let kept = constrained(p, w, pos);
    let after = w.put(pos, kept);
    let next = dedup(rest + real_neighbors(w, pos));
    w.lemma_put(pos, kept);
    lemma_dedup(rest + real_neighbors(w, pos));
    assert forall|c: Coord| after.has(c) implies #[trigger] cell_accounted(
        p,
        after,
        next,
        false,
        c,
    ) by {
        if c == pos {
            lemma_offers_unchanged(p, w, pos, kept, pos);
            lemma_filter_members(w.cell(pos), |f: FieldView| keeps(f, offers_at(p, w, pos)));
            assert forall|i: int| 0 <= i < after.cell(c).len() implies keeps(
                #[trigger] after.cell(c)[i],
                offers_at(p, after, c),
            ) by {
                assert(kept.contains(kept[i]));
            }
        } else if adjacent(pos, c) {
            lemma_adjacent_listed(w, pos, c);
            let around = real_neighbors(w, pos);
            let k = choose|k: int| 0 <= k < around.len() && around[k] == c;
            assert((rest + around)[rest.len() + k] == c);
            assert((rest + around).contains(c));
        } else {
            lemma_offers_unchanged(p, w, pos, kept, c);
            assert(after.cell(c) == w.cell(c));
            assert(cell_accounted(p, w, work, force, c));
            if work.contains(c) {
                let k = choose|k: int| 0 <= k < work.len() && work[k] == c;
                assert(rest[k] == c);
                assert((rest + real_neighbors(w, pos))[k] == c);
                assert((rest + real_neighbors(w, pos)).contains(c));
            }
        }
    }
}

/// After a visit that leaves a cell as it was and is not written, or that
/// skips a position outside the grid, every cell is accounted for again.
pub proof fn lemma_visit_unchanged(p: ParamsView, w: WaveView, work: Seq<Coord>, force: bool)
    requires
        w.wf(),
        work.len() > 0,
        accounted(p, w, work, force),
        !w.has(work.last()) || (!force && constrained(p, w, work.last()).len() == w.cell(
            work.last(),
        ).len()),
    ensures
        accounted(p, w, dedup(work.drop_last()), false),
{
    let pos = work.last();
    let rest = work.drop_last();
    lemma_dedup(rest);
    assert forall|c: Coord| w.has(c) implies #[trigger] cell_accounted(
        p,
        w,
        dedup(rest),
        false,
        c,
    ) by {
        assert(cell_accounted(p, w, work, force, c));
        if c == pos {
            lemma_filter_all(w.cell(pos), |f: FieldView| keeps(f, offers_at(p, w, pos)));
        } else if work.contains(c) {
            let k = choose|k: int| 0 <= k < work.len() && work[k] == c;
            assert(rest[k] == c);
            assert(rest.contains(c));
        }
    }
}

/// What propagation does to any wave: it keeps the shape, takes candidates
/// away and adds none, leaves no cell empty that had a candidate, and only
/// adds `Propagated` entries to the undo log.
pub proof fn lemma_propagate_narrows(
    p: ParamsView,
    w: WaveView,
    log: Seq<ChangeView>,
    work: Seq<Coord>,
    force: bool,
)
    requires
        w.wf(),
    ensures
        propagate_spec(p, w, log, work, force).0.wf(),
        propagate_spec(p, w, log, work, force).0.width == w.width,
        propagate_spec(p, w, log, work, force).0.height() == w.height(),
        forall|c: Coord|
            w.cell(c).len() > 0 ==> (#[trigger] propagate_spec(p, w, log, work, force).0.cell(
                c,
            )).len() > 0,
        forall|c: Coord, i: int|
            0 <= i < propagate_spec(p, w, log, work, force).0.cell(c).len() ==> w.cell(
                c,
            ).contains(#[trigger] propagate_spec(p, w, log, work, force).0.cell(c)[i]),
        propagate_spec(p, w, log, work, force).0.entropy() <= w.entropy(),
        count_chosen(propagate_spec(p, w, log, work, force).1) == count_chosen(log),
    decreases w.entropy() + (if force { 1nat } else { 0nat }), work.len(),
{
    if work.len() > 0 {
        let pos = work.last();
        let rest = work.drop_last();
        lemma_dedup(rest);
        if !w.has(pos) {
            lemma_propagate_narrows(p, w, log, dedup(rest), false);
        } else {
            let kept = constrained(p, w, pos);
            let pred = |f: FieldView| keeps(f, offers_at(p, w, pos));
            lemma_filter_all(w.cell(pos), pred);
            lemma_filter_members(w.cell(pos), pred);
            w.lemma_put(pos, kept);
            if kept.len() == 0 {
            } else if kept.len() < w.cell(pos).len() || force {
                let after = w.put(pos, kept);
                let log1 = log.push(propagated(pos, w.cell(pos)));
                let next = dedup(rest + real_neighbors(w, pos));
                lemma_propagate_narrows(p, after, log1, next, false);
                let out = propagate_spec(p, after, log1, next, false).0;
                assert(log1.drop_last() =~= log);
                assert forall|c: Coord| w.cell(c).len() > 0 implies (#[trigger] out.cell(
                    c,
                )).len() > 0 by {
                    if c == pos {
                        assert(after.cell(c) == kept);
                    } else {
                        assert(after.cell(c) == w.cell(c));
                    }
                }
                assert forall|c: Coord, i: int| 0 <= i < out.cell(c).len() implies w.cell(
                    c,
                ).contains(#[trigger] out.cell(c)[i]) by {
                    assert(after.cell(c).contains(out.cell(c)[i]));
                    if c == pos {
                        assert(after.cell(c) == kept);
                        assert(kept.contains(out.cell(c)[i]));
                    } else {
                        assert(after.cell(c) == w.cell(c));
                    }
                }
            } else {
                lemma_propagate_narrows(p, w, log, dedup(rest), false);
            }
        }
    }
}

} // verus!
