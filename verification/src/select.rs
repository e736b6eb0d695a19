//! The choice of the cell to collapse next: one of the undecided cells with
//! the fewest candidates.

use array2d::Array2D;
use vstd::prelude::*;
use crate::decision::{remaining, DecisionTree, TreeView};
use crate::grid::wave_get;
use crate::propagate::Contradiction;
use crate::random::{draw_below, next_state, Rng};
use crate::seqs::lemma_filter_members;
use crate::tile::{Coord, Field};
use crate::wave::{dimensions, view_of, WaveView};

verus! {

/// The lowest entropy seen so far among undecided cells, and the cells that
/// have it, in the order in which they were seen. The entropy means nothing
/// while no cell is listed.
pub struct Lowest {
    pub entropy: nat,
    pub cells: Seq<Coord>,
}

/// The record after a cell with `n` candidates has been seen. A cell with
/// fewer than two candidates is passed over; a cell with fewer candidates
/// than any before it starts the list anew; a cell that ties joins the list.
pub open spec fn visit(acc: Lowest, c: Coord, n: nat) -> Lowest {
    if n < 2 {
        acc
    } else if acc.cells.len() == 0 || n < acc.entropy {
        Lowest { entropy: n, cells: seq![c] }
    } else if n == acc.entropy {
        Lowest { entropy: acc.entropy, cells: acc.cells.push(c) }
    } else {
        acc
    }
}

/// The record after the first `rows` cells of column `x` have been seen,
/// from the top, starting from the record `acc`.
pub open spec fn scan_column(w: WaveView, x: int, rows: nat, acc: Lowest) -> Lowest
    decreases rows,
{
    if rows == 0 {
        acc
    } else {
        visit(
            scan_column(w, x, (rows - 1) as nat, acc),
            Coord { x: x as usize, y: (rows - 1) as usize },
            w.at(x, rows - 1).len(),
        )
    }
}

/// The record after the first `columns` columns have been seen, from the
/// west, each from the top.
pub open spec fn scan(w: WaveView, columns: nat) -> Lowest
    decreases columns,
{
    if columns == 0 {
        Lowest { entropy: 0, cells: Seq::empty() }
    } else {
        scan_column(w, columns - 1, w.height(), scan(w, (columns - 1) as nat))
    }
}

/// The undecided cells with the fewest candidates, column by column.
pub open spec fn lowest_cells(w: WaveView) -> Seq<Coord> {
    scan(w, w.width).cells
}

/// The cells among `cells` in which a candidate is left that is not
/// forbidden on the current branch.
pub open spec fn viable(w: WaveView, t: TreeView, cells: Seq<Coord>) -> Seq<Coord> {
    cells.filter(|c: Coord| remaining(w.cell(c), t.forbidden_options(c)).len() > 0)
}

/// What the selector finds.
pub enum Selection {
    /// Every cell has fewer than two candidates: nothing is left to decide.
    Done,
    /// In every cell with the fewest candidates all candidates are forbidden.
    Stuck,
    /// The cell to collapse next.
    Cell(Coord),
}

/// What the selector finds in wave `w` with tree `t`, and the state of the
/// generator afterwards. The generator is used, once, only when there is a
/// cell to pick.
pub open spec fn select_spec(w: WaveView, t: TreeView, s: u64) -> (Selection, u64) {
    let tied = lowest_cells(w);
    let open = viable(w, t, tied);
    if tied.len() == 0 {
        (Selection::Done, s)
    } else if open.len() == 0 {
        (Selection::Stuck, s)
    } else {
        (Selection::Cell(open[draw_below(s, open.len()) as int]), next_state(s))
    }
}

/// Whether the scan has seen cell `c` when it has gone through `columns`
/// whole columns and the first `rows` cells of the next.
pub open spec fn seen(w: WaveView, columns: int, rows: int, c: Coord) -> bool {
    w.has(c) && (c.x < columns || (c.x == columns && c.y < rows))
}

/// The record of a scan is right for the cells seen: the listed cells are
/// undecided and have the recorded entropy, no undecided cell seen has a
/// lower one, every undecided cell seen that has the recorded entropy is
/// listed, and no cell is listed only if no undecided cell was seen.
pub open spec fn lowest_of(w: WaveView, acc: Lowest, columns: int, rows: int) -> bool {
    &&& forall|k: int|
        0 <= k < acc.cells.len() ==> w.has(#[trigger] acc.cells[k]) && w.cell(
            acc.cells[k],
        ).len() >= 2 && w.cell(acc.cells[k]).len() == acc.entropy
    &&& acc.cells.len() == 0 ==> forall|c: Coord|
        seen(w, columns, rows, c) ==> (#[trigger] w.cell(c)).len() < 2
    &&& acc.cells.len() > 0 ==> forall|c: Coord|
        seen(w, columns, rows, c) && w.cell(c).len() >= 2 ==> (#[trigger] w.cell(c)).len()
            >= acc.entropy
    &&& forall|c: Coord|
        seen(w, columns, rows, c) && w.cell(c).len() >= 2 && w.cell(c).len() == acc.entropy
            ==> #[trigger] acc.cells.contains(c)
}

/// Scanning part of a column keeps the record right.
pub proof fn lemma_scan_column(w: WaveView, x: nat, rows: nat, acc: Lowest)
    requires
        w.wf(),
        x < w.width,
        rows <= w.height(),
        lowest_of(w, acc, x as int, 0),
    ensures
        lowest_of(w, scan_column(w, x as int, rows, acc), x as int, rows as int),
    decreases rows,
{
    if rows > 0 {
        let before = scan_column(w, x as int, (rows - 1) as nat, acc);
        lemma_scan_column(w, x, (rows - 1) as nat, acc);
        let c0 = Coord { x: x as usize, y: (rows - 1) as usize };
        let n = w.at(x as int, rows - 1).len();
        assert(w.has(c0) && w.cell(c0).len() == n);
        let after = visit(before, c0, n);
        assert forall|c: Coord| seen(w, x as int, rows as int, c) implies seen(
            w,
            x as int,
            rows - 1,
            c,
        ) || c == c0 by {}
        if n >= 2 && !(before.cells.len() == 0 || n < before.entropy) && n == before.entropy {
            assert forall|k: int| 0 <= k < after.cells.len() implies w.has(
                #[trigger] after.cells[k],
            ) && w.cell(after.cells[k]).len() >= 2 && w.cell(after.cells[k]).len()
                == after.entropy by {
                if k < before.cells.len() {
                    assert(after.cells[k] == before.cells[k]);
                }
            }
        }
        assert forall|c: Coord|
            seen(w, x as int, rows as int, c) && w.cell(c).len() >= 2 && w.cell(c).len()
                == after.entropy implies #[trigger] after.cells.contains(c) by {
            if c == c0 {
                assert(after.cells[after.cells.len() - 1] == c0);
            } else {
                assert(seen(w, x as int, rows - 1, c));
                if after.cells.len() > before.cells.len() || after == before {
                    assert(before.cells.contains(c));
                    let k = choose|k: int| 0 <= k < before.cells.len() && before.cells[k] == c;
                    assert(after.cells[k] == c);
                }
            }
        }
    }
}

/// Scanning whole columns keeps the record right.
pub proof fn lemma_scan(w: WaveView, columns: nat)
    requires
        w.wf(),
        columns <= w.width,
    ensures
        lowest_of(w, scan(w, columns), columns as int, 0),
    decreases columns,
{
    if columns > 0 {
        lemma_scan(w, (columns - 1) as nat);
        lemma_scan_column(w, (columns - 1) as nat, w.height(), scan(w, (columns - 1) as nat));
        assert forall|c: Coord| seen(w, columns as int, 0, c) implies seen(
            w,
            columns - 1,
            w.height() as int,
            c,
        ) by {}
    }
}

/// What the selector finds: with nothing to decide, every cell has fewer
/// than two candidates; the cell that it picks is an undecided cell of the
/// grid, no undecided cell has fewer candidates, and a candidate is left
/// there that is not forbidden.
pub proof fn lemma_select(w: WaveView, t: TreeView, s: u64)
    requires
        w.wf(),
    ensures
        match select_spec(w, t, s).0 {
            Selection::Done => forall|c: Coord| w.has(c) ==> (#[trigger] w.cell(c)).len() < 2,
            Selection::Stuck => exists|c: Coord|
                w.has(c) && (#[trigger] w.cell(c)).len() >= 2,
            Selection::Cell(pos) => {
                &&& w.has(pos)
                &&& w.cell(pos).len() >= 2
                &&& remaining(w.cell(pos), t.forbidden_options(pos)).len() > 0
                &&& forall|c: Coord|
                    w.has(c) && w.cell(c).len() >= 2 ==> (#[trigger] w.cell(c)).len() >= w.cell(
                        pos,
                    ).len()
            },
        },
{
    lemma_scan(w, w.width);
    let tied = lowest_cells(w);
    let open = viable(w, t, tied);
    assert forall|c: Coord| w.has(c) implies seen(w, w.width as int, 0, c) by {}
    if tied.len() > 0 {
        assert(w.has(tied[0]) && w.cell(tied[0]).len() >= 2);
    }
    if tied.len() > 0 && open.len() > 0 {
        let pos = open[draw_below(s, open.len()) as int];
        assert(open.contains(pos));
        lemma_filter_members(
            tied,
            |c: Coord| remaining(w.cell(c), t.forbidden_options(c)).len() > 0,
        );
        assert(tied.contains(pos));
        let k = choose|k: int| 0 <= k < tied.len() && tied[k] == pos;
        assert(w.has(tied[k]));
    }
}

/// The number of candidates at column `x`, row `y`; none outside the grid.
fn entropy_at(wave: &Array2D<Vec<&Field>>, x: usize, y: usize) -> (n: usize)
    ensures
        n == view_of(*wave).at(x as int, y as int).len(),
{
    let _ = dimensions(wave);
    match wave_get(wave, y, x) {
        Some(list) => list.len(),
        None => 0,
    }
}

/// Picks the cell to collapse next.
///
/// Returns nothing when no cell has two or more candidates. Otherwise takes
/// the cells with the fewest candidates, two at least, column by column
/// from the west and each column from the top, leaves out those in which
/// every candidate is forbidden on the current branch, and draws one of
/// the rest. Fails when none is left to draw from.
pub fn find_lowest_entropy<'a>(
    wave: &Array2D<Vec<&'a Field>>,
    tree: &DecisionTree<'a>,
    rng: &mut Rng,
) -> (r: Result<Option<Coord>, Contradiction>)
    ensures
        final(rng)@ == select_spec(view_of(*wave), tree@, old(rng)@).1,
        match select_spec(view_of(*wave), tree@, old(rng)@).0 {
            Selection::Done => r == Ok::<Option<Coord>, Contradiction>(None),
            Selection::Stuck => r is Err,
            Selection::Cell(c) => r == Ok::<Option<Coord>, Contradiction>(Some(c)),
        },
        match r {
            Ok(None) => forall|c: Coord|
                view_of(*wave).has(c) ==> (#[trigger] view_of(*wave).cell(c)).len() < 2,
            Ok(Some(pos)) => {
                &&& view_of(*wave).has(pos)
                &&& view_of(*wave).cell(pos).len() >= 2
                &&& remaining(view_of(*wave).cell(pos), tree@.forbidden_options(pos)).len() > 0
                &&& forall|c: Coord|
                    view_of(*wave).has(c) && view_of(*wave).cell(c).len() >= 2 ==> (
                    #[trigger] view_of(*wave).cell(c)).len() >= view_of(*wave).cell(pos).len()
            },
            Err(_) => exists|c: Coord|
                view_of(*wave).has(c) && (#[trigger] view_of(*wave).cell(c)).len() >= 2,
        },
{
    let (width, height) = dimensions(wave);
    let ghost w = view_of(*wave);
    proof {
        lemma_select(w, tree@, rng@);
    }
    let mut min: usize = 0;
    let mut tied: Vec<Coord> = Vec::new();
    let mut x: usize = 0;
    while x < width
        invariant
            x <= width,
            w == view_of(*wave),
            width == w.width,
            height == w.height(),
            scan(w, x as nat) == (Lowest { entropy: min as nat, cells: tied@ }),
        decreases width - x,
    {
        let mut y: usize = 0;
        let ghost start = scan(w, x as nat);
        while y < height
            invariant
                y <= height,
                x < width,
                w == view_of(*wave),
                height == w.height(),
                scan_column(w, x as int, y as nat, start) == (Lowest {
                    entropy: min as nat,
                    cells: tied@,
                }),
            decreases height - y,
        {
            let n = entropy_at(wave, x, y);
            let c = Coord::new(x, y);
            if n >= 2 {
                if tied.len() == 0 || n < min {
                    min = n;
                    tied = Vec::new();
                    tied.push(c);
                    assert(tied@ =~= seq![c]);
                } else if n == min {
                    tied.push(c);
                }
            }
            y += 1;
        }
        x += 1;
    }
    if tied.len() == 0 {
        return Ok(None);
    }
    let ghost pred = |c: Coord| remaining(w.cell(c), tree@.forbidden_options(c)).len() > 0;
    let mut open: Vec<Coord> = Vec::new();
    let mut i: usize = 0;
    proof {
        reveal(Seq::filter);
        assert(tied@.take(0) =~= Seq::<Coord>::empty());
    }
    while i < tied.len()
        invariant
            i <= tied.len(),
            w == view_of(*wave),
            pred == (|c: Coord| remaining(w.cell(c), tree@.forbidden_options(c)).len() > 0),
            open@ == tied@.take(i as int).filter(pred),
        decreases tied.len() - i,
    {
        let c = tied[i];
        proof {
            reveal(Seq::filter);
            assert(tied@.take(i + 1).drop_last() =~= tied@.take(i as int));
        }
        let left = tree.remaining_options(wave, c);
        if left.len() > 0 {
            open.push(c);
        }
        i += 1;
    }
    assert(tied@.take(tied.len() as int) =~= tied@);
    if open.len() == 0 {
        return Err(Contradiction);
    }
    let k = rng.below(open.len());
    Ok(Some(open[k]))
}

} // verus!
