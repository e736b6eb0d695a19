//! The search: collapse a cell, propagate, and take the collapse back when
//! a cell runs out of candidates.

use array2d::Array2D;
use vstd::prelude::*;
use crate::decision::{remaining, DecisionTree, NotCollapsable, TreeView};
use crate::grid::{max_cells, tile_rows, tiles_from_rows, wave_filled, wave_get};
use crate::propagate::{propagate, propagate_spec};
use crate::random::{draw, next_state, Rng};
use crate::select::{find_lowest_entropy, select_spec, Selection};
use crate::soundness::{lemma_collapse_sound, lemma_solve_sound, search_ok, valid_grid};
use crate::tile::{views, Coord, Field, FieldView, Params, ParamsView};
use crate::wave::{dimensions, view_of, write_cell, WaveView};

verus! {

/// The sum of the weights of the tiles of a list.
pub open spec fn total_weight(list: Seq<FieldView>) -> nat
    decreases list.len(),
{
    if list.len() == 0 {
        0
    } else {
        total_weight(list.drop_last()) + list.last().weight
    }
}

/// The place of the tile that holds ticket number `ticket`, when every tile
/// of the list holds as many consecutive tickets as its weight, the first
/// tile from number 0 on. The last tile also stands for every number that
/// is too high.
pub open spec fn ticket_index(list: Seq<FieldView>, ticket: nat) -> nat
    decreases list.len(),
{
    if list.len() <= 1 {
        0
    } else if ticket < list[0].weight {
        0
    } else {
        1 + ticket_index(list.drop_first(), (ticket - list[0].weight) as nat)
    }
}

/// The place in the list of the tile that is drawn in state `s`: a ticket
/// is drawn below the total weight, so that each tile is as likely as its
/// weight is large. Where no tile has any weight, the first is taken.
pub open spec fn weighted_choice(list: Seq<FieldView>, s: u64) -> nat {
    if total_weight(list) == 0 {
        0
    } else {
        ticket_index(list, (draw(s) as nat) % total_weight(list))
    }
}

/// A ticket always falls on a place of the list.
pub proof fn lemma_ticket_index_bound(list: Seq<FieldView>, ticket: nat)
    requires
        list.len() > 0,
    ensures
        ticket_index(list, ticket) < list.len(),
    decreases list.len(),
{
    if list.len() > 1 && ticket >= list[0].weight {
        lemma_ticket_index_bound(list.drop_first(), (ticket - list[0].weight) as nat);
    }
}

/// Draws a tile of a list by weight, and returns its place in the list.
pub fn choose_weighted(list: &Vec<&Field>, rng: &mut Rng) -> (k: usize)
    requires
        list.len() > 0,
    ensures
        k < list.len(),
        k == weighted_choice(views(list@), old(rng)@),
        final(rng)@ == next_state(old(rng)@),
{
    let ghost all = views(list@);
    let mut total: u128 = 0;
    let mut i: usize = 0;
    assert(all.take(0) =~= Seq::<FieldView>::empty());
    while i < list.len()
        invariant
            i <= list.len(),
            all == views(list@),
            total == total_weight(all.take(i as int)),
            total <= i * 0xFFFF_FFFF,
        decreases list.len() - i,
    {
        assert(all.take(i + 1).drop_last() =~= all.take(i as int));
        assert(all.take(i + 1).last() == list@[i as int]@);
        assert((i + 1) * 0xFFFF_FFFF <= 0xFFFF_FFFF_FFFF_FFFF * 0xFFFF_FFFF) by (nonlinear_arith)
            requires
                i + 1 <= 0xFFFF_FFFF_FFFF_FFFF,
        ;
        assert((i + 1) * 0xFFFF_FFFF == i * 0xFFFF_FFFF + 0xFFFF_FFFF) by (nonlinear_arith);
        total = total + list[i].weight as u128;
        i += 1;
    }
    assert(all.take(list.len() as int) =~= all);
    let word = rng.next_u64();
    if total == 0 {
        return 0;
    }
    let ghost first = (word as nat) % (total as nat);
    let mut ticket: u128 = (word as u128) % total;
    let mut k: usize = 0;
    assert(all.skip(0) =~= all);
    while k + 1 < list.len() && ticket >= list[k].weight as u128
        invariant
            k < list.len(),
            all == views(list@),
            ticket_index(all, first) == k + ticket_index(all.skip(k as int), ticket as nat),
        decreases list.len() - k,
    {
        assert(all.skip(k as int).drop_first() =~= all.skip(k + 1));
        assert(all.skip(k as int)[0] == list@[k as int]@);
        ticket = ticket - list[k].weight as u128;
        k += 1;
    }
    proof {
        assert(all.skip(k as int)[0] == list@[k as int]@);
        assert(ticket_index(all.skip(k as int), ticket as nat) == 0);
    }
    k
}

/// The wave after cell `pos` has been collapsed to the tile `f`.
pub open spec fn collapsed(w: WaveView, pos: Coord, f: FieldView) -> WaveView {
    w.put(pos, seq![f])
}

/// Collapses cell `pos` to the tile `field`: records the decision in the
/// tree, then replaces the candidates of the cell by that one tile.
pub fn collapse<'a>(
    wave: &mut Array2D<Vec<&'a Field>>,
    tree: &mut DecisionTree<'a>,
    pos: Coord,
    field: &'a Field,
)
    requires
        old(tree)@.next_id < u64::MAX,
    ensures
        final(tree)@ == old(tree)@.decide(pos, view_of(*old(wave)).cell(pos), field@),
        view_of(*final(wave)) == collapsed(view_of(*old(wave)), pos, field@),
        view_of(*final(wave)).wf(),
        view_of(*old(wave)).cell(pos).len() >= 2 ==> view_of(*final(wave)).entropy() < view_of(
            *old(wave),
        ).entropy(),
{
    let _ = dimensions(wave);
    tree.decide(wave, pos, field);
    let mut single: Vec<&'a Field> = Vec::new();
    single.push(field);
    assert(views(single@) =~= seq![field@]);
    proof {
        view_of(*wave).lemma_put(pos, seq![field@]);
    }
    write_cell(wave, pos, single);
}

/// The state in which a search ends: the wave, the decision tree, the state
/// of the generator, and whether nothing is left to decide.
pub struct SearchEnd {
    pub wave: WaveView,
    pub tree: TreeView,
    pub rng: u64,
    pub solved: bool,
}

/// The state in which the search from wave `w` with tree `t` and generator
/// state `s` ends.
///
/// Each round asks the selector for a cell. With nothing left to decide the
/// search ends. When the selector is stuck, the newest collapse is taken
/// back. Otherwise a tile is drawn by weight from the candidates of the
/// cell that are not forbidden, the cell is collapsed to it, and the wave
/// is propagated from that cell; when that fails, the collapse is taken
/// back. The search is exhausted, and ends unsolved, when there is no
/// collapse to take back, or when the numbers for decisions have run out.
pub open spec fn solve_spec(p: ParamsView, w: WaveView, t: TreeView, s: u64) -> SearchEnd
    decreases u64::MAX - t.next_id, t.decisions.len(),
{
    let (selection, s1) = select_spec(w, t, s);
    match selection {
        Selection::Done => SearchEnd { wave: w, tree: t, rng: s1, solved: true },
        Selection::Stuck => {
            let (w1, t1, ok) = t.undo(w);
            if ok {
                solve_spec(p, w1, t1, s1)
            } else {
                SearchEnd { wave: w1, tree: t1, rng: s1, solved: false }
            }
        },
        Selection::Cell(pos) => {
            if t.next_id == u64::MAX {
                SearchEnd { wave: w, tree: t, rng: s1, solved: false }
            } else {
                let left = remaining(w.cell(pos), t.forbidden_options(pos));
                let f = left[weighted_choice(left, s1) as int];
                let s2 = next_state(s1);
                let t1 = t.decide(pos, w.cell(pos), f);
                let w1 = collapsed(w, pos, f);
                let (w2, log2, ok) = propagate_spec(p, w1, t1.changes, seq![pos], true);
                let t2 = TreeView { changes: log2, ..t1 };
                if ok {
                    solve_spec(p, w2, t2, s2)
                } else {
                    let (w3, t3, undone) = t2.undo(w2);
                    if undone {
                        solve_spec(p, w3, t3, s2)
                    } else {
                        SearchEnd { wave: w3, tree: t3, rng: s2, solved: false }
                    }
                }
            }
        },
    }
}

/// Searches from the given wave and tree until nothing is left to decide,
/// or fails when the search is exhausted.
///
/// From a wave at rest with a sound undo log, a search that succeeds ends
/// with a wave at rest and a sound undo log again, and with one candidate
/// in every cell.
#[verifier::loop_isolation(false)]
pub fn solve<'p>(
    params: &Params<'p>,
    wave: &mut Array2D<Vec<&'p Field>>,
    tree: &mut DecisionTree<'p>,
    rng: &mut Rng,
) -> (r: Result<(), NotCollapsable>)
    ensures
        ({
            let end = solve_spec(params@, view_of(*old(wave)), old(tree)@, old(rng)@);
            &&& view_of(*final(wave)) == end.wave
            &&& final(tree)@ == end.tree
            &&& final(rng)@ == end.rng
            &&& r is Ok == end.solved
        }),
        view_of(*final(wave)).wf(),
        search_ok(params@, view_of(*old(wave)), old(tree)@) && r is Ok ==> {
            &&& search_ok(params@, view_of(*final(wave)), final(tree)@)
            &&& view_of(*final(wave)).width == view_of(*old(wave)).width
            &&& view_of(*final(wave)).height() == view_of(*old(wave)).height()
            &&& forall|c: Coord|
                view_of(*final(wave)).has(c) ==> (#[trigger] view_of(*final(wave)).cell(c)).len()
                    == 1
        },
{
    proof {
        if search_ok(params@, view_of(*wave), tree@) {
            lemma_solve_sound(params@, view_of(*wave), tree@, rng@);
        }
    }
    let ghost goal = solve_spec(params@, view_of(*wave), tree@, rng@);
    let _ = dimensions(wave);
    loop
        invariant
            view_of(*wave).wf(),
            solve_spec(params@, view_of(*wave), tree@, rng@) == goal,
        decreases u64::MAX - tree@.next_id, tree@.decisions.len(),
    {
        match find_lowest_entropy(wave, tree, rng) {
            Ok(None) => {
                return Ok(());
            },
            Err(_) => {
                if tree.undo(wave).is_err() {
                    return Err(NotCollapsable);
                }
            },
            Ok(Some(pos)) => {
                if tree.exhausted() {
                    return Err(NotCollapsable);
                }
                let left = tree.remaining_options(wave, pos);
                let k = choose_weighted(&left, rng);
                let chosen: &'p Field = left[k];
                collapse(wave, tree, pos, chosen);
                let mut work: Vec<Coord> = Vec::new();
                work.push(pos);
                assert(work@ =~= seq![pos]);
                if propagate(params, wave, tree, work, true).is_err() {
                    if tree.undo(wave).is_err() {
                        return Err(NotCollapsable);
                    }
                }
            },
        }
    }
}

/// The cells of row `y`, from the west.
pub open spec fn row_cells(width: nat, y: int) -> Seq<Coord> {
    Seq::new(width, |x: int| Coord { x: x as usize, y: y as usize })
}

/// The cells of column `x` but its first and its last, from the top.
pub open spec fn column_cells(x: int, height: nat) -> Seq<Coord> {
    if height >= 2 {
        Seq::new((height - 2) as nat, |k: int| Coord { x: x as usize, y: (k + 1) as usize })
    } else {
        Seq::empty()
    }
}

/// The cells from which the first propagation starts: the first row, the
/// last row, then the first and the last column without their corners.
pub open spec fn seed_cells(width: nat, height: nat) -> Seq<Coord> {
    if width == 0 || height == 0 {
        Seq::empty()
    } else {
        row_cells(width, 0) + row_cells(width, height - 1) + column_cells(0, height)
            + column_cells(width - 1, height)
    }
}

/// The wave in which every cell holds the whole catalog.
pub open spec fn full_wave(catalog: Seq<FieldView>, width: nat, height: nat) -> WaveView {
    WaveView { width, rows: Seq::new(height, |y: int| Seq::new(width, |x: int| catalog)) }
}

/// The first candidate of every cell, row by row.
pub open spec fn first_tiles(w: WaveView) -> Seq<Seq<FieldView>> {
    Seq::new(w.height(), |y: int| Seq::new(w.width, |x: int| w.rows[y][x][0]))
}

/// The number of columns of the grid to solve: the length of the north
/// boundary.
pub open spec fn grid_width(p: ParamsView) -> nat {
    p.boundary(0).len()
}

/// The number of rows of the grid to solve: the length of the south
/// boundary.
pub open spec fn grid_height(p: ParamsView) -> nat {
    p.boundary(2).len()
}

/// The outcome of a solve with generator state `s`: the grid, row by row,
/// or nothing when the tiles cannot be laid out; and the state of the
/// generator afterwards.
///
/// The wave starts with the whole catalog in every cell and is propagated
/// from the cells along the boundary. When that fails, there is no grid.
/// Otherwise the search runs, and the grid holds the one tile that is left
/// in each cell.
pub open spec fn collapse_spec(p: ParamsView, s: u64) -> (Option<Seq<Seq<FieldView>>>, u64) {
    let start = full_wave(p.catalog(), grid_width(p), grid_height(p));
    let (seeded, log, ok) = propagate_spec(
        p,
        start,
        Seq::empty(),
        seed_cells(grid_width(p), grid_height(p)),
        false,
    );
    if !ok {
        (None, s)
    } else {
        let end = solve_spec(p, seeded, TreeView { changes: log, ..TreeView::empty() }, s);
        if end.solved && end.wave.inhabited() {
            (Some(first_tiles(end.wave)), end.rng)
        } else {
            (None, end.rng)
        }
    }
}

/// The tiles of a solved grid, row by row.
pub open spec fn grid_view(g: Array2D<Field>) -> Seq<Seq<FieldView>> {
    Seq::new(tile_rows(g).len(), |y: int| views(tile_rows(g)[y]))
}

/// Whether `r` and `after` are what a solve with generator state `s` gives:
/// the grid of `collapse_spec`, or a failure where it has none, and the
/// state of the generator afterwards.
pub open spec fn is_outcome(
    p: ParamsView,
    s: u64,
    r: Result<Array2D<Field>, NotCollapsable>,
    after: u64,
) -> bool {
    &&& after == collapse_spec(p, s).1
    &&& match collapse_spec(p, s).0 {
        Some(g) => r is Ok && grid_view(r->Ok_0) == g,
        None => r is Err,
    }
}

/// The cells from which the first propagation starts.
#[verifier::loop_isolation(false)]
fn seed_worklist(width: usize, height: usize) -> (out: Vec<Coord>)
    ensures
        out@ == seed_cells(width as nat, height as nat),
{
    let mut out: Vec<Coord> = Vec::new();
    if width == 0 || height == 0 {
        return out;
    }
    let ghost top = row_cells(width as nat, 0);
    let ghost bottom = row_cells(width as nat, height - 1);
    let ghost left = column_cells(0, height as nat);
    let ghost right = column_cells(width - 1, height as nat);
    let mut x: usize = 0;
    while x < width
        invariant
            x <= width,
            out@ == top.take(x as int),
        decreases width - x,
    {
        out.push(Coord::new(x, 0));
        assert(out@ =~= top.take(x + 1));
        x += 1;
    }
    assert(top.take(width as int) =~= top);
    x = 0;
    while x < width
        invariant
            x <= width,
            height > 0,
            bottom == row_cells(width as nat, height - 1),
            out@ == top + bottom.take(x as int),
        decreases width - x,
    {
        out.push(Coord::new(x, height - 1));
        assert(out@ =~= top + bottom.take(x + 1));
        x += 1;
    }
    assert(bottom.take(width as int) =~= bottom);
    if height >= 2 {
        let mut k: usize = 0;
        while k < height - 2
            invariant
                k <= height - 2,
                left == column_cells(0, height as nat),
                out@ == top + bottom + left.take(k as int),
            decreases height - 2 - k,
        {
            out.push(Coord::new(0, k + 1));
            assert(out@ =~= top + bottom + left.take(k + 1));
            k += 1;
        }
        assert(left.take(height - 2) =~= left);
        k = 0;
        while k < height - 2
            invariant
                k <= height - 2,
                width > 0,
                right == column_cells(width - 1, height as nat),
                out@ == top + bottom + left + right.take(k as int),
            decreases height - 2 - k,
        {
            out.push(Coord::new(width - 1, k + 1));
            assert(out@ =~= top + bottom + left + right.take(k + 1));
            k += 1;
        }
        assert(right.take(height - 2) =~= right);
    } else {
        assert(out@ =~= top + bottom + left + right);
    }
    out
}

/// The first candidate of every cell, row by row; nothing when a cell has
/// no candidate.
fn settle(wave: &Array2D<Vec<&Field>>) -> (r: Option<Vec<Vec<Field>>>)
    ensures
        r is Some == view_of(*wave).inhabited(),
        r is Some ==> r->0@.len() == view_of(*wave).height(),
        r is Some ==> forall|y: int|
            0 <= y < r->0@.len() ==> views((#[trigger] r->0@[y])@) == first_tiles(
                view_of(*wave),
            )[y],
{
    let (width, height) = dimensions(wave);
    let ghost w = view_of(*wave);
    let mut rows: Vec<Vec<Field>> = Vec::new();
    let mut y: usize = 0;
    while y < height
        invariant
            y <= height,
            w == view_of(*wave),
            w.wf(),
            width == w.width,
            height == w.height(),
            rows@.len() == y,
            forall|j: int| 0 <= j < y ==> views((#[trigger] rows@[j])@) == first_tiles(w)[j],
            forall|c: Coord| w.has(c) && c.y < y ==> (#[trigger] w.cell(c)).len() > 0,
        decreases height - y,
    {
        let mut row: Vec<Field> = Vec::new();
        let mut x: usize = 0;
        while x < width
            invariant
                x <= width,
                y < height,
                w == view_of(*wave),
                w.wf(),
                width == w.width,
                height == w.height(),
                row@.len() == x,
                forall|i: int| 0 <= i < x ==> (#[trigger] row@[i])@ == w.rows[y as int][i][0],
                forall|i: int| 0 <= i < x ==> (#[trigger] w.rows[y as int][i]).len() > 0,
            decreases width - x,
        {
            match wave_get(wave, y, x) {
                Some(list) => {
                    assert(views(list@) == w.rows[y as int][x as int]);
                    if list.len() == 0 {
                        assert(w.cell(Coord { x, y }).len() == 0);
                        return None;
                    }
                    row.push(list[0].duplicate());
                },
                None => {
                    return None;
                },
            }
            x += 1;
        }
        assert(views(row@) =~= first_tiles(w)[y as int]);
        rows.push(row);
        y += 1;
    }
    Some(rows)
}

/// The wave in which every cell holds the whole catalog.
fn fresh_wave<'p>(params: &Params<'p>) -> (wave: Array2D<Vec<&'p Field>>)
    requires
        grid_width(params@) * grid_height(params@) <= max_cells(),
    ensures
        view_of(wave) == full_wave(params@.catalog(), grid_width(params@), grid_height(params@)),
        view_of(wave).wf(),
{
    let width = params.sides[0].len();
    let height = params.sides[2].len();
    let mut all: Vec<&'p Field> = Vec::new();
    let mut i: usize = 0;
    assert(views(all@) =~= params@.catalog().take(0));
    while i < params.fields.len()
        invariant
            i <= params.fields.len(),
            views(all@) == params@.catalog().take(i as int),
        decreases params.fields.len() - i,
    {
        let ghost so_far = views(all@);
        all.push(&params.fields[i]);
        assert(views(all@) =~= so_far.push(params.fields@[i as int]@));
        assert(params@.catalog().take(i + 1) =~= params@.catalog().take(i as int).push(
            params.fields@[i as int]@,
        ));
        i += 1;
    }
    assert(params@.catalog().take(params.fields.len() as int) =~= params@.catalog());
    assert(width == grid_width(params@) && height == grid_height(params@));
    assert(height * width == width * height) by (nonlinear_arith);
    let wave = wave_filled(all, height, width);
    let _ = dimensions(&wave);
    assert(view_of(wave).rows =~~= full_wave(
        params@.catalog(),
        width as nat,
        height as nat,
    ).rows);
    wave
}

/// The grid of the first candidates of all cells; nothing when a cell has
/// no candidate.
fn to_grid(wave: &Array2D<Vec<&Field>>) -> (r: Option<Array2D<Field>>)
    ensures
        r is Some == view_of(*wave).inhabited(),
        r is Some ==> grid_view(r->0) == first_tiles(view_of(*wave)),
{
    let _ = dimensions(wave);
    match settle(wave) {
        None => None,
        Some(rows) => {
            let ghost tiles = first_tiles(view_of(*wave));
            assert forall|y: int| 0 <= y < rows@.len() implies (#[trigger] rows@[y])@.len()
                == rows@[0]@.len() by {
                assert(views(rows@[y]@).len() == tiles[y].len());
                assert(views(rows@[0]@).len() == tiles[0].len());
            }
            let grid = tiles_from_rows(&rows);
            proof {
                let g = grid->0;
                assert forall|y: int| 0 <= y < tiles.len() implies #[trigger] grid_view(g)[y]
                    == tiles[y] by {
                    assert(views(rows@[y]@) == tiles[y]);
                    assert(views(tile_rows(g)[y]) =~= views(rows@[y]@));
                }
                assert(grid_view(g) =~= tiles);
            }
            grid
        },
    }
}

/// Lays the tiles of the catalog out on a grid so that all abutting edges
/// fit, with as many columns as the north boundary and as many rows as the
/// south boundary are long, or reports that no layout was found. The grid
/// must not have more cells than a wave can have.
///
/// The choices of the search are drawn from `rng`, and from nothing else:
/// the same catalog, boundaries and generator state give the same grid.
pub fn collapse_wave<'p>(params: &Params<'p>, rng: &mut Rng) -> (r: Result<
    Array2D<Field>,
    NotCollapsable,
>)
    requires
        grid_width(params@) * grid_height(params@) <= max_cells(),
    ensures
        is_outcome(params@, old(rng)@, r, final(rng)@),
        r is Ok ==> valid_grid(params@, grid_view(r->Ok_0)),
{
    proof {
        params.lemma_boundary_bound(0);
        params.lemma_boundary_bound(2);
        lemma_collapse_sound(params@, rng@);
    }
    let width = params.sides[0].len();
    let height = params.sides[2].len();
    let mut wave = fresh_wave(params);
    let mut tree = DecisionTree::new();
    let seeds = seed_worklist(width, height);
    if propagate(params, &mut wave, &mut tree, seeds, false).is_err() {
        return Err(NotCollapsable);
    }
    assert(tree@ == (TreeView { changes: tree@.changes, ..TreeView::empty() }));
    if solve(params, &mut wave, &mut tree, rng).is_err() {
        return Err(NotCollapsable);
    }
    match to_grid(&wave) {
        Some(grid) => Ok(grid),
        None => Err(NotCollapsable),
    }
}

} // verus!
