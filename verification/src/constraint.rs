//! The local constraint: which candidates of a cell its four neighbours
//! still allow.
//!
//! Directions and sides are numbered 0 north, 1 east, 2 south, 3 west. The
//! neighbour of a cell in a direction is the adjacent cell or, off the
//! grid, the virtual cell of that boundary.

use array2d::Array2D;
use vstd::prelude::*;
use crate::edge::{fits, fits_spec};
use crate::grid::wave_get;
use crate::seqs::{dedup, lemma_dedup, lemma_filter_agree};
use crate::tile::{views, Coord, Field, FieldView, Params, ParamsView};
use crate::wave::{dimensions, read_cell, view_of, WaveView};

verus! {

/// The side that faces direction `d` from the other side of an edge.
pub open spec fn opposite(d: int) -> int {
    if d == 0 {
        2
    } else if d == 1 {
        3
    } else if d == 2 {
        0
    } else {
        1
    }
}

/// The tiles that lie next to cell `c` in direction `d`: the candidates of
/// the adjacent cell or, off the grid, the tiles of the virtual cell.
pub open spec fn neighbor(p: ParamsView, w: WaveView, c: Coord, d: int) -> Seq<FieldView> {
    if d == 0 {
        if w.inside(c.x as int, c.y - 1) {
            w.at(c.x as int, c.y - 1)
        } else {
            p.virtual_cell(0, c.x as int)
        }
    } else if d == 1 {
        if w.inside(c.x + 1, c.y as int) {
            w.at(c.x + 1, c.y as int)
        } else {
            p.virtual_cell(1, c.y as int)
        }
    } else if d == 2 {
        if w.inside(c.x as int, c.y + 1) {
            w.at(c.x as int, c.y + 1)
        } else {
            p.virtual_cell(2, c.x as int)
        }
    } else {
        if w.inside(c.x - 1, c.y as int) {
            w.at(c.x - 1, c.y as int)
        } else {
            p.virtual_cell(3, c.y as int)
        }
    }
}

/// The labels that the tiles of a list carry on side `side`, one per tile.
pub open spec fn labels(list: Seq<FieldView>, side: int) -> Seq<Seq<char>> {
    Seq::new(list.len(), |i: int| list[i].sides[side])
}

/// Whether one of the offered labels fits the label `mine`.
pub open spec fn supported(offered: Seq<Seq<char>>, mine: Seq<char>) -> bool {
    exists|i: int| 0 <= i < offered.len() && fits_spec(#[trigger] offered[i], mine)
}

/// Whether a tile stays: on each of its four sides, one of the labels
/// offered from that direction fits its own label.
pub open spec fn keeps(f: FieldView, offers: Seq<Seq<Seq<char>>>) -> bool {
    forall|d: int| 0 <= d < 4 ==> supported(#[trigger] offers[d], f.sides[d])
}

/// The labels that the four neighbours of cell `c` offer: from each
/// direction, the labels on the sides that face the cell.
pub open spec fn offers_at(p: ParamsView, w: WaveView, c: Coord) -> Seq<Seq<Seq<char>>> {
    Seq::new(4, |d: int| labels(neighbor(p, w, c, d), opposite(d)))
}

/// The candidates of cell `c` that its neighbours allow, in their order.
pub open spec fn constrained(p: ParamsView, w: WaveView, c: Coord) -> Seq<FieldView> {
    w.cell(c).filter(|f: FieldView| keeps(f, offers_at(p, w, c)))
}

/// The cell at column `x`, row `y` as a list of one cell; the empty list
/// where there is no such cell.
pub open spec fn cell_if_inside(w: WaveView, x: int, y: int) -> Seq<Coord> {
    if w.inside(x, y) {
        seq![Coord { x: x as usize, y: y as usize }]
    } else {
        Seq::empty()
    }
}

/// The cells of the grid that are adjacent to `c`, in the order north, east,
/// south, west.
pub open spec fn real_neighbors(w: WaveView, c: Coord) -> Seq<Coord> {
    cell_if_inside(w, c.x as int, c.y - 1) + cell_if_inside(w, c.x + 1, c.y as int)
        + cell_if_inside(w, c.x as int, c.y + 1) + cell_if_inside(w, c.x - 1, c.y as int)
}

/// Removing repeated labels changes nothing about what they support.
pub proof fn lemma_supported_dedup(offered: Seq<Seq<char>>, mine: Seq<char>)
    ensures
        supported(dedup(offered), mine) == supported(offered, mine),
{
    lemma_dedup(offered);
    let d = dedup(offered);
    if supported(d, mine) {
        let i = choose|i: int| 0 <= i < d.len() && fits_spec(#[trigger] d[i], mine);
        assert(d.contains(d[i]));
        assert(offered.contains(d[i]));
        let j = choose|j: int| 0 <= j < offered.len() && offered[j] == d[i];
        assert(fits_spec(offered[j], mine));
    }
    if supported(offered, mine) {
        let i = choose|i: int| 0 <= i < offered.len() && fits_spec(#[trigger] offered[i], mine);
        assert(offered.contains(offered[i]));
        assert(d.contains(offered[i]));
        let j = choose|j: int| 0 <= j < d.len() && d[j] == offered[i];
        assert(fits_spec(d[j], mine));
    }
}

/// Whether a list of labels holds a label.
fn has_label(list: &Vec<&String>, label: &String) -> (r: bool)
    ensures
        r == views(list@).contains(label@),
{
    let mut i: usize = 0;
    while i < list.len()
        invariant
            i <= list.len(),
            forall|k: int| 0 <= k < i ==> views(list@)[k] != label@,
        decreases list.len() - i,
    {
        if *list[i] == *label {
            assert(views(list@)[i as int] == label@);
            return true;
        }
        i += 1;
    }
    false
}

/// Removes the repeated labels of a list: of equal labels the first stays.
pub fn clear_duplicates<'a>(list: Vec<&'a String>) -> (out: Vec<&'a String>)
    ensures
        views(out@) == dedup(views(list@)),
{
    let mut out: Vec<&'a String> = Vec::new();
    let mut i: usize = 0;
    assert(views(list@).take(0) =~= Seq::<Seq<char>>::empty());
    assert(views(out@) =~= dedup(views(list@).take(0)));
    while i < list.len()
        invariant
            i <= list.len(),
            views(out@) == dedup(views(list@).take(i as int)),
        decreases list.len() - i,
    {
        let ghost before = views(out@);
        let ghost next = views(list@).take(i + 1);
        assert(next.drop_last() =~= views(list@).take(i as int));
        assert(next.last() == list@[i as int]@);
        if !has_label(&out, list[i]) {
            out.push(list[i]);
            assert(views(out@) =~= before.push(list@[i as int]@));
        }
        i += 1;
    }
    assert(views(list@).take(list.len() as int) =~= views(list@));
    out
}

/// Removes the repeated cells of a list: of equal cells the first stays.
pub fn clear_duplicate_coords(list: Vec<Coord>) -> (out: Vec<Coord>)
    ensures
        out@ == dedup(list@),
{
    let mut out: Vec<Coord> = Vec::new();
    let mut i: usize = 0;
    assert(list@.take(0) =~= Seq::<Coord>::empty());
    while i < list.len()
        invariant
            i <= list.len(),
            out@ == dedup(list@.take(i as int)),
        decreases list.len() - i,
    {
        let ghost next = list@.take(i + 1);
        assert(next.drop_last() =~= list@.take(i as int));
        let c = list[i];
        let mut seen = false;
        let mut k: usize = 0;
        while k < out.len()
            invariant
                k <= out.len(),
                seen == (exists|j: int| 0 <= j < k && out@[j] == c),
            decreases out.len() - k,
        {
            if out[k] == c {
                seen = true;
            }
            k += 1;
        }
        if !seen {
            out.push(c);
        }
        i += 1;
    }
    assert(list@.take(list.len() as int) =~= list@);
    out
}

/// The labels on side `side` of the tiles of a list, without repeats.
fn side_labels<'p>(list: &Vec<&'p Field>, side: usize) -> (out: Vec<&'p String>)
    requires
        side < 4,
    ensures
        views(out@) == dedup(labels(views(list@), side as int)),
{
    let mut raw: Vec<&'p String> = Vec::new();
    let mut i: usize = 0;
    while i < list.len()
        invariant
            i <= list.len(),
            side < 4,
            raw@.len() == i,
            forall|k: int| 0 <= k < i ==> (#[trigger] raw@[k])@ == list@[k]@.sides[side as int],
        decreases list.len() - i,
    {
        let f: &'p Field = list[i];
        raw.push(&f.sides[side]);
        i += 1;
    }
    assert(views(raw@) =~= labels(views(list@), side as int));
    clear_duplicates(raw)
}

/// The labels on side `side` of the tiles of the catalog, without repeats.
fn catalog_labels<'p>(fields: &'p Vec<Field>, side: usize) -> (out: Vec<&'p String>)
    requires
        side < 4,
    ensures
        views(out@) == dedup(labels(views(fields@), side as int)),
{
    let mut raw: Vec<&'p String> = Vec::new();
    let mut i: usize = 0;
    while i < fields.len()
        invariant
            i <= fields.len(),
            side < 4,
            raw@.len() == i,
            forall|k: int| 0 <= k < i ==> (#[trigger] raw@[k])@ == fields@[k]@.sides[side as int],
        decreases fields.len() - i,
    {
        raw.push(&fields[i].sides[side]);
        i += 1;
    }
    assert(views(raw@) =~= labels(views(fields@), side as int));
    clear_duplicates(raw)
}

/// The labels that boundary `s` offers at place `k` on side `side`.
fn boundary_labels<'p>(params: &Params<'p>, s: usize, k: usize, side: usize) -> (out: Vec<
    &'p String,
>)
    requires
        s < 4,
        side < 4,
    ensures
        views(out@) == dedup(labels(params@.virtual_cell(s as int, k as int), side as int)),
{
    let boundary = &params.sides[s];
    if k < boundary.len() {
        side_labels(&boundary[k], side)
    } else {
        catalog_labels(params.fields, side)
    }
}

/// The labels that face cell `pos` from each of the four directions,
/// without repeats: from the adjacent cell or, off the grid, from the
/// boundary.
pub fn find_neighbors<'p>(
    params: &Params<'p>,
    wave: &Array2D<Vec<&'p Field>>,
    pos: Coord,
) -> (r: [Vec<&'p String>; 4])
    ensures
        forall|d: int|
            0 <= d < 4 ==> views((#[trigger] r[d])@) == dedup(
                offers_at(params@, view_of(*wave), pos)[d],
            ),
{
    let _ = dimensions(wave);
    let north = if pos.y > 0 {
        match wave_get(wave, pos.y - 1, pos.x) {
            Some(list) => side_labels(list, 2),
            None => boundary_labels(params, 0, pos.x, 2),
        }
    } else {
        boundary_labels(params, 0, pos.x, 2)
    };
    let east = if pos.x < usize::MAX {
        match wave_get(wave, pos.y, pos.x + 1) {
            Some(list) => side_labels(list, 3),
            None => boundary_labels(params, 1, pos.y, 3),
        }
    } else {
        boundary_labels(params, 1, pos.y, 3)
    };
    let south = if pos.y < usize::MAX {
        match wave_get(wave, pos.y + 1, pos.x) {
            Some(list) => side_labels(list, 0),
            None => boundary_labels(params, 2, pos.x, 0),
        }
    } else {
        boundary_labels(params, 2, pos.x, 0)
    };
    let west = if pos.x > 0 {
        match wave_get(wave, pos.y, pos.x - 1) {
            Some(list) => side_labels(list, 1),
            None => boundary_labels(params, 3, pos.y, 1),
        }
    } else {
        boundary_labels(params, 3, pos.y, 1)
    };
    let r = [north, east, south, west];
    assert(views(r[0]@) == dedup(offers_at(params@, view_of(*wave), pos)[0]));
    assert(views(r[1]@) == dedup(offers_at(params@, view_of(*wave), pos)[1]));
    assert(views(r[2]@) == dedup(offers_at(params@, view_of(*wave), pos)[2]));
    assert(views(r[3]@) == dedup(offers_at(params@, view_of(*wave), pos)[3]));
    r
}

/// The cells of the grid that are adjacent to `pos`, in the order north,
/// east, south, west.
pub fn find_real_neighbors(wave: &Array2D<Vec<&Field>>, pos: Coord) -> (r: Vec<Coord>)
    ensures
        r@ == real_neighbors(view_of(*wave), pos),
{
    let (width, height) = dimensions(wave);
    let mut neighbors: Vec<Coord> = Vec::with_capacity(4);
    if pos.y > 0 && pos.x < width && pos.y - 1 < height {
        neighbors.push(Coord::new(pos.x, pos.y - 1));
    }
    if pos.x < usize::MAX && pos.x + 1 < width && pos.y < height {
        neighbors.push(Coord::new(pos.x + 1, pos.y));
    }
    if pos.y < usize::MAX && pos.x < width && pos.y + 1 < height {
        neighbors.push(Coord::new(pos.x, pos.y + 1));
    }
    if pos.x > 0 && pos.x - 1 < width && pos.y < height {
        neighbors.push(Coord::new(pos.x - 1, pos.y));
    }
    assert(neighbors@ =~= real_neighbors(view_of(*wave), pos));
    neighbors
}

/// The labels of four lists.
pub open spec fn offer_views(sides: [Vec<&String>; 4]) -> Seq<Seq<Seq<char>>> {
    Seq::new(4, |d: int| views(sides[d]@))
}

/// Whether one of the offered labels fits the label `mine`.
fn any_fits(offered: &Vec<&String>, mine: &str) -> (r: bool)
    ensures
        r == supported(views(offered@), mine@),
{
    let mut i: usize = 0;
    while i < offered.len()
        invariant
            i <= offered.len(),
            forall|k: int| 0 <= k < i ==> !fits_spec(#[trigger] views(offered@)[k], mine@),
        decreases offered.len() - i,
    {
        if fits(offered[i].as_str(), mine) {
            assert(fits_spec(views(offered@)[i as int], mine@));
            return true;
        }
        i += 1;
    }
    false
}

/// Whether a tile stays under the labels offered from the four directions.
fn is_kept(f: &Field, sides: &[Vec<&String>; 4]) -> (r: bool)
    ensures
        r == keeps(f@, offer_views(*sides)),
{
    let r = any_fits(&sides[0], f.side(0)) && any_fits(&sides[1], f.side(1)) && any_fits(
        &sides[2],
        f.side(2),
    ) && any_fits(&sides[3], f.side(3));
    proof {
        let offers = offer_views(*sides);
        assert(offers[0] == views(sides[0]@));
        assert(offers[1] == views(sides[1]@));
        assert(offers[2] == views(sides[2]@));
        assert(offers[3] == views(sides[3]@));
    }
    r
}

/// Narrows a candidate list to the tiles that stay under the labels offered
/// from the four directions, and says whether the list became shorter.
pub fn apply_constraints<'a>(target: &mut Vec<&'a Field>, sides: &[Vec<&String>; 4]) -> (changed:
    bool)
    ensures
        views(final(target)@) == views(old(target)@).filter(
            |f: FieldView| keeps(f, offer_views(*sides)),
        ),
        changed == (final(target)@.len() != old(target)@.len()),
{
    let ghost pred = |f: FieldView| keeps(f, offer_views(*sides));
    let ghost all = views(target@);
    let mut kept: Vec<&'a Field> = Vec::new();
    let mut i: usize = 0;
    proof {
        reveal(Seq::filter);
        assert(all.take(0) =~= Seq::<FieldView>::empty());
        assert(views(kept@) =~= all.take(0).filter(pred));
    }
    while i < target.len()
        invariant
            i <= target.len(),
            all == views(target@),
            pred == (|f: FieldView| keeps(f, offer_views(*sides))),
            views(kept@) == all.take(i as int).filter(pred),
        decreases target.len() - i,
    {
        let f: &'a Field = target[i];
        let ghost before = views(kept@);
        proof {
            reveal(Seq::filter);
            assert(all.take(i + 1).drop_last() =~= all.take(i as int));
            assert(all.take(i + 1).last() == f@);
        }
        if is_kept(f, sides) {
            kept.push(f);
            assert(views(kept@) =~= before.push(f@));
        }
        i += 1;
    }
    assert(all.take(target.len() as int) =~= all);
    let changed = kept.len() != target.len();
    *target = kept;
    changed
}

/// The candidates of a cell that its neighbours allow, in their order.
pub fn constrain<'p>(params: &Params<'p>, wave: &Array2D<Vec<&'p Field>>, pos: Coord) -> (r: Vec<
    &'p Field,
>)
    ensures
        views(r@) == constrained(params@, view_of(*wave), pos),
{
    let mut list = read_cell(wave, pos);
    let sides = find_neighbors(params, wave, pos);
    let ghost all = views(list@);
    let _ = apply_constraints(&mut list, &sides);
    proof {
        let offers = offers_at(params@, view_of(*wave), pos);
        let given = offer_views(sides);
        assert forall|i: int| 0 <= i < all.len() implies keeps(#[trigger] all[i], given) == keeps(
            all[i],
            offers,
        ) by {
            let f = all[i];
            assert forall|d: int| 0 <= d < 4 implies supported(#[trigger] given[d], f.sides[d])
                == supported(offers[d], f.sides[d]) by {
                assert(views(sides[d]@) == dedup(offers[d]));
                lemma_supported_dedup(offers[d], f.sides[d]);
            }
            if keeps(f, given) {
                assert forall|d: int| 0 <= d < 4 implies supported(
                    #[trigger] offers[d],
                    f.sides[d],
                ) by {
                    assert(supported(given[d], f.sides[d]));
                }
            }
            if keeps(f, offers) {
                assert forall|d: int| 0 <= d < 4 implies supported(
                    #[trigger] given[d],
                    f.sides[d],
                ) by {
                    assert(supported(offers[d], f.sides[d]));
                }
            }
        }
        lemma_filter_agree(
            all,
            |f: FieldView| keeps(f, given),
            |f: FieldView| keeps(f, offers),
        );
    }
    list
}

} // verus!
