//! The wave: for every cell of the grid, the list of tiles still possible
//! there.

use array2d::Array2D;
use vstd::prelude::*;
use crate::grid::{wave_get, wave_num_columns, wave_num_rows, wave_rows, wave_set, wave_width};
use crate::seqs::{lemma_sum_lens_update, lemma_sum_rows_update, sum_rows};
use crate::tile::{views, Coord, Field, FieldView};

verus! {

/// What a wave is: its number of columns, and its candidate lists row by
/// row from the top, each row from west to east.
pub struct WaveView {
    pub width: nat,
    pub rows: Seq<Seq<Seq<FieldView>>>,
}

impl WaveView {
    /// The number of rows.
    pub open spec fn height(self) -> nat {
        self.rows.len()
    }

    /// Every row has as many cells as the wave has columns, and every cell
    /// has a coordinate.
    pub open spec fn wf(self) -> bool {
        &&& self.width <= usize::MAX
        &&& self.rows.len() <= usize::MAX
        &&& forall|y: int|
            0 <= y < self.rows.len() ==> (#[trigger] self.rows[y]).len() == self.width
    }

    /// Whether `c` is a cell of the grid.
    pub open spec fn has(self, c: Coord) -> bool {
        c.x < self.width && c.y < self.rows.len()
    }

    /// Whether column `x`, row `y` is a cell of the grid.
    pub open spec fn inside(self, x: int, y: int) -> bool {
        0 <= x < self.width && 0 <= y < self.rows.len()
    }

    /// The candidates at column `x`, row `y`; no candidates where there is
    /// no such cell.
    pub open spec fn at(self, x: int, y: int) -> Seq<FieldView> {
        if self.inside(x, y) {
            self.rows[y][x]
        } else {
            Seq::empty()
        }
    }

    /// The candidates of cell `c`; no candidates where there is no such cell.
    pub open spec fn cell(self, c: Coord) -> Seq<FieldView> {
        if self.has(c) {
            self.rows[c.y as int][c.x as int]
        } else {
            Seq::empty()
        }
    }

    /// The wave with the candidates of cell `c` replaced; the same wave where
    /// there is no such cell.
    pub open spec fn put(self, c: Coord, list: Seq<FieldView>) -> WaveView {
        if self.has(c) {
            WaveView {
                width: self.width,
                rows: self.rows.update(
                    c.y as int,
                    self.rows[c.y as int].update(c.x as int, list),
                ),
            }
        } else {
            self
        }
    }

    /// The total entropy: the number of candidates, summed over all cells.
    pub open spec fn entropy(self) -> nat {
        sum_rows(self.rows)
    }

    /// Every cell has at least one candidate.
    pub open spec fn inhabited(self) -> bool {
        forall|c: Coord| self.has(c) ==> (#[trigger] self.cell(c)).len() > 0
    }

    /// Replacing the candidates of a cell changes that cell and no other,
    /// keeps the shape of the wave, and changes the entropy by the
    /// difference of the two lengths.
    pub proof fn lemma_put(self, c: Coord, list: Seq<FieldView>)
        requires
            self.wf(),
        ensures
            self.put(c, list).wf(),
            self.put(c, list).width == self.width,
            self.put(c, list).height() == self.height(),
            forall|o: Coord| self.put(c, list).has(o) == self.has(o),
            self.has(c) ==> self.put(c, list).cell(c) == list,
            forall|o: Coord| o != c ==> #[trigger] self.put(c, list).cell(o) == self.cell(o),
            self.has(c) ==> self.put(c, list).entropy() + self.cell(c).len() == self.entropy()
                + list.len(),
            !self.has(c) ==> self.put(c, list) == self,
    {
        if self.has(c) {
            let y = c.y as int;
            let x = c.x as int;
            let row = self.rows[y].update(x, list);
            lemma_sum_lens_update(self.rows[y], x, list);
            lemma_sum_rows_update(self.rows, y, row);
            assert forall|o: Coord| o != c implies #[trigger] self.put(c, list).cell(o)
                == self.cell(o) by {
                if self.has(o) {
                    if o.y == c.y {
                        assert(o.x != c.x);
                    }
                }
            }
        }
    }

    /// Replacing the candidates of a cell changes nothing at any other
    /// place.
    pub proof fn lemma_put_at(self, c: Coord, list: Seq<FieldView>)
        requires
            self.wf(),
        ensures
            forall|x: int, y: int| self.put(c, list).inside(x, y) == self.inside(x, y),
            forall|x: int, y: int|
                x != c.x || y != c.y ==> #[trigger] self.put(c, list).at(x, y) == self.at(x, y),
            self.has(c) ==> self.put(c, list).at(c.x as int, c.y as int) == list,
    {
    }

    /// Putting back what a cell held undoes a replacement.
    pub proof fn lemma_put_back(self, c: Coord, list: Seq<FieldView>)
        requires
            self.wf(),
        ensures
            self.put(c, list).put(c, self.cell(c)) == self,
    {
        if self.has(c) {
            let y = c.y as int;
            let x = c.x as int;
            let once = self.put(c, list);
            let twice = once.put(c, self.cell(c));
            assert(once.rows[y].update(x, self.cell(c)) =~= self.rows[y]);
            assert(twice.rows =~= self.rows);
        }
    }
}

/// The wave that an array of candidate lists holds.
pub open spec fn view_of(w: Array2D<Vec<&Field>>) -> WaveView {
    WaveView {
        width: wave_width(w),
        rows: Seq::new(
            wave_rows(w).len(),
            |y: int| Seq::new(wave_rows(w)[y].len(), |x: int| views(wave_rows(w)[y][x]@)),
        ),
    }
}

/// The number of columns and the number of rows of a wave.
pub fn dimensions(wave: &Array2D<Vec<&Field>>) -> (r: (usize, usize))
    ensures
        r.0 == view_of(*wave).width,
        r.1 == view_of(*wave).height(),
        view_of(*wave).wf(),
{
    let width = wave_num_columns(wave);
    let height = wave_num_rows(wave);
    (width, height)
}

/// A copy of a list of tiles.
pub fn copy_list<'a>(list: &Vec<&'a Field>) -> (r: Vec<&'a Field>)
    ensures
        r@ == list@,
{
    let mut out: Vec<&'a Field> = Vec::new();
    let mut i: usize = 0;
    while i < list.len()
        invariant
            i <= list.len(),
            out@ == list@.take(i as int),
        decreases list.len() - i,
    {
        out.push(list[i]);
        assert(list@.take(i + 1) =~= list@.take(i as int).push(list@[i as int]));
        i += 1;
    }
    assert(list@.take(list.len() as int) =~= list@);
    out
}

/// The candidates of a cell; an empty list where there is no such cell.
pub fn read_cell<'a>(wave: &Array2D<Vec<&'a Field>>, pos: Coord) -> (r: Vec<&'a Field>)
    ensures
        views(r@) == view_of(*wave).cell(pos),
        view_of(*wave).wf(),
{
    let _ = dimensions(wave);
    match wave_get(wave, pos.y, pos.x) {
        Some(list) => copy_list(list),
        None => {
            let r: Vec<&'a Field> = Vec::new();
            assert(views(r@) =~= Seq::<FieldView>::empty());
            r
        },
    }
}

/// Replaces the candidates of a cell; does nothing where there is no such
/// cell.
pub fn write_cell<'a>(wave: &mut Array2D<Vec<&'a Field>>, pos: Coord, list: Vec<&'a Field>)
    ensures
        view_of(*final(wave)) == view_of(*old(wave)).put(pos, views(list@)),
        view_of(*final(wave)).wf(),
{
    let _ = dimensions(wave);
    let ghost before = view_of(*wave);
    let ghost items = views(list@);
    let ok = wave_set(wave, pos.y, pos.x, list);
    let _ = dimensions(wave);
    proof {
        let after = view_of(*wave);
        if ok {
            assert(after.rows =~~= before.put(pos, items).rows);
        } else {
            assert(after.rows =~~= before.rows);
        }
    }
}

} // verus!
