//! The catalog of tiles: the tiles as they are described, and the variants
//! that come of them by rotation.

use vstd::prelude::*;
use crate::tile::{views, Field, FieldView};

verus! {

/// What a described tile is.
pub struct DataView {
    pub name: Seq<char>,
    pub rotateable: bool,
    pub sides: Seq<Seq<char>>,
    pub weight: nat,
}

/// A tile as it is described: the name of its artwork, whether it may be
/// rotated, its edge labels in the order north, east, south, west, and its
/// selection weight.
pub struct Data {
    pub name: String,
    pub rotateable: bool,
    pub sides: Vec<String>,
    pub weight: u32,
}

impl View for Data {
    type V = DataView;

    open spec fn view(&self) -> DataView {
        DataView {
            name: self.name@,
            rotateable: self.rotateable,
            sides: views(self.sides@),
            weight: self.weight as nat,
        }
    }
}

/// The four labels of a tile after a quarter turn clockwise, `turns` times:
/// each label moves `turns` places to the right, so that after one turn the
/// label that was in the west is in the north.
pub open spec fn rotated(sides: Seq<Seq<char>>, turns: int) -> Seq<Seq<char>> {
    Seq::new(4, |i: int| sides[(i + 4 - turns) % 4])
}

/// The variant of a described tile after `turns` quarter turns.
pub open spec fn variant(d: DataView, turns: int) -> FieldView {
    FieldView {
        img_name: d.name,
        rotation: 90 * turns,
        sides: rotated(d.sides, turns),
        weight: d.weight,
    }
}

/// The variants of a described tile: the tile as it is and, if it may be
/// rotated, the tile after one, two and three quarter turns.
pub open spec fn variants(d: DataView) -> Seq<FieldView> {
    if d.rotateable {
        seq![variant(d, 0), variant(d, 1), variant(d, 2), variant(d, 3)]
    } else {
        seq![variant(d, 0)]
    }
}

/// The variants of all described tiles, in the order of the descriptions.
pub open spec fn expand(all: Seq<DataView>) -> Seq<FieldView>
    decreases all.len(),
{
    if all.len() == 0 {
        Seq::empty()
    } else {
        expand(all.drop_last()) + variants(all.last())
    }
}

impl Data {
    /// The variant of the tile after `turns` quarter turns.
    fn turned(&self, turns: usize) -> (f: Field)
        requires
            self.sides.len() >= 4,
            turns < 4,
        ensures
            f@ == variant(self@, turns as int),
    {
        let sides = [
            self.sides[(4 - turns) % 4].clone(),
            self.sides[(5 - turns) % 4].clone(),
            self.sides[(6 - turns) % 4].clone(),
            self.sides[(7 - turns) % 4].clone(),
        ];
        let rotation: i32 = if turns == 0 {
            0
        } else if turns == 1 {
            90
        } else if turns == 2 {
            180
        } else {
            270
        };
        let f = Field::new(self.name.clone(), rotation, sides, self.weight);
        assert(f@.sides =~= rotated(self@.sides, turns as int));
        f
    }

    /// The variants of the tile: the tile as it is and, if it may be
    /// rotated, the tile after one, two and three quarter turns.
    pub fn to_field(&self) -> (r: Vec<Field>)
        requires
            self.sides.len() >= 4,
        ensures
            views(r@) == variants(self@),
    {
        let mut out: Vec<Field> = Vec::new();
        out.push(self.turned(0));
        if self.rotateable {
            out.push(self.turned(1));
            out.push(self.turned(2));
            out.push(self.turned(3));
        }
        assert(views(out@) =~= variants(self@));
        out
    }
}

/// A catalog as it is described: the directory of the artwork, and the
/// described tiles.
pub struct DataSet {
    pub dir: String,
    pub fields: Vec<Data>,
}

/// A catalog: the directory of the artwork, and the tile variants.
pub struct TileSet {
    pub(crate) dir: String,
    pub(crate) fields: Vec<Field>,
}

impl TileSet {
    /// The directory of the artwork.
    pub open(crate) spec fn dir_view(&self) -> Seq<char> {
        self.dir@
    }

    /// The tile variants.
    pub open(crate) spec fn tiles(&self) -> Seq<FieldView> {
        views(self.fields@)
    }

    pub fn dir(&self) -> (r: &String)
        ensures
            r@ == self.dir_view(),
    {
        &self.dir
    }

    pub fn fields(&self) -> (r: &Vec<Field>)
        ensures
            views(r@) == self.tiles(),
    {
        &self.fields
    }
}

impl DataSet {
    /// Whether every described tile has its four labels.
    pub open spec fn complete(&self) -> bool {
        forall|i: int| 0 <= i < self.fields@.len() ==> (#[trigger] self.fields@[i]).sides@.len() >= 4
    }

    /// Whether every described tile has its four labels.
    pub fn is_complete(&self) -> (r: bool)
        ensures
            r == self.complete(),
    {
        let mut i: usize = 0;
        while i < self.fields.len()
            invariant
                i <= self.fields.len(),
                forall|k: int| 0 <= k < i ==> (#[trigger] self.fields@[k]).sides@.len() >= 4,
            decreases self.fields.len() - i,
        {
            if self.fields[i].sides.len() < 4 {
                return false;
            }
            i += 1;
        }
        true
    }

    /// The catalog with all variants of all described tiles, in the order
    /// of the descriptions.
    pub fn to_set(&self) -> (r: TileSet)
        requires
            self.complete(),
        ensures
            r.dir_view() == self.dir@,
            r.tiles() == expand(views(self.fields@)),
    {
        let ghost all = views(self.fields@);
        let mut fields: Vec<Field> = Vec::new();
        let mut i: usize = 0;
        assert(all.take(0) =~= Seq::<DataView>::empty());
        assert(views(fields@) =~= expand(all.take(0)));
        while i < self.fields.len()
            invariant
                i <= self.fields.len(),
                self.complete(),
                all == views(self.fields@),
                views(fields@) == expand(all.take(i as int)),
            decreases self.fields.len() - i,
        {
            let ghost so_far = views(fields@);
            let mut more = self.fields[i].to_field();
            let ghost added = views(more@);
            fields.append(&mut more);
            proof {
                assert(all.take(i + 1).drop_last() =~= all.take(i as int));
                assert(all.take(i + 1).last() == self.fields@[i as int]@);
                assert(views(fields@) =~= so_far + added);
            }
            i += 1;
        }
        assert(all.take(self.fields.len() as int) =~= all);
        TileSet { dir: self.dir.clone(), fields }
    }
}

} // verus!
