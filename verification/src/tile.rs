//! Tile variants, grid coordinates and the inputs of a solve.

use vstd::prelude::*;

verus! {

/// What a tile variant is: the name of its artwork, its rotation in degrees
/// clockwise, its four edge labels in the order north, east, south, west,
/// and its selection weight.
pub struct FieldView {
    pub img_name: Seq<char>,
    pub rotation: int,
    pub sides: Seq<Seq<char>>,
    pub weight: nat,
}

/// A tile variant. Two variants with the same artwork and different
/// rotations are different tiles.
#[derive(Clone, PartialEq, Eq, Hash, Debug)]
pub struct Field {
    pub(crate) img_name: String,
    pub(crate) rotation: i32,
    pub(crate) sides: [String; 4],
    pub(crate) weight: u32,
}

impl View for Field {
    type V = FieldView;

    open(crate) spec fn view(&self) -> FieldView {
        FieldView {
            img_name: self.img_name@,
            rotation: self.rotation as int,
            sides: Seq::new(4, |i: int| self.sides[i]@),
            weight: self.weight as nat,
        }
    }
}

impl Field {
    pub fn new(img_name: String, rotation: i32, sides: [String; 4], weight: u32) -> (f: Field)
        ensures
            f@.img_name == img_name@,
            f@.rotation == rotation,
            f@.sides == Seq::new(4, |i: int| sides[i]@),
            f@.weight == weight,
    {
        Field { img_name, rotation, sides, weight }
    }

    pub fn img_name(&self) -> (r: &String)
        ensures
            r@ == self@.img_name,
    {
        &self.img_name
    }

    pub fn rotation(&self) -> (r: &i32)
        ensures
            *r == self@.rotation,
    {
        &self.rotation
    }

    pub fn sides(&self) -> (r: &[String; 4])
        ensures
            forall|i: int| 0 <= i < 4 ==> (#[trigger] r[i])@ == self@.sides[i],
    {
        &self.sides
    }

    pub fn weight(&self) -> (r: &u32)
        ensures
            *r == self@.weight,
    {
        &self.weight
    }

    /// The label of side `d` (0 north, 1 east, 2 south, 3 west).
    pub fn side(&self, d: usize) -> (r: &str)
        requires
            d < 4,
        ensures
            r@ == self@.sides[d as int],
    {
        self.sides[d].as_str()
    }

    /// Whether two tiles agree in all four attributes.
    pub fn same(&self, other: &Field) -> (r: bool)
        ensures
            r == (self@ == other@),
    {
        let r = self.img_name == other.img_name && self.rotation == other.rotation
            && self.sides[0] == other.sides[0] && self.sides[1] == other.sides[1]
            && self.sides[2] == other.sides[2] && self.sides[3] == other.sides[3]
            && self.weight == other.weight;
        proof {
            if r {
                assert(self@.sides =~= other@.sides);
            } else {
                if self@ == other@ {
                    assert(self@.sides[0] == other@.sides[0]);
                    assert(self@.sides[1] == other@.sides[1]);
                    assert(self@.sides[2] == other@.sides[2]);
                    assert(self@.sides[3] == other@.sides[3]);
                }
            }
        }
        r
    }

    /// A copy of the tile.
    pub fn duplicate(&self) -> (f: Field)
        ensures
            f@ == self@,
    {
        let sides = [
            self.sides[0].clone(),
            self.sides[1].clone(),
            self.sides[2].clone(),
            self.sides[3].clone(),
        ];
        assert(Seq::new(4, |i: int| sides[i]@) =~= self@.sides);
        Field { img_name: self.img_name.clone(), rotation: self.rotation, sides, weight: self.weight }
    }
}

/// The views of the items of a sequence.
pub open spec fn views<T: View>(s: Seq<T>) -> Seq<T::V> {
    s.map_values(|t: T| t@)
}

/// The views of the items of each list of a sequence of lists.
pub open spec fn list_views<T: View>(s: Seq<Vec<T>>) -> Seq<Seq<T::V>> {
    s.map_values(|v: Vec<T>| views(v@))
}

/// A cell of the grid: column `x` (growing east) and row `y` (growing south),
/// counted from the top left.
#[derive(Clone, Copy, PartialEq, Eq, Structural, Hash, Debug)]
pub struct Coord {
    pub x: usize,
    pub y: usize,
}

impl Coord {
    pub fn new(x: usize, y: usize) -> (c: Coord)
        ensures
            c.x == x,
            c.y == y,
    {
        Coord { x, y }
    }
}

/// What the inputs of a solve are: the tiles of the catalog, and the four
/// boundaries in the order north, east, south, west, each a row of virtual
/// cells.
pub struct ParamsView {
    pub fields: Seq<FieldView>,
    pub sides: Seq<Seq<Seq<FieldView>>>,
}

impl ParamsView {
    /// The catalog.
    pub open spec fn catalog(self) -> Seq<FieldView> {
        self.fields
    }

    /// The virtual cells of boundary `s` (0 north, 1 east, 2 south, 3 west).
    pub open spec fn boundary(self, s: int) -> Seq<Seq<FieldView>> {
        self.sides[s]
    }

    /// The tiles that may lie just outside the grid at place `k` of boundary
    /// `s`: the virtual cell there or, where the boundary is too short to
    /// have one, every tile of the catalog.
    pub open spec fn virtual_cell(self, s: int, k: int) -> Seq<FieldView> {
        if 0 <= k < self.boundary(s).len() {
            self.boundary(s)[k]
        } else {
            self.catalog()
        }
    }
}

/// The inputs of a solve: the catalog, and the four boundaries in the order
/// north, east, south, west. A boundary is a row of virtual cells, each a
/// list of tiles that may lie just outside the grid at that place.
pub struct Params<'p> {
    pub(crate) fields: &'p Vec<Field>,
    pub(crate) sides: &'p [Vec<Vec<&'p Field>>; 4],
}

impl<'p> View for Params<'p> {
    type V = ParamsView;

    open(crate) spec fn view(&self) -> ParamsView {
        ParamsView {
            fields: views(self.fields@),
            sides: Seq::new(4, |s: int| list_views(self.sides[s]@)),
        }
    }
}

impl<'p> Params<'p> {
    pub fn new(fields: &'p Vec<Field>, sides: &'p [Vec<Vec<&'p Field>>; 4]) -> (p: Params<'p>)
        ensures
            p@.catalog() == views(fields@),
            forall|s: int| 0 <= s < 4 ==> #[trigger] p@.boundary(s) == list_views(sides[s]@),
    {
        Params { fields, sides }
    }

    pub fn fields(&self) -> (r: &&'p Vec<Field>)
        ensures
            views(r@) == self@.catalog(),
    {
        &self.fields
    }

    pub fn sides(&self) -> (r: &&'p [Vec<Vec<&'p Field>>; 4])
        ensures
            forall|s: int| 0 <= s < 4 ==> list_views((#[trigger] r[s])@) == self@.boundary(s),
    {
        &self.sides
    }

    /// No boundary has more virtual cells than a machine word can count.
    pub proof fn lemma_boundary_bound(&self, s: int)
        requires
            0 <= s < 4,
        ensures
            self@.boundary(s).len() <= usize::MAX,
    {
        assert(self@.boundary(s).len() == self.sides[s].len());
    }
}

} // verus!
