//! A rectangular block of cells, laid out row by row from an origin.

use crate::axial::Axial;
use crate::hex::Hex;
use crate::point::Point;
use std::ops::Index;
use vstd::math::max;
use vstd::prelude::*;

verus! {

/// The outline that a map is meant to have. It is a label only: every map
/// is built as a rectangle.
#[derive(Clone, Copy, Debug, PartialEq, Eq, Structural)]
pub enum Shape {
    Rectangle,
    Hexagon,
    MegaHex,
}

/// The way the cells of a map are meant to be turned. It is a label only.
#[derive(Clone, Copy, Debug, PartialEq, Eq, Structural)]
pub enum Orientation {
    Horizontal,
    Vertical,
}

/// One row of cells.
pub struct Row {
    row: Vec<Hex>,
}

impl View for Row {
    type V = Seq<Hex>;

    closed spec fn view(&self) -> Seq<Hex> {
        self.row@
    }
}

impl Row {
    /// A row without cells.
    fn new() -> (r: Row)
        ensures
            r@ == Seq::<Hex>::empty(),
    {
        Row { row: Vec::new() }
    }

    /// Adds a cell at the end of the row.
    fn push(&mut self, h: Hex)
        ensures
            final(self)@ == old(self)@.push(h),
    {
        self.row.push(h);
    }
}

impl vstd::std_specs::core::IndexSpecImpl<usize> for Row {
    open spec fn index_req(&self, index: &usize) -> bool {
        *index < self@.len()
    }
}

impl Index<usize> for Row {
    type Output = Hex;

    /// The cell at position `loc` of the row.
    fn index(&self, loc: usize) -> (r: &Hex)
        ensures
            *r == self@[loc as int],
    {
        &self.row[loc]
    }
}

/// A block of cells: `size.hx` rows of `size.hy` cells each, where the cell
/// at row `i` and position `j` lies at `origin + (i, j)`.
pub struct HexMap {
    pub shape: Shape,
    pub orientation: Orientation,
    pub size: Point,
    pub origin: Point,
    pub rows: Vec<Row>,
}

impl View for HexMap {
    type V = Seq<Seq<Hex>>;

    open spec fn view(&self) -> Seq<Seq<Hex>> {
        Seq::new(self.rows@.len(), |i: int| self.rows@[i]@)
    }
}

impl HexMap {
    /// Whether the cells are those that the size and the origin call for.
    pub open spec fn well_formed(&self) -> bool {
        &&& self@.len() == max(self.size.hx as int, 0)
        &&& forall|i: int|
            0 <= i < self@.len() ==> (#[trigger] self@[i]).len() == max(self.size.hy as int, 0)
        &&& forall|i: int, j: int|
            0 <= i < self@.len() && 0 <= j < self@[i].len() ==> (#[trigger] self@[i][j]).location@
                == self.origin@.plus(Axial { hx: i, hy: j })
    }

    /// A map of `size.hx` rows of `size.hy` cells each, the first cell of
    /// the first row at `origin`. A size that is not positive on both axes
    /// gives a map without cells.
    pub fn new(shape: Shape, orientation: Orientation, size: Point, origin: Point) -> (m: HexMap)
        requires
            size.hx > 0 && size.hy > 0 ==> origin@.plus(
                Axial { hx: size.hx - 1, hy: size.hy - 1 },
            ).fits(),
        ensures
            m.shape == shape,
            m.orientation == orientation,
            m.size == size,
            m.origin == origin,
            m.well_formed(),
    {
        let mut rows: Vec<Row> = Vec::new();
        let mut i: i32 = 0;
        while i < size.hx
            invariant
                0 <= i <= max(size.hx as int, 0),
                size.hx > 0 && size.hy > 0 ==> origin@.plus(
                    Axial { hx: size.hx - 1, hy: size.hy - 1 },
                ).fits(),
                rows@.len() == i,
                forall|a: int|
                    0 <= a < i ==> (#[trigger] rows@[a])@.len() == max(size.hy as int, 0),
                forall|a: int, b: int|
                    0 <= a < i && 0 <= b < rows@[a]@.len() ==> (#[trigger] rows@[a]@[b]).location@
                        == origin@.plus(Axial { hx: a, hy: b }),
            decreases size.hx - i,
        {
            let mut row = Row::new();
            let mut j: i32 = 0;
            while j < size.hy
                invariant
                    0 <= i < size.hx,
                    0 <= j <= max(size.hy as int, 0),
                    size.hx > 0 && size.hy > 0 ==> origin@.plus(
                        Axial { hx: size.hx - 1, hy: size.hy - 1 },
                    ).fits(),
                    row@.len() == j,
                    forall|b: int|
                        0 <= b < j ==> (#[trigger] row@[b]).location@ == origin@.plus(
                            Axial { hx: i as int, hy: b },
                        ),
                decreases size.hy - j,
            {
                row.push(Hex::new(Point { hx: i + origin.hx, hy: j + origin.hy }));
                j = j + 1;
            }
            rows.push(row);
            i = i + 1;
        }
        HexMap { shape, orientation, size, origin, rows }
    }
}

impl vstd::std_specs::core::IndexSpecImpl<usize> for HexMap {
    open spec fn index_req(&self, index: &usize) -> bool {
        *index < self@.len()
    }
}

impl Index<usize> for HexMap {
    type Output = Row;

    /// The row at position `loc` of the map.
    fn index(&self, loc: usize) -> (r: &Row)
        ensures
            r@ == self@[loc as int],
    {
        &self.rows[loc]
    }
}

} // verus!
