//! Rectangular boolean grids: walkability maps, obstacle maps, and
//! visibility maps all share this shape.

use vstd::prelude::*;
use crate::errors::CoreError;

verus! {

/// A row-major matrix of booleans is rectangular when it has at least one
/// row, at least one column, and every row has the width of the first.
pub open spec fn rows_rectangular(s: Seq<Seq<bool>>) -> bool {
    &&& s.len() > 0
    &&& s[0].len() > 0
    &&& forall|i: int| 0 <= i < s.len() ==> (#[trigger] s[i]).len() == s[0].len()
}

/// A rectangular boolean grid. What `true` means (walkable, opaque, visible)
/// is up to the component that reads it.
#[derive(Debug)]
pub struct Grid {
    rows: Vec<Vec<bool>>,
}

impl Grid {
    /// The grid's contents as a sequence of rows.
    pub closed spec fn cells(&self) -> Seq<Seq<bool>> {
        self.rows.deep_view()
    }

    pub open spec fn wf(&self) -> bool {
        rows_rectangular(self.cells())
    }

    pub open spec fn spec_height(&self) -> int {
        self.cells().len() as int
    }

    pub open spec fn spec_width(&self) -> int {
        self.cells()[0].len() as int
    }

    /// Accepts exactly the rectangular matrices; ragged rows and zero
    /// dimensions are malformed.
    pub fn from_rows(rows: Vec<Vec<bool>>) -> (r: Result<Grid, CoreError>)
        ensures
            r is Ok <==> rows_rectangular(rows.deep_view()),
            r matches Ok(g) ==> g.cells() == rows.deep_view(),
            r is Err ==> r == Err::<Grid, CoreError>(CoreError::MalformedGrid),
    {
        let height = rows.len();
        if height == 0 {
            return Err(CoreError::MalformedGrid);
        }
        let width = rows[0].len();
        proof {
            assert(rows.deep_view()[0] == rows@[0].deep_view());
            assert(rows.deep_view()[0].len() == rows@[0]@.len());
        }
        if width == 0 {
            return Err(CoreError::MalformedGrid);
        }
        let mut i: usize = 1;
        while i < height
            invariant
                1 <= i <= height,
                height == rows.deep_view().len(),
                width == rows.deep_view()[0].len(),
                width > 0,
                forall|j: int| 0 <= j < i ==> (#[trigger] rows.deep_view()[j]).len() == width,
            decreases height - i,
        {
            proof {
                assert(rows.deep_view()[i as int] == rows@[i as int].deep_view());
                assert(rows.deep_view()[i as int].len() == rows@[i as int]@.len());
            }
            if rows[i].len() != width {
                return Err(CoreError::MalformedGrid);
            }
            i = i + 1;
        }
        Ok(Grid { rows })
    }

    /// Builds a rectangular grid holding `value` everywhere.
    pub fn new_filled(width: usize, height: usize, value: bool) -> (r: Grid)
        requires
            width > 0,
            height > 0,
        ensures
            r.wf(),
            r.spec_width() == width,
            r.spec_height() == height,
            forall|y: int, x: int|
                0 <= y < height && 0 <= x < width ==> #[trigger] r.cells()[y][x] == value,
    {
        let mut rows: Vec<Vec<bool>> = Vec::new();
        let mut y: usize = 0;
        while y < height
            invariant
                0 <= y <= height,
                rows@.len() == y,
                forall|j: int|
                    0 <= j < y ==> (#[trigger] rows@[j])@.len() == width && forall|x: int|
                        0 <= x < width ==> rows@[j]@[x] == value,
            decreases height - y,
        {
            let mut row: Vec<bool> = Vec::new();
            let mut x: usize = 0;
            while x < width
                invariant
                    0 <= x <= width,
                    row@.len() == x,
                    forall|k: int| 0 <= k < x ==> row@[k] == value,
                decreases width - x,
            {
                row.push(value);
                x = x + 1;
            }
            rows.push(row);
            y = y + 1;
        }
        let g = Grid { rows };
        proof {
            assert(forall|j: int|
                0 <= j < height ==> #[trigger] g.cells()[j] == g.rows@[j].deep_view());
            assert(forall|j: int|
                0 <= j < height ==> (#[trigger] g.cells()[j]).len() == g.rows@[j]@.len());
            assert forall|j: int, x: int|
                0 <= j < height && 0 <= x < width implies #[trigger] g.cells()[j][x] == value by {
                assert(g.cells()[j][x] == g.rows@[j]@[x]);
            }
        }
        g
    }

    pub fn width(&self) -> (r: usize)
        requires
            self.wf(),
        ensures
            r == self.spec_width(),
    {
        self.rows[0].len()
    }

    pub fn height(&self) -> (r: usize)
        requires
            self.wf(),
        ensures
            r == self.spec_height(),
    {
        self.rows.len()
    }

    /// Reads the cell at column `x` of row `y`.
    pub fn get(&self, x: usize, y: usize) -> (r: bool)
        requires
            self.wf(),
            x < self.spec_width(),
            y < self.spec_height(),
        ensures
            r == self.cells()[y as int][x as int],
    {
        proof {
            assert(self.cells()[y as int] == self.rows@[y as int].deep_view());
            assert(self.cells()[y as int].len() == self.rows@[y as int]@.len());
        }
        self.rows[y][x]
    }

    /// Copies the grid back out as plain rows, in row-major order.
    pub fn to_rows(&self) -> (r: Vec<Vec<bool>>)
        requires
            self.wf(),
        ensures
            r.deep_view() == self.cells(),
    {
        let height = self.rows.len();
        let width = self.rows[0].len();
        let mut out: Vec<Vec<bool>> = Vec::new();
        let mut y: usize = 0;
        while y < height
            invariant
                y <= height,
                self.wf(),
                height == self.cells().len(),
                width == self.cells()[0].len(),
                out@.len() == y,
                forall|j: int| 0 <= j < y ==> (#[trigger] out@[j])@ =~= self.cells()[j],
            decreases height - y,
        {
            proof {
                assert(self.cells()[y as int] == self.rows@[y as int].deep_view());
                assert(self.cells()[y as int].len() == self.rows@[y as int]@.len());
            }
            let mut row: Vec<bool> = Vec::new();
            let mut x: usize = 0;
            while x < width
                invariant
                    x <= width,
                    self.wf(),
                    y < self.cells().len(),
                    width == self.cells()[0].len(),
                    width == self.cells()[y as int].len(),
                    y < self.rows@.len(),
                    self.cells()[y as int] == self.rows@[y as int].deep_view(),
                    self.cells()[y as int].len() == self.rows@[y as int]@.len(),
                    row@.len() == x,
                    forall|k: int| 0 <= k < x ==> row@[k] == self.cells()[y as int][k],
                decreases width - x,
            {
                let v = self.rows[y][x];
                proof {
                    assert(self.cells()[y as int][x as int] == self.rows@[y as int]@[x as int]);
                }
                row.push(v);
                x = x + 1;
            }
            out.push(row);
            y = y + 1;
        }
        proof {
            assert forall|j: int| 0 <= j < height implies #[trigger] out.deep_view()[j]
                =~= self.cells()[j] by {
                assert(out.deep_view()[j] == out@[j].deep_view());
                assert(out@[j].deep_view() =~= out@[j]@);
            }
            assert(out.deep_view() =~= self.cells());
        }
        out
    }

    /// Writes the cell at column `x` of row `y`; the dimensions are kept.
    pub fn set(&mut self, x: usize, y: usize, value: bool)
        requires
            old(self).wf(),
            x < old(self).spec_width(),
            y < old(self).spec_height(),
        ensures
            final(self).wf(),
            final(self).spec_width() == old(self).spec_width(),
            final(self).spec_height() == old(self).spec_height(),
            final(self).cells() == old(self).cells().update(
                y as int,
                old(self).cells()[y as int].update(x as int, value),
            ),
    {
        proof {
            assert(self.cells()[y as int] == self.rows@[y as int].deep_view());
            assert(self.cells()[y as int].len() == self.rows@[y as int]@.len());
        }
        self.rows[y][x] = value;
        proof {
            assert forall|j: int| 0 <= j < self.rows@.len() implies #[trigger] self.cells()[j]
                == old(self).cells().update(
                y as int,
                old(self).cells()[y as int].update(x as int, value),
            )[j] by {
                assert(self.cells()[j] == self.rows@[j].deep_view());
                assert(old(self).cells()[j] == old(self).rows@[j].deep_view());
                if j == y as int {
                    assert(self.rows@[j]@ =~= old(self).rows@[j]@.update(x as int, value));
                    assert(self.cells()[j] =~= old(self).cells()[y as int].update(
                        x as int,
                        value,
                    ));
                }
            }
            assert(self.cells() =~= old(self).cells().update(
                y as int,
                old(self).cells()[y as int].update(x as int, value),
            ));
        }
    }
}

} // verus!
