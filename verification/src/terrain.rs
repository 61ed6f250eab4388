//! The static map: its size and which cells can be walked on.

use vstd::prelude::*;

verus! {

/// Whether every row of `rows` is as long as the first one.
pub open spec fn rectangular<T>(rows: Seq<Seq<T>>) -> bool {
    forall|y: int| 0 <= y < rows.len() ==> (#[trigger] rows[y]).len() == rows[0].len()
}

/// Number of columns of a grid stored row by row.
pub open spec fn width_of<T>(rows: Seq<Seq<T>>) -> int {
    if rows.len() == 0 {
        0
    } else {
        rows[0].len() as int
    }
}

/// Number of rows of a grid stored row by row.
pub open spec fn height_of<T>(rows: Seq<Seq<T>>) -> int {
    rows.len() as int
}

/// Whether `land` is the passability grid of a map: rectangular, with at
/// least one cell, and small enough that every coordinate fits in `i32`.
/// `land[y][x]` tells whether the cell `(x, y)` can be walked on.
pub open spec fn is_land(land: Seq<Seq<bool>>) -> bool {
    &&& rectangular(land)
    &&& 1 <= height_of(land) <= i32::MAX
    &&& 1 <= width_of(land) <= i32::MAX
}

/// Whether `(x, y)` is a cell of the map.
pub open spec fn on_map(land: Seq<Seq<bool>>, x: int, y: int) -> bool {
    0 <= x < width_of(land) && 0 <= y < height_of(land)
}

/// The rows of a nested vector, each taken by its view.
pub open spec fn rows_of<T>(rows: Vec<Vec<T>>) -> Seq<Seq<T>> {
    Seq::new(rows@.len(), |y: int| rows@[y]@)
}

/// The immutable terrain of one match.
#[derive(Debug)]
pub struct Terrain {
    width: usize,
    height: usize,
    passable: Vec<Vec<bool>>,
}

impl View for Terrain {
    type V = Seq<Seq<bool>>;

    closed spec fn view(&self) -> Seq<Seq<bool>> {
        rows_of(self.passable)
    }
}

impl Clone for Terrain {
    /// A second terrain with the same grid.
    fn clone(&self) -> (copy: Terrain)
        ensures
            copy@ == self@,
            copy.wf() == self.wf(),
    {
        let mut passable: Vec<Vec<bool>> = Vec::new();
        let mut y: usize = 0;
        while y < self.passable.len()
            invariant
                y <= self.passable.len(),
                passable@.len() == y,
                forall|j: int| 0 <= j < y ==> (#[trigger] passable@[j])@ == self.passable@[j]@,
            decreases self.passable.len() - y,
        {
            let row = &self.passable[y];
            let mut copied: Vec<bool> = Vec::new();
            let mut x: usize = 0;
            while x < row.len()
                invariant
                    x <= row.len(),
                    copied@ == row@.take(x as int),
                decreases row.len() - x,
            {
                copied.push(row[x]);
                x += 1;
                assert(copied@ =~= row@.take(x as int));
            }
            assert(row@.take(row@.len() as int) =~= row@);
            passable.push(copied);
            y += 1;
        }
        let copy = Terrain { width: self.width, height: self.height, passable };
        assert(copy@ =~~= self@);
        copy
    }
}

impl Terrain {
    /// The representation invariant: the view is a map, and the stored
    /// dimensions are those of the view.
    pub closed spec fn wf(&self) -> bool {
        &&& is_land(self@)
        &&& self.width == width_of(self@)
        &&& self.height == height_of(self@)
    }

    /// A well-formed terrain views as a map.
    pub proof fn lemma_wf_is_land(&self)
        requires
            self.wf(),
        ensures
            is_land(self@),
    {
    }

    /// Builds the terrain from its passability grid, `passable[y][x]` for the
    /// cell `(x, y)`. Returns `None` exactly when the grid is not a map.
    pub fn new(passable: Vec<Vec<bool>>) -> (r: Option<Terrain>)
        ensures
            r is Some <==> is_land(rows_of(passable)),
            r is Some ==> r->0.wf() && r->0@ == rows_of(passable),
    {
        let height = passable.len();
        if height == 0 || height > 0x7fff_ffff {
            return None;
        }
        let width = passable[0].len();
        if width == 0 || width > 0x7fff_ffff {
            return None;
        }
        let mut y: usize = 1;
        while y < height
            invariant
                1 <= y <= height,
                height == passable@.len(),
                width == passable@[0]@.len(),
                forall|j: int| 0 <= j < y ==> (#[trigger] passable@[j])@.len() == width,
            decreases height - y,
        {
            if passable[y].len() != width {
                proof {
                    assert(rows_of(passable)[y as int].len() != rows_of(passable)[0].len());
                }
                return None;
            }
            y += 1;
        }
        let t = Terrain { width, height, passable };
        proof {
            assert forall|j: int| 0 <= j < t@.len() implies (#[trigger] t@[j]).len()
                == t@[0].len() by {
                assert(t.passable@[j]@.len() == width);
            }
        }
        Some(t)
    }

    /// Number of columns.
    pub fn width(&self) -> (w: usize)
        requires
            self.wf(),
        ensures
            w == width_of(self@),
            1 <= w <= i32::MAX,
    {
        self.width
    }

    /// Number of rows.
    pub fn height(&self) -> (h: usize)
        requires
            self.wf(),
        ensures
            h == height_of(self@),
            1 <= h <= i32::MAX,
    {
        self.height
    }

    /// Whether `(x, y)` is a cell of the map.
    pub fn contains(&self, x: i32, y: i32) -> (b: bool)
        requires
            self.wf(),
        ensures
            b == on_map(self@, x as int, y as int),
    {
        0 <= x && 0 <= y && (x as usize) < self.width && (y as usize) < self.height
    }

    /// Whether the cell `(x, y)` can be walked on.
    pub fn is_passable(&self, x: i32, y: i32) -> (b: bool)
        requires
            self.wf(),
            on_map(self@, x as int, y as int),
        ensures
            b == self@[y as int][x as int],
    {
        proof {
            assert(self@[y as int].len() == self@[0].len());
        }
        self.passable[y as usize][x as usize]
    }
}

} // verus!
