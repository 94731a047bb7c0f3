//! Dense per-cell storage for a grid map.
use vstd::prelude::*;
use crate::bitgrid::in_map;

verus! {

/// Position of cell `(x, y)` in row-major storage of width `w`.
pub open spec fn cell_pos(w: int, x: int, y: int) -> int {
    y * w + x
}

/// A cell of the map has a position in its storage.
pub proof fn lemma_cell_pos_bound(w: int, h: int, x: int, y: int)
    requires
        in_map(w, h, x, y),
    ensures
        0 <= cell_pos(w, x, y) < w * h,
{
    lemma_cell_pos(w, h, x, y);
}

proof fn lemma_cell_pos(w: int, h: int, x: int, y: int)
    requires
        in_map(w, h, x, y),
    ensures
        0 <= cell_pos(w, x, y) < w * h,
{
    assert(0 <= y * w + x < w * h) by (nonlinear_arith)
        requires
            0 <= x < w,
            0 <= y < h,
    ;
}

proof fn lemma_cell_pos_injective(w: int, h: int, x: int, y: int, x2: int, y2: int)
    requires
        in_map(w, h, x, y),
        in_map(w, h, x2, y2),
        cell_pos(w, x, y) == cell_pos(w, x2, y2),
    ensures
        x == x2 && y == y2,
{
    if y < y2 {
        assert((y + 1) * w <= y2 * w) by (nonlinear_arith)
            requires
                y + 1 <= y2,
                w >= 0,
        ;
        assert((y + 1) * w == y * w + w) by (nonlinear_arith);
    } else if y > y2 {
        assert((y2 + 1) * w <= y * w) by (nonlinear_arith)
            requires
                y2 + 1 <= y,
                w >= 0,
        ;
        assert((y2 + 1) * w == y2 * w + w) by (nonlinear_arith);
    }
}

/// One value per cell of a `width` by `height` map, stored row by row.
pub struct Grid<T> {
    width: i32,
    height: i32,
    cells: Vec<T>,
}

impl<T> Grid<T> {
    /// Width of the grid.
    pub closed spec fn spec_width(&self) -> int {
        self.width as int
    }

    /// Height of the grid.
    pub closed spec fn spec_height(&self) -> int {
        self.height as int
    }

    /// The cells, row by row.
    pub closed spec fn cells(&self) -> Seq<T> {
        self.cells@
    }

    /// The value of cell `(x, y)`.
    pub open spec fn at(&self, x: int, y: int) -> T {
        self.cells()[cell_pos(self.spec_width(), x, y)]
    }

    /// The sizes fit the storage.
    pub closed spec fn wf(&self) -> bool {
        &&& 0 <= self.width
        &&& 0 <= self.height
        &&& self.cells@.len() == self.width * self.height
    }

    /// A well-formed grid stores one value per cell.
    pub proof fn lemma_len(&self)
        requires
            self.wf(),
        ensures
            self.cells().len() == self.spec_width() * self.spec_height(),
            self.spec_width() >= 0,
            self.spec_height() >= 0,
    {
    }

    /// A grid whose cell `(x, y)` holds `f(x, y)`.
    pub fn new<F: Fn(i32, i32) -> T>(width: i32, height: i32, f: F) -> (g: Grid<T>)
        requires
            width >= 0,
            height >= 0,
            width * height <= usize::MAX,
            forall|x: i32, y: i32| 0 <= x < width && 0 <= y < height ==> f.requires((x, y)),
        ensures
            g.wf(),
            g.spec_width() == width,
            g.spec_height() == height,
            forall|x: i32, y: i32|
                0 <= x < width && 0 <= y < height ==> f.ensures((x, y), #[trigger] g.at(x as int, y as int)),
    {
        let mut cells: Vec<T> = Vec::new();
        let mut y: i32 = 0;
        while y < height
            invariant
                0 <= y <= height,
                width >= 0,
                width * height <= usize::MAX,
                cells@.len() == y * width,
                forall|x: i32, y: i32| 0 <= x < width && 0 <= y < height ==> f.requires((x, y)),
                forall|x2: i32, y2: i32|
                    0 <= x2 < width && 0 <= y2 < y ==> f.ensures((x2, y2), #[trigger] cells@[cell_pos(width as int, x2 as int, y2 as int)]),
            decreases height - y,
        {
            let mut x: i32 = 0;
            while x < width
                invariant
                    0 <= x <= width,
                    0 <= y < height,
                    width * height <= usize::MAX,
                    cells@.len() == y * width + x,
                    forall|x: i32, y: i32| 0 <= x < width && 0 <= y < height ==> f.requires((x, y)),
                    forall|x2: i32, y2: i32|
                        (0 <= x2 < width && 0 <= y2 < y) || (0 <= x2 < x && y2 == y) ==> f.ensures((x2, y2), #[trigger] cells@[cell_pos(width as int, x2 as int, y2 as int)]),
                decreases width - x,
            {
                proof {
                    assert((y + 1) * width <= height * width) by (nonlinear_arith)
                        requires
                            y + 1 <= height,
                            width >= 0,
                    ;
                    assert((y + 1) * width == y * width + width) by (nonlinear_arith);
                }
                let v = f(x, y);
                let ghost before = cells@;
                cells.push(v);
                proof {
                    assert forall|x2: i32, y2: i32|
                        (0 <= x2 < width && 0 <= y2 < y) || (0 <= x2 < x + 1 && y2 == y) implies f.ensures((x2, y2), #[trigger] cells@[cell_pos(width as int, x2 as int, y2 as int)]) by {
                        lemma_cell_pos(width as int, height as int, x2 as int, y2 as int);
                        if x2 == x && y2 == y {
                        } else {
                            if y2 < y {
                                assert((y2 + 1) * width <= y * width) by (nonlinear_arith)
                                    requires
                                        y2 + 1 <= y,
                                        width >= 0,
                                ;
                                assert((y2 + 1) * width == y2 * width + width) by (nonlinear_arith);
                            }
                            assert(cells@[cell_pos(width as int, x2 as int, y2 as int)] == before[cell_pos(width as int, x2 as int, y2 as int)]);
                        }
                    }
                }
                x = x + 1;
            }
            proof {
                assert((y + 1) * width == y * width + width) by (nonlinear_arith);
            }
            y = y + 1;
        }
        assert(width * height == height * width) by (nonlinear_arith);
        Grid { width, height, cells }
    }

    /// Width of the grid.
    pub fn width(&self) -> (r: i32)
        ensures
            r == self.spec_width(),
    {
        self.width
    }

    /// Height of the grid.
    pub fn height(&self) -> (r: i32)
        ensures
            r == self.spec_height(),
    {
        self.height
    }

    /// The cells, row by row.
    pub fn storage(&self) -> (r: &Vec<T>)
        ensures
            r@ == self.cells(),
    {
        &self.cells
    }

    /// Whether `(x, y)` is a cell of the grid.
    pub fn bounds_check(&self, x: i32, y: i32) -> (r: bool)
        ensures
            r == in_map(self.spec_width(), self.spec_height(), x as int, y as int),
    {
        x >= 0 && y >= 0 && x < self.width && y < self.height
    }

    /// Position of cell `(x, y)` in the storage.
    pub fn index(&self, x: i32, y: i32) -> (r: usize)
        requires
            self.wf(),
            in_map(self.spec_width(), self.spec_height(), x as int, y as int),
        ensures
            r == cell_pos(self.spec_width(), x as int, y as int),
            r < self.cells().len(),
    {
        proof {
            lemma_cell_pos(self.width as int, self.height as int, x as int, y as int);
            assert(0 <= (y as int) * (self.width as int)) by (nonlinear_arith)
                requires
                    0 <= y,
                    0 <= self.width,
            ;
        }
        let _n = self.cells.len();
        (y as usize) * (self.width as usize) + (x as usize)
    }

    /// The value of cell `(x, y)`.
    pub fn get(&self, x: i32, y: i32) -> (r: &T)
        requires
            self.wf(),
            in_map(self.spec_width(), self.spec_height(), x as int, y as int),
        ensures
            *r == self.at(x as int, y as int),
    {
        let i = self.index(x, y);
        &self.cells[i]
    }

    /// Replaces the value of cell `(x, y)` with `value`.
    pub fn set(&mut self, x: i32, y: i32, value: T)
        requires
            old(self).wf(),
            in_map(old(self).spec_width(), old(self).spec_height(), x as int, y as int),
        ensures
            final(self).wf(),
            final(self).spec_width() == old(self).spec_width(),
            final(self).spec_height() == old(self).spec_height(),
            final(self).at(x as int, y as int) == value,
            forall|x2: int, y2: int|
                in_map(old(self).spec_width(), old(self).spec_height(), x2, y2) && (x2, y2) != (
                    x as int,
                    y as int,
                ) ==> #[trigger] final(self).at(x2, y2) == old(self).at(x2, y2),
    {
        let i = self.index(x, y);
        let ghost before = *self;
        self.cells.set(i, value);
        proof {
            assert forall|x2: int, y2: int|
                in_map(before.spec_width(), before.spec_height(), x2, y2) && (x2, y2) != (
                    x as int,
                    y as int,
                ) implies #[trigger] self.at(x2, y2) == before.at(x2, y2) by {
                lemma_cell_pos(before.width as int, before.height as int, x2, y2);
                if cell_pos(before.width as int, x2, y2) == i {
                    lemma_cell_pos_injective(before.width as int, before.height as int, x as int, y as int, x2, y2);
                }
            }
        }
    }
}

impl<T: Copy> Grid<T> {
    /// Sets every cell to `value`.
    pub fn fill(&mut self, value: T)
        requires
            old(self).wf(),
        ensures
            final(self).wf(),
            final(self).spec_width() == old(self).spec_width(),
            final(self).spec_height() == old(self).spec_height(),
            forall|x: int, y: int|
                in_map(old(self).spec_width(), old(self).spec_height(), x, y) ==> #[trigger] final(self).at(x, y) == value,
    {
        let n = self.cells.len();
        let mut i: usize = 0;
        while i < n
            invariant
                i <= n,
                n == self.cells@.len(),
                self.wf(),
                self.width == old(self).width,
                self.height == old(self).height,
                forall|k: int| 0 <= k < i ==> self.cells@[k] == value,
            decreases n - i,
        {
            self.cells.set(i, value);
            i = i + 1;
        }
        proof {
            assert forall|x: int, y: int| in_map(self.spec_width(), self.spec_height(), x, y) implies #[trigger] self.at(x, y) == value by {
                lemma_cell_pos(self.width as int, self.height as int, x, y);
            }
        }
    }
}

} // verus!
