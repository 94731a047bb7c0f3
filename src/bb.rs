//! Partial-cell bounding boxes: for each independent jump point, one rectangle per first move
//! that covers every target whose optimal path may start with that move.
use vstd::prelude::*;
use crate::bitgrid::{BitGrid, in_map};
use crate::direction::{DirSet, dir_at, Direction};
use crate::grid::Grid;
use crate::jump_db::JumpDatabase;

verus! {

/// Largest coordinate a rectangle corner may hold.
pub const MAX_COORD: i16 = 0x7fff;

/// The cells `low_x <= x < high_x`, `low_y <= y < high_y`.
#[derive(Clone, Copy, Debug, PartialEq, Eq, Structural)]
pub struct Rectangle {
    pub low_x: i16,
    pub low_y: i16,
    pub high_x: i16,
    pub high_y: i16,
}

/// Whether `v` is a coordinate of a map cell that a rectangle can grow to cover.
pub open spec fn coord_ok(v: int) -> bool {
    0 <= v < MAX_COORD
}

/// The larger of two integers.
pub open spec fn imax(a: int, b: int) -> int {
    if a >= b { a } else { b }
}

/// The smaller of two integers.
pub open spec fn imin(a: int, b: int) -> int {
    if a <= b { a } else { b }
}

impl Rectangle {
    /// Corners lie on the map, low before high.
    pub open spec fn wf(&self) -> bool {
        0 <= self.low_x <= self.high_x <= MAX_COORD && 0 <= self.low_y <= self.high_y <= MAX_COORD
    }

    /// Whether the rectangle has not been grown yet.
    pub open spec fn spec_is_empty(&self) -> bool {
        self.low_x == self.high_x && self.low_y == self.high_y
    }

    /// The rectangle grown to cover cell `(x, y)`.
    pub open spec fn grown(&self, x: int, y: int) -> Rectangle {
        if self.spec_is_empty() {
            Rectangle { low_x: x as i16, low_y: y as i16, high_x: (x + 1) as i16, high_y: (y + 1) as i16 }
        } else {
            Rectangle {
                low_x: imin(self.low_x as int, x) as i16,
                low_y: imin(self.low_y as int, y) as i16,
                high_x: imax(self.high_x as int, x + 1) as i16,
                high_y: imax(self.high_y as int, y + 1) as i16,
            }
        }
    }

    /// The area that growing to cover `(x, y)` is reckoned to add.
    pub open spec fn spec_area_increase(&self, x: int, y: int) -> int {
        if self.spec_is_empty() {
            1
        } else {
            let gx = imax(imax(self.low_x - x, x - self.high_x), 0);
            let gy = imax(imax(self.low_y - y, y - self.high_y), 0);
            gx * (self.high_y - self.low_y) + gy * (self.high_x - self.low_x) + gx * gy
        }
    }

    /// The empty rectangle at the origin.
    pub fn empty() -> (r: Rectangle)
        ensures
            r == (Rectangle { low_x: 0, low_y: 0, high_x: 0, high_y: 0 }),
    {
        Rectangle { low_x: 0, low_y: 0, high_x: 0, high_y: 0 }
    }

    /// Whether the rectangle has not been grown yet.
    pub fn is_empty(&self) -> (r: bool)
        ensures
            r == self.spec_is_empty(),
    {
        self.low_x == self.high_x && self.low_y == self.high_y
    }

    /// Grows the rectangle to cover cell `(x, y)`; an empty rectangle becomes that cell.
    pub fn grow(&mut self, x: i16, y: i16)
        requires
            old(self).wf(),
            coord_ok(x as int),
            coord_ok(y as int),
        ensures
            *final(self) == old(self).grown(x as int, y as int),
            final(self).wf(),
            final(self).spec_contains(x as int, y as int),
    {
        if self.is_empty() {
            self.low_x = x;
            self.low_y = y;
            self.high_x = x + 1;
            self.high_y = y + 1;
        } else {
            if x < self.low_x {
                self.low_x = x;
            }
            if y < self.low_y {
                self.low_y = y;
            }
            if x + 1 > self.high_x {
                self.high_x = x + 1;
            }
            if y + 1 > self.high_y {
                self.high_y = y + 1;
            }
        }
    }

    /// The area that growing to cover `(x, y)` is reckoned to add: 1 for an empty rectangle.
    pub fn area_increase_from_grow(&self, x: i16, y: i16) -> (r: i32)
        requires
            self.wf(),
            coord_ok(x as int),
            coord_ok(y as int),
        ensures
            r == self.spec_area_increase(x as int, y as int),
    {
        if self.is_empty() {
            return 1;
        }
        let a: i32 = self.low_x as i32 - x as i32;
        let b: i32 = x as i32 - self.high_x as i32;
        let gx: i32 = if a >= b { if a >= 0 { a } else { 0 } } else { if b >= 0 { b } else { 0 } };
        let c: i32 = self.low_y as i32 - y as i32;
        let d: i32 = y as i32 - self.high_y as i32;
        let gy: i32 = if c >= d { if c >= 0 { c } else { 0 } } else { if d >= 0 { d } else { 0 } };
        let hh: i32 = self.high_y as i32 - self.low_y as i32;
        let ww: i32 = self.high_x as i32 - self.low_x as i32;
        proof {
            assert(ww + gx <= 0x7fff);
            assert(hh + gy <= 0x7fff);
            assert(gx * hh + gy * ww + gx * gy == (ww + gx) * (hh + gy) - ww * hh) by (nonlinear_arith);
            assert(0 <= ww * hh <= (ww + gx) * (hh + gy) <= 0x7fff * 0x7fff) by (nonlinear_arith)
                requires
                    0 <= ww,
                    0 <= hh,
                    0 <= gx,
                    0 <= gy,
                    ww + gx <= 0x7fff,
                    hh + gy <= 0x7fff,
            ;
            assert(0 <= gx * hh <= 0x7fff * 0x7fff) by (nonlinear_arith)
                requires
                    0 <= gx <= 0x7fff,
                    0 <= hh <= 0x7fff,
            ;
            assert(0 <= gy * ww <= 0x7fff * 0x7fff) by (nonlinear_arith)
                requires
                    0 <= gy <= 0x7fff,
                    0 <= ww <= 0x7fff,
            ;
            assert(0 <= gx * gy) by (nonlinear_arith)
                requires
                    0 <= gy,
                    0 <= gx,
            ;
        }
        gx * hh + gy * ww + gx * gy
    }

    /// Whether cell `(x, y)` lies in the rectangle.
    pub open spec fn spec_contains(&self, x: int, y: int) -> bool {
        self.low_x <= x < self.high_x && self.low_y <= y < self.high_y
    }

    /// Whether cell `(x, y)` lies in the rectangle.
    pub fn contains(&self, x: i32, y: i32) -> (r: bool)
        ensures
            r == self.spec_contains(x as int, y as int),
    {
        x >= self.low_x as i32 && y >= self.low_y as i32 && x < self.high_x as i32 && y
            < self.high_y as i32
    }
}

/// Assigns target `(x, y)` to one move of its first-move set `fm`: the first move, in direction
/// order, whose rectangle grows the least, and grows that rectangle. Returns the move's index.
pub fn assign_target(rects: &mut Vec<Rectangle>, fm: DirSet, x: i16, y: i16) -> (best: usize)
    requires
        old(rects)@.len() == 8,
        forall|d: int| 0 <= d < 8 ==> (#[trigger] old(rects)@[d]).wf(),
        fm.bits != 0,
        coord_ok(x as int),
        coord_ok(y as int),
    ensures
        best < 8,
        fm.has(dir_at(best as nat)),
        forall|d: int|
            0 <= d < 8 && fm.has(dir_at(d as nat)) ==> old(rects)@[best as int].spec_area_increase(
                x as int,
                y as int,
            ) <= (#[trigger] old(rects)@[d]).spec_area_increase(x as int, y as int),
        forall|d: int|
            0 <= d < best && fm.has(dir_at(d as nat)) ==> old(rects)@[best as int].spec_area_increase(
                x as int,
                y as int,
            ) < (#[trigger] old(rects)@[d]).spec_area_increase(x as int, y as int),
        final(rects)@ == old(rects)@.update(best as int, old(rects)@[best as int].grown(x as int, y as int)),
{
    let mut best: usize = 8;
    let mut best_area: i32 = 0;
    let mut d: usize = 0;
    while d < 8
        invariant
            d <= 8,
            rects@.len() == 8,
            forall|k: int| 0 <= k < 8 ==> (#[trigger] rects@[k]).wf(),
            coord_ok(x as int),
            coord_ok(y as int),
            best == 8 ==> forall|k: nat| k < d ==> !#[trigger] fm.has(dir_at(k)),
            best < 8 ==> best < d && fm.has(dir_at(best as nat)) && best_area == rects@[best as int].spec_area_increase(x as int, y as int),
            best < 8 ==> forall|k: int|
                0 <= k < d && fm.has(dir_at(k as nat)) ==> best_area <= (#[trigger] rects@[k]).spec_area_increase(x as int, y as int),
            best < 8 ==> forall|k: int|
                0 <= k < best && fm.has(dir_at(k as nat)) ==> best_area < (#[trigger] rects@[k]).spec_area_increase(x as int, y as int),
            best <= 8,
        decreases 8 - d,
    {
        let dir = Direction::try_from(d).unwrap();
        if fm.contains(dir) {
            let area = rects[d].area_increase_from_grow(x, y);
            if best == 8 || area < best_area {
                best = d;
                best_area = area;
            }
        }
        d = d + 1;
    }
    proof {
        if best == 8 {
            let b = fm.bits;
                        assert(!fm.has(Direction::North) && !fm.has(Direction::West) && !fm.has(Direction::South)
                && !fm.has(Direction::East) && !fm.has(Direction::NorthWest) && !fm.has(Direction::SouthWest)
                && !fm.has(Direction::SouthEast) && !fm.has(Direction::NorthEast)) by {
                assert(!fm.has(dir_at(0)));
                assert(!fm.has(dir_at(1)));
                assert(!fm.has(dir_at(2)));
                assert(!fm.has(dir_at(3)));
                assert(!fm.has(dir_at(4)));
                assert(!fm.has(dir_at(5)));
                assert(!fm.has(dir_at(6)));
                assert(!fm.has(dir_at(7)));
                assert(dir_at(0) == Direction::North);
                assert(dir_at(1) == Direction::West);
                assert(dir_at(2) == Direction::South);
                assert(dir_at(3) == Direction::East);
                assert(dir_at(4) == Direction::NorthWest);
                assert(dir_at(5) == Direction::SouthWest);
                assert(dir_at(6) == Direction::SouthEast);
                assert(dir_at(7) == Direction::NorthEast);
            }
            assert(b & 1 == 0 && b & 2 == 0 && b & 4 == 0 && b & 8 == 0 && b & 16 == 0 && b & 32 == 0
                && b & 64 == 0 && b & 128 == 0 ==> b == 0) by (bit_vector);
        }
    }
    let mut r = rects[best];
    r.grow(x, y);
    rects.set(best, r);
    best
}

/// The bounding boxes of the independent jump points of a map, with the map's jump database.
pub struct PartialCellBb {
    map: BitGrid,
    jump_db: JumpDatabase,
    partial_bb: Grid<Option<Vec<Rectangle>>>,
}

impl PartialCellBb {
    /// The map and jump database fit together and the boxes cover the map.
    pub closed spec fn wf(&self) -> bool {
        &&& self.map.wf()
        &&& self.jump_db.matches(self.map)
        &&& self.partial_bb.wf()
        &&& self.partial_bb.spec_width() == self.map.spec_width()
        &&& self.partial_bb.spec_height() == self.map.spec_height()
        &&& forall|x: int, y: int|
            in_map(self.map.spec_width(), self.map.spec_height(), x, y)
                ==> (#[trigger] self.partial_bb.at(x, y) matches Some(r) ==> r@.len() == 8)
    }

    /// The boxes of cell `(x, y)`, one per direction, if it is an independent jump point.
    pub closed spec fn boxes(&self, x: int, y: int) -> Option<Seq<Rectangle>> {
        match self.partial_bb.at(x, y) {
            Some(r) => Some(r@),
            None => None,
        }
    }

    /// The map the boxes were computed for.
    pub closed spec fn spec_map(&self) -> BitGrid {
        self.map
    }

    /// Bounding boxes over `map` from boxes computed for each cell; a cell without boxes passes
    /// every move. Gives `None` when the sizes disagree or a cell holds other than eight boxes.
    pub fn from_parts(map: BitGrid, jump_db: JumpDatabase, partial_bb: Grid<Option<Vec<Rectangle>>>) -> (r: Option<PartialCellBb>)
        requires
            map.wf(),
            jump_db.matches(map),
            partial_bb.wf(),
        ensures
            r matches Some(bb) ==> bb.wf() && bb.spec_map() == map,
            r is None <==> (partial_bb.spec_width() != map.spec_width() || partial_bb.spec_height() != map.spec_height()
                || exists|i: int| 0 <= i < partial_bb.cells().len() && (#[trigger] partial_bb.cells()[i] matches Some(v) && v@.len() != 8)),
    {
        if partial_bb.width() != map.width() || partial_bb.height() != map.height() {
            return None;
        }
        let cells = partial_bb.storage();
        let mut i: usize = 0;
        while i < cells.len()
            invariant
                i <= cells@.len(),
                cells@ == partial_bb.cells(),
                forall|k: int| 0 <= k < i ==> !(#[trigger] cells@[k] matches Some(v) && v@.len() != 8),
            decreases cells@.len() - i,
        {
            if let Some(v) = &cells[i] {
                if v.len() != 8 {
                    return None;
                }
            }
            i = i + 1;
        }
        let ghost all_cells = partial_bb.cells();
        let bb = PartialCellBb { map, jump_db, partial_bb };
        proof {
            assert forall|x: int, y: int| in_map(bb.map.spec_width(), bb.map.spec_height(), x, y)
                implies (#[trigger] bb.partial_bb.at(x, y) matches Some(r) ==> r@.len() == 8) by {
                crate::grid::lemma_cell_pos_bound(bb.partial_bb.spec_width(), bb.partial_bb.spec_height(), x, y);
                bb.partial_bb.lemma_len();
                let k = crate::grid::cell_pos(bb.partial_bb.spec_width(), x, y);
                assert(!(all_cells[k] matches Some(v) && v@.len() != 8));
            }
        }
        Some(bb)
    }

    /// Keeps the moves of `canonical` whose box at `pos` holds `target`; every move is kept
    /// when `pos` has no boxes.
    pub fn filter(&self, pos: (i32, i32), target: (i32, i32), canonical: DirSet) -> (r: DirSet)
        requires
            self.wf(),
            in_map(self.spec_map().spec_width(), self.spec_map().spec_height(), pos.0 as int, pos.1 as int),
        ensures
            self.boxes(pos.0 as int, pos.1 as int) is None ==> r == canonical,
            self.boxes(pos.0 as int, pos.1 as int) matches Some(b) ==> forall|d: int| 0 <= d < 8 ==>
                (#[trigger] r.has(dir_at(d as nat)) <==> canonical.has(dir_at(d as nat))
                    && b[d].spec_contains(target.0 as int, target.1 as int)),
            r.bits & !canonical.bits == 0,
    {
        proof {
            let c = canonical.bits;
            assert(c & !c == 0) by (bit_vector);
        }
        match self.partial_bb.get(pos.0, pos.1) {
            None => {
                canonical
            },
            Some(rects) => {
                let mut r = canonical;
                let mut d: usize = 0;
                while d < 8
                    invariant
                        d <= 8,
                        rects@.len() == 8,
                        r.bits & !canonical.bits == 0,
                        forall|k: int| 0 <= k < 8 ==> (#[trigger] r.has(dir_at(k as nat)) <==> canonical.has(dir_at(k as nat))
                            && (k < d ==> rects@[k].spec_contains(target.0 as int, target.1 as int))),
                    decreases 8 - d,
                {
                    let dir = Direction::try_from(d).unwrap();
                    if !rects[d].contains(target.0, target.1) {
                        let ghost before = r;
                        let bit = dir.bit();
                        r = DirSet::from_u8(r.bits & !bit);
                        proof {
                            crate::direction::lemma_dir_bit(dir);
                            assert forall|k: int| 0 <= k < 8 implies (#[trigger] r.has(dir_at(k as nat)) <==> before.has(dir_at(k as nat)) && k != d) by {
                                let kd = dir_at(k as nat);
                                crate::direction::lemma_dir_bit(kd);
                                lemma_dir_at_index(k as nat);
                                let bk = crate::direction::dir_bit(kd);
                                let rb = before.bits;
                                let ku = k as u8;
                                let du = d as u8;
                                assert(ku < 8 && du < 8 ==> ((rb & !(1u8 << du)) & (1u8 << ku) != 0 <==> (rb & (1u8 << ku) != 0 && ku != du))) by (bit_vector);
                            }
                            let c = canonical.bits;
                            let rb = before.bits;
                            assert(rb & !c == 0 ==> (rb & !bit) & !c == 0) by (bit_vector);
                        }
                    }
                    d = d + 1;
                }
                r
            },
        }
    }

    /// The map the boxes were computed for.
    pub fn map(&self) -> (r: &BitGrid)
        ensures
            *r == self.spec_map(),
    {
        &self.map
    }

    /// The jump database of the map.
    pub fn jump_db(&self) -> (r: &JumpDatabase)
        requires
            self.wf(),
        ensures
            r.matches(self.spec_map()),
    {
        &self.jump_db
    }
}

proof fn lemma_dir_at_index(k: nat)
    requires
        k < 8,
    ensures
        crate::direction::dir_index(dir_at(k)) == k,
{
}

} // verus!
