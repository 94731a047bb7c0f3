//! Grid maps stored as one traversability bit per cell, padded by one blocked cell on every
//! side so that neighbours of any cell of the map can be read without a bounds check.
use vstd::prelude::*;
use crate::direction::{DirSet, N, W, S, E, NW, SW, SE, NE};

verus! {

/// Bit `g` of a byte sequence, counted from the least significant bit of byte 0.
pub open spec fn bit_at(bits: Seq<u8>, g: int) -> bool {
    (bits[g / 8] >> ((g % 8) as u8)) & 1u8 == 1u8
}

/// Whether `(x, y)` lies in the padded grid of a map of `width` by `height` cells.
pub open spec fn in_padded(width: int, height: int, x: int, y: int) -> bool {
    -1 <= x <= width && -1 <= y <= height
}

/// Whether `(x, y)` lies in a map of `width` by `height` cells.
pub open spec fn in_map(width: int, height: int, x: int, y: int) -> bool {
    0 <= x < width && 0 <= y < height
}

/// Largest width or height of a bit grid.
pub const MAX_SIDE: i32 = 2_000_000_000;

/// A grid map of traversable (`true`) and blocked (`false`) cells.
///
/// Reads may reach one cell beyond the map on each side; those cells are always blocked.
pub struct BitGrid {
    width: i32,
    height: i32,
    padded_width_bytes: usize,
    bits: Vec<u8>,
}

impl BitGrid {
    /// Width of the map.
    pub closed spec fn spec_width(&self) -> int {
        self.width as int
    }

    /// Height of the map.
    pub closed spec fn spec_height(&self) -> int {
        self.height as int
    }

    /// Position of the bit of cell `(x, y)`.
    closed spec fn cell_index(&self, x: int, y: int) -> int {
        64 + (x + 1) + (y + 1) * (self.padded_width_bytes as int * 8)
    }

    /// Whether cell `(x, y)` of the padded grid is traversable.
    pub closed spec fn cell(&self, x: int, y: int) -> bool {
        bit_at(self.bits@, self.cell_index(x, y))
    }

    /// The grid's layout fits its size, and the cells beyond the map are blocked.
    pub closed spec fn wf(&self) -> bool {
        &&& self.layout_ok()
        &&& forall|x: int, y: int|
            in_padded(self.width as int, self.height as int, x, y) && !in_map(
                self.width as int,
                self.height as int,
                x,
                y,
            ) ==> !#[trigger] self.cell(x, y)
    }

    closed spec fn layout_ok(&self) -> bool {
        &&& 0 <= self.width < MAX_SIDE
        &&& 0 <= self.height < MAX_SIDE
        &&& self.padded_width_bytes == self.width / 8 + 1
        &&& self.bits@.len() == self.padded_width_bytes * (self.height + 2) + 17
    }

    proof fn lemma_index_bounds(&self, x: int, y: int)
        requires
            self.layout_ok(),
            in_padded(self.width as int, self.height as int, x, y),
        ensures
            8 * 8 <= self.cell_index(x, y),
            self.cell_index(x, y) / 8 + 8 < self.bits@.len(),
            self.cell_index(x, y) / 8 >= 8,
            self.cell_index(x, y) / 8 == 8 + (x + 1) / 8 + (y + 1) * self.padded_width_bytes,
            self.cell_index(x, y) % 8 == (x + 1) % 8,
            (y + 1) * self.padded_width_bytes + (x + 1) / 8 + 8 < self.bits@.len(),
    {
        let p = self.padded_width_bytes as int;
        let h = self.height as int;
        assert((y + 1) * (p * 8) == ((y + 1) * p) * 8) by (nonlinear_arith);
        assert(0 <= (y + 1) * p <= (h + 1) * p) by (nonlinear_arith)
            requires
                0 <= y + 1 <= h + 1,
                p >= 1,
        ;
        assert(p * (h + 2) == (h + 1) * p + p) by (nonlinear_arith);
    }

    proof fn lemma_index_injective(&self, x: int, y: int, x2: int, y2: int)
        requires
            self.layout_ok(),
            in_map(self.width as int, self.height as int, x, y),
            in_padded(self.width as int, self.height as int, x2, y2),
            self.cell_index(x, y) == self.cell_index(x2, y2),
        ensures
            x == x2 && y == y2,
    {
        let p = self.padded_width_bytes as int * 8;
        let w = self.width as int;
        assert(p >= w + 1);
        if y2 < y {
            assert((y - y2) * p >= p) by (nonlinear_arith)
                requires
                    y - y2 >= 1,
                    p >= 0,
            ;
            assert((x2 + 1) == (x + 1) + (y - y2) * p) by (nonlinear_arith)
                requires
                    (x + 1) + (y + 1) * p == (x2 + 1) + (y2 + 1) * p,
            ;
        } else if y2 > y {
            assert((y2 - y) * p >= p) by (nonlinear_arith)
                requires
                    y2 - y >= 1,
                    p >= 0,
            ;
            assert((x + 1) == (x2 + 1) + (y2 - y) * p) by (nonlinear_arith)
                requires
                    (x + 1) + (y + 1) * p == (x2 + 1) + (y2 + 1) * p,
            ;
        }
    }

    /// A map of `width` by `height` blocked cells.
    pub fn new(width: i32, height: i32) -> (g: BitGrid)
        requires
            0 <= width < MAX_SIDE,
            0 <= height < MAX_SIDE,
            (width / 8 + 1) * (height + 2) + 17 <= usize::MAX,
        ensures
            g.wf(),
            g.spec_width() == width,
            g.spec_height() == height,
            forall|x: int, y: int| in_padded(width as int, height as int, x, y) ==> !#[trigger] g.cell(x, y),
    {
        let padded_width_bytes = (width / 8 + 1) as usize;
        let bytes = padded_width_bytes * ((height + 2) as usize) + 17;
        let bits: Vec<u8> = vec![0u8; bytes];
        let g = BitGrid { width, height, padded_width_bytes, bits };
        assert forall|x: int, y: int| in_padded(width as int, height as int, x, y) implies !#[trigger] g.cell(x, y) by {
            g.lemma_index_bounds(x, y);
            let b = (g.cell_index(x, y) % 8) as u8;
            assert((0u8 >> b) & 1u8 == 0u8) by (bit_vector);
        }
        g
    }

    /// Width of the map.
    pub fn width(&self) -> (r: i32)
        requires
            self.wf(),
        ensures
            r == self.spec_width(),
            0 <= r < MAX_SIDE,
    {
        self.width
    }

    /// Height of the map.
    pub fn height(&self) -> (r: i32)
        requires
            self.wf(),
        ensures
            r == self.spec_height(),
            0 <= r < MAX_SIDE,
    {
        self.height
    }

    /// The byte and the bit within it of cell `(x, y)`.
    fn index(&self, x: i32, y: i32) -> (r: (usize, usize))
        requires
            self.wf(),
            in_padded(self.width as int, self.height as int, x as int, y as int),
        ensures
            r.0 == self.cell_index(x as int, y as int) / 8,
            r.1 == self.cell_index(x as int, y as int) % 8,
            8 <= r.0,
            r.0 + 8 < self.bits@.len(),
    {
        proof {
            self.lemma_index_bounds(x as int, y as int);
        }
        let _len = self.bits.len();
        let padded_y = (y + 1) as usize;
        let padded_x = (x + 1) as usize;
        let bit = padded_x % 8;
        let byte = padded_x / 8 + padded_y * self.padded_width_bytes;
        (byte + 8, bit)
    }

    /// Whether cell `(x, y)` is traversable; `(x, y)` may be one step beyond the map.
    pub fn get(&self, x: i32, y: i32) -> (r: bool)
        requires
            self.wf(),
            in_padded(self.spec_width(), self.spec_height(), x as int, y as int),
        ensures
            r == self.cell(x as int, y as int),
            !in_map(self.spec_width(), self.spec_height(), x as int, y as int) ==> !r,
    {
        let (byte, bit) = self.index(x, y);
        let v = self.bits[byte];
        let b = bit as u8;
        proof {
            if !in_map(self.width as int, self.height as int, x as int, y as int) {
                assert(!self.cell(x as int, y as int));
            }
        }
        (v >> b) & 1 == 1
    }

    /// Makes cell `(x, y)` of the map traversable or blocked.
    pub fn set(&mut self, x: i32, y: i32, traversable: bool)
        requires
            old(self).wf(),
            in_map(old(self).spec_width(), old(self).spec_height(), x as int, y as int),
        ensures
            final(self).wf(),
            final(self).spec_width() == old(self).spec_width(),
            final(self).spec_height() == old(self).spec_height(),
            final(self).cell(x as int, y as int) == traversable,
            forall|x2: int, y2: int|
                in_padded(old(self).spec_width(), old(self).spec_height(), x2, y2) && (x2, y2) != (
                    x as int,
                    y as int,
                ) ==> #[trigger] final(self).cell(x2, y2) == old(self).cell(x2, y2),
    {
        let (byte, bit) = self.index(x, y);
        let b = bit as u8;
        let t: u8 = if traversable { 1 } else { 0 };
        let old_byte = self.bits[byte];
        let new_byte = (old_byte & !(1u8 << b)) | (t << b);
        let ghost before = *self;
        self.bits.set(byte, new_byte);
        proof {
            assert(b < 8 && (t == 0 || t == 1) ==> (((old_byte & !(1u8 << b)) | (t << b)) >> b)
                & 1u8 == t) by (bit_vector);
            assert forall|x2: int, y2: int|
                in_padded(before.width as int, before.height as int, x2, y2) && (x2, y2) != (
                    x as int,
                    y as int,
                ) implies #[trigger] self.cell(x2, y2) == before.cell(x2, y2) by {
                before.lemma_index_bounds(x2, y2);
                let g2 = before.cell_index(x2, y2);
                if g2 / 8 == byte {
                    if g2 == before.cell_index(x as int, y as int) {
                        before.lemma_index_injective(x as int, y as int, x2, y2);
                    }
                    let b2 = (g2 % 8) as u8;
                    assert(b < 8 && b2 < 8 && b != b2 && t < 2 ==> (((old_byte & !(1u8 << b)) | (t << b))
                        >> b2) & 1u8 == (old_byte >> b2) & 1u8) by (bit_vector);
                }
            }
        }
    }

    /// The eight bytes from `at` on, read as a little-endian word.
    fn read_word(&self, at: usize) -> (w: u64)
        requires
            at + 8 <= self.bits@.len(),
        ensures
            w == le_word(self.bits@, at as int),
    {
        let b = &self.bits;
        let _n = b.len();
        (b[at] as u64) | ((b[at + 1] as u64) << 8u64) | ((b[at + 2] as u64) << 16u64) | ((b[at
            + 3] as u64) << 24u64) | ((b[at + 4] as u64) << 32u64) | ((b[at + 5] as u64) << 40u64)
            | ((b[at + 6] as u64) << 48u64) | ((b[at + 7] as u64) << 56u64)
    }

    /// The traversability of cell `(x, y)` and the cells right of it: cell `(x + k, y)` in bit
    /// `k`, for at least 57 cells. Bits for cells beyond the padded grid are unspecified.
    pub fn get_row_right(&self, x: i32, y: i32) -> (r: u64)
        requires
            self.wf(),
            in_padded(self.spec_width(), self.spec_height(), x as int, y as int),
        ensures
            forall|k: int|
                0 <= k < 57 && x + k <= self.spec_width() ==> (((r >> (k as u64)) & 1u64 == 1u64)
                    == #[trigger] self.cell(x + k, y as int)),
    {
        let (byte, bit) = self.index(x, y);
        let w = self.read_word(byte);
        let sh = bit as u64;
        let r = w >> sh;
        proof {
            assert forall|k: int|
                0 <= k < 57 && x + k <= self.spec_width() implies (((r >> (k as u64)) & 1u64
                == 1u64) == #[trigger] self.cell(x + k, y as int)) by {
                self.lemma_index_bounds(x + k, y as int);
                let kk = k as u64;
                assert(sh < 8 && kk < 57 ==> ((w >> sh) >> kk) & 1u64 == (w >> (sh + kk)) & 1u64)
                    by (bit_vector);
                lemma_le_word_bit(self.bits@, byte as int, (sh + kk) as int);
            }
        }
        r
    }

    /// The traversability of cell `(x, y)` and the cells left of it: cell `(x - k, y)` in bit
    /// `63 - k`, for at least 57 cells. Bits for cells beyond the padded grid are unspecified.
    pub fn get_row_left(&self, x: i32, y: i32) -> (r: u64)
        requires
            self.wf(),
            in_padded(self.spec_width(), self.spec_height(), x as int, y as int),
        ensures
            forall|k: int|
                0 <= k < 57 && x - k >= -1 ==> (((r >> ((63 - k) as u64)) & 1u64 == 1u64)
                    == #[trigger] self.cell(x - k, y as int)),
    {
        let (byte, bit) = self.index(x, y);
        let w = self.read_word(byte - 7);
        let sh = (7 - bit) as u64;
        let r = w << sh;
        proof {
            assert forall|k: int|
                0 <= k < 57 && x - k >= -1 implies (((r >> ((63 - k) as u64)) & 1u64 == 1u64)
                == #[trigger] self.cell(x - k, y as int)) by {
                self.lemma_index_bounds(x - k, y as int);
                let kk = k as u64;
                let m = (63 - k) as u64;
                let c = (63 - k - sh) as u64;
                assert(sh < 8 && kk < 57 && m + kk == 63 && c + sh == m ==> ((w << sh) >> m) & 1u64
                    == (w >> c) & 1u64) by (bit_vector);
                lemma_le_word_bit(self.bits@, byte - 7, (63 - k - sh) as int);
            }
        }
        r
    }

    /// The traversable neighbours of cell `(x, y)` of the map.
    pub fn get_neighborhood(&self, x: i32, y: i32) -> (nb: DirSet)
        requires
            self.wf(),
            in_map(self.spec_width(), self.spec_height(), x as int, y as int),
        ensures
            nb.bits == neighborhood_bits(self, x as int, y as int),
    {
        let n: u8 = if self.get(x, y - 1) { N } else { 0 };
        let w: u8 = if self.get(x - 1, y) { W } else { 0 };
        let s: u8 = if self.get(x, y + 1) { S } else { 0 };
        let e: u8 = if self.get(x + 1, y) { E } else { 0 };
        let nw: u8 = if self.get(x - 1, y - 1) { NW } else { 0 };
        let sw: u8 = if self.get(x - 1, y + 1) { SW } else { 0 };
        let se: u8 = if self.get(x + 1, y + 1) { SE } else { 0 };
        let ne: u8 = if self.get(x + 1, y - 1) { NE } else { 0 };
        DirSet { bits: n | w | s | e | nw | sw | se | ne }
    }

    /// A well-formed grid's sides are in range.
    pub proof fn lemma_size(&self)
        requires
            self.wf(),
        ensures
            0 <= self.spec_width() < MAX_SIDE,
            0 <= self.spec_height() < MAX_SIDE,
    {
    }

    /// A traversable cell of the padded grid lies in the map.
    pub proof fn lemma_traversable_in_map(&self, x: int, y: int)
        requires
            self.wf(),
            in_padded(self.spec_width(), self.spec_height(), x, y),
            self.cell(x, y),
        ensures
            in_map(self.spec_width(), self.spec_height(), x, y),
    {
    }
}

/// The little-endian word of the eight bytes from `at` on.
pub open spec fn le_word(b: Seq<u8>, at: int) -> u64 {
    (b[at] as u64) | ((b[at + 1] as u64) << 8u64) | ((b[at + 2] as u64) << 16u64) | ((b[at
        + 3] as u64) << 24u64) | ((b[at + 4] as u64) << 32u64) | ((b[at + 5] as u64) << 40u64)
        | ((b[at + 6] as u64) << 48u64) | ((b[at + 7] as u64) << 56u64)
}

/// Bit `c` of the word read at byte `at` is bit `8 * at + c` of the bytes.
proof fn lemma_le_word_bit(b: Seq<u8>, at: int, c: int)
    requires
        0 <= at,
        at + 8 <= b.len(),
        0 <= c < 64,
    ensures
        ((le_word(b, at) >> (c as u64)) & 1u64 == 1u64) == bit_at(b, 8 * at + c),
{
    let (b0, b1, b2, b3) = (b[at], b[at + 1], b[at + 2], b[at + 3]);
    let (b4, b5, b6, b7) = (b[at + 4], b[at + 5], b[at + 6], b[at + 7]);
    let w = le_word(b, at);
    let r = (c % 8) as u8;
    let rr = (c % 8) as u64;
    assert(8 * at + c == 8 * (at + c / 8) + c % 8);
    assert((8 * at + c) / 8 == at + c / 8);
    assert((8 * at + c) % 8 == c % 8);
    let cc = c as u64;
    let j = c / 8;
    let bj = if j == 0 { b0 } else if j == 1 { b1 } else if j == 2 { b2 } else if j == 3 { b3 } else if j == 4 {
        b4
    } else if j == 5 { b5 } else if j == 6 { b6 } else { b7 };
    assert(cc < 64 && w == (b0 as u64) | ((b1 as u64) << 8u64) | ((b2 as u64) << 16u64) | ((b3 as u64) << 24u64)
        | ((b4 as u64) << 32u64) | ((b5 as u64) << 40u64) | ((b6 as u64) << 48u64) | ((b7 as u64) << 56u64)
        && r as u64 == cc % 8 ==> ((w >> cc) & 1u64 == 1u64) == (((if cc < 8 { b0 } else if cc < 16 { b1 } else if cc
        < 24 { b2 } else if cc < 32 { b3 } else if cc < 40 { b4 } else if cc < 48 { b5 } else if cc < 56 { b6 } else {
        b7 }) >> r) & 1u8 == 1u8)) by (bit_vector);
    assert(bj == (if cc < 8 { b0 } else if cc < 16 { b1 } else if cc < 24 { b2 } else if cc < 32 { b3 } else if cc < 40 {
        b4 } else if cc < 48 { b5 } else if cc < 56 { b6 } else { b7 }));
}

/// The bitmask of the traversable neighbours of cell `(x, y)`.
pub open spec fn neighborhood_bits(g: &BitGrid, x: int, y: int) -> u8 {
    (if g.cell(x, y - 1) { N } else { 0u8 })
    | (if g.cell(x - 1, y) { W } else { 0u8 })
    | (if g.cell(x, y + 1) { S } else { 0u8 })
    | (if g.cell(x + 1, y) { E } else { 0u8 })
    | (if g.cell(x - 1, y - 1) { NW } else { 0u8 })
    | (if g.cell(x - 1, y + 1) { SW } else { 0u8 })
    | (if g.cell(x + 1, y + 1) { SE } else { 0u8 })
    | (if g.cell(x + 1, y - 1) { NE } else { 0u8 })
}

} // verus!
