//! Jumps found online, a block of cells at a time, from the bits of the map: the scan reads the
//! row and the rows above and below as 64-bit words and finds the next stop with one
//! trailing-zero count per block of 56 cells.
use vstd::prelude::*;
use crate::bitgrid::{BitGrid, in_map, in_padded, neighborhood_bits};
use crate::cpd::{lemma_tz_from, tz_from, trailing_zeros, trailing_zeros_u64};
use crate::jump_db::{forced_ahead, lemma_nb_bit, ortho_jump};
use crate::direction::{N, S, E, W, NE, SE, NW, SW};

verus! {

/// Bit `j` of word `w`.
pub open spec fn word_bit(w: u64, j: int) -> bool {
    (w >> (j as u64)) & 1u64 == 1u64
}

/// Cell `(c, r)` is open and the cell left of it is blocked: a wall ends there.
pub open spec fn turn(map: BitGrid, c: int, r: int) -> bool {
    !map.cell(c - 1, r) && map.cell(c, r)
}

/// A jump east along row `y` stops at cell `c`: the cell is blocked, or a wall beside the
/// row ends there.
pub open spec fn stop_at(map: BitGrid, c: int, y: int) -> bool {
    !map.cell(c, y) || turn(map, c, y - 1) || turn(map, c, y + 1)
}

proof fn lemma_forced_east(nb: u8)
    by (bit_vector)
    ensures
        ((nb & (E | NE | N) == E | NE) || (nb & (E | SE | S) == E | SE)) == (nb & E != 0 && ((nb & NE != 0
            && nb & N == 0) || (nb & SE != 0 && nb & S == 0))),
{
}

/// One step of the eastward jump recursion, told in terms of stops.
proof fn lemma_east_step(map: BitGrid, c: int, y: int)
    requires
        map.wf(),
        in_map(map.spec_width(), map.spec_height(), c, y),
    ensures
        !stop_at(map, c + 1, y) ==> in_map(map.spec_width(), map.spec_height(), c + 1, y)
            && ortho_jump(map, 3, c, y) == ortho_jump(map, 3, c + 1, y) + 2,
        stop_at(map, c + 1, y) && map.cell(c + 1, y) ==> ortho_jump(map, 3, c, y) == 3,
        stop_at(map, c + 1, y) && !map.cell(c + 1, y) ==> ortho_jump(map, 3, c, y) == 0,
{
    let nb = neighborhood_bits(&map, c, y);
    lemma_nb_bit(map, c, y, 3);
    lemma_nb_bit(map, c, y, 0);
    lemma_nb_bit(map, c, y, 7);
    lemma_nb_bit(map, c, y, 2);
    lemma_nb_bit(map, c, y, 6);
    lemma_forced_east(nb);
    assert(forced_ahead(nb, 3) == ((nb & (E | NE | N) == E | NE) || (nb & (E | SE | S) == E | SE)));
    if map.cell(c + 1, y) {
        map.lemma_traversable_in_map(c + 1, y);
    }
}

/// With no stop in the `n` cells after `c`, the jump from `c` runs through them.
proof fn lemma_east_chain(map: BitGrid, c: int, y: int, n: int)
    requires
        map.wf(),
        in_map(map.spec_width(), map.spec_height(), c, y),
        n >= 0,
        forall|j: int| 1 <= j <= n ==> !#[trigger] stop_at(map, c + j, y),
    ensures
        in_map(map.spec_width(), map.spec_height(), c + n, y),
        ortho_jump(map, 3, c, y) == ortho_jump(map, 3, c + n, y) + 2 * n,
    decreases n,
{
    if n > 0 {
        lemma_east_chain(map, c, y, n - 1);
        assert(!stop_at(map, c + n, y));
        lemma_east_step(map, c + n - 1, y);
    }
}

/// Bit `j` of the stop word of three row reads.
proof fn lemma_stop_word(a: u64, r: u64, b: u64, j: u64, i: u64)
    by (bit_vector)
    requires
        j < 64,
        j >= 1 ==> i + 1 == j,
    ensures
        j == 0 ==> ((((((!a << 1u64) & a) | ((!b << 1u64) & b) | !r) & 0x1ff_ffff_ffff_ffffu64) >> j) & 1u64 == 1u64)
            == ((r >> j) & 1u64 != 1u64),
        (((((!a << 1u64) & a) | ((!b << 1u64) & b) | !r) & 0x1ff_ffff_ffff_ffffu64) >> 0u64) == ((((!a << 1u64) & a) | ((!b << 1u64) & b) | !r) & 0x1ff_ffff_ffff_ffffu64),
        1 <= j < 57 ==> ((((((!a << 1u64) & a) | ((!b << 1u64) & b) | !r) & 0x1ff_ffff_ffff_ffffu64) >> j) & 1u64 == 1u64)
            == (((r >> j) & 1u64 != 1u64) || (((a >> i) & 1u64 != 1u64) && ((a >> j) & 1u64 == 1u64))
            || (((b >> i) & 1u64 != 1u64) && ((b >> j) & 1u64 == 1u64))),
        57 <= j ==> ((((((!a << 1u64) & a) | ((!b << 1u64) & b) | !r) & 0x1ff_ffff_ffff_ffffu64) >> j) & 1u64 != 1u64),
        ((r >> j) & 1u64 == 1u64) == (r & (1u64 << j) != 0u64),
        (0u64 >> j) & 1u64 != 1u64,
{
}

/// Bits below the lowest set bit are clear.
proof fn lemma_tz_low(m: u64, k: nat, j: nat)
    requires
        k <= j < tz_from(m, k),
        j < 64,
    ensures
        (m >> (j as u64)) & 1 != 1,
    decreases 64 - k,
{
    if k < j {
        lemma_tz_low(m, k + 1, j);
    }
}

/// The next stop east of traversable cell `(x, y)`: the cell where the jump from it ends and
/// whether that cell is a jump point (`true`), or the first blocked cell (`false`). It agrees
/// with the jump database entry for moving east from `(x, y)`.
pub fn jump_right(map: &BitGrid, x: i32, y: i32) -> (r: (i32, bool))
    requires
        map.wf(),
        in_map(map.spec_width(), map.spec_height(), x as int, y as int),
        map.cell(x as int, y as int),
    ensures
        r.1 == (ortho_jump(*map, 3, x as int, y as int) % 2 == 1),
        r.0 == x + ortho_jump(*map, 3, x as int, y as int) / 2 + if r.1 { 0int } else { 1int },
{
    let ghost m = *map;
    let ghost w = m.spec_width();
    let mut cx = x;
    proof {
        map.lemma_size();
    }
    loop
        invariant
            m == *map,
            map.wf(),
            w == m.spec_width(),
            0 <= w < 2_000_000_000,
            0 <= m.spec_height() < 2_000_000_000,
            x <= cx,
            in_map(m.spec_width(), m.spec_height(), cx as int, y as int),
            m.cell(cx as int, y as int),
            ortho_jump(m, 3, x as int, y as int) == ortho_jump(m, 3, cx as int, y as int) + 2 * (cx - x),
        decreases w - cx,
    {
        let above = map.get_row_right(cx, y - 1);
        let row = map.get_row_right(cx, y);
        let below = map.get_row_right(cx, y + 1);
        let stops = (((!above << 1u64) & above) | ((!below << 1u64) & below) | !row) & 0x1ff_ffff_ffff_ffffu64;
        let ghost k0 = w - cx;
        proof {
            // bits up to the padded column are exact
            assert forall|j: int| 0 <= j < 57 && j <= k0 implies
                (#[trigger] word_bit(stops, j) == (if j == 0 { !m.cell(cx as int, y as int) } else { stop_at(m, cx + j, y as int) })) by {
                let ju = j as u64;
                let iu: u64 = if ju >= 1u64 { (ju - 1u64) as u64 } else { 0u64 };
                lemma_stop_word(above, row, below, ju, iu);
                assert(((row >> ju) & 1u64 == 1u64) == m.cell(cx + j, y as int));
                if j >= 1 {
                    assert(iu as int == j - 1);
                    assert(((above >> iu) & 1u64 == 1u64) == m.cell(cx + (j - 1), y - 1));
                    assert(((above >> ju) & 1u64 == 1u64) == m.cell(cx + j, y - 1));
                    assert(((below >> iu) & 1u64 == 1u64) == m.cell(cx + (j - 1), y + 1));
                    assert(((below >> ju) & 1u64 == 1u64) == m.cell(cx + j, y + 1));
                    assert(turn(m, cx + j, y - 1) == (!m.cell(cx + (j - 1), y - 1) && m.cell(cx + j, y - 1)));
                }
            }
            if k0 <= 56 {
                assert(in_padded(w, m.spec_height(), cx + k0, y as int));
                if m.cell(cx + k0, y as int) {
                    m.lemma_traversable_in_map(cx + k0, y as int);
                }
                assert(stop_at(m, cx + k0, y as int));
            }
        }
        if stops != 0 {
            let k = trailing_zeros_u64(stops);
            proof {
                lemma_stop_word(above, row, below, 0, 0);
                crate::cpd::lemma_trailing_zeros(stops);
                lemma_tz_from(stops, 0);
                let kk = k as int;
                lemma_stop_word(above, row, below, k as u64, if (k as u64) >= 1u64 { ((k as u64) - 1u64) as u64 } else { 0u64 });
                assert(kk < 57);
                assert(word_bit(stops, kk));
                assert(!word_bit(stops, 0));
                if k0 <= 56 && kk > k0 {
                    assert(word_bit(stops, k0));
                    lemma_tz_low(stops, 0, k0 as nat);
                }
                assert(kk <= k0);
                assert(kk >= 1);
                assert forall|j: int| 1 <= j <= kk - 1 implies !#[trigger] stop_at(m, cx + j, y as int) by {
                    lemma_tz_low(stops, 0, j as nat);
                    assert(((j as nat) as u64) == j as u64);
                    assert(!word_bit(stops, j));
                }
                lemma_east_chain(m, cx as int, y as int, kk - 1);
                lemma_east_step(m, cx + kk - 1, y as int);
                assert(stop_at(m, cx + kk, y as int));
            }
            return (cx + k as i32, row & (1u64 << k) != 0);
        }
        proof {
            if k0 <= 56 {
                lemma_stop_word(above, row, below, k0 as u64, (k0 - 1) as u64);
                assert(word_bit(stops, k0));
                assert(false);
            }
            assert forall|j: int| 1 <= j <= 56 implies !#[trigger] stop_at(m, cx + j, y as int) by {
                lemma_stop_word(above, row, below, j as u64, (j - 1) as u64);
                assert(!word_bit(stops, j));
            }
            lemma_east_chain(m, cx as int, y as int, 56);
            assert(!stop_at(m, cx + 56, y as int));
        }
        cx = cx + 56;
    }
}

/// A jump west along row `y` stops at cell `c`: the cell is blocked, or a wall beside the row
/// ends there.
pub open spec fn stop_left(map: BitGrid, c: int, y: int) -> bool {
    !map.cell(c, y) || (!map.cell(c + 1, y - 1) && map.cell(c, y - 1)) || (!map.cell(c + 1, y + 1) && map.cell(c, y + 1))
}

proof fn lemma_forced_west(nb: u8)
    by (bit_vector)
    ensures
        ((nb & (W | NW | N) == W | NW) || (nb & (W | SW | S) == W | SW)) == (nb & W != 0 && ((nb & NW != 0
            && nb & N == 0) || (nb & SW != 0 && nb & S == 0))),
{
}

proof fn lemma_west_step(map: BitGrid, c: int, y: int)
    requires
        map.wf(),
        in_map(map.spec_width(), map.spec_height(), c, y),
    ensures
        !stop_left(map, c - 1, y) ==> in_map(map.spec_width(), map.spec_height(), c - 1, y)
            && ortho_jump(map, 1, c, y) == ortho_jump(map, 1, c - 1, y) + 2,
        stop_left(map, c - 1, y) && map.cell(c - 1, y) ==> ortho_jump(map, 1, c, y) == 3,
        stop_left(map, c - 1, y) && !map.cell(c - 1, y) ==> ortho_jump(map, 1, c, y) == 0,
{
    let nb = neighborhood_bits(&map, c, y);
    lemma_nb_bit(map, c, y, 1);
    lemma_nb_bit(map, c, y, 0);
    lemma_nb_bit(map, c, y, 4);
    lemma_nb_bit(map, c, y, 2);
    lemma_nb_bit(map, c, y, 5);
    lemma_forced_west(nb);
    assert(forced_ahead(nb, 1) == ((nb & (W | NW | N) == W | NW) || (nb & (W | SW | S) == W | SW)));
    if map.cell(c - 1, y) {
        map.lemma_traversable_in_map(c - 1, y);
    }
}

proof fn lemma_west_chain(map: BitGrid, c: int, y: int, n: int)
    requires
        map.wf(),
        in_map(map.spec_width(), map.spec_height(), c, y),
        n >= 0,
        forall|j: int| 1 <= j <= n ==> !#[trigger] stop_left(map, c - j, y),
    ensures
        in_map(map.spec_width(), map.spec_height(), c - n, y),
        ortho_jump(map, 1, c, y) == ortho_jump(map, 1, c - n, y) + 2 * n,
    decreases n,
{
    if n > 0 {
        lemma_west_chain(map, c, y, n - 1);
        assert(!stop_left(map, c - n, y));
        lemma_west_step(map, c - (n - 1), y);
    }
}

/// Bit `b` of the stop word of three leftward row reads.
proof fn lemma_stop_word_left(a: u64, r: u64, d: u64, b: u64, i: u64)
    by (bit_vector)
    requires
        b < 64,
        b < 63 ==> i == b + 1,
    ensures
        b == 63 ==> ((((((!a >> 1u64) & a) | ((!d >> 1u64) & d) | !r) & !0x7fu64) >> b) & 1u64 == 1u64)
            == ((r >> b) & 1u64 != 1u64),
        7 <= b < 63 ==> ((((((!a >> 1u64) & a) | ((!d >> 1u64) & d) | !r) & !0x7fu64) >> b) & 1u64 == 1u64)
            == (((r >> b) & 1u64 != 1u64) || (((a >> i) & 1u64 != 1u64) && ((a >> b) & 1u64 == 1u64))
            || (((d >> i) & 1u64 != 1u64) && ((d >> b) & 1u64 == 1u64))),
        b < 7 ==> ((((((!a >> 1u64) & a) | ((!d >> 1u64) & d) | !r) & !0x7fu64) >> b) & 1u64 != 1u64),
        ((r >> b) & 1u64 == 1u64) == (r & (1u64 << b) != 0u64),
        (0u64 >> b) & 1u64 != 1u64,
{
}

/// The number of leading zero bits of `m` before bit `63 - k`; 64 when none is set.
pub open spec fn lz_from(m: u64, k: nat) -> nat
    decreases 64 - k,
{
    if k >= 64 {
        64
    } else if (m >> ((63 - k) as u64)) & 1 == 1 {
        k
    } else {
        lz_from(m, k + 1)
    }
}

proof fn lemma_lz_low(m: u64, k: nat, j: nat)
    requires
        k <= j < lz_from(m, k),
        j < 64,
    ensures
        (m >> ((63 - j) as u64)) & 1 != 1,
    decreases 64 - k,
{
    if k < j {
        lemma_lz_low(m, k + 1, j);
    }
}

proof fn lemma_lz_found(m: u64, k: nat)
    requires
        k <= 64,
        lz_from(m, k) < 64,
    ensures
        (m >> ((63 - lz_from(m, k)) as u64)) & 1 == 1,
        k <= lz_from(m, k),
    decreases 64 - k,
{
    if k < 64 && (m >> ((63 - k) as u64)) & 1 != 1 {
        lemma_lz_found(m, k + 1);
    }
}

proof fn lemma_lz_nonzero(m: u64, k: nat)
    requires
        k < 64,
        k == 0 ==> m != 0,
        k > 0 ==> (m << (k as u64)) != 0,
    ensures
        lz_from(m, k) < 64,
    decreases 64 - k,
{
    let kk = k as u64;
    let sh = (63 - k) as u64;
    if (m >> sh) & 1 != 1 {
        assert((sh + kk == 63u64 && (kk == 0u64 ==> m != 0u64) && (kk > 0u64 ==> (m << kk) != 0u64) && (m >> sh) & 1u64 != 1u64)
            ==> (kk < 63u64 && (m << (kk + 1u64)) != 0u64)) by (bit_vector);
        lemma_lz_nonzero(m, k + 1);
    }
}

/// The number of leading zero bits of `m`, 64 when `m` is zero.
fn leading_zeros_u64(m: u64) -> (r: u32)
    ensures
        r == lz_from(m, 0),
{
    let mut k: u32 = 0;
    while k < 64
        invariant
            k <= 64,
            lz_from(m, k as nat) == lz_from(m, 0),
        decreases 64 - k,
    {
        if (m >> (63 - k)) & 1 == 1 {
            return k;
        }
        k = k + 1;
    }
    64
}

/// The next stop west of traversable cell `(x, y)`: the cell where the jump from it ends and
/// whether that cell is a jump point (`true`), or the first blocked cell (`false`). It agrees
/// with the jump database entry for moving west from `(x, y)`.
pub fn jump_left(map: &BitGrid, x: i32, y: i32) -> (r: (i32, bool))
    requires
        map.wf(),
        in_map(map.spec_width(), map.spec_height(), x as int, y as int),
        map.cell(x as int, y as int),
    ensures
        r.1 == (ortho_jump(*map, 1, x as int, y as int) % 2 == 1),
        r.0 == x - ortho_jump(*map, 1, x as int, y as int) / 2 - if r.1 { 0int } else { 1int },
{
    let ghost m = *map;
    let mut cx = x;
    proof {
        map.lemma_size();
    }
    loop
        invariant
            m == *map,
            map.wf(),
            0 <= m.spec_width() < 2_000_000_000,
            0 <= m.spec_height() < 2_000_000_000,
            cx <= x,
            in_map(m.spec_width(), m.spec_height(), cx as int, y as int),
            m.cell(cx as int, y as int),
            ortho_jump(m, 1, x as int, y as int) == ortho_jump(m, 1, cx as int, y as int) + 2 * (x - cx),
        decreases cx,
    {
        let above = map.get_row_left(cx, y - 1);
        let row = map.get_row_left(cx, y);
        let below = map.get_row_left(cx, y + 1);
        let stops = (((!above >> 1u64) & above) | ((!below >> 1u64) & below) | !row) & !0x7fu64;
        let ghost k0 = cx + 1;
        proof {
            assert forall|j: int| 0 <= j < 57 && j <= k0 implies
                (#[trigger] word_bit(stops, 63 - j) == (if j == 0 { !m.cell(cx as int, y as int) } else { stop_left(m, cx - j, y as int) })) by {
                let bu = (63 - j) as u64;
                let iu: u64 = if bu < 63u64 { (bu + 1u64) as u64 } else { 0u64 };
                lemma_stop_word_left(above, row, below, bu, iu);
                assert(((row >> bu) & 1u64 == 1u64) == m.cell(cx - j, y as int));
                if j >= 1 {
                    assert(iu as int == 63 - (j - 1));
                    assert(((above >> iu) & 1u64 == 1u64) == m.cell(cx - (j - 1), y - 1));
                    assert(((above >> bu) & 1u64 == 1u64) == m.cell(cx - j, y - 1));
                    assert(((below >> iu) & 1u64 == 1u64) == m.cell(cx - (j - 1), y + 1));
                    assert(((below >> bu) & 1u64 == 1u64) == m.cell(cx - j, y + 1));
                }
            }
            if k0 <= 56 {
                assert(in_padded(m.spec_width(), m.spec_height(), cx - k0, y as int));
                assert(!m.cell(cx - k0, y as int)) by {
                    if m.cell(cx - k0, y as int) {
                        m.lemma_traversable_in_map(cx - k0, y as int);
                    }
                }
                assert(stop_left(m, cx - k0, y as int));
            }
        }
        if stops != 0 {
            let k = leading_zeros_u64(stops);
            proof {
                lemma_lz_nonzero(stops, 0);
                lemma_lz_found(stops, 0);
                let kk = k as int;
                lemma_stop_word_left(above, row, below, (63 - kk) as u64, if kk >= 1 { (64 - kk) as u64 } else { 0u64 });
                assert(word_bit(stops, 63 - kk));
                assert(kk <= 56);
                if k0 <= 56 && kk > k0 {
                    assert(word_bit(stops, 63 - k0));
                    lemma_lz_low(stops, 0, k0 as nat);
                }
                assert(kk <= k0);
                assert(!word_bit(stops, 63));
                assert(kk >= 1);
                assert forall|j: int| 1 <= j <= kk - 1 implies !#[trigger] stop_left(m, cx - j, y as int) by {
                    lemma_lz_low(stops, 0, j as nat);
                    assert(!word_bit(stops, 63 - j));
                }
                lemma_west_chain(m, cx as int, y as int, kk - 1);
                lemma_west_step(m, cx - (kk - 1), y as int);
                assert(stop_left(m, cx - kk, y as int));
            }
            return (cx - k as i32, row & (1u64 << (63 - k)) != 0);
        }
        proof {
            if k0 <= 56 {
                lemma_stop_word_left(above, row, below, (63 - k0) as u64, (64 - k0) as u64);
                assert(word_bit(stops, 63 - k0));
                assert(false);
            }
            assert forall|j: int| 1 <= j <= 56 implies !#[trigger] stop_left(m, cx - j, y as int) by {
                lemma_stop_word_left(above, row, below, (63 - j) as u64, (64 - j) as u64);
                assert(!word_bit(stops, 63 - j));
            }
            lemma_west_chain(m, cx as int, y as int, 56);
            assert(!stop_left(m, cx - 56, y as int));
        }
        cx = cx - 56;
    }
}

/// A map together with its transpose, so that vertical jumps can scan rows too.
pub struct JpsGrid {
    map: BitGrid,
    tmap: BitGrid,
}

impl JpsGrid {
    /// The map.
    pub closed spec fn spec_map(&self) -> BitGrid {
        self.map
    }

    /// The transpose holds the map's cells with the axes swapped.
    pub closed spec fn wf(&self) -> bool {
        &&& self.map.wf()
        &&& self.tmap.wf()
        &&& self.tmap.spec_width() == self.map.spec_height()
        &&& self.tmap.spec_height() == self.map.spec_width()
        &&& forall|x: int, y: int| in_padded(self.map.spec_width(), self.map.spec_height(), x, y) ==>
            #[trigger] self.tmap.cell(y, x) == self.map.cell(x, y)
    }

    /// The map and its transpose.
    pub fn from(map: BitGrid) -> (g: JpsGrid)
        requires
            map.wf(),
            (map.spec_height() / 8 + 1) * (map.spec_width() + 2) + 17 <= usize::MAX,
        ensures
            g.wf(),
            g.spec_map() == map,
    {
        let w = map.width();
        let h = map.height();
        let mut tmap = BitGrid::new(h, w);
        let mut x: i32 = 0;
        while x < w
            invariant
                map.wf(),
                tmap.wf(),
                w == map.spec_width(),
                h == map.spec_height(),
                tmap.spec_width() == h,
                tmap.spec_height() == w,
                0 <= h,
                0 <= x <= w,
                forall|a: int, b: int| in_padded(w as int, h as int, a, b) ==>
                    #[trigger] tmap.cell(b, a) == if 0 <= a < x && 0 <= b < h { map.cell(a, b) } else { false },
            decreases w - x,
        {
            let mut y: i32 = 0;
            while y < h
                invariant
                    map.wf(),
                    tmap.wf(),
                    w == map.spec_width(),
                    h == map.spec_height(),
                    tmap.spec_width() == h,
                    tmap.spec_height() == w,
                    0 <= x < w,
                    0 <= y <= h,
                    forall|a: int, b: int| in_padded(w as int, h as int, a, b) ==>
                        #[trigger] tmap.cell(b, a) == if (0 <= a < x && 0 <= b < h) || (a == x && 0 <= b < y) { map.cell(a, b) } else { false },
                decreases h - y,
            {
                let v = map.get(x, y);
                tmap.set(y, x, v);
                y = y + 1;
            }
            x = x + 1;
        }
        proof {
            assert forall|a: int, b: int| in_padded(w as int, h as int, a, b) implies #[trigger] tmap.cell(b, a) == map.cell(a, b) by {
                if !(0 <= a < w && 0 <= b < h) {
                    if map.cell(a, b) {
                        map.lemma_traversable_in_map(a, b);
                    }
                }
            }
        }
        JpsGrid { map, tmap }
    }

    /// The map.
    pub fn map(&self) -> (r: &BitGrid)
        ensures
            *r == self.spec_map(),
            self.wf() ==> r.wf(),
    {
        &self.map
    }

    /// The next stop south of traversable cell `(x, y)`, found by scanning the transpose; it
    /// agrees with the jump database entry for moving south.
    pub fn jump_down(&self, x: i32, y: i32) -> (r: (i32, bool))
        requires
            self.wf(),
            in_map(self.spec_map().spec_width(), self.spec_map().spec_height(), x as int, y as int),
            self.spec_map().cell(x as int, y as int),
        ensures
            r.1 == (ortho_jump(self.spec_map(), 2, x as int, y as int) % 2 == 1),
            r.0 == y + ortho_jump(self.spec_map(), 2, x as int, y as int) / 2 + if r.1 { 0int } else { 1int },
    {
        proof {
            assert(self.tmap.cell(y as int, x as int) == self.map.cell(x as int, y as int));
            lemma_transpose_jumps(self.map, self.tmap, x as int, y as int);
        }
        jump_right(&self.tmap, y, x)
    }

    /// The next stop north of traversable cell `(x, y)`, found by scanning the transpose; it
    /// agrees with the jump database entry for moving north.
    pub fn jump_up(&self, x: i32, y: i32) -> (r: (i32, bool))
        requires
            self.wf(),
            in_map(self.spec_map().spec_width(), self.spec_map().spec_height(), x as int, y as int),
            self.spec_map().cell(x as int, y as int),
        ensures
            r.1 == (ortho_jump(self.spec_map(), 0, x as int, y as int) % 2 == 1),
            r.0 == y - ortho_jump(self.spec_map(), 0, x as int, y as int) / 2 - if r.1 { 0int } else { 1int },
    {
        proof {
            assert(self.tmap.cell(y as int, x as int) == self.map.cell(x as int, y as int));
            lemma_transpose_jumps(self.map, self.tmap, x as int, y as int);
        }
        jump_left(&self.tmap, y, x)
    }
}

proof fn lemma_forced_vertical(nb: u8)
    by (bit_vector)
    ensures
        ((nb & (S | SW | W) == S | SW) || (nb & (S | SE | E) == S | SE)) == (nb & S != 0 && ((nb & SW != 0
            && nb & W == 0) || (nb & SE != 0 && nb & E == 0))),
        ((nb & (N | NW | W) == N | NW) || (nb & (N | NE | E) == N | NE)) == (nb & N != 0 && ((nb & NW != 0
            && nb & W == 0) || (nb & NE != 0 && nb & E == 0))),
{
}

/// Moving east (west) in the transpose is moving south (north) in the map.
proof fn lemma_transpose_jumps(map: BitGrid, tmap: BitGrid, x: int, y: int)
    requires
        map.wf(),
        tmap.wf(),
        tmap.spec_width() == map.spec_height(),
        tmap.spec_height() == map.spec_width(),
        forall|a: int, b: int| in_padded(map.spec_width(), map.spec_height(), a, b) ==>
            #[trigger] tmap.cell(b, a) == map.cell(a, b),
        in_map(map.spec_width(), map.spec_height(), x, y),
    ensures
        ortho_jump(tmap, 3, y, x) == ortho_jump(map, 2, x, y),
        ortho_jump(tmap, 1, y, x) == ortho_jump(map, 0, x, y),
{
    lemma_transpose_south(map, tmap, x, y);
    lemma_transpose_north(map, tmap, x, y);
}

proof fn lemma_transpose_south(map: BitGrid, tmap: BitGrid, x: int, y: int)
    requires
        map.wf(),
        tmap.wf(),
        tmap.spec_width() == map.spec_height(),
        tmap.spec_height() == map.spec_width(),
        forall|a: int, b: int| in_padded(map.spec_width(), map.spec_height(), a, b) ==>
            #[trigger] tmap.cell(b, a) == map.cell(a, b),
        in_map(map.spec_width(), map.spec_height(), x, y),
    ensures
        ortho_jump(tmap, 3, y, x) == ortho_jump(map, 2, x, y),
    decreases map.spec_height() - y,
{
    let nb = neighborhood_bits(&map, x, y);
    let tb = neighborhood_bits(&tmap, y, x);
    lemma_nb_bit(map, x, y, 2);
    lemma_nb_bit(map, x, y, 5);
    lemma_nb_bit(map, x, y, 1);
    lemma_nb_bit(map, x, y, 6);
    lemma_nb_bit(map, x, y, 3);
    lemma_nb_bit(tmap, y, x, 3);
    lemma_nb_bit(tmap, y, x, 7);
    lemma_nb_bit(tmap, y, x, 0);
    lemma_nb_bit(tmap, y, x, 6);
    lemma_nb_bit(tmap, y, x, 2);
    lemma_forced_vertical(nb);
    lemma_forced_east(tb);
    assert(forced_ahead(nb, 2) == ((nb & (S | SW | W) == S | SW) || (nb & (S | SE | E) == S | SE)));
    assert(forced_ahead(tb, 3) == ((tb & (E | NE | N) == E | NE) || (tb & (E | SE | S) == E | SE)));
    assert(tmap.cell(y + 1, x) == map.cell(x, y + 1));
    assert(tmap.cell(y + 1, x - 1) == map.cell(x - 1, y + 1));
    assert(tmap.cell(y, x - 1) == map.cell(x - 1, y));
    assert(tmap.cell(y + 1, x + 1) == map.cell(x + 1, y + 1));
    assert(tmap.cell(y, x + 1) == map.cell(x + 1, y));
    if map.cell(x, y + 1) {
        map.lemma_traversable_in_map(x, y + 1);
        lemma_transpose_south(map, tmap, x, y + 1);
    }
}

proof fn lemma_transpose_north(map: BitGrid, tmap: BitGrid, x: int, y: int)
    requires
        map.wf(),
        tmap.wf(),
        tmap.spec_width() == map.spec_height(),
        tmap.spec_height() == map.spec_width(),
        forall|a: int, b: int| in_padded(map.spec_width(), map.spec_height(), a, b) ==>
            #[trigger] tmap.cell(b, a) == map.cell(a, b),
        in_map(map.spec_width(), map.spec_height(), x, y),
    ensures
        ortho_jump(tmap, 1, y, x) == ortho_jump(map, 0, x, y),
    decreases y,
{
    let nb = neighborhood_bits(&map, x, y);
    let tb = neighborhood_bits(&tmap, y, x);
    lemma_nb_bit(map, x, y, 0);
    lemma_nb_bit(map, x, y, 4);
    lemma_nb_bit(map, x, y, 1);
    lemma_nb_bit(map, x, y, 7);
    lemma_nb_bit(map, x, y, 3);
    lemma_nb_bit(tmap, y, x, 1);
    lemma_nb_bit(tmap, y, x, 4);
    lemma_nb_bit(tmap, y, x, 0);
    lemma_nb_bit(tmap, y, x, 5);
    lemma_nb_bit(tmap, y, x, 2);
    lemma_forced_vertical(nb);
    lemma_forced_west(tb);
    assert(forced_ahead(nb, 0) == ((nb & (N | NW | W) == N | NW) || (nb & (N | NE | E) == N | NE)));
    assert(forced_ahead(tb, 1) == ((tb & (W | NW | N) == W | NW) || (tb & (W | SW | S) == W | SW)));
    assert(tmap.cell(y - 1, x) == map.cell(x, y - 1));
    assert(tmap.cell(y - 1, x - 1) == map.cell(x - 1, y - 1));
    assert(tmap.cell(y, x - 1) == map.cell(x - 1, y));
    assert(tmap.cell(y - 1, x + 1) == map.cell(x + 1, y - 1));
    assert(tmap.cell(y, x + 1) == map.cell(x + 1, y));
    if map.cell(x, y - 1) {
        map.lemma_traversable_in_map(x, y - 1);
        lemma_transpose_north(map, tmap, x, y - 1);
    }
}

} // verus!
