//! The jump database: for every cell of a map and every direction, how far a jump point search
//! jumps from that cell and whether the jump ends at a jump point.
use vstd::prelude::*;
use crate::bitgrid::{BitGrid, in_map, in_padded, neighborhood_bits};
use crate::direction::{Direction, N, W, S, E, NW, SW, SE, NE, dir_index};

verus! {

/// Largest width or height of a map that a jump database covers.
pub const MAX_DB_SIDE: i32 = 0x8000;

/// The step of direction index `di` (0..8 in the order N, W, S, E, NW, SW, SE, NE).
pub open spec fn step_of(di: nat) -> (int, int) {
    if di == 0 { (0, -1) }
    else if di == 1 { (-1, 0) }
    else if di == 2 { (0, 1) }
    else if di == 3 { (1, 0) }
    else if di == 4 { (-1, -1) }
    else if di == 5 { (-1, 1) }
    else if di == 6 { (1, 1) }
    else { (1, -1) }
}

/// The bit of direction index `di`.
pub open spec fn bit_of(di: nat) -> u8 {
    if di == 0 { N }
    else if di == 1 { W }
    else if di == 2 { S }
    else if di == 3 { E }
    else if di == 4 { NW }
    else if di == 5 { SW }
    else if di == 6 { SE }
    else { NE }
}

/// Whether the next cell in cardinal direction `di` is a jump point: it is open ahead, and one
/// of the cells beside the path is blocked while the diagonal beyond it is open.
pub open spec fn forced_ahead(nb: u8, di: nat) -> bool {
    if di == 0 {
        nb & (N | NW | W) == N | NW || nb & (N | NE | E) == N | NE
    } else if di == 1 {
        nb & (W | NW | N) == W | NW || nb & (W | SW | S) == W | SW
    } else if di == 2 {
        nb & (S | SW | W) == S | SW || nb & (S | SE | E) == S | SE
    } else {
        nb & (E | NE | N) == E | NE || nb & (E | SE | S) == E | SE
    }
}

/// The cardinal component along x of diagonal index `di`.
pub open spec fn x_part(di: nat) -> nat {
    if di == 4 || di == 5 { 1 } else { 3 }
}

/// The cardinal component along y of diagonal index `di`.
pub open spec fn y_part(di: nat) -> nat {
    if di == 4 || di == 7 { 0 } else { 2 }
}

/// How many cells remain before the border of the map when walking in direction `di`,
/// counting the current one.
pub open spec fn room(map: BitGrid, di: nat, x: int, y: int) -> int {
    let (dx, dy) = step_of(di);
    if dx < 0 { x + 1 }
    else if dx > 0 { map.spec_width() - x }
    else if dy < 0 { y + 1 }
    else { map.spec_height() - y }
}

/// The encoded cardinal jump from `(x, y)` in direction `di` (0..4): `2 * distance + 1` when the
/// jump ends next to a jump point, `2 * distance` when it ends at a wall, 0 when blocked at once.
pub open spec fn ortho_jump(map: BitGrid, di: nat, x: int, y: int) -> nat
    decreases (if in_map(map.spec_width(), map.spec_height(), x, y) { room(map, di, x, y) } else { 0 }),
{
    if !in_map(map.spec_width(), map.spec_height(), x, y) || di >= 4 {
        0
    } else {
        let nb = neighborhood_bits(&map, x, y);
        let (dx, dy) = step_of(di);
        if forced_ahead(nb, di) {
            3
        } else if nb & bit_of(di) != 0 {
            if in_map(map.spec_width(), map.spec_height(), x + dx, y + dy) {
                ortho_jump(map, di, x + dx, y + dy) + 2
            } else {
                2
            }
        } else {
            0
        }
    }
}

/// The encoded diagonal jump from `(x, y)` in diagonal direction `di` (4..8): the next cell is
/// a jump point when one of its cardinal jumps along the components of `di` ends next to one.
pub open spec fn diag_jump(map: BitGrid, di: nat, x: int, y: int) -> nat
    decreases (if in_map(map.spec_width(), map.spec_height(), x, y) { room(map, di, x, y) } else { 0 }),
{
    if !in_map(map.spec_width(), map.spec_height(), x, y) || di < 4 || di >= 8 {
        0
    } else {
        let nb = neighborhood_bits(&map, x, y);
        let (dx, dy) = step_of(di);
        let need = bit_of(x_part(di)) | bit_of(y_part(di)) | bit_of(di);
        if nb & need == need {
            if !in_map(map.spec_width(), map.spec_height(), x + dx, y + dy) {
                2
            } else if ortho_jump(map, x_part(di), x + dx, y + dy) % 2 == 1
                || ortho_jump(map, y_part(di), x + dx, y + dy) % 2 == 1 {
                3
            } else {
                diag_jump(map, di, x + dx, y + dy) + 2
            }
        } else {
            0
        }
    }
}

/// The encoded jump from `(x, y)` in direction index `di`.
pub open spec fn jump_entry(map: BitGrid, di: nat, x: int, y: int) -> nat {
    if di < 4 { ortho_jump(map, di, x, y) } else { diag_jump(map, di, x, y) }
}

/// Bit `di` of the neighbourhood of `(x, y)` tells whether the neighbour in that direction is
/// traversable.
pub proof fn lemma_nb_bit(map: BitGrid, x: int, y: int, di: nat)
    requires
        di < 8,
    ensures
        (neighborhood_bits(&map, x, y) & bit_of(di) != 0) == map.cell(x + step_of(di).0, y + step_of(di).1),
{
    let c0 = map.cell(x, y - 1);
    let c1 = map.cell(x - 1, y);
    let c2 = map.cell(x, y + 1);
    let c3 = map.cell(x + 1, y);
    let c4 = map.cell(x - 1, y - 1);
    let c5 = map.cell(x - 1, y + 1);
    let c6 = map.cell(x + 1, y + 1);
    let c7 = map.cell(x + 1, y - 1);
    let nb = neighborhood_bits(&map, x, y);
    let b = bit_of(di);
    assert(nb == (if c0 { 1u8 } else { 0u8 }) | (if c1 { 2u8 } else { 0u8 }) | (if c2 { 4u8 } else { 0u8 })
        | (if c3 { 8u8 } else { 0u8 }) | (if c4 { 16u8 } else { 0u8 }) | (if c5 { 32u8 } else { 0u8 })
        | (if c6 { 64u8 } else { 0u8 }) | (if c7 { 128u8 } else { 0u8 }));
    assert(nb == (if c0 { 1u8 } else { 0u8 }) | (if c1 { 2u8 } else { 0u8 }) | (if c2 { 4u8 } else { 0u8 })
        | (if c3 { 8u8 } else { 0u8 }) | (if c4 { 16u8 } else { 0u8 }) | (if c5 { 32u8 } else { 0u8 })
        | (if c6 { 64u8 } else { 0u8 }) | (if c7 { 128u8 } else { 0u8 }) ==> (nb & 1u8 != 0) == c0 && (nb
        & 2u8 != 0) == c1 && (nb & 4u8 != 0) == c2 && (nb & 8u8 != 0) == c3 && (nb & 16u8 != 0) == c4 && (
    nb & 32u8 != 0) == c5 && (nb & 64u8 != 0) == c6 && (nb & 128u8 != 0) == c7) by (bit_vector);
}

/// A jump never leaves the map, so its encoding fits in 16 bits on maps of at most 32768
/// cells a side.
pub proof fn lemma_jump_bound(map: BitGrid, di: nat, x: int, y: int)
    requires
        map.wf(),
        di < 8,
        in_map(map.spec_width(), map.spec_height(), x, y),
    ensures
        jump_entry(map, di, x, y) <= 2 * room(map, di, x, y) - 1,
        room(map, di, x, y) >= 1,
    decreases room(map, di, x, y),
{
    let (dx, dy) = step_of(di);
    let nb = neighborhood_bits(&map, x, y);
    lemma_nb_bit(map, x, y, di);
    let nx = x + dx;
    let ny = y + dy;
    if nb & bit_of(di) != 0 {
        map.lemma_traversable_in_map(nx, ny);
        lemma_jump_bound(map, di, nx, ny);
    }
    if di < 4 {
        if forced_ahead(nb, di) {
            let b = bit_of(di);
            let n = nb;
            lemma_forced_open(n);
        }
    } else {
        let need = bit_of(x_part(di)) | bit_of(y_part(di)) | bit_of(di);
        let b = bit_of(di);
        let bx = bit_of(x_part(di));
        let by_ = bit_of(y_part(di));
        lemma_need_bit(nb, bx, by_, b);
    }
}

/// Position of the entry of cell `(x, y)` and direction index `di` in a database of width `w`.
pub open spec fn db_index(w: int, x: int, y: int, di: int) -> int {
    (y * w + x) * 8 + di
}

proof fn lemma_db_index(w: int, h: int, x: int, y: int, di: int, x2: int, y2: int, di2: int)
    requires
        0 <= x < w,
        0 <= y < h,
        0 <= di < 8,
        0 <= x2 < w,
        0 <= y2 < h,
        0 <= di2 < 8,
    ensures
        0 <= db_index(w, x, y, di) < w * h * 8,
        db_index(w, x, y, di) == db_index(w, x2, y2, di2) ==> x == x2 && y == y2 && di == di2,
{
    assert(0 <= y * w + x < w * h) by (nonlinear_arith)
        requires
            0 <= x < w,
            0 <= y < h,
    ;
    assert(w * h * 8 == (w * h) * 8);
    if db_index(w, x, y, di) == db_index(w, x2, y2, di2) {
        let c = y * w + x;
        let c2 = y2 * w + x2;
        assert(c == c2 && di == di2);
        if y < y2 {
            assert((y + 1) * w <= y2 * w) by (nonlinear_arith)
                requires
                    y + 1 <= y2,
                    w >= 0,
            ;
            assert((y + 1) * w == y * w + w) by (nonlinear_arith);
        } else if y > y2 {
            assert((y2 + 1) * w <= y * w) by (nonlinear_arith)
                requires
                    y2 + 1 <= y,
                    w >= 0,
            ;
            assert((y2 + 1) * w == y2 * w + w) by (nonlinear_arith);
        }
    }
}

/// The sweep that fills direction index `di`: 0 for N and W, 1 for S and E, 2 for NW and NE,
/// 3 for SW and SE.
pub open spec fn stage_of(di: nat) -> nat {
    if di <= 1 { 0 } else if di <= 3 { 1 } else if di == 4 || di == 7 { 2 } else { 3 }
}

/// Whether cell `(x, y)` comes before the cell `(cx, cy)` in the scan order of a sweep: row by
/// row from the top left for even sweeps, from the bottom right for odd ones.
pub open spec fn scanned_before(stage: nat, x: int, y: int, cx: int, cy: int) -> bool {
    if stage % 2 == 0 {
        y < cy || (y == cy && x < cx)
    } else {
        y > cy || (y == cy && x > cx)
    }
}

/// The database entries so far when sweep `stage` is about to handle cell `(cx, cy)`: entries
/// of earlier sweeps and of cells already scanned are final, all others are still 0.
pub open spec fn db_state(map: BitGrid, db: Seq<u16>, stage: nat, cx: int, cy: int) -> bool {
    let w = map.spec_width();
    let h = map.spec_height();
    &&& db.len() == w * h * 8
    &&& forall|x: int, y: int, di: int|
        in_map(w, h, x, y) && 0 <= di < 8 ==> #[trigger] db[db_index(w, x, y, di)] == if stage_of(
            di as nat,
        ) < stage || (stage_of(di as nat) == stage && scanned_before(stage, x, y, cx, cy)) {
            jump_entry(map, di as nat, x, y) as u16
        } else {
            0u16
        }
}

/// The entries that the entry of direction `di` at `(x, y)` is computed from are final.
pub open spec fn deps_ready(map: BitGrid, db: Seq<u16>, di: nat, x: int, y: int) -> bool {
    let w = map.spec_width();
    let h = map.spec_height();
    let (dx, dy) = step_of(di);
    in_map(w, h, x + dx, y + dy) ==> {
        if di < 4 {
            db[db_index(w, x + dx, y + dy, di as int)] == ortho_jump(map, di, x + dx, y + dy) as u16
        } else {
            &&& db[db_index(w, x + dx, y + dy, x_part(di) as int)] == ortho_jump(map, x_part(di), x + dx, y + dy) as u16
            &&& db[db_index(w, x + dx, y + dy, y_part(di) as int)] == ortho_jump(map, y_part(di), x + dx, y + dy) as u16
            &&& db[db_index(w, x + dx, y + dy, di as int)] == diag_jump(map, di, x + dx, y + dy) as u16
        }
    }
}

/// A jump database that is consistent with one map.
pub struct JumpDatabase {
    width: i32,
    height: i32,
    db: Vec<u16>,
}

/// Computes the entry of direction index `di` at `(x, y)` from its neighbour's entries.
fn fill(map: &BitGrid, db: &mut Vec<u16>, di: usize, x: i32, y: i32)
    requires
        map.wf(),
        di < 8,
        map.spec_width() <= MAX_DB_SIDE,
        map.spec_height() <= MAX_DB_SIDE,
        in_map(map.spec_width(), map.spec_height(), x as int, y as int),
        old(db)@.len() == map.spec_width() * map.spec_height() * 8,
        deps_ready(*map, old(db)@, di as nat, x as int, y as int),
    ensures
        final(db)@ == old(db)@.update(
            db_index(map.spec_width(), x as int, y as int, di as int),
            jump_entry(*map, di as nat, x as int, y as int) as u16,
        ),
{
    let ghost m = *map;
    let w = map.width();
    let h = map.height();
    let nb = map.get_neighborhood(x, y).bits;
    let (dx, dy): (i32, i32) = match di {
        0 => (0, -1),
        1 => (-1, 0),
        2 => (0, 1),
        3 => (1, 0),
        4 => (-1, -1),
        5 => (-1, 1),
        6 => (1, 1),
        _ => (1, -1),
    };
    let bit: u8 = match di {
        0 => N,
        1 => W,
        2 => S,
        3 => E,
        4 => NW,
        5 => SW,
        6 => SE,
        _ => NE,
    };
    proof {
        lemma_nb_bit(m, x as int, y as int, di as nat);
        lemma_jump_bound(m, di as nat, x as int, y as int);
    }
    let nx = x + dx;
    let ny = y + dy;
    let ghost at = db_index(w as int, x as int, y as int, di as int);
    proof {
        lemma_db_index(w as int, h as int, x as int, y as int, di as int, x as int, y as int, di as int);
    }
    let _len = db.len();
    proof {
        assert(0 <= (y as int) * (w as int) <= (y as int) * (w as int) + (x as int)) by (nonlinear_arith)
            requires
                0 <= y,
                0 <= w,
                0 <= x,
        ;
    }
    let at_x = ((y as usize) * (w as usize) + (x as usize)) * 8 + di;
    let value: u16 = if di < 4 {
        let forced = match di {
            0 => nb & (N | NW | W) == N | NW || nb & (N | NE | E) == N | NE,
            1 => nb & (W | NW | N) == W | NW || nb & (W | SW | S) == W | SW,
            2 => nb & (S | SW | W) == S | SW || nb & (S | SE | E) == S | SE,
            _ => nb & (E | NE | N) == E | NE || nb & (E | SE | S) == E | SE,
        };
        if forced {
            3
        } else if nb & bit != 0 {
            proof {
                m.lemma_traversable_in_map(nx as int, ny as int);
                lemma_db_index(w as int, h as int, nx as int, ny as int, di as int, nx as int, ny as int, di as int);
                lemma_jump_bound(m, di as nat, nx as int, ny as int);
            }
            proof {
                assert(0 <= (ny as int) * (w as int) <= (ny as int) * (w as int) + (nx as int)) by (nonlinear_arith)
                    requires
                        0 <= ny,
                        0 <= w,
                        0 <= nx,
                ;
            }
            let prev = db[((ny as usize) * (w as usize) + (nx as usize)) * 8 + di];
            prev + 2
        } else {
            0
        }
    } else {
        let (px, py): (usize, usize) = match di {
            4 => (1, 0),
            5 => (1, 2),
            6 => (3, 2),
            _ => (3, 0),
        };
        let need = match di {
            4 => W | N | NW,
            5 => W | S | SW,
            6 => E | S | SE,
            _ => E | N | NE,
        };
        if nb & need == need {
            proof {
                let bx = bit_of(x_part(di as nat));
                let by_ = bit_of(y_part(di as nat));
                lemma_need_bit(nb, bx, by_, bit);
                m.lemma_traversable_in_map(nx as int, ny as int);
                lemma_db_index(w as int, h as int, nx as int, ny as int, di as int, nx as int, ny as int, di as int);
                lemma_db_index(w as int, h as int, nx as int, ny as int, px as int, nx as int, ny as int, px as int);
                lemma_db_index(w as int, h as int, nx as int, ny as int, py as int, nx as int, ny as int, py as int);
                lemma_jump_bound(m, di as nat, nx as int, ny as int);
            }
            proof {
                assert(0 <= (ny as int) * (w as int) <= (ny as int) * (w as int) + (nx as int)) by (nonlinear_arith)
                    requires
                        0 <= ny,
                        0 <= w,
                        0 <= nx,
                ;
            }
            let base = ((ny as usize) * (w as usize) + (nx as usize)) * 8;
            let ex = db[base + px];
            let ey = db[base + py];
            proof {
                lemma_u16_parity(ex);
                lemma_u16_parity(ey);
                lemma_jump_bound(m, px as nat, nx as int, ny as int);
                lemma_jump_bound(m, py as nat, nx as int, ny as int);
            }
            if ex & 1 != 0 || ey & 1 != 0 {
                3
            } else {
                db[base + di] + 2
            }
        } else {
            0
        }
    };
    db.set(at_x, value);
}

/// The two direction indices filled by sweep `stage`.
pub open spec fn stage_dirs(stage: nat) -> (nat, nat) {
    if stage == 0 { (0, 1) } else if stage == 1 { (2, 3) } else if stage == 2 { (4, 7) } else { (5, 6) }
}

/// Fills the entries of sweep `stage` at `(x, y)`, the next cell in scan order.
fn step(map: &BitGrid, db: &mut Vec<u16>, stage: usize, x: i32, y: i32)
    requires
        map.wf(),
        stage < 4,
        map.spec_width() <= MAX_DB_SIDE,
        map.spec_height() <= MAX_DB_SIDE,
        in_map(map.spec_width(), map.spec_height(), x as int, y as int),
        db_state(*map, old(db)@, stage as nat, x as int, y as int),
    ensures
        db_state(*map, final(db)@, stage as nat, x + if stage % 2 == 0 { 1int } else { -1int }, y as int),
{
    let ghost m = *map;
    let ghost w = map.spec_width();
    let ghost h = map.spec_height();
    let (d1, d2): (usize, usize) = match stage {
        0 => (0, 1),
        1 => (2, 3),
        2 => (4, 7),
        _ => (5, 6),
    };
    let ghost db0 = db@;
    proof {
        assert(stage_of(d1 as nat) == stage && stage_of(d2 as nat) == stage);
        assert forall|d: nat| d == d1 || d == d2 implies deps_ready(m, db0, d, x as int, y as int) by {
            let (dx, dy) = step_of(d);
            let nx = x + dx;
            let ny = y + dy;
            if in_map(w, h, nx, ny) {
                assert(scanned_before(stage as nat, nx, ny, x as int, y as int));
                assert(db0[db_index(w, nx, ny, d as int)] == jump_entry(m, d, nx, ny) as u16);
                if d >= 4 {
                    assert(stage_of(x_part(d)) < stage);
                    assert(stage_of(y_part(d)) < stage);
                    assert(db0[db_index(w, nx, ny, x_part(d) as int)] == jump_entry(m, x_part(d), nx, ny) as u16);
                    assert(db0[db_index(w, nx, ny, y_part(d) as int)] == jump_entry(m, y_part(d), nx, ny) as u16);
                }
            }
        }
        assert(deps_ready(m, db0, d1 as nat, x as int, y as int));
        assert(deps_ready(m, db0, d2 as nat, x as int, y as int));
    }
    proof {
        lemma_db_index(w, h, x as int, y as int, d1 as int, x as int, y as int, d1 as int);
        lemma_db_index(w, h, x as int, y as int, d2 as int, x as int, y as int, d2 as int);
    }
    fill(map, db, d1, x, y);
    let ghost db1 = db@;
    proof {
        let i1 = db_index(w, x as int, y as int, d1 as int);
        assert(db1.len() == db0.len());
        let (dx, dy) = step_of(d2 as nat);
        let nx = x + dx;
        let ny = y + dy;
        if in_map(w, h, nx, ny) {
            assert(nx != x || ny != y);
            assert forall|d: int| 0 <= d < 8 implies db1[db_index(w, nx, ny, d)] == db0[db_index(w, nx, ny, d)] by {
                lemma_db_index(w, h, x as int, y as int, d1 as int, nx, ny, d);
                lemma_db_index(w, h, nx, ny, d, nx, ny, d);
                assert(db_index(w, nx, ny, d) != i1);
                assert(0 <= db_index(w, nx, ny, d) < db0.len());
            }
        }
        assert(deps_ready(m, db1, d2 as nat, x as int, y as int));
    }
    fill(map, db, d2, x, y);
    proof {
        let nxt = x + if stage % 2 == 0 { 1int } else { -1int };
        let db2 = db@;
        let i1 = db_index(w, x as int, y as int, d1 as int);
        let i2 = db_index(w, x as int, y as int, d2 as int);
        assert forall|x2: int, y2: int, di: int|
            in_map(w, h, x2, y2) && 0 <= di < 8 implies #[trigger] db2[db_index(w, x2, y2, di)] == if stage_of(
                di as nat,
            ) < stage || (stage_of(di as nat) == stage && scanned_before(stage as nat, x2, y2, nxt, y as int)) {
                jump_entry(m, di as nat, x2, y2) as u16
            } else {
                0u16
            } by {
            lemma_db_index(w, h, x as int, y as int, d1 as int, x2, y2, di);
            lemma_db_index(w, h, x as int, y as int, d2 as int, x2, y2, di);
            if x2 == x && y2 == y {
                if di != d1 && di != d2 {
                    assert(stage_of(di as nat) != stage);
                }
            } else {
                lemma_db_index(w, h, x2, y2, di, x2, y2, di);
                assert(db_index(w, x2, y2, di) != i1);
                assert(db_index(w, x2, y2, di) != i2);
                assert(db2[db_index(w, x2, y2, di)] == db0[db_index(w, x2, y2, di)]);
            }
        }
    }
}

/// Runs sweep `stage` over the whole map.
fn sweep(map: &BitGrid, db: &mut Vec<u16>, stage: usize)
    requires
        map.wf(),
        stage < 4,
        map.spec_width() <= MAX_DB_SIDE,
        map.spec_height() <= MAX_DB_SIDE,
        db_state(
            *map,
            old(db)@,
            stage as nat,
            if stage % 2 == 0 { 0 } else { map.spec_width() - 1 },
            if stage % 2 == 0 { 0 } else { map.spec_height() - 1 },
        ),
    ensures
        db_state(
            *map,
            final(db)@,
            (stage + 1) as nat,
            if (stage + 1) % 2 == 0 { 0 } else { map.spec_width() - 1 },
            if (stage + 1) % 2 == 0 { 0 } else { map.spec_height() - 1 },
        ),
{
    let ghost m = *map;
    let w = map.width();
    let h = map.height();
    if stage % 2 == 0 {
        let mut y: i32 = 0;
        while y < h
            invariant
                map.wf(),
                m == *map,
                w == m.spec_width(),
                h == m.spec_height(),
                stage < 4,
                stage % 2 == 0,
                m.spec_width() <= MAX_DB_SIDE,
                m.spec_height() <= MAX_DB_SIDE,
                0 <= w,
                0 <= y <= h,
                db_state(m, db@, stage as nat, 0, y as int),
            decreases h - y,
        {
            let mut x: i32 = 0;
            while x < w
                invariant
                    map.wf(),
                    m == *map,
                    w == m.spec_width(),
                    h == m.spec_height(),
                    stage < 4,
                    stage % 2 == 0,
                    m.spec_width() <= MAX_DB_SIDE,
                    m.spec_height() <= MAX_DB_SIDE,
                    0 <= w,
                    0 <= y < h,
                    0 <= x <= w,
                    db_state(m, db@, stage as nat, x as int, y as int),
                decreases w - x,
            {
                step(map, db, stage, x, y);
                x = x + 1;
            }
            proof {
                lemma_state_next_row(m, db@, stage as nat, y as int);
            }
            y = y + 1;
        }
        proof {
            lemma_state_next_stage(m, db@, stage as nat);
        }
    } else {
        let mut y: i32 = h - 1;
        while y >= 0
            invariant
                map.wf(),
                m == *map,
                w == m.spec_width(),
                h == m.spec_height(),
                stage < 4,
                stage % 2 == 1,
                m.spec_width() <= MAX_DB_SIDE,
                m.spec_height() <= MAX_DB_SIDE,
                0 <= w <= MAX_DB_SIDE,
                -1 <= y < h,
                db_state(m, db@, stage as nat, w - 1, y as int),
            decreases y + 1,
        {
            let mut x: i32 = w - 1;
            while x >= 0
                invariant
                    map.wf(),
                    m == *map,
                    w == m.spec_width(),
                    h == m.spec_height(),
                    stage < 4,
                    stage % 2 == 1,
                    m.spec_width() <= MAX_DB_SIDE,
                    m.spec_height() <= MAX_DB_SIDE,
                    0 <= w,
                    0 <= y < h,
                    -1 <= x < w,
                    db_state(m, db@, stage as nat, x as int, y as int),
                decreases x + 1,
            {
                step(map, db, stage, x, y);
                x = x - 1;
            }
            proof {
                lemma_state_next_row(m, db@, stage as nat, y as int);
            }
            y = y - 1;
        }
        proof {
            lemma_state_next_stage(m, db@, stage as nat);
        }
    }
}

/// A finished row of a sweep is the start of the next row.
proof fn lemma_state_next_row(m: BitGrid, db: Seq<u16>, stage: nat, y: int)
    requires
        stage % 2 == 0 ==> db_state(m, db, stage, m.spec_width(), y),
        stage % 2 == 1 ==> db_state(m, db, stage, -1, y),
    ensures
        stage % 2 == 0 ==> db_state(m, db, stage, 0, y + 1),
        stage % 2 == 1 ==> db_state(m, db, stage, m.spec_width() - 1, y - 1),
{
    let w = m.spec_width();
    let h = m.spec_height();
    let (cx, cy, nx, ny) = if stage % 2 == 0 { (w, y, 0, y + 1) } else { (-1, y, w - 1, y - 1) };
    assert forall|x2: int, y2: int, di: int| in_map(w, h, x2, y2) && 0 <= di < 8 implies #[trigger] db[db_index(
        w,
        x2,
        y2,
        di,
    )] == if stage_of(di as nat) < stage || (stage_of(di as nat) == stage && scanned_before(
        stage,
        x2,
        y2,
        nx,
        ny,
    )) {
        jump_entry(m, di as nat, x2, y2) as u16
    } else {
        0u16
    } by {
        assert(scanned_before(stage, x2, y2, nx, ny) == scanned_before(stage, x2, y2, cx, cy));
    }
}

/// A finished sweep is the start of the next one.
proof fn lemma_state_next_stage(m: BitGrid, db: Seq<u16>, stage: nat)
    requires
        stage % 2 == 0 ==> db_state(m, db, stage, 0, m.spec_height()),
        stage % 2 == 1 ==> db_state(m, db, stage, m.spec_width() - 1, -1),
    ensures
        db_state(
            m,
            db,
            stage + 1,
            if (stage + 1) % 2 == 0 { 0 } else { m.spec_width() - 1 },
            if (stage + 1) % 2 == 0 { 0 } else { m.spec_height() - 1 },
        ),
{
}

/// Every entry of a finished database is its jump.
pub open spec fn db_complete(map: BitGrid, db: Seq<u16>) -> bool {
    let w = map.spec_width();
    let h = map.spec_height();
    &&& db.len() == w * h * 8
    &&& forall|x: int, y: int, di: int|
        in_map(w, h, x, y) && 0 <= di < 8 ==> #[trigger] db[db_index(w, x, y, di)]
            == jump_entry(map, di as nat, x, y) as u16
}

impl JumpDatabase {
    /// The entries of the database.
    pub closed spec fn entries(&self) -> Seq<u16> {
        self.db@
    }

    /// Width of the map the database was built for.
    pub closed spec fn spec_width(&self) -> int {
        self.width as int
    }

    /// Height of the map the database was built for.
    pub closed spec fn spec_height(&self) -> int {
        self.height as int
    }

    /// Whether the database holds the jumps of `map`.
    pub open spec fn matches(&self, map: BitGrid) -> bool {
        &&& self.spec_width() == map.spec_width()
        &&& self.spec_height() == map.spec_height()
        &&& self.spec_width() <= MAX_DB_SIDE
        &&& self.spec_height() <= MAX_DB_SIDE
        &&& db_complete(map, self.entries())
    }

    /// Computes the jumps of every cell of `map` in every direction.
    pub fn new(map: &BitGrid) -> (db: JumpDatabase)
        requires
            map.wf(),
            map.spec_width() <= MAX_DB_SIDE,
            map.spec_height() <= MAX_DB_SIDE,
            map.spec_width() * map.spec_height() * 8 <= usize::MAX,
        ensures
            db.matches(*map),
    {
        let w = map.width();
        let h = map.height();
        proof {
            assert(0 <= (w as int) * (h as int) <= 0x4000_0000) by (nonlinear_arith)
                requires
                    0 <= w <= 0x8000,
                    0 <= h <= 0x8000,
            ;
        }
        let n = (w as usize) * (h as usize) * 8;
        let mut db: Vec<u16> = vec![0u16; n];
        proof {
            assert forall|x: int, y: int, di: int| in_map(w as int, h as int, x, y) && 0 <= di < 8 implies
                #[trigger] db@[db_index(w as int, x, y, di)] == 0u16 by {
                lemma_db_index(w as int, h as int, x, y, di, x, y, di);
            }
        }
        sweep(map, &mut db, 0);
        sweep(map, &mut db, 1);
        sweep(map, &mut db, 2);
        sweep(map, &mut db, 3);
        JumpDatabase { width: w, height: h, db }
    }

    /// Width of the map the database was built for.
    pub fn width(&self) -> (r: i32)
        ensures
            r == self.spec_width(),
    {
        self.width
    }

    /// Height of the map the database was built for.
    pub fn height(&self) -> (r: i32)
        ensures
            r == self.spec_height(),
    {
        self.height
    }

    /// The jump from `(x, y)` in direction `dir`: its distance, and whether it ends next to a
    /// jump point. A distance of 0 without a jump point means the move is blocked.
    pub fn get(&self, map: &BitGrid, x: i32, y: i32, dir: Direction) -> (r: (i32, bool))
        requires
            map.wf(),
            self.matches(*map),
            in_map(self.spec_width(), self.spec_height(), x as int, y as int),
        ensures
            r.0 == jump_entry(*map, dir_index(dir), x as int, y as int) / 2,
            r.1 == (jump_entry(*map, dir_index(dir), x as int, y as int) % 2 == 1),
    {
        let w = self.width;
        let h = self.height;
        let di = dir.index();
        proof {
            lemma_db_index(w as int, h as int, x as int, y as int, di as int, x as int, y as int, di as int);
            lemma_jump_bound(*map, di as nat, x as int, y as int);
            assert(0 <= (y as int) * (w as int) <= (y as int) * (w as int) + (x as int)) by (nonlinear_arith)
                requires
                    0 <= y,
                    0 <= w,
                    0 <= x,
            ;
        }
        let _len = self.db.len();
        let raw = self.db[((y as usize) * (w as usize) + (x as usize)) * 8 + di];
        proof {
            assert(raw == self.db@[db_index(w as int, x as int, y as int, di as int)]);
            assert(raw as nat == jump_entry(*map, di as nat, x as int, y as int));
            lemma_u16_parity(raw);
        }
        ((raw >> 1) as i32, raw & 1 != 0)
    }

    /// The end of a cardinal jump from `(x, y)` in direction `dir` that stops at `target` when
    /// it passes over it.
    pub fn ortho_jump_unchecked(&self, map: &BitGrid, x: i32, y: i32, dir: Direction, target: (i32, i32)) -> (r: Option<i32>)
        requires
            map.wf(),
            self.matches(*map),
            in_map(self.spec_width(), self.spec_height(), x as int, y as int),
            dir_index(dir) < 4,
        ensures
            r == spec_ortho_target_jump(jump_entry(*map, dir_index(dir), x as int, y as int), dir, x as int, y as int, target.0 as int, target.1 as int),
    {
        let (dist, successor) = self.get(map, x, y, dir);
        proof {
            lemma_jump_bound(*map, dir_index(dir), x as int, y as int);
        }
        let hit = match dir {
            Direction::North => if x == target.0 && y > target.1 && y - dist <= target.1 { Some(y - target.1) } else { None },
            Direction::West => if y == target.1 && x > target.0 && x - dist <= target.0 { Some(x - target.0) } else { None },
            Direction::South => if x == target.0 && y < target.1 && y + dist >= target.1 { Some(target.1 - y) } else { None },
            _ => if y == target.1 && x < target.0 && x + dist >= target.0 { Some(target.0 - x) } else { None },
        };
        match hit {
            Some(d) => Some(d),
            None => if successor { Some(dist) } else { None },
        }
    }

    fn entry_or_zero(&self, map: &BitGrid, dir: Direction, x: i32, y: i32) -> (r: i32)
        requires
            map.wf(),
            self.matches(*map),
        ensures
            r == entry_or_zero(*map, dir, x as int, y as int) / 2,
    {
        if x >= 0 && y >= 0 && x < self.width && y < self.height {
            self.get(map, x, y, dir).0
        } else {
            0
        }
    }

    /// A diagonal jump from `(x, y)` in diagonal direction `dir` that watches for `target`
    /// (see [`spec_diag_target_jump`]).
    #[verifier::rlimit(100)]
    pub fn diagonal_jump_unchecked(&self, map: &BitGrid, x: i32, y: i32, dir: Direction, target: (i32, i32)) -> (r: Option<(i32, Option<(Direction, i32)>)>)
        requires
            map.wf(),
            self.matches(*map),
            in_map(self.spec_width(), self.spec_height(), x as int, y as int),
            dir_index(dir) >= 4,
        ensures
            r == spec_diag_target_jump(*map, dir, x as int, y as int, target.0 as int, target.1 as int),
            r matches Some((d, turn)) ==> 0 <= d <= jump_entry(*map, dir_index(dir), x as int, y as int) / 2
                && (turn matches Some((t, d2)) ==> {
                    let c = crate::jps_plus::diag_cell(dir, x as int, y as int, d as int);
                    &&& dir_index(t) < 4
                    &&& 0 < d2
                    &&& in_map(map.spec_width(), map.spec_height(), c.0, c.1)
                    &&& d2 <= jump_entry(*map, dir_index(t), c.0, c.1) / 2
                }),
    {
        let (dx, dy, dir_x, dir_y): (i32, i32, Direction, Direction) = match dir {
            Direction::NorthWest => (-1, -1, Direction::West, Direction::North),
            Direction::NorthEast => (1, -1, Direction::East, Direction::North),
            Direction::SouthEast => (1, 1, Direction::East, Direction::South),
            _ => (-1, 1, Direction::West, Direction::South),
        };
        let (dist, successor) = self.get(map, x, y, dir);
        proof {
            lemma_jump_bound(*map, dir_index(dir), x as int, y as int);
        }
        let ext: i64 = if successor { dist as i64 } else { dist as i64 + 1 };
        assert(dx == 1 || dx == -1);
        assert(dy == 1 || dy == -1);
        assert(0 <= x < 0x8000 && 0 <= y < 0x8000);
        let (tx, ty): (i64, i64) = (target.0 as i64, target.1 as i64);
        let (xx, yy): (i64, i64) = (x as i64, y as i64);
        let x_target_dist: i64 = if dx > 0 { tx - xx } else { xx - tx };
        let y_target_dist: i64 = if dy > 0 { ty - yy } else { yy - ty };
        proof {
            assert(x_target_dist == dx * (tx - xx)) by (nonlinear_arith)
                requires
                    dx == 1 || dx == -1,
                    x_target_dist == if dx > 0 { tx - xx } else { xx - tx },
            ;
            assert(y_target_dist == dy * (ty - yy)) by (nonlinear_arith)
                requires
                    dy == 1 || dy == -1,
                    y_target_dist == if dy > 0 { ty - yy } else { yy - ty },
            ;
        }
        if x_target_dist > 0 && x_target_dist < ext {
            if x_target_dist == y_target_dist {
                return Some((x_target_dist as i32, None));
            }
            let turn_y: i64 = if dy > 0 { yy + x_target_dist } else { yy - x_target_dist };
            let remaining: i64 = if dy > 0 { ty - turn_y } else { turn_y - ty };
            proof {
                assert(turn_y == yy + dy * x_target_dist) by (nonlinear_arith)
                    requires
                        dy == 1 || dy == -1,
                        turn_y == if dy > 0 { yy + x_target_dist } else { yy - x_target_dist },
                ;
                assert(remaining == dy * (ty - turn_y)) by (nonlinear_arith)
                    requires
                        dy == 1 || dy == -1,
                        remaining == if dy > 0 { ty - turn_y } else { turn_y - ty },
                ;
            }
            if remaining > 0 && remaining <= self.entry_or_zero(map, dir_y, target.0, turn_y as i32) as i64 {
                proof {
                    assert(in_map(map.spec_width(), map.spec_height(), target.0 as int, turn_y as int));
                    assert(crate::jps_plus::diag_cell(dir, x as int, y as int, x_target_dist as int) == (target.0 as int, turn_y as int));
                }
                return Some((x_target_dist as i32, Some((dir_y, remaining as i32))));
            }
        }
        if y_target_dist > 0 && y_target_dist < ext {
            let turn_x: i64 = if dx > 0 { xx + y_target_dist } else { xx - y_target_dist };
            let remaining: i64 = if dx > 0 { tx - turn_x } else { turn_x - tx };
            proof {
                assert(turn_x == xx + dx * y_target_dist) by (nonlinear_arith)
                    requires
                        dx == 1 || dx == -1,
                        turn_x == if dx > 0 { xx + y_target_dist } else { xx - y_target_dist },
                ;
                assert(remaining == dx * (tx - turn_x)) by (nonlinear_arith)
                    requires
                        dx == 1 || dx == -1,
                        remaining == if dx > 0 { tx - turn_x } else { turn_x - tx },
                ;
            }
            if remaining > 0 && remaining <= self.entry_or_zero(map, dir_x, turn_x as i32, target.1) as i64 {
                proof {
                    assert(in_map(map.spec_width(), map.spec_height(), turn_x as int, target.1 as int));
                    assert(crate::jps_plus::diag_cell(dir, x as int, y as int, y_target_dist as int) == (turn_x as int, target.1 as int));
                }
                return Some((y_target_dist as i32, Some((dir_x, remaining as i32))));
            }
        }
        if successor { Some((dist, None)) } else { None }
    }
}

/// A cardinal jump whose encoded entry is `e`, cut short at the target `(tx, ty)` when it lies
/// on the way: the distance to the target, else the distance to the jump point if the jump
/// ends at one, else nothing.
pub open spec fn spec_ortho_target_jump(e: nat, dir: Direction, x: int, y: int, tx: int, ty: int) -> Option<i32> {
    let dist = (e / 2) as int;
    let hit: Option<i32> = match dir {
        Direction::North => if x == tx && y > ty && y - dist <= ty { Some((y - ty) as i32) } else { None },
        Direction::West => if y == ty && x > tx && x - dist <= tx { Some((x - tx) as i32) } else { None },
        Direction::South => if x == tx && y < ty && y + dist >= ty { Some((ty - y) as i32) } else { None },
        _ => if y == ty && x < tx && x + dist >= tx { Some((tx - x) as i32) } else { None },
    };
    match hit {
        Some(d) => Some(d),
        None => if e % 2 == 1 { Some(dist as i32) } else { None },
    }
}

/// The x and y steps, and the cardinal components along x and y, of diagonal direction `dir`.
pub open spec fn diag_parts(dir: Direction) -> (int, int, Direction, Direction) {
    match dir {
        Direction::NorthWest => (-1, -1, Direction::West, Direction::North),
        Direction::NorthEast => (1, -1, Direction::East, Direction::North),
        Direction::SouthEast => (1, 1, Direction::East, Direction::South),
        _ => (-1, 1, Direction::West, Direction::South),
    }
}

/// The encoded jump from `(x, y)` in direction `dir`, or 0 off the map.
pub open spec fn entry_or_zero(map: BitGrid, dir: Direction, x: int, y: int) -> nat {
    if in_map(map.spec_width(), map.spec_height(), x, y) { jump_entry(map, dir_index(dir), x, y) } else { 0 }
}

/// A diagonal jump from `(x, y)` in direction `dir` that watches for the target `(tx, ty)`:
/// when the diagonal passes the target's column (or row) and a cardinal jump from there reaches
/// the target, the result is the distance to the turn, the turn direction and the remaining
/// distance; when the diagonal runs into the target, its distance; otherwise the distance to the
/// next diagonal jump point, if the jump ends at one.
pub open spec fn spec_diag_target_jump(map: BitGrid, dir: Direction, x: int, y: int, tx: int, ty: int) -> Option<(i32, Option<(Direction, i32)>)> {
    let (dx, dy, dir_x, dir_y) = diag_parts(dir);
    let e = jump_entry(map, dir_index(dir), x, y);
    let dist = (e / 2) as int;
    let ext = if e % 2 == 1 { dist } else { dist + 1 };
    let xtd = dx * (tx - x);
    let ytd = dy * (ty - y);
    let turn_y_rem = dy * (ty - (y + dy * xtd));
    let turn_x_rem = dx * (tx - (x + dx * ytd));
    if xtd > 0 && xtd < ext && xtd == ytd {
        Some((xtd as i32, None))
    } else if xtd > 0 && xtd < ext && turn_y_rem > 0
        && turn_y_rem <= entry_or_zero(map, dir_y, tx, y + dy * xtd) / 2 {
        Some((xtd as i32, Some((dir_y, turn_y_rem as i32))))
    } else if ytd > 0 && ytd < ext && turn_x_rem > 0
        && turn_x_rem <= entry_or_zero(map, dir_x, x + dx * ytd, ty) / 2 {
        Some((ytd as i32, Some((dir_x, turn_x_rem as i32))))
    } else if e % 2 == 1 {
        Some((dist as i32, None))
    } else {
        None
    }
}

/// Every cell that a jump passes over, and the cell where it ends, lies in the map; a jump that
/// ends at a jump point moves at least one cell.
pub proof fn lemma_jump_path(map: BitGrid, di: nat, x: int, y: int, k: int)
    requires
        map.wf(),
        di < 8,
        in_map(map.spec_width(), map.spec_height(), x, y),
        0 <= k <= jump_entry(map, di, x, y) / 2,
    ensures
        in_map(map.spec_width(), map.spec_height(), x + step_of(di).0 * k, y + step_of(di).1 * k),
        jump_entry(map, di, x, y) % 2 == 1 ==> jump_entry(map, di, x, y) >= 3,
    decreases room(map, di, x, y),
{
    let (dx, dy) = step_of(di);
    let nb = neighborhood_bits(&map, x, y);
    let nx = x + dx;
    let ny = y + dy;
    lemma_jump_bound(map, di, x, y);
    lemma_nb_bit(map, x, y, di);
    assert(dx * 0 == 0 && dy * 0 == 0);
    if k >= 1 || jump_entry(map, di, x, y) % 2 == 1 {
        // the jump moves, so the next cell is open
        if di < 4 {
            if forced_ahead(nb, di) {
                let n = nb;
                lemma_forced_open(n);
            }
        } else {
            let b = bit_of(di);
            let bx = bit_of(x_part(di));
            let by_ = bit_of(y_part(di));
            lemma_need_bit(nb, bx, by_, b);
        }
        assert(map.cell(nx, ny));
        map.lemma_traversable_in_map(nx, ny);
        if k >= 2 {
            lemma_jump_path(map, di, nx, ny, k - 1);
            assert(nx + dx * (k - 1) == x + dx * k) by (nonlinear_arith)
                requires
                    nx == x + dx,
            ;
            assert(ny + dy * (k - 1) == y + dy * k) by (nonlinear_arith)
                requires
                    ny == y + dy,
            ;
        } else if k == 1 {
            assert(dx * 1 == dx && dy * 1 == dy);
        }
        if in_map(map.spec_width(), map.spec_height(), nx, ny) {
            lemma_jump_path(map, di, nx, ny, 0);
        }
    }
}

proof fn lemma_u16_parity(v: u16)
    by (bit_vector)
    ensures
        (v & 1u16 != 0) == (v % 2 == 1),
        v >> 1u16 == v / 2,
{
}

proof fn lemma_need_bit(nb: u8, bx: u8, by_: u8, b: u8)
    by (bit_vector)
    ensures
        nb & (bx | by_ | b) == bx | by_ | b && b != 0 ==> nb & b != 0,
{
}

/// A forced cardinal move is open ahead.
proof fn lemma_forced_open(n: u8)
    by (bit_vector)
    ensures
        (n & (N | NW | W) == N | NW || n & (N | NE | E) == N | NE) ==> n & N != 0,
        (n & (W | NW | N) == W | NW || n & (W | SW | S) == W | SW) ==> n & W != 0,
        (n & (S | SW | W) == S | SW || n & (S | SE | E) == S | SE) ==> n & S != 0,
        (n & (E | NE | N) == E | NE || n & (E | SE | S) == E | SE) ==> n & E != 0,
{
}

} // verus!
