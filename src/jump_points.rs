//! The independent jump points of a map: the cells where preprocessed oracles are stored.
use vstd::prelude::*;
use crate::bitgrid::{BitGrid, in_map, neighborhood_bits};
use crate::canonical::{canonical_bits, canonical_successors};
use crate::direction::{Direction, DirSet, N, W, S, E, dir_bit, dir_index, spec_backwards, lemma_or_has, lemma_bits_disjoint};
use crate::grid::Grid;
use crate::jps_plus::diag_cell;
use crate::jump_db::{JumpDatabase, jump_entry, lemma_jump_path, room};

verus! {

/// Whether the cell is a jump point for a straight move arriving in direction `dir`: the cell
/// behind is open and the canonical successors hold more than going on straight.
pub open spec fn ortho_jp(nb: u8, dir: Direction) -> bool {
    nb & dir_bit(spec_backwards(dir)) != 0 && canonical_bits(nb, Some(dir)) & !dir_bit(dir) != 0
}

/// The cardinal directions for which traversable cell `(x, y)` is a jump point.
pub open spec fn ortho_jp_bits(map: BitGrid, x: int, y: int) -> u8 {
    let nb = neighborhood_bits(&map, x, y);
    if !map.cell(x, y) {
        0
    } else {
        (if ortho_jp(nb, Direction::North) { N } else { 0u8 })
        | (if ortho_jp(nb, Direction::South) { S } else { 0u8 })
        | (if ortho_jp(nb, Direction::East) { E } else { 0u8 })
        | (if ortho_jp(nb, Direction::West) { W } else { 0u8 })
    }
}

/// Whether `(cx, cy)` is reached by following diagonal jumps in direction `d` from `(x, y)`,
/// as long as each jump ends at a jump point.
pub open spec fn on_ray(map: BitGrid, d: Direction, x: int, y: int, cx: int, cy: int) -> bool
    decreases (if in_map(map.spec_width(), map.spec_height(), x, y) { room(map, dir_index(d), x, y) } else { 0 }),
{
    if !in_map(map.spec_width(), map.spec_height(), x, y) || dir_index(d) < 4 {
        false
    } else {
        let e = jump_entry(map, dir_index(d), x, y);
        let dist = (e / 2) as int;
        if e % 2 == 0 || dist < 1 || dist >= room(map, dir_index(d), x, y) {
            false
        } else {
            let (nx, ny) = diag_cell(d, x, y, dist);
            (nx == cx && ny == cy) || on_ray(map, d, nx, ny, cx, cy)
        }
    }
}

proof fn lemma_ray_moves_on(map: BitGrid, d: Direction, x: int, y: int, cx: int, cy: int)
    requires
        map.wf(),
        on_ray(map, d, x, y, cx, cy),
    ensures
        in_map(map.spec_width(), map.spec_height(), cx, cy),
        room(map, dir_index(d), cx, cy) < room(map, dir_index(d), x, y),
    decreases (if in_map(map.spec_width(), map.spec_height(), x, y) { room(map, dir_index(d), x, y) } else { 0 }),
{
    let e = jump_entry(map, dir_index(d), x, y);
    let dist = (e / 2) as int;
    let (nx, ny) = diag_cell(d, x, y, dist);
    lemma_jump_path(map, dir_index(d), x, y, dist);
    if !(nx == cx && ny == cy) {
        lemma_ray_moves_on(map, d, nx, ny, cx, cy);
    }
}

/// Adds `d` to every cell on the diagonal ray in direction `d` from `(x, y)`.
pub fn collect_diagonal_jps(map: &BitGrid, jump_db: &JumpDatabase, jps: &mut Grid<DirSet>, x: i32, y: i32, d: Direction)
    requires
        map.wf(),
        jump_db.matches(*map),
        old(jps).wf(),
        old(jps).spec_width() == map.spec_width(),
        old(jps).spec_height() == map.spec_height(),
        in_map(map.spec_width(), map.spec_height(), x as int, y as int),
        dir_index(d) >= 4,
    ensures
        final(jps).wf(),
        final(jps).spec_width() == old(jps).spec_width(),
        final(jps).spec_height() == old(jps).spec_height(),
        forall|cx: int, cy: int| in_map(map.spec_width(), map.spec_height(), cx, cy) ==>
            #[trigger] final(jps).at(cx, cy).bits == old(jps).at(cx, cy).bits | if on_ray(*map, d, x as int, y as int, cx, cy) { dir_bit(d) } else { 0u8 },
{
    let ghost m = *map;
    let ghost g0 = *jps;
    let ghost (x0, y0) = (x as int, y as int);
    let mut x = x;
    let mut y = y;
    let mut go = true;
    proof {
        assert forall|cx: int, cy: int| in_map(m.spec_width(), m.spec_height(), cx, cy) implies
            #[trigger] jps.at(cx, cy).bits == g0.at(cx, cy).bits | 0u8 by {
            let v = jps.at(cx, cy).bits;
            assert(v == v | 0u8) by (bit_vector);
        }
    }
    while go
        invariant
            m == *map,
            map.wf(),
            jump_db.matches(m),
            jps.wf(),
            jps.spec_width() == m.spec_width(),
            jps.spec_height() == m.spec_height(),
            in_map(m.spec_width(), m.spec_height(), x as int, y as int),
            dir_index(d) >= 4,
            x0 == x as int && y0 == y as int || on_ray(m, d, x0, y0, x as int, y as int),
            forall|cx: int, cy: int| #[trigger] on_ray(m, d, x as int, y as int, cx, cy) ==> on_ray(m, d, x0, y0, cx, cy),
            go ==> forall|cx: int, cy: int| in_map(m.spec_width(), m.spec_height(), cx, cy) ==>
                #[trigger] jps.at(cx, cy).bits == g0.at(cx, cy).bits | if on_ray(m, d, x0, y0, cx, cy) && !on_ray(m, d, x as int, y as int, cx, cy) { dir_bit(d) } else { 0u8 },
            !go ==> forall|cx: int, cy: int| in_map(m.spec_width(), m.spec_height(), cx, cy) ==>
                #[trigger] jps.at(cx, cy).bits == g0.at(cx, cy).bits | if on_ray(m, d, x0, y0, cx, cy) { dir_bit(d) } else { 0u8 },
        decreases room(m, dir_index(d), x as int, y as int), if go { 1int } else { 0int },
    {
        let (dist, successor) = jump_db.get(map, x, y, d);
        proof {
            crate::jump_db::lemma_jump_bound(m, dir_index(d), x as int, y as int);
            lemma_jump_path(m, dir_index(d), x as int, y as int, 0);
            lemma_jump_path(m, dir_index(d), x as int, y as int, dist as int);
        }
        if !successor {
            proof {
                assert forall|cx: int, cy: int| !on_ray(m, d, x as int, y as int, cx, cy) by {}
            }
            go = false;
        } else {
            let (nx, ny) = match d {
                Direction::NorthWest => (x - dist, y - dist),
                Direction::NorthEast => (x + dist, y - dist),
                Direction::SouthEast => (x + dist, y + dist),
                _ => (x - dist, y + dist),
            };
            proof {
                assert(room(m, dir_index(d), nx as int, ny as int) == room(m, dir_index(d), x as int, y as int) - dist);
                assert(on_ray(m, d, x as int, y as int, nx as int, ny as int));
                assert forall|cx: int, cy: int| on_ray(m, d, x as int, y as int, cx, cy) <==> ((cx == nx && cy == ny) || on_ray(m, d, nx as int, ny as int, cx, cy)) by {}
                if on_ray(m, d, nx as int, ny as int, nx as int, ny as int) {
                    lemma_ray_moves_on(m, d, nx as int, ny as int, nx as int, ny as int);
                }
            }
            let ghost before = *jps;
            let cur = *jps.get(nx, ny);
            jps.set(nx, ny, cur.insert(d));
            proof {
                assert forall|cx: int, cy: int| in_map(m.spec_width(), m.spec_height(), cx, cy) implies
                    #[trigger] jps.at(cx, cy).bits == g0.at(cx, cy).bits | if on_ray(m, d, x0, y0, cx, cy) && !on_ray(m, d, nx as int, ny as int, cx, cy) { dir_bit(d) } else { 0u8 } by {
                    let g = g0.at(cx, cy).bits;
                    let b = dir_bit(d);
                    if cx == nx && cy == ny {
                        assert((g | 0u8) | b == g | b && (g | b) | b == g | b) by (bit_vector);
                    } else {
                        assert(jps.at(cx, cy) == before.at(cx, cy));
                    }
                }
            }
            x = nx;
            y = ny;
        }
    }
}

/// The diagonal moves among the canonical successors of the cardinal jump point directions of
/// `(x, y)`: the diagonal rays that lead to further jump points.
pub open spec fn jp_diag_succ(map: BitGrid, x: int, y: int) -> u8 {
    let nb = neighborhood_bits(&map, x, y);
    ((if ortho_jp(nb, Direction::North) { canonical_bits(nb, Some(Direction::North)) } else { 0u8 })
    | (if ortho_jp(nb, Direction::South) { canonical_bits(nb, Some(Direction::South)) } else { 0u8 })
    | (if ortho_jp(nb, Direction::East) { canonical_bits(nb, Some(Direction::East)) } else { 0u8 })
    | (if ortho_jp(nb, Direction::West) { canonical_bits(nb, Some(Direction::West)) } else { 0u8 })) & 0xf0u8
}

fn ortho_check(nb: DirSet, dir: Direction) -> (r: (u8, u8))
    ensures
        r.0 == if ortho_jp(nb.bits, dir) { dir_bit(dir) } else { 0u8 },
        r.1 == if ortho_jp(nb.bits, dir) { canonical_bits(nb.bits, Some(dir)) } else { 0u8 },
{
    if nb.contains(dir.backwards()) {
        let dirs = canonical_successors(nb, Some(dir));
        if dirs.bits & !dir.bit() != 0 {
            return (dir.bit(), dirs.bits);
        }
    }
    (0, 0)
}

/// The cardinal jump point directions of a traversable cell, and the diagonal rays from it.
fn cell_jump_points(map: &BitGrid, x: i32, y: i32) -> (r: (u8, u8))
    requires
        map.wf(),
        in_map(map.spec_width(), map.spec_height(), x as int, y as int),
        map.cell(x as int, y as int),
    ensures
        r.0 == ortho_jp_bits(*map, x as int, y as int),
        r.1 == jp_diag_succ(*map, x as int, y as int),
{
    let nb = map.get_neighborhood(x, y);
    let (bn, sn) = ortho_check(nb, Direction::North);
    let (bs, ss) = ortho_check(nb, Direction::South);
    let (be, se) = ortho_check(nb, Direction::East);
    let (bw, sw) = ortho_check(nb, Direction::West);
    (bn | bs | be | bw, (sn | ss | se | sw) & 0xf0)
}

/// What the scan has established once it has passed every cell before `(cx, cy)` in row order.
pub open spec fn jps_scanned(map: BitGrid, g: Grid<DirSet>, cx: int, cy: int) -> bool {
    &&& g.wf()
    &&& g.spec_width() == map.spec_width()
    &&& g.spec_height() == map.spec_height()
    &&& forall|x: int, y: int| in_map(map.spec_width(), map.spec_height(), x, y) ==>
        #[trigger] g.at(x, y).bits & 0x0fu8 == if y < cy || (y == cy && x < cx) { ortho_jp_bits(map, x, y) } else { 0u8 }
    &&& forall|sx: int, sy: int, d: Direction, x: int, y: int|
        in_map(map.spec_width(), map.spec_height(), sx, sy) && (sy < cy || (sy == cy && sx < cx))
        && ortho_jp_bits(map, sx, sy) != 0 && jp_diag_succ(map, sx, sy) & dir_bit(d) != 0
        && #[trigger] on_ray(map, d, sx, sy, x, y) ==> #[trigger] g.at(x, y).has(d)
    &&& forall|x: int, y: int, d: Direction|
        in_map(map.spec_width(), map.spec_height(), x, y) && dir_index(d) >= 4 && #[trigger] g.at(x, y).has(d) ==>
        exists|sx: int, sy: int|
            in_map(map.spec_width(), map.spec_height(), sx, sy) && (sy < cy || (sy == cy && sx < cx))
            && ortho_jp_bits(map, sx, sy) != 0 && jp_diag_succ(map, sx, sy) & dir_bit(d) != 0
            && #[trigger] on_ray(map, d, sx, sy, x, y)
}

/// The independent jump points of `map`: each cell holds the cardinal directions for which it
/// is a jump point, and the diagonal directions in which it is reached along a diagonal ray from
/// such a cell. Cells with no direction are not jump points.
pub fn independent_jump_points(map: &BitGrid, jump_db: &JumpDatabase) -> (jps: Grid<DirSet>)
    requires
        map.wf(),
        jump_db.matches(*map),
    ensures
        jps_scanned(*map, jps, 0, map.spec_height()),
{
    let w = map.width();
    let h = map.height();
    let ghost m = *map;
    proof {
        assert(w * h <= 0x4000_0000) by (nonlinear_arith)
            requires
                0 <= w <= 0x8000,
                0 <= h <= 0x8000,
        ;
    }
    let mut jps = Grid::new(w, h, |x: i32, y: i32| -> (r: DirSet)
        ensures
            r.bits == 0,
        { DirSet::empty() });
    proof {
        assert forall|x: int, y: int| in_map(m.spec_width(), m.spec_height(), x, y) implies #[trigger] jps.at(x, y).bits & 0x0fu8 == 0u8 by {
            lemma_zero_bits();
        }
        assert forall|x: int, y: int, d: Direction| in_map(m.spec_width(), m.spec_height(), x, y) implies !#[trigger] jps.at(x, y).has(d) by {
            lemma_or_has(0u8, 0u8, dir_bit(d));
        }
    }
    let mut y: i32 = 0;
    while y < h
        invariant
            m == *map,
            map.wf(),
            jump_db.matches(m),
            w == m.spec_width(),
            h == m.spec_height(),
            0 <= w,
            0 <= y <= h,
            jps_scanned(m, jps, 0, y as int),
        decreases h - y,
    {
        let mut x: i32 = 0;
        while x < w
            invariant
                m == *map,
                map.wf(),
                jump_db.matches(m),
                w == m.spec_width(),
                h == m.spec_height(),
                0 <= y < h,
                0 <= x <= w,
                jps_scanned(m, jps, x as int, y as int),
            decreases w - x,
        {
            let ghost g0 = jps;
            let mut ortho: u8 = 0;
            let mut diag: u8 = 0;
            if map.get(x, y) {
                let r = cell_jump_points(map, x, y);
                ortho = r.0;
                diag = r.1;
            }
            proof {
                if !m.cell(x as int, y as int) {
                    assert(ortho_jp_bits(m, x as int, y as int) == 0);
                }
                let nb = neighborhood_bits(&m, x as int, y as int);
                let o = ortho;
                assert(o == ortho_jp_bits(m, x as int, y as int));
                let a = if ortho_jp(nb, Direction::North) { N } else { 0u8 };
                let b = if ortho_jp(nb, Direction::South) { S } else { 0u8 };
                let c = if ortho_jp(nb, Direction::East) { E } else { 0u8 };
                let dd = if ortho_jp(nb, Direction::West) { W } else { 0u8 };
                assert((a == 0 || a == 1) && (b == 0 || b == 4) && (c == 0 || c == 8) && (dd == 0 || dd == 2) ==> (a | b | c | dd) & 0xf0u8 == 0u8) by (bit_vector);
                if m.cell(x as int, y as int) {
                    assert(o == a | b | c | dd);
                } else {
                    assert(o == 0);
                }
                lemma_zero_bits();
                assert(o & 0xf0u8 == 0u8);
                let z = (if ortho_jp(nb, Direction::North) { canonical_bits(nb, Some(Direction::North)) } else { 0u8 })
                    | (if ortho_jp(nb, Direction::South) { canonical_bits(nb, Some(Direction::South)) } else { 0u8 })
                    | (if ortho_jp(nb, Direction::East) { canonical_bits(nb, Some(Direction::East)) } else { 0u8 })
                    | (if ortho_jp(nb, Direction::West) { canonical_bits(nb, Some(Direction::West)) } else { 0u8 });
                assert((z & 0xf0u8) & 0x0fu8 == 0u8) by (bit_vector);
                assert(diag & 0x0fu8 == 0u8);
            }
            if ortho != 0 {
                let cur = *jps.get(x, y);
                jps.set(x, y, DirSet::from_u8(cur.bits | ortho));
                let ghost g1 = jps;
                proof {
                    assert forall|cx: int, cy: int| in_map(m.spec_width(), m.spec_height(), cx, cy) && !(cx == x && cy == y) implies
                        #[trigger] g1.at(cx, cy) == g0.at(cx, cy) by {}
                    assert forall|cx: int, cy: int| in_map(m.spec_width(), m.spec_height(), cx, cy) implies
                        (#[trigger] g1.at(cx, cy).bits & 0x0fu8 == if cy < y || (cy == y && cx < x + 1) { ortho_jp_bits(m, cx, cy) } else { 0u8 })
                        && (forall|dd: Direction| g0.at(cx, cy).has(dd) ==> g1.at(cx, cy).has(dd)) by {
                        if cx == x && cy == y {
                            let c = cur.bits;
                            let o = ortho;
                            assert(c & 0x0fu8 == 0u8 && o & 0xf0u8 == 0u8 ==> (c | o) & 0x0fu8 == o) by (bit_vector);
                            assert forall|dd: Direction| g0.at(cx, cy).has(dd) implies g1.at(cx, cy).has(dd) by {
                                let b = dir_bit(dd);
                                lemma_or_has(c, o, b);
                            }
                        }
                    }
                }
                mark_rays(map, jump_db, &mut jps, x, y, diag);
                proof {
                    let g2 = jps;
                    assert forall|sx: int, sy: int, d: Direction, cx: int, cy: int|
                        in_map(m.spec_width(), m.spec_height(), sx, sy) && (sy < y || (sy == y && sx < x + 1))
                        && ortho_jp_bits(m, sx, sy) != 0 && jp_diag_succ(m, sx, sy) & dir_bit(d) != 0
                        && #[trigger] on_ray(m, d, sx, sy, cx, cy) implies #[trigger] g2.at(cx, cy).has(d) by {
                        lemma_ray_moves_on(m, d, sx, sy, cx, cy);
                        if !(sx == x && sy == y) {
                            assert(g0.at(cx, cy).has(d));
                            assert(g1.at(cx, cy).has(d));
                        }
                    }
                    assert forall|cx: int, cy: int| in_map(m.spec_width(), m.spec_height(), cx, cy) implies
                        #[trigger] g2.at(cx, cy).bits & 0x0fu8 == if cy < y || (cy == y && cx < x + 1) { ortho_jp_bits(m, cx, cy) } else { 0u8 } by {
                        assert(g1.at(cx, cy).bits & 0x0fu8 == if cy < y || (cy == y && cx < x + 1) { ortho_jp_bits(m, cx, cy) } else { 0u8 });
                    }
                    assert forall|cx: int, cy: int, d: Direction|
                        in_map(m.spec_width(), m.spec_height(), cx, cy) && dir_index(d) >= 4 && #[trigger] g2.at(cx, cy).has(d) implies
                        exists|sx: int, sy: int|
                            in_map(m.spec_width(), m.spec_height(), sx, sy) && (sy < y || (sy == y && sx < x + 1))
                            && ortho_jp_bits(m, sx, sy) != 0 && jp_diag_succ(m, sx, sy) & dir_bit(d) != 0
                            && #[trigger] on_ray(m, d, sx, sy, cx, cy) by {
                        if g1.at(cx, cy).has(d) {
                            if !g0.at(cx, cy).has(d) {
                                assert(cx == x && cy == y);
                                let c = cur.bits;
                                let o = ortho;
                                lemma_bits_disjoint(d, d);
                                lemma_or_has(c, o, dir_bit(d));
                                lemma_or_has(o, 0u8, dir_bit(d));
                                assert(false);
                            }
                            let (sx, sy) = choose|sx: int, sy: int|
                                in_map(m.spec_width(), m.spec_height(), sx, sy) && (sy < y || (sy == y && sx < x))
                                && ortho_jp_bits(m, sx, sy) != 0 && jp_diag_succ(m, sx, sy) & dir_bit(d) != 0
                                && #[trigger] on_ray(m, d, sx, sy, cx, cy);
                            assert(on_ray(m, d, sx, sy, cx, cy));
                        } else {
                            assert(on_ray(m, d, x as int, y as int, cx, cy));
                        }
                    }
                }
            } else {
                proof {
                    assert forall|cx: int, cy: int| in_map(m.spec_width(), m.spec_height(), cx, cy) implies
                        #[trigger] jps.at(cx, cy).bits & 0x0fu8 == if cy < y || (cy == y && cx < x + 1) { ortho_jp_bits(m, cx, cy) } else { 0u8 } by {
                        assert(g0.at(cx, cy).bits & 0x0fu8 == if cy < y || (cy == y && cx < x) { ortho_jp_bits(m, cx, cy) } else { 0u8 });
                    }
                    assert forall|cx: int, cy: int, d: Direction|
                        in_map(m.spec_width(), m.spec_height(), cx, cy) && dir_index(d) >= 4 && #[trigger] jps.at(cx, cy).has(d) implies
                        exists|sx: int, sy: int|
                            in_map(m.spec_width(), m.spec_height(), sx, sy) && (sy < y || (sy == y && sx < x + 1))
                            && ortho_jp_bits(m, sx, sy) != 0 && jp_diag_succ(m, sx, sy) & dir_bit(d) != 0
                            && #[trigger] on_ray(m, d, sx, sy, cx, cy) by {
                        let (sx, sy) = choose|sx: int, sy: int|
                            in_map(m.spec_width(), m.spec_height(), sx, sy) && (sy < y || (sy == y && sx < x))
                            && ortho_jp_bits(m, sx, sy) != 0 && jp_diag_succ(m, sx, sy) & dir_bit(d) != 0
                            && #[trigger] on_ray(m, d, sx, sy, cx, cy);
                        assert(on_ray(m, d, sx, sy, cx, cy));
                    }
                }
            }
            x = x + 1;
        }
        proof {
            assert forall|cx: int, cy: int| in_map(m.spec_width(), m.spec_height(), cx, cy) implies
                #[trigger] jps.at(cx, cy).bits & 0x0fu8 == if cy < y + 1 || (cy == y + 1 && cx < 0) { ortho_jp_bits(m, cx, cy) } else { 0u8 } by {
                assert(jps.at(cx, cy).bits & 0x0fu8 == if cy < y || (cy == y && cx < w) { ortho_jp_bits(m, cx, cy) } else { 0u8 });
            }
            assert forall|sx: int, sy: int, d: Direction, cx: int, cy: int|
                in_map(m.spec_width(), m.spec_height(), sx, sy) && (sy < y + 1 || (sy == y + 1 && sx < 0))
                && ortho_jp_bits(m, sx, sy) != 0 && jp_diag_succ(m, sx, sy) & dir_bit(d) != 0
                && #[trigger] on_ray(m, d, sx, sy, cx, cy) implies #[trigger] jps.at(cx, cy).has(d) by {
                assert(sy < y || (sy == y && sx < w));
            }
            assert forall|cx: int, cy: int, d: Direction|
                in_map(m.spec_width(), m.spec_height(), cx, cy) && dir_index(d) >= 4 && #[trigger] jps.at(cx, cy).has(d) implies
                exists|sx: int, sy: int|
                    in_map(m.spec_width(), m.spec_height(), sx, sy) && (sy < y + 1 || (sy == y + 1 && sx < 0))
                    && ortho_jp_bits(m, sx, sy) != 0 && jp_diag_succ(m, sx, sy) & dir_bit(d) != 0
                    && #[trigger] on_ray(m, d, sx, sy, cx, cy) by {
                let (sx, sy) = choose|sx: int, sy: int|
                    in_map(m.spec_width(), m.spec_height(), sx, sy) && (sy < y || (sy == y && sx < w))
                    && ortho_jp_bits(m, sx, sy) != 0 && jp_diag_succ(m, sx, sy) & dir_bit(d) != 0
                    && #[trigger] on_ray(m, d, sx, sy, cx, cy);
                assert(on_ray(m, d, sx, sy, cx, cy));
            }
        }
        y = y + 1;
    }
    jps
}

fn mark_one(map: &BitGrid, jump_db: &JumpDatabase, jps: &mut Grid<DirSet>, x: i32, y: i32, diag: u8, d: Direction)
    requires
        map.wf(),
        jump_db.matches(*map),
        old(jps).wf(),
        old(jps).spec_width() == map.spec_width(),
        old(jps).spec_height() == map.spec_height(),
        in_map(map.spec_width(), map.spec_height(), x as int, y as int),
        dir_index(d) >= 4,
    ensures
        final(jps).wf(),
        final(jps).spec_width() == old(jps).spec_width(),
        final(jps).spec_height() == old(jps).spec_height(),
        forall|cx: int, cy: int| in_map(map.spec_width(), map.spec_height(), cx, cy) ==> {
            &&& #[trigger] final(jps).at(cx, cy).bits & 0x0fu8 == old(jps).at(cx, cy).bits & 0x0fu8
            &&& forall|dd: Direction| old(jps).at(cx, cy).has(dd) ==> final(jps).at(cx, cy).has(dd)
            &&& diag & dir_bit(d) != 0 && on_ray(*map, d, x as int, y as int, cx, cy) ==> final(jps).at(cx, cy).has(d)
            &&& forall|dd: Direction| final(jps).at(cx, cy).has(dd) ==> old(jps).at(cx, cy).has(dd)
                || (dd == d && diag & dir_bit(d) != 0 && on_ray(*map, d, x as int, y as int, cx, cy))
        },
{
    let ghost g0 = *jps;
    if diag & d.bit() != 0 {
        collect_diagonal_jps(map, jump_db, jps, x, y, d);
    }
    proof {
        assert forall|cx: int, cy: int| in_map(map.spec_width(), map.spec_height(), cx, cy) implies {
            &&& #[trigger] jps.at(cx, cy).bits & 0x0fu8 == g0.at(cx, cy).bits & 0x0fu8
            &&& forall|dd: Direction| g0.at(cx, cy).has(dd) ==> jps.at(cx, cy).has(dd)
            &&& diag & dir_bit(d) != 0 && on_ray(*map, d, x as int, y as int, cx, cy) ==> jps.at(cx, cy).has(d)
            &&& forall|dd: Direction| jps.at(cx, cy).has(dd) ==> g0.at(cx, cy).has(dd)
                || (dd == d && diag & dir_bit(d) != 0 && on_ray(*map, d, x as int, y as int, cx, cy))
        } by {
            let v = g0.at(cx, cy).bits;
            let b = dir_bit(d);
            assert(b == 16 || b == 32 || b == 64 || b == 128);
            assert((b == 16 || b == 32 || b == 64 || b == 128) ==> (v | b) & 0x0fu8 == v & 0x0fu8 && (v | b) & b != 0 && (v | 0u8) == v) by (bit_vector);
            assert forall|dd: Direction| g0.at(cx, cy).has(dd) implies jps.at(cx, cy).has(dd) by {
                let bb = dir_bit(dd);
                lemma_or_has(v, b, bb);
            }
            assert forall|dd: Direction| jps.at(cx, cy).has(dd) implies g0.at(cx, cy).has(dd)
                || (dd == d && diag & dir_bit(d) != 0 && on_ray(*map, d, x as int, y as int, cx, cy)) by {
                let bb = dir_bit(dd);
                lemma_or_has(v, if diag & dir_bit(d) != 0 && on_ray(*map, d, x as int, y as int, cx, cy) { b } else { 0u8 }, bb);
                lemma_or_has(v, 0u8, bb);
                lemma_bits_disjoint(d, dd);
            }
        }
    }
}

fn mark_rays(map: &BitGrid, jump_db: &JumpDatabase, jps: &mut Grid<DirSet>, x: i32, y: i32, diag: u8)
    requires
        map.wf(),
        jump_db.matches(*map),
        old(jps).wf(),
        old(jps).spec_width() == map.spec_width(),
        old(jps).spec_height() == map.spec_height(),
        in_map(map.spec_width(), map.spec_height(), x as int, y as int),
        diag & 0x0fu8 == 0,
    ensures
        final(jps).wf(),
        final(jps).spec_width() == old(jps).spec_width(),
        final(jps).spec_height() == old(jps).spec_height(),
        forall|cx: int, cy: int| in_map(map.spec_width(), map.spec_height(), cx, cy) ==> {
            &&& #[trigger] final(jps).at(cx, cy).bits & 0x0fu8 == old(jps).at(cx, cy).bits & 0x0fu8
            &&& forall|dd: Direction| old(jps).at(cx, cy).has(dd) ==> final(jps).at(cx, cy).has(dd)
            &&& forall|d: Direction| diag & dir_bit(d) != 0 && on_ray(*map, d, x as int, y as int, cx, cy) ==> final(jps).at(cx, cy).has(d)
            &&& forall|d: Direction| final(jps).at(cx, cy).has(d) ==> old(jps).at(cx, cy).has(d)
                || (diag & dir_bit(d) != 0 && on_ray(*map, d, x as int, y as int, cx, cy))
        },
{
    let ghost g0 = *jps;
    mark_one(map, jump_db, jps, x, y, diag, Direction::NorthWest);
    let ghost g1 = *jps;
    mark_one(map, jump_db, jps, x, y, diag, Direction::SouthWest);
    let ghost g2 = *jps;
    mark_one(map, jump_db, jps, x, y, diag, Direction::SouthEast);
    let ghost g3 = *jps;
    mark_one(map, jump_db, jps, x, y, diag, Direction::NorthEast);
    proof {
        assert forall|cx: int, cy: int| in_map(map.spec_width(), map.spec_height(), cx, cy) implies {
            &&& #[trigger] jps.at(cx, cy).bits & 0x0fu8 == g0.at(cx, cy).bits & 0x0fu8
            &&& forall|dd: Direction| g0.at(cx, cy).has(dd) ==> jps.at(cx, cy).has(dd)
            &&& forall|d: Direction| diag & dir_bit(d) != 0 && on_ray(*map, d, x as int, y as int, cx, cy) ==> jps.at(cx, cy).has(d)
            &&& forall|d: Direction| jps.at(cx, cy).has(d) ==> g0.at(cx, cy).has(d)
                || (diag & dir_bit(d) != 0 && on_ray(*map, d, x as int, y as int, cx, cy))
        } by {
            assert(g1.at(cx, cy).bits & 0x0fu8 == g0.at(cx, cy).bits & 0x0fu8);
            assert(g2.at(cx, cy).bits & 0x0fu8 == g1.at(cx, cy).bits & 0x0fu8);
            assert(g3.at(cx, cy).bits & 0x0fu8 == g2.at(cx, cy).bits & 0x0fu8);
            assert forall|dd: Direction| g0.at(cx, cy).has(dd) implies jps.at(cx, cy).has(dd) by {
                assert(g1.at(cx, cy).has(dd));
                assert(g2.at(cx, cy).has(dd));
                assert(g3.at(cx, cy).has(dd));
            }
            assert forall|d: Direction| jps.at(cx, cy).has(d) implies g0.at(cx, cy).has(d)
                || (diag & dir_bit(d) != 0 && on_ray(*map, d, x as int, y as int, cx, cy)) by {
                if !g3.at(cx, cy).has(d) {
                } else if !g2.at(cx, cy).has(d) {
                } else if !g1.at(cx, cy).has(d) {
                }
            }
            assert forall|d: Direction| diag & dir_bit(d) != 0 && on_ray(*map, d, x as int, y as int, cx, cy) implies jps.at(cx, cy).has(d) by {
                let g = diag;
                assert(g & 0x0fu8 == 0u8 ==> g & 1u8 == 0u8 && g & 2u8 == 0u8 && g & 4u8 == 0u8 && g & 8u8 == 0u8) by (bit_vector);
                match d {
                    Direction::NorthWest => {
                        assert(g1.at(cx, cy).has(d));
                        assert(g2.at(cx, cy).has(d));
                        assert(g3.at(cx, cy).has(d));
                    },
                    Direction::SouthWest => {
                        assert(g2.at(cx, cy).has(d));
                        assert(g3.at(cx, cy).has(d));
                    },
                    Direction::SouthEast => {
                        assert(g3.at(cx, cy).has(d));
                    },
                    _ => {},
                }
            }
        }
    }
}

proof fn lemma_zero_bits()
    ensures
        0u8 & 0xf0u8 == 0u8,
        0u8 & 0x0fu8 == 0u8,
{
    assert(0u8 & 0xf0u8 == 0u8 && 0u8 & 0x0fu8 == 0u8) by (bit_vector);
}

} // verus!
