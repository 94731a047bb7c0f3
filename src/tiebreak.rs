//! Tie-breaking of first-move sets at the source of a compressed path database row.
//!
//! When several first moves from a source are optimal towards a target, any of them may be
//! stored. Restricting the set to moves that are canonical for every relevant jump point next
//! to the source lets far more targets share one run.
use vstd::prelude::*;
use crate::canonical::{canonical_bits, canonical_successors, start_rule};
use crate::direction::{
    Direction, DirSet, N, W, S, E, NW, SW, SE, NE, dir_at, dir_bit, dir_index, lemma_dir_bit,
};

verus! {

/// Moves that point back against jump point `jp`: going backwards, a switchback, or a turn from
/// one diagonal to another.
pub open spec fn backward_cone(jp: Direction) -> u8 {
    match jp {
        Direction::North => SW | S | SE,
        Direction::West => NE | E | SE,
        Direction::South => NW | N | NE,
        Direction::East => NW | W | SW,
        Direction::NorthWest => SW | S | SE | E | NE,
        Direction::SouthWest => SE | E | NE | N | NW,
        Direction::SouthEast => NE | N | NW | W | SW,
        Direction::NorthEast => NW | W | SW | S | SE,
    }
}

/// A turn from cardinal jump point `jp` onto a side cardinal move while the diagonal between
/// the side move and the backwards direction is open.
pub open spec fn side_turn(jp: Direction, fm: u8, nb: u8) -> bool {
    match jp {
        Direction::North => (fm & W != 0 && nb & SW != 0) || (fm & E != 0 && nb & SE != 0),
        Direction::West => (fm & S != 0 && nb & SE != 0) || (fm & N != 0 && nb & NE != 0),
        Direction::South => (fm & W != 0 && nb & NW != 0) || (fm & E != 0 && nb & NE != 0),
        Direction::East => (fm & S != 0 && nb & SW != 0) || (fm & N != 0 && nb & NW != 0),
        _ => false,
    }
}

/// Whether jump point `jp` puts no constraint on the first-move set `fm` at a source with
/// neighbourhood `nb`.
pub open spec fn irrelevant(jp: Direction, fm: u8, nb: u8) -> bool {
    canonical_bits(nb, Some(jp)) & fm == 0
    || fm & backward_cone(jp) != 0
    || side_turn(jp, fm, nb)
}

/// The constraint that jump point `jp` puts on `fm`: its canonical successors when `jp` is one
/// of the jump points `jps` and relevant, no constraint otherwise.
pub open spec fn jp_mask(jp: Direction, jps: u8, fm: u8, nb: u8) -> u8 {
    if jps & dir_bit(jp) != 0 && !irrelevant(jp, fm, nb) {
        canonical_bits(nb, Some(jp))
    } else {
        0xffu8
    }
}

/// The combined constraint of the first `k` directions, in the fixed order.
pub open spec fn masks_upto(k: nat, jps: u8, fm: u8, nb: u8) -> u8
    decreases k,
{
    if k == 0 {
        0xffu8
    } else {
        masks_upto((k - 1) as nat, jps, fm, nb) & jp_mask(dir_at((k - 1) as nat), jps, fm, nb)
    }
}

/// The combined constraint of all eight directions.
pub open spec fn all_masks(jps: u8, fm: u8, nb: u8) -> u8 {
    0xffu8
    & jp_mask(Direction::North, jps, fm, nb)
    & jp_mask(Direction::West, jps, fm, nb)
    & jp_mask(Direction::South, jps, fm, nb)
    & jp_mask(Direction::East, jps, fm, nb)
    & jp_mask(Direction::NorthWest, jps, fm, nb)
    & jp_mask(Direction::SouthWest, jps, fm, nb)
    & jp_mask(Direction::SouthEast, jps, fm, nb)
    & jp_mask(Direction::NorthEast, jps, fm, nb)
}

/// The entry of the tie-break table for first-move set `fm`: everything for the empty set,
/// `fm` itself when it holds a move that is not a valid start move, and otherwise `fm`
/// restricted to the canonical successors of every relevant jump point.
pub open spec fn tiebreak_entry(nb: u8, jps: u8, fm: u8) -> u8 {
    if fm == 0 {
        0xffu8
    } else if fm & !start_rule(nb) != 0 {
        fm
    } else {
        fm & all_masks(jps, fm, nb)
    }
}

proof fn lemma_masks_all(jps: u8, fm: u8, nb: u8)
    ensures
        masks_upto(8, jps, fm, nb) == all_masks(jps, fm, nb),
{
    reveal_with_fuel(masks_upto, 9);
}

/// Whether jump point `jp` puts no constraint on the first-move set `fm` at a source with
/// neighbourhood `nb`.
pub fn is_irrelevant_jp(jp: Direction, fm: DirSet, nb: DirSet) -> (r: bool)
    ensures
        r == irrelevant(jp, fm.bits, nb.bits),
{
    let canonical = canonical_successors(nb, Some(jp));
    if canonical.is_disjoint(fm) {
        return true;
    }
    let cone: u8 = match jp {
        Direction::North => SW | S | SE,
        Direction::West => NE | E | SE,
        Direction::South => NW | N | NE,
        Direction::East => NW | W | SW,
        Direction::NorthWest => SW | S | SE | E | NE,
        Direction::SouthWest => SE | E | NE | N | NW,
        Direction::SouthEast => NE | N | NW | W | SW,
        Direction::NorthEast => NW | W | SW | S | SE,
    };
    if !fm.is_disjoint(DirSet::from_u8(cone)) {
        return true;
    }
    match jp {
        Direction::North => (fm.contains(Direction::West) && nb.contains(Direction::SouthWest))
            || (fm.contains(Direction::East) && nb.contains(Direction::SouthEast)),
        Direction::West => (fm.contains(Direction::South) && nb.contains(Direction::SouthEast))
            || (fm.contains(Direction::North) && nb.contains(Direction::NorthEast)),
        Direction::South => (fm.contains(Direction::West) && nb.contains(Direction::NorthWest))
            || (fm.contains(Direction::East) && nb.contains(Direction::NorthEast)),
        Direction::East => (fm.contains(Direction::South) && nb.contains(Direction::SouthWest))
            || (fm.contains(Direction::North) && nb.contains(Direction::NorthWest)),
        _ => false,
    }
}

/// The tie-break table of a source with neighbourhood `nb` and incident jump points `jps`:
/// for each of the 256 first-move sets, the subset of moves to keep.
pub fn compute_tiebreak_table(nb: DirSet, jps: DirSet) -> (table: Vec<DirSet>)
    ensures
        table@.len() == 256,
        forall|fm: int|
            0 <= fm < 256 ==> #[trigger] table@[fm].bits == tiebreak_entry(
                nb.bits,
                jps.bits,
                fm as u8,
            ),
{
    let valid_moves = canonical_successors(nb, None);
    let mut table: Vec<DirSet> = Vec::new();
    table.push(DirSet::all());
    let mut fm: usize = 1;
    while fm < 256
        invariant
            1 <= fm <= 256,
            table@.len() == fm,
            valid_moves.bits == start_rule(nb.bits),
            forall|i: int|
                0 <= i < fm ==> #[trigger] table@[i].bits == tiebreak_entry(
                    nb.bits,
                    jps.bits,
                    i as u8,
                ),
        decreases 256 - fm,
    {
        proof {
            let x = fm as u8;
            assert(x != 0u8) by (bit_vector)
                requires
                    1 <= fm < 256,
                    x == fm as u8,
            ;
        }
        let fm_dirs = DirSet::from_u8(fm as u8);
        let mut entry = fm_dirs;
        if fm_dirs.is_subset(valid_moves) {
            let mut k: usize = 0;
            proof {
                let f = fm_dirs.bits;
                assert(f == f & 0xffu8) by (bit_vector);
            }
            while k < 8
                invariant
                    k <= 8,
                    1 <= fm < 256,
                    fm_dirs.bits == fm as u8,
                    entry.bits == fm_dirs.bits & masks_upto(k as nat, jps.bits, fm_dirs.bits, nb.bits),
                decreases 8 - k,
            {
                let jp = Direction::try_from(k).unwrap();
                proof {
                    lemma_dir_bit(jp);
                }
                if jps.contains(jp) && !is_irrelevant_jp(jp, fm_dirs, nb) {
                    entry = entry.intersection(canonical_successors(nb, Some(jp)));
                }
                proof {
                    let m = masks_upto(k as nat, jps.bits, fm_dirs.bits, nb.bits);
                    let j = jp_mask(jp, jps.bits, fm_dirs.bits, nb.bits);
                    let f = fm_dirs.bits;
                    assert(f & m & 0xffu8 == f & m && f & m & j == f & (m & j)) by (bit_vector);
                }
                k = k + 1;
            }
            proof {
                lemma_masks_all(jps.bits, fm_dirs.bits, nb.bits);
            }
        }
        table.push(entry);
        fm = fm + 1;
    }
    table
}

/// Every non-empty set of valid start moves keeps at least one move, whatever the jump points.
pub proof fn lemma_tiebreak_nonempty(nb: u8, jps: u8, fm: u8)
    requires
        fm != 0,
        fm & !start_rule(nb) == 0,
    ensures
        tiebreak_entry(nb, jps, fm) != 0,
{
    assert(fm != 0 && fm & !start_rule(nb) == 0 ==> fm & all_masks(jps, fm, nb) != 0)
        by (bit_vector);
}

} // verus!
