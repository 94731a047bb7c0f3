//! The canonical-successor rule of jump point search, and the direction of a jump.
use vstd::prelude::*;
use crate::direction::{Direction, DirSet, N, W, S, E, NW, SW, SE, NE};

verus! {

/// Canonical successors for a straight move in direction `f`, where `l`/`r` are the cardinal
/// directions to its left and right, `fl`/`fr` the diagonals ahead of them and `bl`/`br` the
/// diagonals behind them.
///
/// `f` is kept when traversable. A side direction is kept when it is traversable and the
/// diagonal behind it is blocked (a forced neighbour); the diagonal ahead of it is then kept too
/// when both it and `f` are traversable.
pub open spec fn ortho_rule(nb: u8, f: u8, fl: u8, l: u8, bl: u8, fr: u8, r: u8, br: u8) -> u8 {
    (if nb & f != 0 { f } else { 0u8 })
    | (if nb & (bl | l) == l {
        l | (if nb & (f | fl) == f | fl { fl } else { 0u8 })
    } else {
        0u8
    })
    | (if nb & (br | r) == r {
        r | (if nb & (f | fr) == f | fr { fr } else { 0u8 })
    } else {
        0u8
    })
}

/// Canonical successors for a diagonal move `f` whose cardinal components are `l` and `r`:
/// each traversable component, and `f` itself when all three cells are traversable.
pub open spec fn diag_rule(nb: u8, f: u8, l: u8, r: u8) -> u8 {
    (if nb & l != 0 { l } else { 0u8 })
    | (if nb & r != 0 { r } else { 0u8 })
    | (if nb & (l | r | f) == l | r | f { f } else { 0u8 })
}

/// Successors of the start of a search: every traversable cardinal direction, and each diagonal
/// whose three-cell wedge is traversable.
pub open spec fn start_rule(nb: u8) -> u8 {
    (nb & (N | W | S | E))
    | (if nb & (N | W | NW) == N | W | NW { NW } else { 0u8 })
    | (if nb & (S | W | SW) == S | W | SW { SW } else { 0u8 })
    | (if nb & (S | E | SE) == S | E | SE { SE } else { 0u8 })
    | (if nb & (N | E | NE) == N | E | NE { NE } else { 0u8 })
}

/// The canonical successors, as a bitmask, of a cell whose traversable neighbours are `nb`,
/// reached by moving in direction `going` (`None` at the start of a search).
pub open spec fn canonical_bits(nb: u8, going: Option<Direction>) -> u8 {
    match going {
        None => start_rule(nb),
        Some(Direction::North) => ortho_rule(nb, N, NW, W, SW, NE, E, SE),
        Some(Direction::West) => ortho_rule(nb, W, SW, S, SE, NW, N, NE),
        Some(Direction::South) => ortho_rule(nb, S, SE, E, NE, SW, W, NW),
        Some(Direction::East) => ortho_rule(nb, E, NE, N, NW, SE, S, SW),
        Some(Direction::NorthWest) => diag_rule(nb, NW, N, W),
        Some(Direction::SouthWest) => diag_rule(nb, SW, S, W),
        Some(Direction::SouthEast) => diag_rule(nb, SE, S, E),
        Some(Direction::NorthEast) => diag_rule(nb, NE, N, E),
    }
}

fn ortho_successors(nb: u8, f: u8, fl: u8, l: u8, bl: u8, fr: u8, r: u8, br: u8) -> (res: u8)
    ensures
        res == ortho_rule(nb, f, fl, l, bl, fr, r, br),
{
    let fwd: u8 = if nb & f != 0 { f } else { 0 };
    let ahead_l: u8 = if nb & (f | fl) == f | fl { fl } else { 0 };
    let ahead_r: u8 = if nb & (f | fr) == f | fr { fr } else { 0 };
    let left: u8 = if nb & (bl | l) == l { l | ahead_l } else { 0 };
    let right: u8 = if nb & (br | r) == r { r | ahead_r } else { 0 };
    fwd | left | right
}

fn diagonal_successors(nb: u8, f: u8, l: u8, r: u8) -> (res: u8)
    ensures
        res == diag_rule(nb, f, l, r),
{
    let a: u8 = if nb & l != 0 { l } else { 0 };
    let b: u8 = if nb & r != 0 { r } else { 0 };
    let c: u8 = if nb & (l | r | f) == l | r | f { f } else { 0 };
    a | b | c
}

fn start_successors(nb: u8) -> (res: u8)
    ensures
        res == start_rule(nb),
{
    let nw: u8 = if nb & (N | W | NW) == N | W | NW { NW } else { 0 };
    let sw: u8 = if nb & (S | W | SW) == S | W | SW { SW } else { 0 };
    let se: u8 = if nb & (S | E | SE) == S | E | SE { SE } else { 0 };
    let ne: u8 = if nb & (N | E | NE) == N | E | NE { NE } else { 0 };
    (nb & (N | W | S | E)) | nw | sw | se | ne
}

/// The set of directions that a canonical jump point search explores from a cell whose
/// traversable neighbours are `nb`, after arriving by a move in direction `going` (`None` for
/// the start of the search).
pub fn canonical_successors(nb: DirSet, going: Option<Direction>) -> (r: DirSet)
    ensures
        r.bits == canonical_bits(nb.bits, going),
{
    let nb = nb.bits;
    let bits = match going {
        None => start_successors(nb),
        Some(Direction::North) => ortho_successors(nb, N, NW, W, SW, NE, E, SE),
        Some(Direction::West) => ortho_successors(nb, W, SW, S, SE, NW, N, NE),
        Some(Direction::South) => ortho_successors(nb, S, SE, E, NE, SW, W, NW),
        Some(Direction::East) => ortho_successors(nb, E, NE, N, NW, SE, S, SW),
        Some(Direction::NorthWest) => diagonal_successors(nb, NW, N, W),
        Some(Direction::SouthWest) => diagonal_successors(nb, SW, S, W),
        Some(Direction::SouthEast) => diagonal_successors(nb, SE, S, E),
        Some(Direction::NorthEast) => diagonal_successors(nb, NE, N, E),
    };
    DirSet { bits }
}

proof fn lemma_rules_subset(nb: u8)
    by (bit_vector)
    ensures
        start_rule(nb) & !nb == 0,
        start_rule(nb) & !start_rule(nb) == 0,
        ortho_rule(nb, N, NW, W, SW, NE, E, SE) & !nb == 0,
        ortho_rule(nb, N, NW, W, SW, NE, E, SE) & !start_rule(nb) == 0,
        ortho_rule(nb, W, SW, S, SE, NW, N, NE) & !nb == 0,
        ortho_rule(nb, W, SW, S, SE, NW, N, NE) & !start_rule(nb) == 0,
        ortho_rule(nb, S, SE, E, NE, SW, W, NW) & !nb == 0,
        ortho_rule(nb, S, SE, E, NE, SW, W, NW) & !start_rule(nb) == 0,
        ortho_rule(nb, E, NE, N, NW, SE, S, SW) & !nb == 0,
        ortho_rule(nb, E, NE, N, NW, SE, S, SW) & !start_rule(nb) == 0,
        diag_rule(nb, NW, N, W) & !nb == 0,
        diag_rule(nb, NW, N, W) & !start_rule(nb) == 0,
        diag_rule(nb, SW, S, W) & !nb == 0,
        diag_rule(nb, SW, S, W) & !start_rule(nb) == 0,
        diag_rule(nb, SE, S, E) & !nb == 0,
        diag_rule(nb, SE, S, E) & !start_rule(nb) == 0,
        diag_rule(nb, NE, N, E) & !nb == 0,
        diag_rule(nb, NE, N, E) & !start_rule(nb) == 0,
{
}

/// Canonical successors only go to traversable neighbours, and never outside the successors of
/// a search started at the same cell.
pub proof fn lemma_canonical_subset(nb: u8, going: Option<Direction>)
    ensures
        canonical_bits(nb, going) & !nb == 0,
        canonical_bits(nb, going) & !canonical_bits(nb, None) == 0,
{
    lemma_rules_subset(nb);
}

/// The direction of the move from `from` to `to`: the dominant axis when one axis is longer,
/// otherwise the diagonal; `None` when the two cells are the same.
pub open spec fn spec_reached_direction(dx: int, dy: int) -> Option<Direction> {
    let ax = if dx < 0 { -dx } else { dx };
    let ay = if dy < 0 { -dy } else { dy };
    if ax > ay {
        if dx < 0 { Some(Direction::West) } else { Some(Direction::East) }
    } else if ay > ax {
        if dy < 0 { Some(Direction::North) } else { Some(Direction::South) }
    } else if dx < 0 {
        if dy < 0 { Some(Direction::NorthWest) } else { Some(Direction::SouthWest) }
    } else if dx > 0 {
        if dy < 0 { Some(Direction::NorthEast) } else { Some(Direction::SouthEast) }
    } else {
        None
    }
}

/// The direction in which a jump from `from` arrived at `to`.
pub fn reached_direction(from: (i32, i32), to: (i32, i32)) -> (r: Option<Direction>)
    requires
        i32::MIN < to.0 - from.0 <= i32::MAX,
        i32::MIN < to.1 - from.1 <= i32::MAX,
    ensures
        r == spec_reached_direction(to.0 - from.0, to.1 - from.1),
        r.is_none() <==> from == to,
{
    let dx = to.0 - from.0;
    let dy = to.1 - from.1;
    let ax = if dx < 0 { -dx } else { dx };
    let ay = if dy < 0 { -dy } else { dy };
    if ax > ay {
        if dx < 0 { Some(Direction::West) } else { Some(Direction::East) }
    } else if ay > ax {
        if dy < 0 { Some(Direction::North) } else { Some(Direction::South) }
    } else if dx < 0 {
        if dy < 0 { Some(Direction::NorthWest) } else { Some(Direction::SouthWest) }
    } else if dx > 0 {
        if dy < 0 { Some(Direction::NorthEast) } else { Some(Direction::SouthEast) }
    } else {
        None
    }
}

/// Whether `to` lies strictly beyond `from` along an axis walked in direction `step`
/// (`-1` or `1`).
pub open spec fn spec_in_direction(step: int, from: int, to: int) -> bool {
    if step < 0 { to < from } else { from < to }
}

/// Whether `to` lies strictly beyond `from` along an axis walked in direction `step`
/// (`-1` or `1`).
pub fn in_direction(step: i32, from: i32, to: i32) -> (r: bool)
    requires
        step == -1 || step == 1,
    ensures
        r == spec_in_direction(step as int, from as int, to as int),
{
    if step < 0 { to < from } else { from < to }
}

/// Whether a walk from `start` to `end` in direction `step` passed strictly over `target`.
pub fn skipped_past(step: i32, start: i32, end: i32, target: i32) -> (r: bool)
    requires
        step == -1 || step == 1,
    ensures
        r == (spec_in_direction(step as int, start as int, target as int)
            && spec_in_direction(step as int, target as int, end as int)),
{
    in_direction(step, start, target) && in_direction(step, target, end)
}

} // verus!
