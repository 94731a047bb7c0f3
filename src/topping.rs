//! Partial-cell compressed path databases and the path walk that follows them: first moves are
//! stored only at independent jump points, and a path is found by asking the row of each jump
//! point on the way for its first move and jumping in that direction.
use vstd::prelude::*;
use crate::bitgrid::{BitGrid, in_map, neighborhood_bits};
use crate::canonical::{canonical_bits, canonical_successors, reached_direction, spec_reached_direction};
use crate::cpd::{CpdRow, eytzinger_search};
use crate::direction::{Direction, dir_at, dir_bit, dir_index, spec_orthogonal, lemma_dir_bit};
use crate::grid::Grid;
use crate::jps_plus::{diag_cell, ortho_cell};
use crate::jump_db::{JumpDatabase, diag_parts, jump_entry, spec_diag_target_jump, spec_ortho_target_jump};

verus! {

/// First-move rows for the independent jump points of a map, and the state ids the rows are
/// indexed by.
pub struct PartialCellCpd {
    ids: Grid<usize>,
    rows: Grid<Option<CpdRow>>,
}

impl PartialCellCpd {
    /// The id of each cell.
    pub closed spec fn spec_ids(&self) -> Grid<usize> {
        self.ids
    }

    /// The row stored at each cell, if any.
    pub closed spec fn row_at(&self, x: int, y: int) -> Option<Seq<crate::cpd::CpdEntry>> {
        match self.rows.at(x, y) {
            Some(r) => Some(r@),
            None => None,
        }
    }

    /// Width of the map.
    pub closed spec fn spec_width(&self) -> int {
        self.ids.spec_width()
    }

    /// Height of the map.
    pub closed spec fn spec_height(&self) -> int {
        self.ids.spec_height()
    }

    /// Both grids cover the same map.
    pub closed spec fn wf(&self) -> bool {
        &&& self.ids.wf()
        &&& self.rows.wf()
        &&& self.rows.spec_width() == self.ids.spec_width()
        &&& self.rows.spec_height() == self.ids.spec_height()
    }

    /// A database from the id of every cell and the row of every independent jump point;
    /// `None` when the two grids differ in size.
    pub fn from_parts(ids: Grid<usize>, rows: Grid<Option<CpdRow>>) -> (r: Option<PartialCellCpd>)
        requires
            ids.wf(),
            rows.wf(),
        ensures
            r is None <==> (ids.spec_width() != rows.spec_width() || ids.spec_height() != rows.spec_height()),
            r matches Some(c) ==> c.wf() && c.spec_ids() == ids && c.spec_width() == ids.spec_width()
                && c.spec_height() == ids.spec_height()
                && forall|x: int, y: int| #[trigger] c.row_at(x, y) == match rows.at(x, y) {
                    Some(row) => Some(row@),
                    None => None,
                },
    {
        if ids.width() != rows.width() || ids.height() != rows.height() {
            return None;
        }
        Some(PartialCellCpd { ids, rows })
    }

    /// The first-move index that the row of cell `cell` holds for target id `id`; `None` when
    /// the cell has no row.
    pub fn query_id(&self, cell: (i32, i32), id: usize) -> (r: Option<usize>)
        requires
            self.wf(),
            in_map(self.spec_width(), self.spec_height(), cell.0 as int, cell.1 as int),
        ensures
            r == match self.row_at(cell.0 as int, cell.1 as int) {
                Some(e) => Some(eytzinger_search(e, 0, id as int, 0) as usize),
                None => None,
            },
    {
        match self.rows.get(cell.0, cell.1) {
            Some(row) => Some(row.lookup(id)),
            None => None,
        }
    }

    /// The first move from cell `cell` towards target `target`, if `cell` has a row and the
    /// stored move is one of the eight directions.
    pub fn query(&self, cell: (i32, i32), target: (i32, i32)) -> (r: Option<Direction>)
        requires
            self.wf(),
            in_map(self.spec_width(), self.spec_height(), cell.0 as int, cell.1 as int),
            in_map(self.spec_width(), self.spec_height(), target.0 as int, target.1 as int),
        ensures
            r == spec_query(self, cell.0 as int, cell.1 as int, target.0 as int, target.1 as int),
    {
        let id = *self.ids.get(target.0, target.1);
        match self.query_id(cell, id) {
            Some(m) => Direction::try_from(m),
            None => None,
        }
    }
}

/// The first move from `(x, y)` towards `(tx, ty)` stored in the database.
pub open spec fn spec_query(cpd: &PartialCellCpd, x: int, y: int, tx: int, ty: int) -> Option<Direction> {
    match cpd.row_at(x, y) {
        Some(e) => {
            let m = eytzinger_search(e, 0, cpd.spec_ids().at(tx, ty) as int, 0);
            if m < 8 { Some(dir_at(m as nat)) } else { None }
        },
        None => None,
    }
}

/// Where the jump from `(x, y)` in direction `dir` ends when it watches for the target
/// `(tx, ty)`: at the next jump point, at the target, or after a turn onto the target's row or
/// column; `None` when the jump ends at a wall.
pub open spec fn jump_to(map: BitGrid, dir: Direction, x: int, y: int, tx: int, ty: int) -> Option<(int, int)> {
    if spec_orthogonal(dir) {
        match spec_ortho_target_jump(jump_entry(map, dir_index(dir), x, y), dir, x, y, tx, ty) {
            Some(d) => Some(ortho_cell(dir, x, y, d as int)),
            None => None,
        }
    } else {
        match spec_diag_target_jump(map, dir, x, y, tx, ty) {
            None => None,
            Some((d, None)) => Some(diag_cell(dir, x, y, d as int)),
            Some((d, Some((t, d2)))) => {
                let c = diag_cell(dir, x, y, d as int);
                Some(ortho_cell(t, c.0, c.1, d2 as int))
            },
        }
    }
}

/// One step of the walk: at jump point `(x, y)`, entered from `(px, py)`, take the stored first
/// move towards the target if it is canonical for the way the walk came in, and jump. `None`
/// when there is no stored move, the move is not canonical, or the jump ends at a wall.
pub open spec fn walk_step(map: BitGrid, cpd: &PartialCellCpd, px: int, py: int, x: int, y: int, tx: int, ty: int) -> Option<(int, int)> {
    let going = if px == x && py == y { None } else { spec_reached_direction(x - px, y - py) };
    match spec_query(cpd, x, y, tx, ty) {
        None => None,
        Some(dir) => if canonical_bits(neighborhood_bits(&map, x, y), going) & dir_bit(dir) != 0 {
            jump_to(map, dir, x, y, tx, ty)
        } else {
            None
        },
    }
}

/// The jump points of the walk from `(x, y)`, entered from `(px, py)`, to the target, taking at
/// most `fuel` steps; `None` when a step fails or the steps run out.
pub open spec fn spec_walk(map: BitGrid, cpd: &PartialCellCpd, px: int, py: int, x: int, y: int, tx: int, ty: int, fuel: nat) -> Option<Seq<(int, int)>>
    decreases fuel,
{
    if x == tx && y == ty {
        Some(seq![(x, y)])
    } else if fuel == 0 {
        None
    } else {
        match walk_step(map, cpd, px, py, x, y, tx, ty) {
            None => None,
            Some(n) => match spec_walk(map, cpd, x, y, n.0, n.1, tx, ty, (fuel - 1) as nat) {
                None => None,
                Some(rest) => Some(seq![(x, y)] + rest),
            },
        }
    }
}

/// The cells of a path, as integers.
pub open spec fn cells_of(path: Seq<(i32, i32)>) -> Seq<(int, int)> {
    Seq::new(path.len(), |i: int| (path[i].0 as int, path[i].1 as int))
}

/// One step of the walk (see [`walk_step`]).
pub fn cpd_step(map: &BitGrid, jump_db: &JumpDatabase, cpd: &PartialCellCpd, prev: (i32, i32), cur: (i32, i32), target: (i32, i32)) -> (r: Option<(i32, i32)>)
    requires
        map.wf(),
        jump_db.matches(*map),
        cpd.wf(),
        cpd.spec_width() == map.spec_width(),
        cpd.spec_height() == map.spec_height(),
        in_map(map.spec_width(), map.spec_height(), prev.0 as int, prev.1 as int),
        in_map(map.spec_width(), map.spec_height(), cur.0 as int, cur.1 as int),
        in_map(map.spec_width(), map.spec_height(), target.0 as int, target.1 as int),
    ensures
        match r {
            Some(n) => walk_step(*map, cpd, prev.0 as int, prev.1 as int, cur.0 as int, cur.1 as int, target.0 as int, target.1 as int)
                == Some((n.0 as int, n.1 as int))
                && in_map(map.spec_width(), map.spec_height(), n.0 as int, n.1 as int),
            None => walk_step(*map, cpd, prev.0 as int, prev.1 as int, cur.0 as int, cur.1 as int, target.0 as int, target.1 as int)
                is None,
        },
{
    proof {
        map.lemma_size();
    }
    let going = if prev.0 == cur.0 && prev.1 == cur.1 { None } else { reached_direction(prev, cur) };
    let dir = match cpd.query(cur, target) {
        Some(d) => d,
        None => return None,
    };
    let canonical = canonical_successors(map.get_neighborhood(cur.0, cur.1), going);
    proof {
        lemma_dir_bit(dir);
    }
    if !canonical.contains(dir) {
        return None;
    }
    jump_cell(map, jump_db, dir, cur.0, cur.1, target)
}

/// Where the jump from `(x, y)` in direction `dir` ends (see [`jump_to`]).
fn jump_cell(map: &BitGrid, jump_db: &JumpDatabase, dir: Direction, x: i32, y: i32, target: (i32, i32)) -> (r: Option<(i32, i32)>)
    requires
        map.wf(),
        jump_db.matches(*map),
        in_map(map.spec_width(), map.spec_height(), x as int, y as int),
    ensures
        match r {
            Some(n) => jump_to(*map, dir, x as int, y as int, target.0 as int, target.1 as int) == Some((n.0 as int, n.1 as int))
                && in_map(map.spec_width(), map.spec_height(), n.0 as int, n.1 as int),
            None => jump_to(*map, dir, x as int, y as int, target.0 as int, target.1 as int) is None,
        },
{
    if dir.index() < 4 {
        jump_cell_ortho(map, jump_db, dir, x, y, target)
    } else {
        jump_cell_diag(map, jump_db, dir, x, y, target)
    }
}

fn jump_cell_ortho(map: &BitGrid, jump_db: &JumpDatabase, dir: Direction, x: i32, y: i32, target: (i32, i32)) -> (r: Option<(i32, i32)>)
    requires
        map.wf(),
        jump_db.matches(*map),
        in_map(map.spec_width(), map.spec_height(), x as int, y as int),
        dir_index(dir) < 4,
    ensures
        match r {
            Some(n) => jump_to(*map, dir, x as int, y as int, target.0 as int, target.1 as int) == Some((n.0 as int, n.1 as int))
                && in_map(map.spec_width(), map.spec_height(), n.0 as int, n.1 as int),
            None => jump_to(*map, dir, x as int, y as int, target.0 as int, target.1 as int) is None,
        },
{
    let di = dir.index();
    proof {
        map.lemma_size();
        crate::jump_db::lemma_jump_bound(*map, di as nat, x as int, y as int);
    }
    match jump_db.ortho_jump_unchecked(map, x, y, dir, target) {
        Some(d) => {
            proof {
                crate::jump_db::lemma_jump_path(*map, di as nat, x as int, y as int, d as int);
            }
            Some(match dir {
                Direction::North => (x, y - d),
                Direction::West => (x - d, y),
                Direction::South => (x, y + d),
                _ => (x + d, y),
            })
        },
        None => None,
    }
}

fn jump_cell_diag(map: &BitGrid, jump_db: &JumpDatabase, dir: Direction, x: i32, y: i32, target: (i32, i32)) -> (r: Option<(i32, i32)>)
    requires
        map.wf(),
        jump_db.matches(*map),
        in_map(map.spec_width(), map.spec_height(), x as int, y as int),
        dir_index(dir) >= 4,
    ensures
        match r {
            Some(n) => jump_to(*map, dir, x as int, y as int, target.0 as int, target.1 as int) == Some((n.0 as int, n.1 as int))
                && in_map(map.spec_width(), map.spec_height(), n.0 as int, n.1 as int),
            None => jump_to(*map, dir, x as int, y as int, target.0 as int, target.1 as int) is None,
        },
{
    let di = dir.index();
    proof {
        map.lemma_size();
        crate::jump_db::lemma_jump_bound(*map, di as nat, x as int, y as int);
    }
    match jump_db.diagonal_jump_unchecked(map, x, y, dir, target) {
        None => None,
        Some((d, turn)) => {
            proof {
                crate::jump_db::lemma_jump_path(*map, di as nat, x as int, y as int, d as int);
            }
            let (cx, cy) = match dir {
                Direction::NorthWest => (x - d, y - d),
                Direction::NorthEast => (x + d, y - d),
                Direction::SouthEast => (x + d, y + d),
                _ => (x - d, y + d),
            };
            match turn {
                None => Some((cx, cy)),
                Some((t, d2)) => {
                    proof {
                        let ti = dir_index(t);
                        crate::jump_db::lemma_jump_bound(*map, ti, cx as int, cy as int);
                        crate::jump_db::lemma_jump_path(*map, ti, cx as int, cy as int, d2 as int);
                    }
                    Some(match t {
                        Direction::North => (cx, cy - d2),
                        Direction::West => (cx - d2, cy),
                        Direction::South => (cx, cy + d2),
                        _ => (cx + d2, cy),
                    })
                },
            }
        },
    }
}

/// `prefix` followed by the walk result `rest`.
pub open spec fn prepend(prefix: Seq<(int, int)>, rest: Option<Seq<(int, int)>>) -> Option<Seq<(int, int)>> {
    match rest {
        Some(r) => Some(prefix + r),
        None => None,
    }
}

/// The jump points of the walk from `start`, entered from `prev`, to `target`, following the
/// database's first moves for at most `fuel` steps (see [`spec_walk`]). `None` when some stored
/// move is missing or not canonical for the way the walk came in, a jump runs into a wall, or
/// the steps run out.
pub fn cpd_walk(map: &BitGrid, jump_db: &JumpDatabase, cpd: &PartialCellCpd, prev: (i32, i32), start: (i32, i32), target: (i32, i32), fuel: usize) -> (r: Option<Vec<(i32, i32)>>)
    requires
        map.wf(),
        jump_db.matches(*map),
        cpd.wf(),
        cpd.spec_width() == map.spec_width(),
        cpd.spec_height() == map.spec_height(),
        in_map(map.spec_width(), map.spec_height(), prev.0 as int, prev.1 as int),
        in_map(map.spec_width(), map.spec_height(), start.0 as int, start.1 as int),
        in_map(map.spec_width(), map.spec_height(), target.0 as int, target.1 as int),
    ensures
        match r {
            Some(p) => spec_walk(*map, cpd, prev.0 as int, prev.1 as int, start.0 as int, start.1 as int,
                target.0 as int, target.1 as int, fuel as nat) == Some(cells_of(p@)),
            None => spec_walk(*map, cpd, prev.0 as int, prev.1 as int, start.0 as int, start.1 as int,
                target.0 as int, target.1 as int, fuel as nat) is None,
        },
{
    let ghost m = *map;
    let ghost total = spec_walk(m, cpd, prev.0 as int, prev.1 as int, start.0 as int, start.1 as int,
        target.0 as int, target.1 as int, fuel as nat);
    let mut path: Vec<(i32, i32)> = Vec::new();
    let mut pv = prev;
    let mut cur = start;
    let mut f = fuel;
    proof {
        assert(cells_of(path@) + seq![] =~= cells_of(path@));
        match total {
            Some(t) => assert(cells_of(path@) + t =~= t),
            None => {},
        }
    }
    loop
        invariant
            m == *map,
            map.wf(),
            jump_db.matches(m),
            cpd.wf(),
            cpd.spec_width() == m.spec_width(),
            cpd.spec_height() == m.spec_height(),
            in_map(m.spec_width(), m.spec_height(), pv.0 as int, pv.1 as int),
            in_map(m.spec_width(), m.spec_height(), cur.0 as int, cur.1 as int),
            in_map(m.spec_width(), m.spec_height(), target.0 as int, target.1 as int),
            total == spec_walk(m, cpd, prev.0 as int, prev.1 as int, start.0 as int, start.1 as int,
                target.0 as int, target.1 as int, fuel as nat),
            total == prepend(cells_of(path@), spec_walk(m, cpd, pv.0 as int, pv.1 as int, cur.0 as int, cur.1 as int,
                target.0 as int, target.1 as int, f as nat)),
        decreases f,
    {
        let ghost rest_path = path@;
        if cur.0 == target.0 && cur.1 == target.1 {
            path.push(cur);
            proof {
                assert(cells_of(path@) =~= cells_of(rest_path) + seq![(cur.0 as int, cur.1 as int)]);
            }
            return Some(path);
        }
        if f == 0 {
            return None;
        }
        match cpd_step(map, jump_db, cpd, pv, cur, target) {
            None => {
                return None;
            },
            Some(n) => {
                path.push(cur);
                proof {
                    assert(cells_of(path@) =~= cells_of(rest_path) + seq![(cur.0 as int, cur.1 as int)]);
                    let rest = spec_walk(m, cpd, cur.0 as int, cur.1 as int, n.0 as int, n.1 as int,
                        target.0 as int, target.1 as int, (f - 1) as nat);
                    match rest {
                        Some(r) => {
                            assert(cells_of(rest_path) + (seq![(cur.0 as int, cur.1 as int)] + r) =~= cells_of(path@) + r);
                        },
                        None => {},
                    }
                }
                pv = cur;
                cur = n;
                f = f - 1;
            },
        }
    }
}

} // verus!
