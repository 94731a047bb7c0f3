use mkpath::canonical::canonical_successors;
use mkpath::direction::DirSet;
use mkpath::direction::Direction::{
    self, East, North, NorthEast, NorthWest, South, SouthEast, SouthWest, West,
};
use mkpath::tiebreak::compute_tiebreak_table;

fn set(dirs: &[Direction]) -> DirSet {
    let mut s = DirSet::empty();
    for &d in dirs {
        s = s.insert(d);
    }
    s
}

#[test]
fn tiebreaking_is_valid() {
    for nb in 0..256 {
        let nb = DirSet::from_u8(nb as u8);

        let mut jp_successors = DirSet::empty();
        let mut jp = DirSet::empty();

        for dir in [North, South, East, West] {
            if !nb.contains(dir.backwards()) {
                continue;
            }
            let successors = canonical_successors(nb, Some(dir));
            if successors.intersection(DirSet::single(dir)) != successors {
                jp_successors = jp_successors.union(successors);
                jp = jp.insert(dir);
            }
        }

        for dir in [NorthWest, NorthEast, SouthWest, SouthEast] {
            let dir_x = match dir {
                NorthWest | SouthWest => West,
                _ => East,
            };
            let dir_y = match dir {
                NorthWest | NorthEast => North,
                _ => South,
            };

            if set(&[dir_x.backwards(), dir_y.backwards(), dir.backwards()]).is_subset(nb)
                && !nb.is_disjoint(set(&[dir_x, dir_y]))
            {
                jp = jp.insert(dir);
                jp_successors = jp_successors.union(canonical_successors(nb, Some(dir)));
            }
        }

        if jp.is_empty() {
            continue;
        }

        let table = compute_tiebreak_table(nb, jp);
        let valid = canonical_successors(nb, None);
        for fm in 1..256 {
            let fm_dirs = DirSet::from_u8(fm as u8);
            if fm_dirs.is_subset(valid) {
                assert!(!table[fm].is_empty());
            }
        }
    }
}

#[test]
fn tiebreak_open_neighbourhood_north_keeps_west_and_east() {
    let nb = DirSet::all();
    let jps = set(&[North]);
    let table = compute_tiebreak_table(nb, jps);
    let fm = set(&[West, East]);
    assert_eq!(table[fm.as_u8() as usize], fm);
}

#[test]
fn tiebreak_empty_set_is_wildcard() {
    let table = compute_tiebreak_table(DirSet::all(), DirSet::all());
    assert_eq!(table.len(), 256);
    assert_eq!(table[0], DirSet::all());
}

#[test]
fn tiebreak_nonempty_for_every_jump_point_set() {
    for nb in (0..256).step_by(7) {
        let nb = DirSet::from_u8(nb as u8);
        let valid = canonical_successors(nb, None);
        for jps in (0..256).step_by(11) {
            let table = compute_tiebreak_table(nb, DirSet::from_u8(jps as u8));
            for fm in 1..256usize {
                let f = DirSet::from_u8(fm as u8);
                if f.is_subset(valid) {
                    assert!(!table[fm].is_empty());
                    assert!(table[fm].is_subset(f));
                }
            }
        }
    }
}

#[test]
fn tiebreak_invalid_set_is_kept() {
    // Only north is open: a set holding south is not a valid start move and stays as it is.
    let nb = set(&[North]);
    let table = compute_tiebreak_table(nb, set(&[North]));
    let fm = set(&[South, East]);
    assert_eq!(table[fm.as_u8() as usize], fm);
}
