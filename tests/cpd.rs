use mkpath::cpd::CpdRow;

#[test]
fn cpd_compress_scenario() {
    let fm: Vec<u64> = vec![0b1000, 0b1000, 0b0100, 0b0100, 0b0100, 0b0001, 0b0001];
    let row = CpdRow::compress(&fm);
    assert_eq!(row.len(), 3);
    assert_eq!(row.lookup(0), 3);
    assert_eq!(row.lookup(1), 3);
    assert_eq!(row.lookup(2), 2);
    assert_eq!(row.lookup(3), 2);
    assert_eq!(row.lookup(4), 2);
    assert_eq!(row.lookup(5), 0);
    assert_eq!(row.lookup(6), 0);
}

#[test]
fn cpd_empty_input_gives_no_runs() {
    let row = CpdRow::compress(&vec![]);
    assert_eq!(row.len(), 0);
    assert_eq!(row.lookup(0), 0);
}

#[test]
fn cpd_lookup_is_a_member_of_each_set() {
    // A pseudo-random sequence of first-move sets, some with several moves.
    let mut fm: Vec<u64> = vec![];
    let mut state: u64 = 0x1234_5678;
    for _ in 0..500 {
        state = state.wrapping_mul(6364136223846793005).wrapping_add(1442695040888963407);
        let mut moves = (state >> 33) & 0xff;
        if moves == 0 {
            moves = 1 << ((state >> 20) % 8);
        }
        fm.push(moves);
    }
    let row = CpdRow::compress(&fm);
    for (i, &m) in fm.iter().enumerate() {
        let mv = row.lookup(i);
        assert!(m & (1 << mv) != 0, "target {i}: move {mv} not in {m:#b}");
    }
    assert!(row.len() < fm.len());
}

#[test]
fn cpd_shared_moves_merge_runs() {
    // Every set shares move 2, so one run covers all targets.
    let fm: Vec<u64> = vec![0b0110, 0b1100, 0b0100, 0b0101];
    let row = CpdRow::compress(&fm);
    assert_eq!(row.len(), 1);
    for i in 0..4 {
        assert_eq!(row.lookup(i), 2);
    }
}

#[test]
fn cpd_compress_runs_with_ids() {
    let items: Vec<(usize, u64)> = vec![(0, 0b1), (1, 0b1), (2, 0b10), (3, 0b10)];
    let row = CpdRow::compress_runs(&items);
    assert_eq!(row.len(), 2);
    assert_eq!(row.lookup(1), 0);
    assert_eq!(row.lookup(2), 1);
    assert_eq!(row.lookup(100), 1);
}

#[test]
fn cpd_eytzinger_matches_binary_search() {
    // Runs with distinct moves each, so every id's answer is known.
    let n = 37;
    let fm: Vec<u64> = (0..n).map(|i| 1u64 << (i % 5)).collect();
    let row = CpdRow::compress(&fm);
    assert_eq!(row.len(), n);
    for i in 0..n {
        assert_eq!(row.lookup(i), i % 5);
    }
    assert_eq!(row.lookup(1000), (n - 1) % 5);
}

#[test]
fn cpd_save_load_round_trip() {
    let fm: Vec<u64> = vec![0b1000, 0b1000, 0b0100, 0b0001];
    let row = CpdRow::compress(&fm);
    let mut bytes = row.save();
    assert_eq!(bytes.len(), 4 + 4 * row.len());
    assert_eq!(&bytes[0..4], &(row.len() as u32).to_le_bytes());
    bytes.extend_from_slice(&[9, 9]);
    let (loaded, used) = CpdRow::load(&bytes).unwrap();
    assert_eq!(used, 4 + 4 * row.len());
    for i in 0..fm.len() {
        assert_eq!(loaded.lookup(i), row.lookup(i));
    }
    assert_eq!(loaded.save(), row.save());
}

#[test]
fn cpd_load_rejects_truncated_input() {
    assert!(CpdRow::load(&[1, 0]).is_none());
    assert!(CpdRow::load(&[2, 0, 0, 0, 1, 2, 3, 4]).is_none());
    let (row, used) = CpdRow::load(&[0, 0, 0, 0]).unwrap();
    assert_eq!(row.len(), 0);
    assert_eq!(used, 4);
}

#[test]
fn cpd_entry_packing() {
    let fm: Vec<u64> = vec![1 << 62, 1 << 62, 1 << 5];
    let row = CpdRow::compress(&fm);
    assert_eq!(row.lookup(0), 62);
    assert_eq!(row.lookup(2), 5);
    let bytes = row.save();
    // second run starts at id 2 with move 5
    let words: Vec<u32> = bytes[4..]
        .chunks(4)
        .map(|c| u32::from_le_bytes([c[0], c[1], c[2], c[3]]))
        .collect();
    assert!(words.contains(&((2 << 6) | 5)));
    assert!(words.contains(&62));
}
