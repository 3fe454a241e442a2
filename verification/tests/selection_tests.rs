use rs::io::{decode_frame, DirectReader, ReadError, RunFile};
use rs::record::Rec;
use rs::replacement_selection::ReplacementSelection;

fn create_test_record(key_byte: u8) -> Rec {
    let mut key = [0u8; 10];
    key[0] = key_byte;
    Rec::new(key, [0u8; 90])
}

fn input_of(keys: &[u8]) -> Vec<u8> {
    let mut input = Vec::new();
    for &k in keys {
        let rec = create_test_record(k);
        input.extend_from_slice(&rec.key);
        input.extend_from_slice(&rec.payload);
    }
    input
}

fn records_in(file: &RunFile) -> Vec<Rec> {
    assert_eq!(file.data.len() % 108, 0);
    file.data
        .chunks(108)
        .map(|frame| decode_frame(frame).unwrap())
        .collect()
}

fn run_keys(keys: &[u8], cap: usize, prefix: &str) -> Vec<Vec<u8>> {
    let rs = ReplacementSelection::new(cap, prefix.to_string());
    let mut out = Vec::new();
    let n = rs.run(DirectReader::new(input_of(keys)), &mut out).unwrap();
    assert_eq!(n, out.len());
    for (i, f) in out.iter().enumerate() {
        assert_eq!(f.name, format!("{}_{:03}.bin", prefix, i));
    }
    out.iter()
        .map(|f| records_in(f).iter().map(|r| r.key[0]).collect())
        .collect()
}

#[test]
fn replacement_selection_test_empty_input() {
    let input = DirectReader::new(vec![]);
    let rs = ReplacementSelection::new(10, "test_run".to_string());
    let mut out = Vec::new();
    let num_runs = rs.run(input, &mut out).unwrap();
    assert_eq!(num_runs, 0);
    assert!(out.is_empty());
}

#[test]
fn replacement_selection_test_single_record() {
    let rec = create_test_record(1);
    let mut input = vec![0u8; 100];
    input[0..10].copy_from_slice(&rec.key);
    input[10..100].copy_from_slice(&rec.payload);

    let cursor = DirectReader::new(input);
    let rs = ReplacementSelection::new(10, "test_run".to_string());
    let mut out = Vec::new();
    let num_runs = rs.run(cursor, &mut out).unwrap();
    assert_eq!(num_runs, 1);
    assert_eq!(out[0].name, "test_run_000.bin");
    assert_eq!(records_in(&out[0]), vec![rec]);
}

#[test]
fn test_sorted_input_single_run() {
    // Create 5 records in ascending order
    let mut input = Vec::new();
    for i in 1..=5 {
        let rec = create_test_record(i);
        input.extend_from_slice(&rec.key);
        input.extend_from_slice(&rec.payload);
    }

    let cursor = DirectReader::new(input);
    let rs = ReplacementSelection::new(3, "test_sorted".to_string());
    let mut out = Vec::new();
    let num_runs = rs.run(cursor, &mut out).unwrap();

    // All sorted input should produce single run
    assert_eq!(num_runs, 1);
    assert_eq!(out[0].name, "test_sorted_000.bin");
}

#[test]
fn test_reverse_sorted_multiple_runs() {
    // Create 5 records in descending order
    let mut input = Vec::new();
    for i in (1..=5).rev() {
        let rec = create_test_record(i);
        input.extend_from_slice(&rec.key);
        input.extend_from_slice(&rec.payload);
    }

    let cursor = DirectReader::new(input);
    let rs = ReplacementSelection::new(3, "test_reverse".to_string());
    let mut out = Vec::new();
    let num_runs = rs.run(cursor, &mut out).unwrap();

    // Reverse sorted should produce multiple runs
    // With heap_cap=3, worst case for reverse sorted is more runs
    assert!(num_runs > 1);
    for i in 0..num_runs {
        assert_eq!(out[i].name, format!("test_reverse_{:03}.bin", i));
    }
}

#[test]
fn test_heap_capacity_limits_initial_load() {
    // Create 10 records
    let mut input = Vec::new();
    for i in 1..=10 {
        let rec = create_test_record(i);
        input.extend_from_slice(&rec.key);
        input.extend_from_slice(&rec.payload);
    }

    let cursor = DirectReader::new(input);
    let rs = ReplacementSelection::new(3, "test_cap".to_string());
    let mut out = Vec::new();
    let num_runs = rs.run(cursor, &mut out).unwrap();

    // Should successfully process all records
    assert!(num_runs >= 1);
    for i in 0..num_runs {
        assert_eq!(out[i].name, format!("test_cap_{:03}.bin", i));
    }
}

#[test]
fn test_exact_runs_of_a_mixed_input() {
    // capacity 4 on [3,1,4,1,5,9,2,6,5,3]
    let runs = run_keys(&[3, 1, 4, 1, 5, 9, 2, 6, 5, 3], 4, "x");
    assert_eq!(runs, vec![vec![1, 1, 3, 4, 5, 5, 6, 9], vec![2, 3]]);
}

#[test]
fn test_exact_runs_of_a_descending_input() {
    let runs = run_keys(&[5, 4, 3, 2, 1], 2, "x");
    assert_eq!(runs, vec![vec![4, 5], vec![2, 3], vec![1]]);
    let runs = run_keys(&[5, 4, 3, 2, 1], 3, "x");
    assert_eq!(runs, vec![vec![3, 4, 5], vec![1, 2]]);
}

#[test]
fn test_descending_input_gives_ceiling_of_n_over_h_runs() {
    for n in 0..=24usize {
        let keys: Vec<u8> = (1..=n as u8).rev().collect();
        for h in 1..=9usize {
            let runs = run_keys(&keys, h, "d");
            assert_eq!(runs.len(), (n + h - 1) / h, "n = {}, h = {}", n, h);
        }
    }
}

#[test]
fn test_ascending_input_gives_one_run_for_any_capacity() {
    let keys: Vec<u8> = vec![1, 1, 2, 3, 3, 3, 7, 9, 9, 200, 255];
    for h in 1..=15usize {
        let runs = run_keys(&keys, h, "a");
        assert_eq!(runs, vec![keys.clone()]);
    }
}

#[test]
fn test_run_count_never_grows_with_capacity() {
    let mut state = 2024u32;
    for _ in 0..200 {
        state = state.wrapping_mul(1103515245).wrapping_add(12345);
        let n = (state >> 16) % 14;
        let keys: Vec<u8> = (0..n)
            .map(|_| {
                state = state.wrapping_mul(1103515245).wrapping_add(12345);
                ((state >> 16) % 10) as u8
            })
            .collect();
        let mut prev = usize::MAX;
        for h in 1..=(keys.len() + 2) {
            let count = run_keys(&keys, h, "m").len();
            assert!(count <= prev, "keys = {:?}, h = {}", keys, h);
            prev = count;
        }
    }
}

#[test]
fn test_every_run_sorted_and_nothing_lost() {
    let mut state = 7u32;
    for _ in 0..200 {
        state = state.wrapping_mul(1103515245).wrapping_add(12345);
        let n = (state >> 16) % 60;
        let keys: Vec<u8> = (0..n)
            .map(|_| {
                state = state.wrapping_mul(1103515245).wrapping_add(12345);
                (state >> 16) as u8
            })
            .collect();
        let h = 1 + ((state >> 3) % 7) as usize;
        let runs = run_keys(&keys, h, "r");
        for run in runs.iter() {
            assert!(!run.is_empty());
            assert!(run.windows(2).all(|w| w[0] <= w[1]));
        }
        let mut all_out: Vec<u8> = runs.concat();
        let mut all_in = keys.clone();
        all_out.sort();
        all_in.sort();
        assert_eq!(all_out, all_in);
    }
}

#[test]
fn test_equal_keys_leave_in_order_of_arrival() {
    // three records with one key and different payloads, then a smaller key
    let mut input = Vec::new();
    for tag in [10u8, 20, 30] {
        input.extend_from_slice(&[5u8; 10]);
        input.extend_from_slice(&[tag; 90]);
    }
    input.extend_from_slice(&[4u8; 10]);
    input.extend_from_slice(&[40u8; 90]);
    let rs = ReplacementSelection::new(2, "dup".to_string());
    let mut out = Vec::new();
    assert_eq!(rs.run(DirectReader::new(input), &mut out), Ok(2));
    let first: Vec<u8> = records_in(&out[0]).iter().map(|r| r.payload[0]).collect();
    let second: Vec<u8> = records_in(&out[1]).iter().map(|r| r.payload[0]).collect();
    assert_eq!(first, vec![10, 20, 30]);
    assert_eq!(second, vec![40]);
}

#[test]
fn test_zero_capacity_reads_nothing() {
    let rs = ReplacementSelection::new(0, "z".to_string());
    let mut out = Vec::new();
    assert_eq!(rs.run(DirectReader::new(input_of(&[3, 2, 1])), &mut out), Ok(0));
    assert!(out.is_empty());
    // not even a broken input is looked at
    assert_eq!(rs.run(DirectReader::new(vec![1u8; 55]), &mut out), Ok(0));
    assert!(out.is_empty());
}

#[test]
fn test_truncated_input_is_an_error() {
    let rs = ReplacementSelection::new(2, "t".to_string());
    // ends inside the payload of the fourth record, after priming
    let mut input = input_of(&[3, 2, 1]);
    input.extend_from_slice(&[0u8; 50]);
    let mut out = Vec::new();
    assert_eq!(
        rs.run(DirectReader::new(input), &mut out),
        Err(ReadError::Truncated)
    );
    // the run in hand was closed on the way out: whole frames, exact length
    assert_eq!(out.len(), 1);
    assert_eq!(out[0].name, "t_000.bin");
    assert_eq!(out[0].data.len(), 2 * 108);
    let keys: Vec<u8> = records_in(&out[0]).iter().map(|r| r.key[0]).collect();
    assert_eq!(keys, vec![2, 3]);
    // ends right after the key of the second record, while priming
    let mut input = input_of(&[3]);
    input.extend_from_slice(&[0u8; 10]);
    let mut out = Vec::new();
    assert_eq!(
        rs.run(DirectReader::new(input), &mut out),
        Err(ReadError::PayloadMissing)
    );
    assert!(out.is_empty());
    // ends inside the first key
    let mut out = Vec::new();
    assert_eq!(
        rs.run(DirectReader::new(vec![0u8; 3]), &mut out),
        Err(ReadError::Truncated)
    );
}

#[test]
fn test_files_before_the_call_stay() {
    let rs = ReplacementSelection::new(2, "k".to_string());
    let kept = RunFile {
        name: "earlier".to_string(),
        data: vec![1, 2, 3],
    };
    let mut out = vec![kept.clone()];
    assert_eq!(rs.run(DirectReader::new(input_of(&[2, 3, 1])), &mut out), Ok(2));
    assert_eq!(out.len(), 3);
    assert_eq!(out[0], kept);
    assert_eq!(out[1].name, "k_000.bin");
    assert_eq!(out[2].name, "k_001.bin");
}

#[test]
fn test_run_files_hold_whole_frames_of_large_runs() {
    // 100 ascending records: one run of 10800 bytes, over two block boundaries
    let keys: Vec<u8> = (0..100).collect();
    let rs = ReplacementSelection::new(8, "big".to_string());
    let mut out = Vec::new();
    assert_eq!(rs.run(DirectReader::new(input_of(&keys)), &mut out), Ok(1));
    assert_eq!(out[0].data.len(), 10800);
    let got: Vec<u8> = records_in(&out[0]).iter().map(|r| r.key[0]).collect();
    assert_eq!(got, keys);
}
