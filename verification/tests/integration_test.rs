use rs::io::{decode_frame, DirectReader, RunFile};
use rs::replacement_selection::ReplacementSelection;

// Helper to create gensort-format input with specified keys
fn create_test_input(keys: &[u8]) -> Vec<u8> {
    let mut file = Vec::new();
    for &key_byte in keys {
        let mut key = [0u8; 10];
        key[0] = key_byte;
        let payload = [0u8; 90];
        file.extend_from_slice(&key);
        file.extend_from_slice(&payload);
    }
    file
}

// Helper to read keys from a run file (with length prefixes)
fn read_run_file_keys(files: &[RunFile], name: &str) -> Vec<u8> {
    let file = files.iter().find(|f| f.name == name).unwrap();
    let mut keys = Vec::new();
    let mut at = 0;
    while at < file.data.len() {
        let key_len = u32::from_le_bytes([
            file.data[at],
            file.data[at + 1],
            file.data[at + 2],
            file.data[at + 3],
        ]) as usize;
        assert_eq!(key_len, 10, "Expected key length of 10");
        let payload_len = u32::from_le_bytes([
            file.data[at + 14],
            file.data[at + 15],
            file.data[at + 16],
            file.data[at + 17],
        ]) as usize;
        assert_eq!(payload_len, 90, "Expected payload length of 90");
        let rec = decode_frame(&file.data[at..at + 108]).unwrap();
        keys.push(rec.key[0]); // Store first byte as identifier
        at += 108;
    }
    keys
}

// Helper to verify a run is sorted
fn verify_run_sorted(keys: &[u8]) -> bool {
    keys.windows(2).all(|w| w[0] <= w[1])
}

fn run_from_input(rs: &ReplacementSelection, input: Vec<u8>, out: &mut Vec<RunFile>) -> usize {
    rs.run(DirectReader::new(input), out).unwrap()
}

#[test]
fn test_sorted_input_produces_single_run() {
    let run_prefix = "test_sorted_run";

    // Create sorted input: 1, 2, 3, 4, 5
    let input = create_test_input(&[1, 2, 3, 4, 5]);

    // Run replacement selection with small heap
    let rs = ReplacementSelection::new(3, run_prefix.to_string());
    let mut out = Vec::new();
    let num_runs = run_from_input(&rs, input, &mut out);

    // Should produce exactly 1 run for sorted input
    assert_eq!(num_runs, 1, "Sorted input should produce single run");

    // Verify the run is sorted
    let keys = read_run_file_keys(&out, &format!("{}_000.bin", run_prefix));
    assert!(verify_run_sorted(&keys), "Run should be sorted");
    assert_eq!(keys, vec![1, 2, 3, 4, 5], "All keys should be present");
}

#[test]
fn test_reverse_sorted_produces_multiple_runs() {
    let run_prefix = "test_reverse_run";

    // Create reverse sorted input: 5, 4, 3, 2, 1
    let input = create_test_input(&[5, 4, 3, 2, 1]);

    // Run replacement selection with heap capacity of 2
    let rs = ReplacementSelection::new(2, run_prefix.to_string());
    let mut out = Vec::new();
    let num_runs = run_from_input(&rs, input, &mut out);

    // Reverse sorted should produce multiple runs
    assert!(num_runs > 1, "Reverse sorted should produce multiple runs");

    // Verify each run is sorted
    for i in 0..num_runs {
        let run_file = format!("{}_{:03}.bin", run_prefix, i);
        let keys = read_run_file_keys(&out, &run_file);
        assert!(verify_run_sorted(&keys), "Run {} should be sorted", i);
    }
}

#[test]
fn test_random_input_all_records_present() {
    let run_prefix = "test_random_run";

    // Create random input
    let input_keys = vec![3, 1, 4, 1, 5, 9, 2, 6, 5, 3];
    let input = create_test_input(&input_keys);

    // Run replacement selection
    let rs = ReplacementSelection::new(4, run_prefix.to_string());
    let mut out = Vec::new();
    let num_runs = run_from_input(&rs, input, &mut out);

    // Collect all output keys from all runs
    let mut all_output_keys = Vec::new();
    for i in 0..num_runs {
        let run_file = format!("{}_{:03}.bin", run_prefix, i);
        if out.iter().any(|f| f.name == run_file) {
            let mut keys = read_run_file_keys(&out, &run_file);
            all_output_keys.append(&mut keys);
        }
    }

    // Verify all input keys are in output
    assert_eq!(
        all_output_keys.len(),
        input_keys.len(),
        "All records should be present"
    );

    let mut sorted_input = input_keys.clone();
    sorted_input.sort();
    let mut sorted_output = all_output_keys.clone();
    sorted_output.sort();
    assert_eq!(
        sorted_output, sorted_input,
        "Output should contain same keys as input"
    );
    assert_eq!(sorted_output, vec![1, 1, 2, 3, 3, 4, 5, 5, 6, 9]);

    // Verify each run is individually sorted
    for i in 0..num_runs {
        let run_file = format!("{}_{:03}.bin", run_prefix, i);
        let keys = read_run_file_keys(&out, &run_file);
        assert!(verify_run_sorted(&keys), "Run {} should be sorted", i);
    }
}

#[test]
fn integration_test_test_empty_input() {
    let run_prefix = "test_empty_run";

    // Create empty input
    let input = Vec::new();

    // Run replacement selection
    let rs = ReplacementSelection::new(10, run_prefix.to_string());
    let mut out = Vec::new();
    let num_runs = run_from_input(&rs, input, &mut out);

    // Should produce 0 runs for empty input
    assert_eq!(num_runs, 0, "Empty input should produce 0 runs");
    assert!(out.is_empty());
}

#[test]
fn integration_test_test_single_record() {
    let run_prefix = "test_single_run";

    // Create input with single record
    let input = create_test_input(&[42]);

    // Run replacement selection
    let rs = ReplacementSelection::new(10, run_prefix.to_string());
    let mut out = Vec::new();
    let num_runs = run_from_input(&rs, input, &mut out);

    // Should produce 1 run
    assert_eq!(num_runs, 1, "Single record should produce 1 run");

    let keys = read_run_file_keys(&out, &format!("{}_000.bin", run_prefix));
    assert_eq!(keys, vec![42], "Should contain the single key");
}

#[test]
fn test_heap_capacity_effect() {
    // Create reverse sorted input
    let input_keys: Vec<u8> = (1..=10).rev().collect();
    let input = create_test_input(&input_keys);

    // Test with small heap capacity
    let rs_small = ReplacementSelection::new(2, "test_cap_small".to_string());
    let mut out_small = Vec::new();
    let num_runs_small = run_from_input(&rs_small, input.clone(), &mut out_small);

    // Test with larger heap capacity
    let rs_large = ReplacementSelection::new(5, "test_cap_large".to_string());
    let mut out_large = Vec::new();
    let num_runs_large = run_from_input(&rs_large, input, &mut out_large);

    // Larger heap should produce fewer or equal runs
    assert!(
        num_runs_large <= num_runs_small,
        "Larger heap should not produce more runs than smaller heap"
    );
    assert_eq!(num_runs_small, 5);
    assert_eq!(num_runs_large, 2);
}
