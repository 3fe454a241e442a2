use rs::engine::{SelectionEngine, Step};
use rs::io::{
    open_run_writer, read_gensort_record, write_len_key_len_payload, DirectReader, DirectWriter,
    ReadError, RunFile, ALIGNMENT,
};
use rs::record::Rec;
use rs::replacement_selection::ReplacementSelection;

fn rec(key_byte: u8, tag: u8) -> Rec {
    let mut key = [0u8; 10];
    key[0] = key_byte;
    Rec::new(key, [tag; 90])
}

fn bytes_of(keys: &[u8]) -> Vec<u8> {
    let mut input = Vec::new();
    for (i, &k) in keys.iter().enumerate() {
        let r = rec(k, i as u8);
        input.extend_from_slice(&r.key);
        input.extend_from_slice(&r.payload);
    }
    input
}

#[test]
fn test_engine_starts_empty() {
    let mut engine = SelectionEngine::new(3);
    assert!(engine.is_empty());
    assert!(!engine.is_full());
    assert_eq!(engine.len(), 0);
    assert_eq!(engine.run_index(), 0);
    assert_eq!(engine.arrived(), 0);
    assert_eq!(engine.next(), Step::Done);
}

#[test]
fn test_engine_with_no_room_is_full_at_once() {
    let engine = SelectionEngine::new(0);
    assert!(engine.is_full());
    assert!(engine.is_empty());
}

#[test]
fn test_engine_steps_in_order() {
    // keys 2, 3, 1 with room for two records
    let mut engine = SelectionEngine::new(2);
    engine.offer(rec(2, 0));
    engine.offer(rec(3, 1));
    assert!(engine.is_full());
    assert_eq!(engine.arrived(), 2);
    assert_eq!(engine.next(), Step::Emit(rec(2, 0)));
    assert_eq!(engine.len(), 1);
    // 1 is below the 2 that left: it waits for the next run
    engine.offer(rec(1, 2));
    assert_eq!(engine.next(), Step::Emit(rec(3, 1)));
    assert_eq!(engine.run_index(), 0);
    assert_eq!(engine.next(), Step::Rotate);
    assert_eq!(engine.run_index(), 1);
    assert_eq!(engine.len(), 1);
    assert_eq!(engine.next(), Step::Emit(rec(1, 2)));
    assert_eq!(engine.next(), Step::Done);
    assert_eq!(engine.next(), Step::Done);
    assert_eq!(engine.run_index(), 1);
    assert_eq!(engine.arrived(), 3);
}

#[test]
fn test_engine_takes_a_record_that_is_not_below_the_last() {
    let mut engine = SelectionEngine::new(1);
    engine.offer(rec(5, 0));
    assert_eq!(engine.next(), Step::Emit(rec(5, 0)));
    // an equal key still goes to the run in hand
    engine.offer(rec(5, 1));
    assert_eq!(engine.next(), Step::Emit(rec(5, 1)));
    engine.offer(rec(9, 2));
    assert_eq!(engine.next(), Step::Emit(rec(9, 2)));
    engine.offer(rec(8, 3));
    assert_eq!(engine.next(), Step::Rotate);
    assert_eq!(engine.next(), Step::Emit(rec(8, 3)));
    assert_eq!(engine.next(), Step::Done);
    assert_eq!(engine.run_index(), 1);
}

#[test]
fn test_take_blocks_hands_out_each_byte_once() {
    let data: Vec<u8> = (0..3 * ALIGNMENT + 500).map(|i| (i % 253) as u8).collect();
    let mut w = DirectWriter::new("f".to_string());
    let mut device: Vec<u8> = Vec::new();
    assert!(w.take_blocks().is_empty());
    w.write_all(&data[..5000]);
    let blocks = w.take_blocks();
    assert_eq!(blocks.len(), ALIGNMENT);
    device.extend_from_slice(&blocks);
    assert!(w.take_blocks().is_empty());
    w.write_all(&data[5000..]);
    let blocks = w.take_blocks();
    assert_eq!(blocks.len(), 2 * ALIGNMENT);
    device.extend_from_slice(&blocks);
    assert_eq!(w.bytes_written(), data.len() as u64);
    w.flush();
    let rest = w.take_blocks();
    assert_eq!(rest.len(), 500);
    device.extend_from_slice(&rest);
    assert_eq!(device, data);
    // what was handed out is not in the file that is left
    assert!(w.into_file().data.is_empty());
}

// The loop of a driver that keeps neither the input nor a run in memory: the
// input comes in chunks of `chunk` records, and what reaches a run file is
// taken from the writer after every record.
fn drive(input: &[u8], cap: usize, prefix: &str, chunk: usize) -> Result<Vec<RunFile>, ReadError> {
    struct Input<'a> {
        rest: &'a [u8],
        reader: DirectReader,
        chunk_bytes: usize,
    }
    impl<'a> Input<'a> {
        fn next_record(&mut self) -> Result<Option<Rec>, ReadError> {
            loop {
                match read_gensort_record(&mut self.reader)? {
                    Some(r) => return Ok(Some(r)),
                    None => {
                        if self.rest.is_empty() {
                            return Ok(None);
                        }
                        let n = self.chunk_bytes.min(self.rest.len());
                        self.reader = DirectReader::new(self.rest[..n].to_vec());
                        self.rest = &self.rest[n..];
                    }
                }
            }
        }
    }
    fn finish(writer: &mut DirectWriter, device: &mut Vec<u8>) {
        writer.flush();
        let rest = writer.take_blocks();
        device.extend_from_slice(&rest);
        assert_eq!(device.len() as u64, writer.bytes_written());
    }
    let mut input = Input {
        rest: input,
        reader: DirectReader::new(Vec::new()),
        chunk_bytes: chunk * Rec::SIZE,
    };
    let mut files: Vec<RunFile> = Vec::new();
    let mut engine = SelectionEngine::new(cap);
    while !engine.is_full() {
        match input.next_record()? {
            Some(r) => engine.offer(r),
            None => break,
        }
    }
    if engine.is_empty() {
        return Ok(files);
    }
    let mut writer = open_run_writer(prefix, engine.run_index());
    let mut device: Vec<u8> = Vec::new();
    loop {
        assert!(engine.len() <= cap);
        match engine.next() {
            Step::Done => break,
            Step::Rotate => {
                finish(&mut writer, &mut device);
                let mut done = writer.into_file();
                done.data = std::mem::take(&mut device);
                files.push(done);
                writer = open_run_writer(prefix, engine.run_index());
            }
            Step::Emit(r) => {
                write_len_key_len_payload(&mut writer, &r);
                let blocks = writer.take_blocks();
                assert_eq!(blocks.len() % ALIGNMENT, 0);
                device.extend_from_slice(&blocks);
                if let Some(next) = input.next_record()? {
                    engine.offer(next);
                }
            }
        }
    }
    finish(&mut writer, &mut device);
    let mut done = writer.into_file();
    done.data = device;
    files.push(done);
    assert_eq!(files.len(), engine.run_index() + 1);
    Ok(files)
}

#[test]
fn test_streaming_driver_gives_the_files_of_run() {
    let mut state = 99u32;
    for round in 0..60 {
        state = state.wrapping_mul(1103515245).wrapping_add(12345);
        let n = ((state >> 16) % 150) as usize;
        let keys: Vec<u8> = (0..n)
            .map(|_| {
                state = state.wrapping_mul(1103515245).wrapping_add(12345);
                (state >> 16) as u8
            })
            .collect();
        let cap = 1 + (round % 9);
        let chunk = 1 + (round % 7);
        let input = bytes_of(&keys);
        let rs = ReplacementSelection::new(cap, "s".to_string());
        let mut expected = Vec::new();
        let count = rs.run(DirectReader::new(input.clone()), &mut expected).unwrap();
        let got = drive(&input, cap, "s", chunk).unwrap();
        assert_eq!(got.len(), count);
        assert_eq!(got, expected);
    }
}

#[test]
fn test_streaming_driver_meets_the_truncation_of_run() {
    let mut input = bytes_of(&[4, 3, 2, 1]);
    input.extend_from_slice(&[0u8; 10]);
    let rs = ReplacementSelection::new(2, "s".to_string());
    let mut out = Vec::new();
    assert_eq!(
        rs.run(DirectReader::new(input.clone()), &mut out),
        Err(ReadError::PayloadMissing)
    );
    for chunk in 1..6 {
        assert_eq!(
            drive(&input, 2, "s", chunk).err(),
            Some(ReadError::PayloadMissing)
        );
    }
}

#[test]
fn test_engine_run_of_many_blocks() {
    // 200 ascending records: one run of 21600 bytes, taken out block by block
    let keys: Vec<u8> = (0..200).collect();
    let files = drive(&bytes_of(&keys), 16, "long", 50).unwrap();
    assert_eq!(files.len(), 1);
    assert_eq!(files[0].name, "long_000.bin");
    assert_eq!(files[0].data.len(), 200 * 108);
}
