use segment_relay::entry::{
    Entry, ReadCursor, ReadStep, WriteEvent, WriteStatus, MAX_CHUNK_SIZE, MAX_EMPTY_POLLS,
};

fn pattern(len: usize, seed: u8) -> Vec<u8> {
    (0..len).map(|i| (i as u8).wrapping_mul(31).wrapping_add(seed)).collect()
}

fn expect_chunk(step: ReadStep) -> Vec<u8> {
    match step {
        ReadStep::Chunk(c) => c,
        ReadStep::Wait => panic!("expected a chunk, got Wait"),
        ReadStep::Stop => panic!("expected a chunk, got Stop"),
    }
}

#[test]
fn append_and_finish() {
    let mut e = Entry::new();
    assert_eq!(e.len(), 0);
    assert!(!e.is_done());
    e.append(b"abc");
    e.append(b"de");
    assert_eq!(e.bytes(), &b"abcde".to_vec());
    e.finish();
    assert!(e.is_done());
    assert_eq!(e.len(), 5);
}

#[test]
fn write_failure_still_finishes() {
    let mut e = Entry::new();
    assert_eq!(e.write_step(WriteEvent::Chunk(b"part".to_vec())), WriteStatus::Open);
    assert_eq!(e.write_step(WriteEvent::Failed), WriteStatus::Aborted);
    assert!(e.is_done());
    assert_eq!(e.bytes(), &b"part".to_vec());
}

#[test]
fn write_end_completes() {
    let mut e = Entry::new();
    assert_eq!(e.write_step(WriteEvent::Chunk(vec![1, 2])), WriteStatus::Open);
    assert_eq!(e.write_step(WriteEvent::End), WriteStatus::Completed);
    assert!(e.is_done());
    assert_eq!(e.len(), 2);
}

#[test]
fn chunks_are_capped() {
    let mut e = Entry::new();
    let data = pattern(MAX_CHUNK_SIZE + 7232, 3);
    e.append(&data);
    e.finish();
    let mut c = ReadCursor::new();
    let first = expect_chunk(c.poll(&e));
    assert_eq!(first.len(), 32768);
    let second = expect_chunk(c.poll(&e));
    assert_eq!(second.len(), 7232);
    assert!(matches!(c.poll(&e), ReadStep::Stop));
    let mut all = first;
    all.extend(second);
    assert_eq!(all, data);
}

#[test]
fn progressive_read() {
    let mut e = Entry::new();
    let mut c = ReadCursor::new();
    let mut handed: Vec<u8> = Vec::new();
    let chunks = [pattern(100, 1), pattern(3, 2), pattern(4000, 3)];
    assert!(matches!(c.poll(&e), ReadStep::Wait));
    for x in chunks.iter() {
        e.append(x);
        handed.extend(expect_chunk(c.poll(&e)));
        assert_eq!(&handed, e.bytes());
        assert_eq!(c.sent(), e.len());
    }
    e.finish();
    assert!(matches!(c.poll(&e), ReadStep::Stop));
    let whole: Vec<u8> = chunks.concat();
    assert_eq!(handed, whole);
}

#[test]
fn empty_finished_entry_stops_at_once() {
    let mut e = Entry::new();
    e.finish();
    let mut c = ReadCursor::new();
    assert!(matches!(c.poll(&e), ReadStep::Stop));
}

#[test]
fn stall_truncation() {
    let mut e = Entry::new();
    e.append(&pattern(10, 0));
    let mut c = ReadCursor::new();
    assert_eq!(expect_chunk(c.poll(&e)).len(), 10);
    for _ in 0..MAX_EMPTY_POLLS {
        assert!(matches!(c.poll(&e), ReadStep::Wait));
    }
    assert!(matches!(c.poll(&e), ReadStep::Stop));
    e.append(&pattern(10, 1));
    e.finish();
    assert_eq!(c.sent(), 10);
    assert_eq!(e.len(), 20);
}

#[test]
fn new_bytes_reset_the_empty_poll_count() {
    let mut e = Entry::new();
    let mut c = ReadCursor::new();
    for _ in 0..MAX_EMPTY_POLLS {
        assert!(matches!(c.poll(&e), ReadStep::Wait));
    }
    e.append(b"x");
    assert_eq!(expect_chunk(c.poll(&e)), b"x".to_vec());
    for _ in 0..MAX_EMPTY_POLLS {
        assert!(matches!(c.poll(&e), ReadStep::Wait));
    }
    assert!(matches!(c.poll(&e), ReadStep::Stop));
}

#[test]
fn end_to_end() {
    let mut e = Entry::new();
    let mut c = ReadCursor::new();
    let mut total = 0usize;
    let sizes = [5000usize, 5000, 2000];
    assert_eq!(e.write_step(WriteEvent::Chunk(pattern(sizes[0], 0))), WriteStatus::Open);
    for (i, size) in sizes.iter().enumerate() {
        if i > 0 {
            assert_eq!(e.write_step(WriteEvent::Chunk(pattern(*size, i as u8))), WriteStatus::Open);
        }
        total += expect_chunk(c.poll(&e)).len();
        assert!(matches!(c.poll(&e), ReadStep::Wait));
    }
    assert_eq!(e.write_step(WriteEvent::End), WriteStatus::Completed);
    assert!(matches!(c.poll(&e), ReadStep::Stop));
    assert_eq!(total, 12000);
}
