use ffdb::data::SeriesData;
use ffdb::record::{Sample, SAMPLE_SIZE};
use ffdb::storage_buffer::{HeapBuffer, StorageBuffer, Unbuffered};
use ffdb::table::stage_record;

fn encode(samples: &[Sample]) -> Vec<u8> {
    let mut out = Vec::new();
    for s in samples {
        s.serialize_into(&mut out);
    }
    out
}

fn sample(index: u64) -> Sample {
    Sample { index, data: (index as u32) * 3 + 1 }
}

#[test]
fn sample_serializes_little_endian() {
    let s = Sample { index: 0x0102_0304_0506_0708, data: 0x0a0b_0c0d };
    let mut out = vec![0xffu8];
    s.serialize_into(&mut out);
    assert_eq!(out, vec![0xff, 8, 7, 6, 5, 4, 3, 2, 1, 0x0d, 0x0c, 0x0b, 0x0a]);
    assert_eq!(Sample::size(), 12);
    assert_eq!(SAMPLE_SIZE, 12);
    assert_eq!(s.get_series_data(), 0x0102_0304_0506_0708);
}

#[test]
fn sample_round_trip() {
    for s in [
        Sample { index: 0, data: 0 },
        Sample { index: u64::MAX, data: u32::MAX },
        Sample { index: 561324, data: 461 },
    ] {
        let bytes = encode(&[s]);
        assert_eq!(bytes.len(), 12);
        assert_eq!(Sample::deserialize_from(&bytes), s);
    }
}

#[test]
fn unbuffered_push_always_flushes() {
    let mut buffer = Unbuffered::<Sample>::new();
    assert!(buffer.accepts_records());
    assert!(buffer.push(sample(1)));
    assert!(buffer.push(sample(2)));
    let mut out = Vec::new();
    buffer.flush_into(&mut out);
    assert_eq!(out, encode(&[sample(2)]));
    // the pending slot is empty after a flush
    buffer.flush_into(&mut out);
    assert_eq!(out, encode(&[sample(2)]));
}

#[test]
fn unbuffered_flush_when_empty_writes_nothing() {
    let mut buffer = Unbuffered::<Sample>::new();
    let mut out = vec![1u8, 2];
    buffer.flush_into(&mut out);
    assert_eq!(out, vec![1u8, 2]);
}

#[test]
fn heap_two_pushes_fill_exact_capacity() {
    let mut buffer = HeapBuffer::new(2 * SAMPLE_SIZE);
    assert!(!buffer.push(sample(1)));
    assert!(buffer.push(sample(2)));
    let mut out = Vec::new();
    StorageBuffer::<Sample>::flush_into(&mut buffer, &mut out);
    assert_eq!(out, encode(&[sample(1), sample(2)]));
    let mut again = Vec::new();
    StorageBuffer::<Sample>::flush_into(&mut buffer, &mut again);
    assert!(again.is_empty());
}

#[test]
fn heap_pushes_within_capacity_keep_order() {
    let mut buffer = HeapBuffer::new(5 * SAMPLE_SIZE);
    for i in 0..3u64 {
        assert!(!buffer.push(sample(i)));
    }
    let mut out = Vec::new();
    StorageBuffer::<Sample>::flush_into(&mut buffer, &mut out);
    assert_eq!(out, encode(&[sample(0), sample(1), sample(2)]));
    // the buffer starts over after a flush
    assert!(!buffer.push(sample(9)));
    let mut next = Vec::new();
    StorageBuffer::<Sample>::flush_into(&mut buffer, &mut next);
    assert_eq!(next, encode(&[sample(9)]));
}

#[test]
fn heap_overflow_overwrites_last_record() {
    let mut buffer = HeapBuffer::new(2 * SAMPLE_SIZE);
    assert!(!buffer.push(sample(1)));
    assert!(buffer.push(sample(2)));
    // pushed without a flush: the new record takes the place of the last one
    assert!(buffer.push(sample(3)));
    let mut out = Vec::new();
    StorageBuffer::<Sample>::flush_into(&mut buffer, &mut out);
    assert_eq!(out, encode(&[sample(1), sample(3)]));
}

#[test]
fn heap_overflow_with_uneven_capacity() {
    let mut buffer = HeapBuffer::new(30);
    assert!(!buffer.push(sample(1)));
    assert!(buffer.push(sample(2)));
    assert!(buffer.push(sample(3)));
    let mut out = Vec::new();
    StorageBuffer::<Sample>::flush_into(&mut buffer, &mut out);
    let mut expected = encode(&[sample(1), sample(2)]);
    expected.truncate(18);
    expected.extend(encode(&[sample(3)]));
    assert_eq!(out.len(), 30);
    assert_eq!(out, expected);
}

#[test]
fn heap_too_small_for_a_record() {
    let small = HeapBuffer::new(SAMPLE_SIZE - 1);
    assert!(!StorageBuffer::<Sample>::accepts_records(&small));
    let exact = HeapBuffer::new(SAMPLE_SIZE);
    assert!(StorageBuffer::<Sample>::accepts_records(&exact));
}

#[test]
fn heap_of_one_record_flushes_every_push() {
    let mut buffer = HeapBuffer::new(SAMPLE_SIZE);
    assert!(buffer.push(sample(4)));
    let mut out = Vec::new();
    StorageBuffer::<Sample>::flush_into(&mut buffer, &mut out);
    assert_eq!(out, encode(&[sample(4)]));
}

#[test]
fn stage_record_drains_when_full() {
    let mut buffer = HeapBuffer::new(2 * SAMPLE_SIZE);
    assert_eq!(stage_record(&mut buffer, sample(1)), None);
    assert_eq!(stage_record(&mut buffer, sample(2)), Some(encode(&[sample(1), sample(2)])));
    assert_eq!(stage_record(&mut buffer, sample(3)), None);
    let mut out = Vec::new();
    StorageBuffer::<Sample>::flush_into(&mut buffer, &mut out);
    assert_eq!(out, encode(&[sample(3)]));
}

#[test]
fn stage_record_unbuffered_drains_every_record() {
    let mut buffer = Unbuffered::<Sample>::new();
    assert_eq!(stage_record(&mut buffer, sample(5)), Some(encode(&[sample(5)])));
    assert_eq!(stage_record(&mut buffer, sample(6)), Some(encode(&[sample(6)])));
}

#[test]
fn stage_record_keeps_push_order() {
    let mut buffer = HeapBuffer::new(3 * SAMPLE_SIZE + 5);
    let mut committed = Vec::new();
    let pushed: Vec<Sample> = (0..10u64).map(sample).collect();
    for s in &pushed {
        if let Some(bytes) = stage_record(&mut buffer, *s) {
            committed.extend(bytes);
        }
    }
    assert_eq!(committed.len(), 9 * SAMPLE_SIZE);
    StorageBuffer::<Sample>::flush_into(&mut buffer, &mut committed);
    assert_eq!(committed, encode(&pushed));
}

#[test]
fn committed_bytes_read_back_in_order() {
    let pushed: Vec<Sample> = (0..5u64).map(sample).collect();
    let bytes = encode(&pushed);
    let read: Vec<Sample> = bytes.chunks(SAMPLE_SIZE).map(Sample::deserialize_from).collect();
    assert_eq!(read, pushed);
}
