use ffdb::data::SeriesData;
use ffdb::record::{Sample, SAMPLE_SIZE};
use ffdb::table::{search_first, ChunkSearch, SearchStep};

fn file_of(keys: &[u64]) -> Vec<u8> {
    let mut out = Vec::new();
    for &index in keys {
        Sample { index, data: 0 }.serialize_into(&mut out);
    }
    out
}

fn one_to_ten() -> Vec<u8> {
    file_of(&[1, 2, 3, 4, 5, 6, 7, 8, 9, 10])
}

#[test]
fn search_empty_file_not_found() {
    let bytes: Vec<u8> = Vec::new();
    assert_eq!(search_first::<Sample, _>(&bytes, 3, &|_k: u64| true), None);
}

#[test]
fn search_always_false_not_found() {
    let bytes = one_to_ten();
    for chunk in 1..12 {
        assert_eq!(search_first::<Sample, _>(&bytes, chunk, &|_k: u64| false), None);
    }
}

#[test]
fn search_always_true_finds_index_zero() {
    let bytes = one_to_ten();
    for chunk in 1..12 {
        assert_eq!(search_first::<Sample, _>(&bytes, chunk, &|_k: u64| true), Some(0));
    }
}

#[test]
fn search_key_greater_than_six_chunk_three() {
    let bytes = one_to_ten();
    assert_eq!(search_first::<Sample, _>(&bytes, 3, &|k: u64| k > 6), Some(6));
}

#[test]
fn search_result_does_not_depend_on_chunk_size() {
    let bytes = one_to_ten();
    for chunk in 1..15 {
        assert_eq!(search_first::<Sample, _>(&bytes, chunk, &|k: u64| k > 6), Some(6));
        assert_eq!(search_first::<Sample, _>(&bytes, chunk, &|k: u64| k >= 10), Some(9));
        assert_eq!(search_first::<Sample, _>(&bytes, chunk, &|k: u64| k > 10), None);
    }
}

#[test]
fn search_chunk_of_no_records_finds_nothing() {
    let bytes = one_to_ten();
    assert_eq!(search_first::<Sample, _>(&bytes, 0, &|_k: u64| true), None);
}

#[test]
fn search_exactly_whole_chunks() {
    let bytes = file_of(&[1, 2, 3, 4, 5, 6]);
    assert_eq!(search_first::<Sample, _>(&bytes, 3, &|k: u64| k > 100), None);
    assert_eq!(search_first::<Sample, _>(&bytes, 3, &|k: u64| k > 3), Some(3));
    assert_eq!(search_first::<Sample, _>(&bytes, 2, &|k: u64| k > 5), Some(5));
}

#[test]
fn search_equal_keys_finds_first_of_them() {
    let bytes = file_of(&[1, 4, 4, 4, 4, 9]);
    assert_eq!(search_first::<Sample, _>(&bytes, 4, &|k: u64| k >= 4), Some(1));
}

#[test]
fn chunk_search_steps() {
    let bytes = one_to_ten();
    let mut search = ChunkSearch::<Sample>::new(3);
    assert_eq!(search.chunk_len(), 3 * SAMPLE_SIZE);
    let pred = |k: u64| k > 6;
    assert_eq!(search.step(&bytes[0..36], &pred), SearchStep::ReadMore);
    assert_eq!(search.step(&bytes[36..72], &pred), SearchStep::ReadMore);
    assert_eq!(search.step(&bytes[72..108], &pred), SearchStep::Found(6));
}

#[test]
fn chunk_search_short_chunk_ends_search() {
    let bytes = one_to_ten();
    let mut search = ChunkSearch::<Sample>::new(4);
    let pred = |k: u64| k > 50;
    assert_eq!(search.step(&bytes[0..48], &pred), SearchStep::ReadMore);
    assert_eq!(search.step(&bytes[48..96], &pred), SearchStep::ReadMore);
    assert_eq!(search.step(&bytes[96..120], &pred), SearchStep::NotFound);
}

#[test]
fn chunk_search_empty_read_ends_search() {
    let bytes = file_of(&[1, 2]);
    let mut search = ChunkSearch::<Sample>::new(2);
    let pred = |k: u64| k > 5;
    assert_eq!(search.step(&bytes[..], &pred), SearchStep::ReadMore);
    assert_eq!(search.step(&bytes[24..24], &pred), SearchStep::NotFound);
}
