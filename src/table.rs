use vstd::arithmetic::div_mod::{lemma_div_by_multiple, lemma_fundamental_div_mod};
use vstd::prelude::*;
use vstd::slice::slice_subrange;

use crate::data::SeriesData;
use crate::storage_buffer::{encode_all, lemma_encode_all_len, StorageBuffer};

verus! {

/// Stages `record` in `buffer`. When the buffer asks to be flushed, drains it
/// and returns the bytes to append to the record file; otherwise returns
/// `None` and the record stays staged.
pub fn stage_record<T: SeriesData, B: StorageBuffer<T>>(buffer: &mut B, record: T) -> (out: Option<
    Vec<u8>,
>)
    requires
        old(buffer).takes_records(),
    ensures
        old(buffer).must_flush_after_push(record) ==> {
            &&& out matches Some(bytes)
            &&& bytes@ == old(buffer).staged_after_push(record)
            &&& final(buffer).staged() == Seq::<u8>::empty()
            &&& final(buffer).cleared()
        },
        !old(buffer).must_flush_after_push(record) ==> {
            &&& out is None
            &&& final(buffer).staged() == old(buffer).staged_after_push(record)
        },
        final(buffer).limit() == old(buffer).limit(),
        final(buffer).takes_records(),
{
    if buffer.push(record) {
        let mut bytes: Vec<u8> = Vec::new();
        buffer.flush_into(&mut bytes);
        assert(bytes@ =~= old(buffer).staged_after_push(record));
        Some(bytes)
    } else {
        None
    }
}

/// `pred` accepts every key and gives each key the same answer on every call.
pub open spec fn is_predicate<K, F: Fn(K) -> bool>(pred: F) -> bool {
    &&& forall|k: K| #[trigger] pred.requires((k,))
    &&& forall|k: K, b: bool| #[trigger] pred.ensures((k,), b) ==> b == pred.ensures((k,), true)
}

/// `pred` is true of `k`.
pub open spec fn holds<K, F: Fn(K) -> bool>(pred: F, k: K) -> bool {
    pred.ensures((k,), true)
}

/// Along `keys`, `pred` is false on a prefix and true on the rest.
pub open spec fn is_monotone<K, F: Fn(K) -> bool>(keys: Seq<K>, pred: F) -> bool {
    forall|i: int, j: int|
        0 <= i <= j < keys.len() && holds(pred, #[trigger] keys[i]) ==> holds(
            pred,
            #[trigger] keys[j],
        )
}

/// `i` is the position of the first key of `keys` that `pred` is true of.
pub open spec fn is_first_match<K, F: Fn(K) -> bool>(keys: Seq<K>, pred: F, i: int) -> bool {
    &&& 0 <= i < keys.len()
    &&& holds(pred, keys[i])
    &&& forall|j: int| 0 <= j < i ==> !holds(pred, #[trigger] keys[j])
}

/// The position of the first key of `keys` that `pred` is true of, if any.
pub open spec fn first_match<K, F: Fn(K) -> bool>(keys: Seq<K>, pred: F) -> Option<nat> {
    if exists|i: int| is_first_match(keys, pred, i) {
        Some((choose|i: int| is_first_match(keys, pred, i)) as nat)
    } else {
        None
    }
}

/// A search result as a mathematical index.
pub open spec fn index_of(r: Option<usize>) -> Option<nat> {
    match r {
        Some(i) => Some(i as nat),
        None => None,
    }
}

/// The number of whole records in a committed byte image.
pub open spec fn record_count<T: SeriesData>(bytes: Seq<u8>) -> nat {
    if T::spec_size() == 0 {
        0
    } else {
        bytes.len() / T::spec_size()
    }
}

/// The image is a concatenation of whole records.
pub open spec fn whole_records<T: SeriesData>(bytes: Seq<u8>) -> bool {
    T::spec_size() > 0 ==> bytes.len() % T::spec_size() == 0
}

/// The `i`-th record of a committed byte image.
pub open spec fn record_at<T: SeriesData>(bytes: Seq<u8>, i: int) -> T {
    let s = T::spec_size() as int;
    T::decoding(bytes.subrange(i * s, i * s + s))
}

/// The keys of the records of a committed byte image, in file order.
pub open spec fn keys_of<T: SeriesData>(bytes: Seq<u8>) -> Seq<T::SeriesType> {
    Seq::new(record_count::<T>(bytes), |i: int| record_at::<T>(bytes, i).key())
}

/// The records of a committed byte image, in file order.
pub open spec fn records_of<T: SeriesData>(bytes: Seq<u8>) -> Seq<T> {
    Seq::new(record_count::<T>(bytes), |i: int| record_at::<T>(bytes, i))
}

/// A first match, where one exists, is the one `first_match` names; with none,
/// `first_match` is `None`.
pub proof fn lemma_first_match_is<K, F: Fn(K) -> bool>(keys: Seq<K>, pred: F, i: int)
    ensures
        is_first_match(keys, pred, i) ==> first_match(keys, pred) == Some(i as nat),
        (forall|j: int| 0 <= j < keys.len() ==> !holds(pred, #[trigger] keys[j])) ==> first_match(
            keys,
            pred,
        ) is None,
{
    if is_first_match(keys, pred, i) {
        let c = choose|c: int| is_first_match(keys, pred, c);
        if c < i {
            assert(!holds(pred, keys[c]));
        } else if i < c {
            assert(!holds(pred, keys[i]));
        }
    }
}

/// Where `pred` is true of some key, a first match exists.
proof fn lemma_exists_first_match<K, F: Fn(K) -> bool>(keys: Seq<K>, pred: F, i: int)
    requires
        0 <= i < keys.len(),
        holds(pred, keys[i]),
    ensures
        exists|x: int| is_first_match(keys, pred, x),
    decreases i,
{
    if exists|j: int| 0 <= j < i && holds(pred, #[trigger] keys[j]) {
        let j = choose|j: int| 0 <= j < i && holds(pred, #[trigger] keys[j]);
        lemma_exists_first_match(keys, pred, j);
    } else {
        assert(is_first_match(keys, pred, i));
    }
}

/// The keys of a chunk cut from a committed image at record `seen` are the
/// image's keys from `seen` on.
proof fn lemma_chunk_keys<T: SeriesData>(bytes: Seq<u8>, seen: int, end: int)
    requires
        T::spec_size() > 0,
        whole_records::<T>(bytes),
        0 <= seen,
        seen * T::spec_size() <= end <= bytes.len(),
        (end - seen * T::spec_size()) % (T::spec_size() as int) == 0,
    ensures
        ({
            let s = T::spec_size() as int;
            let chunk = bytes.subrange(seen * s, end);
            let c = record_count::<T>(chunk) as int;
            &&& whole_records::<T>(chunk)
            &&& end == (seen + c) * s
            &&& seen + c <= record_count::<T>(bytes)
            &&& keys_of::<T>(chunk) == keys_of::<T>(bytes).subrange(seen, seen + c)
        }),
{
    let s = T::spec_size() as int;
    let chunk = bytes.subrange(seen * s, end);
    let c = record_count::<T>(chunk) as int;
    let m = record_count::<T>(bytes) as int;
    lemma_whole_len(chunk.len() as int, s);
    lemma_whole_len(bytes.len() as int, s);
    assert(seen * s + c * s == (seen + c) * s) by (nonlinear_arith);
    assert(seen + c <= m) by (nonlinear_arith)
        requires
            (seen + c) * s <= m * s,
            s > 0,
    ;
    assert forall|i: int| 0 <= i < c implies #[trigger] keys_of::<T>(chunk)[i] == keys_of::<T>(
        bytes,
    )[seen + i] by {
        lemma_record_window(i, c, s);
        lemma_record_window(seen + i, m, s);
        assert(seen * s + i * s == (seen + i) * s) by (nonlinear_arith);
        assert(chunk.subrange(i * s, i * s + s) =~= bytes.subrange(
            (seen + i) * s,
            (seen + i) * s + s,
        ));
    }
    assert(keys_of::<T>(chunk) =~= keys_of::<T>(bytes).subrange(seen, seen + c));
}

/// A length that is a multiple of `s` is its quotient times `s`.
proof fn lemma_whole_len(len: int, s: int)
    requires
        0 <= len,
        0 < s,
        len % s == 0,
    ensures
        len == (len / s) * s,
        len / s >= 0,
        len > 0 ==> len / s > 0,
{
    lemma_fundamental_div_mod(len, s);
    assert(s * (len / s) == (len / s) * s) by (nonlinear_arith);
    assert(len / s >= 0) by (nonlinear_arith)
        requires
            0 <= len,
            0 < s,
    ;
    if len > 0 && len / s == 0 {
        assert((len / s) * s == 0);
    }
}

/// Record `i` of `n` lies within `n * s` bytes.
proof fn lemma_record_window(i: int, n: int, s: int)
    requires
        0 <= i < n,
        0 <= s,
    ensures
        0 <= i * s,
        i * s + s <= n * s,
        i * s + s == (i + 1) * s,
{
    assert(i * s + s == (i + 1) * s) by (nonlinear_arith);
    assert(0 <= i * s) by (nonlinear_arith)
        requires
            0 <= i,
            0 <= s,
    ;
    assert(i * s + s <= n * s) by (nonlinear_arith)
        requires
            i < n,
            0 <= s,
    ;
}

/// The outcome of one step of a chunked search.
#[derive(Debug, PartialEq, Eq, Structural)]
pub enum SearchStep {
    /// The record at this index is the first that the predicate is true of.
    Found(usize),
    /// No committed record satisfies the predicate.
    NotFound,
    /// Nothing in this chunk matches: read the next one.
    ReadMore,
}

/// The state of a search that reads the record file chunk by chunk from its
/// start.
pub struct ChunkSearch<T: SeriesData> {
    chunk_records: usize,
    chunk_len: usize,
    seen: usize,
    record: core::marker::PhantomData<T>,
}

impl<T: SeriesData> ChunkSearch<T> {
    #[verifier::type_invariant]
    spec fn chunk_in_bytes(&self) -> bool {
        self.chunk_len == self.chunk_records * T::spec_size()
    }

    /// Records per full chunk.
    pub closed spec fn spec_chunk_records(&self) -> nat {
        self.chunk_records as nat
    }

    /// Bytes per full chunk.
    pub closed spec fn spec_chunk_len(&self) -> nat {
        self.chunk_len as nat
    }

    /// Records passed over so far, none of which matched.
    pub closed spec fn spec_seen(&self) -> nat {
        self.seen as nat
    }

    /// A search that reads `chunk_records` records at a time.
    pub fn new(chunk_records: usize) -> (r: Self)
        requires
            chunk_records * T::spec_size() <= usize::MAX,
        ensures
            r.spec_chunk_records() == chunk_records,
            r.spec_chunk_len() == chunk_records * T::spec_size(),
            r.spec_seen() == 0,
    {
        let size = T::size();
        ChunkSearch {
            chunk_records,
            chunk_len: chunk_records * size,
            seen: 0,
            record: core::marker::PhantomData,
        }
    }

    /// Bytes per full chunk: the size of the read buffer.
    pub fn chunk_len(&self) -> (r: usize)
        ensures
            r == self.spec_chunk_len(),
    {
        self.chunk_len
    }

    /// Decides on the next `chunk` read from the record file. An empty chunk
    /// ends the search. A chunk whose last record fails the predicate is
    /// passed over whole; otherwise its records are tested from the start. A
    /// short chunk is the last one.
    pub fn step<F: Fn(T::SeriesType) -> bool>(&mut self, chunk: &[u8], pred: &F) -> (r: SearchStep)
        requires
            chunk@.len() <= old(self).spec_chunk_len(),
            whole_records::<T>(chunk@),
            old(self).spec_seen() + record_count::<T>(chunk@) <= usize::MAX,
            is_predicate(*pred),
            is_monotone(keys_of::<T>(chunk@), *pred),
        ensures
            final(self).spec_chunk_records() == old(self).spec_chunk_records(),
            final(self).spec_chunk_len() == old(self).spec_chunk_len(),
            chunk@.len() == 0 ==> r == SearchStep::NotFound,
            chunk@.len() > 0 ==> match first_match(keys_of::<T>(chunk@), *pred) {
                Some(i) => r == SearchStep::Found((old(self).spec_seen() + i) as usize),
                None => if chunk@.len() == old(self).spec_chunk_len() {
                    &&& r == SearchStep::ReadMore
                    &&& final(self).spec_seen() == old(self).spec_seen()
                        + old(self).spec_chunk_records()
                } else {
                    r == SearchStep::NotFound
                },
            },
    {
        proof {
            use_type_invariant(&*self);
        }
        let len = chunk.len();
        if len == 0 {
            return SearchStep::NotFound;
        }
        let size = T::size();
        let ghost s = size as int;
        let ghost keys = keys_of::<T>(chunk@);
        proof {
            if s == 0 {
                assert(self.chunk_records * T::spec_size() == 0);
            }
            lemma_whole_len(len as int, s);
        }
        let n = len / size;
        proof {
            lemma_record_window(n - 1, n as int, s);
        }
        let last = T::deserialize_from(slice_subrange(chunk, (n - 1) * size, n * size));
        if pred(last.get_series_data()) {
            assert(holds(*pred, keys[n - 1]));
            let mut i: usize = 0;
            while i < n
                invariant
                    0 <= i <= n,
                    n == keys.len(),
                    n * s == len,
                    len == chunk@.len(),
                    s == size,
                    s == T::spec_size(),
                    self.seen + n <= usize::MAX,
                    keys == keys_of::<T>(chunk@),
                    holds(*pred, keys[n - 1]),
                    is_predicate(*pred),
                    forall|j: int| 0 <= j < i ==> !holds(*pred, #[trigger] keys[j]),
                decreases n - i,
            {
                proof {
                    lemma_record_window(i as int, n as int, s);
                }
                let record = T::deserialize_from(slice_subrange(chunk, i * size, i * size + size));
                if pred(record.get_series_data()) {
                    proof {
                        assert(is_first_match(keys, *pred, i as int));
                        lemma_first_match_is(keys, *pred, i as int);
                    }
                    return SearchStep::Found(self.seen + i);
                }
                i = i + 1;
            }
            assert(!holds(*pred, keys[n - 1]));
        }
        proof {
            assert forall|j: int| 0 <= j < keys.len() implies !holds(*pred, #[trigger] keys[j]) by {
                assert(!holds(*pred, keys[n - 1]));
            }
            lemma_first_match_is(keys, *pred, 0);
        }
        if len == self.chunk_len {
            proof {
                lemma_div_by_multiple(self.chunk_records as int, s);
            }
            self.seen = self.seen + n;
            SearchStep::ReadMore
        } else {
            SearchStep::NotFound
        }
    }
}

/// Finds the first record of a committed byte image whose key `pred` is true
/// of, reading `chunk_records` records at a time as a search of the record
/// file does. With chunks of no records nothing is read and nothing is found.
pub fn search_first<T: SeriesData, F: Fn(T::SeriesType) -> bool>(
    bytes: &[u8],
    chunk_records: usize,
    pred: &F,
) -> (r: Option<usize>)
    requires
        chunk_records * T::spec_size() <= usize::MAX,
        whole_records::<T>(bytes@),
        is_predicate(*pred),
        is_monotone(keys_of::<T>(bytes@), *pred),
    ensures
        chunk_records == 0 ==> r is None,
        chunk_records > 0 ==> index_of(r) == first_match(keys_of::<T>(bytes@), *pred),
{
    let ghost s = T::spec_size() as int;
    let ghost keys = keys_of::<T>(bytes@);
    let mut search = ChunkSearch::<T>::new(chunk_records);
    let chunk_len = search.chunk_len();
    let len = bytes.len();
    let mut pos: usize = 0;
    proof {
        if s == 0 {
            lemma_first_match_is(keys, *pred, 0);
        } else {
            lemma_whole_len(len as int, s);
        }
    }
    loop
        invariant
            s == T::spec_size(),
            keys == keys_of::<T>(bytes@),
            len == bytes@.len(),
            whole_records::<T>(bytes@),
            is_predicate(*pred),
            is_monotone(keys, *pred),
            chunk_len == chunk_records * s,
            search.spec_chunk_len() == chunk_len,
            search.spec_chunk_records() == chunk_records,
            pos <= len,
            pos == search.spec_seen() * s,
            search.spec_seen() <= keys.len(),
            s > 0 ==> len == keys.len() * s,
            s == 0 ==> chunk_len == 0 && keys.len() == 0,
            forall|j: int| 0 <= j < search.spec_seen() ==> !holds(*pred, #[trigger] keys[j]),
        decreases len - pos,
    {
        let end = if len - pos < chunk_len {
            len
        } else {
            pos + chunk_len
        };
        let chunk = slice_subrange(bytes, pos, end);
        let ghost seen = search.spec_seen() as int;
        proof {
            if s > 0 {
                if end < len {
                    vstd::arithmetic::div_mod::lemma_mod_multiples_basic(chunk_records as int, s);
                } else {
                    let rest = keys.len() - seen;
                    assert(len - seen * s == rest * s) by (nonlinear_arith)
                        requires
                            len == keys.len() * s,
                            rest == keys.len() - seen,
                    ;
                    vstd::arithmetic::div_mod::lemma_mod_multiples_basic(rest, s);
                }
                lemma_chunk_keys::<T>(bytes@, seen, end as int);
                let c = record_count::<T>(chunk@) as int;
                assert forall|i: int, j: int|
                    0 <= i <= j < c && holds(*pred, #[trigger] keys_of::<T>(chunk@)[i]) implies holds(
                    *pred,
                    #[trigger] keys_of::<T>(chunk@)[j],
                ) by {
                    assert(keys_of::<T>(chunk@)[i] == keys[seen + i]);
                    assert(keys_of::<T>(chunk@)[j] == keys[seen + j]);
                }
            } else {
                assert(keys_of::<T>(chunk@) =~= Seq::<T::SeriesType>::empty());
            }
        }
        match search.step(chunk, pred) {
            SearchStep::Found(i) => {
                proof {
                    let ci = (i - seen) as int;
                    let chunk_keys = keys_of::<T>(chunk@);
                    lemma_first_match_is(chunk_keys, *pred, ci);
                    let c = choose|c: int| is_first_match(chunk_keys, *pred, c);
                    lemma_first_match_is(chunk_keys, *pred, c);
                    assert(is_first_match(keys, *pred, i as int)) by {
                        assert forall|j: int| 0 <= j < i implies !holds(*pred, #[trigger] keys[j]) by {
                            if j >= seen {
                                assert(keys[j] == chunk_keys[j - seen]);
                            }
                        }
                    }
                    lemma_first_match_is(keys, *pred, i as int);
                }
                return Some(i);
            },
            SearchStep::NotFound => {
                proof {
                    if chunk_records > 0 {
                        if s > 0 {
                            let chunk_keys = keys_of::<T>(chunk@);
                            assert(chunk_len > 0) by (nonlinear_arith)
                                requires
                                    chunk_len == chunk_records * s,
                                    chunk_records > 0,
                                    s > 0,
                            ;
                            assert(end == len);
                            let c = record_count::<T>(chunk@) as int;
                            lemma_whole_len(len as int, s);
                            if chunk@.len() > 0 {
                                if exists|x: int| is_first_match(chunk_keys, *pred, x) {
                                    let x = choose|x: int| is_first_match(chunk_keys, *pred, x);
                                    lemma_first_match_is(chunk_keys, *pred, x);
                                }
                            }
                            assert(seen + c == keys.len()) by (nonlinear_arith)
                                requires
                                    len == (seen + c) * s,
                                    len == (keys.len() as int) * s,
                                    s > 0,
                            ;
                            assert forall|j: int| 0 <= j < keys.len() implies !holds(
                                *pred,
                                #[trigger] keys[j],
                            ) by {
                                if j >= seen {
                                    assert(keys[j] == chunk_keys[j - seen]);
                                    if holds(*pred, chunk_keys[j - seen]) {
                                        assert(exists|x: int| is_first_match(chunk_keys, *pred, x))
                                            by {
                                            lemma_exists_first_match(chunk_keys, *pred, j - seen);
                                        }
                                    }
                                }
                            }
                        }
                        lemma_first_match_is(keys, *pred, 0);
                    }
                }
                return None;
            },
            SearchStep::ReadMore => {
                proof {
                    let chunk_keys = keys_of::<T>(chunk@);
                    let c = record_count::<T>(chunk@) as int;
                    lemma_whole_len(chunk_len as int, s);
                    lemma_div_by_multiple(chunk_records as int, s);
                    if exists|x: int| is_first_match(chunk_keys, *pred, x) {
                        let x = choose|x: int| is_first_match(chunk_keys, *pred, x);
                        lemma_first_match_is(chunk_keys, *pred, x);
                    }
                    assert forall|j: int| 0 <= j < seen + c implies !holds(*pred, #[trigger] keys[j])
                        by {
                        if j >= seen {
                            assert(keys[j] == chunk_keys[j - seen]);
                            if holds(*pred, chunk_keys[j - seen]) {
                                lemma_exists_first_match(chunk_keys, *pred, j - seen);
                            }
                        }
                    }
                }
                pos = end;
            },
        }
    }
}

/// Nothing is found in an empty record file.
pub proof fn lemma_empty_file_not_found<T: SeriesData, F: Fn(T::SeriesType) -> bool>(pred: F)
    ensures
        first_match(keys_of::<T>(Seq::<u8>::empty()), pred) is None,
{
    lemma_first_match_is(keys_of::<T>(Seq::<u8>::empty()), pred, 0);
}

/// Nothing is found by a predicate that is false of every key.
pub proof fn lemma_never_true_not_found<T: SeriesData, F: Fn(T::SeriesType) -> bool>(
    bytes: Seq<u8>,
    pred: F,
)
    requires
        forall|k: T::SeriesType| !holds(pred, k),
    ensures
        first_match(keys_of::<T>(bytes), pred) is None,
{
    lemma_first_match_is(keys_of::<T>(bytes), pred, 0);
}

/// A predicate that is true of every key finds the first record of a record
/// file that holds any.
pub proof fn lemma_always_true_finds_first<T: SeriesData, F: Fn(T::SeriesType) -> bool>(
    bytes: Seq<u8>,
    pred: F,
)
    requires
        forall|k: T::SeriesType| holds(pred, k),
        record_count::<T>(bytes) > 0,
    ensures
        first_match(keys_of::<T>(bytes), pred) == Some(0nat),
{
    let keys = keys_of::<T>(bytes);
    assert(is_first_match(keys, pred, 0));
    lemma_first_match_is(keys, pred, 0);
}

/// A record file written as the encodings of `records`, in order, reads back
/// as exactly those records, in that order.
pub proof fn lemma_records_of_encode_all<T: SeriesData>(records: Seq<T>)
    requires
        T::spec_size() > 0,
    ensures
        whole_records::<T>(encode_all(records)),
        records_of::<T>(encode_all(records)) == records,
        keys_of::<T>(encode_all(records)) == records.map_values(|r: T| r.key()),
    decreases records.len(),
{
    let s = T::spec_size() as int;
    let n = records.len() as int;
    let bytes = encode_all(records);
    lemma_encode_all_len(records);
    vstd::arithmetic::div_mod::lemma_mod_multiples_basic(n, s);
    lemma_div_by_multiple(n, s);
    if n > 0 {
        let init = records.drop_last();
        let prefix = encode_all(init);
        lemma_records_of_encode_all(init);
        lemma_encode_all_len(init);
        records.last().lemma_round_trip();
        assert forall|i: int| 0 <= i < n implies #[trigger] record_at::<T>(bytes, i) == records[i] by {
            lemma_record_window(i, n, s);
            if i < n - 1 {
                lemma_record_window(i, n - 1, s);
                assert(bytes.subrange(i * s, i * s + s) =~= prefix.subrange(i * s, i * s + s));
                assert(records_of::<T>(prefix)[i] == init[i]);
            } else {
                assert((n - 1) * s == prefix.len());
                assert(bytes.subrange(i * s, i * s + s) =~= records.last().encoding());
            }
        }
    }
    assert(records_of::<T>(bytes) =~= records);
    assert(keys_of::<T>(bytes) =~= records.map_values(|r: T| r.key()));
}

} // verus!
