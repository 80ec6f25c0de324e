use vstd::prelude::*;

use crate::data::SeriesData;

verus! {

/// An in-memory staging area for serialized records that have not reached the
/// record file yet.
pub trait StorageBuffer<T: SeriesData> {
    /// The bytes staged and not yet flushed.
    spec fn staged(&self) -> Seq<u8>;

    /// Nothing is pending in the buffer.
    spec fn cleared(&self) -> bool;

    /// The number of bytes the buffer stages before it asks to be flushed.
    spec fn limit(&self) -> nat;

    /// A record of kind `T` fits in the buffer at all.
    spec fn takes_records(&self) -> bool;

    /// The bytes staged once `record` has been pushed onto this buffer.
    spec fn staged_after_push(&self, record: T) -> Seq<u8>;

    /// What `push` of `record` onto this buffer reports.
    spec fn must_flush_after_push(&self, record: T) -> bool;

    /// Whether a record of kind `T` fits in the buffer at all.
    fn accepts_records(&self) -> (r: bool)
        ensures
            r == self.takes_records(),
    ;

    /// Stages `data`. Returns true when the buffer must be flushed.
    fn push(&mut self, data: T) -> (must_flush: bool)
        requires
            old(self).takes_records(),
        ensures
            final(self).staged() == old(self).staged_after_push(data),
            must_flush == old(self).must_flush_after_push(data),
            final(self).limit() == old(self).limit(),
            final(self).takes_records(),
    ;

    /// Appends everything staged to `target` and empties the buffer.
    fn flush_into(&mut self, target: &mut Vec<u8>)
        ensures
            final(target)@ == old(target)@ + old(self).staged(),
            final(self).staged() == Seq::<u8>::empty(),
            final(self).cleared(),
            final(self).limit() == old(self).limit(),
            final(self).takes_records() == old(self).takes_records(),
    ;
}

/// A buffer that holds at most one record and asks to be flushed after every
/// push.
pub struct Unbuffered<T: SeriesData> {
    buffer: Option<T>,
}

impl<T: SeriesData> View for Unbuffered<T> {
    type V = Option<T>;

    /// The pending record, if any.
    closed spec fn view(&self) -> Option<T> {
        self.buffer
    }
}

impl<T: SeriesData> Unbuffered<T> {
    pub fn new() -> (r: Self)
        ensures
            r@ == None::<T>,
    {
        Self { buffer: None }
    }
}

impl<T: SeriesData> StorageBuffer<T> for Unbuffered<T> {
    open spec fn staged(&self) -> Seq<u8> {
        match self@ {
            Some(record) => record.encoding(),
            None => Seq::empty(),
        }
    }

    open spec fn cleared(&self) -> bool {
        self@ is None
    }

    open spec fn limit(&self) -> nat {
        T::spec_size()
    }

    open spec fn takes_records(&self) -> bool {
        true
    }

    open spec fn staged_after_push(&self, record: T) -> Seq<u8> {
        record.encoding()
    }

    open spec fn must_flush_after_push(&self, record: T) -> bool {
        true
    }

    fn accepts_records(&self) -> (r: bool) {
        true
    }

    fn push(&mut self, data: T) -> (must_flush: bool) {
        self.buffer = Some(data);
        true
    }

    fn flush_into(&mut self, target: &mut Vec<u8>) {
        if let Some(data) = self.buffer.take() {
            data.serialize_into(target);
        }
    }
}

/// The bytes a heap buffer of capacity `capacity` holds once a record encoded as
/// `encoding` has been pushed onto `staged`: appended where it fits, else
/// written over the last `encoding.len()` bytes of the capacity.
pub open spec fn heap_push(staged: Seq<u8>, capacity: nat, encoding: Seq<u8>) -> Seq<u8> {
    if staged.len() + encoding.len() <= capacity {
        staged + encoding
    } else {
        staged.subrange(0, capacity - encoding.len()) + encoding
    }
}

/// A heap buffer that holds `staged_len` bytes once a push is done must be
/// flushed when one more record of `record_size` bytes would not fit after it.
pub open spec fn heap_must_flush(staged_len: nat, capacity: nat, record_size: nat) -> bool {
    staged_len + record_size > capacity
}

/// The concatenated encodings of `records`, in order.
pub open spec fn encode_all<T: SeriesData>(records: Seq<T>) -> Seq<u8>
    decreases records.len(),
{
    if records.len() == 0 {
        Seq::empty()
    } else {
        encode_all(records.drop_last()) + records.last().encoding()
    }
}

/// The bytes a heap buffer of `capacity` holds once `records` have been pushed
/// onto `staged`, one after the other.
pub open spec fn heap_push_all<T: SeriesData>(staged: Seq<u8>, capacity: nat, records: Seq<T>) -> Seq<
    u8,
>
    decreases records.len(),
{
    if records.len() == 0 {
        staged
    } else {
        heap_push(
            heap_push_all(staged, capacity, records.drop_last()),
            capacity,
            records.last().encoding(),
        )
    }
}

/// `n` records encode to `n` times the record width.
pub proof fn lemma_encode_all_len<T: SeriesData>(records: Seq<T>)
    ensures
        encode_all(records).len() == records.len() * T::spec_size(),
    decreases records.len(),
{
    if records.len() > 0 {
        lemma_encode_all_len(records.drop_last());
        records.last().lemma_round_trip();
        assert((records.len() - 1) * T::spec_size() + T::spec_size() == records.len()
            * T::spec_size()) by (nonlinear_arith);
    }
}

/// Records whose total size fits in the capacity, pushed onto an empty heap
/// buffer, are staged exactly as their encodings in push order, and no push
/// but the last asks for a flush.
pub proof fn lemma_heap_pushes_in_order<T: SeriesData>(capacity: nat, records: Seq<T>)
    requires
        records.len() * T::spec_size() <= capacity,
    ensures
        heap_push_all(Seq::<u8>::empty(), capacity, records) == encode_all(records),
        encode_all(records).len() == records.len() * T::spec_size(),
        forall|i: int|
            0 <= i < records.len() - 1 ==> !heap_must_flush(
                #[trigger] encode_all(records.take(i + 1)).len(),
                capacity,
                T::spec_size(),
            ),
    decreases records.len(),
{
    lemma_encode_all_len(records);
    if records.len() > 0 {
        let n = records.len();
        let s = T::spec_size();
        let init = records.drop_last();
        assert((n - 1) * s <= n * s) by (nonlinear_arith)
            requires
                n >= 1,
        ;
        lemma_heap_pushes_in_order(capacity, init);
        records.last().lemma_round_trip();
        assert forall|i: int| 0 <= i < records.len() - 1 implies !heap_must_flush(
            #[trigger] encode_all(records.take(i + 1)).len(),
            capacity,
            s,
        ) by {
            lemma_encode_all_len(records.take(i + 1));
            assert((i + 1) * s + s <= n * s) by (nonlinear_arith)
                requires
                    i + 2 <= n,
            ;
        }
    }
}

/// Pushing onto a heap buffer that has no room left for the record writes it
/// over the last bytes of the capacity, keeps the staged bytes before them, and
/// asks for a flush.
pub proof fn lemma_heap_overflow<T: SeriesData>(staged: Seq<u8>, capacity: nat, record: T)
    requires
        staged.len() <= capacity,
        T::spec_size() <= capacity,
        staged.len() + T::spec_size() > capacity,
    ensures
        heap_push(staged, capacity, record.encoding()) == staged.subrange(
            0,
            capacity - T::spec_size(),
        ) + record.encoding(),
        heap_push(staged, capacity, record.encoding()).len() == capacity,
        heap_must_flush(
            heap_push(staged, capacity, record.encoding()).len(),
            capacity,
            T::spec_size(),
        ),
{
    record.lemma_round_trip();
}

/// While the staged bytes leave room for one more record, a push appends it;
/// and unless that push asks for a flush, there is room again afterwards. So a
/// heap buffer that is flushed whenever it asks never overwrites a staged
/// record: the record file followed by the staged bytes are the pushed records
/// in push order.
pub proof fn lemma_heap_staging_appends<T: SeriesData>(staged: Seq<u8>, capacity: nat, record: T)
    requires
        staged.len() + T::spec_size() <= capacity,
    ensures
        heap_push(staged, capacity, record.encoding()) == staged + record.encoding(),
        !heap_must_flush(
            heap_push(staged, capacity, record.encoding()).len(),
            capacity,
            T::spec_size(),
        ) ==> heap_push(staged, capacity, record.encoding()).len() + T::spec_size() <= capacity,
{
    record.lemma_round_trip();
}

/// An unbuffered buffer stages only the record just pushed, and every push asks
/// for a flush.
pub proof fn lemma_unbuffered_always_flushes<T: SeriesData>(buffer: Unbuffered<T>, record: T)
    ensures
        buffer.staged_after_push(record) == record.encoding(),
        buffer.must_flush_after_push(record),
{
}

/// A buffer of fixed byte capacity that asks to be flushed once it cannot take
/// another record. Its storage is reserved up front and records are appended
/// into it, so no byte is zeroed before it is written. A push onto a buffer
/// with no room left is not refused: the record overwrites the last bytes of
/// the capacity, and the staged bytes there are lost.
pub struct HeapBuffer {
    buffer: Vec<u8>,
    capacity: usize,
}

impl View for HeapBuffer {
    type V = Seq<u8>;

    /// The staged bytes.
    closed spec fn view(&self) -> Seq<u8> {
        self.buffer@
    }
}

impl HeapBuffer {
    #[verifier::type_invariant]
    spec fn within_capacity(&self) -> bool {
        self.buffer@.len() <= self.capacity
    }

    /// The reserved capacity in bytes.
    pub closed spec fn spec_capacity(&self) -> nat {
        self.capacity as nat
    }

    pub fn new(buffer_size: usize) -> (r: Self)
        ensures
            r@ == Seq::<u8>::empty(),
            r.spec_capacity() == buffer_size,
    {
        Self { buffer: Vec::with_capacity(buffer_size), capacity: buffer_size }
    }

}

impl<T: SeriesData> StorageBuffer<T> for HeapBuffer {
    open spec fn staged(&self) -> Seq<u8> {
        self@
    }

    open spec fn cleared(&self) -> bool {
        self@.len() == 0
    }

    open spec fn limit(&self) -> nat {
        self.spec_capacity()
    }

    open spec fn takes_records(&self) -> bool {
        T::spec_size() <= self.spec_capacity()
    }

    open spec fn staged_after_push(&self, record: T) -> Seq<u8> {
        heap_push(self@, self.spec_capacity(), record.encoding())
    }

    open spec fn must_flush_after_push(&self, record: T) -> bool {
        heap_must_flush(
            heap_push(self@, self.spec_capacity(), record.encoding()).len(),
            self.spec_capacity(),
            T::spec_size(),
        )
    }

    fn accepts_records(&self) -> (r: bool) {
        T::size() <= self.capacity
    }

    fn push(&mut self, data: T) -> (must_flush: bool) {
        proof {
            use_type_invariant(&*self);
            data.lemma_round_trip();
        }
        let size = T::size();
        let capacity = self.capacity;
        let mut bytes: Vec<u8> = Vec::new();
        std::mem::swap(&mut bytes, &mut self.buffer);
        if size > capacity - bytes.len() {
            // No room left: the record takes the last `size` bytes of the capacity.
            bytes.truncate(capacity - size);
        }
        data.serialize_into(&mut bytes);
        let staged_len = bytes.len();
        self.buffer = bytes;
        size > capacity - staged_len
    }

    fn flush_into(&mut self, target: &mut Vec<u8>) {
        let mut bytes: Vec<u8> = Vec::new();
        std::mem::swap(&mut bytes, &mut self.buffer);
        target.append(&mut bytes);
        self.buffer = bytes;
    }
}

} // verus!
