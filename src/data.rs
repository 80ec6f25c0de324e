use vstd::prelude::*;

verus! {

/// A record kind that serializes to a fixed number of bytes and exposes a
/// sortable key.
pub trait SeriesData: Sized {
    /// The key by which records of this kind are ordered in a table.
    type SeriesType: Ord + Eq;

    /// Width in bytes of every serialized record of this kind.
    spec fn spec_size() -> nat;

    /// The key of this record.
    spec fn key(&self) -> Self::SeriesType;

    /// The bytes that this record serializes to.
    spec fn encoding(&self) -> Seq<u8>;

    /// The record that a byte window of width `spec_size()` decodes to.
    spec fn decoding(bytes: Seq<u8>) -> Self;

    /// Every record encodes to exactly `spec_size()` bytes, and decoding those
    /// bytes gives the record back.
    proof fn lemma_round_trip(&self)
        ensures
            self.encoding().len() == Self::spec_size(),
            Self::decoding(self.encoding()) == *self,
    ;

    /// Width in bytes of every serialized record of this kind.
    fn size() -> (r: usize)
        ensures
            r as nat == Self::spec_size(),
    ;

    /// The key of this record.
    fn get_series_data(&self) -> (r: Self::SeriesType)
        ensures
            r == self.key(),
    ;

    /// Appends the encoding of this record to `target`.
    fn serialize_into(&self, target: &mut Vec<u8>)
        ensures
            final(target)@ == old(target)@ + self.encoding(),
    ;

    /// Decodes one record from a window of exactly `size()` bytes.
    fn deserialize_from(source: &[u8]) -> (r: Self)
        requires
            source@.len() == Self::spec_size(),
        ensures
            r == Self::decoding(source@),
    ;
}

} // verus!
