use vstd::bytes::{
    lemma_auto_spec_u32_to_from_le_bytes, lemma_auto_spec_u64_to_from_le_bytes,
    spec_u32_from_le_bytes, spec_u32_to_le_bytes, spec_u64_from_le_bytes, spec_u64_to_le_bytes,
    u32_from_le_bytes, u32_to_le_bytes, u64_from_le_bytes, u64_to_le_bytes,
};
use vstd::prelude::*;
use vstd::slice::slice_subrange;

use crate::data::SeriesData;

verus! {

/// A twelve-byte time-series sample: a `u64` index, which is its key, and a
/// `u32` payload, both stored little-endian.
#[derive(Clone, Copy, Debug, PartialEq, Eq, Structural)]
pub struct Sample {
    pub index: u64,
    pub data: u32,
}

/// Width in bytes of a serialized `Sample`.
pub const SAMPLE_SIZE: usize = 12;

impl SeriesData for Sample {
    type SeriesType = u64;

    open spec fn spec_size() -> nat {
        SAMPLE_SIZE as nat
    }

    open spec fn key(&self) -> u64 {
        self.index
    }

    open spec fn encoding(&self) -> Seq<u8> {
        spec_u64_to_le_bytes(self.index) + spec_u32_to_le_bytes(self.data)
    }

    open spec fn decoding(bytes: Seq<u8>) -> Sample {
        Sample {
            index: spec_u64_from_le_bytes(bytes.subrange(0, 8)),
            data: spec_u32_from_le_bytes(bytes.subrange(8, 12)),
        }
    }

    proof fn lemma_round_trip(&self) {
        lemma_auto_spec_u64_to_from_le_bytes();
        lemma_auto_spec_u32_to_from_le_bytes();
        let a = spec_u64_to_le_bytes(self.index);
        let b = spec_u32_to_le_bytes(self.data);
        assert((a + b).subrange(0, 8) =~= a);
        assert((a + b).subrange(8, 12) =~= b);
    }

    fn size() -> (r: usize) {
        SAMPLE_SIZE
    }

    fn get_series_data(&self) -> (r: u64) {
        self.index
    }

    fn serialize_into(&self, target: &mut Vec<u8>) {
        let mut index_bytes = u64_to_le_bytes(self.index);
        let mut data_bytes = u32_to_le_bytes(self.data);
        target.append(&mut index_bytes);
        target.append(&mut data_bytes);
        assert(final(target)@ =~= old(target)@ + self.encoding());
    }

    fn deserialize_from(source: &[u8]) -> (r: Sample) {
        Sample {
            index: u64_from_le_bytes(slice_subrange(source, 0, 8)),
            data: u32_from_le_bytes(slice_subrange(source, 8, 12)),
        }
    }
}

} // verus!
