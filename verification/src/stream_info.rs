use vstd::prelude::*;
use vstd::arithmetic::power2::{pow2, lemma2_to64, lemma2_to64_rest};
use vstd::slice::slice_subrange;
use crate::bits::{bits_of, field, lemma_field_bound};
use crate::cursor::BitCursor;

verus! {

/// The length in bytes of a stream-information block.
pub const STREAM_INFO_LEN: usize = 34;

/// The parameters that hold for a whole stream.
#[derive(Debug)]
pub struct StreamInfo {
    pub min_block_size: u16,
    pub max_block_size: u16,
    pub min_frame_size: u32,
    pub max_frame_size: u32,
    pub sample_rate: u64,
    pub channels: u8,
    pub bps: u8,
    pub total_samples: u64,
    pub checksum_combined: [u8; 16],
}

/// Whether `info` is what the first 34 bytes of `block` spell: two 16-bit
/// block sizes, two 24-bit frame sizes, a 20-bit sample rate, the channel
/// count less one in 3 bits, the bits per sample less one in 5 bits, a 36-bit
/// sample count, and 16 bytes of content checksum.
pub open spec fn describes(info: StreamInfo, block: Seq<u8>) -> bool {
    let bits = bits_of(block.subrange(0, STREAM_INFO_LEN as int));
    &&& info.min_block_size == field(bits, 0, 16)
    &&& info.max_block_size == field(bits, 16, 16)
    &&& info.min_frame_size == field(bits, 32, 24)
    &&& info.max_frame_size == field(bits, 56, 24)
    &&& info.sample_rate == field(bits, 80, 20)
    &&& info.channels == field(bits, 100, 3) + 1
    &&& info.bps == field(bits, 103, 5) + 1
    &&& info.total_samples == field(bits, 108, 36)
    &&& info.checksum_combined@ == block.subrange(18, STREAM_INFO_LEN as int)
}

/// Reads a field that is known to lie inside the input.
fn next_field(cursor: &mut BitCursor, count: u32) -> (value: u64)
    requires
        old(cursor).wf(),
        count <= 64,
        old(cursor).position() + count <= old(cursor).bits().len(),
    ensures
        final(cursor).wf(),
        final(cursor).bytes() == old(cursor).bytes(),
        old(cursor).position() <= final(cursor).position(),
        final(cursor).position() == old(cursor).position() + count,
        value == field(old(cursor).bits(), old(cursor).position(), count as int),
        value < pow2(count as nat),
{
    proof {
        lemma_field_bound(cursor.bits(), cursor.position(), count as int);
    }
    match cursor.read_bits(count) {
        Ok(v) => v,
        Err(_) => 0,
    }
}

impl StreamInfo {
    pub fn new(
        min_block_size: u16,
        max_block_size: u16,
        min_frame_size: u32,
        max_frame_size: u32,
        sample_rate: u64,
        channels: u8,
        bps: u8,
        total_samples: u64,
        checksum_combined: [u8; 16],
    ) -> (info: Self)
        ensures
            info == (StreamInfo {
                min_block_size,
                max_block_size,
                min_frame_size,
                max_frame_size,
                sample_rate,
                channels,
                bps,
                total_samples,
                checksum_combined,
            }),
    {
        StreamInfo {
            min_block_size,
            max_block_size,
            min_frame_size,
            max_frame_size,
            sample_rate,
            channels,
            bps,
            total_samples,
            checksum_combined,
        }
    }

    /// Reads the stream parameters from the body of a stream-information
    /// block; a block of fewer than 34 bytes holds none.
    pub fn process_stream_info_block(block: &[u8]) -> (info: Option<StreamInfo>)
        ensures
            info is Some <==> block@.len() >= STREAM_INFO_LEN,
            info matches Some(i) ==> describes(i, block@),
    {
        if block.len() < STREAM_INFO_LEN {
            return None;
        }
        let head = slice_subrange(block, 0, STREAM_INFO_LEN);
        let mut cursor = match BitCursor::new(head) {
            Some(c) => c,
            None => { return None; },
        };
        proof {
            lemma2_to64();
            lemma2_to64_rest();
        }
        let min_block_size = next_field(&mut cursor, 16) as u16;
        let max_block_size = next_field(&mut cursor, 16) as u16;
        let min_frame_size = next_field(&mut cursor, 24) as u32;
        let max_frame_size = next_field(&mut cursor, 24) as u32;
        let sample_rate = next_field(&mut cursor, 20);
        let channels = next_field(&mut cursor, 3) as u8 + 1;
        let bps = next_field(&mut cursor, 5) as u8 + 1;
        let total_samples = next_field(&mut cursor, 36);
        let mut checksum_combined = [0u8; 16];
        let mut i: usize = 0;
        while i < 16
            invariant
                i <= 16,
                block@.len() >= STREAM_INFO_LEN,
                forall|j: int| 0 <= j < i ==> checksum_combined@[j] == block@[18 + j],
            decreases 16 - i,
        {
            checksum_combined[i] = block[18 + i];
            i = i + 1;
        }
        assert(checksum_combined@ =~= block@.subrange(18, STREAM_INFO_LEN as int));
        Some(
            StreamInfo::new(
                min_block_size,
                max_block_size,
                min_frame_size,
                max_frame_size,
                sample_rate,
                channels,
                bps,
                total_samples,
                checksum_combined,
            ),
        )
    }
}

} // verus!
