use vstd::prelude::*;
use vstd::arithmetic::power2::lemma2_to64;
use crate::bits::{bits_of, field, lemma_byte_field, lemma_field_bound, lemma_field_split};
use crate::error::DecodeError;
use crate::header::{deferred_at, header_at, selectors_at, FrameHeader, SYNC_CODE};
use crate::stream_info::StreamInfo;
use crate::varint::{varint_lead, lemma_varint_tail_errors};

verus! {

/// Whether the sync pattern stands at byte `at`: a byte of ones, and a byte
/// whose six high bits are `111110`.
pub open spec fn sync_at(data: Seq<u8>, at: int) -> bool {
    &&& 0 <= at
    &&& at + 1 < data.len()
    &&& data[at] == 0xFF
    &&& data[at + 1] / 4 == 0x3E
}

/// Finds the first byte at or after `from` at which the sync pattern stands.
/// The bytes are only looked at, so that a search can go on from any place.
pub fn find_sync(data: &[u8], from: usize) -> (found: Option<usize>)
    ensures
        match found {
            Some(at) => {
                &&& from <= at
                &&& sync_at(data@, at as int)
                &&& forall|k: int| from <= k < at ==> !sync_at(data@, k)
            },
            None => forall|k: int| from <= k ==> !sync_at(data@, k),
        },
{
    let mut at: usize = from;
    while at < data.len() && at + 1 < data.len()
        invariant
            from <= at,
            forall|k: int| from <= k < at ==> !sync_at(data@, k),
        decreases data@.len() - at,
    {
        if data[at] == 0xFF && data[at + 1] / 4 == 0x3E {
            return Some(at);
        }
        at = at + 1;
    }
    None
}

/// The first 14 bits at a byte are the sync code exactly where the sync
/// pattern stands at that byte.
pub proof fn lemma_sync_bits(data: Seq<u8>, at: nat)
    requires
        at + 2 <= data.len(),
    ensures
        field(bits_of(data), 8 * at as int, 14) == SYNC_CODE <==> sync_at(data, at as int),
{
    let at = at as int;
    let bits = bits_of(data);
    lemma2_to64();
    lemma_field_split(bits, 8 * at, 8, 6);
    lemma_field_split(bits, 8 * at + 8, 6, 2);
    lemma_byte_field(data, at);
    lemma_byte_field(data, at + 1);
    lemma_field_bound(bits, 8 * at + 8, 6);
    lemma_field_bound(bits, 8 * at + 14, 2);
    lemma_sync_arithmetic(
        data[at] as nat,
        data[at + 1] as nat,
        field(bits, 8 * at + 8, 6),
        field(bits, 8 * at + 14, 2),
        field(bits, 8 * at, 14),
    );
}

proof fn lemma_sync_arithmetic(first: nat, second: nat, high: nat, low: nat, word: nat)
    requires
        first < 256,
        high < 64,
        low < 4,
        second == high * 4 + low,
        word == first * 64 + high,
    ensures
        word == 0x3FFE <==> first == 0xFF && second / 4 == 0x3E,
{
}

/// Scanning and decoding agree: where at least four bytes follow, a header
/// is refused for a lost sync pattern exactly at the bytes at which the scan
/// finds none.
pub proof fn lemma_sync_lost_where_no_sync(data: Seq<u8>, at: nat, info: StreamInfo)
    requires
        at + 4 <= data.len(),
    ensures
        header_at(data, 8 * at as int, info) == Err::<
            (FrameHeader, int),
            DecodeError,
        >(DecodeError::SyncLost) <==> !sync_at(data, at as int),
{
    reveal(header_at);
    reveal(selectors_at);
    reveal(deferred_at);
    lemma_sync_bits(data, at);
    let at = at as int;
    let bits = bits_of(data);
    lemma2_to64();
    lemma_field_bound(bits, 8 * at, 14);
    match varint_lead(field(bits, 8 * at + 32, 8)) {
        Some((count, lead)) => {
            lemma_varint_tail_errors(bits, 8 * at + 40, lead, count);
        },
        None => {},
    }
}

} // verus!
