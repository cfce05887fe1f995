use vstd::prelude::*;
use vstd::arithmetic::power2::{pow2, lemma2_to64};
use crate::bits::{bits_of, field, lemma_byte_field, lemma_field_bound, lemma_field_split};
use crate::crc::{crc8, crc8_of, lemma_crc8_detects_one_changed_byte};
use crate::cursor::BitCursor;
use crate::error::DecodeError;
use crate::stream_info::StreamInfo;
use crate::varint::{read_utf8_u64, varint_at, lemma_varint_length};

verus! {

/// The 14 bits that open every frame.
pub const SYNC_CODE: u16 = 0x3FFE;

/// How the channels of a frame are stored.
#[derive(Clone, Copy, Debug, PartialEq, Eq, Structural)]
pub enum ChannelAssignment {
    /// This many channels, each stored as it is.
    Independent(u8),
    /// The left channel and the difference left minus right.
    LeftSide,
    /// The difference left minus right and the right channel.
    SideRight,
    /// The average of both channels and the difference left minus right.
    MidSide,
}

impl ChannelAssignment {
    /// The count of subframes in a frame.
    pub open spec fn channels(self) -> nat {
        match self {
            ChannelAssignment::Independent(n) => n as nat,
            _ => 2,
        }
    }

    /// The index of the subframe that holds a difference, if there is one.
    pub open spec fn side_channel(self) -> Option<nat> {
        match self {
            ChannelAssignment::Independent(_) => None,
            ChannelAssignment::LeftSide => Some(1nat),
            ChannelAssignment::SideRight => Some(0nat),
            ChannelAssignment::MidSide => Some(1nat),
        }
    }

    pub fn channel_count(&self) -> (count: u8)
        ensures
            count == self.channels(),
    {
        match self {
            ChannelAssignment::Independent(n) => *n,
            _ => 2,
        }
    }

    /// Whether the subframe with this index holds a difference.
    pub fn is_side_channel(&self, channel: u8) -> (side: bool)
        ensures
            side == (self.side_channel() == Some(channel as nat)),
    {
        match self {
            ChannelAssignment::Independent(_) => false,
            ChannelAssignment::LeftSide => channel == 1,
            ChannelAssignment::SideRight => channel == 0,
            ChannelAssignment::MidSide => channel == 1,
        }
    }
}

/// The header of one frame: the selectors as they were read, and what they
/// resolve to.
#[derive(Clone, Copy, Debug, PartialEq, Eq, Structural)]
pub struct FrameHeader {
    pub sync_code: u16,
    /// 0 where all blocks of the stream have one size and frames are
    /// numbered, 1 where sizes vary and the number is that of the first sample.
    pub blocking_strategy: u8,
    pub block_size_code: u8,
    pub sample_rate_code: u8,
    pub channel_assignment_code: u8,
    pub bit_depth_code: u8,
    pub mandatory: u8,
    pub frame_or_sample_number: u64,
    /// The count of samples in each channel.
    pub block_size: u16,
    /// The sample rate in Hz.
    pub sample_rate: u64,
    pub channel_assignment: ChannelAssignment,
    /// The bits per sample.
    pub bit_depth: u32,
    pub crc8: u8,
}

/// The width of the field that follows the number for a block-size selector.
pub open spec fn block_size_extra_bits(code: nat) -> int {
    if code == 6 {
        8
    } else if code == 7 {
        16
    } else {
        0
    }
}

/// The block size that a selector stands for, `extra` being the field that
/// follows the number for the two selectors that defer to it.
pub open spec fn block_size_of(code: nat, extra: nat) -> Option<nat> {
    if code == 1 {
        Some(192nat)
    } else if 2 <= code <= 5 {
        Some(576 * pow2((code - 2) as nat))
    } else if code == 6 || code == 7 {
        if extra + 1 <= 65535 {
            Some(extra + 1)
        } else {
            None
        }
    } else if 8 <= code <= 15 {
        Some(pow2(code))
    } else {
        None
    }
}

/// The width of the field that follows the block size for a sample-rate
/// selector.
pub open spec fn sample_rate_extra_bits(code: nat) -> int {
    if code == 12 {
        8
    } else if code == 13 || code == 14 {
        16
    } else {
        0
    }
}

/// The sample rate in Hz that a selector stands for. Selector 0 defers to the
/// stream, selectors 12 to 14 to the field `extra`, which is in kHz, in Hz and
/// in tens of Hz; selector 15 is forbidden.
pub open spec fn sample_rate_of(code: nat, extra: nat, stream_rate: nat) -> Option<nat> {
    if code == 0 {
        Some(stream_rate)
    } else if code == 1 {
        Some(88200nat)
    } else if code == 2 {
        Some(176400nat)
    } else if code == 3 {
        Some(192000nat)
    } else if code == 4 {
        Some(8000nat)
    } else if code == 5 {
        Some(16000nat)
    } else if code == 6 {
        Some(22050nat)
    } else if code == 7 {
        Some(24000nat)
    } else if code == 8 {
        Some(32000nat)
    } else if code == 9 {
        Some(44100nat)
    } else if code == 10 {
        Some(48000nat)
    } else if code == 11 {
        Some(96000nat)
    } else if code == 12 {
        Some(extra * 1000)
    } else if code == 13 {
        Some(extra)
    } else if code == 14 {
        Some(extra * 10)
    } else {
        None
    }
}

/// The channel layout that a selector stands for; selectors above 10 are
/// reserved.
pub open spec fn channel_assignment_of(code: nat) -> Option<ChannelAssignment> {
    if code <= 7 {
        Some(ChannelAssignment::Independent((code + 1) as u8))
    } else if code == 8 {
        Some(ChannelAssignment::LeftSide)
    } else if code == 9 {
        Some(ChannelAssignment::SideRight)
    } else if code == 10 {
        Some(ChannelAssignment::MidSide)
    } else {
        None
    }
}

/// The bits per sample that a selector stands for. Selector 0 defers to the
/// stream, whose depth must lie between 4 and 32; selector 3 is reserved.
pub open spec fn bit_depth_of(code: nat, stream_depth: nat) -> Option<nat> {
    if code == 0 {
        if 4 <= stream_depth <= 32 {
            Some(stream_depth)
        } else {
            None
        }
    } else if code == 1 {
        Some(8nat)
    } else if code == 2 {
        Some(12nat)
    } else if code == 4 {
        Some(16nat)
    } else if code == 5 {
        Some(20nat)
    } else if code == 6 {
        Some(24nat)
    } else if code == 7 {
        Some(32nat)
    } else {
        None
    }
}

/// The eight fields of the 32 bits that open a header, from the top: sync
/// pattern (14 bits), reserved bit, blocking strategy, block-size selector
/// (4), sample-rate selector (4), channel selector (4), bit-depth selector (3)
/// and mandatory bit.
#[derive(Clone, Copy, Debug, PartialEq, Eq, Structural)]
pub struct Selectors {
    pub sync: u16,
    pub reserved: u8,
    pub blocking: u8,
    pub block_size: u8,
    pub sample_rate: u8,
    pub channels: u8,
    pub bit_depth: u8,
    pub mandatory: u8,
}

/// The selectors in the 32 bits from bit `pos`, each the field at its place.
pub open spec fn selector_fields(bits: Seq<bool>, pos: int) -> Selectors {
    Selectors {
        sync: field(bits, pos, 14) as u16,
        reserved: field(bits, pos + 14, 1) as u8,
        blocking: field(bits, pos + 15, 1) as u8,
        block_size: field(bits, pos + 16, 4) as u8,
        sample_rate: field(bits, pos + 20, 4) as u8,
        channels: field(bits, pos + 24, 4) as u8,
        bit_depth: field(bits, pos + 28, 3) as u8,
        mandatory: field(bits, pos + 31, 1) as u8,
    }
}

/// The selectors in a word of 32 bits, by division.
pub open spec fn selectors_of(word: nat) -> Selectors {
    Selectors {
        sync: (word / 0x4_0000) as u16,
        reserved: ((word / 0x2_0000) % 2) as u8,
        blocking: ((word / 0x1_0000) % 2) as u8,
        block_size: ((word / 0x1000) % 16) as u8,
        sample_rate: ((word / 0x100) % 16) as u8,
        channels: ((word / 0x10) % 16) as u8,
        bit_depth: ((word / 2) % 8) as u8,
        mandatory: (word % 2) as u8,
    }
}

/// The 32 bits that spell the selectors of a header.
pub open spec fn selector_word(header: FrameHeader) -> nat {
    (header.sync_code as nat) * 0x4_0000 + (header.blocking_strategy as nat) * 0x1_0000 + (
    header.block_size_code as nat) * 0x1000 + (header.sample_rate_code as nat) * 0x100 + (
    header.channel_assignment_code as nat) * 0x10 + (header.bit_depth_code as nat) * 2 + (
    header.mandatory as nat)
}

/// Whether selectors can open a header: the sync pattern is there, the
/// reserved and the mandatory bit are zero, and no selector holds a reserved
/// or forbidden code.
pub open spec fn acceptable(s: Selectors, stream_depth: nat) -> bool {
    &&& s.sync == SYNC_CODE
    &&& s.reserved == 0
    &&& s.mandatory == 0
    &&& block_size_of(s.block_size as nat, 0) is Some
    &&& sample_rate_of(s.sample_rate as nat, 0, 0) is Some
    &&& channel_assignment_of(s.channels as nat) is Some
    &&& bit_depth_of(s.bit_depth as nat, stream_depth) is Some
}

/// The selectors in the 32 bits at bit `pos`, where they open a header: the
/// sync pattern is there, the reserved and the mandatory bit are zero, and no
/// selector holds a reserved or forbidden code.
#[verifier::opaque]
pub open spec fn selectors_at(bits: Seq<bool>, pos: int, stream_depth: nat) -> Result<
    Selectors,
    DecodeError,
> {
    let s = selector_fields(bits, pos);
    if pos + 32 > bits.len() {
        Err(DecodeError::UnexpectedEndOfInput)
    } else if s.sync != SYNC_CODE {
        Err(DecodeError::SyncLost)
    } else if !acceptable(s, stream_depth) {
        Err(DecodeError::ReservedFieldUsed)
    } else {
        Ok(s)
    }
}

/// The block size and the sample rate of a header, with the position after
/// the fields that the selectors defer them to; these fields follow the
/// number of the frame, the field for the block size first.
#[verifier::opaque]
pub open spec fn deferred_at(bits: Seq<bool>, pos: int, s: Selectors, stream_rate: nat) -> Result<
    (nat, nat, int),
    DecodeError,
> {
    let size_bits = block_size_extra_bits(s.block_size as nat);
    let block_size = block_size_of(s.block_size as nat, field(bits, pos, size_bits));
    let after_size = pos + size_bits;
    let rate_bits = sample_rate_extra_bits(s.sample_rate as nat);
    let sample_rate = sample_rate_of(
        s.sample_rate as nat,
        field(bits, after_size, rate_bits),
        stream_rate,
    );
    if after_size > bits.len() {
        Err(DecodeError::UnexpectedEndOfInput)
    } else if block_size is None {
        Err(DecodeError::ReservedFieldUsed)
    } else if after_size + rate_bits > bits.len() {
        Err(DecodeError::UnexpectedEndOfInput)
    } else {
        Ok((block_size->0, sample_rate->0, after_size + rate_bits))
    }
}

/// The header that is made up of accepted selectors and of what they resolve
/// to.
pub open spec fn header_of(
    s: Selectors,
    number: nat,
    block_size: nat,
    sample_rate: nat,
    stream_depth: nat,
    check: nat,
) -> FrameHeader {
    FrameHeader {
        sync_code: s.sync,
        blocking_strategy: s.blocking,
        block_size_code: s.block_size,
        sample_rate_code: s.sample_rate,
        channel_assignment_code: s.channels,
        bit_depth_code: s.bit_depth,
        mandatory: s.mandatory,
        frame_or_sample_number: number as u64,
        block_size: block_size as u16,
        sample_rate: sample_rate as u64,
        channel_assignment: channel_assignment_of(s.channels as nat)->0,
        bit_depth: bit_depth_of(s.bit_depth as nat, stream_depth)->0 as u32,
        crc8: check as u8,
    }
}

/// The header that starts at bit `pos` of `data`, which is a byte boundary,
/// with the position after its checksum byte; or the reason why there is none.
///
/// After the selectors come the frame or sample number, the block size where
/// its selector defers it, the sample rate where its selector defers it, and
/// the 8-bit checksum of all header bytes before it.
#[verifier::opaque]
pub open spec fn header_at(data: Seq<u8>, pos: int, info: StreamInfo) -> Result<
    (FrameHeader, int),
    DecodeError,
> {
    let bits = bits_of(data);
    match selectors_at(bits, pos, info.bps as nat) {
        Err(e) => Err(e),
        Ok(s) => match varint_at(bits, pos + 32) {
            Err(e) => Err(e),
            Ok((number, after_number)) => match deferred_at(
                bits,
                after_number,
                s,
                info.sample_rate as nat,
            ) {
                Err(e) => Err(e),
                Ok((block_size, sample_rate, end)) => {
                    let check = field(bits, end, 8);
                    if end + 8 > bits.len() {
                        Err(DecodeError::UnexpectedEndOfInput)
                    } else if check != crc8(data.subrange(pos / 8, end / 8)) {
                        Err(DecodeError::HeaderChecksumMismatch)
                    } else {
                        Ok(
                            (
                                header_of(
                                    s,
                                    number,
                                    block_size,
                                    sample_rate,
                                    info.bps as nat,
                                    check,
                                ),
                                end + 8,
                            ),
                        )
                    }
                },
            },
        }
    }
}

impl FrameHeader {
    /// What holds of every header that was read from a frame: the block is
    /// not empty, the bit depth lies between 4 and 32, and there are one to
    /// eight channels.
    pub open spec fn well_formed(self) -> bool {
        &&& 1 <= self.block_size
        &&& 4 <= self.bit_depth <= 32
        &&& 1 <= self.channel_assignment.channels() <= 8
    }

    /// The width in bits of the samples of a channel as they are stored: a
    /// channel that holds a difference is one bit wider than the others.
    pub open spec fn channel_width(self, channel: nat) -> nat {
        if self.channel_assignment.side_channel() == Some(channel) {
            (self.bit_depth + 1) as nat
        } else {
            self.bit_depth as nat
        }
    }

    /// Spells the selectors of this header as the 32 bits that open it.
    pub fn selector_bits(&self) -> (word: u64)
        ensures
            word == selector_word(*self),
    {
        (self.sync_code as u64) * 0x4_0000 + (self.blocking_strategy as u64) * 0x1_0000 + (
        self.block_size_code as u64) * 0x1000 + (self.sample_rate_code as u64) * 0x100 + (
        self.channel_assignment_code as u64) * 0x10 + (self.bit_depth_code as u64) * 2 + (
        self.mandatory as u64)
    }
}

/// The block size for a selector that does not defer, or 0.
fn block_size_table(code: u8) -> (size: u16)
    requires
        code <= 15,
    ensures
        code != 6 && code != 7 ==> (match block_size_of(code as nat, 0) {
            Some(n) => size == n,
            None => code == 0,
        }),
{
    proof {
        lemma2_to64();
    }
    match code {
        1 => 192,
        2 => 576,
        3 => 1152,
        4 => 2304,
        5 => 4608,
        8 => 256,
        9 => 512,
        10 => 1024,
        11 => 2048,
        12 => 4096,
        13 => 8192,
        14 => 16384,
        15 => 32768,
        _ => 0,
    }
}

/// The sample rate for a selector that does not defer to a field.
fn sample_rate_table(code: u8, stream_rate: u64) -> (rate: u64)
    requires
        code <= 11,
    ensures
        sample_rate_of(code as nat, 0, stream_rate as nat) == Some(rate as nat),
{
    match code {
        0 => stream_rate,
        1 => 88200,
        2 => 176400,
        3 => 192000,
        4 => 8000,
        5 => 16000,
        6 => 22050,
        7 => 24000,
        8 => 32000,
        9 => 44100,
        10 => 48000,
        _ => 96000,
    }
}

fn channel_assignment_table(code: u8) -> (layout: Option<ChannelAssignment>)
    ensures
        layout == channel_assignment_of(code as nat),
{
    if code <= 7 {
        Some(ChannelAssignment::Independent(code + 1))
    } else if code == 8 {
        Some(ChannelAssignment::LeftSide)
    } else if code == 9 {
        Some(ChannelAssignment::SideRight)
    } else if code == 10 {
        Some(ChannelAssignment::MidSide)
    } else {
        None
    }
}

fn bit_depth_table(code: u8, stream_depth: u8) -> (depth: Option<u32>)
    ensures
        match depth {
            Some(d) => bit_depth_of(code as nat, stream_depth as nat) == Some(d as nat),
            None => bit_depth_of(code as nat, stream_depth as nat) is None,
        },
{
    match code {
        0 => if 4 <= stream_depth && stream_depth <= 32 {
            Some(stream_depth as u32)
        } else {
            None
        },
        1 => Some(8),
        2 => Some(12),
        4 => Some(16),
        5 => Some(20),
        6 => Some(24),
        7 => Some(32),
        _ => None,
    }
}

/// Reads the selectors that open a header, and resolves the two that need
/// no further field: the channel assignment and the bit depth.
fn read_selectors(cursor: &mut BitCursor, stream_depth: u8) -> (selectors: Result<
    (Selectors, ChannelAssignment, u32),
    DecodeError,
>)
    requires
        old(cursor).wf(),
    ensures
        final(cursor).wf(),
        final(cursor).bytes() == old(cursor).bytes(),
        old(cursor).position() <= final(cursor).position(),
        match selectors {
            Ok((s, layout, depth)) => {
                &&& selectors_at(old(cursor).bits(), old(cursor).position(), stream_depth as nat)
                    == Ok::<Selectors, DecodeError>(s)
                &&& final(cursor).position() == old(cursor).position() + 32
                &&& acceptable(s, stream_depth as nat)
                &&& s.block_size <= 15
                &&& channel_assignment_of(s.channels as nat) == Some(layout)
                &&& bit_depth_of(s.bit_depth as nat, stream_depth as nat) == Some(depth as nat)
            },
            Err(e) => selectors_at(old(cursor).bits(), old(cursor).position(), stream_depth as nat)
                == Err::<Selectors, DecodeError>(e),
        },
{
    proof {
        reveal(selectors_at);
    }
    let ghost bits = cursor.bits();
    let ghost pos = cursor.position();
    let word = cursor.read_bits(32)?;
    proof {
        lemma_field_bound(bits, pos, 32);
        lemma2_to64();
        lemma_selectors_are_fields(bits, pos as nat);
    }
    let s = Selectors {
        sync: (word / 0x4_0000) as u16,
        reserved: ((word / 0x2_0000) % 2) as u8,
        blocking: ((word / 0x1_0000) % 2) as u8,
        block_size: ((word / 0x1000) % 16) as u8,
        sample_rate: ((word / 0x100) % 16) as u8,
        channels: ((word / 0x10) % 16) as u8,
        bit_depth: ((word / 2) % 8) as u8,
        mandatory: (word % 2) as u8,
    };
    if s.sync != SYNC_CODE {
        return Err(DecodeError::SyncLost);
    }
    if s.reserved != 0 || s.mandatory != 0 || s.block_size == 0 || s.sample_rate == 15 {
        return Err(DecodeError::ReservedFieldUsed);
    }
    match (channel_assignment_table(s.channels), bit_depth_table(s.bit_depth, stream_depth)) {
        (Some(layout), Some(depth)) => Ok((s, layout, depth)),
        _ => Err(DecodeError::ReservedFieldUsed),
    }
}

/// Reads the fields that the selectors defer the block size and the sample
/// rate to, and resolves both.
fn read_deferred(cursor: &mut BitCursor, s: &Selectors, stream_rate: u64) -> (resolved: Result<
    (u16, u64),
    DecodeError,
>)
    requires
        old(cursor).wf(),
        1 <= s.block_size <= 15,
        s.sample_rate <= 14,
    ensures
        final(cursor).wf(),
        final(cursor).bytes() == old(cursor).bytes(),
        old(cursor).position() <= final(cursor).position(),
        match resolved {
            Ok((block_size, sample_rate)) => {
                &&& deferred_at(
                    old(cursor).bits(),
                    old(cursor).position(),
                    *s,
                    stream_rate as nat,
                ) == Ok::<(nat, nat, int), DecodeError>(
                    (block_size as nat, sample_rate as nat, final(cursor).position()),
                )
                &&& 1 <= block_size
                &&& (final(cursor).position() - old(cursor).position()) % 8 == 0
            },
            Err(e) => deferred_at(
                old(cursor).bits(),
                old(cursor).position(),
                *s,
                stream_rate as nat,
            ) == Err::<(nat, nat, int), DecodeError>(e),
        },
{
    let ghost bits = cursor.bits();
    let ghost pos = cursor.position();
    proof {
        reveal(deferred_at);
        lemma2_to64();
    }
    let block_size: u16 = if s.block_size == 6 {
        let extra = cursor.read_bits(8)?;
        proof {
            lemma_field_bound(bits, pos, 8);
        }
        (extra + 1) as u16
    } else if s.block_size == 7 {
        let extra = cursor.read_bits(16)?;
        proof {
            lemma_field_bound(bits, pos, 16);
        }
        if extra == 0xFFFF {
            return Err(DecodeError::ReservedFieldUsed);
        }
        (extra + 1) as u16
    } else {
        block_size_table(s.block_size)
    };
    let ghost after_size = cursor.position();
    let sample_rate: u64 = if s.sample_rate == 12 {
        let extra = cursor.read_bits(8)?;
        proof {
            lemma_field_bound(bits, after_size, 8);
        }
        extra * 1000
    } else if s.sample_rate == 13 {
        cursor.read_bits(16)?
    } else if s.sample_rate == 14 {
        let extra = cursor.read_bits(16)?;
        proof {
            lemma_field_bound(bits, after_size, 16);
        }
        extra * 10
    } else {
        sample_rate_table(s.sample_rate, stream_rate)
    };
    Ok((block_size, sample_rate))
}

/// Reads the header of a frame from a cursor that stands at a byte boundary.
pub fn decode_frame_header(cursor: &mut BitCursor, info: &StreamInfo) -> (header: Result<
    FrameHeader,
    DecodeError,
>)
    requires
        old(cursor).wf(),
        old(cursor).position() % 8 == 0,
    ensures
        final(cursor).wf(),
        final(cursor).bytes() == old(cursor).bytes(),
        old(cursor).position() <= final(cursor).position(),
        match header {
            Ok(h) => {
                &&& header_at(old(cursor).bytes(), old(cursor).position(), *info) == Ok::<
                    (FrameHeader, int),
                    DecodeError,
                >((h, final(cursor).position()))
                &&& h.well_formed()
                &&& final(cursor).position() % 8 == 0
                &&& final(cursor).position() >= old(cursor).position() + 48
            },
            Err(e) => header_at(old(cursor).bytes(), old(cursor).position(), *info) == Err::<
                (FrameHeader, int),
                DecodeError,
            >(e),
        },
{
    proof {
        reveal(header_at);
    }
    let ghost bits = cursor.bits();
    let start = cursor.bit_position();
    let (s, channel_assignment, bit_depth) = read_selectors(cursor, info.bps)?;
    let number = read_utf8_u64(cursor)?;
    let ghost after_number = cursor.position();
    let (block_size, sample_rate) = read_deferred(cursor, &s, info.sample_rate)?;
    let end = cursor.bit_position();
    let check = cursor.read_bits(8)?;
    proof {
        lemma_field_bound(bits, end as int, 8);
        lemma2_to64();
        lemma_varint_length(bits, start + 32);
    }
    let expected = crc8_of(cursor.data(), start / 8, end / 8);
    if check != expected as u64 {
        return Err(DecodeError::HeaderChecksumMismatch);
    }
    Ok(
        FrameHeader {
            sync_code: s.sync,
            blocking_strategy: s.blocking,
            block_size_code: s.block_size,
            sample_rate_code: s.sample_rate,
            channel_assignment_code: s.channels,
            bit_depth_code: s.bit_depth,
            mandatory: s.mandatory,
            frame_or_sample_number: number,
            block_size,
            sample_rate,
            channel_assignment,
            bit_depth,
            crc8: check as u8,
        },
    )
}

/// What the division of a word into its eight parts comes to, where the
/// word is made up of parts that each stay within their width.
proof fn lemma_parts_of_word(
    word: u32,
    sync: u32,
    reserved: u32,
    blocking: u32,
    block_size: u32,
    sample_rate: u32,
    channels: u32,
    bit_depth: u32,
    mandatory: u32,
)
    by (bit_vector)
    requires
        sync < 0x4000,
        reserved < 2,
        blocking < 2,
        block_size < 16,
        sample_rate < 16,
        channels < 16,
        bit_depth < 8,
        mandatory < 2,
        word == sync * 0x4_0000 + reserved * 0x2_0000 + blocking * 0x1_0000 + block_size * 0x1000
            + sample_rate * 0x100 + channels * 0x10 + bit_depth * 2 + mandatory,
    ensures
        word / 0x4_0000 == sync,
        (word / 0x2_0000) % 2 == reserved,
        (word / 0x1_0000) % 2 == blocking,
        (word / 0x1000) % 16 == block_size,
        (word / 0x100) % 16 == sample_rate,
        (word / 0x10) % 16 == channels,
        (word / 2) % 8 == bit_depth,
        word % 2 == mandatory,
{
}

/// Dividing the 32 bits that open a header gives the field at each place: 14
/// bits of sync pattern, the reserved bit, the blocking strategy, four bits
/// each for block size, sample rate and channels, three bits of bit depth,
/// and the mandatory bit.
pub proof fn lemma_selectors_are_fields(bits: Seq<bool>, pos: nat)
    requires
        pos + 32 <= bits.len(),
    ensures
        selectors_of(field(bits, pos as int, 32)) == selector_fields(bits, pos as int),
{
    let pos = pos as int;
    lemma2_to64();
    lemma_field_split(bits, pos, 14, 18);
    lemma_field_split(bits, pos + 14, 1, 17);
    lemma_field_split(bits, pos + 15, 1, 16);
    lemma_field_split(bits, pos + 16, 4, 12);
    lemma_field_split(bits, pos + 20, 4, 8);
    lemma_field_split(bits, pos + 24, 4, 4);
    lemma_field_split(bits, pos + 28, 3, 1);
    lemma_field_bound(bits, pos, 14);
    lemma_field_bound(bits, pos + 14, 1);
    lemma_field_bound(bits, pos + 15, 1);
    lemma_field_bound(bits, pos + 16, 4);
    lemma_field_bound(bits, pos + 20, 4);
    lemma_field_bound(bits, pos + 24, 4);
    lemma_field_bound(bits, pos + 28, 3);
    lemma_field_bound(bits, pos + 31, 1);
    lemma_field_bound(bits, pos, 32);
    lemma_parts_of_word(
        field(bits, pos, 32) as u32,
        field(bits, pos, 14) as u32,
        field(bits, pos + 14, 1) as u32,
        field(bits, pos + 15, 1) as u32,
        field(bits, pos + 16, 4) as u32,
        field(bits, pos + 20, 4) as u32,
        field(bits, pos + 24, 4) as u32,
        field(bits, pos + 28, 3) as u32,
        field(bits, pos + 31, 1) as u32,
    );
}

/// A 32-bit word is the sum of its eight fields, each at its place.
proof fn lemma_word_is_sum_of_fields(w: u32)
    by (bit_vector)
    ensures
        w == (w / 0x4_0000) * 0x4_0000 + ((w / 0x2_0000) % 2) * 0x2_0000 + ((w / 0x1_0000) % 2)
            * 0x1_0000 + ((w / 0x1000) % 16) * 0x1000 + ((w / 0x100) % 16) * 0x100 + ((w / 0x10)
            % 16) * 0x10 + ((w / 2) % 8) * 2 + w % 2,
{
}

/// Writing the selectors of a decoded header out again gives the 32 bits that
/// the header was read from.
pub proof fn lemma_selectors_round_trip(data: Seq<u8>, pos: nat, info: StreamInfo)
    requires
        header_at(data, pos as int, info) is Ok,
    ensures
        selector_word(header_at(data, pos as int, info)->Ok_0.0) == field(
            bits_of(data),
            pos as int,
            32,
        ),
{
    reveal(header_at);
    reveal(selectors_at);
    lemma_selectors_are_fields(bits_of(data), pos);
    let pos = pos as int;
    let bits = bits_of(data);
    let word = field(bits, pos, 32);
    let s = selectors_of(word);
    let header = header_at(data, pos, info)->Ok_0.0;
    lemma_field_bound(bits, pos, 32);
    lemma2_to64();
    lemma_word_is_sum_of_fields(word as u32);
    assert(header.sync_code == s.sync);
    assert(s.reserved == 0);
    assert(header.blocking_strategy == s.blocking);
    assert(header.block_size_code == s.block_size);
    assert(header.sample_rate_code == s.sample_rate);
    assert(header.channel_assignment_code == s.channels);
    assert(header.bit_depth_code == s.bit_depth);
    assert(header.mandatory == s.mandatory);
}

/// The fields that the selectors defer to take up whole bytes, at most four
/// of them, inside the input.
proof fn lemma_deferred_length(bits: Seq<bool>, pos: int, s: Selectors, stream_rate: nat)
    ensures
        deferred_at(bits, pos, s, stream_rate) matches Ok((_, _, end)) ==> pos <= end <= pos + 32
            && (end - pos) % 8 == 0 && end <= bits.len(),
{
    reveal(deferred_at);
}

/// Selectors are accepted only where all 32 bits of them are there.
proof fn lemma_selectors_length(bits: Seq<bool>, pos: int, stream_depth: nat)
    ensures
        selectors_at(bits, pos, stream_depth) is Ok ==> pos + 32 <= bits.len(),
{
    reveal(selectors_at);
}

/// A header that is accepted ends at a byte boundary, on its checksum byte,
/// which is the checksum of the header bytes before it.
pub proof fn lemma_accepted_header_checksum(data: Seq<u8>, pos: nat, info: StreamInfo)
    requires
        pos % 8 == 0,
        header_at(data, pos as int, info) is Ok,
    ensures
        ({
            let end = header_at(data, pos as int, info)->Ok_0.1;
            &&& end % 8 == 0
            &&& pos + 48 <= end <= 8 * data.len()
            &&& data[end / 8 - 1] == crc8(data.subrange(pos as int / 8, end / 8 - 1))
        }),
{
    reveal(header_at);
    let bits = bits_of(data);
    let s = selectors_at(bits, pos as int, info.bps as nat)->Ok_0;
    let after_number = varint_at(bits, pos as int + 32)->Ok_0.1;
    lemma_selectors_length(bits, pos as int, info.bps as nat);
    lemma_varint_length(bits, pos as int + 32);
    lemma_deferred_length(bits, after_number, s, info.sample_rate as nat);
    let end = header_at(data, pos as int, info)->Ok_0.1;
    assert(end % 8 == 0);
    assert(pos + 48 <= end <= 8 * data.len());
    lemma_byte_field(data, end / 8 - 1);
}

/// A change to one header byte before the checksum byte does not go
/// unnoticed: where `data` holds a header, and `other` differs from `data` in
/// that one byte only, `other` holds no header of the same length at that
/// place.
pub proof fn lemma_changed_header_byte_is_detected(
    data: Seq<u8>,
    other: Seq<u8>,
    pos: nat,
    info: StreamInfo,
    at: int,
)
    requires
        pos % 8 == 0,
        header_at(data, pos as int, info) is Ok,
        other.len() == data.len(),
        pos as int / 8 <= at < header_at(data, pos as int, info)->Ok_0.1 / 8 - 1,
        other[at] != data[at],
        forall|j: int| 0 <= j < data.len() && j != at ==> other[j] == data[j],
    ensures
        match header_at(other, pos as int, info) {
            Ok((_, end)) => end != header_at(data, pos as int, info)->Ok_0.1,
            Err(_) => true,
        },
{
    let end = header_at(data, pos as int, info)->Ok_0.1;
    lemma_accepted_header_checksum(data, pos, info);
    if header_at(other, pos as int, info) is Ok && header_at(other, pos as int, info)->Ok_0.1
        == end {
        lemma_accepted_header_checksum(other, pos, info);
        lemma_crc8_detects_one_changed_byte(
            data.subrange(pos as int / 8, end / 8 - 1),
            other.subrange(pos as int / 8, end / 8 - 1),
            at - pos as int / 8,
        );
    }
}

} // verus!
