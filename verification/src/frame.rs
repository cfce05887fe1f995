use vstd::prelude::*;
use crate::bits::{bits_of, field, ints, lemma_field_bound};
use crate::crc::{crc16, crc16_of};
use crate::cursor::{next_boundary, BitCursor};
use crate::error::DecodeError;
use crate::header::{
    decode_frame_header, header_at, selector_word, FrameHeader, lemma_selectors_round_trip,
};
use crate::stereo::{channels_fit, decorrelate, planes, stereo_restore, lemma_restored_shape};
use crate::stream_info::StreamInfo;
use crate::subframe::{subframe_at, subframe_samples, Subframe, SubframeModel};
use vstd::arithmetic::power2::lemma2_to64;

verus! {

/// One frame as it was read: its header, one subframe for each channel, and
/// its footer beside the checksum that the footer should hold.
#[derive(Debug)]
pub struct Frame {
    pub header: FrameHeader,
    pub subframes: Vec<Subframe>,
    /// The 16 bits that end the frame.
    pub footer: u16,
    /// The checksum of the frame's bytes before the footer.
    pub checksum: u16,
}

/// The samples of one frame.
#[derive(Debug)]
pub struct DecodedFrame {
    pub header: FrameHeader,
    /// One sequence of samples for each output channel.
    pub channels: Vec<Vec<i64>>,
    /// Whether the footer of the frame held the checksum of the frame.
    pub checksum_valid: bool,
}

/// What a `Frame` holds, as numbers and sequences.
pub struct FrameModel {
    pub header: FrameHeader,
    pub subframes: Seq<SubframeModel>,
    pub footer: u16,
    pub checksum: u16,
}

/// What a `DecodedFrame` holds, as numbers and sequences.
pub struct DecodedFrameModel {
    pub header: FrameHeader,
    pub channels: Seq<Seq<int>>,
    pub checksum_valid: bool,
}

/// The models of a list of subframes.
pub open spec fn subframe_models(subframes: Seq<Subframe>) -> Seq<SubframeModel> {
    Seq::new(subframes.len(), |c: int| subframes[c]@)
}

impl View for Frame {
    type V = FrameModel;

    open spec fn view(&self) -> FrameModel {
        FrameModel {
            header: self.header,
            subframes: subframe_models(self.subframes@),
            footer: self.footer,
            checksum: self.checksum,
        }
    }
}

impl View for DecodedFrame {
    type V = DecodedFrameModel;

    open spec fn view(&self) -> DecodedFrameModel {
        DecodedFrameModel {
            header: self.header,
            channels: planes(self.channels@),
            checksum_valid: self.checksum_valid,
        }
    }
}

impl DecodedFrameModel {
    /// What holds of every frame that was decoded: there is one channel for
    /// each that the header announces, each holds a block of samples, and
    /// every sample fits the bit depth.
    pub open spec fn well_formed(self) -> bool {
        &&& self.header.well_formed()
        &&& self.channels.len() == self.header.channel_assignment.channels()
        &&& forall|c: int|
            0 <= c < self.channels.len() ==> (#[trigger] self.channels[c]).len()
                == self.header.block_size
        &&& channels_fit(self.channels, self.header.bit_depth as nat)
    }
}

impl FrameModel {
    /// Whether the frame has a subframe for each channel that its header
    /// announces, each in agreement with the header.
    pub open spec fn well_formed(self) -> bool {
        &&& self.header.well_formed()
        &&& self.subframes.len() == self.header.channel_assignment.channels()
        &&& forall|c: int|
            0 <= c < self.subframes.len() ==> (#[trigger] self.subframes[c]).well_formed(
                self.header.channel_width(c as nat),
                self.header.block_size as nat,
            )
    }
}

/// The subframes of the first `count` channels of a frame, from bit `pos`.
pub open spec fn subframes_at(bits: Seq<bool>, pos: int, header: FrameHeader, count: nat)
    -> Result<(Seq<SubframeModel>, int), DecodeError>
    decreases count,
{
    if count == 0 {
        Ok((Seq::empty(), pos))
    } else {
        match subframes_at(bits, pos, header, (count - 1) as nat) {
            Err(e) => Err(e),
            Ok((before, at)) => match subframe_at(
                bits,
                at,
                header.channel_width((count - 1) as nat),
                header.block_size as nat,
            ) {
                Err(e) => Err(e),
                Ok((subframe, next)) => Ok((before.push(subframe), next)),
            },
        }
    }
}

/// The frame that starts at bit `pos` of `data`, which is a byte boundary,
/// with the position after its footer.
///
/// After the header comes one subframe for each channel. The bits up to the
/// next byte boundary are skipped, and 16 bits of footer end the frame. The
/// checksum is taken over all bytes of the frame before the footer.
pub open spec fn frame_at(data: Seq<u8>, pos: int, info: StreamInfo) -> Result<
    (FrameModel, int),
    DecodeError,
> {
    let bits = bits_of(data);
    match header_at(data, pos, info) {
        Err(e) => Err(e),
        Ok((header, body)) => match subframes_at(
            bits,
            body,
            header,
            header.channel_assignment.channels(),
        ) {
            Err(e) => Err(e),
            Ok((subframes, tail)) => {
                let foot = next_boundary(tail);
                if foot + 16 > bits.len() {
                    Err(DecodeError::UnexpectedEndOfInput)
                } else {
                    Ok(
                        (
                            FrameModel {
                                header,
                                subframes,
                                footer: field(bits, foot, 16) as u16,
                                checksum: crc16(data.subrange(pos / 8, foot / 8)),
                            },
                            foot + 16,
                        ),
                    )
                }
            },
        }
    }
}

/// The samples of the first `count` channels of a frame as they are stored.
pub open spec fn stored_channels(frame: FrameModel, count: nat) -> Result<
    Seq<Seq<int>>,
    DecodeError,
>
    decreases count,
{
    if count == 0 {
        Ok(Seq::empty())
    } else {
        match stored_channels(frame, (count - 1) as nat) {
            Err(e) => Err(e),
            Ok(before) => match subframe_samples(
                frame.subframes[count - 1],
                frame.header.channel_width((count - 1) as nat),
                frame.header.block_size as nat,
            ) {
                Err(e) => Err(e),
                Ok(samples) => Ok(before.push(samples)),
            },
        }
    }
}

/// The output channels of a frame.
pub open spec fn frame_samples(frame: FrameModel) -> Result<Seq<Seq<int>>, DecodeError> {
    match stored_channels(frame, frame.subframes.len()) {
        Err(e) => Err(e),
        Ok(stored) => stereo_restore(
            frame.header.channel_assignment,
            stored,
            frame.header.bit_depth as nat,
        ),
    }
}

/// What decoding the frame at bit `pos` of `data` gives, with the position
/// after the frame. A frame whose footer does not hold its checksum is
/// rejected where `strict` is set, and marked otherwise.
pub open spec fn decoded_at(data: Seq<u8>, pos: int, info: StreamInfo, strict: bool) -> Result<
    (DecodedFrameModel, int),
    DecodeError,
> {
    match frame_at(data, pos, info) {
        Err(e) => Err(e),
        Ok((frame, end)) => match frame_samples(frame) {
            Err(e) => Err(e),
            Ok(channels) => if strict && frame.footer != frame.checksum {
                Err(DecodeError::FrameChecksumMismatch)
            } else {
                Ok(
                    (
                        DecodedFrameModel {
                            header: frame.header,
                            channels,
                            checksum_valid: frame.footer == frame.checksum,
                        },
                        end,
                    ),
                )
            },
        },
    }
}

/// A failure among the first subframes is the failure of them all.
pub proof fn lemma_subframes_fail_on(
    bits: Seq<bool>,
    pos: int,
    header: FrameHeader,
    seen: nat,
    count: nat,
)
    requires
        seen <= count,
        subframes_at(bits, pos, header, seen) is Err,
    ensures
        subframes_at(bits, pos, header, count) == subframes_at(bits, pos, header, seen),
    decreases count,
{
    if seen < count {
        lemma_subframes_fail_on(bits, pos, header, seen, (count - 1) as nat);
    }
}

/// A failure among the first channels is the failure of them all.
pub proof fn lemma_stored_channels_fail_on(frame: FrameModel, seen: nat, count: nat)
    requires
        seen <= count,
        stored_channels(frame, seen) is Err,
    ensures
        stored_channels(frame, count) == stored_channels(frame, seen),
    decreases count,
{
    if seen < count {
        lemma_stored_channels_fail_on(frame, seen, (count - 1) as nat);
    }
}

/// Writing the selectors of the header of a decoded frame out again gives the
/// 32 bits that open the frame.
pub proof fn lemma_decoded_selectors_round_trip(
    data: Seq<u8>,
    pos: nat,
    info: StreamInfo,
    strict: bool,
)
    requires
        decoded_at(data, pos as int, info, strict) is Ok,
    ensures
        selector_word(decoded_at(data, pos as int, info, strict)->Ok_0.0.header) == field(
            bits_of(data),
            pos as int,
            32,
        ),
{
    lemma_selectors_round_trip(data, pos, info);
}

/// Reads the subframes of a frame, one for each channel.
fn read_subframes(cursor: &mut BitCursor, header: &FrameHeader) -> (subframes: Result<
    Vec<Subframe>,
    DecodeError,
>)
    requires
        old(cursor).wf(),
        header.well_formed(),
    ensures
        final(cursor).wf(),
        final(cursor).bytes() == old(cursor).bytes(),
        old(cursor).position() <= final(cursor).position(),
        match subframes {
            Ok(v) => {
                &&& subframes_at(
                    old(cursor).bits(),
                    old(cursor).position(),
                    *header,
                    header.channel_assignment.channels(),
                ) == Ok::<(Seq<SubframeModel>, int), DecodeError>(
                    (subframe_models(v@), final(cursor).position()),
                )
                &&& v@.len() == header.channel_assignment.channels()
                &&& forall|k: int|
                    0 <= k < v@.len() ==> (#[trigger] v@[k])@.well_formed(
                        header.channel_width(k as nat),
                        header.block_size as nat,
                    )
            },
            Err(e) => subframes_at(
                old(cursor).bits(),
                old(cursor).position(),
                *header,
                header.channel_assignment.channels(),
            ) == Err::<(Seq<SubframeModel>, int), DecodeError>(e),
        },
{
    let ghost bits = cursor.bits();
    let ghost body = cursor.position();
    let count = header.channel_assignment.channel_count();
    let mut subframes: Vec<Subframe> = Vec::new();
    let mut c: u8 = 0;
    assert(subframe_models(subframes@) =~= Seq::<SubframeModel>::empty());
    while c < count
        invariant
            cursor.wf(),
            cursor.bytes() == old(cursor).bytes(),
            old(cursor).position() <= cursor.position(),
            bits == cursor.bits(),
            body == old(cursor).position(),
            header.well_formed(),
            count == header.channel_assignment.channels(),
            c <= count,
            subframes@.len() == c,
            subframes_at(bits, body, *header, c as nat) == Ok::<
                (Seq<SubframeModel>, int),
                DecodeError,
            >((subframe_models(subframes@), cursor.position())),
            forall|k: int|
                0 <= k < c ==> (#[trigger] subframes@[k])@.well_formed(
                    header.channel_width(k as nat),
                    header.block_size as nat,
                ),
        decreases count - c,
    {
        let ghost before = subframe_models(subframes@);
        let width: u32 = if header.channel_assignment.is_side_channel(c) {
            header.bit_depth + 1
        } else {
            header.bit_depth
        };
        match Subframe::decode(cursor, width, header.block_size as u32) {
            Ok(subframe) => {
                let ghost model = subframe@;
                subframes.push(subframe);
                assert(subframe_models(subframes@) =~= before.push(model));
            },
            Err(e) => {
                proof {
                    lemma_subframes_fail_on(bits, body, *header, (c + 1) as nat, count as nat);
                }
                return Err(e);
            },
        }
        c = c + 1;
    }
    Ok(subframes)
}

impl Frame {
    /// Reads one frame from a cursor that stands at a byte boundary.
    pub fn decode(cursor: &mut BitCursor, info: &StreamInfo) -> (frame: Result<Frame, DecodeError>)
        requires
            old(cursor).wf(),
            old(cursor).position() % 8 == 0,
        ensures
            final(cursor).wf(),
            final(cursor).bytes() == old(cursor).bytes(),
        old(cursor).position() <= final(cursor).position(),
            match frame {
                Ok(f) => {
                    &&& frame_at(old(cursor).bytes(), old(cursor).position(), *info) == Ok::<
                        (FrameModel, int),
                        DecodeError,
                    >((f@, final(cursor).position()))
                    &&& f@.well_formed()
                    &&& final(cursor).position() % 8 == 0
                    &&& final(cursor).position() >= old(cursor).position() + 64
                },
                Err(e) => frame_at(old(cursor).bytes(), old(cursor).position(), *info) == Err::<
                    (FrameModel, int),
                    DecodeError,
                >(e),
            },
    {
        let ghost bits = cursor.bits();
        let start = cursor.bit_position();
        let header = decode_frame_header(cursor, info)?;
        let subframes = read_subframes(cursor, &header)?;
        cursor.align_to_byte();
        let foot = cursor.bit_position();
        let footer = cursor.read_bits(16)?;
        proof {
            lemma_field_bound(bits, foot as int, 16);
            lemma2_to64();
        }
        let checksum = crc16_of(cursor.data(), start / 8, foot / 8);
        let frame = Frame { header, subframes, footer: footer as u16, checksum };
        proof {
            assert(foot % 8 == 0);
            assert forall|c: int| 0 <= c < frame@.subframes.len() implies (
            #[trigger] frame@.subframes[c]).well_formed(
                frame@.header.channel_width(c as nat),
                frame@.header.block_size as nat,
            ) by {
                assert(frame@.subframes[c] == frame.subframes@[c]@);
            }
        }
        Ok(frame)
    }

    /// Restores the output channels of the frame, or fails where a sample
    /// does not fit its width.
    pub fn samples(&self) -> (channels: Result<Vec<Vec<i64>>, DecodeError>)
        requires
            self@.well_formed(),
        ensures
            match channels {
                Ok(v) => {
                    &&& frame_samples(self@) == Ok::<Seq<Seq<int>>, DecodeError>(planes(v@))
                    &&& (DecodedFrameModel {
                        header: self.header,
                        channels: planes(v@),
                        checksum_valid: true,
                    }).well_formed()
                },
                Err(e) => frame_samples(self@) == Err::<Seq<Seq<int>>, DecodeError>(e),
            },
    {
        let mut stored: Vec<Vec<i64>> = Vec::new();
        let mut c: usize = 0;
        assert(planes(stored@) =~= Seq::<Seq<int>>::empty());
        while c < self.subframes.len()
            invariant
                self@.well_formed(),
                c <= self.subframes@.len(),
                stored@.len() == c,
                stored_channels(self@, c as nat) == Ok::<Seq<Seq<int>>, DecodeError>(
                    planes(stored@),
                ),
                forall|k: int|
                    0 <= k < c ==> (#[trigger] stored@[k])@.len() == self.header.block_size,
            decreases self.subframes@.len() - c,
        {
            let ghost before = planes(stored@);
            assert(self@.subframes[c as int] == self.subframes@[c as int]@);
            let width: u32 = if self.header.channel_assignment.is_side_channel(c as u8) {
                self.header.bit_depth + 1
            } else {
                self.header.bit_depth
            };
            match self.subframes[c].samples(width, self.header.block_size as u32) {
                Ok(samples) => {
                    let ghost added = ints(samples@);
                    stored.push(samples);
                    assert(planes(stored@) =~= before.push(added));
                },
                Err(e) => {
                    proof {
                        lemma_stored_channels_fail_on(
                            self@,
                            (c + 1) as nat,
                            self.subframes@.len() as nat,
                        );
                    }
                    return Err(e);
                },
            }
            c = c + 1;
        }
        proof {
            assert forall|k: int| 0 <= k < planes(stored@).len() implies (
            #[trigger] planes(stored@)[k]).len() == self.header.block_size by {
                assert(stored@[k]@.len() == self.header.block_size);
            }
            if stereo_restore(
                self.header.channel_assignment,
                planes(stored@),
                self.header.bit_depth as nat,
            ) is Ok {
                lemma_restored_shape(
                    self.header.channel_assignment,
                    planes(stored@),
                    self.header.bit_depth as nat,
                    self.header.block_size as nat,
                );
            }
        }
        decorrelate(self.header.channel_assignment, &stored, self.header.bit_depth)
    }
}

/// Decodes the frame at the cursor, which stands at a byte boundary, and
/// leaves the cursor after the frame. Where `strict` is set, a frame whose
/// footer does not hold its checksum is rejected; otherwise its samples are
/// handed out, marked as doubtful.
pub fn decode_frame_with(cursor: &mut BitCursor, info: &StreamInfo, strict: bool) -> (decoded:
    Result<DecodedFrame, DecodeError>)
    requires
        old(cursor).wf(),
        old(cursor).position() % 8 == 0,
    ensures
        final(cursor).wf(),
        final(cursor).bytes() == old(cursor).bytes(),
        old(cursor).position() <= final(cursor).position(),
        match decoded {
            Ok(d) => {
                &&& decoded_at(old(cursor).bytes(), old(cursor).position(), *info, strict) == Ok::<
                    (DecodedFrameModel, int),
                    DecodeError,
                >((d@, final(cursor).position()))
                &&& d@.well_formed()
                &&& final(cursor).position() % 8 == 0
                &&& final(cursor).position() >= old(cursor).position() + 64
            },
            Err(e) => decoded_at(old(cursor).bytes(), old(cursor).position(), *info, strict)
                == Err::<(DecodedFrameModel, int), DecodeError>(e),
        },
{
    let frame = Frame::decode(cursor, info)?;
    let channels = frame.samples()?;
    let checksum_valid = frame.footer == frame.checksum;
    if strict && !checksum_valid {
        return Err(DecodeError::FrameChecksumMismatch);
    }
    Ok(DecodedFrame { header: frame.header, channels, checksum_valid })
}

/// Decodes the frame at the cursor, which stands at a byte boundary, and
/// leaves the cursor after the frame. A frame whose footer does not hold its
/// checksum is rejected.
pub fn decode_frame(cursor: &mut BitCursor, info: &StreamInfo) -> (decoded: Result<
    DecodedFrame,
    DecodeError,
>)
    requires
        old(cursor).wf(),
        old(cursor).position() % 8 == 0,
    ensures
        final(cursor).wf(),
        final(cursor).bytes() == old(cursor).bytes(),
        old(cursor).position() <= final(cursor).position(),
        match decoded {
            Ok(d) => {
                &&& decoded_at(old(cursor).bytes(), old(cursor).position(), *info, true) == Ok::<
                    (DecodedFrameModel, int),
                    DecodeError,
                >((d@, final(cursor).position()))
                &&& d@.well_formed()
                &&& final(cursor).position() % 8 == 0
                &&& final(cursor).position() >= old(cursor).position() + 64
            },
            Err(e) => decoded_at(old(cursor).bytes(), old(cursor).position(), *info, true) == Err::<
                (DecodedFrameModel, int),
                DecodeError,
            >(e),
        },
{
    decode_frame_with(cursor, info, true)
}

/// Decodes the frame at the cursor as `decode_frame` does, but hands out the
/// samples of a frame whose footer does not hold its checksum, marked as
/// such.
pub fn decode_frame_best_effort(cursor: &mut BitCursor, info: &StreamInfo) -> (decoded: Result<
    DecodedFrame,
    DecodeError,
>)
    requires
        old(cursor).wf(),
        old(cursor).position() % 8 == 0,
    ensures
        final(cursor).wf(),
        final(cursor).bytes() == old(cursor).bytes(),
        old(cursor).position() <= final(cursor).position(),
        match decoded {
            Ok(d) => {
                &&& decoded_at(old(cursor).bytes(), old(cursor).position(), *info, false) == Ok::<
                    (DecodedFrameModel, int),
                    DecodeError,
                >((d@, final(cursor).position()))
                &&& d@.well_formed()
                &&& final(cursor).position() % 8 == 0
                &&& final(cursor).position() >= old(cursor).position() + 64
            },
            Err(e) => decoded_at(old(cursor).bytes(), old(cursor).position(), *info, false)
                == Err::<(DecodedFrameModel, int), DecodeError>(e),
        },
{
    decode_frame_with(cursor, info, false)
}

} // verus!
