use vstd::prelude::*;
use vstd::arithmetic::power2::pow2;
use crate::bits::{all_fit, checked_copy, fits_signed, ints, signed_bounds};
use crate::error::DecodeError;
use crate::header::ChannelAssignment;

verus! {

/// The pair that is stored for a left and a right sample.
pub open spec fn store_pair(assignment: ChannelAssignment, left: int, right: int) -> (int, int) {
    match assignment {
        ChannelAssignment::Independent(_) => (left, right),
        ChannelAssignment::LeftSide => (left, left - right),
        ChannelAssignment::SideRight => (left - right, right),
        ChannelAssignment::MidSide => ((left + right) / 2, left - right),
    }
}

/// The left and the right sample that a stored pair stands for.
///
/// A mid sample has lost the lowest bit of the sum of left and right. The sum
/// is odd exactly where the side sample is, so the bit is taken from there.
pub open spec fn restore_pair(assignment: ChannelAssignment, first: int, second: int) -> (
    int,
    int,
) {
    match assignment {
        ChannelAssignment::Independent(_) => (first, second),
        ChannelAssignment::LeftSide => (first, first - second),
        ChannelAssignment::SideRight => (first + second, second),
        ChannelAssignment::MidSide => {
            let sum = 2 * first + second % 2;
            ((sum + second) / 2, (sum - second) / 2)
        },
    }
}

/// The numbers in each of a list of channels.
pub open spec fn planes(channels: Seq<Vec<i64>>) -> Seq<Seq<int>> {
    Seq::new(channels.len(), |c: int| ints(channels[c]@))
}

/// The output channels for the stored channels of a frame. Independent
/// channels are the output as they are; a stereo pair is restored sample by
/// sample.
pub open spec fn stereo_channels(assignment: ChannelAssignment, stored: Seq<Seq<int>>) -> Seq<
    Seq<int>,
> {
    match assignment {
        ChannelAssignment::Independent(_) => stored,
        _ => seq![
            Seq::new(
                stored[0].len(),
                |i: int| restore_pair(assignment, stored[0][i], stored[1][i]).0,
            ),
            Seq::new(
                stored[0].len(),
                |i: int| restore_pair(assignment, stored[0][i], stored[1][i]).1,
            ),
        ],
    }
}

/// Whether every sample of every channel fits `depth` bits.
pub open spec fn channels_fit(channels: Seq<Seq<int>>, depth: nat) -> bool {
    forall|c: int| 0 <= c < channels.len() ==> all_fit(#[trigger] channels[c], depth)
}

/// The output channels of a frame, which must all fit the frame's bit depth.
pub open spec fn stereo_restore(
    assignment: ChannelAssignment,
    stored: Seq<Seq<int>>,
    depth: nat,
) -> Result<Seq<Seq<int>>, DecodeError> {
    let channels = stereo_channels(assignment, stored);
    if channels_fit(channels, depth) {
        Ok(channels)
    } else {
        Err(DecodeError::ArithmeticOverflow)
    }
}

/// Restoring undoes storing, whatever the channel assignment and the samples.
pub proof fn lemma_stereo_round_trip(assignment: ChannelAssignment, left: int, right: int)
    ensures
        ({
            let stored = store_pair(assignment, left, right);
            restore_pair(assignment, stored.0, stored.1) == (left, right)
        }),
{
}

/// The output of a frame has the shape of what is stored: as many channels,
/// each as long, and every sample within the bit depth.
pub proof fn lemma_restored_shape(
    assignment: ChannelAssignment,
    stored: Seq<Seq<int>>,
    depth: nat,
    block_size: nat,
)
    requires
        stored.len() == assignment.channels(),
        forall|c: int| 0 <= c < stored.len() ==> (#[trigger] stored[c]).len() == block_size,
        stereo_restore(assignment, stored, depth) is Ok,
    ensures
        ({
            let channels = stereo_restore(assignment, stored, depth)->Ok_0;
            &&& channels.len() == assignment.channels()
            &&& forall|c: int|
                0 <= c < channels.len() ==> (#[trigger] channels[c]).len() == block_size
            &&& channels_fit(channels, depth)
        }),
{
}

/// Half of a number, rounded down.
fn floor_half(x: i128) -> (half: i128)
    requires
        x > i128::MIN,
    ensures
        half == x as int / 2,
{
    if x >= 0 {
        x / 2
    } else {
        -((-x - 1) / 2) - 1
    }
}

/// The left and the right sample that a stored pair stands for.
fn restore(assignment: &ChannelAssignment, first: i64, second: i64) -> (pair: (i128, i128))
    ensures
        pair.0 == restore_pair(*assignment, first as int, second as int).0,
        pair.1 == restore_pair(*assignment, first as int, second as int).1,
{
    let a = first as i128;
    let b = second as i128;
    match assignment {
        ChannelAssignment::Independent(_) => (a, b),
        ChannelAssignment::LeftSide => (a, a - b),
        ChannelAssignment::SideRight => (a + b, b),
        ChannelAssignment::MidSide => {
            let odd: i128 = if b >= 0 {
                b % 2
            } else {
                (-b) % 2
            };
            let sum = 2 * a + odd;
            (floor_half(sum + b), floor_half(sum - b))
        },
    }
}

/// Turns the stored channels of a frame into its output channels, or fails
/// where a sample of the output does not fit `depth` bits.
pub fn decorrelate(assignment: ChannelAssignment, stored: &Vec<Vec<i64>>, depth: u32) -> (channels:
    Result<Vec<Vec<i64>>, DecodeError>)
    requires
        1 <= depth <= 33,
        !(assignment is Independent) ==> stored@.len() == 2 && stored@[0]@.len()
            == stored@[1]@.len(),
    ensures
        match channels {
            Ok(v) => stereo_restore(assignment, planes(stored@), depth as nat) == Ok::<
                Seq<Seq<int>>,
                DecodeError,
            >(planes(v@)),
            Err(e) => stereo_restore(assignment, planes(stored@), depth as nat) == Err::<
                Seq<Seq<int>>,
                DecodeError,
            >(e),
        },
{
    let ghost input = planes(stored@);
    let ghost target = stereo_channels(assignment, input);
    let mut out: Vec<Vec<i64>> = Vec::new();
    match assignment {
        ChannelAssignment::Independent(_) => {
            let mut c: usize = 0;
            while c < stored.len()
                invariant
                    assignment is Independent,
                    1 <= depth <= 33,
                    c <= stored@.len(),
                    input == planes(stored@),
                    target == input,
                    out@.len() == c,
                    forall|k: int| 0 <= k < c ==> (#[trigger] out@[k])@ == stored@[k]@,
                    forall|k: int| 0 <= k < c ==> all_fit(#[trigger] target[k], depth as nat),
                decreases stored@.len() - c,
            {
                match checked_copy(&stored[c], depth) {
                    Some(copy) => {
                        out.push(copy);
                    },
                    None => {
                        assert(!all_fit(target[c as int], depth as nat));
                        return Err(DecodeError::ArithmeticOverflow);
                    },
                }
                c = c + 1;
            }
            assert(planes(out@) =~= target);
            Ok(out)
        },
        _ => {
            let (low, high) = signed_bounds(depth);
            let len = stored[0].len();
            let mut left: Vec<i64> = Vec::new();
            let mut right: Vec<i64> = Vec::new();
            let mut i: usize = 0;
            while i < len
                invariant
                    !(assignment is Independent),
                    1 <= depth <= 33,
                    stored@.len() == 2,
                    len == stored@[0]@.len(),
                    len == stored@[1]@.len(),
                    input == planes(stored@),
                    target == stereo_channels(assignment, input),
                    low == -(pow2((depth - 1) as nat) as int),
                    high == pow2((depth - 1) as nat) - 1,
                    i <= len,
                    left@.len() == i,
                    right@.len() == i,
                    forall|j: int| 0 <= j < i ==> #[trigger] left@[j] == target[0][j],
                    forall|j: int| 0 <= j < i ==> #[trigger] right@[j] == target[1][j],
                    forall|j: int|
                        0 <= j < i ==> fits_signed(#[trigger] target[0][j], depth as nat),
                    forall|j: int|
                        0 <= j < i ==> fits_signed(#[trigger] target[1][j], depth as nat),
                decreases len - i,
            {
                let (l, r) = restore(&assignment, stored[0][i], stored[1][i]);
                assert(l == target[0][i as int]);
                assert(r == target[1][i as int]);
                if l < low as i128 || l > high as i128 || r < low as i128 || r > high as i128 {
                    assert(!all_fit(target[0], depth as nat) || !all_fit(target[1], depth as nat));
                    return Err(DecodeError::ArithmeticOverflow);
                }
                left.push(l as i64);
                right.push(r as i64);
                i = i + 1;
            }
            out.push(left);
            out.push(right);
            assert(planes(out@) =~~= target);
            assert(channels_fit(target, depth as nat)) by {
                assert forall|c: int| 0 <= c < target.len() implies all_fit(
                    #[trigger] target[c],
                    depth as nat,
                ) by {
                    if c == 0 {
                    } else {
                        assert(c == 1);
                    }
                }
            }
            Ok(out)
        },
    }
}

} // verus!
