use vstd::prelude::*;
use vstd::slice::{slice_subrange, slice_to_vec};
use vstd::utf8::{decode_utf8, valid_utf8};
use image::ImageReader;
use std::io::Cursor;

verus! {

/// A picture block of the metadata, without the picture itself.
#[derive(Debug)]
pub struct PictureBlock {
    pub picture_type: u32,
    pub media_type: String,
    pub description_length: u32,
    pub width: u32,
    pub height: u32,
    pub color_depth: u32,
    pub colors_used: u32,
    pub picture_data_length: u32,
}

/// The kind of file that a picture is saved as.
#[derive(Clone, Copy, Debug, PartialEq, Eq, Structural)]
pub enum PictureFormat {
    Jpeg,
    Png,
    Other,
}

/// The big-endian number in the four bytes from `at`.
pub open spec fn be32(block: Seq<u8>, at: int) -> int {
    block[at] * 0x100_0000 + block[at + 1] * 0x1_0000 + block[at + 2] * 0x100 + block[at + 3]
}

/// Where the length of the description stands: after the picture type, the
/// length of the media type and the media type itself.
pub open spec fn description_at(block: Seq<u8>) -> int {
    8 + be32(block, 4)
}

/// Where the five numbers of the picture stand: after the description.
pub open spec fn numbers_at(block: Seq<u8>) -> int {
    description_at(block) + 4 + be32(block, description_at(block))
}

/// Where the picture's own bytes start: after width, height, colour depth,
/// count of colours and the length of the picture.
pub open spec fn data_at(block: Seq<u8>) -> int {
    numbers_at(block) + 20
}

/// The bytes of the media type.
pub open spec fn media_type_bytes(block: Seq<u8>) -> Seq<u8> {
    block.subrange(8, description_at(block))
}

/// Whether a block holds every part of a picture block within its length,
/// with a media type that is text.
pub open spec fn is_picture_block(block: Seq<u8>) -> bool {
    &&& 8 <= block.len()
    &&& description_at(block) + 4 <= block.len()
    &&& data_at(block) <= block.len()
    &&& data_at(block) + be32(block, numbers_at(block) + 16) <= block.len()
    &&& valid_utf8(media_type_bytes(block))
}

/// Whether `picture` holds the numbers and the media type of a block.
pub open spec fn describes_picture(picture: PictureBlock, block: Seq<u8>) -> bool {
    &&& picture.picture_type == be32(block, 0)
    &&& picture.media_type@ == decode_utf8(media_type_bytes(block))
    &&& picture.description_length == be32(block, description_at(block))
    &&& picture.width == be32(block, numbers_at(block))
    &&& picture.height == be32(block, numbers_at(block) + 4)
    &&& picture.color_depth == be32(block, numbers_at(block) + 8)
    &&& picture.colors_used == be32(block, numbers_at(block) + 12)
    &&& picture.picture_data_length == be32(block, numbers_at(block) + 16)
}

/// The size of a picture: the size that its block states, or, where the block
/// leaves the width or the height at zero, the size of the decoded picture if
/// it could be decoded.
pub open spec fn resolved_size(width: u32, height: u32, decoded: Option<(u32, u32)>) -> (u32, u32) {
    if (width == 0 || height == 0) && decoded is Some {
        decoded->0
    } else {
        (width, height)
    }
}

/// `ImageReader::with_guessed_format` and `ImageReader::decode` of the
/// `image` crate on bytes in memory: the width and height of the picture that
/// was decoded, or nothing where none was. Which formats are recognised is up
/// to the crate and to what the running program has registered with it, so
/// nothing is claimed of the outcome.
#[verifier::external_body]
fn image_size(data: &[u8]) -> (size: Option<(u32, u32)>)
{
    let reader = ImageReader::new(Cursor::new(data)).with_guessed_format().ok()?;
    let picture = reader.decode().ok()?;
    Some((picture.width(), picture.height()))
}

/// `String::from_utf8`: the text that the bytes encode, or nothing where
/// they are not UTF-8.
#[verifier::external_body]
fn utf8_text(bytes: Vec<u8>) -> (text: Option<String>)
    ensures
        text is Some <==> valid_utf8(bytes@),
        text matches Some(s) ==> s@ == decode_utf8(bytes@),
{
    String::from_utf8(bytes).ok()
}

/// Reads the big-endian number in the four bytes from `at`.
fn read_be32(block: &[u8], at: usize) -> (value: u32)
    requires
        at + 4 <= block@.len(),
    ensures
        value == be32(block@, at as int),
{
    (block[at] as u32) * 0x100_0000 + (block[at + 1] as u32) * 0x1_0000 + (block[at + 2] as u32)
        * 0x100 + (block[at + 3] as u32)
}

/// Chooses the size of a picture from what its block states and from what
/// decoding it gave.
pub fn resolve_size(width: u32, height: u32, decoded: Option<(u32, u32)>) -> (size: (u32, u32))
    ensures
        size == resolved_size(width, height, decoded),
{
    match decoded {
        Some(found) => if width == 0 || height == 0 {
            found
        } else {
            (width, height)
        },
        None => (width, height),
    }
}

impl PictureBlock {
    /// Reads the numbers and the media type of a picture block, and returns
    /// them with the place at which the picture's own bytes start.
    pub fn parse(block: &[u8]) -> (parsed: Option<(PictureBlock, usize)>)
        ensures
            parsed is Some <==> is_picture_block(block@),
            parsed matches Some((picture, start)) ==> describes_picture(picture, block@) && start
                == data_at(block@),
    {
        let len = block.len() as u64;
        if len < 8 {
            return None;
        }
        let picture_type = read_be32(block, 0);
        let media_len = read_be32(block, 4);
        let description_at: u64 = 8 + media_len as u64;
        if description_at + 4 > len {
            return None;
        }
        let description_length = read_be32(block, description_at as usize);
        let numbers_at: u64 = description_at + 4 + description_length as u64;
        if numbers_at + 20 > len {
            return None;
        }
        let at = numbers_at as usize;
        let width = read_be32(block, at);
        let height = read_be32(block, at + 4);
        let color_depth = read_be32(block, at + 8);
        let colors_used = read_be32(block, at + 12);
        let picture_data_length = read_be32(block, at + 16);
        if numbers_at + 20 + picture_data_length as u64 > len {
            return None;
        }
        let media_bytes = slice_to_vec(slice_subrange(block, 8, description_at as usize));
        let media_type = match utf8_text(media_bytes) {
            Some(text) => text,
            None => { return None; },
        };
        Some(
            (
                PictureBlock {
                    picture_type,
                    media_type,
                    description_length,
                    width,
                    height,
                    color_depth,
                    colors_used,
                    picture_data_length,
                },
                at + 20,
            ),
        )
    }

    /// Reads a picture block as `parse` does, and tries to decode the picture
    /// where the block leaves its width or its height at zero: the size is
    /// then what `resolve_size` makes of the stated size and of the outcome.
    /// A size that the block states in full is kept.
    pub fn process_picture_block(block: &[u8]) -> (parsed: Option<(PictureBlock, usize)>)
        ensures
            parsed is Some <==> is_picture_block(block@),
            parsed matches Some((picture, start)) ==> {
                &&& start == data_at(block@)
                &&& describes_picture(
                    PictureBlock {
                        width: be32(block@, numbers_at(block@)) as u32,
                        height: be32(block@, numbers_at(block@) + 4) as u32,
                        ..picture
                    },
                    block@,
                )
                &&& be32(block@, numbers_at(block@)) != 0 && be32(block@, numbers_at(block@) + 4)
                    != 0 ==> describes_picture(picture, block@)
            },
    {
        let (picture, start) = PictureBlock::parse(block)?;
        assert(is_picture_block(block@));
        let length = picture.picture_data_length as usize;
        assert(start + length <= block.len());
        if picture.width != 0 && picture.height != 0 {
            return Some((picture, start));
        }
        let data = slice_subrange(block, start, start + length);
        let (width, height) = resolve_size(picture.width, picture.height, image_size(data));
        Some((PictureBlock { width, height, ..picture }, start))
    }

    /// The kind of file for the media type of the picture.
    pub fn format(&self) -> (format: PictureFormat)
        ensures
            format == (if self.media_type@ == "image/jpeg"@ {
                PictureFormat::Jpeg
            } else if self.media_type@ == "image/png"@ {
                PictureFormat::Png
            } else {
                PictureFormat::Other
            }),
    {
        let jpeg = "image/jpeg".to_owned();
        let png = "image/png".to_owned();
        if self.media_type == jpeg {
            PictureFormat::Jpeg
        } else if self.media_type == png {
            PictureFormat::Png
        } else {
            PictureFormat::Other
        }
    }
}

} // verus!
