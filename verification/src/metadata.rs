use vstd::prelude::*;

verus! {

/// The type code of a stream-information block.
pub const STREAM_INFO_BLOCK: u8 = 0;

/// The type code of a picture block.
pub const PICTURE_BLOCK: u8 = 6;

/// Whether four bytes are the marker `fLaC` that opens a stream.
pub open spec fn is_stream_marker(bytes: Seq<u8>) -> bool {
    bytes.len() == 4 && bytes[0] == 0x66 && bytes[1] == 0x4C && bytes[2] == 0x61 && bytes[3]
        == 0x43
}

/// Whether the bytes that open a file are the stream marker.
pub fn check_flac_header(bytes: &[u8]) -> (ok: bool)
    ensures
        ok == is_stream_marker(bytes@),
{
    bytes.len() == 4 && bytes[0] == 0x66 && bytes[1] == 0x4C && bytes[2] == 0x61 && bytes[3]
        == 0x43
}

/// What the four bytes before a metadata block say of it: whether it is the
/// last one, its type in the low seven bits of the first byte, and the
/// length of its body in the other three bytes.
pub open spec fn block_header(header: Seq<u8>) -> (bool, u8, u32) {
    (
        header[0] >= 0x80,
        (header[0] % 0x80) as u8,
        (header[1] * 0x1_0000 + header[2] * 0x100 + header[3]) as u32,
    )
}

/// Reads the header of a metadata block.
pub fn get_header(header: &[u8; 4]) -> (parts: (bool, u8, u32))
    ensures
        parts == block_header(header@),
{
    let is_last = header[0] >= 0x80;
    let block_type = header[0] % 0x80;
    let length = (header[1] as u32) * 0x1_0000 + (header[2] as u32) * 0x100 + (header[3] as u32);
    (is_last, block_type, length)
}

/// What to do with the body of a metadata block.
#[derive(Clone, Copy, Debug, PartialEq, Eq, Structural)]
pub enum BlockAction {
    /// Read this many bytes and take the picture out of them.
    ReadPicture(u32),
    /// Pass over this many bytes.
    Skip(u32),
}

/// One step through the metadata: what to do with the block at hand, and
/// whether the frames follow it.
#[derive(Clone, Copy, Debug, PartialEq, Eq, Structural)]
pub struct MetadataStep {
    pub action: BlockAction,
    pub last: bool,
}

/// The step that the header of a metadata block asks for: only a picture
/// block is read, every other block is passed over.
pub open spec fn metadata_step(header: Seq<u8>) -> MetadataStep {
    let (last, block_type, length) = block_header(header);
    MetadataStep {
        action: if block_type == PICTURE_BLOCK {
            BlockAction::ReadPicture(length)
        } else {
            BlockAction::Skip(length)
        },
        last,
    }
}

/// Decides the next step through the metadata from the header of a block.
pub fn process_metadata(header: &[u8; 4]) -> (step: MetadataStep)
    ensures
        step == metadata_step(header@),
{
    let (last, block_type, length) = get_header(header);
    let action = if block_type == PICTURE_BLOCK {
        BlockAction::ReadPicture(length)
    } else {
        BlockAction::Skip(length)
    };
    MetadataStep { action, last }
}

} // verus!
