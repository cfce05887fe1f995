use flac_decoder::metadata::{
    check_flac_header, get_header, process_metadata, BlockAction, MetadataStep,
};
use flac_decoder::stream_info::StreamInfo;

#[test]
fn the_stream_marker() {
    assert!(check_flac_header(b"fLaC"));
    assert!(!check_flac_header(b"flac"));
    assert!(!check_flac_header(b"fLa"));
    assert!(!check_flac_header(b"fLaCx"));
    assert!(!check_flac_header(b"OggS"));
    assert!(!check_flac_header(b""));
}

#[test]
fn the_header_of_a_block() {
    assert_eq!(get_header(&[0x00, 0x00, 0x00, 0x22]), (false, 0, 34));
    assert_eq!(get_header(&[0x84, 0x00, 0x01, 0x02]), (true, 4, 258));
    assert_eq!(get_header(&[0xFF, 0xFF, 0xFF, 0xFF]), (true, 127, 0xFF_FFFF));
    assert_eq!(get_header(&[0x7F, 0x12, 0x34, 0x56]), (false, 127, 0x12_3456));
}

#[test]
fn only_a_picture_is_read() {
    assert_eq!(
        process_metadata(&[0x06, 0x00, 0x10, 0x00]),
        MetadataStep { action: BlockAction::ReadPicture(4096), last: false }
    );
    assert_eq!(
        process_metadata(&[0x86, 0x00, 0x00, 0x01]),
        MetadataStep { action: BlockAction::ReadPicture(1), last: true }
    );
    for block_type in [0u8, 1, 2, 3, 4, 5, 7, 126, 127] {
        assert_eq!(
            process_metadata(&[block_type, 0x00, 0x00, 0x08]),
            MetadataStep { action: BlockAction::Skip(8), last: false }
        );
        assert_eq!(
            process_metadata(&[0x80 | block_type, 0x01, 0x00, 0x00]),
            MetadataStep { action: BlockAction::Skip(65536), last: true }
        );
    }
}

#[test]
fn the_stream_parameters_of_a_block() {
    let mut block = vec![
        0x10, 0x00, 0x12, 0x34, 0x00, 0x00, 0x0E, 0xAB, 0xCD, 0xEF, 0x0A, 0xC4, 0x42, 0xF0,
        0x00, 0x0A, 0x11, 0x22,
    ];
    let digest: Vec<u8> = (1..=16).collect();
    block.extend(&digest);
    let info = StreamInfo::process_stream_info_block(&block).unwrap();
    assert_eq!(info.min_block_size, 4096);
    assert_eq!(info.max_block_size, 0x1234);
    assert_eq!(info.min_frame_size, 14);
    assert_eq!(info.max_frame_size, 0xAB_CDEF);
    assert_eq!(info.sample_rate, 44100);
    assert_eq!(info.channels, 2);
    assert_eq!(info.bps, 16);
    assert_eq!(info.total_samples, 0xA_1122);
    assert_eq!(&info.checksum_combined[..], &digest[..]);
    block.push(0xEE);
    assert_eq!(StreamInfo::process_stream_info_block(&block).unwrap().bps, 16);
}

#[test]
fn the_largest_stream_parameters() {
    let block = [0xFFu8; 34];
    let info = StreamInfo::process_stream_info_block(&block).unwrap();
    assert_eq!(info.min_block_size, 65535);
    assert_eq!(info.min_frame_size, 0xFF_FFFF);
    assert_eq!(info.sample_rate, 0xF_FFFF);
    assert_eq!(info.channels, 8);
    assert_eq!(info.bps, 32);
    assert_eq!(info.total_samples, 0xF_FFFF_FFFF);
    assert_eq!(info.checksum_combined, [0xFF; 16]);
}

#[test]
fn a_short_block_holds_no_stream_parameters() {
    assert!(StreamInfo::process_stream_info_block(&[0u8; 33]).is_none());
    assert!(StreamInfo::process_stream_info_block(&[]).is_none());
    assert!(StreamInfo::process_stream_info_block(&[0u8; 34]).is_some());
}

#[test]
fn new_keeps_every_field() {
    let info = StreamInfo::new(1, 2, 3, 4, 5, 6, 7, 8, [9; 16]);
    assert_eq!(
        (info.min_block_size, info.max_block_size, info.min_frame_size, info.max_frame_size),
        (1, 2, 3, 4)
    );
    assert_eq!((info.sample_rate, info.channels, info.bps, info.total_samples), (5, 6, 7, 8));
    assert_eq!(info.checksum_combined, [9; 16]);
}

#[test]
fn the_stream_parameters_of_a_stream_from_the_wild() {
    let block = [
        16u8, 0, 16, 0, 0, 6, 6, 0, 33, 98, 10, 196, 66, 240, 0, 4, 166, 204, 250, 242, 105, 47,
        253, 236, 45, 91, 48, 1, 118, 180, 98, 136, 125, 146,
    ];
    assert_eq!(get_header(&[0, 0, 0, 34]), (false, 0, 34));
    let info = StreamInfo::process_stream_info_block(&block).unwrap();
    assert_eq!((info.min_block_size, info.max_block_size), (4096, 4096));
    assert_eq!((info.min_frame_size, info.max_frame_size), (1542, 8546));
    assert_eq!((info.sample_rate, info.channels, info.bps), (44100, 2, 16));
    assert_eq!(info.total_samples, 304844);
    assert_eq!(
        info.checksum_combined,
        [
            0xFA, 0xF2, 0x69, 0x2F, 0xFD, 0xEC, 0x2D, 0x5B, 0x30, 0x01, 0x76, 0xB4, 0x62, 0x88,
            0x7D, 0x92
        ]
    );
}
