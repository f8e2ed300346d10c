use lib::block::zigzag;
use lib::entropy::HuffmanTable;
use lib::error::JpegError;
use lib::parser::{
    parse_frame, parse_huffman_tables, parse_scan, read_marker, read_u16, read_u8,
};
use lib::transform::{transpose_frequency_table, Transform};
use lib::writer::{
    output_huffman_tables, rewrite_frame_segment, rewrite_quantization_segment, write_huffman_segment,
    write_segment,
};

#[test]
fn only_eight_operations_exist() {
    for index in 0..8u8 {
        assert_eq!(Transform::from_index(index).unwrap().get_index(), index);
    }
    assert!(Transform::from_index(8).is_none());
    assert!(Transform::from_index(255).is_none());
}

#[test]
fn filenames_name_the_operation() {
    assert_eq!(Transform::from_index(3).unwrap().filename(), "3.jpg");
}

#[test]
fn quarter_turns_and_transposes_swap_axes() {
    let swaps: Vec<bool> = (0..8u8).map(|i| Transform::from_index(i).unwrap().swaps_axes()).collect();
    assert_eq!(swaps, vec![false, true, false, true, false, false, true, true]);
}

#[test]
fn source_positions() {
    let t = |i: u8| Transform::from_index(i).unwrap();
    // A 4 by 3 source grid; destination (1, 0).
    assert_eq!(t(0).source_position(1, 0, 4, 3), (1, 0));
    // Rotating 90 degrees clockwise: the destination is 3 wide and 4 high,
    // and its top row comes from the source's left column, bottom up.
    assert_eq!(t(1).source_position(1, 0, 4, 3), (0, 1));
    assert_eq!(t(1).source_position(0, 0, 4, 3), (0, 2));
    assert_eq!(t(2).source_position(1, 0, 4, 3), (2, 2));
    assert_eq!(t(3).source_position(1, 0, 4, 3), (3, 1));
    assert_eq!(t(4).source_position(1, 0, 4, 3), (2, 0));
    assert_eq!(t(5).source_position(1, 0, 4, 3), (1, 2));
    assert_eq!(t(6).source_position(1, 0, 4, 3), (0, 1));
    assert_eq!(t(7).source_position(1, 0, 4, 3), (3, 1));
}

#[test]
fn transpose_of_a_block_moves_and_keeps_signs() {
    let mut source = vec![0i16; 70];
    // The block starts at 3; its coefficient at frequency (u, v) = (1, 2)
    // is at 3 + 2 * 8 + 1.
    source[3 + 2 * 8 + 1] = 9;
    source[3] = -4;
    let transposed = Transform::from_index(6).unwrap().apply_block(&source, 3);
    assert_eq!(transposed[1 * 8 + 2], 9);
    assert_eq!(transposed[0], -4);
    let flipped = Transform::from_index(4).unwrap().apply_block(&source, 3);
    // A horizontal flip negates odd horizontal frequencies.
    assert_eq!(flipped[2 * 8 + 1], -9);
    assert_eq!(flipped[0], -4);
    let half = Transform::from_index(2).unwrap().apply_block(&source, 3);
    // A half turn negates frequencies of odd total order: 1 + 2 is odd.
    assert_eq!(half[2 * 8 + 1], -9);
}

#[test]
fn quantization_table_transpose() {
    let mut table = [0u16; 64];
    for (i, v) in table.iter_mut().enumerate() {
        *v = i as u16;
    }
    let t = transpose_frequency_table(&table);
    assert_eq!(t[1], 8);
    assert_eq!(t[8], 1);
    assert_eq!(t[63], 63);
    assert_eq!(transpose_frequency_table(&t), table);
}

#[test]
fn zigzag_order() {
    assert_eq!(zigzag(0), 0);
    assert_eq!(zigzag(2), 8);
    assert_eq!(zigzag(63), 63);
}

#[test]
fn frame_parsing() {
    let frame = parse_frame(&[8, 0, 16, 0, 32, 2, 1, 0x22, 0, 2, 0x11, 1]).unwrap();
    assert_eq!(frame.height, 16);
    assert_eq!(frame.width, 32);
    assert_eq!(frame.max_horizontal_sampling, 2);
    assert_eq!(frame.max_vertical_sampling, 2);
    assert_eq!(frame.components.len(), 2);
    assert_eq!(frame.components[1].id, 2);
    assert!(matches!(parse_frame(&[12, 0, 8, 0, 8, 0]), Err(JpegError::NotEightBitFrame)));
    assert!(matches!(parse_frame(&[8, 0, 8, 0, 8, 1]), Err(JpegError::InvalidFrameComponents)));
    assert!(matches!(parse_frame(&[8, 0, 8, 0, 8, 1, 1, 0x10, 0]), Err(JpegError::ZeroSamplingFactor)));
    assert!(matches!(parse_frame(&[8, 0, 8, 0, 8, 0]), Err(JpegError::FrameWithoutComponents)));
}

#[test]
fn scan_parsing() {
    let frame = parse_frame(&[8, 0, 16, 0, 32, 2, 1, 0x22, 0, 2, 0x11, 1]).unwrap();
    let scan = parse_scan(&[2, 1, 0x00, 2, 0x11, 0, 63, 0], &frame).unwrap();
    assert_eq!(scan.blocks_per_mcu, 5);
    assert_eq!(scan.components[1].frame_index, 1);
    assert_eq!(scan.components[1].first_block, 4);
    assert_eq!(scan.components[1].dc_table, 1);
    assert_eq!(scan.components[1].ac_table, 1);
    assert!(matches!(parse_scan(&[], &frame), Err(JpegError::EmptyScanHeader)));
    assert!(matches!(parse_scan(&[1, 1, 0], &frame), Err(JpegError::InvalidScanComponents)));
    assert!(matches!(parse_scan(&[1, 1, 0, 0, 63, 1], &frame), Err(JpegError::NotBaselineScan)));
    assert!(matches!(parse_scan(&[1, 9, 0, 0, 63, 0], &frame), Err(JpegError::UnknownScanComponent)));
}

#[test]
fn huffman_segment_parsing() {
    let mut data = vec![0x11];
    let mut counts = [0u8; 16];
    counts[0] = 2;
    data.extend_from_slice(&counts);
    data.extend_from_slice(&[4, 5]);
    let mut tables: Vec<HuffmanTable> = Vec::new();
    parse_huffman_tables(&data, &mut tables).unwrap();
    // A second definition of class 1, id 1 replaces the first.
    parse_huffman_tables(&data, &mut tables).unwrap();
    assert_eq!(tables.len(), 1);
    assert_eq!(tables[0].class(), 1);
    assert_eq!(tables[0].id(), 1);
    let mut more: Vec<HuffmanTable> = Vec::new();
    assert!(matches!(parse_huffman_tables(&data[..10], &mut more), Err(JpegError::TruncatedHuffmanTable)));
    assert!(matches!(parse_huffman_tables(&data[..18], &mut more), Err(JpegError::TruncatedHuffmanSymbols)));
    let mut bad = data.clone();
    bad[0] = 0x24;
    assert!(matches!(parse_huffman_tables(&bad, &mut more), Err(JpegError::InvalidHuffmanSelector)));
}

#[test]
fn byte_readers() {
    let input = [0x12, 0x34, 0x56];
    let mut position = 0;
    assert_eq!(read_u8(&input, &mut position).unwrap(), 0x12);
    assert_eq!(read_u16(&input, &mut position).unwrap(), 0x3456);
    assert!(matches!(read_u8(&input, &mut position), Err(JpegError::UnexpectedEof)));
}

#[test]
fn markers_skip_fill_and_stuffed_bytes() {
    let input = [0x00, 0xff, 0x00, 0x12, 0xff, 0xff, 0xdb, 0x01];
    let mut position = 0;
    assert_eq!(read_marker(&input, &mut position).unwrap(), 0xdb);
    assert_eq!(position, 7);
    assert!(matches!(read_marker(&input, &mut position), Err(JpegError::UnexpectedEof)));
}

#[test]
fn segments_carry_their_length() {
    let mut output = vec![7];
    write_segment(&mut output, 0xdb, &[1, 2, 3]).unwrap();
    assert_eq!(output, vec![7, 0xff, 0xdb, 0, 5, 1, 2, 3]);
    let big = vec![0u8; 65534];
    assert!(matches!(write_segment(&mut output, 0xfe, &big), Err(JpegError::SegmentTooLarge)));
    assert_eq!(output.len(), 8);
}

#[test]
fn huffman_segment_defines_the_output_tables() {
    let tables = output_huffman_tables().unwrap();
    let mut output = Vec::new();
    write_huffman_segment(&mut output, &tables).unwrap();
    // Two definitions of 17 bytes, and 12 and 162 symbols.
    assert_eq!(output.len(), 4 + 2 * 17 + 12 + 162);
    assert_eq!(&output[..4], &[0xff, 0xc4, 0, 210]);
    assert_eq!(output[4], 0x00);
    assert_eq!(output[4 + 17 + 12], 0x10);
}

#[test]
fn frame_segment_swaps_axes_and_sampling() {
    let data = [8, 0, 16, 0, 32, 2, 1, 0x21, 0, 2, 0x11, 1];
    let rotated = rewrite_frame_segment(&data, Transform::from_index(1).unwrap()).unwrap();
    assert_eq!(rotated, vec![8, 0, 32, 0, 16, 2, 1, 0x12, 0, 2, 0x11, 1]);
    // Swapping the axes twice gives back the frame.
    assert_eq!(rewrite_frame_segment(&rotated, Transform::from_index(6).unwrap()).unwrap(), data.to_vec());
    let flipped = rewrite_frame_segment(&data, Transform::from_index(4).unwrap()).unwrap();
    assert_eq!(flipped, data.to_vec());
    assert!(matches!(
        rewrite_frame_segment(&[8, 0, 16], Transform::from_index(1).unwrap()),
        Err(JpegError::TruncatedFrame)
    ));
}

#[test]
fn quantization_segment_transposes_each_table() {
    // Two tables: an 8-bit one and a 16-bit one, values in zig-zag order.
    let mut data = vec![0x00];
    data.extend(1..=64u8);
    data.push(0x11);
    for i in 0..64u16 {
        data.extend_from_slice(&(1000 + i).to_be_bytes());
    }
    let rewritten = rewrite_quantization_segment(&data).unwrap();
    assert_eq!(rewritten.len(), data.len());
    // Zig-zag positions 1 and 2 are frequencies (1, 0) and (0, 1): they
    // trade places; position 0 stays.
    assert_eq!(&rewritten[..4], &[0x00, 1, 3, 2]);
    assert_eq!(rewritten[65], 0x11);
    assert_eq!(&rewritten[66..72], &[0x03, 0xe8, 0x03, 0xea, 0x03, 0xe9]);
    assert_eq!(rewrite_quantization_segment(&rewritten).unwrap(), data);
    assert!(matches!(rewrite_quantization_segment(&[0x20]), Err(JpegError::InvalidQuantizationPrecision)));
    assert!(matches!(rewrite_quantization_segment(&[0x00, 1, 2]), Err(JpegError::TruncatedQuantizationTable)));
}
