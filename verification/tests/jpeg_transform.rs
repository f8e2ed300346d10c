use lib::error::JpegError;
use lib::parser::parse_header;
use lib::scan::{decode_indexed_mcu, index_mcus, validate_supported_layout};
use lib::{operation_filename, transform};

/// The DHT data of the tables that the output uses: twelve four-bit DC
/// codes, and 162 eight-bit AC codes.
fn output_table_data() -> Vec<u8> {
    let mut data = vec![0x00];
    let mut dc_counts = [0u8; 16];
    dc_counts[3] = 12;
    data.extend_from_slice(&dc_counts);
    data.extend(0..=11u8);
    data.push(0x10);
    let mut ac_counts = [0u8; 16];
    ac_counts[7] = 162;
    data.extend_from_slice(&ac_counts);
    data.push(0x00);
    data.push(0xf0);
    for run in 0..16u8 {
        for size in 1..=10u8 {
            data.push((run << 4) | size);
        }
    }
    data
}

fn segment(marker: u8, data: &[u8]) -> Vec<u8> {
    let length = data.len() + 2;
    let mut bytes = vec![0xff, marker, (length >> 8) as u8, length as u8];
    bytes.extend_from_slice(data);
    bytes
}

/// An 8x8 grayscale baseline JPEG with one block whose scan bytes are
/// `scan`.
fn tiny_jpeg(scan: &[u8]) -> Vec<u8> {
    let mut bytes = vec![0xff, 0xd8];
    let mut dqt = vec![0x00];
    dqt.extend(1..=64u8);
    bytes.extend(segment(0xdb, &dqt));
    bytes.extend(segment(0xc0, &[8, 0, 8, 0, 8, 1, 1, 0x11, 0]));
    bytes.extend(segment(0xc4, &output_table_data()));
    bytes.extend(segment(0xda, &[1, 1, 0x00, 0, 63, 0]));
    bytes.extend_from_slice(scan);
    bytes.extend_from_slice(&[0xff, 0xd9]);
    bytes
}

/// The quantization table 1..=64 in zig-zag order, transposed and stored
/// back in zig-zag order.
fn transposed_dqt() -> Vec<u8> {
    const ZIGZAG: [usize; 64] = [
        0, 1, 8, 16, 9, 2, 3, 10, 17, 24, 32, 25, 18, 11, 4, 5, 12, 19, 26, 33, 40, 48, 41, 34, 27, 20, 13, 6,
        7, 14, 21, 28, 35, 42, 49, 56, 57, 50, 43, 36, 29, 22, 15, 23, 30, 37, 44, 51, 58, 59, 52, 45, 38, 31,
        39, 46, 53, 60, 61, 54, 47, 55, 62, 63,
    ];
    let mut natural = [0u8; 64];
    for (z, &n) in ZIGZAG.iter().enumerate() {
        natural[n] = z as u8 + 1;
    }
    let mut data = vec![0x00];
    for &n in ZIGZAG.iter() {
        let transposed = (n % 8) * 8 + n / 8;
        data.push(natural[transposed]);
    }
    data
}

/// The input with the scan bytes replaced, and the quantization table
/// transposed where the operation swaps the axes.
fn expected(scan: &[u8], swaps: bool) -> Vec<u8> {
    let mut bytes = vec![0xff, 0xd8];
    let dqt = if swaps {
        transposed_dqt()
    } else {
        let mut d = vec![0x00];
        d.extend(1..=64u8);
        d
    };
    bytes.extend(segment(0xdb, &dqt));
    bytes.extend(segment(0xc0, &[8, 0, 8, 0, 8, 1, 1, 0x11, 0]));
    bytes.extend(segment(0xc4, &output_table_data()));
    bytes.extend(segment(0xda, &[1, 1, 0x00, 0, 63, 0]));
    bytes.extend_from_slice(scan);
    bytes.extend_from_slice(&[0xff, 0xd9]);
    bytes
}

// The block's bits: DC category 0 (0000), then AC, then end-of-block
// (00000000), padded with ones.
const FLAT_SCAN: [u8; 2] = [0x00, 0x0f];
// One AC coefficient of 1 at zig-zag position 1, frequency (1, 0).
const ONE_AC_SCAN: [u8; 3] = [0x00, 0x28, 0x07];
// The same coefficient at zig-zag position 2, frequency (0, 1).
const TRANSPOSED_SCAN: [u8; 3] = [0x00, 0xc8, 0x07];
// A coefficient of -1 at frequency (1, 0).
const NEGATED_SCAN: [u8; 3] = [0x00, 0x20, 0x07];

#[test]
fn flat_image_is_unchanged_by_every_operation() {
    let input = tiny_jpeg(&FLAT_SCAN);
    for operation in 0..8u8 {
        let swaps = matches!(operation, 1 | 3 | 6 | 7);
        let (output, _) = transform(&input, operation).unwrap();
        assert_eq!(output, expected(&FLAT_SCAN, swaps), "operation {operation}");
    }
}

#[test]
fn identity_keeps_the_coefficients() {
    let input = tiny_jpeg(&ONE_AC_SCAN);
    let (output, _) = transform(&input, 0).unwrap();
    assert_eq!(output, input);
}

#[test]
fn transpose_moves_a_horizontal_frequency_to_a_vertical_one() {
    let input = tiny_jpeg(&ONE_AC_SCAN);
    let (output, _) = transform(&input, 6).unwrap();
    assert_eq!(output, expected(&TRANSPOSED_SCAN, true));
}

#[test]
fn horizontal_flip_negates_an_odd_horizontal_frequency() {
    let input = tiny_jpeg(&ONE_AC_SCAN);
    let (output, _) = transform(&input, 4).unwrap();
    assert_eq!(output, expected(&NEGATED_SCAN, false));
}

#[test]
fn vertical_flip_keeps_an_even_vertical_frequency() {
    let input = tiny_jpeg(&ONE_AC_SCAN);
    let (output, _) = transform(&input, 5).unwrap();
    assert_eq!(output, expected(&ONE_AC_SCAN, false));
}

#[test]
fn rotating_twice_by_quarter_turns_equals_a_half_turn() {
    let input = tiny_jpeg(&ONE_AC_SCAN);
    let (quarter, _) = transform(&input, 1).unwrap();
    let (twice, _) = transform(&quarter, 1).unwrap();
    let (half, _) = transform(&input, 2).unwrap();
    assert_eq!(twice, half);
    assert_eq!(half, expected(&NEGATED_SCAN, false));
}

#[test]
fn operation_and_its_inverse_restore_the_image() {
    let input = tiny_jpeg(&ONE_AC_SCAN);
    for (operation, inverse) in [(0u8, 0u8), (1, 3), (2, 2), (3, 1), (4, 4), (5, 5), (6, 6), (7, 7)] {
        let (there, _) = transform(&input, operation).unwrap();
        let (back, _) = transform(&there, inverse).unwrap();
        assert_eq!(back, input, "operation {operation}");
    }
}

#[test]
fn report_counts_the_index_and_working_memory() {
    let input = tiny_jpeg(&FLAT_SCAN);
    let (_, report) = transform(&input, 1).unwrap();
    // One MCU: one saved state of 8 bytes and one 2-byte predictor.
    assert_eq!(report.index_storage_bytes, 8 + 2);
    // Plus one MCU of one block, one block, two 8 KiB buffers, and two
    // predictors of 4 bytes.
    assert_eq!(report.tracked_working_bytes, 10 + 128 + 128 + 16384 + 8);
}

#[test]
fn invalid_operation_is_refused() {
    let input = tiny_jpeg(&FLAT_SCAN);
    assert!(matches!(transform(&input, 8), Err(JpegError::InvalidOperation)));
}

#[test]
fn non_jpeg_input_is_refused() {
    assert!(matches!(transform(&[0x89, 0x50], 0), Err(JpegError::NotJpeg)));
    assert!(matches!(transform(&[0xff, 0xd9], 0), Err(JpegError::NotJpeg)));
    assert!(matches!(transform(&[], 0), Err(JpegError::UnexpectedEof)));
}

#[test]
fn image_off_mcu_boundaries_is_refused() {
    let mut input = tiny_jpeg(&FLAT_SCAN);
    // Width 7 instead of 8: the SOF0 data starts after SOI and the DQT
    // segment (4 + 65 bytes), and its width is at data bytes 3 and 4.
    let sof = 2 + 4 + 65;
    assert_eq!(input[sof + 1], 0xc0);
    input[sof + 4 + 4] = 7;
    assert!(matches!(transform(&input, 0), Err(JpegError::NotOnMcuBoundaries)));
}

#[test]
fn scan_without_eoi_is_refused() {
    let mut input = tiny_jpeg(&FLAT_SCAN);
    let last = input.len() - 1;
    input[last] = 0xd8;
    assert!(matches!(transform(&input, 0), Err(JpegError::ExpectedEoiAfterScan(0xd8))));
}

#[test]
fn truncated_scan_is_refused() {
    let mut input = tiny_jpeg(&FLAT_SCAN);
    input.truncate(input.len() - 4);
    assert!(transform(&input, 0).is_err());
}

#[test]
fn restart_interval_is_refused() {
    let input = tiny_jpeg(&FLAT_SCAN);
    let mut with_dri = input[..2].to_vec();
    with_dri.extend(segment(0xdd, &[0, 4]));
    with_dri.extend_from_slice(&input[2..]);
    assert!(matches!(transform(&with_dri, 0), Err(JpegError::RestartMarkersUnsupported)));
}

#[test]
fn progressive_frame_is_refused() {
    let mut input = tiny_jpeg(&FLAT_SCAN);
    let sof = 2 + 4 + 65;
    input[sof + 1] = 0xc2;
    assert!(matches!(transform(&input, 0), Err(JpegError::UnsupportedProcess)));
}

#[test]
fn missing_table_is_refused() {
    let mut input = tiny_jpeg(&FLAT_SCAN);
    let sos = input.len() - 2 - FLAT_SCAN.len() - 10;
    assert_eq!(input[sos + 1], 0xda);
    // The scan's component selects DC table 1, which is not defined.
    input[sos + 6] = 0x10;
    assert!(matches!(transform(&input, 0), Err(JpegError::MissingHuffmanTable(0, 1))));
}

#[test]
fn index_decodes_each_mcu_on_its_own() {
    let input = tiny_jpeg(&ONE_AC_SCAN);
    let (header, start) = parse_header(&input).unwrap();
    validate_supported_layout(&header).unwrap();
    assert_eq!(header.mcu_columns(), 1);
    assert_eq!(header.mcu_rows(), 1);
    let index = index_mcus(&header, &input, start).unwrap();
    assert_eq!(index.storage_bytes(), 10);
    // A buffer longer than one MCU: only its front is overwritten.
    let mut blocks = vec![-5i16; 64 + 3];
    let mut predictors = vec![7];
    decode_indexed_mcu(&header, &input, &index, 0, &mut blocks, &mut predictors).unwrap();
    let mut expected_block = vec![0i16; 64];
    expected_block[1] = 1;
    expected_block.extend_from_slice(&[-5, -5, -5]);
    assert_eq!(blocks, expected_block);
    assert_eq!(predictors, vec![0]);
}

#[test]
fn operation_filenames() {
    assert_eq!(operation_filename(0).as_deref(), Some("0.jpg"));
    assert_eq!(operation_filename(7).as_deref(), Some("7.jpg"));
    assert_eq!(operation_filename(8), None);
}

/// A 16x8 image with a luma component of two blocks per MCU and two
/// chroma components of one block each, flat, with the scan header's
/// table selectors all zero.
fn wide_three_component_jpeg() -> Vec<u8> {
    let mut bytes = vec![0xff, 0xd8];
    bytes.extend(segment(0xc0, &[8, 0, 8, 0, 16, 3, 1, 0x21, 0, 2, 0x11, 0, 3, 0x11, 0]));
    bytes.extend(segment(0xc4, &output_table_data()));
    bytes.extend(segment(0xda, &[3, 1, 0x00, 2, 0x00, 3, 0x00, 0, 63, 0]));
    // Four flat blocks: twelve zero bits each.
    bytes.extend_from_slice(&[0; 6]);
    bytes.extend_from_slice(&[0xff, 0xd9]);
    bytes
}

#[test]
fn output_header_reads_back_as_the_transposed_image() {
    let input = wide_three_component_jpeg();
    let (output, _) = transform(&input, 1).unwrap();
    let (header, start) = parse_header(&output).unwrap();
    assert_eq!(header.frame.width, 8);
    assert_eq!(header.frame.height, 16);
    assert_eq!(header.frame.max_horizontal_sampling, 1);
    assert_eq!(header.frame.max_vertical_sampling, 2);
    let samplings: Vec<(u8, usize, usize)> = header
        .frame
        .components
        .iter()
        .map(|c| (c.id, c.horizontal_sampling, c.vertical_sampling))
        .collect();
    assert_eq!(samplings, vec![(1, 1, 2), (2, 1, 1), (3, 1, 1)]);
    let scan: Vec<(usize, u8, u8, usize)> = header
        .scan
        .components
        .iter()
        .map(|c| (c.frame_index, c.dc_table, c.ac_table, c.first_block))
        .collect();
    assert_eq!(scan, vec![(0, 0, 0, 0), (1, 0, 0, 2), (2, 0, 0, 3)]);
    assert_eq!(header.scan.blocks_per_mcu, 4);
    let tables: Vec<(u8, u8)> = header.huffman_tables.iter().map(|t| (t.class(), t.id())).collect();
    assert_eq!(tables, vec![(0, 0), (1, 0)]);
    // The scan follows the header and decodes into four flat blocks.
    assert_eq!(&output[start..], &[0, 0, 0, 0, 0, 0, 0xff, 0xd9]);
    validate_supported_layout(&header).unwrap();
    let index = index_mcus(&header, &output, start).unwrap();
    let mut blocks = vec![9i16; 4 * 64];
    let mut predictors = vec![0i32; 3];
    decode_indexed_mcu(&header, &output, &index, 0, &mut blocks, &mut predictors).unwrap();
    assert_eq!(blocks, vec![0i16; 4 * 64]);
}

#[test]
fn inverse_of_an_output_gives_the_identity_output() {
    let input = wide_three_component_jpeg();
    let (identity, _) = transform(&input, 0).unwrap();
    for (operation, inverse) in [(0u8, 0u8), (1, 3), (2, 2), (3, 1), (4, 4), (5, 5), (6, 6), (7, 7)] {
        let (there, _) = transform(&input, operation).unwrap();
        let (back, _) = transform(&there, inverse).unwrap();
        assert_eq!(back, identity, "operation {operation}");
    }
    // A half turn twice is the identity too.
    let (half, _) = transform(&input, 2).unwrap();
    assert_eq!(transform(&half, 2).unwrap().0, identity);
}
