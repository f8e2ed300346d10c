use lib::error::JpegError;
use lib::parser::parse_header;
use lib::scan::validate_supported_layout;

fn segment(marker: u8, data: &[u8]) -> Vec<u8> {
    let length = data.len() + 2;
    let mut bytes = vec![0xff, marker, (length >> 8) as u8, length as u8];
    bytes.extend_from_slice(data);
    bytes
}

fn one_table(class_id: u8) -> Vec<u8> {
    let mut data = vec![class_id];
    let mut counts = [0u8; 16];
    counts[0] = 1;
    data.extend_from_slice(&counts);
    data.push(0);
    data
}

#[test]
fn eoi_before_the_scan_is_refused() {
    assert!(matches!(parse_header(&[0xff, 0xd8, 0xff, 0xd9]), Err(JpegError::EndedBeforeScan)));
}

#[test]
fn restart_marker_in_the_header_is_refused() {
    assert!(matches!(
        parse_header(&[0xff, 0xd8, 0xff, 0xd3]),
        Err(JpegError::UnexpectedStandaloneMarker(0xd3))
    ));
}

#[test]
fn segment_length_below_two_is_refused() {
    assert!(matches!(
        parse_header(&[0xff, 0xd8, 0xff, 0xe0, 0x00, 0x01]),
        Err(JpegError::InvalidSegmentLength)
    ));
}

#[test]
fn segment_past_the_end_is_refused() {
    assert!(matches!(
        parse_header(&[0xff, 0xd8, 0xff, 0xe0, 0x00, 0x08, 1, 2]),
        Err(JpegError::UnexpectedEof)
    ));
}

#[test]
fn dri_of_wrong_length_is_refused() {
    let mut input = vec![0xff, 0xd8];
    input.extend(segment(0xdd, &[0, 1, 2]));
    assert!(matches!(parse_header(&input), Err(JpegError::InvalidRestartInterval)));
}

#[test]
fn scan_without_frame_is_refused() {
    let mut input = vec![0xff, 0xd8];
    input.extend(segment(0xda, &[1, 1, 0x00, 0, 63, 0]));
    assert!(matches!(parse_header(&input), Err(JpegError::MissingFrame)));
}

#[test]
fn header_keeps_every_segment_but_dht() {
    let mut input = vec![0xff, 0xd8];
    input.extend(segment(0xe0, b"JFIF\0"));
    input.extend(segment(0xc0, &[8, 0, 8, 0, 16, 1, 1, 0x11, 0]));
    input.extend(segment(0xc4, &one_table(0x00)));
    input.extend(segment(0xc4, &one_table(0x10)));
    input.extend(segment(0xda, &[1, 1, 0x00, 0, 63, 0]));
    let start = input.len();
    input.extend_from_slice(&[0x00, 0xff, 0xd9]);
    let (header, position) = parse_header(&input).unwrap();
    assert_eq!(position, start);
    let markers: Vec<u8> = header.segments.iter().map(|s| s.marker).collect();
    assert_eq!(markers, vec![0xe0, 0xc0, 0xda]);
    assert_eq!(header.segments[0].data, b"JFIF\0".to_vec());
    assert_eq!(header.huffman_tables.len(), 2);
    assert_eq!(header.frame.width, 16);
    assert_eq!(header.frame.height, 8);
    assert_eq!(header.mcu_columns(), 2);
    assert_eq!(header.mcu_rows(), 1);
    assert!(validate_supported_layout(&header).is_ok());
    assert!(header.huffman_table(1, 0).is_ok());
    assert!(matches!(header.huffman_table(1, 2), Err(JpegError::MissingHuffmanTable(1, 2))));
}

#[test]
fn scan_of_some_components_is_not_interleaved() {
    let mut input = vec![0xff, 0xd8];
    input.extend(segment(0xc0, &[8, 0, 8, 0, 8, 2, 1, 0x11, 0, 2, 0x11, 0]));
    input.extend(segment(0xc4, &one_table(0x00)));
    input.extend(segment(0xc4, &one_table(0x10)));
    input.extend(segment(0xda, &[1, 1, 0x00, 0, 63, 0]));
    let (header, _) = parse_header(&input).unwrap();
    assert!(matches!(validate_supported_layout(&header), Err(JpegError::NotInterleaved)));
}

#[test]
fn mcu_grid_rounds_up() {
    let mut input = vec![0xff, 0xd8];
    // 17 by 9 pixels, with a component sampled 2 by 2: MCUs of 16 by 16.
    input.extend(segment(0xc0, &[8, 0, 9, 0, 17, 1, 1, 0x22, 0]));
    input.extend(segment(0xda, &[1, 1, 0x00, 0, 63, 0]));
    let (header, _) = parse_header(&input).unwrap();
    assert_eq!(header.mcu_columns(), 2);
    assert_eq!(header.mcu_rows(), 1);
    assert_eq!(header.scan.blocks_per_mcu, 4);
}
