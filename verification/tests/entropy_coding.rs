use lib::entropy::{BitReader, BitWriter, HuffmanTable};
use lib::error::JpegError;
use lib::parser::{decode_block, receive_extend};
use lib::writer::{encode_block, magnitude_size, output_huffman_tables, write_magnitude};

fn dc_table() -> HuffmanTable {
    let mut counts = [0u8; 16];
    counts[1] = 1;
    counts[2] = 5;
    counts[3] = 1;
    counts[4] = 1;
    counts[5] = 1;
    counts[6] = 1;
    counts[7] = 1;
    counts[8] = 1;
    HuffmanTable::new(0, 0, counts, (0..=11).collect()).unwrap()
}

#[test]
fn huffman_counts_must_match_symbols() {
    let mut counts = [0u8; 16];
    counts[0] = 2;
    assert!(matches!(
        HuffmanTable::new(0, 0, counts, vec![1]),
        Err(JpegError::HuffmanCountMismatch)
    ));
}

#[test]
fn huffman_codes_must_fit() {
    let mut counts = [0u8; 16];
    counts[0] = 3;
    assert!(matches!(
        HuffmanTable::new(0, 0, counts, vec![1, 2, 3]),
        Err(JpegError::OversubscribedHuffmanTable)
    ));
}

#[test]
fn huffman_codes_are_canonical() {
    // The standard luminance DC table: category 0 has the 2-bit code 00,
    // categories 1 to 5 the 3-bit codes 010 to 110.
    let table = dc_table();
    let mut writer = BitWriter::new(Vec::new());
    table.encode(0, &mut writer).unwrap();
    table.encode(1, &mut writer).unwrap();
    table.encode(5, &mut writer).unwrap();
    writer.finish();
    // 00 010 110 -> 0001_0110
    assert_eq!(writer.into_output(), vec![0x16]);
}

#[test]
fn huffman_round_trip() {
    let table = dc_table();
    let mut writer = BitWriter::new(Vec::new());
    for symbol in 0..=11u8 {
        table.encode(symbol, &mut writer).unwrap();
    }
    writer.finish();
    let bytes = writer.into_output();
    let mut reader = BitReader::new(&bytes, 0);
    for symbol in 0..=11u8 {
        assert_eq!(table.decode(&mut reader).unwrap(), symbol);
    }
}

#[test]
fn huffman_symbol_without_code_is_refused() {
    let table = dc_table();
    let mut writer = BitWriter::new(Vec::new());
    assert!(matches!(table.encode(12, &mut writer), Err(JpegError::NoHuffmanCode(12))));
}

#[test]
fn huffman_decode_of_unused_code_is_refused() {
    let table = dc_table();
    let bytes = vec![0xff, 0x00, 0xff, 0x00, 0xff, 0x00];
    let mut reader = BitReader::new(&bytes, 0);
    assert!(matches!(table.decode(&mut reader), Err(JpegError::InvalidHuffmanCode)));
    // Sixteen bits were read: one entropy byte is left.
    assert_eq!(reader.read_bits(8).unwrap(), 0xff);
    assert!(matches!(reader.read_bit(), Err(JpegError::UnexpectedEof)));
}

#[test]
fn append_definition_writes_class_id_counts_symbols() {
    let table = dc_table();
    let mut data = vec![9];
    table.append_definition(&mut data);
    let mut expected = vec![9, 0x00, 0, 1, 5, 1, 1, 1, 1, 1, 1, 0, 0, 0, 0, 0, 0, 0];
    expected.extend(0..=11u8);
    assert_eq!(data, expected);
}

#[test]
fn writer_stuffs_ff_and_pads_with_ones() {
    let mut writer = BitWriter::new(vec![1]);
    writer.write_bits(0xff, 8);
    writer.write_bits(0b10, 2);
    writer.finish();
    assert_eq!(writer.into_output(), vec![1, 0xff, 0x00, 0xbf]);
}

#[test]
fn reader_removes_stuffed_zeros() {
    let bytes = vec![0xaa, 0xff, 0x00, 0x0f, 0xff, 0xd9];
    let mut reader = BitReader::new(&bytes, 1);
    assert_eq!(reader.read_bits(8).unwrap(), 0xff);
    assert_eq!(reader.read_bits(4).unwrap(), 0);
    assert_eq!(reader.read_bit().unwrap(), 1);
    assert_eq!(reader.read_bits(3).unwrap(), 7);
    assert!(matches!(reader.read_bit(), Err(JpegError::MarkerInEntropyData(0xd9))));
}

#[test]
fn reader_reports_end_of_input() {
    let bytes = vec![0x80];
    let mut reader = BitReader::new(&bytes, 0);
    assert_eq!(reader.read_bits(8).unwrap(), 0x80);
    assert!(matches!(reader.read_bit(), Err(JpegError::UnexpectedEof)));
}

#[test]
fn saved_state_restores_the_reader() {
    let bytes = vec![0b1011_0110, 0b0100_0000];
    let mut reader = BitReader::new(&bytes, 0);
    reader.read_bits(3).unwrap();
    let state = reader.state().unwrap();
    let rest = reader.read_bits(7).unwrap();
    let mut restored = BitReader::from_state(&bytes, state);
    assert_eq!(restored.read_bits(7).unwrap(), rest);
    assert_eq!(rest, 0b1011001);
}

#[test]
fn finish_scan_accepts_fill_bytes_before_eoi() {
    let bytes = vec![0x12, 0xff, 0xff, 0xff, 0xd9];
    let mut reader = BitReader::new(&bytes, 0);
    reader.read_bits(8).unwrap();
    assert!(reader.finish_scan().is_ok());
    let mut early = BitReader::new(&bytes, 0);
    assert!(matches!(early.finish_scan(), Err(JpegError::ScanNotFollowedByMarker)));
}

#[test]
fn finish_scan_drops_pending_bits_and_consumes_eoi() {
    let bytes = vec![0x80, 0xff, 0xff, 0xd9];
    let mut reader = BitReader::new(&bytes, 0);
    assert_eq!(reader.read_bit().unwrap(), 1);
    assert!(reader.finish_scan().is_ok());
    // Nothing is left: the seven pending bits are gone and EOI was read.
    assert!(matches!(reader.read_bit(), Err(JpegError::UnexpectedEof)));
    let other = vec![0xff, 0xff, 0xd0, 0x12];
    let mut wrong = BitReader::new(&other, 0);
    assert!(matches!(wrong.finish_scan(), Err(JpegError::ExpectedEoiAfterScan(0xd0))));
    // The reader stands after the marker it looked at.
    assert_eq!(wrong.read_bits(8).unwrap(), 0x12);
}

#[test]
fn magnitude_categories() {
    assert_eq!(magnitude_size(0), 0);
    assert_eq!(magnitude_size(1), 1);
    assert_eq!(magnitude_size(-1), 1);
    assert_eq!(magnitude_size(2), 2);
    assert_eq!(magnitude_size(-3), 2);
    assert_eq!(magnitude_size(1023), 10);
    assert_eq!(magnitude_size(-1024), 11);
    assert_eq!(magnitude_size(-32768), 16);
}

#[test]
fn magnitude_round_trip() {
    for value in [-1023i32, -512, -5, -1, 1, 2, 7, 300, 2047] {
        let size = magnitude_size(value);
        let mut writer = BitWriter::new(Vec::new());
        write_magnitude(&mut writer, value, size);
        writer.finish();
        let bytes = writer.into_output();
        let mut reader = BitReader::new(&bytes, 0);
        assert_eq!(receive_extend(&mut reader, size).unwrap(), value);
    }
}

#[test]
fn negative_magnitude_is_ones_complement() {
    let mut writer = BitWriter::new(Vec::new());
    write_magnitude(&mut writer, -5, 3);
    writer.finish();
    // -5 in three bits is 010, then five padding ones.
    assert_eq!(writer.into_output(), vec![0b0101_1111]);
}

#[test]
fn block_round_trip() {
    let [dc, ac] = output_huffman_tables().unwrap();
    let mut block = [0i16; 64];
    block[0] = -300;
    block[1] = 5;
    block[8] = -1;
    block[63] = 1000;
    block[40] = 17;
    let mut writer = BitWriter::new(Vec::new());
    let mut predictor = 12;
    encode_block(&mut writer, &dc, &ac, &mut predictor, &block).unwrap();
    assert_eq!(predictor, -300);
    writer.finish();
    let bytes = writer.into_output();
    let mut reader = BitReader::new(&bytes, 0);
    let mut decoded_predictor = 12;
    let decoded = decode_block(&mut reader, &dc, &ac, &mut decoded_predictor).unwrap();
    assert_eq!(decoded, block);
    assert_eq!(decoded_predictor, -300);
}

#[test]
fn long_zero_runs_use_sixteen_zero_codes() {
    let [dc, ac] = output_huffman_tables().unwrap();
    let mut block = [0i16; 64];
    // Zig-zag position 40 holds row-major 29; the 39 zeros before it take
    // two sixteen-zero codes.
    block[29] = 3;
    let mut writer = BitWriter::new(Vec::new());
    let mut predictor = 0;
    encode_block(&mut writer, &dc, &ac, &mut predictor, &block).unwrap();
    writer.finish();
    let bytes = writer.into_output();
    let mut reader = BitReader::new(&bytes, 0);
    let mut decoded_predictor = 0;
    assert_eq!(decode_block(&mut reader, &dc, &ac, &mut decoded_predictor).unwrap(), block);
}

#[test]
fn dc_difference_beyond_baseline_is_refused() {
    let [dc, ac] = output_huffman_tables().unwrap();
    let mut block = [0i16; 64];
    block[0] = 2048;
    let mut writer = BitWriter::new(Vec::new());
    let mut predictor = -2048;
    assert!(matches!(
        encode_block(&mut writer, &dc, &ac, &mut predictor, &block),
        Err(JpegError::DcDifferenceTooLarge)
    ));
}

#[test]
fn ac_coefficient_beyond_baseline_is_refused() {
    let [dc, ac] = output_huffman_tables().unwrap();
    let mut block = [0i16; 64];
    block[1] = 1024;
    let mut writer = BitWriter::new(Vec::new());
    let mut predictor = 0;
    assert!(matches!(
        encode_block(&mut writer, &dc, &ac, &mut predictor, &block),
        Err(JpegError::AcCoefficientTooLarge)
    ));
}

#[test]
fn decode_refuses_bad_symbols() {
    // A DC table whose only symbol is category 12.
    let mut counts = [0u8; 16];
    counts[0] = 1;
    let dc = HuffmanTable::new(0, 0, counts, vec![12]).unwrap();
    let ac = HuffmanTable::new(1, 0, counts, vec![0x00]).unwrap();
    let bytes = vec![0x00, 0x00];
    let mut reader = BitReader::new(&bytes, 0);
    let mut predictor = 0;
    assert!(matches!(
        decode_block(&mut reader, &dc, &ac, &mut predictor),
        Err(JpegError::InvalidDcMagnitude)
    ));
    // An AC symbol of a zero run other than sixteen.
    let dc0 = HuffmanTable::new(0, 0, counts, vec![0]).unwrap();
    let ac_run = HuffmanTable::new(1, 0, counts, vec![0x20]).unwrap();
    let mut reader = BitReader::new(&bytes, 0);
    assert!(matches!(
        decode_block(&mut reader, &dc0, &ac_run, &mut predictor),
        Err(JpegError::InvalidZeroRun)
    ));
    // Four sixteen-zero runs pass the end of the block.
    let ac_zrl = HuffmanTable::new(1, 0, counts, vec![0xf0]).unwrap();
    let mut reader = BitReader::new(&bytes, 0);
    assert!(matches!(
        decode_block(&mut reader, &dc0, &ac_zrl, &mut predictor),
        Err(JpegError::ZeroRunExceedsBlock)
    ));
    // A coefficient of eleven magnitude bits.
    let ac_big = HuffmanTable::new(1, 0, counts, vec![0x0b]).unwrap();
    let mut reader = BitReader::new(&bytes, 0);
    assert!(matches!(
        decode_block(&mut reader, &dc0, &ac_big, &mut predictor),
        Err(JpegError::InvalidAcCoefficient)
    ));
}

#[test]
fn decoded_dc_outside_sixteen_bits_is_refused() {
    let mut counts = [0u8; 16];
    counts[0] = 1;
    let dc = HuffmanTable::new(0, 0, counts, vec![1]).unwrap();
    let ac = HuffmanTable::new(1, 0, counts, vec![0x00]).unwrap();
    // Category 1 then the bit 1: a difference of +1 from 32767.
    let bytes = vec![0x40, 0x00];
    let mut reader = BitReader::new(&bytes, 0);
    let mut predictor = 32767;
    assert!(matches!(
        decode_block(&mut reader, &dc, &ac, &mut predictor),
        Err(JpegError::DcOutOfRange)
    ));
}

#[test]
fn written_values_read_back_in_order() {
    let values: [(u32, u8); 7] =
        [(0x1, 1), (0x3ff, 10), (0xff, 8), (0, 5), (0x1234, 13), (0xffff_fff3, 4), (0x7fff_ffff, 31)];
    let mut writer = BitWriter::new(Vec::new());
    for &(value, count) in &values {
        writer.write_bits(value, count);
    }
    writer.finish();
    let bytes = writer.into_output();
    // Every 0xff the writer put out is followed by a stuffed zero.
    for (i, &b) in bytes.iter().enumerate() {
        if b == 0xff {
            assert_eq!(bytes[i + 1], 0);
        }
    }
    let mut reader = BitReader::new(&bytes, 0);
    // Each read gives the low bits of the value written.
    for &(value, count) in &values {
        assert_eq!(reader.read_bits(count).unwrap(), value & ((1u32 << count) - 1));
    }
}

#[test]
fn appended_definition_reads_back_as_the_same_table() {
    let table = dc_table();
    let mut data = Vec::new();
    table.append_definition(&mut data);
    // A table already there with the same class and id is replaced.
    let [_, ac] = output_huffman_tables().unwrap();
    let mut tables = vec![dc_table(), ac];
    lib::parser::parse_huffman_tables(&data, &mut tables).unwrap();
    let keys: Vec<(u8, u8)> = tables.iter().map(|t| (t.class(), t.id())).collect();
    assert_eq!(keys, vec![(1, 0), (0, 0)]);
    let mut again = Vec::new();
    tables[1].append_definition(&mut again);
    assert_eq!(again, data);
    for symbol in 0..=11u8 {
        let mut first = BitWriter::new(Vec::new());
        let mut second = BitWriter::new(Vec::new());
        table.encode(symbol, &mut first).unwrap();
        tables[1].encode(symbol, &mut second).unwrap();
        first.finish();
        second.finish();
        assert_eq!(first.into_output(), second.into_output());
    }
}

#[test]
fn several_appended_definitions_read_back_in_turn() {
    let [dc, ac] = output_huffman_tables().unwrap();
    let mut data = Vec::new();
    dc_table().append_definition(&mut data);
    ac.append_definition(&mut data);
    // The later DC definition of class 0, id 0 replaces the earlier one.
    dc.append_definition(&mut data);
    let mut tables = vec![dc_table()];
    lib::parser::parse_huffman_tables(&data, &mut tables).unwrap();
    let keys: Vec<(u8, u8)> = tables.iter().map(|t| (t.class(), t.id())).collect();
    assert_eq!(keys, vec![(1, 0), (0, 0)]);
    let mut last = Vec::new();
    tables[1].append_definition(&mut last);
    let mut expected = Vec::new();
    dc.append_definition(&mut expected);
    assert_eq!(last, expected);
    // A selector of class 2 is refused.
    let mut bad = data.clone();
    bad[0] = 0x20;
    assert!(matches!(
        lib::parser::parse_huffman_tables(&bad, &mut tables),
        Err(JpegError::InvalidHuffmanSelector)
    ));
}
