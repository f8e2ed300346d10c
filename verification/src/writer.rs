//! Writing the transformed JPEG: its header segments, rewritten where the
//! axes swap, and its blocks, re-encoded with fixed Huffman tables.
use vstd::prelude::*;
use crate::bits::{
    bits_of, bytes_to_bits, entropy_bytes, entropy_end, lemma_entropy_round_trip, lemma_pack_append, lemma_stuff_append,
    leftover, ones, pack, stuff,
};
use crate::block::{
    abs, ac_bits, ac_fits, bit_length, decode_block_bits, lemma_bit_length, block_bits, code_bits, magnitude_bits, magnitude_category, magnitude_value,
    repeated_code, zigzag, zigzag_at, zigzag_position,
};
use crate::entropy::{codes_before, first_code, table_def, table_defs, table_valid, BitWriter, HuffmanTable, TableDef};
use crate::parser::{
    EOI, SOI, be16, empty_progress, frame_components, frame_of, has_zero_sampling, max_horizontal, max_vertical,
    Component, FrameModel, header_of, header_segments, lemma_marker_search_advances, marker_search,
    scan_of, segment_effect, Header, HeaderModel, HeaderProgress, SegmentModel, DHT, DQT, SOF0, SOS,
};
use crate::transform::{
    block_negates, block_negation_fits, block_source_index, block_values, destination_extent, geometry_of,
    source_position_of, transformed_block, transpose_frequency_table, transposed_table, Transform,
};
use crate::scan::{
    decode_indexed_mcu, indexed_mcu, lemma_indexed_mcu_facts, mcu_columns_of, mcu_count_of, mcu_rows_of, IndexModel,
    McuDecode, McuIndex, header_wf, lemma_flatten_pieces, lemma_header_bounds, predictor_values, predictors_fit, scan_blocks_before,
};
use crate::error::JpegError;
use vstd::arithmetic::power2::{pow2, lemma_pow2_unfold, lemma_pow2_pos};
use vstd::bits::{lemma_u32_pow2_no_overflow, lemma_u32_shl_is_mul};

verus! {

/// The magnitude category of `value`: the number of bits of its absolute
/// value.
pub fn magnitude_size(value: i32) -> (r: u8)
    ensures
        r as nat == magnitude_category(value as int),
        r <= 32,
{
    let mut rest: u32 = if value < 0 {
        (0i64 - value as i64) as u32
    } else {
        value as u32
    };
    proof {
        vstd::arithmetic::power2::lemma2_to64();
        lemma_bit_length(abs(value as int), 32);
    }
    let mut size: u8 = 0;
    while rest > 0
        invariant
            size as nat + bit_length(rest as nat) == magnitude_category(value as int),
            magnitude_category(value as int) <= 32,
        decreases rest,
    {
        rest = rest / 2;
        size = size + 1;
    }
    size
}

/// Writes the `size` bits that follow the category of `value`: `value`, or
/// for a negative `value` its ones' complement, in `size` bits.
pub fn write_magnitude(bits: &mut BitWriter, value: i32, size: u8)
    requires
        old(bits).wf(),
        size <= 30,
    ensures
        final(bits).wf(),
        old(bits).wrote(*final(bits), magnitude_bits(value as int, size as nat)),
{
    if size == 0 {
        proof {
            bits.lemma_wrote_nothing();
            assert(magnitude_bits(value as int, 0) =~= Seq::<bool>::empty());
        }
        return;
    }
    proof {
        lemma_u32_pow2_no_overflow(size as nat);
        lemma_u32_shl_is_mul(1, size as u32);
        vstd::arithmetic::power2::lemma2_to64();
        crate::entropy::lemma_pow2_mono(size as int, 30);
    }
    let full = (1u32 << (size as u32)) as i32;
    let encoded: u32 = if value < 0 {
        (value + full - 1) as u32
    } else {
        value as u32
    };
    assert(encoded == magnitude_value(value as int, size as nat) as u32);
    bits.write_bits(encoded, size);
}

/// `count` codes of `symbol` fail as soon as the code does.
proof fn lemma_repeated_code_error(table: crate::entropy::TableDef, symbol: u8, count: nat)
    requires
        count >= 1,
        code_bits(table, symbol) is Err,
    ensures
        repeated_code(table, symbol, count) == code_bits(table, symbol),
    decreases count,
{
    if count > 1 {
        lemma_repeated_code_error(table, symbol, (count - 1) as nat);
    } else {
        assert(repeated_code(table, symbol, 0) == Ok::<Seq<bool>, JpegError>(seq![]));
    }
}

/// Appends `prefix` to the bits of a result.
pub open spec fn after(prefix: Seq<bool>, r: Result<Seq<bool>, JpegError>) -> Result<Seq<bool>, JpegError> {
    match r {
        Ok(rest) => Ok(prefix + rest),
        Err(e) => Err(e),
    }
}

/// Encodes one block: the DC difference from `dc_predictor`, which becomes
/// the block's DC, then the AC coefficients in zig-zag order, runs of zeros
/// coded with their next nonzero coefficient, sixteen-zero codes for long
/// runs, and end-of-block after the last nonzero coefficient.
pub fn encode_block(
    bits: &mut BitWriter,
    dc_table: &HuffmanTable,
    ac_table: &HuffmanTable,
    dc_predictor: &mut i32,
    block: &[i16; 64],
) -> (r: Result<(), JpegError>)
    requires
        old(bits).wf(),
        i32::MIN + 32768 <= *old(dc_predictor) <= i32::MAX - 32767,
    ensures
        final(bits).wf(),
        *final(dc_predictor) == block[0] as i32,
        ({
            let size = magnitude_category(block[0] as int - *old(dc_predictor) as int);
            size > 11 || code_bits(table_def(*dc_table), size as u8) is Err
        }) ==> *final(bits) == *old(bits),
        match block_bits(table_def(*dc_table), table_def(*ac_table), block@, *old(dc_predictor) as int) {
            Ok(b) => r is Ok && old(bits).wrote(*final(bits), b),
            Err(e) => r == Err::<(), JpegError>(e),
        },
{
    let ghost w0 = *bits;
    let ghost dc = table_def(*dc_table);
    let ghost ac = table_def(*ac_table);
    let dc_value = block[0] as i32;
    let difference = dc_value - *dc_predictor;
    *dc_predictor = dc_value;
    let dc_size = magnitude_size(difference);
    if dc_size > 11 {
        return Err(JpegError::DcDifferenceTooLarge);
    }
    match dc_table.encode(dc_size, bits) {
        Ok(()) => {},
        Err(e) => {
            return Err(e);
        },
    }
    let ghost w1 = *bits;
    let ghost code = code_bits(dc, dc_size).unwrap();
    proof {
        vstd::arithmetic::power2::lemma2_to64();
        lemma_bit_length(abs(difference as int), dc_size as nat);
    }
    write_magnitude(bits, difference, dc_size);
    let ghost head = code + magnitude_bits(difference as int, dc_size as nat);
    proof {
        w0.lemma_wrote_trans(w1, *bits, code, magnitude_bits(difference as int, dc_size as nat));
        assert(head + Seq::<bool>::empty() =~= head);
        assert(ac_bits(ac, block@, 1, 0) == after(Seq::<bool>::empty(), ac_bits(ac, block@, 1, 0))) by {
            match ac_bits(ac, block@, 1, 0) {
                Ok(rest) => {
                    assert(Seq::<bool>::empty() + rest =~= rest);
                },
                Err(e) => {},
            }
        }
    }
    let ghost whole = block_bits(dc, ac, block@, *old(dc_predictor) as int);
    proof {
        match ac_bits(ac, block@, 1, 0) {
            Ok(rest) => {
                assert(whole == Ok::<Seq<bool>, JpegError>(head + rest));
            },
            Err(e) => {
                assert(whole == Err::<Seq<bool>, JpegError>(e));
            },
        }
    }
    let ghost mut written: Seq<bool> = Seq::empty();
    let mut zero_run: usize = 0;
    let mut k: usize = 1;
    while k < 64
        invariant
            1 <= k <= 64,
            zero_run < k,
            bits.wf(),
            w0.wrote(*bits, head + written),
            after(written, ac_bits(ac, block@, k as int, zero_run as nat)) == ac_bits(ac, block@, 1, 0),
            ac == table_def(*ac_table),
            *dc_predictor == block[0] as i32,
            magnitude_category(block[0] as int - *old(dc_predictor) as int) <= 11,
            code_bits(table_def(*dc_table), magnitude_category(block[0] as int - *old(dc_predictor) as int) as u8) is Ok,
            whole == after(head, ac_bits(ac, block@, 1, 0)),
            whole == block_bits(table_def(*dc_table), table_def(*ac_table), block@, *old(dc_predictor) as int),
        decreases 64 - k,
    {
        let coefficient = block[zigzag(k)] as i32;
        proof {
            crate::block::lemma_zigzag_permutation();
        }
        if coefficient == 0 {
            zero_run = zero_run + 1;
            k = k + 1;
            continue;
        }
        let ghost run0 = zero_run as nat;
        let ghost before = written;
        let ghost mut zeros: Seq<bool> = Seq::empty();
        let ghost mut j: nat = 0;
        proof {
            assert(before + zeros =~= before);
        }
        while zero_run >= 16
            invariant
                zero_run as nat + 16 * j == run0,
                bits.wf(),
                w0.wrote(*bits, head + before + zeros),
                repeated_code(ac, 0xf0, j) == Ok::<Seq<bool>, JpegError>(zeros),
                ac == table_def(*ac_table),
                *dc_predictor == block[0] as i32,
                after(before, ac_bits(ac, block@, k as int, run0)) == ac_bits(ac, block@, 1, 0),
                1 <= k < 64,
                coefficient == block@[zigzag_at(k as int)] as i32,
                coefficient != 0,
                whole == after(head, ac_bits(ac, block@, 1, 0)),
                whole == block_bits(table_def(*dc_table), table_def(*ac_table), block@, *old(dc_predictor) as int),
            decreases zero_run,
        {
            let ghost mid = *bits;
            match ac_table.encode(0xf0, bits) {
                Ok(()) => {},
                Err(e) => {
                    proof {
                        lemma_repeated_code_error(ac, 0xf0, run0 / 16);
                        assert(ac_bits(ac, block@, k as int, run0) == Err::<Seq<bool>, JpegError>(e));
                    }
                    return Err(e);
                },
            }
            proof {
                let c = code_bits(ac, 0xf0).unwrap();
                w0.lemma_wrote_trans(mid, *bits, head + before + zeros, c);
                assert(head + before + zeros + c =~= head + before + (zeros + c));
                zeros = zeros + c;
                j = j + 1;
            }
            zero_run = zero_run - 16;
        }
        proof {
            assert(j == run0 / 16);
            assert(zero_run as nat == run0 % 16);
            assert(block@[zigzag_at(k as int)] as int == coefficient as int);
        }
        let size = magnitude_size(coefficient);
        if size > 10 {
            return Err(JpegError::AcCoefficientTooLarge);
        }
        let symbol = ((zero_run as u8) << 4u8) | size;
        proof {
            let z = zero_run as u8;
            assert(z < 16);
            assert((z << 4u8) | size == z * 16 + size) by (bit_vector)
                requires z < 16, size <= 10;
            assert(symbol == (((run0 % 16) * 16) + size) as u8);
        }
        let ghost mid = *bits;
        match ac_table.encode(symbol, bits) {
            Ok(()) => {},
            Err(e) => {
                return Err(e);
            },
        }
        let ghost mid2 = *bits;
        proof {
            let c = code_bits(ac, symbol).unwrap();
            w0.lemma_wrote_trans(mid, mid2, head + before + zeros, c);
            lemma_bit_length(abs(coefficient as int), size as nat);
            crate::entropy::lemma_pow2_mono(size as int, 16);
        }
        write_magnitude(bits, coefficient, size);
        proof {
            let c = code_bits(ac, symbol).unwrap();
            let m = magnitude_bits(coefficient as int, size as nat);
            w0.lemma_wrote_trans(mid2, *bits, head + before + zeros + c, m);
            written = before + (zeros + c + m);
            assert(head + before + zeros + c + m =~= head + written);
            match ac_bits(ac, block@, k as int + 1, 0) {
                Ok(rest) => {
                    assert(before + (zeros + c + m + rest) =~= written + rest);
                },
                Err(e) => {},
            }
        }
        zero_run = 0;
        k = k + 1;
    }
    if zero_run != 0 {
        let ghost mid = *bits;
        match ac_table.encode(0x00, bits) {
            Ok(()) => {},
            Err(e) => {
                return Err(e);
            },
        }
        proof {
            let c = code_bits(ac, 0x00).unwrap();
            w0.lemma_wrote_trans(mid, *bits, head + written, c);
            assert(head + written + c =~= head + (written + c));
            written = written + c;
        }
    } else {
        proof {
            assert(written + Seq::<bool>::empty() =~= written);
        }
    }
    proof {
        assert(head + written =~= code + magnitude_bits(difference as int, dc_size as nat) + written);
    }
    Ok(())
}

/// Codes of one length only fit when there are no more than that length
/// allows: `c` codes of `l + 1` bits.
proof fn lemma_single_length(counts: Seq<u8>, l: int, c: int, k: int)
    requires
        counts.len() == 16,
        0 <= l < 16,
        forall|i: int| 0 <= i < 16 && i != l ==> counts[i] == 0,
        counts[l] == c,
        c <= pow2((l + 1) as nat),
        0 <= k <= 16,
    ensures
        codes_before(counts, k) == if k <= l { 0 } else { c },
        k <= l ==> first_code(counts, k) == 0,
        k > l ==> first_code(counts, k) <= pow2((k + 1) as nat),
    decreases k,
{
    if k > 0 {
        lemma_single_length(counts, l, c, k - 1);
        lemma_pow2_unfold((k + 1) as nat);
        lemma_pow2_pos(k as nat);
    }
}

pub proof fn lemma_single_length_valid(counts: Seq<u8>, symbols: Seq<u8>, l: int)
    requires
        counts.len() == 16,
        0 <= l < 16,
        forall|i: int| 0 <= i < 16 && i != l ==> counts[i] == 0,
        counts[l] <= pow2((l + 1) as nat),
        symbols.len() == counts[l],
    ensures
        table_valid(counts, symbols),
{
    lemma_single_length(counts, l, counts[l] as int, 16);
    assert forall|k: int| 0 <= k < 16 implies #[trigger] first_code(counts, k) + counts[k] <= pow2((k + 1) as nat) by {
        lemma_single_length(counts, l, counts[l] as int, k);
        lemma_pow2_pos((k + 1) as nat);
    }
}

/// The DC table of the output: twelve codes of four bits, for the
/// categories 0 to 11.
pub open spec fn output_dc_table() -> TableDef {
    TableDef {
        class: 0,
        id: 0,
        counts: Seq::new(16, |l: int| if l == 3 { 12u8 } else { 0u8 }),
        symbols: Seq::new(12, |i: int| i as u8),
    }
}

/// The AC symbol of a run of `run` zeros before a coefficient of category
/// `size`.
pub open spec fn ac_symbol(run: int, size: int) -> u8 {
    (run * 16 + size) as u8
}

/// The AC table of the output: 162 codes of eight bits, for end-of-block,
/// sixteen zeros, and every run of 0 to 15 zeros before a category from 1
/// to 10.
pub open spec fn output_ac_table() -> TableDef {
    TableDef {
        class: 1,
        id: 0,
        counts: Seq::new(16, |l: int| if l == 7 { 162u8 } else { 0u8 }),
        symbols: seq![0x00u8, 0xf0u8] + Seq::new(160, |i: int| ac_symbol(i / 10, i % 10 + 1)),
    }
}

/// Builds the output's Huffman tables: the DC table, then the AC table.
pub fn output_huffman_tables() -> (r: Result<[HuffmanTable; 2], JpegError>)
    ensures
        r matches Ok(tables) && table_def(tables[0]) == output_dc_table() && table_def(tables[1]) == output_ac_table(),
{
    let mut dc_counts = [0u8; 16];
    dc_counts[3] = 12;
    let mut dc_symbols: Vec<u8> = Vec::new();
    let mut symbol: u8 = 0;
    while symbol <= 11
        invariant
            symbol <= 12,
            dc_symbols@ == Seq::new(symbol as nat, |i: int| i as u8),
        decreases 12 - symbol,
    {
        dc_symbols.push(symbol);
        symbol = symbol + 1;
        proof {
            assert(dc_symbols@ =~= Seq::new(symbol as nat, |i: int| i as u8));
        }
    }
    let mut ac_counts = [0u8; 16];
    ac_counts[7] = 162;
    let mut ac_symbols: Vec<u8> = Vec::new();
    ac_symbols.push(0x00);
    ac_symbols.push(0xf0);
    let mut run: u8 = 0;
    while run < 16
        invariant
            run <= 16,
            ac_symbols@ == seq![0x00u8, 0xf0u8] + Seq::new((run * 10) as nat, |i: int| ac_symbol(i / 10, i % 10 + 1)),
        decreases 16 - run,
    {
        let mut size: u8 = 1;
        while size <= 10
            invariant
                run < 16,
                1 <= size <= 11,
                ac_symbols@ == seq![0x00u8, 0xf0u8] + Seq::new(
                    (run * 10 + size - 1) as nat,
                    |i: int| ac_symbol(i / 10, i % 10 + 1),
                ),
            decreases 11 - size,
        {
            let next = (run << 4u8) | size;
            proof {
                assert((run << 4u8) | size == run * 16 + size) by (bit_vector)
                    requires run < 16, size <= 10;
                let i = run * 10 + size - 1;
                assert(i / 10 == run as int && i % 10 + 1 == size as int);
            }
            ac_symbols.push(next);
            size = size + 1;
            proof {
                assert(ac_symbols@ =~= seq![0x00u8, 0xf0u8] + Seq::new(
                    (run * 10 + size - 1) as nat,
                    |i: int| ac_symbol(i / 10, i % 10 + 1),
                ));
            }
        }
        run = run + 1;
    }
    proof {
        vstd::arithmetic::power2::lemma2_to64();
        assert(dc_counts@ =~= output_dc_table().counts);
        assert(ac_counts@ =~= output_ac_table().counts);
        lemma_single_length_valid(dc_counts@, dc_symbols@, 3);
        lemma_single_length_valid(ac_counts@, ac_symbols@, 7);
    }
    let dc = match HuffmanTable::new(0, 0, dc_counts, dc_symbols) {
        Ok(t) => t,
        Err(e) => {
            return Err(e);
        },
    };
    let ac = match HuffmanTable::new(1, 0, ac_counts, ac_symbols) {
        Ok(t) => t,
        Err(e) => {
            return Err(e);
        },
    };
    Ok([dc, ac])
}

/// A segment: marker, big-endian length (which counts itself), and data.
pub open spec fn segment_bytes(marker: u8, data: Seq<u8>) -> Seq<u8> {
    seq![0xffu8, marker, ((data.len() + 2) / 256) as u8, ((data.len() + 2) % 256) as u8] + data
}

/// A segment, or the error that its length does not fit sixteen bits.
pub open spec fn segment_of(marker: u8, data: Seq<u8>) -> Result<Seq<u8>, JpegError> {
    if data.len() + 2 > 0xffff {
        Err(JpegError::SegmentTooLarge)
    } else {
        Ok(segment_bytes(marker, data))
    }
}

/// Appends a segment to `output`.
pub fn write_segment(output: &mut Vec<u8>, marker: u8, data: &[u8]) -> (r: Result<(), JpegError>)
    ensures
        match segment_of(marker, data@) {
            Ok(bytes) => r is Ok && final(output)@ == old(output)@ + bytes,
            Err(e) => r == Err::<(), JpegError>(e) && final(output)@ == old(output)@,
        },
{
    if data.len() > 0xffff - 2 {
        return Err(JpegError::SegmentTooLarge);
    }
    let length = data.len() + 2;
    output.push(0xff);
    output.push(marker);
    output.push((length / 256) as u8);
    output.push((length % 256) as u8);
    let ghost head = output@;
    let mut i: usize = 0;
    while i < data.len()
        invariant
            0 <= i <= data@.len(),
            output@ == head + data@.take(i as int),
        decreases data@.len() - i,
    {
        output.push(data[i]);
        i = i + 1;
        proof {
            assert(output@ =~= head + data@.take(i as int));
        }
    }
    proof {
        assert(data@.take(data@.len() as int) =~= data@);
        assert(output@ =~= old(output)@ + segment_bytes(marker, data@));
    }
    Ok(())
}

/// A table's definition as a DHT segment holds it.
pub open spec fn table_definition(t: TableDef) -> Seq<u8> {
    seq![(t.class << 4u8) | t.id] + t.counts + t.symbols
}

/// The data of a DHT segment that defines `tables`, in order.
pub open spec fn dht_data(tables: Seq<TableDef>) -> Seq<u8>
    decreases tables.len(),
{
    if tables.len() == 0 {
        Seq::<u8>::empty()
    } else {
        dht_data(tables.drop_last()) + table_definition(tables.last())
    }
}

/// Appends a DHT segment that defines `tables`.
pub fn write_huffman_segment(output: &mut Vec<u8>, tables: &[HuffmanTable]) -> (r: Result<(), JpegError>)
    ensures
        match segment_of(DHT, dht_data(table_defs(tables@))) {
            Ok(bytes) => r is Ok && final(output)@ == old(output)@ + bytes,
            Err(e) => r == Err::<(), JpegError>(e) && final(output)@ == old(output)@,
        },
{
    let mut data: Vec<u8> = Vec::new();
    let mut i: usize = 0;
    while i < tables.len()
        invariant
            0 <= i <= tables@.len(),
            data@ == dht_data(table_defs(tables@).take(i as int)),
        decreases tables@.len() - i,
    {
        tables[i].append_definition(&mut data);
        proof {
            let defs = table_defs(tables@);
            assert(defs.take(i + 1).drop_last() =~= defs.take(i as int));
            assert(defs.take(i + 1).last() == table_def(tables@[i as int]));
        }
        i = i + 1;
    }
    proof {
        assert(table_defs(tables@).take(tables@.len() as int) =~= table_defs(tables@));
    }
    write_segment(output, DHT, data.as_slice())
}

/// A sampling byte with its horizontal and vertical factors exchanged.
pub open spec fn swap_nibbles(b: u8) -> u8 {
    (b >> 4u8) | (b << 4u8)
}

/// Where the axes swap, a SOF0 segment's data lists as many sampling bytes
/// as it claims components, so that they can all be rewritten.
pub open spec fn frame_rewritable(data: Seq<u8>, swap: bool) -> bool {
    swap && data.len() >= 6 ==> data[5] == 0 || 3 * data[5] + 5 <= data.len()
}

/// SOF0 data with height and width exchanged and the sampling bytes of its
/// first `done` components rewritten.
pub open spec fn frame_swapped(data: Seq<u8>, done: int) -> Seq<u8> {
    Seq::new(
        data.len(),
        |j: int|
            if j == 1 {
                data[3]
            } else if j == 2 {
                data[4]
            } else if j == 3 {
                data[1]
            } else if j == 4 {
                data[2]
            } else if j >= 7 && (j - 7) % 3 == 0 && (j - 7) / 3 < done {
                swap_nibbles(data[j])
            } else {
                data[j]
            },
    )
}

/// The SOF0 data of the output: unchanged, or with the axes exchanged.
pub open spec fn frame_rewrite(data: Seq<u8>, swap: bool) -> Result<Seq<u8>, JpegError> {
    if data.len() < 6 {
        Err(JpegError::TruncatedFrame)
    } else if swap {
        Ok(frame_swapped(data, data[5] as int))
    } else {
        Ok(data)
    }
}

/// A copy of `data`.
fn copy_bytes(data: &[u8]) -> (r: Vec<u8>)
    ensures
        r@ == data@,
{
    let mut output: Vec<u8> = Vec::new();
    let mut i: usize = 0;
    while i < data.len()
        invariant
            0 <= i <= data@.len(),
            output@ == data@.take(i as int),
        decreases data@.len() - i,
    {
        output.push(data[i]);
        i = i + 1;
        proof {
            assert(output@ =~= data@.take(i as int));
        }
    }
    assert(data@.take(data@.len() as int) =~= data@);
    output
}

/// Rewrites the data of a SOF0 segment for the operation: where it swaps
/// the axes, height and width exchange, and so do the horizontal and
/// vertical sampling factors of each component.
pub fn rewrite_frame_segment(data: &[u8], transform: Transform) -> (r: Result<Vec<u8>, JpegError>)
    requires
        frame_rewritable(data@, geometry_of(transform.index()).0),
    ensures
        match frame_rewrite(data@, geometry_of(transform.index()).0) {
            Ok(bytes) => r matches Ok(v) && v@ == bytes,
            Err(e) => r matches Err(f) && f == e,
        },
{
    if data.len() < 6 {
        return Err(JpegError::TruncatedFrame);
    }
    let mut output = copy_bytes(data);
    if transform.swaps_axes() {
        output.set(1, data[3]);
        output.set(2, data[4]);
        output.set(3, data[1]);
        output.set(4, data[2]);
        let count = data[5] as usize;
        proof {
            assert(output@ =~= frame_swapped(data@, 0));
        }
        let mut index: usize = 0;
        while index < count
            invariant
                0 <= index <= count,
                count == data@[5],
                data@.len() >= 6,
                frame_rewritable(data@, true),
                output@ == frame_swapped(data@, index as int),
            decreases count - index,
        {
            let at = 7 + 3 * index;
            let b = data[at];
            output.set(at, (b >> 4u8) | (b << 4u8));
            index = index + 1;
            proof {
                assert forall|j: int| 0 <= j < data@.len() implies #[trigger] output@[j] == frame_swapped(
                    data@,
                    index as int,
                )[j] by {
                    if j >= 7 && (j - 7) % 3 == 0 && (j - 7) / 3 == index - 1 {
                        assert(j == at);
                    }
                }
                assert(output@ =~= frame_swapped(data@, index as int));
            }
        }
    }
    Ok(output)
}

/// The value at zig-zag position `i` of the quantization table whose
/// values, of `size` bytes each, start at `p`.
pub open spec fn quant_value(data: Seq<u8>, p: int, size: int, i: int) -> u16 {
    if size == 1 {
        data[p + i] as u16
    } else {
        (data[p + 2 * i] as int * 256 + data[p + 2 * i + 1] as int) as u16
    }
}

/// That table, in row-major order.
pub open spec fn quant_natural(data: Seq<u8>, p: int, size: int) -> Seq<u16> {
    Seq::new(64, |n: int| quant_value(data, p, size, zigzag_position(n)))
}

/// Byte `offset` of that table transposed, stored back in zig-zag order.
pub open spec fn transposed_quant_byte(data: Seq<u8>, p: int, size: int, offset: int) -> u8 {
    let t = transposed_table(quant_natural(data, p, size));
    if size == 1 {
        t[zigzag_at(offset)] as u8
    } else {
        let v = t[zigzag_at(offset / 2)];
        if offset % 2 == 0 {
            (v / 256) as u8
        } else {
            (v % 256) as u8
        }
    }
}

/// `out` with the first `count` values of the table at `p` replaced by the
/// transposed table's.
pub open spec fn with_transposed(out: Seq<u8>, data: Seq<u8>, p: int, size: int, count: int) -> Seq<u8> {
    Seq::new(
        out.len(),
        |j: int|
            if p <= j < p + size * count {
                transposed_quant_byte(data, p, size, j - p)
            } else {
                out[j]
            },
    )
}

/// The DQT data of the output when the axes swap, from `position` on:
/// every table transposed, or why the data is refused.
pub open spec fn quant_rewrite(data: Seq<u8>, position: int, out: Seq<u8>) -> Result<Seq<u8>, JpegError>
    decreases data.len() - position,
{
    if position < 0 || position >= data.len() {
        Ok(out)
    } else {
        let precision = data[position] >> 4u8;
        if precision > 1 {
            Err(JpegError::InvalidQuantizationPrecision)
        } else {
            let p = position + 1;
            let size = precision + 1;
            if data.len() - p < 64 * size {
                Err(JpegError::TruncatedQuantizationTable)
            } else {
                quant_rewrite(data, p + 64 * size, with_transposed(out, data, p, size, 64))
            }
        }
    }
}

/// Rewrites the data of a DQT segment for an operation that swaps the axes:
/// each quantization table is transposed.
pub fn rewrite_quantization_segment(data: &[u8]) -> (r: Result<Vec<u8>, JpegError>)
    ensures
        match quant_rewrite(data@, 0, data@) {
            Ok(bytes) => r matches Ok(v) && v@ == bytes,
            Err(e) => r matches Err(f) && f == e,
        },
{
    let mut output = copy_bytes(data);
    let len = data.len();
    let mut position: usize = 0;
    proof {
        crate::block::lemma_zigzag_permutation();
    }
    while position < len
        invariant
            len == data@.len(),
            position <= len,
            output@.len() == len,
            quant_rewrite(data@, 0, data@) == quant_rewrite(data@, position as int, output@),
        decreases len - position,
    {
        let precision = data[position] >> 4u8;
        if precision > 1 {
            return Err(JpegError::InvalidQuantizationPrecision);
        }
        let p = position + 1;
        let size: usize = precision as usize + 1;
        if len - p < 64 * size {
            return Err(JpegError::TruncatedQuantizationTable);
        }
        let mut natural = [0u16; 64];
        let mut zz: usize = 0;
        while zz < 64
            invariant
                0 <= zz <= 64,
                len == data@.len(),
                size == 1 || size == 2,
                p + 64 * size <= len,
                forall|i: int| 0 <= i < zz ==> #[trigger] natural@[zigzag_at(i)] == quant_value(data@, p as int, size as int, i),
            decreases 64 - zz,
        {
            let value = if size == 1 {
                data[p + zz] as u16
            } else {
                (data[p + 2 * zz] as u16) * 256 + (data[p + 2 * zz + 1] as u16)
            };
            proof {
                crate::block::lemma_zigzag_permutation();
            }
            natural[zigzag(zz)] = value;
            zz = zz + 1;
            proof {
                assert forall|i: int| 0 <= i < zz implies #[trigger] natural@[zigzag_at(i)] == quant_value(
                    data@,
                    p as int,
                    size as int,
                    i,
                ) by {
                    if i < zz - 1 {
                        assert(zigzag_position(zigzag_at(i)) == i);
                        assert(zigzag_position(zigzag_at(zz - 1)) == zz - 1);
                    }
                }
            }
        }
        proof {
            assert forall|n: int| 0 <= n < 64 implies #[trigger] natural@[n] == quant_natural(data@, p as int, size as int)[n] by {
                assert(zigzag_at(zigzag_position(n)) == n);
                assert(natural@[zigzag_at(zigzag_position(n))] == quant_value(data@, p as int, size as int, zigzag_position(n)));
            }
            assert(natural@ =~= quant_natural(data@, p as int, size as int));
        }
        let transposed = transpose_frequency_table(&natural);
        let ghost out0 = output@;
        let mut zz: usize = 0;
        proof {
            assert(output@ =~= with_transposed(out0, data@, p as int, size as int, 0));
        }
        while zz < 64
            invariant
                0 <= zz <= 64,
                len == data@.len(),
                size == 1 || size == 2,
                p + 64 * size <= len,
                out0.len() == len,
                transposed@ == transposed_table(quant_natural(data@, p as int, size as int)),
                output@ == with_transposed(out0, data@, p as int, size as int, zz as int),
            decreases 64 - zz,
        {
            proof {
                crate::block::lemma_zigzag_permutation();
            }
            let value = transposed[zigzag(zz)];
            if size == 1 {
                output.set(p + zz, value as u8);
            } else {
                let high = (value >> 8u16) as u8;
                let low = value as u8;
                proof {
                    assert(high == (value / 256) as u8) by (bit_vector)
                        requires high == (value >> 8u16) as u8;
                    assert(low == (value % 256) as u8) by (bit_vector)
                        requires low == value as u8;
                }
                output.set(p + 2 * zz, high);
                output.set(p + 2 * zz + 1, low);
            }
            zz = zz + 1;
            proof {
                assert forall|j: int| 0 <= j < len implies #[trigger] output@[j] == with_transposed(
                    out0,
                    data@,
                    p as int,
                    size as int,
                    zz as int,
                )[j] by {
                    if size == 2 && p + 2 * (zz - 1) <= j < p + 2 * zz {
                        assert((j - p) / 2 == zz - 1);
                    }
                }
                assert(output@ =~= with_transposed(out0, data@, p as int, size as int, zz as int));
            }
        }
        position = p + 64 * size;
    }
    Ok(output)
}

/// SOS data whose component list holds as many entries as it claims.
pub open spec fn scan_writable(data: Seq<u8>) -> bool {
    data.len() >= 1 && 2 * data[0] < data.len()
}

/// SOS data with every component's table selectors set to zero: the
/// output has one DC and one AC table.
pub open spec fn selectors_cleared(data: Seq<u8>) -> Seq<u8> {
    Seq::new(
        data.len(),
        |j: int|
            if j >= 2 && (j - 2) % 2 == 0 && (j - 2) / 2 < data[0] {
                0u8
            } else {
                data[j]
            },
    )
}

/// Every SOS and SOF0 segment can be rewritten.
pub open spec fn segments_writable(segments: Seq<SegmentModel>, swap: bool) -> bool {
    forall|i: int|
        #![trigger segments[i]]
        0 <= i < segments.len() ==> (segments[i].marker == SOS ==> scan_writable(segments[i].data)) && (
        segments[i].marker == SOF0 ==> frame_rewritable(segments[i].data, swap))
}

/// What the output holds for one header segment: the output's DHT segment
/// and the scan header with cleared selectors for SOS; the rewritten frame
/// for SOF0; transposed quantization tables for DQT where the axes swap;
/// any other segment as it was.
pub open spec fn segment_out(segment: SegmentModel, swap: bool, tables: Seq<TableDef>) -> Result<Seq<u8>, JpegError> {
    if segment.marker == SOS {
        match segment_of(DHT, dht_data(tables)) {
            Err(e) => Err(e),
            Ok(dht) => match segment_of(SOS, selectors_cleared(segment.data)) {
                Err(e) => Err(e),
                Ok(sos) => Ok(dht + sos),
            },
        }
    } else if segment.marker == SOF0 {
        match frame_rewrite(segment.data, swap) {
            Err(e) => Err(e),
            Ok(data) => segment_of(SOF0, data),
        }
    } else if segment.marker == DQT && swap {
        match quant_rewrite(segment.data, 0, segment.data) {
            Err(e) => Err(e),
            Ok(data) => segment_of(DQT, data),
        }
    } else {
        segment_of(segment.marker, segment.data)
    }
}

/// What the output holds for the header segments, in order.
pub open spec fn headers_out(segments: Seq<SegmentModel>, swap: bool, tables: Seq<TableDef>) -> Result<Seq<u8>, JpegError>
    decreases segments.len(),
{
    if segments.len() == 0 {
        Ok(Seq::<u8>::empty())
    } else {
        match headers_out(segments.drop_last(), swap, tables) {
            Err(e) => Err(e),
            Ok(front) => match segment_out(segments.last(), swap, tables) {
                Err(e) => Err(e),
                Ok(bytes) => Ok(front + bytes),
            },
        }
    }
}

/// Writes the header segments of the output.
pub fn write_headers(output: &mut Vec<u8>, header: &Header, transform: Transform, output_tables: &[HuffmanTable]) -> (r:
    Result<(), JpegError>)
    requires
        segments_writable(header@.segments, geometry_of(transform.index()).0),
    ensures
        match headers_out(header@.segments, geometry_of(transform.index()).0, table_defs(output_tables@)) {
            Ok(bytes) => r is Ok && final(output)@ == old(output)@ + bytes,
            Err(e) => r == Err::<(), JpegError>(e),
        },
{
    let ghost segments = header@.segments;
    let ghost swap = geometry_of(transform.index()).0;
    let ghost tables = table_defs(output_tables@);
    let swaps = transform.swaps_axes();
    let count = header.segments.len();
    let mut i: usize = 0;
    proof {
        assert(segments.take(0) =~= Seq::<SegmentModel>::empty());
        assert(old(output)@ + Seq::<u8>::empty() =~= old(output)@);
    }
    while i < count
        invariant
            0 <= i <= count,
            count == segments.len(),
            segments == header@.segments,
            segments_writable(segments, swap),
            swaps == swap,
            swap == geometry_of(transform.index()).0,
            tables == table_defs(output_tables@),
            headers_out(segments.take(i as int), swap, tables) matches Ok(front) && output@ == old(output)@ + front,
        decreases count - i,
    {
        let ghost front = headers_out(segments.take(i as int), swap, tables).unwrap();
        let ghost before = output@;
        let segment = &header.segments[i];
        let ghost model = segments[i as int];
        proof {
            assert(model == segment@);
            assert(segments.take(i + 1).drop_last() =~= segments.take(i as int));
            assert(segments.take(i + 1).last() == model);
        }
        let marker = segment.marker;
        if marker == SOS {
            match write_huffman_segment(output, output_tables) {
                Ok(()) => {},
                Err(e) => {
                    proof {
                        lemma_headers_out_error(segments, i as int + 1, swap, tables);
                    }
                    return Err(e);
                },
            }
            let ghost middle = output@;
            let mut data = copy_bytes(segment.data.as_slice());
            let n = data[0] as usize;
            proof {
                assert(scan_writable(model.data));
                assert(data@ =~= Seq::new(model.data.len(), |j: int| if j >= 2 && (j - 2) % 2 == 0 && (j - 2) / 2 < 0 { 0u8 } else { model.data[j] }));
            }
            let mut index: usize = 0;
            while index < n
                invariant
                    0 <= index <= n,
                    n == model.data[0],
                    scan_writable(model.data),
                    data@ == Seq::new(
                        model.data.len(),
                        |j: int|
                            if j >= 2 && (j - 2) % 2 == 0 && (j - 2) / 2 < index {
                                0u8
                            } else {
                                model.data[j]
                            },
                    ),
                decreases n - index,
            {
                data.set(2 + 2 * index, 0);
                index = index + 1;
                proof {
                    assert forall|j: int| 0 <= j < model.data.len() implies #[trigger] data@[j] == (if j >= 2 && (j - 2)
                        % 2 == 0 && (j - 2) / 2 < index {
                        0u8
                    } else {
                        model.data[j]
                    }) by {
                        if j >= 2 && (j - 2) % 2 == 0 && (j - 2) / 2 == index - 1 {
                            assert(j == 2 + 2 * (index - 1));
                        }
                    }
                    assert(data@ =~= Seq::new(
                        model.data.len(),
                        |j: int|
                            if j >= 2 && (j - 2) % 2 == 0 && (j - 2) / 2 < index {
                                0u8
                            } else {
                                model.data[j]
                            },
                    ));
                }
            }
            proof {
                assert(data@ =~= selectors_cleared(model.data));
            }
            match write_segment(output, SOS, data.as_slice()) {
                Ok(()) => {},
                Err(e) => {
                    proof {
                        lemma_headers_out_error(segments, i as int + 1, swap, tables);
                    }
                    return Err(e);
                },
            }
            proof {
                assert(output@ =~= before + (middle.subrange(before.len() as int, middle.len() as int) + output@.subrange(
                    middle.len() as int,
                    output@.len() as int,
                )));
            }
        } else if marker == SOF0 {
            let data = match rewrite_frame_segment(segment.data.as_slice(), transform) {
                Ok(d) => d,
                Err(e) => {
                    proof {
                        lemma_headers_out_error(segments, i as int + 1, swap, tables);
                    }
                    return Err(e);
                },
            };
            match write_segment(output, SOF0, data.as_slice()) {
                Ok(()) => {},
                Err(e) => {
                    proof {
                        lemma_headers_out_error(segments, i as int + 1, swap, tables);
                    }
                    return Err(e);
                },
            }
        } else if marker == DQT && swaps {
            let data = match rewrite_quantization_segment(segment.data.as_slice()) {
                Ok(d) => d,
                Err(e) => {
                    proof {
                        lemma_headers_out_error(segments, i as int + 1, swap, tables);
                    }
                    return Err(e);
                },
            };
            match write_segment(output, DQT, data.as_slice()) {
                Ok(()) => {},
                Err(e) => {
                    proof {
                        lemma_headers_out_error(segments, i as int + 1, swap, tables);
                    }
                    return Err(e);
                },
            }
        } else {
            match write_segment(output, marker, segment.data.as_slice()) {
                Ok(()) => {},
                Err(e) => {
                    proof {
                        lemma_headers_out_error(segments, i as int + 1, swap, tables);
                    }
                    return Err(e);
                },
            }
        }
        proof {
            let bytes = segment_out(model, swap, tables).unwrap();
            assert(output@ =~= old(output)@ + (front + bytes));
        }
        i = i + 1;
    }
    proof {
        assert(segments.take(count as int) =~= segments);
    }
    Ok(())
}

/// Once a segment fails, the header fails the same way.
proof fn lemma_headers_out_error(segments: Seq<SegmentModel>, k: int, swap: bool, tables: Seq<TableDef>)
    requires
        0 <= k <= segments.len(),
        headers_out(segments.take(k), swap, tables) is Err,
    ensures
        headers_out(segments, swap, tables) == headers_out(segments.take(k), swap, tables),
    decreases segments.len() - k,
{
    if k < segments.len() {
        assert(segments.take(k + 1).drop_last() =~= segments.take(k));
        lemma_headers_out_error(segments, k + 1, swap, tables);
    } else {
        assert(segments.take(k) =~= segments);
    }
}

proof fn lemma_segments_shape(input: Seq<u8>, position: int, progress: HeaderProgress)
    requires
        forall|i: int|
            #![trigger progress.segments[i]]
            0 <= i < progress.segments.len() ==> progress.segments[i].marker != SOS && (progress.segments[i].marker
                == SOF0 ==> frame_rewritable(progress.segments[i].data, true)),
        header_segments(input, position, progress) is Ok,
    ensures
        ({
            let segs = header_segments(input, position, progress).unwrap().0.segments;
            &&& segs.len() >= 1
            &&& segs.last().marker == SOS
            &&& forall|i: int| #![trigger segs[i]] 0 <= i < segs.len() - 1 ==> segs[i].marker != SOS
            &&& forall|i: int|
                #![trigger segs[i]]
                0 <= i < segs.len() ==> (segs[i].marker == SOF0 ==> frame_rewritable(segs[i].data, true))
        }),
    decreases input.len() - position,
{
    lemma_marker_search_advances(input, position, false);
    let (marker, p) = marker_search(input, position, false).unwrap();
    let length = be16(input[p], input[p + 1]);
    let data = input.subrange(p + 2, p + length);
    let next = segment_effect(marker, data, progress).unwrap();
    if marker == SOF0 {
        assert(frame_of(data) is Ok);
        assert(frame_rewritable(data, true));
    }
    assert forall|i: int| #![trigger next.segments[i]] 0 <= i < next.segments.len() - 1 implies next.segments[i].marker != SOS by {
        if marker != DHT {
            assert(next.segments[i] == progress.segments[i]);
        }
    }
    assert forall|i: int|
        #![trigger next.segments[i]]
        0 <= i < next.segments.len() implies (next.segments[i].marker == SOF0 ==> frame_rewritable(next.segments[i].data, true)) by {
        if marker != DHT && i < progress.segments.len() {
            assert(next.segments[i] == progress.segments[i]);
        }
    }
    if marker != SOS {
        lemma_segments_shape(input, p + length, next);
    }
}

/// The segments of a header that `header_of` accepts can be written, for
/// every operation.
pub proof fn lemma_header_writable(input: Seq<u8>, swap: bool)
    requires
        header_of(input) is Ok,
    ensures
        segments_writable(header_of(input).unwrap().0.segments, swap),
{
    let (h, p) = header_of(input).unwrap();
    lemma_segments_shape(input, 2, empty_progress());
    let (progress, position) = header_segments(input, 2, empty_progress()).unwrap();
    let segs = progress.segments;
    let frame = progress.frame.unwrap();
    assert(scan_of(segs.last().data, frame) is Ok);
    assert forall|i: int|
        #![trigger segs[i]]
        0 <= i < segs.len() implies (segs[i].marker == SOS ==> scan_writable(segs[i].data)) && (segs[i].marker == SOF0
        ==> frame_rewritable(segs[i].data, swap)) by {
        if segs[i].marker == SOS {
            assert(i == segs.len() - 1);
        }
    }
}

/// A transformed block as 16-bit coefficients.
pub open spec fn transformed_i16(index: u8, block: Seq<i16>) -> Seq<i16> {
    Seq::new(64, |i: int| transformed_block(index, block_values(block))[i] as i16)
}

/// The block grid of scan component `k` in an output MCU.
pub open spec fn output_extent(h: HeaderModel, index: u8, k: int) -> (int, int) {
    let c = h.frame.components[h.scan.components[k].frame_index as int];
    destination_extent(index, c.horizontal_sampling as int, c.vertical_sampling as int)
}

/// Output block `(oh, ov)` of scan component `k`, made from the blocks of
/// a source MCU: its frame component and its coefficients.
pub open spec fn out_block(h: HeaderModel, index: u8, blocks: Seq<Seq<i16>>, k: int, oh: int, ov: int) -> (int, Seq<i16>) {
    let sc = h.scan.components[k];
    let c = h.frame.components[sc.frame_index as int];
    let (sh, sv) = source_position_of(index, oh, ov, c.horizontal_sampling as int, c.vertical_sampling as int);
    (sc.frame_index as int, transformed_i16(index, blocks[sc.first_block + sv * c.horizontal_sampling + sh]))
}

/// The first `n` output blocks of row `ov` of scan component `k`.
pub open spec fn row_out(h: HeaderModel, index: u8, blocks: Seq<Seq<i16>>, k: int, ov: int, n: int) -> Seq<(int, Seq<i16>)> {
    Seq::new(n as nat, |oh: int| out_block(h, index, blocks, k, oh, ov))
}

/// The output blocks of the first `r` rows of scan component `k`.
pub open spec fn rows_out(h: HeaderModel, index: u8, blocks: Seq<Seq<i16>>, k: int, r: int) -> Seq<(int, Seq<i16>)>
    decreases r,
{
    if r <= 0 {
        Seq::<(int, Seq<i16>)>::empty()
    } else {
        rows_out(h, index, blocks, k, r - 1) + row_out(h, index, blocks, k, r - 1, output_extent(h, index, k).0)
    }
}

/// The output blocks of the first `count` scan components.
pub open spec fn comps_out(h: HeaderModel, index: u8, blocks: Seq<Seq<i16>>, count: int) -> Seq<(int, Seq<i16>)>
    decreases count,
{
    if count <= 0 {
        Seq::<(int, Seq<i16>)>::empty()
    } else {
        comps_out(h, index, blocks, count - 1) + rows_out(h, index, blocks, count - 1, output_extent(h, index, count - 1).1)
    }
}

/// The output blocks of the output MCU made from a source MCU's blocks:
/// each scan component's blocks, row by row of the output grid.
pub open spec fn mcu_out(h: HeaderModel, index: u8, blocks: Seq<Seq<i16>>) -> Seq<(int, Seq<i16>)> {
    comps_out(h, index, blocks, h.scan.components.len() as int)
}

/// Encodes blocks in order, each with the DC predictor of its frame
/// component, which then becomes the block's DC: the bits and the
/// predictors after them.
#[verifier::opaque]
pub open spec fn encode_list(dc: TableDef, ac: TableDef, list: Seq<(int, Seq<i16>)>, predictors: Seq<int>) -> Result<
    (Seq<bool>, Seq<int>),
    JpegError,
>
    decreases list.len(),
{
    if list.len() == 0 {
        Ok((Seq::<bool>::empty(), predictors))
    } else {
        match encode_list(dc, ac, list.drop_last(), predictors) {
            Err(e) => Err(e),
            Ok((bits, p)) => {
                let (c, b) = list.last();
                match block_bits(dc, ac, b, p[c]) {
                    Err(e) => Err(e),
                    Ok(x) => Ok((bits + x, p.update(c, b[0] as int))),
                }
            },
        }
    }
}

/// Encoding one more block.
proof fn lemma_encode_list_push(
    dc: TableDef,
    ac: TableDef,
    list: Seq<(int, Seq<i16>)>,
    x: (int, Seq<i16>),
    predictors: Seq<int>,
)
    ensures
        encode_list(dc, ac, list.push(x), predictors) == match encode_list(dc, ac, list, predictors) {
            Err(e) => Err(e),
            Ok((bits, p)) => match block_bits(dc, ac, x.1, p[x.0]) {
                Err(e) => Err(e),
                Ok(y) => Ok((bits + y, p.update(x.0, x.1[0] as int))),
            },
        },
{
    reveal(encode_list);
    assert(list.push(x).drop_last() =~= list);
}

proof fn lemma_encode_list_empty(dc: TableDef, ac: TableDef, predictors: Seq<int>)
    ensures
        encode_list(dc, ac, Seq::<(int, Seq<i16>)>::empty(), predictors) == Ok::<(Seq<bool>, Seq<int>), JpegError>(
            (Seq::<bool>::empty(), predictors),
        ),
{
    reveal(encode_list);
}

/// Once encoding a prefix of a list fails, encoding the list fails the
/// same way.
proof fn lemma_encode_list_prefix(
    dc: TableDef,
    ac: TableDef,
    a: Seq<(int, Seq<i16>)>,
    b: Seq<(int, Seq<i16>)>,
    predictors: Seq<int>,
)
    requires
        a.is_prefix_of(b),
        encode_list(dc, ac, a, predictors) is Err,
    ensures
        encode_list(dc, ac, b, predictors) == encode_list(dc, ac, a, predictors),
    decreases b.len() - a.len(),
{
    if b.len() == a.len() {
        assert(a =~= b);
    } else {
        assert(a.is_prefix_of(b.drop_last()));
        lemma_encode_list_prefix(dc, ac, a, b.drop_last(), predictors);
        lemma_encode_list_push(dc, ac, b.drop_last(), b.last(), predictors);
        assert(b.drop_last().push(b.last()) =~= b);
    }
}

/// Encoding two lists one after the other.
pub open spec fn encode_after(
    dc: TableDef,
    ac: TableDef,
    prior: Result<(Seq<bool>, Seq<int>), JpegError>,
    list: Seq<(int, Seq<i16>)>,
) -> Result<(Seq<bool>, Seq<int>), JpegError> {
    match prior {
        Err(e) => Err(e),
        Ok((x, p)) => match encode_list(dc, ac, list, p) {
            Err(e) => Err(e),
            Ok((y, q)) => Ok((x + y, q)),
        },
    }
}

pub proof fn lemma_encode_list_append(
    dc: TableDef,
    ac: TableDef,
    a: Seq<(int, Seq<i16>)>,
    b: Seq<(int, Seq<i16>)>,
    predictors: Seq<int>,
)
    ensures
        encode_list(dc, ac, a + b, predictors) == encode_after(dc, ac, encode_list(dc, ac, a, predictors), b),
    decreases b.len(),
{
    if b.len() == 0 {
        assert(a + b =~= a);
        match encode_list(dc, ac, a, predictors) {
            Err(e) => {
                assert(encode_list(dc, ac, a + b, predictors) == encode_after(dc, ac, encode_list(dc, ac, a, predictors), b));
            },
            Ok((x, p)) => {
                lemma_encode_list_empty(dc, ac, p);
                assert(b =~= Seq::<(int, Seq<i16>)>::empty());
                assert(x + Seq::<bool>::empty() =~= x);
                assert(encode_list(dc, ac, a + b, predictors) == encode_after(dc, ac, encode_list(dc, ac, a, predictors), b));
            },
        }
    } else {
        let b2 = b.drop_last();
        let last = b.last();
        lemma_encode_list_append(dc, ac, a, b2, predictors);
        assert((a + b2).push(last) =~= a + b);
        assert(b2.push(last) =~= b);
        lemma_encode_list_push(dc, ac, a + b2, last, predictors);
        match encode_list(dc, ac, a, predictors) {
            Err(e) => {
                assert(encode_list(dc, ac, a + b, predictors) == encode_after(dc, ac, encode_list(dc, ac, a, predictors), b));
            },
            Ok((x, p)) => {
                lemma_encode_list_push(dc, ac, b2, last, p);
                match encode_list(dc, ac, b2, p) {
                    Err(e) => {
                        assert(encode_list(dc, ac, a + b, predictors) == encode_after(dc, ac, encode_list(dc, ac, a, predictors), b));
                    },
                    Ok((y, q)) => {
                        match block_bits(dc, ac, last.1, q[last.0]) {
                            Err(e) => {
                                assert(encode_list(dc, ac, a + b, predictors) == encode_after(dc, ac, encode_list(dc, ac, a, predictors), b));
                            },
                            Ok(z) => {
                                assert(x + y + z =~= x + (y + z));
                                assert(encode_list(dc, ac, a + b, predictors) == encode_after(dc, ac, encode_list(dc, ac, a, predictors), b));
                            },
                        }
                    },
                }
            },
        }
    }
}

/// No AC coefficient is `i16::MIN`, so every transform can negate the
/// block's coefficients: the DC coefficient is never negated.
pub proof fn lemma_ac_fits_negation(index: u8, block: Seq<i16>)
    requires
        index < 8,
        block.len() == 64,
        ac_fits(block),
    ensures
        block_negation_fits(index, block),
{
    assert forall|u: int, v: int|
        0 <= u < 8 && 0 <= v < 8 && #[trigger] block_negates(index, u, v) implies block[block_source_index(index, u, v)]
        != i16::MIN by {
        let k = block_source_index(index, u, v);
        assert(1 <= k < 64);
    }
}

/// The blocks of each component lie after those of the components before.
pub proof fn lemma_scan_blocks_monotone(h: HeaderModel, a: int, b: int)
    requires
        header_wf(h),
        0 <= a <= b <= h.scan.components.len(),
    ensures
        scan_blocks_before(h, a) <= scan_blocks_before(h, b),
    decreases b - a,
{
    if a < b {
        lemma_scan_blocks_monotone(h, a, b - 1);
        let sc = h.scan.components[b - 1];
        let c = h.frame.components[sc.frame_index as int];
        assert(0 <= c.horizontal_sampling * c.vertical_sampling) by (nonlinear_arith)
            requires 0 <= c.horizontal_sampling, 0 <= c.vertical_sampling;
    }
}

/// A row's first output blocks, after the rows before it, start the blocks
/// of the component.
proof fn lemma_rows_prefix(h: HeaderModel, index: u8, blocks: Seq<Seq<i16>>, k: int, ov: int, oh: int, rows: int)
    requires
        0 <= ov < rows,
        0 <= oh <= output_extent(h, index, k).0,
    ensures
        (rows_out(h, index, blocks, k, ov) + row_out(h, index, blocks, k, ov, oh)).is_prefix_of(
            rows_out(h, index, blocks, k, rows),
        ),
    decreases rows,
{
    let w = output_extent(h, index, k).0;
    if rows > ov + 1 {
        lemma_rows_prefix(h, index, blocks, k, ov, oh, rows - 1);
    } else {
        let a = rows_out(h, index, blocks, k, ov) + row_out(h, index, blocks, k, ov, oh);
        let b = rows_out(h, index, blocks, k, rows);
        assert(b.subrange(0, a.len() as int) =~= a);
    }
}

/// A component's first output blocks, after the components before it,
/// start the output MCU.
proof fn lemma_comps_prefix(h: HeaderModel, index: u8, blocks: Seq<Seq<i16>>, k: int, tail: Seq<(int, Seq<i16>)>, count: int)
    requires
        0 <= k < count,
        tail.is_prefix_of(rows_out(h, index, blocks, k, output_extent(h, index, k).1)),
    ensures
        (comps_out(h, index, blocks, k) + tail).is_prefix_of(comps_out(h, index, blocks, count)),
    decreases count,
{
    if count > k + 1 {
        lemma_comps_prefix(h, index, blocks, k, tail, count - 1);
    } else {
        let a = comps_out(h, index, blocks, k) + tail;
        let b = comps_out(h, index, blocks, count);
        assert(b.subrange(0, a.len() as int) =~= a);
    }
}

/// The blocks of a decoded source MCU, and their coefficients laid out
/// one block after the other.
pub open spec fn source_blocks_ok(h: HeaderModel, source: Seq<i16>, blocks: Seq<Seq<i16>>) -> bool {
    &&& source == blocks.flatten()
    &&& blocks.len() == h.scan.blocks_per_mcu
    &&& forall|i: int| 0 <= i < blocks.len() ==> (#[trigger] blocks[i]).len() == 64 && ac_fits(blocks[i])
}

/// Encodes the output blocks of scan component `k` of one output MCU, made
/// from the source MCU's blocks.
fn write_component_blocks(
    bits: &mut BitWriter,
    header: &Header,
    transform: Transform,
    dc_table: &HuffmanTable,
    ac_table: &HuffmanTable,
    source: &Vec<i16>,
    predictors: &mut Vec<i32>,
    k: usize,
    Ghost(blocks): Ghost<Seq<Seq<i16>>>,
) -> (r: Result<(), JpegError>)
    requires
        old(bits).wf(),
        header_wf(header@),
        k < header@.scan.components.len(),
        source_blocks_ok(header@, source@, blocks),
        old(predictors)@.len() == header@.frame.components.len(),
        predictors_fit(predictor_values(old(predictors)@)),
    ensures
        final(bits).wf(),
        final(predictors)@.len() == old(predictors)@.len(),
        predictors_fit(predictor_values(final(predictors)@)),
        match encode_list(
            table_def(*dc_table),
            table_def(*ac_table),
            rows_out(header@, transform.index(), blocks, k as int, output_extent(header@, transform.index(), k as int).1),
            predictor_values(old(predictors)@),
        ) {
            Ok((b, p)) => r is Ok && old(bits).wrote(*final(bits), b) && predictor_values(final(predictors)@) == p,
            Err(e) => r == Err::<(), JpegError>(e),
        },
{
    let ghost h = header@;
    let ghost index = transform.index();
    let ghost dc = table_def(*dc_table);
    let ghost ac = table_def(*ac_table);
    let ghost w0 = *bits;
    let ghost p0 = predictor_values(predictors@);
    let _ = transform.get_index();
    proof {
        lemma_header_bounds(h);
    }
    let sc = header.scan.components[k];
    let fi = sc.frame_index;
    let component = header.frame.components[fi];
    let width = component.horizontal_sampling;
    let height = component.vertical_sampling;
    let (across, down) = if transform.swaps_axes() {
        (height, width)
    } else {
        (width, height)
    };
    proof {
        assert(h.scan.components[k as int] == sc);
        assert(h.frame.components[fi as int] == component);
        assert((across as int, down as int) == output_extent(h, index, k as int));
        lemma_scan_blocks_monotone(h, k as int + 1, h.scan.components.len() as int);
        assert(sc.first_block + width * height <= h.scan.blocks_per_mcu);
        lemma_encode_list_empty(dc, ac, p0);
        w0.lemma_wrote_nothing();
    }
    let ghost mut written: Seq<bool> = Seq::empty();
    let mut ov: usize = 0;
    while ov < down
        invariant
            0 <= ov <= down,
            bits.wf(),
            w0.wrote(*bits, written),
            encode_list(dc, ac, rows_out(h, index, blocks, k as int, ov as int), p0) == Ok::<(Seq<bool>, Seq<int>), JpegError>(
                (written, predictor_values(predictors@)),
            ),
            predictors@.len() == h.frame.components.len(),
            predictors_fit(predictor_values(predictors@)),
            h == header@,
            index == transform.index(),
            index < 8,
            dc == table_def(*dc_table),
            ac == table_def(*ac_table),
            header_wf(h),
            k < h.scan.components.len(),
            sc == h.scan.components[k as int],
            fi == sc.frame_index,
            fi < h.frame.components.len(),
            component == h.frame.components[fi as int],
            width == component.horizontal_sampling,
            height == component.vertical_sampling,
            1 <= width <= 15,
            1 <= height <= 15,
            (across as int, down as int) == output_extent(h, index, k as int),
            source_blocks_ok(h, source@, blocks),
            sc.first_block + width * height <= blocks.len(),
            p0 == predictor_values(old(predictors)@),
            w0 == *old(bits),
            old(predictors)@.len() == h.frame.components.len(),
            h.scan.blocks_per_mcu <= 225 * 255,
        decreases down - ov,
    {
        let mut oh: usize = 0;
        proof {
            assert(rows_out(h, index, blocks, k as int, ov as int) + row_out(h, index, blocks, k as int, ov as int, 0)
                =~= rows_out(h, index, blocks, k as int, ov as int));
        }
        while oh < across
            invariant
                0 <= ov < down,
                0 <= oh <= across,
                bits.wf(),
                w0.wrote(*bits, written),
                encode_list(
                    dc,
                    ac,
                    rows_out(h, index, blocks, k as int, ov as int) + row_out(h, index, blocks, k as int, ov as int, oh as int),
                    p0,
                ) == Ok::<(Seq<bool>, Seq<int>), JpegError>((written, predictor_values(predictors@))),
                predictors@.len() == h.frame.components.len(),
                predictors_fit(predictor_values(predictors@)),
                h == header@,
                index == transform.index(),
                index < 8,
                dc == table_def(*dc_table),
                ac == table_def(*ac_table),
                header_wf(h),
                k < h.scan.components.len(),
                sc == h.scan.components[k as int],
                fi == sc.frame_index,
                fi < h.frame.components.len(),
                component == h.frame.components[fi as int],
                width == component.horizontal_sampling,
                height == component.vertical_sampling,
                1 <= width <= 15,
                1 <= height <= 15,
                (across as int, down as int) == output_extent(h, index, k as int),
                source_blocks_ok(h, source@, blocks),
                sc.first_block + width * height <= blocks.len(),
                p0 == predictor_values(old(predictors)@),
                w0 == *old(bits),
                old(predictors)@.len() == h.frame.components.len(),
                h.scan.blocks_per_mcu <= 225 * 255,
            decreases across - oh,
        {
            proof {
                crate::transform::lemma_source_position_bijective(index, oh as int, ov as int, width as int, height as int);
                lemma_flatten_pieces(blocks, 64);
            }
            let (sh, sv) = transform.source_position(oh, ov, width, height);
            proof {
                assert(sv * width + sh < width * height) by (nonlinear_arith)
                    requires sv < height, sh < width;
                assert(0 <= sv * width) by (nonlinear_arith)
                    requires 0 <= sv, 0 <= width;
            }
            let at = sc.first_block + sv * width + sh;
            proof {
                assert(at < blocks.len());
                assert(at * 64 + 64 <= blocks.len() * 64) by (nonlinear_arith)
                    requires at < blocks.len();
                assert(source@.subrange(at * 64, at * 64 + 64) =~= blocks[at as int]) by {
                    assert forall|c: int| 0 <= c < 64 implies source@.subrange(at * 64, at * 64 + 64)[c] == blocks[at as int][c] by {
                        assert(blocks.flatten()[at * 64 + c] == blocks[at as int][c]);
                    }
                }
                lemma_ac_fits_negation(index, blocks[at as int]);
            }
            let block = transform.apply_block(source.as_slice(), at * 64);
            let ghost item = out_block(h, index, blocks, k as int, oh as int, ov as int);
            proof {
                assert(block@ =~= item.1);
                assert(item.0 == fi as int);
                let before = rows_out(h, index, blocks, k as int, ov as int) + row_out(h, index, blocks, k as int, ov as int, oh as int);
                assert(before.push(item) =~= rows_out(h, index, blocks, k as int, ov as int) + row_out(
                    h,
                    index,
                    blocks,
                    k as int,
                    ov as int,
                    oh + 1,
                ));
                lemma_encode_list_push(dc, ac, before, item, p0);
                lemma_rows_prefix(h, index, blocks, k as int, ov as int, oh + 1, down as int);
                assert(predictors@[fi as int] as int == predictor_values(predictors@)[fi as int]);
            }
            let mut p = predictors[fi];
            let ghost mid = *bits;
            let ghost pv = predictor_values(predictors@);
            match encode_block(bits, dc_table, ac_table, &mut p, &block) {
                Ok(()) => {},
                Err(e) => {
                    proof {
                        let failed = rows_out(h, index, blocks, k as int, ov as int) + row_out(h, index, blocks, k as int, ov as int, oh + 1);
                        lemma_encode_list_prefix(dc, ac, failed, rows_out(h, index, blocks, k as int, down as int), p0);
                    }
                    return Err(e);
                },
            }
            predictors.set(fi, p);
            proof {
                let y = block_bits(dc, ac, block@, pv[fi as int]).unwrap();
                w0.lemma_wrote_trans(mid, *bits, written, y);
                written = written + y;
                assert(predictor_values(predictors@) =~= pv.update(fi as int, block@[0] as int));
                assert forall|i: int| #![trigger predictor_values(predictors@)[i]] 0 <= i < predictors@.len() implies i16::MIN
                    <= predictor_values(predictors@)[i] <= i16::MAX by {
                    if i != fi as int {
                        assert(predictor_values(predictors@)[i] == pv[i]);
                    }
                }
            }
            oh = oh + 1;
        }
        ov = ov + 1;
    }
    Ok(())
}

/// Encodes the output blocks of one output MCU, made from the source MCU's
/// blocks: each scan component's in turn.
fn write_mcu_blocks(
    bits: &mut BitWriter,
    header: &Header,
    transform: Transform,
    dc_table: &HuffmanTable,
    ac_table: &HuffmanTable,
    source: &Vec<i16>,
    predictors: &mut Vec<i32>,
    Ghost(blocks): Ghost<Seq<Seq<i16>>>,
) -> (r: Result<(), JpegError>)
    requires
        old(bits).wf(),
        header_wf(header@),
        source_blocks_ok(header@, source@, blocks),
        old(predictors)@.len() == header@.frame.components.len(),
        predictors_fit(predictor_values(old(predictors)@)),
    ensures
        final(bits).wf(),
        final(predictors)@.len() == old(predictors)@.len(),
        predictors_fit(predictor_values(final(predictors)@)),
        match encode_list(
            table_def(*dc_table),
            table_def(*ac_table),
            mcu_out(header@, transform.index(), blocks),
            predictor_values(old(predictors)@),
        ) {
            Ok((b, p)) => r is Ok && old(bits).wrote(*final(bits), b) && predictor_values(final(predictors)@) == p,
            Err(e) => r == Err::<(), JpegError>(e),
        },
{
    let ghost h = header@;
    let ghost index = transform.index();
    let ghost dc = table_def(*dc_table);
    let ghost ac = table_def(*ac_table);
    let ghost w0 = *bits;
    let ghost p0 = predictor_values(predictors@);
    let count = header.scan.components.len();
    proof {
        lemma_encode_list_empty(dc, ac, p0);
        w0.lemma_wrote_nothing();
    }
    let ghost mut written: Seq<bool> = Seq::empty();
    let mut k: usize = 0;
    while k < count
        invariant
            0 <= k <= count,
            count == h.scan.components.len(),
            h == header@,
            index == transform.index(),
            dc == table_def(*dc_table),
            ac == table_def(*ac_table),
            header_wf(h),
            source_blocks_ok(h, source@, blocks),
            p0 == predictor_values(old(predictors)@),
            w0 == *old(bits),
            old(predictors)@.len() == h.frame.components.len(),
            bits.wf(),
            w0.wrote(*bits, written),
            encode_list(dc, ac, comps_out(h, index, blocks, k as int), p0) == Ok::<(Seq<bool>, Seq<int>), JpegError>(
                (written, predictor_values(predictors@)),
            ),
            predictors@.len() == h.frame.components.len(),
            predictors_fit(predictor_values(predictors@)),
        decreases count - k,
    {
        let ghost mid = *bits;
        let ghost pk = predictor_values(predictors@);
        let ghost rows = rows_out(h, index, blocks, k as int, output_extent(h, index, k as int).1);
        proof {
            lemma_encode_list_append(dc, ac, comps_out(h, index, blocks, k as int), rows, p0);
            assert(comps_out(h, index, blocks, k as int + 1) == comps_out(h, index, blocks, k as int) + rows);
        }
        match write_component_blocks(bits, header, transform, dc_table, ac_table, source, predictors, k, Ghost(blocks)) {
            Ok(()) => {},
            Err(e) => {
                proof {
                    assert(rows.is_prefix_of(rows));
                    lemma_comps_prefix(h, index, blocks, k as int, rows, count as int);
                    lemma_encode_list_prefix(dc, ac, comps_out(h, index, blocks, k as int + 1), mcu_out(h, index, blocks), p0);
                }
                return Err(e);
            },
        }
        proof {
            let y = encode_list(dc, ac, rows, pk).unwrap().0;
            w0.lemma_wrote_trans(mid, *bits, written, y);
            written = written + y;
        }
        k = k + 1;
    }
    Ok(())
}

/// What the output scan holds so far: its bits and the DC predictors of the
/// frame components.
pub struct Emitted {
    pub bits: Seq<bool>,
    pub predictors: Seq<int>,
}

/// Writes output MCU `(dx, dy)` after `e`: the source MCU that the
/// operation maps there is decoded from the index, and the output blocks
/// made from it are encoded.
pub open spec fn write_mcu(
    h: HeaderModel,
    input: Seq<u8>,
    model: IndexModel,
    index: u8,
    dc: TableDef,
    ac: TableDef,
    e: Emitted,
    dx: int,
    dy: int,
) -> Result<Emitted, JpegError> {
    let (sx, sy) = source_position_of(index, dx, dy, mcu_columns_of(h), mcu_rows_of(h));
    match indexed_mcu(h, input, model, sy * mcu_columns_of(h) + sx) {
        Err(err) => Err(err),
        Ok(d) => match encode_list(dc, ac, mcu_out(h, index, d.blocks), e.predictors) {
            Err(err) => Err(err),
            Ok((b, p)) => Ok(Emitted { bits: e.bits + b, predictors: p }),
        },
    }
}

/// Writes the first `count` output MCUs of row `dy`, after `start`.
pub open spec fn write_row(
    h: HeaderModel,
    input: Seq<u8>,
    model: IndexModel,
    index: u8,
    dc: TableDef,
    ac: TableDef,
    start: Result<Emitted, JpegError>,
    dy: int,
    count: int,
) -> Result<Emitted, JpegError>
    decreases count,
{
    if count <= 0 {
        start
    } else {
        match write_row(h, input, model, index, dc, ac, start, dy, count - 1) {
            Err(e) => Err(e),
            Ok(e) => write_mcu(h, input, model, index, dc, ac, e, count - 1, dy),
        }
    }
}

/// The output grid of MCUs.
pub open spec fn output_grid(h: HeaderModel, index: u8) -> (int, int) {
    destination_extent(index, mcu_columns_of(h), mcu_rows_of(h))
}

/// Writes the first `count` rows of output MCUs.
pub open spec fn write_rows(
    h: HeaderModel,
    input: Seq<u8>,
    model: IndexModel,
    index: u8,
    dc: TableDef,
    ac: TableDef,
    count: int,
) -> Result<Emitted, JpegError>
    decreases count,
{
    if count <= 0 {
        Ok(Emitted { bits: Seq::<bool>::empty(), predictors: Seq::new(h.frame.components.len(), |i: int| 0) })
    } else {
        write_row(
            h,
            input,
            model,
            index,
            dc,
            ac,
            write_rows(h, input, model, index, dc, ac, count - 1),
            count - 1,
            output_grid(h, index).0,
        )
    }
}

/// The bytes of a scan's bits: the last byte completed with one bits, and
/// a zero stuffed after every `0xff`.
pub open spec fn scan_bytes(bits: Seq<bool>) -> Seq<u8> {
    stuff(pack(bits + ones(((8 - bits.len() % 8) % 8) as nat)))
}

/// The entropy-coded data of the output.
pub open spec fn coefficients_out(
    h: HeaderModel,
    input: Seq<u8>,
    model: IndexModel,
    index: u8,
    dc: TableDef,
    ac: TableDef,
) -> Result<Seq<u8>, JpegError> {
    match write_rows(h, input, model, index, dc, ac, output_grid(h, index).1) {
        Ok(e) => Ok(scan_bytes(e.bits)),
        Err(err) => Err(err),
    }
}

proof fn lemma_write_row_error(
    h: HeaderModel,
    input: Seq<u8>,
    model: IndexModel,
    index: u8,
    dc: TableDef,
    ac: TableDef,
    start: Result<Emitted, JpegError>,
    dy: int,
    a: int,
    b: int,
)
    requires
        0 <= a <= b,
        write_row(h, input, model, index, dc, ac, start, dy, a) is Err,
    ensures
        write_row(h, input, model, index, dc, ac, start, dy, b) == write_row(h, input, model, index, dc, ac, start, dy, a),
    decreases b - a,
{
    if a < b {
        lemma_write_row_error(h, input, model, index, dc, ac, start, dy, a, b - 1);
    }
}

proof fn lemma_write_rows_error(
    h: HeaderModel,
    input: Seq<u8>,
    model: IndexModel,
    index: u8,
    dc: TableDef,
    ac: TableDef,
    a: int,
    b: int,
)
    requires
        0 <= a <= b,
        write_rows(h, input, model, index, dc, ac, a) is Err,
    ensures
        write_rows(h, input, model, index, dc, ac, b) == write_rows(h, input, model, index, dc, ac, a),
    decreases b - a,
{
    if a < b {
        lemma_write_rows_error(h, input, model, index, dc, ac, a, b - 1);
        let start = write_rows(h, input, model, index, dc, ac, b - 1);
        if output_grid(h, index).0 >= 0 {
            lemma_write_row_error(h, input, model, index, dc, ac, start, b - 1, 0, output_grid(h, index).0);
        }
    }
}

/// Writes the entropy-coded data of the output after `output`: the output
/// MCUs row by row, each made from the source MCU that the operation maps
/// there, decoded on its own from the index.
pub fn write_coefficients(
    output: Vec<u8>,
    header: &Header,
    input: &[u8],
    index: &McuIndex,
    transform: Transform,
    output_tables: &[HuffmanTable],
) -> (r: Result<Vec<u8>, JpegError>)
    requires
        header_wf(header@),
        index@.states.len() >= mcu_count_of(header@),
        index@.predictors.len() >= mcu_count_of(header@) * header@.frame.components.len(),
        output_tables@.len() >= 2,
    ensures
        match coefficients_out(
            header@,
            input@,
            index@,
            transform.index(),
            table_def(output_tables@[0]),
            table_def(output_tables@[1]),
        ) {
            Ok(bytes) => r matches Ok(v) && v@ == output@ + bytes,
            Err(e) => r matches Err(f) && f == e,
        },
{
    let ghost h = header@;
    let ghost model = index@;
    let ghost t = transform.index();
    let ghost dc = table_def(output_tables@[0]);
    let ghost ac = table_def(output_tables@[1]);
    let _ = transform.get_index();
    proof {
        lemma_header_bounds(h);
    }
    let columns = header.mcu_columns();
    let rows = header.mcu_rows();
    let (out_columns, out_rows) = if transform.swaps_axes() {
        (rows, columns)
    } else {
        (columns, rows)
    };
    let n = header.frame.components.len();
    let block_values = 64 * header.scan.blocks_per_mcu;
    let mut source_blocks: Vec<i16> = Vec::new();
    let mut b: usize = 0;
    while b < block_values
        invariant
            0 <= b <= block_values,
            source_blocks@.len() == b,
        decreases block_values - b,
    {
        source_blocks.push(0);
        b = b + 1;
    }
    let mut source_predictors: Vec<i32> = Vec::new();
    let mut output_predictors: Vec<i32> = Vec::new();
    let mut c: usize = 0;
    while c < n
        invariant
            0 <= c <= n,
            source_predictors@.len() == c,
            output_predictors@.len() == c,
            forall|i: int| 0 <= i < c ==> #[trigger] output_predictors@[i] == 0,
        decreases n - c,
    {
        source_predictors.push(0);
        output_predictors.push(0);
        c = c + 1;
    }
    let dc_table = &output_tables[0];
    let ac_table = &output_tables[1];
    let mut bits = BitWriter::new(output);
    let ghost w0 = bits;
    let ghost mut e = Emitted { bits: Seq::<bool>::empty(), predictors: Seq::new(n as nat, |i: int| 0) };
    proof {
        assert(predictor_values(output_predictors@) =~= e.predictors);
        assert(write_rows(h, input@, model, t, dc, ac, 0) == Ok::<Emitted, JpegError>(e));
        w0.lemma_wrote_nothing();
    }
    let mut dy: usize = 0;
    while dy < out_rows
        invariant
            0 <= dy <= out_rows,
            h == header@,
            model == index@,
            t == transform.index(),
            t < 8,
            dc == table_def(*dc_table),
            ac == table_def(*ac_table),
            dc == table_def(output_tables@[0]),
            ac == table_def(output_tables@[1]),
            header_wf(h),
            model.states.len() >= mcu_count_of(h),
            model.predictors.len() >= mcu_count_of(h) * n,
            n == h.frame.components.len(),
            columns == mcu_columns_of(h),
            rows == mcu_rows_of(h),
            columns <= 8192,
            rows <= 8192,
            (out_columns as int, out_rows as int) == output_grid(h, t),
            source_predictors@.len() == n,
            source_blocks@.len() == 64 * h.scan.blocks_per_mcu,
            bits.wf(),
            w0.wrote(bits, e.bits),
            w0.output() == output@,
            w0.pending() == Seq::<bool>::empty(),
            write_rows(h, input@, model, t, dc, ac, dy as int) == Ok::<Emitted, JpegError>(e),
            predictor_values(output_predictors@) == e.predictors,
            output_predictors@.len() == n,
            predictors_fit(e.predictors),
        decreases out_rows - dy,
    {
        let ghost row_start = write_rows(h, input@, model, t, dc, ac, dy as int);
        let mut dx: usize = 0;
        while dx < out_columns
            invariant
                0 <= dy < out_rows,
                0 <= dx <= out_columns,
                h == header@,
                model == index@,
                t == transform.index(),
                t < 8,
                dc == table_def(*dc_table),
                ac == table_def(*ac_table),
                dc == table_def(output_tables@[0]),
                ac == table_def(output_tables@[1]),
                header_wf(h),
                model.states.len() >= mcu_count_of(h),
                model.predictors.len() >= mcu_count_of(h) * n,
                n == h.frame.components.len(),
                columns == mcu_columns_of(h),
                rows == mcu_rows_of(h),
                columns <= 8192,
                rows <= 8192,
                (out_columns as int, out_rows as int) == output_grid(h, t),
                source_predictors@.len() == n,
                source_blocks@.len() == 64 * h.scan.blocks_per_mcu,
                bits.wf(),
                w0.wrote(bits, e.bits),
                w0.output() == output@,
                w0.pending() == Seq::<bool>::empty(),
                row_start == write_rows(h, input@, model, t, dc, ac, dy as int),
                write_row(h, input@, model, t, dc, ac, row_start, dy as int, dx as int) == Ok::<Emitted, JpegError>(e),
                predictor_values(output_predictors@) == e.predictors,
                output_predictors@.len() == n,
                predictors_fit(e.predictors),
            decreases out_columns - dx,
        {
            proof {
                crate::transform::lemma_source_position_bijective(t, dx as int, dy as int, columns as int, rows as int);
            }
            let (sx, sy) = transform.source_position(dx, dy, columns, rows);
            proof {
                assert(sy * columns + sx < columns * rows) by (nonlinear_arith)
                    requires sx < columns, sy < rows;
                assert(0 <= sy * columns <= 8192 * 8192) by (nonlinear_arith)
                    requires sy < rows, rows <= 8192, columns <= 8192;
            }
            let source_mcu = sy * columns + sx;
            proof {
                assert((source_mcu + 1) * n <= columns * rows * n) by (nonlinear_arith)
                    requires source_mcu < columns * rows, 0 <= n;
                lemma_indexed_mcu_facts(h, input@, model, source_mcu as int);
            }
            let ghost before = e;
            match decode_indexed_mcu(header, input, index, source_mcu, &mut source_blocks, &mut source_predictors) {
                Ok(()) => {},
                Err(err) => {
                    proof {
                        assert(source_position_of(t, dx as int, dy as int, columns as int, rows as int) == (sx as int, sy as int));
                        assert(indexed_mcu(h, input@, model, source_mcu as int) == Err::<McuDecode, JpegError>(err));
                        assert(write_mcu(h, input@, model, t, dc, ac, before, dx as int, dy as int) == Err::<Emitted, JpegError>(err));
                        assert(write_row(h, input@, model, t, dc, ac, row_start, dy as int, dx as int + 1) == Err::<Emitted, JpegError>(err));
                        lemma_write_row_error(h, input@, model, t, dc, ac, row_start, dy as int, dx as int + 1, out_columns as int);
                        assert(write_rows(h, input@, model, t, dc, ac, dy as int + 1) == Err::<Emitted, JpegError>(err));
                        lemma_write_rows_error(h, input@, model, t, dc, ac, dy as int + 1, out_rows as int);
                    }
                    return Err(err);
                },
            }
            let ghost d = indexed_mcu(h, input@, model, source_mcu as int).unwrap();
            proof {
                lemma_flatten_pieces(d.blocks, 64);
                assert(source_blocks@ =~= source_blocks@.subrange(0, 64 * h.scan.blocks_per_mcu));
            }
            let ghost mid = bits;
            match write_mcu_blocks(&mut bits, header, transform, dc_table, ac_table, &source_blocks, &mut output_predictors, Ghost(d.blocks)) {
                Ok(()) => {},
                Err(err) => {
                    proof {
                        lemma_write_row_error(h, input@, model, t, dc, ac, row_start, dy as int, dx as int + 1, out_columns as int);
                        lemma_write_rows_error(h, input@, model, t, dc, ac, dy as int + 1, out_rows as int);
                    }
                    return Err(err);
                },
            }
            proof {
                let (y, q) = encode_list(dc, ac, mcu_out(h, t, d.blocks), before.predictors).unwrap();
                w0.lemma_wrote_trans(mid, bits, before.bits, y);
                e = Emitted { bits: before.bits + y, predictors: q };
            }
            dx = dx + 1;
        }
        dy = dy + 1;
    }
    let ghost full = e.bits;
    let ghost pending = bits.pending();
    let ghost written = bits.output();
    bits.finish();
    proof {
        let pad = ((8 - pending.len()) % 8) as nat;
        assert(Seq::<bool>::empty() + full =~= full);
        assert(pending == leftover(full));
        assert(pending.len() == full.len() % 8);
        lemma_pack_append(full, ones(pad));
        lemma_stuff_append(pack(full), pack(leftover(full) + ones(pad)));
        assert(bits.output() =~= output@ + scan_bytes(full));
    }
    Ok(bits.into_output())
}

/// The output JPEG: SOI, the header segments rewritten for the operation,
/// the re-encoded scan, EOI.
pub open spec fn transformed_out(h: HeaderModel, input: Seq<u8>, model: IndexModel, index: u8) -> Result<Seq<u8>, JpegError> {
    match headers_out(h.segments, geometry_of(index).0, seq![output_dc_table(), output_ac_table()]) {
        Err(e) => Err(e),
        Ok(head) => match coefficients_out(h, input, model, index, output_dc_table(), output_ac_table()) {
            Err(e) => Err(e),
            Ok(scan) => Ok(seq![0xffu8, SOI] + head + scan + seq![0xffu8, EOI]),
        },
    }
}

/// Writes the transformed JPEG.
pub fn write_transformed(header: &Header, input: &[u8], index: &McuIndex, transform: Transform) -> (r: Result<
    Vec<u8>,
    JpegError,
>)
    requires
        header_wf(header@),
        segments_writable(header@.segments, geometry_of(transform.index()).0),
        index@.states.len() >= mcu_count_of(header@),
        index@.predictors.len() >= mcu_count_of(header@) * header@.frame.components.len(),
    ensures
        match transformed_out(header@, input@, index@, transform.index()) {
            Ok(bytes) => r matches Ok(v) && v@ == bytes,
            Err(e) => r matches Err(f) && f == e,
        },
{
    let tables = match output_huffman_tables() {
        Ok(t) => t,
        Err(e) => {
            return Err(e);
        },
    };
    let mut output: Vec<u8> = Vec::new();
    output.push(0xff);
    output.push(SOI);
    proof {
        assert(table_defs(tables@) =~= seq![output_dc_table(), output_ac_table()]);
    }
    match write_headers(&mut output, header, transform, tables.as_slice()) {
        Ok(()) => {},
        Err(e) => {
            return Err(e);
        },
    }
    let mut output = match write_coefficients(output, header, input, index, transform, tables.as_slice()) {
        Ok(v) => v,
        Err(e) => {
            return Err(e);
        },
    };
    output.push(0xff);
    output.push(EOI);
    proof {
        let head = headers_out(header@.segments, geometry_of(transform.index()).0, seq![output_dc_table(), output_ac_table()]).unwrap();
        let scan = coefficients_out(header@, input@, index@, transform.index(), output_dc_table(), output_ac_table()).unwrap();
        assert(output@ =~= seq![0xffu8, SOI] + head + scan + seq![0xffu8, EOI]);
    }
    Ok(output)
}

/// Decodes blocks one after the other from `bits`, the `i`-th with the DC
/// predictor of frame component `components[i]`: the blocks, the bits
/// used, and the predictors after them.
pub open spec fn decode_list(
    dc: TableDef,
    ac: TableDef,
    components: Seq<int>,
    bits: Seq<bool>,
    end: JpegError,
    predictors: Seq<int>,
) -> Result<(Seq<Seq<i16>>, int, Seq<int>), JpegError>
    decreases components.len(),
{
    if components.len() == 0 {
        Ok((Seq::<Seq<i16>>::empty(), 0, predictors))
    } else {
        match decode_list(dc, ac, components.drop_last(), bits, end, predictors) {
            Err(e) => Err(e),
            Ok((blocks, used, p)) => {
                let c = components.last();
                match decode_block_bits(dc, ac, bits.skip(used), end, p[c]) {
                    Err(e) => Err(e),
                    Ok((block, u, q)) => Ok((blocks.push(block), used + u, p.update(c, q))),
                }
            },
        }
    }
}

/// The components of a list of blocks.
pub open spec fn list_components(list: Seq<(int, Seq<i16>)>) -> Seq<int> {
    list.map_values(|x: (int, Seq<i16>)| x.0)
}

/// The blocks of a list of blocks.
pub open spec fn list_blocks(list: Seq<(int, Seq<i16>)>) -> Seq<Seq<i16>> {
    list.map_values(|x: (int, Seq<i16>)| x.1)
}

/// The scan law: the bits that encoding blocks one after the other gives
/// decode, whatever follows them, into the same blocks, use exactly those
/// bits, and leave the same DC predictors. Re-encoding loses nothing.
pub proof fn lemma_scan_round_trip(
    dc: TableDef,
    ac: TableDef,
    list: Seq<(int, Seq<i16>)>,
    predictors: Seq<int>,
    rest: Seq<bool>,
    end: JpegError,
)
    requires
        table_valid(dc.counts, dc.symbols),
        table_valid(ac.counts, ac.symbols),
        forall|i: int| 0 <= i < list.len() ==> (#[trigger] list[i]).1.len() == 64,
        encode_list(dc, ac, list, predictors) is Ok,
    ensures
        ({
            let (bits, q) = encode_list(dc, ac, list, predictors).unwrap();
            decode_list(dc, ac, list_components(list), bits + rest, end, predictors) == Ok::<
                (Seq<Seq<i16>>, int, Seq<int>),
                JpegError,
            >((list_blocks(list), bits.len() as int, q))
        }),
    decreases list.len(),
{
    if list.len() == 0 {
        assert(list =~= Seq::<(int, Seq<i16>)>::empty());
        lemma_encode_list_empty(dc, ac, predictors);
        assert(list_components(list) =~= Seq::<int>::empty());
        assert(list_blocks(list) =~= Seq::<Seq<i16>>::empty());
    } else {
        let front = list.drop_last();
        let x = list.last();
        assert(front.push(x) =~= list);
        lemma_encode_list_push(dc, ac, front, x, predictors);
        if encode_list(dc, ac, front, predictors) is Err {
            assert(false);
        }
        let (bits0, q0) = encode_list(dc, ac, front, predictors).unwrap();
        let y = block_bits(dc, ac, x.1, q0[x.0]).unwrap();
        assert forall|i: int| 0 <= i < front.len() implies (#[trigger] front[i]).1.len() == 64 by {
            assert(front[i] == list[i]);
        }
        lemma_scan_round_trip(dc, ac, front, predictors, y + rest, end);
        let all = bits0 + y + rest;
        assert(bits0 + (y + rest) =~= all);
        assert(list_components(list).drop_last() =~= list_components(front));
        assert(list_components(list).last() == x.0);
        assert(all.skip(bits0.len() as int) =~= y + rest);
        assert(x.1.len() == 64) by {
            assert(list[list.len() - 1] == x);
        }
        crate::block::lemma_block_round_trip(dc, ac, x.1, q0[x.0], rest, end);
        assert(list_blocks(list) =~= list_blocks(front).push(x.1));
        assert(decode_list(dc, ac, list_components(front), all, end, predictors) == Ok::<
            (Seq<Seq<i16>>, int, Seq<int>),
            JpegError,
        >((list_blocks(front), bits0.len() as int, q0)));
        assert(decode_block_bits(dc, ac, all.skip(bits0.len() as int), end, q0[x.0]) == Ok::<
            (Seq<i16>, int, int),
            JpegError,
        >((x.1, y.len() as int, x.1[0] as int)));
        assert(encode_list(dc, ac, list, predictors) == Ok::<(Seq<bool>, Seq<int>), JpegError>(
            (bits0 + y, q0.update(x.0, x.1[0] as int)),
        ));
        assert(all == (bits0 + y) + rest);
    }
}

/// The output blocks of output MCU `(dx, dy)`: those made from the source
/// MCU that the operation maps there, decoded from the index; none where
/// that MCU does not decode.
pub open spec fn mcu_list(h: HeaderModel, input: Seq<u8>, model: IndexModel, index: u8, dx: int, dy: int) -> Seq<
    (int, Seq<i16>),
> {
    let (sx, sy) = source_position_of(index, dx, dy, mcu_columns_of(h), mcu_rows_of(h));
    match indexed_mcu(h, input, model, sy * mcu_columns_of(h) + sx) {
        Ok(d) => mcu_out(h, index, d.blocks),
        Err(_) => Seq::<(int, Seq<i16>)>::empty(),
    }
}

/// The output blocks of the first `count` output MCUs of row `dy`.
pub open spec fn row_list(h: HeaderModel, input: Seq<u8>, model: IndexModel, index: u8, dy: int, count: int) -> Seq<
    (int, Seq<i16>),
>
    decreases count,
{
    if count <= 0 {
        Seq::<(int, Seq<i16>)>::empty()
    } else {
        row_list(h, input, model, index, dy, count - 1) + mcu_list(h, input, model, index, count - 1, dy)
    }
}

/// The output blocks of the first `count` rows of output MCUs.
pub open spec fn rows_list(h: HeaderModel, input: Seq<u8>, model: IndexModel, index: u8, count: int) -> Seq<
    (int, Seq<i16>),
>
    decreases count,
{
    if count <= 0 {
        Seq::<(int, Seq<i16>)>::empty()
    } else {
        rows_list(h, input, model, index, count - 1) + row_list(h, input, model, index, count - 1, output_grid(h, index).0)
    }
}

/// Every output block of the image, in the order the output stores them.
pub open spec fn output_blocks(h: HeaderModel, input: Seq<u8>, model: IndexModel, index: u8) -> Seq<(int, Seq<i16>)> {
    rows_list(h, input, model, index, output_grid(h, index).1)
}

/// Every block of a list has 64 coefficients.
pub open spec fn blocks_sized(list: Seq<(int, Seq<i16>)>) -> bool {
    forall|i: int| 0 <= i < list.len() ==> (#[trigger] list[i]).1.len() == 64
}

proof fn lemma_blocks_sized_append(a: Seq<(int, Seq<i16>)>, b: Seq<(int, Seq<i16>)>)
    requires
        blocks_sized(a),
        blocks_sized(b),
    ensures
        blocks_sized(a + b),
{
    assert forall|i: int| 0 <= i < (a + b).len() implies (#[trigger] (a + b)[i]).1.len() == 64 by {
        if i < a.len() {
            assert((a + b)[i] == a[i]);
        } else {
            assert((a + b)[i] == b[i - a.len()]);
        }
    }
}

proof fn lemma_rows_out_sized(h: HeaderModel, index: u8, blocks: Seq<Seq<i16>>, k: int, r: int)
    ensures
        blocks_sized(rows_out(h, index, blocks, k, r)),
    decreases r,
{
    if r > 0 {
        lemma_rows_out_sized(h, index, blocks, k, r - 1);
        let row = row_out(h, index, blocks, k, r - 1, output_extent(h, index, k).0);
        assert forall|i: int| 0 <= i < row.len() implies (#[trigger] row[i]).1.len() == 64 by {}
        lemma_blocks_sized_append(rows_out(h, index, blocks, k, r - 1), row);
    }
}

pub proof fn lemma_comps_out_sized(h: HeaderModel, index: u8, blocks: Seq<Seq<i16>>, c: int)
    ensures
        blocks_sized(comps_out(h, index, blocks, c)),
    decreases c,
{
    if c > 0 {
        lemma_comps_out_sized(h, index, blocks, c - 1);
        lemma_rows_out_sized(h, index, blocks, c - 1, output_extent(h, index, c - 1).1);
        lemma_blocks_sized_append(
            comps_out(h, index, blocks, c - 1),
            rows_out(h, index, blocks, c - 1, output_extent(h, index, c - 1).1),
        );
    }
}

proof fn lemma_row_list_sized(h: HeaderModel, input: Seq<u8>, model: IndexModel, index: u8, dy: int, count: int)
    ensures
        blocks_sized(row_list(h, input, model, index, dy, count)),
    decreases count,
{
    if count > 0 {
        lemma_row_list_sized(h, input, model, index, dy, count - 1);
        let (sx, sy) = source_position_of(index, count - 1, dy, mcu_columns_of(h), mcu_rows_of(h));
        if let Ok(d) = indexed_mcu(h, input, model, sy * mcu_columns_of(h) + sx) {
            lemma_comps_out_sized(h, index, d.blocks, h.scan.components.len() as int);
        }
        lemma_blocks_sized_append(
            row_list(h, input, model, index, dy, count - 1),
            mcu_list(h, input, model, index, count - 1, dy),
        );
    }
}

proof fn lemma_rows_list_sized(h: HeaderModel, input: Seq<u8>, model: IndexModel, index: u8, count: int)
    ensures
        blocks_sized(rows_list(h, input, model, index, count)),
    decreases count,
{
    if count > 0 {
        lemma_rows_list_sized(h, input, model, index, count - 1);
        lemma_row_list_sized(h, input, model, index, count - 1, output_grid(h, index).0);
        lemma_blocks_sized_append(
            rows_list(h, input, model, index, count - 1),
            row_list(h, input, model, index, count - 1, output_grid(h, index).0),
        );
    }
}

proof fn lemma_write_row_start_error(
    h: HeaderModel,
    input: Seq<u8>,
    model: IndexModel,
    index: u8,
    dc: TableDef,
    ac: TableDef,
    start: Result<Emitted, JpegError>,
    dy: int,
    count: int,
)
    requires
        start is Err,
    ensures
        write_row(h, input, model, index, dc, ac, start, dy, count) == start,
    decreases count,
{
    if count > 0 {
        lemma_write_row_start_error(h, input, model, index, dc, ac, start, dy, count - 1);
    }
}

/// Writing a row of output MCUs encodes their output blocks after those
/// encoded before.
proof fn lemma_write_row_encodes(
    h: HeaderModel,
    input: Seq<u8>,
    model: IndexModel,
    index: u8,
    dc: TableDef,
    ac: TableDef,
    start: Emitted,
    before: Seq<(int, Seq<i16>)>,
    zeros: Seq<int>,
    dy: int,
    count: int,
)
    requires
        encode_list(dc, ac, before, zeros) == Ok::<(Seq<bool>, Seq<int>), JpegError>((start.bits, start.predictors)),
        write_row(h, input, model, index, dc, ac, Ok(start), dy, count) is Ok,
    ensures
        ({
            let e = write_row(h, input, model, index, dc, ac, Ok(start), dy, count).unwrap();
            encode_list(dc, ac, before + row_list(h, input, model, index, dy, count), zeros) == Ok::<
                (Seq<bool>, Seq<int>),
                JpegError,
            >((e.bits, e.predictors))
        }),
    decreases count,
{
    if count <= 0 {
        assert(before + row_list(h, input, model, index, dy, count) =~= before);
    } else {
        let previous = write_row(h, input, model, index, dc, ac, Ok(start), dy, count - 1);
        if previous is Err {
            assert(write_row(h, input, model, index, dc, ac, Ok(start), dy, count) == previous);
        }
        lemma_write_row_encodes(h, input, model, index, dc, ac, start, before, zeros, dy, count - 1);
        let e1 = previous.unwrap();
        let front = before + row_list(h, input, model, index, dy, count - 1);
        let items = mcu_list(h, input, model, index, count - 1, dy);
        lemma_encode_list_append(dc, ac, front, items, zeros);
        assert(front + items =~= before + row_list(h, input, model, index, dy, count));
    }
}

/// Writing the output's rows of MCUs encodes all their output blocks, in
/// order, from zero DC predictors.
proof fn lemma_write_rows_encodes(
    h: HeaderModel,
    input: Seq<u8>,
    model: IndexModel,
    index: u8,
    dc: TableDef,
    ac: TableDef,
    count: int,
)
    requires
        write_rows(h, input, model, index, dc, ac, count) is Ok,
    ensures
        ({
            let e = write_rows(h, input, model, index, dc, ac, count).unwrap();
            encode_list(dc, ac, rows_list(h, input, model, index, count), Seq::new(h.frame.components.len(), |i: int| 0))
                == Ok::<(Seq<bool>, Seq<int>), JpegError>((e.bits, e.predictors))
        }),
    decreases count,
{
    let zeros = Seq::new(h.frame.components.len(), |i: int| 0);
    if count <= 0 {
        lemma_encode_list_empty(dc, ac, zeros);
    } else {
        let previous = write_rows(h, input, model, index, dc, ac, count - 1);
        if previous is Err {
            lemma_write_row_start_error(h, input, model, index, dc, ac, previous, count - 1, output_grid(h, index).0);
        }
        lemma_write_rows_encodes(h, input, model, index, dc, ac, count - 1);
        lemma_write_row_encodes(
            h,
            input,
            model,
            index,
            dc,
            ac,
            previous.unwrap(),
            rows_list(h, input, model, index, count - 1),
            zeros,
            count - 1,
            output_grid(h, index).0,
        );
    }
}

/// The output law: the entropy-coded data that the transform writes, read
/// up to the EOI that follows it, decodes block after block with the
/// output's tables, from zero DC predictors, into exactly the output
/// blocks: for each output MCU in turn, the transformed blocks of the
/// source MCU that the operation maps there. Nothing is lost.
pub proof fn lemma_output_scan_decodes(h: HeaderModel, input: Seq<u8>, model: IndexModel, index: u8)
    requires
        coefficients_out(h, input, model, index, output_dc_table(), output_ac_table()) is Ok,
    ensures
        ({
            let data = coefficients_out(h, input, model, index, output_dc_table(), output_ac_table()).unwrap()
                + seq![0xffu8, EOI];
            let blocks = output_blocks(h, input, model, index);
            decode_list(
                output_dc_table(),
                output_ac_table(),
                list_components(blocks),
                bytes_to_bits(entropy_bytes(data, 0)),
                entropy_end(data, 0),
                Seq::new(h.frame.components.len(), |i: int| 0),
            ) matches Ok((decoded, _, _)) && decoded == list_blocks(blocks)
        }),
{
    let dc = output_dc_table();
    let ac = output_ac_table();
    let zeros = Seq::new(h.frame.components.len(), |i: int| 0);
    let rows = output_grid(h, index).1;
    let e = write_rows(h, input, model, index, dc, ac, rows).unwrap();
    lemma_write_rows_encodes(h, input, model, index, dc, ac, rows);
    lemma_rows_list_sized(h, input, model, index, rows);
    vstd::arithmetic::power2::lemma2_to64();
    lemma_single_length_valid(dc.counts, dc.symbols, 3);
    lemma_single_length_valid(ac.counts, ac.symbols, 7);
    let pad = ((8 - e.bits.len() % 8) % 8) as nat;
    let full = e.bits + ones(pad);
    assert(full.len() % 8 == 0);
    let tail = seq![0xffu8, EOI];
    lemma_entropy_round_trip(Seq::<u8>::empty(), full, tail);
    let data = scan_bytes(e.bits) + tail;
    assert(Seq::<u8>::empty() + stuff(pack(full)) + tail =~= data);
    let after = stuff(pack(full)).len() as int;
    assert(entropy_bytes(tail, 0) =~= Seq::<u8>::empty());
    assert(bytes_to_bits(Seq::<u8>::empty()) =~= Seq::<bool>::empty());
    assert(bytes_to_bits(entropy_bytes(data, 0)) =~= e.bits + ones(pad));
    lemma_scan_round_trip(dc, ac, output_blocks(h, input, model, index), zeros, ones(pad), entropy_end(data, 0));
}

/// A component with its sampling factors exchanged.
pub open spec fn swapped_component(c: Component) -> Component {
    Component { id: c.id, horizontal_sampling: c.vertical_sampling, vertical_sampling: c.horizontal_sampling }
}

pub proof fn lemma_swapped_maxima(components: Seq<Component>, swapped: Seq<Component>)
    requires
        swapped.len() == components.len(),
        forall|i: int| 0 <= i < components.len() ==> #[trigger] swapped[i] == swapped_component(components[i]),
    ensures
        max_horizontal(swapped) == max_vertical(components),
        max_vertical(swapped) == max_horizontal(components),
    decreases components.len(),
{
    if components.len() > 0 {
        let a = components.drop_last();
        let b = swapped.drop_last();
        assert forall|i: int| 0 <= i < a.len() implies #[trigger] b[i] == swapped_component(a[i]) by {
            assert(b[i] == swapped[i]);
            assert(a[i] == components[i]);
        }
        lemma_swapped_maxima(a, b);
        assert(swapped.last() == swapped[swapped.len() - 1]);
    }
}

/// The frame law: rewriting a SOF0 segment for an operation that swaps the
/// axes gives the frame of the transposed image: width and height
/// exchanged, and so each component's horizontal and vertical sampling.
pub proof fn lemma_frame_rewrite_transposes(data: Seq<u8>)
    requires
        frame_of(data) is Ok,
    ensures
        ({
            let f = frame_of(data).unwrap();
            frame_of(frame_swapped(data, data[5] as int)) == Ok::<FrameModel, JpegError>(
                FrameModel {
                    width: f.height,
                    height: f.width,
                    max_horizontal_sampling: f.max_vertical_sampling,
                    max_vertical_sampling: f.max_horizontal_sampling,
                    components: f.components.map_values(|c: Component| swapped_component(c)),
                },
            )
        }),
{
    let f = frame_of(data).unwrap();
    let out = frame_swapped(data, data[5] as int);
    assert(out[0] == data[0]);
    assert(out[5] == data[5]);
    let n = data[5] as int;
    let components = frame_components(data);
    let swapped = frame_components(out);
    let expected = f.components.map_values(|c: Component| swapped_component(c));
    assert forall|k: int| 0 <= k < n implies #[trigger] swapped[k] == swapped_component(components[k]) by {
        let j = 7 + 3 * k;
        assert((6 + 3 * k - 7) % 3 == 2);
        assert(out[6 + 3 * k] == data[6 + 3 * k]);
        assert((j - 7) % 3 == 0 && (j - 7) / 3 == k);
        let b = data[j];
        assert(out[j] == swap_nibbles(b));
        assert((((b >> 4u8) | (b << 4u8)) >> 4u8) == b & 0x0fu8 && (((b >> 4u8) | (b << 4u8)) & 0x0fu8) == b >> 4u8)
            by (bit_vector);
    }
    assert(swapped =~= expected);
    if has_zero_sampling(swapped) {
        let k = choose|k: int|
            #![trigger swapped[k]]
            0 <= k < swapped.len() && (swapped[k].horizontal_sampling == 0 || swapped[k].vertical_sampling == 0);
        assert(components[k].horizontal_sampling == 0 || components[k].vertical_sampling == 0);
        assert(has_zero_sampling(components));
    }
    lemma_swapped_maxima(components, swapped);
}

/// Rewriting DQT data from `position` on leaves the bytes before it and
/// the precision byte at it as they were.
proof fn lemma_quant_rewrite_keeps(data: Seq<u8>, position: int, out: Seq<u8>)
    requires
        quant_rewrite(data, position, out) is Ok,
        out.len() == data.len(),
        0 <= position,
    ensures
        quant_rewrite(data, position, out).unwrap().len() == out.len(),
        forall|j: int|
            0 <= j <= position && j < data.len() ==> #[trigger] quant_rewrite(data, position, out).unwrap()[j]
                == out[j],
    decreases data.len() - position,
{
    if position < data.len() {
        let precision = data[position] >> 4u8;
        let p = position + 1;
        let size = precision + 1;
        let next = with_transposed(out, data, p, size as int, 64);
        lemma_quant_rewrite_keeps(data, p + 64 * size, next);
    }
}

/// The tables that the DQT data from `position` on holds are, in `result`,
/// transposed, behind the same precision bytes.
pub open spec fn tables_transposed(data: Seq<u8>, result: Seq<u8>, position: int) -> bool
    decreases data.len() - position,
{
    if position < 0 || position >= data.len() {
        true
    } else {
        let precision = data[position] >> 4u8;
        let p = position + 1;
        let size = precision + 1;
        if precision > 1 || data.len() - p < 64 * size {
            true
        } else {
            &&& result[position] == data[position]
            &&& quant_natural(result, p, size as int) == transposed_table(quant_natural(data, p, size as int))
            &&& tables_transposed(data, result, p + 64 * size)
        }
    }
}

/// Storing a table's transposed values in zig-zag order, then reading
/// them back, gives the transposed table.
proof fn lemma_transposed_bytes_read_back(data: Seq<u8>, result: Seq<u8>, p: int, size: int)
    requires
        size == 1 || size == 2,
        0 <= p,
        p + 64 * size <= data.len() == result.len(),
        forall|j: int| p <= j < p + 64 * size ==> #[trigger] result[j] == transposed_quant_byte(data, p, size, j - p),
    ensures
        quant_natural(result, p, size) == transposed_table(quant_natural(data, p, size)),
{
    crate::block::lemma_zigzag_permutation();
    let natural = quant_natural(data, p, size);
    let t = transposed_table(natural);
    assert forall|n: int| 0 <= n < 64 implies #[trigger] quant_natural(result, p, size)[n] == t[n] by {
        let i = zigzag_position(n);
        assert(zigzag_at(i) == n);
        if size == 1 {
            let m = (n % 8) * 8 + n / 8;
            assert(0 <= m < 64);
            assert(natural[m] == data[p + zigzag_position(m)] as u16);
            assert(t[n] == natural[m]);
            assert(result[p + i] == t[n] as u8);
        } else {
            assert(result[p + 2 * i] == transposed_quant_byte(data, p, size, 2 * i));
            assert(result[p + 2 * i + 1] == transposed_quant_byte(data, p, size, 2 * i + 1));
            assert((2 * i) / 2 == i && (2 * i + 1) / 2 == i && (2 * i) % 2 == 0 && (2 * i + 1) % 2 == 1);
            let v = t[n];
            assert(((v / 256) as u8) as int * 256 + ((v % 256) as u8) as int == v as int);
        }
    }
    assert(quant_natural(result, p, size) =~= t);
}

/// The first rewrite of DQT data transposes every table it holds.
proof fn lemma_quant_rewrite_transposes(data: Seq<u8>, position: int, out: Seq<u8>)
    requires
        quant_rewrite(data, position, out) is Ok,
        out.len() == data.len(),
        0 <= position,
        forall|j: int| position <= j < data.len() ==> #[trigger] out[j] == data[j],
    ensures
        tables_transposed(data, quant_rewrite(data, position, out).unwrap(), position),
    decreases data.len() - position,
{
    if position < data.len() {
        let precision = data[position] >> 4u8;
        let p = position + 1;
        let size = (precision + 1) as int;
        let after = p + 64 * size;
        let next = with_transposed(out, data, p, size, 64);
        let result = quant_rewrite(data, position, out).unwrap();
        assert(result == quant_rewrite(data, after, next).unwrap());
        lemma_quant_rewrite_keeps(data, after, next);
        assert forall|j: int| after <= j < data.len() implies #[trigger] next[j] == data[j] by {}
        lemma_quant_rewrite_transposes(data, after, next);
        assert(result[position] == next[position]);
        assert forall|j: int| p <= j < p + 64 * size implies #[trigger] result[j] == transposed_quant_byte(
            data,
            p,
            size,
            j - p,
        ) by {
            assert(result[j] == next[j]);
        }
        lemma_transposed_bytes_read_back(data, result, p, size);
    }
}

/// Whether rewriting DQT data succeeds does not depend on what is written.
proof fn lemma_quant_rewrite_ok(data: Seq<u8>, position: int, a: Seq<u8>, b: Seq<u8>)
    requires
        quant_rewrite(data, position, a) is Ok,
    ensures
        quant_rewrite(data, position, b) is Ok,
    decreases data.len() - position,
{
    if 0 <= position < data.len() {
        let precision = data[position] >> 4u8;
        let p = position + 1;
        let size = (precision + 1) as int;
        lemma_quant_rewrite_ok(data, p + 64 * size, with_transposed(a, data, p, size, 64), with_transposed(b, data, p, size, 64));
    }
}

/// Rewriting data whose tables are the transposes of those of `data` gives
/// back `data`.
proof fn lemma_quant_rewrite_restores(data: Seq<u8>, result: Seq<u8>, position: int, out: Seq<u8>)
    requires
        quant_rewrite(data, position, data) is Ok,
        tables_transposed(data, result, position),
        result.len() == data.len(),
        out.len() == data.len(),
        0 <= position,
        forall|j: int| position <= j < data.len() ==> #[trigger] out[j] == result[j],
    ensures
        quant_rewrite(result, position, out) is Ok,
        forall|j: int|
            0 <= j < data.len() ==> #[trigger] quant_rewrite(result, position, out).unwrap()[j] == if j < position {
                out[j]
            } else {
                data[j]
            },
    decreases data.len() - position,
{
    if position < data.len() {
        crate::block::lemma_zigzag_permutation();
        let precision = data[position] >> 4u8;
        let p = position + 1;
        let size = (precision + 1) as int;
        let after = p + 64 * size;
        assert(result[position] == data[position]);
        lemma_quant_rewrite_ok(data, after, with_transposed(data, data, p, size, 64), data);
        let next = with_transposed(out, result, p, size, 64);
        lemma_quant_rewrite_restores(data, result, after, next);
        let x = quant_rewrite(result, position, out).unwrap();
        assert(x == quant_rewrite(result, after, next).unwrap());
        lemma_transposed_twice_bytes(data, result, p, size);
        assert forall|j: int| 0 <= j < data.len() implies #[trigger] x[j] == if j < position {
            out[j]
        } else {
            data[j]
        } by {
            if p <= j < after {
                assert(next[j] == transposed_quant_byte(result, p, size, j - p));
            }
        }
    }
}

/// The bytes of a table transposed twice are the table's bytes.
proof fn lemma_transposed_twice_bytes(data: Seq<u8>, result: Seq<u8>, p: int, size: int)
    requires
        size == 1 || size == 2,
        0 <= p,
        p + 64 * size <= data.len(),
        quant_natural(result, p, size) == transposed_table(quant_natural(data, p, size)),
    ensures
        forall|off: int| 0 <= off < 64 * size ==> #[trigger] transposed_quant_byte(result, p, size, off) == data[p + off],
{
    let natural = quant_natural(data, p, size);
    crate::transform::lemma_transpose_involution(natural);
    assert(transposed_table(quant_natural(result, p, size)) == natural);
    assert forall|off: int| 0 <= off < 64 * size implies #[trigger] transposed_quant_byte(result, p, size, off)
        == data[p + off] by {
        lemma_table_byte(data, result, p, size, off);
    }
}

/// One byte of a table transposed twice.
proof fn lemma_table_byte(data: Seq<u8>, result: Seq<u8>, p: int, size: int, off: int)
    requires
        size == 1 || size == 2,
        0 <= p,
        p + 64 * size <= data.len(),
        0 <= off < 64 * size,
        transposed_table(quant_natural(result, p, size)) == quant_natural(data, p, size),
    ensures
        transposed_quant_byte(result, p, size, off) == data[p + off],
{
    let natural = quant_natural(data, p, size);
    let i = if size == 1 { off } else { off / 2 };
    assert(0 <= i < 64);
    let n = zigzag_at(i);
    assert(0 <= n < 64 && zigzag_position(n) == i) by {
        crate::block::lemma_zigzag_permutation();
    }
    assert(natural[n] == quant_value(data, p, size, i));
    if size == 2 {
        let v = natural[n];
        assert(v as int == data[p + 2 * i] as int * 256 + data[p + 2 * i + 1] as int);
    }
}

/// The quantization law: rewriting the data of a DQT segment for an
/// operation that swaps the axes, and rewriting the result again, gives
/// back the data: transposing the quantization tables twice restores them.
pub proof fn lemma_quant_rewrite_involution(data: Seq<u8>)
    requires
        quant_rewrite(data, 0, data) is Ok,
    ensures
        quant_rewrite(quant_rewrite(data, 0, data).unwrap(), 0, quant_rewrite(data, 0, data).unwrap()) == Ok::<
            Seq<u8>,
            JpegError,
        >(data),
{
    let result = quant_rewrite(data, 0, data).unwrap();
    lemma_quant_rewrite_keeps(data, 0, data);
    lemma_quant_rewrite_transposes(data, 0, data);
    lemma_quant_rewrite_restores(data, result, 0, result);
    lemma_quant_rewrite_keeps(result, 0, result);
    assert(quant_rewrite(result, 0, result).unwrap() =~= data);
}

/// Rewriting SOF0 data for an operation that swaps the axes, twice, gives
/// back the data.
pub proof fn lemma_frame_rewrite_involution(data: Seq<u8>)
    requires
        data.len() >= 6,
    ensures
        frame_swapped(frame_swapped(data, data[5] as int), data[5] as int) == data,
{
    let once = frame_swapped(data, data[5] as int);
    let twice = frame_swapped(once, data[5] as int);
    assert forall|j: int| 0 <= j < data.len() implies #[trigger] twice[j] == data[j] by {
        let b = data[j];
        assert((((b >> 4u8) | (b << 4u8)) >> 4u8) | (((b >> 4u8) | (b << 4u8)) << 4u8) == b) by (bit_vector);
    }
    assert(twice =~= data);
}

/// The block-placement law: on the whole block grid of a scan component
/// (the blocks of all its MCUs side by side), the output block at every
/// position is the transformed source block at the position that
/// `source_position` gives on that whole grid. The writer takes it from the
/// source MCU that the operation maps to the output MCU (`write_mcu`), at
/// the place inside that MCU that `out_block` reads, so blocks move within
/// and across MCUs exactly as the pixels they hold.
pub proof fn lemma_block_placement(
    h: HeaderModel,
    op: u8,
    blocks: Seq<Seq<i16>>,
    k: int,
    dx: int,
    dy: int,
    oh: int,
    ov: int,
)
    requires
        header_wf(h),
        op < 8,
        0 <= k < h.scan.components.len(),
        0 <= dx < output_grid(h, op).0,
        0 <= dy < output_grid(h, op).1,
        0 <= oh < output_extent(h, op, k).0,
        0 <= ov < output_extent(h, op, k).1,
    ensures
        ({
            let sc = h.scan.components[k];
            let c = h.frame.components[sc.frame_index as int];
            let ch = c.horizontal_sampling as int;
            let cv = c.vertical_sampling as int;
            let (och, ocv) = output_extent(h, op, k);
            let (gx, gy) = source_position_of(
                op,
                dx * och + oh,
                dy * ocv + ov,
                mcu_columns_of(h) * ch,
                mcu_rows_of(h) * cv,
            );
            let (sx, sy) = source_position_of(op, dx, dy, mcu_columns_of(h), mcu_rows_of(h));
            &&& sx * ch <= gx < sx * ch + ch
            &&& sy * cv <= gy < sy * cv + cv
            &&& out_block(h, op, blocks, k, oh, ov) == (
                sc.frame_index as int,
                transformed_i16(op, blocks[sc.first_block + (gy - sy * cv) * ch + (gx - sx * ch)]),
            )
        }),
{
    let sc = h.scan.components[k];
    let c = h.frame.components[sc.frame_index as int];
    let ch = c.horizontal_sampling as int;
    let cv = c.vertical_sampling as int;
    assert(1 <= ch && 1 <= cv);
    crate::transform::lemma_grid_split(op, dx, dy, oh, ov, mcu_columns_of(h), mcu_rows_of(h), ch, cv);
}

} // verus!
