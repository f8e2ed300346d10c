//! Reading back what is written: bits, Huffman codes, blocks and table
//! definitions that the writer puts out read back as they were; the JPEG
//! that the transform writes parses into the header of the transformed
//! image, the library's own index decodes its scan into the transformed
//! blocks, and the inverse operation on it writes what the identity writes.
use vstd::prelude::*;
use crate::error::JpegError;
use crate::parser::{
    be16, blocks_before, empty_progress, header_of, header_segments, lemma_marker_search_advances, marker_search,
    position_from, scan_of, segment_effect, selected, selectors_known, Component, FrameModel, HeaderModel,
    HeaderProgress, ScanComponent, ScanModel, SegmentModel, DHT, DQT, EOI, SOF0, SOI, SOS,
};
use crate::entropy::{advance, lemma_advance, scan_end, state_bits, step, ReaderState, codes_before, huffman_decode, lemma_huffman_round_trip, symbol_code, table_valid, BitWriter, HuffmanDecoded, TableDef};
use crate::bits::{
    bits_number, bits_of, bytes_to_bits, entropy_bytes, entropy_end, lemma_entropy_round_trip, lemma_entropy_tail,
    lemma_number_of_bits, lemma_pack_append, lemma_stuff_append, leftover, ones, pack, stuff, stuffed_byte,
};
use crate::block::{block_bits, decode_block_bits, lemma_block_round_trip};
use crate::scan::{
    index_model, tables_known,
    block_slots, component_blocks, component_run, decode_mcu_bits, decode_slots, find_table, find_table_from, header_wf,
    indexed_mcu, index_walk, lemma_header_bounds, lemma_indexed_mcu_facts, scan_start, scan_walk, ScanWalk, mcu_columns_of, mcu_count_of, mcu_rows_of, mcu_slots, scan_blocks_before, IndexModel, McuDecode,
};
use crate::transform::{
    block_negates, block_negation_fits, block_source_index, block_values, destination_extent, geometry_of,
    inverse_index, lemma_inverse_restores_block, lemma_source_position_bijective, source_position_of,
    transformed_block,
};
use crate::writer::{
    comps_out, coefficients_out, decode_list, lemma_swapped_maxima, output_grid, write_mcu, write_row, write_rows,
    Emitted, encode_list, lemma_ac_fits_negation, lemma_comps_out_sized, lemma_scan_round_trip, mcu_list, scan_bytes, lemma_scan_blocks_monotone, mcu_out, out_block, output_extent, row_out,
    rows_out, transformed_i16, dht_data, frame_rewrite, frame_swapped, headers_out, lemma_frame_rewrite_involution,
    lemma_frame_rewrite_transposes, lemma_quant_rewrite_involution,
    lemma_output_scan_decodes, lemma_single_length_valid, list_blocks, list_components, output_ac_table, output_blocks,
    output_dc_table, quant_rewrite, segment_bytes, segment_of, segment_out, selectors_cleared, swapped_component,
    table_definition, transformed_out,
};
use vstd::arithmetic::power2::lemma2_to64;

verus! {

/// A marker that the header parser reads as the start of a segment.
pub open spec fn segment_marker(marker: u8) -> bool {
    &&& marker != 0x00
    &&& marker != 0xff
    &&& marker != EOI
    &&& marker != SOI
    &&& marker != 0x01
    &&& !(0xd0 <= marker <= 0xd7)
}

/// The header parser reads a segment written at `position` as that
/// segment.
proof fn lemma_segment_read(input: Seq<u8>, position: int, marker: u8, data: Seq<u8>, progress: HeaderProgress)
    requires
        0 <= position,
        position + 4 + data.len() <= input.len(),
        input.subrange(position, position + 4 + data.len()) == segment_bytes(marker, data),
        data.len() + 2 <= 0xffff,
        segment_marker(marker),
    ensures
        header_segments(input, position, progress) == match segment_effect(marker, data, progress) {
            Err(e) => Err(e),
            Ok(next) => if marker == SOS {
                Ok((next, position + 4 + data.len()))
            } else {
                header_segments(input, position + 4 + data.len(), next)
            },
        },
{
    let bytes = segment_bytes(marker, data);
    assert(input[position] == bytes[0]);
    assert(input[position + 1] == bytes[1]);
    assert(input[position + 2] == bytes[2]);
    assert(input[position + 3] == bytes[3]);
    assert(marker_search(input, position + 1, true) == Ok::<(u8, int), JpegError>((marker, position + 2)));
    assert(marker_search(input, position, false) == Ok::<(u8, int), JpegError>((marker, position + 2)));
    let n = data.len() + 2;
    assert(be16(((n / 256) as u8), ((n % 256) as u8)) == n);
    assert forall|i: int| 0 <= i < data.len() implies #[trigger] input.subrange(position + 4, position + 4 + data.len())[i]
        == data[i] by {
        assert(input[position + 4 + i] == bytes[4 + i]);
    }
    assert(input.subrange(position + 4, position + 4 + data.len()) =~= data);
}

/// The segments that the header parser gathers end with the scan's.
proof fn lemma_ends_with_scan(input: Seq<u8>, position: int, progress: HeaderProgress)
    requires
        header_segments(input, position, progress) is Ok,
    ensures
        ({
            let segments = header_segments(input, position, progress).unwrap().0.segments;
            segments.len() > progress.segments.len() && segments.last().marker == SOS
        }),
    decreases input.len() - position,
{
    lemma_marker_search_advances(input, position, false);
    let (marker, p) = marker_search(input, position, false).unwrap();
    let length = be16(input[p], input[p + 1]);
    let data = input.subrange(p + 2, p + length);
    let next = segment_effect(marker, data, progress).unwrap();
    if marker != SOS {
        lemma_ends_with_scan(input, p + length, next);
    }
}

/// The output's DHT segment defines exactly its DC and AC tables.
proof fn lemma_output_tables_read()
    ensures
        crate::parser::tables_after_dht(dht_data(seq![output_dc_table(), output_ac_table()]), 0, Seq::<TableDef>::empty())
            == Ok::<Seq<TableDef>, JpegError>(seq![output_dc_table(), output_ac_table()]),
{
    let dc = output_dc_table();
    let ac = output_ac_table();
    lemma2_to64();
    lemma_single_length_valid(dc.counts, dc.symbols, 3);
    lemma_single_length_valid(ac.counts, ac.symbols, 7);
    let data = dht_data(seq![dc, ac]);
    assert(seq![dc, ac].drop_last() =~= seq![dc]);
    assert(seq![dc].drop_last() =~= Seq::<TableDef>::empty());
    assert(seq![dc].last() == dc);
    assert(seq![dc, ac].last() == ac);
    assert(dht_data(Seq::<TableDef>::empty()) =~= Seq::<u8>::empty());
    assert(dht_data(seq![dc]) =~= table_definition(dc));
    assert(data =~= table_definition(dc) + table_definition(ac));
    assert(((0u8 << 4u8) | 0u8) == 0u8 && ((1u8 << 4u8) | 0u8) == 0x10u8 && (0u8 >> 4u8) == 0u8 && (0u8 & 0x0fu8)
        == 0u8 && (0x10u8 >> 4u8) == 1u8 && (0x10u8 & 0x0fu8) == 0u8) by (bit_vector);
    assert(data.len() == 208);
    assert(data[0] == 0u8);
    assert(data.subrange(1, 17) =~= dc.counts);
    assert(data.subrange(17, 29) =~= dc.symbols);
    assert(data[29] == 0x10u8);
    assert(data.subrange(30, 46) =~= ac.counts);
    assert(data.subrange(46, 208) =~= ac.symbols);
    let first = crate::parser::tables_without(Seq::<TableDef>::empty(), 0, 0).push(
        TableDef { class: 0, id: 0, counts: dc.counts, symbols: dc.symbols },
    );
    assert(first =~= seq![dc]);
    assert(seq![dc].drop_last() =~= Seq::<TableDef>::empty());
    assert(crate::parser::tables_without(Seq::<TableDef>::empty(), 1, 0) =~= Seq::<TableDef>::empty());
    assert(crate::parser::tables_without(seq![dc], 1, 0) =~= seq![dc]);
    assert(crate::parser::tables_without(seq![dc], 1, 0).push(
        TableDef { class: 1, id: 0, counts: ac.counts, symbols: ac.symbols },
    ) =~= seq![dc, ac]);
    assert(codes_before(dc.counts, 16) == 12);
    assert(codes_before(ac.counts, 16) == 162);
    assert(data[0] >> 4u8 == 0u8 && data[0] & 0x0fu8 == 0u8);
    assert(data[29] >> 4u8 == 1u8 && data[29] & 0x0fu8 == 0u8);
    let empty = Seq::<TableDef>::empty();
    assert(crate::parser::tables_after_dht(data, 208, seq![dc, ac]) == Ok::<Seq<TableDef>, JpegError>(seq![dc, ac]));
    assert(crate::parser::tables_after_dht(data, 29, seq![dc]) == crate::parser::tables_after_dht(data, 208, seq![dc, ac]));
    assert(crate::parser::tables_after_dht(data, 0, empty) == crate::parser::tables_after_dht(data, 29, seq![dc]));
}

/// The output's Huffman tables: its DC table, then its AC table.
pub open spec fn output_tables() -> Seq<TableDef> {
    seq![output_dc_table(), output_ac_table()]
}

/// The segment that the output holds in place of a segment the input's
/// header kept: SOS with its table selectors cleared, SOF0 rewritten for
/// the operation, DQT transposed where the axes swap, any other as it was.
pub open spec fn segment_rewritten(s: SegmentModel, swap: bool) -> SegmentModel {
    if s.marker == SOS {
        SegmentModel { marker: SOS, data: selectors_cleared(s.data) }
    } else if s.marker == SOF0 {
        SegmentModel { marker: SOF0, data: frame_rewrite(s.data, swap).unwrap() }
    } else if s.marker == DQT && swap {
        SegmentModel { marker: DQT, data: quant_rewrite(s.data, 0, s.data).unwrap() }
    } else {
        s
    }
}

/// The frame of the output: the input's, or, where the axes swap, the
/// transposed one.
pub open spec fn frame_out(f: FrameModel, swap: bool) -> FrameModel {
    if swap {
        FrameModel {
            width: f.height,
            height: f.width,
            max_horizontal_sampling: f.max_vertical_sampling,
            max_vertical_sampling: f.max_horizontal_sampling,
            components: f.components.map_values(|c: Component| swapped_component(c)),
        }
    } else {
        f
    }
}

/// The header parser has gathered of the output what corresponds to what
/// it gathered of the input.
pub open spec fn progress_matches(p_in: HeaderProgress, p_out: HeaderProgress, swap: bool) -> bool {
    &&& p_out.segments == p_in.segments.map_values(|s: SegmentModel| segment_rewritten(s, swap))
    &&& p_out.frame == match p_in.frame {
        Some(f) => Some(frame_out(f, swap)),
        None => None::<FrameModel>,
    }
    &&& p_out.restart_interval == p_in.restart_interval
}

/// The output bytes of a list of segments are those of its first segment,
/// then those of the rest.
proof fn lemma_headers_out_front(s: SegmentModel, rest: Seq<SegmentModel>, swap: bool, tables: Seq<TableDef>)
    ensures
        headers_out(seq![s] + rest, swap, tables) == match segment_out(s, swap, tables) {
            Err(e) => Err(e),
            Ok(a) => match headers_out(rest, swap, tables) {
                Err(e) => Err(e),
                Ok(b) => Ok(a + b),
            },
        },
    decreases rest.len(),
{
    if rest.len() == 0 {
        assert(seq![s] + rest =~= seq![s]);
        assert(seq![s].drop_last() =~= Seq::<SegmentModel>::empty());
        assert(seq![s].last() == s);
        assert(headers_out(Seq::<SegmentModel>::empty(), swap, tables) == Ok::<Seq<u8>, JpegError>(Seq::<u8>::empty()));
        if let Ok(a) = segment_out(s, swap, tables) {
            assert(Seq::<u8>::empty() + a =~= a);
            assert(a + Seq::<u8>::empty() =~= a);
        }
    } else {
        lemma_headers_out_front(s, rest.drop_last(), swap, tables);
        assert((seq![s] + rest).drop_last() =~= seq![s] + rest.drop_last());
        assert((seq![s] + rest).last() == rest.last());
        if let Ok(a) = segment_out(s, swap, tables) {
            if let Ok(b) = headers_out(rest.drop_last(), swap, tables) {
                if let Ok(c) = segment_out(rest.last(), swap, tables) {
                    assert(a + (b + c) =~= (a + b) + c);
                }
            }
        }
    }
}

/// The header parser only adds to the segments it gathered.
proof fn lemma_segments_extend(input: Seq<u8>, position: int, progress: HeaderProgress)
    requires
        header_segments(input, position, progress) is Ok,
    ensures
        ({
            let segments = header_segments(input, position, progress).unwrap().0.segments;
            segments == progress.segments + segments.skip(progress.segments.len() as int)
        }),
    decreases input.len() - position,
{
    lemma_marker_search_advances(input, position, false);
    let (marker, p) = marker_search(input, position, false).unwrap();
    let length = be16(input[p], input[p + 1]);
    let data = input.subrange(p + 2, p + length);
    let next = segment_effect(marker, data, progress).unwrap();
    let segments = header_segments(input, position, progress).unwrap().0.segments;
    if marker != SOS {
        lemma_segments_extend(input, p + length, next);
        assert(next.segments.len() >= progress.segments.len());
        assert(progress.segments =~= next.segments.take(progress.segments.len() as int));
    }
    assert(segments =~= progress.segments + segments.skip(progress.segments.len() as int));
}

/// Where `a + b` stands in `out`, `a` stands there and `b` right after.
proof fn lemma_subrange_split(out: Seq<u8>, opos: int, a: Seq<u8>, b: Seq<u8>)
    requires
        0 <= opos,
        opos + a.len() + b.len() <= out.len(),
        out.subrange(opos, opos + a.len() + b.len()) == a + b,
    ensures
        out.subrange(opos, opos + a.len()) == a,
        out.subrange(opos + a.len(), opos + a.len() + b.len()) == b,
{
    assert forall|i: int| 0 <= i < a.len() implies #[trigger] out.subrange(opos, opos + a.len())[i] == a[i] by {
        assert(out.subrange(opos, opos + a.len() + b.len())[i] == (a + b)[i]);
    }
    assert forall|i: int| 0 <= i < b.len() implies #[trigger] out.subrange(opos + a.len(), opos + a.len() + b.len())[i]
        == b[i] by {
        assert(out.subrange(opos, opos + a.len() + b.len())[a.len() + i] == (a + b)[a.len() + i]);
        assert(out.subrange(opos, opos + a.len() + b.len())[a.len() + i] == out[opos + a.len() + i]);
        assert(out.subrange(opos + a.len(), opos + a.len() + b.len())[i] == out[opos + a.len() + i]);
    }
    assert(out.subrange(opos, opos + a.len()) =~= a);
    assert(out.subrange(opos + a.len(), opos + a.len() + b.len()) =~= b);
}

/// The segments that the header parser adds from `position` on.
pub open spec fn added_segments(input: Seq<u8>, position: int, progress: HeaderProgress) -> Seq<SegmentModel> {
    header_segments(input, position, progress).unwrap().0.segments.skip(progress.segments.len() as int)
}

/// The header parser reads the output's bytes for a kept input segment
/// other than SOS as the rewritten segment, and gathers what corresponds.
proof fn lemma_read_rewritten(out: Seq<u8>, opos: int, s: SegmentModel, p_in: HeaderProgress, p_out: HeaderProgress, swap: bool)
    requires
        segment_marker(s.marker),
        s.marker != SOS,
        s.marker != DHT,
        segment_effect(s.marker, s.data, p_in) is Ok,
        progress_matches(p_in, p_out, swap),
        segment_out(s, swap, output_tables()) is Ok,
        0 <= opos,
        opos + segment_out(s, swap, output_tables()).unwrap().len() <= out.len(),
        out.subrange(opos, opos + segment_out(s, swap, output_tables()).unwrap().len()) == segment_out(
            s,
            swap,
            output_tables(),
        ).unwrap(),
    ensures
        ({
            let rw = segment_rewritten(s, swap);
            let next_in = segment_effect(s.marker, s.data, p_in).unwrap();
            &&& segment_effect(rw.marker, rw.data, p_out) is Ok
            &&& progress_matches(next_in, segment_effect(rw.marker, rw.data, p_out).unwrap(), swap)
            &&& segment_effect(rw.marker, rw.data, p_out).unwrap().tables == p_out.tables
            &&& header_segments(out, opos, p_out) == header_segments(
                out,
                opos + segment_out(s, swap, output_tables()).unwrap().len(),
                segment_effect(rw.marker, rw.data, p_out).unwrap(),
            )
        }),
{
    let rw = segment_rewritten(s, swap);
    let next_in = segment_effect(s.marker, s.data, p_in).unwrap();
    assert(segment_out(s, swap, output_tables()) == segment_of(s.marker, rw.data));
    lemma_segment_read(out, opos, s.marker, rw.data, p_out);
    if s.marker == SOF0 && swap {
        lemma_frame_rewrite_transposes(s.data);
    }
    let next_out = segment_effect(rw.marker, rw.data, p_out).unwrap();
    assert(next_in.segments == p_in.segments.push(s));
    assert(next_in.segments.map_values(|x: SegmentModel| segment_rewritten(x, swap)) =~= p_out.segments.push(rw));
}

/// The header parser reads the output's bytes for the input's SOS segment,
/// the output's DHT segment and then the scan header with cleared
/// selectors, up to their end, and gathers what corresponds.
proof fn lemma_read_scan_header(out: Seq<u8>, opos: int, s: SegmentModel, p_in: HeaderProgress, p_out: HeaderProgress, swap: bool)
    requires
        s.marker == SOS,
        progress_matches(p_in, p_out, swap),
        p_out.tables == Seq::<TableDef>::empty(),
        segment_out(s, swap, output_tables()) is Ok,
        0 <= opos,
        opos + segment_out(s, swap, output_tables()).unwrap().len() <= out.len(),
        out.subrange(opos, opos + segment_out(s, swap, output_tables()).unwrap().len()) == segment_out(
            s,
            swap,
            output_tables(),
        ).unwrap(),
    ensures
        header_segments(out, opos, p_out) matches Ok((r_out, end)) && end == opos + segment_out(
            s,
            swap,
            output_tables(),
        ).unwrap().len() && progress_matches(segment_effect(s.marker, s.data, p_in).unwrap(), r_out, swap)
            && r_out.tables == output_tables(),
{
    let tables = output_tables();
    let dht = dht_data(tables);
    let cleared = selectors_cleared(s.data);
    let a1 = segment_bytes(DHT, dht);
    let a2 = segment_bytes(SOS, cleared);
    assert(segment_out(s, swap, tables).unwrap() == a1 + a2);
    lemma_subrange_split(out, opos, a1, a2);
    lemma_output_tables_read();
    lemma_segment_read(out, opos, DHT, dht, p_out);
    let mid = segment_effect(DHT, dht, p_out).unwrap();
    lemma_segment_read(out, opos + a1.len(), SOS, cleared, mid);
    let next_in = segment_effect(s.marker, s.data, p_in).unwrap();
    assert(next_in.segments == p_in.segments.push(s));
    assert(next_in.segments.map_values(|x: SegmentModel| segment_rewritten(x, swap)) =~= p_out.segments.push(
        segment_rewritten(s, swap),
    ));
}

/// Reading the output's header segments keeps step with reading the
/// input's: where the output holds, at `opos`, the bytes written for the
/// segments that the input's parser adds from `position` on, its parser
/// reads exactly those bytes and gathers what corresponds, with the
/// output's tables.
proof fn lemma_output_walk(
    input: Seq<u8>,
    position: int,
    p_in: HeaderProgress,
    out: Seq<u8>,
    opos: int,
    p_out: HeaderProgress,
    swap: bool,
)
    requires
        header_segments(input, position, p_in) is Ok,
        progress_matches(p_in, p_out, swap),
        p_out.tables == Seq::<TableDef>::empty(),
        headers_out(added_segments(input, position, p_in), swap, output_tables()) is Ok,
        0 <= opos,
        opos + headers_out(added_segments(input, position, p_in), swap, output_tables()).unwrap().len() <= out.len(),
        out.subrange(opos, opos + headers_out(added_segments(input, position, p_in), swap, output_tables()).unwrap().len())
            == headers_out(added_segments(input, position, p_in), swap, output_tables()).unwrap(),
    ensures
        header_segments(out, opos, p_out) matches Ok((r_out, end)) && end == opos + headers_out(
            added_segments(input, position, p_in),
            swap,
            output_tables(),
        ).unwrap().len() && progress_matches(header_segments(input, position, p_in).unwrap().0, r_out, swap)
            && r_out.tables == output_tables(),
    decreases input.len() - position,
{
    lemma_marker_search_advances(input, position, false);
    lemma_segments_extend(input, position, p_in);
    let (marker, p) = marker_search(input, position, false).unwrap();
    let length = be16(input[p], input[p + 1]);
    let data = input.subrange(p + 2, p + length);
    let next_in = segment_effect(marker, data, p_in).unwrap();
    let r_in = header_segments(input, position, p_in).unwrap().0;
    let added = added_segments(input, position, p_in);
    let tables = output_tables();
    let bytes = headers_out(added, swap, tables).unwrap();
    if marker == DHT {
        assert(header_segments(input, position, p_in) == header_segments(input, p + length, next_in));
        assert(added_segments(input, p + length, next_in) == added);
        lemma_output_walk(input, p + length, next_in, out, opos, p_out, swap);
    } else {
        let s = SegmentModel { marker, data };
        assert(next_in.segments == p_in.segments.push(s));
        assert(length <= 0xffff);
        if marker == SOS {
            let empty = Seq::<SegmentModel>::empty();
            assert(r_in == next_in);
            assert(added =~= seq![s] + empty);
            lemma_headers_out_front(s, empty, swap, tables);
            assert(bytes =~= segment_out(s, swap, tables).unwrap());
            lemma_read_scan_header(out, opos, s, p_in, p_out, swap);
        } else {
            let rest = added_segments(input, p + length, next_in);
            assert(header_segments(input, position, p_in) == header_segments(input, p + length, next_in));
            lemma_segments_extend(input, p + length, next_in);
            assert(r_in.segments[p_in.segments.len() as int] == s);
            assert(added =~= seq![s] + rest);
            lemma_headers_out_front(s, rest, swap, tables);
            let a = segment_out(s, swap, tables).unwrap();
            let b = headers_out(rest, swap, tables).unwrap();
            assert(bytes =~= a + b);
            lemma_subrange_split(out, opos, a, b);
            lemma_read_rewritten(out, opos, s, p_in, p_out, swap);
            let rw = segment_rewritten(s, swap);
            let next_out = segment_effect(rw.marker, rw.data, p_out).unwrap();
            lemma_output_walk(input, p + length, next_in, out, opos + a.len(), next_out, swap);
        }
    }
}

/// Two lists of frame components with the same ids, in order, each
/// component with as many blocks in an MCU in both.
pub open spec fn same_blocks(a: Seq<Component>, b: Seq<Component>) -> bool {
    &&& a.len() == b.len()
    &&& forall|i: int|
        #![trigger b[i]]
        0 <= i < a.len() ==> b[i].id == a[i].id && b[i].horizontal_sampling * b[i].vertical_sampling
            == a[i].horizontal_sampling * a[i].vertical_sampling
}

proof fn lemma_frame_out_blocks(f: FrameModel, swap: bool)
    ensures
        same_blocks(f.components, frame_out(f, swap).components),
{
    let b = frame_out(f, swap).components;
    assert forall|i: int| #![trigger b[i]] 0 <= i < f.components.len() implies b[i].id == f.components[i].id
        && b[i].horizontal_sampling * b[i].vertical_sampling == f.components[i].horizontal_sampling
        * f.components[i].vertical_sampling by {
        if swap {
            vstd::arithmetic::mul::lemma_mul_is_commutative(
                f.components[i].horizontal_sampling as int,
                f.components[i].vertical_sampling as int,
            );
        }
    }
}

proof fn lemma_position_same(a: Seq<Component>, b: Seq<Component>, id: u8, start: int)
    requires
        same_blocks(a, b),
    ensures
        position_from(a, id, start) == position_from(b, id, start),
    decreases a.len() - start,
{
    if 0 <= start < a.len() {
        assert(b[start].id == a[start].id);
        lemma_position_same(a, b, id, start + 1);
    }
}

proof fn lemma_blocks_before_same(data: Seq<u8>, c: Seq<u8>, a: Seq<Component>, b: Seq<Component>, count: int)
    requires
        same_blocks(a, b),
        forall|k: int| 0 <= k < count ==> #[trigger] c[1 + 2 * k] == data[1 + 2 * k],
        selectors_known(data, a, count),
    ensures
        blocks_before(c, b, count) == blocks_before(data, a, count),
    decreases count,
{
    if count > 0 {
        let k = count - 1;
        lemma_blocks_before_same(data, c, a, b, k);
        assert(c[1 + 2 * k] == data[1 + 2 * k]);
        let id = data[1 + 2 * k];
        lemma_position_same(a, b, id, 0);
        crate::parser::lemma_position(a, id, 0);
        let i = crate::parser::position_of(a, id).unwrap();
        assert(selected(c, b, k) == b[i]);
        assert(selected(data, a, k) == a[i]);
    }
}

/// The scan of the output: each component as it was, but with table
/// selectors zero.
pub open spec fn scan_out(scan: ScanModel) -> ScanModel {
    ScanModel {
        components: scan.components.map_values(|c: ScanComponent| ScanComponent { dc_table: 0, ac_table: 0, ..c }),
        blocks_per_mcu: scan.blocks_per_mcu,
    }
}

/// The output's scan header, read against the output's frame, gives the
/// input's scan with table selectors zero.
proof fn lemma_scan_out(data: Seq<u8>, f: FrameModel, swap: bool)
    requires
        scan_of(data, f) is Ok,
    ensures
        scan_of(selectors_cleared(data), frame_out(f, swap)) == Ok::<ScanModel, JpegError>(scan_out(scan_of(data, f).unwrap())),
{
    let n = data[0] as int;
    let c = selectors_cleared(data);
    let f2 = frame_out(f, swap);
    let scan = scan_of(data, f).unwrap();
    assert(c.len() == data.len());
    assert(c[0] == data[0]);
    assert forall|k: int| 0 <= k <= n + 1 implies #[trigger] c[1 + 2 * k] == data[1 + 2 * k] by {
        assert((1 + 2 * k - 2) % 2 == 1 || 1 + 2 * k < 2);
    }
    assert forall|k: int| 0 <= k < n implies #[trigger] c[2 + 2 * k] == 0 by {
        assert((2 + 2 * k - 2) % 2 == 0 && (2 + 2 * k - 2) / 2 == k);
    }
    assert((2 + 2 * n - 2) % 2 == 0 && (2 + 2 * n - 2) / 2 == n);
    assert(c[2 + 2 * n] == data[2 + 2 * n]);
    assert(c[1 + 2 * (n + 1)] == data[1 + 2 * (n + 1)]);
    lemma_frame_out_blocks(f, swap);
    assert forall|k: int| #![trigger c[1 + 2 * k]] 0 <= k < n implies crate::parser::position_of(f2.components, c[1 + 2 * k])
        is Some by {
        assert(c[1 + 2 * k] == data[1 + 2 * k]);
        lemma_position_same(f.components, f2.components, data[1 + 2 * k], 0);
    }
    assert(selectors_known(c, f2.components, n));
    lemma_blocks_before_same(data, c, f.components, f2.components, n);
    let expected = scan_out(scan);
    let got = scan_of(c, f2).unwrap();
    assert forall|k: int| 0 <= k < n implies #[trigger] got.components[k] == expected.components[k] by {
        assert(c[1 + 2 * k] == data[1 + 2 * k]);
        lemma_position_same(f.components, f2.components, data[1 + 2 * k], 0);
        lemma_blocks_before_same(data, c, f.components, f2.components, k);
        assert(c[2 + 2 * k] == 0);
        assert((0u8 >> 4u8) == 0u8 && (0u8 & 0x0fu8) == 0u8) by (bit_vector);
    }
    assert(got.components =~= expected.components);
}

/// The header of the output of an image with header `h`: its segments
/// rewritten, its frame (transposed where the axes swap), its scan with
/// table selectors zero, and its own two Huffman tables.
pub open spec fn header_out(h: HeaderModel, swap: bool) -> HeaderModel {
    HeaderModel {
        segments: h.segments.map_values(|s: SegmentModel| segment_rewritten(s, swap)),
        frame: frame_out(h.frame, swap),
        scan: scan_out(h.scan),
        tables: output_tables(),
    }
}

/// The read-back law: the JPEG that the transform writes reads back as
/// the transformed image. Its header parses into the input's header
/// rewritten for the operation (frame transposed where the axes swap,
/// every scan component on the output's DC and AC table), and its
/// entropy-coded data, from where that header ends, decodes with those
/// tables, from zero DC predictors, into exactly the output blocks: for
/// each output MCU in turn, the transformed blocks of the source MCU that
/// the operation maps there.
pub proof fn lemma_output_reads_back(input: Seq<u8>, model: IndexModel, index: u8)
    requires
        header_of(input) is Ok,
        transformed_out(header_of(input).unwrap().0, input, model, index) is Ok,
    ensures
        ({
            let h = header_of(input).unwrap().0;
            let out = transformed_out(h, input, model, index).unwrap();
            let blocks = output_blocks(h, input, model, index);
            let h2 = header_of(out).unwrap().0;
            let start = header_of(out).unwrap().1;
            &&& header_of(out) is Ok
            &&& h2 == header_out(h, geometry_of(index).0)
            &&& start == 2 + headers_out(h.segments, geometry_of(index).0, output_tables()).unwrap().len()
            &&& decode_list(
                h2.tables[0],
                h2.tables[1],
                list_components(blocks),
                bytes_to_bits(entropy_bytes(out, start)),
                entropy_end(out, start),
                Seq::new(h.frame.components.len(), |i: int| 0),
            ) matches Ok((decoded, _, _)) && decoded == list_blocks(blocks)
        }),
{
    let h = header_of(input).unwrap().0;
    let swap = geometry_of(index).0;
    let tables = output_tables();
    let head = headers_out(h.segments, swap, tables).unwrap();
    let scan = coefficients_out(h, input, model, index, output_dc_table(), output_ac_table()).unwrap();
    let out = transformed_out(h, input, model, index).unwrap();
    let front = seq![0xffu8, SOI] + head;
    let tail = scan + seq![0xffu8, EOI];
    assert(out =~= front + tail);
    let empty = empty_progress();
    let (progress, pos) = header_segments(input, 2, empty).unwrap();
    assert(added_segments(input, 2, empty) =~= progress.segments);
    assert(h.segments == progress.segments);
    assert(out.subrange(2, 2 + head.len() as int) =~= head);
    assert(empty.segments.map_values(|x: SegmentModel| segment_rewritten(x, swap)) =~= empty.segments);
    lemma_output_walk(input, 2, empty, out, 2, empty, swap);
    let (r_out, end) = header_segments(out, 2, empty).unwrap();
    lemma_ends_with_scan(input, 2, empty);
    let last = progress.segments.last();
    assert(r_out.segments.last() == segment_rewritten(last, swap));
    let f = progress.frame.unwrap();
    lemma_scan_out(last.data, f, swap);
    assert(out[0] == 0xffu8 && out[1] == SOI);
    assert(header_of(out) == Ok::<(HeaderModel, int), JpegError>((header_out(h, swap), end)));
    assert(end == front.len());
    lemma_entropy_tail(front, tail, 0);
    lemma_output_scan_decodes(h, input, model, index);
}

/// The padding ones that `finish` adds after `n` written bits.
pub open spec fn padding(n: nat) -> Seq<bool> {
    ones(((8 - n % 8) % 8) as nat)
}

/// The writer-reader law: a writer that starts with no pending bits,
/// writes `written` (`start.wrote(middle, written)`) and is then finished
/// (`finish`'s contract), has put out bytes where a reader started at the
/// writer's first new byte (`BitReader::new`'s `bits`) finds exactly
/// `written`, then the padding ones, then the bits of whatever follows;
/// stuffed zeros are removed on the way.
pub proof fn lemma_writer_reader_round_trip(
    start: BitWriter,
    middle: BitWriter,
    finished: BitWriter,
    written: Seq<bool>,
    tail: Seq<u8>,
)
    requires
        start.pending() == Seq::<bool>::empty(),
        start.wrote(middle, written),
        finished.output() == middle.output() + stuff(
            pack(middle.pending() + ones(((8 - middle.pending().len()) % 8) as nat)),
        ),
    ensures
        bytes_to_bits(entropy_bytes(finished.output() + tail, start.output().len() as int)) == written + padding(
            written.len(),
        ) + bytes_to_bits(entropy_bytes(tail, 0)),
        entropy_end(finished.output() + tail, start.output().len() as int) == entropy_end(tail, 0),
{
    let pad = padding(written.len());
    assert(Seq::<bool>::empty() + written =~= written);
    assert(middle.pending() == leftover(written));
    assert(leftover(written).len() == written.len() % 8);
    lemma_pack_append(written, pad);
    lemma_stuff_append(pack(written), pack(leftover(written) + pad));
    let full = written + pad;
    assert(full.len() % 8 == 0);
    assert(finished.output() =~= start.output() + stuff(pack(full)));
    lemma_entropy_round_trip(start.output(), full, tail);
}

/// Reading back what was written, number by number: the `n` bits that
/// `write_bits(value, n)` writes, `bits_of(value, n)`, are read by
/// `read_bits(n)` as the low `n` bits of `value`, whatever follows them.
pub proof fn lemma_value_read_back(value: u32, n: nat, rest: Seq<bool>)
    requires
        n < 32,
    ensures
        bits_number((bits_of(value, n) + rest).take(n as int)) == value & (((1u32 << (n as u32)) - 1u32) as u32),
        (bits_of(value, n) + rest).skip(n as int) == rest,
{
    let nn = n as u32;
    let low = value & (((1u32 << nn) - 1u32) as u32);
    assert(low >> nn == 0 && low >> 0u32 == low) by (bit_vector)
        requires
            nn < 32,
            low == value & (((1u32 << nn) - 1u32) as u32),
    ;
    assert forall|i: int| 0 <= i < n implies #[trigger] bits_of(value, n)[i] == bits_of(low, n)[i] by {
        let k = (n - 1 - i) as u32;
        assert((value >> k) & 1 == (low >> k) & 1) by (bit_vector)
            requires
                k < nn,
                nn < 32,
                low == value & (((1u32 << nn) - 1u32) as u32),
        ;
    }
    assert(bits_of(value, n) =~= bits_of(low, n));
    lemma_number_of_bits(low, n, n);
    assert((bits_of(value, n) + rest).take(n as int) =~= bits_of(low, n).take(n as int));
    assert((bits_of(value, n) + rest).skip(n as int) =~= rest);
}

/// The Huffman law for the writer and the reader: the code that `encode`
/// writes for a symbol, followed by any other bits `more`, once finished,
/// is decoded by `decode` from a reader at the first written byte into the
/// symbol, using up exactly the code's bits.
pub proof fn lemma_huffman_written_read_back(
    counts: Seq<u8>,
    symbols: Seq<u8>,
    symbol: u8,
    start: BitWriter,
    middle: BitWriter,
    finished: BitWriter,
    more: Seq<bool>,
    tail: Seq<u8>,
)
    requires
        table_valid(counts, symbols),
        symbol_code(counts, symbols, symbol) is Some,
        start.pending() == Seq::<bool>::empty(),
        start.wrote(
            middle,
            bits_of(symbol_code(counts, symbols, symbol).unwrap().0 as u32, symbol_code(counts, symbols, symbol).unwrap().1 as nat)
                + more,
        ),
        finished.output() == middle.output() + stuff(
            pack(middle.pending() + ones(((8 - middle.pending().len()) % 8) as nat)),
        ),
    ensures
        ({
            let (code, length) = symbol_code(counts, symbols, symbol).unwrap();
            let read = bytes_to_bits(entropy_bytes(finished.output() + tail, start.output().len() as int));
            &&& huffman_decode(counts, symbols, read) == HuffmanDecoded::Symbol(symbol, length as nat)
            &&& read.skip(length as int) == more + padding((length + more.len()) as nat) + bytes_to_bits(
                entropy_bytes(tail, 0),
            )
        }),
{
    let (code, length) = symbol_code(counts, symbols, symbol).unwrap();
    let code_bits = bits_of(code as u32, length as nat);
    let written = code_bits + more;
    lemma_writer_reader_round_trip(start, middle, finished, written, tail);
    let after = more + padding(written.len()) + bytes_to_bits(entropy_bytes(tail, 0));
    assert(written + padding(written.len()) + bytes_to_bits(entropy_bytes(tail, 0)) =~= code_bits + after);
    lemma_huffman_round_trip(counts, symbols, symbol, after);
    assert((code_bits + after).skip(length as int) =~= after);
}

/// The block law for the writer and the reader: the bits that
/// `encode_block` writes for a block after DC predictor `predictor`,
/// followed by any other bits `more`, once finished, are decoded by
/// `decode_block` from a reader at the first written byte into the same
/// block, using up exactly those bits and leaving the block's DC as the
/// predictor, whatever `end` the reader would report.
pub proof fn lemma_block_written_read_back(
    dc: TableDef,
    ac: TableDef,
    block: Seq<i16>,
    predictor: int,
    start: BitWriter,
    middle: BitWriter,
    finished: BitWriter,
    more: Seq<bool>,
    tail: Seq<u8>,
    end: JpegError,
)
    requires
        table_valid(dc.counts, dc.symbols),
        table_valid(ac.counts, ac.symbols),
        block.len() == 64,
        block_bits(dc, ac, block, predictor) is Ok,
        start.pending() == Seq::<bool>::empty(),
        start.wrote(middle, block_bits(dc, ac, block, predictor).unwrap() + more),
        finished.output() == middle.output() + stuff(
            pack(middle.pending() + ones(((8 - middle.pending().len()) % 8) as nat)),
        ),
    ensures
        ({
            let b = block_bits(dc, ac, block, predictor).unwrap();
            let read = bytes_to_bits(entropy_bytes(finished.output() + tail, start.output().len() as int));
            &&& decode_block_bits(dc, ac, read, end, predictor) == Ok::<(Seq<i16>, int, int), JpegError>(
                (block, b.len() as int, block[0] as int),
            )
            &&& read.skip(b.len() as int) == more + padding((b.len() + more.len()) as nat) + bytes_to_bits(
                entropy_bytes(tail, 0),
            )
        }),
{
    let b = block_bits(dc, ac, block, predictor).unwrap();
    let written = b + more;
    lemma_writer_reader_round_trip(start, middle, finished, written, tail);
    let after = more + padding(written.len()) + bytes_to_bits(entropy_bytes(tail, 0));
    assert(written + padding(written.len()) + bytes_to_bits(entropy_bytes(tail, 0)) =~= b + after);
    lemma_block_round_trip(dc, ac, block, predictor, after, end);
    assert((b + after).skip(b.len() as int) =~= after);
}

/// Clearing the scan's table selectors a second time changes nothing.
proof fn lemma_selectors_cleared_twice(data: Seq<u8>)
    ensures
        selectors_cleared(selectors_cleared(data)) == selectors_cleared(data),
{
    let once = selectors_cleared(data);
    if data.len() > 0 {
        assert(once[0] == data[0]);
    }
    assert(selectors_cleared(once) =~= once);
}

/// A segment rewritten for an operation and written again for that
/// operation gives the bytes that the identity writes for the segment.
proof fn lemma_segment_rewritten_twice(s: SegmentModel, swap: bool)
    requires
        segment_out(s, swap, output_tables()) is Ok,
    ensures
        segment_out(segment_rewritten(s, swap), swap, output_tables()) == segment_out(s, false, output_tables()),
{
    let tables = output_tables();
    if s.marker == SOS {
        lemma_selectors_cleared_twice(s.data);
    } else if s.marker == SOF0 {
        if swap {
            let once = frame_swapped(s.data, s.data[5] as int);
            assert(once[5] == s.data[5]);
            lemma_frame_rewrite_involution(s.data);
        }
    } else if s.marker == DQT && swap {
        lemma_quant_rewrite_involution(s.data);
    }
}

/// Rewriting the header twice: the segments of the output, written again
/// for the same operation, give the bytes that the identity writes for the
/// input's segments. Transposing the frame and the quantization tables a
/// second time restores them, and the scan header stays as the first
/// rewrite left it. This is the header half of "a quarter turn, then the
/// opposite quarter turn (or a half turn twice), is the identity".
pub proof fn lemma_header_rewritten_twice(segments: Seq<SegmentModel>, swap: bool)
    requires
        headers_out(segments, swap, output_tables()) is Ok,
    ensures
        headers_out(segments.map_values(|s: SegmentModel| segment_rewritten(s, swap)), swap, output_tables())
            == headers_out(segments, false, output_tables()),
    decreases segments.len(),
{
    let tables = output_tables();
    let rewritten = segments.map_values(|s: SegmentModel| segment_rewritten(s, swap));
    if segments.len() > 0 {
        let front = segments.drop_last();
        assert(rewritten.drop_last() =~= front.map_values(|s: SegmentModel| segment_rewritten(s, swap)));
        assert(rewritten.last() == segment_rewritten(segments.last(), swap));
        lemma_header_rewritten_twice(front, swap);
        lemma_segment_rewritten_twice(segments.last(), swap);
    } else {
        assert(rewritten =~= Seq::<SegmentModel>::empty());
    }
}

/// A table that a DHT segment can define: a valid code, class 0 or 1,
/// id 0 to 3.
pub open spec fn definable(t: TableDef) -> bool {
    &&& table_valid(t.counts, t.symbols)
    &&& t.class <= 1
    &&& t.id <= 3
}

/// The tables after defining each of `ts` in turn, each replacing any
/// earlier table of its class and id.
pub open spec fn tables_defined(tables: Seq<TableDef>, ts: Seq<TableDef>) -> Seq<TableDef>
    decreases ts.len(),
{
    if ts.len() == 0 {
        tables
    } else {
        crate::parser::tables_without(tables_defined(tables, ts.drop_last()), ts.last().class, ts.last().id).push(
            ts.last(),
        )
    }
}

/// No two tables share a class and an id.
pub open spec fn distinct_keys(tables: Seq<TableDef>) -> bool {
    forall|i: int, j: int|
        #![trigger tables[i], tables[j]]
        0 <= i < j < tables.len() ==> !(tables[i].class == tables[j].class && tables[i].id == tables[j].id)
}

/// Where a table's definition stands at `position` of DHT data, reading
/// it replaces the earlier tables of its class and id by it.
proof fn lemma_definition_at(data: Seq<u8>, position: int, t: TableDef, tables: Seq<TableDef>)
    requires
        definable(t),
        0 <= position,
        position + table_definition(t).len() <= data.len(),
        data.subrange(position, position + table_definition(t).len()) == table_definition(t),
    ensures
        crate::parser::tables_after_dht(data, position, tables) == crate::parser::tables_after_dht(
            data,
            position + table_definition(t).len(),
            crate::parser::tables_without(tables, t.class, t.id).push(t),
        ),
{
    let def = table_definition(t);
    let class = t.class;
    let id = t.id;
    assert(((class << 4u8) | id) >> 4u8 == class && ((class << 4u8) | id) & 0x0fu8 == id) by (bit_vector)
        requires
            class <= 1,
            id <= 3,
    ;
    assert(data[position] == def[0]);
    assert(data.subrange(position + 1, position + 17) =~= t.counts) by {
        assert forall|i: int| 0 <= i < 16 implies #[trigger] data.subrange(position + 1, position + 17)[i] == t.counts[i] by {
            assert(data[position + 1 + i] == def[1 + i]);
        }
    }
    assert(data.subrange(position + 17, position + 17 + t.symbols.len() as int) =~= t.symbols) by {
        assert forall|i: int| 0 <= i < t.symbols.len() implies #[trigger] data.subrange(
            position + 17,
            position + 17 + t.symbols.len() as int,
        )[i] == t.symbols[i] by {
            assert(data[position + 17 + i] == def[17 + i]);
        }
    }
}

/// Tables without those of one class and id: each is a table of the
/// list, of another class or id, and no two share a class and an id where
/// none did before.
proof fn lemma_tables_without(tables: Seq<TableDef>, class: u8, id: u8)
    ensures
        forall|k: int|
            #![trigger crate::parser::tables_without(tables, class, id)[k]]
            0 <= k < crate::parser::tables_without(tables, class, id).len() ==> !(crate::parser::tables_without(
                tables,
                class,
                id,
            )[k].class == class && crate::parser::tables_without(tables, class, id)[k].id == id) && tables.contains(
                crate::parser::tables_without(tables, class, id)[k],
            ),
        distinct_keys(tables) ==> distinct_keys(crate::parser::tables_without(tables, class, id)),
    decreases tables.len(),
{
    if tables.len() > 0 {
        let front = tables.drop_last();
        lemma_tables_without(front, class, id);
        let rest = crate::parser::tables_without(front, class, id);
        let w = crate::parser::tables_without(tables, class, id);
        assert forall|k: int| 0 <= k < rest.len() implies tables.contains(#[trigger] rest[k]) by {
            let j = choose|j: int| 0 <= j < front.len() && front[j] == rest[k];
            assert(tables[j] == front[j]);
        }
        assert(tables[tables.len() - 1] == tables.last());
        if distinct_keys(tables) {
            assert forall|i: int, j: int| 0 <= i < j < front.len() implies !(#[trigger] front[i].class == #[trigger] front[j].class
                && front[i].id == front[j].id) by {
                assert(front[i] == tables[i] && front[j] == tables[j]);
            }
            if !(tables.last().class == class && tables.last().id == id) {
                assert forall|i: int, j: int| 0 <= i < j < w.len() implies !(#[trigger] w[i].class == #[trigger] w[j].class
                    && w[i].id == w[j].id) by {
                    if j == w.len() - 1 {
                        assert(w[i] == rest[i]);
                        assert(front.contains(rest[i]));
                        let m = choose|m: int| 0 <= m < front.len() && front[m] == rest[i];
                        assert(tables[m] == front[m]);
                    } else {
                        assert(w[i] == rest[i] && w[j] == rest[j]);
                    }
                }
            }
        }
    }
}

proof fn lemma_dht_data_prefix(ts: Seq<TableDef>, k: int)
    requires
        0 <= k <= ts.len(),
    ensures
        dht_data(ts.take(k)).len() <= dht_data(ts).len(),
        dht_data(ts).subrange(0, dht_data(ts.take(k)).len() as int) == dht_data(ts.take(k)),
    decreases ts.len() - k,
{
    if k == ts.len() {
        assert(ts.take(k) =~= ts);
        assert(dht_data(ts).subrange(0, dht_data(ts).len() as int) =~= dht_data(ts));
    } else {
        lemma_dht_data_prefix(ts, k + 1);
        assert(ts.take(k + 1).drop_last() =~= ts.take(k));
        let a = dht_data(ts.take(k));
        let b = dht_data(ts.take(k + 1));
        assert(b == a + table_definition(ts.take(k + 1).last()));
        assert(dht_data(ts).subrange(0, a.len() as int) =~= b.subrange(0, a.len() as int));
        assert(b.subrange(0, a.len() as int) =~= a);
    }
}

proof fn lemma_definitions_from(ts: Seq<TableDef>, tables: Seq<TableDef>, k: int)
    requires
        0 <= k <= ts.len(),
        forall|i: int| 0 <= i < ts.len() ==> definable(#[trigger] ts[i]),
    ensures
        crate::parser::tables_after_dht(dht_data(ts), dht_data(ts.take(k)).len() as int, tables_defined(tables, ts.take(k)))
            == Ok::<Seq<TableDef>, JpegError>(tables_defined(tables, ts)),
    decreases ts.len() - k,
{
    let data = dht_data(ts);
    if k == ts.len() {
        assert(ts.take(k) =~= ts);
    } else {
        lemma_definitions_from(ts, tables, k + 1);
        lemma_dht_data_prefix(ts, k + 1);
        assert(ts.take(k + 1).drop_last() =~= ts.take(k));
        assert(ts.take(k + 1).last() == ts[k]);
        let a = dht_data(ts.take(k));
        let b = dht_data(ts.take(k + 1));
        let def = table_definition(ts[k]);
        assert(b == a + def);
        assert(data.subrange(a.len() as int, (a.len() + def.len()) as int) =~= def) by {
            assert forall|i: int| 0 <= i < def.len() implies #[trigger] data.subrange(a.len() as int, (a.len() + def.len()) as int)[i]
                == def[i] by {
                assert(data.subrange(0, b.len() as int)[a.len() + i] == b[a.len() + i]);
            }
        }
        lemma_definition_at(data, a.len() as int, ts[k], tables_defined(tables, ts.take(k)));
    }
}

/// The table-definition law: DHT data made of the definitions of tables
/// `ts`, one after the other (as `append_definition` writes them), reads
/// back as those tables defined in turn, each replacing any earlier table
/// of its class and id; tables of other classes and ids stay, and no two
/// tables come to share a class and an id.
pub proof fn lemma_definitions_read_back(ts: Seq<TableDef>, tables: Seq<TableDef>)
    requires
        forall|i: int| 0 <= i < ts.len() ==> definable(#[trigger] ts[i]),
    ensures
        crate::parser::tables_after_dht(dht_data(ts), 0, tables) == Ok::<Seq<TableDef>, JpegError>(
            tables_defined(tables, ts),
        ),
        distinct_keys(tables) ==> distinct_keys(tables_defined(tables, ts)),
    decreases ts.len(),
{
    assert(ts.take(0) =~= Seq::<TableDef>::empty());
    lemma_definitions_from(ts, tables, 0);
    if ts.len() > 0 {
        let front = ts.drop_last();
        assert forall|i: int| 0 <= i < front.len() implies definable(#[trigger] front[i]) by {
            assert(front[i] == ts[i]);
        }
        lemma_definitions_read_back(front, tables);
        let before = tables_defined(tables, front);
        let t = ts.last();
        lemma_tables_without(before, t.class, t.id);
        let w = crate::parser::tables_without(before, t.class, t.id);
        let after = w.push(t);
        if distinct_keys(tables) {
            assert forall|i: int, j: int| 0 <= i < j < after.len() implies !(#[trigger] after[i].class
                == #[trigger] after[j].class && after[i].id == after[j].id) by {
                if j == after.len() - 1 {
                    assert(after[i] == w[i]);
                } else {
                    assert(after[i] == w[i] && after[j] == w[j]);
                }
            }
        }
    }
}

/// On 16-bit blocks, an operation followed by its inverse gives the block
/// back, where no coefficient that the operation negates is `i16::MIN`;
/// the identity leaves any block as it is.
proof fn lemma_i16_inverse(op: u8, b: Seq<i16>)
    requires
        op < 8,
        b.len() == 64,
        block_negation_fits(op, b),
    ensures
        transformed_i16(inverse_index(op), transformed_i16(op, b)) == b,
        transformed_i16(0, b) == b,
{
    let values = block_values(b);
    let t = transformed_i16(op, b);
    let tv = transformed_block(op, values);
    assert forall|i: int| 0 <= i < 64 implies i16::MIN <= #[trigger] tv[i] <= i16::MAX by {
        let u = i % 8;
        let v = i / 8;
        let src = block_source_index(op, u, v);
        assert(0 <= src < 64);
        if block_negates(op, u, v) {
            assert(b[src] != i16::MIN);
        }
    }
    assert(block_values(t) =~= tv);
    lemma_inverse_restores_block(op, values);
    assert(transformed_i16(inverse_index(op), t) =~= b);
    assert forall|i: int| 0 <= i < 64 implies #[trigger] transformed_i16(0, b)[i] == b[i] by {
        assert(block_source_index(0, i % 8, i / 8) == i);
    }
    assert(transformed_i16(0, b) =~= b);
}

/// Where each output block of scan component `k` stands among the blocks
/// of its rows: row `ov`, column `oh` at `ov * width + oh`.
proof fn lemma_rows_out_at(h: HeaderModel, index: u8, blocks: Seq<Seq<i16>>, k: int, r: int)
    requires
        0 <= r,
        0 <= output_extent(h, index, k).0,
    ensures
        rows_out(h, index, blocks, k, r).len() == r * output_extent(h, index, k).0,
        forall|ov: int, oh: int|
            #![trigger out_block(h, index, blocks, k, oh, ov)]
            0 <= ov < r && 0 <= oh < output_extent(h, index, k).0 ==> rows_out(h, index, blocks, k, r)[ov
                * output_extent(h, index, k).0 + oh] == out_block(h, index, blocks, k, oh, ov),
    decreases r,
{
    let w = output_extent(h, index, k).0;
    if r > 0 {
        lemma_rows_out_at(h, index, blocks, k, r - 1);
        assert((r - 1) * w + w == r * w) by (nonlinear_arith);
        assert forall|ov: int, oh: int| 0 <= ov < r && 0 <= oh < w implies rows_out(h, index, blocks, k, r)[ov * w
            + oh] == #[trigger] out_block(h, index, blocks, k, oh, ov) by {
            if ov < r - 1 {
                assert(ov * w + oh < (r - 1) * w) by (nonlinear_arith)
                    requires ov < r - 1, oh < w, 0 <= oh;
            } else {
                assert(ov * w == (r - 1) * w);
            }
        }
    }
}

/// Where each output block stands in the output MCU: component `k`'s
/// blocks come after those of the components before it.
proof fn lemma_comps_out_at(h: HeaderModel, index: u8, blocks: Seq<Seq<i16>>, count: int)
    requires
        header_wf(h),
        0 <= count <= h.scan.components.len(),
    ensures
        comps_out(h, index, blocks, count).len() == scan_blocks_before(h, count),
        forall|k: int, ov: int, oh: int|
            #![trigger out_block(h, index, blocks, k, oh, ov)]
            0 <= k < count && 0 <= ov < output_extent(h, index, k).1 && 0 <= oh < output_extent(h, index, k).0
                ==> comps_out(h, index, blocks, count)[scan_blocks_before(h, k) + ov * output_extent(h, index, k).0 + oh]
                == out_block(h, index, blocks, k, oh, ov),
    decreases count,
{
    if count > 0 {
        let k0 = count - 1;
        lemma_comps_out_at(h, index, blocks, k0);
        let (w, r) = output_extent(h, index, k0);
        let c = h.frame.components[h.scan.components[k0].frame_index as int];
        assert(w * r == component_blocks(h, k0)) by (nonlinear_arith)
            requires
                (w == c.horizontal_sampling && r == c.vertical_sampling) || (w == c.vertical_sampling && r
                    == c.horizontal_sampling),
                component_blocks(h, k0) == c.horizontal_sampling * c.vertical_sampling;
        lemma_rows_out_at(h, index, blocks, k0, r);
        assert(r * w == w * r) by (nonlinear_arith);
        let front = comps_out(h, index, blocks, k0);
        let all = comps_out(h, index, blocks, count);
        assert forall|k: int, ov: int, oh: int|
            0 <= k < count && 0 <= ov < output_extent(h, index, k).1 && 0 <= oh < output_extent(h, index, k).0
            implies all[scan_blocks_before(h, k) + ov * output_extent(h, index, k).0 + oh] == #[trigger] out_block(
            h,
            index,
            blocks,
            k,
            oh,
            ov,
        ) by {
            let (wk, rk) = output_extent(h, index, k);
            if k < k0 {
                let ck = h.frame.components[h.scan.components[k].frame_index as int];
                assert(wk * rk == component_blocks(h, k)) by (nonlinear_arith)
                    requires
                        (wk == ck.horizontal_sampling && rk == ck.vertical_sampling) || (wk == ck.vertical_sampling
                            && rk == ck.horizontal_sampling),
                        component_blocks(h, k) == ck.horizontal_sampling * ck.vertical_sampling;
                assert(ov * wk + oh < wk * rk) by (nonlinear_arith)
                    requires ov < rk, oh < wk, 0 <= oh, 0 <= ov;
                lemma_scan_blocks_monotone(h, k + 1, k0);
                let i = scan_blocks_before(h, k) + ov * wk + oh;
                assert(i < front.len());
                assert(all[i] == front[i]);
            } else {
                assert(0 <= ov * wk) by (nonlinear_arith)
                    requires 0 <= ov, 0 <= wk;
                let i = scan_blocks_before(h, k) + ov * wk + oh;
                assert(ov * wk + oh < wk * rk) by (nonlinear_arith)
                    requires ov < rk, oh < wk, 0 <= oh, 0 <= ov;
                assert(all[i] == rows_out(h, index, blocks, k0, r)[ov * wk + oh]);
            }
        }
    }
}

/// One output block, made again by the inverse operation from the blocks
/// of the output MCU, is the block that the identity makes.
proof fn lemma_out_block_inverse(h: HeaderModel, op: u8, blocks: Seq<Seq<i16>>, k: int, oh: int, ov: int)
    requires
        header_wf(h),
        op < 8,
        blocks.len() == h.scan.blocks_per_mcu,
        forall|i: int| 0 <= i < blocks.len() ==> (#[trigger] blocks[i]).len() == 64 && block_negation_fits(op, blocks[i]),
        0 <= k < h.scan.components.len(),
        0 <= oh < output_extent(h, 0, k).0,
        0 <= ov < output_extent(h, 0, k).1,
    ensures
        out_block(
            header_out(h, geometry_of(op).0),
            inverse_index(op),
            list_blocks(mcu_out(h, op, blocks)),
            k,
            oh,
            ov,
        ) == out_block(h, 0, blocks, k, oh, ov),
{
    let swap = geometry_of(op).0;
    let inv = inverse_index(op);
    let h1 = header_out(h, swap);
    let list = mcu_out(h, op, blocks);
    let b1 = list_blocks(list);
    let n = h.scan.components.len() as int;
    let sc = h.scan.components[k];
    let fi = sc.frame_index as int;
    let c = h.frame.components[fi];
    let ch = c.horizontal_sampling as int;
    let cv = c.vertical_sampling as int;
    let c1 = h1.frame.components[fi];
    assert(h1.scan.components[k].frame_index == sc.frame_index);
    assert(h1.scan.components[k].first_block == sc.first_block);
    assert(geometry_of(inv).0 == swap);
    assert(inverse_index(inv) == op);
    let (w1, r1) = destination_extent(op, ch, cv);
    assert(c1.horizontal_sampling == w1 && c1.vertical_sampling == r1);
    assert(output_extent(h, op, k) == (w1, r1));
    lemma_source_position_bijective(inv, oh, ov, w1, r1);
    let (sh1, sv1) = source_position_of(inv, oh, ov, w1, r1);
    assert(source_position_of(op, sh1, sv1, ch, cv) == (oh, ov));
    lemma_comps_out_at(h, op, blocks, n);
    let at = sc.first_block + sv1 * w1 + sh1;
    assert(list[at] == out_block(h, op, blocks, k, sh1, sv1));
    assert(0 <= sv1 * w1 + sh1 < w1 * r1) by (nonlinear_arith)
        requires 0 <= sv1 < r1, 0 <= sh1 < w1;
    lemma_scan_blocks_monotone(h, k + 1, n);
    assert(w1 * r1 == component_blocks(h, k)) by (nonlinear_arith)
        requires
            (w1 == ch && r1 == cv) || (w1 == cv && r1 == ch),
            component_blocks(h, k) == ch * cv;
    assert(at < list.len());
    assert(b1[at] == list[at].1);
    let src = sc.first_block + ov * ch + oh;
    assert(0 <= ov * ch + oh < ch * cv) by (nonlinear_arith)
        requires 0 <= ov < cv, 0 <= oh < ch;
    assert(src < blocks.len());
    lemma_i16_inverse(op, blocks[src]);
}

proof fn lemma_rows_inverse(h: HeaderModel, op: u8, blocks: Seq<Seq<i16>>, k: int, r: int)
    requires
        header_wf(h),
        op < 8,
        blocks.len() == h.scan.blocks_per_mcu,
        forall|i: int| 0 <= i < blocks.len() ==> (#[trigger] blocks[i]).len() == 64 && block_negation_fits(op, blocks[i]),
        0 <= k < h.scan.components.len(),
        0 <= r <= output_extent(h, 0, k).1,
    ensures
        rows_out(header_out(h, geometry_of(op).0), inverse_index(op), list_blocks(mcu_out(h, op, blocks)), k, r)
            == rows_out(h, 0, blocks, k, r),
    decreases r,
{
    let h1 = header_out(h, geometry_of(op).0);
    let inv = inverse_index(op);
    let b1 = list_blocks(mcu_out(h, op, blocks));
    if r > 0 {
        lemma_rows_inverse(h, op, blocks, k, r - 1);
        let fi = h.scan.components[k].frame_index as int;
        assert(h1.scan.components[k].frame_index == h.scan.components[k].frame_index);
        assert(geometry_of(inv).0 == geometry_of(op).0);
        assert(output_extent(h1, inv, k) == output_extent(h, 0, k));
        let w = output_extent(h, 0, k).0;
        assert forall|oh: int| 0 <= oh < w implies #[trigger] row_out(h1, inv, b1, k, r - 1, w)[oh] == row_out(
            h,
            0,
            blocks,
            k,
            r - 1,
            w,
        )[oh] by {
            lemma_out_block_inverse(h, op, blocks, k, oh, r - 1);
        }
        assert(row_out(h1, inv, b1, k, r - 1, w) =~= row_out(h, 0, blocks, k, r - 1, w));
    }
}

proof fn lemma_comps_inverse(h: HeaderModel, op: u8, blocks: Seq<Seq<i16>>, count: int)
    requires
        header_wf(h),
        op < 8,
        blocks.len() == h.scan.blocks_per_mcu,
        forall|i: int| 0 <= i < blocks.len() ==> (#[trigger] blocks[i]).len() == 64 && block_negation_fits(op, blocks[i]),
        0 <= count <= h.scan.components.len(),
    ensures
        comps_out(header_out(h, geometry_of(op).0), inverse_index(op), list_blocks(mcu_out(h, op, blocks)), count)
            == comps_out(h, 0, blocks, count),
    decreases count,
{
    let h1 = header_out(h, geometry_of(op).0);
    let inv = inverse_index(op);
    if count > 0 {
        lemma_comps_inverse(h, op, blocks, count - 1);
        let k = count - 1;
        assert(h1.scan.components[k].frame_index == h.scan.components[k].frame_index);
        assert(geometry_of(inv).0 == geometry_of(op).0);
        assert(output_extent(h1, inv, k) == output_extent(h, 0, k));
        lemma_rows_inverse(h, op, blocks, k, output_extent(h, 0, k).1);
    }
}

/// The MCU half of "an operation, then its inverse, is the identity": the
/// blocks of an output MCU, taken through the inverse operation against
/// the output's header, give exactly the blocks, with their components,
/// that the identity writes for the source MCU. Every source block must
/// have no `i16::MIN` where the operation negates, which holds of every
/// baseline block (its AC coefficients are at most 1023 in magnitude, and
/// the DC is never negated).
pub proof fn lemma_mcu_inverse(h: HeaderModel, op: u8, blocks: Seq<Seq<i16>>)
    requires
        header_wf(h),
        op < 8,
        blocks.len() == h.scan.blocks_per_mcu,
        forall|i: int| 0 <= i < blocks.len() ==> (#[trigger] blocks[i]).len() == 64 && block_negation_fits(op, blocks[i]),
    ensures
        mcu_out(header_out(h, geometry_of(op).0), inverse_index(op), list_blocks(mcu_out(h, op, blocks))) == mcu_out(
            h,
            0,
            blocks,
        ),
{
    assert(header_out(h, geometry_of(op).0).scan.components.len() == h.scan.components.len());
    lemma_comps_inverse(h, op, blocks, h.scan.components.len() as int);
}

/// The frame components of the blocks of some slots of an MCU.
pub open spec fn slot_components(h: HeaderModel, slots: Seq<int>) -> Seq<int> {
    slots.map_values(|k: int| h.scan.components[k].frame_index as int)
}

/// A header whose tables are the output's and whose scan components all
/// select table 0.
pub open spec fn on_output_tables(h: HeaderModel) -> bool {
    &&& h.tables == output_tables()
    &&& forall|k: int|
        #![trigger h.scan.components[k]]
        0 <= k < h.scan.components.len() ==> h.scan.components[k].dc_table == 0 && h.scan.components[k].ac_table == 0
}

/// Under the output's tables, decoding the slots of an MCU is decoding
/// their blocks one after the other with the output's DC and AC tables.
proof fn lemma_decode_slots_list(h: HeaderModel, slots: Seq<int>, bits: Seq<bool>, end: JpegError, predictors: Seq<int>)
    requires
        on_output_tables(h),
        forall|i: int| 0 <= i < slots.len() ==> 0 <= #[trigger] slots[i] < h.scan.components.len(),
    ensures
        decode_slots(h, slots, bits, end, predictors) == match decode_list(
            output_dc_table(),
            output_ac_table(),
            slot_components(h, slots),
            bits,
            end,
            predictors,
        ) {
            Ok((blocks, used, p)) => Ok::<McuDecode, JpegError>(McuDecode { blocks, used, predictors: p }),
            Err(e) => Err(e),
        },
    decreases slots.len(),
{
    reveal(decode_slots);
    let t = output_tables();
    assert(find_table(t, 0, 0) == Some(output_dc_table()));
    assert(find_table_from(t, 1, 0, 1) == Some(output_ac_table()));
    assert(find_table(t, 1, 0) == Some(output_ac_table()));
    if slots.len() > 0 {
        let front = slots.drop_last();
        assert forall|i: int| 0 <= i < front.len() implies 0 <= #[trigger] front[i] < h.scan.components.len() by {
            assert(front[i] == slots[i]);
        }
        lemma_decode_slots_list(h, front, bits, end, predictors);
        assert(slot_components(h, slots).drop_last() =~= slot_components(h, front));
        assert(slots.last() == slots[slots.len() - 1]);
        assert(slot_components(h, slots).last() == h.scan.components[slots.last()].frame_index as int);
    } else {
        assert(slot_components(h, slots) =~= Seq::<int>::empty());
    }
}

proof fn lemma_rows_components(h: HeaderModel, op: u8, blocks: Seq<Seq<i16>>, k: int, r: int)
    requires
        0 <= r,
        0 <= output_extent(h, op, k).0,
    ensures
        list_components(rows_out(h, op, blocks, k, r)) == Seq::new(
            (r * output_extent(h, op, k).0) as nat,
            |i: int| h.scan.components[k].frame_index as int,
        ),
    decreases r,
{
    let w = output_extent(h, op, k).0;
    let fi = h.scan.components[k].frame_index as int;
    if r > 0 {
        lemma_rows_components(h, op, blocks, k, r - 1);
        assert((r - 1) * w + w == r * w) by (nonlinear_arith);
        let a = rows_out(h, op, blocks, k, r - 1);
        let b = row_out(h, op, blocks, k, r - 1, w);
        assert(list_components(a + b) =~= list_components(a) + list_components(b));
        assert(list_components(b) =~= Seq::new(w as nat, |i: int| fi));
        assert(list_components(a + b) =~= Seq::new((r * w) as nat, |i: int| fi));
    } else {
        assert(list_components(rows_out(h, op, blocks, k, r)) =~= Seq::new(0, |i: int| fi));
    }
}

/// The components of an output MCU's blocks are those of the slots of an
/// MCU of the output's header.
proof fn lemma_components_match_slots(h: HeaderModel, op: u8, blocks: Seq<Seq<i16>>, count: int)
    requires
        header_wf(h),
        op < 8,
        0 <= count <= h.scan.components.len(),
    ensures
        list_components(comps_out(h, op, blocks, count)) == slot_components(
            header_out(h, geometry_of(op).0),
            block_slots(header_out(h, geometry_of(op).0), count),
        ),
        forall|i: int|
            0 <= i < block_slots(header_out(h, geometry_of(op).0), count).len() ==> 0 <= #[trigger] block_slots(
                header_out(h, geometry_of(op).0),
                count,
            )[i] < count,
    decreases count,
{
    let h1 = header_out(h, geometry_of(op).0);
    if count > 0 {
        let k = count - 1;
        lemma_components_match_slots(h, op, blocks, k);
        let (w, r) = output_extent(h, op, k);
        let sc = h.scan.components[k];
        let c = h.frame.components[sc.frame_index as int];
        assert(h1.scan.components[k].frame_index == sc.frame_index);
        assert(component_blocks(h1, k) == w * r) by {
            let c1 = h1.frame.components[sc.frame_index as int];
            assert(c1.horizontal_sampling == w && c1.vertical_sampling == r || c1.horizontal_sampling == r
                && c1.vertical_sampling == w);
            assert(w * r == r * w) by (nonlinear_arith);
        }
        assert(0 <= r * w) by (nonlinear_arith)
            requires 0 <= r, 0 <= w;
        lemma_rows_components(h, op, blocks, k, r);
        assert(r * w == w * r) by (nonlinear_arith);
        let front = comps_out(h, op, blocks, k);
        let rows = rows_out(h, op, blocks, k, r);
        let run = component_run(k, component_blocks(h1, k) as nat);
        let prev = block_slots(h1, k);
        assert(list_components(front + rows) =~= list_components(front) + list_components(rows));
        assert(slot_components(h1, prev + run) =~= slot_components(h1, prev) + slot_components(h1, run));
        assert(slot_components(h1, run) =~= list_components(rows));
        assert forall|i: int| 0 <= i < (prev + run).len() implies 0 <= #[trigger] (prev + run)[i] < count by {
            if i >= prev.len() {
                assert((prev + run)[i] == run[i - prev.len()]);
            } else {
                assert((prev + run)[i] == prev[i]);
            }
        }
    } else {
        assert(slot_components(h1, block_slots(h1, 0)) =~= Seq::<int>::empty());
        assert(list_components(comps_out(h, op, blocks, 0)) =~= Seq::<int>::empty());
    }
}

proof fn lemma_blocks_before_out(h: HeaderModel, swap: bool, k: int)
    requires
        header_wf(h),
        0 <= k <= h.scan.components.len(),
    ensures
        scan_blocks_before(header_out(h, swap), k) == scan_blocks_before(h, k),
    decreases k,
{
    if k > 0 {
        lemma_blocks_before_out(h, swap, k - 1);
        let c = h.frame.components[h.scan.components[k - 1].frame_index as int];
        assert(c.horizontal_sampling * c.vertical_sampling == c.vertical_sampling * c.horizontal_sampling)
            by (nonlinear_arith);
    }
}

/// The output's header is well-formed, with the same blocks per MCU, and
/// its MCU grid is the output grid of the operation.
proof fn lemma_header_out_wf(h: HeaderModel, op: u8)
    requires
        header_wf(h),
        op < 8,
    ensures
        header_wf(header_out(h, geometry_of(op).0)),
        on_output_tables(header_out(h, geometry_of(op).0)),
        header_out(h, geometry_of(op).0).scan.blocks_per_mcu == h.scan.blocks_per_mcu,
        header_out(h, geometry_of(op).0).frame.components.len() == h.frame.components.len(),
        (mcu_columns_of(header_out(h, geometry_of(op).0)), mcu_rows_of(header_out(h, geometry_of(op).0)))
            == output_grid(h, op),
{
    let swap = geometry_of(op).0;
    let h1 = header_out(h, swap);
    let n = h.scan.components.len() as int;
    assert forall|k: int| 0 <= k < n implies h1.scan.components[k].first_block == scan_blocks_before(h1, k) by {
        lemma_blocks_before_out(h, swap, k);
    }
    lemma_blocks_before_out(h, swap, n);
    if swap {
        let comps = h.frame.components;
        let swapped = h1.frame.components;
        assert forall|i: int| 0 <= i < comps.len() implies #[trigger] swapped[i] == swapped_component(comps[i]) by {}
        lemma_swapped_maxima(comps, swapped);
    }
}

/// What the transform has written after its first `m` output MCUs, in
/// the order the output stores them.
pub open spec fn emitted_upto(h: HeaderModel, input: Seq<u8>, model: IndexModel, op: u8, m: int) -> Result<
    Emitted,
    JpegError,
>
    decreases m,
{
    if m <= 0 {
        Ok(Emitted { bits: Seq::<bool>::empty(), predictors: Seq::new(h.frame.components.len(), |i: int| 0) })
    } else {
        match emitted_upto(h, input, model, op, m - 1) {
            Err(e) => Err(e),
            Ok(e) => write_mcu(
                h,
                input,
                model,
                op,
                output_dc_table(),
                output_ac_table(),
                e,
                (m - 1) % output_grid(h, op).0,
                (m - 1) / output_grid(h, op).0,
            ),
        }
    }
}

/// Writing row by row is writing MCU after MCU.
proof fn lemma_emitted_rows(h: HeaderModel, input: Seq<u8>, model: IndexModel, op: u8, dy: int, dx: int)
    requires
        output_grid(h, op).0 > 0,
        0 <= dy,
        0 <= dx <= output_grid(h, op).0,
    ensures
        emitted_upto(h, input, model, op, dy * output_grid(h, op).0 + dx) == write_row(
            h,
            input,
            model,
            op,
            output_dc_table(),
            output_ac_table(),
            write_rows(h, input, model, op, output_dc_table(), output_ac_table(), dy),
            dy,
            dx,
        ),
    decreases dy, dx,
{
    let w = output_grid(h, op).0;
    let dc = output_dc_table();
    let ac = output_ac_table();
    if dx == 0 {
        if dy > 0 {
            lemma_emitted_rows(h, input, model, op, dy - 1, w);
            assert((dy - 1) * w + w == dy * w) by (nonlinear_arith);
            assert(write_rows(h, input, model, op, dc, ac, dy) == write_row(
                h,
                input,
                model,
                op,
                dc,
                ac,
                write_rows(h, input, model, op, dc, ac, dy - 1),
                dy - 1,
                w,
            ));
        } else {
            assert(dy * w == 0) by (nonlinear_arith)
                requires dy == 0;
        }
    } else {
        lemma_emitted_rows(h, input, model, op, dy, dx - 1);
        let m = dy * w + dx;
        assert(0 <= dy * w) by (nonlinear_arith)
            requires 0 <= dy, 0 < w;
        vstd::arithmetic::div_mod::lemma_fundamental_div_mod_converse(m - 1, w, dy, dx - 1);
        assert((m - 1) % w == dx - 1 && (m - 1) / w == dy);
    }
}

/// What is written after fewer MCUs is a prefix of what is written after
/// more.
proof fn lemma_emitted_prefix(h: HeaderModel, input: Seq<u8>, model: IndexModel, op: u8, m: int, m2: int)
    requires
        0 <= m <= m2,
        emitted_upto(h, input, model, op, m2) is Ok,
    ensures
        emitted_upto(h, input, model, op, m) is Ok,
        emitted_upto(h, input, model, op, m).unwrap().bits.is_prefix_of(emitted_upto(h, input, model, op, m2).unwrap().bits),
    decreases m2 - m,
{
    if m < m2 {
        lemma_emitted_prefix(h, input, model, op, m, m2 - 1);
        let a = emitted_upto(h, input, model, op, m).unwrap().bits;
        let b = emitted_upto(h, input, model, op, m2 - 1).unwrap().bits;
        let c = emitted_upto(h, input, model, op, m2).unwrap().bits;
        assert(b.is_prefix_of(c));
        assert(a.is_prefix_of(c)) by {
            assert forall|i: int| 0 <= i < a.len() implies #[trigger] a[i] == c[i] by {
                assert(a[i] == b[i]);
                assert(b[i] == c[i]);
            }
        }
    } else {
        let a = emitted_upto(h, input, model, op, m).unwrap().bits;
        assert(a.is_prefix_of(a)) by {
            assert(a.subrange(0, a.len() as int) =~= a);
        }
    }
}

/// Output MCU `m`, read with the output's header from the bits that follow
/// the MCUs before it, decodes into its blocks, using exactly its bits
/// and leaving the predictors that the writer had after it.
proof fn lemma_output_mcu_decodes(
    h: HeaderModel,
    input: Seq<u8>,
    model: IndexModel,
    op: u8,
    m: int,
    total: Seq<bool>,
    end: JpegError,
)
    requires
        header_wf(h),
        op < 8,
        0 <= m,
        emitted_upto(h, input, model, op, m + 1) is Ok,
        emitted_upto(h, input, model, op, m + 1).unwrap().bits.is_prefix_of(total),
    ensures
        ({
            let e = emitted_upto(h, input, model, op, m).unwrap();
            let e1 = emitted_upto(h, input, model, op, m + 1).unwrap();
            let w = output_grid(h, op).0;
            let (sx, sy) = source_position_of(op, m % w, m / w, mcu_columns_of(h), mcu_rows_of(h));
            &&& emitted_upto(h, input, model, op, m) is Ok
            &&& e.bits.is_prefix_of(e1.bits)
            &&& indexed_mcu(h, input, model, sy * mcu_columns_of(h) + sx) is Ok
            &&& mcu_list(h, input, model, op, m % w, m / w) == mcu_out(
                h,
                op,
                indexed_mcu(h, input, model, sy * mcu_columns_of(h) + sx).unwrap().blocks,
            )
            &&& decode_mcu_bits(header_out(h, geometry_of(op).0), total.skip(e.bits.len() as int), end, e.predictors)
                == Ok::<McuDecode, JpegError>(
                McuDecode {
                    blocks: list_blocks(mcu_list(h, input, model, op, m % w, m / w)),
                    used: e1.bits.len() - e.bits.len(),
                    predictors: e1.predictors,
                },
            )
        }),
{
    let h1 = header_out(h, geometry_of(op).0);
    let dc = output_dc_table();
    let ac = output_ac_table();
    let w = output_grid(h, op).0;
    let e = emitted_upto(h, input, model, op, m).unwrap();
    let e1 = emitted_upto(h, input, model, op, m + 1).unwrap();
    let (sx, sy) = source_position_of(op, m % w, m / w, mcu_columns_of(h), mcu_rows_of(h));
    let d = indexed_mcu(h, input, model, sy * mcu_columns_of(h) + sx).unwrap();
    let list = mcu_out(h, op, d.blocks);
    let (y, q) = encode_list(dc, ac, list, e.predictors).unwrap();
    assert(e1.bits == e.bits + y);
    assert(e.bits.is_prefix_of(e1.bits)) by {
        assert(e1.bits.subrange(0, e.bits.len() as int) =~= e.bits);
    }
    let rest = total.skip(e1.bits.len() as int);
    assert(total.skip(e.bits.len() as int) =~= y + rest) by {
        assert forall|i: int| 0 <= i < y.len() implies #[trigger] total.skip(e.bits.len() as int)[i] == y[i] by {
            assert(total[e.bits.len() + i] == e1.bits[e.bits.len() + i]);
        }
    }
    lemma_header_out_wf(h, op);
    let n = h.scan.components.len() as int;
    lemma_components_match_slots(h, op, d.blocks, n);
    lemma_decode_slots_list(h1, mcu_slots(h1), total.skip(e.bits.len() as int), end, e.predictors);
    lemma_comps_out_sized(h, op, d.blocks, n);
    vstd::arithmetic::power2::lemma2_to64();
    lemma_single_length_valid(dc.counts, dc.symbols, 3);
    lemma_single_length_valid(ac.counts, ac.symbols, 7);
    lemma_scan_round_trip(dc, ac, list, e.predictors, rest, end);
    assert(mcu_list(h, input, model, op, m % w, m / w) == list);
}

/// The walk of the library's scan reader through the output's first `c`
/// MCUs, read with the output's header: each MCU starts where the writer
/// began it, with the predictors the writer had then.
proof fn lemma_output_scan_walk(
    h: HeaderModel,
    input: Seq<u8>,
    model: IndexModel,
    op: u8,
    out: Seq<u8>,
    start: int,
    c: int,
)
    requires
        header_wf(h),
        op < 8,
        0 <= start <= out.len(),
        out.len() <= u64::MAX >> 12u64,
        0 <= c <= mcu_count_of(header_out(h, geometry_of(op).0)),
        emitted_upto(h, input, model, op, mcu_count_of(header_out(h, geometry_of(op).0))) is Ok,
        emitted_upto(h, input, model, op, mcu_count_of(header_out(h, geometry_of(op).0))).unwrap().bits.is_prefix_of(
            state_bits(out, scan_start(start)),
        ),
    ensures
        scan_walk(header_out(h, geometry_of(op).0), out, scan_start(start), c as nat) == Ok::<ScanWalk, JpegError>(
            ScanWalk {
                starts: Seq::new(c as nat, |m: int| emitted_upto(h, input, model, op, m).unwrap().bits.len() as int),
                predictors: Seq::new(c as nat, |m: int| emitted_upto(h, input, model, op, m).unwrap().predictors),
                used: emitted_upto(h, input, model, op, c).unwrap().bits.len() as int,
                dc: emitted_upto(h, input, model, op, c).unwrap().predictors,
            },
        ),
    decreases c,
{
    let h1 = header_out(h, geometry_of(op).0);
    let total_count = mcu_count_of(h1);
    let s0 = scan_start(start);
    let total = state_bits(out, s0);
    lemma_header_out_wf(h, op);
    if c == 0 {
        assert(Seq::new(h1.frame.components.len(), |i: int| 0int) =~= Seq::new(h.frame.components.len(), |i: int| 0int));
        assert(Seq::new(0, |m: int| emitted_upto(h, input, model, op, m).unwrap().bits.len() as int) =~= Seq::<
            int,
        >::empty());
        assert(Seq::new(0, |m: int| emitted_upto(h, input, model, op, m).unwrap().predictors) =~= Seq::<
            Seq<int>,
        >::empty());
    } else {
        lemma_output_scan_walk(h, input, model, op, out, start, c - 1);
        lemma_emitted_prefix(h, input, model, op, c, total_count);
        lemma_emitted_prefix(h, input, model, op, c - 1, total_count);
        let e = emitted_upto(h, input, model, op, c - 1).unwrap();
        let e1 = emitted_upto(h, input, model, op, c).unwrap();
        let all = emitted_upto(h, input, model, op, total_count).unwrap().bits;
        assert(e1.bits.is_prefix_of(total)) by {
            assert forall|i: int| 0 <= i < e1.bits.len() implies #[trigger] e1.bits[i] == total[i] by {
                assert(e1.bits[i] == all[i]);
                assert(all[i] == total[i]);
            }
        }
        lemma_output_mcu_decodes(h, input, model, op, c - 1, total, crate::bits::entropy_end(out, start));
        lemma_advance(out, s0, e.bits.len());
        let w = scan_walk(h1, out, s0, (c - 1) as nat).unwrap();
        assert(w.starts.push(w.used) =~= Seq::new(
            c as nat,
            |m: int| emitted_upto(h, input, model, op, m).unwrap().bits.len() as int,
        ));
        assert(w.predictors.push(w.dc) =~= Seq::new(
            c as nat,
            |m: int| emitted_upto(h, input, model, op, m).unwrap().predictors,
        ));
    }
}

/// In stuffed bytes every `0xff` is followed by a zero.
proof fn lemma_stuffed_ff(bytes: Seq<u8>)
    ensures
        forall|i: int|
            0 <= i < stuff(bytes).len() && #[trigger] stuff(bytes)[i] == 0xff ==> i + 1 < stuff(bytes).len()
                && stuff(bytes)[i + 1] == 0,
    decreases bytes.len(),
{
    if bytes.len() > 0 {
        lemma_stuffed_ff(bytes.skip(1));
        let a = stuffed_byte(bytes[0]);
        let b = stuff(bytes.skip(1));
        assert(stuff(bytes) == a + b);
        assert forall|i: int| 0 <= i < (a + b).len() && #[trigger] (a + b)[i] == 0xff implies i + 1 < (a + b).len()
            && (a + b)[i + 1] == 0 by {
            if i >= a.len() {
                assert((a + b)[i] == b[i - a.len()]);
                assert((a + b)[i + 1] == b[i + 1 - a.len()]);
            }
        }
    }
}

/// A scan's bytes followed by EOI: where the reader stands while reading
/// the scan's bits, it stays within the scan, at most at the EOI marker.
proof fn lemma_reader_stays(front: Seq<u8>, bits: Seq<bool>, k: nat)
    requires
        k <= bits.len() + ((8 - bits.len() % 8) % 8),
    ensures
        ({
            let out = front + scan_bytes(bits) + seq![0xffu8, 0xd9u8];
            let s = advance(out, scan_start(front.len() as int), k);
            &&& front.len() <= s.position <= out.len() - 2
            &&& s.remaining <= 8
        }),
    decreases k,
{
    let out = front + scan_bytes(bits) + seq![0xffu8, 0xd9u8];
    let s0 = scan_start(front.len() as int);
    let pad = ((8 - bits.len() % 8) % 8) as nat;
    let full = bits + ones(pad);
    assert(full.len() % 8 == 0);
    lemma_entropy_round_trip(front, full, seq![0xffu8, 0xd9u8]);
    let tail = seq![0xffu8, 0xd9u8];
    assert(crate::bits::entropy_bytes(tail, 0) =~= Seq::<u8>::empty());
    assert(bytes_to_bits(Seq::<u8>::empty()) =~= Seq::<bool>::empty());
    assert(state_bits(out, s0) =~= full) by {
        assert(bits_of(0u32, 0) =~= Seq::<bool>::empty());
    }
    if k > 0 {
        lemma_reader_stays(front, bits, (k - 1) as nat);
        let t = advance(out, s0, (k - 1) as nat);
        lemma_advance(out, s0, (k - 1) as nat);
        if t.remaining == 0 {
            let p = t.position;
            assert(state_bits(out, t).len() > 0);
            assert(bits_of(t.current as u32, 0) =~= Seq::<bool>::empty());
            let e = crate::bits::entropy_bytes(out, p);
            assert(e.len() > 0);
            let scan = scan_bytes(bits);
            lemma_stuffed_ff(pack(full));
            let l = out.len() - 2;
            assert(out[l] == 0xff && out[l + 1] == 0xd9);
            if p == l {
                assert(e =~= Seq::<u8>::empty());
            }
            if out[p] == 0xff {
                assert(out[p + 1] == 0);
                if p + 1 == l {
                    assert(false);
                }
            }
        }
    }
}

/// The reader ends its walk through a scan's bits at the EOI marker that
/// follows them, and the scan ends well.
proof fn lemma_reader_ends_at_eoi(front: Seq<u8>, bits: Seq<bool>)
    ensures
        ({
            let out = front + scan_bytes(bits) + seq![0xffu8, 0xd9u8];
            let s = advance(out, scan_start(front.len() as int), bits.len());
            &&& state_bits(out, scan_start(front.len() as int)) == bits + ones(((8 - bits.len() % 8) % 8) as nat)
            &&& s.position == out.len() - 2
            &&& scan_end(out, s.position) == Ok::<(), JpegError>(())
        }),
{
    let out = front + scan_bytes(bits) + seq![0xffu8, 0xd9u8];
    let s0 = scan_start(front.len() as int);
    let pad = ((8 - bits.len() % 8) % 8) as nat;
    let full = bits + ones(pad);
    assert(full.len() % 8 == 0);
    lemma_entropy_round_trip(front, full, seq![0xffu8, 0xd9u8]);
    let tail = seq![0xffu8, 0xd9u8];
    assert(crate::bits::entropy_bytes(tail, 0) =~= Seq::<u8>::empty());
    assert(bytes_to_bits(Seq::<u8>::empty()) =~= Seq::<bool>::empty());
    assert(state_bits(out, s0) =~= full) by {
        assert(bits_of(0u32, 0) =~= Seq::<bool>::empty());
    }
    lemma_reader_stays(front, bits, bits.len());
    lemma_advance(out, s0, bits.len());
    let s = advance(out, s0, bits.len());
    let p = s.position;
    assert(state_bits(out, s) =~= ones(pad));
    let e = crate::bits::entropy_bytes(out, p);
    if e.len() > 0 {
        assert(bytes_to_bits(e) == bits_of(e[0] as u32, 8) + bytes_to_bits(e.skip(1)));
        assert(false);
    }
    let l = out.len() - 2;
    assert(out[l] == 0xff && out[l + 1] == 0xd9);
    lemma_stuffed_ff(pack(full));
    if p < l {
        if out[p] == 0xff {
            assert(out[p + 1] == 0);
        }
        assert(false);
    }
}

proof fn lemma_write_rows_empty(h: HeaderModel, input: Seq<u8>, model: IndexModel, op: u8, r: int)
    requires
        output_grid(h, op).0 == 0,
        0 <= r,
    ensures
        write_rows(h, input, model, op, output_dc_table(), output_ac_table(), r) == emitted_upto(h, input, model, op, 0),
    decreases r,
{
    if r > 0 {
        lemma_write_rows_empty(h, input, model, op, r - 1);
    }
}

/// The output's entropy-coded bits are what the writer emits MCU after MCU.
proof fn lemma_rows_written_emitted(h: HeaderModel, input: Seq<u8>, model: IndexModel, op: u8)
    requires
        header_wf(h),
        op < 8,
    ensures
        emitted_upto(h, input, model, op, mcu_count_of(header_out(h, geometry_of(op).0))) == write_rows(
            h,
            input,
            model,
            op,
            output_dc_table(),
            output_ac_table(),
            output_grid(h, op).1,
        ),
{
    lemma_header_out_wf(h, op);
    lemma_header_bounds(h);
    let (w, r) = output_grid(h, op);
    assert(0 <= r) by {
        assert(mcu_columns_of(h) >= 0 && mcu_rows_of(h) >= 0);
    }
    if w == 0 {
        lemma_write_rows_empty(h, input, model, op, r);
        assert(w * r == 0) by (nonlinear_arith)
            requires w == 0;
    } else {
        assert(w > 0);
        lemma_emitted_rows(h, input, model, op, r, 0);
        assert(r * w == w * r) by (nonlinear_arith);
    }
}

/// The index law for the output: the library's own reader, with the
/// output's header, indexes the scan that the transform writes to its end,
/// and each of its MCUs, decoded on its own from the index, gives the
/// output blocks that the transform put there: the blocks of the source
/// MCU that the operation maps there, transformed. The output must be
/// short enough that a reader position fits a saved state.
pub proof fn lemma_output_indexes(
    h: HeaderModel,
    input: Seq<u8>,
    model: IndexModel,
    op: u8,
    front: Seq<u8>,
)
    requires
        header_wf(h),
        op < 8,
        coefficients_out(h, input, model, op, output_dc_table(), output_ac_table()) is Ok,
        front.len() + coefficients_out(h, input, model, op, output_dc_table(), output_ac_table()).unwrap().len() + 2
            <= u64::MAX >> 12u64,
    ensures
        ({
            let h1 = header_out(h, geometry_of(op).0);
            let out = front + coefficients_out(h, input, model, op, output_dc_table(), output_ac_table()).unwrap()
                + seq![0xffu8, 0xd9u8];
            let start = front.len() as int;
            &&& index_walk(h1, out, start) is Ok
            &&& forall|m: int|
                0 <= m < mcu_count_of(h1) ==> {
                    let w = output_grid(h, op).0;
                    let (sx, sy) = source_position_of(op, m % w, m / w, mcu_columns_of(h), mcu_rows_of(h));
                    &&& indexed_mcu(h, input, model, sy * mcu_columns_of(h) + sx) is Ok
                    &&& #[trigger] indexed_mcu(h1, out, crate::scan::index_model(out, start, index_walk(h1, out, start).unwrap()), m)
                        is Ok
                    &&& indexed_mcu(h1, out, crate::scan::index_model(out, start, index_walk(h1, out, start).unwrap()), m).unwrap().blocks
                        == list_blocks(mcu_out(h, op, indexed_mcu(h, input, model, sy * mcu_columns_of(h) + sx).unwrap().blocks))
                }
        }),
{
    let h1 = header_out(h, geometry_of(op).0);
    let count = mcu_count_of(h1);
    let scan = coefficients_out(h, input, model, op, output_dc_table(), output_ac_table()).unwrap();
    let out = front + scan + seq![0xffu8, 0xd9u8];
    let start = front.len() as int;
    let s0 = scan_start(start);
    lemma_header_out_wf(h, op);
    lemma_rows_written_emitted(h, input, model, op);
    let all = emitted_upto(h, input, model, op, count).unwrap();
    lemma_reader_ends_at_eoi(front, all.bits);
    let total = state_bits(out, s0);
    assert(all.bits.is_prefix_of(total)) by {
        assert(total.subrange(0, all.bits.len() as int) =~= all.bits);
    }
    lemma_output_scan_walk(h, input, model, op, out, start, count);
    let w = index_walk(h1, out, start).unwrap();
    assert forall|m: int| 0 <= m < count implies {
        let wd = output_grid(h, op).0;
        let (sx, sy) = source_position_of(op, m % wd, m / wd, mcu_columns_of(h), mcu_rows_of(h));
        &&& indexed_mcu(h, input, model, sy * mcu_columns_of(h) + sx) is Ok
        &&& #[trigger] indexed_mcu(h1, out, crate::scan::index_model(out, start, w), m) is Ok
        &&& indexed_mcu(h1, out, crate::scan::index_model(out, start, w), m).unwrap().blocks == list_blocks(
            mcu_out(h, op, indexed_mcu(h, input, model, sy * mcu_columns_of(h) + sx).unwrap().blocks),
        )
    } by {
        crate::scan::lemma_indexed_mcu(h1, out, start, m);
        lemma_emitted_prefix(h, input, model, op, m + 1, count);
        let e1 = emitted_upto(h, input, model, op, m + 1).unwrap();
        assert(e1.bits.is_prefix_of(total)) by {
            assert forall|i: int| 0 <= i < e1.bits.len() implies #[trigger] e1.bits[i] == total[i] by {
                assert(e1.bits[i] == all.bits[i]);
            }
        }
        lemma_output_mcu_decodes(h, input, model, op, m, total, crate::bits::entropy_end(out, start));
    }
}

/// The model of the output's index, as the library's reader builds it.
pub open spec fn output_index_model(out: Seq<u8>, h1: HeaderModel, start: int) -> IndexModel {
    index_model(out, start, index_walk(h1, out, start).unwrap())
}

/// Output MCU `(dx, dy)` of the inverse operation on the output is the
/// MCU that the identity writes at `(dx, dy)`.
proof fn lemma_write_mcu_inverse(
    h: HeaderModel,
    input: Seq<u8>,
    model: IndexModel,
    op: u8,
    front: Seq<u8>,
    e: Emitted,
    dx: int,
    dy: int,
)
    requires
        header_wf(h),
        op < 8,
        coefficients_out(h, input, model, op, output_dc_table(), output_ac_table()) is Ok,
        front.len() + coefficients_out(h, input, model, op, output_dc_table(), output_ac_table()).unwrap().len() + 2
            <= u64::MAX >> 12u64,
        0 <= dx < mcu_columns_of(h),
        0 <= dy < mcu_rows_of(h),
    ensures
        ({
            let h1 = header_out(h, geometry_of(op).0);
            let out = front + coefficients_out(h, input, model, op, output_dc_table(), output_ac_table()).unwrap()
                + seq![0xffu8, 0xd9u8];
            write_mcu(
                h1,
                out,
                output_index_model(out, h1, front.len() as int),
                inverse_index(op),
                output_dc_table(),
                output_ac_table(),
                e,
                dx,
                dy,
            ) == write_mcu(h, input, model, 0, output_dc_table(), output_ac_table(), e, dx, dy)
        }),
{
    let inv = inverse_index(op);
    let h1 = header_out(h, geometry_of(op).0);
    let out = front + coefficients_out(h, input, model, op, output_dc_table(), output_ac_table()).unwrap() + seq![
        0xffu8,
        0xd9u8,
    ];
    let start = front.len() as int;
    let cols = mcu_columns_of(h);
    let rows = mcu_rows_of(h);
    lemma_header_out_wf(h, op);
    let (cols1, rows1) = output_grid(h, op);
    assert(geometry_of(inv).0 == geometry_of(op).0);
    assert(inverse_index(inv) == op);
    assert(destination_extent(inv, cols1, rows1) == (cols, rows));
    lemma_source_position_bijective(inv, dx, dy, cols1, rows1);
    let (sx1, sy1) = source_position_of(inv, dx, dy, cols1, rows1);
    assert(source_position_of(op, sx1, sy1, cols, rows) == (dx, dy));
    let m1 = sy1 * cols1 + sx1;
    assert(0 <= sy1 * cols1) by (nonlinear_arith)
        requires 0 <= sy1, 0 <= cols1;
    assert(sy1 * cols1 + sx1 < cols1 * rows1) by (nonlinear_arith)
        requires 0 <= sx1 < cols1, 0 <= sy1 < rows1;
    vstd::arithmetic::div_mod::lemma_fundamental_div_mod_converse(m1, cols1, sy1, sx1);
    lemma_output_indexes(h, input, model, op, front);
    let model1 = output_index_model(out, h1, start);
    assert(indexed_mcu(h1, out, model1, m1) is Ok);
    let src = dy * cols + dx;
    let d0 = indexed_mcu(h, input, model, src).unwrap();
    lemma_indexed_mcu_facts(h, input, model, src);
    assert forall|i: int| 0 <= i < d0.blocks.len() implies (#[trigger] d0.blocks[i]).len() == 64 && block_negation_fits(
        op,
        d0.blocks[i],
    ) by {
        lemma_ac_fits_negation(op, d0.blocks[i]);
    }
    lemma_mcu_inverse(h, op, d0.blocks);
    assert(source_position_of(0, dx, dy, cols, rows) == (dx, dy));
}

proof fn lemma_write_row_inverse(
    h: HeaderModel,
    input: Seq<u8>,
    model: IndexModel,
    op: u8,
    front: Seq<u8>,
    start: Result<Emitted, JpegError>,
    dy: int,
    count: int,
)
    requires
        header_wf(h),
        op < 8,
        coefficients_out(h, input, model, op, output_dc_table(), output_ac_table()) is Ok,
        front.len() + coefficients_out(h, input, model, op, output_dc_table(), output_ac_table()).unwrap().len() + 2
            <= u64::MAX >> 12u64,
        0 <= count <= mcu_columns_of(h),
        0 <= dy < mcu_rows_of(h),
    ensures
        ({
            let h1 = header_out(h, geometry_of(op).0);
            let out = front + coefficients_out(h, input, model, op, output_dc_table(), output_ac_table()).unwrap()
                + seq![0xffu8, 0xd9u8];
            write_row(
                h1,
                out,
                output_index_model(out, h1, front.len() as int),
                inverse_index(op),
                output_dc_table(),
                output_ac_table(),
                start,
                dy,
                count,
            ) == write_row(h, input, model, 0, output_dc_table(), output_ac_table(), start, dy, count)
        }),
    decreases count,
{
    if count > 0 {
        lemma_write_row_inverse(h, input, model, op, front, start, dy, count - 1);
        let h1 = header_out(h, geometry_of(op).0);
        let out = front + coefficients_out(h, input, model, op, output_dc_table(), output_ac_table()).unwrap() + seq![
            0xffu8,
            0xd9u8,
        ];
        if let Ok(e) = write_row(h, input, model, 0, output_dc_table(), output_ac_table(), start, dy, count - 1) {
            lemma_write_mcu_inverse(h, input, model, op, front, e, count - 1, dy);
        }
    }
}

proof fn lemma_write_rows_inverse(h: HeaderModel, input: Seq<u8>, model: IndexModel, op: u8, front: Seq<u8>, r: int)
    requires
        header_wf(h),
        op < 8,
        coefficients_out(h, input, model, op, output_dc_table(), output_ac_table()) is Ok,
        front.len() + coefficients_out(h, input, model, op, output_dc_table(), output_ac_table()).unwrap().len() + 2
            <= u64::MAX >> 12u64,
        0 <= r <= mcu_rows_of(h),
    ensures
        ({
            let h1 = header_out(h, geometry_of(op).0);
            let out = front + coefficients_out(h, input, model, op, output_dc_table(), output_ac_table()).unwrap()
                + seq![0xffu8, 0xd9u8];
            write_rows(
                h1,
                out,
                output_index_model(out, h1, front.len() as int),
                inverse_index(op),
                output_dc_table(),
                output_ac_table(),
                r,
            ) == write_rows(h, input, model, 0, output_dc_table(), output_ac_table(), r)
        }),
    decreases r,
{
    lemma_header_out_wf(h, op);
    let h1 = header_out(h, geometry_of(op).0);
    let inv = inverse_index(op);
    assert(geometry_of(inv).0 == geometry_of(op).0);
    assert(output_grid(h1, inv) == output_grid(h, 0));
    if r > 0 {
        lemma_write_rows_inverse(h, input, model, op, front, r - 1);
        lemma_write_row_inverse(
            h,
            input,
            model,
            op,
            front,
            write_rows(h, input, model, 0, output_dc_table(), output_ac_table(), r - 1),
            r - 1,
            mcu_columns_of(h),
        );
    } else {
        assert(Seq::new(h1.frame.components.len(), |i: int| 0int) =~= Seq::new(h.frame.components.len(), |i: int| 0int));
    }
}

/// The inverse law on the written JPEG: transforming the output of an
/// operation, with the output's own header and the index that the
/// library's reader builds of it, by the inverse operation writes exactly
/// what the identity writes for the input. The output must be short
/// enough that a reader position fits a saved state.
#[verifier::rlimit(40)]
pub proof fn lemma_output_inverse(input: Seq<u8>, model: IndexModel, op: u8)
    requires
        header_of(input) is Ok,
        op < 8,
        transformed_out(header_of(input).unwrap().0, input, model, op) is Ok,
        transformed_out(header_of(input).unwrap().0, input, model, op).unwrap().len() <= u64::MAX >> 12u64,
    ensures
        ({
            let h = header_of(input).unwrap().0;
            let out = transformed_out(h, input, model, op).unwrap();
            let h1 = header_of(out).unwrap().0;
            let start1 = header_of(out).unwrap().1;
            &&& header_of(out) is Ok
            &&& h1 == header_out(h, geometry_of(op).0)
            &&& index_walk(h1, out, start1) is Ok
            &&& transformed_out(h1, out, index_model(out, start1, index_walk(h1, out, start1).unwrap()), inverse_index(op))
                == transformed_out(h, input, model, 0)
        }),
{
    let h = header_of(input).unwrap().0;
    crate::scan::lemma_header_of_wf(input);
    let swap = geometry_of(op).0;
    let tables = output_tables();
    let head = headers_out(h.segments, swap, tables).unwrap();
    let scan = coefficients_out(h, input, model, op, output_dc_table(), output_ac_table()).unwrap();
    let out = transformed_out(h, input, model, op).unwrap();
    let front = seq![0xffu8, SOI] + head;
    assert(out =~= front + scan + seq![0xffu8, 0xd9u8]);
    let h1 = header_out(h, swap);
    let start1 = front.len() as int;
    assert(header_of(out) == Ok::<(HeaderModel, int), JpegError>((h1, start1))) by {
        lemma_output_reads_back(input, model, op);
    }
    let inv = inverse_index(op);
    let model1 = index_model(out, start1, index_walk(h1, out, start1).unwrap());
    assert(index_walk(h1, out, start1) is Ok && model1 == output_index_model(out, h1, start1)) by {
        lemma_output_indexes(h, input, model, op, front);
    }
    assert(headers_out(h1.segments, geometry_of(inv).0, tables) == headers_out(h.segments, geometry_of(0).0, tables)) by {
        assert(geometry_of(inv).0 == swap);
        lemma_header_rewritten_twice(h.segments, swap);
    }
    assert(coefficients_out(h1, out, model1, inv, output_dc_table(), output_ac_table()) == coefficients_out(
        h,
        input,
        model,
        0,
        output_dc_table(),
        output_ac_table(),
    )) by {
        assert(geometry_of(inv).0 == swap);
        lemma_header_out_wf(h, op);
        assert(output_grid(h1, inv) == output_grid(h, 0));
        lemma_write_rows_inverse(h, input, model, op, front, mcu_rows_of(h));
    }
}

/// Every scan component of the output's header selects a table that the
/// header defines.
pub proof fn lemma_output_tables_known(h: HeaderModel, swap: bool, k: int)
    requires
        0 <= k <= h.scan.components.len(),
    ensures
        tables_known(header_out(h, swap), k) == Ok::<(), JpegError>(()),
    decreases k,
{
    let t = output_tables();
    assert(find_table(t, 0, 0) == Some(output_dc_table()));
    assert(find_table_from(t, 1, 0, 1) == Some(output_ac_table()));
    assert(find_table(t, 1, 0) == Some(output_ac_table()));
    if k > 0 {
        lemma_output_tables_known(h, swap, k - 1);
    }
}

} // verus!
