//! The JPEG header: segments up to the start of the scan, the baseline
//! frame, the scan's component list, and the Huffman tables.
use vstd::prelude::*;
use crate::error::JpegError;
use crate::entropy::{advance, codes_before, codes_fit, lemma_advance_add, table_def, table_defs, BitReader, HuffmanTable, TableDef};
use crate::bits::{bits_number, lemma_bits_number_bound};
use crate::block::{decode_ac, decode_block_bits, extend, lemma_extend_bound, zero_block, zigzag, zigzag_at};
use vstd::arithmetic::power2::pow2;
use vstd::bits::{lemma_u32_pow2_no_overflow, lemma_u32_shl_is_mul, lemma_u32_shr_is_div};

verus! {

/// A big-endian 16-bit number.
pub open spec fn be16(high: u8, low: u8) -> int {
    high as int * 256 + low as int
}

/// A 16-bit number from two big-endian bytes.
pub fn read_be16(high: u8, low: u8) -> (r: u16)
    ensures
        r as int == be16(high, low),
{
    (high as u16) * 256 + (low as u16)
}

/// A component of the frame.
#[derive(Clone, Copy)]
pub struct Component {
    pub id: u8,
    pub horizontal_sampling: usize,
    pub vertical_sampling: usize,
}

/// The baseline frame: image size and components.
pub struct Frame {
    pub width: usize,
    pub height: usize,
    pub max_horizontal_sampling: usize,
    pub max_vertical_sampling: usize,
    pub components: Vec<Component>,
}

/// The mathematical value of a frame.
pub struct FrameModel {
    pub width: int,
    pub height: int,
    pub max_horizontal_sampling: int,
    pub max_vertical_sampling: int,
    pub components: Seq<Component>,
}

impl View for Frame {
    type V = FrameModel;

    open spec fn view(&self) -> FrameModel {
        FrameModel {
            width: self.width as int,
            height: self.height as int,
            max_horizontal_sampling: self.max_horizontal_sampling as int,
            max_vertical_sampling: self.max_vertical_sampling as int,
            components: self.components@,
        }
    }
}

/// The `k`-th component listed in a SOF0 segment's data.
pub open spec fn frame_component(data: Seq<u8>, k: int) -> Component {
    Component {
        id: data[6 + 3 * k],
        horizontal_sampling: (data[7 + 3 * k] >> 4u8) as usize,
        vertical_sampling: (data[7 + 3 * k] & 0x0fu8) as usize,
    }
}

/// The components listed in a SOF0 segment's data.
pub open spec fn frame_components(data: Seq<u8>) -> Seq<Component> {
    Seq::new(data[5] as nat, |k: int| frame_component(data, k))
}

/// Some component has a sampling factor of zero.
pub open spec fn has_zero_sampling(components: Seq<Component>) -> bool {
    exists|k: int|
        #![trigger components[k]]
        0 <= k < components.len() && (components[k].horizontal_sampling == 0
            || components[k].vertical_sampling == 0)
}

/// The largest horizontal sampling factor, or 0 for no components.
pub open spec fn max_horizontal(components: Seq<Component>) -> int
    decreases components.len(),
{
    if components.len() == 0 {
        0
    } else {
        let rest = max_horizontal(components.drop_last());
        let last = components.last().horizontal_sampling as int;
        if last > rest {
            last
        } else {
            rest
        }
    }
}

/// The largest vertical sampling factor, or 0 for no components.
pub open spec fn max_vertical(components: Seq<Component>) -> int
    decreases components.len(),
{
    if components.len() == 0 {
        0
    } else {
        let rest = max_vertical(components.drop_last());
        let last = components.last().vertical_sampling as int;
        if last > rest {
            last
        } else {
            rest
        }
    }
}

/// The frame that a SOF0 segment's data describes, or why it is refused.
pub open spec fn frame_of(data: Seq<u8>) -> Result<FrameModel, JpegError> {
    if data.len() < 6 || data[0] != 8 {
        Err(JpegError::NotEightBitFrame)
    } else if data.len() != 6 + 3 * data[5] {
        Err(JpegError::InvalidFrameComponents)
    } else {
        let n = data[5] as int;
        let components = frame_components(data);
        if has_zero_sampling(components) {
            Err(JpegError::ZeroSamplingFactor)
        } else if n == 0 {
            Err(JpegError::FrameWithoutComponents)
        } else {
            Ok(
                FrameModel {
                    width: be16(data[3], data[4]),
                    height: be16(data[1], data[2]),
                    max_horizontal_sampling: max_horizontal(components),
                    max_vertical_sampling: max_vertical(components),
                    components,
                },
            )
        }
    }
}

/// Parses the data of a SOF0 segment.
pub fn parse_frame(data: &[u8]) -> (r: Result<Frame, JpegError>)
    ensures
        match frame_of(data@) {
            Ok(model) => r matches Ok(frame) && frame@ == model,
            Err(e) => r matches Err(f) && f == e,
        },
{
    if data.len() < 6 || data[0] != 8 {
        return Err(JpegError::NotEightBitFrame);
    }
    let component_count = data[5] as usize;
    if data.len() != 6 + 3 * component_count {
        return Err(JpegError::InvalidFrameComponents);
    }
    let height = read_be16(data[1], data[2]) as usize;
    let width = read_be16(data[3], data[4]) as usize;
    let ghost expected = frame_components(data@);
    let mut components: Vec<Component> = Vec::new();
    let mut index: usize = 0;
    while index < component_count
        invariant
            0 <= index <= component_count,
            component_count == data@[5],
            data@[0] == 8,
            data@.len() == 6 + 3 * component_count,
            expected == frame_components(data@),
            components@ == expected.take(index as int),
            forall|k: int| 0 <= k < index ==> #[trigger] expected[k].horizontal_sampling != 0
                && expected[k].vertical_sampling != 0,
            expected.len() == component_count,
        decreases component_count - index,
    {
        let offset = 6 + 3 * index;
        let sampling = data[offset + 1];
        let horizontal_sampling = (sampling >> 4u8) as usize;
        let vertical_sampling = (sampling & 0x0fu8) as usize;
        if horizontal_sampling == 0 || vertical_sampling == 0 {
            proof {
                assert(expected[index as int].horizontal_sampling == 0 || expected[index as int].vertical_sampling == 0);
                let w = index as int;
                assert(0 <= w < frame_components(data@).len());
                assert(frame_components(data@)[w].horizontal_sampling == 0
                    || frame_components(data@)[w].vertical_sampling == 0);
                assert(has_zero_sampling(frame_components(data@)));
            }
            return Err(JpegError::ZeroSamplingFactor);
        }
        components.push(Component { id: data[offset], horizontal_sampling, vertical_sampling });
        index = index + 1;
        proof {
            assert(components@ =~= expected.take(index as int));
        }
    }
    assert(components@ =~= expected);
    assert forall|k: int| #![trigger expected[k]] 0 <= k < expected.len() implies !(expected[k].horizontal_sampling == 0
        || expected[k].vertical_sampling == 0) by {
        assert(expected[k].horizontal_sampling != 0);
    }
    assert(!has_zero_sampling(expected));
    if component_count == 0 {
        return Err(JpegError::FrameWithoutComponents);
    }
    let mut max_horizontal_sampling: usize = 0;
    let mut max_vertical_sampling: usize = 0;
    let mut k: usize = 0;
    while k < component_count
        invariant
            0 <= k <= component_count,
            components@ == expected,
            expected.len() == component_count,
            max_horizontal_sampling as int == max_horizontal(expected.take(k as int)),
            max_vertical_sampling as int == max_vertical(expected.take(k as int)),
        decreases component_count - k,
    {
        proof {
            assert(expected.take(k + 1).drop_last() =~= expected.take(k as int));
        }
        let component = components[k];
        if component.horizontal_sampling > max_horizontal_sampling {
            max_horizontal_sampling = component.horizontal_sampling;
        }
        if component.vertical_sampling > max_vertical_sampling {
            max_vertical_sampling = component.vertical_sampling;
        }
        k = k + 1;
    }
    assert(expected.take(component_count as int) =~= expected);
    Ok(Frame { width, height, max_horizontal_sampling, max_vertical_sampling, components })
}

/// A component of the scan: which frame component, its tables, and where
/// its blocks start among the blocks of an MCU.
#[derive(Clone, Copy)]
pub struct ScanComponent {
    pub frame_index: usize,
    pub dc_table: u8,
    pub ac_table: u8,
    pub first_block: usize,
}

/// The scan's components, in the order of the scan.
pub struct Scan {
    pub components: Vec<ScanComponent>,
    pub blocks_per_mcu: usize,
}

/// The mathematical value of a scan.
pub struct ScanModel {
    pub components: Seq<ScanComponent>,
    pub blocks_per_mcu: int,
}

impl View for Scan {
    type V = ScanModel;

    open spec fn view(&self) -> ScanModel {
        ScanModel { components: self.components@, blocks_per_mcu: self.blocks_per_mcu as int }
    }
}

/// The first index at or after `start` of the component with id `id`.
pub open spec fn position_from(components: Seq<Component>, id: u8, start: int) -> Option<int>
    decreases components.len() - start,
{
    if start < 0 || start >= components.len() {
        None
    } else if components[start].id == id {
        Some(start)
    } else {
        position_from(components, id, start + 1)
    }
}

/// The index of the first frame component with id `id`.
pub open spec fn position_of(components: Seq<Component>, id: u8) -> Option<int> {
    position_from(components, id, 0)
}

/// Every component selector among the first `count` of a SOS segment's
/// data names a frame component.
pub open spec fn selectors_known(data: Seq<u8>, components: Seq<Component>, count: int) -> bool {
    forall|k: int| #![trigger data[1 + 2 * k]] 0 <= k < count ==> position_of(components, data[1 + 2 * k]) is Some
}

/// The frame component that the `k`-th scan component selects.
pub open spec fn selected(data: Seq<u8>, components: Seq<Component>, k: int) -> Component {
    components[position_of(components, data[1 + 2 * k]).unwrap()]
}

/// Blocks per MCU of the first `count` scan components.
pub open spec fn blocks_before(data: Seq<u8>, components: Seq<Component>, count: int) -> int
    decreases count,
{
    if count <= 0 {
        0
    } else {
        blocks_before(data, components, count - 1) + selected(data, components, count - 1).horizontal_sampling
            * selected(data, components, count - 1).vertical_sampling
    }
}

/// The `k`-th component that a SOS segment's data lists.
pub open spec fn scan_component(data: Seq<u8>, components: Seq<Component>, k: int) -> ScanComponent {
    ScanComponent {
        frame_index: position_of(components, data[1 + 2 * k]).unwrap() as usize,
        dc_table: data[2 + 2 * k] >> 4u8,
        ac_table: data[2 + 2 * k] & 0x0fu8,
        first_block: blocks_before(data, components, k) as usize,
    }
}

/// The scan that a SOS segment's data describes for the frame, or why it
/// is refused.
pub open spec fn scan_of(data: Seq<u8>, frame: FrameModel) -> Result<ScanModel, JpegError> {
    if data.len() == 0 {
        Err(JpegError::EmptyScanHeader)
    } else if data.len() != 1 + 2 * data[0] + 3 {
        Err(JpegError::InvalidScanComponents)
    } else {
        let n = data[0] as int;
        let tail = 1 + 2 * n;
        if data[tail] != 0 || data[tail + 1] != 63 || data[tail + 2] != 0 {
            Err(JpegError::NotBaselineScan)
        } else if !selectors_known(data, frame.components, n) {
            Err(JpegError::UnknownScanComponent)
        } else {
            Ok(
                ScanModel {
                    components: Seq::new(n as nat, |k: int| scan_component(data, frame.components, k)),
                    blocks_per_mcu: blocks_before(data, frame.components, n),
                },
            )
        }
    }
}

/// Sampling factors are at most 15, so a component has at most 225 blocks
/// in an MCU.
pub open spec fn sampling_bounded(components: Seq<Component>) -> bool {
    forall|i: int|
        #![trigger components[i]]
        0 <= i < components.len() ==> components[i].horizontal_sampling <= 15
            && components[i].vertical_sampling <= 15
}

pub proof fn lemma_frame_sampling_bounded(data: Seq<u8>)
    requires
        frame_of(data) is Ok,
    ensures
        sampling_bounded(frame_of(data).unwrap().components),
        frame_of(data).unwrap().components.len() <= 255,
{
    let c = frame_components(data);
    assert forall|i: int| #![trigger c[i]] 0 <= i < c.len() implies c[i].horizontal_sampling <= 15
        && c[i].vertical_sampling <= 15 by {
        let b = data[7 + 3 * i];
        assert(b >> 4u8 <= 15 && b & 0x0fu8 <= 15) by (bit_vector);
    }
}

pub proof fn lemma_blocks_before_bounded(data: Seq<u8>, components: Seq<Component>, count: int)
    requires
        0 <= count,
        selectors_known(data, components, count),
        sampling_bounded(components),
    ensures
        0 <= blocks_before(data, components, count) <= 225 * count,
    decreases count,
{
    if count > 0 {
        lemma_blocks_before_bounded(data, components, count - 1);
        let k = count - 1;
        assert(position_of(components, data[1 + 2 * k]) is Some);
        lemma_position(components, data[1 + 2 * k], 0);
        let c = selected(data, components, k);
        assert(c.horizontal_sampling * c.vertical_sampling <= 225) by (nonlinear_arith)
            requires c.horizontal_sampling <= 15, c.vertical_sampling <= 15;
    }
}

pub proof fn lemma_position(components: Seq<Component>, id: u8, start: int)
    requires
        0 <= start,
    ensures
        position_from(components, id, start) matches Some(i) ==> start <= i < components.len()
            && components[i].id == id,
        position_from(components, id, start) is None ==> forall|i: int|
            #![trigger components[i]]
            start <= i < components.len() ==> components[i].id != id,
    decreases components.len() - start,
{
    if start < components.len() {
        lemma_position(components, id, start + 1);
    }
}

/// Parses the data of a SOS segment against the frame.
pub fn parse_scan(data: &[u8], frame: &Frame) -> (r: Result<Scan, JpegError>)
    requires
        sampling_bounded(frame@.components),
        frame@.components.len() <= 255,
    ensures
        match scan_of(data@, frame@) {
            Ok(model) => r matches Ok(scan) && scan@ == model,
            Err(e) => r matches Err(f) && f == e,
        },
{
    if data.len() == 0 {
        return Err(JpegError::EmptyScanHeader);
    }
    let component_count = data[0] as usize;
    if data.len() != 1 + 2 * component_count + 3 {
        return Err(JpegError::InvalidScanComponents);
    }
    let tail = 1 + 2 * component_count;
    if data[tail] != 0 || data[tail + 1] != 63 || data[tail + 2] != 0 {
        return Err(JpegError::NotBaselineScan);
    }
    let ghost frame_components = frame@.components;
    let ghost expected = Seq::new(component_count as nat, |k: int| scan_component(data@, frame_components, k));
    let mut components: Vec<ScanComponent> = Vec::new();
    let mut blocks_per_mcu: usize = 0;
    let mut index: usize = 0;
    while index < component_count
        invariant
            0 <= index <= component_count,
            component_count == data@[0],
            data@.len() == 1 + 2 * component_count + 3,
            data@[1 + 2 * component_count] == 0,
            data@[2 + 2 * component_count] == 63,
            data@[3 + 2 * component_count] == 0,
            frame_components == frame@.components,
            sampling_bounded(frame_components),
            frame_components.len() <= 255,
            expected == Seq::new(component_count as nat, |k: int| scan_component(data@, frame_components, k)),
            selectors_known(data@, frame_components, index as int),
            components@ == expected.take(index as int),
            blocks_per_mcu as int == blocks_before(data@, frame_components, index as int),
        decreases component_count - index,
    {
        proof {
            lemma_blocks_before_bounded(data@, frame_components, index as int);
        }
        let selector = data[1 + 2 * index];
        let tables = data[2 + 2 * index];
        let mut position: usize = 0;
        let frame_count = frame.components.len();
        while position < frame_count && frame.components[position].id != selector
            invariant
                0 <= position <= frame_count,
                frame_count == frame_components.len(),
                frame_components == frame@.components,
                position_of(frame_components, selector) == position_from(frame_components, selector, position as int),
            decreases frame_count - position,
        {
            position = position + 1;
        }
        if position >= frame_count {
            proof {
                assert(position_of(frame_components, data@[1 + 2 * index]) is None);
                assert(!selectors_known(data@, frame_components, component_count as int));
            }
            return Err(JpegError::UnknownScanComponent);
        }
        proof {
            assert(position_of(frame_components, selector) == Some(position as int));
            assert(selectors_known(data@, frame_components, index + 1));
        }
        components.push(
            ScanComponent {
                frame_index: position,
                dc_table: tables >> 4u8,
                ac_table: tables & 0x0fu8,
                first_block: blocks_per_mcu,
            },
        );
        let component = frame.components[position];
        proof {
            assert(component == selected(data@, frame_components, index as int));
            assert(component.horizontal_sampling * component.vertical_sampling <= 225) by (nonlinear_arith)
                requires component.horizontal_sampling <= 15, component.vertical_sampling <= 15;
        }
        blocks_per_mcu = blocks_per_mcu + component.horizontal_sampling * component.vertical_sampling;
        index = index + 1;
        proof {
            assert(components@ =~= expected.take(index as int));
        }
    }
    assert(components@ =~= expected);
    Ok(Scan { components, blocks_per_mcu })
}

/// The tables without those of class `class` and id `id`.
pub open spec fn tables_without(tables: Seq<TableDef>, class: u8, id: u8) -> Seq<TableDef>
    decreases tables.len(),
{
    if tables.len() == 0 {
        seq![]
    } else {
        let rest = tables_without(tables.drop_last(), class, id);
        if tables.last().class == class && tables.last().id == id {
            rest
        } else {
            rest.push(tables.last())
        }
    }
}

/// The tables after the definitions of a DHT segment's data from
/// `position` on, each replacing any earlier table of its class and id, or
/// why the data is refused.
pub open spec fn tables_after_dht(data: Seq<u8>, position: int, tables: Seq<TableDef>) -> Result<Seq<TableDef>, JpegError>
    decreases data.len() - position,
{
    if position < 0 || position >= data.len() {
        Ok(tables)
    } else if data.len() - position < 17 {
        Err(JpegError::TruncatedHuffmanTable)
    } else {
        let class = data[position] >> 4u8;
        let id = data[position] & 0x0fu8;
        if class > 1 || id > 3 {
            Err(JpegError::InvalidHuffmanSelector)
        } else {
            let counts = data.subrange(position + 1, position + 17);
            let total = codes_before(counts, 16);
            if data.len() - (position + 17) < total {
                Err(JpegError::TruncatedHuffmanSymbols)
            } else if !codes_fit(counts, 16) {
                Err(JpegError::OversubscribedHuffmanTable)
            } else {
                let symbols = data.subrange(position + 17, position + 17 + total);
                proof {
                    crate::entropy::lemma_codes_before_monotone(counts, 0, 16);
                }
                tables_after_dht(
                    data,
                    position + 17 + total,
                    tables_without(tables, class, id).push(TableDef { class, id, counts, symbols }),
                )
            }
        }
    }
}

/// Removes the tables of class `class` and id `id`.
fn remove_tables(tables: &mut Vec<HuffmanTable>, class: u8, id: u8)
    ensures
        table_defs(final(tables)@) == tables_without(table_defs(old(tables)@), class, id),
{
    let ghost initial = tables@;
    let count = tables.len();
    let mut kept: Vec<HuffmanTable> = Vec::new();
    let mut j: usize = 0;
    assert(initial.skip(0) =~= initial);
    assert(table_defs(initial.take(0)) =~= Seq::<TableDef>::empty());
    assert(table_defs(kept@) =~= Seq::<TableDef>::empty());
    while tables.len() > 0
        invariant
            j <= initial.len(),
            count == initial.len(),
            tables@ == initial.skip(j as int),
            table_defs(kept@) == tables_without(table_defs(initial.take(j as int)), class, id),
            initial == old(tables)@,
        decreases tables@.len(),
    {
        let table = tables.remove(0);
        proof {
            assert(table == initial[j as int]);
            assert(initial.take(j + 1) =~= initial.take(j as int).push(table));
            assert(table_defs(initial.take(j + 1)) =~= table_defs(initial.take(j as int)).push(table_def(table)));
            assert(table_defs(initial.take(j + 1)).drop_last() =~= table_defs(initial.take(j as int)));
            assert(initial.skip(j + 1) =~= initial.skip(j as int).drop_first());
        }
        let keep = !(table.class() == class && table.id() == id);
        if keep {
            kept.push(table);
            proof {
                assert(table_defs(kept@) =~= tables_without(table_defs(initial.take(j as int)), class, id).push(table_def(table)));
            }
        }
        j = j + 1;
    }
    assert(initial.take(j as int) =~= initial);
    *tables = kept;
}

/// Parses the table definitions of a DHT segment's data into `tables`,
/// each replacing any earlier table of the same class and id.
pub fn parse_huffman_tables(data: &[u8], tables: &mut Vec<HuffmanTable>) -> (r: Result<(), JpegError>)
    ensures
        match tables_after_dht(data@, 0, table_defs(old(tables)@)) {
            Ok(defs) => r is Ok && table_defs(final(tables)@) == defs,
            Err(e) => r == Err::<(), JpegError>(e),
        },
{
    let mut position: usize = 0;
    let len = data.len();
    while position < len
        invariant
            len == data@.len(),
            position <= len,
            tables_after_dht(data@, 0, table_defs(old(tables)@)) == tables_after_dht(
                data@,
                position as int,
                table_defs(tables@),
            ),
        decreases len - position,
    {
        let ghost before = table_defs(tables@);
        let ghost start = position as int;
        if len - position < 17 {
            return Err(JpegError::TruncatedHuffmanTable);
        }
        let definition = data[position];
        position = position + 1;
        let class = definition >> 4u8;
        let id = definition & 0x0fu8;
        if class > 1 || id > 3 {
            return Err(JpegError::InvalidHuffmanSelector);
        }
        let mut counts = [0u8; 16];
        let mut k: usize = 0;
        while k < 16
            invariant
                0 <= k <= 16,
                counts@.len() == 16,
                len == data@.len(),
                position + 16 <= data@.len(),
                forall|i: int| 0 <= i < k ==> counts@[i] == data@[position + i],
            decreases 16 - k,
        {
            counts[k] = data[position + k];
            k = k + 1;
        }
        proof {
            assert(counts@ =~= data@.subrange(start + 1, start + 17));
        }
        position = position + 16;
        let mut symbol_count: usize = 0;
        let mut l: usize = 0;
        while l < 16
            invariant
                0 <= l <= 16,
                symbol_count as int == codes_before(counts@, l as int),
                symbol_count <= 255 * l,
            decreases 16 - l,
        {
            symbol_count = symbol_count + counts[l] as usize;
            l = l + 1;
        }
        if len - position < symbol_count {
            return Err(JpegError::TruncatedHuffmanSymbols);
        }
        let mut symbols: Vec<u8> = Vec::new();
        let mut m: usize = 0;
        while m < symbol_count
            invariant
                0 <= m <= symbol_count,
                len == data@.len(),
                position + symbol_count <= data@.len(),
                symbols@ == data@.subrange(position as int, position + m),
            decreases symbol_count - m,
        {
            symbols.push(data[position + m]);
            m = m + 1;
            proof {
                assert(symbols@ =~= data@.subrange(position as int, position + m));
            }
        }
        position = position + symbol_count;
        remove_tables(tables, class, id);
        match HuffmanTable::new(class, id, counts, symbols) {
            Ok(table) => {
                tables.push(table);
                proof {
                    assert(table_defs(tables@) =~= tables_without(before, class, id).push(table_def(table)));
                }
            },
            Err(e) => {
                return Err(e);
            },
        }
    }
    Ok(())
}

/// The SOI (start of image) marker.
pub const SOI: u8 = 0xd8;
/// The EOI (end of image) marker.
pub const EOI: u8 = 0xd9;
/// The DHT (define Huffman tables) marker.
pub const DHT: u8 = 0xc4;
/// The DQT (define quantization tables) marker.
pub const DQT: u8 = 0xdb;
/// The DRI (define restart interval) marker.
pub const DRI: u8 = 0xdd;
/// The SOF0 (baseline frame) marker.
pub const SOF0: u8 = 0xc0;
/// The SOS (start of scan) marker.
pub const SOS: u8 = 0xda;

/// Reads one byte at `position`, and moves past it.
pub fn read_u8(input: &[u8], position: &mut usize) -> (r: Result<u8, JpegError>)
    ensures
        *old(position) < input@.len() ==> r == Ok::<u8, JpegError>(input@[*old(position) as int])
            && *final(position) == *old(position) + 1,
        *old(position) >= input@.len() ==> r == Err::<u8, JpegError>(JpegError::UnexpectedEof),
{
    if *position >= input.len() {
        return Err(JpegError::UnexpectedEof);
    }
    let byte = input[*position];
    *position = *position + 1;
    Ok(byte)
}

/// Reads a big-endian 16-bit number at `position`, and moves past it.
pub fn read_u16(input: &[u8], position: &mut usize) -> (r: Result<u16, JpegError>)
    ensures
        *old(position) + 2 <= input@.len() ==> (r matches Ok(v) && v as int == be16(
            input@[*old(position) as int],
            input@[*old(position) + 1],
        ) && *final(position) == *old(position) + 2),
        *old(position) + 2 > input@.len() ==> r == Err::<u16, JpegError>(JpegError::UnexpectedEof),
{
    if *position >= input.len() || input.len() - *position < 2 {
        return Err(JpegError::UnexpectedEof);
    }
    let high = input[*position];
    let low = input[*position + 1];
    *position = *position + 2;
    Ok(read_be16(high, low))
}

/// The next marker at or after `position`: bytes before a `0xff` are
/// skipped, fill bytes `0xff` are skipped, and `0xff 0x00` is no marker.
/// `after_ff` says that a `0xff` was just read.
pub open spec fn marker_search(input: Seq<u8>, position: int, after_ff: bool) -> Result<(u8, int), JpegError>
    decreases input.len() - position,
{
    if position < 0 || position >= input.len() {
        Err(JpegError::UnexpectedEof)
    } else if !after_ff {
        marker_search(input, position + 1, input[position] == 0xff)
    } else if input[position] == 0xff {
        marker_search(input, position + 1, true)
    } else if input[position] == 0 {
        marker_search(input, position + 1, false)
    } else {
        Ok((input[position], position + 1))
    }
}

pub proof fn lemma_marker_search_advances(input: Seq<u8>, position: int, after_ff: bool)
    ensures
        marker_search(input, position, after_ff) matches Ok((marker, next)) ==> position < next
            <= input.len() && marker != 0xff && marker != 0,
    decreases input.len() - position,
{
    if 0 <= position < input.len() {
        lemma_marker_search_advances(input, position + 1, true);
        lemma_marker_search_advances(input, position + 1, false);
    }
}

/// Reads the next marker.
pub fn read_marker(input: &[u8], position: &mut usize) -> (r: Result<u8, JpegError>)
    ensures
        match marker_search(input@, *old(position) as int, false) {
            Ok((marker, next)) => r == Ok::<u8, JpegError>(marker) && *final(position) == next,
            Err(e) => r == Err::<u8, JpegError>(e),
        },
{
    let mut after_ff = false;
    let len = input.len();
    while *position < len
        invariant
            len == input@.len(),
            marker_search(input@, *old(position) as int, false) == marker_search(
                input@,
                *position as int,
                after_ff,
            ),
        decreases len - *position,
    {
        let byte = input[*position];
        *position = *position + 1;
        if !after_ff {
            after_ff = byte == 0xff;
        } else if byte == 0xff {
            after_ff = true;
        } else if byte == 0 {
            after_ff = false;
        } else {
            return Ok(byte);
        }
    }
    Err(JpegError::UnexpectedEof)
}

/// A header segment: its marker and its data.
pub struct Segment {
    pub marker: u8,
    pub data: Vec<u8>,
}

/// The mathematical value of a segment.
pub struct SegmentModel {
    pub marker: u8,
    pub data: Seq<u8>,
}

impl View for Segment {
    type V = SegmentModel;

    open spec fn view(&self) -> SegmentModel {
        SegmentModel { marker: self.marker, data: self.data@ }
    }
}

/// The values of a list of segments.
pub open spec fn segment_models(segments: Seq<Segment>) -> Seq<SegmentModel> {
    segments.map_values(|s: Segment| s@)
}

/// What the header parser has gathered before the scan.
pub struct HeaderProgress {
    pub segments: Seq<SegmentModel>,
    pub frame: Option<FrameModel>,
    pub tables: Seq<TableDef>,
    pub restart_interval: int,
}

/// What one segment does to what the parser has gathered: SOF0 sets the
/// frame, DHT defines tables, DRI sets the restart interval, other frame
/// markers are refused; every segment but DHT is kept.
pub open spec fn segment_effect(marker: u8, data: Seq<u8>, progress: HeaderProgress) -> Result<HeaderProgress, JpegError> {
    let effect = if marker == SOF0 {
        match frame_of(data) {
            Ok(frame) => Ok(HeaderProgress { frame: Some(frame), ..progress }),
            Err(e) => Err(e),
        }
    } else if marker == DHT {
        match tables_after_dht(data, 0, progress.tables) {
            Ok(tables) => Ok(HeaderProgress { tables, ..progress }),
            Err(e) => Err(e),
        }
    } else if marker == DRI {
        if data.len() != 2 {
            Err(JpegError::InvalidRestartInterval)
        } else {
            Ok(HeaderProgress { restart_interval: be16(data[0], data[1]), ..progress })
        }
    } else if 0xc1 <= marker <= 0xcf {
        Err(JpegError::UnsupportedProcess)
    } else {
        Ok(progress)
    };
    match effect {
        Ok(next) => Ok(
            if marker != DHT {
                HeaderProgress { segments: next.segments.push(SegmentModel { marker, data }), ..next }
            } else {
                next
            },
        ),
        Err(e) => Err(e),
    }
}

/// The segments from `position` up to and including SOS, gathered onto
/// `progress`, and the position after SOS; or why the header is refused.
pub open spec fn header_segments(input: Seq<u8>, position: int, progress: HeaderProgress) -> Result<(HeaderProgress, int), JpegError>
    decreases input.len() - position,
{
    match marker_search(input, position, false) {
        Err(e) => Err(e),
        Ok((marker, p)) => {
            if marker == EOI {
                Err(JpegError::EndedBeforeScan)
            } else if marker == SOI || marker == 0x01 || (0xd0 <= marker <= 0xd7) {
                Err(JpegError::UnexpectedStandaloneMarker(marker))
            } else if p + 2 > input.len() {
                Err(JpegError::UnexpectedEof)
            } else {
                let length = be16(input[p], input[p + 1]);
                if length < 2 {
                    Err(JpegError::InvalidSegmentLength)
                } else if p + length > input.len() {
                    Err(JpegError::UnexpectedEof)
                } else {
                    let data = input.subrange(p + 2, p + length);
                    match segment_effect(marker, data, progress) {
                        Err(e) => Err(e),
                        Ok(next) => {
                            if marker == SOS {
                                Ok((next, p + length))
                            } else {
                                proof {
                                    lemma_marker_search_advances(input, position, false);
                                }
                                header_segments(input, p + length, next)
                            }
                        },
                    }
                }
            }
        },
    }
}

/// Nothing gathered yet.
pub open spec fn empty_progress() -> HeaderProgress {
    HeaderProgress {
        segments: Seq::<SegmentModel>::empty(),
        frame: None,
        tables: Seq::<TableDef>::empty(),
        restart_interval: 0,
    }
}

/// The mathematical value of a header.
pub struct HeaderModel {
    pub segments: Seq<SegmentModel>,
    pub frame: FrameModel,
    pub scan: ScanModel,
    pub tables: Seq<TableDef>,
}

/// The header of a JPEG and the position where its entropy-coded data
/// starts, or why it is refused.
pub open spec fn header_of(input: Seq<u8>) -> Result<(HeaderModel, int), JpegError> {
    if input.len() < 1 {
        Err(JpegError::UnexpectedEof)
    } else if input[0] != 0xff {
        Err(JpegError::NotJpeg)
    } else if input.len() < 2 {
        Err(JpegError::UnexpectedEof)
    } else if input[1] != SOI {
        Err(JpegError::NotJpeg)
    } else {
        match header_segments(input, 2, empty_progress()) {
            Err(e) => Err(e),
            Ok((progress, position)) => {
                if progress.restart_interval != 0 {
                    Err(JpegError::RestartMarkersUnsupported)
                } else {
                    match progress.frame {
                        None => Err(JpegError::MissingFrame),
                        Some(frame) => match scan_of(progress.segments.last().data, frame) {
                            Err(e) => Err(e),
                            Ok(scan) => Ok(
                                (
                                    HeaderModel { segments: progress.segments, frame, scan, tables: progress.tables },
                                    position,
                                ),
                            ),
                        },
                    }
                }
            },
        }
    }
}

proof fn lemma_header_of_error(input: Seq<u8>, e: JpegError)
    requires
        input.len() >= 2,
        input[0] == 0xff,
        input[1] == SOI,
        header_segments(input, 2, empty_progress()) == Err::<(HeaderProgress, int), JpegError>(e),
    ensures
        header_of(input) == Err::<(HeaderModel, int), JpegError>(e),
{
}

/// The header of a JPEG, read up to the start of its entropy-coded data.
pub struct Header {
    pub segments: Vec<Segment>,
    pub frame: Frame,
    pub scan: Scan,
    pub huffman_tables: Vec<HuffmanTable>,
}

impl View for Header {
    type V = HeaderModel;

    open spec fn view(&self) -> HeaderModel {
        HeaderModel {
            segments: segment_models(self.segments@),
            frame: self.frame@,
            scan: self.scan@,
            tables: table_defs(self.huffman_tables@),
        }
    }
}

/// The value of what the parser has gathered so far.
pub open spec fn progress_of(
    segments: Seq<Segment>,
    frame: Option<Frame>,
    tables: Seq<HuffmanTable>,
    restart_interval: u16,
) -> HeaderProgress {
    HeaderProgress {
        segments: segment_models(segments),
        frame: match frame {
            Some(f) => Some(f@),
            None => None,
        },
        tables: table_defs(tables),
        restart_interval: restart_interval as int,
    }
}

/// What `parse_segments` gathers.
pub struct Gathered {
    pub segments: Vec<Segment>,
    pub frame: Option<Frame>,
    pub huffman_tables: Vec<HuffmanTable>,
    pub restart_interval: u16,
    pub position: usize,
}

/// Reads the header segments from `position` up to and including SOS.
fn parse_segments(input: &[u8], start: usize) -> (r: Result<Gathered, JpegError>)
    requires
        start <= input@.len(),
    ensures
        match header_segments(input@, start as int, empty_progress()) {
            Ok((progress, p)) => r matches Ok(g) && progress_of(
                g.segments@,
                g.frame,
                g.huffman_tables@,
                g.restart_interval,
            ) == progress && g.position == p && g.segments@.len() > 0 && (g.frame matches Some(f)
                ==> sampling_bounded(f@.components) && f@.components.len() <= 255),
            Err(e) => r matches Err(f) && f == e,
        },
{
    let mut position = start;
    let mut segments: Vec<Segment> = Vec::new();
    let mut frame: Option<Frame> = None;
    let mut huffman_tables: Vec<HuffmanTable> = Vec::new();
    let mut restart_interval: u16 = 0;
    let ghost first = position as int;
    proof {
        assert(progress_of(segments@, frame, huffman_tables@, restart_interval) =~= empty_progress()) by {
            assert(segment_models(segments@) =~= Seq::<SegmentModel>::empty());
            assert(table_defs(huffman_tables@) =~= Seq::<TableDef>::empty());
        }
    }
    let len = input.len();
    loop
        invariant_except_break
            header_segments(input@, first, empty_progress()) == header_segments(
                input@,
                position as int,
                progress_of(segments@, frame, huffman_tables@, restart_interval),
            ),
        invariant
            len == input@.len(),
            position <= len,
            first == start as int,
            frame matches Some(f) ==> sampling_bounded(f@.components) && f@.components.len() <= 255,
        ensures
            header_segments(input@, first, empty_progress()) == Ok::<(HeaderProgress, int), JpegError>(
                (progress_of(segments@, frame, huffman_tables@, restart_interval), position as int),
            ),
            segments@.len() > 0,
        decreases len - position,
    {
        let ghost before = progress_of(segments@, frame, huffman_tables@, restart_interval);
        let ghost from = position as int;
        let marker = match read_marker(input, &mut position) {
            Ok(m) => m,
            Err(e) => {
                proof {
                    assert(header_segments(input@, from, before) == Err::<(HeaderProgress, int), JpegError>(e));
                }
                return Err(e);
            },
        };
        proof {
            lemma_marker_search_advances(input@, from, false);
        }
        if marker == EOI {
            return Err(JpegError::EndedBeforeScan);
        }
        if marker == SOI || marker == 0x01 || (0xd0 <= marker && marker <= 0xd7) {
            proof {
                assert(header_segments(input@, from, before) == Err::<(HeaderProgress, int), JpegError>(
                    JpegError::UnexpectedStandaloneMarker(marker)));
            }
            return Err(JpegError::UnexpectedStandaloneMarker(marker));
        }
        let length = match read_u16(input, &mut position) {
            Ok(v) => v as usize,
            Err(e) => {
                return Err(e);
            },
        };
        if length < 2 {
            return Err(JpegError::InvalidSegmentLength);
        }
        let data_start = position;
        if len - position < length - 2 {
            return Err(JpegError::UnexpectedEof);
        }
        let mut data: Vec<u8> = Vec::new();
        let data_end = position + (length - 2);
        while position < data_end
            invariant
                len == input@.len(),
                data_start <= position <= data_end <= len,
                data@ == input@.subrange(data_start as int, position as int),
            decreases data_end - position,
        {
            data.push(input[position]);
            position = position + 1;
            proof {
                assert(data@ =~= input@.subrange(data_start as int, position as int));
            }
        }
        let ghost segment_data = data@;
        if marker == SOF0 {
            match parse_frame(data.as_slice()) {
                Ok(f) => {
                    proof {
                        lemma_frame_sampling_bounded(segment_data);
                    }
                    frame = Some(f);
                },
                Err(e) => {
                    return Err(e);
                },
            }
        } else if marker == DHT {
            match parse_huffman_tables(data.as_slice(), &mut huffman_tables) {
                Ok(()) => {},
                Err(e) => {
                    return Err(e);
                },
            }
        } else if marker == DRI {
            if data.len() != 2 {
                return Err(JpegError::InvalidRestartInterval);
            }
            restart_interval = read_be16(data[0], data[1]);
        } else if 0xc1 <= marker && marker <= 0xcf {
            return Err(JpegError::UnsupportedProcess);
        }
        if marker != DHT {
            segments.push(Segment { marker, data });
            proof {
                assert(segment_models(segments@) =~= before.segments.push(SegmentModel { marker, data: segment_data }));
            }
        }
        proof {
            assert(segment_effect(marker, segment_data, before) == Ok::<HeaderProgress, JpegError>(
                progress_of(segments@, frame, huffman_tables@, restart_interval),
            ));
        }
        if marker == SOS {
            break;
        }
    }
    Ok(Gathered { segments, frame, huffman_tables, restart_interval, position })
}

/// Reads the header of a JPEG, up to and including its SOS segment, and
/// returns it with the position where the entropy-coded data starts.
pub fn parse_header(input: &[u8]) -> (r: Result<(Header, usize), JpegError>)
    ensures
        match header_of(input@) {
            Ok((model, position)) => r matches Ok((header, p)) && header@ == model && p == position,
            Err(e) => r matches Err(f) && f == e,
        },
{
    let mut position: usize = 0;
    match read_u8(input, &mut position) {
        Err(e) => {
            return Err(e);
        },
        Ok(b) => {
            if b != 0xff {
                return Err(JpegError::NotJpeg);
            }
        },
    }
    match read_u8(input, &mut position) {
        Err(e) => {
            return Err(e);
        },
        Ok(b) => {
            if b != SOI {
                return Err(JpegError::NotJpeg);
            }
        },
    }
    let gathered = match parse_segments(input, position) {
        Ok(g) => g,
        Err(e) => {
            proof {
                lemma_header_of_error(input@, e);
            }
            return Err(e);
        },
    };
    let Gathered { segments, frame, huffman_tables, restart_interval, position } = gathered;
    if restart_interval != 0 {
        return Err(JpegError::RestartMarkersUnsupported);
    }
    let frame = match frame {
        Some(f) => f,
        None => {
            return Err(JpegError::MissingFrame);
        },
    };
    let last = segments.len() - 1;
    let scan = match parse_scan(segments[last].data.as_slice(), &frame) {
        Ok(s) => s,
        Err(e) => {
            return Err(e);
        },
    };
    Ok((Header { segments, frame, scan, huffman_tables }, position))
}

/// Reads `size` magnitude bits and returns the value they stand for.
pub fn receive_extend(bits: &mut BitReader, size: u8) -> (r: Result<i32, JpegError>)
    requires
        size <= 30,
    ensures
        final(bits).input() == old(bits).input(),
        r is Ok <==> old(bits).bits().len() >= size,
        r matches Ok(v) ==> {
            &&& v as int == extend(bits_number(old(bits).bits().take(size as int)) as int, size as nat)
            &&& -pow2(size as nat) < v < pow2(size as nat)
            &&& final(bits).bits() == old(bits).bits().skip(size as int)
            &&& final(bits).end_error() == old(bits).end_error()
            &&& final(bits).state_of() == advance(old(bits).input(), old(bits).state_of(), size as nat)
        },
        r matches Err(e) ==> e == old(bits).end_error(),
{
    if size == 0 {
        assert(old(bits).bits().skip(0) =~= old(bits).bits());
        proof {
            vstd::arithmetic::power2::lemma_pow2_pos(0);
        }
        return Ok(0);
    }
    let ghost before = bits.bits();
    let value = match bits.read_bits(size) {
        Ok(v) => v,
        Err(e) => {
            return Err(e);
        },
    };
    proof {
        lemma_bits_number_bound(before.take(size as int));
        lemma_u32_shr_is_div(value, size as u32);
        lemma_u32_pow2_no_overflow(size as nat);
        lemma_u32_pow2_no_overflow((size - 1) as nat);
        lemma_u32_shl_is_mul(1, size as u32);
        lemma_u32_shl_is_mul(1, (size - 1) as u32);
        vstd::arithmetic::power2::lemma_pow2_pos(size as nat);
        assert((value as int) / (pow2(size as nat) as int) == 0);
        assert(value < pow2(size as nat)) by (nonlinear_arith)
            requires (value as int) / (pow2(size as nat) as int) == 0, pow2(size as nat) > 0, value >= 0;
        vstd::arithmetic::power2::lemma2_to64();
        crate::entropy::lemma_pow2_mono(size as int, 30);
        lemma_extend_bound(value as int, size as nat);
    }
    let threshold = 1u32 << ((size - 1) as u32);
    if value < threshold {
        let full = (1u32 << (size as u32)) as i32;
        Ok(value as i32 + 1 - full)
    } else {
        Ok(value as i32)
    }
}

/// Decodes one block: the DC difference from `dc_predictor`, which it
/// updates, then the run-length coded AC coefficients.
pub fn decode_block(
    bits: &mut BitReader,
    dc_table: &HuffmanTable,
    ac_table: &HuffmanTable,
    dc_predictor: &mut i32,
) -> (r: Result<[i16; 64], JpegError>)
    requires
        i32::MIN + 2048 <= *old(dc_predictor) <= i32::MAX - 2048,
    ensures
        final(bits).input() == old(bits).input(),
        match decode_block_bits(
            table_def(*dc_table),
            table_def(*ac_table),
            old(bits).bits(),
            old(bits).end_error(),
            *old(dc_predictor) as int,
        ) {
            Ok((block, used, predictor)) => {
                &&& r matches Ok(b) && b@ == block
                &&& 0 <= used <= old(bits).bits().len()
                &&& final(bits).bits() == old(bits).bits().skip(used)
                &&& final(bits).end_error() == old(bits).end_error()
                &&& final(bits).state_of() == advance(old(bits).input(), old(bits).state_of(), used as nat)
                &&& *final(dc_predictor) as int == predictor
            },
            Err(e) => r == Err::<[i16; 64], JpegError>(e),
        },
{
    let ghost start = bits.bits();
    let ghost end = bits.end_error();
    let ghost dc = table_def(*dc_table);
    let ghost ac = table_def(*ac_table);
    let ghost predictor0 = *dc_predictor as int;
    let ghost input = bits.input();
    let ghost s0 = bits.state_of();
    let mut block = [0i16; 64];
    let dc_size = match dc_table.decode(bits) {
        Ok(s) => s,
        Err(e) => {
            return Err(e);
        },
    };
    let ghost n0 = match crate::entropy::huffman_decode(dc.counts, dc.symbols, start) {
        crate::entropy::HuffmanDecoded::Symbol(_, n) => n as int,
        _ => 0,
    };
    proof {
        crate::entropy::lemma_decode_length(dc.counts, dc.symbols, start, 0);
    }
    if dc_size > 11 {
        return Err(JpegError::InvalidDcMagnitude);
    }
    let difference = match receive_extend(bits, dc_size) {
        Ok(d) => d,
        Err(e) => {
            return Err(e);
        },
    };
    proof {
        lemma_advance_add(input, s0, n0 as nat, dc_size as nat);
        assert(start.skip(n0).take(dc_size as int) =~= start.subrange(n0, n0 + dc_size));
        assert(start.skip(n0).skip(dc_size as int) =~= start.skip(n0 + dc_size));
        vstd::arithmetic::power2::lemma2_to64();
        crate::entropy::lemma_pow2_mono(dc_size as int, 11);
    }
    let predicted = *dc_predictor + difference;
    *dc_predictor = predicted;
    if predicted < -32768 || predicted > 32767 {
        return Err(JpegError::DcOutOfRange);
    }
    block[0] = predicted as i16;
    proof {
        assert(block@ =~= zero_block().update(0, predicted as i16));
    }
    let ghost first_used = n0 + dc_size;
    let ghost first_block = block@;
    let ghost mut used_bits: int = first_used;
    let mut zigzag_index: usize = 1;
    loop
        invariant_except_break
            1 <= zigzag_index <= 64,
            decode_ac(ac, start, end, 1, first_used, first_block) == decode_ac(
                ac,
                start,
                end,
                zigzag_index as int,
                used_bits,
                block@,
            ),
        invariant
            0 <= used_bits <= start.len(),
            start == old(bits).bits(),
            end == old(bits).end_error(),
            dc == table_def(*dc_table),
            predictor0 == *old(dc_predictor) as int,
            *dc_predictor as int == predicted as int,
            decode_block_bits(dc, ac, start, end, predictor0) == match decode_ac(
                ac,
                start,
                end,
                1,
                first_used,
                first_block,
            ) {
                Ok((b, u)) => Ok::<(Seq<i16>, int, int), JpegError>((b, u, predicted as int)),
                Err(e) => Err(e),
            },
            bits.bits() == start.skip(used_bits),
            bits.end_error() == end,
            bits.input() == old(bits).input(),
            input == old(bits).input(),
            s0 == old(bits).state_of(),
            bits.state_of() == advance(input, s0, used_bits as nat),
            ac == table_def(*ac_table),
            block@.len() == 64,
        ensures
            decode_ac(ac, start, end, 1, first_used, first_block) == Ok::<(Seq<i16>, int), JpegError>(
                (block@, used_bits),
            ),
        decreases 64 - zigzag_index,
    {
        if zigzag_index >= 64 {
            break;
        }
        let ghost used = used_bits;
        let symbol = match ac_table.decode(bits) {
            Ok(s) => s,
            Err(e) => {
                proof {
                    assert(decode_ac(ac, start, end, zigzag_index as int, used, block@) == Err::<(Seq<i16>, int), JpegError>(e));
                    assert(decode_ac(ac, start, end, 1, first_used, first_block) == Err::<(Seq<i16>, int), JpegError>(e));
                }
                return Err(e);
            },
        };
        let ghost n = match crate::entropy::huffman_decode(ac.counts, ac.symbols, start.skip(used)) {
            crate::entropy::HuffmanDecoded::Symbol(_, n) => n as int,
            _ => 0,
        };
        proof {
            crate::entropy::lemma_decode_length(ac.counts, ac.symbols, start.skip(used), 0);
            assert(start.skip(used).skip(n) =~= start.skip(used + n));
            lemma_advance_add(input, s0, used as nat, n as nat);
        }
        let run = (symbol >> 4u8) as usize;
        let size = symbol & 0x0fu8;
        if size == 0 {
            if run == 0 {
                proof {
                    used_bits = used + n;
                }
                break;
            }
            if run != 15 {
                proof {
                    assert(decode_ac(ac, start, end, zigzag_index as int, used, block@) == Err::<(Seq<i16>, int), JpegError>(JpegError::InvalidZeroRun));
                    assert(decode_ac(ac, start, end, 1, first_used, first_block) == Err::<(Seq<i16>, int), JpegError>(JpegError::InvalidZeroRun));
                }
                return Err(JpegError::InvalidZeroRun);
            }
            if zigzag_index + 16 > 64 {
                proof {
                    assert(decode_ac(ac, start, end, zigzag_index as int, used, block@) == Err::<(Seq<i16>, int), JpegError>(JpegError::ZeroRunExceedsBlock));
                    assert(decode_ac(ac, start, end, 1, first_used, first_block) == Err::<(Seq<i16>, int), JpegError>(JpegError::ZeroRunExceedsBlock));
                }
                return Err(JpegError::ZeroRunExceedsBlock);
            }
            zigzag_index = zigzag_index + 16;
            proof {
                used_bits = used + n;
            }
            continue;
        }
        proof {
            assert(symbol >> 4u8 <= 15) by (bit_vector);
            assert(symbol & 0x0fu8 <= 15) by (bit_vector);
        }
        if zigzag_index + run >= 64 || size > 10 {
            proof {
                    assert(decode_ac(ac, start, end, zigzag_index as int, used, block@) == Err::<(Seq<i16>, int), JpegError>(JpegError::InvalidAcCoefficient));
                    assert(decode_ac(ac, start, end, 1, first_used, first_block) == Err::<(Seq<i16>, int), JpegError>(JpegError::InvalidAcCoefficient));
                }
                return Err(JpegError::InvalidAcCoefficient);
        }
        zigzag_index = zigzag_index + run;
        let value = match receive_extend(bits, size) {
            Ok(v) => v,
            Err(e) => {
                proof {
                    assert(decode_ac(ac, start, end, (zigzag_index - run) as int, used, block@) == Err::<(Seq<i16>, int), JpegError>(e));
                    assert(decode_ac(ac, start, end, 1, first_used, first_block) == Err::<(Seq<i16>, int), JpegError>(e));
                }
                return Err(e);
            },
        };
        proof {
            lemma_advance_add(input, s0, (used + n) as nat, size as nat);
            assert(start.skip(used + n).take(size as int) =~= start.subrange(used + n, used + n + size));
            assert(start.skip(used + n).skip(size as int) =~= start.skip(used + n + size));
            vstd::arithmetic::power2::lemma2_to64();
            crate::entropy::lemma_pow2_mono(size as int, 10);
        }
        let position = zigzag(zigzag_index);
        block[position] = value as i16;
        zigzag_index = zigzag_index + 1;
        proof {
            used_bits = used + n + size;
        }
    }
    Ok(block)
}

} // verus!
