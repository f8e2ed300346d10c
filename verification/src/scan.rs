//! The MCUs of a baseline scan: the grid they form, how their blocks are
//! coded, their decoding, and an index of where each one starts in the
//! entropy-coded data.
use vstd::prelude::*;
use crate::error::JpegError;
use crate::block::{ac_fits, decode_block_bits};
use crate::entropy::{
    advance, scan_end, state_bits, state_word, table_def, table_defs, BitReader, BitReaderState, HuffmanTable,
    ReaderState, TableDef,
};
use crate::bits::entropy_end;
use crate::parser::{
    be16, blocks_before, empty_progress, frame_components, frame_of, has_zero_sampling, header_of,
    header_segments, lemma_blocks_before_bounded, lemma_frame_sampling_bounded,
    lemma_marker_search_advances, lemma_position, marker_search, max_horizontal, max_vertical,
    position_of, sampling_bounded, scan_of, segment_effect, selected, selectors_known, Component,
    FrameModel, Header, HeaderModel, HeaderProgress, SOF0, SOS,
};

verus! {

/// `a / b` rounded up.
pub open spec fn div_ceil(a: int, b: int) -> int {
    if a % b == 0 {
        a / b
    } else {
        a / b + 1
    }
}

/// The number of blocks that scan component `k` has in each MCU.
pub open spec fn component_blocks(h: HeaderModel, k: int) -> int {
    let c = h.frame.components[h.scan.components[k].frame_index as int];
    c.horizontal_sampling * c.vertical_sampling
}

/// The number of blocks of the first `k` scan components in each MCU.
pub open spec fn scan_blocks_before(h: HeaderModel, k: int) -> int
    decreases k,
{
    if k <= 0 {
        0
    } else {
        scan_blocks_before(h, k - 1) + component_blocks(h, k - 1)
    }
}

/// What a parsed header always satisfies: one to 255 frame components with
/// sampling factors from 1 to 15, the largest of which the frame records;
/// a 16-bit image size; at most 255 scan components, each naming a frame
/// component, whose blocks follow one another in each MCU.
pub open spec fn header_wf(h: HeaderModel) -> bool {
    let components = h.frame.components;
    &&& 1 <= components.len() <= 255
    &&& forall|i: int|
        #![trigger components[i]]
        0 <= i < components.len() ==> 1 <= components[i].horizontal_sampling <= 15 && 1
            <= components[i].vertical_sampling <= 15
    &&& h.frame.max_horizontal_sampling == max_horizontal(components)
    &&& h.frame.max_vertical_sampling == max_vertical(components)
    &&& 0 <= h.frame.width <= 65535
    &&& 0 <= h.frame.height <= 65535
    &&& h.scan.components.len() <= 255
    &&& forall|k: int|
        #![trigger h.scan.components[k]]
        0 <= k < h.scan.components.len() ==> h.scan.components[k].frame_index < components.len()
            && h.scan.components[k].first_block == scan_blocks_before(h, k)
    &&& h.scan.blocks_per_mcu == scan_blocks_before(h, h.scan.components.len() as int)
}

/// MCU columns of the image.
pub open spec fn mcu_columns_of(h: HeaderModel) -> int {
    div_ceil(h.frame.width, 8 * h.frame.max_horizontal_sampling)
}

/// MCU rows of the image.
pub open spec fn mcu_rows_of(h: HeaderModel) -> int {
    div_ceil(h.frame.height, 8 * h.frame.max_vertical_sampling)
}

/// The number of MCUs in the scan.
pub open spec fn mcu_count_of(h: HeaderModel) -> int {
    mcu_columns_of(h) * mcu_rows_of(h)
}

proof fn lemma_max_horizontal(components: Seq<Component>)
    requires
        components.len() >= 1,
        forall|i: int|
            #![trigger components[i]]
            0 <= i < components.len() ==> 1 <= components[i].horizontal_sampling <= 15,
    ensures
        1 <= max_horizontal(components) <= 15,
    decreases components.len(),
{
    if components.len() > 1 {
        let rest = components.drop_last();
        assert forall|i: int| #![trigger rest[i]] 0 <= i < rest.len() implies 1 <= rest[i].horizontal_sampling
            <= 15 by {
            assert(rest[i] == components[i]);
        }
        lemma_max_horizontal(rest);
    } else {
        assert(components.drop_last().len() == 0);
        assert(max_horizontal(components.drop_last()) == 0);
    }
    assert(components.last() == components[components.len() - 1]);
}

proof fn lemma_max_vertical(components: Seq<Component>)
    requires
        components.len() >= 1,
        forall|i: int|
            #![trigger components[i]]
            0 <= i < components.len() ==> 1 <= components[i].vertical_sampling <= 15,
    ensures
        1 <= max_vertical(components) <= 15,
    decreases components.len(),
{
    if components.len() > 1 {
        let rest = components.drop_last();
        assert forall|i: int| #![trigger rest[i]] 0 <= i < rest.len() implies 1 <= rest[i].vertical_sampling <= 15 by {
            assert(rest[i] == components[i]);
        }
        lemma_max_vertical(rest);
    } else {
        assert(components.drop_last().len() == 0);
        assert(max_vertical(components.drop_last()) == 0);
    }
    assert(components.last() == components[components.len() - 1]);
}

/// In a well-formed header the MCU grid has at most 8192 columns and rows,
/// and an MCU at most 255 * 225 blocks.
pub proof fn lemma_header_bounds(h: HeaderModel)
    requires
        header_wf(h),
    ensures
        1 <= h.frame.max_horizontal_sampling <= 15,
        1 <= h.frame.max_vertical_sampling <= 15,
        0 <= mcu_columns_of(h) <= 8192,
        0 <= mcu_rows_of(h) <= 8192,
        0 <= mcu_count_of(h) <= 8192 * 8192,
        forall|k: int| 0 <= k <= h.scan.components.len() ==> 0 <= #[trigger] scan_blocks_before(h, k) <= 225 * k,
        0 <= h.scan.blocks_per_mcu <= 225 * 255,
{
    let components = h.frame.components;
    lemma_max_horizontal(components);
    lemma_max_vertical(components);
    let w = h.frame.width;
    let ht = h.frame.height;
    let uw = 8 * h.frame.max_horizontal_sampling;
    let uh = 8 * h.frame.max_vertical_sampling;
    assert(0 <= w / uw <= 8191) by (nonlinear_arith)
        requires 0 <= w <= 65535, 8 <= uw;
    assert(0 <= ht / uh <= 8191) by (nonlinear_arith)
        requires 0 <= ht <= 65535, 8 <= uh;
    let c = mcu_columns_of(h);
    let r = mcu_rows_of(h);
    assert(0 <= c * r <= 8192 * 8192) by (nonlinear_arith)
        requires 0 <= c <= 8192, 0 <= r <= 8192;
    assert forall|k: int| 0 <= k <= h.scan.components.len() implies 0 <= #[trigger] scan_blocks_before(h, k) <= 225
        * k by {
        lemma_scan_blocks_bounded(h, k);
    }
}

proof fn lemma_scan_blocks_bounded(h: HeaderModel, k: int)
    requires
        header_wf(h),
        0 <= k <= h.scan.components.len(),
    ensures
        0 <= scan_blocks_before(h, k) <= 225 * k,
    decreases k,
{
    if k > 0 {
        lemma_scan_blocks_bounded(h, k - 1);
        let sc = h.scan.components[k - 1];
        let c = h.frame.components[sc.frame_index as int];
        assert(1 <= c.horizontal_sampling <= 15 && 1 <= c.vertical_sampling <= 15);
        assert(1 <= c.horizontal_sampling * c.vertical_sampling <= 225) by (nonlinear_arith)
            requires 1 <= c.horizontal_sampling <= 15, 1 <= c.vertical_sampling <= 15;
    }
}

/// The scan's block counts, as the header parser adds them up, are those
/// of the components it selected.
proof fn lemma_blocks_before_match(h: HeaderModel, data: Seq<u8>, k: int)
    requires
        0 <= k <= h.scan.components.len(),
        forall|j: int|
            #![trigger h.scan.components[j]]
            0 <= j < h.scan.components.len() ==> h.scan.components[j].frame_index as int == position_of(
                h.frame.components,
                data[1 + 2 * j],
            ).unwrap() && position_of(h.frame.components, data[1 + 2 * j]) is Some,
    ensures
        scan_blocks_before(h, k) == blocks_before(data, h.frame.components, k),
    decreases k,
{
    if k > 0 {
        lemma_blocks_before_match(h, data, k - 1);
        assert(h.scan.components[k - 1].frame_index as int == position_of(h.frame.components, data[1 + 2 * (k - 1)]).unwrap());
        assert(selected(data, h.frame.components, k - 1) == h.frame.components[h.scan.components[k - 1].frame_index as int]);
    }
}

/// What a parsed frame satisfies.
pub open spec fn frame_valid(f: FrameModel) -> bool {
    let components = f.components;
    &&& 1 <= components.len() <= 255
    &&& forall|i: int|
        #![trigger components[i]]
        0 <= i < components.len() ==> 1 <= components[i].horizontal_sampling <= 15 && 1
            <= components[i].vertical_sampling <= 15
    &&& f.max_horizontal_sampling == max_horizontal(components)
    &&& f.max_vertical_sampling == max_vertical(components)
    &&& 0 <= f.width <= 65535
    &&& 0 <= f.height <= 65535
}

proof fn lemma_frame_of_valid(data: Seq<u8>)
    requires
        frame_of(data) is Ok,
    ensures
        frame_valid(frame_of(data).unwrap()),
{
    let f = frame_of(data).unwrap();
    lemma_frame_sampling_bounded(data);
    let c = f.components;
    assert(c == frame_components(data));
    assert forall|i: int| #![trigger c[i]] 0 <= i < c.len() implies 1 <= c[i].horizontal_sampling <= 15 && 1
        <= c[i].vertical_sampling <= 15 by {
        if c[i].horizontal_sampling == 0 || c[i].vertical_sampling == 0 {
            assert(has_zero_sampling(c));
        }
    }
}

proof fn lemma_segments_frame(input: Seq<u8>, position: int, progress: HeaderProgress)
    requires
        progress.frame matches Some(f) ==> frame_valid(f),
        header_segments(input, position, progress) is Ok,
    ensures
        header_segments(input, position, progress).unwrap().0.frame matches Some(f) ==> frame_valid(f),
    decreases input.len() - position,
{
    lemma_marker_search_advances(input, position, false);
    let (marker, p) = marker_search(input, position, false).unwrap();
    let length = be16(input[p], input[p + 1]);
    let data = input.subrange(p + 2, p + length);
    let next = segment_effect(marker, data, progress).unwrap();
    if marker == SOF0 {
        lemma_frame_of_valid(data);
    }
    assert(next.frame matches Some(f) ==> frame_valid(f));
    if marker != SOS {
        lemma_segments_frame(input, p + length, next);
    }
}

/// A header that `header_of` accepts is well formed.
pub proof fn lemma_header_of_wf(input: Seq<u8>)
    requires
        header_of(input) is Ok,
    ensures
        header_wf(header_of(input).unwrap().0),
{
    let (h, p) = header_of(input).unwrap();
    let (progress, position) = header_segments(input, 2, empty_progress()).unwrap();
    lemma_segments_frame(input, 2, empty_progress());
    let frame = progress.frame.unwrap();
    let data = progress.segments.last().data;
    assert(scan_of(data, frame) == Ok::<_, JpegError>(h.scan));
    assert(h.frame == frame);
    let components = frame.components;
    let n = data[0] as int;
    assert(selectors_known(data, components, n));
    assert forall|j: int|
        #![trigger h.scan.components[j]]
        0 <= j < h.scan.components.len() implies h.scan.components[j].frame_index as int == position_of(
            components,
            data[1 + 2 * j],
        ).unwrap() && position_of(components, data[1 + 2 * j]) is Some by {
        assert(position_of(components, data[1 + 2 * j]) is Some);
        lemma_position(components, data[1 + 2 * j], 0);
    }
    assert(sampling_bounded(components));
    assert forall|k: int|
        #![trigger h.scan.components[k]]
        0 <= k < h.scan.components.len() implies h.scan.components[k].frame_index < components.len()
            && h.scan.components[k].first_block == scan_blocks_before(h, k) by {
        assert(position_of(components, data[1 + 2 * k]) is Some);
        lemma_position(components, data[1 + 2 * k], 0);
        lemma_blocks_before_match(h, data, k);
        lemma_blocks_before_bounded(data, components, k);
    }
    lemma_blocks_before_match(h, data, n);
    lemma_blocks_before_bounded(data, components, n);
}

/// The first of `tables`, from index `start` on, of class `class` and id
/// `id`.
pub open spec fn find_table_from(tables: Seq<TableDef>, class: u8, id: u8, start: int) -> Option<TableDef>
    decreases tables.len() - start,
{
    if start < 0 || start >= tables.len() {
        None
    } else if tables[start].class == class && tables[start].id == id {
        Some(tables[start])
    } else {
        find_table_from(tables, class, id, start + 1)
    }
}

/// The first table of class `class` and id `id`.
pub open spec fn find_table(tables: Seq<TableDef>, class: u8, id: u8) -> Option<TableDef> {
    find_table_from(tables, class, id, 0)
}

/// Whether the tables that the first `k` scan components select are all
/// defined: the first missing DC or AC table, in scan order, is the error.
pub open spec fn tables_known(h: HeaderModel, k: int) -> Result<(), JpegError>
    decreases k,
{
    if k <= 0 {
        Ok(())
    } else {
        match tables_known(h, k - 1) {
            Err(e) => Err(e),
            Ok(()) => {
                let sc = h.scan.components[k - 1];
                if find_table(h.tables, 0, sc.dc_table) is None {
                    Err(JpegError::MissingHuffmanTable(0, sc.dc_table))
                } else if find_table(h.tables, 1, sc.ac_table) is None {
                    Err(JpegError::MissingHuffmanTable(1, sc.ac_table))
                } else {
                    Ok(())
                }
            },
        }
    }
}

/// The layout this crate transforms: one interleaved scan of every frame
/// component, whose Huffman tables are all defined.
pub open spec fn layout_check(h: HeaderModel) -> Result<(), JpegError> {
    if h.scan.components.len() != h.frame.components.len() {
        Err(JpegError::NotInterleaved)
    } else {
        tables_known(h, h.scan.components.len() as int)
    }
}

impl Header {
    /// The number of MCU columns: the width divided by the MCU width,
    /// rounded up.
    pub fn mcu_columns(&self) -> (r: usize)
        requires
            header_wf(self@),
        ensures
            r == mcu_columns_of(self@),
    {
        proof {
            lemma_header_bounds(self@);
        }
        let unit = 8 * self.frame.max_horizontal_sampling;
        let whole = self.frame.width / unit;
        if self.frame.width % unit == 0 {
            whole
        } else {
            whole + 1
        }
    }

    /// The number of MCU rows: the height divided by the MCU height,
    /// rounded up.
    pub fn mcu_rows(&self) -> (r: usize)
        requires
            header_wf(self@),
        ensures
            r == mcu_rows_of(self@),
    {
        proof {
            lemma_header_bounds(self@);
        }
        let unit = 8 * self.frame.max_vertical_sampling;
        let whole = self.frame.height / unit;
        if self.frame.height % unit == 0 {
            whole
        } else {
            whole + 1
        }
    }

    /// The first Huffman table of class `class` and id `id`.
    pub fn huffman_table(&self, class: u8, id: u8) -> (r: Result<&HuffmanTable, JpegError>)
        ensures
            match find_table(self@.tables, class, id) {
                Some(t) => r matches Ok(table) && table_def(*table) == t,
                None => r == Err::<&HuffmanTable, JpegError>(JpegError::MissingHuffmanTable(class, id)),
            },
    {
        let ghost defs = self@.tables;
        let mut i: usize = 0;
        while i < self.huffman_tables.len()
            invariant
                0 <= i <= self.huffman_tables@.len(),
                defs == table_defs(self.huffman_tables@),
                defs.len() == self.huffman_tables@.len(),
                find_table(defs, class, id) == find_table_from(defs, class, id, i as int),
            decreases self.huffman_tables@.len() - i,
        {
            let table = &self.huffman_tables[i];
            assert(defs[i as int] == table_def(*table));
            if table.class() == class && table.id() == id {
                return Ok(table);
            }
            i = i + 1;
        }
        Err(JpegError::MissingHuffmanTable(class, id))
    }
}

/// Checks that the scan is one interleaved scan of every frame component
/// and that the Huffman tables it selects are defined.
pub fn validate_supported_layout(header: &Header) -> (r: Result<(), JpegError>)
    ensures
        r == layout_check(header@),
{
    let count = header.scan.components.len();
    if count != header.frame.components.len() {
        return Err(JpegError::NotInterleaved);
    }
    let mut k: usize = 0;
    while k < count
        invariant
            0 <= k <= count,
            count == header.scan.components@.len(),
            layout_check(header@) == tables_known(header@, count as int),
            tables_known(header@, k as int) == Ok::<(), JpegError>(()),
        decreases count - k,
    {
        let sc = header.scan.components[k];
        match header.huffman_table(0, sc.dc_table) {
            Ok(_) => {},
            Err(e) => {
                proof {
                    lemma_tables_known_error(header@, k as int + 1, count as int);
                }
                return Err(e);
            },
        }
        match header.huffman_table(1, sc.ac_table) {
            Ok(_) => {},
            Err(e) => {
                proof {
                    lemma_tables_known_error(header@, k as int + 1, count as int);
                }
                return Err(e);
            },
        }
        k = k + 1;
    }
    Ok(())
}

/// Once a table is missing, it stays the error for more components.
proof fn lemma_tables_known_error(h: HeaderModel, k: int, n: int)
    requires
        0 <= k <= n,
        tables_known(h, k) is Err,
    ensures
        tables_known(h, n) == tables_known(h, k),
    decreases n - k,
{
    if k < n {
        lemma_tables_known_error(h, k, n - 1);
    }
}

/// The scan component of each block of an MCU, for the first `k` scan
/// components: each component's blocks in a row, in scan order.
pub open spec fn block_slots(h: HeaderModel, k: int) -> Seq<int>
    decreases k,
{
    if k <= 0 {
        Seq::<int>::empty()
    } else {
        block_slots(h, k - 1) + component_run(k - 1, component_blocks(h, k - 1) as nat)
    }
}

/// `n` slots of scan component `k`.
pub open spec fn component_run(k: int, n: nat) -> Seq<int> {
    Seq::new(n, |i: int| k)
}

/// The scan component of each block of an MCU.
pub open spec fn mcu_slots(h: HeaderModel) -> Seq<int> {
    block_slots(h, h.scan.components.len() as int)
}

/// What decoding some blocks of an MCU gives: the blocks, the number of
/// bits used, and the DC predictors of the frame components after them.
pub struct McuDecode {
    pub blocks: Seq<Seq<i16>>,
    pub used: int,
    pub predictors: Seq<int>,
}

/// Decodes the blocks of `slots` from `bits`, each with its component's
/// tables and DC predictor; `end` is the error when the bits run out.
#[verifier::opaque]
pub open spec fn decode_slots(
    h: HeaderModel,
    slots: Seq<int>,
    bits: Seq<bool>,
    end: JpegError,
    predictors: Seq<int>,
) -> Result<McuDecode, JpegError>
    decreases slots.len(),
{
    if slots.len() == 0 {
        Ok(McuDecode { blocks: Seq::<Seq<i16>>::empty(), used: 0, predictors })
    } else {
        match decode_slots(h, slots.drop_last(), bits, end, predictors) {
            Err(e) => Err(e),
            Ok(d) => {
                let sc = h.scan.components[slots.last()];
                match find_table(h.tables, 0, sc.dc_table) {
                    None => Err(JpegError::MissingHuffmanTable(0, sc.dc_table)),
                    Some(dc) => match find_table(h.tables, 1, sc.ac_table) {
                        None => Err(JpegError::MissingHuffmanTable(1, sc.ac_table)),
                        Some(ac) => match decode_block_bits(
                            dc,
                            ac,
                            bits.skip(d.used),
                            end,
                            d.predictors[sc.frame_index as int],
                        ) {
                            Err(e) => Err(e),
                            Ok((block, used, p)) => Ok(
                                McuDecode {
                                    blocks: d.blocks.push(block),
                                    used: d.used + used,
                                    predictors: d.predictors.update(sc.frame_index as int, p),
                                },
                            ),
                        },
                    },
                }
            },
        }
    }
}

/// Decodes one MCU from `bits` with DC predictors `predictors`.
pub open spec fn decode_mcu_bits(h: HeaderModel, bits: Seq<bool>, end: JpegError, predictors: Seq<int>) -> Result<
    McuDecode,
    JpegError,
> {
    decode_slots(h, mcu_slots(h), bits, end, predictors)
}

/// The values of DC predictors.
pub open spec fn predictor_values(predictors: Seq<i32>) -> Seq<int> {
    predictors.map_values(|p: i32| p as int)
}

/// Every predictor is a 16-bit value.
pub open spec fn predictors_fit(predictors: Seq<int>) -> bool {
    forall|i: int| #![trigger predictors[i]] 0 <= i < predictors.len() ==> i16::MIN <= predictors[i] <= i16::MAX
}

/// Once decoding a prefix of the slots fails, decoding them all fails the
/// same way.
proof fn lemma_decode_slots_error(
    h: HeaderModel,
    s: Seq<int>,
    t: Seq<int>,
    bits: Seq<bool>,
    end: JpegError,
    predictors: Seq<int>,
)
    requires
        s.len() <= t.len(),
        t.subrange(0, s.len() as int) == s,
        decode_slots(h, s, bits, end, predictors) is Err,
    ensures
        decode_slots(h, t, bits, end, predictors) == decode_slots(h, s, bits, end, predictors),
    decreases t.len() - s.len(),
{
    reveal(decode_slots);
    if t.len() == s.len() {
        assert(t =~= s);
    } else {
        assert(t.drop_last().subrange(0, s.len() as int) =~= s);
        lemma_decode_slots_error(h, s, t.drop_last(), bits, end, predictors);
    }
}

/// The slots of fewer components come first.
proof fn lemma_block_slots(h: HeaderModel, k: int, n: int)
    requires
        0 <= k <= n,
    ensures
        block_slots(h, k).len() <= block_slots(h, n).len(),
        block_slots(h, n).subrange(0, block_slots(h, k).len() as int) == block_slots(h, k),
    decreases n,
{
    if n > k {
        lemma_block_slots(h, k, n - 1);
        assert(block_slots(h, n).subrange(0, block_slots(h, k).len() as int) =~= block_slots(h, n - 1).subrange(
            0,
            block_slots(h, k).len() as int,
        ));
    } else {
        assert(block_slots(h, n).subrange(0, block_slots(h, k).len() as int) =~= block_slots(h, k));
    }
}

/// There are as many slots as blocks.
proof fn lemma_slots_len(h: HeaderModel, k: int)
    requires
        header_wf(h),
        0 <= k <= h.scan.components.len(),
    ensures
        block_slots(h, k).len() == scan_blocks_before(h, k),
        forall|j: int| 0 <= j < block_slots(h, k).len() ==> 0 <= #[trigger] block_slots(h, k)[j] < k,
    decreases k,
{
    if k > 0 {
        lemma_slots_len(h, k - 1);
        let sc = h.scan.components[k - 1];
        let c = h.frame.components[sc.frame_index as int];
        assert(1 <= c.horizontal_sampling * c.vertical_sampling) by (nonlinear_arith)
            requires 1 <= c.horizontal_sampling, 1 <= c.vertical_sampling;
        let front = block_slots(h, k - 1);
        assert forall|j: int| 0 <= j < block_slots(h, k).len() implies 0 <= #[trigger] block_slots(h, k)[j] < k by {
            if j < front.len() {
                assert(block_slots(h, k)[j] == front[j]);
            }
        }
    }
}

/// The first `j` blocks of scan component `k` come, after the blocks of
/// the components before it, at the start of an MCU's slots.
proof fn lemma_slot_prefix(h: HeaderModel, k: int, j: int)
    requires
        header_wf(h),
        0 <= k < h.scan.components.len(),
        0 <= j <= component_blocks(h, k),
    ensures
        (block_slots(h, k) + component_run(k, j as nat)).len() <= mcu_slots(h).len(),
        mcu_slots(h).subrange(0, (block_slots(h, k) + component_run(k, j as nat)).len() as int) == block_slots(h, k)
            + component_run(k, j as nat),
{
    let n = h.scan.components.len() as int;
    lemma_block_slots(h, k + 1, n);
    let p = block_slots(h, k) + component_run(k, j as nat);
    let next = block_slots(h, k + 1);
    assert(next.subrange(0, p.len() as int) =~= p);
    assert(mcu_slots(h).subrange(0, p.len() as int) =~= next.subrange(0, p.len() as int));
}

/// A scan component has at least one block in each MCU.
proof fn lemma_component_blocks(h: HeaderModel, k: int)
    requires
        header_wf(h),
        0 <= k < h.scan.components.len(),
    ensures
        1 <= component_blocks(h, k) <= 225,
{
    let sc = h.scan.components[k];
    let c = h.frame.components[sc.frame_index as int];
    assert(1 <= c.horizontal_sampling * c.vertical_sampling <= 225) by (nonlinear_arith)
        requires 1 <= c.horizontal_sampling <= 15, 1 <= c.vertical_sampling <= 15;
}

/// Decoding one more slot decodes its block after the others.
proof fn lemma_decode_slots_push(
    h: HeaderModel,
    prefix: Seq<int>,
    k: int,
    bits: Seq<bool>,
    end: JpegError,
    predictors: Seq<int>,
)
    requires
        decode_slots(h, prefix, bits, end, predictors) is Ok,
    ensures
        ({
            let d = decode_slots(h, prefix, bits, end, predictors).unwrap();
            let sc = h.scan.components[k];
            decode_slots(h, prefix.push(k), bits, end, predictors) == match find_table(h.tables, 0, sc.dc_table) {
                None => Err(JpegError::MissingHuffmanTable(0, sc.dc_table)),
                Some(dc) => match find_table(h.tables, 1, sc.ac_table) {
                    None => Err(JpegError::MissingHuffmanTable(1, sc.ac_table)),
                    Some(ac) => match decode_block_bits(
                        dc,
                        ac,
                        bits.skip(d.used),
                        end,
                        d.predictors[sc.frame_index as int],
                    ) {
                        Err(e) => Err(e),
                        Ok((block, used, p)) => Ok(
                            McuDecode {
                                blocks: d.blocks.push(block),
                                used: d.used + used,
                                predictors: d.predictors.update(sc.frame_index as int, p),
                            },
                        ),
                    },
                },
            }
        }),
{
    reveal(decode_slots);
    assert(prefix.push(k).drop_last() =~= prefix);
    assert(prefix.push(k).last() == k);
}

/// Decodes one MCU: every block of every scan component in turn, each with
/// its component's tables and DC predictor, appending the coefficients of
/// each block, in row-major order, to `blocks`.
fn decode_mcu(header: &Header, bits: &mut BitReader, predictors: &mut Vec<i32>, blocks: &mut Vec<i16>) -> (r: Result<
    (),
    JpegError,
>)
    requires
        header_wf(header@),
        old(predictors)@.len() == header@.frame.components.len(),
        predictors_fit(predictor_values(old(predictors)@)),
    ensures
        final(bits).input() == old(bits).input(),
        match decode_mcu_bits(header@, old(bits).bits(), old(bits).end_error(), predictor_values(old(predictors)@)) {
            Ok(d) => {
                &&& r is Ok
                &&& final(blocks)@ == old(blocks)@ + d.blocks.flatten()
                &&& final(bits).bits() == old(bits).bits().skip(d.used)
                &&& final(bits).end_error() == old(bits).end_error()
                &&& final(bits).state_of() == advance(old(bits).input(), old(bits).state_of(), d.used as nat)
                &&& predictor_values(final(predictors)@) == d.predictors
                &&& final(predictors)@.len() == old(predictors)@.len()
                &&& predictors_fit(d.predictors)
            },
            Err(e) => r == Err::<(), JpegError>(e),
        },
{
    let ghost h = header@;
    let ghost start = bits.bits();
    let ghost end = bits.end_error();
    let ghost input = bits.input();
    let ghost s0 = bits.state_of();
    let ghost p0 = predictor_values(predictors@);
    let ghost b0 = blocks@;
    let count = header.scan.components.len();
    proof {
        lemma_header_bounds(h);
        assert(start.skip(0) =~= start);
        assert(b0 + Seq::<Seq<i16>>::empty().flatten() =~= b0);
        reveal(decode_slots);
    }
    let ghost mut d = McuDecode { blocks: Seq::<Seq<i16>>::empty(), used: 0, predictors: p0 };
    let mut k: usize = 0;
    while k < count
        invariant
            0 <= k <= count,
            count == h.scan.components.len(),
            h == header@,
            header_wf(h),
            decode_slots(h, block_slots(h, k as int), start, end, p0) == Ok::<McuDecode, JpegError>(d),
            blocks@ == b0 + d.blocks.flatten(),
            bits.bits() == start.skip(d.used),
            bits.end_error() == end,
            bits.input() == input,
            bits.state_of() == advance(input, s0, d.used as nat),
            0 <= d.used <= start.len(),
            predictor_values(predictors@) == d.predictors,
            predictors@.len() == h.frame.components.len(),
            predictors_fit(d.predictors),
            start == old(bits).bits(),
            end == old(bits).end_error(),
            input == old(bits).input(),
            s0 == old(bits).state_of(),
            p0 == predictor_values(old(predictors)@),
            b0 == old(blocks)@,
        ensures
            decode_mcu_bits(h, start, end, p0) == Ok::<McuDecode, JpegError>(d),
        decreases count - k,
    {
        let sc = header.scan.components[k];
        proof {
            assert(h.scan.components[k as int] == sc);
            lemma_component_blocks(h, k as int);
            lemma_slot_prefix(h, k as int, 1);
            assert(block_slots(h, k as int) + component_run(k as int, 1) =~= block_slots(h, k as int).push(
                k as int,
            ));
            lemma_decode_slots_push(h, block_slots(h, k as int), k as int, start, end, p0);
        }
        let dc_table = match header.huffman_table(0, sc.dc_table) {
            Ok(t) => t,
            Err(e) => {
                proof {
                    lemma_decode_slots_error(h, block_slots(h, k as int).push(k as int), mcu_slots(h), start, end, p0);
                }
                return Err(e);
            },
        };
        let ac_table = match header.huffman_table(1, sc.ac_table) {
            Ok(t) => t,
            Err(e) => {
                proof {
                    lemma_decode_slots_error(h, block_slots(h, k as int).push(k as int), mcu_slots(h), start, end, p0);
                }
                return Err(e);
            },
        };
        let fi = sc.frame_index;
        let component = header.frame.components[fi];
        let n = component.horizontal_sampling * component.vertical_sampling;
        proof {
            assert(h.frame.components[fi as int] == component);
            assert(n == component_blocks(h, k as int));
            assert(block_slots(h, k as int) + component_run(k as int, 0) =~= block_slots(h, k as int));
        }
        let mut j: usize = 0;
        while j < n
            invariant
                0 <= j <= n,
                0 <= k < count,
                count == h.scan.components.len(),
                h == header@,
                header_wf(h),
                sc == h.scan.components[k as int],
                fi == sc.frame_index,
                fi < h.frame.components.len(),
                n == component_blocks(h, k as int),
                find_table(h.tables, 0, sc.dc_table) == Some(table_def(*dc_table)),
                find_table(h.tables, 1, sc.ac_table) == Some(table_def(*ac_table)),
                decode_slots(h, block_slots(h, k as int) + component_run(k as int, j as nat), start, end, p0) == Ok::<
                    McuDecode,
                    JpegError,
                >(d),
                blocks@ == b0 + d.blocks.flatten(),
                bits.bits() == start.skip(d.used),
                bits.end_error() == end,
                bits.input() == input,
                bits.state_of() == advance(input, s0, d.used as nat),
                0 <= d.used <= start.len(),
                predictor_values(predictors@) == d.predictors,
                predictors@.len() == h.frame.components.len(),
                predictors_fit(d.predictors),
                start == old(bits).bits(),
                end == old(bits).end_error(),
                input == old(bits).input(),
                s0 == old(bits).state_of(),
                p0 == predictor_values(old(predictors)@),
                b0 == old(blocks)@,
            decreases n - j,
        {
            let ghost before = d;
            let ghost prefix = block_slots(h, k as int) + component_run(k as int, j as nat);
            let mut p = predictors[fi];
            proof {
                assert(predictors@[fi as int] as int == d.predictors[fi as int]);
                lemma_slot_prefix(h, k as int, j + 1);
                assert(prefix.push(k as int) =~= block_slots(h, k as int) + component_run(k as int, (j + 1) as nat));
                assert(prefix.push(k as int).drop_last() =~= prefix);
                lemma_decode_slots_push(h, prefix, k as int, start, end, p0);
            }
            let block = match crate::parser::decode_block(bits, dc_table, ac_table, &mut p) {
                Ok(b) => b,
                Err(e) => {
                    proof {
                        lemma_decode_slots_error(h, prefix.push(k as int), mcu_slots(h), start, end, p0);
                    }
                    return Err(e);
                },
            };
            predictors.set(fi, p);
            let ghost pushed = blocks@;
            let mut t: usize = 0;
            while t < 64
                invariant
                    0 <= t <= 64,
                    blocks@ == pushed + block@.take(t as int),
                decreases 64 - t,
            {
                blocks.push(block[t]);
                t = t + 1;
                proof {
                    assert(blocks@ =~= pushed + block@.take(t as int));
                }
            }
            proof {
                let (dblock, used, np) = decode_block_bits(
                    table_def(*dc_table),
                    table_def(*ac_table),
                    start.skip(before.used),
                    end,
                    before.predictors[fi as int],
                ).unwrap();
                d = McuDecode {
                    blocks: before.blocks.push(block@),
                    used: before.used + used,
                    predictors: before.predictors.update(fi as int, np),
                };
                lemma_decode_slots_push(h, prefix, k as int, start, end, p0);
                assert(block@.take(64) =~= block@);
                before.blocks.lemma_flatten_push(block@);
                assert(start.skip(before.used).skip(used) =~= start.skip(d.used));
                crate::entropy::lemma_advance_add(input, s0, before.used as nat, used as nat);
                assert(predictor_values(predictors@) =~= d.predictors);
            }
            j = j + 1;
        }
        k = k + 1;
    }
    Ok(())
}

/// What decoding slots keeps: it uses no more bits than there are, gives
/// one 64-coefficient block per slot, and leaves 16-bit predictors.
proof fn lemma_decode_slots_facts(
    h: HeaderModel,
    slots: Seq<int>,
    bits: Seq<bool>,
    end: JpegError,
    predictors: Seq<int>,
)
    requires
        header_wf(h),
        forall|j: int| 0 <= j < slots.len() ==> 0 <= #[trigger] slots[j] < h.scan.components.len(),
        predictors.len() == h.frame.components.len(),
        predictors_fit(predictors),
    ensures
        decode_slots(h, slots, bits, end, predictors) matches Ok(d) ==> {
            &&& 0 <= d.used <= bits.len()
            &&& d.predictors.len() == predictors.len()
            &&& predictors_fit(d.predictors)
            &&& d.blocks.len() == slots.len()
            &&& forall|i: int| 0 <= i < d.blocks.len() ==> (#[trigger] d.blocks[i]).len() == 64 && ac_fits(d.blocks[i])
        },
    decreases slots.len(),
{
    if slots.len() > 0 {
        let front = slots.drop_last();
        assert forall|j: int| 0 <= j < front.len() implies 0 <= #[trigger] front[j] < h.scan.components.len() by {
            assert(front[j] == slots[j]);
        }
        lemma_decode_slots_facts(h, front, bits, end, predictors);
        assert(slots =~= front.push(slots.last()));
        if decode_slots(h, front, bits, end, predictors) is Ok {
            lemma_decode_slots_push(h, front, slots.last(), bits, end, predictors);
            let d = decode_slots(h, front, bits, end, predictors).unwrap();
            let sc = h.scan.components[slots.last()];
            assert(0 <= slots.last() < h.scan.components.len());
            assert(sc.frame_index < h.frame.components.len());
            if let (Some(dc), Some(ac)) = (find_table(h.tables, 0, sc.dc_table), find_table(h.tables, 1, sc.ac_table)) {
                let rest = bits.skip(d.used);
                assert(rest.len() == bits.len() - d.used);
                crate::block::lemma_decode_block_used(dc, ac, rest, end, d.predictors[sc.frame_index as int]);
                if let Ok((block, used, p)) = decode_block_bits(dc, ac, rest, end, d.predictors[sc.frame_index as int]) {
                    let e = McuDecode {
                        blocks: d.blocks.push(block),
                        used: d.used + used,
                        predictors: d.predictors.update(sc.frame_index as int, p),
                    };
                    assert(decode_slots(h, slots, bits, end, predictors) == Ok::<McuDecode, JpegError>(e));
                    assert forall|i: int| 0 <= i < e.blocks.len() implies (#[trigger] e.blocks[i]).len() == 64 && ac_fits(e.blocks[i]) by {
                        if i < d.blocks.len() {
                            assert(e.blocks[i] == d.blocks[i]);
                        }
                    }
                    assert forall|i: int| #![trigger e.predictors[i]] 0 <= i < e.predictors.len() implies i16::MIN
                        <= e.predictors[i] <= i16::MAX by {
                        if i != sc.frame_index as int {
                            assert(e.predictors[i] == d.predictors[i]);
                        }
                    }
                }
            }
        } else {
            reveal(decode_slots);
        }
    } else {
        reveal(decode_slots);
    }
}

/// Where a reader starts on entropy-coded data at `position`.
pub open spec fn scan_start(position: int) -> ReaderState {
    ReaderState { position, current: 0, remaining: 0 }
}

/// The walk through the first MCUs of a scan: the bit offset at which each
/// MCU starts and the DC predictors before it, the bits used, and the DC
/// predictors after them.
pub struct ScanWalk {
    pub starts: Seq<int>,
    pub predictors: Seq<Seq<int>>,
    pub used: int,
    pub dc: Seq<int>,
}

/// Walks through the first `count` MCUs of the scan whose reader starts in
/// state `s0`: before each MCU its reader position must fit a saved state;
/// each MCU must decode.
pub open spec fn scan_walk(h: HeaderModel, input: Seq<u8>, s0: ReaderState, count: nat) -> Result<ScanWalk, JpegError>
    decreases count,
{
    if count == 0 {
        Ok(
            ScanWalk {
                starts: Seq::<int>::empty(),
                predictors: Seq::<Seq<int>>::empty(),
                used: 0,
                dc: Seq::new(h.frame.components.len(), |i: int| 0),
            },
        )
    } else {
        match scan_walk(h, input, s0, (count - 1) as nat) {
            Err(e) => Err(e),
            Ok(w) => {
                if advance(input, s0, w.used as nat).position > (u64::MAX >> 12u64) {
                    Err(JpegError::PositionTooLarge)
                } else {
                    match decode_mcu_bits(h, state_bits(input, s0).skip(w.used), entropy_end(input, s0.position), w.dc) {
                        Err(e) => Err(e),
                        Ok(d) => Ok(
                            ScanWalk {
                                starts: w.starts.push(w.used),
                                predictors: w.predictors.push(w.dc),
                                used: w.used + d.used,
                                dc: d.predictors,
                            },
                        ),
                    }
                }
            },
        }
    }
}

/// Indexing the scan whose entropy-coded data starts at `start`: a walk
/// through all its MCUs, after which the data must end with EOI.
pub open spec fn index_walk(h: HeaderModel, input: Seq<u8>, start: int) -> Result<ScanWalk, JpegError> {
    let s0 = scan_start(start);
    match scan_walk(h, input, s0, mcu_count_of(h) as nat) {
        Err(e) => Err(e),
        Ok(w) => match scan_end(input, advance(input, s0, w.used as nat).position) {
            Err(e) => Err(e),
            Ok(()) => Ok(w),
        },
    }
}

/// The word that saves a reader in state `s`.
pub open spec fn saved_word(s: ReaderState) -> u64 {
    state_word(s.position as u64, s.current, s.remaining as u8)
}

/// DC predictors as an index stores them.
pub open spec fn stored_predictors(p: Seq<int>) -> Seq<i16> {
    p.map_values(|v: int| v as i16)
}

/// The mathematical value of an MCU index: a saved reader state and the DC
/// predictors of every frame component before each MCU.
pub struct IndexModel {
    pub states: Seq<u64>,
    pub predictors: Seq<i16>,
}

/// The index that a walk gives.
pub open spec fn index_model(input: Seq<u8>, start: int, w: ScanWalk) -> IndexModel {
    IndexModel {
        states: Seq::new(w.starts.len(), |m: int| saved_word(advance(input, scan_start(start), w.starts[m] as nat))),
        predictors: w.predictors.map_values(|p: Seq<int>| stored_predictors(p)).flatten(),
    }
}

/// Where each MCU of a scan starts, with the DC predictors before it, so
/// that any MCU can be decoded on its own.
pub struct McuIndex {
    bit_states: Vec<BitReaderState>,
    dc_predictors: Vec<i16>,
}

impl View for McuIndex {
    type V = IndexModel;

    closed spec fn view(&self) -> IndexModel {
        IndexModel {
            states: self.bit_states@.map_values(|s: BitReaderState| s.word()),
            predictors: self.dc_predictors@,
        }
    }
}

/// Once the walk fails, walking further fails the same way.
proof fn lemma_scan_walk_error(h: HeaderModel, input: Seq<u8>, s0: ReaderState, k: nat, n: nat)
    requires
        k <= n,
        scan_walk(h, input, s0, k) is Err,
    ensures
        scan_walk(h, input, s0, n) == scan_walk(h, input, s0, k),
    decreases n - k,
{
    if k < n {
        lemma_scan_walk_error(h, input, s0, k, (n - 1) as nat);
    }
}

/// Reads the whole scan, from the entropy-coded data at `start` to EOI,
/// and records before each MCU where its bits start and the DC predictors
/// of the frame components.
pub fn index_mcus(header: &Header, input: &[u8], start: usize) -> (r: Result<McuIndex, JpegError>)
    requires
        header_wf(header@),
        start <= input@.len(),
    ensures
        match index_walk(header@, input@, start as int) {
            Ok(w) => r matches Ok(index) && index@ == index_model(input@, start as int, w),
            Err(e) => r matches Err(f) && f == e,
        },
{
    let ghost h = header@;
    let ghost s0 = scan_start(start as int);
    proof {
        lemma_header_bounds(h);
    }
    let mut bits = BitReader::new(input, start);
    proof {
        assert(crate::bits::bits_of(0u32, 0) =~= Seq::<bool>::empty());
        assert(state_bits(input@, s0) =~= bits.bits());
        assert(state_bits(input@, s0).skip(0) =~= state_bits(input@, s0));
    }
    let n = header.frame.components.len();
    let mut dc_predictors: Vec<i32> = Vec::new();
    let mut c: usize = 0;
    while c < n
        invariant
            0 <= c <= n,
            dc_predictors@.len() == c,
            forall|i: int| 0 <= i < c ==> #[trigger] dc_predictors@[i] == 0,
        decreases n - c,
    {
        dc_predictors.push(0);
        c = c + 1;
    }
    let count = header.mcu_columns() * header.mcu_rows();
    let predictor_capacity = match count.checked_mul(n) {
        Some(c) => c,
        None => 0,
    };
    let mut index = McuIndex {
        bit_states: Vec::with_capacity(count),
        dc_predictors: Vec::with_capacity(predictor_capacity),
    };
    let mut scratch: Vec<i16> = Vec::new();
    let ghost mut w = scan_walk(h, input@, s0, 0).unwrap();
    proof {
        assert(predictor_values(dc_predictors@) =~= w.dc);
        assert(index@.states =~= index_model(input@, start as int, w).states);
        assert(index@.predictors =~= index_model(input@, start as int, w).predictors);
    }
    let mut m: usize = 0;
    while m < count
        invariant
            0 <= m <= count,
            count == mcu_count_of(h),
            h == header@,
            header_wf(h),
            s0 == scan_start(start as int),
            start <= input@.len(),
            n == h.frame.components.len(),
            scan_walk(h, input@, s0, m as nat) == Ok::<ScanWalk, JpegError>(w),
            bits.input() == input@,
            bits.state_of() == advance(input@, s0, w.used as nat),
            bits.bits() == state_bits(input@, s0).skip(w.used),
            bits.end_error() == entropy_end(input@, start as int),
            0 <= w.used <= state_bits(input@, s0).len(),
            predictor_values(dc_predictors@) == w.dc,
            dc_predictors@.len() == n,
            predictors_fit(w.dc),
            index@ == index_model(input@, start as int, w),
        decreases count - m,
    {
        let state = match bits.state() {
            Ok(s) => s,
            Err(e) => {
                proof {
                    lemma_scan_walk_error(h, input@, s0, (m + 1) as nat, count as nat);
                }
                return Err(e);
            },
        };
        let ghost states_before = index.bit_states@;
        index.bit_states.push(state);
        let ghost predictors_before = index.dc_predictors@;
        let mut c: usize = 0;
        while c < n
            invariant
                0 <= c <= n,
                n == dc_predictors@.len(),
                predictor_values(dc_predictors@) == w.dc,
                predictors_fit(w.dc),
                index.dc_predictors@ == predictors_before + stored_predictors(w.dc).take(c as int),
                index.bit_states@ == states_before.push(state),
            decreases n - c,
        {
            let value = dc_predictors[c];
            proof {
                assert(w.dc[c as int] == value as int);
            }
            index.dc_predictors.push(value as i16);
            c = c + 1;
            proof {
                assert(index.dc_predictors@ =~= predictors_before + stored_predictors(w.dc).take(c as int));
            }
        }
        scratch.clear();
        let ghost before = w;
        match decode_mcu(header, &mut bits, &mut dc_predictors, &mut scratch) {
            Ok(()) => {},
            Err(e) => {
                proof {
                    lemma_scan_walk_error(h, input@, s0, (m + 1) as nat, count as nat);
                }
                return Err(e);
            },
        }
        proof {
            lemma_slots_len(h, h.scan.components.len() as int);
            lemma_decode_slots_facts(
                h,
                mcu_slots(h),
                state_bits(input@, s0).skip(before.used),
                entropy_end(input@, start as int),
                before.dc,
            );
            let d = decode_mcu_bits(h, state_bits(input@, s0).skip(before.used), entropy_end(input@, start as int), before.dc).unwrap();
            w = ScanWalk {
                starts: before.starts.push(before.used),
                predictors: before.predictors.push(before.dc),
                used: before.used + d.used,
                dc: d.predictors,
            };
            assert(state_bits(input@, s0).skip(before.used).skip(d.used) =~= state_bits(input@, s0).skip(w.used));
            crate::entropy::lemma_advance_add(input@, s0, before.used as nat, d.used as nat);
            assert(stored_predictors(before.dc).take(n as int) =~= stored_predictors(before.dc));
            let old_model = index_model(input@, start as int, before);
            let new_model = index_model(input@, start as int, w);
            assert(new_model.states =~= old_model.states.push(state.word()));
            assert(index.bit_states@.map_values(|s: BitReaderState| s.word()) =~= states_before.map_values(
                |s: BitReaderState| s.word(),
            ).push(state.word()));
            assert(w.predictors.map_values(|p: Seq<int>| stored_predictors(p)) =~= before.predictors.map_values(
                |p: Seq<int>| stored_predictors(p),
            ).push(stored_predictors(before.dc)));
            before.predictors.map_values(|p: Seq<int>| stored_predictors(p)).lemma_flatten_push(stored_predictors(before.dc));
            assert(index@ =~= new_model);
        }
        m = m + 1;
    }
    match bits.finish_scan() {
        Ok(()) => {},
        Err(e) => {
            return Err(e);
        },
    }
    Ok(index)
}

/// The state of a reader restored from a saved word.
pub open spec fn restored_state(input: Seq<u8>, word: u64) -> ReaderState {
    ReaderState {
        position: if (word >> 12u64) as int <= input.len() {
            (word >> 12u64) as int
        } else {
            input.len() as int
        },
        current: (word >> 4u64) as u8,
        remaining: (word & 0x0f) as u8 as nat,
    }
}

/// The DC predictors that an index stores for MCU `m`, of `n` frame
/// components.
pub open spec fn indexed_predictors(model: IndexModel, m: int, n: int) -> Seq<int> {
    Seq::new(n as nat, |c: int| model.predictors[m * n + c] as int)
}

/// Decoding MCU `m` from what an index saved for it.
pub open spec fn indexed_mcu(h: HeaderModel, input: Seq<u8>, model: IndexModel, m: int) -> Result<McuDecode, JpegError> {
    let s = restored_state(input, model.states[m]);
    decode_mcu_bits(
        h,
        state_bits(input, s),
        entropy_end(input, s.position),
        indexed_predictors(model, m, h.frame.components.len() as int),
    )
}

impl McuIndex {
    /// The bytes that the index's saved states and predictors occupy: each
    /// saved state is one 64-bit word.
    pub fn storage_bytes(&self) -> (r: usize)
        requires
            self@.states.len() * vstd::layout::size_of::<u64>() + self@.predictors.len()
                * vstd::layout::size_of::<i16>() <= usize::MAX,
        ensures
            r == self@.states.len() * vstd::layout::size_of::<u64>() + self@.predictors.len()
                * vstd::layout::size_of::<i16>(),
    {
        let state_size = core::mem::size_of::<u64>();
        let predictor_size = core::mem::size_of::<i16>();
        let states = self.bit_states.len();
        let predictors = self.dc_predictors.len();
        proof {
            assert(states * state_size + predictors * predictor_size <= usize::MAX);
            assert(0 <= states * state_size <= usize::MAX) by (nonlinear_arith)
                requires states * state_size + predictors * predictor_size <= usize::MAX, 0 <= predictors * predictor_size;
            assert(0 <= predictors * predictor_size) by (nonlinear_arith)
                requires 0 <= predictors, 0 <= predictor_size;
        }
        states * state_size + predictors * predictor_size
    }
}

/// Decodes MCU `mcu` on its own, from the reader state and DC predictors
/// that the index saved for it: the blocks of the MCU, one after the
/// other, overwrite the front of `blocks`, whose other entries stay as
/// they were, and `dc_predictors` ends as the predictors after the MCU.
pub fn decode_indexed_mcu(
    header: &Header,
    input: &[u8],
    index: &McuIndex,
    mcu: usize,
    blocks: &mut Vec<i16>,
    dc_predictors: &mut Vec<i32>,
) -> (r: Result<(), JpegError>)
    requires
        header_wf(header@),
        mcu < index@.states.len(),
        (mcu + 1) * header@.frame.components.len() <= index@.predictors.len(),
        old(dc_predictors)@.len() == header@.frame.components.len(),
        old(blocks)@.len() >= 64 * header@.scan.blocks_per_mcu,
    ensures
        final(blocks)@.len() == old(blocks)@.len(),
        match indexed_mcu(header@, input@, index@, mcu as int) {
            Ok(d) => {
                &&& r is Ok
                &&& final(blocks)@.subrange(0, 64 * header@.scan.blocks_per_mcu) == d.blocks.flatten()
                &&& final(blocks)@.subrange(64 * header@.scan.blocks_per_mcu, old(blocks)@.len() as int)
                    == old(blocks)@.subrange(64 * header@.scan.blocks_per_mcu, old(blocks)@.len() as int)
                &&& predictor_values(final(dc_predictors)@) == d.predictors
                &&& final(dc_predictors)@.len() == old(dc_predictors)@.len()
            },
            Err(e) => r == Err::<(), JpegError>(e),
        },
{
    let ghost model = index@;
    let ghost initial = blocks@;
    let n = header.frame.components.len();
    let total = index.dc_predictors.len();
    proof {
        assert(total == model.predictors.len());
        assert((mcu + 1) * n == mcu * n + n) by (nonlinear_arith);
        assert(0 <= mcu * n) by (nonlinear_arith)
            requires 0 <= mcu, 0 <= n;
    }
    let predictor_start = mcu * n;
    let mut c: usize = 0;
    while c < n
        invariant
            0 <= c <= n,
            n == dc_predictors@.len(),
            predictor_start + n <= total,
            total == index.dc_predictors@.len(),
            predictor_start == mcu * n,
            model == index@,
            n == header@.frame.components.len(),
            forall|i: int| 0 <= i < c ==> #[trigger] dc_predictors@[i] as int == indexed_predictors(model, mcu as int, n as int)[i],
        decreases n - c,
    {
        let value = index.dc_predictors[predictor_start + c];
        dc_predictors.set(c, value as i32);
        c = c + 1;
    }
    proof {
        assert(predictor_values(dc_predictors@) =~= indexed_predictors(model, mcu as int, n as int));
        assert forall|i: int| #![trigger predictor_values(dc_predictors@)[i]] 0 <= i < n implies i16::MIN
            <= predictor_values(dc_predictors@)[i] <= i16::MAX by {
            assert(predictor_values(dc_predictors@)[i] == model.predictors[mcu * n + i] as int);
        }
        assert(model.states[mcu as int] == index.bit_states@[mcu as int].word());
    }
    let mut bits = BitReader::from_state(input, index.bit_states[mcu]);
    let mut decoded: Vec<i16> = Vec::new();
    proof {
        assert(bits.state_of() == restored_state(input@, model.states[mcu as int]));
        lemma_indexed_mcu_facts(header@, input@, model, mcu as int);
    }
    match decode_mcu(header, &mut bits, dc_predictors, &mut decoded) {
        Ok(()) => {},
        Err(e) => {
            return Err(e);
        },
    }
    let ghost d = indexed_mcu(header@, input@, model, mcu as int).unwrap();
    proof {
        assert(Seq::<i16>::empty() + d.blocks.flatten() =~= d.blocks.flatten());
        lemma_flatten_pieces(d.blocks, 64);
        assert(decoded@ == d.blocks.flatten());
        assert(decoded@.len() == 64 * header@.scan.blocks_per_mcu);
    }
    let count = decoded.len();
    let mut i: usize = 0;
    while i < count
        invariant
            0 <= i <= count,
            count == decoded@.len(),
            count <= initial.len(),
            blocks@.len() == initial.len(),
            forall|j: int| 0 <= j < i ==> #[trigger] blocks@[j] == decoded@[j],
            forall|j: int| count <= j < initial.len() ==> #[trigger] blocks@[j] == initial[j],
        decreases count - i,
    {
        blocks.set(i, decoded[i]);
        i = i + 1;
    }
    proof {
        assert(blocks@.subrange(0, count as int) =~= decoded@);
        assert(blocks@.subrange(count as int, initial.len() as int) =~= initial.subrange(count as int, initial.len() as int));
    }
    Ok(())
}

/// Flattening pieces of `n` items each puts item `c` of piece `m` at
/// `m * n + c`.
pub proof fn lemma_flatten_pieces<A>(s: Seq<Seq<A>>, n: int)
    requires
        n >= 0,
        forall|i: int| 0 <= i < s.len() ==> (#[trigger] s[i]).len() == n,
    ensures
        s.flatten().len() == s.len() * n,
        forall|m: int, c: int| 0 <= m < s.len() && 0 <= c < n ==> s.flatten()[m * n + c] == #[trigger] s[m][c],
    decreases s.len(),
{
    if s.len() > 0 {
        let front = s.drop_last();
        assert forall|i: int| 0 <= i < front.len() implies (#[trigger] front[i]).len() == n by {
            assert(front[i] == s[i]);
        }
        lemma_flatten_pieces(front, n);
        assert(s =~= front.push(s.last()));
        front.lemma_flatten_push(s.last());
        let k = s.len();
        assert((k - 1) * n + n == k * n) by (nonlinear_arith);
        assert forall|m: int, c: int| 0 <= m < s.len() && 0 <= c < n implies s.flatten()[m * n + c] == #[trigger] s[m][c] by {
            if m < k - 1 {
                assert(m * n + c < (k - 1) * n) by (nonlinear_arith)
                    requires 0 <= m < k - 1, 0 <= c < n;
                assert(front[m] == s[m]);
            } else {
                assert(m * n == (k - 1) * n);
            }
        }
    } else {
        assert(s.flatten() =~= Seq::<A>::empty());
    }
}

/// What a successful walk through `count` MCUs records: where each MCU
/// starts, at a position that a saved state can hold, with 16-bit
/// predictors before it, and that each MCU decodes there.
pub proof fn lemma_scan_walk_facts(h: HeaderModel, input: Seq<u8>, s0: ReaderState, count: nat)
    requires
        header_wf(h),
        scan_walk(h, input, s0, count) is Ok,
    ensures
        ({
            let w = scan_walk(h, input, s0, count).unwrap();
            let bits = state_bits(input, s0);
            let end = entropy_end(input, s0.position);
            &&& w.starts.len() == count
            &&& w.predictors.len() == count
            &&& 0 <= w.used <= bits.len()
            &&& w.dc.len() == h.frame.components.len()
            &&& predictors_fit(w.dc)
            &&& forall|m: int|
                #![trigger w.starts[m]]
                0 <= m < count ==> {
                    &&& 0 <= w.starts[m] <= w.used
                    &&& advance(input, s0, w.starts[m] as nat).position <= (u64::MAX >> 12u64)
                    &&& w.predictors[m].len() == h.frame.components.len()
                    &&& predictors_fit(w.predictors[m])
                    &&& decode_mcu_bits(h, bits.skip(w.starts[m]), end, w.predictors[m]) is Ok
                }
        }),
    decreases count,
{
    let bits = state_bits(input, s0);
    let end = entropy_end(input, s0.position);
    if count == 0 {
        let w = scan_walk(h, input, s0, count).unwrap();
        assert(predictors_fit(w.dc));
    } else {
        lemma_scan_walk_facts(h, input, s0, (count - 1) as nat);
        let w = scan_walk(h, input, s0, (count - 1) as nat).unwrap();
        lemma_slots_len(h, h.scan.components.len() as int);
        lemma_decode_slots_facts(h, mcu_slots(h), bits.skip(w.used), end, w.dc);
        let next = scan_walk(h, input, s0, count).unwrap();
        assert forall|m: int|
            #![trigger next.starts[m]]
            0 <= m < count implies {
                &&& 0 <= next.starts[m] <= next.used
                &&& advance(input, s0, next.starts[m] as nat).position <= (u64::MAX >> 12u64)
                &&& next.predictors[m].len() == h.frame.components.len()
                &&& predictors_fit(next.predictors[m])
                &&& decode_mcu_bits(h, bits.skip(next.starts[m]), end, next.predictors[m]) is Ok
            } by {
            if m < count - 1 {
                assert(next.starts[m] == w.starts[m]);
                assert(next.predictors[m] == w.predictors[m]);
            }
        }
    }
}

/// The index law: for the index that `index_mcus` builds, the reader state
/// saved for MCU `m` restores the reader to where that MCU starts when the
/// scan is decoded in order, the predictors saved for it are those before
/// it, so decoding MCU `m` from the index gives exactly the MCU that
/// decoding the scan in order gives, and it decodes.
pub proof fn lemma_indexed_mcu(h: HeaderModel, input: Seq<u8>, start: int, m: int)
    requires
        header_wf(h),
        0 <= start <= input.len(),
        index_walk(h, input, start) is Ok,
        0 <= m < mcu_count_of(h),
    ensures
        ({
            let w = index_walk(h, input, start).unwrap();
            let model = index_model(input, start, w);
            &&& model.states.len() == mcu_count_of(h)
            &&& model.predictors.len() == mcu_count_of(h) * h.frame.components.len()
            &&& indexed_mcu(h, input, model, m) == decode_mcu_bits(
                h,
                state_bits(input, scan_start(start)).skip(w.starts[m]),
                entropy_end(input, start),
                w.predictors[m],
            )
            &&& indexed_mcu(h, input, model, m) is Ok
        }),
{
    let s0 = scan_start(start);
    let count = mcu_count_of(h);
    lemma_header_bounds(h);
    let w = index_walk(h, input, start).unwrap();
    assert(scan_walk(h, input, s0, count as nat) == Ok::<ScanWalk, JpegError>(w));
    lemma_scan_walk_facts(h, input, s0, count as nat);
    let model = index_model(input, start, w);
    let n = h.frame.components.len() as int;
    let pieces = w.predictors.map_values(|p: Seq<int>| stored_predictors(p));
    assert(w.predictors.len() == count);
    assert(pieces.len() == count);
    assert forall|i: int| 0 <= i < pieces.len() implies (#[trigger] pieces[i]).len() == n by {
        assert(0 <= i < count);
        assert(0 <= w.starts[i] <= w.used);
        assert(w.predictors[i].len() == n);
        assert(pieces[i] == stored_predictors(w.predictors[i]));
    }
    lemma_flatten_pieces(pieces, n);
    let st = advance(input, s0, w.starts[m] as nat);
    assert(w.starts[m] == w.starts[m]);
    crate::entropy::lemma_advance(input, s0, w.starts[m] as nat);
    crate::entropy::lemma_state_round_trip(st.position as u64, st.current, st.remaining as u8);
    assert(model.states[m] == saved_word(st));
    assert(restored_state(input, model.states[m]) == st);
    assert forall|c: int| 0 <= c < n implies #[trigger] indexed_predictors(model, m, n)[c] == w.predictors[m][c] by {
        assert(model.predictors[m * n + c] == pieces[m][c]);
        assert(predictors_fit(w.predictors[m]));
        assert(i16::MIN <= w.predictors[m][c] <= i16::MAX);
    }
    assert(indexed_predictors(model, m, n) =~= w.predictors[m]);
}

/// A decoded MCU has one block of 64 coefficients per block of the scan's
/// MCU, none of whose AC coefficients is `i16::MIN`.
pub proof fn lemma_indexed_mcu_facts(h: HeaderModel, input: Seq<u8>, model: IndexModel, m: int)
    requires
        header_wf(h),
    ensures
        indexed_mcu(h, input, model, m) matches Ok(d) ==> {
            &&& d.blocks.len() == h.scan.blocks_per_mcu
            &&& forall|i: int| 0 <= i < d.blocks.len() ==> (#[trigger] d.blocks[i]).len() == 64 && ac_fits(d.blocks[i])
            &&& d.predictors.len() == h.frame.components.len()
        },
{
    let n = h.frame.components.len() as int;
    let s = restored_state(input, model.states[m]);
    let p = indexed_predictors(model, m, n);
    lemma_slots_len(h, h.scan.components.len() as int);
    assert(predictors_fit(p));
    lemma_decode_slots_facts(h, mcu_slots(h), state_bits(input, s), entropy_end(input, s.position), p);
}

proof fn lemma_segments_position(input: Seq<u8>, position: int, progress: HeaderProgress)
    requires
        header_segments(input, position, progress) is Ok,
    ensures
        position < header_segments(input, position, progress).unwrap().1 <= input.len(),
    decreases input.len() - position,
{
    lemma_marker_search_advances(input, position, false);
    let (marker, p) = marker_search(input, position, false).unwrap();
    let length = be16(input[p], input[p + 1]);
    let data = input.subrange(p + 2, p + length);
    let next = segment_effect(marker, data, progress).unwrap();
    if marker != SOS {
        lemma_segments_position(input, p + length, next);
    }
}

/// The entropy-coded data of an accepted header starts within the input.
pub proof fn lemma_header_of_position(input: Seq<u8>)
    requires
        header_of(input) is Ok,
    ensures
        0 <= header_of(input).unwrap().1 <= input.len(),
{
    lemma_segments_position(input, 2, empty_progress());
    lemma_marker_search_advances(input, 2, false);
}

/// An index that `index_mcus` builds saves one state per MCU and the
/// predictors of every frame component for each.
pub proof fn lemma_index_sizes(h: HeaderModel, input: Seq<u8>, start: int)
    requires
        header_wf(h),
        index_walk(h, input, start) is Ok,
    ensures
        index_model(input, start, index_walk(h, input, start).unwrap()).states.len() == mcu_count_of(h),
        index_model(input, start, index_walk(h, input, start).unwrap()).predictors.len() == mcu_count_of(h)
            * h.frame.components.len(),
{
    let s0 = scan_start(start);
    let count = mcu_count_of(h);
    lemma_header_bounds(h);
    let w = index_walk(h, input, start).unwrap();
    assert(scan_walk(h, input, s0, count as nat) == Ok::<ScanWalk, JpegError>(w));
    lemma_scan_walk_facts(h, input, s0, count as nat);
    let n = h.frame.components.len() as int;
    let pieces = w.predictors.map_values(|p: Seq<int>| stored_predictors(p));
    assert(pieces.len() == count);
    assert forall|i: int| 0 <= i < pieces.len() implies (#[trigger] pieces[i]).len() == n by {
        assert(0 <= w.starts[i] <= w.used);
        assert(pieces[i] == stored_predictors(w.predictors[i]));
    }
    lemma_flatten_pieces(pieces, n);
}

} // verus!
