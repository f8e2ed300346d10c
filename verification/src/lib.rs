//! Lossless rotations and flips of baseline JPEG images, carried out on the
//! entropy-coded DCT coefficients without decoding the image.
use vstd::prelude::*;

pub mod bits;
pub mod block;
pub mod entropy;
pub mod error;
pub mod parser;
pub mod readback;
pub mod scan;
pub mod transform;
pub mod writer;

use crate::error::JpegError;
use crate::parser::{header_of, parse_header, HeaderModel};
use crate::scan::{
    index_mcus, index_model, index_walk, layout_check, lemma_header_of_position, lemma_header_of_wf,
    lemma_index_sizes, mcu_count_of, validate_supported_layout,
};
use crate::transform::{filename_of, Transform};
use crate::writer::{
    decode_list, lemma_header_writable, list_blocks, list_components, output_blocks, transformed_out, write_transformed,
};
use crate::readback::{header_out, lemma_output_inverse, lemma_output_reads_back, lemma_output_tables_known};
use crate::bits::{bytes_to_bits, entropy_bytes, entropy_end};

verus! {

/// The size of each of the input and output buffers that a reader and a
/// writer of files use.
pub const IO_BUFFER_SIZE: usize = 8 * 1024;

/// The memory accounting of a transform that streams the image MCU by
/// MCU: the size of the MCU index, and what such a transform holds at
/// once besides the input and output files themselves (the index, one
/// source MCU, one block, the two file buffers, the DC predictors). This
/// library works on the whole input and output in memory, so its own use
/// is larger by their sizes.
pub struct Report {
    pub index_storage_bytes: usize,
    pub tracked_working_bytes: usize,
}

/// The image's width and height are whole numbers of MCUs.
pub open spec fn on_mcu_boundaries(h: HeaderModel) -> bool {
    &&& h.frame.width % (8 * h.frame.max_horizontal_sampling) == 0
    &&& h.frame.height % (8 * h.frame.max_vertical_sampling) == 0
}

/// The JPEG that operation `operation` makes of `input`, or why it fails:
/// the operation must be one of the eight, the header must parse, the scan
/// must be one interleaved scan with defined tables, the image must be a
/// whole number of MCUs, and the scan must be indexed to its end.
pub open spec fn transform_of(input: Seq<u8>, operation: u8) -> Result<Seq<u8>, JpegError> {
    if operation >= 8 {
        Err(JpegError::InvalidOperation)
    } else {
        match header_of(input) {
            Err(e) => Err(e),
            Ok((h, start)) => match layout_check(h) {
                Err(e) => Err(e),
                Ok(()) => if !on_mcu_boundaries(h) {
                    Err(JpegError::NotOnMcuBoundaries)
                } else {
                    match index_walk(h, input, start) {
                        Err(e) => Err(e),
                        Ok(w) => transformed_out(h, input, index_model(input, start, w), operation),
                    }
                },
            },
        }
    }
}

/// The bytes of the MCU index of an image with header `h`: for each MCU,
/// one saved reader state of 8 bytes and one 2-byte DC predictor per
/// component.
pub open spec fn index_bytes(h: HeaderModel) -> int {
    8 * mcu_count_of(h) + 2 * mcu_count_of(h) * h.frame.components.len()
}

/// The bytes a transform holds at once: the index, the coefficients of one
/// source MCU, one transformed block, the two file buffers, and the DC
/// predictors of the source and the output.
pub open spec fn working_bytes(h: HeaderModel) -> int {
    index_bytes(h) + 128 * h.scan.blocks_per_mcu + 128 + 2 * IO_BUFFER_SIZE + 8 * h.frame.components.len()
}

/// The memory that transforming `input` reports fits a `usize`.
pub open spec fn report_fits(input: Seq<u8>) -> bool {
    header_of(input) matches Ok((h, _)) ==> working_bytes(h) <= usize::MAX
}

/// Applies operation `operation`, from 0 through 7, to the JPEG `input`:
/// returns the transformed JPEG and how much memory the work took.
pub fn transform(input: &[u8], operation: u8) -> (r: Result<(Vec<u8>, Report), JpegError>)
    requires
        transform_of(input@, operation) is Ok ==> report_fits(input@),
    ensures
        match transform_of(input@, operation) {
            Ok(bytes) => r matches Ok((output, report)) && output@ == bytes && (header_of(input@) matches Ok((h, _))
                && report.index_storage_bytes == index_bytes(h) && report.tracked_working_bytes == working_bytes(h)),
            Err(e) => r matches Err(f) && f == e,
        },
{
    let transform = match Transform::from_index(operation) {
        Some(t) => t,
        None => {
            return Err(JpegError::InvalidOperation);
        },
    };
    let (header, start) = match parse_header(input) {
        Ok(parsed) => parsed,
        Err(e) => {
            return Err(e);
        },
    };
    proof {
        lemma_header_of_wf(input@);
        lemma_header_writable(input@, crate::transform::geometry_of(operation).0);
        lemma_header_of_position(input@);
        crate::scan::lemma_header_bounds(header@);
    }
    match validate_supported_layout(&header) {
        Ok(()) => {},
        Err(e) => {
            return Err(e);
        },
    }
    let unit_width = 8 * header.frame.max_horizontal_sampling;
    let unit_height = 8 * header.frame.max_vertical_sampling;
    if header.frame.width % unit_width != 0 || header.frame.height % unit_height != 0 {
        return Err(JpegError::NotOnMcuBoundaries);
    }
    let index = match index_mcus(&header, input, start) {
        Ok(i) => i,
        Err(e) => {
            return Err(e);
        },
    };
    proof {
        lemma_index_sizes(header@, input@, start as int);
    }
    let output = match write_transformed(&header, input, &index, transform) {
        Ok(v) => v,
        Err(e) => {
            return Err(e);
        },
    };
    proof {
        broadcast use vstd::layout::layout_of_primitives;

        assert(vstd::layout::size_of::<u64>() == 8 && vstd::layout::size_of::<i16>() == 2);
        assert(index@.states.len() * vstd::layout::size_of::<u64>() + index@.predictors.len()
            * vstd::layout::size_of::<i16>() == index_bytes(header@)) by (nonlinear_arith)
            requires
                index@.states.len() == mcu_count_of(header@),
                index@.predictors.len() == mcu_count_of(header@) * header@.frame.components.len(),
                vstd::layout::size_of::<u64>() == 8,
                vstd::layout::size_of::<i16>() == 2;
        assert(index_bytes(header@) <= working_bytes(header@)) by (nonlinear_arith)
            requires
                0 <= header@.scan.blocks_per_mcu,
                0 <= header@.frame.components.len();
    }
    let index_storage_bytes = index.storage_bytes();
    let components = header.frame.components.len();
    let source_mcu_bytes = header.scan.blocks_per_mcu * 64 * core::mem::size_of::<i16>();
    let transform_block_bytes = 64 * core::mem::size_of::<i16>();
    let io_buffer_bytes = 2 * IO_BUFFER_SIZE;
    let predictor_scratch_bytes = 2 * components * core::mem::size_of::<i32>();
    let report = Report {
        index_storage_bytes,
        tracked_working_bytes: index_storage_bytes + source_mcu_bytes + transform_block_bytes + io_buffer_bytes
            + predictor_scratch_bytes,
    };
    Ok((output, report))
}

/// The name of the file that operation `operation` writes, `"<operation>.jpg"`,
/// or `None` when there is no such operation.
pub fn operation_filename(operation: u8) -> (r: Option<String>)
    ensures
        r is Some <==> operation < 8,
        r matches Some(name) ==> name@ == filename_of(operation),
{
    match Transform::from_index(operation) {
        Some(t) => Some(t.filename()),
        None => None,
    }
}

/// What `transform` writes reads back as the transformed image: the
/// output's header parses into the input's header rewritten for the
/// operation, and the output's entropy-coded data, from where that header
/// ends, decodes with the output's tables into the output blocks, the
/// transformed blocks of the input in the order of the output's MCUs.
pub proof fn lemma_transform_reads_back(input: Seq<u8>, operation: u8)
    requires
        transform_of(input, operation) is Ok,
    ensures
        ({
            let h = header_of(input).unwrap().0;
            let start = header_of(input).unwrap().1;
            let model = index_model(input, start, index_walk(h, input, start).unwrap());
            let out = transform_of(input, operation).unwrap();
            let blocks = output_blocks(h, input, model, operation);
            let h2 = header_of(out).unwrap().0;
            let start2 = header_of(out).unwrap().1;
            &&& header_of(out) is Ok
            &&& h2 == header_out(h, crate::transform::geometry_of(operation).0)
            &&& decode_list(
                h2.tables[0],
                h2.tables[1],
                list_components(blocks),
                bytes_to_bits(entropy_bytes(out, start2)),
                entropy_end(out, start2),
                Seq::new(h.frame.components.len(), |i: int| 0),
            ) matches Ok((decoded, _, _)) && decoded == list_blocks(blocks)
        }),
{
    let (h, start) = header_of(input).unwrap();
    let model = index_model(input, start, index_walk(h, input, start).unwrap());
    lemma_output_reads_back(input, model, operation);
}

/// The inverse law for `transform`: transforming the output of an
/// operation by the inverse operation (a quarter turn by the opposite
/// quarter turn, any other operation by itself) gives, byte for byte,
/// what the identity gives for the input; so a half turn twice does too.
/// The output must be short enough that a reader position fits a saved
/// state (below 2^52 bytes).
pub proof fn lemma_inverse_restores_output(input: Seq<u8>, operation: u8)
    requires
        transform_of(input, operation) is Ok,
        transform_of(input, operation).unwrap().len() <= u64::MAX >> 12u64,
    ensures
        transform_of(transform_of(input, operation).unwrap(), crate::transform::inverse_index(operation))
            == transform_of(input, 0),
{
    let (h, start) = header_of(input).unwrap();
    let model = index_model(input, start, index_walk(h, input, start).unwrap());
    let out = transform_of(input, operation).unwrap();
    let inv = crate::transform::inverse_index(operation);
    let swap = crate::transform::geometry_of(operation).0;
    lemma_header_of_wf(input);
    lemma_output_inverse(input, model, operation);
    let (h1, start1) = header_of(out).unwrap();
    assert(h1 == header_out(h, swap));
    lemma_output_tables_known(h, swap, h1.scan.components.len() as int);
    assert(layout_check(h1) == Ok::<(), JpegError>(()));
    assert(on_mcu_boundaries(h1));
    assert(inv < 8);
}

} // verus!
