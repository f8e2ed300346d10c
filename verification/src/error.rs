//! Why a JPEG cannot be read or transformed.
use vstd::prelude::*;

verus! {

/// Every way in which reading, checking or rewriting a JPEG can fail.
#[derive(Debug, Clone, Copy, PartialEq, Eq, Structural)]
pub enum JpegError {
    /// The operation index is not one of 0 through 7.
    InvalidOperation,
    /// The input ended where more bytes were needed.
    UnexpectedEof,
    /// A Huffman table lists a different number of symbols than its counts add up to.
    HuffmanCountMismatch,
    /// A Huffman table has more codes of some length than the length allows.
    OversubscribedHuffmanTable,
    /// No code of the Huffman table matches the next sixteen bits.
    InvalidHuffmanCode,
    /// The Huffman table has no code for this symbol.
    NoHuffmanCode(u8),
    /// A marker other than a stuffed zero appears inside entropy-coded data.
    MarkerInEntropyData(u8),
    /// The entropy-coded data is not followed by a marker.
    ScanNotFollowedByMarker,
    /// The entropy-coded data is followed by this marker instead of EOI.
    ExpectedEoiAfterScan(u8),
    /// A file position does not fit the saved reader state.
    PositionTooLarge,
    /// The input does not start with the SOI marker.
    NotJpeg,
    /// The EOI marker came before the scan.
    EndedBeforeScan,
    /// A marker without a segment appears among the header segments.
    UnexpectedStandaloneMarker(u8),
    /// A segment length smaller than the two length bytes.
    InvalidSegmentLength,
    /// A DRI segment whose length is not two bytes.
    InvalidRestartInterval,
    /// A frame marker other than SOF0: only baseline sequential JPEG is supported.
    UnsupportedProcess,
    /// The image uses restart markers.
    RestartMarkersUnsupported,
    /// No SOF0 frame segment came before the scan.
    MissingFrame,
    /// No Huffman table of this class and id was defined.
    MissingHuffmanTable(u8, u8),
    /// The scan does not interleave all components of the frame.
    NotInterleaved,
    /// The frame does not have 8-bit samples.
    NotEightBitFrame,
    /// The frame's component list does not match its length.
    InvalidFrameComponents,
    /// A component has a sampling factor of zero.
    ZeroSamplingFactor,
    /// The frame has no components.
    FrameWithoutComponents,
    /// The SOS segment is empty.
    EmptyScanHeader,
    /// The SOS component list does not match its length.
    InvalidScanComponents,
    /// The scan is not a baseline sequential scan.
    NotBaselineScan,
    /// The scan refers to a component that the frame does not have.
    UnknownScanComponent,
    /// A DHT segment ends inside a table's counts.
    TruncatedHuffmanTable,
    /// A DHT segment ends inside a table's symbols.
    TruncatedHuffmanSymbols,
    /// A Huffman table class above 1 or id above 3.
    InvalidHuffmanSelector,
    /// A DC magnitude category above 11.
    InvalidDcMagnitude,
    /// A DC coefficient outside the `i16` range.
    DcOutOfRange,
    /// A zero-size AC symbol other than end-of-block or a run of sixteen zeros.
    InvalidZeroRun,
    /// A run of sixteen zeros goes past the end of the block.
    ZeroRunExceedsBlock,
    /// An AC coefficient past the end of the block, or of a magnitude above 10.
    InvalidAcCoefficient,
    /// The image dimensions are not whole MCUs.
    NotOnMcuBoundaries,
    /// A transformed DC difference needs a magnitude category above 11.
    DcDifferenceTooLarge,
    /// A transformed AC coefficient needs a magnitude category above 10.
    AcCoefficientTooLarge,
    /// A SOF0 segment shorter than six bytes.
    TruncatedFrame,
    /// A DQT table with a precision other than 8 or 16 bits.
    InvalidQuantizationPrecision,
    /// A DQT segment ends inside a table.
    TruncatedQuantizationTable,
    /// A segment that does not fit the 16-bit segment length.
    SegmentTooLarge,
}

} // verus!
