//! The coding of one 8x8 block in a baseline scan: the zig-zag order of
//! coefficients, magnitude categories, and the run-length grammar of the
//! DC difference and AC coefficients.
use vstd::prelude::*;
use crate::bits::bits_number;
use crate::entropy::{huffman_decode, symbol_code, table_valid, HuffmanDecoded, TableDef};
use crate::error::JpegError;
use vstd::arithmetic::power2::pow2;

verus! {

/// The row-major index of the coefficient at position `i` of the zig-zag
/// order in which JPEG stores a block.
pub open spec fn zigzag_at(i: int) -> int {
    if i == 0 {
        0
    } else if i == 1 {
        1
    } else if i == 2 {
        8
    } else if i == 3 {
        16
    } else if i == 4 {
        9
    } else if i == 5 {
        2
    } else if i == 6 {
        3
    } else if i == 7 {
        10
    } else if i == 8 {
        17
    } else if i == 9 {
        24
    } else if i == 10 {
        32
    } else if i == 11 {
        25
    } else if i == 12 {
        18
    } else if i == 13 {
        11
    } else if i == 14 {
        4
    } else if i == 15 {
        5
    } else if i == 16 {
        12
    } else if i == 17 {
        19
    } else if i == 18 {
        26
    } else if i == 19 {
        33
    } else if i == 20 {
        40
    } else if i == 21 {
        48
    } else if i == 22 {
        41
    } else if i == 23 {
        34
    } else if i == 24 {
        27
    } else if i == 25 {
        20
    } else if i == 26 {
        13
    } else if i == 27 {
        6
    } else if i == 28 {
        7
    } else if i == 29 {
        14
    } else if i == 30 {
        21
    } else if i == 31 {
        28
    } else if i == 32 {
        35
    } else if i == 33 {
        42
    } else if i == 34 {
        49
    } else if i == 35 {
        56
    } else if i == 36 {
        57
    } else if i == 37 {
        50
    } else if i == 38 {
        43
    } else if i == 39 {
        36
    } else if i == 40 {
        29
    } else if i == 41 {
        22
    } else if i == 42 {
        15
    } else if i == 43 {
        23
    } else if i == 44 {
        30
    } else if i == 45 {
        37
    } else if i == 46 {
        44
    } else if i == 47 {
        51
    } else if i == 48 {
        58
    } else if i == 49 {
        59
    } else if i == 50 {
        52
    } else if i == 51 {
        45
    } else if i == 52 {
        38
    } else if i == 53 {
        31
    } else if i == 54 {
        39
    } else if i == 55 {
        46
    } else if i == 56 {
        53
    } else if i == 57 {
        60
    } else if i == 58 {
        61
    } else if i == 59 {
        54
    } else if i == 60 {
        47
    } else if i == 61 {
        55
    } else if i == 62 {
        62
    } else {
        63
    }
}

/// The position in the zig-zag order of the coefficient at row-major index `n`.
pub open spec fn zigzag_position(n: int) -> int {
    if n == 0 {
        0
    } else if n == 1 {
        1
    } else if n == 2 {
        5
    } else if n == 3 {
        6
    } else if n == 4 {
        14
    } else if n == 5 {
        15
    } else if n == 6 {
        27
    } else if n == 7 {
        28
    } else if n == 8 {
        2
    } else if n == 9 {
        4
    } else if n == 10 {
        7
    } else if n == 11 {
        13
    } else if n == 12 {
        16
    } else if n == 13 {
        26
    } else if n == 14 {
        29
    } else if n == 15 {
        42
    } else if n == 16 {
        3
    } else if n == 17 {
        8
    } else if n == 18 {
        12
    } else if n == 19 {
        17
    } else if n == 20 {
        25
    } else if n == 21 {
        30
    } else if n == 22 {
        41
    } else if n == 23 {
        43
    } else if n == 24 {
        9
    } else if n == 25 {
        11
    } else if n == 26 {
        18
    } else if n == 27 {
        24
    } else if n == 28 {
        31
    } else if n == 29 {
        40
    } else if n == 30 {
        44
    } else if n == 31 {
        53
    } else if n == 32 {
        10
    } else if n == 33 {
        19
    } else if n == 34 {
        23
    } else if n == 35 {
        32
    } else if n == 36 {
        39
    } else if n == 37 {
        45
    } else if n == 38 {
        52
    } else if n == 39 {
        54
    } else if n == 40 {
        20
    } else if n == 41 {
        22
    } else if n == 42 {
        33
    } else if n == 43 {
        38
    } else if n == 44 {
        46
    } else if n == 45 {
        51
    } else if n == 46 {
        55
    } else if n == 47 {
        60
    } else if n == 48 {
        21
    } else if n == 49 {
        34
    } else if n == 50 {
        37
    } else if n == 51 {
        47
    } else if n == 52 {
        50
    } else if n == 53 {
        56
    } else if n == 54 {
        59
    } else if n == 55 {
        61
    } else if n == 56 {
        35
    } else if n == 57 {
        36
    } else if n == 58 {
        48
    } else if n == 59 {
        49
    } else if n == 60 {
        57
    } else if n == 61 {
        58
    } else if n == 62 {
        62
    } else {
        63
    }
}

/// The zig-zag order is a permutation of the 64 coefficient indices.
pub proof fn lemma_zigzag_permutation()
    ensures
        forall|i: int| 0 <= i < 64 ==> 0 <= #[trigger] zigzag_at(i) < 64 && zigzag_position(zigzag_at(i)) == i,
        forall|n: int| 0 <= n < 64 ==> 0 <= #[trigger] zigzag_position(n) < 64 && zigzag_at(zigzag_position(n)) == n,
{
}

/// The row-major index of the coefficient at position `index` of the
/// zig-zag order.
pub fn zigzag(index: usize) -> (r: usize)
    requires
        index < 64,
    ensures
        r as int == zigzag_at(index as int),
        r < 64,
{
    match index {
        0 => 0,
        1 => 1,
        2 => 8,
        3 => 16,
        4 => 9,
        5 => 2,
        6 => 3,
        7 => 10,
        8 => 17,
        9 => 24,
        10 => 32,
        11 => 25,
        12 => 18,
        13 => 11,
        14 => 4,
        15 => 5,
        16 => 12,
        17 => 19,
        18 => 26,
        19 => 33,
        20 => 40,
        21 => 48,
        22 => 41,
        23 => 34,
        24 => 27,
        25 => 20,
        26 => 13,
        27 => 6,
        28 => 7,
        29 => 14,
        30 => 21,
        31 => 28,
        32 => 35,
        33 => 42,
        34 => 49,
        35 => 56,
        36 => 57,
        37 => 50,
        38 => 43,
        39 => 36,
        40 => 29,
        41 => 22,
        42 => 15,
        43 => 23,
        44 => 30,
        45 => 37,
        46 => 44,
        47 => 51,
        48 => 58,
        49 => 59,
        50 => 52,
        51 => 45,
        52 => 38,
        53 => 31,
        54 => 39,
        55 => 46,
        56 => 53,
        57 => 60,
        58 => 61,
        59 => 54,
        60 => 47,
        61 => 55,
        62 => 62,
        _ => 63,
    }
}

/// The number of bits of `n`: the magnitude category of a coefficient of
/// absolute value `n`.
pub open spec fn bit_length(n: nat) -> nat
    decreases n,
{
    if n == 0 {
        0
    } else {
        1 + bit_length(n / 2)
    }
}

/// The absolute value.
pub open spec fn abs(v: int) -> nat {
    if v < 0 {
        (-v) as nat
    } else {
        v as nat
    }
}

/// The magnitude category of a coefficient.
pub open spec fn magnitude_category(v: int) -> nat {
    bit_length(abs(v))
}

/// The value of the `size` bits that follow a magnitude category: a
/// leading zero bit marks a negative value.
pub open spec fn extend(value: int, size: nat) -> int {
    if size == 0 {
        0
    } else if value < pow2((size - 1) as nat) {
        value + 1 - pow2(size)
    } else {
        value
    }
}

/// The number whose `size` low bits follow the category of `v`: `v`
/// itself, or for a negative `v` its ones' complement within `size` bits.
pub open spec fn magnitude_value(v: int, size: nat) -> int {
    if v < 0 {
        v + pow2(size) - 1
    } else {
        v
    }
}

/// The bits that follow the magnitude category of `v`.
pub open spec fn magnitude_bits(v: int, size: nat) -> Seq<bool> {
    crate::bits::bits_of(magnitude_value(v, size) as u32, size)
}

/// The bits of the Huffman code of `symbol`, or the error that the table
/// has none.
pub open spec fn code_bits(table: TableDef, symbol: u8) -> Result<Seq<bool>, JpegError> {
    match symbol_code(table.counts, table.symbols, symbol) {
        Some((code, length)) => Ok(crate::bits::bits_of(code as u32, length as nat)),
        None => Err(JpegError::NoHuffmanCode(symbol)),
    }
}

/// `count` codes of `symbol`, one after the other.
pub open spec fn repeated_code(table: TableDef, symbol: u8, count: nat) -> Result<Seq<bool>, JpegError>
    decreases count,
{
    if count == 0 {
        Ok(seq![])
    } else {
        match repeated_code(table, symbol, (count - 1) as nat) {
            Ok(bits) => match code_bits(table, symbol) {
                Ok(code) => Ok(bits + code),
                Err(e) => Err(e),
            },
            Err(e) => Err(e),
        }
    }
}

/// The bits of the AC coefficients of `block` from zig-zag position `k`
/// on, after a run of `run` zero coefficients: a zero extends the run; a
/// nonzero coefficient is written after one sixteen-zero code (0xf0) per
/// whole sixteen zeros of the run, as the code of `(run << 4) | category`
/// and the magnitude bits; zeros up to the end are closed by end-of-block
/// (0x00).
pub open spec fn ac_bits(table: TableDef, block: Seq<i16>, k: int, run: nat) -> Result<Seq<bool>, JpegError>
    decreases 64 - k,
{
    if k >= 64 {
        if run != 0 {
            code_bits(table, 0x00)
        } else {
            Ok(seq![])
        }
    } else {
        let c = block[zigzag_at(k)] as int;
        if c == 0 {
            ac_bits(table, block, k + 1, run + 1)
        } else {
            match repeated_code(table, 0xf0, run / 16) {
                Err(e) => Err(e),
                Ok(zeros) => {
                    let size = magnitude_category(c);
                    if size > 10 {
                        Err(JpegError::AcCoefficientTooLarge)
                    } else {
                        match code_bits(table, (((run % 16) * 16) + size) as u8) {
                            Err(e) => Err(e),
                            Ok(code) => match ac_bits(table, block, k + 1, 0) {
                                Err(e) => Err(e),
                                Ok(rest) => Ok(zeros + code + magnitude_bits(c, size) + rest),
                            },
                        }
                    }
                },
            }
        }
    }
}

/// The bits of a block: the DC difference from `predictor` as its category's
/// code and magnitude bits, then the AC coefficients.
pub open spec fn block_bits(dc: TableDef, ac: TableDef, block: Seq<i16>, predictor: int) -> Result<Seq<bool>, JpegError> {
    let difference = block[0] as int - predictor;
    let size = magnitude_category(difference);
    if size > 11 {
        Err(JpegError::DcDifferenceTooLarge)
    } else {
        match code_bits(dc, size as u8) {
            Err(e) => Err(e),
            Ok(code) => match ac_bits(ac, block, 1, 0) {
                Err(e) => Err(e),
                Ok(rest) => Ok(code + magnitude_bits(difference, size) + rest),
            },
        }
    }
}

/// Decodes AC coefficients into `block` from zig-zag position `index` on,
/// from the bits after the first `used` of `bits`: returns the block and
/// the number of bits used, or why the bits are refused; `end` is the error
/// when the bits run out.
pub open spec fn decode_ac(
    ac: TableDef,
    bits: Seq<bool>,
    end: JpegError,
    index: int,
    used: int,
    block: Seq<i16>,
) -> Result<(Seq<i16>, int), JpegError>
    decreases 64 - index,
{
    if index >= 64 {
        Ok((block, used))
    } else {
        match huffman_decode(ac.counts, ac.symbols, bits.skip(used)) {
            HuffmanDecoded::NoCode => Err(JpegError::InvalidHuffmanCode),
            HuffmanDecoded::Exhausted => Err(end),
            HuffmanDecoded::Symbol(symbol, n) => {
                let run = (symbol >> 4u8) as int;
                let size = (symbol & 0x0fu8) as nat;
                if size == 0 {
                    if run == 0 {
                        Ok((block, used + n))
                    } else if run != 15 {
                        Err(JpegError::InvalidZeroRun)
                    } else if index + 16 > 64 {
                        Err(JpegError::ZeroRunExceedsBlock)
                    } else {
                        decode_ac(ac, bits, end, index + 16, used + n, block)
                    }
                } else {
                    let z = index + run;
                    if z >= 64 || size > 10 {
                        Err(JpegError::InvalidAcCoefficient)
                    } else if bits.len() < used + n + size {
                        Err(end)
                    } else {
                        let value = extend(bits_number(bits.subrange(used + n, used + n + size)) as int, size);
                        decode_ac(ac, bits, end, z + 1, used + n + size, block.update(zigzag_at(z), value as i16))
                    }
                }
            },
        }
    }
}

/// A block of 64 zero coefficients.
pub open spec fn zero_block() -> Seq<i16> {
    Seq::new(64, |i: int| 0i16)
}

/// Decodes one block from `bits` with DC predictor `predictor`: returns the
/// block in row-major order, the number of bits used and the new predictor.
pub open spec fn decode_block_bits(
    dc: TableDef,
    ac: TableDef,
    bits: Seq<bool>,
    end: JpegError,
    predictor: int,
) -> Result<(Seq<i16>, int, int), JpegError> {
    match huffman_decode(dc.counts, dc.symbols, bits) {
        HuffmanDecoded::NoCode => Err(JpegError::InvalidHuffmanCode),
        HuffmanDecoded::Exhausted => Err(end),
        HuffmanDecoded::Symbol(size, n) => {
            if size > 11 {
                Err(JpegError::InvalidDcMagnitude)
            } else if bits.len() < n + size {
                Err(end)
            } else {
                let dc_value = predictor + extend(bits_number(bits.subrange(n as int, n + size)) as int, size as nat);
                if dc_value < i16::MIN || dc_value > i16::MAX {
                    Err(JpegError::DcOutOfRange)
                } else {
                    match decode_ac(ac, bits, end, 1, n + size, zero_block().update(0, dc_value as i16)) {
                        Ok((block, used)) => Ok((block, used, dc_value)),
                        Err(e) => Err(e),
                    }
                }
            }
        },
    }
}

/// A received magnitude lies strictly between `-2^size` and `2^size`.
pub proof fn lemma_extend_bound(value: int, size: nat)
    requires
        0 <= value < pow2(size),
    ensures
        -pow2(size) < extend(value, size) < pow2(size),
{
    vstd::arithmetic::power2::lemma_pow2_pos(size);
    if size > 0 {
        vstd::arithmetic::power2::lemma_pow2_pos((size - 1) as nat);
    }
}

/// No AC coefficient is `i16::MIN`: a decoded AC coefficient has at most
/// ten magnitude bits.
pub open spec fn ac_fits(block: Seq<i16>) -> bool {
    forall|i: int| 1 <= i < 64 ==> #[trigger] block[i] != i16::MIN
}

/// Decoding AC coefficients uses no more bits than there are, keeps the
/// block's length, and gives AC coefficients of at most ten bits.
pub proof fn lemma_decode_ac_used(
    ac: TableDef,
    bits: Seq<bool>,
    end: JpegError,
    index: int,
    used: int,
    block: Seq<i16>,
)
    requires
        0 <= used <= bits.len(),
        block.len() == 64,
        index >= 1,
        ac_fits(block),
    ensures
        decode_ac(ac, bits, end, index, used, block) matches Ok((b, u)) ==> used <= u <= bits.len() && b.len()
            == 64 && ac_fits(b),
    decreases 64 - index,
{
    lemma_zigzag_permutation();
    if index < 64 {
        crate::entropy::lemma_decode_length(ac.counts, ac.symbols, bits.skip(used), 0);
        match huffman_decode(ac.counts, ac.symbols, bits.skip(used)) {
            HuffmanDecoded::Symbol(symbol, n) => {
                let run = (symbol >> 4u8) as int;
                let size = (symbol & 0x0fu8) as nat;
                if size == 0 {
                    if run == 15 && index + 16 <= 64 {
                        lemma_decode_ac_used(ac, bits, end, index + 16, used + n, block);
                    }
                } else {
                    let z = index + run;
                    if z < 64 && size <= 10 && bits.len() >= used + n + size {
                        let raw = bits.subrange(used + n, used + n + size);
                        let value = extend(bits_number(raw) as int, size);
                        crate::bits::lemma_bits_number_below(raw);
                        lemma_extend_bound(bits_number(raw) as int, size);
                        vstd::arithmetic::power2::lemma2_to64();
                        crate::entropy::lemma_pow2_mono(size as int, 10);
                        assert(zigzag_position(zigzag_at(z)) == z);
                        assert(zigzag_at(z) != 0);
                        let next = block.update(zigzag_at(z), value as i16);
                        assert forall|i: int| 1 <= i < 64 implies #[trigger] next[i] != i16::MIN by {
                            if i != zigzag_at(z) {
                                assert(next[i] == block[i]);
                            }
                        }
                        lemma_decode_ac_used(
                            ac,
                            bits,
                            end,
                            z + 1,
                            used + n + size,
                            block.update(zigzag_at(z), value as i16),
                        );
                    }
                }
            },
            _ => {},
        }
    }
}

/// A decoded block has 64 coefficients, uses no more bits than there are,
/// and leaves a 16-bit DC predictor.
pub proof fn lemma_decode_block_used(dc: TableDef, ac: TableDef, bits: Seq<bool>, end: JpegError, predictor: int)
    ensures
        decode_block_bits(dc, ac, bits, end, predictor) matches Ok((b, u, p)) ==> 0 <= u <= bits.len() && b.len()
            == 64 && i16::MIN <= p <= i16::MAX && ac_fits(b),
{
    crate::entropy::lemma_decode_length(dc.counts, dc.symbols, bits, 0);
    match huffman_decode(dc.counts, dc.symbols, bits) {
        HuffmanDecoded::Symbol(size, n) => {
            if size <= 11 && bits.len() >= n + size {
                let dc_value = predictor + extend(bits_number(bits.subrange(n as int, n + size)) as int, size as nat);
                let first = zero_block().update(0, dc_value as i16);
                assert forall|i: int| 1 <= i < 64 implies #[trigger] first[i] != i16::MIN by {
                    assert(first[i] == 0i16);
                }
                lemma_decode_ac_used(ac, bits, end, 1, n + size, first);
            }
        },
        _ => {},
    }
}

/// A number is below `2^k` exactly when it has at most `k` bits.
pub proof fn lemma_bit_length(n: nat, k: nat)
    ensures
        (n < pow2(k)) == (bit_length(n) <= k),
    decreases n,
{
    vstd::arithmetic::power2::lemma_pow2_pos(k);
    if n > 0 {
        if k > 0 {
            vstd::arithmetic::power2::lemma_pow2_unfold(k);
            lemma_bit_length(n / 2, (k - 1) as nat);
        } else {
            assert(pow2(0) == 1) by {
                vstd::arithmetic::power2::lemma2_to64();
            }
        }
    }
}

/// A number below `2^n`, written in `n` bits, reads back as itself.
pub proof fn lemma_value_bits(v: int, n: nat)
    requires
        0 <= v < pow2(n),
        n <= 16,
    ensures
        bits_number(crate::bits::bits_of(v as u32, n)) == v,
{
    vstd::arithmetic::power2::lemma2_to64();
    crate::entropy::lemma_pow2_mono(n as int, 16);
    let x = v as u32;
    vstd::bits::lemma_u32_shr_is_div(x, n as u32);
    vstd::arithmetic::power2::lemma_pow2_pos(n);
    assert(x as nat / pow2(n) == 0) by (nonlinear_arith)
        requires 0 <= x < pow2(n);
    crate::bits::lemma_number_of_bits(x, n, n);
    assert(crate::bits::bits_of(x, n).take(n as int) =~= crate::bits::bits_of(x, n));
    assert(x >> 0u32 == x) by (bit_vector);
}

/// The magnitude law: the bits that follow a value's category read back,
/// extended, as the value.
pub proof fn lemma_magnitude_round_trip(v: int)
    requires
        magnitude_category(v) <= 16,
    ensures
        0 <= magnitude_value(v, magnitude_category(v)) < pow2(magnitude_category(v)),
        extend(bits_number(magnitude_bits(v, magnitude_category(v))) as int, magnitude_category(v)) == v,
{
    let s = magnitude_category(v);
    let a = abs(v);
    lemma_bit_length(a, s);
    vstd::arithmetic::power2::lemma_pow2_pos(s);
    if s > 0 {
        lemma_bit_length(a, (s - 1) as nat);
        vstd::arithmetic::power2::lemma_pow2_unfold(s);
        vstd::arithmetic::power2::lemma_pow2_pos((s - 1) as nat);
    } else {
        vstd::arithmetic::power2::lemma2_to64();
    }
    lemma_value_bits(magnitude_value(v, s), s);
}

/// Repeated codes can be split off at the front as well.
proof fn lemma_repeated_code_front(table: TableDef, symbol: u8, count: nat)
    requires
        count >= 1,
        repeated_code(table, symbol, count) is Ok,
    ensures
        code_bits(table, symbol) is Ok,
        repeated_code(table, symbol, (count - 1) as nat) is Ok,
        repeated_code(table, symbol, count).unwrap() == code_bits(table, symbol).unwrap() + repeated_code(
            table,
            symbol,
            (count - 1) as nat,
        ).unwrap(),
    decreases count,
{
    if count == 1 {
        assert(repeated_code(table, symbol, 0) == Ok::<Seq<bool>, JpegError>(seq![]));
        let c = code_bits(table, symbol).unwrap();
        assert(Seq::<bool>::empty() + c =~= c + Seq::<bool>::empty());
    } else {
        lemma_repeated_code_front(table, symbol, (count - 1) as nat);
        let c = code_bits(table, symbol).unwrap();
        let r2 = repeated_code(table, symbol, (count - 2) as nat).unwrap();
        assert(c + r2 + c =~= c + (r2 + c));
    }
}

/// A code at the front of the bits decodes as its symbol.
proof fn lemma_code_decodes(table: TableDef, symbol: u8, bits: Seq<bool>)
    requires
        table_valid(table.counts, table.symbols),
        code_bits(table, symbol) is Ok,
        code_bits(table, symbol).unwrap().is_prefix_of(bits),
    ensures
        huffman_decode(table.counts, table.symbols, bits) == HuffmanDecoded::Symbol(
            symbol,
            code_bits(table, symbol).unwrap().len(),
        ),
{
    let c = code_bits(table, symbol).unwrap();
    let rest = bits.skip(c.len() as int);
    assert(bits =~= c + rest);
    crate::entropy::lemma_huffman_round_trip(table.counts, table.symbols, symbol, rest);
}

/// A prefix made of two parts: the first starts the bits, the second
/// follows it.
proof fn lemma_prefix_split(a: Seq<bool>, b: Seq<bool>, bits: Seq<bool>, offset: int)
    requires
        0 <= offset <= bits.len(),
        (a + b).is_prefix_of(bits.skip(offset)),
    ensures
        a.is_prefix_of(bits.skip(offset)),
        b.is_prefix_of(bits.skip(offset + a.len())),
        offset + a.len() <= bits.len(),
{
    let stream = bits.skip(offset);
    assert(stream.subrange(0, (a + b).len() as int) =~= a + b);
    assert(stream.subrange(0, a.len() as int) =~= a);
    assert forall|i: int| 0 <= i < b.len() implies #[trigger] bits.skip(offset + a.len())[i] == b[i] by {
        assert(stream.subrange(0, (a + b).len() as int)[a.len() + i] == (a + b)[a.len() + i]);
    }
    assert(bits.skip(offset + a.len()).subrange(0, b.len() as int) =~= b);
}

/// A prefix of the bits after `offset` is the subrange there.
proof fn lemma_prefix_subrange(a: Seq<bool>, bits: Seq<bool>, offset: int)
    requires
        0 <= offset <= bits.len(),
        a.is_prefix_of(bits.skip(offset)),
    ensures
        offset + a.len() <= bits.len(),
        bits.subrange(offset, offset + a.len()) == a,
{
    assert forall|i: int| 0 <= i < a.len() implies #[trigger] bits.subrange(offset, offset + a.len())[i] == a[i] by {
        assert(bits.skip(offset).subrange(0, a.len() as int)[i] == a[i]);
    }
    assert(bits.subrange(offset, offset + a.len()) =~= a);
}

/// Decoding one sixteen-zero code advances sixteen positions.
proof fn lemma_zero_run_step(
    ac: TableDef,
    bits: Seq<bool>,
    end: JpegError,
    index: int,
    offset: int,
    partial: Seq<i16>,
)
    requires
        table_valid(ac.counts, ac.symbols),
        code_bits(ac, 0xf0) is Ok,
        0 <= offset <= bits.len(),
        code_bits(ac, 0xf0).unwrap().is_prefix_of(bits.skip(offset)),
        index + 16 <= 64,
    ensures
        decode_ac(ac, bits, end, index, offset, partial) == decode_ac(
            ac,
            bits,
            end,
            index + 16,
            offset + code_bits(ac, 0xf0).unwrap().len(),
            partial,
        ),
{
    lemma_code_decodes(ac, 0xf0, bits.skip(offset));
    assert((0xf0u8 >> 4u8) == 15 && (0xf0u8 & 0x0fu8) == 0) by (bit_vector);
}

/// Decoding sixteen-zero codes advances sixteen positions each.
proof fn lemma_zero_runs(
    ac: TableDef,
    bits: Seq<bool>,
    end: JpegError,
    index: int,
    offset: int,
    partial: Seq<i16>,
    count: nat,
)
    requires
        table_valid(ac.counts, ac.symbols),
        repeated_code(ac, 0xf0, count) is Ok,
        0 <= offset <= bits.len(),
        repeated_code(ac, 0xf0, count).unwrap().is_prefix_of(bits.skip(offset)),
        index + 16 * count <= 64,
    ensures
        decode_ac(ac, bits, end, index, offset, partial) == decode_ac(
            ac,
            bits,
            end,
            index + 16 * count,
            offset + repeated_code(ac, 0xf0, count).unwrap().len(),
            partial,
        ),
    decreases count,
{
    if count > 0 {
        lemma_repeated_code_front(ac, 0xf0, count);
        let c = code_bits(ac, 0xf0).unwrap();
        let z2 = repeated_code(ac, 0xf0, (count - 1) as nat).unwrap();
        lemma_prefix_split(c, z2, bits, offset);
        lemma_zero_run_step(ac, bits, end, index, offset, partial);
        lemma_zero_runs(ac, bits, end, index + 16, offset + c.len(), partial, (count - 1) as nat);
    } else {
        assert(repeated_code(ac, 0xf0, 0) == Ok::<Seq<bool>, JpegError>(seq![]));
    }
}

/// The AC law: from zig-zag position `k`, after a run of `run` zeros, the
/// bits that the encoder writes decode, from the position where the run
/// began, into the rest of the block.
proof fn lemma_ac_round_trip(
    ac: TableDef,
    block: Seq<i16>,
    k: int,
    run: int,
    bits: Seq<bool>,
    offset: int,
    partial: Seq<i16>,
    end: JpegError,
)
    requires
        table_valid(ac.counts, ac.symbols),
        block.len() == 64,
        partial.len() == 64,
        1 <= k <= 64,
        0 <= run < k,
        forall|j: int| 1 <= j < k - run ==> #[trigger] partial[zigzag_at(j)] == block[zigzag_at(j)],
        forall|j: int| k - run <= j < 64 ==> #[trigger] partial[zigzag_at(j)] == 0,
        forall|j: int| k - run <= j < k ==> #[trigger] block[zigzag_at(j)] == 0,
        partial[0] == block[0],
        ac_bits(ac, block, k, run as nat) is Ok,
        0 <= offset <= bits.len(),
        ac_bits(ac, block, k, run as nat).unwrap().is_prefix_of(bits.skip(offset)),
    ensures
        decode_ac(ac, bits, end, k - run, offset, partial) == Ok::<(Seq<i16>, int), JpegError>(
            (block, offset + ac_bits(ac, block, k, run as nat).unwrap().len()),
        ),
    decreases 64 - k,
{
    lemma_zigzag_permutation();
    let tail = ac_bits(ac, block, k, run as nat).unwrap();
    if k >= 64 {
        assert(partial =~= block) by {
            assert forall|p: int| 0 <= p < 64 implies partial[p] == block[p] by {
                if p != 0 {
                    let j = zigzag_position(p);
                    assert(zigzag_at(j) == p);
                }
            }
        }
        if run != 0 {
            lemma_code_decodes(ac, 0x00, bits.skip(offset));
            assert((0x00u8 >> 4u8) == 0 && (0x00u8 & 0x0fu8) == 0) by (bit_vector);
        }
    } else {
        let c = block[zigzag_at(k)] as int;
        if c == 0 {
            lemma_ac_round_trip(ac, block, k + 1, run + 1, bits, offset, partial, end);
        } else {
            let m = (run / 16) as nat;
            let zeros = repeated_code(ac, 0xf0, m).unwrap();
            let size = magnitude_category(c);
            let symbol = (((run % 16) * 16) + size) as u8;
            let code = code_bits(ac, symbol).unwrap();
            let magnitude = magnitude_bits(c, size);
            let rest = ac_bits(ac, block, k + 1, 0).unwrap();
            assert(tail == zeros + code + magnitude + rest);
            lemma_prefix_split(zeros + code + magnitude, rest, bits, offset);
            let used = offset + (zeros + code + magnitude).len();
            let next = partial.update(zigzag_at(k), c as i16);
            lemma_ac_nonzero_step(ac, block, k, run, bits, offset, partial, end);
            assert forall|j: int| 1 <= j < k + 1 implies #[trigger] next[zigzag_at(j)] == block[zigzag_at(j)] by {
                if j != k {
                    assert(zigzag_position(zigzag_at(j)) == j);
                }
            }
            assert forall|j: int| k + 1 <= j < 64 implies #[trigger] next[zigzag_at(j)] == 0 by {
                assert(zigzag_position(zigzag_at(j)) == j);
            }
            assert(next[0] == block[0]) by {
                assert(zigzag_position(zigzag_at(k)) == k);
            }
            lemma_ac_round_trip(ac, block, k + 1, 0, bits, used, next, end);
            assert(used + rest.len() == offset + tail.len());
        }
    }
}

/// Decoding the codes and magnitude bits of a nonzero coefficient, after
/// the run of zeros before it, places the coefficient.
proof fn lemma_ac_nonzero_step(
    ac: TableDef,
    block: Seq<i16>,
    k: int,
    run: int,
    bits: Seq<bool>,
    offset: int,
    partial: Seq<i16>,
    end: JpegError,
)
    requires
        table_valid(ac.counts, ac.symbols),
        block.len() == 64,
        1 <= k < 64,
        0 <= run < k,
        block[zigzag_at(k)] != 0,
        ac_bits(ac, block, k, run as nat) is Ok,
        0 <= offset <= bits.len(),
        ac_bits(ac, block, k, run as nat).unwrap().is_prefix_of(bits.skip(offset)),
    ensures
        ({
            let c = block[zigzag_at(k)] as int;
            let size = magnitude_category(c);
            let zeros = repeated_code(ac, 0xf0, (run / 16) as nat).unwrap();
            let code = code_bits(ac, (((run % 16) * 16) + size) as u8).unwrap();
            let used = offset + (zeros + code + magnitude_bits(c, size)).len();
            decode_ac(ac, bits, end, k - run, offset, partial) == decode_ac(
                ac,
                bits,
                end,
                k + 1,
                used,
                partial.update(zigzag_at(k), c as i16),
            )
        }),
{
    lemma_zigzag_permutation();
    let c = block[zigzag_at(k)] as int;
    let m = (run / 16) as nat;
    let zeros = repeated_code(ac, 0xf0, m).unwrap();
    let size = magnitude_category(c);
    let symbol = (((run % 16) * 16) + size) as u8;
    let code = code_bits(ac, symbol).unwrap();
    let magnitude = magnitude_bits(c, size);
    let rest = ac_bits(ac, block, k + 1, 0).unwrap();
    let tail = ac_bits(ac, block, k, run as nat).unwrap();
    assert(tail == zeros + code + magnitude + rest);
    lemma_prefix_split(zeros + code + magnitude, rest, bits, offset);
    lemma_prefix_split(zeros + code, magnitude, bits, offset);
    lemma_prefix_split(zeros, code, bits, offset);
    lemma_zero_runs(ac, bits, end, k - run, offset, partial, m);
    let zl = zeros.len() as int;
    let at = offset + zl;
    lemma_code_decodes(ac, symbol, bits.skip(at));
    let r = (run % 16) as u8;
    let sz = size as u8;
    assert(size <= 10);
    assert(((r * 16 + sz) as u8 >> 4u8) == r && ((r * 16 + sz) as u8 & 0x0fu8) == sz) by (bit_vector)
        requires r < 16, sz <= 10;
    let n = code.len() as int;
    lemma_prefix_subrange(magnitude, bits, at + n);
    lemma_bit_length(abs(c), 16);
    vstd::arithmetic::power2::lemma2_to64();
    lemma_magnitude_round_trip(c);
    assert((zeros + code + magnitude).len() == zl + n + size);
}

/// The block law: the bits that encoding a block after DC predictor
/// `predictor` gives decode, whatever follows them, into that block, use
/// exactly those bits, and leave the block's DC as the predictor.
pub proof fn lemma_block_round_trip(
    dc: TableDef,
    ac: TableDef,
    block: Seq<i16>,
    predictor: int,
    rest: Seq<bool>,
    end: JpegError,
)
    requires
        table_valid(dc.counts, dc.symbols),
        table_valid(ac.counts, ac.symbols),
        block.len() == 64,
        block_bits(dc, ac, block, predictor) is Ok,
    ensures
        decode_block_bits(dc, ac, block_bits(dc, ac, block, predictor).unwrap() + rest, end, predictor) == Ok::<
            (Seq<i16>, int, int),
            JpegError,
        >((block, block_bits(dc, ac, block, predictor).unwrap().len() as int, block[0] as int)),
{
    lemma_zigzag_permutation();
    let b = block_bits(dc, ac, block, predictor).unwrap();
    let bits = b + rest;
    let difference = block[0] as int - predictor;
    let size = magnitude_category(difference);
    let code = code_bits(dc, size as u8).unwrap();
    let magnitude = magnitude_bits(difference, size);
    let tail = ac_bits(ac, block, 1, 0).unwrap();
    assert(b == code + magnitude + tail);
    assert(code.is_prefix_of(bits)) by {
        assert(bits.subrange(0, code.len() as int) =~= code);
    }
    lemma_code_decodes(dc, size as u8, bits);
    let n = code.len() as int;
    let sn = size as int;
    assert(bits.subrange(n, n + sn) =~= magnitude);
    vstd::arithmetic::power2::lemma2_to64();
    lemma_magnitude_round_trip(difference);
    let first = zero_block().update(0, block[0]);
    assert(tail.is_prefix_of(bits.skip(n + sn))) by {
        assert(bits.skip(n + sn).subrange(0, tail.len() as int) =~= tail);
    }
    assert forall|j: int| 1 <= j < 64 implies #[trigger] first[zigzag_at(j)] == 0 by {
        assert(zigzag_position(zigzag_at(j)) == j);
    }
    lemma_ac_round_trip(ac, block, 1, 0, bits, n + sn, first, end);
}

/// The magnitude law for reading (T.81 F.2.2.1, EXTEND): `size` bits
/// `r` with a leading one stand for `r` itself; with a leading zero they
/// stand for the negative value of category `size` whose predecessor has
/// `r` as its low `size` bits, so the value lies from `-(2^size - 1)` to
/// `-2^(size - 1)`.
pub proof fn lemma_extend_law(r: int, size: nat)
    requires
        1 <= size,
        0 <= r < pow2(size),
    ensures
        r >= pow2((size - 1) as nat) ==> extend(r, size) == r,
        r < pow2((size - 1) as nat) ==> {
            &&& -(pow2(size) - 1) <= extend(r, size) <= -pow2((size - 1) as nat)
            &&& (extend(r, size) - 1) % (pow2(size) as int) == r
        },
{
    vstd::arithmetic::power2::lemma_pow2_unfold(size);
    vstd::arithmetic::power2::lemma_pow2_pos(size);
    let p = pow2(size) as int;
    if r < pow2((size - 1) as nat) {
        vstd::arithmetic::div_mod::lemma_fundamental_div_mod_converse(r - p, p, -1, r);
    }
}

/// The magnitude law for writing (T.81 F.1.2.1): the bits that follow
/// category `size` are the value itself when it is positive and, when it
/// is negative, the low `size` bits of the value less one (its ones'
/// complement), which start with a zero bit.
pub proof fn lemma_magnitude_law(v: int, size: nat)
    requires
        1 <= size,
        pow2((size - 1) as nat) <= abs(v) < pow2(size),
    ensures
        v > 0 ==> magnitude_value(v, size) == v,
        v < 0 ==> magnitude_value(v, size) == (v - 1) % (pow2(size) as int) && magnitude_value(v, size) < pow2(
            (size - 1) as nat,
        ),
{
    vstd::arithmetic::power2::lemma_pow2_unfold(size);
    vstd::arithmetic::power2::lemma_pow2_pos(size);
    let p = pow2(size) as int;
    if v < 0 {
        vstd::arithmetic::div_mod::lemma_fundamental_div_mod_converse(v - 1, p, -1, v - 1 + p);
    }
}

/// The cell after `(u, v)` in the walk over the anti-diagonals of an
/// 8x8 block (`u` horizontal, `v` vertical): on an even diagonal
/// (`u + v` even) the walk goes up and right, on an odd one down and left,
/// and at the block's edge it moves on to the next diagonal.
pub open spec fn diagonal_step(u: int, v: int) -> (int, int) {
    if (u + v) % 2 == 0 {
        if u == 7 {
            (u, v + 1)
        } else if v == 0 {
            (u + 1, v)
        } else {
            (u + 1, v - 1)
        }
    } else {
        if v == 7 {
            (u + 1, v)
        } else if u == 0 {
            (u, v + 1)
        } else {
            (u - 1, v + 1)
        }
    }
}

/// The zig-zag law (T.81 Figure 5): the order starts at the DC cell and
/// each next position is the next cell of the walk over the
/// anti-diagonals; the order is a permutation of the 64 cells, its
/// inverse being `zigzag_position`.
pub proof fn lemma_zigzag_walk()
    ensures
        zigzag_at(0) == 0,
        forall|i: int|
            0 <= i < 63 ==> (#[trigger] zigzag_at(i + 1) % 8, zigzag_at(i + 1) / 8) == diagonal_step(
                zigzag_at(i) % 8,
                zigzag_at(i) / 8,
            ),
        forall|i: int| 0 <= i < 64 ==> 0 <= #[trigger] zigzag_at(i) < 64 && zigzag_position(zigzag_at(i)) == i,
{
    lemma_zigzag_permutation();
}

} // verus!
