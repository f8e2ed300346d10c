//! Entropy-coded data: reading and writing bits with byte stuffing, and
//! canonical Huffman tables.
use vstd::prelude::*;
use crate::bits::{
    bits_of, bits_number, bytes_to_bits, entropy_bytes, entropy_end, entropy_step, leftover, lemma_bits_of_shift_in,
    lemma_number_of_bits, lemma_pack_append, lemma_pack_push, lemma_stuff_append, lemma_stuff_push, ones,
    pack, stuff, stuffed_byte,
};
use crate::error::JpegError;
use vstd::arithmetic::power2::{lemma2_to64, lemma_pow2_unfold, pow2};
use vstd::bits::{lemma_u32_pow2_no_overflow, lemma_u32_shl_is_mul, lemma_u32_shr_is_div};

verus! {

/// The EOI (end of image) marker.
pub const EOI: u8 = 0xd9;

// ---------------------------------------------------------------------------
// Canonical Huffman codes, as JPEG defines them from the number of codes of
// each length (`counts[l]` codes of `l + 1` bits) and the symbols in code order.

/// How many codes are shorter than `length + 1` bits: the index, among the
/// symbols, of the first symbol with a code of `length + 1` bits.
pub open spec fn codes_before(counts: Seq<u8>, length: int) -> int
    decreases length,
{
    if length <= 0 {
        0
    } else {
        codes_before(counts, length - 1) + counts[length - 1]
    }
}

/// The first code of `length + 1` bits.
pub open spec fn first_code(counts: Seq<u8>, length: int) -> int
    decreases length,
{
    if length <= 0 {
        0
    } else {
        (first_code(counts, length - 1) + counts[length - 1]) * 2
    }
}

/// The codes of every length below `length + 1` fit in their bits.
pub open spec fn codes_fit(counts: Seq<u8>, length: int) -> bool {
    forall|k: int| 0 <= k < length ==> #[trigger] first_code(counts, k) + counts[k] <= pow2((k + 1) as nat)
}

/// Counts and symbols that define a canonical Huffman code.
pub open spec fn table_valid(counts: Seq<u8>, symbols: Seq<u8>) -> bool {
    &&& counts.len() == 16
    &&& codes_before(counts, 16) == symbols.len()
    &&& codes_fit(counts, 16)
}

/// The code length, less one, of the symbol at index `i`, searching the
/// lengths from `length` up.
pub open spec fn level_from(counts: Seq<u8>, i: int, length: int) -> int
    decreases 16 - length,
{
    if length >= 16 {
        16
    } else if i < codes_before(counts, length + 1) {
        length
    } else {
        level_from(counts, i, length + 1)
    }
}

/// The code length, less one, of the symbol at index `i`.
pub open spec fn level_of(counts: Seq<u8>, i: int) -> int {
    level_from(counts, i, 0)
}

/// The code of the symbol at index `i`.
pub open spec fn code_of_index(counts: Seq<u8>, i: int) -> int {
    let l = level_of(counts, i);
    first_code(counts, l) + i - codes_before(counts, l)
}

/// The last index below `n` that holds `symbol`.
pub open spec fn last_index(symbols: Seq<u8>, symbol: u8, n: int) -> Option<int>
    decreases n,
{
    if n <= 0 {
        None
    } else if symbols[n - 1] == symbol {
        Some(n - 1)
    } else {
        last_index(symbols, symbol, n - 1)
    }
}

/// The code and code length that the encoder uses for `symbol`: those of
/// its last occurrence among the symbols, or none.
pub open spec fn symbol_code(counts: Seq<u8>, symbols: Seq<u8>, symbol: u8) -> Option<(int, int)> {
    match last_index(symbols, symbol, symbols.len() as int) {
        Some(i) => Some((code_of_index(counts, i), level_of(counts, i) + 1)),
        None => None,
    }
}

/// The outcome of decoding one Huffman code from a bit sequence.
pub enum HuffmanDecoded {
    /// The symbol, and the length of its code.
    Symbol(u8, nat),
    /// No code of up to sixteen bits matches.
    NoCode,
    /// The bits end before a code matches.
    Exhausted,
}

/// Decodes the code at the start of `bits`, trying the lengths from
/// `length + 1` bits up.
pub open spec fn decode_from(counts: Seq<u8>, symbols: Seq<u8>, bits: Seq<bool>, length: int) -> HuffmanDecoded
    decreases 16 - length,
{
    if length >= 16 {
        HuffmanDecoded::NoCode
    } else if bits.len() <= length {
        HuffmanDecoded::Exhausted
    } else {
        let code = bits_number(bits.take(length + 1)) as int;
        let first = first_code(counts, length);
        if first <= code < first + counts[length] {
            HuffmanDecoded::Symbol(symbols[codes_before(counts, length) + code - first], (length + 1) as nat)
        } else {
            decode_from(counts, symbols, bits, length + 1)
        }
    }
}

/// Decodes the code at the start of `bits`.
pub open spec fn huffman_decode(counts: Seq<u8>, symbols: Seq<u8>, bits: Seq<bool>) -> HuffmanDecoded {
    decode_from(counts, symbols, bits, 0)
}

/// A decoded code is between one and sixteen bits long, and no longer than
/// the bits.
pub proof fn lemma_decode_length(counts: Seq<u8>, symbols: Seq<u8>, bits: Seq<bool>, length: int)
    requires
        0 <= length,
    ensures
        decode_from(counts, symbols, bits, length) matches HuffmanDecoded::Symbol(_, n) ==> length < n
            <= bits.len() && n <= 16,
    decreases 16 - length,
{
    if length < 16 && bits.len() > length {
        lemma_decode_length(counts, symbols, bits, length + 1);
    }
}

pub proof fn lemma_codes_before_monotone(counts: Seq<u8>, a: int, b: int)
    requires
        0 <= a <= b,
    ensures
        codes_before(counts, a) <= codes_before(counts, b),
    decreases b - a,
{
    if a < b {
        lemma_codes_before_monotone(counts, a, b - 1);
    }
}

/// The index of a symbol lies among the symbols of its level.
pub proof fn lemma_level_range(counts: Seq<u8>, i: int, k: int)
    requires
        0 <= k <= 16,
        codes_before(counts, k) <= i < codes_before(counts, 16),
    ensures
        k <= level_from(counts, i, k) < 16,
        codes_before(counts, level_from(counts, i, k)) <= i < codes_before(counts, level_from(counts, i, k) + 1),
    decreases 16 - k,
{
    if k < 16 && i >= codes_before(counts, k + 1) {
        lemma_level_range(counts, i, k + 1);
    }
}

/// The symbols between `codes_before(l)` and `codes_before(l + 1)` have
/// codes of `l + 1` bits.
pub proof fn lemma_level_of(counts: Seq<u8>, i: int, l: int)
    requires
        0 <= l < 16,
        codes_before(counts, l) <= i < codes_before(counts, l + 1),
    ensures
        level_of(counts, i) == l,
{
    lemma_level_from(counts, i, 0, l);
}

proof fn lemma_level_from(counts: Seq<u8>, i: int, k: int, l: int)
    requires
        0 <= k <= l < 16,
        codes_before(counts, l) <= i < codes_before(counts, l + 1),
    ensures
        level_from(counts, i, k) == l,
    decreases l - k,
{
    if k < l {
        lemma_codes_before_monotone(counts, k + 1, l);
        lemma_level_from(counts, i, k + 1, l);
    }
}

/// Codes of `length + 1` bits start below `2^(length + 1)`.
pub proof fn lemma_first_code_bound(counts: Seq<u8>, length: int)
    requires
        0 <= length <= 16,
        codes_fit(counts, length),
    ensures
        0 <= first_code(counts, length) <= pow2((length + 1) as nat),
{
    lemma_first_code_nonnegative(counts, length);
    if length > 0 {
        assert(first_code(counts, length - 1) + counts[length - 1] <= pow2(length as nat));
        lemma_pow2_unfold((length + 1) as nat);
    } else {
        lemma2_to64();
    }
}

pub proof fn lemma_first_code_nonnegative(counts: Seq<u8>, length: int)
    ensures
        0 <= first_code(counts, length),
    decreases length,
{
    if length > 0 {
        lemma_first_code_nonnegative(counts, length - 1);
    }
}

/// The last index that holds a symbol holds it.
pub proof fn lemma_last_index(symbols: Seq<u8>, symbol: u8, n: int)
    ensures
        last_index(symbols, symbol, n) matches Some(i) ==> 0 <= i < n && symbols[i] == symbol,
        last_index(symbols, symbol, n) is None ==> forall|i: int| 0 <= i < n ==> symbols[i] != symbol,
    decreases n,
{
    if n > 0 {
        lemma_last_index(symbols, symbol, n - 1);
    }
}

/// What the encoder has recorded for `symbol` after the first `n` symbols:
/// the code of its last occurrence among them, or length 0.
pub open spec fn encoded_after(
    counts: Seq<u8>,
    symbols: Seq<u8>,
    codes: Seq<u16>,
    lengths: Seq<u8>,
    n: int,
) -> bool {
    forall|s: u8|
        #![trigger codes[s as int]]
        #![trigger lengths[s as int]]
        match last_index(symbols, s, n) {
            Some(i) => codes[s as int] as int == code_of_index(counts, i) && lengths[s as int] as int
                == level_of(counts, i) + 1,
            None => lengths[s as int] == 0,
        }
}

/// A Huffman table as a DHT segment defines it.
pub struct TableDef {
    pub class: u8,
    pub id: u8,
    pub counts: Seq<u8>,
    pub symbols: Seq<u8>,
}

/// The definition of a table.
pub open spec fn table_def(table: HuffmanTable) -> TableDef {
    TableDef { class: table.class_of(), id: table.id_of(), counts: table.counts(), symbols: table.symbols() }
}

/// The definitions of a list of tables.
pub open spec fn table_defs(tables: Seq<HuffmanTable>) -> Seq<TableDef> {
    tables.map_values(|t: HuffmanTable| table_def(t))
}

/// A canonical Huffman table, with what decoding and encoding need.
pub struct HuffmanTable {
    class: u8,
    id: u8,
    counts: [u8; 16],
    symbols: Vec<u8>,
    first_code: [u32; 16],
    first_symbol: [usize; 16],
    encode_code: [u16; 256],
    encode_length: [u8; 256],
}

impl HuffmanTable {
    #[verifier::type_invariant]
    spec fn valid(self) -> bool {
        &&& table_valid(self.counts@, self.symbols@)
        &&& forall|l: int| 0 <= l < 16 ==> #[trigger] self.first_code@[l] as int == first_code(self.counts@, l)
        &&& forall|l: int| 0 <= l < 16 ==> #[trigger] self.first_symbol@[l] as int == codes_before(self.counts@, l)
        &&& encoded_after(
            self.counts@,
            self.symbols@,
            self.encode_code@,
            self.encode_length@,
            self.symbols@.len() as int,
        )
    }

    /// The number of codes of each length.
    pub closed spec fn counts(self) -> Seq<u8> {
        self.counts@
    }

    /// The symbols, in code order.
    pub closed spec fn symbols(self) -> Seq<u8> {
        self.symbols@
    }

    /// The table class: 0 for DC, 1 for AC.
    pub closed spec fn class_of(self) -> u8 {
        self.class
    }

    /// The table's id.
    pub closed spec fn id_of(self) -> u8 {
        self.id
    }

    /// The table class: 0 for DC, 1 for AC.
    pub fn class(&self) -> (r: u8)
        ensures
            r == self.class_of(),
    {
        self.class
    }

    /// The table's id.
    pub fn id(&self) -> (r: u8)
        ensures
            r == self.id_of(),
    {
        self.id
    }

    /// Builds the table of class `class` and id `id` whose `counts[l]` codes
    /// of `l + 1` bits are given to `symbols` in order.
    pub fn new(class: u8, id: u8, counts: [u8; 16], symbols: Vec<u8>) -> (r: Result<Self, JpegError>)
        ensures
            r matches Err(JpegError::HuffmanCountMismatch) <==> codes_before(counts@, 16) != symbols@.len(),
            r matches Err(JpegError::OversubscribedHuffmanTable) <==> codes_before(counts@, 16)
                == symbols@.len() && !codes_fit(counts@, 16),
            r is Ok <==> table_valid(counts@, symbols@),
            r matches Ok(t) ==> {
                &&& t.class_of() == class
                &&& t.id_of() == id
                &&& t.counts() == counts@
                &&& t.symbols() == symbols@
            },
    {
        let mut total: usize = 0;
        let mut l: usize = 0;
        while l < 16
            invariant
                0 <= l <= 16,
                total as int == codes_before(counts@, l as int),
                total <= 255 * l,
            decreases 16 - l,
        {
            total = total + counts[l] as usize;
            l = l + 1;
        }
        if total != symbols.len() {
            return Err(JpegError::HuffmanCountMismatch);
        }
        let mut first_codes = [0u32; 16];
        let mut first_symbols = [0usize; 16];
        let mut encode_code = [0u16; 256];
        let mut encode_length = [0u8; 256];
        let mut code: u32 = 0;
        let mut symbol_index: usize = 0;
        let mut length_index: usize = 0;
        proof {
            lemma2_to64();
        }
        while length_index < 16
            invariant
                0 <= length_index <= 16,
                total == symbols@.len(),
                total as int == codes_before(counts@, 16),
                code as int == first_code(counts@, length_index as int),
                symbol_index as int == codes_before(counts@, length_index as int),
                codes_fit(counts@, length_index as int),
                first_codes@.len() == 16,
                first_symbols@.len() == 16,
                encode_code@.len() == 256,
                encode_length@.len() == 256,
                forall|k: int| 0 <= k < length_index ==> #[trigger] first_codes@[k] as int == first_code(counts@, k),
                forall|k: int| 0 <= k < length_index ==> #[trigger] first_symbols@[k] as int == codes_before(counts@, k),
                encoded_after(counts@, symbols@, encode_code@, encode_length@, symbol_index as int),
            decreases 16 - length_index,
        {
            proof {
                lemma_first_code_bound(counts@, length_index as int);
                lemma_pow2_mono(length_index + 1, 16);
                lemma2_to64();
                assert(pow2(16) == 0x10000);
                lemma_codes_before_monotone(counts@, length_index + 1, 16);
                lemma_u32_pow2_no_overflow((length_index + 1) as nat);
                lemma_u32_shl_is_mul(1, (length_index + 1) as u32);
            }
            first_codes[length_index] = code;
            first_symbols[length_index] = symbol_index;
            let count = counts[length_index] as usize;
            if code + count as u32 > (1u32 << ((length_index + 1) as u32)) {
                proof {
                    assert(!codes_fit(counts@, 16)) by {
                        assert(!(first_code(counts@, length_index as int) + counts@[length_index as int] <= pow2((length_index + 1) as nat)));
                    }
                }
                return Err(JpegError::OversubscribedHuffmanTable);
            }
            let mut k: usize = 0;
            while k < count
                invariant
                    0 <= length_index < 16,
                    0 <= k <= count,
                    count == counts@[length_index as int],
                    total == symbols@.len(),
                    code as int == first_code(counts@, length_index as int) + k,
                    first_code(counts@, length_index as int) + count <= pow2((length_index + 1) as nat),
                    pow2((length_index + 1) as nat) <= 0x10000,
                    symbol_index as int == codes_before(counts@, length_index as int),
                    symbol_index + count <= total,
                    encode_code@.len() == 256,
                    encode_length@.len() == 256,
                    encoded_after(counts@, symbols@, encode_code@, encode_length@, symbol_index + k),
                decreases count - k,
            {
                let index = symbol_index + k;
                let symbol = symbols[index];
                proof {
                    lemma_level_of(counts@, index as int, length_index as int);
                }
                let ghost old_codes = encode_code@;
                let ghost old_lengths = encode_length@;
                encode_code[symbol as usize] = code as u16;
                encode_length[symbol as usize] = (length_index + 1) as u8;
                proof {
                    assert forall|s: u8|
                        #![trigger encode_code@[s as int]]
                        #![trigger encode_length@[s as int]]
                        match last_index(symbols@, s, index + 1) {
                            Some(i) => encode_code@[s as int] as int == code_of_index(counts@, i)
                                && encode_length@[s as int] as int == level_of(counts@, i) + 1,
                            None => encode_length@[s as int] == 0,
                        } by {
                        if s != symbol {
                            assert(encode_code@[s as int] == old_codes[s as int]);
                            assert(encode_length@[s as int] == old_lengths[s as int]);
                            assert(last_index(symbols@, s, index + 1) == last_index(symbols@, s, index as int));
                        } else {
                            assert(last_index(symbols@, s, index + 1) == Some(index as int));
                        }
                    }
                    assert(encoded_after(counts@, symbols@, encode_code@, encode_length@, index + 1));
                }
                code = code + 1;
                k = k + 1;
            }
            symbol_index = symbol_index + count;
            proof {
                assert(codes_fit(counts@, length_index + 1)) by {
                    assert forall|j: int| 0 <= j < length_index + 1 implies #[trigger] first_code(counts@, j) + counts@[j]
                        <= pow2((j + 1) as nat) by {
                        if j < length_index {
                            assert(codes_fit(counts@, length_index as int));
                        }
                    }
                }
            }
            proof {
                assert(code <= 0x10000);
                assert(code << 1u32 == code * 2) by (bit_vector)
                    requires code <= 0x10000;
            }
            code = code << 1u32;
            proof {
                assert(code as int == first_code(counts@, length_index + 1));
            }
            length_index = length_index + 1;
        }
        assert(codes_fit(counts@, 16));
        let table = HuffmanTable {
            class,
            id,
            counts,
            symbols,
            first_code: first_codes,
            first_symbol: first_symbols,
            encode_code,
            encode_length,
        };
        Ok(table)
    }

    /// Decodes one symbol from `bits`.
    pub fn decode(&self, bits: &mut BitReader) -> (r: Result<u8, JpegError>)
        ensures
            final(bits).input() == old(bits).input(),
            match huffman_decode(self.counts(), self.symbols(), old(bits).bits()) {
                HuffmanDecoded::Symbol(symbol, length) => {
                    &&& r == Ok::<u8, JpegError>(symbol)
                    &&& final(bits).bits() == old(bits).bits().skip(length as int)
                    &&& final(bits).end_error() == old(bits).end_error()
                    &&& final(bits).state_of() == advance(old(bits).input(), old(bits).state_of(), length)
                },
                HuffmanDecoded::NoCode => {
                    &&& r == Err::<u8, JpegError>(JpegError::InvalidHuffmanCode)
                    &&& final(bits).bits() == old(bits).bits().skip(16)
                    &&& final(bits).state_of() == advance(old(bits).input(), old(bits).state_of(), 16)
                },
                HuffmanDecoded::Exhausted => r == Err::<u8, JpegError>(old(bits).end_error()),
            },
    {
        proof {
            use_type_invariant(self);
        }
        let ghost start = bits.bits();
        let symbol_count = self.symbols.len();
        let mut code: u32 = 0;
        let mut length_index: usize = 0;
        assert(start.take(0) =~= Seq::<bool>::empty());
        assert(start.skip(0) =~= start);
        while length_index < 16
            invariant
                0 <= length_index <= 16,
                length_index <= start.len(),
                symbol_count == self.symbols@.len(),
                start == old(bits).bits(),
                bits.input() == old(bits).input(),
                bits.bits() == start.skip(length_index as int),
                bits.end_error() == old(bits).end_error(),
                bits.state_of() == advance(old(bits).input(), old(bits).state_of(), length_index as nat),
                code == bits_number(start.take(length_index as int)),
                huffman_decode(self.counts(), self.symbols(), start) == decode_from(
                    self.counts(),
                    self.symbols(),
                    start,
                    length_index as int,
                ),
            decreases 16 - length_index,
        {
            match bits.read_bit() {
                Ok(bit) => {
                    proof {
                        assert(start.take(length_index + 1).drop_last() =~= start.take(length_index as int));
                        assert(start.take(length_index + 1).last() == start[length_index as int]);
                        assert(start.skip(length_index + 1) =~= start.skip(length_index as int).drop_first());
                    }
                    code = (code << 1u32) | (bit as u32);
                },
                Err(e) => {
                    return Err(e);
                },
            }
            proof {
                use_type_invariant(self);
                assert(codes_fit(self.counts@, length_index as int));
                lemma_first_code_bound(self.counts@, length_index as int);
                lemma2_to64();
                lemma_pow2_mono(length_index + 1, 16);
                lemma_codes_before_monotone(self.counts@, length_index + 1, 16);
            }
            let first = self.first_code[length_index];
            let count = self.counts[length_index] as u32;
            if code >= first && code < first + count {
                proof {
                    assert(self.first_symbol@[length_index as int] as int == codes_before(self.counts@, length_index as int));
                    assert(codes_before(self.counts@, length_index + 1) <= codes_before(self.counts@, 16));
                    assert(codes_before(self.counts@, 16) == symbol_count);
                }
                let index = self.first_symbol[length_index] + (code - first) as usize;
                return Ok(self.symbols[index]);
            }
            length_index = length_index + 1;
        }
        Err(JpegError::InvalidHuffmanCode)
    }

    /// Writes the code of `symbol`.
    pub fn encode(&self, symbol: u8, bits: &mut BitWriter) -> (r: Result<(), JpegError>)
        requires
            old(bits).wf(),
        ensures
            final(bits).wf(),
            r is Ok <==> symbol_code(self.counts(), self.symbols(), symbol) is Some,
            r matches Err(e) ==> e == JpegError::NoHuffmanCode(symbol) && *final(bits) == *old(bits),
            symbol_code(self.counts(), self.symbols(), symbol) matches Some((code, length)) ==> old(bits).wrote(
                *final(bits),
                bits_of(code as u32, length as nat),
            ),
    {
        proof {
            use_type_invariant(self);
        }
        let length = self.encode_length[symbol as usize];
        proof {
            lemma_last_index(self.symbols@, symbol, self.symbols@.len() as int);
            assert(self.encode_length@[symbol as int] == length);
            assert(self.encode_code@[symbol as int] == self.encode_code@[symbol as int]);
            if let Some(i) = last_index(self.symbols@, symbol, self.symbols@.len() as int) {
                lemma_level_range(self.counts@, i, 0);
            }
        }
        if length == 0 {
            return Err(JpegError::NoHuffmanCode(symbol));
        }
        bits.write_bits(self.encode_code[symbol as usize] as u32, length);
        Ok(())
    }

    /// Appends the table's definition as a DHT segment holds it: class and
    /// id in one byte, the sixteen counts, then the symbols.
    pub fn append_definition(&self, output: &mut Vec<u8>)
        ensures
            final(output)@ == old(output)@ + seq![(self.class_of() << 4u8) | self.id_of()] + self.counts()
                + self.symbols(),
    {
        output.push((self.class << 4u8) | self.id);
        let mut i: usize = 0;
        while i < 16
            invariant
                0 <= i <= 16,
                self.counts@.len() == 16,
                output@ == old(output)@ + seq![(self.class << 4u8) | self.id] + self.counts@.take(i as int),
            decreases 16 - i,
        {
            output.push(self.counts[i]);
            i = i + 1;
            assert(output@ =~= old(output)@ + seq![(self.class << 4u8) | self.id] + self.counts@.take(i as int));
        }
        let mut j: usize = 0;
        while j < self.symbols.len()
            invariant
                0 <= j <= self.symbols@.len(),
                output@ == old(output)@ + seq![(self.class << 4u8) | self.id] + self.counts@ + self.symbols@.take(j as int),
            decreases self.symbols@.len() - j,
        {
            output.push(self.symbols[j]);
            j = j + 1;
            assert(output@ =~= old(output)@ + seq![(self.class << 4u8) | self.id] + self.counts@ + self.symbols@.take(j as int));
        }
        assert(self.counts@.take(16) =~= self.counts@);
        assert(self.symbols@.take(self.symbols@.len() as int) =~= self.symbols@);
    }
}

pub proof fn lemma_pow2_mono(a: int, b: int)
    requires
        0 <= a <= b,
    ensures
        pow2(a as nat) <= pow2(b as nat),
    decreases b - a,
{
    if a < b {
        lemma_pow2_mono(a, b - 1);
        lemma_pow2_unfold(b as nat);
    }
}

/// What `finish_scan` finds after the scan's last entropy byte that starts
/// at `position`: a marker introducer, any number of fill bytes, and EOI.
pub open spec fn scan_end(input: Seq<u8>, position: int) -> Result<(), JpegError> {
    if position < 0 || position >= input.len() {
        Err(JpegError::UnexpectedEof)
    } else if input[position] != 0xff {
        Err(JpegError::ScanNotFollowedByMarker)
    } else {
        eoi_after_fill(input, position + 1)
    }
}

/// The marker after any `0xff` fill bytes from `position` must be EOI.
pub open spec fn eoi_after_fill(input: Seq<u8>, position: int) -> Result<(), JpegError>
    decreases input.len() - position,
{
    if position < 0 || position >= input.len() {
        Err(JpegError::UnexpectedEof)
    } else if input[position] == 0xff {
        eoi_after_fill(input, position + 1)
    } else if input[position] == EOI {
        Ok(())
    } else {
        Err(JpegError::ExpectedEoiAfterScan(input[position]))
    }
}

/// The first position at or after `position` that holds no `0xff` fill
/// byte, or the end of the input.
pub open spec fn fill_end(input: Seq<u8>, position: int) -> int
    decreases input.len() - position,
{
    if position < 0 || position >= input.len() {
        input.len() as int
    } else if input[position] == 0xff {
        fill_end(input, position + 1)
    } else {
        position
    }
}

/// Where `finish_scan` leaves a reader at `position`: past the byte that
/// should introduce the marker when it is not `0xff`, else past the
/// marker after the fill bytes, or at the end of the input.
pub open spec fn scan_end_position(input: Seq<u8>, position: int) -> int {
    if position >= input.len() {
        position
    } else if input[position] != 0xff {
        position + 1
    } else if fill_end(input, position + 1) >= input.len() {
        input.len() as int
    } else {
        fill_end(input, position + 1) + 1
    }
}

/// The 64-bit word that saves a reader: the input position above bit 12,
/// the current entropy byte in bits 4 to 11, the count of its unread bits
/// in bits 0 to 3.
pub open spec fn state_word(position: u64, current: u8, remaining: u8) -> u64 {
    (position << 12u64) | ((current as u64) << 4u64) | (remaining as u64)
}

/// Where a reader stands: the input position of the next unread byte, the
/// entropy byte being read, and how many of its bits are unread.
pub struct ReaderState {
    pub position: int,
    pub current: u8,
    pub remaining: nat,
}

/// Every bit that a reader in state `s` can still read.
pub open spec fn state_bits(input: Seq<u8>, s: ReaderState) -> Seq<bool> {
    bits_of(s.current as u32, s.remaining) + bytes_to_bits(entropy_bytes(input, s.position))
}

/// The state after reading one bit: one fewer unread bit of the current
/// byte, or the next entropy byte with seven bits left.
pub open spec fn step(input: Seq<u8>, s: ReaderState) -> ReaderState {
    if s.remaining > 0 {
        ReaderState { remaining: (s.remaining - 1) as nat, ..s }
    } else {
        ReaderState {
            position: entropy_step(input, s.position),
            current: entropy_bytes(input, s.position)[0],
            remaining: 7,
        }
    }
}

/// The state after reading `k` bits.
pub open spec fn advance(input: Seq<u8>, s: ReaderState, k: nat) -> ReaderState
    decreases k,
{
    if k == 0 {
        s
    } else {
        step(input, advance(input, s, (k - 1) as nat))
    }
}

/// Reading one bit takes the first bit off the readable bits.
pub proof fn lemma_step(input: Seq<u8>, s: ReaderState)
    requires
        s.remaining <= 8,
        0 <= s.position <= input.len(),
        state_bits(input, s).len() > 0,
    ensures
        state_bits(input, step(input, s)) == state_bits(input, s).drop_first(),
        entropy_end(input, step(input, s).position) == entropy_end(input, s.position),
        step(input, s).remaining <= 8,
        0 <= step(input, s).position <= input.len(),
{
    let t = step(input, s);
    if s.remaining > 0 {
        let c = s.current as u32;
        let r = s.remaining;
        assert(bits_of(c, (r - 1) as nat) =~= bits_of(c, r).drop_first());
        assert(state_bits(input, t) =~= state_bits(input, s).drop_first());
    } else {
        let p = s.position;
        let stream = entropy_bytes(input, p);
        assert(bits_of(s.current as u32, 0) =~= Seq::<bool>::empty());
        assert(stream.len() > 0);
        let b = stream[0];
        assert(stream.drop_first() =~= entropy_bytes(input, t.position));
        assert(bits_of(b as u32, 8).drop_first() =~= bits_of(b as u32, 7));
        assert(bytes_to_bits(stream) == bits_of(b as u32, 8) + bytes_to_bits(stream.skip(1)));
        assert(stream.skip(1) =~= stream.drop_first());
        assert(state_bits(input, t) =~= state_bits(input, s).drop_first());
    }
}

/// Reading `k` bits takes the first `k` bits off the readable bits.
pub proof fn lemma_advance(input: Seq<u8>, s: ReaderState, k: nat)
    requires
        s.remaining <= 8,
        0 <= s.position <= input.len(),
        k <= state_bits(input, s).len(),
    ensures
        state_bits(input, advance(input, s, k)) == state_bits(input, s).skip(k as int),
        entropy_end(input, advance(input, s, k).position) == entropy_end(input, s.position),
        advance(input, s, k).remaining <= 8,
        0 <= advance(input, s, k).position <= input.len(),
    decreases k,
{
    if k == 0 {
        assert(state_bits(input, s).skip(0) =~= state_bits(input, s));
    } else {
        lemma_advance(input, s, (k - 1) as nat);
        let t = advance(input, s, (k - 1) as nat);
        lemma_step(input, t);
        assert(state_bits(input, s).skip(k - 1).drop_first() =~= state_bits(input, s).skip(k as int));
    }
}

/// Reading `a` bits and then `b` bits is reading `a + b` bits.
pub proof fn lemma_advance_add(input: Seq<u8>, s: ReaderState, a: nat, b: nat)
    ensures
        advance(input, advance(input, s, a), b) == advance(input, s, a + b),
    decreases b,
{
    if b > 0 {
        lemma_advance_add(input, s, a, (b - 1) as nat);
    }
}

/// A saved position of a `BitReader` inside entropy-coded data.
#[derive(Clone, Copy)]
pub struct BitReaderState {
    word: u64,
}

impl BitReaderState {
    #[verifier::type_invariant]
    spec fn valid(self) -> bool {
        self.word & 0x0f <= 8
    }

    /// The saved word.
    pub closed spec fn word(self) -> u64 {
        self.word
    }
}

/// Reads bits, most significant first, from the entropy-coded bytes that
/// start at a position of the input, removing stuffed zeros.
pub struct BitReader<'a> {
    input: &'a [u8],
    position: usize,
    current: u8,
    remaining: u8,
}

impl<'a> BitReader<'a> {
    #[verifier::type_invariant]
    spec fn valid(self) -> bool {
        &&& self.remaining <= 8
        &&& self.position <= self.input@.len()
    }

    /// The whole input.
    pub closed spec fn input(self) -> Seq<u8> {
        self.input@
    }

    /// The position of the next unread byte.
    pub closed spec fn position(self) -> int {
        self.position as int
    }

    /// The entropy byte that is being read.
    pub closed spec fn current(self) -> u8 {
        self.current
    }

    /// How many bits of `current` are still unread.
    pub closed spec fn remaining(self) -> u8 {
        self.remaining
    }

    /// Where the reader stands.
    pub open spec fn state_of(self) -> ReaderState {
        ReaderState { position: self.position(), current: self.current(), remaining: self.remaining() as nat }
    }

    /// Every bit that the reader can still read, in order.
    pub open spec fn bits(self) -> Seq<bool> {
        state_bits(self.input(), self.state_of())
    }

    /// The error of a read past the last readable bit.
    pub open spec fn end_error(self) -> JpegError {
        entropy_end(self.input(), self.position())
    }

    /// A reader of the entropy-coded data that starts at `position`.
    pub fn new(input: &'a [u8], position: usize) -> (r: Self)
        ensures
            r.input() == input@,
            r.position() == if position <= input@.len() { position as int } else { input@.len() as int },
            r.current() == 0,
            r.remaining() == 0,
            r.bits() == bytes_to_bits(entropy_bytes(input@, r.position())),
    {
        let position = if position <= input.len() {
            position
        } else {
            input.len()
        };
        let r = BitReader { input, position, current: 0, remaining: 0 };
        assert(bits_of(0u32, 0) =~= Seq::<bool>::empty());
        assert(r.bits() =~= bytes_to_bits(entropy_bytes(input@, r.position())));
        r
    }

    /// Reads the next bit.
    pub fn read_bit(&mut self) -> (r: Result<u8, JpegError>)
        ensures
            final(self).input() == old(self).input(),
            r is Ok <==> old(self).bits().len() > 0,
            r matches Ok(bit) ==> {
                &&& bit == if old(self).bits()[0] { 1u8 } else { 0u8 }
                &&& final(self).bits() == old(self).bits().drop_first()
                &&& final(self).end_error() == old(self).end_error()
                &&& final(self).state_of() == step(old(self).input(), old(self).state_of())
            },
            r matches Err(e) ==> e == old(self).end_error(),
    {
        proof {
            use_type_invariant(&*self);
        }
        let ghost before = self.bits();
        if self.remaining == 0 {
            let ghost stream = entropy_bytes(self.input@, self.position as int);
            assert(bits_of(self.current as u32, 0) =~= Seq::<bool>::empty());
            assert(before =~= bytes_to_bits(stream));
            match self.read_entropy_byte() {
                Ok(byte) => {
                    proof {
                        use_type_invariant(&*self);
                    }
                    self.current = byte;
                    self.remaining = 8;
                    assert(self.bits() =~= before);
                },
                Err(e) => {
                    return Err(e);
                },
            }
        }
        proof {
            use_type_invariant(&*self);
        }
        let ghost c = self.current;
        let ghost rem = self.remaining;
        self.remaining = self.remaining - 1;
        let bit = (self.current >> self.remaining) & 1;
        proof {
            let r1 = self.remaining;
            assert(((c >> r1) & 1) as u32 == ((c as u32) >> (r1 as u32)) & 1) by (bit_vector);
            assert(((c >> r1) & 1) == 1 || ((c >> r1) & 1) == 0) by (bit_vector);
            assert(bits_of(c as u32, rem as nat)[0] == (((c as u32) >> (r1 as u32)) & 1 == 1));
            assert(bits_of(c as u32, r1 as nat) =~= bits_of(c as u32, rem as nat).drop_first());
            assert(self.bits() =~= before.drop_first());
        }
        Ok(bit)
    }

    /// Reads `count` bits and returns the number they spell, most
    /// significant first.
    pub fn read_bits(&mut self, count: u8) -> (r: Result<u32, JpegError>)
        ensures
            final(self).input() == old(self).input(),
            r is Ok <==> old(self).bits().len() >= count,
            r matches Ok(value) ==> {
                &&& value == bits_number(old(self).bits().take(count as int))
                &&& final(self).bits() == old(self).bits().skip(count as int)
                &&& final(self).end_error() == old(self).end_error()
                &&& final(self).state_of() == advance(old(self).input(), old(self).state_of(), count as nat)
            },
            r matches Err(e) ==> e == old(self).end_error(),
    {
        let ghost start = self.bits();
        let mut value: u32 = 0;
        let mut i: u8 = 0;
        assert(start.take(0) =~= Seq::<bool>::empty());
        assert(start.skip(0) =~= start);
        while i < count
            invariant
                0 <= i <= count,
                i <= start.len(),
                self.input() == old(self).input(),
                start == old(self).bits(),
                self.bits() == start.skip(i as int),
                self.end_error() == old(self).end_error(),
                self.state_of() == advance(old(self).input(), old(self).state_of(), i as nat),
                value == bits_number(start.take(i as int)),
            decreases count - i,
        {
            match self.read_bit() {
                Ok(bit) => {
                    proof {
                        assert(start.take(i + 1).drop_last() =~= start.take(i as int));
                        assert(start.take(i + 1).last() == start[i as int]);
                        assert(start.skip(i + 1) =~= start.skip(i as int).drop_first());
                    }
                    value = (value << 1u32) | (bit as u32);
                    i = i + 1;
                },
                Err(e) => {
                    return Err(e);
                },
            }
        }
        Ok(value)
    }

    /// Reads the next entropy byte: a `0xff` must be followed by a stuffed
    /// zero, which is dropped.
    fn read_entropy_byte(&mut self) -> (r: Result<u8, JpegError>)
        ensures
            final(self).input() == old(self).input(),
            final(self).current() == old(self).current(),
            final(self).remaining() == old(self).remaining(),
            r is Ok <==> entropy_bytes(old(self).input(), old(self).position()).len() > 0,
            r matches Ok(byte) ==> {
                &&& byte == entropy_bytes(old(self).input(), old(self).position())[0]
                &&& final(self).position() == entropy_step(old(self).input(), old(self).position())
                &&& entropy_bytes(final(self).input(), final(self).position()) == entropy_bytes(
                    old(self).input(),
                    old(self).position(),
                ).drop_first()
                &&& final(self).end_error() == old(self).end_error()
            },
            r matches Err(e) ==> e == old(self).end_error(),
    {
        proof {
            use_type_invariant(&*self);
        }
        let ghost input = self.input@;
        let ghost p = self.position as int;
        if self.position >= self.input.len() {
            return Err(JpegError::UnexpectedEof);
        }
        let byte = self.input[self.position];
        self.position = self.position + 1;
        if byte != 0xff {
            assert(entropy_bytes(input, p).drop_first() =~= entropy_bytes(input, p + 1));
            return Ok(byte);
        }
        if self.position >= self.input.len() {
            return Err(JpegError::UnexpectedEof);
        }
        let next = self.input[self.position];
        if next == 0x00 {
            self.position = self.position + 1;
            assert(entropy_bytes(input, p).drop_first() =~= entropy_bytes(input, p + 2));
            Ok(0xff)
        } else {
            Err(JpegError::MarkerInEntropyData(next))
        }
    }

    /// Checks that the scan ends with EOI, after any fill bytes. The bits
    /// still pending are dropped, and the reader moves past every byte it
    /// looked at: through EOI when the scan ends well.
    pub fn finish_scan(&mut self) -> (r: Result<(), JpegError>)
        ensures
            r == scan_end(old(self).input(), old(self).position()),
            final(self).input() == old(self).input(),
            final(self).remaining() == 0,
            final(self).position() == scan_end_position(old(self).input(), old(self).position()),
    {
        proof {
            use_type_invariant(&*self);
        }
        self.remaining = 0;
        let len = self.input.len();
        if self.position >= len {
            return Err(JpegError::UnexpectedEof);
        }
        if self.input[self.position] != 0xff {
            self.position = self.position + 1;
            return Err(JpegError::ScanNotFollowedByMarker);
        }
        let mut p = self.position + 1;
        while p < len && self.input[p] == 0xff
            invariant
                len == self.input@.len(),
                self.position < p <= len,
                scan_end(old(self).input(), old(self).position()) == eoi_after_fill(self.input@, p as int),
                fill_end(self.input@, old(self).position() + 1) == fill_end(self.input@, p as int),
                self.input@ == old(self).input(),
                self.position == old(self).position(),
                self.remaining == 0,
            decreases len - p,
        {
            p = p + 1;
        }
        if p >= len {
            self.position = len;
            return Err(JpegError::UnexpectedEof);
        }
        let marker = self.input[p];
        self.position = p + 1;
        if marker != EOI {
            return Err(JpegError::ExpectedEoiAfterScan(marker));
        }
        Ok(())
    }

    /// Saves the reader's position, to come back to it with `from_state`.
    pub fn state(&self) -> (r: Result<BitReaderState, JpegError>)
        ensures
            r is Ok <==> self.position() <= u64::MAX >> 12u64,
            r matches Ok(s) ==> s.word() == state_word(
                self.position() as u64,
                self.current(),
                self.remaining(),
            ),
            r matches Err(e) ==> e == JpegError::PositionTooLarge,
    {
        proof {
            use_type_invariant(self);
        }
        let position = self.position as u64;
        if position > u64::MAX >> 12u64 {
            return Err(JpegError::PositionTooLarge);
        }
        let current = self.current;
        let remaining = self.remaining;
        let word = (position << 12u64) | ((current as u64) << 4u64) | (remaining as u64);
        assert(word & 0x0f <= 8) by (bit_vector)
            requires
                word == (position << 12u64) | ((current as u64) << 4u64) | (remaining as u64),
                remaining <= 8;
        Ok(BitReaderState { word })
    }

    /// A reader of `input` at a saved position.
    pub fn from_state(input: &'a [u8], state: BitReaderState) -> (r: Self)
        ensures
            r.input() == input@,
            r.position() == if (state.word() >> 12u64) as int <= input@.len() {
                (state.word() >> 12u64) as int
            } else {
                input@.len() as int
            },
            r.current() == (state.word() >> 4u64) as u8,
            r.remaining() == (state.word() & 0x0f) as u8,
    {
        proof {
            use_type_invariant(&state);
        }
        let saved = state.word >> 12u64;
        let position = if saved <= input.len() as u64 {
            saved as usize
        } else {
            input.len()
        };
        BitReader {
            input,
            position,
            current: (state.word >> 4u64) as u8,
            remaining: (state.word & 0x0f) as u8,
        }
    }
}

/// Writes bits, most significant first, as entropy-coded bytes: each
/// `0xff` byte is followed by a stuffed zero.
pub struct BitWriter {
    output: Vec<u8>,
    current: u8,
    used: u8,
}

impl BitWriter {
    /// At most seven bits wait for their byte, in the low bits of `current`.
    pub closed spec fn wf(self) -> bool {
        &&& self.used < 8
        &&& self.current >> self.used == 0
    }

    /// The bytes written so far.
    pub closed spec fn output(self) -> Seq<u8> {
        self.output@
    }

    /// The bits of the unfinished last byte.
    pub closed spec fn pending(self) -> Seq<bool> {
        bits_of(self.current as u32, self.used as nat)
    }

    /// `after` is this writer after writing `bits`.
    pub open spec fn wrote(self, after: BitWriter, bits: Seq<bool>) -> bool {
        &&& after.output() == self.output() + stuff(pack(self.pending() + bits))
        &&& after.pending() == leftover(self.pending() + bits)
    }

    /// Writing `first` and then `second` writes `first + second`.
    pub proof fn lemma_wrote_trans(self, middle: BitWriter, last: BitWriter, first: Seq<bool>, second: Seq<bool>)
        requires
            self.wrote(middle, first),
            middle.wrote(last, second),
        ensures
            self.wrote(last, first + second),
    {
        let front = self.pending() + first;
        lemma_pack_append(front, second);
        lemma_stuff_append(pack(front), pack(leftover(front) + second));
        assert(front + second =~= self.pending() + (first + second));
        assert(last.output() =~= self.output() + stuff(pack(self.pending() + (first + second))));
    }

    /// Writing nothing changes nothing.
    pub proof fn lemma_wrote_nothing(self)
        requires
            self.wf(),
        ensures
            self.wrote(self, Seq::<bool>::empty()),
    {
        let p = self.pending();
        assert(p + Seq::<bool>::empty() =~= p);
        assert(p.len() < 8);
        assert(pack(p) =~= Seq::<u8>::empty());
        assert(leftover(p) =~= p);
        assert(self.output() + stuff(Seq::<u8>::empty()) =~= self.output());
    }

    /// A writer that appends to `output`.
    pub fn new(output: Vec<u8>) -> (r: Self)
        ensures
            r.wf(),
            r.output() == output@,
            r.pending() == Seq::<bool>::empty(),
    {
        let r = BitWriter { output, current: 0, used: 0 };
        assert(r.pending() =~= Seq::<bool>::empty());
        assert(0u8 >> 0u8 == 0) by (bit_vector);
        r
    }

    /// The bytes written.
    pub fn into_output(self) -> (r: Vec<u8>)
        ensures
            r@ == self.output(),
    {
        self.output
    }

    /// Writes the low `count` bits of `value`, most significant first.
    pub fn write_bits(&mut self, value: u32, count: u8)
        requires
            old(self).wf(),
            count <= 32,
        ensures
            final(self).wf(),
            final(self).output() == old(self).output() + stuff(
                pack(old(self).pending() + bits_of(value, count as nat)),
            ),
            final(self).pending() == leftover(old(self).pending() + bits_of(value, count as nat)),
    {
        let ghost start_output = self.output@;
        let ghost start_pending = self.pending();
        let ghost new_bits = bits_of(value, count as nat);
        let mut left = count;
        proof {
            assert(leftover(start_pending) =~= start_pending);
            assert(pack(start_pending) =~= Seq::<u8>::empty());
            assert(start_pending + new_bits.take(0) =~= start_pending);
            assert(start_output + stuff(Seq::<u8>::empty()) =~= start_output);
        }
        while left > 0
            invariant
                0 <= left <= count,
                count <= 32,
                new_bits == bits_of(value, count as nat),
                self.output() == start_output + stuff(pack(start_pending + new_bits.take(count - left))),
                self.pending() == leftover(start_pending + new_bits.take(count - left)),
                start_output == old(self).output(),
                start_pending == old(self).pending(),
                self.wf(),
            decreases left,
        {
            left = left - 1;
            let shift = left;
            let bit = (((value >> (shift as u32)) & 1) as u8);
            let ghost done = start_pending + new_bits.take(count - left - 1);
            let ghost b = bit == 1;
            proof {
                let k = (count - 1 - shift) as int;
                assert(new_bits[k] == ((value >> (shift as u32)) & 1 == 1));
                assert(((((value >> (shift as u32)) & 1) as u8) as u32) == (value >> (shift as u32)) & 1) by (bit_vector);
                assert(start_pending + new_bits.take(count - left) =~= done.push(b));
                lemma_pack_push(done, b);
                assert(bit < 2) by (bit_vector)
                    requires bit == (((value >> (shift as u32)) & 1) as u8);
            }
            let old_current = self.current;
            let old_used = self.used;
            let next = (old_current << 1u8) | bit;
            proof {
                assert(old_current < 0x80) by (bit_vector)
                    requires old_current >> old_used == 0, old_used < 8;
                assert((next as u32) == (((old_current as u32) << 1u32) | (bit as u32))) by (bit_vector)
                    requires next == (old_current << 1u8) | bit, old_current < 0x80, bit < 2;
                assert((old_current as u32) >> (old_used as u32) == 0) by (bit_vector)
                    requires old_current >> old_used == 0, old_used < 8;
                lemma_bits_of_shift_in(old_current as u32, bit as u32, old_used as nat);
                assert(bits_of(next as u32, (old_used + 1) as nat) == bits_of(old_current as u32, old_used as nat).push(b));
            }
            if old_used == 7 {
                proof {
                    assert(leftover(done).len() == 7);
                    assert((next as u32) >> 8u32 == 0) by (bit_vector);
                    lemma_number_of_bits(next as u32, 8, 8);
                    assert(bits_of(next as u32, 8) =~= leftover(done).push(b));
                    assert((next as u32) >> 0u32 == next as u32) by (bit_vector);
                    lemma_stuff_push(pack(done), next);
                    assert(bits_of(next as u32, 8).take(8) =~= bits_of(next as u32, 8));
                    assert(bits_number(leftover(done).push(b)) == next as u32);
                    assert(0u8 >> 0u8 == 0) by (bit_vector);
                }
                self.write_entropy_byte(next);
                self.current = 0;
                self.used = 0;
                proof {
                    assert(self.pending() =~= Seq::<bool>::empty());
                }
            } else {
                let new_used: u8 = old_used + 1;
                proof {
                    assert(next >> new_used == 0) by (bit_vector)
                        requires next == (old_current << 1u8) | bit, old_current >> old_used == 0, old_used < 7, bit < 2, new_used == old_used + 1;
                    assert(self.pending() =~= leftover(done));
                    assert(leftover(done).len() == old_used);
                }
                self.used = new_used;
                self.current = next;
                proof {
                    assert(self.pending() =~= leftover(done).push(b));
                }
            }
        }
        assert(new_bits.take(count as int) =~= new_bits);
    }

    /// Completes the last byte with one bits and writes it.
    pub fn finish(&mut self)
        requires
            old(self).wf(),
        ensures
            final(self).wf(),
            final(self).output() == old(self).output() + stuff(
                pack(old(self).pending() + ones(((8 - old(self).pending().len()) % 8) as nat)),
            ),
            final(self).pending() == Seq::<bool>::empty(),
    {
        let ghost start_output = self.output@;
        let ghost start_pending = self.pending();
        if self.used != 0 {
            let used = self.used;
            let current = self.current;
            let padding = 8 - used;
            assert((1u16 << (padding as u16)) >= 1 && (1u16 << (padding as u16)) - 1 <= 255) by (bit_vector)
                requires padding <= 8;
            let byte = (current << padding) | (((1u16 << (padding as u16)) - 1) as u8);
            proof {
                let all = start_pending + ones(padding as nat);
                assert(all.len() == 8);
                assert forall|i: int| 0 <= i < 8 implies #[trigger] bits_of(byte as u32, 8)[i] == all[i] by {
                    let k = (7 - i) as u32;
                    let p32 = padding as u32;
                    if i < used {
                        let j = (used - 1 - i) as u32;
                        assert((((byte as u32) >> k) & 1 == 1) == (((current as u32) >> j) & 1 == 1)) by (bit_vector)
                            requires
                                byte == (current << padding) | (((1u16 << (padding as u16)) - 1) as u8),
                                padding == 8 - used, 0 < used < 8, current >> used == 0,
                                p32 == padding as u32, k == j + p32, k < 8;
                    } else {
                        assert(((byte as u32) >> k) & 1 == 1) by (bit_vector)
                            requires
                                byte == (current << padding) | (((1u16 << (padding as u16)) - 1) as u8),
                                padding == 8 - used, 0 < used < 8,
                                p32 == padding as u32, k < p32;
                    }
                }
                assert(bits_of(byte as u32, 8) =~= all);
                assert((byte as u32) >> 8u32 == 0) by (bit_vector);
                lemma_number_of_bits(byte as u32, 8, 8);
                assert((byte as u32) >> 0u32 == byte as u32) by (bit_vector);
                assert(all.take(8) =~= all);
                assert(bits_of(byte as u32, 8).take(8) =~= bits_of(byte as u32, 8));
                assert(bits_number(all.take(8)) == byte as u32);
                assert(all.skip(8) =~= Seq::<bool>::empty());
                assert(pack(all.skip(8)) =~= Seq::<u8>::empty());
                assert(pack(all) == seq![bits_number(all.take(8)) as u8] + pack(all.skip(8)));
                assert(pack(all) =~= seq![byte]);
                assert(stuff(seq![byte]) =~= stuffed_byte(byte)) by {
                    let one = seq![byte];
                    assert(one.skip(1) =~= Seq::<u8>::empty());
                    assert(stuff(one.skip(1)) =~= Seq::<u8>::empty());
                    assert(one[0] == byte);
                    assert(stuff(one) == stuffed_byte(one[0]) + stuff(one.skip(1)));
                }
            }
            self.write_entropy_byte(byte);
            self.current = 0;
            self.used = 0;
            assert(self.pending() =~= Seq::<bool>::empty());
            assert(0u8 >> 0u8 == 0) by (bit_vector);
        } else {
            proof {
                let all = start_pending + ones(0);
                assert(all =~= Seq::<bool>::empty());
                assert(pack(all) =~= Seq::<u8>::empty());
                assert(start_output + stuff(pack(all)) =~= start_output);
            }
        }
    }

    /// Writes one entropy byte, stuffing a zero after `0xff`.
    fn write_entropy_byte(&mut self, byte: u8)
        ensures
            final(self).output() == old(self).output() + stuffed_byte(byte),
            final(self).current == old(self).current,
            final(self).used == old(self).used,
    {
        self.output.push(byte);
        if byte == 0xff {
            self.output.push(0x00);
        }
        assert(self.output@ =~= old(self).output() + stuffed_byte(byte));
    }
}

/// A reader saved and restored comes back to the same place: its position,
/// current byte and unread bit count are recovered from the saved word.
pub proof fn lemma_state_round_trip(position: u64, current: u8, remaining: u8)
    requires
        position <= u64::MAX >> 12u64,
        remaining <= 8,
    ensures
        state_word(position, current, remaining) >> 12u64 == position,
        (state_word(position, current, remaining) >> 4u64) as u8 == current,
        (state_word(position, current, remaining) & 0x0f) as u8 == remaining,
{
    assert(((position << 12u64) | ((current as u64) << 4u64) | (remaining as u64)) >> 12u64 == position) by (bit_vector)
        requires position <= u64::MAX >> 12u64, remaining <= 8;
    assert((((position << 12u64) | ((current as u64) << 4u64) | (remaining as u64)) >> 4u64) as u8 == current) by (bit_vector)
        requires remaining <= 8;
    assert((((position << 12u64) | ((current as u64) << 4u64) | (remaining as u64)) & 0x0f) as u8 == remaining) by (bit_vector)
        requires remaining <= 8;
}

/// Codes grow by at least a factor of two with each extra bit of length.
pub proof fn lemma_first_code_grows(counts: Seq<u8>, m: int, l: int)
    requires
        0 <= m < l,
    ensures
        first_code(counts, l) >= (first_code(counts, m) + counts[m]) * pow2((l - m) as nat),
    decreases l - m,
{
    lemma_first_code_nonnegative(counts, m);
    if l == m + 1 {
        lemma2_to64();
    } else {
        lemma_first_code_grows(counts, m, l - 1);
        lemma_first_code_nonnegative(counts, l - 1);
        lemma_pow2_unfold((l - m) as nat);
        let x = first_code(counts, m) + counts[m];
        let p = pow2((l - 1 - m) as nat) as int;
        let f = first_code(counts, l - 1);
        assert(x * (2 * p) == (x * p) * 2) by (nonlinear_arith);
        assert(first_code(counts, l) == (f + counts[l - 1]) * 2);
    }
}

/// Decoding at lengths below the symbol's own finds no other code there.
proof fn lemma_decode_levels(
    counts: Seq<u8>,
    symbols: Seq<u8>,
    bits: Seq<bool>,
    code: u32,
    level: int,
    m: int,
)
    requires
        table_valid(counts, symbols),
        0 <= m <= level < 16,
        first_code(counts, level) <= code < first_code(counts, level) + counts[level],
        code >> ((level + 1) as u32) == 0,
        bits.len() >= level + 1,
        bits.take(level + 1) == bits_of(code, (level + 1) as nat),
    ensures
        decode_from(counts, symbols, bits, m) == decode_from(counts, symbols, bits, level),
    decreases level - m,
{
    if m < level {
        lemma_decode_levels(counts, symbols, bits, code, level, m + 1);
        let n = (level + 1) as nat;
        lemma_number_of_bits(code, n, (m + 1) as nat);
        assert(bits.take(m + 1) =~= bits_of(code, n).take(m + 1));
        let shift = (level - m) as u32;
        lemma_u32_shr_is_div(code, shift);
        lemma_first_code_grows(counts, m, level);
        lemma_first_code_nonnegative(counts, m);
        let x = first_code(counts, m) + counts[m];
        let p = pow2(shift as nat) as int;
        vstd::arithmetic::power2::lemma_pow2_pos(shift as nat);
        assert((code as int) / p >= x) by (nonlinear_arith)
            requires code as int >= x * p, p > 0, x >= 0;
    }
}

/// Decoding the code that the encoder writes for a symbol gives back the
/// symbol, and uses up exactly the code's bits, whatever follows them.
pub proof fn lemma_huffman_round_trip(counts: Seq<u8>, symbols: Seq<u8>, symbol: u8, rest: Seq<bool>)
    requires
        table_valid(counts, symbols),
        symbol_code(counts, symbols, symbol) is Some,
    ensures
        ({
            let (code, length) = symbol_code(counts, symbols, symbol).unwrap();
            &&& 1 <= length <= 16
            &&& 0 <= code < pow2(length as nat)
            &&& huffman_decode(counts, symbols, bits_of(code as u32, length as nat) + rest)
                == HuffmanDecoded::Symbol(symbol, length as nat)
        }),
{
    lemma_last_index(symbols, symbol, symbols.len() as int);
    let i = last_index(symbols, symbol, symbols.len() as int).unwrap();
    lemma_level_range(counts, i, 0);
    let level = level_of(counts, i);
    let code = code_of_index(counts, i);
    let n = (level + 1) as nat;
    lemma_first_code_nonnegative(counts, level);
    assert(code < pow2(n));
    lemma_pow2_mono(level + 1, 16);
    lemma2_to64();
    let c = code as u32;
    lemma_u32_shr_is_div(c, n as u32);
    assert((c as int) / (pow2(n) as int) == 0) by (nonlinear_arith)
        requires 0 <= c < pow2(n);
    let bits = bits_of(c, n) + rest;
    assert(bits.take(level + 1) =~= bits_of(c, n));
    lemma_decode_levels(counts, symbols, bits, c, level, 0);
    lemma_number_of_bits(c, n, n);
    assert(bits_of(c, n).take(n as int) =~= bits_of(c, n));
    assert(c >> 0u32 == c) by (bit_vector);
}

proof fn lemma_codes_before_zero(counts: Seq<u8>, a: int, b: int)
    requires
        0 <= a <= b,
        codes_before(counts, a) == codes_before(counts, b),
    ensures
        forall|m: int| a <= m < b ==> #[trigger] counts[m] == 0,
    decreases b - a,
{
    if a < b {
        lemma_codes_before_monotone(counts, a, b - 1);
        lemma_codes_before_zero(counts, a, b - 1);
    }
}

proof fn lemma_first_code_skips(counts: Seq<u8>, m: int, l: int)
    requires
        0 <= m < l,
        forall|k: int| m < k < l ==> #[trigger] counts[k] == 0,
    ensures
        first_code(counts, l) == (first_code(counts, m) + counts[m]) * pow2((l - m) as nat),
    decreases l - m,
{
    lemma2_to64();
    if l > m + 1 {
        lemma_first_code_skips(counts, m, l - 1);
        assert(counts[l - 1] == 0);
        lemma_pow2_unfold((l - m) as nat);
        let x = first_code(counts, m) + counts[m];
        let q = pow2((l - 1 - m) as nat);
        assert(x * q * 2 == x * (2 * q)) by (nonlinear_arith);
    }
}

proof fn lemma_first_code_zero(counts: Seq<u8>, l: int)
    requires
        0 <= l,
        codes_before(counts, l) == 0,
    ensures
        first_code(counts, l) == 0,
    decreases l,
{
    if l > 0 {
        lemma_codes_before_monotone(counts, 0, l - 1);
        lemma_first_code_zero(counts, l - 1);
    }
}

/// The canonical-code law (T.81 Annex C): the first symbol of the DHT
/// list gets the all-zero code; the code lengths never decrease along the
/// list; a symbol of the same length as an earlier one gets the earlier
/// code plus the distance between them in the list; the first symbol of a
/// longer length gets the code after the last shorter one, shifted left by
/// the difference in length; and so a longer code starts above every
/// shorter one, no code being a prefix of another.
pub proof fn lemma_canonical_codes(counts: Seq<u8>, symbols: Seq<u8>, i: int, j: int)
    requires
        table_valid(counts, symbols),
        0 <= i < j < symbols.len(),
    ensures
        code_of_index(counts, 0) == 0,
        level_of(counts, i) <= level_of(counts, j),
        level_of(counts, i) == level_of(counts, j) ==> code_of_index(counts, j) == code_of_index(counts, i) + (j - i),
        level_of(counts, i) < level_of(counts, j) && j == i + 1 ==> code_of_index(counts, j) == (code_of_index(
            counts,
            i,
        ) + 1) * pow2((level_of(counts, j) - level_of(counts, i)) as nat),
        level_of(counts, i) < level_of(counts, j) ==> code_of_index(counts, j) >= (code_of_index(counts, i) + 1)
            * pow2((level_of(counts, j) - level_of(counts, i)) as nat),
{
    lemma_level_range(counts, i, 0);
    lemma_level_range(counts, j, 0);
    lemma_level_range(counts, 0, 0);
    let l0 = level_of(counts, 0);
    lemma_codes_before_monotone(counts, 0, l0);
    lemma_first_code_zero(counts, l0);
    let li = level_of(counts, i);
    let lj = level_of(counts, j);
    if lj < li {
        lemma_codes_before_monotone(counts, lj + 1, li);
    }
    if li < lj {
        lemma_codes_before_monotone(counts, li + 1, lj);
        lemma_first_code_grows(counts, li, lj);
        let ci = code_of_index(counts, i);
        let fi = first_code(counts, li);
        assert(ci + 1 <= fi + counts[li]);
        vstd::arithmetic::power2::lemma_pow2_pos((lj - li) as nat);
        let p = pow2((lj - li) as nat);
        assert((ci + 1) * p <= (fi + counts[li]) * p) by (nonlinear_arith)
            requires ci + 1 <= fi + counts[li], p > 0;
        if j == i + 1 {
            assert(j == codes_before(counts, li + 1));
            assert(codes_before(counts, li + 1) == codes_before(counts, lj));
            lemma_codes_before_zero(counts, li + 1, lj);
            lemma_first_code_skips(counts, li, lj);
        }
    }
}

} // verus!
