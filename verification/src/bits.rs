//! The mathematical model of entropy-coded data: bit sequences, their
//! packing into bytes, the stuffing of `0xff` bytes, and the stream of
//! bits that a reader finds in a byte sequence.
use vstd::prelude::*;
use crate::error::JpegError;

verus! {

/// The low `n` bits of `value`, most significant first.
pub open spec fn bits_of(value: u32, n: nat) -> Seq<bool> {
    Seq::new(n, |i: int| (value >> ((n - 1 - i) as u32)) & 1 == 1)
}

/// The number that a bit sequence spells, most significant bit first,
/// shifted in one bit at a time as a 32-bit register does.
pub open spec fn bits_number(bits: Seq<bool>) -> u32
    decreases bits.len(),
{
    if bits.len() == 0 {
        0
    } else {
        (bits_number(bits.drop_last()) << 1u32) | if bits.last() { 1u32 } else { 0u32 }
    }
}

/// `n` one bits: the padding of the last byte of a scan.
pub open spec fn ones(n: nat) -> Seq<bool> {
    Seq::new(n, |i: int| true)
}

/// The whole bytes that a bit sequence fills, eight bits each, first bit
/// most significant; bits after the last whole byte are left out.
pub open spec fn pack(bits: Seq<bool>) -> Seq<u8>
    decreases bits.len(),
{
    if bits.len() < 8 {
        seq![]
    } else {
        seq![bits_number(bits.take(8)) as u8] + pack(bits.skip(8))
    }
}

/// The bits after the last whole byte.
pub open spec fn leftover(bits: Seq<bool>) -> Seq<bool> {
    bits.skip(8 * (bits.len() / 8) as int)
}

/// The bits of a byte sequence, each byte most significant bit first.
pub open spec fn bytes_to_bits(bytes: Seq<u8>) -> Seq<bool>
    decreases bytes.len(),
{
    if bytes.len() == 0 {
        seq![]
    } else {
        bits_of(bytes[0] as u32, 8) + bytes_to_bits(bytes.skip(1))
    }
}

/// How a byte is written inside entropy-coded data: `0xff` is followed by a
/// stuffed zero so that it cannot be taken for a marker.
pub open spec fn stuffed_byte(byte: u8) -> Seq<u8> {
    if byte == 0xff {
        seq![0xffu8, 0x00u8]
    } else {
        seq![byte]
    }
}

/// A byte sequence as written inside entropy-coded data.
pub open spec fn stuff(bytes: Seq<u8>) -> Seq<u8>
    decreases bytes.len(),
{
    if bytes.len() == 0 {
        seq![]
    } else {
        stuffed_byte(bytes[0]) + stuff(bytes.skip(1))
    }
}

/// The entropy-coded bytes that start at `position` of `input`: stuffed
/// zeros removed, up to the first marker or the end of the input.
pub open spec fn entropy_bytes(input: Seq<u8>, position: int) -> Seq<u8>
    decreases input.len() - position,
{
    if position < 0 || position >= input.len() {
        seq![]
    } else if input[position] != 0xff {
        seq![input[position]] + entropy_bytes(input, position + 1)
    } else if position + 1 < input.len() && input[position + 1] == 0 {
        seq![0xffu8] + entropy_bytes(input, position + 2)
    } else {
        seq![]
    }
}

/// Why the entropy-coded bytes that start at `position` end: the end of the
/// input, or a marker.
pub open spec fn entropy_end(input: Seq<u8>, position: int) -> JpegError
    decreases input.len() - position,
{
    if position < 0 || position >= input.len() {
        JpegError::UnexpectedEof
    } else if input[position] != 0xff {
        entropy_end(input, position + 1)
    } else if position + 1 >= input.len() {
        JpegError::UnexpectedEof
    } else if input[position + 1] == 0 {
        entropy_end(input, position + 2)
    } else {
        JpegError::MarkerInEntropyData(input[position + 1])
    }
}

/// The input position after the entropy-coded byte at `position`.
pub open spec fn entropy_step(input: Seq<u8>, position: int) -> int {
    if input[position] != 0xff {
        position + 1
    } else {
        position + 2
    }
}

// ---------------------------------------------------------------------------
// Facts about bit sequences and the numbers they spell.

/// A sequence of fewer than 32 bits spells a number below `2^len`.
pub proof fn lemma_bits_number_bound(bits: Seq<bool>)
    requires
        bits.len() < 32,
    ensures
        bits_number(bits) >> (bits.len() as u32) == 0,
    decreases bits.len(),
{
    if bits.len() > 0 {
        let rest = bits.drop_last();
        lemma_bits_number_bound(rest);
        let v = bits_number(rest);
        let b: u32 = if bits.last() { 1 } else { 0 };
        let n = rest.len() as u32;
        assert(((v << 1u32) | b) >> (n + 1) == 0) by (bit_vector)
            requires v >> n == 0, n < 31, b < 2;
    } else {
        assert(0u32 >> 0u32 == 0) by (bit_vector);
    }
}

/// Shifting a bit into a number appends it to the number's bits.
pub proof fn lemma_bits_of_shift_in(v: u32, b: u32, n: nat)
    requires
        n < 32,
        v >> (n as u32) == 0 || n == 31,
        v < 0x8000_0000,
        b < 2,
    ensures
        bits_of(((v << 1u32) | b), n + 1) == bits_of(v, n).push(b == 1),
{
    let w = (v << 1u32) | b;
    assert forall|i: int| 0 <= i < n + 1 implies #[trigger] bits_of(w, n + 1)[i] == bits_of(v, n).push(b == 1)[i] by {
        if i < n {
            let k = (n - 1 - i) as u32;
            assert(((((v << 1u32) | b) >> (k + 1)) & 1) == ((v >> k) & 1)) by (bit_vector)
                requires v < 0x8000_0000, b < 2, k < 31;
        } else {
            assert(((((v << 1u32) | b) >> 0u32) & 1) == b) by (bit_vector)
                requires b < 2;
        }
    }
    assert(bits_of(w, n + 1) =~= bits_of(v, n).push(b == 1));
}

/// The bits of the number that a short bit sequence spells are the sequence.
pub proof fn lemma_bits_of_number(bits: Seq<bool>)
    requires
        bits.len() < 32,
    ensures
        bits_of(bits_number(bits), bits.len()) == bits,
    decreases bits.len(),
{
    if bits.len() == 0 {
        assert(bits_of(bits_number(bits), 0) =~= bits);
    } else {
        let rest = bits.drop_last();
        lemma_bits_of_number(rest);
        lemma_bits_number_bound(rest);
        let v = bits_number(rest);
        let n = rest.len() as u32;
        assert(v < 0x8000_0000) by (bit_vector)
            requires v >> n == 0, n < 31;
        let b: u32 = if bits.last() { 1 } else { 0 };
        lemma_bits_of_shift_in(v, b, rest.len());
        assert(rest.push(bits.last()) =~= bits);
    }
}

/// The first `k` of the low `n` bits of `v` spell `v` shifted right by `n - k`.
pub proof fn lemma_number_of_bits(v: u32, n: nat, k: nat)
    requires
        n < 32,
        v >> (n as u32) == 0,
        k <= n,
    ensures
        bits_number(bits_of(v, n).take(k as int)) == v >> ((n - k) as u32),
    decreases k,
{
    let bits = bits_of(v, n);
    if k == 0 {
        assert(bits.take(0) =~= Seq::<bool>::empty());
    } else {
        lemma_number_of_bits(v, n, (k - 1) as nat);
        assert(bits.take(k as int).drop_last() =~= bits.take(k - 1));
        let s = (n - k) as u32;
        assert(bits.take(k as int).last() == ((v >> s) & 1 == 1));
        assert((((v >> (s + 1)) << 1u32) | ((v >> s) & 1)) == v >> s) by (bit_vector)
            requires s < 31;
        assert(((v >> s) & 1 == 1) ==> ((v >> s) & 1) == 1u32);
        assert(!((v >> s) & 1 == 1) ==> ((v >> s) & 1) == 0u32) by (bit_vector);
    }
}

/// Adding one bit to a sequence either adds it to the unfinished last byte
/// or completes that byte.
pub proof fn lemma_pack_push(bits: Seq<bool>, b: bool)
    ensures
        leftover(bits).len() < 8,
        leftover(bits).len() < 7 ==> pack(bits.push(b)) == pack(bits) && leftover(bits.push(b))
            == leftover(bits).push(b),
        leftover(bits).len() == 7 ==> pack(bits.push(b)) == pack(bits).push(
            bits_number(leftover(bits).push(b)) as u8,
        ) && leftover(bits.push(b)) == Seq::<bool>::empty(),
    decreases bits.len(),
{
    let s = bits.push(b);
    if bits.len() < 8 {
        assert(leftover(bits) =~= bits);
        if bits.len() < 7 {
            assert(leftover(s) =~= s);
        } else {
            assert(s.take(8) =~= s);
            assert(s.skip(8).len() == 0);
            assert(pack(s.skip(8)) =~= Seq::<u8>::empty());
            assert(leftover(s) =~= Seq::<bool>::empty());
            assert(pack(s) =~= pack(bits).push(bits_number(leftover(bits).push(b)) as u8));
        }
    } else {
        let rest = bits.skip(8);
        lemma_pack_push(rest, b);
        assert(s.take(8) =~= bits.take(8));
        assert(s.skip(8) =~= rest.push(b));
        assert(leftover(bits) =~= leftover(rest));
        assert(leftover(s) =~= leftover(rest.push(b)));
        if leftover(bits).len() == 7 {
            assert(pack(s) =~= pack(bits).push(bits_number(leftover(bits).push(b)) as u8));
        }
    }
}

/// Appending a byte appends its stuffed form.
pub proof fn lemma_stuff_push(bytes: Seq<u8>, byte: u8)
    ensures
        stuff(bytes.push(byte)) == stuff(bytes) + stuffed_byte(byte),
    decreases bytes.len(),
{
    if bytes.len() == 0 {
        let t = bytes.push(byte);
        assert(t.skip(1) =~= Seq::<u8>::empty());
        assert(t[0] == byte);
        assert(stuff(t) == stuffed_byte(byte) + stuff(t.skip(1)));
        assert(stuff(t) =~= stuff(bytes) + stuffed_byte(byte));
    } else {
        lemma_stuff_push(bytes.skip(1), byte);
        let t = bytes.push(byte);
        assert(t.skip(1) =~= bytes.skip(1).push(byte));
        assert(t[0] == bytes[0]);
        assert(stuff(t) == stuffed_byte(bytes[0]) + stuff(t.skip(1)));
        assert(stuff(bytes) == stuffed_byte(bytes[0]) + stuff(bytes.skip(1)));
        assert(stuff(t) =~= stuff(bytes) + stuffed_byte(byte));
    }
}

/// The bits of two byte sequences, one after the other.
pub proof fn lemma_bytes_to_bits_append(a: Seq<u8>, b: Seq<u8>)
    ensures
        bytes_to_bits(a + b) == bytes_to_bits(a) + bytes_to_bits(b),
    decreases a.len(),
{
    if a.len() == 0 {
        assert(a + b =~= b);
        assert(bytes_to_bits(a) + bytes_to_bits(b) =~= bytes_to_bits(b));
    } else {
        lemma_bytes_to_bits_append(a.skip(1), b);
        assert((a + b).skip(1) =~= a.skip(1) + b);
        assert(bytes_to_bits(a + b) =~= bytes_to_bits(a) + bytes_to_bits(b));
    }
}

/// Reading back the bits of packed whole bytes gives the bits.
pub proof fn lemma_bytes_to_bits_pack(bits: Seq<bool>)
    requires
        bits.len() % 8 == 0,
    ensures
        bytes_to_bits(pack(bits)) == bits,
    decreases bits.len(),
{
    if bits.len() == 0 {
        assert(bytes_to_bits(pack(bits)) =~= bits);
    } else {
        let head = bits.take(8);
        lemma_bytes_to_bits_pack(bits.skip(8));
        lemma_bits_of_number(head);
        lemma_bits_number_bound(head);
        let v = bits_number(head);
        assert((v as u8) as u32 == v) by (bit_vector)
            requires v >> 8u32 == 0;
        let packed = pack(bits);
        assert(packed.skip(1) =~= pack(bits.skip(8)));
        assert(bytes_to_bits(packed) =~= head + bits.skip(8));
        assert(head + bits.skip(8) =~= bits);
    }
}

/// A reader that finds stuffed bytes in its input takes the stuffed zeros
/// out again, and reads on after them.
pub proof fn lemma_entropy_bytes_of_stuffed(input: Seq<u8>, position: int, bytes: Seq<u8>)
    requires
        0 <= position,
        position + stuff(bytes).len() <= input.len(),
        input.subrange(position, position + stuff(bytes).len()) == stuff(bytes),
    ensures
        entropy_bytes(input, position) == bytes + entropy_bytes(input, position + stuff(bytes).len()),
        entropy_end(input, position) == entropy_end(input, position + stuff(bytes).len()),
    decreases bytes.len(),
{
    if bytes.len() == 0 {
        assert(bytes + entropy_bytes(input, position) =~= entropy_bytes(input, position));
    } else {
        let first = stuffed_byte(bytes[0]);
        let rest = stuff(bytes.skip(1));
        assert(stuff(bytes) == first + rest);
        let next = position + first.len();
        assert(input.subrange(next, next + rest.len()) =~= rest) by {
            assert forall|i: int| 0 <= i < rest.len() implies input.subrange(next, next + rest.len())[i] == rest[i] by {
                assert(input.subrange(position, position + stuff(bytes).len())[first.len() + i] == stuff(bytes)[first.len() + i]);
            }
        }
        assert(input[position] == stuff(bytes)[0]);
        if bytes[0] == 0xff {
            assert(input[position + 1] == stuff(bytes)[1]);
        }
        lemma_entropy_bytes_of_stuffed(input, next, bytes.skip(1));
        assert(entropy_bytes(input, position) =~= bytes + entropy_bytes(input, position + stuff(bytes).len()));
    }
}

/// Stuffing distributes over concatenation.
pub proof fn lemma_stuff_append(a: Seq<u8>, b: Seq<u8>)
    ensures
        stuff(a + b) == stuff(a) + stuff(b),
    decreases a.len(),
{
    if a.len() == 0 {
        assert(a + b =~= b);
        assert(stuff(a) + stuff(b) =~= stuff(b));
    } else {
        lemma_stuff_append(a.skip(1), b);
        assert((a + b).skip(1) =~= a.skip(1) + b);
        assert((a + b)[0] == a[0]);
        assert(stuff(a + b) =~= stuff(a) + stuff(b));
    }
}

/// Packing in two steps, carrying the unfinished byte over, packs the same
/// bytes as packing at once.
pub proof fn lemma_pack_append(front: Seq<bool>, back: Seq<bool>)
    ensures
        pack(front) + pack(leftover(front) + back) == pack(front + back),
        leftover(leftover(front) + back) == leftover(front + back),
    decreases back.len(),
{
    lemma_pack_push(front, false);
    if back.len() == 0 {
        assert(leftover(front) + back =~= leftover(front));
        assert(front + back =~= front);
        let lo = leftover(front);
        assert(pack(lo) =~= Seq::<u8>::empty());
        assert(leftover(lo) =~= lo);
        assert(pack(front) + pack(lo) =~= pack(front));
    } else {
        let shorter = back.drop_last();
        let b = back.last();
        lemma_pack_append(front, shorter);
        let whole = front + shorter;
        let carried = leftover(front) + shorter;
        lemma_pack_push(whole, b);
        lemma_pack_push(carried, b);
        assert(whole.push(b) =~= front + back);
        assert(carried.push(b) =~= leftover(front) + back);
        if leftover(whole).len() == 7 {
            assert(pack(front) + pack(carried).push(bits_number(leftover(carried).push(b)) as u8) =~= (pack(front)
                + pack(carried)).push(bits_number(leftover(carried).push(b)) as u8));
        }
    }
}

// ---------------------------------------------------------------------------
// The law that ties the writer to the reader.

/// Whatever bits a writer packs into stuffed whole bytes, a reader that
/// starts at those bytes finds the same bits, followed by the bits of what
/// comes after them.
pub proof fn lemma_entropy_round_trip(prefix: Seq<u8>, bits: Seq<bool>, tail: Seq<u8>)
    requires
        bits.len() % 8 == 0,
    ensures
        ({
            let input = prefix + stuff(pack(bits)) + tail;
            let after = prefix.len() + stuff(pack(bits)).len();
            &&& bytes_to_bits(entropy_bytes(input, prefix.len() as int)) == bits + bytes_to_bits(
                entropy_bytes(input, after as int),
            )
            &&& entropy_end(input, prefix.len() as int) == entropy_end(input, after as int)
            &&& entropy_bytes(input, after as int) == entropy_bytes(tail, 0)
            &&& entropy_end(input, after as int) == entropy_end(tail, 0)
        }),
{
    let stuffed = stuff(pack(bits));
    let input = prefix + stuffed + tail;
    let p = prefix.len() as int;
    let after = p + stuffed.len();
    assert(input.subrange(p, after) =~= stuffed);
    lemma_entropy_bytes_of_stuffed(input, p, pack(bits));
    lemma_bytes_to_bits_append(pack(bits), entropy_bytes(input, after));
    lemma_bytes_to_bits_pack(bits);
    lemma_entropy_tail(prefix + stuffed, tail, 0);
    assert(prefix + stuffed + tail == (prefix + stuffed) + tail);
}

/// The entropy stream of a suffix does not depend on what comes before it.
pub proof fn lemma_entropy_tail(front: Seq<u8>, tail: Seq<u8>, position: int)
    requires
        0 <= position,
    ensures
        entropy_bytes(front + tail, front.len() + position) == entropy_bytes(tail, position),
        entropy_end(front + tail, front.len() + position) == entropy_end(tail, position),
    decreases tail.len() - position,
{
    let input = front + tail;
    let p = front.len() + position;
    if position < tail.len() {
        assert(input[p] == tail[position]);
        if position + 1 < tail.len() {
            assert(input[p + 1] == tail[position + 1]);
        }
        if tail[position] != 0xff {
            lemma_entropy_tail(front, tail, position + 1);
        } else if position + 1 < tail.len() {
            lemma_entropy_tail(front, tail, position + 2);
        }
    }
}

/// A sequence of fewer than 32 bits spells a number below `2^len`.
pub proof fn lemma_bits_number_below(bits: Seq<bool>)
    requires
        bits.len() < 32,
    ensures
        (bits_number(bits) as int) < vstd::arithmetic::power2::pow2(bits.len() as nat),
{
    lemma_bits_number_bound(bits);
    let v = bits_number(bits);
    let n = bits.len() as u32;
    vstd::bits::lemma_u32_shr_is_div(v, n);
    vstd::arithmetic::power2::lemma_pow2_pos(n as nat);
    let p = vstd::arithmetic::power2::pow2(n as nat);
    assert(v < p) by (nonlinear_arith)
        requires v as nat / p == 0, p > 0;
}

} // verus!
