//! The eight symmetries of the square (the dihedral group D4) and how each one
//! acts on positions in a grid and on the DCT coefficients of an 8x8 block.
use vstd::prelude::*;

verus! {

/// `(swap axes, flip source x, flip source y)` for each operation index:
/// 0 identity, 1 rotate 90, 2 rotate 180, 3 rotate 270, 4 flip horizontal,
/// 5 flip vertical, 6 transpose, 7 transverse.
pub open spec fn geometry_of(index: u8) -> (bool, bool, bool) {
    if index == 0 {
        (false, false, false)
    } else if index == 1 {
        (true, false, true)
    } else if index == 2 {
        (false, true, true)
    } else if index == 3 {
        (true, true, false)
    } else if index == 4 {
        (false, true, false)
    } else if index == 5 {
        (false, false, true)
    } else if index == 6 {
        (true, false, false)
    } else {
        (true, true, true)
    }
}

/// The operation that undoes operation `index`.
pub open spec fn inverse_index(index: u8) -> u8 {
    if index == 1 {
        3
    } else if index == 3 {
        1
    } else {
        index
    }
}

/// Position before the flips: the destination position, with axes swapped
/// when the operation swaps them.
pub open spec fn unflipped_position(index: u8, x: int, y: int) -> (int, int) {
    if geometry_of(index).0 {
        (y, x)
    } else {
        (x, y)
    }
}

/// The flips of `source_position` subtract from the source extent, so they
/// need a position inside it.
pub open spec fn source_position_defined(index: u8, x: int, y: int, width: int, height: int) -> bool {
    let (sx, sy) = unflipped_position(index, x, y);
    &&& geometry_of(index).1 ==> sx < width
    &&& geometry_of(index).2 ==> sy < height
}

/// The source position that destination position `(x, y)` takes its content
/// from, in a source grid of `width` by `height`.
pub open spec fn source_position_of(index: u8, x: int, y: int, width: int, height: int) -> (int, int) {
    let (sx, sy) = unflipped_position(index, x, y);
    (
        if geometry_of(index).1 { width - 1 - sx } else { sx },
        if geometry_of(index).2 { height - 1 - sy } else { sy },
    )
}

/// The extent of the destination grid made from a `width` by `height` source.
pub open spec fn destination_extent(index: u8, width: int, height: int) -> (int, int) {
    if geometry_of(index).0 {
        (height, width)
    } else {
        (width, height)
    }
}

/// Row-major index, in the source block, of the coefficient that lands at
/// frequency `(u, v)` of the destination block.
pub open spec fn block_source_index(index: u8, u: int, v: int) -> int {
    let (su, sv) = unflipped_position(index, u, v);
    sv * 8 + su
}

/// A flip along an axis negates the coefficients of odd frequency along it.
pub open spec fn block_negates(index: u8, u: int, v: int) -> bool {
    let (su, sv) = unflipped_position(index, u, v);
    (geometry_of(index).1 && su % 2 == 1) != (geometry_of(index).2 && sv % 2 == 1)
}

/// Coefficient at frequency `(u, v)` of the transformed block.
pub open spec fn transformed_coefficient(index: u8, source: Seq<int>, u: int, v: int) -> int {
    let value = source[block_source_index(index, u, v)];
    if block_negates(index, u, v) {
        -value
    } else {
        value
    }
}

/// The transformed block, in row-major order.
pub open spec fn transformed_block(index: u8, source: Seq<int>) -> Seq<int> {
    Seq::new(64, |i: int| transformed_coefficient(index, source, i % 8, i / 8))
}

/// A block of `i16` coefficients as integers.
pub open spec fn block_values(block: Seq<i16>) -> Seq<int> {
    block.map_values(|c: i16| c as int)
}

/// No coefficient that the transform negates is `i16::MIN`, whose negation
/// does not fit an `i16`.
pub open spec fn block_negation_fits(index: u8, source: Seq<i16>) -> bool {
    forall|u: int, v: int|
        0 <= u < 8 && 0 <= v < 8 && #[trigger] block_negates(index, u, v)
            ==> source[block_source_index(index, u, v)] != i16::MIN
}

/// The name of the output file of an operation, `"<index>.jpg"`.
pub open spec fn filename_of(index: u8) -> Seq<char> {
    seq![(48 + index) as char, '.', 'j', 'p', 'g']
}

/// One of the eight operations.
#[derive(Clone, Copy)]
pub struct Transform {
    index: u8,
}

impl Transform {
    #[verifier::type_invariant]
    spec fn valid(self) -> bool {
        self.index < 8
    }

    /// The operation's index, from 0 through 7.
    pub closed spec fn index(self) -> u8 {
        self.index
    }

    /// The operation with this index, if there is one.
    pub fn from_index(index: u8) -> (r: Option<Self>)
        ensures
            r is Some <==> index < 8,
            r matches Some(t) ==> t.index() == index,
    {
        if index < 8 {
            Some(Transform { index })
        } else {
            None
        }
    }

    /// The operation's index, from 0 through 7.
    pub fn get_index(self) -> (r: u8)
        ensures
            r == self.index(),
            r < 8,
    {
        proof {
            use_type_invariant(&self);
        }
        self.index
    }

    /// The name of the file that the operation's result is written to.
    pub fn filename(self) -> (r: String)
        ensures
            r@ == filename_of(self.index()),
    {
        proof {
            use_type_invariant(&self);
        }
        let digit = if self.index == 0 {
            "0"
        } else if self.index == 1 {
            "1"
        } else if self.index == 2 {
            "2"
        } else if self.index == 3 {
            "3"
        } else if self.index == 4 {
            "4"
        } else if self.index == 5 {
            "5"
        } else if self.index == 6 {
            "6"
        } else {
            "7"
        };
        proof {
            reveal_strlit("0");
            reveal_strlit("1");
            reveal_strlit("2");
            reveal_strlit("3");
            reveal_strlit("4");
            reveal_strlit("5");
            reveal_strlit("6");
            reveal_strlit("7");
            reveal_strlit(".jpg");
        }
        let name = String::from_str(digit);
        let r = name.concat(".jpg");
        assert(r@ =~= filename_of(self.index()));
        r
    }

    /// Whether the operation exchanges the horizontal and vertical axes.
    pub fn swaps_axes(self) -> (r: bool)
        ensures
            r == geometry_of(self.index()).0,
    {
        self.geometry().0
    }

    /// Maps a destination position back to the source. This works for both
    /// the MCU grid and the block grid inside a component's MCU.
    pub fn source_position(
        self,
        destination_x: usize,
        destination_y: usize,
        source_width: usize,
        source_height: usize,
    ) -> (r: (usize, usize))
        requires
            source_position_defined(
                self.index(),
                destination_x as int,
                destination_y as int,
                source_width as int,
                source_height as int,
            ),
        ensures
            (r.0 as int, r.1 as int) == source_position_of(
                self.index(),
                destination_x as int,
                destination_y as int,
                source_width as int,
                source_height as int,
            ),
    {
        let (swap, flip_x, flip_y) = self.geometry();
        let (mut source_x, mut source_y) = if swap {
            (destination_y, destination_x)
        } else {
            (destination_x, destination_y)
        };
        if flip_x {
            source_x = source_width - 1 - source_x;
        }
        if flip_y {
            source_y = source_height - 1 - source_y;
        }
        (source_x, source_y)
    }

    /// Transforms the 8x8 block of coefficients that starts at `start` in
    /// `source`: the coefficient at frequency `(u, v)` of the result comes
    /// from the source frequency that the operation maps there, negated
    /// where a flip reverses the phase of an odd frequency.
    pub fn apply_block(self, source: &[i16], start: usize) -> (r: [i16; 64])
        requires
            start + 64 <= source@.len(),
            block_negation_fits(self.index(), source@.subrange(start as int, start + 64)),
        ensures
            forall|i: int|
                0 <= i < 64 ==> #[trigger] r@[i] as int == transformed_block(
                    self.index(),
                    block_values(source@.subrange(start as int, start + 64)),
                )[i],
    {
        let ghost block = source@.subrange(start as int, start + 64);
        let ghost index = self.index();
        let (swap, flip_x, flip_y) = self.geometry();
        let source_len = source.len();
        let mut output = [0i16; 64];
        let mut v: usize = 0;
        while v < 8
            invariant
                0 <= v <= 8,
                output@.len() == 64,
                start + 64 <= source@.len(),
                source_len == source@.len(),
                block == source@.subrange(start as int, start + 64),
                index == self.index(),
                (swap, flip_x, flip_y) == geometry_of(index),
                block_negation_fits(index, block),
                forall|i: int| 0 <= i < v * 8 ==> #[trigger] output@[i] as int == transformed_block(index, block_values(block))[i],
            decreases 8 - v,
        {
            let mut u: usize = 0;
            while u < 8
                invariant
                    0 <= v < 8,
                    0 <= u <= 8,
                    output@.len() == 64,
                    start + 64 <= source@.len(),
                    source_len == source@.len(),
                    block == source@.subrange(start as int, start + 64),
                    index == self.index(),
                    (swap, flip_x, flip_y) == geometry_of(index),
                    block_negation_fits(index, block),
                    forall|i: int| 0 <= i < v * 8 + u ==> #[trigger] output@[i] as int == transformed_block(index, block_values(block))[i],
                decreases 8 - u,
            {
                let (source_u, source_v) = if swap { (v, u) } else { (u, v) };
                assert(source_u < 8 && source_v < 8);
                let negative = (flip_x && source_u % 2 != 0) != (flip_y && source_v % 2 != 0);
                let value = source[start + source_v * 8 + source_u];
                proof {
                    assert(block_negates(index, u as int, v as int) == negative);
                    assert(source_v * 8 + source_u == block_source_index(index, u as int, v as int));
                    assert(value == block[block_source_index(index, u as int, v as int)]);
                    if negative {
                        assert(value != i16::MIN);
                    }
                }
                let coefficient = if negative { -value } else { value };
                output[v * 8 + u] = coefficient;
                proof {
                    let k = (v * 8 + u) as int;
                    assert(k % 8 == u as int && k / 8 == v as int);
                    assert(output@[k] as int == transformed_block(index, block_values(block))[k]);
                }
                u += 1;
            }
            v += 1;
        }
        output
    }

    /// `(swap axes, flip source x, flip source y)`.
    fn geometry(self) -> (r: (bool, bool, bool))
        ensures
            r == geometry_of(self.index()),
    {
        proof {
            use_type_invariant(&self);
        }
        if self.index == 0 {
            (false, false, false)
        } else if self.index == 1 {
            (true, false, true)
        } else if self.index == 2 {
            (false, true, true)
        } else if self.index == 3 {
            (true, true, false)
        } else if self.index == 4 {
            (false, true, false)
        } else if self.index == 5 {
            (false, false, true)
        } else if self.index == 6 {
            (true, false, false)
        } else {
            (true, true, true)
        }
    }
}

/// Transposes an 8x8 table given in row-major order.
pub open spec fn transposed_table(source: Seq<u16>) -> Seq<u16> {
    Seq::new(64, |i: int| source[(i % 8) * 8 + i / 8])
}

/// Transposes a table of quantization values in row-major order.
pub fn transpose_frequency_table(source: &[u16; 64]) -> (r: [u16; 64])
    ensures
        r@ == transposed_table(source@),
{
    let mut output = [0u16; 64];
    let mut row: usize = 0;
    while row < 8
        invariant
            0 <= row <= 8,
            output@.len() == 64,
            source@.len() == 64,
            forall|i: int| 0 <= i < row * 8 ==> #[trigger] output@[i] == transposed_table(source@)[i],
        decreases 8 - row,
    {
        let mut column: usize = 0;
        while column < 8
            invariant
                0 <= row < 8,
                0 <= column <= 8,
                output@.len() == 64,
                source@.len() == 64,
                forall|i: int| 0 <= i < row * 8 + column ==> #[trigger] output@[i] == transposed_table(source@)[i],
            decreases 8 - column,
        {
            output[row * 8 + column] = source[column * 8 + row];
            proof {
                let k = (row * 8 + column) as int;
                assert(k % 8 == column as int && k / 8 == row as int);
            }
            column += 1;
        }
        row += 1;
    }
    assert(output@ =~= transposed_table(source@));
    output
}

// ---------------------------------------------------------------------------
// Laws of the group of operations.

/// Undoing an operation by its inverse gives back the block: the
/// frequency-domain action of the inverse cancels that of the operation.
pub proof fn lemma_inverse_restores_block(index: u8, block: Seq<int>)
    requires
        index < 8,
        block.len() == 64,
    ensures
        transformed_block(inverse_index(index), transformed_block(index, block)) == block,
{
    let once = transformed_block(index, block);
    let twice = transformed_block(inverse_index(index), once);
    assert forall|i: int| 0 <= i < 64 implies #[trigger] twice[i] == block[i] by {
        let u = i % 8;
        let v = i / 8;
        let s = block_source_index(inverse_index(index), u, v);
        assert(0 <= s < 64);
        assert(s % 8 == unflipped_position(inverse_index(index), u, v).0);
        assert(s / 8 == unflipped_position(inverse_index(index), u, v).1);
    }
    assert(twice =~= block);
}

/// On blocks, rotating by 90 degrees twice is rotating by 180 degrees.
pub proof fn lemma_rotate_twice_is_half_turn_on_blocks(block: Seq<int>)
    requires
        block.len() == 64,
    ensures
        transformed_block(1, transformed_block(1, block)) == transformed_block(2, block),
{
    let once = transformed_block(1, block);
    let twice = transformed_block(1, once);
    assert forall|i: int| 0 <= i < 64 implies #[trigger] twice[i] == transformed_block(2, block)[i] by {
        let u = i % 8;
        let v = i / 8;
        let s = block_source_index(1, u, v);
        assert(s % 8 == v && s / 8 == u);
    }
    assert(twice =~= transformed_block(2, block));
}

/// Every destination position of the transformed grid comes from a position
/// inside the source grid, and the inverse operation maps that source
/// position back to the destination position: each operation is a
/// bijection between the two grids.
pub proof fn lemma_source_position_bijective(index: u8, x: int, y: int, width: int, height: int)
    requires
        index < 8,
        0 <= x < destination_extent(index, width, height).0,
        0 <= y < destination_extent(index, width, height).1,
    ensures
        source_position_defined(index, x, y, width, height),
        ({
            let (sx, sy) = source_position_of(index, x, y, width, height);
            let (dw, dh) = destination_extent(index, width, height);
            &&& 0 <= sx < width
            &&& 0 <= sy < height
            &&& source_position_defined(inverse_index(index), sx, sy, dw, dh)
            &&& source_position_of(inverse_index(index), sx, sy, dw, dh) == (x, y)
        }),
{
}

/// Rotating by 90 degrees twice is rotating by 180 degrees, on positions.
pub proof fn lemma_rotate_twice_is_half_turn(x: int, y: int, width: int, height: int)
    requires
        0 <= x < width,
        0 <= y < height,
    ensures
        ({
            let (mx, my) = source_position_of(1, x, y, height, width);
            source_position_of(1, mx, my, width, height) == source_position_of(2, x, y, width, height)
        }),
{
}

/// Transposing a table twice gives back the table.
pub proof fn lemma_transpose_involution(table: Seq<u16>)
    requires
        table.len() == 64,
    ensures
        transposed_table(transposed_table(table)) == table,
{
    assert forall|i: int| 0 <= i < 64 implies #[trigger] transposed_table(transposed_table(table))[i]
        == table[i] by {
        let j = (i % 8) * 8 + i / 8;
        assert(j % 8 == i / 8 && j / 8 == i % 8);
    }
    assert(transposed_table(transposed_table(table)) =~= table);
}

proof fn lemma_transpose_coefficient(b: Seq<int>, i: int)
    requires
        b.len() == 64,
        0 <= i < 64,
    ensures
        transformed_block(6, b)[i] == b[(i % 8) * 8 + i / 8],
{
}

proof fn lemma_flip_coefficients(b: Seq<int>, i: int)
    requires
        b.len() == 64,
        0 <= i < 64,
    ensures
        transformed_block(4, b)[i] == if (i % 8) % 2 == 1 { -b[i] } else { b[i] },
        transformed_block(5, b)[i] == if (i / 8) % 2 == 1 { -b[i] } else { b[i] },
        transformed_block(0, b)[i] == b[i],
{
}

proof fn lemma_turn_coefficients(b: Seq<int>, i: int)
    requires
        b.len() == 64,
        0 <= i < 64,
    ensures
        ({
            let j = (i % 8) * 8 + i / 8;
            let hu = (i % 8) % 2 == 1;
            let hv = (i / 8) % 2 == 1;
            &&& 0 <= j < 64
            &&& transformed_block(1, b)[i] == if hu { -b[j] } else { b[j] }
            &&& transformed_block(3, b)[i] == if hv { -b[j] } else { b[j] }
            &&& transformed_block(7, b)[i] == if hu != hv { -b[j] } else { b[j] }
            &&& transformed_block(2, b)[i] == if hu != hv { -b[i] } else { b[i] }
        }),
{
    let j = (i % 8) * 8 + i / 8;
    assert(j % 8 == i / 8 && j / 8 == i % 8);
}

proof fn lemma_primitive_actions(b: Seq<int>)
    requires
        b.len() == 64,
    ensures
        transformed_block(0, b) == b,
        forall|i: int| 0 <= i < 64 ==> #[trigger] transformed_block(6, b)[i] == b[(i % 8) * 8 + i / 8],
        forall|i: int| 0 <= i < 64 ==> #[trigger] transformed_block(4, b)[i] == if (i % 8) % 2 == 1 {
            -b[i]
        } else {
            b[i]
        },
        forall|i: int| 0 <= i < 64 ==> #[trigger] transformed_block(5, b)[i] == if (i / 8) % 2 == 1 {
            -b[i]
        } else {
            b[i]
        },
{
    assert forall|i: int| 0 <= i < 64 implies #[trigger] transformed_block(0, b)[i] == b[i] by {
        lemma_flip_coefficients(b, i);
    }
    assert(transformed_block(0, b) =~= b);
    assert forall|i: int| 0 <= i < 64 implies #[trigger] transformed_block(6, b)[i] == b[(i % 8) * 8 + i / 8] by {
        lemma_transpose_coefficient(b, i);
    }
    assert forall|i: int| 0 <= i < 64 implies #[trigger] transformed_block(4, b)[i] == if (i % 8) % 2 == 1 {
        -b[i]
    } else {
        b[i]
    } by {
        lemma_flip_coefficients(b, i);
    }
    assert forall|i: int| 0 <= i < 64 implies #[trigger] transformed_block(5, b)[i] == if (i / 8) % 2 == 1 {
        -b[i]
    } else {
        b[i]
    } by {
        lemma_flip_coefficients(b, i);
    }
}

proof fn lemma_half_turn_composed(b: Seq<int>)
    requires
        b.len() == 64,
    ensures
        transformed_block(2, b) == transformed_block(4, transformed_block(5, b)),
{
    let x = transformed_block(5, b);
    assert forall|i: int| 0 <= i < 64 implies #[trigger] transformed_block(2, b)[i] == transformed_block(4, x)[i] by {
        lemma_turn_coefficients(b, i);
        lemma_flip_coefficients(b, i);
        lemma_flip_coefficients(x, i);
    }
    assert(transformed_block(2, b) =~= transformed_block(4, x));
}

proof fn lemma_quarter_turns_composed(b: Seq<int>)
    requires
        b.len() == 64,
    ensures
        transformed_block(1, b) == transformed_block(4, transformed_block(6, b)),
        transformed_block(3, b) == transformed_block(5, transformed_block(6, b)),
{
    let t = transformed_block(6, b);
    assert forall|i: int| 0 <= i < 64 implies #[trigger] transformed_block(1, b)[i] == transformed_block(4, t)[i]
        && transformed_block(3, b)[i] == transformed_block(5, t)[i] by {
        lemma_turn_coefficients(b, i);
        lemma_transpose_coefficient(b, i);
        lemma_flip_coefficients(t, i);
    }
    assert(transformed_block(1, b) =~= transformed_block(4, t));
    assert(transformed_block(3, b) =~= transformed_block(5, t));
}

proof fn lemma_transverse_composed(b: Seq<int>)
    requires
        b.len() == 64,
    ensures
        transformed_block(7, b) == transformed_block(4, transformed_block(5, transformed_block(6, b))),
{
    let t = transformed_block(6, b);
    let y = transformed_block(5, t);
    assert forall|i: int| 0 <= i < 64 implies #[trigger] transformed_block(7, b)[i] == transformed_block(4, y)[i] by {
        lemma_turn_coefficients(b, i);
        lemma_transpose_coefficient(b, i);
        lemma_flip_coefficients(t, i);
        lemma_flip_coefficients(y, i);
    }
    assert(transformed_block(7, b) =~= transformed_block(4, y));
}

/// The block law: on DCT coefficients (row-major, frequency `(u, v)` at
/// `u + 8 * v`), the identity changes nothing, the transpose exchanges the
/// horizontal and vertical frequencies, the horizontal flip negates the
/// coefficients of odd horizontal frequency, and the vertical flip those of
/// odd vertical frequency; every other operation is their composition as
/// its geometry says: the half turn flips both ways, the quarter turns are
/// the transpose followed by one flip, and the transverse is the transpose
/// followed by both flips, so a coefficient is negated exactly when an odd
/// number of flips act on odd frequencies.
pub proof fn lemma_block_actions(b: Seq<int>)
    requires
        b.len() == 64,
    ensures
        transformed_block(0, b) == b,
        forall|i: int| 0 <= i < 64 ==> #[trigger] transformed_block(6, b)[i] == b[(i % 8) * 8 + i / 8],
        forall|i: int| 0 <= i < 64 ==> #[trigger] transformed_block(4, b)[i] == if (i % 8) % 2 == 1 {
            -b[i]
        } else {
            b[i]
        },
        forall|i: int| 0 <= i < 64 ==> #[trigger] transformed_block(5, b)[i] == if (i / 8) % 2 == 1 {
            -b[i]
        } else {
            b[i]
        },
        transformed_block(2, b) == transformed_block(4, transformed_block(5, b)),
        transformed_block(1, b) == transformed_block(4, transformed_block(6, b)),
        transformed_block(3, b) == transformed_block(5, transformed_block(6, b)),
        transformed_block(7, b) == transformed_block(4, transformed_block(5, transformed_block(6, b))),
{
    lemma_primitive_actions(b);
    lemma_half_turn_composed(b);
    lemma_quarter_turns_composed(b);
    lemma_transverse_composed(b);
}

/// An operation on a grid of cells, each a block of `ch` by `cv`
/// sub-cells, moves the sub-cells as it moves the cells and then the
/// sub-cells within them: on the whole grid of sub-cells, the source of
/// sub-cell `(oh, ov)` of destination cell `(dx, dy)` is sub-cell
/// `source_position(oh, ov)` of cell `source_position(dx, dy)`.
pub proof fn lemma_grid_split(
    index: u8,
    dx: int,
    dy: int,
    oh: int,
    ov: int,
    cols: int,
    rows: int,
    ch: int,
    cv: int,
)
    requires
        index < 8,
        1 <= ch,
        1 <= cv,
        0 <= dx < destination_extent(index, cols, rows).0,
        0 <= dy < destination_extent(index, cols, rows).1,
        0 <= oh < destination_extent(index, ch, cv).0,
        0 <= ov < destination_extent(index, ch, cv).1,
    ensures
        ({
            let (och, ocv) = destination_extent(index, ch, cv);
            let (sx, sy) = source_position_of(index, dx, dy, cols, rows);
            let (sh, sv) = source_position_of(index, oh, ov, ch, cv);
            &&& source_position_of(index, dx * och + oh, dy * ocv + ov, cols * ch, rows * cv) == (sx * ch + sh, sy * cv
                + sv)
            &&& 0 <= sh < ch
            &&& 0 <= sv < cv
        }),
{
    lemma_source_position_bijective(index, oh, ov, ch, cv);
    assert((cols - 1 - dx) * ch + (ch - 1 - oh) == cols * ch - 1 - (dx * ch + oh)) by (nonlinear_arith);
    assert((rows - 1 - dy) * cv + (cv - 1 - ov) == rows * cv - 1 - (dy * cv + ov)) by (nonlinear_arith);
    assert((cols - 1 - dy) * ch + (ch - 1 - ov) == cols * ch - 1 - (dy * ch + ov)) by (nonlinear_arith);
    assert((rows - 1 - dx) * cv + (cv - 1 - oh) == rows * cv - 1 - (dx * cv + oh)) by (nonlinear_arith);
}

/// The operations of the README's table, on positions: destination
/// `(x, y)` of the result takes the source pixel (or block, or MCU) that
/// the operation moves there, in a source of `width` by `height`:
/// 0 identity, 1 a quarter turn clockwise, 2 a half turn, 3 three quarter
/// turns clockwise, 4 a horizontal flip, 5 a vertical flip, 6 the
/// transpose, 7 the transverse.
pub proof fn lemma_operation_meanings(x: int, y: int, width: int, height: int)
    ensures
        source_position_of(0, x, y, width, height) == (x, y),
        source_position_of(1, x, y, width, height) == (y, height - 1 - x),
        source_position_of(2, x, y, width, height) == (width - 1 - x, height - 1 - y),
        source_position_of(3, x, y, width, height) == (width - 1 - y, x),
        source_position_of(4, x, y, width, height) == (width - 1 - x, y),
        source_position_of(5, x, y, width, height) == (x, height - 1 - y),
        source_position_of(6, x, y, width, height) == (y, x),
        source_position_of(7, x, y, width, height) == (width - 1 - y, height - 1 - x),
        destination_extent(1, width, height) == (height, width),
        destination_extent(3, width, height) == (height, width),
        destination_extent(6, width, height) == (height, width),
        destination_extent(7, width, height) == (height, width),
        destination_extent(0, width, height) == (width, height),
        destination_extent(2, width, height) == (width, height),
        destination_extent(4, width, height) == (width, height),
        destination_extent(5, width, height) == (width, height),
        inverse_index(1) == 3 && inverse_index(3) == 1,
        forall|i: u8| i < 8 && i != 1 && i != 3 ==> #[trigger] inverse_index(i) == i,
{
}

} // verus!
