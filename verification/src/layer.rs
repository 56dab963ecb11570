//! Input and output layers: geometry, element types and the sign-bit fixup.
use vstd::prelude::*;

use crate::bytes;
use crate::fb::{Table, TableView};

verus! {

// --- vtable offsets ---------------------------------------------------------

/// `Layer.name`.
pub const LAYER_NAME: u16 = 4;

/// `Layer.size_bytes`.
pub const LAYER_SIZE_BYTES: u16 = 6;

/// `Layer.y_dim`.
pub const LAYER_Y_DIM: u16 = 8;

/// `Layer.x_dim`.
pub const LAYER_X_DIM: u16 = 10;

/// `Layer.z_dim`.
pub const LAYER_Z_DIM: u16 = 12;

/// `Layer.numerics`.
pub const LAYER_NUMERICS: u16 = 14;

/// `Layer.data_type`.
pub const LAYER_DATA_TYPE: u16 = 16;

/// `Layer.execution_count_per_inference`.
pub const LAYER_EXECUTION_COUNT_PER_INFERENCE: u16 = 22;

/// `NumericsConstants.zero_point`.
pub const NUMERICS_ZERO_POINT: u16 = 4;

/// `NumericsConstants.dequantization_factor`.
pub const NUMERICS_DEQUANTIZATION_FACTOR: u16 = 6;

// ---------------------------------------------------------------------------
// Element types
// ---------------------------------------------------------------------------

/// Element type of a layer.
#[derive(Debug, Clone, Copy, PartialEq, Eq)]
pub enum DataType {
    /// Unsigned 8-bit fixed point.
    FixedPoint8,
    /// Unsigned 16-bit fixed point.
    FixedPoint16,
    /// 32-bit fixed point. Named "signed", but see [`DataType::is_signed`].
    SignedFixedPoint32,
    /// bfloat16.
    BFloat,
    /// IEEE half precision.
    Half,
    /// IEEE single precision.
    Single,
    /// Signed 8-bit fixed point.
    SignedFixedPoint8,
    /// Signed 16-bit fixed point.
    SignedFixedPoint16,
    /// A value the schema does not define.
    Unknown(i16),
}

impl DataType {
    /// The element type that a schema value stands for.
    pub open spec fn of(v: i16) -> DataType {
        if v == 0 {
            DataType::FixedPoint8
        } else if v == 1 {
            DataType::FixedPoint16
        } else if v == 2 {
            DataType::SignedFixedPoint32
        } else if v == 3 {
            DataType::BFloat
        } else if v == 4 {
            DataType::Half
        } else if v == 5 {
            DataType::Single
        } else if v == 8 {
            DataType::SignedFixedPoint8
        } else if v == 9 {
            DataType::SignedFixedPoint16
        } else {
            DataType::Unknown(v)
        }
    }

    /// Size of one element in bytes, `0` for an unrecognised type.
    pub open spec fn size(self) -> int {
        match self {
            DataType::FixedPoint8 => 1,
            DataType::SignedFixedPoint8 => 1,
            DataType::FixedPoint16 => 2,
            DataType::SignedFixedPoint16 => 2,
            DataType::BFloat => 2,
            DataType::Half => 2,
            DataType::SignedFixedPoint32 => 4,
            DataType::Single => 4,
            DataType::Unknown(_) => 0,
        }
    }

    /// Whether the sign-bit fixup applies: to the 8-bit and the 16-bit signed
    /// fixed-point type and to no other.
    pub open spec fn signed(self) -> bool {
        self is SignedFixedPoint8 || self is SignedFixedPoint16
    }

    fn from_raw(v: i16) -> (r: Self)
        ensures
            r == DataType::of(v),
    {
        match v {
            0 => DataType::FixedPoint8,
            1 => DataType::FixedPoint16,
            2 => DataType::SignedFixedPoint32,
            3 => DataType::BFloat,
            4 => DataType::Half,
            5 => DataType::Single,
            8 => DataType::SignedFixedPoint8,
            9 => DataType::SignedFixedPoint16,
            other => DataType::Unknown(other),
        }
    }

    /// Size of one element in bytes.
    ///
    /// `0` for an unrecognised type.
    #[must_use]
    pub fn size_bytes(self) -> (r: usize)
        ensures
            r == self.size(),
    {
        match self {
            DataType::FixedPoint8 | DataType::SignedFixedPoint8 => 1,
            DataType::FixedPoint16
            | DataType::SignedFixedPoint16
            | DataType::BFloat
            | DataType::Half => 2,
            DataType::SignedFixedPoint32 | DataType::Single => 4,
            DataType::Unknown(_) => 0,
        }
    }

    /// Whether the sign-bit fixup applies to this type.
    ///
    /// Only the two explicitly-signed fixed-point types return `true`.
    /// `SignedFixedPoint32` returns `false` despite its name: that is the
    /// vendor behaviour, and any model compiled against it depends on it.
    #[must_use]
    pub fn is_signed(self) -> (r: bool)
        ensures
            r == self.signed(),
    {
        match self {
            DataType::SignedFixedPoint8 | DataType::SignedFixedPoint16 => true,
            _ => false,
        }
    }
}

/// Quantisation constants for a layer.
///
/// Surfaced so a caller that wants to dequantise an output does not have to
/// re-parse the model.
#[derive(Debug, Clone, Copy, PartialEq, Eq)]
pub struct Numerics {
    /// Quantised value that represents real zero.
    pub zero_point: i32,
    /// Scale factor from quantised units to real units, as the bits of an IEEE
    /// single.
    pub dequantization_factor_bits: u32,
}

// ---------------------------------------------------------------------------
// Model: geometry
// ---------------------------------------------------------------------------

/// A layer's name, empty when absent.
pub open spec fn layer_name(t: TableView) -> Seq<u8> {
    match t.bytes(LAYER_NAME as int) {
        Some(b) => b,
        None => Seq::empty(),
    }
}

/// A count or dimension field: negative values count as zero.
pub open spec fn extent(t: TableView, vt_offset: u16, default: i32) -> int {
    let v = t.i32_or(vt_offset as int, default);
    if v < 0 {
        0
    } else {
        v as int
    }
}

/// The number of columns.
pub open spec fn x_of(t: TableView) -> int {
    extent(t, LAYER_X_DIM, 0)
}

/// The number of rows.
pub open spec fn y_of(t: TableView) -> int {
    extent(t, LAYER_Y_DIM, 0)
}

/// The number of elements at one coordinate.
pub open spec fn z_of(t: TableView) -> int {
    extent(t, LAYER_Z_DIM, 0)
}

/// How often the layer runs in one inference.
pub open spec fn executions_of(t: TableView) -> int {
    extent(t, LAYER_EXECUTION_COUNT_PER_INFERENCE, 1)
}

/// The element type.
pub open spec fn type_of(t: TableView) -> DataType {
    DataType::of(t.i16_or(LAYER_DATA_TYPE as int, 0))
}

/// Size of the flat tensor.
pub open spec fn actual_size(t: TableView) -> int {
    bytes::sat(x_of(t) * y_of(t) * z_of(t) * type_of(t).size() * executions_of(t))
}

/// Size of what the device sends.
pub open spec fn padded_size(t: TableView) -> int {
    bytes::sat(extent(t, LAYER_SIZE_BYTES, 0) * executions_of(t))
}

// ---------------------------------------------------------------------------
// Model: the sign-bit fixup
// ---------------------------------------------------------------------------

/// Byte `j` is the last byte of one of the first `elements` elements of `size`
/// bytes each.
pub open spec fn holds_sign(j: int, size: int, elements: int) -> bool {
    size > 0 && j % size == size - 1 && j / size < elements
}

/// `b` with the top bit of each of its first `elements` elements flipped.
pub open spec fn signs_flipped(b: Seq<u8>, size: int, elements: int) -> Seq<u8> {
    Seq::new(
        b.len(),
        |j: int|
            if holds_sign(j, size, elements) {
                b[j] ^ 128
            } else {
                b[j]
            },
    )
}

/// Law: the fixup undoes itself, so the same step serves both directions.
pub proof fn law_fixup_is_an_involution(b: Seq<u8>, size: int, elements: int)
    ensures
        signs_flipped(signs_flipped(b, size, elements), size, elements) == b,
{
    assert forall|v: u8| #[trigger] (v ^ 128) ^ 128 == v by {
        assert((v ^ 128) ^ 128 == v) by (bit_vector);
    }
    assert(signs_flipped(signs_flipped(b, size, elements), size, elements) =~= b);
}

// ---------------------------------------------------------------------------
// The layer
// ---------------------------------------------------------------------------

/// One input or output layer.
#[derive(Clone, Copy, Debug)]
pub struct Layer<'a> {
    table: Table<'a>,
}

impl<'a> View for Layer<'a> {
    type V = TableView;

    closed spec fn view(&self) -> TableView {
        self.table@
    }
}

impl<'a> Layer<'a> {
    /// The layer that a `Layer` table holds.
    pub(crate) fn new(table: Table<'a>) -> (r: Self)
        ensures
            r@ == table@,
    {
        Layer { table }
    }

    /// The layer's table.
    pub(crate) fn table(&self) -> (r: Table<'a>)
        ensures
            r@ == self@,
    {
        self.table
    }

    fn extent_field(&self, vt_offset: u16, default: i32) -> (r: usize)
        ensures
            r == extent(self@, vt_offset, default),
    {
        let v: i32 = self.table.i32(vt_offset, default);
        if v < 0 {
            0
        } else {
            v as usize
        }
    }

    /// `name`, as raw bytes. Empty when the field is absent.
    #[must_use]
    pub fn name(&self) -> (r: &'a [u8])
        ensures
            r@ == layer_name(self@),
    {
        bytes::slice_or_empty(self.table.str_bytes(LAYER_NAME))
    }

    /// `size_bytes`: the *padded* size of one execution's worth of data, which
    /// is how much scratch space the output staging buffer needs.
    #[must_use]
    pub fn size_bytes(&self) -> (r: usize)
        ensures
            r == extent(self@, LAYER_SIZE_BYTES, 0),
    {
        self.extent_field(LAYER_SIZE_BYTES, 0)
    }

    /// `x_dim`.
    #[must_use]
    pub fn x_dim(&self) -> (r: usize)
        ensures
            r == x_of(self@),
    {
        self.extent_field(LAYER_X_DIM, 0)
    }

    /// `y_dim`.
    #[must_use]
    pub fn y_dim(&self) -> (r: usize)
        ensures
            r == y_of(self@),
    {
        self.extent_field(LAYER_Y_DIM, 0)
    }

    /// `z_dim`.
    #[must_use]
    pub fn z_dim(&self) -> (r: usize)
        ensures
            r == z_of(self@),
    {
        self.extent_field(LAYER_Z_DIM, 0)
    }

    /// `data_type`.
    #[must_use]
    pub fn data_type(&self) -> (r: DataType)
        ensures
            r == type_of(self@),
    {
        DataType::from_raw(self.table.i16(LAYER_DATA_TYPE, 0))
    }

    /// `execution_count_per_inference`, whose schema default is `1`.
    #[must_use]
    pub fn execution_count_per_inference(&self) -> (r: usize)
        ensures
            r == executions_of(self@),
    {
        self.extent_field(LAYER_EXECUTION_COUNT_PER_INFERENCE, 1)
    }

    /// `numerics`, the quantisation constants, when present.
    #[must_use]
    pub fn numerics(&self) -> (r: Option<Numerics>)
        ensures
            r == match self@.table(LAYER_NUMERICS as int) {
                Some(t) => Some(
                    Numerics {
                        zero_point: t.i32_or(NUMERICS_ZERO_POINT as int, 0),
                        dequantization_factor_bits: t.u32_or(
                            NUMERICS_DEQUANTIZATION_FACTOR as int,
                            0,
                        ),
                    },
                ),
                None => None,
            },
    {
        let t = self.table.table(LAYER_NUMERICS)?;
        Some(
            Numerics {
                zero_point: t.i32(NUMERICS_ZERO_POINT, 0),
                dequantization_factor_bits: t.float_bits(NUMERICS_DEQUANTIZATION_FACTOR, 0),
            },
        )
    }

    /// Unpadded size of the whole layer, in bytes.
    #[must_use]
    pub fn actual_size_bytes(&self) -> (r: usize)
        ensures
            r == actual_size(self@),
    {
        let x: usize = self.x_dim();
        let y: usize = self.y_dim();
        let z: usize = self.z_dim();
        let size: usize = self.data_type().size_bytes();
        let executions: usize = self.execution_count_per_inference();
        proof {
            let (a, b, c) = (x as nat * y as nat, z as nat, size as nat);
            assert(a * b >= 0 && a * b * c >= 0);
            bytes::lemma_sat_mul_chain(a, b);
            bytes::lemma_sat_mul_chain(a * b, c);
            bytes::lemma_sat_mul_chain(a * b * c, executions as nat);
        }
        bytes::sat_mul(
            bytes::sat_mul(bytes::sat_mul(bytes::sat_mul(x, y), z), size),
            executions,
        )
    }

    /// Padded size of the whole layer, in bytes: what the device actually
    /// sends, and the minimum size of the staging buffer.
    #[must_use]
    pub fn padded_size_bytes(&self) -> (r: usize)
        ensures
            r == padded_size(self@),
    {
        bytes::sat_mul(self.size_bytes(), self.execution_count_per_inference())
    }

    /// Flips the MSB of every element of `buffer`, in place.
    ///
    /// The device represents signed fixed-point values with the sign bit
    /// inverted, so the same XOR converts in both directions: apply it to input
    /// tensors before sending and to output tensors after relayout.
    ///
    /// Elements are `data_type_size` bytes little-endian, so the MSB is the
    /// last byte of each. Exactly `x_dim * y_dim * z_dim` elements are
    /// transformed, one execution's worth, even when
    /// `execution_count_per_inference > 1`.
    pub fn transform_signed_data_type_raw(
        buffer: &mut [u8],
        data_type_size: usize,
        x_dim: usize,
        y_dim: usize,
        z_dim: usize,
    )
        ensures
            final(buffer)@ == signs_flipped(
                old(buffer)@,
                data_type_size as int,
                x_dim * y_dim * z_dim,
            ),
            final(buffer)@.len() == old(buffer)@.len(),
            forall|j: int|
                0 <= j < old(buffer)@.len() ==> #[trigger] final(buffer)@[j] == if data_type_size
                    > 0 && j % (data_type_size as int) == data_type_size - 1 && j / (
                data_type_size as int) < x_dim * y_dim * z_dim {
                    crate::inference::flipped(old(buffer)@[j])
                } else {
                    old(buffer)@[j] as int
                },
    {
        let ghost b = buffer@;
        let ghost n = x_dim * y_dim * z_dim;
        if data_type_size == 0 {
            assert(buffer@ =~= signs_flipped(b, 0, n));
            proof {
                lemma_flips(b, 0, n);
            }
            return;
        }
        let elements: usize = bytes::sat_mul(bytes::sat_mul(x_dim, y_dim), z_dim);
        let len: usize = buffer.len();
        let ghost d = data_type_size as int;
        proof {
            bytes::lemma_sat_mul_chain(x_dim as nat * y_dim as nat, z_dim as nat);
        }
        assert(elements == bytes::sat(n));
        let mut index: usize = 0;
        let mut k: usize = 0;
        while k < elements
            invariant
                d == data_type_size,
                d > 0,
                k <= elements,
                index == k * d,
                index <= len,
                len == b.len(),
                buffer@.len() == len,
                b == old(buffer)@,
                elements == bytes::sat(n),
                n == x_dim * y_dim * z_dim,
                forall|j: int|
                    0 <= j < len ==> #[trigger] buffer@[j] == signs_flipped(b, d, k as int)[j],
            decreases elements - k,
        {
            if data_type_size > len - index {
                proof {
                    assert forall|j: int| 0 <= j < len implies #[trigger] buffer@[j]
                        == signs_flipped(b, d, n)[j] by {
                        lemma_last_byte(j, d, k as int);
                    }
                    assert(buffer@ =~= signs_flipped(b, d, n));
                    lemma_flips(b, d, n);
                }
                return;
            }
            let msb: usize = index + (data_type_size - 1);
            let v: u8 = buffer[msb];
            let ghost before = buffer@;
            proof {
                lemma_last_byte(msb as int, d, k as int);
            }
            buffer[msb] = v ^ 128;
            proof {
                assert forall|j: int| 0 <= j < len implies #[trigger] buffer@[j] == signs_flipped(
                    b,
                    d,
                    k + 1,
                )[j] by {
                    lemma_last_byte(j, d, k as int);
                    assert(before[j] == signs_flipped(b, d, k as int)[j]);
                }
                assert((k + 1) * d == k * d + d) by (nonlinear_arith);
            }
            index = index + data_type_size;
            k = k + 1;
        }
        proof {
            assert forall|j: int| 0 <= j < len implies #[trigger] buffer@[j] == signs_flipped(
                b,
                d,
                n,
            )[j] by {
                vstd::arithmetic::div_mod::lemma_div_is_ordered_by_denominator(j, 1, d);
                vstd::arithmetic::div_mod::lemma_div_basics(j);
            }
            assert(buffer@ =~= signs_flipped(b, d, n));
            lemma_flips(b, d, n);
        }
    }

    /// Applies [`Self::transform_signed_data_type_raw`] if this layer's type is
    /// signed and `buffer` is large enough.
    ///
    /// Silently does nothing when `buffer` is shorter than
    /// [`Self::actual_size_bytes`].
    pub fn transform_signed_data_type(&self, buffer: &mut [u8])
        ensures
            final(buffer)@ == if type_of(self@).signed() && old(buffer)@.len() >= actual_size(
                self@,
            ) {
                signs_flipped(
                    old(buffer)@,
                    type_of(self@).size(),
                    x_of(self@) * y_of(self@) * z_of(self@),
                )
            } else {
                old(buffer)@
            },
            old(buffer)@.len() < actual_size(self@) ==> final(buffer)@ == old(buffer)@,
            old(buffer)@.len() >= actual_size(self@) ==> crate::inference::sign_fixed(
                self@,
                old(buffer)@,
                final(buffer)@,
            ),
    {
        proof {
            crate::inference::lemma_sign_fixed(self@, buffer@);
        }
        if !self.data_type().is_signed() {
            return;
        }
        if buffer.len() < self.actual_size_bytes() {
            return;
        }
        Self::transform_signed_data_type_raw(
            buffer,
            self.data_type().size_bytes(),
            self.x_dim(),
            self.y_dim(),
            self.z_dim(),
        );
    }
}

/// What the fixup does to each byte.
proof fn lemma_flips(b: Seq<u8>, size: int, elements: int)
    requires
        0 <= size,
    ensures
        forall|j: int|
            0 <= j < b.len() ==> #[trigger] signs_flipped(b, size, elements)[j] == if size > 0 && j
                % size == size - 1 && j / size < elements {
                crate::inference::flipped(b[j])
            } else {
                b[j] as int
            },
{
    assert forall|j: int| 0 <= j < b.len() && size > 0 implies #[trigger] signs_flipped(
        b,
        size,
        elements,
    )[j] == if j % size == size - 1 && j / size < elements {
        crate::inference::flipped(b[j])
    } else {
        b[j] as int
    } by {
        crate::inference::law_fixup_flips_the_top_bit(b, size, elements, j);
    }
}

/// The last byte of element `k` is at `k * d + d - 1`, and no other byte is.
proof fn lemma_last_byte(j: int, d: int, k: int)
    requires
        d > 0,
        0 <= j,
        0 <= k,
    ensures
        j % d == d - 1 && j / d == k <==> j == k * d + d - 1,
        j % d == d - 1 && j < k * d + d - 1 ==> j / d < k,
{
    vstd::arithmetic::div_mod::lemma_fundamental_div_mod(j, d);
    let q = j / d;
    assert(j == d * q + j % d);
    if j == k * d + d - 1 {
        vstd::arithmetic::div_mod::lemma_fundamental_div_mod_converse(j, d, k, d - 1);
    }
    if j % d == d - 1 && q >= k {
        assert(d * q >= k * d) by (nonlinear_arith)
            requires
                q >= k,
                d > 0,
        ;
    }
    if q == k {
        assert(d * q == k * d) by (nonlinear_arith)
            requires
                q == k,
        ;
    }
}

} // verus!
