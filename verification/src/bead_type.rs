use crate::endian::{
    le_bytes, le_value, lemma_le_bytes_len, lemma_le_roundtrip, lemma_pow256_step,
    lemma_pow256_values, lemma_signed_roundtrip, pow256, push_le, to_signed, to_unsigned,
};
use crate::vlq::{
    lemma_vlq_len_u128, lemma_vlq_roundtrip, push_vlq, unzigzag, vlq_bytes, vlq_parse, zigzag,
};
use vstd::arithmetic::power2::{
    lemma2_to64, lemma2_to64_rest, lemma_pow2_adds, lemma_pow2_pos, lemma_pow2_strictly_increases,
    lemma_pow2_unfold, pow2,
};
use vstd::prelude::*;

verus! {

/// The twenty scalar encodings, in declaration order.
#[derive(Clone, Copy, Debug, PartialEq, Eq, Hash, Structural)]
pub enum BeadType {
    NoneFlag,
    TrueFlag,
    FalseFlag,
    U8,
    U16,
    U32,
    U64,
    U128,
    I8,
    I16,
    I32,
    I64,
    I128,
    F16,
    F32,
    F64,
    Vlq,
    VlqZ,
    Utf8,
    Bytes,
}

/// The size reported for an encoding of variable length.
pub const VARIABLE_SIZE: u8 = 255;

/// The catalog in declaration order: the order of tags within a set.
pub open spec fn declaration_order() -> Seq<BeadType> {
    seq![
        BeadType::NoneFlag,
        BeadType::TrueFlag,
        BeadType::FalseFlag,
        BeadType::U8,
        BeadType::U16,
        BeadType::U32,
        BeadType::U64,
        BeadType::U128,
        BeadType::I8,
        BeadType::I16,
        BeadType::I32,
        BeadType::I64,
        BeadType::I128,
        BeadType::F16,
        BeadType::F32,
        BeadType::F64,
        BeadType::Vlq,
        BeadType::VlqZ,
        BeadType::Utf8,
        BeadType::Bytes,
    ]
}

/// The order in which encodings are tried for an unsigned integer.
pub open spec fn uint_priority() -> Seq<BeadType> {
    seq![
        BeadType::U8,
        BeadType::I8,
        BeadType::Vlq,
        BeadType::VlqZ,
        BeadType::U16,
        BeadType::I16,
        BeadType::F16,
        BeadType::U32,
        BeadType::I32,
        BeadType::F32,
        BeadType::U64,
        BeadType::I64,
        BeadType::F64,
        BeadType::U128,
        BeadType::I128,
    ]
}

/// The order in which encodings are tried for a signed integer.
pub open spec fn int_priority() -> Seq<BeadType> {
    seq![
        BeadType::I8,
        BeadType::U8,
        BeadType::VlqZ,
        BeadType::Vlq,
        BeadType::I16,
        BeadType::U16,
        BeadType::F16,
        BeadType::I32,
        BeadType::U32,
        BeadType::F32,
        BeadType::I64,
        BeadType::U64,
        BeadType::F64,
        BeadType::I128,
        BeadType::U128,
    ]
}

/// The order in which encodings are tried for a floating-point value.
pub open spec fn double_priority() -> Seq<BeadType> {
    seq![
        BeadType::U8,
        BeadType::I8,
        BeadType::VlqZ,
        BeadType::Vlq,
        BeadType::F16,
        BeadType::I16,
        BeadType::U16,
        BeadType::F32,
        BeadType::I32,
        BeadType::U32,
        BeadType::F64,
    ]
}

/// The exponent of the largest power of two that is at most `m`, for `m` of at least one.
pub open spec fn floor_log2(m: nat) -> nat
    decreases m,
{
    if m < 2 {
        0
    } else {
        1 + floor_log2(m / 2)
    }
}

/// A binary floating-point format: the number of fraction bits, the
/// exponent bias (which is also the largest exponent of a finite value), and
/// the number of bytes.
#[derive(Clone, Copy, Debug, PartialEq, Eq, Structural)]
pub struct FloatFormat {
    pub fraction_bits: u32,
    pub bias: u32,
    pub width: usize,
}

/// IEEE 754 binary16.
pub open spec fn binary16() -> FloatFormat {
    FloatFormat { fraction_bits: 10, bias: 15, width: 2 }
}

/// IEEE 754 binary32.
pub open spec fn binary32() -> FloatFormat {
    FloatFormat { fraction_bits: 23, bias: 127, width: 4 }
}

/// IEEE 754 binary64.
pub open spec fn binary64() -> FloatFormat {
    FloatFormat { fraction_bits: 52, bias: 1023, width: 8 }
}

impl FloatFormat {
    /// Whether this is one of the three formats of the catalog.
    pub open spec fn known(self) -> bool {
        self == binary16() || self == binary32() || self == binary64()
    }

    /// Whether the format holds the magnitude `m` exactly: its exponent is in
    /// range and no set bit lies below the last bit of the significand.
    pub open spec fn holds(self, m: nat) -> bool {
        m == 0 || (floor_log2(m) <= self.bias && (floor_log2(m) <= self.fraction_bits || m % pow2(
            (floor_log2(m) - self.fraction_bits) as nat,
        ) == 0))
    }

    /// The significand of `m`, its leading bit moved to the place of the hidden bit.
    pub open spec fn significand(self, m: nat) -> nat {
        if floor_log2(m) <= self.fraction_bits {
            m * pow2((self.fraction_bits - floor_log2(m)) as nat)
        } else {
            m / pow2((floor_log2(m) - self.fraction_bits) as nat)
        }
    }

    /// The bit pattern of the integer `v`, which the format holds exactly:
    /// the sign bit, the biased exponent, and the significand, whose leading
    /// bit adds one to the exponent field.
    pub open spec fn bits(self, v: int) -> nat {
        let m = if v < 0 {
            (-v) as nat
        } else {
            v as nat
        };
        let sign = if v < 0 {
            pow2((8 * self.width - 1) as nat)
        } else {
            0
        };
        if m == 0 {
            0
        } else {
            (sign + (floor_log2(m) + self.bias - 1) * pow2(self.fraction_bits as nat)
                + self.significand(m)) as nat
        }
    }

    /// The bit pattern of the integer with magnitude `m`, negative or not,
    /// if the format holds it exactly.
    pub fn encode(&self, negative: bool, m: u128) -> (r: Option<u128>)
        requires
            self.known(),
            negative ==> m > 0,
        ensures
            r is Some <==> self.holds(m as nat),
            r matches Some(b) ==> b == self.bits(
                if negative {
                    -(m as int)
                } else {
                    m as int
                },
            ),
    {
        if m == 0 {
            return Some(0);
        }
        let e: u32 = log2_floor(m);
        if e > self.bias {
            return None;
        }
        let h: u32 = self.fraction_bits;
        let hidden: u128 = pow2_u128(h);
        let sig: u128;
        proof {
            lemma2_to64();
            lemma2_to64_rest();
        }
        if e <= h {
            let p: u128 = pow2_u128(h - e);
            proof {
                lemma_pow2_adds((e + 1) as nat, (h - e) as nat);
                assert(m * p < pow2((e + 1) as nat) * p) by (nonlinear_arith)
                    requires
                        m < pow2((e + 1) as nat),
                        p > 0,
                ;
            }
            sig = m * p;
        } else {
            let p: u128 = pow2_u128(e - h);
            if m % p != 0 {
                return None;
            }
            proof {
                lemma_pow2_adds((h + 1) as nat, (e - h) as nat);
                let bound = pow2((h + 1) as nat);
                assert(m / p < bound) by (nonlinear_arith)
                    requires
                        m < bound * p,
                        p > 0,
                ;
            }
            sig = m / p;
        }
        proof {
            lemma_pow2_unfold((h + 1) as nat);
        }
        let field: u128 = (e + self.bias - 1) as u128;
        assert(field * hidden <= 2046 * hidden) by (nonlinear_arith)
            requires
                field <= 2046,
        ;
        let magnitude: u128 = field * hidden + sig;
        if negative {
            let sign: u128 = pow2_u128((8 * self.width - 1) as u32);
            Some(sign + magnitude)
        } else {
            Some(magnitude)
        }
    }
}

/// Two to the power `k`.
pub fn pow2_u128(k: u32) -> (r: u128)
    requires
        k < 128,
    ensures
        r == pow2(k as nat),
        r > 0,
{
    let mut r: u128 = 1;
    let mut i: u32 = 0;
    proof {
        lemma2_to64();
        lemma_pow2_128();
    }
    while i < k
        invariant
            i <= k < 128,
            r == pow2(i as nat),
            pow2(128) == 0x1_0000_0000_0000_0000_0000_0000_0000_0000,
        decreases k - i,
    {
        proof {
            lemma_pow2_unfold((i + 1) as nat);
            if i + 1 < 128 {
                lemma_pow2_strictly_increases((i + 1) as nat, 128);
            }
        }
        r = r * 2;
        i += 1;
    }
    proof {
        lemma_pow2_pos(k as nat);
    }
    r
}

/// The value of two to the 128.
pub proof fn lemma_pow2_128()
    ensures
        pow2(128) == 0x1_0000_0000_0000_0000_0000_0000_0000_0000,
{
    lemma2_to64();
    lemma_pow2_adds(64, 64);
}

/// A positive number lies between the power of two of its logarithm and the next one.
pub proof fn lemma_floor_log2_bounds(m: nat)
    requires
        m >= 1,
    ensures
        pow2(floor_log2(m)) <= m < pow2(floor_log2(m) + 1),
    decreases m,
{
    lemma2_to64();
    if m >= 2 {
        lemma_floor_log2_bounds(m / 2);
        lemma_pow2_unfold(floor_log2(m));
        lemma_pow2_unfold(floor_log2(m) + 1);
    }
}

/// The logarithm of a 128-bit number is below 128.
pub proof fn lemma_floor_log2_u128(m: nat)
    requires
        1 <= m <= u128::MAX,
    ensures
        floor_log2(m) < 128,
{
    lemma_floor_log2_bounds(m);
    lemma_pow2_128();
    if floor_log2(m) > 128 {
        lemma_pow2_strictly_increases(128, floor_log2(m));
    }
}

/// The exponent of the largest power of two that is at most `m`.
pub fn log2_floor(m: u128) -> (e: u32)
    requires
        m >= 1,
    ensures
        e == floor_log2(m as nat),
        e < 128,
        pow2(e as nat) <= m < pow2((e + 1) as nat),
{
    let mut rest: u128 = m;
    let mut e: u32 = 0;
    proof {
        lemma_floor_log2_u128(m as nat);
        lemma_floor_log2_bounds(m as nat);
    }
    while rest >= 2
        invariant
            rest >= 1,
            e + floor_log2(rest as nat) == floor_log2(m as nat),
            floor_log2(m as nat) < 128,
        decreases rest,
    {
        rest = rest / 2;
        e += 1;
    }
    e
}

impl BeadType {
    /// The place of the type in the catalog, which is its bit in a type-set mask.
    pub open spec fn position(self) -> nat {
        match self {
            BeadType::NoneFlag => 0,
            BeadType::TrueFlag => 1,
            BeadType::FalseFlag => 2,
            BeadType::U8 => 3,
            BeadType::U16 => 4,
            BeadType::U32 => 5,
            BeadType::U64 => 6,
            BeadType::U128 => 7,
            BeadType::I8 => 8,
            BeadType::I16 => 9,
            BeadType::I32 => 10,
            BeadType::I64 => 11,
            BeadType::I128 => 12,
            BeadType::F16 => 13,
            BeadType::F32 => 14,
            BeadType::F64 => 15,
            BeadType::Vlq => 16,
            BeadType::VlqZ => 17,
            BeadType::Utf8 => 18,
            BeadType::Bytes => 19,
        }
    }

    /// The mask with only the type's bit set.
    pub open spec fn spec_mask(self) -> u32 {
        1u32 << (self.position() as u32)
    }

    /// The number of payload bytes of a fixed-width type or marker; `None`
    /// for the types of variable length.
    pub open spec fn fixed_size(self) -> Option<nat> {
        match self {
            BeadType::NoneFlag | BeadType::TrueFlag | BeadType::FalseFlag => Some(0nat),
            BeadType::U8 | BeadType::I8 => Some(1nat),
            BeadType::U16 | BeadType::I16 | BeadType::F16 => Some(2nat),
            BeadType::U32 | BeadType::I32 | BeadType::F32 => Some(4nat),
            BeadType::U64 | BeadType::I64 | BeadType::F64 => Some(8nat),
            BeadType::U128 | BeadType::I128 => Some(16nat),
            BeadType::Vlq | BeadType::VlqZ | BeadType::Utf8 | BeadType::Bytes => None,
        }
    }

    /// The size that `data_size` reports.
    pub open spec fn data_size_spec(self) -> u8 {
        match self.fixed_size() {
            Some(n) => n as u8,
            None => VARIABLE_SIZE,
        }
    }

    /// Whether the type is a marker: it has a tag and no payload.
    pub open spec fn is_marker(self) -> bool {
        self == BeadType::NoneFlag || self == BeadType::TrueFlag || self == BeadType::FalseFlag
    }

    /// Whether the type is a blob: a length followed by that many bytes.
    pub open spec fn is_blob(self) -> bool {
        self == BeadType::Utf8 || self == BeadType::Bytes
    }

    /// Whether the type holds unsigned integers.
    pub open spec fn is_unsigned(self) -> bool {
        self == BeadType::U8 || self == BeadType::U16 || self == BeadType::U32 || self
            == BeadType::U64 || self == BeadType::U128 || self == BeadType::Vlq
    }

    /// Whether the type holds signed integers.
    pub open spec fn is_signed(self) -> bool {
        self == BeadType::I8 || self == BeadType::I16 || self == BeadType::I32 || self
            == BeadType::I64 || self == BeadType::I128 || self == BeadType::VlqZ
    }

    /// Whether the type holds floating-point values.
    pub open spec fn is_floating(self) -> bool {
        self == BeadType::F16 || self == BeadType::F32 || self == BeadType::F64
    }

    /// The format of a floating-point type.
    pub open spec fn float_format(self) -> FloatFormat {
        match self {
            BeadType::F16 => binary16(),
            BeadType::F32 => binary32(),
            _ => binary64(),
        }
    }

    /// The fit test for an integer: the exact range of an integer type, and
    /// for a floating-point type the integers that it holds exactly.
    pub open spec fn fits_integer(self, v: int) -> bool {
        match self {
            BeadType::U8 => 0 <= v < 0x100,
            BeadType::U16 => 0 <= v < 0x1_0000,
            BeadType::U32 => 0 <= v < 0x1_0000_0000,
            BeadType::U64 => 0 <= v < 0x1_0000_0000_0000_0000,
            BeadType::U128 | BeadType::Vlq => 0 <= v <= u128::MAX,
            BeadType::I8 => -0x80 <= v < 0x80,
            BeadType::I16 => -0x8000 <= v < 0x8000,
            BeadType::I32 => -0x8000_0000 <= v < 0x8000_0000,
            BeadType::I64 => -0x8000_0000_0000_0000 <= v < 0x8000_0000_0000_0000,
            BeadType::I128 | BeadType::VlqZ => i128::MIN <= v <= i128::MAX,
            BeadType::F16 | BeadType::F32 | BeadType::F64 => i128::MIN <= v <= u128::MAX
                && self.float_format().holds(
                if v < 0 {
                    (-v) as nat
                } else {
                    v as nat
                },
            ),
            _ => false,
        }
    }

    /// The payload of the integer `v` in this encoding.
    pub open spec fn integer_payload(self, v: int) -> Seq<u8> {
        match self {
            BeadType::U8 | BeadType::U16 | BeadType::U32 | BeadType::U64 | BeadType::U128 => le_bytes(
                v as nat,
                self.fixed_size().unwrap(),
            ),
            BeadType::I8 | BeadType::I16 | BeadType::I32 | BeadType::I64 | BeadType::I128 => le_bytes(
                to_unsigned(v, self.fixed_size().unwrap()),
                self.fixed_size().unwrap(),
            ),
            BeadType::Vlq => vlq_bytes(v as nat),
            BeadType::VlqZ => vlq_bytes(zigzag(v)),
            BeadType::F16 | BeadType::F32 | BeadType::F64 => le_bytes(
                self.float_format().bits(v),
                self.fixed_size().unwrap(),
            ),
            _ => Seq::empty(),
        }
    }

    /// The integer that the payload `data` of an integer type stands for.
    pub open spec fn integer_value(self, data: Seq<u8>) -> int {
        match self {
            BeadType::U8 | BeadType::U16 | BeadType::U32 | BeadType::U64 | BeadType::U128 => le_value(
                data,
            ) as int,
            BeadType::I8 | BeadType::I16 | BeadType::I32 | BeadType::I64 | BeadType::I128 => to_signed(
                le_value(data),
                data.len(),
            ),
            BeadType::Vlq => match vlq_parse(data) {
                Some((n, v)) => v as int,
                None => 0,
            },
            BeadType::VlqZ => match vlq_parse(data) {
                Some((n, v)) => unzigzag(v),
                None => 0,
            },
            _ => 0,
        }
    }

    /// The catalog in declaration order.
    pub fn cases_by_priority() -> (r: Vec<BeadType>)
        ensures
            r@ == declaration_order(),
    {
        let r = vec![
            BeadType::NoneFlag,
            BeadType::TrueFlag,
            BeadType::FalseFlag,
            BeadType::U8,
            BeadType::U16,
            BeadType::U32,
            BeadType::U64,
            BeadType::U128,
            BeadType::I8,
            BeadType::I16,
            BeadType::I32,
            BeadType::I64,
            BeadType::I128,
            BeadType::F16,
            BeadType::F32,
            BeadType::F64,
            BeadType::Vlq,
            BeadType::VlqZ,
            BeadType::Utf8,
            BeadType::Bytes,
        ];
        assert(r@ =~= declaration_order());
        r
    }

    /// The encodings tried for an unsigned integer, first choice first.
    pub fn cases_for_uint() -> (r: Vec<BeadType>)
        ensures
            r@ == uint_priority(),
    {
        let r = vec![
            BeadType::U8,
            BeadType::I8,
            BeadType::Vlq,
            BeadType::VlqZ,
            BeadType::U16,
            BeadType::I16,
            BeadType::F16,
            BeadType::U32,
            BeadType::I32,
            BeadType::F32,
            BeadType::U64,
            BeadType::I64,
            BeadType::F64,
            BeadType::U128,
            BeadType::I128,
        ];
        assert(r@ =~= uint_priority());
        r
    }

    /// The encodings tried for a signed integer, first choice first.
    pub fn cases_for_int() -> (r: Vec<BeadType>)
        ensures
            r@ == int_priority(),
    {
        let r = vec![
            BeadType::I8,
            BeadType::U8,
            BeadType::VlqZ,
            BeadType::Vlq,
            BeadType::I16,
            BeadType::U16,
            BeadType::F16,
            BeadType::I32,
            BeadType::U32,
            BeadType::F32,
            BeadType::I64,
            BeadType::U64,
            BeadType::F64,
            BeadType::I128,
            BeadType::U128,
        ];
        assert(r@ =~= int_priority());
        r
    }

    /// The encodings tried for a floating-point value, first choice first.
    pub fn cases_for_double() -> (r: Vec<BeadType>)
        ensures
            r@ == double_priority(),
    {
        let r = vec![
            BeadType::U8,
            BeadType::I8,
            BeadType::VlqZ,
            BeadType::Vlq,
            BeadType::F16,
            BeadType::I16,
            BeadType::U16,
            BeadType::F32,
            BeadType::I32,
            BeadType::U32,
            BeadType::F64,
        ];
        assert(r@ =~= double_priority());
        r
    }

    /// The place of the type in the catalog.
    pub fn bit_position(&self) -> (r: u32)
        ensures
            r == self.position(),
            r < 20,
    {
        match self {
            BeadType::NoneFlag => 0,
            BeadType::TrueFlag => 1,
            BeadType::FalseFlag => 2,
            BeadType::U8 => 3,
            BeadType::U16 => 4,
            BeadType::U32 => 5,
            BeadType::U64 => 6,
            BeadType::U128 => 7,
            BeadType::I8 => 8,
            BeadType::I16 => 9,
            BeadType::I32 => 10,
            BeadType::I64 => 11,
            BeadType::I128 => 12,
            BeadType::F16 => 13,
            BeadType::F32 => 14,
            BeadType::F64 => 15,
            BeadType::Vlq => 16,
            BeadType::VlqZ => 17,
            BeadType::Utf8 => 18,
            BeadType::Bytes => 19,
        }
    }

    /// The mask with only the type's bit set.
    pub fn mask(&self) -> (r: u32)
        ensures
            r == self.spec_mask(),
    {
        1u32 << self.bit_position()
    }

    /// Whether the type is a marker.
    pub fn has_no_data(&self) -> (r: bool)
        ensures
            r == self.is_marker(),
    {
        match self {
            BeadType::NoneFlag | BeadType::TrueFlag | BeadType::FalseFlag => true,
            _ => false,
        }
    }

    /// The number of payload bytes, or `VARIABLE_SIZE` for a type of variable length.
    pub fn data_size(&self) -> (r: u8)
        ensures
            r == self.data_size_spec(),
            match self.fixed_size() {
                Some(n) => r == n,
                None => r == VARIABLE_SIZE,
            },
    {
        match self {
            BeadType::NoneFlag | BeadType::TrueFlag | BeadType::FalseFlag => 0,
            BeadType::U8 | BeadType::I8 => 1,
            BeadType::U16 | BeadType::I16 | BeadType::F16 => 2,
            BeadType::U32 | BeadType::I32 | BeadType::F32 => 4,
            BeadType::U64 | BeadType::I64 | BeadType::F64 => 8,
            BeadType::U128 | BeadType::I128 => 16,
            _ => VARIABLE_SIZE,
        }
    }
}

impl BeadType {
    /// The format of a floating-point type.
    pub fn format(&self) -> (r: FloatFormat)
        requires
            self.is_floating(),
        ensures
            r == self.float_format(),
            r.known(),
    {
        match self {
            BeadType::F16 => FloatFormat { fraction_bits: 10, bias: 15, width: 2 },
            BeadType::F32 => FloatFormat { fraction_bits: 23, bias: 127, width: 4 },
            _ => FloatFormat { fraction_bits: 52, bias: 1023, width: 8 },
        }
    }

    /// Appends the integer of magnitude `magnitude`, negative or not, to
    /// `buffer` in this encoding if it fits, and says whether it did and how
    /// many bytes were written.
    pub(crate) fn push_integer(&self, negative: bool, magnitude: u128, buffer: &mut Vec<u8>) -> (r: (
        bool,
        usize,
    ))
        requires
            negative ==> 0 < magnitude <= 0x8000_0000_0000_0000_0000_0000_0000_0000,
        ensures
            ({
                let v = if negative {
                    -(magnitude as int)
                } else {
                    magnitude as int
                };
                &&& r.0 == self.fits_integer(v)
                &&& r.0 ==> final(buffer)@ == old(buffer)@ + self.integer_payload(v) && r.1
                    == self.integer_payload(v).len()
                &&& !r.0 ==> final(buffer)@ == old(buffer)@ && r.1 == 0
            }),
    {
        let ghost v = if negative {
            -(magnitude as int)
        } else {
            magnitude as int
        };
        proof {
            lemma_pow256_values();
            lemma_vlq_len_u128(magnitude as nat);
        }
        match self {
            BeadType::U8 | BeadType::U16 | BeadType::U32 | BeadType::U64 | BeadType::U128 => {
                let width: usize = self.data_size() as usize;
                let fits: bool = !negative && (width == 16 || magnitude < pow256_u128(width));
                if fits {
                    push_le(buffer, magnitude, width);
                    proof {
                        lemma_le_bytes_len(magnitude as nat, width as nat);
                    }
                    (true, width)
                } else {
                    (false, 0)
                }
            },
            BeadType::I8 | BeadType::I16 | BeadType::I32 | BeadType::I64 | BeadType::I128 => {
                let width: usize = self.data_size() as usize;
                let half: u128 = if width == 16 {
                    0x8000_0000_0000_0000_0000_0000_0000_0000
                } else {
                    pow256_u128(width) / 2
                };
                if negative {
                    if magnitude <= half {
                        let unsigned: u128 = if width == 16 {
                            (u128::MAX - magnitude) + 1
                        } else {
                            pow256_u128(width) - magnitude
                        };
                        push_le(buffer, unsigned, width);
                        proof {
                            lemma_le_bytes_len(unsigned as nat, width as nat);
                        }
                        (true, width)
                    } else {
                        (false, 0)
                    }
                } else if magnitude < half {
                    push_le(buffer, magnitude, width);
                    proof {
                        lemma_le_bytes_len(magnitude as nat, width as nat);
                    }
                    (true, width)
                } else {
                    (false, 0)
                }
            },
            BeadType::Vlq => {
                if negative {
                    (false, 0)
                } else {
                    let before: usize = buffer.len();
                    push_vlq(buffer, magnitude);
                    (true, buffer.len() - before)
                }
            },
            BeadType::VlqZ => {
                if negative {
                    let image: u128 = 2 * (magnitude - 1) + 1;
                    let before: usize = buffer.len();
                    push_vlq(buffer, image);
                    (true, buffer.len() - before)
                } else if magnitude < 0x8000_0000_0000_0000_0000_0000_0000_0000 {
                    let before: usize = buffer.len();
                    push_vlq(buffer, 2 * magnitude);
                    (true, buffer.len() - before)
                } else {
                    (false, 0)
                }
            },
            BeadType::F16 | BeadType::F32 | BeadType::F64 => {
                let format = self.format();
                match format.encode(negative, magnitude) {
                    Some(bits) => {
                        push_le(buffer, bits, format.width);
                        proof {
                            lemma_le_bytes_len(bits as nat, format.width as nat);
                        }
                        (true, format.width)
                    },
                    None => (false, 0),
                }
            },
            _ => (false, 0),
        }
    }

    /// Appends the unsigned `value` to `buffer` in this encoding if it fits.
    pub fn push_uint(&self, value: u128, buffer: &mut Vec<u8>) -> (r: (bool, usize))
        ensures
            r.0 == self.fits_integer(value as int),
            r.0 ==> final(buffer)@ == old(buffer)@ + self.integer_payload(value as int) && r.1
                == self.integer_payload(value as int).len(),
            !r.0 ==> final(buffer)@ == old(buffer)@ && r.1 == 0,
    {
        self.push_integer(false, value, buffer)
    }

    /// Appends the signed `value` to `buffer` in this encoding if it fits.
    pub fn push_int(&self, value: i128, buffer: &mut Vec<u8>) -> (r: (bool, usize))
        ensures
            r.0 == self.fits_integer(value as int),
            r.0 ==> final(buffer)@ == old(buffer)@ + self.integer_payload(value as int) && r.1
                == self.integer_payload(value as int).len(),
            !r.0 ==> final(buffer)@ == old(buffer)@ && r.1 == 0,
    {
        if value < 0 {
            let magnitude: u128 = ((-(value + 1)) as u128) + 1;
            self.push_integer(true, magnitude, buffer)
        } else {
            self.push_integer(false, value as u128, buffer)
        }
    }
}

/// 256 to the power `n`, for fewer than sixteen bytes.
pub fn pow256_u128(n: usize) -> (r: u128)
    requires
        n < 16,
    ensures
        r == pow256(n as nat),
{
    let mut r: u128 = 1;
    let mut i: usize = 0;
    proof {
        lemma_pow256_values();
    }
    while i < n
        invariant
            i <= n < 16,
            r == pow256(i as nat),
            r <= pow256(15),
            pow256(15) == 0x1_0000_0000_0000_0000_0000_0000_0000_00,
        decreases n - i,
    {
        proof {
            lemma_pow256_step(i as nat, 15);
        }
        r = r * 256;
        i += 1;
    }
    r
}

/// A set of bead types, held as the mask of their bits.
#[derive(Clone, Copy, Debug, PartialEq, Eq, Structural)]
pub struct BeadTypeSet {
    pub value: u32,
}

/// The largest number of types that a sequence can carry.
pub const MAX_TYPES: usize = 16;

impl BeadTypeSet {
    /// Whether the set holds the type.
    pub open spec fn has(self, t: BeadType) -> bool {
        self.value & t.spec_mask() != 0
    }

    /// The members among the first `n` types of the catalog, in declaration order.
    pub open spec fn members_upto(self, n: nat) -> Seq<BeadType>
        decreases n,
    {
        if n == 0 {
            Seq::empty()
        } else {
            let rest = self.members_upto((n - 1) as nat);
            let t = declaration_order()[n - 1];
            if self.has(t) {
                rest.push(t)
            } else {
                rest
            }
        }
    }

    /// The members in declaration order: the place of a type in this
    /// sequence is its tag.
    pub open spec fn members(self) -> Seq<BeadType> {
        self.members_upto(20)
    }

    /// Whether a sequence can carry the set: one to sixteen types, all of the catalog.
    pub open spec fn valid(self) -> bool {
        self.value < 0x10_0000 && 1 <= self.members().len() <= MAX_TYPES
    }

    /// The set of the given types.
    pub fn new(types: &[BeadType]) -> (r: BeadTypeSet)
        ensures
            forall|t: BeadType| r.has(t) <==> types@.contains(t),
            r.value < 0x10_0000,
    {
        let mut value: u32 = 0;
        let mut i: usize = 0;
        proof {
            assert forall|t: BeadType| (0u32 & #[trigger] t.spec_mask()) == 0 by {
                lemma_zero_and(t.spec_mask());
            }
        }
        while i < types.len()
            invariant
                i <= types@.len(),
                value < 0x10_0000,
                forall|t: BeadType|
                    (value & #[trigger] t.spec_mask() != 0) <==> types@.take(i as int).contains(t),
            decreases types@.len() - i,
        {
            let t1: BeadType = types[i];
            let m: u32 = t1.mask();
            proof {
                let next = types@.take(i + 1);
                assert(next =~= types@.take(i as int).push(t1));
                lemma_or_bit_bound(value, t1.position() as u32);
                assert forall|t: BeadType|
                    ((value | m) & #[trigger] t.spec_mask() != 0) <==> next.contains(t) by {
                    lemma_or_bit(value, t1.position() as u32, t.position() as u32);
                    if t == t1 {
                        assert(next[i as int] == t);
                    }
                    if types@.take(i as int).contains(t) {
                        let j = choose|j: int|
                            0 <= j < i && types@.take(i as int)[j] == t;
                        assert(next[j] == t);
                    }
                }
            }
            value = value | m;
            i += 1;
        }
        assert(types@.take(i as int) =~= types@);
        BeadTypeSet { value }
    }

    /// Whether the set holds the type.
    pub fn contains(&self, value: &BeadType) -> (r: bool)
        ensures
            r == self.has(*value),
    {
        (self.value & value.mask()) != 0
    }

    /// The members in declaration order.
    pub fn types(&self) -> (r: Vec<BeadType>)
        ensures
            r@ == self.members(),
    {
        let all = BeadType::cases_by_priority();
        let mut r: Vec<BeadType> = Vec::new();
        let mut i: usize = 0;
        while i < all.len()
            invariant
                i <= 20,
                all@ == declaration_order(),
                r@ == self.members_upto(i as nat),
            decreases 20 - i,
        {
            let t: BeadType = all[i];
            if self.contains(&t) {
                r.push(t);
            }
            i += 1;
        }
        r
    }

    /// The number of catalog types in the set.
    pub fn size(&self) -> (r: usize)
        ensures
            r == self.members().len(),
    {
        self.types().len()
    }

    /// Whether a sequence can carry the set.
    pub fn is_valid(&self) -> (r: bool)
        ensures
            r == self.valid(),
    {
        let n: usize = self.size();
        self.value < 0x10_0000 && 1 <= n && n <= MAX_TYPES
    }

    /// The wire form of the set: its mask as four little-endian bytes.
    pub fn bytes(&self) -> (r: [u8; 4])
        ensures
            r@ == le_bytes(self.value as nat, 4),
    {
        let v: u32 = self.value;
        let r: [u8; 4] = [
            (v % 256) as u8,
            ((v / 256) % 256) as u8,
            ((v / 0x1_0000) % 256) as u8,
            ((v / 0x100_0000) % 256) as u8,
        ];
        proof {
            reveal_with_fuel(le_bytes, 5);
            assert(r@ =~= le_bytes(v as nat, 4));
        }
        r
    }
}

impl From<u32> for BeadTypeSet {
    /// The set with the given mask.
    fn from(value: u32) -> (r: Self) {
        BeadTypeSet { value }
    }
}

impl vstd::std_specs::convert::FromSpecImpl<u32> for BeadTypeSet {
    open spec fn obeys_from_spec() -> bool {
        true
    }

    open spec fn from_spec(value: u32) -> Self {
        BeadTypeSet { value }
    }
}

proof fn lemma_zero_and(m: u32)
    ensures
        0u32 & m == 0,
{
    assert(0u32 & m == 0) by (bit_vector);
}

/// Setting bit `p` of a mask sets that bit and changes no other.
pub proof fn lemma_or_bit(v: u32, p: u32, q: u32)
    requires
        p < 32,
        q < 32,
    ensures
        ((v | (1u32 << p)) & (1u32 << q) != 0) == (p == q || (v & (1u32 << q)) != 0),
{
    assert(((v | (1u32 << p)) & (1u32 << q) != 0) == (p == q || (v & (1u32 << q)) != 0))
        by (bit_vector)
        requires
            p < 32,
            q < 32,
    ;
}

/// Setting a bit below the twentieth keeps a mask below two to the twenty.
pub proof fn lemma_or_bit_bound(v: u32, p: u32)
    requires
        p < 20,
        v < 0x10_0000,
    ensures
        (v | (1u32 << p)) < 0x10_0000,
{
    assert((v | (1u32 << p)) < 0x10_0000) by (bit_vector)
        requires
            p < 20,
            v < 0x10_0000,
    ;
}

/// The catalog lists every type once, at its position.
pub proof fn lemma_declaration_order()
    ensures
        declaration_order().len() == 20,
        forall|t: BeadType| #[trigger] t.position() < 20 && declaration_order()[t.position() as int] == t,
        forall|p: int| 0 <= p < 20 ==> (#[trigger] declaration_order()[p]).position() == p,
{
    let order = declaration_order();
    assert(order.len() == 20);
    assert forall|t: BeadType| #[trigger] t.position() < 20 && order[t.position() as int] == t by {
        match t {
            BeadType::NoneFlag => assert(order[0] == t),
            BeadType::TrueFlag => assert(order[1] == t),
            BeadType::FalseFlag => assert(order[2] == t),
            BeadType::U8 => assert(order[3] == t),
            BeadType::U16 => assert(order[4] == t),
            BeadType::U32 => assert(order[5] == t),
            BeadType::U64 => assert(order[6] == t),
            BeadType::U128 => assert(order[7] == t),
            BeadType::I8 => assert(order[8] == t),
            BeadType::I16 => assert(order[9] == t),
            BeadType::I32 => assert(order[10] == t),
            BeadType::I64 => assert(order[11] == t),
            BeadType::I128 => assert(order[12] == t),
            BeadType::F16 => assert(order[13] == t),
            BeadType::F32 => assert(order[14] == t),
            BeadType::F64 => assert(order[15] == t),
            BeadType::Vlq => assert(order[16] == t),
            BeadType::VlqZ => assert(order[17] == t),
            BeadType::Utf8 => assert(order[18] == t),
            BeadType::Bytes => assert(order[19] == t),
        }
    }
    assert forall|p: int| 0 <= p < 20 implies (#[trigger] order[p]).position() == p by {
        assert(order[0].position() == 0);
        assert(order[1].position() == 1);
        assert(order[2].position() == 2);
        assert(order[3].position() == 3);
        assert(order[4].position() == 4);
        assert(order[5].position() == 5);
        assert(order[6].position() == 6);
        assert(order[7].position() == 7);
        assert(order[8].position() == 8);
        assert(order[9].position() == 9);
        assert(order[10].position() == 10);
        assert(order[11].position() == 11);
        assert(order[12].position() == 12);
        assert(order[13].position() == 13);
        assert(order[14].position() == 14);
        assert(order[15].position() == 15);
        assert(order[16].position() == 16);
        assert(order[17].position() == 17);
        assert(order[18].position() == 18);
        assert(order[19].position() == 19);
    }
}

/// The members among the first `n` types are the types of the set with a
/// position below `n`, each once, by rising position.
pub proof fn lemma_members_upto(set: BeadTypeSet, n: nat)
    requires
        n <= 20,
    ensures
        set.members_upto(n).len() <= n,
        forall|i: int|
            0 <= i < set.members_upto(n).len() ==> (#[trigger] set.members_upto(n)[i]).position()
                < n && set.has(set.members_upto(n)[i]),
        forall|i: int, j: int|
            0 <= i < j < set.members_upto(n).len() ==> (#[trigger] set.members_upto(n)[i]).position()
                < (#[trigger] set.members_upto(n)[j]).position(),
        forall|t: BeadType|
            set.has(t) && t.position() < n ==> #[trigger] set.members_upto(n).contains(t),
    decreases n,
{
    if n > 0 {
        lemma_members_upto(set, (n - 1) as nat);
        lemma_declaration_order();
        let rest = set.members_upto((n - 1) as nat);
        let m = set.members_upto(n);
        let last = declaration_order()[n - 1];
        assert(last.position() == n - 1);
        assert forall|t: BeadType| set.has(t) && t.position() < n implies #[trigger] m.contains(
            t,
        ) by {
            if t.position() < n - 1 {
                assert(rest.contains(t));
                let j = choose|j: int| 0 <= j < rest.len() && rest[j] == t;
                assert(m[j] == t);
            } else {
                assert(declaration_order()[t.position() as int] == t);
                assert(t == last);
                assert(m[m.len() - 1] == t);
            }
        }
    }
}

/// The members of a set are its types, each once, by rising position.
pub proof fn lemma_members(set: BeadTypeSet)
    ensures
        set.members().len() <= 20,
        forall|i: int|
            0 <= i < set.members().len() ==> set.has(#[trigger] set.members()[i]),
        forall|i: int, j: int|
            0 <= i < j < set.members().len() ==> (#[trigger] set.members()[i]).position() < (
            #[trigger] set.members()[j]).position(),
        forall|t: BeadType| set.has(t) <==> #[trigger] set.members().contains(t),
{
    lemma_members_upto(set, 20);
    lemma_declaration_order();
    assert forall|t: BeadType| #[trigger] set.members().contains(t) implies set.has(t) by {
        let j = choose|j: int| 0 <= j < set.members().len() && set.members()[j] == t;
        assert(set.has(set.members()[j]));
    }
}

/// An integer that fits an integer type is read back from its payload.
pub proof fn lemma_integer_roundtrip(t: BeadType, v: int)
    requires
        t.is_unsigned() || t.is_signed(),
        t.fits_integer(v),
    ensures
        t.integer_value(t.integer_payload(v)) == v,
{
    lemma_pow256_values();
    match t {
        BeadType::Vlq => {
            lemma_vlq_roundtrip(v as nat, Seq::empty());
            assert(vlq_bytes(v as nat) + Seq::<u8>::empty() =~= vlq_bytes(v as nat));
        },
        BeadType::VlqZ => {
            lemma_vlq_roundtrip(zigzag(v), Seq::empty());
            assert(vlq_bytes(zigzag(v)) + Seq::<u8>::empty() =~= vlq_bytes(zigzag(v)));
        },
        _ => {
            let n = t.fixed_size().unwrap();
            if t.is_unsigned() {
                lemma_le_roundtrip(v as nat, n);
            } else {
                lemma_signed_roundtrip(v, n);
                lemma_le_roundtrip(to_unsigned(v, n), n);
                lemma_le_bytes_len(to_unsigned(v, n), n);
            }
        },
    }
}

/// The set of the one type `Utf8`.
pub fn utf8_set() -> (r: BeadTypeSet)
    ensures
        r.valid(),
        r.members() == seq![BeadType::Utf8],
{
    let kinds: [BeadType; 1] = [BeadType::Utf8];
    let r = BeadTypeSet::new(kinds.as_slice());
    proof {
        lemma_single_member(r, BeadType::Utf8);
    }
    r
}

/// A set with one type has that type as its only member.
pub proof fn lemma_single_member(set: BeadTypeSet, kind: BeadType)
    requires
        forall|t: BeadType| set.has(t) <==> t == kind,
    ensures
        set.members() == seq![kind],
{
    lemma_members(set);
    lemma_declaration_order();
    let m = set.members();
    assert(m.contains(kind));
    assert(m.len() == 1) by {
        if m.len() > 1 {
            assert(set.has(m[0]));
            assert(set.has(m[1]));
            assert(m[0].position() < m[1].position());
        }
    }
    let j = choose|j: int| 0 <= j < m.len() && m[j] == kind;
    assert(m =~= seq![kind]);
}

/// Two masks below two to the twenty with the same bits are the same.
pub proof fn lemma_mask_bits(a: u32, b: u32)
    requires
        a < 0x10_0000,
        b < 0x10_0000,
        forall|p: u32| p < 20 ==> ((a & (1u32 << p)) != 0) == ((b & (1u32 << p)) != 0),
    ensures
        a == b,
{
    assert(((a & (1u32 << 0u32)) != 0) == ((b & (1u32 << 0u32)) != 0));
    assert(((a & (1u32 << 1u32)) != 0) == ((b & (1u32 << 1u32)) != 0));
    assert(((a & (1u32 << 2u32)) != 0) == ((b & (1u32 << 2u32)) != 0));
    assert(((a & (1u32 << 3u32)) != 0) == ((b & (1u32 << 3u32)) != 0));
    assert(((a & (1u32 << 4u32)) != 0) == ((b & (1u32 << 4u32)) != 0));
    assert(((a & (1u32 << 5u32)) != 0) == ((b & (1u32 << 5u32)) != 0));
    assert(((a & (1u32 << 6u32)) != 0) == ((b & (1u32 << 6u32)) != 0));
    assert(((a & (1u32 << 7u32)) != 0) == ((b & (1u32 << 7u32)) != 0));
    assert(((a & (1u32 << 8u32)) != 0) == ((b & (1u32 << 8u32)) != 0));
    assert(((a & (1u32 << 9u32)) != 0) == ((b & (1u32 << 9u32)) != 0));
    assert(((a & (1u32 << 10u32)) != 0) == ((b & (1u32 << 10u32)) != 0));
    assert(((a & (1u32 << 11u32)) != 0) == ((b & (1u32 << 11u32)) != 0));
    assert(((a & (1u32 << 12u32)) != 0) == ((b & (1u32 << 12u32)) != 0));
    assert(((a & (1u32 << 13u32)) != 0) == ((b & (1u32 << 13u32)) != 0));
    assert(((a & (1u32 << 14u32)) != 0) == ((b & (1u32 << 14u32)) != 0));
    assert(((a & (1u32 << 15u32)) != 0) == ((b & (1u32 << 15u32)) != 0));
    assert(((a & (1u32 << 16u32)) != 0) == ((b & (1u32 << 16u32)) != 0));
    assert(((a & (1u32 << 17u32)) != 0) == ((b & (1u32 << 17u32)) != 0));
    assert(((a & (1u32 << 18u32)) != 0) == ((b & (1u32 << 18u32)) != 0));
    assert(((a & (1u32 << 19u32)) != 0) == ((b & (1u32 << 19u32)) != 0));
    assert(a == b) by (bit_vector)
        requires
            a < 0x10_0000,
            b < 0x10_0000,
            ((a & (1u32 << 0u32)) != 0) == ((b & (1u32 << 0u32)) != 0),
            ((a & (1u32 << 1u32)) != 0) == ((b & (1u32 << 1u32)) != 0),
            ((a & (1u32 << 2u32)) != 0) == ((b & (1u32 << 2u32)) != 0),
            ((a & (1u32 << 3u32)) != 0) == ((b & (1u32 << 3u32)) != 0),
            ((a & (1u32 << 4u32)) != 0) == ((b & (1u32 << 4u32)) != 0),
            ((a & (1u32 << 5u32)) != 0) == ((b & (1u32 << 5u32)) != 0),
            ((a & (1u32 << 6u32)) != 0) == ((b & (1u32 << 6u32)) != 0),
            ((a & (1u32 << 7u32)) != 0) == ((b & (1u32 << 7u32)) != 0),
            ((a & (1u32 << 8u32)) != 0) == ((b & (1u32 << 8u32)) != 0),
            ((a & (1u32 << 9u32)) != 0) == ((b & (1u32 << 9u32)) != 0),
            ((a & (1u32 << 10u32)) != 0) == ((b & (1u32 << 10u32)) != 0),
            ((a & (1u32 << 11u32)) != 0) == ((b & (1u32 << 11u32)) != 0),
            ((a & (1u32 << 12u32)) != 0) == ((b & (1u32 << 12u32)) != 0),
            ((a & (1u32 << 13u32)) != 0) == ((b & (1u32 << 13u32)) != 0),
            ((a & (1u32 << 14u32)) != 0) == ((b & (1u32 << 14u32)) != 0),
            ((a & (1u32 << 15u32)) != 0) == ((b & (1u32 << 15u32)) != 0),
            ((a & (1u32 << 16u32)) != 0) == ((b & (1u32 << 16u32)) != 0),
            ((a & (1u32 << 17u32)) != 0) == ((b & (1u32 << 17u32)) != 0),
            ((a & (1u32 << 18u32)) != 0) == ((b & (1u32 << 18u32)) != 0),
            ((a & (1u32 << 19u32)) != 0) == ((b & (1u32 << 19u32)) != 0),
    ;
}

/// A type set does not depend on the order in which its types are given:
/// two sets of catalog types with the same types are the same set, with the
/// same tags, so that a builder chooses the same encoding with either.
pub proof fn lemma_set_of_same_types(a: BeadTypeSet, b: BeadTypeSet)
    requires
        a.value < 0x10_0000,
        b.value < 0x10_0000,
        forall|t: BeadType| a.has(t) == b.has(t),
    ensures
        a == b,
{
    lemma_declaration_order();
    assert forall|p: u32| p < 20 implies ((a.value & (1u32 << p)) != 0) == ((b.value & (1u32
        << p)) != 0) by {
        let t = declaration_order()[p as int];
        assert(t.position() == p);
        assert(a.has(t) == b.has(t));
    }
    lemma_mask_bits(a.value, b.value);
}

} // verus!
