use crate::bead_type::{pow256_u128, BeadType};
use crate::converters::u128_from_slice;
use crate::endian::{lemma_le_value_bound, lemma_pow256_values};
use crate::error::BeadsError;
use crate::layout::Bead;
use crate::vlq::{vlq_read, zigzag_decode};
use vstd::prelude::*;
use vstd::string::StringSliceAdditionalSpecFns;
use vstd::utf8::{encode_utf8, valid_utf8};

verus! {

/// A view of one element of a sequence: its type, its content in the
/// buffer it was read from, and the value of a variable-length integer.
pub struct BeadReference<'a> {
    value: u128,
    buffer: &'a [u8],
    bead_type: BeadType,
}

/// The integer that a bead of an integer type stands for.
pub open spec fn integer_of(bead: Bead) -> Option<int> {
    if bead.kind.is_unsigned() || bead.kind.is_signed() {
        Some(bead.kind.integer_value(bead.data))
    } else {
        None
    }
}

/// `core::str::from_utf8`: the text that `bytes` spell, which they do if
/// and only if they are valid UTF-8.
#[verifier::external_body]
fn str_from_utf8<'a>(bytes: &'a [u8]) -> (r: Option<&'a str>)
    ensures
        r is Some <==> valid_utf8(bytes@),
        r matches Some(s) ==> s.spec_bytes() == bytes@,
{
    core::str::from_utf8(bytes).ok()
}

impl<'a> View for BeadReference<'a> {
    type V = Bead;

    closed spec fn view(&self) -> Bead {
        Bead { kind: self.bead_type, data: self.buffer@ }
    }
}

impl<'a> BeadReference<'a> {
    /// The content has the shape of the type, and the value is that of the
    /// variable-length integer or the length of the blob.
    #[verifier::type_invariant]
    closed spec fn inv(self) -> bool {
        &&& self@.valid()
        &&& self.bead_type.fixed_size() is None ==> if self.bead_type.is_blob() {
            self.value == self.buffer@.len()
        } else {
            vlq_read(self.buffer@) == Ok::<(nat, nat), BeadsError>(
                (self.buffer@.len(), self.value as nat),
            )
        }
    }

    /// A reference to content of the given type.
    pub(crate) fn new(bead_type: BeadType, buffer: &'a [u8], value: u128) -> (r: Self)
        requires
            (Bead { kind: bead_type, data: buffer@ }).valid(),
            bead_type.fixed_size() is None ==> if bead_type.is_blob() {
                value == buffer@.len()
            } else {
                vlq_read(buffer@) == Ok::<(nat, nat), BeadsError>((buffer@.len(), value as nat))
            },
        ensures
            r@ == (Bead { kind: bead_type, data: buffer@ }),
    {
        BeadReference { value, buffer, bead_type }
    }

    /// The type of the element.
    pub fn bead_type(&self) -> (r: BeadType)
        ensures
            r == self@.kind,
    {
        self.bead_type
    }

    pub fn is_none(&self) -> (r: bool)
        ensures
            r == (self@.kind == BeadType::NoneFlag),
    {
        self.bead_type == BeadType::NoneFlag
    }

    pub fn is_true(&self) -> (r: bool)
        ensures
            r == (self@.kind == BeadType::TrueFlag),
    {
        self.bead_type == BeadType::TrueFlag
    }

    pub fn is_false(&self) -> (r: bool)
        ensures
            r == (self@.kind == BeadType::FalseFlag),
    {
        self.bead_type == BeadType::FalseFlag
    }

    pub fn is_bool(&self) -> (r: bool)
        ensures
            r == (self@.kind == BeadType::TrueFlag || self@.kind == BeadType::FalseFlag),
    {
        self.bead_type == BeadType::TrueFlag || self.bead_type == BeadType::FalseFlag
    }

    pub fn is_uint(&self) -> (r: bool)
        ensures
            r == self@.kind.is_unsigned(),
    {
        self.bead_type == BeadType::U8 || self.bead_type == BeadType::U16 || self.bead_type
            == BeadType::U32 || self.bead_type == BeadType::U64 || self.bead_type
            == BeadType::U128 || self.bead_type == BeadType::Vlq
    }

    pub fn is_int(&self) -> (r: bool)
        ensures
            r == self@.kind.is_signed(),
    {
        self.bead_type == BeadType::I8 || self.bead_type == BeadType::I16 || self.bead_type
            == BeadType::I32 || self.bead_type == BeadType::I64 || self.bead_type
            == BeadType::I128 || self.bead_type == BeadType::VlqZ
    }

    pub fn is_float(&self) -> (r: bool)
        ensures
            r == self@.kind.is_floating(),
    {
        self.bead_type == BeadType::F16 || self.bead_type == BeadType::F32 || self.bead_type
            == BeadType::F64
    }

    pub fn is_bytes(&self) -> (r: bool)
        ensures
            r == (self@.kind == BeadType::Bytes),
    {
        self.bead_type == BeadType::Bytes
    }

    pub fn is_string(&self) -> (r: bool)
        ensures
            r == (self@.kind == BeadType::Utf8),
    {
        self.bead_type == BeadType::Utf8
    }

    /// The boolean of a `TrueFlag` or `FalseFlag`.
    pub fn to_bool(&self) -> (r: Result<bool, BeadsError>)
        ensures
            match r {
                Ok(b) => (self@.kind == BeadType::TrueFlag || self@.kind == BeadType::FalseFlag)
                    && b == (self@.kind == BeadType::TrueFlag),
                Err(e) => self@.kind != BeadType::TrueFlag && self@.kind != BeadType::FalseFlag
                    && e == BeadsError::TypeMismatch,
            },
    {
        if self.is_bool() {
            Ok(self.bead_type == BeadType::TrueFlag)
        } else {
            Err(BeadsError::TypeMismatch)
        }
    }

    /// The text of a `Utf8` whose content is valid UTF-8.
    pub fn to_str(&self) -> (r: Result<&'a str, BeadsError>)
        ensures
            match r {
                Ok(s) => self@.kind == BeadType::Utf8 && s.spec_bytes() == self@.data,
                Err(e) => !(self@.kind == BeadType::Utf8 && valid_utf8(self@.data)) && e
                    == BeadsError::TypeMismatch,
            },
    {
        if self.is_string() {
            match str_from_utf8(self.buffer) {
                Some(s) => Ok(s),
                None => Err(BeadsError::TypeMismatch),
            }
        } else {
            Err(BeadsError::TypeMismatch)
        }
    }

    /// The content in the buffer.
    pub fn to_bytes(&self) -> (r: &'a [u8])
        ensures
            r@ == self@.data,
    {
        self.buffer
    }

    /// The integer of an integer type, as it is written.
    fn integer(&self) -> (r: (bool, u128))
        requires
            self@.kind.is_unsigned() || self@.kind.is_signed(),
        ensures
            ({
                let v = self@.kind.integer_value(self@.data);
                if r.0 {
                    v == -(r.1 as int) && 0 < r.1 <= 0x8000_0000_0000_0000_0000_0000_0000_0000
                } else {
                    v == r.1
                }
            }),
    {
        proof {
            use_type_invariant(self);
            lemma_pow256_values();
            lemma_le_value_bound(self.buffer@);
        }
        match self.bead_type {
            BeadType::Vlq => (false, self.value),
            BeadType::VlqZ => {
                let v: i128 = zigzag_decode(self.value);
                if v < 0 {
                    (true, ((-(v + 1)) as u128) + 1)
                } else {
                    (false, v as u128)
                }
            },
            BeadType::U8 | BeadType::U16 | BeadType::U32 | BeadType::U64 | BeadType::U128 => (
                false,
                u128_from_slice(self.buffer),
            ),
            _ => {
                let u: u128 = u128_from_slice(self.buffer);
                let width: usize = self.buffer.len();
                if width == 16 {
                    if u < 0x8000_0000_0000_0000_0000_0000_0000_0000 {
                        (false, u)
                    } else {
                        (true, (u128::MAX - u) + 1)
                    }
                } else {
                    let p: u128 = pow256_u128(width);
                    if u < p / 2 {
                        (false, u)
                    } else {
                        (true, p - u)
                    }
                }
            },
        }
    }

    /// The integer of an integer type, if it is not negative.
    pub fn to_uint(&self) -> (r: Result<u128, BeadsError>)
        ensures
            match r {
                Ok(v) => integer_of(self@) == Some(v as int),
                Err(e) => e == BeadsError::TypeMismatch && match integer_of(self@) {
                    Some(v) => v < 0,
                    None => true,
                },
            },
    {
        if self.is_uint() || self.is_int() {
            let (negative, magnitude) = self.integer();
            if negative {
                Err(BeadsError::TypeMismatch)
            } else {
                Ok(magnitude)
            }
        } else {
            Err(BeadsError::TypeMismatch)
        }
    }

    /// The integer of an integer type, if a signed 128-bit integer holds it.
    pub fn to_int(&self) -> (r: Result<i128, BeadsError>)
        ensures
            match r {
                Ok(v) => integer_of(self@) == Some(v as int),
                Err(e) => e == BeadsError::TypeMismatch && match integer_of(self@) {
                    Some(v) => v > i128::MAX,
                    None => true,
                },
            },
    {
        if self.is_uint() || self.is_int() {
            let (negative, magnitude) = self.integer();
            if negative {
                Ok(-((magnitude - 1) as i128) - 1)
            } else if magnitude <= 0x7fff_ffff_ffff_ffff_ffff_ffff_ffff_ffff {
                Ok(magnitude as i128)
            } else {
                Err(BeadsError::TypeMismatch)
            }
        } else {
            Err(BeadsError::TypeMismatch)
        }
    }
}

impl<'a> TryFrom<BeadReference<'a>> for u8 {
    type Error = BeadsError;

    /// The integer of a bead of an integer type, if this type holds it.
    fn try_from(value: BeadReference<'a>) -> (r: Result<u8, BeadsError>) {
        match value.to_uint() {
            Ok(v) => if v <= u8::MAX as u128 {
                Ok(v as u8)
            } else {
                Err(BeadsError::TypeMismatch)
            },
            Err(e) => Err(e),
        }
    }
}

impl<'a> vstd::std_specs::convert::TryFromSpecImpl<BeadReference<'a>> for u8 {
    open spec fn obeys_try_from_spec() -> bool {
        true
    }

    open spec fn try_from_spec(value: BeadReference<'a>) -> Result<u8, BeadsError> {
        match integer_of(value@) {
            Some(v) => if u8::MIN <= v <= u8::MAX {
                Ok(v as u8)
            } else {
                Err(BeadsError::TypeMismatch)
            },
            None => Err(BeadsError::TypeMismatch),
        }
    }
}

impl<'a> TryFrom<BeadReference<'a>> for u16 {
    type Error = BeadsError;

    /// The integer of a bead of an integer type, if this type holds it.
    fn try_from(value: BeadReference<'a>) -> (r: Result<u16, BeadsError>) {
        match value.to_uint() {
            Ok(v) => if v <= u16::MAX as u128 {
                Ok(v as u16)
            } else {
                Err(BeadsError::TypeMismatch)
            },
            Err(e) => Err(e),
        }
    }
}

impl<'a> vstd::std_specs::convert::TryFromSpecImpl<BeadReference<'a>> for u16 {
    open spec fn obeys_try_from_spec() -> bool {
        true
    }

    open spec fn try_from_spec(value: BeadReference<'a>) -> Result<u16, BeadsError> {
        match integer_of(value@) {
            Some(v) => if u16::MIN <= v <= u16::MAX {
                Ok(v as u16)
            } else {
                Err(BeadsError::TypeMismatch)
            },
            None => Err(BeadsError::TypeMismatch),
        }
    }
}

impl<'a> TryFrom<BeadReference<'a>> for u32 {
    type Error = BeadsError;

    /// The integer of a bead of an integer type, if this type holds it.
    fn try_from(value: BeadReference<'a>) -> (r: Result<u32, BeadsError>) {
        match value.to_uint() {
            Ok(v) => if v <= u32::MAX as u128 {
                Ok(v as u32)
            } else {
                Err(BeadsError::TypeMismatch)
            },
            Err(e) => Err(e),
        }
    }
}

impl<'a> vstd::std_specs::convert::TryFromSpecImpl<BeadReference<'a>> for u32 {
    open spec fn obeys_try_from_spec() -> bool {
        true
    }

    open spec fn try_from_spec(value: BeadReference<'a>) -> Result<u32, BeadsError> {
        match integer_of(value@) {
            Some(v) => if u32::MIN <= v <= u32::MAX {
                Ok(v as u32)
            } else {
                Err(BeadsError::TypeMismatch)
            },
            None => Err(BeadsError::TypeMismatch),
        }
    }
}

impl<'a> TryFrom<BeadReference<'a>> for u64 {
    type Error = BeadsError;

    /// The integer of a bead of an integer type, if this type holds it.
    fn try_from(value: BeadReference<'a>) -> (r: Result<u64, BeadsError>) {
        match value.to_uint() {
            Ok(v) => if v <= u64::MAX as u128 {
                Ok(v as u64)
            } else {
                Err(BeadsError::TypeMismatch)
            },
            Err(e) => Err(e),
        }
    }
}

impl<'a> vstd::std_specs::convert::TryFromSpecImpl<BeadReference<'a>> for u64 {
    open spec fn obeys_try_from_spec() -> bool {
        true
    }

    open spec fn try_from_spec(value: BeadReference<'a>) -> Result<u64, BeadsError> {
        match integer_of(value@) {
            Some(v) => if u64::MIN <= v <= u64::MAX {
                Ok(v as u64)
            } else {
                Err(BeadsError::TypeMismatch)
            },
            None => Err(BeadsError::TypeMismatch),
        }
    }
}

impl<'a> TryFrom<BeadReference<'a>> for u128 {
    type Error = BeadsError;

    /// The integer of a bead of an integer type, if this type holds it.
    fn try_from(value: BeadReference<'a>) -> (r: Result<u128, BeadsError>) {
        value.to_uint()
    }
}

impl<'a> vstd::std_specs::convert::TryFromSpecImpl<BeadReference<'a>> for u128 {
    open spec fn obeys_try_from_spec() -> bool {
        true
    }

    open spec fn try_from_spec(value: BeadReference<'a>) -> Result<u128, BeadsError> {
        match integer_of(value@) {
            Some(v) => if u128::MIN <= v <= u128::MAX {
                Ok(v as u128)
            } else {
                Err(BeadsError::TypeMismatch)
            },
            None => Err(BeadsError::TypeMismatch),
        }
    }
}

impl<'a> TryFrom<BeadReference<'a>> for i8 {
    type Error = BeadsError;

    /// The integer of a bead of an integer type, if this type holds it.
    fn try_from(value: BeadReference<'a>) -> (r: Result<i8, BeadsError>) {
        match value.to_int() {
            Ok(v) => if i8::MIN as i128 <= v && v <= i8::MAX as i128 {
                Ok(v as i8)
            } else {
                Err(BeadsError::TypeMismatch)
            },
            Err(e) => Err(e),
        }
    }
}

impl<'a> vstd::std_specs::convert::TryFromSpecImpl<BeadReference<'a>> for i8 {
    open spec fn obeys_try_from_spec() -> bool {
        true
    }

    open spec fn try_from_spec(value: BeadReference<'a>) -> Result<i8, BeadsError> {
        match integer_of(value@) {
            Some(v) => if i8::MIN <= v <= i8::MAX {
                Ok(v as i8)
            } else {
                Err(BeadsError::TypeMismatch)
            },
            None => Err(BeadsError::TypeMismatch),
        }
    }
}

impl<'a> TryFrom<BeadReference<'a>> for i16 {
    type Error = BeadsError;

    /// The integer of a bead of an integer type, if this type holds it.
    fn try_from(value: BeadReference<'a>) -> (r: Result<i16, BeadsError>) {
        match value.to_int() {
            Ok(v) => if i16::MIN as i128 <= v && v <= i16::MAX as i128 {
                Ok(v as i16)
            } else {
                Err(BeadsError::TypeMismatch)
            },
            Err(e) => Err(e),
        }
    }
}

impl<'a> vstd::std_specs::convert::TryFromSpecImpl<BeadReference<'a>> for i16 {
    open spec fn obeys_try_from_spec() -> bool {
        true
    }

    open spec fn try_from_spec(value: BeadReference<'a>) -> Result<i16, BeadsError> {
        match integer_of(value@) {
            Some(v) => if i16::MIN <= v <= i16::MAX {
                Ok(v as i16)
            } else {
                Err(BeadsError::TypeMismatch)
            },
            None => Err(BeadsError::TypeMismatch),
        }
    }
}

impl<'a> TryFrom<BeadReference<'a>> for i32 {
    type Error = BeadsError;

    /// The integer of a bead of an integer type, if this type holds it.
    fn try_from(value: BeadReference<'a>) -> (r: Result<i32, BeadsError>) {
        match value.to_int() {
            Ok(v) => if i32::MIN as i128 <= v && v <= i32::MAX as i128 {
                Ok(v as i32)
            } else {
                Err(BeadsError::TypeMismatch)
            },
            Err(e) => Err(e),
        }
    }
}

impl<'a> vstd::std_specs::convert::TryFromSpecImpl<BeadReference<'a>> for i32 {
    open spec fn obeys_try_from_spec() -> bool {
        true
    }

    open spec fn try_from_spec(value: BeadReference<'a>) -> Result<i32, BeadsError> {
        match integer_of(value@) {
            Some(v) => if i32::MIN <= v <= i32::MAX {
                Ok(v as i32)
            } else {
                Err(BeadsError::TypeMismatch)
            },
            None => Err(BeadsError::TypeMismatch),
        }
    }
}

impl<'a> TryFrom<BeadReference<'a>> for i64 {
    type Error = BeadsError;

    /// The integer of a bead of an integer type, if this type holds it.
    fn try_from(value: BeadReference<'a>) -> (r: Result<i64, BeadsError>) {
        match value.to_int() {
            Ok(v) => if i64::MIN as i128 <= v && v <= i64::MAX as i128 {
                Ok(v as i64)
            } else {
                Err(BeadsError::TypeMismatch)
            },
            Err(e) => Err(e),
        }
    }
}

impl<'a> vstd::std_specs::convert::TryFromSpecImpl<BeadReference<'a>> for i64 {
    open spec fn obeys_try_from_spec() -> bool {
        true
    }

    open spec fn try_from_spec(value: BeadReference<'a>) -> Result<i64, BeadsError> {
        match integer_of(value@) {
            Some(v) => if i64::MIN <= v <= i64::MAX {
                Ok(v as i64)
            } else {
                Err(BeadsError::TypeMismatch)
            },
            None => Err(BeadsError::TypeMismatch),
        }
    }
}

impl<'a> TryFrom<BeadReference<'a>> for i128 {
    type Error = BeadsError;

    /// The integer of a bead of an integer type, if this type holds it.
    fn try_from(value: BeadReference<'a>) -> (r: Result<i128, BeadsError>) {
        value.to_int()
    }
}

impl<'a> vstd::std_specs::convert::TryFromSpecImpl<BeadReference<'a>> for i128 {
    open spec fn obeys_try_from_spec() -> bool {
        true
    }

    open spec fn try_from_spec(value: BeadReference<'a>) -> Result<i128, BeadsError> {
        match integer_of(value@) {
            Some(v) => if i128::MIN <= v <= i128::MAX {
                Ok(v as i128)
            } else {
                Err(BeadsError::TypeMismatch)
            },
            None => Err(BeadsError::TypeMismatch),
        }
    }
}

impl<'a> TryFrom<BeadReference<'a>> for String {
    type Error = BeadsError;

    /// The text of a `Utf8` whose content is valid UTF-8.
    fn try_from(value: BeadReference<'a>) -> (r: Result<String, BeadsError>)
        ensures
            match r {
                Ok(s) => value@.kind == BeadType::Utf8 && encode_utf8(s@) == value@.data,
                Err(e) => !(value@.kind == BeadType::Utf8 && valid_utf8(value@.data)) && e
                    == BeadsError::TypeMismatch,
            },
    {
        match value.to_str() {
            Ok(s) => Ok(s.to_owned()),
            Err(e) => Err(e),
        }
    }
}

impl<'a> vstd::std_specs::convert::TryFromSpecImpl<BeadReference<'a>> for String {
    open spec fn obeys_try_from_spec() -> bool {
        false
    }

    open spec fn try_from_spec(value: BeadReference<'a>) -> Result<String, BeadsError> {
        Err(BeadsError::TypeMismatch)
    }
}

} // verus!
