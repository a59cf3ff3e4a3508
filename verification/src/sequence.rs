use crate::bead_type::{lemma_members, BeadType, BeadTypeSet};
use crate::container::{dedup_get, dedup_len, fixed_parse, indexed_parse, FixedModel, IndexedModel};
use crate::converters::u128_from_slice;
use crate::endian::{le_value, lemma_le_value_bound, lemma_pow256_values};
use crate::error::BeadsError;
use crate::iterator::BeadsIterator;
use crate::layout::{slot_tag, tag_bits, tag_layout, tag_mask, tags_per_byte, types_ok, Bead};
use crate::reference::BeadReference;
use crate::vlq::{lemma_vlq_parse_len, read_vlq, vlq_read};
use vstd::prelude::*;
use vstd::slice::{slice_subrange, slice_to_vec};

verus! {

/// What the envelope of a tagged sequence holds: the number of beads and
/// the region, which has at least one byte.
pub open spec fn sequence_parts(set: BeadTypeSet, bytes: Seq<u8>) -> Result<
    (nat, Seq<u8>),
    BeadsError,
> {
    if !set.valid() {
        Err(BeadsError::BadTypeSet)
    } else {
        match vlq_read(bytes) {
            Err(e) => Err(e),
            Ok((n, v)) => if v > usize::MAX {
                Err(BeadsError::InvalidVarint)
            } else if bytes.len() <= n {
                Err(BeadsError::TruncatedBuffer)
            } else {
                Ok((v, bytes.skip(n as int)))
            },
        }
    }
}

/// The type set at the front of an envelope that includes its types.
pub open spec fn included_set(bytes: Seq<u8>) -> BeadTypeSet {
    BeadTypeSet { value: le_value(bytes.take(4)) as u32 }
}

/// Whether all the types have one and the same fixed size.
pub open spec fn symmetric_types(types: Seq<BeadType>) -> bool {
    &&& types.len() > 0
    &&& forall|i: int|
        0 <= i < types.len() ==> (#[trigger] types[i]).fixed_size() is Some && types[i].fixed_size()
            == types[0].fixed_size()
}

/// Bead `i` of a region whose beads all have `size` payload bytes, found
/// without a walk: tag bytes stand `tags_per_byte * size` data bytes apart.
pub open spec fn symmetric_get(types: Seq<BeadType>, region: Seq<u8>, count: nat, i: nat) -> Result<
    Bead,
    BeadsError,
> {
    let k = types.len();
    let size = types[0].fixed_size().unwrap();
    if i >= count {
        Err(BeadsError::InvalidIndex)
    } else if k == 1 {
        if i * size + size <= region.len() {
            Ok(Bead { kind: types[0], data: region.subrange((i * size) as int, (i * size + size) as int) })
        } else {
            Err(BeadsError::TruncatedBuffer)
        }
    } else {
        let per_byte = tags_per_byte(k);
        let chunk = i / per_byte;
        let place = chunk + size * per_byte * chunk;
        if place >= region.len() {
            Err(BeadsError::TruncatedBuffer)
        } else {
            let tag = slot_tag(k, region[place as int], i % per_byte);
            let start = chunk + 1 + i * size;
            if tag >= k {
                Err(BeadsError::BadTypeSet)
            } else if start + size <= region.len() {
                Ok(
                    Bead {
                        kind: types[tag as int],
                        data: region.subrange(start as int, (start + size) as int),
                    },
                )
            } else {
                Err(BeadsError::TruncatedBuffer)
            }
        }
    }
}

/// The decoder of a tagged sequence.
pub struct TypedBeads<'a> {
    buffer: &'a [u8],
    count: usize,
    types: Vec<BeadType>,
}

impl<'a> TypedBeads<'a> {
    /// The region of the sequence.
    pub closed spec fn region(&self) -> Seq<u8> {
        self.buffer@
    }

    /// The types of the sequence in tag order.
    pub closed spec fn types(&self) -> Seq<BeadType> {
        self.types@
    }

    /// The number of beads that the envelope announces.
    pub closed spec fn spec_len(&self) -> nat {
        self.count as nat
    }

    /// The types are those of a valid set.
    #[verifier::type_invariant]
    closed spec fn inv(self) -> bool {
        types_ok(self.types@)
    }

    /// A decoder of the sequence in `buffer`, whose beads have the types of `types`.
    pub fn new(buffer: &'a [u8], types: &BeadTypeSet) -> (r: Result<TypedBeads<'a>, BeadsError>)
        ensures
            match sequence_parts(*types, buffer@) {
                Ok((count, region)) => r matches Ok(b) && b.spec_len() == count && b.region()
                    == region && b.types() == types.members(),
                Err(e) => r matches Err(x) && x == e,
            },
    {
        if !types.is_valid() {
            return Err(BeadsError::BadTypeSet);
        }
        let members = types.types();
        proof {
            lemma_members(*types);
            lemma_vlq_parse_len(buffer@);
        }
        match read_vlq(buffer) {
            Err(e) => Err(e),
            Ok((vlq_len, count)) => {
                if count > usize::MAX as u128 {
                    return Err(BeadsError::InvalidVarint);
                }
                if buffer.len() <= vlq_len {
                    return Err(BeadsError::TruncatedBuffer);
                }
                let region = slice_subrange(buffer, vlq_len, buffer.len());
                assert(region@ =~= buffer@.skip(vlq_len as int));
                Ok(TypedBeads { buffer: region, count: count as usize, types: members })
            },
        }
    }

    /// A decoder of the sequence in `buffer`, which begins with the mask of
    /// its type set as four little-endian bytes.
    pub fn new_types_included(buffer: &'a [u8]) -> (r: Result<TypedBeads<'a>, BeadsError>)
        ensures
            buffer@.len() < 5 ==> (r matches Err(x) && x == BeadsError::TruncatedBuffer),
            buffer@.len() >= 5 ==> match sequence_parts(included_set(buffer@), buffer@.skip(4)) {
                Ok((count, region)) => r matches Ok(b) && b.spec_len() == count && b.region()
                    == region && b.types() == included_set(buffer@).members(),
                Err(e) => r matches Err(x) && x == e,
            },
    {
        if buffer.len() < 5 {
            return Err(BeadsError::TruncatedBuffer);
        }
        let head = slice_subrange(buffer, 0, 4);
        let rest = slice_subrange(buffer, 4, buffer.len());
        proof {
            assert(head@ =~= buffer@.take(4));
            assert(rest@ =~= buffer@.skip(4));
            lemma_le_value_bound(head@);
            lemma_pow256_values();
        }
        let types_value: u32 = u128_from_slice(head) as u32;
        let set = BeadTypeSet { value: types_value };
        Self::new(rest, &set)
    }

    /// An iterator at the front of the sequence.
    pub fn iter(&self) -> (r: BeadsIterator<'a, '_>)
        ensures
            r.region() == self.region(),
            r.types() == self.types(),
            r.position() == 0,
            r.limit() == self.spec_len(),
    {
        proof {
            use_type_invariant(self);
        }
        BeadsIterator::new(self.buffer, self.count, &self.types)
    }

    /// The number of beads that the envelope announces.
    pub fn len(&self) -> (n: usize)
        ensures
            n == self.spec_len(),
    {
        self.count
    }

    /// Whether all the types of the sequence have one and the same fixed size.
    pub fn is_symmetrical(&self) -> (r: bool)
        ensures
            r == symmetric_types(self.types()),
    {
        proof {
            use_type_invariant(self);
        }
        let first: u8 = self.types[0].data_size();
        let mut i: usize = 0;
        while i < self.types.len()
            invariant
                i <= self.types@.len(),
                self.types@.len() > 0,
                first == self.types@[0].data_size_spec(),
                forall|j: int|
                    0 <= j < i ==> (#[trigger] self.types@[j]).fixed_size() is Some
                        && self.types@[j].fixed_size() == self.types@[0].fixed_size(),
            decreases self.types@.len() - i,
        {
            let size: u8 = self.types[i].data_size();
            if size == crate::bead_type::VARIABLE_SIZE || size != first {
                return false;
            }
            i += 1;
        }
        true
    }

    /// The view of a symmetric sequence that finds a bead by its index.
    pub fn symmetric(&self) -> (r: Result<SymmetricTypedBeads<'a>, BeadsError>)
        ensures
            match r {
                Ok(s) => symmetric_types(self.types()) && s.types() == self.types() && s.region()
                    == self.region() && s.spec_len() == self.spec_len(),
                Err(e) => !symmetric_types(self.types()) && e == BeadsError::BadTypeSet,
            },
    {
        proof {
            use_type_invariant(self);
        }
        if self.is_symmetrical() {
            let (per_byte, shift, mask) = tag_layout(self.types.len());
            Ok(
                SymmetricTypedBeads {
                    buffer: self.buffer,
                    count: self.count,
                    types: self.types.clone(),
                    data_size: self.types[0].data_size() as usize,
                    tags_per_byte: per_byte,
                    tag_shift: shift,
                    tag_mask: mask,
                },
            )
        } else {
            Err(BeadsError::BadTypeSet)
        }
    }
}

/// The view of a sequence whose beads all have the same number of payload
/// bytes: a bead is found by its index.
pub struct SymmetricTypedBeads<'a> {
    buffer: &'a [u8],
    count: usize,
    types: Vec<BeadType>,
    data_size: usize,
    tags_per_byte: usize,
    tag_shift: usize,
    tag_mask: u8,
}

impl<'a> SymmetricTypedBeads<'a> {
    /// The region of the sequence.
    pub closed spec fn region(&self) -> Seq<u8> {
        self.buffer@
    }

    /// The types of the sequence in tag order.
    pub closed spec fn types(&self) -> Seq<BeadType> {
        self.types@
    }

    /// The number of beads that the envelope announces.
    pub closed spec fn spec_len(&self) -> nat {
        self.count as nat
    }

    /// The fields agree with the types, which are symmetric.
    #[verifier::type_invariant]
    closed spec fn inv(self) -> bool {
        &&& types_ok(self.types@)
        &&& symmetric_types(self.types@)
        &&& self.data_size == self.types@[0].fixed_size().unwrap()
        &&& self.tags_per_byte == tags_per_byte(self.types@.len())
        &&& self.tag_shift == tag_bits(self.types@.len())
        &&& self.tag_mask == tag_mask(self.types@.len())
    }

    /// The bead at `index`.
    #[verifier::rlimit(50)]
    pub fn get(&self, index: usize) -> (r: Result<BeadReference<'a>, BeadsError>)
        ensures
            match symmetric_get(self.types(), self.region(), self.spec_len(), index as nat) {
                Ok(b) => r matches Ok(x) && x@ == b,
                Err(e) => r matches Err(x) && x == e,
            },
    {
        proof {
            use_type_invariant(self);
        }
        if index >= self.count {
            return Err(BeadsError::InvalidIndex);
        }
        let len: u128 = self.buffer.len() as u128;
        let size: u128 = self.data_size as u128;
        let i: u128 = index as u128;
        assert(i * size <= 0xffff_ffff_ffff_ffff * 16) by (nonlinear_arith)
            requires
                i <= 0xffff_ffff_ffff_ffff,
                size <= 16,
        ;
        if self.types.len() == 1 {
            let start: u128 = i * size;
            if start + size <= len {
                let data = slice_subrange(self.buffer, start as usize, (start + size) as usize);
                Ok(BeadReference::new(self.types[0], data, 0))
            } else {
                Err(BeadsError::TruncatedBuffer)
            }
        } else {
            let per_byte: u128 = self.tags_per_byte as u128;
            let tag_index: usize = index % self.tags_per_byte;
            let chunk: u128 = i / per_byte;
            assert(size * per_byte * chunk <= 128 * 0xffff_ffff_ffff_ffff) by (nonlinear_arith)
                requires
                    chunk <= 0xffff_ffff_ffff_ffff,
                    size <= 16,
                    per_byte <= 8,
            ;
            let place: u128 = chunk + size * per_byte * chunk;
            if place >= len {
                return Err(BeadsError::TruncatedBuffer);
            }
            let tag: u8 = self.buffer[place as usize];
            assert(self.tag_shift * tag_index < 8) by (nonlinear_arith)
                requires
                    tag_index < self.tags_per_byte,
                    (self.tags_per_byte == 8 && self.tag_shift == 1) || (self.tags_per_byte == 4
                        && self.tag_shift == 2) || (self.tags_per_byte == 2 && self.tag_shift
                        == 4),
            ;
            let shift: usize = self.tag_shift * tag_index;
            let type_index: usize = ((tag >> (shift as u8)) & self.tag_mask) as usize;
            if type_index >= self.types.len() {
                return Err(BeadsError::BadTypeSet);
            }
            let start: u128 = chunk + 1 + i * size;
            if start + size <= len {
                let data = slice_subrange(self.buffer, start as usize, (start + size) as usize);
                Ok(BeadReference::new(self.types[type_index], data, 0))
            } else {
                Err(BeadsError::TruncatedBuffer)
            }
        }
    }

    /// The number of beads that the envelope announces.
    pub fn len(&self) -> (n: usize)
        ensures
            n == self.spec_len(),
    {
        self.count
    }
}

/// The reader of indexed beads.
pub struct IndexedBeads<'a> {
    index_buffer: &'a [u8],
    value_buffer: &'a [u8],
    count: usize,
    bytes_per_index_entry: usize,
}

impl<'a> View for IndexedBeads<'a> {
    type V = IndexedModel;

    closed spec fn view(&self) -> IndexedModel {
        IndexedModel {
            count: self.count as nat,
            width: self.bytes_per_index_entry as nat,
            index: self.index_buffer@,
            values: self.value_buffer@,
        }
    }
}

impl<'a> IndexedBeads<'a> {
    /// The side index has an entry of one to eight bytes for each part.
    #[verifier::type_invariant]
    closed spec fn inv(self) -> bool {
        &&& 1 <= self.bytes_per_index_entry <= 8
        &&& self.index_buffer@.len() == self.count * self.bytes_per_index_entry
    }

    /// A reader of the indexed beads in `buffer`.
    pub fn new(buffer: &'a [u8]) -> (r: Result<IndexedBeads<'a>, BeadsError>)
        ensures
            match indexed_parse(buffer@) {
                Ok(m) => r matches Ok(b) && b@ == m,
                Err(e) => r matches Err(x) && x == e,
            },
    {
        proof {
            lemma_vlq_parse_len(buffer@);
        }
        match read_vlq(buffer) {
            Err(e) => Err(e),
            Ok((header_size, header)) => {
                let count: u128 = header / 8;
                let bytes_per_index: usize = (header % 8) as usize + 1;
                let len: u128 = buffer.len() as u128;
                if count >= len {
                    assert(count * bytes_per_index >= count) by (nonlinear_arith)
                        requires
                            bytes_per_index >= 1,
                    ;
                    return Err(BeadsError::TruncatedBuffer);
                }
                assert(count * bytes_per_index <= 8 * count) by (nonlinear_arith)
                    requires
                        bytes_per_index <= 8,
                ;
                let index_len: u128 = count * (bytes_per_index as u128);
                if len <= header_size as u128 + index_len {
                    return Err(BeadsError::TruncatedBuffer);
                }
                let split: usize = header_size + index_len as usize;
                let index_buffer = slice_subrange(buffer, header_size, split);
                let value_buffer = slice_subrange(buffer, split, buffer.len());
                assert(value_buffer@ =~= buffer@.skip(split as int));
                Ok(
                    IndexedBeads {
                        index_buffer,
                        value_buffer,
                        count: count as usize,
                        bytes_per_index_entry: bytes_per_index,
                    },
                )
            },
        }
    }

    /// The number of parts.
    pub fn len(&self) -> (n: usize)
        ensures
            n == self@.count,
    {
        self.count
    }

    /// Entry `index` of the side index.
    fn position(&self, index: usize) -> (r: u128)
        requires
            index < self@.count,
        ensures
            r == self@.entry(index as nat),
    {
        proof {
            use_type_invariant(self);
        }
        let width: usize = self.bytes_per_index_entry;
        let total: usize = self.index_buffer.len();
        assert(0 <= index * width && index * width + width <= total) by (nonlinear_arith)
            requires
                index < self.count,
                total == self.count * width,
        ;
        let entry = slice_subrange(self.index_buffer, index * width, index * width + width);
        u128_from_slice(entry)
    }

    /// Part `index`.
    pub fn get(&self, index: usize) -> (r: Result<&'a [u8], BeadsError>)
        ensures
            match self@.get(index as nat) {
                Ok(part) => r matches Ok(x) && x@ == part,
                Err(e) => r matches Err(x) && x == e,
            },
    {
        if index >= self.count {
            return Err(BeadsError::InvalidIndex);
        }
        let start: u128 = if index == 0 {
            0
        } else {
            self.position(index - 1)
        };
        let end: u128 = self.position(index);
        if end > self.value_buffer.len() as u128 || start > end {
            return Err(BeadsError::TruncatedBuffer);
        }
        Ok(slice_subrange(self.value_buffer, start as usize, end as usize))
    }
}

/// The reader of fixed-size beads.
pub struct FixedSizeBeads<'a> {
    size: usize,
    buffer: &'a [u8],
}

impl<'a> View for FixedSizeBeads<'a> {
    type V = FixedModel;

    closed spec fn view(&self) -> FixedModel {
        FixedModel { size: self.size as nat, data: self.buffer@ }
    }
}

impl<'a> FixedSizeBeads<'a> {
    /// A record has at least one byte.
    #[verifier::type_invariant]
    closed spec fn inv(self) -> bool {
        self.size > 0
    }

    /// A reader of the fixed-size beads in `buffer`.
    pub fn new(buffer: &'a [u8]) -> (r: Result<FixedSizeBeads<'a>, BeadsError>)
        ensures
            match fixed_parse(buffer@) {
                Ok(m) => r matches Ok(b) && b@ == m,
                Err(e) => r matches Err(x) && x == e,
            },
    {
        proof {
            lemma_vlq_parse_len(buffer@);
        }
        match read_vlq(buffer) {
            Err(e) => Err(e),
            Ok((header_size, header)) => {
                if header == 0 || header > usize::MAX as u128 {
                    return Err(BeadsError::InvalidVarint);
                }
                let rest = slice_subrange(buffer, header_size, buffer.len());
                assert(rest@ =~= buffer@.skip(header_size as int));
                Ok(FixedSizeBeads { size: header as usize, buffer: rest })
            },
        }
    }

    /// The number of whole records.
    pub fn len(&self) -> (n: usize)
        ensures
            n == self@.len(),
    {
        proof {
            use_type_invariant(self);
        }
        self.buffer.len() / self.size
    }

    /// Record `index`.
    pub fn get(&self, index: usize) -> (r: Result<&'a [u8], BeadsError>)
        ensures
            match self@.get(index as nat) {
                Ok(record) => r matches Ok(x) && x@ == record,
                Err(e) => r matches Err(x) && x == e,
            },
    {
        proof {
            use_type_invariant(self);
        }
        let count: usize = self.buffer.len() / self.size;
        if index >= count {
            return Err(BeadsError::InvalidIndex);
        }
        let size: usize = self.size;
        let len: usize = self.buffer.len();
        assert(index * size + size <= len) by (nonlinear_arith)
            requires
                index < count,
                count == len / size,
                size > 0,
        ;
        Ok(slice_subrange(self.buffer, index * size, index * size + size))
    }
}

/// The reader of dedup beads.
pub struct DedupBeads<'a> {
    buffer: &'a [u8],
}

impl<'a> DedupBeads<'a> {
    /// The bytes that the reader reads.
    pub closed spec fn bytes(&self) -> Seq<u8> {
        self.buffer@
    }

    /// A reader of the dedup beads in `buffer`.
    pub fn new(buffer: &'a [u8]) -> (r: DedupBeads<'a>)
        ensures
            r.bytes() == buffer@,
    {
        DedupBeads { buffer }
    }

    /// The number of values.
    pub fn len(&self) -> (r: Result<usize, BeadsError>)
        ensures
            match dedup_len(self.bytes()) {
                Ok(n) => r matches Ok(x) && x == n,
                Err(e) => r matches Err(x) && x == e,
            },
    {
        let root = match IndexedBeads::new(self.buffer) {
            Ok(root) => root,
            Err(e) => {
                return Err(e);
            },
        };
        let first = match root.get(0) {
            Ok(first) => first,
            Err(e) => {
                return Err(e);
            },
        };
        match FixedSizeBeads::new(first) {
            Ok(index_beads) => Ok(index_beads.len()),
            Err(e) => Err(e),
        }
    }

    /// Value `index`.
    pub fn get(&self, index: usize) -> (r: Result<Vec<u8>, BeadsError>)
        ensures
            match dedup_get(self.bytes(), index as nat) {
                Ok(value) => r matches Ok(x) && x@ == value,
                Err(e) => r matches Err(x) && x == e,
            },
    {
        let root = match IndexedBeads::new(self.buffer) {
            Ok(root) => root,
            Err(e) => {
                return Err(e);
            },
        };
        let first = match root.get(0) {
            Ok(first) => first,
            Err(e) => {
                return Err(e);
            },
        };
        let index_beads = match FixedSizeBeads::new(first) {
            Ok(index_beads) => index_beads,
            Err(e) => {
                return Err(e);
            },
        };
        let second = match root.get(1) {
            Ok(second) => second,
            Err(e) => {
                return Err(e);
            },
        };
        let values = match IndexedBeads::new(second) {
            Ok(values) => values,
            Err(e) => {
                return Err(e);
            },
        };
        let record = match index_beads.get(index) {
            Ok(record) => record,
            Err(e) => {
                return Err(e);
            },
        };
        if record.len() > 16 {
            return Err(BeadsError::InvalidIndex);
        }
        let place: u128 = u128_from_slice(record);
        if place >= values.len() as u128 {
            return Err(BeadsError::InvalidIndex);
        }
        match values.get(place as usize) {
            Ok(value) => Ok(slice_to_vec(value)),
            Err(e) => Err(e),
        }
    }
}

} // verus!
