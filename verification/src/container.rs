use crate::endian::{le_bytes, le_value};
use crate::error::BeadsError;
use crate::vlq::{vlq_bytes, vlq_read};
use vstd::prelude::*;

verus! {

/// The parts one after the other.
pub open spec fn concat(parts: Seq<Seq<u8>>) -> Seq<u8>
    decreases parts.len(),
{
    if parts.len() == 0 {
        Seq::empty()
    } else {
        concat(parts.drop_last()) + parts.last()
    }
}

/// The smallest number of bytes, from one to eight, that hold `total`.
pub open spec fn index_width(total: nat) -> nat {
    if total < 0x100 {
        1
    } else if total < 0x1_0000 {
        2
    } else if total < 0x100_0000 {
        3
    } else if total < 0x1_0000_0000 {
        4
    } else if total < 0x100_0000_0000 {
        5
    } else if total < 0x1_0000_0000_0000 {
        6
    } else if total < 0x100_0000_0000_0000 {
        7
    } else {
        8
    }
}

/// The side index of indexed beads: for each part, where it ends among the
/// payloads, in `width` little-endian bytes.
pub open spec fn index_entries(parts: Seq<Seq<u8>>, width: nat) -> Seq<u8>
    decreases parts.len(),
{
    if parts.len() == 0 {
        Seq::empty()
    } else {
        index_entries(parts.drop_last(), width) + le_bytes(concat(parts).len(), width)
    }
}

/// Indexed beads: the header with the number of parts and the width of an
/// index entry, the side index, and the parts.
pub open spec fn indexed_bytes(parts: Seq<Seq<u8>>) -> Seq<u8> {
    let width = index_width(concat(parts).len());
    vlq_bytes((parts.len() * 8 + (width - 1)) as nat) + index_entries(parts, width) + concat(parts)
}

/// What an indexed-beads builder writes: nothing where the parts hold no byte.
pub open spec fn indexed_encoding(parts: Seq<Seq<u8>>) -> Seq<u8> {
    if concat(parts).len() == 0 {
        Seq::empty()
    } else {
        indexed_bytes(parts)
    }
}

/// Indexed beads as a reader sees them.
pub struct IndexedModel {
    pub count: nat,
    pub width: nat,
    pub index: Seq<u8>,
    pub values: Seq<u8>,
}

/// What a reader makes of `bytes` as indexed beads. The payloads must hold
/// at least one byte.
pub open spec fn indexed_parse(bytes: Seq<u8>) -> Result<IndexedModel, BeadsError> {
    match vlq_read(bytes) {
        Err(e) => Err(e),
        Ok((n, header)) => {
            let count = header / 8;
            let width = header % 8 + 1;
            if bytes.len() <= n + count * width {
                Err(BeadsError::TruncatedBuffer)
            } else {
                Ok(
                    IndexedModel {
                        count,
                        width,
                        index: bytes.subrange(n as int, (n + count * width) as int),
                        values: bytes.skip((n + count * width) as int),
                    },
                )
            }
        },
    }
}

impl IndexedModel {
    /// Entry `j` of the side index: where part `j` ends.
    pub open spec fn entry(self, j: nat) -> nat {
        le_value(self.index.subrange((j * self.width) as int, (j * self.width + self.width) as int))
    }

    /// Part `i`: the payload bytes from the end of the part before it to its own end.
    pub open spec fn get(self, i: nat) -> Result<Seq<u8>, BeadsError> {
        if i >= self.count {
            Err(BeadsError::InvalidIndex)
        } else {
            let start = if i == 0 {
                0
            } else {
                self.entry((i - 1) as nat)
            };
            let end = self.entry(i);
            if end > self.values.len() || start > end {
                Err(BeadsError::TruncatedBuffer)
            } else {
                Ok(self.values.subrange(start as int, end as int))
            }
        }
    }
}

/// Fixed-size beads: the width of a record, then the records.
pub open spec fn fixed_bytes(size: nat, data: Seq<u8>) -> Seq<u8> {
    vlq_bytes(size) + data
}

/// Fixed-size beads as a reader sees them.
pub struct FixedModel {
    pub size: nat,
    pub data: Seq<u8>,
}

/// What a reader makes of `bytes` as fixed-size beads. The width must be at
/// least one and fit the machine.
pub open spec fn fixed_parse(bytes: Seq<u8>) -> Result<FixedModel, BeadsError> {
    match vlq_read(bytes) {
        Err(e) => Err(e),
        Ok((n, header)) => if header == 0 || header > usize::MAX {
            Err(BeadsError::InvalidVarint)
        } else {
            Ok(FixedModel { size: header, data: bytes.skip(n as int) })
        },
    }
}

impl FixedModel {
    /// The number of whole records.
    pub open spec fn len(self) -> nat {
        self.data.len() / self.size
    }

    /// Record `i`.
    pub open spec fn get(self, i: nat) -> Result<Seq<u8>, BeadsError> {
        if i < self.len() {
            Ok(self.data.subrange((i * self.size) as int, (i * self.size + self.size) as int))
        } else {
            Err(BeadsError::InvalidIndex)
        }
    }
}

/// The smallest number of bytes, at least one, that hold `v`.
pub open spec fn uint_width(v: nat) -> nat
    decreases v,
{
    if v < 256 {
        1
    } else {
        1 + uint_width(v / 256)
    }
}

/// The smallest number of bytes, at least one, that hold each of the values.
pub open spec fn max_width(values: Seq<u128>) -> nat
    decreases values.len(),
{
    if values.len() == 0 {
        1
    } else {
        let rest = max_width(values.drop_last());
        let last = uint_width(values.last() as nat);
        if last > rest {
            last
        } else {
            rest
        }
    }
}

/// The values as records of `width` little-endian bytes.
pub open spec fn records(values: Seq<u128>, width: nat) -> Seq<u8>
    decreases values.len(),
{
    if values.len() == 0 {
        Seq::empty()
    } else {
        records(values.drop_last(), width) + le_bytes(values.last() as nat, width)
    }
}

/// Fixed-size beads of unsigned integers in the smallest width that holds them all.
pub open spec fn uint_beads_bytes(values: Seq<u128>) -> Seq<u8> {
    fixed_bytes(max_width(values), records(values, max_width(values)))
}

/// The first place of `value` in `parts`, or their number if it is not there.
pub open spec fn place_of(parts: Seq<Seq<u8>>, value: Seq<u8>) -> nat
    decreases parts.len(),
{
    if parts.len() == 0 || parts[0] == value {
        0
    } else {
        1 + place_of(parts.skip(1), value)
    }
}

/// The distinct values in the order in which each comes first.
pub open spec fn unique(values: Seq<Seq<u8>>) -> Seq<Seq<u8>>
    decreases values.len(),
{
    if values.len() == 0 {
        Seq::empty()
    } else {
        let rest = unique(values.drop_last());
        if rest.contains(values.last()) {
            rest
        } else {
            rest.push(values.last())
        }
    }
}

/// For each value, its place among the distinct values.
pub open spec fn places(values: Seq<Seq<u8>>) -> Seq<u128>
    decreases values.len(),
{
    if values.len() == 0 {
        Seq::empty()
    } else {
        places(values.drop_last()).push(place_of(unique(values), values.last()) as u128)
    }
}

/// Dedup beads: indexed beads of two parts, the places of the values as
/// fixed-size beads and the distinct values as indexed beads.
pub open spec fn dedup_bytes(values: Seq<Seq<u8>>) -> Seq<u8> {
    indexed_bytes(seq![uint_beads_bytes(places(values)), indexed_encoding(unique(values))])
}

/// What a reader makes of `bytes` as dedup beads: the fixed-size beads of
/// places and the indexed beads of distinct values.
pub open spec fn dedup_places(bytes: Seq<u8>) -> Result<FixedModel, BeadsError> {
    match indexed_parse(bytes) {
        Err(e) => Err(e),
        Ok(root) => match root.get(0) {
            Err(e) => Err(e),
            Ok(first) => fixed_parse(first),
        },
    }
}

/// The number of values of dedup beads.
pub open spec fn dedup_len(bytes: Seq<u8>) -> Result<nat, BeadsError> {
    match dedup_places(bytes) {
        Err(e) => Err(e),
        Ok(places) => Ok(places.len()),
    }
}

/// Value `i` of dedup beads: the distinct value at the place that record `i` gives.
pub open spec fn dedup_get(bytes: Seq<u8>, i: nat) -> Result<Seq<u8>, BeadsError> {
    match dedup_places(bytes) {
        Err(e) => Err(e),
        Ok(places) => match indexed_parse(bytes).unwrap().get(1) {
            Err(e) => Err(e),
            Ok(second) => match indexed_parse(second) {
                Err(e) => Err(e),
                Ok(values) => match places.get(i) {
                    Err(e) => Err(e),
                    Ok(record) => if record.len() > 16 {
                        Err(BeadsError::InvalidIndex)
                    } else {
                        values.get(le_value(record))
                    },
                },
            },
        },
    }
}

/// The place of a value is the first index at which it stands.
pub proof fn lemma_place_of_first(parts: Seq<Seq<u8>>, value: Seq<u8>, j: int)
    requires
        0 <= j < parts.len(),
        parts[j] == value,
        forall|i: int| 0 <= i < j ==> parts[i] != value,
    ensures
        place_of(parts, value) == j,
    decreases parts.len(),
{
    if j > 0 {
        let rest = parts.skip(1);
        assert(rest[j - 1] == value);
        assert forall|i: int| 0 <= i < j - 1 implies rest[i] != value by {
            assert(rest[i] == parts[i + 1]);
        }
        lemma_place_of_first(rest, value, j - 1);
    }
}

/// A value that is added to parts without it stands at their end.
pub proof fn lemma_place_of_new(parts: Seq<Seq<u8>>, value: Seq<u8>)
    requires
        !parts.contains(value),
    ensures
        place_of(parts.push(value), value) == parts.len(),
    decreases parts.len(),
{
    let more = parts.push(value);
    if parts.len() > 0 {
        assert(parts[0] != value);
        assert(more[0] == parts[0]);
        assert(more.skip(1) =~= parts.skip(1).push(value));
        assert(!parts.skip(1).contains(value)) by {
            if parts.skip(1).contains(value) {
                let i = choose|i: int| 0 <= i < parts.skip(1).len() && parts.skip(1)[i] == value;
                assert(parts[i + 1] == value);
            }
        }
        lemma_place_of_new(parts.skip(1), value);
    }
}

} // verus!
