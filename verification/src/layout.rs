use crate::bead_type::BeadType;
use crate::error::BeadsError;
use crate::vlq::{lemma_vlq_len_u128, lemma_vlq_roundtrip, vlq_bytes, vlq_read};
use vstd::prelude::*;

verus! {

/// One element of a sequence: its type and its content. The content of a
/// blob is its bytes without the length before them; of any other type, the
/// payload as it stands on the wire.
pub struct Bead {
    pub kind: BeadType,
    pub data: Seq<u8>,
}

impl Bead {
    /// The bytes of the bead in the data stream.
    pub open spec fn wire(self) -> Seq<u8> {
        if self.kind.is_blob() {
            vlq_bytes(self.data.len()) + self.data
        } else {
            self.data
        }
    }

    /// Whether the content has the shape of its type: the width of a
    /// fixed-width type, one whole variable-length integer, or a blob that
    /// a machine can hold.
    pub open spec fn valid(self) -> bool {
        match self.kind.fixed_size() {
            Some(n) => self.data.len() == n,
            None => if self.kind.is_blob() {
                self.data.len() <= usize::MAX
            } else {
                vlq_read(self.data) matches Ok((n, v)) && n == self.data.len()
            },
        }
    }
}

/// How many tags share a byte, for a set of `k` types.
pub open spec fn tags_per_byte(k: nat) -> nat {
    if k <= 2 {
        8
    } else if k <= 4 {
        4
    } else {
        2
    }
}

/// How many bits a tag takes, for a set of `k` types.
pub open spec fn tag_bits(k: nat) -> nat {
    if k <= 2 {
        1
    } else if k <= 4 {
        2
    } else {
        4
    }
}

/// The mask of one tag, for a set of `k` types.
pub open spec fn tag_mask(k: nat) -> u8 {
    if k <= 2 {
        1
    } else if k <= 4 {
        3
    } else {
        15
    }
}

/// Whether `types` can be the types of a sequence: one to sixteen, each once.
pub open spec fn types_ok(types: Seq<BeadType>) -> bool {
    &&& 1 <= types.len() <= 16
    &&& forall|i: int, j: int| 0 <= i < j < types.len() ==> types[i] != types[j]
}

/// The tag of a type: its first place in `types`.
pub open spec fn tag_of(types: Seq<BeadType>, kind: BeadType) -> nat
    decreases types.len(),
{
    if types.len() == 0 || types[0] == kind {
        0
    } else {
        1 + tag_of(types.skip(1), kind)
    }
}

/// The tag that a tag byte holds in a slot.
pub open spec fn slot_tag(k: nat, byte: u8, slot: nat) -> nat {
    ((byte >> ((tag_bits(k) * slot) as u8)) & tag_mask(k)) as nat
}

/// The payloads of the beads, one after the other.
pub open spec fn payloads(beads: Seq<Bead>) -> Seq<u8>
    decreases beads.len(),
{
    if beads.len() == 0 {
        Seq::empty()
    } else {
        payloads(beads.drop_last()) + beads.last().wire()
    }
}

/// The tag byte of a chunk: the tag of its first bead in the lowest bits,
/// that of the next in the bits above them, and so on.
pub open spec fn packed_tags(types: Seq<BeadType>, beads: Seq<Bead>) -> u8
    decreases beads.len(),
{
    if beads.len() == 0 {
        0u8
    } else {
        packed_tags(types, beads.drop_last()) | ((tag_of(types, beads.last().kind) as u8) << ((
        tag_bits(types.len()) * (beads.len() - 1)) as u8))
    }
}

/// A chunk: the tag byte of up to `tags_per_byte` beads, then their payloads.
pub open spec fn chunk(types: Seq<BeadType>, beads: Seq<Bead>) -> Seq<u8> {
    seq![packed_tags(types, beads)] + payloads(beads)
}

/// The chunks of beads that fill their tag bytes: `beads` by groups of `tags_per_byte`.
pub open spec fn full_chunks(types: Seq<BeadType>, beads: Seq<Bead>) -> Seq<u8>
    decreases beads.len(),
{
    let t = tags_per_byte(types.len());
    if beads.len() < t {
        Seq::empty()
    } else {
        full_chunks(types, beads.take(beads.len() - t)) + chunk(types, beads.skip(beads.len() - t))
    }
}

/// Whether `start` can be where the open chunk of `n` beads begins: at a
/// multiple of `tags_per_byte`, with at most that many beads after it.
pub open spec fn chunk_start_ok(k: nat, n: nat, start: nat) -> bool {
    &&& start % tags_per_byte(k) == 0
    &&& start <= n <= start + tags_per_byte(k)
}

/// The region of a sequence of two or more types: the full chunks, then the
/// open chunk, which begins at bead `start`.
pub open spec fn tagged_region(types: Seq<BeadType>, beads: Seq<Bead>, start: nat) -> Seq<u8> {
    full_chunks(types, beads.take(start as int)) + chunk(types, beads.skip(start as int))
}

/// The tag and data region of a sequence. With one type there are no tags:
/// the region is the payloads, or one zero byte where there are none.
pub open spec fn region(types: Seq<BeadType>, beads: Seq<Bead>, start: nat) -> Seq<u8> {
    if types.len() == 1 {
        if payloads(beads).len() == 0 {
            seq![0u8]
        } else {
            payloads(beads)
        }
    } else {
        tagged_region(types, beads, start)
    }
}

/// The encoding of a sequence: the number of beads, then the region.
pub open spec fn sequence_bytes(types: Seq<BeadType>, beads: Seq<Bead>, start: nat) -> Seq<u8> {
    vlq_bytes(beads.len()) + region(types, beads, start)
}

/// Where a decoder stands: the index of the next bead, the place of the tag
/// byte in use, and the end of the data read so far.
pub struct Cursor {
    pub index: nat,
    pub tag: nat,
    pub data: nat,
}

/// Where the content of a bead of type `kind` lies whose payload begins at
/// `start`: the bounds of the content, the second of which is the end of the payload.
pub open spec fn read_payload(kind: BeadType, region: Seq<u8>, start: nat) -> Result<
    (nat, nat),
    BeadsError,
> {
    if start > region.len() {
        Err(BeadsError::TruncatedBuffer)
    } else {
        match kind.fixed_size() {
            Some(n) => if start + n <= region.len() {
                Ok((start, start + n))
            } else {
                Err(BeadsError::TruncatedBuffer)
            },
            None => match vlq_read(region.skip(start as int)) {
                Err(e) => Err(e),
                Ok((n, v)) => if kind.is_blob() {
                    if start + n + v <= region.len() {
                        Ok((start + n, start + n + v))
                    } else {
                        Err(BeadsError::TruncatedBuffer)
                    }
                } else {
                    Ok((start, start + n))
                },
            },
        }
    }
}

/// Where the tag byte of the bead at `c` is: a new one begins after the data
/// read so far whenever the bead's slot is the first of a byte.
pub open spec fn tag_place(k: nat, c: Cursor) -> nat {
    if c.index > 0 && c.index % tags_per_byte(k) == 0 {
        if c.tag + 1 > c.data {
            c.tag + 1
        } else {
            c.data
        }
    } else {
        c.tag
    }
}

/// What a decoder reads at `c`: the bead, and where it stands then.
pub open spec fn read_bead(types: Seq<BeadType>, region: Seq<u8>, c: Cursor) -> Result<
    (Bead, Cursor),
    BeadsError,
> {
    let k = types.len();
    if k == 1 {
        match read_payload(types[0], region, c.data) {
            Err(e) => Err(e),
            Ok((from, to)) => Ok(
                (
                    Bead { kind: types[0], data: region.subrange(from as int, to as int) },
                    Cursor { index: c.index + 1, tag: c.tag, data: to },
                ),
            ),
        }
    } else {
        let place = tag_place(k, c);
        if place >= region.len() {
            Err(BeadsError::TruncatedBuffer)
        } else {
            let tag = slot_tag(k, region[place as int], c.index % tags_per_byte(k));
            if tag >= k {
                Err(BeadsError::BadTypeSet)
            } else {
                let start = if c.data > place + 1 {
                    c.data
                } else {
                    place + 1
                };
                match read_payload(types[tag as int], region, start) {
                    Err(e) => Err(e),
                    Ok((from, to)) => Ok(
                        (
                            Bead {
                                kind: types[tag as int],
                                data: region.subrange(from as int, to as int),
                            },
                            Cursor { index: c.index + 1, tag: place, data: to },
                        ),
                    ),
                }
            }
        }
    }
}

/// Where a decoder stands before bead `i`, if it read the beads before it.
pub open spec fn cursor_at(types: Seq<BeadType>, region: Seq<u8>, i: nat) -> Result<
    Cursor,
    BeadsError,
>
    decreases i,
{
    if i == 0 {
        Ok(Cursor { index: 0, tag: 0, data: 0 })
    } else {
        match cursor_at(types, region, (i - 1) as nat) {
            Err(e) => Err(e),
            Ok(c) => match read_bead(types, region, c) {
                Err(e) => Err(e),
                Ok((b, next)) => Ok(next),
            },
        }
    }
}

/// Bead `i` as a decoder reads it on its way from the front.
pub open spec fn bead_at(types: Seq<BeadType>, region: Seq<u8>, i: nat) -> Result<
    Bead,
    BeadsError,
> {
    match cursor_at(types, region, i) {
        Err(e) => Err(e),
        Ok(c) => match read_bead(types, region, c) {
            Err(e) => Err(e),
            Ok((b, next)) => Ok(b),
        },
    }
}

/// The state of a sequence under construction: its type set, its beads, and
/// where its open chunk begins.
pub struct SequenceModel {
    pub set: crate::bead_type::BeadTypeSet,
    pub beads: Seq<Bead>,
    pub chunk_start: nat,
}

impl SequenceModel {
    /// The types of the sequence in tag order.
    pub open spec fn types(self) -> Seq<BeadType> {
        self.set.members()
    }

    /// Whether the state is one that a builder can be in.
    pub open spec fn ok(self) -> bool {
        &&& self.set.valid()
        &&& forall|i: int|
            0 <= i < self.beads.len() ==> (#[trigger] self.beads[i]).valid() && self.types().contains(
                self.beads[i].kind,
            )
        &&& if self.types().len() == 1 {
            self.chunk_start == 0
        } else {
            chunk_start_ok(self.types().len(), self.beads.len(), self.chunk_start)
        }
    }

    /// The state once a tag byte is at hand for the next bead: a new chunk
    /// is opened where the open one is full.
    pub open spec fn opened(self) -> SequenceModel {
        if self.types().len() > 1 && self.beads.len() == self.chunk_start + tags_per_byte(
            self.types().len(),
        ) {
            SequenceModel { chunk_start: self.beads.len(), ..self }
        } else {
            self
        }
    }

    /// The state after one more bead.
    pub open spec fn push(self, bead: Bead) -> SequenceModel {
        SequenceModel { beads: self.beads.push(bead), ..self.opened() }
    }

    /// The encoding of the sequence.
    pub open spec fn bytes(self) -> Seq<u8> {
        sequence_bytes(self.types(), self.beads, self.chunk_start)
    }
}

/// The payloads of two runs of beads are the payloads of the first, then of the second.
pub proof fn lemma_payloads_add(a: Seq<Bead>, b: Seq<Bead>)
    ensures
        payloads(a + b) == payloads(a) + payloads(b),
    decreases b.len(),
{
    if b.len() == 0 {
        assert(a + b =~= a);
        assert(payloads(a) + payloads(b) =~= payloads(a));
    } else {
        assert((a + b).drop_last() =~= a + b.drop_last());
        assert((a + b).last() == b.last());
        lemma_payloads_add(a, b.drop_last());
        assert(payloads(a + b) =~= payloads(a) + payloads(b));
    }
}

/// Opening a chunk after a full one adds an empty tag byte to the region.
pub proof fn lemma_region_opened(types: Seq<BeadType>, beads: Seq<Bead>, start: nat)
    requires
        beads.len() == start + tags_per_byte(types.len()),
    ensures
        tagged_region(types, beads, beads.len()) == tagged_region(types, beads, start).push(0u8),
        full_chunks(types, beads.take(beads.len() as int)) == tagged_region(types, beads, start),
{
    let n = beads.len();
    assert(beads.take(n as int) =~= beads);
    assert(beads.skip(n as int) =~= Seq::<Bead>::empty());
    assert(payloads(Seq::<Bead>::empty()) =~= Seq::<u8>::empty());
    assert(chunk(types, Seq::<Bead>::empty()) =~= seq![0u8]);
    assert(full_chunks(types, beads) == full_chunks(types, beads.take(start as int)) + chunk(
        types,
        beads.skip(start as int),
    ));
    assert(tagged_region(types, beads, n) =~= tagged_region(types, beads, start).push(0u8));
}

/// One more bead in the open chunk sets its tag in the tag byte and adds its
/// payload at the end of the region.
pub proof fn lemma_region_push(types: Seq<BeadType>, beads: Seq<Bead>, start: nat, bead: Bead)
    requires
        start <= beads.len(),
    ensures
        ({
            let place = full_chunks(types, beads.take(start as int)).len() as int;
            let before = tagged_region(types, beads, start);
            let slot = beads.len() - start;
            &&& place < before.len()
            &&& tagged_region(types, beads.push(bead), start) == before.update(
                place,
                before[place] | ((tag_of(types, bead.kind) as u8) << ((tag_bits(types.len())
                    * slot) as u8)),
            ) + bead.wire()
        }),
{
    let open = beads.skip(start as int);
    let more = beads.push(bead);
    assert(more.take(start as int) =~= beads.take(start as int));
    assert(more.skip(start as int) =~= open.push(bead));
    assert(open.push(bead).drop_last() =~= open);
    let place = full_chunks(types, beads.take(start as int)).len() as int;
    let before = tagged_region(types, beads, start);
    assert(before[place] == packed_tags(types, open));
    assert(tagged_region(types, more, start) =~= before.update(
        place,
        before[place] | ((tag_of(types, bead.kind) as u8) << ((tag_bits(types.len()) * (beads.len()
            - start)) as u8)),
    ) + bead.wire());
}

/// The tag of a type of `types` is its place there.
pub proof fn lemma_tag_of(types: Seq<BeadType>, kind: BeadType)
    requires
        types.contains(kind),
    ensures
        tag_of(types, kind) < types.len(),
        types[tag_of(types, kind) as int] == kind,
    decreases types.len(),
{
    if types[0] != kind {
        let j = choose|j: int| 0 <= j < types.len() && types[j] == kind;
        assert(types.skip(1)[j - 1] == kind);
        lemma_tag_of(types.skip(1), kind);
    }
}

/// Where each type stands once, the tag of the type at a place is that place.
pub proof fn lemma_tag_of_place(types: Seq<BeadType>, i: int)
    requires
        0 <= i < types.len(),
        forall|a: int, b: int| 0 <= a < b < types.len() ==> types[a] != types[b],
    ensures
        tag_of(types, types[i]) == i,
    decreases types.len(),
{
    if i > 0 {
        assert(types[0] != types[i]);
        let rest = types.skip(1);
        assert forall|a: int, b: int| 0 <= a < b < rest.len() implies rest[a] != rest[b] by {
            assert(rest[a] == types[a + 1]);
            assert(rest[b] == types[b + 1]);
        }
        lemma_tag_of_place(rest, i - 1);
    }
}

/// The payload of an integer in a type that it fits is a bead of that type.
pub proof fn lemma_integer_bead(t: BeadType, v: int)
    requires
        t.fits_integer(v),
    ensures
        (Bead { kind: t, data: t.integer_payload(v) }).valid(),
        (Bead { kind: t, data: t.integer_payload(v) }).wire() == t.integer_payload(v),
{
    match t {
        BeadType::Vlq => {
            lemma_vlq_roundtrip(v as nat, Seq::empty());
            lemma_vlq_len_u128(v as nat);
            assert(vlq_bytes(v as nat) + Seq::<u8>::empty() =~= vlq_bytes(v as nat));
        },
        BeadType::VlqZ => {
            let z = crate::vlq::zigzag(v);
            lemma_vlq_roundtrip(z, Seq::empty());
            lemma_vlq_len_u128(z);
            assert(vlq_bytes(z) + Seq::<u8>::empty() =~= vlq_bytes(z));
        },
        BeadType::I8 | BeadType::I16 | BeadType::I32 | BeadType::I64 | BeadType::I128 => {
            let n = t.fixed_size().unwrap();
            crate::endian::lemma_le_bytes_len(crate::endian::to_unsigned(v, n), n);
        },
        BeadType::U8 | BeadType::U16 | BeadType::U32 | BeadType::U64 | BeadType::U128 => {
            crate::endian::lemma_le_bytes_len(v as nat, t.fixed_size().unwrap());
        },
        _ => {
            crate::endian::lemma_le_bytes_len(
                t.float_format().bits(v),
                t.fixed_size().unwrap(),
            );
        },
    }
}

/// How many tags share a byte, how many bits a tag takes and the mask of a
/// tag, for a set of `k` types.
pub fn tag_layout(k: usize) -> (r: (usize, usize, u8))
    ensures
        r.0 == tags_per_byte(k as nat),
        r.1 == tag_bits(k as nat),
        r.2 == tag_mask(k as nat),
{
    if k <= 2 {
        (8, 1, 1)
    } else if k <= 4 {
        (4, 2, 3)
    } else {
        (2, 4, 15)
    }
}

/// The first `n` beads as a decoder reads them from the front.
pub open spec fn beads_upto(types: Seq<BeadType>, region: Seq<u8>, n: nat) -> Result<
    Seq<Bead>,
    BeadsError,
>
    decreases n,
{
    if n == 0 {
        Ok(Seq::empty())
    } else {
        match beads_upto(types, region, (n - 1) as nat) {
            Err(e) => Err(e),
            Ok(beads) => match bead_at(types, region, (n - 1) as nat) {
                Err(e) => Err(e),
                Ok(b) => Ok(beads.push(b)),
            },
        }
    }
}

/// The contents of the beads.
pub open spec fn contents(beads: Seq<Bead>) -> Seq<Seq<u8>> {
    Seq::new(beads.len(), |i: int| beads[i].data)
}

/// Beads of one type with the given contents.
pub open spec fn beads_of(kind: BeadType, contents: Seq<Seq<u8>>) -> Seq<Bead> {
    Seq::new(contents.len(), |i: int| Bead { kind, data: contents[i] })
}

} // verus!
