use crate::bead_type::BeadType;
use crate::error::BeadsError;
use crate::layout::{
    bead_at, cursor_at, read_bead, read_payload, slot_tag, tag_bits, tag_layout, tag_mask,
    tag_place, tags_per_byte, types_ok, Bead, Cursor,
};
use crate::reference::BeadReference;
use crate::vlq::{lemma_vlq_parse_len, lemma_vlq_parse_prefix, read_vlq, vlq_read};
use vstd::prelude::*;
use vstd::slice::slice_subrange;

verus! {

/// A walk over the beads of a region from the front.
pub struct BeadsIterator<'a, 't> {
    buffer: &'a [u8],
    types: &'t Vec<BeadType>,
    count: usize,
    index: usize,
    tag_cursor: usize,
    data_cursor: usize,
    tags_per_byte: usize,
    tag_shift: usize,
    tag_mask: u8,
}

/// Where the content of a bead of type `bead_type` lies whose payload begins
/// at `start`, and the value of its variable-length integer.
pub fn get_data_length_and_value(buffer: &[u8], bead_type: BeadType, start: usize) -> (r: Result<
    (usize, usize, u128),
    BeadsError,
>)
    ensures
        match read_payload(bead_type, buffer@, start as nat) {
            Ok((from, to)) => r matches Ok((f, t, v)) && f == from && t == to && from <= to
                <= buffer@.len() && (Bead {
                kind: bead_type,
                data: buffer@.subrange(from as int, to as int),
            }).valid() && (bead_type.fixed_size() is Some ==> v == 0) && (bead_type.fixed_size()
                is None ==> if bead_type.is_blob() {
                v == to - from
            } else {
                vlq_read(buffer@.subrange(from as int, to as int)) == Ok::<
                    (nat, nat),
                    BeadsError,
                >(((to - from) as nat, v as nat))
            }),
            Err(e) => r == Err::<(usize, usize, u128), BeadsError>(e),
        },
{
    if start > buffer.len() {
        return Err(BeadsError::TruncatedBuffer);
    }
    let size: u8 = bead_type.data_size();
    if size != crate::bead_type::VARIABLE_SIZE {
        if size as usize <= buffer.len() - start {
            return Ok((start, start + size as usize, 0));
        } else {
            return Err(BeadsError::TruncatedBuffer);
        }
    }
    let rest = slice_subrange(buffer, start, buffer.len());
    proof {
        assert(rest@ =~= buffer@.skip(start as int));
        lemma_vlq_parse_len(rest@);
        lemma_vlq_parse_prefix(rest@);
    }
    match read_vlq(rest) {
        Err(e) => Err(e),
        Ok((n, v)) => {
            proof {
                assert(rest@.take(n as int) =~= buffer@.subrange(start as int, start + n));
            }
            if bead_type == BeadType::Utf8 || bead_type == BeadType::Bytes {
                if v <= (buffer.len() - start - n) as u128 {
                    Ok((start + n, start + n + v as usize, v))
                } else {
                    Err(BeadsError::TruncatedBuffer)
                }
            } else {
                Ok((start, start + n, v))
            }
        },
    }
}

impl<'a, 't> BeadsIterator<'a, 't> {
    /// The region that the iterator walks.
    pub closed spec fn region(&self) -> Seq<u8> {
        self.buffer@
    }

    /// The types of the sequence in tag order.
    pub closed spec fn types(&self) -> Seq<BeadType> {
        self.types@
    }

    /// The index of the next bead.
    pub closed spec fn position(&self) -> nat {
        self.index as nat
    }

    /// The index at which the walk ends.
    pub closed spec fn limit(&self) -> nat {
        self.count as nat
    }

    /// The iterator stands where a decoder stands that read the beads
    /// before the next one.
    #[verifier::type_invariant]
    closed spec fn inv(self) -> bool {
        &&& types_ok(self.types@)
        &&& self.tags_per_byte == tags_per_byte(self.types@.len())
        &&& self.tag_shift == tag_bits(self.types@.len())
        &&& self.tag_mask == tag_mask(self.types@.len())
        &&& self.index <= self.count
        &&& self.data_cursor <= self.buffer@.len()
        &&& self.tag_cursor <= self.buffer@.len()
        &&& self.index > 0 && self.types@.len() > 1 ==> self.tag_cursor < self.buffer@.len()
        &&& cursor_at(self.types@, self.buffer@, self.index as nat) == Ok::<Cursor, BeadsError>(
            self.cursor(),
        )
    }

    /// An iterator at the front of a region of `count` beads.
    pub(crate) fn new(buffer: &'a [u8], count: usize, types: &'t Vec<BeadType>) -> (r: BeadsIterator<
        'a,
        't,
    >)
        requires
            types_ok(types@),
        ensures
            r.region() == buffer@,
            r.types() == types@,
            r.position() == 0,
            r.limit() == count,
    {
        let (per_byte, shift, mask) = tag_layout(types.len());
        BeadsIterator {
            buffer,
            types,
            count,
            index: 0,
            tag_cursor: 0,
            data_cursor: 0,
            tags_per_byte: per_byte,
            tag_shift: shift,
            tag_mask: mask,
        }
    }

    /// The type of the next bead and the place of its tag byte.
    #[verifier::rlimit(50)]
    fn get_type(&self) -> (r: Result<(BeadType, usize), BeadsError>)
        requires
            self.types@.len() > 1,
        ensures
            r matches Ok((t, p)) ==> p < self.buffer@.len(),
            ({
                let k = self.types@.len();
                let c = self.cursor();
                let place = tag_place(k, c);
                if place >= self.buffer@.len() {
                    r == Err::<(BeadType, usize), BeadsError>(BeadsError::TruncatedBuffer)
                } else {
                    let tag = slot_tag(
                        k,
                        self.buffer@[place as int],
                        c.index % tags_per_byte(k),
                    );
                    if tag >= k {
                        r == Err::<(BeadType, usize), BeadsError>(BeadsError::BadTypeSet)
                    } else {
                        r == Ok::<(BeadType, usize), BeadsError>(
                            (self.types@[tag as int], place as usize),
                        )
                    }
                }
            }),
    {
        proof {
            use_type_invariant(self);
        }
        let tag_index: usize = self.index % self.tags_per_byte;
        let place: usize = if self.index > 0 && tag_index == 0 {
            if self.tag_cursor + 1 > self.data_cursor {
                self.tag_cursor + 1
            } else {
                self.data_cursor
            }
        } else {
            self.tag_cursor
        };
        if place >= self.buffer.len() {
            return Err(BeadsError::TruncatedBuffer);
        }
        let tag: u8 = self.buffer[place];
        assert(self.tag_shift * tag_index < 8) by (nonlinear_arith)
            requires
                tag_index < self.tags_per_byte,
                (self.tags_per_byte == 8 && self.tag_shift == 1) || (self.tags_per_byte == 4
                    && self.tag_shift == 2) || (self.tags_per_byte == 2 && self.tag_shift == 4),
        ;
        let shift: usize = self.tag_shift * tag_index;
        let type_index: usize = ((tag >> (shift as u8)) & self.tag_mask) as usize;
        if type_index >= self.types.len() {
            return Err(BeadsError::BadTypeSet);
        }
        Ok((self.types[type_index], place))
    }

    /// The cursor of the iterator.
    pub closed spec fn cursor(&self) -> Cursor {
        Cursor {
            index: self.index as nat,
            tag: self.tag_cursor as nat,
            data: self.data_cursor as nat,
        }
    }

    /// Reads the bead at the cursor without moving: the bead, the place of
    /// its tag byte and the end of its payload.
    #[verifier::rlimit(50)]
    fn read_next(&self) -> (r: Result<(BeadReference<'a>, usize, usize), BeadsError>)
        ensures
            match read_bead(self.types@, self.buffer@, self.cursor()) {
                Ok((b, next)) => r matches Ok((x, tag, data)) && x@ == b && next == (Cursor {
                    index: self.index as nat + 1,
                    tag: tag as nat,
                    data: data as nat,
                }) && data <= self.buffer@.len() && tag <= self.buffer@.len() && (self.types@.len()
                    > 1 ==> tag < self.buffer@.len()),
                Err(e) => r matches Err(x) && x == e,
            },
    {
        proof {
            use_type_invariant(self);
        }
        let kind: BeadType;
        let place: usize;
        let start: usize;
        if self.types.len() == 1 {
            kind = self.types[0];
            place = self.tag_cursor;
            start = self.data_cursor;
        } else {
            match self.get_type() {
                Err(e) => {
                    return Err(e);
                },
                Ok((t, p)) => {
                    kind = t;
                    place = p;
                    let end: usize = self.buffer.len();
                    assert(p < end);
                    start = if self.data_cursor > p + 1 {
                        self.data_cursor
                    } else {
                        p + 1
                    };
                },
            }
        }
        match get_data_length_and_value(self.buffer, kind, start) {
            Err(e) => Err(e),
            Ok((from, to, value)) => {
                let r = BeadReference::new(kind, slice_subrange(self.buffer, from, to), value);
                Ok((r, place, to))
            },
        }
    }

    /// The next bead, or the reason why it cannot be read, which ends the
    /// walk; nothing at the end of the walk.
    #[verifier::rlimit(50)]
    pub fn next(&mut self) -> (r: Option<Result<BeadReference<'a>, BeadsError>>)
        ensures
            final(self).region() == old(self).region(),
            final(self).types() == old(self).types(),
            old(self).position() >= old(self).limit() ==> r is None && final(self).position()
                == old(self).position() && final(self).limit() == old(self).limit(),
            old(self).position() < old(self).limit() ==> match bead_at(
                old(self).types(),
                old(self).region(),
                old(self).position(),
            ) {
                Ok(b) => r matches Some(Ok(x)) && x@ == b && final(self).position() == old(self).position() + 1 && final(self).limit() == old(self).limit(),
                Err(e) => r matches Some(Err(x)) && x == e && final(self).position() == old(self).position() && final(self).limit() == old(self).position(),
            },
    {
        proof {
            use_type_invariant(&*self);
        }
        if self.index >= self.count {
            return None;
        }
        match self.read_next() {
            Err(e) => {
                self.count = self.index;
                Some(Err(e))
            },
            Ok((x, tag, data)) => {
                proof {
                    assert(cursor_at(self.types@, self.buffer@, self.index as nat + 1) == Ok::<
                        Cursor,
                        BeadsError,
                    >(Cursor { index: self.index as nat + 1, tag: tag as nat, data: data as nat }));
                }
                *self = BeadsIterator {
                    index: self.index + 1,
                    tag_cursor: tag,
                    data_cursor: data,
                    ..*self
                };
                Some(Ok(x))
            },
        }
    }
}

} // verus!
