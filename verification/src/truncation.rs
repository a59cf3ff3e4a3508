use crate::bead_type::BeadType;
use crate::error::BeadsError;
use crate::layout::{
    bead_at, cursor_at, read_bead, read_payload, slot_tag, tag_place, tags_per_byte, types_ok,
    Bead, Cursor,
};
use crate::vlq::{lemma_vlq_parse_extend, lemma_vlq_parse_len};
use vstd::prelude::*;

verus! {

/// Whether a read failed for want of bytes.
pub open spec fn is_shortage(e: BeadsError) -> bool {
    e == BeadsError::TruncatedBuffer || e == BeadsError::InvalidVarint
}

/// A payload that is read in a region is read the same in the front part
/// of the region, or the front part is too short.
#[verifier::rlimit(50)]
pub proof fn lemma_truncated_payload(kind: BeadType, region: Seq<u8>, cut: nat, start: nat)
    requires
        cut <= region.len(),
        read_payload(kind, region, start) is Ok,
    ensures
        match read_payload(kind, region.take(cut as int), start) {
            Ok((from, to)) => read_payload(kind, region, start) == Ok::<(nat, nat), BeadsError>(
                (from, to),
            ) && from <= to <= cut,
            Err(e) => is_shortage(e),
        },
{
    let front = region.take(cut as int);
    if start <= cut && kind.fixed_size() is None {
        let rest = region.skip(cut as int);
        assert(front.skip(start as int) + rest =~= region.skip(start as int));
        lemma_vlq_parse_extend(front.skip(start as int), rest);
        lemma_vlq_parse_len(front.skip(start as int));
    }
}

/// A bead that is read in a region is read the same in the front part of
/// the region, or the front part is too short.
#[verifier::rlimit(50)]
pub proof fn lemma_truncated_read(types: Seq<BeadType>, region: Seq<u8>, cut: nat, c: Cursor)
    requires
        types_ok(types),
        cut <= region.len(),
        read_bead(types, region, c) is Ok,
    ensures
        match read_bead(types, region.take(cut as int), c) {
            Ok(read) => read_bead(types, region, c) == Ok::<(Bead, Cursor), BeadsError>(read),
            Err(e) => is_shortage(e),
        },
{
    let k = types.len();
    let front = region.take(cut as int);
    if k == 1 {
        lemma_truncated_payload(types[0], region, cut, c.data);
        match read_payload(types[0], front, c.data) {
            Ok((from, to)) => {
                assert(front.subrange(from as int, to as int) =~= region.subrange(
                    from as int,
                    to as int,
                ));
            },
            Err(e) => {},
        }
    } else {
        let place = tag_place(k, c);
        if place < cut {
            assert(front[place as int] == region[place as int]);
            let tag = slot_tag(k, region[place as int], c.index % tags_per_byte(k));
            let start = if c.data > place + 1 {
                c.data
            } else {
                place + 1
            };
            lemma_truncated_payload(types[tag as int], region, cut, start);
            match read_payload(types[tag as int], front, start) {
                Ok((from, to)) => {
                    assert(front.subrange(from as int, to as int) =~= region.subrange(
                        from as int,
                        to as int,
                    ));
                },
                Err(e) => {},
            }
        }
    }
}

/// Where a decoder stands in the front part of a region is where it
/// stands in the region, unless the front part is too short.
pub proof fn lemma_truncated_cursor(types: Seq<BeadType>, region: Seq<u8>, cut: nat, i: nat)
    requires
        types_ok(types),
        cut <= region.len(),
        cursor_at(types, region, i) is Ok,
    ensures
        match cursor_at(types, region.take(cut as int), i) {
            Ok(c) => cursor_at(types, region, i) == Ok::<Cursor, BeadsError>(c),
            Err(e) => is_shortage(e),
        },
    decreases i,
{
    if i > 0 {
        lemma_truncated_cursor(types, region, cut, (i - 1) as nat);
        let before = cursor_at(types, region, (i - 1) as nat).unwrap();
        lemma_truncated_read(types, region, cut, before);
    }
}

/// Truncated data: a bead that a walk reads in a region is read the same
/// where the end of the region is cut off, or the read fails there with
/// `TruncatedBuffer` or `InvalidVarint`.
pub proof fn lemma_truncated_bead(types: Seq<BeadType>, region: Seq<u8>, cut: nat, i: nat)
    requires
        types_ok(types),
        cut <= region.len(),
        bead_at(types, region, i) is Ok,
    ensures
        match bead_at(types, region.take(cut as int), i) {
            Ok(b) => bead_at(types, region, i) == Ok::<Bead, BeadsError>(b),
            Err(e) => is_shortage(e),
        },
{
    lemma_truncated_cursor(types, region, cut, i);
    lemma_truncated_read(types, region, cut, cursor_at(types, region, i).unwrap());
}

} // verus!
