use crate::bead_type::BeadType;
use crate::error::BeadsError;
use crate::layout::{
    bead_at, cursor_at, read_bead, slot_tag, tag_place, tags_per_byte, types_ok, Bead, Cursor,
};
use crate::sequence::{symmetric_get, symmetric_types};
use vstd::prelude::*;

verus! {

/// Where a decoder stands before bead `i` of a region whose beads all have
/// `size` payload bytes.
pub open spec fn symmetric_cursor(k: nat, size: nat, i: nat) -> Cursor {
    let t = tags_per_byte(k);
    if i == 0 {
        Cursor { index: 0, tag: 0, data: 0 }
    } else if k == 1 {
        Cursor { index: i, tag: 0, data: i * size }
    } else {
        Cursor {
            index: i,
            tag: ((i - 1) / t as int + size * t * ((i - 1) / t as int)) as nat,
            data: ((i - 1) / t as int + 1 + i * size) as nat,
        }
    }
}

/// The size that the types of a symmetric sequence share is one of the fixed sizes.
pub proof fn lemma_symmetric_size(types: Seq<BeadType>)
    requires
        symmetric_types(types),
    ensures
        ({
            let size = types[0].fixed_size().unwrap();
            size == 0 || size == 1 || size == 2 || size == 4 || size == 8 || size == 16
        }),
        forall|i: int|
            0 <= i < types.len() ==> (#[trigger] types[i]).fixed_size() == Some(
                types[0].fixed_size().unwrap(),
            ),
{
    assert(types[0].fixed_size() is Some);
}

/// What a decoder reads before bead `i` of a symmetric sequence is what the
/// symmetric view finds at `i`.
#[verifier::rlimit(50)]
pub proof fn lemma_symmetric_read(types: Seq<BeadType>, region: Seq<u8>, count: nat, i: nat)
    requires
        types_ok(types),
        symmetric_types(types),
        i < count,
    ensures
        ({
            let size = types[0].fixed_size().unwrap();
            match read_bead(types, region, symmetric_cursor(types.len(), size, i)) {
                Ok((b, next)) => symmetric_get(types, region, count, i) == Ok::<Bead, BeadsError>(
                    b,
                ) && next == symmetric_cursor(types.len(), size, i + 1),
                Err(e) => symmetric_get(types, region, count, i) == Err::<Bead, BeadsError>(e),
            }
        }),
{
    let k = types.len();
    let t = tags_per_byte(k);
    let size = types[0].fixed_size().unwrap();
    let c = symmetric_cursor(k, size, i);
    lemma_symmetric_size(types);
    assert(t == 8 || t == 4 || t == 2);
    if k == 1 {
        assert((i + 1) * size == i * size + size) by (nonlinear_arith);
        if i == 0 {
            assert(i * size == 0) by (nonlinear_arith)
                requires
                    i == 0,
            ;
        }
    } else {
        let m = i / t;
        let place = m + size * t * m;
        lemma_symmetric_place(t, size, i);
        assert(tag_place(k, c) == place);
        if place < region.len() {
            let tag = slot_tag(k, region[place as int], i % t);
            if tag < k {
                assert(types[tag as int].fixed_size() == Some(size));
            }
        }
    }
}

/// The arithmetic of the symmetric layout: where the tag byte and the
/// payload of bead `i` stand, from where the decoder stood before it.
#[verifier::rlimit(50)]
pub proof fn lemma_symmetric_place(t: nat, size: nat, i: nat)
    requires
        t == 8 || t == 4 || t == 2,
        size == 0 || size == 1 || size == 2 || size == 4 || size == 8 || size == 16,
    ensures
        ({
            let m = i / t;
            let place = m + size * t * m;
            let before = (i - 1) / t as int;
            &&& i > 0 && i % t == 0 ==> before == m - 1 && before + size * t * before + 1
                <= before + 1 + i * size && before + 1 + i * size == place
            &&& i > 0 && i % t != 0 ==> before == m && before + size * t * before == place
                && place + 1 <= before + 1 + i * size
            &&& i == 0 ==> place == 0 && i * size == 0
            &&& m + 1 + (i + 1) * size == m + 1 + i * size + size
            &&& i * size >= 0
        }),
{
    let m = i / t;
    let r = i % t;
    assert(i == t * m + r);
    assert(i * size == size * t * m + size * r) by (nonlinear_arith)
        requires
            i == t * m + r,
    ;
    assert((i + 1) * size == i * size + size) by (nonlinear_arith);
    assert(size * t * m >= 0 && size * r >= 0) by (nonlinear_arith)
        requires
            size >= 0,
            t >= 0,
            m >= 0,
            r >= 0,
    ;
    if i > 0 && r == 0 {
        let before = (i - 1) / t as int;
        assert(before == m - 1);
        assert(size * t * m == size * t * before + size * t) by (nonlinear_arith)
            requires
                before == m - 1,
        ;
        assert(size * t >= 0) by (nonlinear_arith)
            requires
                size >= 0,
                t >= 0,
        ;
    }
    if i == 0 {
        assert(size * t * m == 0) by (nonlinear_arith)
            requires
                m == 0,
        ;
    }
}

/// A decoder that reaches bead `i` of a symmetric sequence stands where the
/// symmetric layout has it.
pub proof fn lemma_symmetric_cursor(types: Seq<BeadType>, region: Seq<u8>, count: nat, i: nat)
    requires
        types_ok(types),
        symmetric_types(types),
        i <= count,
        cursor_at(types, region, i) is Ok,
    ensures
        cursor_at(types, region, i) == Ok::<Cursor, BeadsError>(
            symmetric_cursor(types.len(), types[0].fixed_size().unwrap(), i),
        ),
    decreases i,
{
    if i > 0 {
        lemma_symmetric_cursor(types, region, count, (i - 1) as nat);
        lemma_symmetric_read(types, region, count, (i - 1) as nat);
    }
}

/// Symmetric-indexing equivalence: for every bead of a symmetric sequence
/// that a walk from the front reaches, the symmetric view finds what the
/// walk reads there, or fails as the walk does.
pub proof fn lemma_symmetric_equivalence(types: Seq<BeadType>, region: Seq<u8>, count: nat, i: nat)
    requires
        types_ok(types),
        symmetric_types(types),
        i < count,
        cursor_at(types, region, i) is Ok,
    ensures
        symmetric_get(types, region, count, i) == bead_at(types, region, i),
{
    lemma_symmetric_cursor(types, region, count, i);
    lemma_symmetric_read(types, region, count, i);
}

} // verus!
