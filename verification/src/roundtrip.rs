use crate::bead_type::{lemma_members, BeadType, BeadTypeSet};
use crate::layout::SequenceModel;
use crate::sequence::sequence_parts;
use crate::error::BeadsError;
use crate::layout::{
    bead_at, beads_upto, chunk, chunk_start_ok, cursor_at, full_chunks, lemma_payloads_add,
    lemma_tag_of, packed_tags, payloads, read_bead, read_payload, region, slot_tag, tag_bits,
    tag_mask, tag_of, tag_place, tagged_region, tags_per_byte, types_ok, Bead, Cursor,
};
use crate::vlq::{lemma_vlq_len_u128, lemma_vlq_parse_extend, lemma_vlq_roundtrip, vlq_bytes};
use vstd::prelude::*;

verus! {

/// The number of payload bytes of the beads before bead `i`.
pub open spec fn data_before(beads: Seq<Bead>, i: nat) -> nat {
    payloads(beads.take(i as int)).len()
}

/// The payload of bead `i` stands in the payloads after those of the beads before it.
pub proof fn lemma_payload_at(beads: Seq<Bead>, i: nat)
    requires
        i < beads.len(),
    ensures
        data_before(beads, i + 1) == data_before(beads, i) + beads[i as int].wire().len(),
        data_before(beads, i + 1) <= payloads(beads).len(),
        payloads(beads).subrange(
            data_before(beads, i) as int,
            data_before(beads, i + 1) as int,
        ) == beads[i as int].wire(),
{
    let upto = beads.take(i as int + 1);
    assert(upto.drop_last() =~= beads.take(i as int));
    assert(upto.last() == beads[i as int]);
    assert(payloads(upto) == payloads(beads.take(i as int)) + beads[i as int].wire());
    assert(upto + beads.skip(i as int + 1) =~= beads);
    lemma_payloads_add(upto, beads.skip(i as int + 1));
    assert(payloads(beads).subrange(
        data_before(beads, i) as int,
        data_before(beads, i + 1) as int,
    ) =~= beads[i as int].wire());
}

/// A bead whose payload stands at `start` in a region is read there: its
/// content is found, and the read ends where the payload ends.
#[verifier::rlimit(50)]
pub proof fn lemma_read_payload(bead: Bead, region: Seq<u8>, start: nat)
    requires
        bead.valid(),
        start + bead.wire().len() <= region.len(),
        region.subrange(start as int, (start + bead.wire().len()) as int) == bead.wire(),
    ensures
        read_payload(bead.kind, region, start) matches Ok((from, to)) && to == start
            + bead.wire().len() && from <= to && region.subrange(from as int, to as int)
            == bead.data,
{
    let wire = bead.wire();
    let end = start + wire.len();
    let rest = region.skip(end as int);
    assert(region.skip(start as int) =~= wire + rest);
    match bead.kind.fixed_size() {
        Some(n) => {},
        None => {
            if bead.kind.is_blob() {
                let length = bead.data.len();
                lemma_vlq_roundtrip(length, bead.data + rest);
                lemma_vlq_len_u128(length);
                assert(wire + rest =~= vlq_bytes(length) + (bead.data + rest));
                let n = vlq_bytes(length).len();
                assert(wire.len() == n + length);
                assert(wire.subrange(n as int, (n + length) as int) =~= bead.data);
                assert(region.subrange(start as int, end as int).subrange(
                    n as int,
                    (n + length) as int,
                ) =~= region.subrange((start + n) as int, (start + n + length) as int));
            } else {
                lemma_vlq_parse_extend(bead.data, rest);
            }
        },
    }
}

/// A tag set above the tags of a byte is read back from its slot and
/// leaves the bits above it clear.
pub proof fn lemma_tag_top(a: u8, g: u8, s: u8, b: u8, mask: u8)
    requires
        (b == 1 && mask == 1) || (b == 2 && mask == 3) || (b == 4 && mask == 15),
        g <= mask,
        s + b <= 8,
        a >> s == 0,
    ensures
        ((a | (g << s)) >> s) & mask == g,
        s + b < 8 ==> (a | (g << s)) >> ((s + b) as u8) == 0,
{
    assert(((a | (g << s)) >> s) & mask == g) by (bit_vector)
        requires
            (b == 1 && mask == 1) || (b == 2 && mask == 3) || (b == 4 && mask == 15),
            g <= mask,
            s + b <= 8,
            a >> s == 0,
    ;
    if s + b < 8 {
        let top: u8 = (s + b) as u8;
        assert((a | (g << s)) >> top == 0) by (bit_vector)
            requires
                (b == 1 && mask == 1) || (b == 2 && mask == 3) || (b == 4 && mask == 15),
                g <= mask,
                top == s + b,
                top < 8,
                a >> s == 0,
        ;
    }
}

/// A tag set above the tags of a byte leaves the slots below as they were.
pub proof fn lemma_tag_low(a: u8, g: u8, s: u8, r: u8, b: u8, mask: u8)
    requires
        (b == 1 && mask == 1) || (b == 2 && mask == 3) || (b == 4 && mask == 15),
        s + b <= 8,
        r + b <= s,
    ensures
        ((a | (g << s)) >> r) & mask == (a >> r) & mask,
{
    assert(((a | (g << s)) >> r) & mask == (a >> r) & mask) by (bit_vector)
        requires
            (b == 1 && mask == 1) || (b == 2 && mask == 3) || (b == 4 && mask == 15),
            s + b <= 8,
            r + b <= s,
    ;
}

/// Whether the beads are valid beads of the types.
pub open spec fn beads_ok(types: Seq<BeadType>, beads: Seq<Bead>) -> bool {
    forall|i: int|
        0 <= i < beads.len() ==> (#[trigger] beads[i]).valid() && types.contains(beads[i].kind)
}

/// The bits of a tag byte above the tags of its beads are clear.
pub proof fn lemma_packed_clear(types: Seq<BeadType>, beads: Seq<Bead>)
    requires
        types_ok(types),
        beads_ok(types, beads),
        beads.len() <= tags_per_byte(types.len()),
    ensures
        tag_bits(types.len()) * beads.len() < 8 ==> packed_tags(types, beads) >> ((tag_bits(
            types.len(),
        ) * beads.len()) as u8) == 0,
    decreases beads.len(),
{
    let k = types.len();
    let b = tag_bits(k);
    let n = beads.len();
    if n == 0 {
        assert(0u8 >> 0u8 == 0) by (bit_vector);
        assert(b * n == 0) by (nonlinear_arith)
            requires
                n == 0,
        ;
    } else {
        let rest = beads.drop_last();
        assert(beads_ok(types, rest)) by {
            assert forall|i: int| 0 <= i < rest.len() implies (#[trigger] rest[i]).valid()
                && types.contains(rest[i].kind) by {
                assert(rest[i] == beads[i]);
            }
        }
        lemma_packed_clear(types, rest);
        lemma_tag_of(types, beads.last().kind);
        lemma_shift_bounds(k, (n - 1) as nat);
        let a = packed_tags(types, rest);
        let g = tag_of(types, beads.last().kind) as u8;
        let s = (b * (n - 1)) as u8;
        assert(b * (n - 1) + b == b * n) by (nonlinear_arith);
        lemma_tag_top(a, g, s, b as u8, tag_mask(k));
    }
}

/// A slot of a tag byte lies within the byte.
pub proof fn lemma_shift_bounds(k: nat, slot: nat)
    requires
        slot < tags_per_byte(k),
    ensures
        tag_bits(k) * slot + tag_bits(k) <= 8,
        tag_bits(k) * slot >= 0,
{
    let b = tag_bits(k);
    let t = tags_per_byte(k);
    assert(b * slot + b <= 8) by (nonlinear_arith)
        requires
            slot < t,
            (t == 8 && b == 1) || (t == 4 && b == 2) || (t == 2 && b == 4),
    ;
}

/// The tag byte of a chunk holds the tag of each of its beads in its slot.
pub proof fn lemma_packed_slot(types: Seq<BeadType>, beads: Seq<Bead>, j: nat)
    requires
        types_ok(types),
        beads_ok(types, beads),
        beads.len() <= tags_per_byte(types.len()),
        j < beads.len(),
    ensures
        slot_tag(types.len(), packed_tags(types, beads), j) == tag_of(
            types,
            beads[j as int].kind,
        ),
    decreases beads.len(),
{
    let k = types.len();
    let b = tag_bits(k);
    let n = beads.len();
    let rest = beads.drop_last();
    assert(beads_ok(types, rest)) by {
        assert forall|i: int| 0 <= i < rest.len() implies (#[trigger] rest[i]).valid()
            && types.contains(rest[i].kind) by {
            assert(rest[i] == beads[i]);
        }
    }
    lemma_tag_of(types, beads.last().kind);
    lemma_shift_bounds(k, (n - 1) as nat);
    lemma_packed_clear(types, rest);
    let a = packed_tags(types, rest);
    let g = tag_of(types, beads.last().kind) as u8;
    let s = (b * (n - 1)) as u8;
    if j == n - 1 {
        lemma_tag_top(a, g, s, b as u8, tag_mask(k));
    } else {
        lemma_packed_slot(types, rest, j);
        assert(rest[j as int] == beads[j as int]);
        let r = (b * j) as u8;
        assert(b * j + b <= b * (n - 1)) by (nonlinear_arith)
            requires
                j + 1 <= n - 1,
                b >= 0,
        ;
        lemma_tag_low(a, g, s, r, b as u8, tag_mask(k));
    }
}

/// Full chunks have one tag byte for every `tags_per_byte` beads, and the payloads.
pub proof fn lemma_full_chunks_len(types: Seq<BeadType>, beads: Seq<Bead>)
    requires
        beads.len() % tags_per_byte(types.len()) == 0,
    ensures
        full_chunks(types, beads).len() == beads.len() / tags_per_byte(types.len()) + payloads(
            beads,
        ).len(),
    decreases beads.len(),
{
    let t = tags_per_byte(types.len());
    let n = beads.len();
    if n >= t {
        let head = beads.take(n - t);
        let tail = beads.skip(n - t);
        lemma_full_chunks_len(types, head);
        assert(head + tail =~= beads);
        lemma_payloads_add(head, tail);
    } else {
        assert(n == 0);
        assert(payloads(beads) =~= Seq::<u8>::empty());
    }
}

/// The chunk that begins at bead `g` stands in the full chunks after one
/// tag byte for every chunk before it and the payloads of the beads before it.
#[verifier::rlimit(50)]
pub proof fn lemma_full_chunks_chunk(types: Seq<BeadType>, beads: Seq<Bead>, g: nat)
    requires
        beads.len() % tags_per_byte(types.len()) == 0,
        g % tags_per_byte(types.len()) == 0,
        g + tags_per_byte(types.len()) <= beads.len(),
    ensures
        ({
            let t = tags_per_byte(types.len());
            let place = g / t + data_before(beads, g);
            let part = chunk(types, beads.subrange(g as int, (g + t) as int));
            &&& place + part.len() <= full_chunks(types, beads).len()
            &&& full_chunks(types, beads).subrange(place as int, (place + part.len()) as int)
                == part
        }),
    decreases beads.len(),
{
    let t = tags_per_byte(types.len());
    let n = beads.len();
    let head = beads.take(n - t);
    let tail = beads.skip(n - t);
    let all = full_chunks(types, beads);
    let place = g / t + data_before(beads, g);
    let part = chunk(types, beads.subrange(g as int, (g + t) as int));
    assert(all == full_chunks(types, head) + chunk(types, tail));
    if g + t == n {
        lemma_full_chunks_len(types, head);
        assert(head =~= beads.take(g as int));
        assert(tail =~= beads.subrange(g as int, (g + t) as int));
        assert(all.subrange(place as int, (place + part.len()) as int) =~= part);
    } else {
        lemma_full_chunks_chunk(types, head, g);
        assert(head.take(g as int) =~= beads.take(g as int));
        assert(head.subrange(g as int, (g + t) as int) =~= beads.subrange(
            g as int,
            (g + t) as int,
        ));
        assert(all.subrange(place as int, (place + part.len()) as int) =~= full_chunks(
            types,
            head,
        ).subrange(place as int, (place + part.len()) as int));
    }
}

/// Where the chunk ends that begins at bead `g`, when the open chunk begins at `start`.
pub open spec fn chunk_end(k: nat, n: nat, start: nat, g: nat) -> nat {
    if g == start {
        n
    } else {
        g + tags_per_byte(k)
    }
}

/// The chunk that begins at bead `g` stands in the region after one tag
/// byte for every chunk before it and the payloads of the beads before it;
/// the open chunk ends the region.
#[verifier::rlimit(50)]
pub proof fn lemma_region_chunk(types: Seq<BeadType>, beads: Seq<Bead>, start: nat, g: nat)
    requires
        chunk_start_ok(types.len(), beads.len(), start),
        g % tags_per_byte(types.len()) == 0,
        g <= start,
    ensures
        ({
            let t = tags_per_byte(types.len());
            let region = tagged_region(types, beads, start);
            let place = g / t + data_before(beads, g);
            let part = chunk(
                types,
                beads.subrange(g as int, chunk_end(types.len(), beads.len(), start, g) as int),
            );
            &&& place + part.len() <= region.len()
            &&& g == start ==> place + part.len() == region.len()
            &&& region.subrange(place as int, (place + part.len()) as int) == part
        }),
{
    let t = tags_per_byte(types.len());
    let n = beads.len();
    let full = beads.take(start as int);
    let region = tagged_region(types, beads, start);
    let place = g / t + data_before(beads, g);
    let part = chunk(
        types,
        beads.subrange(g as int, chunk_end(types.len(), beads.len(), start, g) as int),
    );
    if g == start {
        lemma_full_chunks_len(types, full);
        assert(beads.skip(start as int) =~= beads.subrange(g as int, n as int));
        assert(region.subrange(place as int, (place + part.len()) as int) =~= part);
    } else {
        assert(g + t <= start) by {
            assert(g % t == 0 && start % t == 0 && g < start);
            assert(t == 8 || t == 4 || t == 2);
        }
        lemma_full_chunks_chunk(types, full, g);
        assert(full.take(g as int) =~= beads.take(g as int));
        assert(full.subrange(g as int, (g + t) as int) =~= beads.subrange(
            g as int,
            (g + t) as int,
        ));
        assert(region.subrange(place as int, (place + part.len()) as int) =~= full_chunks(
            types,
            full,
        ).subrange(place as int, (place + part.len()) as int));
    }
}

/// More beads have no fewer payload bytes.
pub proof fn lemma_data_before_grows(beads: Seq<Bead>, a: nat, b: nat)
    requires
        a <= b <= beads.len(),
    ensures
        data_before(beads, a) <= data_before(beads, b),
{
    assert(beads.take(b as int) =~= beads.take(a as int) + beads.subrange(a as int, b as int));
    lemma_payloads_add(beads.take(a as int), beads.subrange(a as int, b as int));
}

/// The chunk of bead `i` begins at the multiple of `tags_per_byte` below
/// it, which is no later than the open chunk.
pub proof fn lemma_chunk_of(k: nat, n: nat, start: nat, i: nat)
    requires
        chunk_start_ok(k, n, start),
        i < n,
    ensures
        ({
            let t = tags_per_byte(k);
            let g = (i / t * t) as nat;
            &&& g <= i < g + t
            &&& g % t == 0
            &&& g / t == i / t
            &&& i - g == i % t
            &&& g == start || g + t <= start
            &&& i < chunk_end(k, n, start, g)
        }),
{
    let t = tags_per_byte(k);
    assert(t == 8 || t == 4 || t == 2);
    let g = (i / t * t) as nat;
    assert(g <= i < g + t && g % t == 0 && g / t == i / t && i - g == i % t);
    if i >= start {
        assert(i < start + t);
        assert(start % t == 0);
        assert(g == start);
    } else {
        assert(start % t == 0);
        assert(g + t <= start);
    }
}

/// A bead of a chunk that stands at `place` in a region: its tag is in its
/// slot of the byte at `place`, and its payload after that byte and the
/// payloads of the chunk's beads before it.
#[verifier::rlimit(50)]
pub proof fn lemma_bead_in_chunk(
    types: Seq<BeadType>,
    part: Seq<Bead>,
    j: nat,
    region: Seq<u8>,
    place: nat,
)
    requires
        types_ok(types),
        beads_ok(types, part),
        part.len() <= tags_per_byte(types.len()),
        j < part.len(),
        place + chunk(types, part).len() <= region.len(),
        region.subrange(place as int, (place + chunk(types, part).len()) as int) == chunk(
            types,
            part,
        ),
    ensures
        ({
            let from = place + 1 + data_before(part, j);
            let wire = part[j as int].wire();
            &&& slot_tag(types.len(), region[place as int], j) == tag_of(
                types,
                part[j as int].kind,
            )
            &&& from + wire.len() <= region.len()
            &&& region.subrange(from as int, (from + wire.len()) as int) == wire
        }),
{
    let whole = chunk(types, part);
    let wire = part[j as int].wire();
    let before = data_before(part, j);
    let from = place + 1 + before;
    lemma_packed_slot(types, part, j);
    lemma_payload_at(part, j);
    let window = region.subrange(place as int, (place + whole.len()) as int);
    assert(window[0] == region[place as int]);
    assert(whole[0] == packed_tags(types, part));
    assert(whole.subrange(1 + before as int, 1 + before as int + wire.len()) =~= payloads(
        part,
    ).subrange(before as int, data_before(part, j + 1) as int));
    assert(window.subrange(1 + before as int, 1 + before as int + wire.len())
        =~= region.subrange(from as int, (from + wire.len()) as int));
}

/// Bead `i` of a tagged region: its tag stands in its slot of the tag byte
/// of its chunk, and its payload after the tag bytes up to that one and the
/// payloads of the beads before it.
#[verifier::rlimit(50)]
pub proof fn lemma_bead_placed(types: Seq<BeadType>, beads: Seq<Bead>, start: nat, i: nat)
    requires
        types_ok(types),
        beads_ok(types, beads),
        chunk_start_ok(types.len(), beads.len(), start),
        i < beads.len(),
    ensures
        ({
            let t = tags_per_byte(types.len());
            let region = tagged_region(types, beads, start);
            let place = i / t + data_before(beads, (i / t * t) as nat);
            let from = i / t + 1 + data_before(beads, i);
            let wire = beads[i as int].wire();
            &&& place < region.len()
            &&& slot_tag(types.len(), region[place as int], i % t) == tag_of(
                types,
                beads[i as int].kind,
            )
            &&& from + wire.len() <= region.len()
            &&& region.subrange(from as int, (from + wire.len()) as int) == wire
        }),
{
    let k = types.len();
    let t = tags_per_byte(k);
    let n = beads.len();
    let g = (i / t * t) as nat;
    lemma_chunk_of(k, n, start, i);
    let e = chunk_end(k, n, start, g);
    let part = beads.subrange(g as int, e as int);
    let j = (i - g) as nat;
    assert(part[j as int] == beads[i as int]);
    assert(beads_ok(types, part)) by {
        assert forall|x: int| 0 <= x < part.len() implies (#[trigger] part[x]).valid()
            && types.contains(part[x].kind) by {
            assert(part[x] == beads[g + x]);
        }
    }
    lemma_region_chunk(types, beads, start, g);
    let region = tagged_region(types, beads, start);
    let place = g / t + data_before(beads, g);
    lemma_bead_in_chunk(types, part, j, region, place);
    assert(data_before(beads, i) == data_before(beads, g) + data_before(part, j)) by {
        assert(beads.take(i as int) =~= beads.take(g as int) + part.take(j as int));
        lemma_payloads_add(beads.take(g as int), part.take(j as int));
    }
}

/// Where a decoder stands before bead `i` of a region of valid beads.
pub open spec fn cursor_before(k: nat, beads: Seq<Bead>, i: nat) -> Cursor {
    let t = tags_per_byte(k);
    if i == 0 {
        Cursor { index: 0, tag: 0, data: 0 }
    } else if k == 1 {
        Cursor { index: i, tag: 0, data: data_before(beads, i) }
    } else {
        Cursor {
            index: i,
            tag: ((i - 1) / t as int + data_before(beads, ((i - 1) / t as int * t) as nat)) as nat,
            data: ((i - 1) / t as int + 1 + data_before(beads, i)) as nat,
        }
    }
}

/// Where the walk over a tagged region finds bead `i`: the decoder that
/// stands before it takes the tag from the tag byte of its chunk and the
/// payload from behind the payloads before it, and stands before the next
/// bead then.
#[verifier::rlimit(50)]
pub proof fn lemma_walk_places(k: nat, beads: Seq<Bead>, i: nat)
    requires
        k > 1,
        i < beads.len(),
    ensures
        ({
            let t = tags_per_byte(k);
            let c = cursor_before(k, beads, i);
            let place = i / t + data_before(beads, (i / t * t) as nat);
            let from = i / t + 1 + data_before(beads, i);
            &&& tag_place(k, c) == place
            &&& c.index == i
            &&& c.data <= from
            &&& place + 1 <= from
            &&& c.data == from || place + 1 == from
            &&& cursor_before(k, beads, i + 1) == (Cursor {
                index: i + 1,
                tag: place,
                data: from + beads[i as int].wire().len(),
            })
        }),
{
    let t = tags_per_byte(k);
    assert(t == 8 || t == 4 || t == 2);
    assert(beads.take(0) =~= Seq::<Bead>::empty());
    assert(data_before(beads, 0) == 0);
    lemma_payload_at(beads, i);
    let g = (i / t * t) as nat;
    assert(g <= i);
    lemma_data_before_grows(beads, g, i);
    if i > 0 {
        let h = ((i - 1) / t as int * t) as nat;
        assert(h <= i);
        lemma_data_before_grows(beads, h, i);
        if i % t == 0 {
            assert((i - 1) / t as int == i / t - 1);
            assert(g == i);
        } else {
            assert((i - 1) / t as int == i / t);
            assert(h == g);
        }
    }
    assert((i + 1 - 1) / t as int == i / t);
}

/// A decoder that stands before bead `i` of a region of one type reads that bead.
#[verifier::rlimit(50)]
pub proof fn lemma_read_single(types: Seq<BeadType>, beads: Seq<Bead>, start: nat, i: nat)
    requires
        types_ok(types),
        types.len() == 1,
        beads_ok(types, beads),
        i < beads.len(),
    ensures
        read_bead(types, region(types, beads, start), cursor_before(1, beads, i)) == Ok::<
            (Bead, Cursor),
            BeadsError,
        >((beads[i as int], cursor_before(1, beads, i + 1))),
{
    let whole = region(types, beads, start);
    let bead = beads[i as int];
    let wire = bead.wire();
    assert(beads.take(0) =~= Seq::<Bead>::empty());
    assert(data_before(beads, 0) == 0);
    lemma_payload_at(beads, i);
    assert(bead.kind == types[0]) by {
        let x = choose|x: int| 0 <= x < types.len() && types[x] == bead.kind;
    }
    let from = data_before(beads, i);
    if payloads(beads).len() == 0 {
        assert(whole.subrange(from as int, (from + wire.len()) as int) =~= wire);
    }
    lemma_read_payload(bead, whole, from);
}

/// A decoder that stands before bead `i` of a tagged region reads that bead.
#[verifier::rlimit(50)]
pub proof fn lemma_read_tagged(types: Seq<BeadType>, beads: Seq<Bead>, start: nat, i: nat)
    requires
        types_ok(types),
        types.len() > 1,
        beads_ok(types, beads),
        chunk_start_ok(types.len(), beads.len(), start),
        i < beads.len(),
    ensures
        read_bead(types, region(types, beads, start), cursor_before(types.len(), beads, i))
            == Ok::<(Bead, Cursor), BeadsError>(
            (beads[i as int], cursor_before(types.len(), beads, i + 1)),
        ),
{
    let k = types.len();
    let t = tags_per_byte(k);
    let whole = region(types, beads, start);
    let c = cursor_before(k, beads, i);
    let bead = beads[i as int];
    let place = i / t + data_before(beads, (i / t * t) as nat);
    let from = i / t + 1 + data_before(beads, i);
    lemma_bead_placed(types, beads, start, i);
    lemma_tag_of(types, bead.kind);
    lemma_walk_places(k, beads, i);
    lemma_read_payload(bead, whole, from);
    let tag = slot_tag(k, whole[place as int], c.index % t);
    assert(tag == tag_of(types, bead.kind));
    assert(types[tag as int] == bead.kind);
    let begin = if c.data > place + 1 {
        c.data
    } else {
        place + 1
    };
    assert(begin == from);
}

/// A decoder that stands before bead `i` of the region of valid beads reads that bead.
pub proof fn lemma_read_at(types: Seq<BeadType>, beads: Seq<Bead>, start: nat, i: nat)
    requires
        types_ok(types),
        beads_ok(types, beads),
        types.len() > 1 ==> chunk_start_ok(types.len(), beads.len(), start),
        i < beads.len(),
    ensures
        read_bead(types, region(types, beads, start), cursor_before(types.len(), beads, i))
            == Ok::<(Bead, Cursor), BeadsError>(
            (beads[i as int], cursor_before(types.len(), beads, i + 1)),
        ),
{
    if types.len() == 1 {
        lemma_read_single(types, beads, start, i);
    } else {
        lemma_read_tagged(types, beads, start, i);
    }
}

/// A decoder reads the beads of the region of valid beads one after the other.
pub proof fn lemma_cursor_at(types: Seq<BeadType>, beads: Seq<Bead>, start: nat, i: nat)
    requires
        types_ok(types),
        beads_ok(types, beads),
        types.len() > 1 ==> chunk_start_ok(types.len(), beads.len(), start),
        i <= beads.len(),
    ensures
        cursor_at(types, region(types, beads, start), i) == Ok::<Cursor, BeadsError>(
            cursor_before(types.len(), beads, i),
        ),
        beads_upto(types, region(types, beads, start), i) == Ok::<Seq<Bead>, BeadsError>(
            beads.take(i as int),
        ),
    decreases i,
{
    if i > 0 {
        lemma_cursor_at(types, beads, start, (i - 1) as nat);
        lemma_read_at(types, beads, start, (i - 1) as nat);
        assert(beads.take(i as int) =~= beads.take(i - 1).push(beads[i - 1]));
    } else {
        assert(beads.take(0) =~= Seq::<Bead>::empty());
    }
}

/// Round trip of a tagged sequence: a walk over the encoding of valid
/// beads yields those beads in order.
pub proof fn lemma_sequence_roundtrip(types: Seq<BeadType>, beads: Seq<Bead>, start: nat)
    requires
        types_ok(types),
        beads_ok(types, beads),
        types.len() > 1 ==> chunk_start_ok(types.len(), beads.len(), start),
    ensures
        beads_upto(types, region(types, beads, start), beads.len()) == Ok::<
            Seq<Bead>,
            BeadsError,
        >(beads),
        forall|i: nat|
            i < beads.len() ==> bead_at(types, region(types, beads, start), i) == Ok::<
                Bead,
                BeadsError,
            >(beads[i as int]),
{
    lemma_cursor_at(types, beads, start, beads.len());
    assert(beads.take(beads.len() as int) =~= beads);
    assert forall|i: nat| i < beads.len() implies bead_at(
        types,
        region(types, beads, start),
        i,
    ) == Ok::<Bead, BeadsError>(beads[i as int]) by {
        lemma_cursor_at(types, beads, start, i);
        lemma_read_at(types, beads, start, i);
    }
}

/// The region of a sequence has at least one byte.
pub proof fn lemma_region_not_empty(types: Seq<BeadType>, beads: Seq<Bead>, start: nat)
    ensures
        region(types, beads, start).len() >= 1,
{
}

/// The members of a valid set can be the types of a sequence.
pub proof fn lemma_members_ok(set: BeadTypeSet)
    requires
        set.valid(),
    ensures
        types_ok(set.members()),
{
    lemma_members(set);
}

/// Round trip of an encoded sequence: in what a builder writes, a reader
/// with the same type set finds the number of beads and, walking from the
/// front, the beads that were pushed, in order.
pub proof fn lemma_model_roundtrip(m: SequenceModel)
    requires
        m.ok(),
        m.beads.len() <= usize::MAX,
    ensures
        sequence_parts(m.set, m.bytes()) == Ok::<(nat, Seq<u8>), BeadsError>(
            (m.beads.len(), region(m.types(), m.beads, m.chunk_start)),
        ),
        beads_upto(m.types(), region(m.types(), m.beads, m.chunk_start), m.beads.len()) == Ok::<
            Seq<Bead>,
            BeadsError,
        >(m.beads),
{
    let whole = region(m.types(), m.beads, m.chunk_start);
    let n = m.beads.len();
    lemma_members_ok(m.set);
    lemma_region_not_empty(m.types(), m.beads, m.chunk_start);
    crate::vlq::lemma_vlq_read_roundtrip(n, whole);
    assert(m.bytes().skip(vlq_bytes(n).len() as int) =~= whole);
    lemma_sequence_roundtrip(m.types(), m.beads, m.chunk_start);
}

/// What a builder writes is read back: a reader with the builder's type
/// set finds the number of beads and, walking from the front, the beads
/// that were pushed, in order.
pub proof fn lemma_builder_roundtrip(builder: &crate::builder::BeadsSequenceBuilder)
    requires
        builder.wf(),
    ensures
        sequence_parts(builder@.set, builder@.bytes()) == Ok::<(nat, Seq<u8>), BeadsError>(
            (builder@.beads.len(), region(builder@.types(), builder@.beads, builder@.chunk_start)),
        ),
        beads_upto(
            builder@.types(),
            region(builder@.types(), builder@.beads, builder@.chunk_start),
            builder@.beads.len(),
        ) == Ok::<Seq<Bead>, BeadsError>(builder@.beads),
{
    builder.lemma_wf();
    lemma_model_roundtrip(builder@);
}

} // verus!
