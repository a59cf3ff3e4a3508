use crate::container::{
    concat, dedup_bytes, dedup_get, dedup_len, fixed_parse, index_entries, index_width,
    indexed_bytes, indexed_encoding, indexed_parse, max_width, place_of, places, records,
    uint_beads_bytes, uint_width, unique,
};
use crate::endian::{
    le_bytes, le_value, lemma_le_bytes_len, lemma_le_roundtrip, lemma_pow256_bound,
    lemma_pow256_values, pow256,
};
use crate::error::BeadsError;
use crate::vlq::{lemma_vlq_read_roundtrip, vlq_bytes};
use vstd::prelude::*;

verus! {

/// The parts of two runs one after the other are those of the first, then of the second.
pub proof fn lemma_concat_add(a: Seq<Seq<u8>>, b: Seq<Seq<u8>>)
    ensures
        concat(a + b) == concat(a) + concat(b),
    decreases b.len(),
{
    if b.len() == 0 {
        assert(a + b =~= a);
        assert(concat(a) + concat(b) =~= concat(a));
    } else {
        assert((a + b).drop_last() =~= a + b.drop_last());
        assert((a + b).last() == b.last());
        lemma_concat_add(a, b.drop_last());
        assert(concat(a + b) =~= concat(a) + concat(b));
    }
}

/// Where part `i` ends among the parts.
pub open spec fn end_of(parts: Seq<Seq<u8>>, i: nat) -> nat {
    concat(parts.take(i as int + 1)).len()
}

/// Part `i` stands among the parts from the end of the part before it to its own end.
pub proof fn lemma_part_at(parts: Seq<Seq<u8>>, i: nat)
    requires
        i < parts.len(),
    ensures
        concat(parts.take(i as int)).len() + parts[i as int].len() == end_of(parts, i),
        end_of(parts, i) <= concat(parts).len(),
        concat(parts).subrange(concat(parts.take(i as int)).len() as int, end_of(parts, i) as int)
            == parts[i as int],
{
    let upto = parts.take(i as int + 1);
    assert(upto.drop_last() =~= parts.take(i as int));
    assert(upto.last() == parts[i as int]);
    assert(upto + parts.skip(i as int + 1) =~= parts);
    lemma_concat_add(upto, parts.skip(i as int + 1));
    assert(concat(parts).subrange(
        concat(parts.take(i as int)).len() as int,
        end_of(parts, i) as int,
    ) =~= parts[i as int]);
}

/// The side index has one entry of `width` bytes for each part, and entry
/// `j` holds where part `j` ends.
pub proof fn lemma_index_entries(parts: Seq<Seq<u8>>, width: nat, j: nat)
    requires
        j < parts.len(),
    ensures
        index_entries(parts, width).len() == parts.len() * width,
        j * width + width <= parts.len() * width,
        index_entries(parts, width).subrange((j * width) as int, (j * width + width) as int)
            == le_bytes(end_of(parts, j), width),
    decreases parts.len(),
{
    let n = parts.len();
    let rest = parts.drop_last();
    let all = index_entries(parts, width);
    lemma_le_bytes_len(concat(parts).len(), width);
    assert((n - 1) * width + width == n * width) by (nonlinear_arith);
    if n > 1 {
        lemma_index_entries(rest, width, 0);
    } else {
        assert(index_entries(rest, width) =~= Seq::<u8>::empty());
        assert((n - 1) * width == 0) by (nonlinear_arith)
            requires
                n == 1,
        ;
    }
    assert(index_entries(rest, width).len() == (n - 1) * width);
    if j == n - 1 {
        assert(parts.take(j as int + 1) =~= parts);
        assert(all.subrange((j * width) as int, (j * width + width) as int) =~= le_bytes(
            end_of(parts, j),
            width,
        ));
    } else {
        lemma_index_entries(rest, width, j);
        assert(rest.take(j as int + 1) =~= parts.take(j as int + 1));
        assert(j * width + width <= (n - 1) * width) by (nonlinear_arith)
            requires
                j + 1 <= n - 1,
                width >= 0,
        ;
        assert(all.subrange((j * width) as int, (j * width + width) as int)
            =~= index_entries(rest, width).subrange(
            (j * width) as int,
            (j * width + width) as int,
        ));
    }
}

/// A total below two to the sixty-four fits the width of its index entries.
pub proof fn lemma_index_width(total: nat)
    requires
        total < 0x1_0000_0000_0000_0000,
    ensures
        1 <= index_width(total) <= 8,
        total < pow256(index_width(total)),
{
    lemma_pow256_values();
}

/// Round trip of indexed beads: a reader of the indexed beads of parts that
/// hold at least one byte finds their number and each part.
#[verifier::rlimit(50)]
pub proof fn lemma_indexed_roundtrip(parts: Seq<Seq<u8>>)
    requires
        parts.len() <= usize::MAX,
        0 < concat(parts).len() < 0x1_0000_0000_0000_0000,
    ensures
        indexed_parse(indexed_bytes(parts)) matches Ok(m) && m.count == parts.len() && (forall|
            i: nat,
        |
            i < parts.len() ==> m.get(i) == Ok::<Seq<u8>, BeadsError>(parts[i as int])),
{
    let n = parts.len();
    let total = concat(parts).len();
    let width = index_width(total);
    let header = (n * 8 + (width - 1)) as nat;
    let entries = index_entries(parts, width);
    let bytes = indexed_bytes(parts);
    lemma_index_width(total);
    lemma_vlq_read_roundtrip(header, entries + concat(parts));
    assert(bytes =~= vlq_bytes(header) + (entries + concat(parts)));
    let skip = vlq_bytes(header).len();
    assert(header / 8 == n && header % 8 + 1 == width);
    assert(entries.len() == n * width) by {
        if n > 0 {
            lemma_index_entries(parts, width, 0);
        } else {
            assert(n * width == 0) by (nonlinear_arith)
                requires
                    n == 0,
            ;
        }
    }
    let m = indexed_parse(bytes).unwrap();
    assert(bytes.subrange(skip as int, (skip + n * width) as int) =~= entries);
    assert(bytes.skip((skip + n * width) as int) =~= concat(parts));
    assert forall|i: nat| i < parts.len() implies m.get(i) == Ok::<Seq<u8>, BeadsError>(
        parts[i as int],
    ) by {
        lemma_index_entries(parts, width, i);
        lemma_part_at(parts, i);
        lemma_le_roundtrip(end_of(parts, i), width);
        if i > 0 {
            let before = (i - 1) as nat;
            lemma_index_entries(parts, width, before);
            lemma_part_at(parts, before);
            lemma_le_roundtrip(end_of(parts, before), width);
            assert(parts.take(before as int + 1) =~= parts.take(i as int));
        } else {
            assert(parts.take(0) =~= Seq::<Seq<u8>>::empty());
        }
    }
}

/// A value is below 256 to the number of bytes that hold it.
pub proof fn lemma_uint_width(v: nat)
    ensures
        1 <= uint_width(v),
        v < pow256(uint_width(v)),
    decreases v,
{
    if v >= 256 {
        lemma_uint_width(v / 256);
    } else {
        lemma_pow256_values();
    }
}

/// A value below 256 to the `k` is held by `k` bytes.
pub proof fn lemma_uint_width_bound(v: nat, k: nat)
    requires
        k >= 1,
        v < pow256(k),
    ensures
        uint_width(v) <= k,
    decreases k,
{
    if v >= 256 {
        assert(k >= 2) by {
            lemma_pow256_values();
        }
        lemma_uint_width_bound(v / 256, (k - 1) as nat);
    }
}

/// The width of fixed-size beads of unsigned integers is one to sixteen
/// bytes and holds each value.
pub proof fn lemma_max_width(values: Seq<u128>, i: nat)
    requires
        i < values.len(),
    ensures
        1 <= max_width(values) <= 16,
        values[i as int] < pow256(max_width(values)),
    decreases values.len(),
{
    let rest = values.drop_last();
    let last = values.last() as nat;
    lemma_uint_width(last);
    lemma_pow256_values();
    lemma_uint_width_bound(last, 16);
    if rest.len() > 0 {
        lemma_max_width(rest, 0);
    }
    if i < rest.len() {
        lemma_max_width(rest, i);
        assert(rest[i as int] == values[i as int]);
        lemma_pow256_bound(max_width(rest), max_width(values));
    } else {
        lemma_pow256_bound(uint_width(last), max_width(values));
    }
}

/// The records of the values: one of `width` bytes for each, record `j`
/// holding value `j`.
pub proof fn lemma_records(values: Seq<u128>, width: nat, j: nat)
    requires
        j < values.len(),
    ensures
        records(values, width).len() == values.len() * width,
        j * width + width <= values.len() * width,
        records(values, width).subrange((j * width) as int, (j * width + width) as int)
            == le_bytes(values[j as int] as nat, width),
    decreases values.len(),
{
    let n = values.len();
    let rest = values.drop_last();
    let all = records(values, width);
    lemma_le_bytes_len(values.last() as nat, width);
    assert((n - 1) * width + width == n * width) by (nonlinear_arith);
    if n > 1 {
        lemma_records(rest, width, 0);
    } else {
        assert(records(rest, width) =~= Seq::<u8>::empty());
        assert((n - 1) * width == 0) by (nonlinear_arith)
            requires
                n == 1,
        ;
    }
    assert(records(rest, width).len() == (n - 1) * width);
    if j == n - 1 {
        assert(all.subrange((j * width) as int, (j * width + width) as int) =~= le_bytes(
            values[j as int] as nat,
            width,
        ));
    } else {
        lemma_records(rest, width, j);
        assert(rest[j as int] == values[j as int]);
        assert(j * width + width <= (n - 1) * width) by (nonlinear_arith)
            requires
                j + 1 <= n - 1,
                width >= 0,
        ;
        assert(all.subrange((j * width) as int, (j * width + width) as int) =~= records(
            rest,
            width,
        ).subrange((j * width) as int, (j * width + width) as int));
    }
}

/// Round trip of fixed-size beads of unsigned integers: a reader finds
/// their number, and in record `i` the value `i`.
#[verifier::rlimit(50)]
pub proof fn lemma_uint_beads_roundtrip(values: Seq<u128>)
    ensures
        fixed_parse(uint_beads_bytes(values)) matches Ok(m) && m.len() == values.len() && m.size
            <= 16 && (forall|i: nat|
            i < values.len() ==> (#[trigger] m.get(i)) is Ok && m.get(i).unwrap().len() == m.size
                && le_value(m.get(i).unwrap()) == values[i as int]),
{
    let n = values.len();
    let width = max_width(values);
    let data = records(values, width);
    let bytes = uint_beads_bytes(values);
    if n > 0 {
        lemma_max_width(values, 0);
        lemma_records(values, width, 0);
    } else {
        assert(data =~= Seq::<u8>::empty());
    }
    lemma_vlq_read_roundtrip(width, data);
    let skip = vlq_bytes(width).len();
    assert(bytes.skip(skip as int) =~= data);
    let m = fixed_parse(bytes).unwrap();
    assert(m.len() == n) by {
        if n > 0 {
            assert((n * width) / width == n) by (nonlinear_arith)
                requires
                    width > 0,
            ;
        }
    }
    assert forall|i: nat| i < values.len() implies (#[trigger] m.get(i)) is Ok && m.get(
        i,
    ).unwrap().len() == m.size && le_value(m.get(i).unwrap()) == values[i as int] by {
        lemma_records(values, width, i);
        lemma_max_width(values, i);
        lemma_le_roundtrip(values[i as int] as nat, width);
        lemma_le_bytes_len(values[i as int] as nat, width);
    }
}

/// The place of a value among parts that hold it is where it stands.
pub proof fn lemma_place_of(parts: Seq<Seq<u8>>, value: Seq<u8>)
    requires
        parts.contains(value),
    ensures
        place_of(parts, value) < parts.len(),
        parts[place_of(parts, value) as int] == value,
    decreases parts.len(),
{
    if parts[0] != value {
        let j = choose|j: int| 0 <= j < parts.len() && parts[j] == value;
        assert(parts.skip(1)[j - 1] == value);
        lemma_place_of(parts.skip(1), value);
    }
}

/// The distinct values: each value is among them, none twice, and they
/// begin with the distinct values of any shorter run.
#[verifier::rlimit(50)]
pub proof fn lemma_unique(values: Seq<Seq<u8>>)
    ensures
        unique(values).len() <= values.len(),
        forall|v: Seq<u8>| values.contains(v) <==> #[trigger] unique(values).contains(v),
        forall|i: int, j: int|
            0 <= i < j < unique(values).len() ==> unique(values)[i] != unique(values)[j],
    decreases values.len(),
{
    if values.len() > 0 {
        let rest = values.drop_last();
        let last = values.last();
        let before = unique(rest);
        let now = unique(values);
        lemma_unique(rest);
        assert forall|v: Seq<u8>| values.contains(v) <==> #[trigger] now.contains(v) by {
            if values.contains(v) {
                let i = choose|i: int| 0 <= i < values.len() && values[i] == v;
                if i < rest.len() {
                    assert(rest[i] == v);
                    assert(rest.contains(v));
                    assert(before.contains(v));
                    let j = choose|j: int| 0 <= j < before.len() && before[j] == v;
                    assert(now[j] == v);
                } else {
                    assert(v == last);
                    if before.contains(last) {
                    } else {
                        assert(now[now.len() - 1] == v);
                    }
                }
            }
            if now.contains(v) {
                let j = choose|j: int| 0 <= j < now.len() && now[j] == v;
                if j < before.len() {
                    assert(before[j] == v);
                    assert(before.contains(v));
                    assert(rest.contains(v));
                    let i = choose|i: int| 0 <= i < rest.len() && rest[i] == v;
                    assert(values[i] == v);
                } else {
                    assert(values[values.len() - 1] == v);
                }
            }
        }
        assert forall|i: int, j: int| 0 <= i < j < now.len() implies now[i] != now[j] by {
            if j == before.len() {
                assert(before[i] == now[i]);
                assert(before.contains(now[i]));
            }
        }
    }
}

/// The places of the values: one for each value, and at the place of a
/// value among the distinct values stands that value.
pub proof fn lemma_places(values: Seq<Seq<u8>>, i: nat)
    requires
        i < values.len(),
        values.len() <= usize::MAX,
    ensures
        places(values).len() == values.len(),
        places(values)[i as int] < unique(values).len(),
        unique(values)[places(values)[i as int] as int] == values[i as int],
    decreases values.len(),
{
    let rest = values.drop_last();
    let last = values.last();
    lemma_unique(values);
    lemma_unique(rest);
    if rest.len() > 0 {
        lemma_places(rest, 0);
    } else {
        assert(places(rest) =~= Seq::<u128>::empty());
    }
    assert(places(values).len() == values.len());
    if i == values.len() - 1 {
        assert(values[i as int] == last);
        assert(values.contains(last));
        lemma_place_of(unique(values), last);
    } else {
        lemma_places(rest, i);
        assert(rest[i as int] == values[i as int]);
        let p = places(rest)[i as int] as int;
        assert(places(values)[i as int] == places(rest)[i as int]);
        assert(unique(values)[p] == unique(rest)[p]);
    }
}

/// Dedup invariants: a reader of the dedup beads of values finds their
/// number, and at each index the value that was pushed there. The distinct
/// values, which are stored once each in the order in which they come first,
/// must hold at least one byte.
#[verifier::rlimit(50)]
pub proof fn lemma_dedup_roundtrip(values: Seq<Seq<u8>>)
    requires
        values.len() <= usize::MAX,
        concat(unique(values)).len() > 0,
        dedup_bytes(values).len() <= usize::MAX,
    ensures
        dedup_len(dedup_bytes(values)) == Ok::<nat, BeadsError>(values.len()),
        forall|i: nat|
            i < values.len() ==> dedup_get(dedup_bytes(values), i) == Ok::<Seq<u8>, BeadsError>(
                values[i as int],
            ),
{
    let distinct = unique(values);
    let first = uint_beads_bytes(places(values));
    let second = indexed_encoding(distinct);
    let parts = seq![first, second];
    let bytes = dedup_bytes(values);
    lemma_unique(values);
    assert(concat(parts) =~= first + second) by {
        reveal_with_fuel(concat, 3);
        assert(parts.drop_last() =~= seq![first]);
        assert(seq![first].drop_last() =~= Seq::<Seq<u8>>::empty());
        assert(concat(seq![first]) =~= first);
    }
    assert(second == indexed_bytes(distinct));
    assert(concat(distinct).len() <= second.len());
    assert(bytes.len() >= concat(parts).len());
    lemma_indexed_roundtrip(parts);
    lemma_indexed_roundtrip(distinct);
    lemma_uint_beads_roundtrip(places(values));
    let root = indexed_parse(bytes).unwrap();
    assert(root.get(0) == Ok::<Seq<u8>, BeadsError>(parts[0]));
    assert(root.get(1) == Ok::<Seq<u8>, BeadsError>(parts[1]));
    if values.len() > 0 {
        lemma_places(values, 0);
    } else {
        assert(places(values).len() == 0);
    }
    let index = fixed_parse(first).unwrap();
    let found = indexed_parse(second).unwrap();
    assert forall|i: nat| i < values.len() implies dedup_get(bytes, i) == Ok::<
        Seq<u8>,
        BeadsError,
    >(values[i as int]) by {
        lemma_places(values, i);
        let record = index.get(i).unwrap();
        let p = places(values)[i as int] as nat;
        assert(le_value(record) == p);
        assert(found.get(p) == Ok::<Seq<u8>, BeadsError>(distinct[p as int]));
    }
}

} // verus!
