use crate::bead_type::{int_priority, utf8_set, BeadType, BeadTypeSet};
use crate::builder::{
    integer_push, write_indexed, BeadsSequenceBuilder, DedupBeadsBuilder, IndexedBeadsBuilder,
};
use crate::container::{concat, dedup_bytes, indexed_bytes, indexed_encoding};
use crate::csv::{columns_of, csv_columns, csv_fields, padded_to, with_field, FieldModel};
use crate::endian::{le_value, lemma_le_value_bound, lemma_pow256_bound, lemma_pow256_values};
use crate::error::BeadsError;
use crate::layout::{bead_at, beads_of, beads_upto, contents, sequence_bytes, Bead, SequenceModel};
use crate::sequence::{sequence_parts, TypedBeads};
use vstd::prelude::*;
use vstd::string::StringSliceAdditionalSpecFns;

verus! {

/// The number that up to sixteen bytes spell, least significant byte first.
pub fn u128_from_slice(slice: &[u8]) -> (r: u128)
    requires
        slice@.len() <= 16,
    ensures
        r == le_value(slice@),
{
    let mut r: u128 = 0;
    let mut i: usize = slice.len();
    proof {
        assert(slice@.skip(i as int) =~= Seq::<u8>::empty());
        lemma_pow256_values();
    }
    while i > 0
        invariant
            i <= slice@.len() <= 16,
            r == le_value(slice@.skip(i as int)),
        decreases i,
    {
        i -= 1;
        proof {
            let tail = slice@.skip(i as int);
            assert(tail.skip(1) =~= slice@.skip(i + 1));
            lemma_le_value_bound(tail);
            lemma_pow256_bound(tail.len(), 16);
            lemma_pow256_values();
        }
        r = 256 * r + slice[i] as u128;
    }
    assert(slice@.skip(0) =~= slice@);
    r
}

/// The contents of the beads of a tagged sequence, as `TypedBeads::new`
/// and a walk from the front read them.
pub open spec fn sequence_contents(set: BeadTypeSet, bytes: Seq<u8>) -> Result<
    Seq<Seq<u8>>,
    BeadsError,
> {
    match sequence_parts(set, bytes) {
        Err(e) => Err(e),
        Ok((count, region)) => match beads_upto(set.members(), region, count) {
            Err(e) => Err(e),
            Ok(beads) => Ok(contents(beads)),
        },
    }
}

/// Reads the tagged sequence in `buffer` and hands each content to `sink`.
#[verifier::rlimit(50)]
fn collect_contents<'a>(buffer: &'a [u8], types: &BeadTypeSet, sink: &mut Vec<&'a [u8]>) -> (r:
    Result<(), BeadsError>)
    requires
        old(sink)@.len() == 0,
    ensures
        match sequence_contents(*types, buffer@) {
            Ok(parts) => r is Ok && parts == Seq::new(
                final(sink)@.len(),
                |i: int| final(sink)@[i]@,
            ),
            Err(e) => r matches Err(x) && x == e,
        },
{
    let beads = match TypedBeads::new(buffer, types) {
        Ok(beads) => beads,
        Err(e) => {
            return Err(e);
        },
    };
    let mut it = beads.iter();
    let ghost kinds = it.types();
    let ghost region = it.region();
    let ghost count = it.limit();
    let ghost mut seen: Seq<Bead> = Seq::empty();
    loop
        invariant
            it.types() == kinds,
            it.region() == region,
            it.limit() == count,
            it.position() <= count,
            kinds == types.members(),
            sequence_parts(*types, buffer@) == Ok::<(nat, Seq<u8>), BeadsError>((count, region)),
            beads_upto(kinds, region, it.position()) == Ok::<Seq<Bead>, BeadsError>(seen),
            seen.len() == sink@.len(),
            forall|i: int| 0 <= i < seen.len() ==> seen[i].data == sink@[i]@,
        decreases count - it.position(),
    {
        match it.next() {
            None => {
                proof {
                    assert(contents(seen) =~= Seq::new(sink@.len(), |i: int| sink@[i]@));
                }
                return Ok(());
            },
            Some(Err(e)) => {
                proof {
                    lemma_beads_upto_fails(kinds, region, (it.position() + 1) as nat, count);
                }
                return Err(e);
            },
            Some(Ok(x)) => {
                sink.push(x.to_bytes());
                proof {
                    seen = seen.push(x@);
                }
            },
        }
    }
}

/// Once a bead cannot be read, no longer run of beads can.
pub proof fn lemma_beads_upto_fails(types: Seq<BeadType>, region: Seq<u8>, n: nat, m: nat)
    requires
        n <= m,
        beads_upto(types, region, n) is Err,
    ensures
        beads_upto(types, region, m) == beads_upto(types, region, n),
    decreases m - n,
{
    if n < m {
        lemma_beads_upto_fails(types, region, n, (m - 1) as nat);
    }
}

/// Rewrites the contents of a sequence of strings as indexed beads.
pub fn string_beads_to_indexed_beads(buffer: &[u8], writer: &mut Vec<u8>) -> (r: Result<
    (),
    BeadsError,
>)
    ensures
        match sequence_contents(BeadTypeSet { value: 0x4_0000 }, buffer@) {
            Ok(parts) => r is Ok && final(writer)@ == old(writer)@ + indexed_encoding(parts),
            Err(e) => (r matches Err(x) && x == e) && final(writer)@ == old(writer)@,
        },
{
    let set = utf8_set();
    proof {
        lemma_utf8_mask(set);
    }
    let mut parts: Vec<&[u8]> = Vec::new();
    match collect_contents(buffer, &set, &mut parts) {
        Err(e) => Err(e),
        Ok(()) => {
            let mut builder = IndexedBeadsBuilder::new();
            let mut i: usize = 0;
            let ghost all = Seq::new(parts@.len(), |i: int| parts@[i]@);
            assert(all.take(0) =~= Seq::<Seq<u8>>::empty());
            while i < parts.len()
                invariant
                    i <= parts@.len(),
                    all == Seq::new(parts@.len(), |i: int| parts@[i]@),
                    builder.parts() == all.take(i as int),
                decreases parts@.len() - i,
            {
                builder.push(parts[i]);
                assert(all.take(i + 1) =~= all.take(i as int).push(parts@[i as int]@));
                i += 1;
            }
            assert(all.take(parts@.len() as int) =~= all);
            builder.encode(writer);
            Ok(())
        },
    }
}

/// The set of the one type `Utf8` has the mask with bit 18.
pub proof fn lemma_utf8_mask(set: BeadTypeSet)
    requires
        set.valid(),
        set.members() == seq![BeadType::Utf8],
    ensures
        set == (BeadTypeSet { value: 0x4_0000 }),
{
    crate::bead_type::lemma_members(set);
    let v = set.value;
    assert(set.members().contains(BeadType::Utf8)) by {
        assert(set.members()[0] == BeadType::Utf8);
    }
    assert forall|p: u32| p < 20 && p != 18 implies v & (1u32 << p) == 0 by {
        crate::bead_type::lemma_declaration_order();
        let t = crate::bead_type::declaration_order()[p as int];
        assert(t.position() == p);
        if set.has(t) {
            assert(set.members().contains(t));
        }
    }
    assert(v & (1u32 << 18u32) != 0) by {
        assert(set.has(BeadType::Utf8));
        assert(BeadType::Utf8.position() == 18);
    }
    assert(v == 0x4_0000) by (bit_vector)
        requires
            v < 0x10_0000,
            v & (1u32 << 18u32) != 0,
            v & (1u32 << 0u32) == 0,
            v & (1u32 << 1u32) == 0,
            v & (1u32 << 2u32) == 0,
            v & (1u32 << 3u32) == 0,
            v & (1u32 << 4u32) == 0,
            v & (1u32 << 5u32) == 0,
            v & (1u32 << 6u32) == 0,
            v & (1u32 << 7u32) == 0,
            v & (1u32 << 8u32) == 0,
            v & (1u32 << 9u32) == 0,
            v & (1u32 << 10u32) == 0,
            v & (1u32 << 11u32) == 0,
            v & (1u32 << 12u32) == 0,
            v & (1u32 << 13u32) == 0,
            v & (1u32 << 14u32) == 0,
            v & (1u32 << 15u32) == 0,
            v & (1u32 << 16u32) == 0,
            v & (1u32 << 17u32) == 0,
            v & (1u32 << 19u32) == 0,
    ;
}

/// Rewrites a tagged sequence as dedup beads of the contents of its beads.
pub fn beads_to_dedup_beads(buffer: &[u8], types: &BeadTypeSet, writer: &mut Vec<u8>) -> (r:
    Result<(), BeadsError>)
    ensures
        match sequence_contents(*types, buffer@) {
            Ok(parts) => r is Ok && final(writer)@ == old(writer)@ + dedup_bytes(parts),
            Err(e) => (r matches Err(x) && x == e) && final(writer)@ == old(writer)@,
        },
{
    let mut parts: Vec<&[u8]> = Vec::new();
    match collect_contents(buffer, types, &mut parts) {
        Err(e) => Err(e),
        Ok(()) => {
            let mut builder = DedupBeadsBuilder::new();
            let mut i: usize = 0;
            let ghost all = Seq::new(parts@.len(), |i: int| parts@[i]@);
            assert(all.take(0) =~= Seq::<Seq<u8>>::empty());
            while i < parts.len()
                invariant
                    i <= parts@.len(),
                    all == Seq::new(parts@.len(), |i: int| parts@[i]@),
                    builder.wf(),
                    builder.values() == all.take(i as int),
                decreases parts@.len() - i,
            {
                builder.push(parts[i]);
                assert(all.take(i + 1) =~= all.take(i as int).push(parts@[i as int]@));
                i += 1;
            }
            assert(all.take(parts@.len() as int) =~= all);
            builder.encode(writer);
            Ok(())
        },
    }
}

/// The number that decimal digits spell.
pub open spec fn digits_value(digits: Seq<u8>) -> nat
    decreases digits.len(),
{
    if digits.len() == 0 {
        0
    } else {
        10 * digits_value(digits.drop_last()) + (digits.last() - 48) as nat
    }
}

/// Whether all the bytes are decimal digits.
pub open spec fn all_digits(digits: Seq<u8>) -> bool {
    forall|i: int| 0 <= i < digits.len() ==> 48 <= #[trigger] digits[i] <= 57
}

/// The integer that `text` spells in decimal: an optional sign, `+` or `-`,
/// and at least one digit, no more than a signed 128-bit integer holds.
pub open spec fn decimal_value(text: Seq<u8>) -> Option<int> {
    let signed = text.len() > 0 && (text[0] == 45 || text[0] == 43);
    let negative = text.len() > 0 && text[0] == 45;
    let digits = if signed {
        text.skip(1)
    } else {
        text
    };
    let value = if negative {
        -(digits_value(digits) as int)
    } else {
        digits_value(digits) as int
    };
    if digits.len() == 0 || !all_digits(digits) || value < i128::MIN || value > i128::MAX {
        None
    } else {
        Some(value)
    }
}

/// The digits so far spell no more than all the digits.
pub proof fn lemma_digits_prefix(digits: Seq<u8>, k: int)
    requires
        0 <= k <= digits.len(),
    ensures
        digits_value(digits.take(k)) <= digits_value(digits),
    decreases digits.len() - k,
{
    if k < digits.len() {
        lemma_digits_prefix(digits, k + 1);
        assert(digits.take(k + 1).drop_last() =~= digits.take(k));
    } else {
        assert(digits.take(k) =~= digits);
    }
}

/// The integer that `text` spells in decimal.
pub fn parse_i128(text: &[u8]) -> (r: Option<i128>)
    ensures
        match decimal_value(text@) {
            Some(v) => r == Some(v as i128),
            None => r is None,
        },
{
    let len: usize = text.len();
    if len == 0 {
        return None;
    }
    let negative: bool = text[0] == 45;
    let start: usize = if text[0] == 45 || text[0] == 43 {
        1
    } else {
        0
    };
    if start == len {
        return None;
    }
    let ghost digits = text@.skip(start as int);
    let limit: u128 = if negative {
        0x8000_0000_0000_0000_0000_0000_0000_0000
    } else {
        0x7fff_ffff_ffff_ffff_ffff_ffff_ffff_ffff
    };
    let mut acc: u128 = 0;
    let mut i: usize = start;
    assert(digits.take(0) =~= Seq::<u8>::empty());
    while i < len
        invariant
            start <= i <= len,
            start < len,
            len == text@.len(),
            negative == (text@[0] == 45),
            start == if text@[0] == 45 || text@[0] == 43 {
                1int
            } else {
                0int
            },
            limit == if negative {
                0x8000_0000_0000_0000_0000_0000_0000_0000int
            } else {
                0x7fff_ffff_ffff_ffff_ffff_ffff_ffff_ffffint
            },
            digits == text@.skip(start as int),
            acc == digits_value(digits.take(i - start)),
            all_digits(digits.take(i - start)),
            acc <= limit,
            limit <= 0x8000_0000_0000_0000_0000_0000_0000_0000,
        decreases len - i,
    {
        let b: u8 = text[i];
        proof {
            assert(digits[i - start] == b);
            assert(digits.take(i - start + 1).drop_last() =~= digits.take(i - start));
            assert(digits.take(i - start + 1).last() == b);
            lemma_digits_prefix(digits, i - start + 1);
            assert(text@.skip(0) =~= text@);
        }
        if b < 48 || b > 57 {
            return None;
        }
        assert(digits_value(digits.take(i - start + 1)) == 10 * acc + (b - 48));
        if acc > limit / 10 {
            return None;
        }
        let next: u128 = acc * 10 + (b - 48) as u128;
        if next > limit {
            return None;
        }
        proof {
            assert forall|j: int| 0 <= j < i - start + 1 implies 48 <= #[trigger] digits.take(
                i - start + 1,
            )[j] <= 57 by {
                if j < i - start {
                    assert(digits.take(i - start)[j] == digits.take(i - start + 1)[j]);
                }
            }
        }
        acc = next;
        i += 1;
    }
    proof {
        assert(digits.take(len - start) =~= digits);
        assert(text@.skip(0) =~= text@);
    }
    if negative {
        if acc == 0 {
            Some(0)
        } else {
            Some(-((acc - 1) as i128) - 1)
        }
    } else {
        Some(acc as i128)
    }
}

/// The state after a push of the none marker, if the set has it.
pub open spec fn none_push(m: SequenceModel) -> Option<SequenceModel> {
    if m.types().contains(BeadType::NoneFlag) {
        Some(m.push(Bead { kind: BeadType::NoneFlag, data: Seq::empty() }))
    } else {
        None
    }
}

/// The state after the text of one string is converted: its integer in
/// the first type that it fits, or the none marker if it spells no integer
/// or fits no type.
pub open spec fn int_step(m: SequenceModel, text: Seq<u8>) -> Option<SequenceModel> {
    match decimal_value(text) {
        Some(v) => {
            let pushed = integer_push(m, int_priority(), v);
            if pushed.0 {
                Some(pushed.1)
            } else {
                none_push(pushed.1)
            }
        },
        None => none_push(m),
    }
}

/// The state after the beads from `i` on are converted in turn.
pub open spec fn int_conversion(
    types: Seq<BeadType>,
    region: Seq<u8>,
    count: nat,
    i: nat,
    m: SequenceModel,
) -> Result<SequenceModel, BeadsError>
    decreases count - i,
{
    if i >= count {
        Ok(m)
    } else {
        match bead_at(types, region, i) {
            Err(e) => Err(e),
            Ok(b) => match int_step(m, b.data) {
                None => Err(BeadsError::UnfitValue),
                Some(next) => int_conversion(types, region, count, i + 1, next),
            },
        }
    }
}

/// The sequence of integers that a sequence of strings is converted to.
pub open spec fn string_beads_to_int_model(source: Seq<u8>, set: BeadTypeSet) -> Result<
    SequenceModel,
    BeadsError,
> {
    match sequence_parts(BeadTypeSet { value: 0x4_0000 }, source) {
        Err(e) => Err(e),
        Ok((count, region)) => if !set.valid() {
            Err(BeadsError::BadTypeSet)
        } else {
            int_conversion(
                seq![BeadType::Utf8],
                region,
                count,
                0,
                SequenceModel { set, beads: Seq::empty(), chunk_start: 0 },
            )
        },
    }
}

/// Converts a sequence of strings to a sequence of the integers that they
/// spell, with the types of `type_set`.
#[verifier::rlimit(50)]
pub fn string_beads_to_int_beads(buffer: &[u8], type_set: &BeadTypeSet, writer: &mut Vec<u8>) -> (r:
    Result<(), BeadsError>)
    ensures
        match string_beads_to_int_model(buffer@, *type_set) {
            Ok(m) => r is Ok && final(writer)@ == old(writer)@ + m.bytes(),
            Err(e) => (r matches Err(x) && x == e) && final(writer)@ == old(writer)@,
        },
{
    let set = utf8_set();
    proof {
        lemma_utf8_mask(set);
    }
    let string_beads = match TypedBeads::new(buffer, &set) {
        Ok(beads) => beads,
        Err(e) => {
            return Err(e);
        },
    };
    let mut builder = match BeadsSequenceBuilder::new(type_set) {
        Ok(builder) => builder,
        Err(e) => {
            return Err(e);
        },
    };
    let mut it = string_beads.iter();
    let ghost kinds = it.types();
    let ghost region = it.region();
    let ghost count = it.limit();
    let ghost first = builder@;
    loop
        invariant
            builder.wf(),
            it.types() == kinds,
            it.region() == region,
            it.limit() == count,
            it.position() <= count,
            count <= usize::MAX,
            builder@.beads.len() == it.position(),
            builder@.set == *type_set,
            type_set.valid(),
            kinds == seq![BeadType::Utf8],
            writer@ == old(writer)@,
            first == (SequenceModel { set: *type_set, beads: Seq::empty(), chunk_start: 0 }),
            sequence_parts(BeadTypeSet { value: 0x4_0000 }, buffer@) == Ok::<
                (nat, Seq<u8>),
                BeadsError,
            >((count, region)),
            int_conversion(kinds, region, count, 0, first) == int_conversion(
                kinds,
                region,
                count,
                it.position(),
                builder@,
            ),
        decreases count - it.position(),
    {
        match it.next() {
            None => {
                builder.encode(writer);
                return Ok(());
            },
            Some(Err(e)) => {
                return Err(e);
            },
            Some(Ok(sb)) => {
                let pushed: bool = match parse_i128(sb.to_bytes()) {
                    Some(v) => builder.push_int(v) || builder.push_none(),
                    None => builder.push_none(),
                };
                if !pushed {
                    return Err(BeadsError::UnfitValue);
                }
            },
        }
    }
}

/// The encoding of a column of strings: a sequence of the one type `Utf8`.
pub open spec fn column_bytes(fields: Seq<Seq<u8>>) -> Seq<u8> {
    sequence_bytes(seq![BeadType::Utf8], beads_of(BeadType::Utf8, fields), 0)
}

/// What `csv_to_indexed_string_beads` writes for the columns: indexed
/// beads with one sequence of strings for each column, or nothing where
/// there is no column.
pub open spec fn csv_bytes(columns: Seq<Seq<Seq<u8>>>) -> Seq<u8> {
    if columns.len() == 0 {
        Seq::empty()
    } else {
        indexed_bytes(Seq::new(columns.len(), |i: int| column_bytes(columns[i])))
    }
}

/// Whether the builder holds the fields of a column.
pub open spec fn column_ok(builder: BeadsSequenceBuilder, fields: Seq<Seq<u8>>) -> bool {
    &&& builder.wf()
    &&& builder@.set.valid()
    &&& builder@.set.members() == seq![BeadType::Utf8]
    &&& builder@.beads == beads_of(BeadType::Utf8, fields)
    &&& builder@.chunk_start == 0
}

/// Whether the builders hold the columns, none with more than `bound` fields.
pub open spec fn columns_ok(
    builders: Seq<BeadsSequenceBuilder>,
    columns: Seq<Seq<Seq<u8>>>,
    bound: nat,
) -> bool {
    &&& builders.len() == columns.len()
    &&& forall|i: int| 0 <= i < columns.len() ==> column_ok(#[trigger] builders[i], columns[i])
    &&& forall|i: int| 0 <= i < columns.len() ==> (#[trigger] columns[i]).len() <= bound
}

/// Adds the field to the builder of its column; the columns up to it
/// that have no builder yet get one.
#[verifier::rlimit(50)]
fn add_bytes(
    builders: &mut Vec<BeadsSequenceBuilder>,
    bytes: &[u8],
    column_index: usize,
    Ghost(columns): Ghost<Seq<Seq<Seq<u8>>>>,
    Ghost(bound): Ghost<nat>,
)
    requires
        columns_ok(old(builders)@, columns, bound),
        bound < usize::MAX,
    ensures
        columns_ok(
            final(builders)@,
            with_field(
                columns,
                FieldModel { row: 0, column: column_index as nat, bytes: bytes@ },
            ),
            bound + 1,
        ),
{
    let ghost mut padded = columns;
    while builders.len() <= column_index
        invariant
            columns_ok(builders@, padded, bound),
            padded == padded_to(columns, padded.len()),
            columns.len() <= padded.len(),
            padded.len() == columns.len() || padded.len() <= column_index + 1,
        decreases column_index + 1 - builders@.len(),
    {
        let set = utf8_set();
        match BeadsSequenceBuilder::new(&set) {
            Ok(builder) => {
                assert(beads_of(BeadType::Utf8, Seq::<Seq<u8>>::empty()) =~= Seq::<Bead>::empty());
                let ghost before = builders@;
                builders.push(builder);
                proof {
                    let wider = padded.push(Seq::<Seq<u8>>::empty());
                    assert(wider =~= padded_to(columns, wider.len()));
                    assert forall|i: int| 0 <= i < wider.len() implies column_ok(
                        #[trigger] builders@[i],
                        wider[i],
                    ) by {
                        if i < before.len() {
                            assert(builders@[i] == before[i]);
                            assert(wider[i] == padded[i]);
                        }
                    }
                    assert forall|i: int| 0 <= i < wider.len() implies (#[trigger] wider[i]).len()
                        <= bound by {
                        if i < padded.len() {
                            assert(wider[i] == padded[i]);
                        }
                    }
                    padded = wider;
                }
            },
            Err(_) => {
                assert(false);
                return ;
            },
        }
    }
    proof {
        assert(padded =~= padded_to(columns, (column_index + 1) as nat));
    }
    let ghost before = builders@;
    let ghost fields = padded[column_index as int];
    assert(column_ok(before[column_index as int], fields));
    let mut builder = builders.remove(column_index);
    assert(seq![BeadType::Utf8].contains(BeadType::Utf8)) by {
        assert(seq![BeadType::Utf8][0] == BeadType::Utf8);
    }
    let ok: bool = builder.push_utf8(bytes);
    assert(ok);
    assert(beads_of(BeadType::Utf8, fields.push(bytes@)) =~= beads_of(BeadType::Utf8, fields).push(
        Bead { kind: BeadType::Utf8, data: bytes@ },
    ));
    let ghost kept = builder;
    builders.insert(column_index, builder);
    proof {
        let after = builders@;
        let added = with_field(
            columns,
            FieldModel { row: 0, column: column_index as nat, bytes: bytes@ },
        );
        assert(after =~= before.update(column_index as int, kept));
        assert(after.len() == added.len());
        assert forall|i: int| 0 <= i < added.len() implies column_ok(
            #[trigger] after[i],
            added[i],
        ) by {
            if i != column_index {
                assert(after[i] == before[i]);
            }
        }
        assert forall|i: int| 0 <= i < added.len() implies (#[trigger] added[i]).len() <= bound
            + 1 by {
            if i != column_index {
                assert(added[i] == padded[i]);
            }
        }
        assert(columns_ok(after, added, bound + 1));
    }
}

/// Reads comma-separated text and writes its columns as indexed beads of
/// sequences of strings.
#[verifier::rlimit(50)]
pub fn csv_to_indexed_string_beads(csv: &str, writer: &mut Vec<u8>)
    ensures
        final(writer)@ == old(writer)@ + csv_bytes(csv_columns(csv.spec_bytes())),
{
    let fields = csv_fields(csv.as_bytes(), false);
    let ghost all = fields.deep_view();
    let mut builders: Vec<BeadsSequenceBuilder> = Vec::new();
    let mut n: usize = 0;
    assert(all.take(0) =~= Seq::<FieldModel>::empty());
    while n < fields.len()
        invariant
            n <= fields@.len(),
            all == fields.deep_view(),
            all.len() == fields@.len(),
            columns_ok(builders@, columns_of(all.take(n as int)), n as nat),
        decreases fields@.len() - n,
    {
        let ghost columns = columns_of(all.take(n as int));
        proof {
            assert(all.take(n + 1).drop_last() =~= all.take(n as int));
            assert(all[n as int] == fields@[n as int].deep_view());
        }
        add_bytes(
            &mut builders,
            fields[n].bytes.as_slice(),
            fields[n].column,
            Ghost(columns),
            Ghost(n as nat),
        );
        n += 1;
    }
    let ghost columns = csv_columns(csv.spec_bytes());
    assert(all.take(fields@.len() as int) =~= all);
    if builders.len() == 0 {
        assert(writer@ =~= old(writer)@ + csv_bytes(columns));
        return ;
    }
    let ghost parts = Seq::new(columns.len(), |i: int| column_bytes(columns[i]));
    let mut body: Vec<u8> = Vec::new();
    let mut ends: Vec<usize> = Vec::new();
    let mut i: usize = 0;
    assert(parts.take(0) =~= Seq::<Seq<u8>>::empty());
    while i < builders.len()
        invariant
            i <= builders@.len(),
            columns_ok(builders@, columns, n as nat),
            parts == Seq::new(columns.len(), |i: int| column_bytes(columns[i])),
            body@ == concat(parts.take(i as int)),
            ends@.len() == i,
            forall|j: int| 0 <= j < i ==> ends@[j] == concat(parts.take(j + 1)).len(),
        decreases builders@.len() - i,
    {
        assert(column_ok(builders@[i as int], columns[i as int]));
        builders[i].encode(&mut body);
        ends.push(body.len());
        proof {
            assert(parts.take(i + 1).drop_last() =~= parts.take(i as int));
        }
        i += 1;
    }
    proof {
        assert(parts.take(parts.len() as int) =~= parts);
    }
    write_indexed(writer, &body, &ends, Ghost(parts));
}

} // verus!
