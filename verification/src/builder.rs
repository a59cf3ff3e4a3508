use crate::bead_type::{int_priority, lemma_members, uint_priority, BeadType, BeadTypeSet};
use crate::container::{
    concat, fixed_bytes, index_entries, index_width, indexed_bytes, indexed_encoding, max_width,
    dedup_bytes, lemma_place_of_first, lemma_place_of_new, places, records, uint_beads_bytes,
    uint_width, unique,
};
use crate::endian::{le_bytes, push_le, push_slice, slices_equal};
use crate::error::BeadsError;
use crate::layout::{
    chunk, full_chunks, lemma_region_opened, lemma_region_push, lemma_tag_of_place, payloads,
    region, tag_bits, tag_of, tagged_region, tags_per_byte, types_ok, Bead, SequenceModel,
};
use crate::vlq::{push_vlq, read_vlq, vlq_byte_size, vlq_bytes};
use vstd::prelude::*;
use vstd::string::StringSliceAdditionalSpecFns;

verus! {

/// What the encoders have in common: an encoding, which `encode` writes and
/// whose length `len` gives without writing.
pub trait BeadsBuilder {
    /// Whether the builder's fields agree with one another.
    spec fn well_formed(&self) -> bool;

    /// The bytes that `encode` writes.
    spec fn encoding(&self) -> Seq<u8>;

    /// Appends the encoding to `writer`.
    fn encode(&self, writer: &mut Vec<u8>)
        requires
            self.well_formed(),
        ensures
            final(writer)@ == old(writer)@ + self.encoding(),
    ;

    /// The length of the encoding.
    fn len(&self) -> (n: usize)
        requires
            self.well_formed(),
            self.encoding().len() <= usize::MAX,
        ensures
            n == self.encoding().len(),
    ;
}

/// The first type of `order` that is in `types` and fits the integer `v`.
pub open spec fn first_fit(order: Seq<BeadType>, types: Seq<BeadType>, v: int) -> Option<
    BeadType,
>
    decreases order.len(),
{
    if order.len() == 0 {
        None
    } else if types.contains(order[0]) && order[0].fits_integer(v) {
        Some(order[0])
    } else {
        first_fit(order.skip(1), types, v)
    }
}

/// Whether a type of `order` is in `types`.
pub open spec fn any_member(order: Seq<BeadType>, types: Seq<BeadType>) -> bool {
    exists|i: int| 0 <= i < order.len() && types.contains(#[trigger] order[i])
}

/// What a push of the integer `v` makes of the state `m`, with the types
/// tried in `order`: the first that fits takes the value; where none fits,
/// a tag byte was still opened if a type of `order` is in the set.
pub open spec fn integer_push(m: SequenceModel, order: Seq<BeadType>, v: int) -> (
    bool,
    SequenceModel,
) {
    match first_fit(order, m.types(), v) {
        Some(t) => (true, m.push(Bead { kind: t, data: t.integer_payload(v) })),
        None => (
            false,
            if any_member(order, m.types()) {
                m.opened()
            } else {
                m
            },
        ),
    }
}

/// One encoding of a value: the type, and the content if the value fits it.
pub struct Candidate {
    pub kind: BeadType,
    pub payload: Option<Vec<u8>>,
}

/// A candidate as a mathematical value.
pub struct CandidateModel {
    pub kind: BeadType,
    pub payload: Option<Seq<u8>>,
}

impl DeepView for Candidate {
    type V = CandidateModel;

    open spec fn deep_view(&self) -> CandidateModel {
        CandidateModel {
            kind: self.kind,
            payload: match self.payload {
                Some(data) => Some(data@),
                None => None,
            },
        }
    }
}

impl CandidateModel {
    /// Whether the candidate has content of the shape of its type.
    pub open spec fn usable(self) -> bool {
        self.payload matches Some(data) && (Bead { kind: self.kind, data }).valid()
    }
}

/// The first candidate with a type of `types` and with usable content.
pub open spec fn first_candidate(candidates: Seq<CandidateModel>, types: Seq<BeadType>) -> Option<
    Bead,
>
    decreases candidates.len(),
{
    if candidates.len() == 0 {
        None
    } else if types.contains(candidates[0].kind) && candidates[0].usable() {
        Some(Bead { kind: candidates[0].kind, data: candidates[0].payload.unwrap() })
    } else {
        first_candidate(candidates.skip(1), types)
    }
}

/// Whether a candidate has a type of `types`.
pub open spec fn any_candidate(candidates: Seq<CandidateModel>, types: Seq<BeadType>) -> bool {
    exists|i: int| 0 <= i < candidates.len() && types.contains((#[trigger] candidates[i]).kind)
}

/// What a push of candidates makes of the state `m`: the first usable one
/// is pushed; where there is none, a tag byte was still opened if a
/// candidate has a type of the set.
pub open spec fn candidate_push(m: SequenceModel, candidates: Seq<CandidateModel>) -> (
    bool,
    SequenceModel,
) {
    match first_candidate(candidates, m.types()) {
        Some(bead) => (true, m.push(bead)),
        None => (
            false,
            if any_candidate(candidates, m.types()) {
                m.opened()
            } else {
                m
            },
        ),
    }
}

/// Whether `data` has the shape of the content of a bead of type `kind`.
pub fn payload_is_valid(kind: BeadType, data: &[u8]) -> (r: bool)
    ensures
        r == (Bead { kind, data: data@ }).valid(),
{
    let size: u8 = kind.data_size();
    let len: usize = data.len();
    if size != crate::bead_type::VARIABLE_SIZE {
        len == size as usize
    } else if kind == BeadType::Utf8 || kind == BeadType::Bytes {
        true
    } else {
        match read_vlq(data) {
            Ok((n, _)) => n == data.len(),
            Err(_) => false,
        }
    }
}

/// The encoder of a tagged sequence.
pub struct BeadsSequenceBuilder {
    set: BeadTypeSet,
    types: Vec<BeadType>,
    buffer: Vec<u8>,
    count: usize,
    chunk_start: usize,
    flag_pointer: usize,
    beads: Ghost<Seq<Bead>>,
}

impl View for BeadsSequenceBuilder {
    type V = SequenceModel;

    closed spec fn view(&self) -> SequenceModel {
        SequenceModel { set: self.set, beads: self.beads@, chunk_start: self.chunk_start as nat }
    }
}

impl BeadsSequenceBuilder {
    /// Whether the buffer holds the region of the beads pushed so far.
    pub closed spec fn wf(&self) -> bool {
        &&& self@.ok()
        &&& self.types@ == self.set.members()
        &&& types_ok(self.types@)
        &&& self.count == self.beads@.len()
        &&& if self.types@.len() == 1 {
            self.flag_pointer == 0 && self.buffer@ == payloads(self.beads@)
        } else {
            &&& self.flag_pointer == full_chunks(
                self.types@,
                self.beads@.take(self.chunk_start as int),
            ).len()
            &&& self.buffer@ == tagged_region(self.types@, self.beads@, self.chunk_start as nat)
        }
    }

    /// A well-formed builder is in a state that a builder can be in, with
    /// no more beads than the machine counts.
    pub proof fn lemma_wf(&self)
        requires
            self.wf(),
        ensures
            self@.ok(),
            types_ok(self@.types()),
            self@.beads.len() <= usize::MAX,
    {
    }

    /// A builder for the given types, which must be one to sixteen types of the catalog.
    pub fn new(types: &BeadTypeSet) -> (r: Result<BeadsSequenceBuilder, BeadsError>)
        ensures
            match r {
                Ok(b) => types.valid() && b.wf() && b@ == (SequenceModel {
                    set: *types,
                    beads: Seq::empty(),
                    chunk_start: 0,
                }),
                Err(e) => !types.valid() && e == BeadsError::BadTypeSet,
            },
    {
        if !types.is_valid() {
            return Err(BeadsError::BadTypeSet);
        }
        let members = types.types();
        let mut buffer: Vec<u8> = Vec::new();
        if members.len() > 1 {
            buffer.push(0);
        }
        proof {
            lemma_members(*types);
            let none = Seq::<Bead>::empty();
            assert(none.take(0) =~= none);
            assert(none.skip(0) =~= none);
            assert(payloads(none) =~= Seq::<u8>::empty());
            assert(chunk(members@, none) =~= seq![0u8]);
            assert(full_chunks(members@, none) =~= Seq::<u8>::empty());
            assert(tagged_region(members@, none, 0) =~= seq![0u8]);
        }
        Ok(
            BeadsSequenceBuilder {
                set: *types,
                types: members,
                buffer,
                count: 0,
                chunk_start: 0,
                flag_pointer: 0,
                beads: Ghost(Seq::empty()),
            },
        )
    }

    /// The number of beads pushed so far.
    pub fn count(&self) -> (n: usize)
        requires
            self.wf(),
        ensures
            n == self@.beads.len(),
    {
        self.count
    }

    /// The tag of a type of the set.
    fn tag_index(&self, kind: BeadType) -> (r: Option<u8>)
        requires
            self.wf(),
        ensures
            match r {
                Some(g) => self@.types().contains(kind) && g == tag_of(self@.types(), kind) && g
                    < self@.types().len(),
                None => !self@.types().contains(kind),
            },
    {
        let mut i: usize = 0;
        while i < self.types.len()
            invariant
                self.wf(),
                i <= self.types@.len() <= 16,
                forall|j: int| 0 <= j < i ==> self.types@[j] != kind,
            decreases self.types@.len() - i,
        {
            if self.types[i] == kind {
                proof {
                    assert(self.types@[i as int] == kind);
                    lemma_tag_of_place(self.types@, i as int);
                }
                return Some(i as u8);
            }
            i += 1;
        }
        None
    }

    /// How many tags share a byte, and how many bits each takes.
    fn compute_flag_info(&self) -> (r: (usize, usize))
        requires
            self.wf(),
        ensures
            r.0 == tags_per_byte(self@.types().len()),
            r.1 == tag_bits(self@.types().len()),
    {
        let type_number: usize = self.types.len();
        if type_number <= 2 {
            (8, 1)
        } else if type_number <= 4 {
            (4, 2)
        } else {
            (2, 4)
        }
    }

    /// Opens a tag byte at the end of the region if the open one is full.
    #[verifier::rlimit(50)]
    fn move_flag_pointer_if_necessary(&mut self)
        requires
            old(self).wf(),
        ensures
            final(self).wf(),
            final(self)@ == old(self)@.opened(),
            final(self)@.types().len() > 1 ==> final(self)@.beads.len() < final(self)@.chunk_start
                + tags_per_byte(final(self)@.types().len()),
    {
        if self.types.len() == 1 {
            return ;
        }
        let (per_byte, _) = self.compute_flag_info();
        if self.count - self.chunk_start == per_byte {
            proof {
                lemma_region_opened(self.types@, self.beads@, self.chunk_start as nat);
            }
            self.flag_pointer = self.buffer.len();
            self.chunk_start = self.count;
            self.buffer.push(0);
        }
    }

    /// Sets the tag of the next bead in the open tag byte, appends the
    /// payload, which is `head` followed by `body`, and counts the bead.
    #[verifier::rlimit(50)]
    fn add_bead(&mut self, flag: u8, head: &[u8], body: &[u8], Ghost(bead): Ghost<Bead>)
        requires
            old(self).wf(),
            old(self)@.beads.len() < usize::MAX,
            old(self)@.types().contains(bead.kind),
            flag == tag_of(old(self)@.types(), bead.kind),
            bead.valid(),
            bead.wire() == head@ + body@,
        ensures
            final(self).wf(),
            final(self)@ == old(self)@.push(bead),
    {
        self.move_flag_pointer_if_necessary();
        let ghost before = self.buffer@;
        if self.types.len() > 1 {
            let (per_byte, shift) = self.compute_flag_info();
            let position_in_byte: usize = self.count - self.chunk_start;
            proof {
                lemma_region_push(self.types@, self.beads@, self.chunk_start as nat, bead);
                assert(shift * position_in_byte < 8) by (nonlinear_arith)
                    requires
                        position_in_byte < per_byte,
                        (per_byte == 8 && shift == 1) || (per_byte == 4 && shift == 2) || (per_byte
                            == 2 && shift == 4),
                ;
            }
            let tag: u8 = self.buffer[self.flag_pointer];
            self.buffer[self.flag_pointer] = tag | (flag << ((shift * position_in_byte) as u8));
        }
        push_slice(&mut self.buffer, head);
        push_slice(&mut self.buffer, body);
        proof {
            let place = self.flag_pointer as int;
            if self.types@.len() > 1 {
                assert(self.buffer@ =~= before.update(
                    place,
                    before[place] | (flag << ((tag_bits(self.types@.len()) * (self.count
                        - self.chunk_start)) as u8)),
                ) + bead.wire());
                assert(self.beads@.push(bead).take(self.chunk_start as int) =~= self.beads@.take(
                    self.chunk_start as int,
                ));
            } else {
                assert(self.beads@.push(bead).drop_last() =~= self.beads@);
                assert(self.buffer@ =~= before + bead.wire());
            }
        }
        self.beads = Ghost(self.beads@.push(bead));
        self.count += 1;
    }

    /// Pushes a bead of a type that the value names: a marker or a blob.
    fn push_direct(&mut self, kind: BeadType, body: &[u8]) -> (ok: bool)
        requires
            old(self).wf(),
            kind.is_marker() || kind.is_blob(),
            kind.is_marker() ==> body@.len() == 0,
        ensures
            final(self).wf(),
            ok <==> old(self)@.types().contains(kind) && old(self)@.beads.len() < usize::MAX,
            ok ==> final(self)@ == old(self)@.push(Bead { kind, data: body@ }),
            !ok ==> final(self)@ == old(self)@,
    {
        if self.count == usize::MAX {
            return false;
        }
        match self.tag_index(kind) {
            Some(flag) => {
                let mut head: Vec<u8> = Vec::new();
                if !kind.has_no_data() {
                    push_vlq(&mut head, body.len() as u128);
                }
                let ghost bead = Bead { kind, data: body@ };
                proof {
                    assert(Seq::<u8>::empty() + vlq_bytes(body@.len()) =~= vlq_bytes(body@.len()));
                    assert(Seq::<u8>::empty() + body@ =~= body@);
                }
                self.add_bead(flag, head.as_slice(), body, Ghost(bead));
                true
            },
            None => false,
        }
    }

    /// Pushes a boolean as `TrueFlag` or `FalseFlag`.
    pub fn push_bool(&mut self, value: bool) -> (ok: bool)
        requires
            old(self).wf(),
        ensures
            final(self).wf(),
            ({
                let kind = if value {
                    BeadType::TrueFlag
                } else {
                    BeadType::FalseFlag
                };
                &&& ok <==> old(self)@.types().contains(kind) && old(self)@.beads.len()
                    < usize::MAX
                &&& ok ==> final(self)@ == old(self)@.push(Bead { kind, data: Seq::empty() })
                &&& !ok ==> final(self)@ == old(self)@
            }),
    {
        let none: Vec<u8> = Vec::new();
        if value {
            self.push_direct(BeadType::TrueFlag, none.as_slice())
        } else {
            self.push_direct(BeadType::FalseFlag, none.as_slice())
        }
    }

    /// Pushes the none marker.
    pub fn push_none(&mut self) -> (ok: bool)
        requires
            old(self).wf(),
        ensures
            final(self).wf(),
            ok <==> old(self)@.types().contains(BeadType::NoneFlag) && old(self)@.beads.len()
                < usize::MAX,
            ok ==> final(self)@ == old(self)@.push(
                Bead { kind: BeadType::NoneFlag, data: Seq::empty() },
            ),
            !ok ==> final(self)@ == old(self)@,
    {
        let none: Vec<u8> = Vec::new();
        self.push_direct(BeadType::NoneFlag, none.as_slice())
    }

    /// Pushes a string as `Utf8`: the length of its UTF-8 form, then that form.
    pub fn push_string(&mut self, value: &str) -> (ok: bool)
        requires
            old(self).wf(),
        ensures
            final(self).wf(),
            ok <==> old(self)@.types().contains(BeadType::Utf8) && old(self)@.beads.len()
                < usize::MAX,
            ok ==> final(self)@ == old(self)@.push(
                Bead { kind: BeadType::Utf8, data: value.spec_bytes() },
            ),
            !ok ==> final(self)@ == old(self)@,
    {
        self.push_direct(BeadType::Utf8, value.as_bytes())
    }

    /// Pushes bytes as `Bytes`: their number, then the bytes.
    pub fn push_bytes(&mut self, value: &[u8]) -> (ok: bool)
        requires
            old(self).wf(),
        ensures
            final(self).wf(),
            ok <==> old(self)@.types().contains(BeadType::Bytes) && old(self)@.beads.len()
                < usize::MAX,
            ok ==> final(self)@ == old(self)@.push(Bead { kind: BeadType::Bytes, data: value@ }),
            !ok ==> final(self)@ == old(self)@,
    {
        self.push_direct(BeadType::Bytes, value)
    }

    /// Pushes text as `Utf8` whose bytes are given.
    pub fn push_utf8(&mut self, value: &[u8]) -> (ok: bool)
        requires
            old(self).wf(),
        ensures
            final(self).wf(),
            ok <==> old(self)@.types().contains(BeadType::Utf8) && old(self)@.beads.len()
                < usize::MAX,
            ok ==> final(self)@ == old(self)@.push(Bead { kind: BeadType::Utf8, data: value@ }),
            !ok ==> final(self)@ == old(self)@,
    {
        self.push_direct(BeadType::Utf8, value)
    }

    /// Tries the types of `cases` in turn for the integer of magnitude
    /// `magnitude`, negative or not, and pushes it in the first that is in
    /// the set and that it fits.
    #[verifier::rlimit(50)]
    fn push_integer(&mut self, negative: bool, magnitude: u128, cases: Vec<BeadType>) -> (ok: bool)
        requires
            old(self).wf(),
            negative ==> 0 < magnitude <= 0x8000_0000_0000_0000_0000_0000_0000_0000,
        ensures
            final(self).wf(),
            old(self)@.beads.len() == usize::MAX ==> !ok && final(self)@ == old(self)@,
            old(self)@.beads.len() < usize::MAX ==> (ok, final(self)@) == integer_push(
                old(self)@,
                cases@,
                if negative {
                    -(magnitude as int)
                } else {
                    magnitude as int
                },
            ),
    {
        if self.count == usize::MAX {
            return false;
        }
        let ghost v = if negative {
            -(magnitude as int)
        } else {
            magnitude as int
        };
        let ghost start = self@;
        let mut payload: Vec<u8> = Vec::new();
        let none: Vec<u8> = Vec::new();
        let mut touched: bool = false;
        let mut i: usize = 0;
        assert(cases@.skip(0) =~= cases@);
        while i < cases.len()
            invariant
                self.wf(),
                i <= cases@.len(),
                payload@.len() == 0,
                none@.len() == 0,
                self@.beads.len() < usize::MAX,
                start.beads.len() < usize::MAX,
                start == old(self)@,
                self@.types() == start.types(),
                negative ==> 0 < magnitude <= 0x8000_0000_0000_0000_0000_0000_0000_0000,
                v == if negative {
                    -(magnitude as int)
                } else {
                    magnitude as int
                },
                first_fit(cases@, start.types(), v) == first_fit(
                    cases@.skip(i as int),
                    start.types(),
                    v,
                ),
                touched <==> any_member(cases@.take(i as int), start.types()),
                self@ == if touched {
                    start.opened()
                } else {
                    start
                },
            decreases cases@.len() - i,
        {
            let t: BeadType = cases[i];
            proof {
                assert(cases@.skip(i as int)[0] == t);
                assert(cases@.skip(i as int).skip(1) =~= cases@.skip(i + 1));
                let next = cases@.take(i + 1);
                assert(next =~= cases@.take(i as int).push(t));
                if any_member(cases@.take(i as int), start.types()) {
                    let j = choose|j: int|
                        0 <= j < i && start.types().contains(#[trigger] cases@.take(i as int)[j]);
                    assert(next[j] == cases@.take(i as int)[j]);
                }
                if start.types().contains(t) {
                    assert(next[i as int] == t);
                }
                if any_member(next, start.types()) && !start.types().contains(t) {
                    let j = choose|j: int|
                        0 <= j < i + 1 && start.types().contains(#[trigger] next[j]);
                    assert(cases@.take(i as int)[j] == next[j]);
                }
            }
            match self.tag_index(t) {
                Some(flag) => {
                    self.move_flag_pointer_if_necessary();
                    touched = true;
                    let (fits, _) = t.push_integer(negative, magnitude, &mut payload);
                    if fits {
                        let ghost bead = Bead { kind: t, data: t.integer_payload(v) };
                        proof {
                            crate::layout::lemma_integer_bead(t, v);
                            assert(payload@ =~= t.integer_payload(v));
                            assert(payload@ + none@ =~= payload@);
                        }
                        self.add_bead(flag, payload.as_slice(), none.as_slice(), Ghost(bead));
                        return true;
                    }
                },
                None => {},
            }
            i += 1;
        }
        proof {
            assert(cases@.take(i as int) =~= cases@);
        }
        false
    }

    /// Pushes an unsigned integer in the first type of the unsigned priority
    /// order that is in the set and that it fits.
    pub fn push_uint(&mut self, value: u128) -> (ok: bool)
        requires
            old(self).wf(),
        ensures
            final(self).wf(),
            old(self)@.beads.len() == usize::MAX ==> !ok && final(self)@ == old(self)@,
            old(self)@.beads.len() < usize::MAX ==> (ok, final(self)@) == integer_push(
                old(self)@,
                uint_priority(),
                value as int,
            ),
    {
        self.push_integer(false, value, BeadType::cases_for_uint())
    }

    /// Pushes a signed integer in the first type of the signed priority
    /// order that is in the set and that it fits.
    pub fn push_int(&mut self, value: i128) -> (ok: bool)
        requires
            old(self).wf(),
        ensures
            final(self).wf(),
            old(self)@.beads.len() == usize::MAX ==> !ok && final(self)@ == old(self)@,
            old(self)@.beads.len() < usize::MAX ==> (ok, final(self)@) == integer_push(
                old(self)@,
                int_priority(),
                value as int,
            ),
    {
        if value < 0 {
            let magnitude: u128 = ((-(value + 1)) as u128) + 1;
            self.push_integer(true, magnitude, BeadType::cases_for_int())
        } else {
            self.push_integer(false, value as u128, BeadType::cases_for_int())
        }
    }

    /// Pushes the first candidate whose type is in the set and whose
    /// content has the shape of its type. The candidates stand for one
    /// value in several encodings, first choice first; one without content
    /// is an encoding that the value does not fit.
    #[verifier::rlimit(50)]
    pub fn push_candidates(&mut self, candidates: &Vec<Candidate>) -> (ok: bool)
        requires
            old(self).wf(),
        ensures
            final(self).wf(),
            old(self)@.beads.len() == usize::MAX ==> !ok && final(self)@ == old(self)@,
            old(self)@.beads.len() < usize::MAX ==> (ok, final(self)@) == candidate_push(
                old(self)@,
                candidates.deep_view(),
            ),
    {
        if self.count == usize::MAX {
            return false;
        }
        let ghost start = self@;
        let ghost all = candidates.deep_view();
        let none: Vec<u8> = Vec::new();
        let mut touched: bool = false;
        let mut i: usize = 0;
        assert(all.skip(0) =~= all);
        while i < candidates.len()
            invariant
                self.wf(),
                i <= candidates@.len(),
                all == candidates.deep_view(),
                all.len() == candidates@.len(),
                none@.len() == 0,
                self@.beads.len() < usize::MAX,
                start.beads.len() < usize::MAX,
                start == old(self)@,
                self@.types() == start.types(),
                first_candidate(all, start.types()) == first_candidate(
                    all.skip(i as int),
                    start.types(),
                ),
                touched <==> any_candidate(all.take(i as int), start.types()),
                self@ == if touched {
                    start.opened()
                } else {
                    start
                },
            decreases candidates@.len() - i,
        {
            let kind: BeadType = candidates[i].kind;
            proof {
                assert(all[i as int] == candidates@[i as int].deep_view());
                assert(all.skip(i as int)[0] == all[i as int]);
                assert(all.skip(i as int).skip(1) =~= all.skip(i + 1));
                let next = all.take(i + 1);
                assert(next =~= all.take(i as int).push(all[i as int]));
                if any_candidate(all.take(i as int), start.types()) {
                    let j = choose|j: int|
                        0 <= j < i && start.types().contains((#[trigger] all.take(i as int)[j]).kind);
                    assert(next[j] == all.take(i as int)[j]);
                }
                if start.types().contains(kind) {
                    assert(next[i as int].kind == kind);
                }
                if any_candidate(next, start.types()) && !start.types().contains(kind) {
                    let j = choose|j: int|
                        0 <= j < i + 1 && start.types().contains((#[trigger] next[j]).kind);
                    assert(all.take(i as int)[j] == next[j]);
                }
            }
            match self.tag_index(kind) {
                Some(flag) => {
                    self.move_flag_pointer_if_necessary();
                    touched = true;
                    match &candidates[i].payload {
                        Some(data) => {
                            if payload_is_valid(kind, data.as_slice()) {
                                let ghost bead = Bead { kind, data: data@ };
                                if kind == BeadType::Utf8 || kind == BeadType::Bytes {
                                    let mut head: Vec<u8> = Vec::new();
                                    push_vlq(&mut head, data.len() as u128);
                                    proof {
                                        assert(Seq::<u8>::empty() + vlq_bytes(data@.len())
                                            =~= vlq_bytes(data@.len()));
                                    }
                                    self.add_bead(
                                        flag,
                                        head.as_slice(),
                                        data.as_slice(),
                                        Ghost(bead),
                                    );
                                } else {
                                    proof {
                                        assert(data@ + none@ =~= data@);
                                    }
                                    self.add_bead(
                                        flag,
                                        data.as_slice(),
                                        none.as_slice(),
                                        Ghost(bead),
                                    );
                                }
                                return true;
                            }
                        },
                        None => {},
                    }
                },
                None => {},
            }
            i += 1;
        }
        proof {
            assert(all.take(i as int) =~= all);
        }
        false
    }

    /// The number of bytes of the region.
    fn region_len(&self) -> (n: usize)
        requires
            self.wf(),
        ensures
            n == region(self@.types(), self@.beads, self@.chunk_start).len(),
    {
        if self.types.len() == 1 && self.buffer.len() == 0 {
            1
        } else {
            self.buffer.len()
        }
    }

    /// Appends the encoding to `writer`: the number of beads, then the region.
    pub fn encode(&self, writer: &mut Vec<u8>)
        requires
            self.wf(),
        ensures
            final(writer)@ == old(writer)@ + self@.bytes(),
    {
        let ghost before = writer@;
        push_vlq(writer, self.count as u128);
        if self.types.len() == 1 && self.buffer.len() == 0 {
            writer.push(0);
        } else {
            push_slice(writer, self.buffer.as_slice());
        }
        assert(writer@ =~= before + self@.bytes());
    }

    /// Appends the mask of the type set as four little-endian bytes, then the encoding.
    pub fn encode_with_types(&self, writer: &mut Vec<u8>)
        requires
            self.wf(),
        ensures
            final(writer)@ == old(writer)@ + le_bytes(self@.set.value as nat, 4) + self@.bytes(),
    {
        let mask: [u8; 4] = self.set.bytes();
        push_slice(writer, mask.as_slice());
        self.encode(writer);
    }

    /// The length of the encoding.
    pub fn len(&self) -> (n: usize)
        requires
            self.wf(),
            self@.bytes().len() <= usize::MAX,
        ensures
            n == self@.bytes().len(),
    {
        vlq_byte_size(self.count) + self.region_len()
    }
}

impl BeadsBuilder for BeadsSequenceBuilder {
    open spec fn well_formed(&self) -> bool {
        self.wf()
    }

    open spec fn encoding(&self) -> Seq<u8> {
        self@.bytes()
    }

    fn encode(&self, writer: &mut Vec<u8>) {
        BeadsSequenceBuilder::encode(self, writer)
    }

    fn len(&self) -> (n: usize) {
        BeadsSequenceBuilder::len(self)
    }
}

/// The smallest number of bytes, from one to eight, that hold `total`.
pub fn index_width_of(total: usize) -> (w: usize)
    ensures
        w == index_width(total as nat),
        1 <= w <= 8,
{
    let t: u64 = total as u64;
    if t < 0x100 {
        1
    } else if t < 0x1_0000 {
        2
    } else if t < 0x100_0000 {
        3
    } else if t < 0x1_0000_0000 {
        4
    } else if t < 0x100_0000_0000 {
        5
    } else if t < 0x1_0000_0000_0000 {
        6
    } else if t < 0x100_0000_0000_0000 {
        7
    } else {
        8
    }
}

/// Appends indexed beads to `writer`: `body` holds the parts one after the
/// other, and `ends` where each part ends in it.
pub(crate) fn write_indexed(
    writer: &mut Vec<u8>,
    body: &Vec<u8>,
    ends: &Vec<usize>,
    Ghost(parts): Ghost<Seq<Seq<u8>>>,
)
    requires
        body@ == concat(parts),
        ends@.len() == parts.len(),
        forall|j: int| 0 <= j < parts.len() ==> ends@[j] == concat(parts.take(j + 1)).len(),
    ensures
        final(writer)@ == old(writer)@ + indexed_bytes(parts),
{
    let ghost before = writer@;
    let width: usize = index_width_of(body.len());
    let header: u128 = (ends.len() as u128) * 8 + (width as u128 - 1);
    push_vlq(writer, header);
    let ghost headed = writer@;
    let mut i: usize = 0;
    assert(parts.take(0) =~= Seq::<Seq<u8>>::empty());
    assert(headed + index_entries(parts.take(0), width as nat) =~= headed);
    while i < ends.len()
        invariant
            i <= ends@.len(),
            ends@.len() == parts.len(),
            forall|j: int| 0 <= j < parts.len() ==> ends@[j] == concat(parts.take(j + 1)).len(),
            writer@ == headed + index_entries(parts.take(i as int), width as nat),
        decreases ends@.len() - i,
    {
        let ghost prev = writer@;
        push_le(writer, ends[i] as u128, width);
        proof {
            assert(parts.take(i + 1).drop_last() =~= parts.take(i as int));
            assert(writer@ =~= headed + index_entries(parts.take(i + 1), width as nat));
        }
        i += 1;
    }
    push_slice(writer, body.as_slice());
    proof {
        assert(parts.take(parts.len() as int) =~= parts);
        assert(writer@ =~= before + indexed_bytes(parts));
    }
}

/// The encoder of indexed beads: parts of any length with a side index.
pub struct IndexedBeadsBuilder<'a> {
    buffers: Vec<&'a [u8]>,
}

impl<'a> IndexedBeadsBuilder<'a> {
    /// The parts pushed so far.
    pub closed spec fn parts(&self) -> Seq<Seq<u8>> {
        Seq::new(self.buffers@.len(), |i: int| self.buffers@[i]@)
    }

    /// A builder without parts.
    pub fn new() -> (r: IndexedBeadsBuilder<'a>)
        ensures
            r.parts() == Seq::<Seq<u8>>::empty(),
    {
        let r = IndexedBeadsBuilder { buffers: Vec::new() };
        assert(r.parts() =~= Seq::<Seq<u8>>::empty());
        r
    }

    /// Adds a part.
    pub fn push(&mut self, buffer: &'a [u8])
        ensures
            final(self).parts() == old(self).parts().push(buffer@),
    {
        self.buffers.push(buffer);
        assert(self.parts() =~= old(self).parts().push(buffer@));
    }

    /// The number of parts.
    pub fn count(&self) -> (n: usize)
        ensures
            n == self.parts().len(),
    {
        self.buffers.len()
    }

    /// Part `i`.
    pub fn part(&self, i: usize) -> (r: &'a [u8])
        requires
            i < self.parts().len(),
        ensures
            r@ == self.parts()[i as int],
    {
        self.buffers[i]
    }

    /// Appends the encoding to `writer`: indexed beads of the parts, or
    /// nothing if the parts hold no byte.
    pub fn encode(&self, writer: &mut Vec<u8>)
        ensures
            final(writer)@ == old(writer)@ + indexed_encoding(self.parts()),
    {
        let ghost parts = self.parts();
        let mut body: Vec<u8> = Vec::new();
        let mut ends: Vec<usize> = Vec::new();
        let mut i: usize = 0;
        assert(parts.take(0) =~= Seq::<Seq<u8>>::empty());
        while i < self.buffers.len()
            invariant
                i <= self.buffers@.len(),
                parts == self.parts(),
                body@ == concat(parts.take(i as int)),
                ends@.len() == i,
                forall|j: int| 0 <= j < i ==> ends@[j] == concat(parts.take(j + 1)).len(),
            decreases self.buffers@.len() - i,
        {
            push_slice(&mut body, self.buffers[i]);
            ends.push(body.len());
            proof {
                assert(parts.take(i + 1).drop_last() =~= parts.take(i as int));
            }
            i += 1;
        }
        proof {
            assert(parts.take(parts.len() as int) =~= parts);
        }
        if body.len() == 0 {
            assert(writer@ =~= old(writer)@ + indexed_encoding(parts));
            return ;
        }
        write_indexed(writer, &body, &ends, Ghost(parts));
    }

    /// Appends indexed beads whose parts are the encodings of `builders` to
    /// `writer`, or nothing if there is no builder.
    pub fn encode_from_beads_builders(writer: &mut Vec<u8>, builders: Vec<Box<dyn BeadsBuilder + '_>>)
        requires
            forall|i: int| 0 <= i < builders@.len() ==> (#[trigger] builders@[i]).well_formed(),
        ensures
            final(writer)@ == old(writer)@ + if builders@.len() == 0 {
                Seq::<u8>::empty()
            } else {
                indexed_bytes(Seq::new(builders@.len(), |i: int| builders@[i].encoding()))
            },
    {
        if builders.len() == 0 {
            assert(writer@ =~= old(writer)@ + Seq::<u8>::empty());
            return ;
        }
        let ghost parts = Seq::new(builders@.len(), |i: int| builders@[i].encoding());
        let mut body: Vec<u8> = Vec::new();
        let mut ends: Vec<usize> = Vec::new();
        let mut i: usize = 0;
        assert(parts.take(0) =~= Seq::<Seq<u8>>::empty());
        while i < builders.len()
            invariant
                i <= builders@.len(),
                parts == Seq::new(builders@.len(), |i: int| builders@[i].encoding()),
                forall|i: int| 0 <= i < builders@.len() ==> (#[trigger] builders@[i]).well_formed(),
                body@ == concat(parts.take(i as int)),
                ends@.len() == i,
                forall|j: int| 0 <= j < i ==> ends@[j] == concat(parts.take(j + 1)).len(),
            decreases builders@.len() - i,
        {
            builders[i].encode(&mut body);
            ends.push(body.len());
            proof {
                assert(parts.take(i + 1).drop_last() =~= parts.take(i as int));
            }
            i += 1;
        }
        proof {
            assert(parts.take(parts.len() as int) =~= parts);
        }
        write_indexed(writer, &body, &ends, Ghost(parts));
    }

    /// The length of the encoding.
    pub fn len(&self) -> (n: usize)
        ensures
            n == indexed_encoding(self.parts()).len(),
    {
        let mut out: Vec<u8> = Vec::new();
        self.encode(&mut out);
        out.len()
    }
}

impl<'a> BeadsBuilder for IndexedBeadsBuilder<'a> {
    open spec fn well_formed(&self) -> bool {
        true
    }

    open spec fn encoding(&self) -> Seq<u8> {
        indexed_encoding(self.parts())
    }

    fn encode(&self, writer: &mut Vec<u8>) {
        IndexedBeadsBuilder::encode(self, writer)
    }

    fn len(&self) -> (n: usize) {
        IndexedBeadsBuilder::len(self)
    }
}

/// The encoder of fixed-size beads: records of one width.
pub struct FixedSizeBeadsBuilder {
    size: usize,
    buffer: Vec<u8>,
}

impl FixedSizeBeadsBuilder {
    /// The width of a record.
    pub closed spec fn size(&self) -> nat {
        self.size as nat
    }

    /// The records pushed so far, one after the other.
    pub closed spec fn data(&self) -> Seq<u8> {
        self.buffer@
    }

    /// A builder of records of `bead_size` bytes.
    pub fn new(bead_size: usize) -> (r: FixedSizeBeadsBuilder)
        ensures
            r.size() == bead_size,
            r.data() == Seq::<u8>::empty(),
    {
        FixedSizeBeadsBuilder { size: bead_size, buffer: Vec::new() }
    }

    /// Adds a record, which must have the builder's width.
    pub fn push(&mut self, value: &[u8])
        requires
            value@.len() == old(self).size(),
        ensures
            final(self).size() == old(self).size(),
            final(self).data() == old(self).data() + value@,
    {
        push_slice(&mut self.buffer, value);
    }

    /// Appends the encoding to `writer`: the width, then the records.
    pub fn encode(&self, writer: &mut Vec<u8>)
        ensures
            final(writer)@ == old(writer)@ + fixed_bytes(self.size(), self.data()),
    {
        let ghost before = writer@;
        push_vlq(writer, self.size as u128);
        push_slice(writer, self.buffer.as_slice());
        assert(writer@ =~= before + fixed_bytes(self.size(), self.data()));
    }

    /// The length of the encoding.
    pub fn len(&self) -> (n: usize)
        requires
            fixed_bytes(self.size(), self.data()).len() <= usize::MAX,
        ensures
            n == fixed_bytes(self.size(), self.data()).len(),
    {
        vlq_byte_size(self.size) + self.buffer.len()
    }
}

impl BeadsBuilder for FixedSizeBeadsBuilder {
    open spec fn well_formed(&self) -> bool {
        true
    }

    open spec fn encoding(&self) -> Seq<u8> {
        fixed_bytes(self.size(), self.data())
    }

    fn encode(&self, writer: &mut Vec<u8>) {
        FixedSizeBeadsBuilder::encode(self, writer)
    }

    fn len(&self) -> (n: usize) {
        FixedSizeBeadsBuilder::len(self)
    }
}

/// The smallest number of bytes, at least one, that hold `value`.
pub fn uint_width_of(value: u128) -> (w: usize)
    ensures
        w == uint_width(value as nat),
        1 <= w <= 16,
{
    let mut rest: u128 = value;
    let mut w: usize = 1;
    let ghost mut bound: nat = 16;
    proof {
        crate::endian::lemma_pow256_values();
    }
    while rest >= 256
        invariant
            w + uint_width(rest as nat) == uint_width(value as nat) + 1,
            1 <= w,
            w + bound == 17,
            1 <= bound <= 16,
            rest < crate::endian::pow256(bound),
        decreases rest,
    {
        proof {
            assert(bound > 1) by {
                crate::endian::lemma_pow256_values();
            }
            assert(crate::endian::pow256(bound) == 256 * crate::endian::pow256((bound - 1) as nat));
            bound = (bound - 1) as nat;
        }
        rest = rest / 256;
        w += 1;
    }
    w
}

/// The encoder of fixed-size beads of unsigned integers, in the smallest
/// width that holds them all.
pub struct FixedSizeBeadsIncrementalUintBuilder {
    size: usize,
    values: Vec<u128>,
}

impl FixedSizeBeadsIncrementalUintBuilder {
    /// The values pushed so far.
    pub closed spec fn values(&self) -> Seq<u128> {
        self.values@
    }

    /// Whether the width is the smallest that holds the values.
    pub closed spec fn wf(&self) -> bool {
        self.size == max_width(self.values@)
    }

    /// A builder without values.
    pub fn new() -> (r: FixedSizeBeadsIncrementalUintBuilder)
        ensures
            r.wf(),
            r.values() == Seq::<u128>::empty(),
    {
        FixedSizeBeadsIncrementalUintBuilder { size: 1, values: Vec::new() }
    }

    /// Adds a value.
    pub fn push(&mut self, value: u128)
        requires
            old(self).wf(),
        ensures
            final(self).wf(),
            final(self).values() == old(self).values().push(value),
    {
        let bytes_per_entry: usize = uint_width_of(value);
        if bytes_per_entry > self.size {
            self.size = bytes_per_entry;
        }
        self.values.push(value);
        proof {
            assert(self.values@.drop_last() =~= old(self).values@);
        }
    }

    /// Appends the encoding to `writer`: the width, then each value in
    /// that many little-endian bytes.
    pub fn encode(&self, writer: &mut Vec<u8>)
        requires
            self.wf(),
        ensures
            final(writer)@ == old(writer)@ + uint_beads_bytes(self.values()),
    {
        let ghost before = writer@;
        push_vlq(writer, self.size as u128);
        let ghost headed = writer@;
        let mut i: usize = 0;
        assert(self.values@.take(0) =~= Seq::<u128>::empty());
        assert(headed + records(self.values@.take(0), self.size as nat) =~= headed);
        while i < self.values.len()
            invariant
                i <= self.values@.len(),
                writer@ == headed + records(self.values@.take(i as int), self.size as nat),
            decreases self.values@.len() - i,
        {
            push_le(writer, self.values[i], self.size);
            proof {
                assert(self.values@.take(i + 1).drop_last() =~= self.values@.take(i as int));
                assert(writer@ =~= headed + records(self.values@.take(i + 1), self.size as nat));
            }
            i += 1;
        }
        proof {
            assert(self.values@.take(self.values@.len() as int) =~= self.values@);
            assert(writer@ =~= before + uint_beads_bytes(self.values()));
        }
    }

    /// The length of the encoding.
    pub fn len(&self) -> (n: usize)
        requires
            self.wf(),
        ensures
            n == uint_beads_bytes(self.values()).len(),
    {
        let mut out: Vec<u8> = Vec::new();
        self.encode(&mut out);
        out.len()
    }
}

impl BeadsBuilder for FixedSizeBeadsIncrementalUintBuilder {
    open spec fn well_formed(&self) -> bool {
        self.wf()
    }

    open spec fn encoding(&self) -> Seq<u8> {
        uint_beads_bytes(self.values())
    }

    fn encode(&self, writer: &mut Vec<u8>) {
        FixedSizeBeadsIncrementalUintBuilder::encode(self, writer)
    }

    fn len(&self) -> (n: usize) {
        FixedSizeBeadsIncrementalUintBuilder::len(self)
    }
}

/// The encoder of dedup beads over values that it borrows: each distinct
/// value is stored once, and each value by its place among them.
pub struct DedupBeadsBuilder<'a> {
    value_builder: IndexedBeadsBuilder<'a>,
    index_builder: FixedSizeBeadsIncrementalUintBuilder,
    pushed: Ghost<Seq<Seq<u8>>>,
}

impl<'a> DedupBeadsBuilder<'a> {
    /// The values pushed so far.
    pub closed spec fn values(&self) -> Seq<Seq<u8>> {
        self.pushed@
    }

    /// Whether the two children hold the distinct values and the places.
    pub closed spec fn wf(&self) -> bool {
        &&& self.index_builder.wf()
        &&& self.value_builder.parts() == unique(self.pushed@)
        &&& self.index_builder.values() == places(self.pushed@)
    }

    /// A builder without values.
    pub fn new() -> (r: DedupBeadsBuilder<'a>)
        ensures
            r.wf(),
            r.values() == Seq::<Seq<u8>>::empty(),
    {
        DedupBeadsBuilder {
            value_builder: IndexedBeadsBuilder::new(),
            index_builder: FixedSizeBeadsIncrementalUintBuilder::new(),
            pushed: Ghost(Seq::empty()),
        }
    }

    /// Adds a value: by its place if it was seen, else as a new distinct value.
    pub fn push(&mut self, value: &'a [u8])
        requires
            old(self).wf(),
        ensures
            final(self).wf(),
            final(self).values() == old(self).values().push(value@),
    {
        let ghost parts = self.value_builder.parts();
        let n: usize = self.value_builder.count();
        let mut j: usize = 0;
        while j < n
            invariant
                j <= n,
                n == parts.len(),
                parts == self.value_builder.parts(),
                self.wf(),
                self.pushed@ == old(self).pushed@,
                forall|i: int| 0 <= i < j ==> parts[i] != value@,
            decreases n - j,
        {
            if slices_equal(self.value_builder.part(j), value) {
                proof {
                    lemma_place_of_first(parts, value@, j as int);
                    assert(self.pushed@.push(value@).drop_last() =~= self.pushed@);
                }
                self.index_builder.push(j as u128);
                self.pushed = Ghost(self.pushed@.push(value@));
                return ;
            }
            j += 1;
        }
        proof {
            lemma_place_of_new(parts, value@);
            assert(self.pushed@.push(value@).drop_last() =~= self.pushed@);
        }
        self.value_builder.push(value);
        self.index_builder.push(n as u128);
        self.pushed = Ghost(self.pushed@.push(value@));
    }

    /// Appends the encoding to `writer`: indexed beads of the places and of
    /// the distinct values.
    pub fn encode(&self, writer: &mut Vec<u8>)
        requires
            self.wf(),
        ensures
            final(writer)@ == old(writer)@ + dedup_bytes(self.values()),
    {
        let ghost parts = seq![
            uint_beads_bytes(places(self.pushed@)),
            indexed_encoding(unique(self.pushed@)),
        ];
        let mut body: Vec<u8> = Vec::new();
        let mut ends: Vec<usize> = Vec::new();
        self.index_builder.encode(&mut body);
        ends.push(body.len());
        self.value_builder.encode(&mut body);
        ends.push(body.len());
        proof {
            reveal_with_fuel(concat, 3);
            assert(parts.take(1) =~= seq![parts[0]]);
            assert(parts.take(2) =~= parts);
            assert(parts.drop_last() =~= seq![parts[0]]);
            assert(seq![parts[0]].drop_last() =~= Seq::<Seq<u8>>::empty());
            assert(concat(seq![parts[0]]) =~= parts[0]);
            assert(concat(parts) =~= parts[0] + parts[1]);
        }
        write_indexed(writer, &body, &ends, Ghost(parts));
    }

    /// The length of the encoding.
    pub fn len(&self) -> (n: usize)
        requires
            self.wf(),
        ensures
            n == dedup_bytes(self.values()).len(),
    {
        let mut out: Vec<u8> = Vec::new();
        self.encode(&mut out);
        out.len()
    }
}

impl<'a> BeadsBuilder for DedupBeadsBuilder<'a> {
    open spec fn well_formed(&self) -> bool {
        self.wf()
    }

    open spec fn encoding(&self) -> Seq<u8> {
        dedup_bytes(self.values())
    }

    fn encode(&self, writer: &mut Vec<u8>) {
        DedupBeadsBuilder::encode(self, writer)
    }

    fn len(&self) -> (n: usize) {
        DedupBeadsBuilder::len(self)
    }
}

/// The encoder of dedup beads that keeps a copy of each distinct value.
pub struct OwningDedupBeadsBuilder {
    distinct: Vec<Vec<u8>>,
    index_builder: FixedSizeBeadsIncrementalUintBuilder,
    pushed: Ghost<Seq<Seq<u8>>>,
}

impl OwningDedupBeadsBuilder {
    /// The values pushed so far.
    pub closed spec fn values(&self) -> Seq<Seq<u8>> {
        self.pushed@
    }

    /// The distinct values kept.
    pub closed spec fn kept(&self) -> Seq<Seq<u8>> {
        Seq::new(self.distinct@.len(), |i: int| self.distinct@[i]@)
    }

    /// Whether the builder holds the distinct values and the places.
    pub closed spec fn wf(&self) -> bool {
        &&& self.index_builder.wf()
        &&& self.kept() == unique(self.pushed@)
        &&& self.index_builder.values() == places(self.pushed@)
    }

    /// A builder without values.
    pub fn new() -> (r: OwningDedupBeadsBuilder)
        ensures
            r.wf(),
            r.values() == Seq::<Seq<u8>>::empty(),
    {
        let r = OwningDedupBeadsBuilder {
            distinct: Vec::new(),
            index_builder: FixedSizeBeadsIncrementalUintBuilder::new(),
            pushed: Ghost(Seq::empty()),
        };
        assert(r.kept() =~= Seq::<Seq<u8>>::empty());
        r
    }

    /// Adds a value: by its place if it was seen, else as a new distinct value.
    pub fn push(&mut self, value: &[u8])
        requires
            old(self).wf(),
        ensures
            final(self).wf(),
            final(self).values() == old(self).values().push(value@),
    {
        let ghost parts = self.kept();
        let n: usize = self.distinct.len();
        let mut j: usize = 0;
        while j < n
            invariant
                j <= n,
                n == parts.len(),
                parts == self.kept(),
                self.wf(),
                self.pushed@ == old(self).pushed@,
                forall|i: int| 0 <= i < j ==> parts[i] != value@,
            decreases n - j,
        {
            if slices_equal(self.distinct[j].as_slice(), value) {
                proof {
                    assert(parts[j as int] == value@);
                    lemma_place_of_first(parts, value@, j as int);
                    assert(self.pushed@.push(value@).drop_last() =~= self.pushed@);
                }
                self.index_builder.push(j as u128);
                self.pushed = Ghost(self.pushed@.push(value@));
                assert(self.kept() =~= parts);
                return ;
            }
            j += 1;
        }
        proof {
            lemma_place_of_new(parts, value@);
            assert(self.pushed@.push(value@).drop_last() =~= self.pushed@);
        }
        let mut copy: Vec<u8> = Vec::new();
        push_slice(&mut copy, value);
        assert(copy@ =~= value@);
        self.distinct.push(copy);
        self.index_builder.push(n as u128);
        self.pushed = Ghost(self.pushed@.push(value@));
        assert(self.kept() =~= parts.push(value@));
    }

    /// Appends the encoding to `writer`: indexed beads of the places and of
    /// the distinct values.
    pub fn encode(&self, writer: &mut Vec<u8>)
        requires
            self.wf(),
        ensures
            final(writer)@ == old(writer)@ + dedup_bytes(self.values()),
    {
        let mut value_builder = IndexedBeadsBuilder::new();
        let mut i: usize = 0;
        assert(self.kept().take(0) =~= Seq::<Seq<u8>>::empty());
        while i < self.distinct.len()
            invariant
                i <= self.distinct@.len(),
                value_builder.parts() == self.kept().take(i as int),
            decreases self.distinct@.len() - i,
        {
            value_builder.push(self.distinct[i].as_slice());
            assert(self.kept().take(i + 1) =~= self.kept().take(i as int).push(self.distinct@[i as int]@));
            i += 1;
        }
        assert(self.kept().take(self.distinct@.len() as int) =~= self.kept());
        let ghost parts = seq![
            uint_beads_bytes(places(self.pushed@)),
            indexed_encoding(unique(self.pushed@)),
        ];
        let mut body: Vec<u8> = Vec::new();
        let mut ends: Vec<usize> = Vec::new();
        self.index_builder.encode(&mut body);
        ends.push(body.len());
        value_builder.encode(&mut body);
        ends.push(body.len());
        proof {
            reveal_with_fuel(concat, 3);
            assert(parts.take(1) =~= seq![parts[0]]);
            assert(parts.take(2) =~= parts);
            assert(parts.drop_last() =~= seq![parts[0]]);
            assert(seq![parts[0]].drop_last() =~= Seq::<Seq<u8>>::empty());
            assert(concat(seq![parts[0]]) =~= parts[0]);
            assert(concat(parts) =~= parts[0] + parts[1]);
        }
        write_indexed(writer, &body, &ends, Ghost(parts));
    }

    /// The length of the encoding.
    pub fn len(&self) -> (n: usize)
        requires
            self.wf(),
        ensures
            n == dedup_bytes(self.values()).len(),
    {
        let mut out: Vec<u8> = Vec::new();
        self.encode(&mut out);
        out.len()
    }
}

impl BeadsBuilder for OwningDedupBeadsBuilder {
    open spec fn well_formed(&self) -> bool {
        self.wf()
    }

    open spec fn encoding(&self) -> Seq<u8> {
        dedup_bytes(self.values())
    }

    fn encode(&self, writer: &mut Vec<u8>) {
        OwningDedupBeadsBuilder::encode(self, writer)
    }

    fn len(&self) -> (n: usize) {
        OwningDedupBeadsBuilder::len(self)
    }
}

/// The choice of an encoding does not depend on the order in which the
/// types of the set were given: two sets built from the same types, in
/// whatever order, are the same set, and a push of the same integer into
/// sequences that differ in nothing else has the same outcome.
pub proof fn lemma_choice_ignores_order(
    first: Seq<BeadType>,
    second: Seq<BeadType>,
    a: BeadTypeSet,
    b: BeadTypeSet,
    beads: Seq<Bead>,
    chunk_start: nat,
    order: Seq<BeadType>,
    v: int,
)
    requires
        forall|t: BeadType| first.contains(t) <==> second.contains(t),
        a.value < 0x10_0000,
        b.value < 0x10_0000,
        forall|t: BeadType| a.has(t) <==> first.contains(t),
        forall|t: BeadType| b.has(t) <==> second.contains(t),
    ensures
        a == b,
        first_fit(order, a.members(), v) == first_fit(order, b.members(), v),
        integer_push(SequenceModel { set: a, beads, chunk_start }, order, v) == integer_push(
            SequenceModel { set: b, beads, chunk_start },
            order,
            v,
        ),
{
    crate::bead_type::lemma_set_of_same_types(a, b);
}

} // verus!
