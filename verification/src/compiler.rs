//! The compiler: walks an expression, writes code for both directions, and
//! picks the atoms that the expression is searched by.

use std::collections::HashMap;

use vstd::prelude::*;

use crate::atoms::{
    atom_models, best_atom_from_slice, last_start, lemma_best_start, Atom, DESIRED_ATOM_SIZE,
};
use crate::bytes::{accept_matches, lemma_codes_read_bytes};
use crate::choice::lemma_atoms_inside;
use crate::class::{canonical_chars, class_to_hex_byte, CharClass, ClassBytes, HexByte};
use crate::code::{
    code, compilable, is_ascii_class, join, lemma_reversed_literal_len, listed_class_code,
    supported, Direction,
};
use crate::expr::{
    all_notes, any_byte, optional_models, trees, Expr, ExprKind, Notes, Repetition, Tree,
};
use crate::extract::{atoms_from_literals, copy_bytes, lemma_literal_atoms, literal_atoms, notes_of};
use crate::instr::{
    lemma_literal_code_split, literal_code, literal_code_length, Instr, InstrSeq, NumAlt,
};
use crate::instr;
use crate::language::{all_start_with, as_bytes, atom_bytes, is_match};
use crate::present::{holds_one_of, lemma_atoms_present};
use crate::regex::{
    extract, extracted, hir_class, hir_kind, hir_tree, hir_trees, literal_count, literal_seq,
    literals, longest_common_prefix, max_literal_len, to_byte_class, LitExtractor, RegexKind,
};
use crate::select::{
    candidates, chosen_atoms, merged, min_quality, offer, place, skipped, Best, Loc, PlacedAtom,
};
use crate::size::code_size;
use crate::state::{chunk_offsets, loc_diff, moved_best, State};
use crate::walk::{
    alt_state, concat_state, lemma_alt_ready, lemma_alt_step, lemma_concat_step,
    lemma_enter_alternation, lemma_enter_concat, lemma_leave_alternation, lemma_leave_concat,
    lemma_walk_capture, lemma_walk_leaf, lemma_walk_repetition, ready, visited,
};

verus! {

/// A place in the code: an offset in the forward code, and an offset in a
/// sequence of backward code together with the number of that sequence.
#[derive(Clone, Copy, Debug, Default, PartialEq, Eq, Structural)]
pub struct Location {
    pub fwd: u64,
    pub bck_seq_id: u64,
    pub bck: u64,
}

impl View for Location {
    type V = Loc;

    open spec fn view(&self) -> Loc {
        Loc { fwd: self.fwd as int, seq: self.bck_seq_id as int, bck: self.bck as int }
    }
}

/// The distances between two places.
#[derive(Clone, Copy, Debug, PartialEq, Eq, Structural)]
pub struct Offset {
    pub fwd: instr::Offset,
    pub bck: instr::Offset,
}

impl View for Offset {
    type V = Loc;

    open spec fn view(&self) -> Loc {
        Loc { fwd: self.fwd as int, seq: 0, bck: self.bck as int }
    }
}

/// The number that the bits of `x` stand for in two's complement.
pub open spec fn signed(x: u64) -> int {
    if x > i64::MAX {
        x - 0x1_0000_0000_0000_0000
    } else {
        x as int
    }
}

/// The distance from `b` to `a`, which wraps around at 64 bits.
pub open spec fn signed_diff(a: u64, b: u64) -> int {
    signed(if a >= b { (a - b) as u64 } else { (a - b + 0x1_0000_0000_0000_0000) as u64 })
}

fn signed_distance(a: u64, b: u64) -> (r: instr::Offset)
    requires
        instr::fits_offset(signed_diff(a, b)),
    ensures
        r == signed_diff(a, b),
{
    let difference: u64 = a.wrapping_sub(b);
    proof {
        lemma_signed(difference);
    }
    (difference as i64) as i16
}

proof fn lemma_signed(x: u64)
    ensures
        (x as i64) as int == signed(x),
{
    assert(x > 0x7fff_ffff_ffff_ffff ==> (x as i64) as int == x - 0x1_0000_0000_0000_0000)
        by (bit_vector);
    assert(x <= 0x7fff_ffff_ffff_ffff ==> (x as i64) as int == x) by (bit_vector);
}

/// Between places that are not absurdly far apart the distance is the difference.
pub proof fn lemma_signed_diff(a: u64, b: u64)
    ensures
        i64::MIN <= a - b <= i64::MAX ==> signed_diff(a, b) == a - b,
{
}

impl Location {
    /// The distances from `rhs` to `self`.
    pub fn sub(&self, rhs: &Self) -> (r: Offset)
        requires
            instr::fits_offset(signed_diff(self.fwd, rhs.fwd)),
            instr::fits_offset(signed_diff(self.bck, rhs.bck)),
        ensures
            r.fwd == signed_diff(self.fwd, rhs.fwd),
            r.bck == signed_diff(self.bck, rhs.bck),
    {
        Offset {
            fwd: signed_distance(self.fwd, rhs.fwd),
            bck: signed_distance(self.bck, rhs.bck),
        }
    }
}

/// An atom, and the place where the code is entered when it is found.
#[derive(Debug, PartialEq, Eq)]
pub struct RegexpAtom {
    pub atom: Atom,
    pub code_loc: Location,
}

impl View for RegexpAtom {
    type V = PlacedAtom;

    open spec fn view(&self) -> PlacedAtom {
        PlacedAtom { atom: self.atom@, loc: self.code_loc@ }
    }
}

/// Compiles a regular expression.
///
/// The expression is walked depth first. Code that matches it from left to right
/// and code that matches it from right to left are written on the way, and atoms
/// are picked that it is searched by: where one of them is found, the code is run
/// from the place that goes with it, in both directions.
pub struct Compiler {
    /// Code that matches from left to right.
    forward_code: InstrSeq,
    /// Code that matches from right to left.
    backward_code: InstrSeq,
    /// The places that have to be remembered, such as those of jumps whose
    /// destination is not known yet.
    bookmarks: Vec<Location>,
    /// The best atoms so far, and the quality of the worst of them. Within an
    /// alternation, those of each alternative come on top.
    best_atoms: Vec<(i32, Vec<RegexpAtom>)>,
    /// The backward code of each part of a concatenation. The parts are visited
    /// from left to right, and their code is wanted from right to left, so that
    /// it is copied to its place when all the parts have been visited.
    backward_code_chunks: Vec<InstrSeq>,
    /// Limits on the literals that are extracted from an expression.
    lit_extractor: LitExtractor,
    /// How deep in the expression the walk is.
    depth: u32,
    /// How many of the expressions around the current one may repeat zero times.
    zero_rep_depth: u32,
}

/// The models of several places.
pub open spec fn locs(bookmarks: Seq<Location>) -> Seq<Loc> {
    Seq::new(bookmarks.len(), |i: int| bookmarks[i]@)
}

/// The models of several placed atoms.
pub open spec fn placed_atoms(atoms: Seq<RegexpAtom>) -> Seq<PlacedAtom> {
    Seq::new(atoms.len(), |i: int| atoms[i]@)
}

/// The place that goes with the atom lies in the code: in the forward code, and in
/// the first sequence of backward code.
pub open spec fn enters(a: RegexpAtom, forward: Seq<u8>, backward: Seq<u8>) -> bool {
    &&& a.code_loc.fwd <= forward.len()
    &&& a.code_loc.bck_seq_id == 0
    &&& a.code_loc.bck <= backward.len()
}

pub open spec fn best_model(best: (i32, Vec<RegexpAtom>)) -> Best {
    Best { quality: best.0 as int, atoms: placed_atoms(best.1@) }
}

spec fn bests(best: Seq<(i32, Vec<RegexpAtom>)>) -> Seq<Best> {
    Seq::new(best.len(), |i: int| best_model(best[i]))
}

spec fn chunk_codes(chunks: Seq<InstrSeq>) -> Seq<Seq<u8>> {
    Seq::new(chunks.len(), |i: int| chunks[i]@)
}

impl View for Compiler {
    type V = State;

    closed spec fn view(&self) -> State {
        State {
            forward: self.forward_code@,
            backward: seq![self.backward_code@] + chunk_codes(self.backward_code_chunks@),
            bookmarks: locs(self.bookmarks@),
            best: bests(self.best_atoms@),
            depth: self.depth as int,
            zero_rep_depth: self.zero_rep_depth as int,
        }
    }
}

impl Compiler {
    /// Every sequence of backward code has the number of its position, and the
    /// limits on literals make sense.
    pub closed spec fn wf(&self) -> bool {
        &&& 0 < self.lit_extractor.limit_class <= self.lit_extractor.limit_total
        &&& self.forward_code.id() == 0
        &&& self.backward_code.id() == 0
        &&& forall|i: int|
            0 <= i < self.backward_code_chunks@.len() ==> (
            #[trigger] self.backward_code_chunks@[i]).id() == i + 1
    }

    /// The number of each sequence of backward code.
    pub closed spec fn seq_ids(&self) -> Seq<u64> {
        Seq::new(
            self.backward_code_chunks@.len() + 1,
            |i: int|
                if i == 0 {
                    self.backward_code.id()
                } else {
                    self.backward_code_chunks@[i - 1].id()
                },
        )
    }

    /// The number of a sequence of backward code is its position, so that no two of
    /// them have the same number.
    pub proof fn lemma_seq_ids(&self)
        requires
            self.wf(),
        ensures
            self.seq_ids().len() == self@.backward.len(),
            forall|i: int| 0 <= i < self.seq_ids().len() ==> #[trigger] self.seq_ids()[i] == i,
    {
    }

    /// The backward code that is being written is no longer than a vector can be.
    proof fn lemma_top_len(&self)
        ensures
            self@.top().len() <= usize::MAX,
            self@.forward.len() <= usize::MAX,
    {
        self.forward_code.lemma_len();
        self.backward_code.lemma_len();
        if self.backward_code_chunks@.len() > 0 {
            self.backward_code_chunks@.last().lemma_len();
        }
    }

    /// The limits on the literals that are extracted from an expression.
    pub closed spec fn limits(&self) -> LitExtractor {
        self.lit_extractor
    }

    pub fn new() -> (r: Self)
        ensures
            r.wf(),
            r@ == State::initial(),
            r.limits() == (LitExtractor {
                limit_class: 256,
                limit_total: 512,
                limit_literal_len: DESIRED_ATOM_SIZE,
            }),
    {
        let mut best_atoms: Vec<(i32, Vec<RegexpAtom>)> = Vec::new();
        best_atoms.push((i32::MIN, Vec::new()));
        let r: Self = Compiler {
            forward_code: InstrSeq::new(0),
            backward_code: InstrSeq::new(0),
            bookmarks: Vec::new(),
            best_atoms,
            backward_code_chunks: Vec::new(),
            lit_extractor: LitExtractor {
                limit_class: 256,
                limit_total: 512,
                limit_literal_len: DESIRED_ATOM_SIZE,
            },
            depth: 0,
            zero_rep_depth: 0,
        };
        assert(r@.best[0].atoms =~= seq![]);
        assert(r@ =~= State::initial());
        r
    }

    /// The backward code that is being written.
    pub(crate) fn backward_code(&self) -> (r: &InstrSeq)
        requires
            self.wf(),
        ensures
            r@ == self@.top(),
            r.id() == self@.backward.len() - 1,
    {
        let n: usize = self.backward_code_chunks.len();
        if n == 0 {
            &self.backward_code
        } else {
            &self.backward_code_chunks[n - 1]
        }
    }

    /// The backward code that is being written, to write to.
    pub(crate) fn backward_code_mut(&mut self) -> (r: &mut InstrSeq)
        requires
            old(self).wf(),
        ensures
            r@ == old(self)@.top(),
            r.id() == old(self)@.backward.len() - 1,
            final(r).id() == r.id() ==> final(self).wf(),
            final(self)@ == old(self)@.with_top(final(r)@),
            final(self).limits() == old(self).limits(),
    {
        let n: usize = self.backward_code_chunks.len();
        if n == 0 {
            &mut self.backward_code
        } else {
            &mut self.backward_code_chunks[n - 1]
        }
    }

    /// Where the next instructions will be written.
    pub(crate) fn location(&self) -> (r: Location)
        requires
            self.wf(),
        ensures
            r@ == self@.location(),
    {
        Location {
            fwd: self.forward_code.location(),
            bck_seq_id: self.backward_code().seq_id(),
            bck: self.backward_code().location(),
        }
    }

    /// Writes an instruction, with a zero offset if it takes one.
    pub(crate) fn emit_instr(&mut self, instr: u8) -> (r: Location)
        requires
            old(self).wf(),
        ensures
            final(self).wf(),
            final(self).limits() == old(self).limits(),
            final(self)@ == old(self)@.emit_both(instr::instr_code(instr)),
            r@ == old(self)@.location(),
    {
        Location {
            fwd: self.forward_code.emit_instr(instr),
            bck_seq_id: self.backward_code().seq_id(),
            bck: self.backward_code_mut().emit_instr(instr),
        }
    }

    /// Writes a `split_n` instruction with zero offsets.
    pub(crate) fn emit_split_n(&mut self, n: NumAlt) -> (r: Location)
        requires
            old(self).wf(),
        ensures
            final(self).wf(),
            final(self).limits() == old(self).limits(),
            final(self)@ == old(self)@.emit_both(instr::split_n_code(instr::zeros(n as nat))),
            r@ == old(self)@.location(),
    {
        Location {
            fwd: self.forward_code.emit_split_n(n),
            bck_seq_id: self.backward_code().seq_id(),
            bck: self.backward_code_mut().emit_split_n(n),
        }
    }

    /// Writes an instruction that matches a masked byte. The returned place names
    /// the sequence below all the chunks.
    pub(crate) fn emit_masked_byte(&mut self, b: HexByte) -> (r: Location)
        requires
            old(self).wf(),
        ensures
            final(self).wf(),
            final(self).limits() == old(self).limits(),
            final(self)@ == old(self)@.emit_both(instr::masked_byte_code(b)),
            r@ == (Loc { seq: 0, ..old(self)@.location() }),
    {
        Location {
            fwd: self.forward_code.emit_masked_byte(b),
            bck_seq_id: self.backward_code.seq_id(),
            bck: self.backward_code_mut().emit_masked_byte(b),
        }
    }

    /// Writes an instruction that matches a byte of the class. The returned place
    /// names the sequence below all the chunks.
    pub(crate) fn emit_class(&mut self, c: &ClassBytes) -> (r: Location)
        requires
            old(self).wf(),
        ensures
            final(self).wf(),
            final(self).limits() == old(self).limits(),
            final(self)@ == old(self)@.emit_both(instr::byte_class_code(c@)),
            r@ == (Loc { seq: 0, ..old(self)@.location() }),
    {
        Location {
            fwd: self.forward_code.emit_class(c),
            bck_seq_id: self.backward_code.seq_id(),
            bck: self.backward_code_mut().emit_class(c),
        }
    }

    /// Writes the code that matches a literal.
    pub(crate) fn emit_literal(&mut self, literal: &Vec<u8>) -> (r: Location)
        requires
            old(self).wf(),
        ensures
            final(self).wf(),
            final(self).limits() == old(self).limits(),
            final(self)@ == old(self)@.emit(
                instr::literal_code(literal@),
                instr::literal_code(literal@.reverse()),
            ),
            r@ == old(self)@.location(),
    {
        let reversed: Vec<u8> = reversed_bytes(literal);
        Location {
            fwd: self.forward_code.emit_literal(literal.as_slice()),
            bck_seq_id: self.backward_code().seq_id(),
            bck: self.backward_code_mut().emit_literal(reversed.as_slice()),
        }
    }

    /// Replaces the offsets of the instructions at `location`.
    pub(crate) fn patch_instr(&mut self, location: &Location, offset: Offset)
        requires
            old(self).wf(),
            old(self)@.can_patch(location@),
        ensures
            final(self).wf(),
            final(self).limits() == old(self).limits(),
            final(self)@ == old(self)@.patch(location@, offset@),
    {
        self.forward_code.patch_instr(location.fwd, offset.fwd);
        self.backward_code_mut().patch_instr(location.bck, offset.bck);
    }

    /// Replaces the offsets of the `split_n` instructions at `location`.
    pub(crate) fn patch_split_n(&mut self, location: &Location, offsets: &Vec<Offset>)
        requires
            old(self).wf(),
            old(self)@.can_patch_split_n(location@, offsets@.len()),
        ensures
            final(self).wf(),
            final(self).limits() == old(self).limits(),
            final(self)@ == old(self)@.patch_split_n(location@, offset_models(offsets@)),
    {
        let mut fwd: Vec<instr::Offset> = Vec::with_capacity(offsets.len());
        let mut bck: Vec<instr::Offset> = Vec::with_capacity(offsets.len());
        let n: usize = offsets.len();
        for i in 0..n
            invariant
                n == offsets@.len(),
                fwd@.len() == i,
                bck@.len() == i,
                forall|j: int| 0 <= j < i ==> #[trigger] fwd@[j] == offsets@[j].fwd,
                forall|j: int| 0 <= j < i ==> #[trigger] bck@[j] == offsets@[j].bck,
        {
            let o: Offset = offsets[i];
            fwd.push(o.fwd);
            bck.push(o.bck);
        }
        proof {
            let models = offset_models(offsets@);
            assert(instr::offset_values(fwd@) =~= models.map_values(|o: Loc| o.fwd));
            assert(instr::offset_values(bck@) =~= models.map_values(|o: Loc| o.bck));
        }
        self.forward_code.patch_split_n(location.fwd, &fwd);
        self.backward_code_mut().patch_split_n(location.bck, &bck);
    }

    /// Adds an empty chunk of backward code.
    pub(crate) fn push_chunk(&mut self)
        requires
            old(self).wf(),
        ensures
            final(self).wf(),
            final(self).limits() == old(self).limits(),
            final(self)@ == old(self)@.push_chunk(),
    {
        let ghost chunks = self.backward_code_chunks@;
        self.backward_code_chunks.push(InstrSeq::new(0));
        let n: usize = self.backward_code_chunks.len();
        self.backward_code_chunks[n - 1] = InstrSeq::new(n as u64);
        assert(self@.backward =~= old(self)@.push_chunk().backward);
        assert forall|i: int| 0 <= i < self.backward_code_chunks@.len() implies (
        #[trigger] self.backward_code_chunks@[i]).id() == i + 1 by {
            if i < chunks.len() {
                assert(self.backward_code_chunks@[i] == chunks[i]);
            }
        }
    }

    pub(crate) fn push_bookmark(&mut self, location: Location)
        requires
            old(self).wf(),
        ensures
            final(self).wf(),
            final(self).limits() == old(self).limits(),
            final(self)@ == old(self)@.push_bookmark(location@),
    {
        self.bookmarks.push(location);
        assert(self@.bookmarks =~= old(self)@.bookmarks.push(location@));
    }

    pub(crate) fn pop_bookmark(&mut self) -> (r: Location)
        requires
            old(self).wf(),
            old(self)@.bookmarks.len() > 0,
        ensures
            final(self).wf(),
            final(self).limits() == old(self).limits(),
            final(self)@ == old(self)@.pop_bookmarks(1),
            r@ == old(self)@.bookmarks.last(),
    {
        let r: Location = self.bookmarks.pop().unwrap();
        assert(self@.bookmarks =~= old(self)@.pop_bookmarks(1).bookmarks);
        r
    }

    pub(crate) fn push_best(&mut self)
        requires
            old(self).wf(),
        ensures
            final(self).wf(),
            final(self).limits() == old(self).limits(),
            final(self)@ == old(self)@.push_best(),
    {
        self.best_atoms.push((0, Vec::new()));
        assert(self@.best.last().atoms =~= seq![]);
        assert(self@.best =~= old(self)@.push_best().best);
    }

    /// Writes the code that matches a character of the class.
    pub(crate) fn visit_post_class(&mut self, class: &CharClass) -> (r: Location)
        requires
            old(self).wf(),
            class matches CharClass::Unicode(c) ==> canonical_chars(c@) && is_ascii_class(c@),
        ensures
            final(self).wf(),
            final(self).limits() == old(self).limits(),
            final(self)@ == old(self)@.emit_both(listed_class_code(class@)),
            r@ == (Loc { seq: 0, ..old(self)@.location() }),
    {
        match class {
            CharClass::Bytes(class) => {
                if let Some(byte) = class_to_hex_byte(class) {
                    self.emit_masked_byte(byte)
                } else {
                    self.emit_class(class)
                }
            },
            CharClass::Unicode(class) => {
                let class: ClassBytes = to_byte_class(class).unwrap();
                self.emit_class(&class)
            },
        }
    }

    /// What goes before the first part of a concatenation.
    pub(crate) fn visit_pre_concat(&mut self)
        requires
            old(self).wf(),
        ensures
            final(self).wf(),
            final(self).limits() == old(self).limits(),
            final(self)@ == old(self)@.pre_concat(),
    {
        let l: Location = self.location();
        self.push_bookmark(l);
        // A new part of the concatenation is about to be processed; this chunk
        // will receive its code.
        self.push_chunk();
    }

    /// What goes between two parts of a concatenation.
    pub(crate) fn visit_concat_in(&mut self)
        requires
            old(self).wf(),
        ensures
            final(self).wf(),
            final(self).limits() == old(self).limits(),
            final(self)@ == old(self)@.push_chunk(),
    {
        self.push_chunk();
    }

    /// Appends the chunks, the last one first, to the backward code. Returns
    /// where each of them came to lie, by its number.
    fn append_chunks(&mut self, chunks: &Vec<InstrSeq>) -> (r: HashMap<u64, u64>)
        requires
            old(self).wf(),
            forall|k: int|
                0 <= k < chunks@.len() ==> (#[trigger] chunks@[k]).id()
                    == old(self)@.backward.len() + k,
        ensures
            final(self).wf(),
            final(self).limits() == old(self).limits(),
            final(self)@ == old(self)@.with_top(
                old(self)@.top() + join(chunk_codes(chunks@).reverse()),
            ),
            forall|id: u64|
                #[trigger] r@.dom().contains(id) <==> old(self)@.backward.len() <= id
                    < old(self)@.backward.len() + chunks@.len(),
            forall|id: u64|
                old(self)@.backward.len() <= id < old(self)@.backward.len() + chunks@.len()
                    ==> #[trigger] r@[id] == chunk_offsets(
                    chunk_codes(chunks@),
                    old(self)@.top().len() as int,
                )[id - old(self)@.backward.len()],
    {
        broadcast use vstd::std_specs::hash::group_hash_axioms;

        let n: usize = chunks.len();
        let ghost s = self@;
        let ghost first = s.backward.len();
        let ghost codes = chunk_codes(chunks@);
        let ghost offsets = chunk_offsets(codes, s.top().len() as int);
        let mut chunk_locations: HashMap<u64, u64> = HashMap::new();
        let mut i: usize = n;
        assert(codes.skip(n as int).reverse() =~= seq![]);
        assert(self@ =~= s.with_top(s.top() + join(codes.skip(n as int).reverse())));
        while i > 0
            invariant
                i <= n,
                n == chunks@.len(),
                self.wf(),
                self.limits() == old(self).limits(),
                s == old(self)@,
                s.backward.len() == first,
                first > 0,
                codes == chunk_codes(chunks@),
                offsets == chunk_offsets(codes, s.top().len() as int),
                forall|k: int| 0 <= k < n ==> (#[trigger] chunks@[k]).id() == first + k,
                self@ == s.with_top(s.top() + join(codes.skip(i as int).reverse())),
                forall|id: u64|
                    #[trigger] chunk_locations@.dom().contains(id) <==> first + i <= id < first
                        + n,
                forall|id: u64|
                    first + i <= id < first + n ==> #[trigger] chunk_locations@[id]
                        == offsets[id - first],
            decreases i,
        {
            i = i - 1;
            let chunk: &InstrSeq = &chunks[i];
            let id: u64 = chunk.seq_id();
            let location: u64 = self.backward_code().location();
            chunk_locations.insert(id, location);
            self.backward_code_mut().append(chunk);
            proof {
                let done = codes.skip(i + 1).reverse();
                assert(codes.skip(i as int).reverse() =~= done.push(chunk@));
                assert(done.push(chunk@).drop_last() =~= done);
                assert((s.top() + join(done)) + chunk@ =~= s.top() + join(done.push(chunk@)));
                assert(location == offsets[i as int]);
                assert(self@ =~= s.with_top(s.top() + join(codes.skip(i as int).reverse())));
            }
        }
        assert(codes.skip(0) =~= codes);
        chunk_locations
    }

    /// What goes after the last part of a concatenation. Returns the place of the
    /// code.
    pub(crate) fn visit_post_concat(&mut self, expressions: &Vec<Expr>) -> (r: Location)
        requires
            old(self).wf(),
            old(self)@.can_post_concat(expressions@.len() as int),
        ensures
            final(self).wf(),
            final(self).limits() == old(self).limits(),
            final(self)@ == old(self)@.post_concat(expressions@.len() as int),
            r@ == old(self)@.bookmarks.last(),
    {
        let n: usize = expressions.len();
        let len: usize = self.backward_code_chunks.len();
        let ghost s = self@;
        let ghost base = s.backward.len() - 1 - n;
        let ghost chunks = s.backward.skip(base + 1);
        let ghost below = s.backward[base];
        let ghost offsets = chunk_offsets(chunks, below.len() as int);
        // The last `n` chunks hold the code of the parts. They were written from
        // left to right, and are copied from right to left.
        let last_n_chunks: Vec<InstrSeq> = self.backward_code_chunks.split_off(len - n);
        assert(self@.backward =~= s.backward.take(base + 1));
        assert(chunk_codes(last_n_chunks@) =~= chunks);
        let chunk_locations: HashMap<u64, u64> = self.append_chunks(&last_n_chunks);
        // Atoms may be in one of the chunks: their places have to follow.
        let seq_id: u64 = self.backward_code().seq_id();
        let best: (i32, Vec<RegexpAtom>) = self.best_atoms.pop().unwrap();
        let ghost atoms = best.1@;
        proof {
            assert(s.best.last() == best_model(best));
            assert forall|k: int|
                0 <= k < atoms.len() && chunk_locations@.dom().contains(
                    (#[trigger] atoms[k]).code_loc.bck_seq_id,
                ) implies atoms[k].code_loc.bck + chunk_locations@[atoms[k].code_loc.bck_seq_id]
                <= u64::MAX by {
                assert(s.best.last().atoms[k] == atoms[k]@);
                let c = atoms[k]@.loc.seq - base - 1;
                lemma_chunk_fits(chunks, below, c);
                assert(chunks[c] == s.backward[atoms[k]@.loc.seq]);
                self.lemma_top_len();
            }
        }
        let moved: Vec<RegexpAtom> = move_atoms(best.1, &chunk_locations, seq_id);
        self.best_atoms.push((best.0, moved));
        proof {
            let last = moved_best(s.best.last(), base, offsets);
            assert forall|k: int| 0 <= k < atoms.len() implies #[trigger] moved@[k]@
                == crate::state::moved(s.best.last().atoms[k], base, offsets) by {
                assert(s.best.last().atoms[k] == atoms[k]@);
            }
            assert(placed_atoms(moved@) =~= last.atoms);
            assert(self@.best =~= s.best.update(s.best.len() - 1, last));
        }
        let r: Location = self.pop_bookmark();
        assert(self@.backward =~= s.post_concat(n as int).backward);
        assert(self@ =~= s.post_concat(n as int));
        r
    }

    /// What goes before the first alternative of an alternation.
    pub(crate) fn visit_pre_alternation(&mut self, alternatives: &Vec<Expr>)
        requires
            old(self).wf(),
            alternatives@.len() <= 255,
        ensures
            final(self).wf(),
            final(self).limits() == old(self).limits(),
            final(self)@ == old(self)@.pre_alternation(alternatives@.len()),
    {
        // e1|e2|....|eN
        //
        // l0: split_n l1,l2,l3
        // l1: ... code for e1 ...
        //     jump l4
        // l2: ... code for e2 ...
        //     jump l4
        //     ....
        // lN: ... code for eN ...
        // lEND:
        let n: u8 = alternatives.len() as u8;
        let l0: Location = self.emit_split_n(n);
        self.push_bookmark(l0);
        let l1: Location = self.location();
        self.push_bookmark(l1);
        self.push_best();
    }

    /// What goes after the last alternative of an alternation. Returns the place
    /// of the code.
    #[verifier::rlimit(30)]
    pub(crate) fn visit_post_alternation(&mut self, expressions: &Vec<Expr>) -> (r: Location)
        requires
            old(self).wf(),
            old(self)@.can_post_alternation(expressions@.len() as int),
        ensures
            final(self).wf(),
            final(self).limits() == old(self).limits(),
            final(self)@ == old(self)@.post_alternation(expressions@.len() as int),
            r@ == old(self)@.alt_split(expressions@.len() as int),
    {
        // e1|e2|....|eN
        //
        //         split_n l1,l2,l3
        // l1    : ... code for e1 ...
        // l1_j  : jump l_end
        // l2    : ... code for e2 ...
        // l2_j  : jump l_end
        //
        // lN    : ... code for eN ...
        // l_end :
        let n: usize = expressions.len();
        let l_end: Location = self.location();
        let ghost s = self@;
        let ghost m = s.bookmarks.len();
        let ghost jumps = s.alt_jumps(n as int);
        let ghost blocks = s.alt_blocks(n as int);
        let mut expr_locs: Vec<Location> = Vec::with_capacity(n);
        assert(self@ =~= (State {
            bookmarks: s.bookmarks.take(m as int),
            ..s.patch_jumps(jumps, s.location(), 0)
        }));
        // Now that the end is known, the jumps between the alternatives get their
        // offsets.
        for k in 0..n - 1
            invariant
                n >= 1,
                self.wf(),
                self.limits() == old(self).limits(),
                s == old(self)@,
                s.can_post_alternation(n as int),
                l_end@ == s.location(),
                m == s.bookmarks.len(),
                2 * n <= m,
                jumps == s.alt_jumps(n as int),
                blocks == s.alt_blocks(n as int),
                expr_locs@.len() == k,
                forall|j: int| 0 <= j < k ==> (#[trigger] expr_locs@[j])@ == blocks[n - 1 - j],
                self@ == (State {
                    bookmarks: s.bookmarks.take(m - 2 * k),
                    ..s.patch_jumps(jumps, s.location(), k as int)
                }),
        {
            let ghost before = self@;
            let ghost state = s.patch_jumps(jumps, s.location(), k as int);
            let expr_loc: Location = self.pop_bookmark();
            expr_locs.push(expr_loc);
            let ln_j: Location = self.pop_bookmark();
            assert(ln_j@ == jumps[n - 2 - k]);
            assert(state.can_patch(ln_j@));
            assert(self@.top() == state.top());
            self.patch_instr(&ln_j, l_end.sub(&ln_j));
            proof {
                lemma_patch_jump(s, jumps, s.location(), k as int);
                assert(self@ =~= (State {
                    bookmarks: s.bookmarks.take(m - 2 * (k + 1)),
                    ..s.patch_jumps(jumps, s.location(), k + 1)
                }));
            }
        }
        let expr_loc: Location = self.pop_bookmark();
        expr_locs.push(expr_loc);
        let split_loc: Location = self.pop_bookmark();
        assert(split_loc@ == s.alt_split(n as int));
        let mut offsets: Vec<Offset> = Vec::with_capacity(n);
        for i in 0..n
            invariant
                n >= 1,
                s.can_post_alternation(n as int),
                blocks == s.alt_blocks(n as int),
                split_loc@ == s.alt_split(n as int),
                expr_locs@.len() == n,
                forall|j: int| 0 <= j < n ==> (#[trigger] expr_locs@[j])@ == blocks[n - 1 - j],
                offsets@.len() == i,
                forall|j: int|
                    0 <= j < i ==> (#[trigger] offsets@[j])@ == loc_diff(blocks[j], split_loc@),
        {
            let loc: Location = expr_locs[n - 1 - i];
            assert(loc@ == blocks[i as int]);
            offsets.push(loc.sub(&split_loc));
        }
        let ghost middle = self@;
        self.patch_split_n(&split_loc, &offsets);
        proof {
            assert(offset_models(offsets@) =~= blocks.map_values(
                |l: Loc| loc_diff(l, split_loc@),
            ));
        }
        // The entries of the alternatives on top of the best atoms are joined.
        let len: usize = self.best_atoms.len();
        let last_n: Vec<(i32, Vec<RegexpAtom>)> = self.best_atoms.split_off(len - n);
        proof {
            assert(bests(last_n@) =~= s.best.skip(s.best.len() - n));
            assert(self@.best =~= s.best.take(s.best.len() - n));
        }
        let alternative_atoms: (i32, Vec<RegexpAtom>) = merge_entries(last_n);
        // They are used if they are better than the best atoms so far.
        let ghost below = self@;
        let last: usize = self.best_atoms.len() - 1;
        if self.best_atoms[last].0 < alternative_atoms.0 {
            self.best_atoms[last] = alternative_atoms;
        }
        proof {
            assert(self@.best =~= s.post_alternation(n as int).best);
            assert(self@.bookmarks =~= s.post_alternation(n as int).bookmarks);
            assert(self@ =~= s.post_alternation(n as int));
        }
        split_loc
    }

    /// What goes between two alternatives of an alternation.
    pub(crate) fn visit_alternation_in(&mut self)
        requires
            old(self).wf(),
        ensures
            final(self).wf(),
            final(self).limits() == old(self).limits(),
            final(self)@ == old(self)@.alternation_in(),
    {
        // The destination of the jump is not known yet: its place is kept, to
        // replace its offset later.
        let l: Location = self.emit_instr(Instr::JUMP);
        self.push_bookmark(l);
        // The place of the alternative goes into the `split_n` later.
        let start: Location = self.location();
        self.push_bookmark(start);
        // The best atoms of an alternative do not depend on the others.
        self.push_best();
    }

    /// What goes before the repeated expression.
    pub(crate) fn visit_pre_repetition(&mut self, rep: &Repetition)
        requires
            old(self).wf(),
            rep.min == 0 ==> old(self)@.zero_rep_depth < u32::MAX,
        ensures
            final(self).wf(),
            final(self).limits() == old(self).limits(),
            final(self)@ == old(self)@.pre_repetition(rep.min, rep.max, rep.greedy),
    {
        let l: Location = self.location();
        self.push_bookmark(l);
        match (rep.min, rep.max, rep.greedy) {
            // e* and e*?
            //
            // l1: split_a l3  ( split_b for the non-greedy e*? )
            //     ... code for e ...
            // l2: jump l1
            // l3:
            (0, None, greedy) => {
                let l1: Location = self.emit_instr(
                    if greedy { Instr::SPLIT_A } else { Instr::SPLIT_B },
                );
                self.push_bookmark(l1);
            },
            // e+ and e+?
            //
            // l1: ... code for e ...
            // l2: split_b l1  ( split_a for the non-greedy e+? )
            // l3:
            (1, None, _) => {
                let l1: Location = self.location();
                self.push_bookmark(l1);
            },
            _ => {},
        }
        if rep.min == 0 {
            self.zero_rep_depth = self.zero_rep_depth + 1;
        }
    }

    /// What goes after the repeated expression. Returns the place of the code.
    pub(crate) fn visit_post_repetition(&mut self, rep: &Repetition) -> (r: Location)
        requires
            old(self).wf(),
            old(self)@.can_post_repetition(rep.min, rep.max),
        ensures
            final(self).wf(),
            final(self).limits() == old(self).limits(),
            final(self)@ == old(self)@.post_repetition(rep.min, rep.greedy),
            r@ == old(self)@.bookmarks[old(self)@.bookmarks.len() - 2],
    {
        if rep.min == 0 {
            // e* and e*?
            //
            // l1: split_a l3  ( split_b for the non-greedy e*? )
            //     ... code for e ...
            // l2: jump l1
            // l3:
            let l1: Location = self.pop_bookmark();
            let l2: Location = self.emit_instr(Instr::JUMP);
            let l3: Location = self.location();
            self.patch_instr(&l1, l3.sub(&l1));
            self.patch_instr(&l2, l1.sub(&l2));
        } else {
            // e+ and e+?
            //
            // l1: ... code for e ...
            // l2: split_b l1  ( split_a for the non-greedy e+? )
            // l3:
            let l1: Location = self.pop_bookmark();
            let l2: Location = self.emit_instr(
                if rep.greedy { Instr::SPLIT_B } else { Instr::SPLIT_A },
            );
            self.patch_instr(&l2, l1.sub(&l2));
        }
        self.pop_bookmark()
    }

    /// The walk enters an expression.
    pub(crate) fn visit_pre(&mut self, expr: &Expr)
        requires
            old(self).wf(),
            old(self)@.can_visit_pre(expr.tree()),
            old(self)@.depth < u32::MAX,
            expr.tree() is Repetition && expr.tree()->min == 0 ==> old(self)@.zero_rep_depth
                < u32::MAX,
        ensures
            final(self).wf(),
            final(self).limits() == old(self).limits(),
            final(self)@ == old(self)@.visit_pre(expr.tree()),
    {
        match &expr.kind {
            ExprKind::Empty | ExprKind::Look | ExprKind::Literal(_) | ExprKind::Class(_) => {},
            ExprKind::Capture(_) => {
                let l: Location = self.location();
                self.push_bookmark(l);
            },
            ExprKind::Concat(_) => {
                self.visit_pre_concat();
            },
            ExprKind::Alternation(alternatives) => {
                self.visit_pre_alternation(alternatives);
            },
            ExprKind::Repetition(rep) => {
                self.visit_pre_repetition(rep);
            },
        }
        self.depth = self.depth + 1;
    }

    /// Takes the atoms if they are better than the best ones so far.
    fn offer_atoms(&mut self, atoms: &Vec<Atom>, code_loc: Location)
        requires
            old(self).wf(),
            old(self)@.best.len() > 0,
        ensures
            final(self).wf(),
            final(self).limits() == old(self).limits(),
            final(self)@ == old(self)@.with_best(
                offer(
                    old(self)@.best.last(),
                    Some(atom_models(atoms@)),
                    old(self)@.depth as nat,
                    code_loc@,
                ),
            ),
    {
        let n: usize = atoms.len();
        let last: usize = self.best_atoms.len() - 1;
        let ghost models = atom_models(atoms@);
        if n > 0 {
            let mut quality: i32 = atoms[0].quality();
            assert(models.take(1).len() == 1);
            for i in 1..n
                invariant
                    n == atoms@.len(),
                    models == atom_models(atoms@),
                    quality == min_quality(models.take(i as int)),
            {
                let q: i32 = atoms[i].quality();
                assert(models.take(i + 1).drop_last() =~= models.take(i as int));
                if q < quality {
                    quality = q;
                }
            }
            assert(models.take(n as int) =~= models);
            if quality > self.best_atoms[last].0 {
                let exact: bool = self.depth == 1;
                let placed: Vec<RegexpAtom> = place_atoms(atoms, exact, code_loc);
                self.best_atoms[last] = (quality, placed);
                proof {
                    assert(placed_atoms(placed@) =~= place(
                        models,
                        self.depth as nat,
                        code_loc@,
                    ));
                }
            }
        }
        proof {
            assert(self@.best =~= old(self)@.with_best(
                offer(
                    old(self)@.best.last(),
                    Some(models),
                    old(self)@.depth as nat,
                    code_loc@,
                ),
            ).best);
        }
    }

    /// The walk leaves an expression.
    pub(crate) fn visit_post(&mut self, expr: &Expr)
        requires
            old(self).wf(),
            old(self)@.can_visit_post(expr.tree()),
        ensures
            final(self).wf(),
            final(self).limits() == old(self).limits(),
            final(self)@ == old(self)@.visit_post(expr.tree(), optional_models(expr.atoms)),
    {
        let ghost s = self@;
        let ghost t = expr.tree();
        let mut dec_zero_len_rep: bool = false;
        let mut code_loc: Location = match &expr.kind {
            ExprKind::Capture(_) => self.pop_bookmark(),
            ExprKind::Literal(literal) => self.emit_literal(literal),
            ExprKind::Class(class) => if any_byte(&expr.kind) {
                self.emit_instr(Instr::ANY_BYTE)
            } else {
                self.visit_post_class(class)
            },
            ExprKind::Concat(expressions) => self.visit_post_concat(expressions),
            ExprKind::Alternation(expressions) => self.visit_post_alternation(expressions),
            ExprKind::Repetition(rep) => {
                dec_zero_len_rep = rep.min == 0;
                self.visit_post_repetition(rep)
            },
            ExprKind::Empty | ExprKind::Look => self.location(),
        };
        assert(self@ == s.complete(t));
        assert(code_loc.fwd == s.code_start(t));
        // Within an expression that may repeat zero times there is no point in
        // looking for atoms: a match need not contain them.
        if self.zero_rep_depth == 0 {
            code_loc.bck_seq_id = self.backward_code().seq_id();
            code_loc.bck = self.backward_code().location();
            match &expr.kind {
                ExprKind::Literal(literal) => {
                    self.offer_literal(literal, code_loc);
                },
                _ => {
                    if let Some(atoms) = &expr.atoms {
                        self.offer_atoms(atoms, code_loc);
                    } else {
                        assert(self@.best =~= self@.with_best(self@.best.last()).best);
                    }
                },
            }
        }
        if dec_zero_len_rep {
            self.zero_rep_depth = self.zero_rep_depth - 1;
        }
        self.depth = self.depth - 1;
    }

    /// Walks over an expression.
    pub(crate) fn visit(&mut self, expr: &Expr)
        requires
            old(self).wf(),
            ready(old(self)@, expr.tree()),
        ensures
            final(self).wf(),
            final(self).limits() == old(self).limits(),
            final(self)@ == visited(old(self)@, expr.tree(), expr.notes()),
        decreases expr,
    {
        let ghost s = self@;
        let ghost t = expr.tree();
        let ghost notes = expr.notes();
        self.visit_pre(expr);
        match &expr.kind {
            ExprKind::Capture(sub) => {
                proof {
                    lemma_walk_capture(s, t, sub.tree(), notes);
                }
                self.visit(sub);
            },
            ExprKind::Repetition(rep) => {
                proof {
                    lemma_walk_repetition(s, t, notes);
                }
                self.visit(&rep.sub);
            },
            ExprKind::Concat(expressions) => {
                proof {
                    assert(t->Concat_0 =~= trees(expressions@));
                    assert(notes.subs =~= all_notes(expressions@));
                }
                self.visit_parts(expressions, Ghost(s), Ghost(notes));
            },
            ExprKind::Alternation(expressions) => {
                proof {
                    assert(t->Alternation_0 =~= trees(expressions@));
                    assert(notes.subs =~= all_notes(expressions@));
                }
                self.visit_alternatives(expressions, Ghost(s), Ghost(notes));
            },
            _ => {
                proof {
                    lemma_walk_leaf(s, t, notes);
                }
            },
        }
        self.visit_post(expr);
    }

    /// Walks over the parts of a concatenation that has just been entered.
    fn visit_parts(&mut self, expressions: &Vec<Expr>, s: Ghost<State>, notes: Ghost<Notes>)
        requires
            old(self).wf(),
            ready(s@, Tree::Concat(trees(expressions@))),
            notes@.subs == all_notes(expressions@),
            old(self)@ == s@.visit_pre(Tree::Concat(trees(expressions@))),
        ensures
            final(self).wf(),
            final(self).limits() == old(self).limits(),
            ({
                let t = Tree::Concat(trees(expressions@));
                &&& final(self)@.can_visit_post(t)
                &&& final(self)@.visit_post(t, notes@.atoms) == visited(s@, t, notes@)
            }),
        decreases expressions,
    {
        let ghost es = trees(expressions@);
        let n: usize = expressions.len();
        proof {
            lemma_enter_concat(s@, es, notes@.subs);
        }
        for i in 0..n
            invariant
                n == expressions@.len(),
                n == es.len(),
                es == trees(expressions@),
                notes@.subs == all_notes(expressions@),
                ready(s@, Tree::Concat(es)),
                self.wf(),
                self.limits() == old(self).limits(),
                concat_state(s@, es, notes@.subs, i as int).placed(),
                self@ == if i == 0 {
                    concat_state(s@, es, notes@.subs, 0).push_chunk()
                } else {
                    concat_state(s@, es, notes@.subs, i as int)
                },
        {
            if i > 0 {
                self.visit_concat_in();
            }
            proof {
                lemma_concat_step(s@, es, notes@.subs, i as int);
            }
            self.visit(&expressions[i]);
        }
        proof {
            lemma_leave_concat(s@, es, notes@);
        }
    }

    /// Walks over the alternatives of an alternation that has just been entered.
    fn visit_alternatives(
        &mut self,
        expressions: &Vec<Expr>,
        s: Ghost<State>,
        notes: Ghost<Notes>,
    )
        requires
            old(self).wf(),
            ready(s@, Tree::Alternation(trees(expressions@))),
            notes@.subs == all_notes(expressions@),
            old(self)@ == s@.visit_pre(Tree::Alternation(trees(expressions@))),
        ensures
            final(self).wf(),
            final(self).limits() == old(self).limits(),
            ({
                let t = Tree::Alternation(trees(expressions@));
                &&& final(self)@.can_visit_post(t)
                &&& final(self)@.visit_post(t, notes@.atoms) == visited(s@, t, notes@)
            }),
        decreases expressions,
    {
        let ghost es = trees(expressions@);
        let n: usize = expressions.len();
        proof {
            lemma_enter_alternation(s@, es, notes@.subs);
        }
        for i in 0..n
            invariant
                n == expressions@.len(),
                n == es.len(),
                es == trees(expressions@),
                notes@.subs == all_notes(expressions@),
                ready(s@, Tree::Alternation(es)),
                self.wf(),
                self.limits() == old(self).limits(),
                self@ == if i == 0 {
                    alt_state(s@, es, notes@.subs, 0)
                } else {
                    visited(
                        alt_state(s@, es, notes@.subs, i - 1),
                        es[i - 1],
                        notes@.subs[i - 1],
                    )
                },
        {
            if i > 0 {
                self.visit_alternation_in();
                proof {
                    lemma_alt_step(s@, es, notes@.subs, i - 1);
                }
            }
            proof {
                lemma_alt_ready(s@, es, notes@.subs, i as int);
            }
            self.visit(&expressions[i]);
        }
        proof {
            lemma_leave_alternation(s@, es, notes@);
        }
    }

    /// The atoms that the literals at the start of an expression make.
    pub(crate) fn extract_atoms_from_hir(&self, hir: &regex_syntax::hir::Hir) -> (r: Option<
        Vec<Atom>,
    >)
        requires
            self.wf(),
        ensures
            optional_models(r) == literal_atoms(extracted(hir_tree(*hir), self.limits())),
            optional_models(r) matches Some(atoms) ==> {
                &&& forall|i: int|
                    0 <= i < atoms.len() ==> (#[trigger] atoms[i]).bytes.len()
                        <= self.limits().limit_literal_len
                &&& supported(hir_tree(*hir)) ==> all_start_with(
                    hir_tree(*hir),
                    atom_bytes(atoms),
                )
                &&& supported(hir_tree(*hir)) ==> forall|i: int|
                    0 <= i < atoms.len() && (#[trigger] atoms[i]).exact ==> is_match(
                        hir_tree(*hir),
                        atoms[i].bytes,
                    )
            },
    {
        let seq: regex_syntax::hir::literal::Seq = extract(hir, self.lit_extractor);
        proof {
            if let Some(l) = literal_seq(seq) {
                lemma_literal_atoms(
                    hir_tree(*hir),
                    l,
                    self.limits().limit_literal_len as int,
                );
            }
        }
        atoms_from_literals(
            literal_count(&seq),
            max_literal_len(&seq),
            longest_common_prefix(&seq),
            literals(&seq),
        )
    }

    /// The expression together with the atoms of each of its sub-expressions.
    fn annotate(&self, hir: &regex_syntax::hir::Hir) -> (r: Expr)
        requires
            self.wf(),
        ensures
            r.tree() == hir_tree(*hir),
            r.notes() == notes_of(hir_tree(*hir), self.limits()),
            supported(hir_tree(*hir)) ==> r.notes().sound(hir_tree(*hir)),
            r.notes().atoms_within(hir_tree(*hir), self.limits().limit_literal_len as int),
        decreases hir_tree(*hir),
    {
        let atoms: Option<Vec<Atom>> = self.extract_atoms_from_hir(hir);
        let kind: ExprKind = match hir_kind(hir) {
            RegexKind::Empty => ExprKind::Empty,
            RegexKind::Look => ExprKind::Look,
            RegexKind::Literal(bytes) => ExprKind::Literal(copy_bytes(bytes)),
            RegexKind::Class(class) => ExprKind::Class(hir_class(class)),
            RegexKind::Repetition { min, max, greedy, sub } => {
                let sub: Box<Expr> = Box::new(self.annotate(sub));
                ExprKind::Repetition(Repetition { min, max, greedy, sub })
            },
            RegexKind::Capture(sub) => ExprKind::Capture(Box::new(self.annotate(sub))),
            RegexKind::Concat(hirs) => ExprKind::Concat(self.annotate_all(hirs)),
            RegexKind::Alternation(hirs) => ExprKind::Alternation(self.annotate_all(hirs)),
        };
        let r: Expr = Expr { kind, atoms };
        proof {
            let notes = notes_of(hir_tree(*hir), self.limits());
            assert(r.notes().subs =~= notes.subs);
            match hir_tree(*hir) {
                Tree::Concat(es) => assert(r.tree()->Concat_0 =~= es),
                Tree::Alternation(es) => assert(r.tree()->Alternation_0 =~= es),
                _ => {},
            }
        }
        r
    }

    fn annotate_all(&self, hirs: &Vec<regex_syntax::hir::Hir>) -> (r: Vec<Expr>)
        requires
            self.wf(),
        ensures
            trees(r@) == hir_trees(hirs@),
            forall|i: int|
                0 <= i < hirs@.len() ==> (#[trigger] r@[i]).notes() == notes_of(
                    hir_tree(hirs@[i]),
                    self.limits(),
                ),
            forall|i: int|
                0 <= i < hirs@.len() && supported(hir_tree(hirs@[i])) ==> (
                #[trigger] r@[i]).notes().sound(hir_tree(hirs@[i])),
            forall|i: int|
                0 <= i < hirs@.len() ==> (#[trigger] r@[i]).notes().atoms_within(
                    hir_tree(hirs@[i]),
                    self.limits().limit_literal_len as int,
                ),
        decreases hir_trees(hirs@),
    {
        let n: usize = hirs.len();
        let mut r: Vec<Expr> = Vec::with_capacity(n);
        for i in 0..n
            invariant
                self.wf(),
                n == hirs@.len(),
                r@.len() == i,
                forall|k: int| 0 <= k < i ==> (#[trigger] r@[k]).tree() == hir_tree(hirs@[k]),
                forall|k: int|
                    0 <= k < i ==> (#[trigger] r@[k]).notes() == notes_of(
                        hir_tree(hirs@[k]),
                        self.limits(),
                    ),
                forall|k: int|
                    0 <= k < i && supported(hir_tree(hirs@[k])) ==> (
                    #[trigger] r@[k]).notes().sound(hir_tree(hirs@[k])),
                forall|k: int|
                    0 <= k < i ==> (#[trigger] r@[k]).notes().atoms_within(
                        hir_tree(hirs@[k]),
                        self.limits().limit_literal_len as int,
                    ),
        {
            assert(decreases_to!(hir_trees(hirs@) => hir_trees(hirs@)[i as int]));
            r.push(self.annotate(&hirs[i]));
        }
        assert(trees(r@) =~= hir_trees(hirs@));
        r
    }

    /// Compiles an expression. Returns the code that matches it from left to
    /// right, the code that matches it from right to left, and the atoms that it
    /// is searched by.
    pub fn compile(self, hir: &regex_syntax::hir::Hir) -> (r: (
        InstrSeq,
        InstrSeq,
        Vec<RegexpAtom>,
    ))
        requires
            self.wf(),
            self@ == State::initial(),
            compilable(hir_tree(*hir)),
        ensures
            r.0@ == code(hir_tree(*hir), Direction::Forward),
            r.1@ == code(hir_tree(*hir), Direction::Backward),
            accept_matches(as_bytes(hir_tree(*hir)), r.0@, r.1@),
            r.0.id() == 0 && r.1.id() == 0,
            placed_atoms(r.2@) == chosen_atoms(
                hir_tree(*hir),
                notes_of(hir_tree(*hir), self.limits()),
            ),
            notes_of(hir_tree(*hir), self.limits()).sound(hir_tree(*hir)),
            notes_of(hir_tree(*hir), self.limits()).atoms_within(
                hir_tree(*hir),
                self.limits().limit_literal_len as int,
            ),
            r.2@.len() > 0 ==> forall|s: Seq<u8>| #[trigger]
                is_match(hir_tree(*hir), s) ==> holds_one_of(s, placed_atoms(r.2@)),
            forall|i: int| 0 <= i < r.2@.len() ==> enters(#[trigger] r.2@[i], r.0@, r.1@),
    {
        let expr: Expr = self.annotate(hir);
        self.compile_expr(&expr)
    }

    /// Compiles an expression if the compiler has code for it.
    pub fn try_compile(self, hir: &regex_syntax::hir::Hir) -> (r: Option<
        (InstrSeq, InstrSeq, Vec<RegexpAtom>),
    >)
        requires
            self.wf(),
            self@ == State::initial(),
        ensures
            r is Some <==> compilable(hir_tree(*hir)),
            r matches Some(compiled) ==> {
                let t = hir_tree(*hir);
                let notes = notes_of(t, self.limits());
                &&& compiled.0@ == code(t, Direction::Forward)
                &&& compiled.1@ == code(t, Direction::Backward)
                &&& accept_matches(as_bytes(t), compiled.0@, compiled.1@)
                &&& compiled.0.id() == 0 && compiled.1.id() == 0
                &&& placed_atoms(compiled.2@) == chosen_atoms(t, notes)
                &&& notes.sound(t)
                &&& notes.atoms_within(t, self.limits().limit_literal_len as int)
                &&& compiled.2@.len() > 0 ==> forall|s: Seq<u8>| #[trigger]
                    is_match(t, s) ==> holds_one_of(s, placed_atoms(compiled.2@))
                &&& forall|i: int|
                    0 <= i < compiled.2@.len() ==> enters(
                        #[trigger] compiled.2@[i],
                        compiled.0@,
                        compiled.1@,
                    )
            },
    {
        let expr: Expr = self.annotate(hir);
        match code_size(&expr) {
            Some(_) => Some(self.compile_expr(&expr)),
            None => None,
        }
    }

    /// Compiles an expression from which the atoms have been extracted. Returns
    /// the code that matches it from left to right, the code that matches it from
    /// right to left, and the atoms that it is searched by.
    pub fn compile_expr(self, expr: &Expr) -> (r: (InstrSeq, InstrSeq, Vec<RegexpAtom>))
        requires
            self.wf(),
            self@ == State::initial(),
            compilable(expr.tree()),
        ensures
            r.0@ == code(expr.tree(), Direction::Forward),
            r.1@ == code(expr.tree(), Direction::Backward),
            accept_matches(as_bytes(expr.tree()), r.0@, r.1@),
            r.0.id() == 0 && r.1.id() == 0,
            placed_atoms(r.2@) == chosen_atoms(expr.tree(), expr.notes()),
            expr.notes().sound(expr.tree()) && r.2@.len() > 0 ==> forall|s: Seq<u8>| #[trigger]
                is_match(expr.tree(), s) ==> holds_one_of(s, placed_atoms(r.2@)),
            forall|i: int| 0 <= i < r.2@.len() ==> enters(#[trigger] r.2@[i], r.0@, r.1@),
    {
        let mut compiler: Self = self;
        compiler.visit(expr);
        proof {
            let t = expr.tree();
            let v = visited(State::initial(), t, expr.notes());
            assert(v.forward =~= code(t, Direction::Forward));
            assert(v.backward[0] =~= code(t, Direction::Backward));
            assert(compiler.backward_code@ == compiler@.backward[0]);
            assert(compiler@.best.len() == 1);
            assert(compiler@.best[0].atoms == chosen_atoms(t, expr.notes()));
        }
        let atoms: Vec<RegexpAtom> = match compiler.best_atoms.pop() {
            Some(best) => best.1,
            None => Vec::new(),
        };
        proof {
            let t = expr.tree();
            let notes = expr.notes();
            lemma_codes_read_bytes(t);
            assert(placed_atoms(atoms@) == chosen_atoms(t, notes));
            assert forall|i: int| 0 <= i < atoms@.len() implies enters(
                #[trigger] atoms@[i],
                code(t, Direction::Forward),
                code(t, Direction::Backward),
            ) by {
                lemma_atoms_inside(t, notes, i);
                assert(placed_atoms(atoms@)[i] == atoms@[i]@);
            }
            if notes.sound(t) && atoms@.len() > 0 {
                assert forall|s: Seq<u8>| #[trigger] is_match(t, s) implies holds_one_of(
                    s,
                    placed_atoms(atoms@),
                ) by {
                    lemma_atoms_present(t, notes, s);
                }
            }
        }
        (compiler.forward_code, compiler.backward_code, atoms)
    }

    /// Takes the best atom in a literal if it is better than the best atoms so
    /// far. The code of the literal has just been written, and starts at the
    /// given place in the forward code.
    fn offer_literal(&mut self, literal: &Vec<u8>, start: Location)
        requires
            old(self).wf(),
            old(self)@.best.len() > 0,
            start.fwd + literal_code(literal@).len() <= old(self)@.forward.len(),
            literal_code(literal@.reverse()).len() <= start.bck,
        ensures
            final(self).wf(),
            final(self).limits() == old(self).limits(),
            final(self)@ == old(self)@.with_best(
                offer(
                    old(self)@.best.last(),
                    candidates(Tree::Literal(literal@), None),
                    old(self)@.depth as nat,
                    Loc {
                        fwd: start.fwd + skipped(Tree::Literal(literal@)),
                        bck: start.bck - skipped(Tree::Literal(literal@)),
                        ..start@
                    },
                ),
            ),
    {
        let mut best_atom: Atom = best_atom_from_slice(literal.as_slice(), DESIRED_ATOM_SIZE);
        // If the atom is not at the start of the literal, the code is entered
        // further on in the forward code, and earlier in the backward code.
        proof {
            let last = last_start(literal@, DESIRED_ATOM_SIZE as int);
            lemma_best_start(literal@, DESIRED_ATOM_SIZE as int, last);
            assert(best_atom@.backtrack <= literal@.len());
            assert(literal@.len() == literal.len());
        }
        let backtrack: usize = best_atom.backtrack as usize;
        proof {
            lemma_literal_code_split(literal@, backtrack as int);
            lemma_reversed_literal_len(literal@);
            self.lemma_top_len();
        }
        let before: &[u8] = vstd::slice::slice_subrange(literal.as_slice(), 0, backtrack);
        assert(before@ =~= literal@.take(backtrack as int));
        let adjustment: usize = literal_code_length(before);
        let code_loc: Location = Location {
            fwd: start.fwd + adjustment as u64,
            bck_seq_id: start.bck_seq_id,
            bck: start.bck - adjustment as u64,
        };
        best_atom.backtrack = 0;
        let mut atoms: Vec<Atom> = Vec::new();
        atoms.push(best_atom);
        proof {
            let t = Tree::Literal(literal@);
            assert(Some(atom_models(atoms@)) =~= candidates(t, None));
            assert(adjustment == skipped(t));
            assert(code_loc@ == (Loc {
                fwd: start.fwd + skipped(t),
                bck: start.bck - skipped(t),
                ..start@
            }));
        }
        self.offer_atoms(&atoms, code_loc);
    }
}

/// Puts the atoms at a place.
fn place_atoms(atoms: &Vec<Atom>, exact: bool, code_loc: Location) -> (r: Vec<RegexpAtom>)
    ensures
        r@.len() == atoms@.len(),
        forall|i: int|
            0 <= i < atoms@.len() ==> (#[trigger] r@[i])@ == (PlacedAtom {
                atom: if exact { atoms@[i]@ } else { atoms@[i]@.make_inexact() },
                loc: code_loc@,
            }),
{
    let n: usize = atoms.len();
    let mut r: Vec<RegexpAtom> = Vec::with_capacity(n);
    for i in 0..n
        invariant
            n == atoms@.len(),
            r@.len() == i,
            forall|k: int|
                0 <= k < i ==> (#[trigger] r@[k])@ == (PlacedAtom {
                    atom: if exact { atoms@[k]@ } else { atoms@[k]@.make_inexact() },
                    loc: code_loc@,
                }),
    {
        let copy: Atom = atoms[i].duplicate();
        r.push(RegexpAtom { atom: if exact { copy } else { copy.make_inexact() }, code_loc });
    }
    r
}

/// One more of the jumps gets its offset.
proof fn lemma_patch_jump(s: State, jumps: Seq<Loc>, end: Loc, k: int)
    requires
        0 <= k < jumps.len(),
        s.backward.len() > 0,
    ensures
        s.patch_jumps(jumps, end, k + 1) == s.patch_jumps(jumps, end, k).patch(
            jumps[jumps.len() - 1 - k],
            loc_diff(end, jumps[jumps.len() - 1 - k]),
        ),
{
    assert(s.patch_jumps(jumps, end, k + 1) =~= s.patch_jumps(jumps, end, k).patch(
        jumps[jumps.len() - 1 - k],
        loc_diff(end, jumps[jumps.len() - 1 - k]),
    ));
}

/// Joins the atoms of several entries. They are as good as the worst entry. If an
/// entry has none, there are none.
fn merge_entries(entries: Vec<(i32, Vec<RegexpAtom>)>) -> (r: (i32, Vec<RegexpAtom>))
    requires
        entries@.len() > 0,
    ensures
        best_model(r) == merged(bests(entries@), entries@.len() as int),
{
    let mut rest: Vec<(i32, Vec<RegexpAtom>)> = entries;
    let n: usize = rest.len();
    let mut quality: i32 = rest[0].0;
    let mut all: Vec<RegexpAtom> = Vec::new();
    all.append(&mut rest[0].1);
    assert(placed_atoms(all@) =~= best_model(entries@[0]).atoms);
    for i in 1..n
        invariant
            n == entries@.len(),
            rest@.len() == n,
            forall|k: int| i <= k < n ==> #[trigger] rest@[k] == entries@[k],
            merged(bests(entries@), i as int) == (Best {
                quality: quality as int,
                atoms: placed_atoms(all@),
            }),
    {
        let ghost before = all@;
        let q: i32 = rest[i].0;
        if all.len() == 0 || rest[i].1.len() == 0 {
            all = Vec::new();
        } else {
            all.append(&mut rest[i].1);
        }
        if q < quality {
            quality = q;
        }
        proof {
            let last = best_model(entries@[i as int]).atoms;
            if before.len() == 0 || last.len() == 0 {
                assert(placed_atoms(all@) =~= seq![]);
            } else {
                assert(placed_atoms(all@) =~= placed_atoms(before) + last);
            }
        }
    }
    (quality, all)
}

/// Moves the atoms out of the sequences that were copied into sequence `seq_id`.
fn move_atoms(
    atoms: Vec<RegexpAtom>,
    chunk_locations: &HashMap<u64, u64>,
    seq_id: u64,
) -> (r: Vec<RegexpAtom>)
    requires
        forall|k: int|
            0 <= k < atoms@.len() && chunk_locations@.dom().contains(
                (#[trigger] atoms@[k]).code_loc.bck_seq_id,
            ) ==> atoms@[k].code_loc.bck + chunk_locations@[atoms@[k].code_loc.bck_seq_id]
                <= u64::MAX,
    ensures
        r@.len() == atoms@.len(),
        forall|k: int|
            0 <= k < atoms@.len() ==> (#[trigger] r@[k]).atom@ == atoms@[k].atom@,
        forall|k: int|
            0 <= k < atoms@.len() ==> (#[trigger] r@[k]).code_loc == {
                let loc = atoms@[k].code_loc;
                if chunk_locations@.dom().contains(loc.bck_seq_id) {
                    Location {
                        bck_seq_id: seq_id,
                        bck: (loc.bck + chunk_locations@[loc.bck_seq_id]) as u64,
                        ..loc
                    }
                } else {
                    loc
                }
            },
{
    broadcast use vstd::std_specs::hash::group_hash_axioms;

    let mut r: Vec<RegexpAtom> = atoms;
    let n: usize = r.len();
    for i in 0..n
        invariant
            n == atoms@.len(),
            r@.len() == n,
            forall|k: int|
                0 <= k < atoms@.len() && chunk_locations@.dom().contains(
                    (#[trigger] atoms@[k]).code_loc.bck_seq_id,
                ) ==> atoms@[k].code_loc.bck + chunk_locations@[atoms@[k].code_loc.bck_seq_id]
                    <= u64::MAX,
            forall|k: int| i <= k < n ==> #[trigger] r@[k] == atoms@[k],
            forall|k: int| 0 <= k < n ==> (#[trigger] r@[k]).atom@ == atoms@[k].atom@,
            forall|k: int|
                0 <= k < i ==> (#[trigger] r@[k]).code_loc == {
                    let loc = atoms@[k].code_loc;
                    if chunk_locations@.dom().contains(loc.bck_seq_id) {
                        Location {
                            bck_seq_id: seq_id,
                            bck: (loc.bck + chunk_locations@[loc.bck_seq_id]) as u64,
                            ..loc
                        }
                    } else {
                        loc
                    }
                },
    {
        let loc: Location = r[i].code_loc;
        match chunk_locations.get(&loc.bck_seq_id) {
            Some(adjustment) => {
                assert(atoms@[i as int].code_loc == loc);
                let bck: u64 = loc.bck + *adjustment;
                r[i].code_loc = Location { fwd: loc.fwd, bck_seq_id: seq_id, bck };
            },
            None => {},
        }
    }
    r
}

/// A chunk lies within the code that it was copied to.
proof fn lemma_chunk_fits(chunks: Seq<Seq<u8>>, below: Seq<u8>, i: int)
    requires
        0 <= i < chunks.len(),
    ensures
        chunk_offsets(chunks, below.len() as int)[i] + chunks[i].len() <= (below + join(
            chunks.reverse(),
        )).len(),
    decreases i,
{
    assert(chunks.skip(i).reverse() =~= chunks.skip(i + 1).reverse().push(chunks[i]));
    assert(chunks.skip(i).reverse().drop_last() =~= chunks.skip(i + 1).reverse());
    if i == 0 {
        assert(chunks.skip(0) =~= chunks);
    } else {
        lemma_chunk_fits(chunks, below, i - 1);
    }
}

/// The models of several offsets.
pub open spec fn offset_models(offsets: Seq<Offset>) -> Seq<Loc> {
    Seq::new(offsets.len(), |i: int| offsets[i]@)
}

fn reversed_bytes(bytes: &Vec<u8>) -> (r: Vec<u8>)
    ensures
        r@ == bytes@.reverse(),
{
    let n: usize = bytes.len();
    let mut r: Vec<u8> = Vec::with_capacity(n);
    for i in 0..n
        invariant
            n == bytes@.len(),
            r@ =~= bytes@.reverse().take(i as int),
    {
        r.push(bytes[n - 1 - i]);
    }
    assert(bytes@.reverse().take(n as int) =~= bytes@.reverse());
    r
}

} // verus!
