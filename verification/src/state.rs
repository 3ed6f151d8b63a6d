//! What the compiler holds while it walks an expression, and what each step of
//! the walk makes of it.

use vstd::prelude::*;

use crate::atoms::AtomModel;
use crate::code::{class_code, join, oriented, supported, Direction};
use crate::expr::Tree;
use crate::instr::{
    fits_offset, has_offset_at, has_split_n_at, instr_code, literal_code, patched, patched_split_n,
    split_n_code, zeros, Instr,
};
use crate::select::{better, candidates, merged, no_atoms, offer, skipped, Best, Loc, PlacedAtom};

verus! {

/// What the compiler holds.
#[verifier::ext_equal]
pub ghost struct State {
    /// The forward code.
    pub forward: Seq<u8>,
    /// The backward code, followed by the chunks that still have to be copied
    /// into it. The number of a sequence of backward code is its index.
    pub backward: Seq<Seq<u8>>,
    /// The places that have to be remembered, the latest last.
    pub bookmarks: Seq<Loc>,
    /// The best atoms; within an alternation, those of each alternative so far
    /// come on top.
    pub best: Seq<Best>,
    pub depth: int,
    pub zero_rep_depth: int,
}

pub open spec fn loc_diff(a: Loc, b: Loc) -> Loc {
    Loc { fwd: a.fwd - b.fwd, seq: 0, bck: a.bck - b.bck }
}

/// Both offsets fit in an instruction.
pub open spec fn fits_both(offset: Loc) -> bool {
    fits_offset(offset.fwd) && fits_offset(offset.bck)
}

/// The last `k` of the jumps lead to `end`.
pub open spec fn patched_jumps(code: Seq<u8>, jumps: Seq<int>, end: int, k: int) -> Seq<u8>
    decreases k,
{
    if k <= 0 {
        code
    } else {
        let at = jumps[jumps.len() - k];
        patched(patched_jumps(code, jumps, end, k - 1), at, end - at)
    }
}

/// Moves an atom out of one of the `offsets.len()` chunks that follow sequence
/// `base`, given where each of them was copied to in that sequence.
pub open spec fn moved(a: PlacedAtom, base: int, offsets: Seq<int>) -> PlacedAtom {
    if base < a.loc.seq <= base + offsets.len() {
        PlacedAtom {
            loc: Loc {
                seq: base,
                bck: a.loc.bck + offsets[a.loc.seq - base - 1],
                ..a.loc
            },
            ..a
        }
    } else {
        a
    }
}

pub open spec fn moved_best(best: Best, base: int, offsets: Seq<int>) -> Best {
    Best {
        quality: best.quality,
        atoms: Seq::new(best.atoms.len(), |i: int| moved(best.atoms[i], base, offsets)),
    }
}

/// Where each of the chunks comes to lie when they are appended, the last one
/// first, to code of length `len`.
pub open spec fn chunk_offsets(chunks: Seq<Seq<u8>>, len: int) -> Seq<int> {
    Seq::new(chunks.len(), |i: int| len + join(chunks.skip(i + 1).reverse()).len())
}

/// What a repetition adds to the number of repetitions that may repeat zero
/// times.
pub open spec fn may_be_empty(min: u32) -> int {
    if min == 0 { 1 } else { 0 }
}

impl State {
    /// What the compiler starts from.
    pub open spec fn initial() -> State {
        State {
            forward: seq![],
            backward: seq![seq![]],
            bookmarks: seq![],
            best: seq![Best { quality: i32::MIN as int, atoms: seq![] }],
            depth: 0,
            zero_rep_depth: 0,
        }
    }

    /// The backward code that is being written.
    pub open spec fn top(self) -> Seq<u8> {
        self.backward.last()
    }

    /// Where the next instructions will be written.
    pub open spec fn location(self) -> Loc {
        Loc {
            fwd: self.forward.len() as int,
            seq: self.backward.len() - 1,
            bck: self.top().len() as int,
        }
    }

    pub open spec fn with_top(self, top: Seq<u8>) -> State {
        State { backward: self.backward.update(self.backward.len() - 1, top), ..self }
    }

    /// Writes code.
    pub open spec fn emit(self, forward: Seq<u8>, backward: Seq<u8>) -> State {
        State { forward: self.forward + forward, ..self.with_top(self.top() + backward) }
    }

    pub open spec fn emit_both(self, code: Seq<u8>) -> State {
        self.emit(code, code)
    }

    /// There are instructions with an offset at `at`.
    pub open spec fn can_patch(self, at: Loc) -> bool {
        has_offset_at(self.forward, at.fwd) && has_offset_at(self.top(), at.bck)
    }

    /// Replaces the offsets of the instructions at `at`.
    pub open spec fn patch(self, at: Loc, offset: Loc) -> State {
        State {
            forward: patched(self.forward, at.fwd, offset.fwd),
            ..self.with_top(patched(self.top(), at.bck, offset.bck))
        }
    }

    /// There are `split_n` instructions with `n` alternatives at `at`.
    pub open spec fn can_patch_split_n(self, at: Loc, n: nat) -> bool {
        has_split_n_at(self.forward, at.fwd, n) && has_split_n_at(self.top(), at.bck, n)
    }

    /// Replaces the offsets of the `split_n` instructions at `at`.
    pub open spec fn patch_split_n(self, at: Loc, offsets: Seq<Loc>) -> State {
        State {
            forward: patched_split_n(self.forward, at.fwd, offsets.map_values(|o: Loc| o.fwd)),
            ..self.with_top(
                patched_split_n(self.top(), at.bck, offsets.map_values(|o: Loc| o.bck)),
            )
        }
    }

    pub open spec fn push_bookmark(self, loc: Loc) -> State {
        State { bookmarks: self.bookmarks.push(loc), ..self }
    }

    pub open spec fn pop_bookmarks(self, n: int) -> State {
        State { bookmarks: self.bookmarks.take(self.bookmarks.len() - n), ..self }
    }

    pub open spec fn push_chunk(self) -> State {
        State { backward: self.backward.push(seq![]), ..self }
    }

    pub open spec fn push_best(self) -> State {
        State { best: self.best.push(no_atoms()), ..self }
    }

    pub open spec fn with_best(self, best: Best) -> State {
        State { best: self.best.update(self.best.len() - 1, best), ..self }
    }

    /// Every one of the best atoms is at a place in the backward code.
    pub open spec fn placed(self) -> bool {
        forall|i: int|
            0 <= i < self.best.last().atoms.len() ==> {
                let loc = (#[trigger] self.best.last().atoms[i]).loc;
                &&& 0 <= loc.seq < self.backward.len()
                &&& 0 <= loc.bck <= self.backward[loc.seq].len()
            }
    }

    /// What goes before the first part of a concatenation.
    pub open spec fn pre_concat(self) -> State {
        self.push_bookmark(self.location()).push_chunk()
    }

    /// The last `n` chunks hold the backward code of the parts of a
    /// concatenation.
    pub open spec fn can_post_concat(self, n: int) -> bool {
        &&& 0 <= n < self.backward.len()
        &&& self.bookmarks.len() > 0
        &&& self.best.len() > 0
        &&& self.placed()
    }

    /// What goes after the last part of a concatenation: the last `n` chunks are
    /// copied, the last one first, to the code below them.
    pub open spec fn post_concat(self, n: int) -> State {
        let base = self.backward.len() - 1 - n;
        let chunks = self.backward.skip(base + 1);
        let below = self.backward[base];
        State {
            backward: self.backward.take(base).push(below + join(chunks.reverse())),
            ..self.pop_bookmarks(1).with_best(
                moved_best(self.best.last(), base, chunk_offsets(chunks, below.len() as int)),
            )
        }
    }

    /// What goes before the first alternative of an alternation.
    pub open spec fn pre_alternation(self, n: nat) -> State {
        let s = self.emit_both(split_n_code(zeros(n)));
        s.push_bookmark(self.location()).push_bookmark(s.location()).push_best()
    }

    /// What goes between two alternatives of an alternation.
    pub open spec fn alternation_in(self) -> State {
        let s = self.emit_both(instr_code(Instr::JUMP));
        s.push_bookmark(self.location()).push_bookmark(s.location()).push_best()
    }

    /// Among the last `2 * n` bookmarks, the place of the `split_n`.
    pub open spec fn alt_split(self, n: int) -> Loc {
        self.bookmarks[self.bookmarks.len() - 2 * n]
    }

    /// Among the last `2 * n` bookmarks, the places of the alternatives.
    pub open spec fn alt_blocks(self, n: int) -> Seq<Loc> {
        Seq::new(
            n as nat,
            |i: int| self.bookmarks[self.bookmarks.len() - 2 * n + 1 + 2 * i],
        )
    }

    /// Among the last `2 * n` bookmarks, the places of the jumps.
    pub open spec fn alt_jumps(self, n: int) -> Seq<Loc> {
        Seq::new(
            (n - 1) as nat,
            |i: int| self.bookmarks[self.bookmarks.len() - 2 * n + 2 + 2 * i],
        )
    }

    /// The last `2 * n` bookmarks are those of an alternation.
    pub open spec fn can_post_alternation(self, n: int) -> bool {
        &&& 0 < n
        &&& 2 * n <= self.bookmarks.len()
        &&& n < self.best.len()
        &&& forall|k: int|
            0 <= k < n - 1 ==> {
                let jump = self.alt_jumps(n)[n - 2 - k];
                let s = #[trigger] self.patch_jumps(self.alt_jumps(n), self.location(), k);
                s.can_patch(jump) && fits_both(loc_diff(self.location(), jump))
            }
        &&& self.patch_jumps(self.alt_jumps(n), self.location(), n - 1).can_patch_split_n(
            self.alt_split(n),
            n as nat,
        )
        &&& forall|i: int|
            0 <= i < n ==> fits_both(
                loc_diff(#[trigger] self.alt_blocks(n)[i], self.alt_split(n)),
            )
    }

    /// The jumps lead to the end of the alternation.
    pub open spec fn patch_jumps(self, jumps: Seq<Loc>, end: Loc, k: int) -> State {
        State {
            forward: patched_jumps(self.forward, jumps.map_values(|l: Loc| l.fwd), end.fwd, k),
            ..self.with_top(
                patched_jumps(self.top(), jumps.map_values(|l: Loc| l.bck), end.bck, k),
            )
        }
    }

    /// What goes after the last alternative of an alternation.
    pub open spec fn post_alternation(self, n: int) -> State {
        let split = self.alt_split(n);
        let s = self.patch_jumps(self.alt_jumps(n), self.location(), n - 1).patch_split_n(
            split,
            self.alt_blocks(n).map_values(|l: Loc| loc_diff(l, split)),
        ).pop_bookmarks(2 * n);
        let below = State { best: self.best.take(self.best.len() - n), ..s };
        below.with_best(
            better(below.best.last(), merged(self.best.skip(self.best.len() - n), n)),
        )
    }

    /// What goes before the repeated expression.
    pub open spec fn pre_repetition(self, min: u32, max: Option<u32>, greedy: bool) -> State {
        let s = self.push_bookmark(self.location());
        let s = if min == 0 && max is None {
            let op = if greedy { Instr::SPLIT_A } else { Instr::SPLIT_B };
            s.emit_both(instr_code(op)).push_bookmark(self.location())
        } else if min == 1 && max is None {
            s.push_bookmark(self.location())
        } else {
            s
        };
        State { zero_rep_depth: s.zero_rep_depth + may_be_empty(min), ..s }
    }

    pub open spec fn can_post_repetition(self, min: u32, max: Option<u32>) -> bool {
        &&& max is None
        &&& self.bookmarks.len() >= 2
        &&& {
            let l1 = self.bookmarks.last();
            let l2 = self.location();
            if min == 0 {
                let l3 = self.emit_both(instr_code(Instr::JUMP)).location();
                &&& self.can_patch(l1)
                &&& fits_both(loc_diff(l3, l1))
                &&& fits_both(loc_diff(l1, l2))
            } else {
                min == 1 && fits_both(loc_diff(l1, l2))
            }
        }
    }

    /// What goes after the repeated expression.
    pub open spec fn post_repetition(self, min: u32, greedy: bool) -> State {
        let l1 = self.bookmarks.last();
        let l2 = self.location();
        if min == 0 {
            let s = self.emit_both(instr_code(Instr::JUMP));
            s.patch(l1, loc_diff(s.location(), l1)).patch(l2, loc_diff(l1, l2)).pop_bookmarks(2)
        } else {
            let op = if greedy { Instr::SPLIT_B } else { Instr::SPLIT_A };
            self.emit_both(instr_code(op)).patch(l2, loc_diff(l1, l2)).pop_bookmarks(2)
        }
    }

    /// The walk can enter the expression.
    pub open spec fn can_visit_pre(self, t: Tree) -> bool {
        match t {
            Tree::Empty | Tree::Look => false,
            Tree::Alternation(es) => es.len() <= 255,
            _ => true,
        }
    }

    /// The walk enters an expression.
    pub open spec fn visit_pre(self, t: Tree) -> State {
        let s = match t {
            Tree::Capture(_) => self.push_bookmark(self.location()),
            Tree::Concat(_) => self.pre_concat(),
            Tree::Alternation(es) => self.pre_alternation(es.len()),
            Tree::Repetition { min, max, greedy, .. } => self.pre_repetition(min, max, greedy),
            _ => self,
        };
        State { depth: s.depth + 1, ..s }
    }

    /// The walk can leave the expression.
    pub open spec fn can_visit_post(self, t: Tree) -> bool {
        &&& self.depth > 0
        &&& self.best.len() > 0
        &&& match t {
            Tree::Empty | Tree::Look => false,
            Tree::Capture(_) => self.bookmarks.len() > 0,
            Tree::Concat(es) => self.can_post_concat(es.len() as int),
            Tree::Alternation(es) => self.can_post_alternation(es.len() as int),
            Tree::Repetition { min, max, .. } => {
                &&& self.can_post_repetition(min, max)
                &&& min == 0 ==> self.zero_rep_depth > 0
            },
            Tree::Class(_) => supported(t),
            Tree::Literal(_) => true,
        }
    }

    /// The code of the expression has been written.
    pub open spec fn complete(self, t: Tree) -> State {
        match t {
            Tree::Literal(bytes) => self.emit(
                literal_code(oriented(bytes, Direction::Forward)),
                literal_code(oriented(bytes, Direction::Backward)),
            ),
            Tree::Class(c) => self.emit_both(class_code(c)),
            Tree::Capture(_) => self.pop_bookmarks(1),
            Tree::Concat(es) => self.post_concat(es.len() as int),
            Tree::Alternation(es) => self.post_alternation(es.len() as int),
            Tree::Repetition { min, greedy, .. } => self.post_repetition(min, greedy),
            _ => self,
        }
    }

    /// Where the forward code of the expression that is being left starts.
    pub open spec fn code_start(self, t: Tree) -> int {
        match t {
            Tree::Capture(_) | Tree::Concat(_) => self.bookmarks.last().fwd,
            Tree::Alternation(es) => self.alt_split(es.len() as int).fwd,
            Tree::Repetition { .. } => self.bookmarks[self.bookmarks.len() - 2].fwd,
            _ => self.forward.len() as int,
        }
    }

    /// The walk leaves an expression.
    pub open spec fn visit_post(self, t: Tree, atoms: Option<Seq<AtomModel>>) -> State {
        let s = self.complete(t);
        let s = if s.zero_rep_depth == 0 {
            let loc = Loc {
                fwd: self.code_start(t) + skipped(t),
                seq: s.backward.len() - 1,
                bck: s.top().len() - skipped(t),
            };
            s.with_best(offer(s.best.last(), candidates(t, atoms), s.depth as nat, loc))
        } else {
            s
        };
        let left = match t {
            Tree::Repetition { min, .. } => may_be_empty(min),
            _ => 0,
        };
        State { zero_rep_depth: s.zero_rep_depth - left, depth: s.depth - 1, ..s }
    }
}

/// Writing code leaves everything alone but the forward code and the sequence of
/// backward code that is being written.
pub proof fn lemma_emit(s: State, forward: Seq<u8>, backward: Seq<u8>)
    requires
        s.backward.len() > 0,
    ensures
        ({
            let e = s.emit(forward, backward);
            &&& e.forward == s.forward + forward
            &&& e.top() == s.top() + backward
            &&& e.backward.len() == s.backward.len()
            &&& forall|i: int|
                0 <= i < s.backward.len() - 1 ==> #[trigger] e.backward[i] == s.backward[i]
            &&& e.bookmarks == s.bookmarks
            &&& e.best == s.best
            &&& e.depth == s.depth
            &&& e.zero_rep_depth == s.zero_rep_depth
        }),
{
}

} // verus!
