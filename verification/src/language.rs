//! What a regular expression matches.

use vstd::prelude::*;

use crate::atoms::AtomModel;
use crate::class::{in_char_ranges, in_ranges, is_any, ClassModel};
use crate::code::join;
use crate::expr::{Notes, Tree};

verus! {

/// The bytes are one of the characters of the class. A character of a Unicode
/// class is written in UTF-8.
pub open spec fn class_matches(c: ClassModel, w: Seq<u8>) -> bool {
    match c {
        ClassModel::Bytes(ranges) => w.len() == 1 && in_ranges(ranges, w[0]),
        ClassModel::Unicode(ranges) => exists|ch: u32|
            #[trigger] in_char_ranges(ranges, ch) && w == vstd::utf8::encode_scalar(ch),
    }
}

/// An expression can be repeated `n` times.
pub open spec fn may_repeat(min: u32, max: Option<u32>, n: nat) -> bool {
    min <= n && (max matches Some(most) ==> n <= most)
}

/// The whole of `w` is a match of the expression. What a match has around it is
/// not taken into account: look-arounds match the empty string.
pub open spec fn is_match(t: Tree, w: Seq<u8>) -> bool
    decreases t,
{
    match t {
        Tree::Empty | Tree::Look => w.len() == 0,
        Tree::Literal(bytes) => w == bytes,
        Tree::Class(c) => class_matches(c, w),
        Tree::Capture(sub) => is_match(*sub, w),
        Tree::Repetition { min, max, sub, .. } => exists|parts: Seq<Seq<u8>>|
            {
                &&& w == #[trigger] join(parts)
                &&& may_repeat(min, max, parts.len())
                &&& forall|i: int| 0 <= i < parts.len() ==> is_match(*sub, #[trigger] parts[i])
            },
        Tree::Concat(es) => exists|parts: Seq<Seq<u8>>|
            {
                &&& w == #[trigger] join(parts)
                &&& parts.len() == es.len()
                &&& forall|i: int| 0 <= i < es.len() ==> is_match(es[i], #[trigger] parts[i])
            },
        Tree::Alternation(es) => exists|i: int|
            0 <= i < es.len() && is_match(#[trigger] es[i], w),
    }
}

/// No class in the expression is that of all Unicode characters. (The code for
/// that class reads a single byte, whereas a character may take several.)
pub open spec fn bytewise(t: Tree) -> bool
    decreases t,
{
    match t {
        Tree::Class(c) => c is Unicode ==> !is_any(c),
        Tree::Capture(sub) => bytewise(*sub),
        Tree::Repetition { sub, .. } => bytewise(*sub),
        Tree::Concat(es) => forall|i: int| 0 <= i < es.len() ==> bytewise(#[trigger] es[i]),
        Tree::Alternation(es) => forall|i: int| 0 <= i < es.len() ==> bytewise(#[trigger] es[i]),
        _ => true,
    }
}

/// The expression with the class of all bytes in place of the class of all Unicode
/// characters.
pub open spec fn as_bytes(t: Tree) -> Tree
    decreases t,
{
    match t {
        Tree::Class(c) => if c is Unicode && is_any(c) {
            Tree::Class(ClassModel::Bytes(seq![(0u8, 255u8)]))
        } else {
            t
        },
        Tree::Capture(sub) => Tree::Capture(Box::new(as_bytes(*sub))),
        Tree::Repetition { min, max, greedy, sub } => Tree::Repetition {
            min,
            max,
            greedy,
            sub: Box::new(as_bytes(*sub)),
        },
        Tree::Concat(es) => Tree::Concat(
            Seq::new(
                es.len(),
                |i: int|
                    if 0 <= i < es.len() {
                        as_bytes(es[i])
                    } else {
                        Tree::Empty
                    },
            ),
        ),
        Tree::Alternation(es) => Tree::Alternation(
            Seq::new(
                es.len(),
                |i: int|
                    if 0 <= i < es.len() {
                        as_bytes(es[i])
                    } else {
                        Tree::Empty
                    },
            ),
        ),
        _ => t,
    }
}

/// Every match of the expression starts with one of the literals.
pub open spec fn all_start_with(t: Tree, literals: Seq<Seq<u8>>) -> bool {
    forall|w: Seq<u8>| #[trigger]
        is_match(t, w) ==> exists|i: int|
            0 <= i < literals.len() && (#[trigger] literals[i]).is_prefix_of(w)
}

/// The bytes of each atom.
pub open spec fn atom_bytes(atoms: Seq<AtomModel>) -> Seq<Seq<u8>> {
    Seq::new(atoms.len(), |i: int| atoms[i].bytes)
}

impl Notes {
    /// The atoms of each sub-expression are such that every match of it starts
    /// with one of them, and each that is exact is a match of it.
    pub open spec fn sound(self, t: Tree) -> bool
        decreases t,
    {
        &&& self.atoms matches Some(atoms) ==> {
            &&& all_start_with(t, atom_bytes(atoms))
            &&& forall|i: int|
                0 <= i < atoms.len() && (#[trigger] atoms[i]).exact ==> is_match(
                    t,
                    atoms[i].bytes,
                )
        }
        &&& match t {
            Tree::Repetition { sub, .. } => self.subs[0].sound(*sub),
            Tree::Capture(sub) => self.subs[0].sound(*sub),
            Tree::Concat(es) => forall|i: int|
                0 <= i < es.len() ==> (#[trigger] self.subs[i]).sound(es[i]),
            Tree::Alternation(es) => forall|i: int|
                0 <= i < es.len() ==> (#[trigger] self.subs[i]).sound(es[i]),
            _ => true,
        }
    }

    /// No atom of the expression or of a sub-expression is longer than `len`.
    pub open spec fn atoms_within(self, t: Tree, len: int) -> bool
        decreases t,
    {
        &&& self.atoms matches Some(atoms) ==> forall|i: int|
            0 <= i < atoms.len() ==> (#[trigger] atoms[i]).bytes.len() <= len
        &&& match t {
            Tree::Repetition { sub, .. } => self.subs[0].atoms_within(*sub, len),
            Tree::Capture(sub) => self.subs[0].atoms_within(*sub, len),
            Tree::Concat(es) => forall|i: int|
                0 <= i < es.len() ==> (#[trigger] self.subs[i]).atoms_within(es[i], len),
            Tree::Alternation(es) => forall|i: int|
                0 <= i < es.len() ==> (#[trigger] self.subs[i]).atoms_within(es[i], len),
            _ => true,
        }
    }
}

} // verus!
