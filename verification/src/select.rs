//! Which atoms a regular expression is searched by, and where its code is
//! entered when one of them is found.

use vstd::prelude::*;

use crate::atoms::{best_atom, quality, AtomModel, DESIRED_ATOM_SIZE};
use crate::code::{alt_start, code, codes, join, Direction};
use crate::expr::{Notes, Tree};
use crate::instr::literal_code;

verus! {

/// A place in the code: an offset in the forward code, and an offset in a
/// sequence of backward code together with the number of that sequence.
#[verifier::ext_equal]
pub ghost struct Loc {
    pub fwd: int,
    pub seq: int,
    pub bck: int,
}

/// An atom and the place where the code is entered when it is found.
#[verifier::ext_equal]
pub ghost struct PlacedAtom {
    pub atom: AtomModel,
    pub loc: Loc,
}

/// The best atoms found so far, and the quality of the worst of them.
#[verifier::ext_equal]
pub ghost struct Best {
    pub quality: int,
    pub atoms: Seq<PlacedAtom>,
}

/// The quality of the worst of the atoms.
pub open spec fn min_quality(atoms: Seq<AtomModel>) -> int
    decreases atoms.len(),
{
    if atoms.len() <= 1 {
        quality(atoms[0].bytes)
    } else {
        let others = min_quality(atoms.drop_last());
        let last = quality(atoms.last().bytes);
        if last < others { last } else { others }
    }
}

/// Puts the atoms at a place. Only the atoms of the whole expression, which has
/// depth 1, can be exact.
pub open spec fn place(atoms: Seq<AtomModel>, depth: nat, loc: Loc) -> Seq<PlacedAtom> {
    Seq::new(
        atoms.len(),
        |i: int|
            PlacedAtom {
                atom: if depth != 1 { atoms[i].make_inexact() } else { atoms[i] },
                loc,
            },
    )
}

/// Takes the atoms if they are better than the best ones so far.
pub open spec fn offer(
    cur: Best,
    atoms: Option<Seq<AtomModel>>,
    depth: nat,
    loc: Loc,
) -> Best {
    match atoms {
        Some(atoms) => if atoms.len() > 0 && min_quality(atoms) > cur.quality {
            Best { quality: min_quality(atoms), atoms: place(atoms, depth, loc) }
        } else {
            cur
        },
        None => cur,
    }
}

/// The atoms that an expression itself offers: for a literal, the best atom in
/// it; for anything else, the atoms that were extracted from it.
pub open spec fn candidates(t: Tree, atoms: Option<Seq<AtomModel>>) -> Option<
    Seq<AtomModel>,
> {
    match t {
        Tree::Literal(bytes) => Some(
            seq![AtomModel { backtrack: 0, ..best_atom(bytes, DESIRED_ATOM_SIZE as int) }],
        ),
        _ => atoms,
    }
}

/// The length of the code for what precedes the atom in a literal.
pub open spec fn skipped(t: Tree) -> int {
    match t {
        Tree::Literal(bytes) => literal_code(
            bytes.take(best_atom(bytes, DESIRED_ATOM_SIZE as int).backtrack),
        ).len() as int,
        _ => 0,
    }
}

/// Where the code is entered for the atoms that an expression offers, if its
/// code starts at `at`: the forward code where the atom starts, the backward code
/// where it has gone past the atom.
pub open spec fn entry(t: Tree, at: Loc) -> Loc {
    Loc {
        fwd: at.fwd + skipped(t),
        seq: at.seq,
        bck: at.bck + code(t, Direction::Backward).len() - skipped(t),
    }
}

/// Where the code of part `i` of a concatenation starts.
pub open spec fn concat_loc(es: Seq<Tree>, at: Loc, i: int) -> Loc {
    Loc {
        fwd: at.fwd + join(codes(es, Direction::Forward).take(i)).len(),
        seq: at.seq,
        bck: at.bck + join(codes(es, Direction::Backward).skip(i + 1).reverse()).len(),
    }
}

/// Where the code of alternative `i` of an alternation starts.
pub open spec fn alt_loc(es: Seq<Tree>, at: Loc, i: int) -> Loc {
    Loc {
        fwd: at.fwd + alt_start(codes(es, Direction::Forward), i),
        seq: at.seq,
        bck: at.bck + alt_start(codes(es, Direction::Backward), i),
    }
}

/// Where the code of the expression that `e*` repeats starts.
pub open spec fn star_loc(at: Loc) -> Loc {
    Loc { fwd: at.fwd + 4, seq: at.seq, bck: at.bck + 4 }
}

/// The best atoms that every alternative starts from.
pub open spec fn no_atoms() -> Best {
    Best { quality: 0, atoms: seq![] }
}

pub open spec fn better(cur: Best, new: Best) -> Best {
    if cur.quality < new.quality { new } else { cur }
}

/// The atoms of the first `k` entries together. They are as good as the worst of
/// the entries. If an entry has no atoms there are none: what it stands for may
/// occur in a match without any of the others.
pub open spec fn merged(entries: Seq<Best>, k: int) -> Best
    decreases k,
{
    if k <= 1 {
        entries[0]
    } else {
        let before = merged(entries, k - 1);
        let last = entries[k - 1];
        Best {
            quality: if last.quality < before.quality { last.quality } else { before.quality },
            atoms: if before.atoms.len() == 0 || last.atoms.len() == 0 {
                seq![]
            } else {
                before.atoms + last.atoms
            },
        }
    }
}

/// Takes the atoms that an expression itself offers, unless it lies within an
/// expression that may repeat zero times.
pub open spec fn offer_own(
    cur: Best,
    t: Tree,
    atoms: Option<Seq<AtomModel>>,
    depth: nat,
    zero: bool,
    at: Loc,
) -> Best {
    if zero {
        cur
    } else {
        offer(cur, candidates(t, atoms), depth, entry(t, at))
    }
}

/// The best atoms after an expression whose code starts at `at`, where `cur` are
/// the best ones before it. If `zero` holds, the expression lies within one that
/// may repeat zero times, and need not occur in a match: its atoms do not count.
/// The atoms of the alternatives of an alternation count together, if each of them
/// has atoms.
pub open spec fn best_after(
    t: Tree,
    notes: Notes,
    depth: nat,
    zero: bool,
    at: Loc,
    cur: Best,
) -> Best
    decreases t, 0int,
{
    match t {
        Tree::Repetition { min, sub, .. } => if min == 0 {
            best_after(*sub, notes.subs[0], depth + 1, true, star_loc(at), cur)
        } else {
            offer_own(
                best_after(*sub, notes.subs[0], depth + 1, zero, at, cur),
                t,
                notes.atoms,
                depth,
                zero,
                at,
            )
        },
        Tree::Capture(sub) => offer_own(
            best_after(*sub, notes.subs[0], depth + 1, zero, at, cur),
            t,
            notes.atoms,
            depth,
            zero,
            at,
        ),
        Tree::Concat(es) => offer_own(
            concat_best(es, notes.subs, depth + 1, zero, at, cur, es.len() as int),
            t,
            notes.atoms,
            depth,
            zero,
            at,
        ),
        Tree::Alternation(es) => offer_own(
            better(
                cur,
                merged(alt_entries(es, notes.subs, depth + 1, zero, at), es.len() as int),
            ),
            t,
            notes.atoms,
            depth,
            zero,
            at,
        ),
        _ => offer_own(cur, t, notes.atoms, depth, zero, at),
    }
}

/// The best atoms after the first `k` parts of a concatenation.
pub open spec fn concat_best(
    es: Seq<Tree>,
    notes: Seq<Notes>,
    depth: nat,
    zero: bool,
    at: Loc,
    cur: Best,
    k: int,
) -> Best
    decreases es, k,
{
    if k <= 0 || k > es.len() {
        cur
    } else {
        best_after(
            es[k - 1],
            notes[k - 1],
            depth,
            zero,
            concat_loc(es, at, k - 1),
            concat_best(es, notes, depth, zero, at, cur, k - 1),
        )
    }
}

/// The best atoms of each alternative of an alternation.
pub open spec fn alt_entries(
    es: Seq<Tree>,
    notes: Seq<Notes>,
    depth: nat,
    zero: bool,
    at: Loc,
) -> Seq<Best>
    decreases es, 0int,
{
    Seq::new(
        es.len(),
        |i: int|
            if 0 <= i < es.len() {
                best_after(es[i], notes[i], depth, zero, alt_loc(es, at, i), no_atoms())
            } else {
                no_atoms()
            },
    )
}

/// The best atoms of an expression.
pub open spec fn chosen_best(t: Tree, notes: Notes) -> Best {
    best_after(
        t,
        notes,
        1,
        false,
        Loc { fwd: 0, seq: 0, bck: 0 },
        Best { quality: i32::MIN as int, atoms: seq![] },
    )
}

/// The atoms that an expression is searched by.
pub open spec fn chosen_atoms(t: Tree, notes: Notes) -> Seq<PlacedAtom> {
    chosen_best(t, notes).atoms
}

} // verus!
