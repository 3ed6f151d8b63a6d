//! One of the atoms of an expression occurs in each of its matches.

use vstd::prelude::*;

use crate::atoms::{best_atom, last_start, lemma_best_start, AtomModel, DESIRED_ATOM_SIZE};
use crate::choice::{lemma_merged_all, lemma_zero};
use crate::code::{join, supported, Direction};
use crate::correct::{lemma_concat_to_parts, lemma_repetition_to_parts, read_match};
use crate::expr::{Notes, Tree};
use crate::language::{atom_bytes, is_match};
use crate::layout::lemma_join_split;
use crate::select::{
    alt_entries, alt_loc, best_after, better, candidates, chosen_atoms, concat_best, concat_loc,
    entry, merged, no_atoms, offer_own, place, star_loc, Best, Loc, PlacedAtom,
};

verus! {

/// One of the atoms occurs in `s`.
pub open spec fn holds_one_of(s: Seq<u8>, atoms: Seq<PlacedAtom>) -> bool {
    exists|i: int, p: int|
        0 <= i < atoms.len() && 0 <= p <= s.len() && (
        #[trigger] atoms[i]).atom.bytes.is_prefix_of(#[trigger] s.skip(p))
}

/// If there are atoms, one of them occurs in `s`.
pub open spec fn present(best: Best, s: Seq<u8>) -> bool {
    best.atoms.len() > 0 ==> holds_one_of(s, best.atoms)
}

/// The atoms that an expression itself offers occur in its matches.
proof fn lemma_own_present(
    t: Tree,
    atoms: Seq<AtomModel>,
    notes: Notes,
    depth: nat,
    loc: Loc,
    u: Seq<u8>,
    w: Seq<u8>,
    v: Seq<u8>,
)
    requires
        notes.sound(t),
        candidates(t, notes.atoms) == Some(atoms),
        is_match(t, w),
    ensures
        holds_one_of(u + w + v, place(atoms, depth, loc)),
{
    let s = u + w + v;
    let placed = place(atoms, depth, loc);
    if let Tree::Literal(bytes) = t {
        let size = DESIRED_ATOM_SIZE as int;
        lemma_best_start(bytes, size, last_start(bytes, size));
        let a = best_atom(bytes, size);
        let p = u.len() + a.backtrack;
        assert(a.bytes =~= s.skip(p).subrange(0, a.bytes.len() as int));
        assert(placed[0].atom.bytes.is_prefix_of(s.skip(p)));
    } else {
        let l = atom_bytes(atoms);
        let i = choose|i: int| 0 <= i < l.len() && (#[trigger] l[i]).is_prefix_of(w);
        let p = u.len() as int;
        assert(l[i] == w.subrange(0, l[i].len() as int));
        assert(l[i] =~= s.skip(p).subrange(0, l[i].len() as int));
        assert(placed[i].atom.bytes.is_prefix_of(s.skip(p)));
    }
}

proof fn lemma_offer_present(
    cur: Best,
    t: Tree,
    notes: Notes,
    depth: nat,
    at: Loc,
    u: Seq<u8>,
    w: Seq<u8>,
    v: Seq<u8>,
)
    requires
        notes.sound(t),
        is_match(t, w),
        present(cur, u + w + v),
    ensures
        present(offer_own(cur, t, notes.atoms, depth, false, at), u + w + v),
{
    if let Some(atoms) = candidates(t, notes.atoms) {
        lemma_own_present(t, atoms, notes, depth, entry(t, at), u, w, v);
    }
}

/// The best atoms after an expression occur in what its matches are part of.
proof fn lemma_best_present(
    t: Tree,
    notes: Notes,
    depth: nat,
    at: Loc,
    cur: Best,
    u: Seq<u8>,
    w: Seq<u8>,
    v: Seq<u8>,
)
    requires
        supported(t),
        notes.sound(t),
        is_match(t, w),
        present(cur, u + w + v),
    ensures
        present(best_after(t, notes, depth, false, at, cur), u + w + v),
    decreases t, 0int,
{
    let s = u + w + v;
    let d = depth + 1;
    match t {
        Tree::Repetition { min, sub, .. } => if min == 0 {
            lemma_zero(*sub, notes.subs[0], d, star_loc(at), cur);
        } else {
            assert(read_match(t, Direction::Forward, w));
            let parts = lemma_repetition_to_parts(t, Direction::Forward, w);
            assert(read_match(*sub, Direction::Forward, parts[0]));
            lemma_join_split(parts, 1);
            assert(join(parts.take(1).drop_last()) =~= seq![]);
            assert(join(parts.take(1)) =~= parts[0]);
            let rest = join(parts.skip(1)) + v;
            assert(s =~= u + parts[0] + rest);
            lemma_best_present(*sub, notes.subs[0], d, at, cur, u, parts[0], rest);
            let inner = best_after(*sub, notes.subs[0], d, false, at, cur);
            lemma_offer_present(inner, t, notes, depth, at, u, w, v);
        },
        Tree::Capture(sub) => {
            lemma_best_present(*sub, notes.subs[0], d, at, cur, u, w, v);
            let inner = best_after(*sub, notes.subs[0], d, false, at, cur);
            lemma_offer_present(inner, t, notes, depth, at, u, w, v);
        },
        Tree::Concat(es) => {
            assert(read_match(t, Direction::Forward, w));
            let parts = lemma_concat_to_parts(es, Direction::Forward, w);
            assert forall|i: int| 0 <= i < es.len() implies is_match(
                es[i],
                #[trigger] parts[i],
            ) by {
                assert(read_match(es[i], Direction::Forward, parts[i]));
            }
            let n = es.len() as int;
            lemma_concat_present(es, notes, d, at, cur, n, u, parts, v);
            let inner = concat_best(es, notes.subs, d, false, at, cur, n);
            lemma_offer_present(inner, t, notes, depth, at, u, w, v);
        },
        Tree::Alternation(es) => {
            let j = choose|j: int| 0 <= j < es.len() && is_match(#[trigger] es[j], w);
            let n = es.len() as int;
            let entries = alt_entries(es, notes.subs, d, false, at);
            assert(notes.subs[j].sound(es[j]));
            let loc = alt_loc(es, at, j);
            lemma_best_present(es[j], notes.subs[j], d, loc, no_atoms(), u, w, v);
            let m = merged(entries, n);
            assert(present(m, s)) by {
                if m.atoms.len() > 0 {
                    lemma_merged_all(entries, n);
                    let list = entries[j].atoms;
                    let (i, p) = choose|i: int, p: int|
                        0 <= i < list.len() && 0 <= p <= s.len() && (
                        #[trigger] list[i]).atom.bytes.is_prefix_of(#[trigger] s.skip(p));
                    assert(m.atoms.contains(entries[j].atoms[i]));
                    let k = choose|k: int| 0 <= k < m.atoms.len() && m.atoms[k] == list[i];
                    assert(m.atoms[k].atom.bytes.is_prefix_of(s.skip(p)));
                }
            }
            lemma_offer_present(better(cur, m), t, notes, depth, at, u, w, v);
        },
        _ => lemma_offer_present(cur, t, notes, depth, at, u, w, v),
    }
}

proof fn lemma_concat_present(
    es: Seq<Tree>,
    notes: Notes,
    depth: nat,
    at: Loc,
    cur: Best,
    k: int,
    u: Seq<u8>,
    parts: Seq<Seq<u8>>,
    v: Seq<u8>,
)
    requires
        supported(Tree::Concat(es)),
        notes.sound(Tree::Concat(es)),
        parts.len() == es.len(),
        forall|i: int| 0 <= i < es.len() ==> is_match(es[i], #[trigger] parts[i]),
        present(cur, u + join(parts) + v),
        0 <= k <= es.len(),
    ensures
        present(concat_best(es, notes.subs, depth, false, at, cur, k), u + join(parts) + v),
    decreases es, k,
{
    if k > 0 {
        lemma_concat_present(es, notes, depth, at, cur, k - 1, u, parts, v);
        let i = k - 1;
        let before = u + join(parts.take(i));
        let after = join(parts.skip(i + 1)) + v;
        lemma_join_split(parts, i + 1);
        assert(parts.take(i + 1).drop_last() =~= parts.take(i));
        assert(u + join(parts) + v =~= before + parts[i] + after);
        assert(notes.subs[i].sound(es[i]));
        assert(is_match(es[i], parts[i]));
        lemma_best_present(
            es[i],
            notes.subs[i],
            depth,
            concat_loc(es, at, i),
            concat_best(es, notes.subs, depth, false, at, cur, i),
            before,
            parts[i],
            after,
        );
    }
}

/// No match escapes the chosen atoms: if there are any, one of them occurs in
/// every match.
pub proof fn lemma_atoms_present(t: Tree, notes: Notes, s: Seq<u8>)
    requires
        supported(t),
        notes.sound(t),
        chosen_atoms(t, notes).len() > 0,
        is_match(t, s),
    ensures
        exists|i: int, p: int|
            0 <= i < chosen_atoms(t, notes).len() && 0 <= p <= s.len() && (
            #[trigger] chosen_atoms(t, notes)[i]).atom.bytes.is_prefix_of(#[trigger] s.skip(p)),
{
    let at = Loc { fwd: 0, seq: 0, bck: 0 };
    let cur = Best { quality: i32::MIN as int, atoms: seq![] };
    let none = Seq::<u8>::empty();
    assert(none + s + none =~= s);
    lemma_best_present(t, notes, 1, at, cur, none, s, none);
    assert(holds_one_of(s, chosen_atoms(t, notes)));
}

} // verus!
