//! How the atoms of an expression come from those of its parts.

use vstd::prelude::*;

use crate::atoms::{
    best_atom, last_start, lemma_best_start, quality, window, AtomModel, DESIRED_ATOM_SIZE,
};
use crate::choice::{lemma_min_quality, lemma_zero};
use crate::code::{code, supported, Direction};
use crate::expr::{Notes, Tree};
use crate::instr::literal_code;
use crate::quality::{lemma_best_atom, lemma_longer_is_better};
use crate::select::{
    alt_entries, alt_loc, best_after, better, chosen_atoms, chosen_best, concat_best, concat_loc,
    merged, min_quality, star_loc, Best, Loc, PlacedAtom,
};

verus! {

/// The atoms of several lists, one list after the other.
pub open spec fn all_atoms(lists: Seq<Best>) -> Seq<PlacedAtom> {
    Seq::new(lists.len(), |i: int| lists[i].atoms).flatten_alt()
}

/// If each of the lists has atoms, joining them gives all the atoms, in their order;
/// if one has none, it gives none. The joined list is as good as the worst.
pub proof fn lemma_merged_joins(entries: Seq<Best>, k: int)
    requires
        0 < k <= entries.len(),
    ensures
        (forall|i: int| 0 <= i < k ==> (#[trigger] entries[i]).atoms.len() > 0) ==> merged(
            entries,
            k,
        ).atoms == all_atoms(entries.take(k)),
        (exists|i: int| 0 <= i < k && (#[trigger] entries[i]).atoms.len() == 0) ==> merged(
            entries,
            k,
        ).atoms.len() == 0,
        forall|i: int|
            0 <= i < k ==> merged(entries, k).quality <= (#[trigger] entries[i]).quality,
        exists|i: int|
            0 <= i < k && merged(entries, k).quality == (#[trigger] entries[i]).quality,
    decreases k,
{
    let lists = |n: int| Seq::new(n as nat, |i: int| entries.take(n)[i].atoms);
    let m = merged(entries, k);
    if k == 1 {
        assert(entries[0].quality == m.quality);
        assert(lists(1).drop_last() =~= seq![]);
        assert(lists(1).drop_last().flatten_alt() =~= seq![]);
        assert(all_atoms(entries.take(1)) =~= entries[0].atoms);
    } else {
        lemma_merged_joins(entries, k - 1);
        let before = merged(entries, k - 1);
        let last = entries[k - 1];
        let j = choose|j: int|
            0 <= j < k - 1 && before.quality == (#[trigger] entries[j]).quality;
        if last.quality < before.quality {
            assert(m.quality == entries[k - 1].quality);
        } else {
            assert(m.quality == entries[j].quality);
        }
        assert(lists(k).drop_last() =~= lists(k - 1));
        assert(lists(k).last() == last.atoms);
        if forall|i: int| 0 <= i < k ==> (#[trigger] entries[i]).atoms.len() > 0 {
            lemma_all_atoms_len(entries.take(k - 1), 0);
            assert(last.atoms.len() > 0);
        } else {
            let i = choose|i: int| 0 <= i < k && (#[trigger] entries[i]).atoms.len() == 0;
            if i < k - 1 {
                assert(before.atoms.len() == 0);
            }
        }
    }
}

/// Each list is part of all the atoms.
pub proof fn lemma_all_atoms_len(lists: Seq<Best>, i: int)
    requires
        0 <= i < lists.len(),
    ensures
        lists[i].atoms.len() <= all_atoms(lists).len(),
        forall|j: int|
            0 <= j < lists[i].atoms.len() ==> all_atoms(lists).contains(
                #[trigger] lists[i].atoms[j],
            ),
    decreases lists.len(),
{
    let s = Seq::new(lists.len(), |k: int| lists[k].atoms);
    let before = lists.drop_last();
    assert(s.drop_last() =~= Seq::new(before.len(), |k: int| before[k].atoms));
    let all = all_atoms(lists);
    assert(all == all_atoms(before) + lists.last().atoms);
    if i < lists.len() - 1 {
        lemma_all_atoms_len(before, i);
    }
    assert forall|j: int| 0 <= j < lists[i].atoms.len() implies all.contains(
        #[trigger] lists[i].atoms[j],
    ) by {
        let a = lists[i].atoms[j];
        if i < lists.len() - 1 {
            assert(all_atoms(before).contains(before[i].atoms[j]));
            let n = choose|n: int| 0 <= n < all_atoms(before).len() && all_atoms(before)[n] == a;
            assert(all[n] == a);
        } else {
            assert(all[all_atoms(before).len() + j] == a);
        }
    }
}

/// How many atoms the lists have together.
pub open spec fn total_len(lists: Seq<Best>) -> nat
    decreases lists.len(),
{
    if lists.len() == 0 {
        0
    } else {
        total_len(lists.drop_last()) + lists.last().atoms.len()
    }
}

proof fn lemma_total_len(lists: Seq<Best>)
    ensures
        all_atoms(lists).len() == total_len(lists),
    decreases lists.len(),
{
    let s = Seq::new(lists.len(), |k: int| lists[k].atoms);
    if lists.len() > 0 {
        let before = lists.drop_last();
        assert(s.drop_last() =~= Seq::new(before.len(), |k: int| before[k].atoms));
        lemma_total_len(before);
    }
}

/// If each of the lists has atoms, joining them loses none: there are as many as in all
/// the lists, and every one of them is there.
pub proof fn lemma_merged_loses_none(entries: Seq<Best>, k: int)
    requires
        0 < k <= entries.len(),
        forall|i: int| 0 <= i < k ==> (#[trigger] entries[i]).atoms.len() > 0,
    ensures
        merged(entries, k).atoms.len() == total_len(entries.take(k)),
        merged(entries, k).atoms.len() > 0,
        forall|i: int, j: int|
            0 <= i < k && 0 <= j < entries[i].atoms.len() ==> merged(entries, k).atoms.contains(
                #[trigger] entries[i].atoms[j],
            ),
{
    let lists = entries.take(k);
    lemma_merged_joins(entries, k);
    lemma_total_len(lists);
    lemma_all_atoms_len(lists, 0);
    assert(entries[0].atoms.len() > 0);
    assert forall|i: int, j: int|
        0 <= i < k && 0 <= j < entries[i].atoms.len() implies merged(entries, k).atoms.contains(
        #[trigger] entries[i].atoms[j],
    ) by {
        lemma_all_atoms_len(lists, i);
        assert(all_atoms(lists).contains(lists[i].atoms[j]));
    }
}

/// What an expression finds replaces the best atoms before it if and only if it is
/// better. Otherwise they stay as they are: of equally good lists the first is kept.
pub proof fn lemma_first_best_is_kept(
    t: Tree,
    notes: Notes,
    depth: nat,
    zero: bool,
    at: Loc,
    low: Best,
    cur: Best,
)
    requires
        low.quality <= cur.quality,
    ensures
        ({
            let found = best_after(t, notes, depth, zero, at, low);
            best_after(t, notes, depth, zero, at, cur) == if found.quality > cur.quality {
                found
            } else {
                cur
            }
        }),
    decreases t, 0int,
{
    let d = depth + 1;
    match t {
        Tree::Repetition { min, sub, .. } => if min == 0 {
            lemma_first_best_is_kept(
                *sub,
                notes.subs[0],
                d,
                true,
                star_loc(at),
                low,
                cur,
            );
        } else {
            lemma_first_best_is_kept(*sub, notes.subs[0], d, zero, at, low, cur);
            lemma_first_best_is_kept(*sub, notes.subs[0], d, zero, at, low, low);
        },
        Tree::Capture(sub) => {
            lemma_first_best_is_kept(*sub, notes.subs[0], d, zero, at, low, cur);
            lemma_first_best_is_kept(*sub, notes.subs[0], d, zero, at, low, low);
        },
        Tree::Concat(es) => {
            let n = es.len() as int;
            lemma_concat_first_best(es, notes.subs, d, zero, at, low, cur, n);
            lemma_concat_first_best(es, notes.subs, d, zero, at, low, low, n);
        },
        _ => {},
    }
}

proof fn lemma_concat_first_best(
    es: Seq<Tree>,
    notes: Seq<Notes>,
    depth: nat,
    zero: bool,
    at: Loc,
    low: Best,
    cur: Best,
    k: int,
)
    requires
        low.quality <= cur.quality,
        0 <= k <= es.len(),
    ensures
        ({
            let found = concat_best(es, notes, depth, zero, at, low, k);
            &&& low.quality <= found.quality
            &&& concat_best(es, notes, depth, zero, at, cur, k) == if found.quality
                > cur.quality {
                found
            } else {
                cur
            }
        }),
    decreases es, k,
{
    if k > 0 {
        lemma_concat_first_best(es, notes, depth, zero, at, low, cur, k - 1);
        let e = es[k - 1];
        let note = notes[k - 1];
        let loc = concat_loc(es, at, k - 1);
        let x1 = concat_best(es, notes, depth, zero, at, low, k - 1);
        let x2 = concat_best(es, notes, depth, zero, at, cur, k - 1);
        lemma_first_best_is_kept(e, note, depth, zero, loc, x1, x2);
        lemma_first_best_is_kept(e, note, depth, zero, loc, x1, x1);
    }
}

/// The atoms of `e*` are looked for in `e`, where none is taken: the best atoms stay
/// as they are, unless they are worse than nothing.
pub proof fn lemma_star_choice(
    t: Tree,
    notes: Notes,
    depth: nat,
    zero: bool,
    at: Loc,
    cur: Best,
)
    requires
        supported(t),
        t is Repetition,
        t->min == 0,
    ensures
        ({
            let new = best_after(t, notes, depth, zero, at, cur);
            &&& new == best_after(
                *t->sub,
                notes.subs[0],
                depth + 1,
                true,
                Loc { fwd: at.fwd + 4, seq: at.seq, bck: at.bck + 4 },
                cur,
            )
            &&& cur.quality >= 0 ==> new == cur
            &&& new == cur || new == (Best { quality: 0, atoms: seq![] })
        }),
{
    let loc = star_loc(at);
    lemma_zero(*t->sub, notes.subs[0], depth + 1, loc, cur);
    lemma_first_best_is_kept(*t->sub, notes.subs[0], depth + 1, true, loc, cur, cur);
}

/// Within an expression that may repeat zero times no atoms are taken: the best
/// atoms stay as they are, unless they are worse than nothing.
pub proof fn lemma_nothing_taken(t: Tree, notes: Notes, depth: nat, at: Loc, cur: Best)
    requires
        supported(t),
    ensures
        ({
            let new = best_after(t, notes, depth, true, at, cur);
            &&& cur.quality >= 0 ==> new == cur
            &&& new == cur || new == (Best { quality: 0, atoms: seq![] })
            &&& t is Literal || t is Class ==> new == cur
        }),
{
    lemma_zero(t, notes, depth, at, cur);
    lemma_first_best_is_kept(t, notes, depth, true, at, cur, cur);
}

/// A group, or `e+`, from which no atoms were extracted has those of what is in it.
pub proof fn lemma_wrapped_choice(
    t: Tree,
    sub: Tree,
    notes: Notes,
    depth: nat,
    zero: bool,
    at: Loc,
    cur: Best,
)
    requires
        notes.atoms is None,
        t == Tree::Capture(Box::new(sub)) || t is Repetition && t->min > 0 && *t->sub == sub,
    ensures
        best_after(t, notes, depth, zero, at, cur) == best_after(
            sub,
            notes.subs[0],
            depth + 1,
            zero,
            at,
            cur,
        ),
{
}

/// A concatenation from which no atoms were extracted has the atoms of the first of
/// its best parts, if they are better than the best ones so far.
pub proof fn lemma_concat_choice(
    es: Seq<Tree>,
    notes: Notes,
    depth: nat,
    zero: bool,
    at: Loc,
    cur: Best,
)
    requires
        notes.atoms is None,
    ensures
        ({
            let new = best_after(Tree::Concat(es), notes, depth, zero, at, cur);
            let part = |i: int|
                best_after(
                    es[i],
                    notes.subs[i],
                    depth + 1,
                    zero,
                    concat_loc(es, at, i),
                    cur,
                );
            &&& forall|i: int| 0 <= i < es.len() ==> (#[trigger] part(i)).quality <= new.quality
            &&& new == cur || exists|i: int|
                {
                    &&& 0 <= i < es.len()
                    &&& new == #[trigger] part(i)
                    &&& new.quality > cur.quality
                    &&& forall|j: int| 0 <= j < i ==> (#[trigger] part(j)).quality < new.quality
                }
        }),
{
    lemma_concat_choice_upto(es, notes, depth, zero, at, cur, es.len() as int);
}

proof fn lemma_concat_choice_upto(
    es: Seq<Tree>,
    notes: Notes,
    depth: nat,
    zero: bool,
    at: Loc,
    cur: Best,
    k: int,
)
    requires
        0 <= k <= es.len(),
    ensures
        ({
            let new = concat_best(es, notes.subs, depth + 1, zero, at, cur, k);
            let part = |i: int|
                best_after(
                    es[i],
                    notes.subs[i],
                    depth + 1,
                    zero,
                    concat_loc(es, at, i),
                    cur,
                );
            &&& cur.quality <= new.quality
            &&& forall|i: int| 0 <= i < k ==> (#[trigger] part(i)).quality <= new.quality
            &&& new == cur || exists|i: int|
                {
                    &&& 0 <= i < k
                    &&& new == #[trigger] part(i)
                    &&& new.quality > cur.quality
                    &&& forall|j: int| 0 <= j < i ==> (#[trigger] part(j)).quality < new.quality
                }
        }),
    decreases k,
{
    if k > 0 {
        lemma_concat_choice_upto(es, notes, depth, zero, at, cur, k - 1);
        let part = |i: int|
            best_after(es[i], notes.subs[i], depth + 1, zero, concat_loc(es, at, i), cur);
        let before = concat_best(es, notes.subs, depth + 1, zero, at, cur, k - 1);
        let new = concat_best(es, notes.subs, depth + 1, zero, at, cur, k);
        let loc = concat_loc(es, at, k - 1);
        lemma_first_best_is_kept(
            es[k - 1],
            notes.subs[k - 1],
            depth + 1,
            zero,
            loc,
            cur,
            before,
        );
        if part(k - 1).quality > before.quality {
            assert(new == part(k - 1));
            assert forall|j: int| 0 <= j < k - 1 implies (#[trigger] part(j)).quality
                < new.quality by {
                assert(part(j).quality <= before.quality);
            }
        } else {
            assert(new == before);
            if new != cur {
                let i = choose|i: int|
                    {
                        &&& 0 <= i < k - 1
                        &&& before == #[trigger] part(i)
                        &&& before.quality > cur.quality
                        &&& forall|j: int|
                            0 <= j < i ==> (#[trigger] part(j)).quality < before.quality
                    };
                assert(new == part(i));
            }
        }
        assert forall|i: int| 0 <= i < k implies (#[trigger] part(i)).quality <= new.quality by {
            if i < k - 1 {
                assert(part(i).quality <= before.quality);
            }
        }
    }
}

/// What each alternative of an alternation finds on its own.
pub open spec fn alternatives(
    es: Seq<Tree>,
    notes: Notes,
    depth: nat,
    zero: bool,
    at: Loc,
) -> Seq<Best> {
    Seq::new(
        es.len(),
        |i: int|
            best_after(
                es[i],
                notes.subs[i],
                depth + 1,
                zero,
                alt_loc(es, at, i),
                Best { quality: 0, atoms: seq![] },
            ),
    )
}

/// An alternation from which no atoms were extracted has the atoms of all its
/// alternatives, if even the worst of these is better than the best atoms so far;
/// otherwise these stay as they are. If an alternative has no atoms, none are left.
#[verifier::rlimit(40)]
pub proof fn lemma_alternation_choice(
    es: Seq<Tree>,
    notes: Notes,
    depth: nat,
    zero: bool,
    at: Loc,
    cur: Best,
)
    requires
        notes.atoms is None,
        es.len() > 0,
    ensures
        ({
            let new = best_after(Tree::Alternation(es), notes, depth, zero, at, cur);
            let alts = alternatives(es, notes, depth, zero, at);
            if forall|i: int| 0 <= i < es.len() ==> cur.quality < (#[trigger] alts[i]).quality {
                &&& forall|i: int|
                    0 <= i < es.len() ==> new.quality <= (#[trigger] alts[i]).quality
                &&& exists|i: int|
                    0 <= i < es.len() && new.quality == (#[trigger] alts[i]).quality
                &&& new.atoms == if forall|i: int|
                    0 <= i < es.len() ==> (#[trigger] alts[i]).atoms.len() > 0 {
                    all_atoms(alts)
                } else {
                    seq![]
                }
            } else {
                new == cur
            }
        }),
{
    let new = best_after(Tree::Alternation(es), notes, depth, zero, at, cur);
    let alts = alternatives(es, notes, depth, zero, at);
    let n = es.len() as int;
    let entries = alt_entries(es, notes.subs, depth + 1, zero, at);
    assert(entries =~= alts);
    assert(alts.take(n) =~= alts);
    lemma_merged_joins(alts, n);
    let m = merged(alts, n);
    assert(new == better(cur, m));
    let j = choose|j: int| 0 <= j < n && m.quality == (#[trigger] alts[j]).quality;
    if forall|i: int| 0 <= i < es.len() ==> cur.quality < (#[trigger] alts[i]).quality {
        assert(cur.quality < alts[j].quality);
        assert(new == m);
        if !(forall|i: int| 0 <= i < es.len() ==> (#[trigger] alts[i]).atoms.len() > 0) {
            let i = choose|i: int| 0 <= i < n && (#[trigger] alts[i]).atoms.len() == 0;
            assert(new.atoms =~= seq![]);
        }
    } else {
        let i = choose|i: int|
            0 <= i < es.len() && !(cur.quality < (#[trigger] alts[i]).quality);
        assert(m.quality <= alts[i].quality);
    }
}

/// After an alternation the best atoms are no worse than before it, and no worse than
/// those of the alternatives together: than the worst of them.
pub proof fn lemma_alternation_rises(
    es: Seq<Tree>,
    notes: Notes,
    depth: nat,
    zero: bool,
    at: Loc,
    cur: Best,
)
    requires
        es.len() > 0,
    ensures
        ({
            let new = best_after(Tree::Alternation(es), notes, depth, zero, at, cur);
            let alts = alternatives(es, notes, depth, zero, at);
            &&& cur.quality <= new.quality
            &&& merged(
                alt_entries(es, notes.subs, depth + 1, zero, at),
                es.len() as int,
            ).quality <= new.quality
            &&& exists|i: int| 0 <= i < es.len() && (#[trigger] alts[i]).quality <= new.quality
        }),
{
    let alts = alternatives(es, notes, depth, zero, at);
    assert(alt_entries(es, notes.subs, depth + 1, zero, at) =~= alts);
    let n = es.len() as int;
    lemma_merged_joins(alts, n);
    let j = choose|j: int| 0 <= j < n && merged(alts, n).quality == (#[trigger] alts[j]).quality;
    let new = best_after(Tree::Alternation(es), notes, depth, zero, at, cur);
    assert(alts[j].quality <= new.quality);
}

/// The expression without the atoms that were extracted from it as a whole.
pub open spec fn without_own(notes: Notes) -> Notes {
    Notes { atoms: None, subs: notes.subs }
}

/// The atoms that were extracted from an expression as a whole, other than a literal
/// or one that may repeat zero times, are taken if each of them is better than what
/// was found in its parts and before it. They are then found at its start, and only
/// those of the whole expression stay exact.
pub proof fn lemma_own_choice(
    t: Tree,
    notes: Notes,
    atoms: Seq<AtomModel>,
    depth: nat,
    at: Loc,
    cur: Best,
)
    requires
        !(t is Literal),
        !(t is Repetition && t->min == 0),
        notes.atoms == Some(atoms),
    ensures
        ({
            let inner = best_after(t, without_own(notes), depth, false, at, cur);
            let new = best_after(t, notes, depth, false, at, cur);
            if atoms.len() > 0 && forall|i: int|
                0 <= i < atoms.len() ==> inner.quality < quality((#[trigger] atoms[i]).bytes) {
                &&& new.atoms.len() == atoms.len()
                &&& forall|i: int|
                    0 <= i < atoms.len() ==> {
                        let a = #[trigger] new.atoms[i];
                        &&& a.atom.bytes == atoms[i].bytes
                        &&& a.atom.backtrack == atoms[i].backtrack
                        &&& a.atom.exact == (atoms[i].exact && depth == 1)
                        &&& a.loc.fwd == at.fwd
                        &&& a.loc.seq == at.seq
                        &&& a.loc.bck == at.bck + code(t, Direction::Backward).len()
                    }
                &&& forall|i: int|
                    0 <= i < atoms.len() ==> new.quality <= quality((#[trigger] atoms[i]).bytes)
                &&& exists|i: int|
                    0 <= i < atoms.len() && new.quality == quality((#[trigger] atoms[i]).bytes)
            } else {
                new == inner
            }
        }),
{
    let inner = best_after(t, without_own(notes), depth, false, at, cur);
    let new = best_after(t, notes, depth, false, at, cur);
    if atoms.len() > 0 {
        lemma_min_quality(atoms);
        let k = choose|k: int|
            0 <= k < atoms.len() && quality((#[trigger] atoms[k]).bytes)
                == min_quality(atoms);
        if forall|i: int|
            0 <= i < atoms.len() ==> inner.quality < quality((#[trigger] atoms[i]).bytes) {
            assert(inner.quality < quality(atoms[k].bytes));
            assert(new.quality == quality(atoms[k].bytes));
        }
    }
}

/// Without atoms that were extracted from it, or within an expression that may repeat
/// zero times, an expression takes none as a whole.
pub proof fn lemma_nothing_of_its_own(
    t: Tree,
    notes: Notes,
    depth: nat,
    zero: bool,
    at: Loc,
    cur: Best,
)
    requires
        zero || t is Repetition && t->min == 0,
    ensures
        best_after(t, notes, depth, zero, at, cur) == best_after(
            t,
            without_own(notes),
            depth,
            zero,
            at,
            cur,
        ),
        t is Class && zero ==> best_after(t, notes, depth, zero, at, cur) == cur,
{
}

/// A class from which no atoms were extracted leaves the best atoms as they are.
pub proof fn lemma_class_choice(
    t: Tree,
    notes: Notes,
    depth: nat,
    zero: bool,
    at: Loc,
    cur: Best,
)
    requires
        t is Class,
        notes.atoms is None,
    ensures
        best_after(t, notes, depth, zero, at, cur) == cur,
{
}

/// The length of an atom in a literal: four bytes, or as many as there are.
pub open spec fn atom_len(bytes: Seq<u8>) -> int {
    if bytes.len() > 4 { 4 } else { bytes.len() as int }
}

/// The part of a literal that starts at `i` and is as long as an atom.
pub open spec fn part(bytes: Seq<u8>, i: int) -> Seq<u8> {
    bytes.subrange(i, i + atom_len(bytes))
}

/// A literal offers a single atom, whatever was extracted from it: a part of it that
/// is as long as an atom may be and that no other such part is better than, the first
/// of them. The atom is taken if it is better than the best atoms so far. The forward
/// code is then entered where it starts, and the backward code behind it. It is exact
/// if it is the whole expression.
pub proof fn lemma_literal_choice(
    bytes: Seq<u8>,
    notes: Notes,
    depth: nat,
    at: Loc,
    cur: Best,
)
    ensures
        ({
            let t = Tree::Literal(bytes);
            let new = best_after(t, notes, depth, false, at, cur);
            let n = atom_len(bytes);
            if exists|i: int| 0 <= i <= bytes.len() - n && cur.quality < quality(
                #[trigger] part(bytes, i),
            ) {
                exists|k: int|
                    {
                        &&& 0 <= k <= bytes.len() - n
                        &&& new.quality == quality(#[trigger] part(bytes, k))
                        &&& forall|i: int|
                            0 <= i <= bytes.len() - n ==> quality(#[trigger] part(bytes, i))
                                <= new.quality
                        &&& forall|i: int|
                            0 <= i < k ==> quality(#[trigger] part(bytes, i)) < new.quality
                        &&& new.atoms.len() == 1
                        &&& new.atoms[0].atom.bytes == part(bytes, k)
                        &&& new.atoms[0].atom.exact == (n == bytes.len() && depth == 1)
                        &&& new.atoms[0].atom.backtrack == 0
                        &&& new.atoms[0].loc.seq == at.seq
                        &&& new.atoms[0].loc.fwd == at.fwd + literal_code(bytes.take(k)).len()
                        &&& new.atoms[0].loc.bck == at.bck + code(t, Direction::Backward).len()
                            - literal_code(bytes.take(k)).len()
                    }
            } else {
                new == cur
            }
        }),
{
    let t = Tree::Literal(bytes);
    let new = best_after(t, notes, depth, false, at, cur);
    let n = atom_len(bytes);
    let size = DESIRED_ATOM_SIZE as int;
    let a = best_atom(bytes, size);
    let k = a.backtrack;
    lemma_best_atom(bytes, size);
    assert(a.bytes == part(bytes, k));
    assert forall|i: int| 0 <= i <= bytes.len() - n implies quality(#[trigger] part(bytes, i))
        <= quality(a.bytes) && (i < k ==> quality(part(bytes, i)) < quality(a.bytes)) by {
        lemma_best_start(bytes, size, last_start(bytes, size));
        assert(part(bytes, i) == window(bytes, size, i));
    }
    if exists|i: int| 0 <= i <= bytes.len() - n && cur.quality < quality(
        #[trigger] part(bytes, i),
    ) {
        let i = choose|i: int| 0 <= i <= bytes.len() - n && cur.quality < quality(
            #[trigger] part(bytes, i),
        );
        assert(quality(part(bytes, i)) <= quality(a.bytes));
        assert(new.quality == quality(part(bytes, k)));
        assert(new.atoms[0].atom.bytes == part(bytes, k));
    } else {
        assert(!(cur.quality < quality(part(bytes, k))));
    }
}

/// The atoms that an expression is searched by are the best ones after it where there
/// are none before it, and its code is all there is.
pub proof fn lemma_chosen(t: Tree, notes: Notes)
    ensures
        chosen_best(t, notes) == best_after(
            t,
            notes,
            1,
            false,
            Loc { fwd: 0, seq: 0, bck: 0 },
            Best { quality: i32::MIN as int, atoms: seq![] },
        ),
        chosen_atoms(t, notes) == chosen_best(t, notes).atoms,
{
}

/// There are atoms, none of them worse than `q`, one of which every match needs:
/// those of an expression as a whole, or those of a part that cannot be left out. All
/// alternatives of an alternation have to have such atoms.
pub open spec fn has_atoms(t: Tree, notes: Notes, q: int) -> bool
    decreases t,
{
    match t {
        Tree::Literal(bytes) => exists|i: int|
            0 <= i <= bytes.len() - atom_len(bytes) && q <= quality(#[trigger] part(bytes, i)),
        Tree::Repetition { min, sub, .. } => min > 0 && (whole_has_atoms(notes, q) || has_atoms(
            *sub,
            notes.subs[0],
            q,
        )),
        Tree::Capture(sub) => whole_has_atoms(notes, q) || has_atoms(*sub, notes.subs[0], q),
        Tree::Concat(es) => whole_has_atoms(notes, q) || exists|i: int|
            0 <= i < es.len() && has_atoms(#[trigger] es[i], notes.subs[i], q),
        Tree::Alternation(es) => whole_has_atoms(notes, q) || forall|i: int|
            0 <= i < es.len() ==> has_atoms(#[trigger] es[i], notes.subs[i], q),
        _ => whole_has_atoms(notes, q),
    }
}

/// Atoms were extracted from the expression as a whole, none of them worse than `q`.
pub open spec fn whole_has_atoms(notes: Notes, q: int) -> bool {
    notes.atoms matches Some(atoms) && atoms.len() > 0 && forall|i: int|
        0 <= i < atoms.len() ==> q <= quality((#[trigger] atoms[i]).bytes)
}

/// There are atoms where the quality is not 0.
pub open spec fn rated(best: Best) -> bool {
    best.quality > 0 ==> best.atoms.len() > 0
}

proof fn lemma_best_reaches(
    t: Tree,
    notes: Notes,
    depth: nat,
    at: Loc,
    cur: Best,
    q: int,
)
    requires
        supported(t),
        q > 0,
        rated(cur),
    ensures
        ({
            let new = best_after(t, notes, depth, false, at, cur);
            &&& q <= new.quality <==> q <= cur.quality || has_atoms(t, notes, q)
            &&& rated(new)
        }),
    decreases t, 0int,
{
    let d = depth + 1;
    let new = best_after(t, notes, depth, false, at, cur);
    if let Tree::Literal(bytes) = t {
        lemma_literal_reaches(bytes, notes, depth, at, cur, q);
    } else if t is Repetition && t->min == 0 {
        lemma_zero(*t->sub, notes.subs[0], d, star_loc(at), cur);
        lemma_first_best_is_kept(t, notes, depth, false, at, cur, cur);
    } else {
        let bare = without_own(notes);
        let inner = best_after(t, bare, depth, false, at, cur);
        match t {
            Tree::Repetition { sub, .. } => {
                lemma_best_reaches(*sub, notes.subs[0], d, at, cur, q);
                lemma_wrapped_choice(t, *sub, bare, depth, false, at, cur);
            },
            Tree::Capture(sub) => {
                lemma_best_reaches(*sub, notes.subs[0], d, at, cur, q);
                lemma_wrapped_choice(t, *sub, bare, depth, false, at, cur);
            },
            Tree::Concat(es) => {
                lemma_concat_reaches(es, notes.subs, d, at, cur, q, es.len() as int);
            },
            Tree::Alternation(es) => {
                lemma_alternation_reaches(es, notes, depth, at, cur, q);
            },
            _ => {},
        }
        lemma_first_best_is_kept(t, bare, depth, false, at, cur, cur);
        if let Some(atoms) = notes.atoms {
            lemma_own_choice(t, notes, atoms, depth, at, cur);
            lemma_own_reaches(inner, new, notes, atoms, q);
        } else {
            assert(notes =~= bare);
        }
    }
}

proof fn lemma_own_reaches(inner: Best, new: Best, notes: Notes, atoms: Seq<AtomModel>, q: int)
    requires
        notes.atoms == Some(atoms),
        if atoms.len() > 0 && forall|i: int|
            0 <= i < atoms.len() ==> inner.quality < quality((#[trigger] atoms[i]).bytes) {
            &&& forall|i: int|
                0 <= i < atoms.len() ==> new.quality <= quality((#[trigger] atoms[i]).bytes)
            &&& exists|i: int|
                0 <= i < atoms.len() && new.quality == quality((#[trigger] atoms[i]).bytes)
        } else {
            new == inner
        },
    ensures
        q <= new.quality <==> q <= inner.quality || whole_has_atoms(notes, q),
{
    if atoms.len() > 0 {
        if forall|i: int|
            0 <= i < atoms.len() ==> inner.quality < quality((#[trigger] atoms[i]).bytes) {
            let k = choose|k: int|
                0 <= k < atoms.len() && new.quality == quality((#[trigger] atoms[k]).bytes);
            assert(inner.quality < quality(atoms[k].bytes));
        } else {
            let k = choose|k: int|
                0 <= k < atoms.len() && !(inner.quality < quality((#[trigger] atoms[k]).bytes));
            if whole_has_atoms(notes, q) {
                assert(q <= quality(atoms[k].bytes));
            }
        }
    }
}

proof fn lemma_literal_reaches(
    bytes: Seq<u8>,
    notes: Notes,
    depth: nat,
    at: Loc,
    cur: Best,
    q: int,
)
    requires
        rated(cur),
    ensures
        ({
            let t = Tree::Literal(bytes);
            let new = best_after(t, notes, depth, false, at, cur);
            &&& q <= new.quality <==> q <= cur.quality || has_atoms(t, notes, q)
            &&& rated(new)
        }),
{
    let t = Tree::Literal(bytes);
    let new = best_after(t, notes, depth, false, at, cur);
    let size = DESIRED_ATOM_SIZE as int;
    lemma_best_atom(bytes, size);
    let a = best_atom(bytes, size);
    assert(new.quality == if quality(a.bytes) > cur.quality {
        quality(a.bytes)
    } else {
        cur.quality
    });
    if has_atoms(t, notes, q) {
        let i = choose|i: int|
            0 <= i <= bytes.len() - atom_len(bytes) && q <= quality(#[trigger] part(bytes, i));
        lemma_best_start(bytes, size, last_start(bytes, size));
        assert(part(bytes, i) == window(bytes, size, i));
    }
    if q <= quality(a.bytes) {
        let k = a.backtrack;
        assert(q <= quality(part(bytes, k)));
        assert(has_atoms(t, notes, q));
    }
}

proof fn lemma_concat_reaches(
    es: Seq<Tree>,
    notes: Seq<Notes>,
    depth: nat,
    at: Loc,
    cur: Best,
    q: int,
    k: int,
)
    requires
        forall|i: int| 0 <= i < es.len() ==> supported(#[trigger] es[i]),
        q > 0,
        rated(cur),
        0 <= k <= es.len(),
    ensures
        ({
            let new = concat_best(es, notes, depth, false, at, cur, k);
            &&& q <= new.quality <==> q <= cur.quality || exists|i: int|
                0 <= i < k && has_atoms(#[trigger] es[i], notes[i], q)
            &&& rated(new)
        }),
    decreases es, k,
{
    if k > 0 {
        lemma_concat_reaches(es, notes, depth, at, cur, q, k - 1);
        let before = concat_best(es, notes, depth, false, at, cur, k - 1);
        let loc = concat_loc(es, at, k - 1);
        lemma_best_reaches(es[k - 1], notes[k - 1], depth, loc, before, q);
        if exists|i: int| 0 <= i < k && has_atoms(#[trigger] es[i], notes[i], q) {
            let i = choose|i: int| 0 <= i < k && has_atoms(#[trigger] es[i], notes[i], q);
            if i < k - 1 {
                assert(has_atoms(es[i], notes[i], q));
            }
        }
    }
}

proof fn lemma_alternation_reaches(
    es: Seq<Tree>,
    notes: Notes,
    depth: nat,
    at: Loc,
    cur: Best,
    q: int,
)
    requires
        supported(Tree::Alternation(es)),
        q > 0,
        rated(cur),
    ensures
        ({
            let new = best_after(
                Tree::Alternation(es),
                without_own(notes),
                depth,
                false,
                at,
                cur,
            );
            &&& q <= new.quality <==> q <= cur.quality || forall|i: int|
                0 <= i < es.len() ==> has_atoms(#[trigger] es[i], notes.subs[i], q)
            &&& rated(new)
        }),
    decreases es, 0int,
{
    let bare = without_own(notes);
    let alts = alternatives(es, bare, depth, false, at);
    let base = Best { quality: 0, atoms: seq![] };
    assert forall|i: int| 0 <= i < es.len() implies (q <= (#[trigger] alts[i]).quality
        <==> has_atoms(es[i], notes.subs[i], q)) && rated(alts[i]) && alts[i].quality >= 0 by {
        let loc = alt_loc(es, at, i);
        lemma_best_reaches(es[i], notes.subs[i], depth + 1, loc, base, q);
        lemma_first_best_is_kept(es[i], notes.subs[i], depth + 1, false, loc, base, base);
    }
    lemma_alternation_choice(es, bare, depth, false, at, cur);
    let new = best_after(Tree::Alternation(es), bare, depth, false, at, cur);
    let all = forall|i: int|
        0 <= i < es.len() ==> has_atoms(#[trigger] es[i], notes.subs[i], q);
    if forall|i: int| 0 <= i < es.len() ==> cur.quality < (#[trigger] alts[i]).quality {
        let k = choose|k: int| 0 <= k < es.len() && new.quality == (#[trigger] alts[k]).quality;
        assert(cur.quality < alts[k].quality);
        if all {
            assert(has_atoms(es[k], notes.subs[k], q));
        }
        if q <= new.quality {
            assert forall|i: int| 0 <= i < es.len() implies has_atoms(
                #[trigger] es[i],
                notes.subs[i],
                q,
            ) by {
                assert(new.quality <= alts[i].quality);
            }
        }
        if new.quality > 0 {
            assert forall|i: int| 0 <= i < es.len() implies (#[trigger] alts[i]).atoms.len()
                > 0 by {
                assert(new.quality <= alts[i].quality);
            }
            lemma_all_atoms_len(alts, 0);
        }
    } else {
        let k = choose|k: int|
            0 <= k < es.len() && !(cur.quality < (#[trigger] alts[k]).quality);
        if all {
            assert(has_atoms(es[k], notes.subs[k], q));
            assert(q <= alts[k].quality);
        }
    }
}

/// The chosen atoms are the best there are: they are as good as `q` if and only if the
/// expression has atoms that every match needs and that are as good as that. Where
/// there are such atoms, some are chosen.
pub proof fn lemma_chosen_are_best(t: Tree, notes: Notes, q: int)
    requires
        supported(t),
        q > 0,
    ensures
        q <= chosen_best(t, notes).quality <==> has_atoms(t, notes, q),
        has_atoms(t, notes, q) ==> chosen_atoms(t, notes).len() > 0,
{
    lemma_best_reaches(
        t,
        notes,
        1,
        Loc { fwd: 0, seq: 0, bck: 0 },
        Best { quality: i32::MIN as int, atoms: seq![] },
        q,
    );
}

/// Every match needs one of several literals that are not empty.
pub open spec fn needs_literal(t: Tree) -> bool
    decreases t,
{
    match t {
        Tree::Literal(bytes) => bytes.len() > 0,
        Tree::Repetition { min, sub, .. } => min > 0 && needs_literal(*sub),
        Tree::Capture(sub) => needs_literal(*sub),
        Tree::Concat(es) => exists|i: int| 0 <= i < es.len() && needs_literal(#[trigger] es[i]),
        Tree::Alternation(es) => forall|i: int|
            0 <= i < es.len() ==> needs_literal(#[trigger] es[i]),
        _ => false,
    }
}

proof fn lemma_literal_has_atoms(t: Tree, notes: Notes)
    requires
        needs_literal(t),
    ensures
        has_atoms(t, notes, 1),
    decreases t,
{
    match t {
        Tree::Literal(bytes) => {
            lemma_longer_is_better(part(bytes, 0), 0);
            assert(1 <= quality(part(bytes, 0)));
        },
        Tree::Repetition { sub, .. } => lemma_literal_has_atoms(*sub, notes.subs[0]),
        Tree::Capture(sub) => lemma_literal_has_atoms(*sub, notes.subs[0]),
        Tree::Concat(es) => {
            let i = choose|i: int| 0 <= i < es.len() && needs_literal(#[trigger] es[i]);
            lemma_literal_has_atoms(es[i], notes.subs[i]);
        },
        Tree::Alternation(es) => {
            assert forall|i: int| 0 <= i < es.len() implies has_atoms(
                #[trigger] es[i],
                notes.subs[i],
                1,
            ) by {
                lemma_literal_has_atoms(es[i], notes.subs[i]);
            }
        },
        _ => {},
    }
}

/// An expression every match of which needs a literal has atoms.
pub proof fn lemma_literals_give_atoms(t: Tree, notes: Notes)
    requires
        supported(t),
        needs_literal(t),
    ensures
        chosen_atoms(t, notes).len() > 0,
{
    lemma_literal_has_atoms(t, notes);
    lemma_chosen_are_best(t, notes, 1);
}

} // verus!
