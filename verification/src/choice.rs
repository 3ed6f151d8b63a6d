//! What the atoms that an expression is searched by are like.

use vstd::prelude::*;

use crate::atoms::{last_start, lemma_best_start, quality, AtomModel, DESIRED_ATOM_SIZE};
use crate::code::{code, supported, Direction};
use crate::expr::{Notes, Tree};
use crate::language::is_match;
use crate::select::{
    alt_entries, alt_loc, best_after, better, candidates, chosen_atoms, chosen_best, concat_best,
    concat_loc, entry, merged, min_quality, no_atoms, offer, offer_own, star_loc, Best, Loc,
    PlacedAtom,
};
use crate::walk::{lemma_alt_part, lemma_concat_part, lemma_skipped};

verus! {

/// How good the atom is.
pub open spec fn atom_quality(a: PlacedAtom) -> int {
    quality(a.atom.bytes)
}

/// No atom is worse than the list is said to be.
pub open spec fn no_worse(best: Best) -> bool {
    forall|i: int|
        0 <= i < best.atoms.len() ==> best.quality <= atom_quality(#[trigger] best.atoms[i])
}

/// The list is as bad as one of its atoms.
pub open spec fn no_better(best: Best) -> bool {
    exists|i: int|
        0 <= i < best.atoms.len() && atom_quality(#[trigger] best.atoms[i]) <= best.quality
}

/// The list is said to be as good as the worst of its atoms.
pub open spec fn as_said(best: Best) -> bool {
    no_worse(best) && (best.atoms.len() > 0 ==> no_better(best))
}

pub proof fn lemma_min_quality(atoms: Seq<AtomModel>)
    requires
        atoms.len() > 0,
    ensures
        forall|i: int|
            0 <= i < atoms.len() ==> min_quality(atoms) <= quality((#[trigger] atoms[i]).bytes),
        exists|i: int|
            0 <= i < atoms.len() && quality((#[trigger] atoms[i]).bytes) == min_quality(atoms),
    decreases atoms.len(),
{
    if atoms.len() > 1 {
        let before = atoms.drop_last();
        lemma_min_quality(before);
        let i = choose|i: int|
            0 <= i < before.len() && quality((#[trigger] before[i]).bytes) == min_quality(before);
        assert(atoms[i] == before[i]);
        assert forall|k: int| 0 <= k < atoms.len() implies min_quality(atoms) <= quality(
            (#[trigger] atoms[k]).bytes,
        ) by {
            if k < before.len() {
                assert(atoms[k] == before[k]);
            }
        }
    }
    assert(atoms[atoms.len() - 1] == atoms.last());
}

proof fn lemma_offer_quality(cur: Best, atoms: Option<Seq<AtomModel>>, depth: nat, loc: Loc)
    requires
        as_said(cur),
    ensures
        as_said(offer(cur, atoms, depth, loc)),
{
    let new = offer(cur, atoms, depth, loc);
    if let Some(l) = atoms {
        if l.len() > 0 && min_quality(l) > cur.quality {
            lemma_min_quality(l);
            assert forall|i: int| 0 <= i < new.atoms.len() implies new.quality <= atom_quality(
                #[trigger] new.atoms[i],
            ) by {
                assert(min_quality(l) <= quality(l[i].bytes));
            }
            let i = choose|i: int|
                0 <= i < l.len() && quality((#[trigger] l[i]).bytes) == min_quality(l);
            assert(atom_quality(new.atoms[i]) <= new.quality);
        }
    }
}

/// If there are atoms of several alternatives together, each alternative has some,
/// and all of them are there.
pub proof fn lemma_merged_all(entries: Seq<Best>, k: int)
    requires
        0 < k <= entries.len(),
        merged(entries, k).atoms.len() > 0,
    ensures
        forall|i: int| 0 <= i < k ==> (#[trigger] entries[i]).atoms.len() > 0,
        forall|i: int, j: int|
            0 <= i < k && 0 <= j < entries[i].atoms.len() ==> merged(entries, k).atoms.contains(
                #[trigger] entries[i].atoms[j],
            ),
    decreases k,
{
    if k > 1 {
        lemma_merged_all(entries, k - 1);
        let m = merged(entries, k);
        let before = merged(entries, k - 1);
        assert forall|i: int, j: int|
            0 <= i < k && 0 <= j < entries[i].atoms.len() implies m.atoms.contains(
            #[trigger] entries[i].atoms[j],
        ) by {
            let a = entries[i].atoms[j];
            if i < k - 1 {
                assert(before.atoms.contains(a));
                let n = choose|n: int| 0 <= n < before.atoms.len() && before.atoms[n] == a;
                assert(m.atoms[n] == a);
            } else {
                assert(m.atoms[before.atoms.len() + j] == a);
            }
        }
    }
}

/// How good the atoms of several alternatives together are.
proof fn lemma_merged_quality(entries: Seq<Best>, k: int)
    requires
        0 < k <= entries.len(),
        forall|i: int| 0 <= i < k ==> as_said(#[trigger] entries[i]),
    ensures
        as_said(merged(entries, k)),
    decreases k,
{
    if k > 1 {
        lemma_merged_quality(entries, k - 1);
        let m = merged(entries, k);
        let before = merged(entries, k - 1);
        let last = entries[k - 1];
        if m.atoms.len() > 0 {
            assert forall|j: int| 0 <= j < m.atoms.len() implies m.quality <= atom_quality(
                #[trigger] m.atoms[j],
            ) by {
                if j < before.atoms.len() {
                    assert(m.atoms[j] == before.atoms[j]);
                } else {
                    assert(m.atoms[j] == last.atoms[j - before.atoms.len()]);
                }
            }
            if last.quality < before.quality {
                let n = choose|n: int|
                    0 <= n < last.atoms.len() && atom_quality(#[trigger] last.atoms[n])
                        <= last.quality;
                assert(m.atoms[before.atoms.len() + n] == last.atoms[n]);
            } else {
                let n = choose|n: int|
                    0 <= n < before.atoms.len() && atom_quality(#[trigger] before.atoms[n])
                        <= before.quality;
                assert(m.atoms[n] == before.atoms[n]);
            }
        }
    }
}

/// How good the best atoms are said to be, whatever they are.
proof fn lemma_best_quality(
    t: Tree,
    notes: Notes,
    depth: nat,
    zero: bool,
    at: Loc,
    cur: Best,
)
    requires
        supported(t),
        as_said(cur),
    ensures
        as_said(best_after(t, notes, depth, zero, at, cur)),
    decreases t, 0int,
{
    let inner = match t {
        Tree::Repetition { min, sub, .. } => if min == 0 {
            lemma_best_quality(*sub, notes.subs[0], depth + 1, true, star_loc(at), cur);
            cur
        } else {
            lemma_best_quality(*sub, notes.subs[0], depth + 1, zero, at, cur);
            best_after(*sub, notes.subs[0], depth + 1, zero, at, cur)
        },
        Tree::Capture(sub) => {
            lemma_best_quality(*sub, notes.subs[0], depth + 1, zero, at, cur);
            best_after(*sub, notes.subs[0], depth + 1, zero, at, cur)
        },
        Tree::Concat(es) => {
            lemma_concat_quality(es, notes.subs, depth + 1, zero, at, cur, es.len() as int);
            concat_best(es, notes.subs, depth + 1, zero, at, cur, es.len() as int)
        },
        Tree::Alternation(es) => {
            lemma_alt_quality(es, notes.subs, depth + 1, zero, at);
            better(cur, merged(alt_entries(es, notes.subs, depth + 1, zero, at), es.len() as int))
        },
        _ => cur,
    };
    lemma_offer_quality(inner, candidates(t, notes.atoms), depth, entry(t, at));
}

proof fn lemma_concat_quality(
    es: Seq<Tree>,
    notes: Seq<Notes>,
    depth: nat,
    zero: bool,
    at: Loc,
    cur: Best,
    k: int,
)
    requires
        0 <= k <= es.len(),
        forall|i: int| 0 <= i < es.len() ==> supported(#[trigger] es[i]),
        as_said(cur),
    ensures
        as_said(concat_best(es, notes, depth, zero, at, cur, k)),
    decreases es, k,
{
    if k > 0 {
        lemma_concat_quality(es, notes, depth, zero, at, cur, k - 1);
        lemma_best_quality(
            es[k - 1],
            notes[k - 1],
            depth,
            zero,
            concat_loc(es, at, k - 1),
            concat_best(es, notes, depth, zero, at, cur, k - 1),
        );
    }
}

proof fn lemma_alt_quality(es: Seq<Tree>, notes: Seq<Notes>, depth: nat, zero: bool, at: Loc)
    requires
        es.len() > 0,
        forall|i: int| 0 <= i < es.len() ==> supported(#[trigger] es[i]),
    ensures
        as_said(merged(alt_entries(es, notes, depth, zero, at), es.len() as int)),
    decreases es, 0int,
{
    let entries = alt_entries(es, notes, depth, zero, at);
    assert forall|i: int| 0 <= i < es.len() implies as_said(#[trigger] entries[i]) by {
        lemma_best_quality(es[i], notes[i], depth, zero, alt_loc(es, at, i), no_atoms());
    }
    lemma_merged_quality(entries, es.len() as int);
}

/// Within an expression that may repeat zero times no atoms are taken.
pub proof fn lemma_zero(t: Tree, notes: Notes, depth: nat, at: Loc, cur: Best)
    requires
        supported(t),
    ensures
        ({
            let new = best_after(t, notes, depth, true, at, cur);
            new == cur || new == no_atoms()
        }),
    decreases t, 0int,
{
    match t {
        Tree::Repetition { min, sub, .. } => if min == 0 {
            lemma_zero(*sub, notes.subs[0], depth + 1, star_loc(at), cur);
        } else {
            lemma_zero(*sub, notes.subs[0], depth + 1, at, cur);
        },
        Tree::Capture(sub) => lemma_zero(*sub, notes.subs[0], depth + 1, at, cur),
        Tree::Concat(es) => {
            lemma_concat_zero(es, notes.subs, depth + 1, at, cur, es.len() as int);
        },
        Tree::Alternation(es) => {
            lemma_alt_zero(es, notes.subs, depth + 1, at, es.len() as int);
        },
        _ => {},
    }
}

proof fn lemma_concat_zero(
    es: Seq<Tree>,
    notes: Seq<Notes>,
    depth: nat,
    at: Loc,
    cur: Best,
    k: int,
)
    requires
        0 <= k <= es.len(),
        forall|i: int| 0 <= i < es.len() ==> supported(#[trigger] es[i]),
    ensures
        ({
            let new = concat_best(es, notes, depth, true, at, cur, k);
            new == cur || new == no_atoms()
        }),
    decreases es, k,
{
    if k > 0 {
        lemma_concat_zero(es, notes, depth, at, cur, k - 1);
        let before = concat_best(es, notes, depth, true, at, cur, k - 1);
        lemma_zero(es[k - 1], notes[k - 1], depth, concat_loc(es, at, k - 1), before);
    }
}

proof fn lemma_alt_zero(es: Seq<Tree>, notes: Seq<Notes>, depth: nat, at: Loc, k: int)
    requires
        0 < k <= es.len(),
        forall|i: int| 0 <= i < es.len() ==> supported(#[trigger] es[i]),
    ensures
        merged(alt_entries(es, notes, depth, true, at), k) == no_atoms(),
    decreases es, k,
{
    let entries = alt_entries(es, notes, depth, true, at);
    lemma_zero(es[k - 1], notes[k - 1], depth, alt_loc(es, at, k - 1), no_atoms());
    assert(entries[k - 1] == no_atoms());
    if k > 1 {
        lemma_alt_zero(es, notes, depth, at, k - 1);
        assert(merged(entries, k).atoms =~= no_atoms().atoms);
    }
}

/// Every atom of the merged entries is one of an entry.
pub proof fn lemma_merged_from(entries: Seq<Best>, k: int, a: PlacedAtom) -> (i: int)
    requires
        0 < k <= entries.len(),
        merged(entries, k).atoms.contains(a),
    ensures
        0 <= i < k,
        entries[i].atoms.contains(a),
    decreases k,
{
    if k == 1 {
        0
    } else {
        let before = merged(entries, k - 1);
        let last = entries[k - 1];
        let m = merged(entries, k);
        let j = choose|j: int| 0 <= j < m.atoms.len() && m.atoms[j] == a;
        if j < before.atoms.len() {
            assert(m.atoms[j] == before.atoms[j]);
            lemma_merged_from(entries, k - 1, a)
        } else {
            assert(last.atoms[j - before.atoms.len()] == a);
            k - 1
        }
    }
}

/// The quality that goes with the chosen atoms is that of the worst of them: none
/// is worse, and one is no better.
pub proof fn lemma_list_quality(t: Tree, notes: Notes)
    requires
        supported(t),
    ensures
        no_worse(chosen_best(t, notes)),
        chosen_atoms(t, notes).len() > 0 ==> no_better(chosen_best(t, notes)),
{
    let at = Loc { fwd: 0, seq: 0, bck: 0 };
    lemma_best_quality(
        t,
        notes,
        1,
        false,
        at,
        Best { quality: i32::MIN as int, atoms: seq![] },
    );
}

/// The best atoms never get worse, and are as good as those that the expression
/// itself offers, unless it may repeat zero times.
pub proof fn lemma_best_rises(
    t: Tree,
    notes: Notes,
    depth: nat,
    zero: bool,
    at: Loc,
    cur: Best,
)
    ensures
        ({
            let new = best_after(t, notes, depth, zero, at, cur);
            &&& cur.quality <= new.quality
            &&& !zero && !(t is Repetition && t->min == 0) ==> (candidates(
                t,
                notes.atoms,
            ) matches Some(atoms) ==> atoms.len() > 0 ==> min_quality(atoms) <= new.quality)
        }),
    decreases t, 0int,
{
    match t {
        Tree::Repetition { min, sub, .. } => if min == 0 {
            lemma_best_rises(*sub, notes.subs[0], depth + 1, true, star_loc(at), cur);
        } else {
            lemma_best_rises(*sub, notes.subs[0], depth + 1, zero, at, cur);
        },
        Tree::Capture(sub) => {
            lemma_best_rises(*sub, notes.subs[0], depth + 1, zero, at, cur);
        },
        Tree::Concat(es) => {
            lemma_concat_rises(es, notes.subs, depth + 1, zero, at, cur, 0, es.len() as int);
        },
        _ => {},
    }
}

/// The best atoms never get worse from one part of a concatenation to a later
/// one.
pub proof fn lemma_concat_rises(
    es: Seq<Tree>,
    notes: Seq<Notes>,
    depth: nat,
    zero: bool,
    at: Loc,
    cur: Best,
    j: int,
    k: int,
)
    requires
        0 <= j <= k <= es.len(),
    ensures
        concat_best(es, notes, depth, zero, at, cur, j).quality <= concat_best(
            es,
            notes,
            depth,
            zero,
            at,
            cur,
            k,
        ).quality,
    decreases es, k,
{
    if j < k {
        lemma_concat_rises(es, notes, depth, zero, at, cur, j, k - 1);
        lemma_best_rises(
            es[k - 1],
            notes[k - 1],
            depth,
            zero,
            concat_loc(es, at, k - 1),
            concat_best(es, notes, depth, zero, at, cur, k - 1),
        );
    }
}

/// The atom was there before; or it is not longer than `limit`, and if it is
/// exact it is a match of the whole expression.
pub open spec fn kept_or_fit(a: PlacedAtom, cur: Best, t: Tree, depth: nat, limit: int) -> bool {
    ||| cur.atoms.contains(a)
    ||| a.atom.bytes.len() <= limit && (a.atom.exact ==> depth == 1 && is_match(t, a.atom.bytes))
}

proof fn lemma_offer_fits(
    base: Best,
    cur: Best,
    t: Tree,
    notes: Notes,
    depth: nat,
    zero: bool,
    at: Loc,
    limit: int,
)
    requires
        notes.sound(t),
        notes.atoms_within(t, limit),
        DESIRED_ATOM_SIZE <= limit,
        forall|i: int|
            0 <= i < cur.atoms.len() ==> kept_or_fit(
                #[trigger] cur.atoms[i],
                base,
                t,
                depth,
                limit,
            ),
    ensures
        ({
            let new = offer_own(cur, t, notes.atoms, depth, zero, at);
            forall|i: int|
                0 <= i < new.atoms.len() ==> kept_or_fit(
                    #[trigger] new.atoms[i],
                    base,
                    t,
                    depth,
                    limit,
                )
        }),
{
    let new = offer_own(cur, t, notes.atoms, depth, zero, at);
    assert forall|i: int| 0 <= i < new.atoms.len() implies kept_or_fit(
        #[trigger] new.atoms[i],
        base,
        t,
        depth,
        limit,
    ) by {
        if new != cur {
            let own = candidates(t, notes.atoms)->0;
            assert(own[i].bytes == new.atoms[i].atom.bytes);
            if let Tree::Literal(bytes) = t {
                let size = DESIRED_ATOM_SIZE as int;
                lemma_best_start(bytes, size, last_start(bytes, size));
                if own[0].exact {
                    assert(own[0].bytes =~= bytes);
                }
            }
        }
    }
}

/// Each of the best atoms after an expression was there before or fits.
proof fn lemma_best_fits(
    t: Tree,
    notes: Notes,
    depth: nat,
    zero: bool,
    at: Loc,
    cur: Best,
    limit: int,
)
    requires
        supported(t),
        notes.sound(t),
        notes.atoms_within(t, limit),
        DESIRED_ATOM_SIZE <= limit,
        depth >= 1,
    ensures
        ({
            let new = best_after(t, notes, depth, zero, at, cur);
            forall|i: int|
                0 <= i < new.atoms.len() ==> kept_or_fit(
                    #[trigger] new.atoms[i],
                    cur,
                    t,
                    depth,
                    limit,
                )
        }),
    decreases t, 0int,
{
    let d = depth + 1;
    let inner = match t {
        Tree::Repetition { min, sub, .. } => if min == 0 {
            lemma_zero(*sub, notes.subs[0], d, star_loc(at), cur);
            cur
        } else {
            lemma_best_fits(*sub, notes.subs[0], d, zero, at, cur, limit);
            let inner = best_after(*sub, notes.subs[0], d, zero, at, cur);
            assert(forall|i: int|
                0 <= i < inner.atoms.len() ==> kept_or_fit(
                    #[trigger] inner.atoms[i],
                    cur,
                    *sub,
                    d,
                    limit,
                ));
            inner
        },
        Tree::Capture(sub) => {
            lemma_best_fits(*sub, notes.subs[0], d, zero, at, cur, limit);
            best_after(*sub, notes.subs[0], d, zero, at, cur)
        },
        Tree::Concat(es) => {
            let n = es.len() as int;
            lemma_concat_fits(es, notes, d, zero, at, cur, n, limit);
            concat_best(es, notes.subs, d, zero, at, cur, n)
        },
        Tree::Alternation(es) => {
            lemma_alt_fit(es, notes, d, zero, at, limit);
            better(cur, merged(alt_entries(es, notes.subs, d, zero, at), es.len() as int))
        },
        _ => cur,
    };
    assert forall|i: int| 0 <= i < inner.atoms.len() implies kept_or_fit(
        #[trigger] inner.atoms[i],
        cur,
        t,
        depth,
        limit,
    ) by {
        if inner == cur {
            assert(cur.atoms.contains(inner.atoms[i]));
        }
    }
    lemma_offer_fits(cur, inner, t, notes, depth, zero, at, limit);
}

proof fn lemma_concat_fits(
    es: Seq<Tree>,
    notes: Notes,
    depth: nat,
    zero: bool,
    at: Loc,
    cur: Best,
    k: int,
    limit: int,
)
    requires
        supported(Tree::Concat(es)),
        notes.sound(Tree::Concat(es)),
        notes.atoms_within(Tree::Concat(es), limit),
        DESIRED_ATOM_SIZE <= limit,
        depth > 1,
        0 <= k <= es.len(),
    ensures
        ({
            let new = concat_best(es, notes.subs, depth, zero, at, cur, k);
            forall|i: int|
                0 <= i < new.atoms.len() ==> cur.atoms.contains(#[trigger] new.atoms[i])
                    || new.atoms[i].atom.bytes.len() <= limit && !new.atoms[i].atom.exact
        }),
    decreases es, k,
{
    if k > 0 {
        lemma_concat_fits(es, notes, depth, zero, at, cur, k - 1, limit);
        let before = concat_best(es, notes.subs, depth, zero, at, cur, k - 1);
        let e = es[k - 1];
        let loc = concat_loc(es, at, k - 1);
        assert(notes.subs[k - 1].sound(e));
        assert(notes.subs[k - 1].atoms_within(e, limit));
        lemma_best_fits(e, notes.subs[k - 1], depth, zero, loc, before, limit);
        let new = best_after(e, notes.subs[k - 1], depth, zero, loc, before);
        assert(concat_best(es, notes.subs, depth, zero, at, cur, k) == new);
        assert forall|i: int| 0 <= i < new.atoms.len() implies cur.atoms.contains(
            #[trigger] new.atoms[i],
        ) || new.atoms[i].atom.bytes.len() <= limit && !new.atoms[i].atom.exact by {
            let a = new.atoms[i];
            assert(kept_or_fit(a, before, e, depth, limit));
            if before.atoms.contains(a) {
                let j = choose|j: int| 0 <= j < before.atoms.len() && before.atoms[j] == a;
                assert(before.atoms[j] == a);
            }
        }
    }
}

proof fn lemma_alt_fit(
    es: Seq<Tree>,
    notes: Notes,
    depth: nat,
    zero: bool,
    at: Loc,
    limit: int,
)
    requires
        supported(Tree::Alternation(es)),
        notes.sound(Tree::Alternation(es)),
        notes.atoms_within(Tree::Alternation(es), limit),
        DESIRED_ATOM_SIZE <= limit,
        depth > 1,
    ensures
        ({
            let m = merged(alt_entries(es, notes.subs, depth, zero, at), es.len() as int);
            forall|i: int|
                0 <= i < m.atoms.len() ==> (#[trigger] m.atoms[i]).atom.bytes.len() <= limit
                    && !m.atoms[i].atom.exact
        }),
    decreases es, 0int,
{
    let entries = alt_entries(es, notes.subs, depth, zero, at);
    let m = merged(entries, es.len() as int);
    assert forall|i: int| 0 <= i < m.atoms.len() implies (
    #[trigger] m.atoms[i]).atom.bytes.len() <= limit && !m.atoms[i].atom.exact by {
        let a = m.atoms[i];
        let k = lemma_merged_from(entries, es.len() as int, a);
        assert(notes.subs[k].sound(es[k]));
        assert(notes.subs[k].atoms_within(es[k], limit));
        let loc = alt_loc(es, at, k);
        lemma_best_fits(es[k], notes.subs[k], depth, zero, loc, no_atoms(), limit);
        let e = best_after(es[k], notes.subs[k], depth, zero, loc, no_atoms());
        assert(entries[k] == e);
        let j = choose|j: int| 0 <= j < e.atoms.len() && e.atoms[j] == a;
        assert(kept_or_fit(e.atoms[j], no_atoms(), es[k], depth, limit));
    }
}

/// The chosen atoms are short, and an atom that is exact is a match of the whole
/// expression.
pub proof fn lemma_atoms_fit(t: Tree, notes: Notes, i: int)
    requires
        supported(t),
        notes.sound(t),
        notes.atoms_within(t, DESIRED_ATOM_SIZE as int),
        0 <= i < chosen_atoms(t, notes).len(),
    ensures
        ({
            let a = chosen_atoms(t, notes)[i].atom;
            &&& a.bytes.len() <= DESIRED_ATOM_SIZE
            &&& a.exact ==> is_match(t, a.bytes)
        }),
{
    let at = Loc { fwd: 0, seq: 0, bck: 0 };
    let cur = Best { quality: i32::MIN as int, atoms: seq![] };
    lemma_best_fits(t, notes, 1, false, at, cur, DESIRED_ATOM_SIZE as int);
    assert(kept_or_fit(chosen_atoms(t, notes)[i], cur, t, 1, DESIRED_ATOM_SIZE as int));
}

/// The place lies in the code of the expression.
pub open spec fn inside(t: Tree, at: Loc, loc: Loc) -> bool {
    &&& at.fwd <= loc.fwd <= at.fwd + code(t, Direction::Forward).len()
    &&& at.bck <= loc.bck <= at.bck + code(t, Direction::Backward).len()
    &&& loc.seq == at.seq
}

/// The atom was there before, or its place lies in the code of the expression.
pub open spec fn kept_or_inside(a: PlacedAtom, cur: Best, t: Tree, at: Loc) -> bool {
    cur.atoms.contains(a) || inside(t, at, a.loc)
}

/// Each of the best atoms after an expression was there before, or is placed in
/// the code of the expression.
proof fn lemma_best_inside(
    t: Tree,
    notes: Notes,
    depth: nat,
    zero: bool,
    at: Loc,
    cur: Best,
)
    requires
        supported(t),
    ensures
        ({
            let new = best_after(t, notes, depth, zero, at, cur);
            forall|i: int|
                0 <= i < new.atoms.len() ==> kept_or_inside(#[trigger] new.atoms[i], cur, t, at)
        }),
    decreases t, 0int,
{
    let d = depth + 1;
    let inner = match t {
        Tree::Repetition { min, sub, .. } => if min == 0 {
            lemma_zero(*sub, notes.subs[0], d, star_loc(at), cur);
            cur
        } else {
            lemma_best_inside(*sub, notes.subs[0], d, zero, at, cur);
            let inner = best_after(*sub, notes.subs[0], d, zero, at, cur);
            assert(forall|i: int|
                0 <= i < inner.atoms.len() ==> kept_or_inside(
                    #[trigger] inner.atoms[i],
                    cur,
                    *sub,
                    at,
                ));
            inner
        },
        Tree::Capture(sub) => {
            lemma_best_inside(*sub, notes.subs[0], d, zero, at, cur);
            let inner = best_after(*sub, notes.subs[0], d, zero, at, cur);
            assert(forall|i: int|
                0 <= i < inner.atoms.len() ==> kept_or_inside(
                    #[trigger] inner.atoms[i],
                    cur,
                    *sub,
                    at,
                ));
            inner
        },
        Tree::Concat(es) => {
            let n = es.len() as int;
            lemma_concat_inside(es, notes.subs, d, zero, at, cur, n);
            concat_best(es, notes.subs, d, zero, at, cur, n)
        },
        Tree::Alternation(es) => {
            let n = es.len() as int;
            lemma_alt_inside(es, notes.subs, d, zero, at);
            better(cur, merged(alt_entries(es, notes.subs, d, zero, at), n))
        },
        _ => cur,
    };
    assert forall|i: int| 0 <= i < inner.atoms.len() implies kept_or_inside(
        #[trigger] inner.atoms[i],
        cur,
        t,
        at,
    ) by {
        if inner == cur {
            assert(cur.atoms.contains(inner.atoms[i]));
        }
    }
    lemma_skipped(t);
    let own = offer_own(inner, t, notes.atoms, depth, zero, at);
    assert forall|i: int| 0 <= i < own.atoms.len() implies kept_or_inside(
        #[trigger] own.atoms[i],
        cur,
        t,
        at,
    ) by {
        if own != inner {
            assert(own.atoms[i].loc == entry(t, at));
        }
    }
}

proof fn lemma_concat_inside(
    es: Seq<Tree>,
    notes: Seq<Notes>,
    depth: nat,
    zero: bool,
    at: Loc,
    cur: Best,
    k: int,
)
    requires
        0 <= k <= es.len(),
        forall|i: int| 0 <= i < es.len() ==> supported(#[trigger] es[i]),
    ensures
        ({
            let new = concat_best(es, notes, depth, zero, at, cur, k);
            forall|i: int|
                0 <= i < new.atoms.len() ==> kept_or_inside(
                    #[trigger] new.atoms[i],
                    cur,
                    Tree::Concat(es),
                    at,
                )
        }),
    decreases es, k,
{
    if k > 0 {
        let t = Tree::Concat(es);
        let e = es[k - 1];
        let loc = concat_loc(es, at, k - 1);
        lemma_concat_inside(es, notes, depth, zero, at, cur, k - 1);
        let before = concat_best(es, notes, depth, zero, at, cur, k - 1);
        lemma_best_inside(e, notes[k - 1], depth, zero, loc, before);
        lemma_concat_part(es, at, k - 1);
        let new = best_after(e, notes[k - 1], depth, zero, loc, before);
        assert(concat_best(es, notes, depth, zero, at, cur, k) == new);
        assert forall|i: int| 0 <= i < new.atoms.len() implies kept_or_inside(
            #[trigger] new.atoms[i],
            cur,
            t,
            at,
        ) by {
            let a = new.atoms[i];
            assert(kept_or_inside(a, before, e, loc));
            if before.atoms.contains(a) {
                let j = choose|j: int| 0 <= j < before.atoms.len() && before.atoms[j] == a;
                assert(kept_or_inside(before.atoms[j], cur, t, at));
            }
        }
    }
}

proof fn lemma_alt_inside(es: Seq<Tree>, notes: Seq<Notes>, depth: nat, zero: bool, at: Loc)
    requires
        es.len() > 0,
        forall|i: int| 0 <= i < es.len() ==> supported(#[trigger] es[i]),
    ensures
        ({
            let m = merged(alt_entries(es, notes, depth, zero, at), es.len() as int);
            forall|i: int|
                0 <= i < m.atoms.len() ==> inside(
                    Tree::Alternation(es),
                    at,
                    (#[trigger] m.atoms[i]).loc,
                )
        }),
    decreases es, 0int,
{
    let entries = alt_entries(es, notes, depth, zero, at);
    let m = merged(entries, es.len() as int);
    assert forall|i: int| 0 <= i < m.atoms.len() implies inside(
        Tree::Alternation(es),
        at,
        (#[trigger] m.atoms[i]).loc,
    ) by {
        let a = m.atoms[i];
        let k = lemma_merged_from(entries, es.len() as int, a);
        let loc = alt_loc(es, at, k);
        lemma_alt_part(es, at, k);
        lemma_best_inside(es[k], notes[k], depth, zero, loc, no_atoms());
        let e = best_after(es[k], notes[k], depth, zero, loc, no_atoms());
        assert(entries[k] == e);
        let j = choose|j: int| 0 <= j < e.atoms.len() && e.atoms[j] == a;
        assert(kept_or_inside(e.atoms[j], no_atoms(), es[k], loc));
    }
}

/// The places of the chosen atoms lie in the code.
pub proof fn lemma_atoms_inside(t: Tree, notes: Notes, i: int)
    requires
        supported(t),
        0 <= i < chosen_atoms(t, notes).len(),
    ensures
        ({
            let loc = chosen_atoms(t, notes)[i].loc;
            &&& loc.seq == 0
            &&& 0 <= loc.fwd <= code(t, Direction::Forward).len()
            &&& 0 <= loc.bck <= code(t, Direction::Backward).len()
        }),
{
    let at = Loc { fwd: 0, seq: 0, bck: 0 };
    let cur = Best { quality: i32::MIN as int, atoms: seq![] };
    lemma_best_inside(t, notes, 1, false, at, cur);
    assert(kept_or_inside(chosen_atoms(t, notes)[i], cur, t, at));
}

} // verus!
