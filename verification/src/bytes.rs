//! The code of an expression reads bytes, whatever the expression is made of.

use vstd::prelude::*;

use crate::code::{code, codes, oriented, supported, Direction};
use crate::correct::lemma_code_correct;
use crate::cover::covers;
use crate::cut::{lemma_found_is_match, lemma_search_exact};
use crate::expr::{Notes, Tree};
use crate::language::{as_bytes, bytewise, is_match};
use crate::machine::accepts;
use crate::select::{
    alt_entries, alt_loc, best_after, chosen_atoms, concat_best, concat_loc, no_atoms, star_loc,
    Best, Loc,
};

verus! {

/// Each of the expressions with the class of all bytes in place of the class of
/// all Unicode characters.
pub open spec fn all_as_bytes(es: Seq<Tree>) -> Seq<Tree> {
    Seq::new(es.len(), |i: int| as_bytes(es[i]))
}

/// An expression without the class of all Unicode characters stays as it is.
pub proof fn lemma_bytewise(t: Tree)
    requires
        bytewise(t),
    ensures
        as_bytes(t) == t,
    decreases t,
{
    match t {
        Tree::Capture(sub) => lemma_bytewise(*sub),
        Tree::Repetition { sub, .. } => lemma_bytewise(*sub),
        Tree::Concat(es) => {
            assert forall|i: int| 0 <= i < es.len() implies as_bytes(es[i]) == es[i] by {
                lemma_bytewise(es[i]);
            }
            assert(as_bytes(t)->Concat_0 =~= es);
        },
        Tree::Alternation(es) => {
            assert forall|i: int| 0 <= i < es.len() implies as_bytes(es[i]) == es[i] by {
                lemma_bytewise(es[i]);
            }
            assert(as_bytes(t)->Alternation_0 =~= es);
        },
        _ => {},
    }
}

/// The class of all bytes has the code of the class of all Unicode characters.
pub proof fn lemma_as_bytes(t: Tree)
    requires
        supported(t),
    ensures
        supported(as_bytes(t)),
        bytewise(as_bytes(t)),
        forall|d: Direction| #[trigger] code(as_bytes(t), d) == code(t, d),
    decreases t, 0int,
{
    match t {
        Tree::Capture(sub) => {
            lemma_as_bytes(*sub);
            assert forall|d: Direction| #[trigger] code(as_bytes(t), d) == code(t, d) by {
                assert(code(as_bytes(*sub), d) == code(*sub, d));
            }
        },
        Tree::Repetition { sub, .. } => {
            lemma_as_bytes(*sub);
            assert(code(as_bytes(*sub), Direction::Forward) == code(*sub, Direction::Forward));
            assert forall|d: Direction| #[trigger] code(as_bytes(t), d) == code(t, d) by {
                assert(code(as_bytes(*sub), d) == code(*sub, d));
            }
        },
        Tree::Concat(es) => {
            lemma_all_as_bytes(es);
            assert(as_bytes(t)->Concat_0 =~= all_as_bytes(es));
            assert forall|d: Direction| #[trigger] code(as_bytes(t), d) == code(t, d) by {
                assert(codes(all_as_bytes(es), d) == codes(es, d));
            }
        },
        Tree::Alternation(es) => {
            lemma_all_as_bytes(es);
            assert(as_bytes(t)->Alternation_0 =~= all_as_bytes(es));
            assert(codes(all_as_bytes(es), Direction::Forward) == codes(es, Direction::Forward));
            assert forall|d: Direction| #[trigger] code(as_bytes(t), d) == code(t, d) by {
                assert(codes(all_as_bytes(es), d) == codes(es, d));
            }
        },
        _ => {},
    }
}

proof fn lemma_all_as_bytes(es: Seq<Tree>)
    requires
        forall|i: int| 0 <= i < es.len() ==> supported(#[trigger] es[i]),
    ensures
        forall|i: int| 0 <= i < es.len() ==> supported(#[trigger] all_as_bytes(es)[i]),
        forall|i: int| 0 <= i < es.len() ==> bytewise(#[trigger] all_as_bytes(es)[i]),
        forall|d: Direction| #[trigger] codes(all_as_bytes(es), d) == codes(es, d),
    decreases es, 0int,
{
    let all = all_as_bytes(es);
    assert forall|i: int| 0 <= i < es.len() implies supported(#[trigger] all[i]) && bytewise(
        all[i],
    ) by {
        lemma_as_bytes(es[i]);
    }
    assert forall|d: Direction| #[trigger] codes(all, d) == codes(es, d) by {
        assert forall|i: int| 0 <= i < es.len() implies code(all[i], d) == code(es[i], d) by {
            lemma_as_bytes(es[i]);
        }
        assert(codes(all, d) =~= codes(es, d));
    }
}

/// The code of an expression accepts the matches of the expression with the class
/// of all bytes in place of the class of all Unicode characters, and nothing else.
pub proof fn lemma_code_reads_bytes(t: Tree, d: Direction, w: Seq<u8>)
    requires
        supported(t),
    ensures
        accepts(code(t, d), 0, oriented(w, d)) <==> is_match(as_bytes(t), w),
{
    lemma_as_bytes(t);
    lemma_code_correct(as_bytes(t), d, w);
    assert(code(as_bytes(t), d) == code(t, d));
}

/// The forward code accepts the matches of the expression and nothing else, and so
/// does the backward code, which is given them backwards.
pub open spec fn accept_matches(t: Tree, forward: Seq<u8>, backward: Seq<u8>) -> bool {
    forall|w: Seq<u8>|
        #![trigger is_match(t, w)]
        #![trigger accepts(forward, 0, w)]
        #![trigger accepts(backward, 0, w.reverse())]
        {
            &&& accepts(forward, 0, w) <==> is_match(t, w)
            &&& accepts(backward, 0, w.reverse()) <==> is_match(t, w)
        }
}

/// The same of both kinds of code together.
pub proof fn lemma_codes_read_bytes(t: Tree)
    requires
        supported(t),
    ensures
        accept_matches(
            as_bytes(t),
            code(t, Direction::Forward),
            code(t, Direction::Backward),
        ),
{
    let f = code(t, Direction::Forward);
    let b = code(t, Direction::Backward);
    assert forall|w: Seq<u8>|
        #![trigger is_match(as_bytes(t), w)]
        #![trigger accepts(f, 0, w)]
        #![trigger accepts(b, 0, w.reverse())]
        {
            &&& accepts(f, 0, w) <==> is_match(as_bytes(t), w)
            &&& accepts(b, 0, w.reverse()) <==> is_match(as_bytes(t), w)
        } by {
        lemma_code_reads_bytes(t, Direction::Forward, w);
        lemma_code_reads_bytes(t, Direction::Backward, w);
    }
}

/// The atoms are chosen alike with the class of all bytes in place of the class of
/// all Unicode characters.
proof fn lemma_best_as_bytes(
    t: Tree,
    notes: Notes,
    depth: nat,
    zero: bool,
    at: Loc,
    cur: Best,
)
    requires
        supported(t),
    ensures
        best_after(as_bytes(t), notes, depth, zero, at, cur) == best_after(
            t,
            notes,
            depth,
            zero,
            at,
            cur,
        ),
    decreases t, 0int,
{
    lemma_as_bytes(t);
    assert(code(as_bytes(t), Direction::Backward) == code(t, Direction::Backward));
    let d = depth + 1;
    match t {
        Tree::Capture(sub) => lemma_best_as_bytes(*sub, notes.subs[0], d, zero, at, cur),
        Tree::Repetition { min, sub, .. } => if min == 0 {
            lemma_best_as_bytes(*sub, notes.subs[0], d, true, star_loc(at), cur);
        } else {
            lemma_best_as_bytes(*sub, notes.subs[0], d, zero, at, cur);
        },
        Tree::Concat(es) => {
            assert(as_bytes(t)->Concat_0 =~= all_as_bytes(es));
            lemma_concat_as_bytes(es, notes.subs, d, zero, at, cur, es.len() as int);
        },
        Tree::Alternation(es) => {
            let all = all_as_bytes(es);
            assert(as_bytes(t)->Alternation_0 =~= all);
            lemma_all_as_bytes(es);
            assert(codes(all, Direction::Forward) == codes(es, Direction::Forward));
            assert(codes(all, Direction::Backward) == codes(es, Direction::Backward));
            let entries = alt_entries(es, notes.subs, d, zero, at);
            let others = alt_entries(all, notes.subs, d, zero, at);
            assert forall|i: int| 0 <= i < es.len() implies others[i] == entries[i] by {
                let loc = alt_loc(es, at, i);
                assert(alt_loc(all, at, i) == loc);
                lemma_best_as_bytes(es[i], notes.subs[i], d, zero, loc, no_atoms());
            }
            assert(others =~= entries);
        },
        _ => {},
    }
}

proof fn lemma_concat_as_bytes(
    es: Seq<Tree>,
    notes: Seq<Notes>,
    depth: nat,
    zero: bool,
    at: Loc,
    cur: Best,
    k: int,
)
    requires
        forall|i: int| 0 <= i < es.len() ==> supported(#[trigger] es[i]),
        0 <= k <= es.len(),
    ensures
        concat_best(all_as_bytes(es), notes, depth, zero, at, cur, k) == concat_best(
            es,
            notes,
            depth,
            zero,
            at,
            cur,
            k,
        ),
    decreases es, k,
{
    if k > 0 {
        let all = all_as_bytes(es);
        lemma_all_as_bytes(es);
        assert(codes(all, Direction::Forward) == codes(es, Direction::Forward));
        assert(codes(all, Direction::Backward) == codes(es, Direction::Backward));
        lemma_concat_as_bytes(es, notes, depth, zero, at, cur, k - 1);
        let loc = concat_loc(es, at, k - 1);
        assert(concat_loc(all, at, k - 1) == loc);
        let before = concat_best(es, notes, depth, zero, at, cur, k - 1);
        lemma_best_as_bytes(es[k - 1], notes[k - 1], depth, zero, loc, before);
    }
}

/// A search for the chosen atoms finds nothing but matches of the expression with
/// the class of all bytes in place of the class of all Unicode characters.
pub proof fn lemma_found_reads_bytes(t: Tree, notes: Notes, i: int, s: Seq<u8>, p: int)
    requires
        supported(t),
        0 <= i < chosen_atoms(t, notes).len(),
        0 <= p <= s.len(),
    ensures
        ({
            let loc = chosen_atoms(t, notes)[i].loc;
            let f = code(t, Direction::Forward);
            let b = code(t, Direction::Backward);
            accepts(f, loc.fwd, s.skip(p)) && accepts(b, loc.bck, s.take(p).reverse())
                ==> is_match(as_bytes(t), s)
        }),
{
    lemma_chosen_as_bytes(t, notes);
    lemma_found_is_match(as_bytes(t), notes, i, s, p);
}

/// A search for the chosen atoms, if there are any, finds the matches of the
/// expression with the class of all bytes in place of the class of all Unicode
/// characters, and nothing else.
pub proof fn lemma_search_reads_bytes(t: Tree, notes: Notes, s: Seq<u8>)
    requires
        supported(t),
        notes.sound(as_bytes(t)),
        chosen_atoms(t, notes).len() > 0,
    ensures
        covers(
            chosen_atoms(t, notes),
            code(t, Direction::Forward),
            code(t, Direction::Backward),
            s,
        ) <==> is_match(as_bytes(t), s),
{
    lemma_chosen_as_bytes(t, notes);
    lemma_search_exact(as_bytes(t), notes, s);
}

/// Neither the code nor the atoms depend on which of the two classes there is.
pub proof fn lemma_chosen_as_bytes(t: Tree, notes: Notes)
    requires
        supported(t),
    ensures
        supported(as_bytes(t)),
        bytewise(as_bytes(t)),
        code(as_bytes(t), Direction::Forward) == code(t, Direction::Forward),
        code(as_bytes(t), Direction::Backward) == code(t, Direction::Backward),
        chosen_atoms(as_bytes(t), notes) == chosen_atoms(t, notes),
{
    lemma_as_bytes(t);
    lemma_best_as_bytes(
        t,
        notes,
        1,
        false,
        Loc { fwd: 0, seq: 0, bck: 0 },
        Best { quality: i32::MIN as int, atoms: seq![] },
    );
}

} // verus!
