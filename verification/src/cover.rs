//! A search for the atoms of an expression finds its matches.

use vstd::prelude::*;

use crate::atoms::{best_atom, last_start, lemma_best_start, quality, AtomModel, DESIRED_ATOM_SIZE};
use crate::choice::{lemma_merged_all, lemma_zero};
use crate::code::{
    alt_body, alt_jump, alt_jumps, alt_start, alt_starts, code, codes, height, heights, join,
    lemma_reversed_literal_len, supported, Direction,
};
use crate::correct::{
    alt_tail, lemma_alt_fits_both, lemma_alt_shape, lemma_complete, lemma_concat_to_parts,
    lemma_join_oriented, lemma_list_complete, lemma_literal_complete, lemma_plus_complete,
    lemma_plus_shape, lemma_repetition_to_parts, oriented_parts, read_match,
};
use crate::expr::{Notes, Tree};
use crate::instr::{lemma_literal_code_split, literal_code, offset_code, split_n_code, Instr};
use crate::language::{atom_bytes, bytewise, is_match};
use crate::layout::{lemma_code_len, lemma_join_split};
use crate::machine::{accepts, accepts_within, lemma_go};
use crate::select::{
    alt_entries, alt_loc, best_after, better, candidates, chosen_atoms, concat_best, concat_loc,
    entry, merged, no_atoms, offer_own, place, star_loc, Best, Loc, PlacedAtom,
};
use crate::walk::lemma_heights;

verus! {

/// The atom occurs in `s` at `p`. From the place of the atom, the forward code
/// accepts what follows, and the backward code what precedes.
pub open spec fn found_at(a: PlacedAtom, f: Seq<u8>, b: Seq<u8>, s: Seq<u8>, p: int) -> bool {
    &&& 0 <= p <= s.len()
    &&& a.atom.bytes.is_prefix_of(s.skip(p))
    &&& a.loc.seq == 0
    &&& accepts(f, a.loc.fwd, s.skip(p))
    &&& accepts(b, a.loc.bck, s.take(p).reverse())
}

/// Somewhere in `s` the atom is found.
pub open spec fn found_in(a: PlacedAtom, f: Seq<u8>, b: Seq<u8>, s: Seq<u8>) -> bool {
    exists|p: int| found_at(a, f, b, s, p)
}

/// One of the atoms is found in `s`.
pub open spec fn covers(atoms: Seq<PlacedAtom>, f: Seq<u8>, b: Seq<u8>, s: Seq<u8>) -> bool {
    exists|i: int| 0 <= i < atoms.len() && found_in(#[trigger] atoms[i], f, b, s)
}

/// The block is part of the code.
pub open spec fn lies_at(c: Seq<u8>, block: Seq<u8>, at: int) -> bool {
    &&& 0 <= at
    &&& at + block.len() <= c.len()
    &&& c.subrange(at, at + block.len()) == block
}

/// The code of the expression starts at `at`.
pub open spec fn code_at(t: Tree, f: Seq<u8>, b: Seq<u8>, at: Loc) -> bool {
    &&& lies_at(f, code(t, Direction::Forward), at.fwd)
    &&& lies_at(b, code(t, Direction::Backward), at.bck)
    &&& at.seq == 0
}

/// After the code of the expression, the forward code accepts `v` and the
/// backward code what precedes a match.
pub open spec fn between(
    t: Tree,
    f: Seq<u8>,
    b: Seq<u8>,
    at: Loc,
    u: Seq<u8>,
    v: Seq<u8>,
) -> bool {
    &&& accepts(f, at.fwd + code(t, Direction::Forward).len(), v)
    &&& accepts(b, at.bck + code(t, Direction::Backward).len(), u.reverse())
}

/// If there are atoms, they are found in `s`.
pub open spec fn good(best: Best, f: Seq<u8>, b: Seq<u8>, s: Seq<u8>) -> bool {
    best.atoms.len() > 0 ==> covers(best.atoms, f, b, s)
}

pub proof fn lemma_lies_at(c: Seq<u8>, block: Seq<u8>, at: int)
    requires
        lies_at(c, block, at),
    ensures
        c == c.take(at) + block + c.skip(at + block.len()),
        c.take(at).len() == at,
{
    assert(c =~= c.take(at) + c.subrange(at, at + block.len()) + c.skip(at + block.len()));
}

pub proof fn lemma_lies_within(c: Seq<u8>, head: Seq<u8>, block: Seq<u8>, tail: Seq<u8>)
    requires
        c == head + block + tail,
    ensures
        lies_at(c, block, head.len() as int),
{
    assert(c.subrange(head.len() as int, (head.len() + block.len()) as int) =~= block);
}

/// The forward code of a literal, entered further on, accepts the rest of the
/// literal.
proof fn lemma_literal_forward(bytes: Seq<u8>, k: int, f: Seq<u8>, at: int, v: Seq<u8>)
    requires
        0 <= k <= bytes.len(),
        lies_at(f, literal_code(bytes), at),
        accepts(f, at + literal_code(bytes).len(), v),
    ensures
        accepts(f, at + literal_code(bytes.take(k)).len(), bytes.skip(k) + v),
{
    let block = literal_code(bytes);
    lemma_lies_at(f, block, at);
    lemma_literal_code_split(bytes, k);
    let head = f.take(at) + literal_code(bytes.take(k));
    let post = f.skip(at + block.len());
    assert(f =~= head + literal_code(bytes.skip(k)) + post);
    lemma_literal_complete(head, bytes.skip(k), post, v);
}

/// The backward code of a literal, entered further on, accepts the start of the
/// literal.
proof fn lemma_literal_backward(bytes: Seq<u8>, k: int, b: Seq<u8>, at: int, u: Seq<u8>)
    requires
        0 <= k <= bytes.len(),
        lies_at(b, literal_code(bytes.reverse()), at),
        accepts(b, at + literal_code(bytes.reverse()).len(), u.reverse()),
    ensures
        accepts(
            b,
            at + literal_code(bytes.reverse()).len() - literal_code(bytes.take(k)).len(),
            (u + bytes.take(k)).reverse(),
        ),
{
    let r = bytes.reverse();
    let first = bytes.take(k);
    let m = bytes.len() - k;
    assert(r.skip(m) =~= first.reverse());
    lemma_literal_code_split(r, m);
    lemma_reversed_literal_len(first);
    lemma_literal_forward(r, m, b, at, u.reverse());
    assert((u + first).reverse() =~= first.reverse() + u.reverse());
}

/// The atoms that an expression itself offers are found in its matches.
#[verifier::rlimit(40)]
proof fn lemma_own_found(
    t: Tree,
    atoms: Seq<AtomModel>,
    notes: Notes,
    depth: nat,
    at: Loc,
    f: Seq<u8>,
    b: Seq<u8>,
    u: Seq<u8>,
    w: Seq<u8>,
    v: Seq<u8>,
)
    requires
        supported(t),
        bytewise(t),
        notes.sound(t),
        candidates(t, notes.atoms) == Some(atoms),
        code_at(t, f, b, at),
        between(t, f, b, at, u, v),
        is_match(t, w),
    ensures
        covers(place(atoms, depth, entry(t, at)), f, b, u + w + v),
{
    let s = u + w + v;
    let placed = place(atoms, depth, entry(t, at));
    let cf = code(t, Direction::Forward);
    let cb = code(t, Direction::Backward);
    lemma_lies_at(f, cf, at.fwd);
    lemma_lies_at(b, cb, at.bck);
    if let Tree::Literal(bytes) = t {
        let size = DESIRED_ATOM_SIZE as int;
        lemma_best_start(bytes, size, last_start(bytes, size));
        let a = best_atom(bytes, size);
        let k = a.backtrack;
        let p = u.len() + k;
        lemma_literal_forward(bytes, k, f, at.fwd, v);
        lemma_literal_backward(bytes, k, b, at.bck, u);
        assert(s.skip(p) =~= bytes.skip(k) + v);
        assert(s.take(p) =~= u + bytes.take(k));
        assert(a.bytes =~= s.skip(p).subrange(0, a.bytes.len() as int));
        assert(found_at(placed[0], f, b, s, p));
    } else {
        let p = u.len() as int;
        let l = atom_bytes(atoms);
        let i = choose|i: int| 0 <= i < l.len() && (#[trigger] l[i]).is_prefix_of(w);
        assert(s.skip(p) =~= w + v);
        assert(s.take(p) =~= u);
        assert(l[i] =~= s.skip(p).subrange(0, l[i].len() as int)) by {
            assert(l[i] == w.subrange(0, l[i].len() as int));
        }
        lemma_complete(
            f.take(at.fwd),
            t,
            Direction::Forward,
            f.skip(at.fwd + cf.len()),
            w,
            v,
        );
        assert(found_at(placed[i], f, b, s, p));
    }
}

proof fn lemma_offer_good(
    cur: Best,
    t: Tree,
    notes: Notes,
    depth: nat,
    at: Loc,
    f: Seq<u8>,
    b: Seq<u8>,
    u: Seq<u8>,
    w: Seq<u8>,
    v: Seq<u8>,
)
    requires
        supported(t),
        bytewise(t),
        notes.sound(t),
        code_at(t, f, b, at),
        between(t, f, b, at, u, v),
        is_match(t, w),
        good(cur, f, b, u + w + v),
    ensures
        good(offer_own(cur, t, notes.atoms, depth, false, at), f, b, u + w + v),
{
    if let Some(atoms) = candidates(t, notes.atoms) {
        lemma_own_found(t, atoms, notes, depth, at, f, b, u, w, v);
    }
}

/// A part of a concatenation, in the code and in a match.
#[verifier::rlimit(40)]
proof fn lemma_part_between(
    es: Seq<Tree>,
    i: int,
    at: Loc,
    f: Seq<u8>,
    b: Seq<u8>,
    u: Seq<u8>,
    parts: Seq<Seq<u8>>,
    v: Seq<u8>,
)
    requires
        supported(Tree::Concat(es)),
        bytewise(Tree::Concat(es)),
        code_at(Tree::Concat(es), f, b, at),
        between(Tree::Concat(es), f, b, at, u, v),
        parts.len() == es.len(),
        forall|k: int| 0 <= k < es.len() ==> is_match(es[k], #[trigger] parts[k]),
        0 <= i < es.len(),
    ensures
        code_at(es[i], f, b, concat_loc(es, at, i)),
        between(
            es[i],
            f,
            b,
            concat_loc(es, at, i),
            u + join(parts.take(i)),
            join(parts.skip(i + 1)) + v,
        ),
        u + join(parts) + v == (u + join(parts.take(i))) + parts[i] + (join(parts.skip(i + 1))
            + v),
{
    let t = Tree::Concat(es);
    let n = es.len() as int;
    let d_f = Direction::Forward;
    let d_b = Direction::Backward;
    let cf = codes(es, d_f);
    let cb = codes(es, d_b);
    let h = heights(es);
    assert forall|k: int| 0 <= k < n implies height(#[trigger] es[k]) <= h by {
        lemma_heights(es, k);
    }
    // The match.
    lemma_join_split(parts, i + 1);
    assert(parts.take(i + 1).drop_last() =~= parts.take(i));
    assert(u + join(parts) + v =~= (u + join(parts.take(i))) + parts[i] + (join(
        parts.skip(i + 1),
    ) + v));
    // The forward code.
    let pre = f.take(at.fwd);
    let post = f.skip(at.fwd + code(t, d_f).len());
    lemma_lies_at(f, code(t, d_f), at.fwd);
    lemma_join_split(cf, i + 1);
    assert(cf.take(i + 1).drop_last() =~= cf.take(i));
    let head = pre + join(cf.take(i));
    let after = cf.skip(i + 1);
    assert(f =~= head + cf[i] + (join(after) + post));
    lemma_lies_within(f, head, cf[i], join(after) + post);
    let rest = es.skip(i + 1);
    let rest_parts = parts.skip(i + 1);
    assert(codes(rest, d_f) =~= after);
    assert(f =~= (head + cf[i]) + join(after) + post);
    assert forall|k: int| 0 <= k < rest.len() implies read_match(
        rest[k],
        d_f,
        #[trigger] rest_parts[k],
    ) by {
        assert(is_match(es[i + 1 + k], parts[i + 1 + k]));
    }
    assert forall|k: int| 0 <= k < rest.len() implies supported(#[trigger] rest[k]) && bytewise(
        rest[k],
    ) && height(rest[k]) <= h by {
        assert(rest[k] == es[i + 1 + k]);
    }
    assert((head + cf[i] + join(after)).len() == at.fwd + code(t, d_f).len());
    lemma_list_complete(head + cf[i], rest, d_f, post, rest_parts, v, h);
    // The backward code.
    let pre_b = b.take(at.bck);
    let post_b = b.skip(at.bck + code(t, d_b).len());
    lemma_lies_at(b, code(t, d_b), at.bck);
    let r = cb.reverse();
    lemma_join_split(r, n - i);
    assert(r.take(n - i) =~= cb.skip(i).reverse());
    assert(r.take(n - i).drop_last() =~= cb.skip(i + 1).reverse());
    assert(r.skip(n - i) =~= cb.take(i).reverse());
    let head_b = pre_b + join(cb.skip(i + 1).reverse());
    let before = cb.take(i).reverse();
    assert(b =~= head_b + cb[i] + (join(before) + post_b));
    lemma_lies_within(b, head_b, cb[i], join(before) + post_b);
    let firsts = es.take(i).reverse();
    let first_parts = oriented_parts(parts.take(i), d_b);
    assert(codes(firsts, d_b) =~= before);
    assert(b =~= (head_b + cb[i]) + join(before) + post_b);
    assert forall|k: int| 0 <= k < firsts.len() implies read_match(
        firsts[k],
        d_b,
        #[trigger] first_parts[k],
    ) by {
        let j = i - 1 - k;
        assert(first_parts[k] == parts[j].reverse());
        assert(parts[j].reverse().reverse() =~= parts[j]);
        assert(is_match(es[j], parts[j]));
    }
    assert forall|k: int| 0 <= k < firsts.len() implies supported(#[trigger] firsts[k])
        && bytewise(firsts[k]) && height(firsts[k]) <= h by {
        assert(firsts[k] == es[i - 1 - k]);
    }
    assert((head_b + cb[i] + join(before)).len() == at.bck + code(t, d_b).len());
    lemma_list_complete(head_b + cb[i], firsts, d_b, post_b, first_parts, u.reverse(), h);
    lemma_join_oriented(parts.take(i), d_b);
    assert((u + join(parts.take(i))).reverse() =~= join(first_parts) + u.reverse());
}

/// An alternative of an alternation, in the code and in a match.
proof fn lemma_alternative_between(
    es: Seq<Tree>,
    i: int,
    at: Loc,
    f: Seq<u8>,
    b: Seq<u8>,
    u: Seq<u8>,
    v: Seq<u8>,
)
    requires
        supported(Tree::Alternation(es)),
        code_at(Tree::Alternation(es), f, b, at),
        between(Tree::Alternation(es), f, b, at, u, v),
        0 <= i < es.len(),
    ensures
        code_at(es[i], f, b, alt_loc(es, at, i)),
        between(es[i], f, b, alt_loc(es, at, i), u, v),
{
    lemma_alternative_exit(es, Direction::Forward, i, f, at.fwd, v);
    lemma_alternative_exit(es, Direction::Backward, i, b, at.bck, u.reverse());
}

proof fn lemma_alternative_exit(
    es: Seq<Tree>,
    d: Direction,
    i: int,
    c: Seq<u8>,
    at: int,
    rest: Seq<u8>,
)
    requires
        supported(Tree::Alternation(es)),
        lies_at(c, code(Tree::Alternation(es), d), at),
        accepts(c, at + code(Tree::Alternation(es), d).len(), rest),
        0 <= i < es.len(),
    ensures
        lies_at(c, code(es[i], d), at + alt_start(codes(es, d), i)),
        accepts(c, at + alt_start(codes(es, d), i) + code(es[i], d).len(), rest),
{
    let blocks = codes(es, d);
    let block = code(Tree::Alternation(es), d);
    let pre = c.take(at);
    let post = c.skip(at + block.len());
    lemma_lies_at(c, block, at);
    lemma_alt_fits_both(es, d);
    lemma_alt_shape(pre, blocks, post, i);
    let head = pre + split_n_code(alt_starts(blocks)) + alt_body(blocks, alt_jumps(blocks), i);
    let tail = alt_tail(blocks, alt_jumps(blocks), i, blocks.len() as int) + post;
    lemma_lies_within(c, head, blocks[i], tail);
    if i + 1 < es.len() {
        lemma_go(c, at + alt_jump(blocks, i), 0, rest);
    }
}

/// The first of the matches of `e` in a match of `e+`, in the code and in the
/// match.
proof fn lemma_repeated_between(
    t: Tree,
    at: Loc,
    f: Seq<u8>,
    b: Seq<u8>,
    u: Seq<u8>,
    parts: Seq<Seq<u8>>,
    v: Seq<u8>,
)
    requires
        t is Repetition,
        t->min == 1,
        supported(t),
        bytewise(t),
        code_at(t, f, b, at),
        between(t, f, b, at, u, v),
        parts.len() > 0,
        forall|i: int| 0 <= i < parts.len() ==> is_match(*t->sub, #[trigger] parts[i]),
    ensures
        code_at(*t->sub, f, b, at),
        between(*t->sub, f, b, at, u, join(parts.skip(1)) + v),
        u + join(parts) + v == u + parts[0] + (join(parts.skip(1)) + v),
{
    let sub = *t->sub;
    lemma_code_len(sub);
    lemma_join_split(parts, 1);
    assert(join(parts.take(1).drop_last()) =~= seq![]);
    assert(join(parts.take(1)) =~= parts[0]);
    assert(u + join(parts) + v =~= u + parts[0] + (join(parts.skip(1)) + v));
    let cf = code(t, Direction::Forward);
    let pre = f.take(at.fwd);
    let post = f.skip(at.fwd + cf.len());
    lemma_lies_at(f, cf, at.fwd);
    let op = if t->greedy { Instr::SPLIT_B } else { Instr::SPLIT_A };
    let block = code(sub, Direction::Forward);
    lemma_plus_shape(pre, t->greedy, block, post);
    lemma_lies_within(f, pre, block, offset_code(op, -(block.len() as int)) + post);
    let others = parts.skip(1);
    assert forall|i: int| 0 <= i < others.len() implies read_match(
        sub,
        Direction::Forward,
        #[trigger] others[i],
    ) by {
        assert(is_match(sub, parts[i + 1]));
    }
    lemma_plus_complete(pre, t, Direction::Forward, post, others, v);
    let cb = code(t, Direction::Backward);
    let pre_b = b.take(at.bck);
    let post_b = b.skip(at.bck + cb.len());
    lemma_lies_at(b, cb, at.bck);
    let block_b = code(sub, Direction::Backward);
    lemma_plus_shape(pre_b, t->greedy, block_b, post_b);
    lemma_lies_within(b, pre_b, block_b, offset_code(op, -(block_b.len() as int)) + post_b);
    let none = Seq::<Seq<u8>>::empty();
    lemma_plus_complete(pre_b, t, Direction::Backward, post_b, none, u.reverse());
    assert(join(none) + u.reverse() =~= u.reverse());
}

/// The best atoms after an expression are found in what its matches are part of.
proof fn lemma_best_good(
    t: Tree,
    notes: Notes,
    depth: nat,
    at: Loc,
    cur: Best,
    f: Seq<u8>,
    b: Seq<u8>,
    u: Seq<u8>,
    w: Seq<u8>,
    v: Seq<u8>,
)
    requires
        supported(t),
        bytewise(t),
        notes.sound(t),
        code_at(t, f, b, at),
        between(t, f, b, at, u, v),
        is_match(t, w),
        good(cur, f, b, u + w + v),
    ensures
        good(best_after(t, notes, depth, false, at, cur), f, b, u + w + v),
    decreases t, 0int,
{
    let s = u + w + v;
    match t {
        Tree::Repetition { min, sub, .. } => if min == 0 {
            lemma_zero(*sub, notes.subs[0], depth + 1, star_loc(at), cur);
        } else {
            assert(read_match(t, Direction::Forward, w));
            let parts = lemma_repetition_to_parts(t, Direction::Forward, w);
            assert forall|i: int| 0 <= i < parts.len() implies is_match(
                *sub,
                #[trigger] parts[i],
            ) by {
                assert(read_match(*sub, Direction::Forward, parts[i]));
            }
            lemma_repeated_between(t, at, f, b, u, parts, v);
            let rest = join(parts.skip(1)) + v;
            lemma_best_good(*sub, notes.subs[0], depth + 1, at, cur, f, b, u, parts[0], rest);
            let inner = best_after(*sub, notes.subs[0], depth + 1, false, at, cur);
            lemma_offer_good(inner, t, notes, depth, at, f, b, u, w, v);
        },
        Tree::Capture(sub) => {
            lemma_best_good(*sub, notes.subs[0], depth + 1, at, cur, f, b, u, w, v);
            let inner = best_after(*sub, notes.subs[0], depth + 1, false, at, cur);
            lemma_offer_good(inner, t, notes, depth, at, f, b, u, w, v);
        },
        Tree::Concat(es) => {
            assert(read_match(t, Direction::Forward, w));
            let parts = lemma_concat_to_parts(es, Direction::Forward, w);
            assert forall|i: int| 0 <= i < es.len() implies is_match(
                es[i],
                #[trigger] parts[i],
            ) by {
                assert(read_match(es[i], Direction::Forward, parts[i]));
            }
            let n = es.len() as int;
            lemma_concat_good(es, notes, depth + 1, at, cur, n, f, b, u, parts, v);
            let inner = concat_best(es, notes.subs, depth + 1, false, at, cur, n);
            lemma_offer_good(inner, t, notes, depth, at, f, b, u, w, v);
        },
        Tree::Alternation(es) => {
            let j = choose|j: int| 0 <= j < es.len() && is_match(#[trigger] es[j], w);
            let entries = alt_entries(es, notes.subs, depth + 1, false, at);
            let n = es.len() as int;
            lemma_alternative_between(es, j, at, f, b, u, v);
            lemma_best_good(
                es[j],
                notes.subs[j],
                depth + 1,
                alt_loc(es, at, j),
                no_atoms(),
                f,
                b,
                u,
                w,
                v,
            );
            let m = merged(entries, n);
            assert(good(m, f, b, s)) by {
                if m.atoms.len() > 0 {
                    lemma_merged_all(entries, n);
                    let list = entries[j].atoms;
                    let i = choose|i: int|
                        0 <= i < list.len() && found_in(#[trigger] list[i], f, b, s);
                    assert(m.atoms.contains(entries[j].atoms[i]));
                    let k = choose|k: int| 0 <= k < m.atoms.len() && m.atoms[k] == list[i];
                    assert(found_in(m.atoms[k], f, b, s));
                }
            }
            lemma_offer_good(better(cur, m), t, notes, depth, at, f, b, u, w, v);
        },
        _ => lemma_offer_good(cur, t, notes, depth, at, f, b, u, w, v),
    }
}

proof fn lemma_concat_good(
    es: Seq<Tree>,
    notes: Notes,
    depth: nat,
    at: Loc,
    cur: Best,
    k: int,
    f: Seq<u8>,
    b: Seq<u8>,
    u: Seq<u8>,
    parts: Seq<Seq<u8>>,
    v: Seq<u8>,
)
    requires
        supported(Tree::Concat(es)),
        bytewise(Tree::Concat(es)),
        notes.sound(Tree::Concat(es)),
        code_at(Tree::Concat(es), f, b, at),
        between(Tree::Concat(es), f, b, at, u, v),
        parts.len() == es.len(),
        forall|i: int| 0 <= i < es.len() ==> is_match(es[i], #[trigger] parts[i]),
        good(cur, f, b, u + join(parts) + v),
        0 <= k <= es.len(),
    ensures
        good(
            concat_best(es, notes.subs, depth, false, at, cur, k),
            f,
            b,
            u + join(parts) + v,
        ),
    decreases es, k,
{
    if k > 0 {
        lemma_concat_good(es, notes, depth, at, cur, k - 1, f, b, u, parts, v);
        let i = k - 1;
        lemma_part_between(es, i, at, f, b, u, parts, v);
        assert(notes.subs[i].sound(es[i]));
        assert(is_match(es[i], parts[i]));
        lemma_best_good(
            es[i],
            notes.subs[i],
            depth,
            concat_loc(es, at, i),
            concat_best(es, notes.subs, depth, false, at, cur, i),
            f,
            b,
            u + join(parts.take(i)),
            parts[i],
            join(parts.skip(i + 1)) + v,
        );
    }
}

proof fn lemma_at_end(c: Seq<u8>)
    ensures
        accepts(c, c.len() as int, seq![]),
{
    assert(accepts_within(c, c.len() as int, seq![], 0));
}

/// A search for the chosen atoms, if there are any, finds every match: one of the
/// atoms occurs in it, and from the place of that atom the code accepts what
/// precedes it and what follows.
pub proof fn lemma_atoms_found(t: Tree, notes: Notes, s: Seq<u8>)
    requires
        supported(t),
        bytewise(t),
        notes.sound(t),
        chosen_atoms(t, notes).len() > 0,
        is_match(t, s),
    ensures
        covers(
            chosen_atoms(t, notes),
            code(t, Direction::Forward),
            code(t, Direction::Backward),
            s,
        ),
{
    let f = code(t, Direction::Forward);
    let b = code(t, Direction::Backward);
    let at = Loc { fwd: 0, seq: 0, bck: 0 };
    let none = Seq::<u8>::empty();
    assert(f =~= none + f + none);
    assert(b =~= none + b + none);
    lemma_lies_within(f, none, f, none);
    lemma_lies_within(b, none, b, none);
    lemma_at_end(f);
    lemma_at_end(b);
    assert(none.reverse() =~= none);
    let cur = Best { quality: i32::MIN as int, atoms: seq![] };
    lemma_best_good(t, notes, 1, at, cur, f, b, none, s, none);
    assert(none + s + none =~= s);
}

} // verus!
