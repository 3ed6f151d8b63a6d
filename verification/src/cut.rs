//! A search for the atoms of an expression finds nothing but its matches.

use vstd::prelude::*;

use crate::atoms::{best_atom, last_start, lemma_best_start, AtomModel, DESIRED_ATOM_SIZE};
use crate::choice::{lemma_merged_from, lemma_zero};
use crate::code::{
    alt_body, alt_jump, alt_jumps, alt_start, alt_starts, code, codes, height, heights, join,
    lemma_reversed_literal_len, supported, Direction,
};
use crate::correct::{
    alt_tail, lemma_accepted, lemma_alt_fits_both, lemma_alt_shape, lemma_join_oriented,
    lemma_list_sound, lemma_literal_sound, lemma_plus_shape, lemma_plus_sound, oriented_parts,
    read_match,
};
use crate::cover::{
    between, code_at, covers, found_at, found_in, lemma_atoms_found, lemma_lies_at,
    lemma_lies_within, lies_at,
};
use crate::expr::{Notes, Tree};
use crate::instr::{lemma_literal_code_split, literal_code, split_n_code};
use crate::language::{bytewise, is_match, may_repeat};
use crate::layout::{lemma_code_len, lemma_join_split};
use crate::machine::{accepts, accepts_within, targets};
use crate::select::{
    alt_entries, alt_loc, best_after, better, chosen_atoms, concat_best, concat_loc, entry, merged,
    no_atoms, offer_own, star_loc, Best, Loc, PlacedAtom,
};
use crate::walk::lemma_heights;

verus! {

/// Where the code is entered, the match is cut in two: what the backward code
/// accepts from there and what the forward code accepts from there join in a
/// match of the expression, with what its surroundings accept around it.
pub open spec fn is_cut(t: Tree, f: Seq<u8>, b: Seq<u8>, at: Loc, loc: Loc) -> bool {
    forall|y: Seq<u8>, x: Seq<u8>|
        #[trigger] accepts(b, loc.bck, y.reverse()) && #[trigger] accepts(f, loc.fwd, x)
            ==> joins(t, f, b, at, y, x)
}

/// The two make up a match of the expression and what is around it.
pub open spec fn joins(
    t: Tree,
    f: Seq<u8>,
    b: Seq<u8>,
    at: Loc,
    y: Seq<u8>,
    x: Seq<u8>,
) -> bool {
    exists|m: int, n: int| joins_at(t, f, b, at, y, x, m, n)
}

/// The match starts at `m` in `y` and ends at `n` in `x`.
pub open spec fn joins_at(
    t: Tree,
    f: Seq<u8>,
    b: Seq<u8>,
    at: Loc,
    y: Seq<u8>,
    x: Seq<u8>,
    m: int,
    n: int,
) -> bool {
    &&& 0 <= m <= y.len()
    &&& 0 <= n <= x.len()
    &&& is_match(t, y.skip(m) + x.take(n))
    &&& between(t, f, b, at, y.take(m), x.skip(n))
}

/// Where the code is entered for the atoms that an expression itself offers, its
/// matches are cut in two.
#[verifier::rlimit(40)]
proof fn lemma_own_cut(t: Tree, f: Seq<u8>, b: Seq<u8>, at: Loc)
    requires
        supported(t),
        bytewise(t),
        code_at(t, f, b, at),
    ensures
        is_cut(t, f, b, at, entry(t, at)),
{
    let loc = entry(t, at);
    let cf = code(t, Direction::Forward);
    let cb = code(t, Direction::Backward);
    lemma_lies_at(f, cf, at.fwd);
    lemma_lies_at(b, cb, at.bck);
    assert forall|y: Seq<u8>, x: Seq<u8>|
        #[trigger] accepts(b, loc.bck, y.reverse()) && #[trigger] accepts(
            f,
            loc.fwd,
            x,
        ) implies joins(t, f, b, at, y, x) by {
        if let Tree::Literal(bytes) = t {
            let size = DESIRED_ATOM_SIZE as int;
            lemma_best_start(bytes, size, last_start(bytes, size));
            let k = best_atom(bytes, size).backtrack;
            let n = bytes.len() - k;
            lemma_literal_read(bytes, k, f, at.fwd, x);
            let r = bytes.reverse();
            lemma_literal_code_split(r, n);
            let first = bytes.take(k);
            assert(r.skip(n) =~= first.reverse());
            lemma_reversed_literal_len(first);
            let o = y.reverse();
            lemma_literal_read(r, n, b, at.bck, o);
            let m = y.len() - k;
            assert(y.skip(m) =~= o.take(k).reverse());
            assert(o.take(k).reverse() =~= first);
            assert(y.take(m).reverse() =~= o.skip(k));
            assert(first + bytes.skip(k) =~= bytes);
            assert(joins_at(t, f, b, at, y, x, m, n));
        } else {
            let n = lemma_accepted(
                f.take(at.fwd),
                t,
                Direction::Forward,
                f.skip(at.fwd + cf.len()),
                x,
            );
            let m = y.len() as int;
            assert(y.skip(m) + x.take(n) =~= x.take(n));
            assert(y.take(m) =~= y);
            assert(joins_at(t, f, b, at, y, x, m, n));
        }
    }
}

/// What the code of a literal accepts when it is entered further on starts with
/// the rest of the literal.
proof fn lemma_literal_read(bytes: Seq<u8>, k: int, c: Seq<u8>, at: int, x: Seq<u8>)
    requires
        0 <= k <= bytes.len(),
        lies_at(c, literal_code(bytes), at),
        accepts(c, at + literal_code(bytes.take(k)).len(), x),
    ensures
        bytes.len() - k <= x.len(),
        x.take(bytes.len() - k) == bytes.skip(k),
        accepts(c, at + literal_code(bytes).len(), x.skip(bytes.len() - k)),
{
    let block = literal_code(bytes);
    lemma_lies_at(c, block, at);
    lemma_literal_code_split(bytes, k);
    let head = c.take(at) + literal_code(bytes.take(k));
    let post = c.skip(at + block.len());
    assert(c =~= head + literal_code(bytes.skip(k)) + post);
    let start = head.len() as int;
    let fuel = choose|fuel: nat| accepts_within(c, start, x, fuel);
    let left = lemma_literal_sound(head, bytes.skip(k), post, x, fuel);
}

/// A cut of an alternative is a cut of the alternation.
proof fn lemma_alternative_cut(
    es: Seq<Tree>,
    i: int,
    f: Seq<u8>,
    b: Seq<u8>,
    at: Loc,
    loc: Loc,
)
    requires
        supported(Tree::Alternation(es)),
        code_at(Tree::Alternation(es), f, b, at),
        0 <= i < es.len(),
        is_cut(es[i], f, b, alt_loc(es, at, i), loc),
    ensures
        is_cut(Tree::Alternation(es), f, b, at, loc),
{
    let t = Tree::Alternation(es);
    let inner = alt_loc(es, at, i);
    assert forall|y: Seq<u8>, x: Seq<u8>|
        #[trigger] accepts(b, loc.bck, y.reverse()) && #[trigger] accepts(
            f,
            loc.fwd,
            x,
        ) implies joins(t, f, b, at, y, x) by {
        assert(joins(es[i], f, b, inner, y, x));
        let (m, n) = choose|m: int, n: int| joins_at(es[i], f, b, inner, y, x, m, n);
        lemma_alternative_left(es, Direction::Forward, i, f, at.fwd, x.skip(n));
        lemma_alternative_left(es, Direction::Backward, i, b, at.bck, y.take(m).reverse());
        assert(is_match(es[i], y.skip(m) + x.take(n)));
        assert(joins_at(t, f, b, at, y, x, m, n));
    }
}

/// What is accepted behind an alternative is accepted behind the alternation.
proof fn lemma_alternative_left(
    es: Seq<Tree>,
    d: Direction,
    i: int,
    c: Seq<u8>,
    at: int,
    rest: Seq<u8>,
)
    requires
        supported(Tree::Alternation(es)),
        lies_at(c, code(Tree::Alternation(es), d), at),
        accepts(c, at + alt_start(codes(es, d), i) + code(es[i], d).len(), rest),
        0 <= i < es.len(),
    ensures
        accepts(c, at + code(Tree::Alternation(es), d).len(), rest),
{
    let blocks = codes(es, d);
    let block = code(Tree::Alternation(es), d);
    lemma_lies_at(c, block, at);
    lemma_alt_fits_both(es, d);
    lemma_alt_shape(c.take(at), blocks, c.skip(at + block.len()), i);
    let jump = at + alt_jump(blocks, i);
    if i + 1 < es.len() {
        let fuel = choose|fuel: nat| accepts_within(c, jump, rest, fuel);
        assert(accepts_within(c, targets(c, jump)[0], rest, (fuel - 1) as nat));
    }
}

/// A cut of a part is a cut of the concatenation.
#[verifier::rlimit(40)]
proof fn lemma_part_cut(es: Seq<Tree>, i: int, f: Seq<u8>, b: Seq<u8>, at: Loc, loc: Loc)
    requires
        supported(Tree::Concat(es)),
        bytewise(Tree::Concat(es)),
        code_at(Tree::Concat(es), f, b, at),
        0 <= i < es.len(),
        is_cut(es[i], f, b, concat_loc(es, at, i), loc),
    ensures
        is_cut(Tree::Concat(es), f, b, at, loc),
{
    let t = Tree::Concat(es);
    let inner = concat_loc(es, at, i);
    assert forall|y: Seq<u8>, x: Seq<u8>|
        #[trigger] accepts(b, loc.bck, y.reverse()) && #[trigger] accepts(
            f,
            loc.fwd,
            x,
        ) implies joins(t, f, b, at, y, x) by {
        assert(joins(es[i], f, b, inner, y, x));
        let (m, n) = choose|m: int, n: int| joins_at(es[i], f, b, inner, y, x, m, n);
        let after = lemma_parts_after(es, i, f, at.fwd, x.skip(n));
        let before = lemma_parts_before(es, i, b, at.bck, y.take(m));
        let middle = y.skip(m) + x.take(n);
        let parts = before.push(middle) + after;
        assert forall|k: int| 0 <= k < es.len() implies is_match(es[k], #[trigger] parts[k]) by {
            if k < i {
                assert(parts[k] == before[k]);
            } else if k > i {
                assert(parts[k] == after[k - i - 1]);
            }
        }
        lemma_join_split(parts, i + 1);
        assert(parts.take(i + 1) =~= before.push(middle));
        assert(parts.skip(i + 1) =~= after);
        assert(before.push(middle).drop_last() =~= before);
        let m2 = m - join(before).len();
        let n2 = n + join(after).len();
        assert(y.skip(m2) =~= y.take(m).skip(m2) + y.skip(m));
        assert(x.take(n2) =~= x.take(n) + x.skip(n).take(join(after).len() as int));
        assert(y.skip(m2) + x.take(n2) =~= join(parts));
        assert(y.take(m2) =~= y.take(m).take(m2));
        assert(x.skip(n2) =~= x.skip(n).skip(join(after).len() as int));
        assert(joins_at(t, f, b, at, y, x, m2, n2));
    }
}

/// What is accepted behind a part of a concatenation starts with a match of each
/// of the parts after it.
proof fn lemma_parts_after(es: Seq<Tree>, i: int, f: Seq<u8>, at: int, x: Seq<u8>) -> (parts: Seq<
    Seq<u8>,
>)
    requires
        supported(Tree::Concat(es)),
        bytewise(Tree::Concat(es)),
        lies_at(f, code(Tree::Concat(es), Direction::Forward), at),
        0 <= i < es.len(),
        accepts(
            f,
            at + join(codes(es, Direction::Forward).take(i)).len() + code(
                es[i],
                Direction::Forward,
            ).len(),
            x,
        ),
    ensures
        parts.len() == es.len() - i - 1,
        forall|k: int| 0 <= k < parts.len() ==> is_match(es[i + 1 + k], #[trigger] parts[k]),
        join(parts).len() <= x.len(),
        x.take(join(parts).len() as int) == join(parts),
        accepts(
            f,
            at + code(Tree::Concat(es), Direction::Forward).len(),
            x.skip(join(parts).len() as int),
        ),
{
    let d = Direction::Forward;
    let block = code(Tree::Concat(es), d);
    let cf = codes(es, d);
    let post = f.skip(at + block.len());
    lemma_lies_at(f, block, at);
    lemma_join_split(cf, i + 1);
    assert(cf.take(i + 1).drop_last() =~= cf.take(i));
    let rest = es.skip(i + 1);
    assert(codes(rest, d) =~= cf.skip(i + 1));
    let head = f.take(at) + join(cf.take(i)) + cf[i];
    assert(f =~= head + join(codes(rest, d)) + post);
    let h = heights(es);
    assert forall|k: int| 0 <= k < rest.len() implies supported(#[trigger] rest[k]) && bytewise(
        rest[k],
    ) && height(rest[k]) <= h by {
        assert(rest[k] == es[i + 1 + k]);
        lemma_heights(es, i + 1 + k);
    }
    let start = head.len() as int;
    let fuel = choose|fuel: nat| accepts_within(f, start, x, fuel);
    let (parts, left) = lemma_list_sound(head, rest, d, post, x, fuel, h);
    assert forall|k: int| 0 <= k < parts.len() implies is_match(
        es[i + 1 + k],
        #[trigger] parts[k],
    ) by {
        assert(read_match(rest[k], d, parts[k]));
    }
    parts
}

/// What is accepted backwards behind a part of a concatenation ends with a match
/// of each of the parts before it.
#[verifier::rlimit(40)]
proof fn lemma_parts_before(es: Seq<Tree>, i: int, b: Seq<u8>, at: int, y: Seq<u8>) -> (parts:
    Seq<Seq<u8>>)
    requires
        supported(Tree::Concat(es)),
        bytewise(Tree::Concat(es)),
        lies_at(b, code(Tree::Concat(es), Direction::Backward), at),
        0 <= i < es.len(),
        accepts(
            b,
            at + join(codes(es, Direction::Backward).skip(i + 1).reverse()).len() + code(
                es[i],
                Direction::Backward,
            ).len(),
            y.reverse(),
        ),
    ensures
        parts.len() == i,
        forall|k: int| 0 <= k < parts.len() ==> is_match(es[k], #[trigger] parts[k]),
        join(parts).len() <= y.len(),
        y.skip(y.len() - join(parts).len()) == join(parts),
        accepts(
            b,
            at + code(Tree::Concat(es), Direction::Backward).len(),
            y.take(y.len() - join(parts).len()).reverse(),
        ),
{
    let d = Direction::Backward;
    let block = code(Tree::Concat(es), d);
    let cb = codes(es, d);
    let n = es.len() as int;
    let post = b.skip(at + block.len());
    lemma_lies_at(b, block, at);
    let r = cb.reverse();
    lemma_join_split(r, n - i);
    assert(r.take(n - i) =~= cb.skip(i).reverse());
    assert(r.take(n - i).drop_last() =~= cb.skip(i + 1).reverse());
    assert(r.skip(n - i) =~= cb.take(i).reverse());
    let firsts = es.take(i).reverse();
    assert(codes(firsts, d) =~= cb.take(i).reverse());
    let head = b.take(at) + join(cb.skip(i + 1).reverse()) + cb[i];
    assert(b =~= head + join(codes(firsts, d)) + post);
    let h = heights(es);
    assert forall|k: int| 0 <= k < firsts.len() implies supported(#[trigger] firsts[k])
        && bytewise(firsts[k]) && height(firsts[k]) <= h by {
        assert(firsts[k] == es[i - 1 - k]);
        lemma_heights(es, i - 1 - k);
    }
    let start = head.len() as int;
    let x = y.reverse();
    let fuel = choose|fuel: nat| accepts_within(b, start, x, fuel);
    let (read, left) = lemma_list_sound(head, firsts, d, post, x, fuel, h);
    let parts = oriented_parts(read, d);
    lemma_join_oriented(read, d);
    let k = join(read).len() as int;
    assert(y.skip(y.len() - k) =~= x.take(k).reverse());
    assert(y.take(y.len() - k).reverse() =~= x.skip(k));
    assert forall|k: int| 0 <= k < parts.len() implies is_match(es[k], #[trigger] parts[k]) by {
        assert(read_match(firsts[i - 1 - k], d, read[i - 1 - k]));
    }
    parts
}

/// What is accepted behind the block of `e+` starts with matches of `e`.
proof fn lemma_repeats_after(t: Tree, d: Direction, c: Seq<u8>, at: int, x: Seq<u8>) -> (parts:
    Seq<Seq<u8>>)
    requires
        t is Repetition,
        t->min == 1,
        supported(t),
        bytewise(t),
        lies_at(c, code(t, d), at),
        accepts(c, at + code(*t->sub, d).len(), x),
    ensures
        forall|k: int| 0 <= k < parts.len() ==> read_match(*t->sub, d, #[trigger] parts[k]),
        join(parts).len() <= x.len(),
        x.take(join(parts).len() as int) == join(parts),
        accepts(c, at + code(t, d).len(), x.skip(join(parts).len() as int)),
{
    let sub = *t->sub;
    let block = code(sub, d);
    let pre = c.take(at);
    let post = c.skip(at + code(t, d).len());
    lemma_lies_at(c, code(t, d), at);
    lemma_code_len(sub);
    lemma_plus_shape(pre, t->greedy, block, post);
    let split = at + block.len();
    let exit = split + 4;
    let fuel = choose|fuel: nat| accepts_within(c, split, x, fuel);
    let f = (fuel - 1) as nat;
    if accepts_within(c, exit, x, f) {
        let none = Seq::<Seq<u8>>::empty();
        assert(x.take(0) =~= join(none));
        assert(x.skip(0) =~= x);
        none
    } else {
        assert(accepts_within(c, at, x, f));
        let (parts, left) = lemma_plus_sound(pre, t, d, post, x, f);
        parts
    }
}

/// A cut of `e` is a cut of `e+`.
#[verifier::rlimit(40)]
proof fn lemma_repeated_cut(t: Tree, f: Seq<u8>, b: Seq<u8>, at: Loc, loc: Loc)
    requires
        t is Repetition,
        t->min == 1,
        supported(t),
        bytewise(t),
        code_at(t, f, b, at),
        is_cut(*t->sub, f, b, at, loc),
    ensures
        is_cut(t, f, b, at, loc),
{
    let sub = *t->sub;
    assert forall|y: Seq<u8>, x: Seq<u8>|
        #[trigger] accepts(b, loc.bck, y.reverse()) && #[trigger] accepts(
            f,
            loc.fwd,
            x,
        ) implies joins(t, f, b, at, y, x) by {
        assert(joins(sub, f, b, at, y, x));
        let (m, n) = choose|m: int, n: int| joins_at(sub, f, b, at, y, x, m, n);
        let after = lemma_repeats_after(t, Direction::Forward, f, at.fwd, x.skip(n));
        let o = y.take(m).reverse();
        let read = lemma_repeats_after(t, Direction::Backward, b, at.bck, o);
        let before = oriented_parts(read, Direction::Backward);
        lemma_join_oriented(read, Direction::Backward);
        let middle = y.skip(m) + x.take(n);
        let parts = before.push(middle) + after;
        assert forall|k: int| 0 <= k < parts.len() implies is_match(sub, #[trigger] parts[k]) by {
            let i = before.len();
            if k < i {
                assert(read_match(sub, Direction::Backward, read[i - 1 - k]));
            } else if k > i {
                assert(read_match(sub, Direction::Forward, after[k - i - 1]));
            }
        }
        let i = before.len() as int;
        lemma_join_split(parts, i + 1);
        assert(parts.take(i + 1) =~= before.push(middle));
        assert(parts.skip(i + 1) =~= after);
        assert(before.push(middle).drop_last() =~= before);
        let k = join(read).len() as int;
        let m2 = m - k;
        let n2 = n + join(after).len();
        assert(y.skip(m2) =~= o.take(k).reverse() + y.skip(m));
        assert(x.take(n2) =~= x.take(n) + x.skip(n).take(join(after).len() as int));
        assert(y.skip(m2) + x.take(n2) =~= join(parts));
        assert(y.take(m2).reverse() =~= o.skip(k));
        assert(x.skip(n2) =~= x.skip(n).skip(join(after).len() as int));
        assert(may_repeat(t->min, t->max, parts.len()));
        assert(joins_at(t, f, b, at, y, x, m2, n2));
    }
}

/// The atom was there before, or the code of the expression is entered at a cut.
pub open spec fn kept_or_cut(
    a: PlacedAtom,
    cur: Best,
    t: Tree,
    f: Seq<u8>,
    b: Seq<u8>,
    at: Loc,
) -> bool {
    cur.atoms.contains(a) || is_cut(t, f, b, at, a.loc)
}

proof fn lemma_offer_cuts(
    base: Best,
    cur: Best,
    t: Tree,
    atoms: Option<Seq<AtomModel>>,
    depth: nat,
    zero: bool,
    at: Loc,
    f: Seq<u8>,
    b: Seq<u8>,
)
    requires
        supported(t),
        bytewise(t),
        code_at(t, f, b, at),
        forall|i: int|
            0 <= i < cur.atoms.len() ==> kept_or_cut(#[trigger] cur.atoms[i], base, t, f, b, at),
    ensures
        ({
            let new = offer_own(cur, t, atoms, depth, zero, at);
            forall|i: int|
                0 <= i < new.atoms.len() ==> kept_or_cut(
                    #[trigger] new.atoms[i],
                    base,
                    t,
                    f,
                    b,
                    at,
                )
        }),
{
    lemma_own_cut(t, f, b, at);
    let new = offer_own(cur, t, atoms, depth, zero, at);
    assert forall|i: int| 0 <= i < new.atoms.len() implies kept_or_cut(
        #[trigger] new.atoms[i],
        base,
        t,
        f,
        b,
        at,
    ) by {
        if new != cur {
            assert(new.atoms[i].loc == entry(t, at));
        }
    }
}

/// Each of the best atoms after an expression was there before, or enters the
/// code of the expression at a cut.
proof fn lemma_best_cuts(
    t: Tree,
    notes: Notes,
    depth: nat,
    zero: bool,
    at: Loc,
    cur: Best,
    f: Seq<u8>,
    b: Seq<u8>,
)
    requires
        supported(t),
        bytewise(t),
        code_at(t, f, b, at),
    ensures
        ({
            let new = best_after(t, notes, depth, zero, at, cur);
            forall|i: int|
                0 <= i < new.atoms.len() ==> kept_or_cut(
                    #[trigger] new.atoms[i],
                    cur,
                    t,
                    f,
                    b,
                    at,
                )
        }),
    decreases t, 0int,
{
    match t {
        Tree::Repetition { min, sub, .. } => if min == 0 {
            lemma_zero(*sub, notes.subs[0], depth + 1, star_loc(at), cur);
        } else {
            let cf = code(t, Direction::Forward);
            let cb = code(t, Direction::Backward);
            lemma_lies_at(f, cf, at.fwd);
            lemma_lies_at(b, cb, at.bck);
            let df = code(*sub, Direction::Forward);
            let db = code(*sub, Direction::Backward);
            assert(f.subrange(at.fwd, at.fwd + df.len()) =~= cf.subrange(0, df.len() as int));
            assert(b.subrange(at.bck, at.bck + db.len()) =~= cb.subrange(0, db.len() as int));
            assert(cf.subrange(0, df.len() as int) =~= df);
            assert(cb.subrange(0, db.len() as int) =~= db);
            lemma_best_cuts(*sub, notes.subs[0], depth + 1, zero, at, cur, f, b);
            let inner = best_after(*sub, notes.subs[0], depth + 1, zero, at, cur);
            assert forall|i: int| 0 <= i < inner.atoms.len() implies kept_or_cut(
                #[trigger] inner.atoms[i],
                cur,
                t,
                f,
                b,
                at,
            ) by {
                assert(kept_or_cut(inner.atoms[i], cur, *sub, f, b, at));
                if !cur.atoms.contains(inner.atoms[i]) {
                    lemma_repeated_cut(t, f, b, at, inner.atoms[i].loc);
                }
            }
            lemma_offer_cuts(cur, inner, t, notes.atoms, depth, zero, at, f, b);
        },
        Tree::Capture(sub) => {
            lemma_best_cuts(*sub, notes.subs[0], depth + 1, zero, at, cur, f, b);
            let inner = best_after(*sub, notes.subs[0], depth + 1, zero, at, cur);
            assert forall|i: int| 0 <= i < inner.atoms.len() implies kept_or_cut(
                #[trigger] inner.atoms[i],
                cur,
                t,
                f,
                b,
                at,
            ) by {
                assert(kept_or_cut(inner.atoms[i], cur, *sub, f, b, at));
                if !cur.atoms.contains(inner.atoms[i]) {
                    lemma_capture_cut(*sub, f, b, at, inner.atoms[i].loc);
                }
            }
            lemma_offer_cuts(cur, inner, t, notes.atoms, depth, zero, at, f, b);
        },
        Tree::Concat(es) => {
            let n = es.len() as int;
            lemma_concat_cuts(es, notes.subs, depth + 1, zero, at, cur, n, f, b);
            let inner = concat_best(es, notes.subs, depth + 1, zero, at, cur, n);
            lemma_offer_cuts(cur, inner, t, notes.atoms, depth, zero, at, f, b);
        },
        Tree::Alternation(es) => {
            let n = es.len() as int;
            lemma_alt_cuts(es, notes.subs, depth + 1, zero, at, cur, f, b);
            let m = merged(alt_entries(es, notes.subs, depth + 1, zero, at), n);
            let inner = better(cur, m);
            assert forall|i: int| 0 <= i < inner.atoms.len() implies kept_or_cut(
                #[trigger] inner.atoms[i],
                cur,
                t,
                f,
                b,
                at,
            ) by {
                if inner == cur {
                    assert(cur.atoms.contains(inner.atoms[i]));
                } else {
                    assert(inner.atoms[i] == m.atoms[i]);
                }
            }
            lemma_offer_cuts(cur, inner, t, notes.atoms, depth, zero, at, f, b);
        },
        _ => {
            lemma_offer_cuts(cur, cur, t, notes.atoms, depth, zero, at, f, b);
        },
    }
}

/// A cut of the expression in a group is a cut of the group.
proof fn lemma_capture_cut(sub: Tree, f: Seq<u8>, b: Seq<u8>, at: Loc, loc: Loc)
    requires
        is_cut(sub, f, b, at, loc),
    ensures
        is_cut(Tree::Capture(Box::new(sub)), f, b, at, loc),
{
    let t = Tree::Capture(Box::new(sub));
    assert forall|y: Seq<u8>, x: Seq<u8>|
        #[trigger] accepts(b, loc.bck, y.reverse()) && #[trigger] accepts(
            f,
            loc.fwd,
            x,
        ) implies joins(t, f, b, at, y, x) by {
        assert(joins(sub, f, b, at, y, x));
        let (m, n) = choose|m: int, n: int| joins_at(sub, f, b, at, y, x, m, n);
        assert(joins_at(t, f, b, at, y, x, m, n));
    }
}

proof fn lemma_concat_cuts(
    es: Seq<Tree>,
    notes: Seq<Notes>,
    depth: nat,
    zero: bool,
    at: Loc,
    cur: Best,
    k: int,
    f: Seq<u8>,
    b: Seq<u8>,
)
    requires
        supported(Tree::Concat(es)),
        bytewise(Tree::Concat(es)),
        code_at(Tree::Concat(es), f, b, at),
        0 <= k <= es.len(),
    ensures
        ({
            let new = concat_best(es, notes, depth, zero, at, cur, k);
            forall|i: int|
                0 <= i < new.atoms.len() ==> kept_or_cut(
                    #[trigger] new.atoms[i],
                    cur,
                    Tree::Concat(es),
                    f,
                    b,
                    at,
                )
        }),
    decreases es, k,
{
    let t = Tree::Concat(es);
    if k > 0 {
        lemma_concat_cuts(es, notes, depth, zero, at, cur, k - 1, f, b);
        let before = concat_best(es, notes, depth, zero, at, cur, k - 1);
        let inner = concat_loc(es, at, k - 1);
        lemma_part_code(es, k - 1, at, f, b);
        lemma_best_cuts(es[k - 1], notes[k - 1], depth, zero, inner, before, f, b);
        let new = best_after(es[k - 1], notes[k - 1], depth, zero, inner, before);
        assert(concat_best(es, notes, depth, zero, at, cur, k) == new);
        assert forall|i: int| 0 <= i < new.atoms.len() implies kept_or_cut(
            #[trigger] new.atoms[i],
            cur,
            t,
            f,
            b,
            at,
        ) by {
            let a = new.atoms[i];
            assert(kept_or_cut(a, before, es[k - 1], f, b, inner));
            if before.atoms.contains(a) {
                let j = choose|j: int| 0 <= j < before.atoms.len() && before.atoms[j] == a;
                assert(kept_or_cut(before.atoms[j], cur, t, f, b, at));
            } else {
                lemma_part_cut(es, k - 1, f, b, at, a.loc);
            }
        }
    }
}

/// The code of a part lies in that of the concatenation.
pub proof fn lemma_part_code(es: Seq<Tree>, i: int, at: Loc, f: Seq<u8>, b: Seq<u8>)
    requires
        code_at(Tree::Concat(es), f, b, at),
        0 <= i < es.len(),
    ensures
        code_at(es[i], f, b, concat_loc(es, at, i)),
{
    let t = Tree::Concat(es);
    let n = es.len() as int;
    let block_f = code(t, Direction::Forward);
    let block_b = code(t, Direction::Backward);
    let cf = codes(es, Direction::Forward);
    let cb = codes(es, Direction::Backward);
    lemma_lies_at(f, block_f, at.fwd);
    lemma_lies_at(b, block_b, at.bck);
    lemma_join_split(cf, i + 1);
    assert(cf.take(i + 1).drop_last() =~= cf.take(i));
    let head = f.take(at.fwd) + join(cf.take(i));
    let tail = join(cf.skip(i + 1)) + f.skip(at.fwd + block_f.len());
    assert(f =~= head + cf[i] + tail);
    lemma_lies_within(f, head, cf[i], tail);
    let r = cb.reverse();
    lemma_join_split(r, n - i);
    assert(r.take(n - i) =~= cb.skip(i).reverse());
    assert(r.take(n - i).drop_last() =~= cb.skip(i + 1).reverse());
    let head_b = b.take(at.bck) + join(cb.skip(i + 1).reverse());
    let tail_b = join(r.skip(n - i)) + b.skip(at.bck + block_b.len());
    assert(b =~= head_b + cb[i] + tail_b);
    lemma_lies_within(b, head_b, cb[i], tail_b);
}

/// The code of an alternative lies in that of the alternation.
pub proof fn lemma_alternative_code(es: Seq<Tree>, i: int, at: Loc, f: Seq<u8>, b: Seq<u8>)
    requires
        supported(Tree::Alternation(es)),
        code_at(Tree::Alternation(es), f, b, at),
        0 <= i < es.len(),
    ensures
        code_at(es[i], f, b, alt_loc(es, at, i)),
{
    lemma_alternative_lies(es, Direction::Forward, i, f, at.fwd);
    lemma_alternative_lies(es, Direction::Backward, i, b, at.bck);
}

proof fn lemma_alternative_lies(es: Seq<Tree>, d: Direction, i: int, c: Seq<u8>, at: int)
    requires
        supported(Tree::Alternation(es)),
        lies_at(c, code(Tree::Alternation(es), d), at),
        0 <= i < es.len(),
    ensures
        lies_at(c, code(es[i], d), at + alt_start(codes(es, d), i)),
{
    let blocks = codes(es, d);
    let block = code(Tree::Alternation(es), d);
    let pre = c.take(at);
    let post = c.skip(at + block.len());
    lemma_lies_at(c, block, at);
    lemma_alt_fits_both(es, d);
    lemma_alt_shape(pre, blocks, post, i);
    let head = pre + split_n_code(alt_starts(blocks)) + alt_body(blocks, alt_jumps(blocks), i);
    let tail = alt_tail(blocks, alt_jumps(blocks), i, blocks.len() as int) + post;
    lemma_lies_within(c, head, blocks[i], tail);
}

proof fn lemma_alt_cuts(
    es: Seq<Tree>,
    notes: Seq<Notes>,
    depth: nat,
    zero: bool,
    at: Loc,
    cur: Best,
    f: Seq<u8>,
    b: Seq<u8>,
)
    requires
        supported(Tree::Alternation(es)),
        bytewise(Tree::Alternation(es)),
        code_at(Tree::Alternation(es), f, b, at),
    ensures
        ({
            let m = merged(alt_entries(es, notes, depth, zero, at), es.len() as int);
            forall|i: int|
                0 <= i < m.atoms.len() ==> kept_or_cut(
                    #[trigger] m.atoms[i],
                    cur,
                    Tree::Alternation(es),
                    f,
                    b,
                    at,
                )
        }),
    decreases es, 0int,
{
    let t = Tree::Alternation(es);
    let entries = alt_entries(es, notes, depth, zero, at);
    let m = merged(entries, es.len() as int);
    assert forall|i: int| 0 <= i < m.atoms.len() implies kept_or_cut(
        #[trigger] m.atoms[i],
        cur,
        t,
        f,
        b,
        at,
    ) by {
        let a = m.atoms[i];
        let k = lemma_merged_from(entries, es.len() as int, a);
        let inner = alt_loc(es, at, k);
        lemma_alternative_code(es, k, at, f, b);
        lemma_best_cuts(es[k], notes[k], depth, zero, inner, no_atoms(), f, b);
        let e = best_after(es[k], notes[k], depth, zero, inner, no_atoms());
        assert(entries[k] == e);
        let j = choose|j: int| 0 <= j < e.atoms.len() && e.atoms[j] == a;
        assert(kept_or_cut(e.atoms[j], no_atoms(), es[k], f, b, inner));
        lemma_alternative_cut(es, k, f, b, at, a.loc);
    }
}

/// A search for the chosen atoms finds nothing but matches: where the code,
/// entered at the place of an atom, accepts what follows and what precedes, there
/// is a match.
pub proof fn lemma_found_is_match(t: Tree, notes: Notes, i: int, s: Seq<u8>, p: int)
    requires
        supported(t),
        bytewise(t),
        0 <= i < chosen_atoms(t, notes).len(),
        0 <= p <= s.len(),
    ensures
        ({
            let loc = chosen_atoms(t, notes)[i].loc;
            let f = code(t, Direction::Forward);
            let b = code(t, Direction::Backward);
            accepts(f, loc.fwd, s.skip(p)) && accepts(b, loc.bck, s.take(p).reverse())
                ==> is_match(t, s)
        }),
{
    let f = code(t, Direction::Forward);
    let b = code(t, Direction::Backward);
    let at = Loc { fwd: 0, seq: 0, bck: 0 };
    let none = Seq::<u8>::empty();
    assert(f =~= none + f + none);
    assert(b =~= none + b + none);
    lemma_lies_within(f, none, f, none);
    lemma_lies_within(b, none, b, none);
    let cur = Best { quality: i32::MIN as int, atoms: seq![] };
    lemma_best_cuts(t, notes, 1, false, at, cur, f, b);
    let a = chosen_atoms(t, notes)[i];
    assert(kept_or_cut(a, cur, t, f, b, at));
    let x = s.skip(p);
    let y = s.take(p);
    if accepts(f, a.loc.fwd, x) && accepts(b, a.loc.bck, y.reverse()) {
        assert(joins(t, f, b, at, y, x));
        let (m, n) = choose|m: int, n: int| joins_at(t, f, b, at, y, x, m, n);
        assert(x.skip(n).len() == 0);
        assert(y.take(m).reverse().len() == 0);
        assert(y.skip(m) + x.take(n) =~= s);
    }
}

/// A search for the chosen atoms, if there are any, finds the matches, and nothing
/// else.
pub proof fn lemma_search_exact(t: Tree, notes: Notes, s: Seq<u8>)
    requires
        supported(t),
        bytewise(t),
        notes.sound(t),
        chosen_atoms(t, notes).len() > 0,
    ensures
        covers(
            chosen_atoms(t, notes),
            code(t, Direction::Forward),
            code(t, Direction::Backward),
            s,
        ) <==> is_match(t, s),
{
    let atoms = chosen_atoms(t, notes);
    let f = code(t, Direction::Forward);
    let b = code(t, Direction::Backward);
    if is_match(t, s) {
        lemma_atoms_found(t, notes, s);
    }
    if covers(atoms, f, b, s) {
        let i = choose|i: int| 0 <= i < atoms.len() && found_in(#[trigger] atoms[i], f, b, s);
        let p = choose|p: int| found_at(atoms[i], f, b, s, p);
        lemma_found_is_match(t, notes, i, s, p);
    }
}

} // verus!
