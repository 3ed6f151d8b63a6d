//! What a walk over a whole expression makes of the state of the compiler.

use vstd::prelude::*;

use crate::code::{
    alt_body, alt_end, alt_jump, alt_jumps, alt_layout, alt_start, alt_starts, alternation_code,
    code, codes, height, heights, join, supported, Direction,
};
use crate::expr::{Notes, Tree};
use crate::instr::{
    fits_offset, has_offset_at, has_split_n_at, lemma_literal_code_split, offset_code, patched,
    patched_split_n, split_n_code, takes_offset, zeros, Instr,
};
use crate::layout::{
    lemma_alt_body_len, lemma_alt_layout_len, lemma_alt_patched, lemma_alt_same_lens,
    lemma_alt_start_monotonic, lemma_code_len, lemma_codes_len, lemma_join_split,
    lemma_patched_instr, lemma_split_n_patched,
};
use crate::select::{
    alt_entries, alt_loc, best_after, better, concat_best, concat_loc, merged, no_atoms, offer_own,
    skipped, star_loc, Best, Loc,
};
use crate::state::{chunk_offsets, fits_both, loc_diff, moved_best, patched_jumps, State};

verus! {

/// Every atom is at a place in one of several sequences of code of the given
/// lengths.
pub open spec fn within(best: Best, lens: Seq<int>) -> bool {
    forall|i: int|
        0 <= i < best.atoms.len() ==> {
            let loc = (#[trigger] best.atoms[i]).loc;
            &&& 0 <= loc.seq < lens.len()
            &&& 0 <= loc.bck <= lens[loc.seq]
        }
}

/// The code skipped in a literal is part of its code.
pub proof fn lemma_skipped(t: Tree)
    ensures
        0 <= skipped(t) <= code(t, Direction::Forward).len(),
        0 <= skipped(t) <= code(t, Direction::Backward).len(),
{
    lemma_code_len(t);
    match t {
        Tree::Literal(bytes) => {
            let size = crate::atoms::DESIRED_ATOM_SIZE as int;
            crate::atoms::lemma_best_start(bytes, size, crate::atoms::last_start(bytes, size));
            lemma_literal_code_split(bytes, crate::atoms::best_atom(bytes, size).backtrack);
        },
        _ => {},
    }
}

/// A part of a concatenation lies within the concatenation.
pub proof fn lemma_concat_part(es: Seq<Tree>, at: Loc, i: int)
    requires
        0 <= i < es.len(),
    ensures
        at.fwd <= concat_loc(es, at, i).fwd,
        concat_loc(es, at, i).fwd + code(es[i], Direction::Forward).len() <= at.fwd + code(
            Tree::Concat(es),
            Direction::Forward,
        ).len(),
        at.bck <= concat_loc(es, at, i).bck,
        concat_loc(es, at, i).bck + code(es[i], Direction::Backward).len() <= at.bck + code(
            Tree::Concat(es),
            Direction::Backward,
        ).len(),
{
    let f = codes(es, Direction::Forward);
    lemma_join_split(f, i + 1);
    assert(f.take(i + 1).drop_last() =~= f.take(i));
    let b = codes(es, Direction::Backward);
    let r = b.reverse();
    let n = es.len() as int;
    lemma_join_split(r, n - i);
    assert(r.take(n - i) =~= b.skip(i).reverse());
    assert(r.take(n - i).drop_last() =~= b.skip(i + 1).reverse());
}

/// An alternative lies within the alternation.
pub proof fn lemma_alt_part(es: Seq<Tree>, at: Loc, i: int)
    requires
        0 <= i < es.len(),
    ensures
        at.fwd <= alt_loc(es, at, i).fwd,
        alt_loc(es, at, i).fwd + code(es[i], Direction::Forward).len() <= at.fwd + code(
            Tree::Alternation(es),
            Direction::Forward,
        ).len(),
        at.bck <= alt_loc(es, at, i).bck,
        alt_loc(es, at, i).bck + code(es[i], Direction::Backward).len() <= at.bck + code(
            Tree::Alternation(es),
            Direction::Backward,
        ).len(),
{
    let f = codes(es, Direction::Forward);
    let b = codes(es, Direction::Backward);
    lemma_alt_layout_len(crate::code::alt_starts(f), f, crate::code::alt_jumps(f));
    lemma_alt_layout_len(crate::code::alt_starts(b), b, crate::code::alt_jumps(b));
    lemma_alt_start_monotonic(f, 0, i);
    lemma_alt_start_monotonic(b, 0, i);
    lemma_alt_start_monotonic(f, i, es.len() - 1);
    lemma_alt_start_monotonic(b, i, es.len() - 1);
}

proof fn lemma_offer_own_within(
    cur: Best,
    t: Tree,
    atoms: Option<Seq<crate::atoms::AtomModel>>,
    depth: nat,
    zero: bool,
    at: Loc,
    lens: Seq<int>,
)
    requires
        within(cur, lens),
        0 <= at.seq < lens.len(),
        0 <= at.bck,
        at.bck + code(t, Direction::Backward).len() <= lens[at.seq],
    ensures
        within(offer_own(cur, t, atoms, depth, zero, at), lens),
{
    lemma_skipped(t);
}

proof fn lemma_merged_within(entries: Seq<Best>, k: int, lens: Seq<int>)
    requires
        0 < k <= entries.len(),
        forall|i: int| 0 <= i < entries.len() ==> within(#[trigger] entries[i], lens),
    ensures
        within(merged(entries, k), lens),
    decreases k,
{
    if k > 1 {
        lemma_merged_within(entries, k - 1, lens);
        let before = merged(entries, k - 1).atoms;
        let last = entries[k - 1].atoms;
        assert(within(no_atoms(), lens));
        assert forall|i: int| 0 <= i < (before + last).len() implies {
            let loc = (#[trigger] (before + last)[i]).loc;
            &&& 0 <= loc.seq < lens.len()
            &&& 0 <= loc.bck <= lens[loc.seq]
        } by {
            if i < before.len() {
                assert((before + last)[i] == before[i]);
            } else {
                assert((before + last)[i] == last[i - before.len()]);
            }
        }
    }
}

/// The atoms of an expression are at places within its code.
pub proof fn lemma_best_within(
    t: Tree,
    notes: Notes,
    depth: nat,
    zero: bool,
    at: Loc,
    cur: Best,
    lens: Seq<int>,
)
    requires
        supported(t),
        within(cur, lens),
        0 <= at.seq < lens.len(),
        0 <= at.bck,
        at.bck + code(t, Direction::Backward).len() <= lens[at.seq],
    ensures
        within(best_after(t, notes, depth, zero, at, cur), lens),
    decreases t, 0int,
{
    match t {
        Tree::Repetition { min, sub, .. } => {
            if min == 0 {
                lemma_best_within(*sub, notes.subs[0], depth + 1, true, star_loc(at), cur, lens);
            } else {
                lemma_best_within(*sub, notes.subs[0], depth + 1, zero, at, cur, lens);
                let inner = best_after(*sub, notes.subs[0], depth + 1, zero, at, cur);
                lemma_offer_own_within(inner, t, notes.atoms, depth, zero, at, lens);
            }
        },
        Tree::Capture(sub) => {
            lemma_best_within(*sub, notes.subs[0], depth + 1, zero, at, cur, lens);
            let inner = best_after(*sub, notes.subs[0], depth + 1, zero, at, cur);
            lemma_offer_own_within(inner, t, notes.atoms, depth, zero, at, lens);
        },
        Tree::Concat(es) => {
            lemma_concat_within(es, notes.subs, depth + 1, zero, at, cur, es.len() as int, lens);
            let inner = concat_best(es, notes.subs, depth + 1, zero, at, cur, es.len() as int);
            lemma_offer_own_within(inner, t, notes.atoms, depth, zero, at, lens);
        },
        Tree::Alternation(es) => {
            let entries = alt_entries(es, notes.subs, depth + 1, zero, at);
            assert forall|i: int| 0 <= i < entries.len() implies within(
                #[trigger] entries[i],
                lens,
            ) by {
                lemma_alt_part(es, at, i);
                lemma_best_within(
                    es[i],
                    notes.subs[i],
                    depth + 1,
                    zero,
                    alt_loc(es, at, i),
                    no_atoms(),
                    lens,
                );
            }
            lemma_merged_within(entries, es.len() as int, lens);
            let inner = better(cur, merged(entries, es.len() as int));
            lemma_offer_own_within(inner, t, notes.atoms, depth, zero, at, lens);
        },
        _ => {
            lemma_offer_own_within(cur, t, notes.atoms, depth, zero, at, lens);
        },
    }
}

proof fn lemma_concat_within(
    es: Seq<Tree>,
    notes: Seq<Notes>,
    depth: nat,
    zero: bool,
    at: Loc,
    cur: Best,
    k: int,
    lens: Seq<int>,
)
    requires
        0 <= k <= es.len(),
        forall|i: int| 0 <= i < es.len() ==> supported(#[trigger] es[i]),
        within(cur, lens),
        0 <= at.seq < lens.len(),
        0 <= at.bck,
        at.bck + code(Tree::Concat(es), Direction::Backward).len() <= lens[at.seq],
    ensures
        within(concat_best(es, notes, depth, zero, at, cur, k), lens),
    decreases es, k,
{
    if k > 0 {
        lemma_concat_within(es, notes, depth, zero, at, cur, k - 1, lens);
        lemma_concat_part(es, at, k - 1);
        lemma_best_within(
            es[k - 1],
            notes[k - 1],
            depth,
            zero,
            concat_loc(es, at, k - 1),
            concat_best(es, notes, depth, zero, at, cur, k - 1),
            lens,
        );
    }
}

/// Where a place in one of the chunks comes to lie.
pub open spec fn moved_loc(at: Loc, base: int, offsets: Seq<int>) -> Loc {
    Loc { fwd: at.fwd, seq: base, bck: at.bck + offsets[at.seq - base - 1] }
}

proof fn lemma_offer_own_moved(
    cur: Best,
    t: Tree,
    atoms: Option<Seq<crate::atoms::AtomModel>>,
    depth: nat,
    zero: bool,
    at: Loc,
    base: int,
    offsets: Seq<int>,
)
    requires
        base < at.seq <= base + offsets.len(),
    ensures
        moved_best(offer_own(cur, t, atoms, depth, zero, at), base, offsets) == offer_own(
            moved_best(cur, base, offsets),
            t,
            atoms,
            depth,
            zero,
            moved_loc(at, base, offsets),
        ),
{
    let a = moved_best(offer_own(cur, t, atoms, depth, zero, at), base, offsets);
    let b = offer_own(
        moved_best(cur, base, offsets),
        t,
        atoms,
        depth,
        zero,
        moved_loc(at, base, offsets),
    );
    assert(a.atoms =~= b.atoms);
}

proof fn lemma_merged_moved(entries: Seq<Best>, k: int, base: int, offsets: Seq<int>)
    requires
        0 < k <= entries.len(),
    ensures
        moved_best(merged(entries, k), base, offsets) == merged(
            entries.map_values(|e: Best| moved_best(e, base, offsets)),
            k,
        ),
    decreases k,
{
    let m = entries.map_values(|e: Best| moved_best(e, base, offsets));
    if k > 1 {
        lemma_merged_moved(entries, k - 1, base, offsets);
        assert(moved_best(merged(entries, k), base, offsets).atoms =~= merged(m, k).atoms);
    }
}

/// If the code of an expression lies in a chunk, moving the chunk moves the atoms
/// as if the code had been written where the chunk comes to lie.
pub proof fn lemma_best_moved(
    t: Tree,
    notes: Notes,
    depth: nat,
    zero: bool,
    at: Loc,
    cur: Best,
    base: int,
    offsets: Seq<int>,
)
    requires
        supported(t),
        base < at.seq <= base + offsets.len(),
    ensures
        moved_best(best_after(t, notes, depth, zero, at, cur), base, offsets) == best_after(
            t,
            notes,
            depth,
            zero,
            moved_loc(at, base, offsets),
            moved_best(cur, base, offsets),
        ),
    decreases t, 0int,
{
    let to = moved_loc(at, base, offsets);
    match t {
        Tree::Repetition { min, sub, .. } => {
            if min == 0 {
                lemma_best_moved(
                    *sub,
                    notes.subs[0],
                    depth + 1,
                    true,
                    star_loc(at),
                    cur,
                    base,
                    offsets,
                );
                assert(star_loc(to) == moved_loc(star_loc(at), base, offsets));
            } else {
                lemma_best_moved(*sub, notes.subs[0], depth + 1, zero, at, cur, base, offsets);
                let inner = best_after(*sub, notes.subs[0], depth + 1, zero, at, cur);
                lemma_offer_own_moved(inner, t, notes.atoms, depth, zero, at, base, offsets);
            }
        },
        Tree::Capture(sub) => {
            lemma_best_moved(*sub, notes.subs[0], depth + 1, zero, at, cur, base, offsets);
            let inner = best_after(*sub, notes.subs[0], depth + 1, zero, at, cur);
            lemma_offer_own_moved(inner, t, notes.atoms, depth, zero, at, base, offsets);
        },
        Tree::Concat(es) => {
            let n = es.len() as int;
            lemma_concat_moved(es, notes.subs, depth + 1, zero, at, cur, n, base, offsets);
            let inner = concat_best(es, notes.subs, depth + 1, zero, at, cur, n);
            lemma_offer_own_moved(inner, t, notes.atoms, depth, zero, at, base, offsets);
        },
        Tree::Alternation(es) => {
            let n = es.len() as int;
            let entries = alt_entries(es, notes.subs, depth + 1, zero, at);
            let there = alt_entries(es, notes.subs, depth + 1, zero, to);
            let m = entries.map_values(|e: Best| moved_best(e, base, offsets));
            assert forall|i: int| 0 <= i < n implies #[trigger] m[i] == there[i] by {
                lemma_best_moved(
                    es[i],
                    notes.subs[i],
                    depth + 1,
                    zero,
                    alt_loc(es, at, i),
                    no_atoms(),
                    base,
                    offsets,
                );
                assert(moved_best(no_atoms(), base, offsets).atoms =~= no_atoms().atoms);
                assert(alt_loc(es, to, i) == moved_loc(alt_loc(es, at, i), base, offsets));
            }
            assert(m =~= there);
            lemma_merged_moved(entries, n, base, offsets);
            let inner = better(cur, merged(entries, n));
            assert(moved_best(inner, base, offsets) == better(
                moved_best(cur, base, offsets),
                merged(there, n),
            ));
            lemma_offer_own_moved(inner, t, notes.atoms, depth, zero, at, base, offsets);
        },
        _ => {
            lemma_offer_own_moved(cur, t, notes.atoms, depth, zero, at, base, offsets);
        },
    }
}

proof fn lemma_concat_moved(
    es: Seq<Tree>,
    notes: Seq<Notes>,
    depth: nat,
    zero: bool,
    at: Loc,
    cur: Best,
    k: int,
    base: int,
    offsets: Seq<int>,
)
    requires
        0 <= k <= es.len(),
        forall|i: int| 0 <= i < es.len() ==> supported(#[trigger] es[i]),
        base < at.seq <= base + offsets.len(),
    ensures
        moved_best(concat_best(es, notes, depth, zero, at, cur, k), base, offsets) == concat_best(
            es,
            notes,
            depth,
            zero,
            moved_loc(at, base, offsets),
            moved_best(cur, base, offsets),
            k,
        ),
    decreases es, k,
{
    if k > 0 {
        lemma_concat_moved(es, notes, depth, zero, at, cur, k - 1, base, offsets);
        let to = moved_loc(at, base, offsets);
        lemma_best_moved(
            es[k - 1],
            notes[k - 1],
            depth,
            zero,
            concat_loc(es, at, k - 1),
            concat_best(es, notes, depth, zero, at, cur, k - 1),
            base,
            offsets,
        );
        assert(concat_loc(es, to, k - 1) == moved_loc(
            concat_loc(es, at, k - 1),
            base,
            offsets,
        ));
    }
}

/// What a walk over the whole expression makes of the state: its code has been
/// written, and its atoms have been taken where they are better.
pub open spec fn visited(s: State, t: Tree, notes: Notes) -> State {
    s.emit(code(t, Direction::Forward), code(t, Direction::Backward)).with_best(
        best_after(
            t,
            notes,
            (s.depth + 1) as nat,
            s.zero_rep_depth > 0,
            s.location(),
            s.best.last(),
        ),
    )
}

/// The compiler can walk over the expression.
pub open spec fn ready(s: State, t: Tree) -> bool {
    &&& supported(t)
    &&& s.backward.len() > 0
    &&& s.best.len() > 0
    &&& s.placed()
    &&& 0 <= s.zero_rep_depth <= s.depth
    &&& s.depth + height(t) <= u32::MAX
}

/// The lengths of the sequences of backward code.
pub open spec fn backward_lens(s: State) -> Seq<int> {
    Seq::new(s.backward.len(), |i: int| s.backward[i].len() as int)
}

/// After the walk the atoms are where there is code.
pub proof fn lemma_visited_placed(s: State, t: Tree, notes: Notes)
    requires
        ready(s, t),
    ensures
        visited(s, t, notes).placed(),
{
    let v = visited(s, t, notes);
    let lens = backward_lens(v);
    assert(within(s.best.last(), lens)) by {
        assert forall|i: int| 0 <= i < s.best.last().atoms.len() implies {
            let loc = (#[trigger] s.best.last().atoms[i]).loc;
            &&& 0 <= loc.seq < lens.len()
            &&& 0 <= loc.bck <= lens[loc.seq]
        } by {
            let loc = s.best.last().atoms[i].loc;
            assert(s.backward[loc.seq].len() <= v.backward[loc.seq].len());
        }
    }
    lemma_best_within(
        t,
        notes,
        (s.depth + 1) as nat,
        s.zero_rep_depth > 0,
        s.location(),
        s.best.last(),
        lens,
    );
}

/// No expression is more deeply nested than the deepest.
pub proof fn lemma_heights(es: Seq<Tree>, i: int)
    requires
        0 <= i < es.len(),
    ensures
        height(es[i]) <= heights(es),
    decreases es.len(),
{
    if i < es.len() - 1 {
        lemma_heights(es.drop_last(), i);
    }
}

/// Walking over a literal or a class is entering and leaving it.
pub proof fn lemma_walk_leaf(s: State, t: Tree, notes: Notes)
    requires
        ready(s, t),
        t is Literal || t is Class,
    ensures
        s.visit_pre(t).can_visit_post(t),
        s.visit_pre(t).visit_post(t, notes.atoms) == visited(s, t, notes),
{
    assert(s.visit_pre(t).visit_post(t, notes.atoms) =~= visited(s, t, notes));
}

/// Walking over a group is entering it, walking over what is in it, and leaving
/// it.
pub proof fn lemma_walk_capture(s: State, t: Tree, sub: Tree, notes: Notes)
    requires
        ready(s, t),
        t == Tree::Capture(Box::new(sub)),
    ensures
        ready(s.visit_pre(t), sub),
        ({
            let inner = visited(s.visit_pre(t), sub, notes.subs[0]);
            &&& inner.can_visit_post(t)
            &&& inner.visit_post(t, notes.atoms) == visited(s, t, notes)
        }),
{
    let entered = s.visit_pre(t);
    let inner = visited(entered, sub, notes.subs[0]);
    assert(entered.location() == s.location());
    assert(inner.visit_post(t, notes.atoms).bookmarks =~= s.bookmarks);
    assert(inner.visit_post(t, notes.atoms) =~= visited(s, t, notes));
}

/// The two instructions around the block of `e*` get their offsets.
proof fn lemma_star_patched(pre: Seq<u8>, op: u8, block: Seq<u8>)
    requires
        takes_offset(op),
    ensures
        ({
            let jump = Instr::JUMP;
            let c = pre + offset_code(op, 0) + block;
            let l1 = pre.len() as int;
            let l2 = c.len() as int;
            let c1 = patched(c + offset_code(jump, 0), l1, l2 + 4 - l1);
            &&& has_offset_at(c, l1)
            &&& has_offset_at(c1, l2)
            &&& patched(c1, l2, l1 - l2) == pre + (offset_code(op, block.len() as int + 8) + block
                + offset_code(jump, -(block.len() as int + 4)))
        }),
{
    let jump = Instr::JUMP;
    let n = block.len() as int;
    let c = pre + offset_code(op, 0) + block;
    let l1 = pre.len() as int;
    let l2 = c.len() as int;
    lemma_patched_instr(pre, op, 0, block, 0);
    let tail = block + offset_code(jump, 0);
    assert(c + offset_code(jump, 0) =~= pre + offset_code(op, 0) + tail);
    lemma_patched_instr(pre, op, 0, tail, n + 8);
    let c1 = pre + offset_code(op, n + 8) + tail;
    let pre2 = pre + offset_code(op, n + 8) + block;
    assert(c1 =~= pre2 + offset_code(jump, 0) + seq![]);
    lemma_patched_instr(pre2, jump, 0, seq![], -(n + 4));
    assert(pre2 + offset_code(jump, -(n + 4)) + seq![] =~= pre + (offset_code(op, n + 8) + block
        + offset_code(jump, -(n + 4))));
}

/// The instruction after the block of `e+` gets its offset.
proof fn lemma_plus_patched(pre: Seq<u8>, op: u8, block: Seq<u8>)
    requires
        takes_offset(op),
    ensures
        ({
            let c = pre + block + offset_code(op, 0);
            let l2 = (pre + block).len() as int;
            &&& has_offset_at(c, l2)
            &&& patched(c, l2, pre.len() - l2) == pre + (block + offset_code(
                op,
                -(block.len() as int),
            ))
        }),
{
    let n = block.len() as int;
    let c = pre + block + offset_code(op, 0);
    assert(c =~= (pre + block) + offset_code(op, 0) + seq![]);
    lemma_patched_instr(pre + block, op, 0, seq![], -n);
    assert((pre + block) + offset_code(op, -n) + seq![] =~= pre + (block + offset_code(op, -n)));
}

/// Walking over a repetition is entering it, walking over what it repeats, and
/// leaving it.
pub proof fn lemma_walk_repetition(s: State, t: Tree, notes: Notes)
    requires
        ready(s, t),
        t is Repetition,
    ensures
        ready(s.visit_pre(t), *t->sub),
        ({
            let inner = visited(s.visit_pre(t), *t->sub, notes.subs[0]);
            &&& inner.can_visit_post(t)
            &&& inner.visit_post(t, notes.atoms) == visited(s, t, notes)
        }),
{
    let sub = *t->sub;
    let greedy = t->greedy;
    let entered = s.visit_pre(t);
    let inner = visited(entered, sub, notes.subs[0]);
    let f = code(sub, Direction::Forward);
    let b = code(sub, Direction::Backward);
    lemma_code_len(sub);
    if t->min == 0 {
        let op = if greedy { Instr::SPLIT_A } else { Instr::SPLIT_B };
        lemma_star_patched(s.forward, op, f);
        lemma_star_patched(s.top(), op, b);
        assert(entered.placed()) by {
            assert forall|i: int| 0 <= i < s.best.last().atoms.len() implies {
                let loc = (#[trigger] s.best.last().atoms[i]).loc;
                &&& 0 <= loc.seq < entered.backward.len()
                &&& 0 <= loc.bck <= entered.backward[loc.seq].len()
            } by {
                let loc = s.best.last().atoms[i].loc;
                assert(s.backward[loc.seq].len() <= entered.backward[loc.seq].len());
            }
        }
        assert(entered.location() == star_loc(s.location()));
    } else {
        let op = if greedy { Instr::SPLIT_B } else { Instr::SPLIT_A };
        lemma_plus_patched(s.forward, op, f);
        lemma_plus_patched(s.top(), op, b);
        assert(entered.location() == s.location());
    }
    let left = inner.visit_post(t, notes.atoms);
    let goal = visited(s, t, notes);
    assert(left.bookmarks =~= s.bookmarks);
    assert(left.forward =~= goal.forward);
    assert(left.top() =~= goal.top());
    assert(left.backward =~= goal.backward);
    assert(left.best =~= goal.best);
}

/// The best atoms after the first `k` parts of a concatenation, while the
/// backward code of each part is still in a chunk of its own.
pub open spec fn chunked_best(
    es: Seq<Tree>,
    notes: Seq<Notes>,
    depth: nat,
    zero: bool,
    at: Loc,
    cur: Best,
    k: int,
) -> Best
    decreases k,
{
    if k <= 0 {
        cur
    } else {
        best_after(
            es[k - 1],
            notes[k - 1],
            depth,
            zero,
            Loc { seq: at.seq + k, bck: 0, ..concat_loc(es, at, k - 1) },
            chunked_best(es, notes, depth, zero, at, cur, k - 1),
        )
    }
}

/// The state after the first `k` parts of a concatenation.
pub open spec fn concat_state(s: State, es: Seq<Tree>, notes: Seq<Notes>, k: int) -> State {
    State {
        forward: s.forward + join(codes(es, Direction::Forward).take(k)),
        backward: s.backward + codes(es, Direction::Backward).take(k),
        bookmarks: s.bookmarks.push(s.location()),
        depth: s.depth + 1,
        ..s.with_best(
            chunked_best(
                es,
                notes,
                (s.depth + 2) as nat,
                s.zero_rep_depth > 0,
                s.location(),
                s.best.last(),
                k,
            ),
        )
    }
}

/// The walk enters a concatenation.
pub proof fn lemma_enter_concat(s: State, es: Seq<Tree>, notes: Seq<Notes>)
    requires
        ready(s, Tree::Concat(es)),
    ensures
        s.visit_pre(Tree::Concat(es)) == concat_state(s, es, notes, 0).push_chunk(),
        concat_state(s, es, notes, 0).placed(),
{
    let f = codes(es, Direction::Forward);
    assert(f.take(0) =~= seq![]);
    assert(s.forward + join(f.take(0)) =~= s.forward);
    let c = concat_state(s, es, notes, 0);
    assert(c.backward =~= s.backward);
    assert(c.best =~= s.best);
    assert(s.visit_pre(Tree::Concat(es)) =~= c.push_chunk());
}

/// The walk goes over one more part of a concatenation.
pub proof fn lemma_concat_step(s: State, es: Seq<Tree>, notes: Seq<Notes>, k: int)
    requires
        ready(s, Tree::Concat(es)),
        0 <= k < es.len(),
        concat_state(s, es, notes, k).placed(),
    ensures
        ready(concat_state(s, es, notes, k).push_chunk(), es[k]),
        visited(concat_state(s, es, notes, k).push_chunk(), es[k], notes[k]) == concat_state(
            s,
            es,
            notes,
            k + 1,
        ),
        concat_state(s, es, notes, k + 1).placed(),
{
    let c = concat_state(s, es, notes, k);
    let p = c.push_chunk();
    let f = codes(es, Direction::Forward);
    let b = codes(es, Direction::Backward);
    lemma_heights(es, k);
    assert(p.placed()) by {
        assert forall|i: int| 0 <= i < p.best.last().atoms.len() implies {
            let loc = (#[trigger] p.best.last().atoms[i]).loc;
            &&& 0 <= loc.seq < p.backward.len()
            &&& 0 <= loc.bck <= p.backward[loc.seq].len()
        } by {
            let loc = c.best.last().atoms[i].loc;
            assert(p.backward[loc.seq] == c.backward[loc.seq]);
        }
    }
    let v = visited(p, es[k], notes[k]);
    let n = concat_state(s, es, notes, k + 1);
    assert(f.take(k + 1).drop_last() =~= f.take(k));
    assert(v.forward =~= n.forward);
    assert(seq![] + b[k] =~= b[k]);
    assert(v.backward =~= n.backward);
    assert(p.location() == Loc {
        seq: s.location().seq + (k + 1),
        bck: 0,
        ..concat_loc(es, s.location(), k)
    });
    assert(v.best =~= n.best);
    lemma_visited_placed(p, es[k], notes[k]);
}

proof fn lemma_not_moved(best: Best, lens: Seq<int>, offsets: Seq<int>)
    requires
        within(best, lens),
    ensures
        moved_best(best, lens.len() - 1, offsets) == best,
{
    assert(moved_best(best, lens.len() - 1, offsets).atoms =~= best.atoms);
}

/// When the chunks have been moved, the atoms are those of the concatenation.
proof fn lemma_chunked_moved(
    es: Seq<Tree>,
    notes: Seq<Notes>,
    depth: nat,
    zero: bool,
    at: Loc,
    cur: Best,
    k: int,
    lens: Seq<int>,
)
    requires
        0 <= k <= es.len(),
        forall|i: int| 0 <= i < es.len() ==> supported(#[trigger] es[i]),
        within(cur, lens),
        at.seq == lens.len() - 1,
    ensures
        ({
            let offsets = chunk_offsets(codes(es, Direction::Backward), at.bck);
            moved_best(
                chunked_best(es, notes, depth, zero, at, cur, k),
                at.seq,
                offsets,
            ) == concat_best(es, notes, depth, zero, at, cur, k)
        }),
    decreases k,
{
    let offsets = chunk_offsets(codes(es, Direction::Backward), at.bck);
    if k == 0 {
        lemma_not_moved(cur, lens, offsets);
    } else {
        lemma_chunked_moved(es, notes, depth, zero, at, cur, k - 1, lens);
        let from = Loc { seq: at.seq + k, bck: 0, ..concat_loc(es, at, k - 1) };
        lemma_best_moved(
            es[k - 1],
            notes[k - 1],
            depth,
            zero,
            from,
            chunked_best(es, notes, depth, zero, at, cur, k - 1),
            at.seq,
            offsets,
        );
        assert(moved_loc(from, at.seq, offsets) == concat_loc(es, at, k - 1));
    }
}

/// The walk leaves a concatenation.
pub proof fn lemma_leave_concat(s: State, es: Seq<Tree>, notes: Notes)
    requires
        ready(s, Tree::Concat(es)),
        concat_state(s, es, notes.subs, es.len() as int).placed(),
    ensures
        ({
            let t = Tree::Concat(es);
            let inner = concat_state(s, es, notes.subs, es.len() as int);
            &&& inner.can_visit_post(t)
            &&& inner.visit_post(t, notes.atoms) == visited(s, t, notes)
        }),
{
    let t = Tree::Concat(es);
    let n = es.len() as int;
    let inner = concat_state(s, es, notes.subs, n);
    let f = codes(es, Direction::Forward);
    let b = codes(es, Direction::Backward);
    assert(f.take(n) =~= f);
    assert(b.take(n) =~= b);
    let base = s.backward.len() - 1;
    assert(inner.backward.skip(base + 1) =~= b);
    assert(inner.backward[base] == s.top());
    let lens = backward_lens(s);
    lemma_chunked_moved(
        es,
        notes.subs,
        (s.depth + 2) as nat,
        s.zero_rep_depth > 0,
        s.location(),
        s.best.last(),
        n,
        lens,
    );
    let left = inner.visit_post(t, notes.atoms);
    let goal = visited(s, t, notes);
    assert(left.bookmarks =~= s.bookmarks);
    assert(left.backward =~= goal.backward);
    assert(left.best =~= goal.best);
}

/// Where the jump after alternative `i` of an alternation is.
pub open spec fn alt_jump_loc(es: Seq<Tree>, at: Loc, i: int) -> Loc {
    Loc {
        fwd: at.fwd + alt_jump(codes(es, Direction::Forward), i),
        seq: at.seq,
        bck: at.bck + alt_jump(codes(es, Direction::Backward), i),
    }
}

/// The bookmarks of an alternation while the walk is in alternative `i`: its
/// `split_n`, then where each alternative starts, with the jump before it.
pub open spec fn alt_marks(es: Seq<Tree>, at: Loc, i: int) -> Seq<Loc> {
    Seq::new(
        (2 * i + 2) as nat,
        |j: int|
            if j == 0 {
                at
            } else if j % 2 == 1 {
                alt_loc(es, at, j / 2)
            } else {
                alt_jump_loc(es, at, j / 2 - 1)
            },
    )
}

/// The first `i` alternatives and the jumps behind them, before any offset is
/// known.
pub open spec fn alt_draft(es: Seq<Tree>, d: Direction, i: int) -> Seq<u8> {
    split_n_code(zeros(es.len())) + alt_body(codes(es, d), zeros(es.len()), i)
}

/// The state when the walk comes to alternative `i` of an alternation.
pub open spec fn alt_state(s: State, es: Seq<Tree>, notes: Seq<Notes>, i: int) -> State {
    let at = s.location();
    let entries = alt_entries(es, notes, (s.depth + 2) as nat, s.zero_rep_depth > 0, at);
    State {
        bookmarks: s.bookmarks + alt_marks(es, at, i),
        best: (s.best + entries.take(i)).push(no_atoms()),
        depth: s.depth + 1,
        ..s.emit(alt_draft(es, Direction::Forward, i), alt_draft(es, Direction::Backward, i))
    }
}

proof fn lemma_alt_location(s: State, es: Seq<Tree>, notes: Seq<Notes>, i: int)
    requires
        0 <= i < es.len(),
        s.backward.len() > 0,
    ensures
        alt_state(s, es, notes, i).location() == alt_loc(es, s.location(), i),
{
    let n = es.len();
    lemma_alt_body_len(codes(es, Direction::Forward), zeros(n), i);
    lemma_alt_body_len(codes(es, Direction::Backward), zeros(n), i);
}

/// The walk enters an alternation.
pub proof fn lemma_enter_alternation(s: State, es: Seq<Tree>, notes: Seq<Notes>)
    requires
        ready(s, Tree::Alternation(es)),
    ensures
        s.visit_pre(Tree::Alternation(es)) == alt_state(s, es, notes, 0),
{
    let a = alt_state(s, es, notes, 0);
    let e = s.visit_pre(Tree::Alternation(es));
    let n = es.len();
    lemma_alt_location(s, es, notes, 0);
    assert(split_n_code(zeros(n)) + seq![] =~= split_n_code(zeros(n)));
    assert(e.bookmarks =~= a.bookmarks);
    assert(e.best =~= a.best);
}

/// The walk can go over the next alternative.
pub proof fn lemma_alt_ready(s: State, es: Seq<Tree>, notes: Seq<Notes>, i: int)
    requires
        ready(s, Tree::Alternation(es)),
        0 <= i < es.len(),
    ensures
        ready(alt_state(s, es, notes, i), es[i]),
{
    lemma_heights(es, i);
}

/// The walk goes over an alternative that is not the last.
pub proof fn lemma_alt_step(s: State, es: Seq<Tree>, notes: Seq<Notes>, i: int)
    requires
        ready(s, Tree::Alternation(es)),
        0 <= i < es.len() - 1,
    ensures
        visited(alt_state(s, es, notes, i), es[i], notes[i]).alternation_in() == alt_state(
            s,
            es,
            notes,
            i + 1,
        ),
{
    let at = s.location();
    let a = alt_state(s, es, notes, i);
    let v = visited(a, es[i], notes[i]);
    let w = v.alternation_in();
    let next = alt_state(s, es, notes, i + 1);
    let entries = alt_entries(es, notes, (s.depth + 2) as nat, s.zero_rep_depth > 0, at);
    lemma_alt_location(s, es, notes, i);
    lemma_alt_location(s, es, notes, i + 1);
    assert(w.forward =~= next.forward);
    assert(w.top() =~= next.top());
    assert(w.backward =~= next.backward);
    assert(v.location() == alt_jump_loc(es, at, i));
    assert(w.location() == alt_loc(es, at, i + 1));
    let marks = alt_marks(es, at, i).push(alt_jump_loc(es, at, i)).push(alt_loc(es, at, i + 1));
    assert(marks =~= alt_marks(es, at, i + 1));
    assert(w.bookmarks =~= next.bookmarks);
    assert(v.best.last() == entries[i]);
    assert(w.best =~= next.best);
}

/// The offsets of the jumps of an alternation when only those of the last `k`
/// are known.
pub open spec fn late_jumps(blocks: Seq<Seq<u8>>, k: int) -> Seq<int> {
    Seq::new(
        blocks.len(),
        |i: int|
            if blocks.len() - 1 - k <= i < blocks.len() - 1 {
                alt_end(blocks) - alt_jump(blocks, i)
            } else {
                0
            },
    )
}

/// Where the jumps of an alternation are if its code starts at `at`.
pub open spec fn jump_places(blocks: Seq<Seq<u8>>, at: int) -> Seq<int> {
    Seq::new((blocks.len() - 1) as nat, |i: int| at + alt_jump(blocks, i))
}

proof fn lemma_jumps_patched(pre: Seq<u8>, blocks: Seq<Seq<u8>>, k: int)
    requires
        0 <= k < blocks.len(),
    ensures
        ({
            let n = blocks.len();
            let jumps = jump_places(blocks, pre.len() as int);
            let draft = pre + alt_layout(zeros(n), blocks, zeros(n));
            let c = patched_jumps(draft, jumps, pre.len() + alt_end(blocks), k);
            &&& c == pre + alt_layout(zeros(n), blocks, late_jumps(blocks, k))
            &&& k < n - 1 ==> has_offset_at(c, jumps[n - 2 - k])
        }),
    decreases k,
{
    let n = blocks.len();
    let jumps = jump_places(blocks, pre.len() as int);
    let late = late_jumps(blocks, k);
    if k == 0 {
        assert(late =~= zeros(n));
    } else {
        lemma_jumps_patched(pre, blocks, k - 1);
        let before = late_jumps(blocks, k - 1);
        let i = n - 1 - k;
        let v = alt_end(blocks) - alt_jump(blocks, i);
        lemma_alt_patched(pre, zeros(n), blocks, before, i, v);
        assert(before.update(i, v) =~= late);
    }
    if k < n - 1 {
        lemma_alt_patched(pre, zeros(n), blocks, late, n - 2 - k, 0);
    }
}

/// When all the offsets are known, the code is that of the alternation.
proof fn lemma_alternation_patched(pre: Seq<u8>, blocks: Seq<Seq<u8>>)
    requires
        0 < blocks.len() <= 255,
    ensures
        ({
            let n = blocks.len();
            let at = pre.len() as int;
            let jumps = jump_places(blocks, at);
            let draft = pre + alt_layout(zeros(n), blocks, zeros(n));
            let c = patched_jumps(draft, jumps, at + alt_end(blocks), n - 1);
            &&& has_split_n_at(c, at, n)
            &&& patched_split_n(c, at, alt_starts(blocks)) == pre + alternation_code(blocks)
        }),
{
    let n = blocks.len();
    lemma_jumps_patched(pre, blocks, n - 1);
    assert(late_jumps(blocks, n - 1) =~= alt_jumps(blocks));
    let body = alt_body(blocks, alt_jumps(blocks), n as int);
    let starts = alt_starts(blocks);
    lemma_split_n_patched(pre, zeros(n), body, starts);
    assert(pre + split_n_code(zeros(n)) + body =~= pre + alt_layout(
        zeros(n),
        blocks,
        alt_jumps(blocks),
    ));
    assert(pre + split_n_code(starts) + body =~= pre + alternation_code(blocks));
}

/// The walk leaves an alternation.
pub proof fn lemma_leave_alternation(s: State, es: Seq<Tree>, notes: Notes)
    requires
        ready(s, Tree::Alternation(es)),
    ensures
        ({
            let t = Tree::Alternation(es);
            let i = es.len() - 1;
            let inner = visited(alt_state(s, es, notes.subs, i), es[i], notes.subs[i]);
            &&& inner.can_visit_post(t)
            &&& inner.visit_post(t, notes.atoms) == visited(s, t, notes)
        }),
{
    let t = Tree::Alternation(es);
    let n = es.len() as int;
    let at = s.location();
    let inner = visited(alt_state(s, es, notes.subs, n - 1), es[n - 1], notes.subs[n - 1]);
    let f = codes(es, Direction::Forward);
    let b = codes(es, Direction::Backward);
    let entries = alt_entries(es, notes.subs, (s.depth + 2) as nat, s.zero_rep_depth > 0, at);
    lemma_alt_location(s, es, notes.subs, n - 1);
    lemma_codes_len(es);
    assert(inner.forward =~= s.forward + alt_layout(zeros(es.len()), f, zeros(es.len())));
    assert(inner.top() =~= s.top() + alt_layout(zeros(es.len()), b, zeros(es.len())));
    assert(inner.location() == alt_jump_loc(es, at, n - 1));
    assert(inner.alt_split(n) == at);
    let blocks = inner.alt_blocks(n);
    assert forall|i: int| 0 <= i < n implies blocks[i] == alt_loc(es, at, i) by {
        assert((1 + 2 * i) / 2 == i);
    }
    let jumps = inner.alt_jumps(n);
    assert forall|i: int| 0 <= i < n - 1 implies jumps[i] == alt_jump_loc(es, at, i) by {
        assert((2 + 2 * i) / 2 - 1 == i);
        assert((2 + 2 * i) % 2 == 0);
    }
    let jf = jumps.map_values(|l: Loc| l.fwd);
    let jb = jumps.map_values(|l: Loc| l.bck);
    assert(jf =~= jump_places(f, at.fwd));
    assert(jb =~= jump_places(b, at.bck));
    let end = inner.location();
    assert forall|k: int| 0 <= k < n - 1 implies {
        let jump = jumps[n - 2 - k];
        let p = #[trigger] inner.patch_jumps(jumps, end, k);
        p.can_patch(jump) && fits_both(loc_diff(end, jump))
    } by {
        lemma_jumps_patched(s.forward, f, k);
        lemma_jumps_patched(s.top(), b, k);
        let i = n - 2 - k;
        assert(fits_offset(alt_end(f) - alt_jump(f, i)));
        lemma_alt_same_lens(f, b, i);
        lemma_alt_same_lens(f, b, n - 1);
    }
    assert forall|i: int| 0 <= i < n implies fits_both(loc_diff(#[trigger] blocks[i], at)) by {
        assert(fits_offset(alt_start(f, i)));
        lemma_alt_same_lens(f, b, i);
    }
    lemma_alternation_patched(s.forward, f);
    lemma_alternation_patched(s.top(), b);
    let offsets = blocks.map_values(|l: Loc| loc_diff(l, at));
    assert(offsets.map_values(|o: Loc| o.fwd) =~= alt_starts(f));
    assert(offsets.map_values(|o: Loc| o.bck) =~= alt_starts(b));
    assert(inner.can_post_alternation(n));
    assert(inner.best =~= s.best + entries);
    assert(inner.best.skip(inner.best.len() - n) =~= entries);
    assert(inner.best.take(inner.best.len() - n) =~= s.best);
    let left = inner.visit_post(t, notes.atoms);
    let goal = visited(s, t, notes);
    assert(left.bookmarks =~= s.bookmarks);
    assert(left.forward =~= goal.forward);
    assert(left.top() =~= goal.top());
    assert(left.backward =~= goal.backward);
    assert(left.best =~= goal.best);
}

/// What the steps of a walk over an expression, one after the other, make of a
/// state.
pub open spec fn walked(s: State, t: Tree, notes: Notes) -> State
    decreases t, 0int,
{
    let entered = s.visit_pre(t);
    let inner = match t {
        Tree::Capture(sub) => walked(entered, *sub, notes.subs[0]),
        Tree::Repetition { sub, .. } => walked(entered, *sub, notes.subs[0]),
        Tree::Concat(es) => walked_parts(entered, es, notes.subs, es.len() as int),
        Tree::Alternation(es) => walked_alternatives(entered, es, notes.subs, es.len() as int),
        _ => entered,
    };
    inner.visit_post(t, notes.atoms)
}

/// What the steps of a walk over the first `k` parts of a concatenation make of
/// the state in which it was entered.
pub open spec fn walked_parts(s: State, es: Seq<Tree>, notes: Seq<Notes>, k: int) -> State
    decreases es, k,
{
    if k <= 0 || k > es.len() {
        s
    } else {
        let before = walked_parts(s, es, notes, k - 1);
        let before = if k > 1 { before.push_chunk() } else { before };
        walked(before, es[k - 1], notes[k - 1])
    }
}

/// What the steps of a walk over the first `k` alternatives of an alternation make
/// of the state in which it was entered.
pub open spec fn walked_alternatives(
    s: State,
    es: Seq<Tree>,
    notes: Seq<Notes>,
    k: int,
) -> State
    decreases es, k,
{
    if k <= 0 || k > es.len() {
        s
    } else {
        let before = walked_alternatives(s, es, notes, k - 1);
        let before = if k > 1 { before.alternation_in() } else { before };
        walked(before, es[k - 1], notes[k - 1])
    }
}

/// The steps of a walk over an expression write the code of the expression and
/// take its atoms, whatever the state that they start from.
pub proof fn lemma_walked(s: State, t: Tree, notes: Notes)
    requires
        ready(s, t),
    ensures
        walked(s, t, notes) == visited(s, t, notes),
    decreases t, 0int,
{
    match t {
        Tree::Capture(sub) => {
            lemma_walk_capture(s, t, *sub, notes);
            lemma_walked(s.visit_pre(t), *sub, notes.subs[0]);
        },
        Tree::Repetition { sub, .. } => {
            lemma_walk_repetition(s, t, notes);
            lemma_walked(s.visit_pre(t), *sub, notes.subs[0]);
        },
        Tree::Concat(es) => {
            lemma_walked_parts(s, es, notes.subs, es.len() as int);
            lemma_leave_concat(s, es, notes);
        },
        Tree::Alternation(es) => {
            lemma_walked_alternatives(s, es, notes.subs, es.len() as int);
            lemma_leave_alternation(s, es, notes);
        },
        _ => lemma_walk_leaf(s, t, notes),
    }
}

proof fn lemma_walked_parts(s: State, es: Seq<Tree>, notes: Seq<Notes>, k: int)
    requires
        ready(s, Tree::Concat(es)),
        0 < k <= es.len(),
    ensures
        walked_parts(s.visit_pre(Tree::Concat(es)), es, notes, k) == concat_state(
            s,
            es,
            notes,
            k,
        ),
        concat_state(s, es, notes, k).placed(),
    decreases es, k,
{
    let entered = s.visit_pre(Tree::Concat(es));
    lemma_enter_concat(s, es, notes);
    if k > 1 {
        lemma_walked_parts(s, es, notes, k - 1);
    } else {
        assert(walked_parts(entered, es, notes, 0) == entered);
    }
    let before = concat_state(s, es, notes, k - 1).push_chunk();
    lemma_concat_step(s, es, notes, k - 1);
    lemma_walked(before, es[k - 1], notes[k - 1]);
}

proof fn lemma_walked_alternatives(s: State, es: Seq<Tree>, notes: Seq<Notes>, k: int)
    requires
        ready(s, Tree::Alternation(es)),
        0 < k <= es.len(),
    ensures
        walked_alternatives(s.visit_pre(Tree::Alternation(es)), es, notes, k) == visited(
            alt_state(s, es, notes, k - 1),
            es[k - 1],
            notes[k - 1],
        ),
    decreases es, k,
{
    let entered = s.visit_pre(Tree::Alternation(es));
    lemma_enter_alternation(s, es, notes);
    if k > 1 {
        lemma_walked_alternatives(s, es, notes, k - 1);
        lemma_alt_step(s, es, notes, k - 2);
    } else {
        assert(walked_alternatives(entered, es, notes, 0) == entered);
    }
    lemma_alt_ready(s, es, notes, k - 1);
    lemma_walked(alt_state(s, es, notes, k - 1), es[k - 1], notes[k - 1]);
}

/// A walk over an expression leaves behind what it found: the bookmarks, the
/// depths, the best atoms below the top, the number of chunks and every sequence
/// of backward code but the current one.
pub proof fn lemma_walk_restores(s: State, t: Tree, notes: Notes)
    requires
        ready(s, t),
    ensures
        ({
            let w = walked(s, t, notes);
            &&& w.bookmarks == s.bookmarks
            &&& w.depth == s.depth
            &&& w.zero_rep_depth == s.zero_rep_depth
            &&& w.best.len() == s.best.len()
            &&& forall|i: int| 0 <= i < s.best.len() - 1 ==> #[trigger] w.best[i] == s.best[i]
            &&& w.backward.len() == s.backward.len()
            &&& forall|i: int|
                0 <= i < s.backward.len() - 1 ==> #[trigger] w.backward[i] == s.backward[i]
            &&& w.location().seq == s.location().seq
        }),
{
    lemma_walked(s, t, notes);
}

/// A walk over an expression appends code, as much in one direction as in the
/// other, and changes none of the code before it.
pub proof fn lemma_walk_appends(s: State, t: Tree, notes: Notes)
    requires
        ready(s, t),
    ensures
        ({
            let w = walked(s, t, notes);
            &&& w.forward == s.forward + code(t, Direction::Forward)
            &&& w.top() == s.top() + code(t, Direction::Backward)
            &&& w.forward.len() - s.forward.len() == w.top().len() - s.top().len()
        }),
{
    lemma_walked(s, t, notes);
    lemma_code_len(t);
}

/// When a walk leaves a concatenation, the place on top of the bookmarks is the one
/// where it entered it.
pub proof fn lemma_concat_returns(s: State, es: Seq<Tree>, notes: Notes)
    requires
        ready(s, Tree::Concat(es)),
    ensures
        ({
            let entered = s.visit_pre(Tree::Concat(es));
            let inner = walked_parts(entered, es, notes.subs, es.len() as int);
            let left = inner.post_concat(es.len() as int);
            &&& inner.can_post_concat(es.len() as int)
            &&& inner.bookmarks.last() == s.location()
            &&& left.bookmarks == s.bookmarks
            &&& left.backward.len() == s.backward.len()
            &&& left.location().seq == s.location().seq
        }),
{
    lemma_walked_parts(s, es, notes.subs, es.len() as int);
    lemma_leave_concat(s, es, notes);
    let inner = concat_state(s, es, notes.subs, es.len() as int);
    assert(inner.bookmarks.take(inner.bookmarks.len() - 1) =~= s.bookmarks);
}

} // verus!
