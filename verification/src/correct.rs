//! The code of an expression accepts what the expression matches, and nothing
//! else.

use vstd::prelude::*;

use crate::code::{
    alt_body, alt_end, alt_jump, alt_jumps, alt_start, alt_starts, alternation_code, code, codes,
    height, heights, join, oriented, plus_code, star_code, supported, Direction,
};
use crate::expr::Tree;
use crate::instr::{byte_code, fits_offset, literal_code, offset_code, split_n_code, Instr};
use crate::language::{bytewise, is_match, may_repeat};
use crate::layout::{
    lemma_alt_body_len, lemma_alt_layout_len, lemma_alt_same_lens, lemma_alt_start_monotonic,
    lemma_code_len, lemma_codes_len, lemma_join_split,
};
use crate::machine::{
    accepts, accepts_within, lemma_at_byte, lemma_at_class, lemma_at_offset, lemma_at_split_n,
    lemma_class_match_len, lemma_go, lemma_read, reads, targets,
};
use crate::walk::lemma_heights;

verus! {

/// The bytes that are read, in the order of the input, are a match.
pub open spec fn read_match(t: Tree, d: Direction, w: Seq<u8>) -> bool {
    is_match(t, oriented(w, d))
}

/// Parts of the input that are read one after the other, as parts of a match.
pub open spec fn oriented_parts(parts: Seq<Seq<u8>>, d: Direction) -> Seq<Seq<u8>> {
    oriented(Seq::new(parts.len(), |i: int| oriented(parts[i], d)), d)
}

proof fn lemma_join_cons(first: Seq<u8>, rest: Seq<Seq<u8>>)
    ensures
        join(seq![first] + rest) == first + join(rest),
{
    let all = seq![first] + rest;
    lemma_join_split(all, 1);
    assert(all.take(1) =~= seq![first]);
    assert(all.skip(1) =~= rest);
    assert(join(seq![first].drop_last()) =~= seq![]);
    assert(join(seq![first]) =~= first);
}

proof fn lemma_join_push(parts: Seq<Seq<u8>>, last: Seq<u8>)
    ensures
        join(parts.push(last)) == join(parts) + last,
{
    assert(parts.push(last).drop_last() =~= parts);
}

/// The parts of what is read, put in the order of the match, make up the match.
pub proof fn lemma_join_oriented(parts: Seq<Seq<u8>>, d: Direction)
    ensures
        join(oriented_parts(parts, d)) == oriented(join(parts), d),
    decreases parts.len(),
{
    match d {
        Direction::Forward => {
            assert(oriented_parts(parts, d) =~= parts);
        },
        Direction::Backward => {
            if parts.len() == 0 {
                assert(oriented_parts(parts, d) =~= seq![]);
                assert(oriented(join(parts), d) =~= seq![]);
            } else {
                let before = parts.drop_last();
                let last = parts.last();
                lemma_join_oriented(before, d);
                let rest = oriented_parts(before, d);
                assert(oriented_parts(parts, d) =~= seq![last.reverse()] + rest);
                lemma_join_cons(last.reverse(), rest);
                assert((join(before) + last).reverse() =~= last.reverse() + join(
                    before,
                ).reverse());
            }
        },
    }
}

proof fn lemma_oriented_twice(parts: Seq<Seq<u8>>, d: Direction)
    ensures
        oriented_parts(oriented_parts(parts, d), d) == parts,
        oriented_parts(parts, d).len() == parts.len(),
{
    let once = oriented_parts(parts, d);
    let twice = oriented_parts(once, d);
    assert forall|i: int| 0 <= i < parts.len() implies twice[i] == parts[i] by {
        match d {
            Direction::Forward => {},
            Direction::Backward => {
                assert(once[parts.len() - 1 - i] == parts[i].reverse());
                assert(twice[i] == once[parts.len() - 1 - i].reverse());
                assert(parts[i].reverse().reverse() =~= parts[i]);
            },
        }
    }
    assert(twice =~= parts);
}

/// What is read is a match of a repetition if its parts are matches.
proof fn lemma_repetition_from_parts(t: Tree, d: Direction, parts: Seq<Seq<u8>>)
    requires
        t is Repetition,
        may_repeat(t->min, t->max, parts.len()),
        forall|i: int| 0 <= i < parts.len() ==> read_match(*t->sub, d, #[trigger] parts[i]),
    ensures
        read_match(t, d, join(parts)),
{
    let o = oriented_parts(parts, d);
    lemma_join_oriented(parts, d);
    lemma_oriented_twice(parts, d);
    assert forall|i: int| 0 <= i < o.len() implies is_match(*t->sub, #[trigger] o[i]) by {
        let j = match d {
            Direction::Forward => i,
            Direction::Backward => parts.len() - 1 - i,
        };
        assert(read_match(*t->sub, d, parts[j]));
    }
}

/// What is read as a match of a repetition has parts that are matches.
pub proof fn lemma_repetition_to_parts(t: Tree, d: Direction, w: Seq<u8>) -> (parts: Seq<Seq<u8>>)
    requires
        t is Repetition,
        read_match(t, d, w),
    ensures
        w == join(parts),
        may_repeat(t->min, t->max, parts.len()),
        forall|i: int| 0 <= i < parts.len() ==> read_match(*t->sub, d, #[trigger] parts[i]),
{
    let o = choose|o: Seq<Seq<u8>>|
        {
            &&& oriented(w, d) == #[trigger] join(o)
            &&& may_repeat(t->min, t->max, o.len())
            &&& forall|i: int| 0 <= i < o.len() ==> is_match(*t->sub, #[trigger] o[i])
        };
    let parts = oriented_parts(o, d);
    lemma_join_oriented(o, d);
    lemma_oriented_twice(o, d);
    assert(oriented(oriented(w, d), d) =~= w);
    assert forall|i: int| 0 <= i < parts.len() implies read_match(
        *t->sub,
        d,
        #[trigger] parts[i],
    ) by {
        let j = match d {
            Direction::Forward => i,
            Direction::Backward => o.len() - 1 - i,
        };
        assert(oriented(oriented(o[j], d), d) =~= o[j]);
    }
    parts
}

/// What is read is a match of a concatenation if its parts are matches.
proof fn lemma_concat_from_parts(es: Seq<Tree>, d: Direction, parts: Seq<Seq<u8>>)
    requires
        parts.len() == es.len(),
        forall|i: int|
            0 <= i < es.len() ==> read_match(oriented(es, d)[i], d, #[trigger] parts[i]),
    ensures
        read_match(Tree::Concat(es), d, join(parts)),
{
    let o = oriented_parts(parts, d);
    lemma_join_oriented(parts, d);
    lemma_oriented_twice(parts, d);
    assert forall|i: int| 0 <= i < es.len() implies is_match(es[i], #[trigger] o[i]) by {
        let j = match d {
            Direction::Forward => i,
            Direction::Backward => es.len() - 1 - i,
        };
        assert(read_match(oriented(es, d)[j], d, parts[j]));
    }
}

/// What is read as a match of a concatenation has parts that are matches.
pub proof fn lemma_concat_to_parts(es: Seq<Tree>, d: Direction, w: Seq<u8>) -> (parts: Seq<Seq<u8>>)
    requires
        read_match(Tree::Concat(es), d, w),
    ensures
        w == join(parts),
        parts.len() == es.len(),
        forall|i: int|
            0 <= i < es.len() ==> read_match(oriented(es, d)[i], d, #[trigger] parts[i]),
{
    let o = choose|o: Seq<Seq<u8>>|
        {
            &&& oriented(w, d) == #[trigger] join(o)
            &&& o.len() == es.len()
            &&& forall|i: int| 0 <= i < es.len() ==> is_match(es[i], #[trigger] o[i])
        };
    let parts = oriented_parts(o, d);
    lemma_join_oriented(o, d);
    lemma_oriented_twice(o, d);
    assert(oriented(oriented(w, d), d) =~= w);
    assert forall|i: int| 0 <= i < es.len() implies read_match(
        oriented(es, d)[i],
        d,
        #[trigger] parts[i],
    ) by {
        let j = match d {
            Direction::Forward => i,
            Direction::Backward => o.len() - 1 - i,
        };
        assert(oriented(oriented(o[j], d), d) =~= o[j]);
    }
    parts
}

/// What the machine does around the block of `e*`: it goes over the block or past
/// it, and prefers the block if the repetition is greedy.
pub proof fn lemma_star_shape(pre: Seq<u8>, greedy: bool, block: Seq<u8>, post: Seq<u8>)
    requires
        fits_offset(block.len() as int + 8),
        fits_offset(-(block.len() as int + 4)),
    ensures
        ({
            let c = pre + star_code(greedy, block) + post;
            let op = if greedy { Instr::SPLIT_A } else { Instr::SPLIT_B };
            let head = pre + offset_code(op, block.len() as int + 8);
            let tail = offset_code(Instr::JUMP, -(block.len() as int + 4)) + post;
            let start = pre.len() as int;
            let jump = start + 4 + block.len();
            let exit = jump + 4;
            &&& c == head + block + tail
            &&& head.len() == start + 4
            &&& star_code(greedy, block).len() == exit - start
            &&& targets(c, start) == if greedy {
                seq![start + 4, exit]
            } else {
                seq![exit, start + 4]
            }
            &&& forall|x: u8| !#[trigger] reads(c, start, x)
            &&& targets(c, jump) == seq![start]
            &&& forall|x: u8| !#[trigger] reads(c, jump, x)
        }),
{
    let c = pre + star_code(greedy, block) + post;
    let op = if greedy { Instr::SPLIT_A } else { Instr::SPLIT_B };
    let n = block.len() as int;
    let split = offset_code(op, n + 8);
    let back = offset_code(Instr::JUMP, -(n + 4));
    assert(c =~= pre + split + (block + back + post));
    lemma_at_offset(pre, op, n + 8, block + back + post);
    assert(c =~= (pre + split + block) + back + post);
    lemma_at_offset(pre + split + block, Instr::JUMP, -(n + 4), post);
    assert(c =~= (pre + split) + block + (back + post));
    let start = pre.len() as int;
    assert((pre + split + block).len() == start + 4 + n);
    assert(targets(c, start + 4 + n) =~= seq![start]);
}

/// What the machine does around the block of `e+`: after the block it goes back or
/// on, and prefers to go back if the repetition is greedy.
pub proof fn lemma_plus_shape(pre: Seq<u8>, greedy: bool, block: Seq<u8>, post: Seq<u8>)
    requires
        fits_offset(-(block.len() as int)),
    ensures
        ({
            let c = pre + plus_code(greedy, block) + post;
            let op = if greedy { Instr::SPLIT_B } else { Instr::SPLIT_A };
            let tail = offset_code(op, -(block.len() as int)) + post;
            let start = pre.len() as int;
            let split = start + block.len();
            let exit = split + 4;
            &&& c == pre + block + tail
            &&& plus_code(greedy, block).len() == exit - start
            &&& targets(c, split) == if greedy {
                seq![start, exit]
            } else {
                seq![exit, start]
            }
            &&& forall|x: u8| !#[trigger] reads(c, split, x)
        }),
{
    let c = pre + plus_code(greedy, block) + post;
    let op = if greedy { Instr::SPLIT_B } else { Instr::SPLIT_A };
    let n = block.len() as int;
    let split = offset_code(op, -n);
    assert(c =~= (pre + block) + split + post);
    lemma_at_offset(pre + block, op, -n, post);
    assert(c =~= pre + block + (split + post));
}

/// What follows block `i` in the code of an alternation.
pub open spec fn alt_tail(blocks: Seq<Seq<u8>>, jumps: Seq<int>, i: int, k: int) -> Seq<u8>
    decreases k - i,
{
    if k <= i + 1 {
        if i + 1 < blocks.len() {
            offset_code(Instr::JUMP, jumps[i])
        } else {
            seq![]
        }
    } else {
        alt_tail(blocks, jumps, i, k - 1) + blocks[k - 1] + if k < blocks.len() {
            offset_code(Instr::JUMP, jumps[k - 1])
        } else {
            seq![]
        }
    }
}

proof fn lemma_alt_tail(blocks: Seq<Seq<u8>>, jumps: Seq<int>, i: int, k: int)
    requires
        0 <= i < k <= blocks.len(),
    ensures
        alt_body(blocks, jumps, k) == alt_body(blocks, jumps, i) + blocks[i] + alt_tail(
            blocks,
            jumps,
            i,
            k,
        ),
        i + 1 < blocks.len() ==> {
            let tail = alt_tail(blocks, jumps, i, k);
            let jump = offset_code(Instr::JUMP, jumps[i]);
            tail == jump + tail.skip(4)
        },
        i + 1 == blocks.len() ==> alt_tail(blocks, jumps, i, k).len() == 0,
    decreases k,
{
    let tail = alt_tail(blocks, jumps, i, k);
    if k > i + 1 {
        lemma_alt_tail(blocks, jumps, i, k - 1);
        assert(alt_body(blocks, jumps, k) =~= alt_body(blocks, jumps, i) + blocks[i] + tail);
        let jump = offset_code(Instr::JUMP, jumps[i]);
        let before = alt_tail(blocks, jumps, i, k - 1);
        assert(before.take(4) =~= jump);
        assert(tail =~= jump + tail.skip(4));
    } else {
        if i + 1 < blocks.len() {
            assert(tail =~= tail + tail.skip(4));
        }
        assert(alt_body(blocks, jumps, k) =~= alt_body(blocks, jumps, i) + blocks[i] + tail);
    }
}

/// What the machine does around block `i` of an alternation: it goes to one of the
/// blocks, the earlier ones first, and from the end of the block to the end of the
/// alternation.
pub proof fn lemma_alt_shape(pre: Seq<u8>, blocks: Seq<Seq<u8>>, post: Seq<u8>, i: int)
    requires
        0 <= i < blocks.len() <= 255,
        crate::code::alt_fits(blocks),
    ensures
        ({
            let c = pre + alternation_code(blocks) + post;
            let head = pre + split_n_code(alt_starts(blocks)) + alt_body(
                blocks,
                alt_jumps(blocks),
                i,
            );
            let tail = alt_tail(blocks, alt_jumps(blocks), i, blocks.len() as int) + post;
            let start = pre.len() as int;
            &&& alternation_code(blocks).len() == alt_end(blocks) > 0
            &&& c == head + blocks[i] + tail
            &&& head.len() == start + alt_start(blocks, i)
            &&& targets(c, start) == Seq::new(
                blocks.len(),
                |k: int| start + alt_start(blocks, k),
            )
            &&& forall|x: u8| !#[trigger] reads(c, start, x)
            &&& i + 1 < blocks.len() ==> {
                let jump = start + alt_jump(blocks, i);
                &&& 0 <= jump < c.len()
                &&& targets(c, jump) == seq![start + alt_end(blocks)]
                &&& forall|x: u8| !#[trigger] reads(c, jump, x)
            }
        }),
{
    let n = blocks.len() as int;
    let starts = alt_starts(blocks);
    let jumps = alt_jumps(blocks);
    let c = pre + alternation_code(blocks) + post;
    let body = alt_body(blocks, jumps, n);
    let start = pre.len() as int;
    lemma_alt_layout_len(starts, blocks, jumps);
    lemma_alt_start_monotonic(blocks, 0, n - 1);
    assert forall|k: int| 0 <= k < starts.len() implies fits_offset(#[trigger] starts[k]) by {
        assert(fits_offset(alt_start(blocks, k)));
    }
    assert(c =~= pre + split_n_code(starts) + (body + post));
    lemma_at_split_n(pre, starts, body + post);
    assert(targets(c, start) =~= Seq::new(blocks.len(), |k: int| start + alt_start(blocks, k)));
    lemma_alt_tail(blocks, jumps, i, n);
    lemma_alt_body_len(blocks, jumps, i);
    let head = pre + split_n_code(starts) + alt_body(blocks, jumps, i);
    let tail = alt_tail(blocks, jumps, i, n);
    assert(c =~= head + blocks[i] + (tail + post));
    if i + 1 < n {
        let jump = offset_code(Instr::JUMP, jumps[i]);
        let before = head + blocks[i];
        assert(fits_offset(alt_end(blocks) - alt_jump(blocks, i)));
        assert(c =~= before + jump + (tail.skip(4) + post));
        lemma_at_offset(before, Instr::JUMP, jumps[i], tail.skip(4) + post);
        assert(targets(c, start + alt_jump(blocks, i)) =~= seq![start + alt_end(blocks)]);
    }
}

/// In both directions the offsets in the code of an alternation fit.
pub proof fn lemma_alt_fits_both(es: Seq<Tree>, d: Direction)
    requires
        supported(Tree::Alternation(es)),
    ensures
        crate::code::alt_fits(codes(es, d)),
{
    let f = codes(es, Direction::Forward);
    let b = codes(es, d);
    lemma_codes_len(es);
    let n = es.len() as int;
    assert forall|i: int| 0 <= i < b.len() implies fits_offset(#[trigger] alt_start(b, i)) by {
        lemma_alt_same_lens(f, b, i);
        assert(fits_offset(alt_start(f, i)));
    }
    assert forall|i: int| 0 <= i < b.len() - 1 implies fits_offset(
        alt_end(b) - #[trigger] alt_jump(b, i),
    ) by {
        lemma_alt_same_lens(f, b, i);
        lemma_alt_same_lens(f, b, n - 1);
        assert(fits_offset(alt_end(f) - alt_jump(f, i)));
    }
}

/// The code of a literal accepts the literal.
pub proof fn lemma_literal_complete(
    pre: Seq<u8>,
    bytes: Seq<u8>,
    post: Seq<u8>,
    rest: Seq<u8>,
)
    requires
        accepts(
            pre + literal_code(bytes) + post,
            (pre.len() + literal_code(bytes).len()) as int,
            rest,
        ),
    ensures
        accepts(pre + literal_code(bytes) + post, pre.len() as int, bytes + rest),
    decreases bytes.len(),
{
    let c = pre + literal_code(bytes) + post;
    if bytes.len() == 0 {
        assert(bytes + rest =~= rest);
    } else {
        let before = bytes.drop_last();
        let last = bytes.last();
        let head = pre + literal_code(before);
        assert(c =~= head + byte_code(last) + post);
        lemma_at_byte(head, last, post);
        lemma_read(c, head.len() as int, last, rest);
        assert(c =~= pre + literal_code(before) + (byte_code(last) + post));
        lemma_literal_complete(pre, before, byte_code(last) + post, seq![last] + rest);
        assert(before + (seq![last] + rest) =~= bytes + rest);
    }
}

/// The code of `e*`, after which the machine goes on, accepts several matches of
/// `e` in a row.
pub proof fn lemma_star_complete(
    pre: Seq<u8>,
    t: Tree,
    d: Direction,
    post: Seq<u8>,
    parts: Seq<Seq<u8>>,
    rest: Seq<u8>,
)
    requires
        t is Repetition,
        t->min == 0,
        supported(t),
        bytewise(t),
        forall|i: int| 0 <= i < parts.len() ==> read_match(*t->sub, d, #[trigger] parts[i]),
        accepts(pre + code(t, d) + post, (pre.len() + code(t, d).len()) as int, rest),
    ensures
        accepts(pre + code(t, d) + post, pre.len() as int, join(parts) + rest),
    decreases height(*t->sub), parts.len() + 1,
{
    let sub = *t->sub;
    let block = code(sub, d);
    let c = pre + code(t, d) + post;
    let start = pre.len() as int;
    lemma_code_len(sub);
    lemma_star_shape(pre, t->greedy, block, post);
    if parts.len() == 0 {
        assert(join(parts) + rest =~= rest);
        lemma_go(c, start, if t->greedy { 1 } else { 0 }, rest);
    } else {
        let first = parts[0];
        let others = parts.skip(1);
        lemma_star_complete(pre, t, d, post, others, rest);
        let after = join(others) + rest;
        lemma_go(c, start + 4 + block.len(), 0, after);
        let op = if t->greedy { Instr::SPLIT_A } else { Instr::SPLIT_B };
        let head = pre + offset_code(op, block.len() as int + 8);
        let tail = offset_code(Instr::JUMP, -(block.len() as int + 4)) + post;
        lemma_complete(head, sub, d, tail, first, after);
        lemma_go(c, start, if t->greedy { 0 } else { 1 }, first + after);
        assert(parts =~= seq![first] + others);
        lemma_join_cons(first, others);
        assert(join(parts) + rest =~= first + after);
    }
}

/// After the block in the code of `e+`, the machine accepts several matches of
/// `e` in a row.
pub proof fn lemma_plus_complete(
    pre: Seq<u8>,
    t: Tree,
    d: Direction,
    post: Seq<u8>,
    parts: Seq<Seq<u8>>,
    rest: Seq<u8>,
)
    requires
        t is Repetition,
        t->min == 1,
        supported(t),
        bytewise(t),
        forall|i: int| 0 <= i < parts.len() ==> read_match(*t->sub, d, #[trigger] parts[i]),
        accepts(pre + code(t, d) + post, (pre.len() + code(t, d).len()) as int, rest),
    ensures
        accepts(
            pre + code(t, d) + post,
            (pre.len() + code(*t->sub, d).len()) as int,
            join(parts) + rest,
        ),
    decreases height(*t->sub), parts.len() + 1,
{
    let sub = *t->sub;
    let block = code(sub, d);
    let c = pre + code(t, d) + post;
    let start = pre.len() as int;
    let split = start + block.len();
    lemma_code_len(sub);
    lemma_plus_shape(pre, t->greedy, block, post);
    if parts.len() == 0 {
        assert(join(parts) + rest =~= rest);
        lemma_go(c, split, if t->greedy { 1 } else { 0 }, rest);
    } else {
        let first = parts[0];
        let others = parts.skip(1);
        lemma_plus_complete(pre, t, d, post, others, rest);
        let after = join(others) + rest;
        let op = if t->greedy { Instr::SPLIT_B } else { Instr::SPLIT_A };
        let tail = offset_code(op, -(block.len() as int)) + post;
        lemma_complete(pre, sub, d, tail, first, after);
        lemma_go(c, split, if t->greedy { 0 } else { 1 }, first + after);
        assert(parts =~= seq![first] + others);
        lemma_join_cons(first, others);
        assert(join(parts) + rest =~= first + after);
    }
}

/// The code of several expressions in a row accepts a match of each.
pub proof fn lemma_list_complete(
    pre: Seq<u8>,
    list: Seq<Tree>,
    d: Direction,
    post: Seq<u8>,
    parts: Seq<Seq<u8>>,
    rest: Seq<u8>,
    h: nat,
)
    requires
        parts.len() == list.len(),
        forall|i: int| 0 <= i < list.len() ==> supported(#[trigger] list[i]),
        forall|i: int| 0 <= i < list.len() ==> bytewise(#[trigger] list[i]),
        forall|i: int| 0 <= i < list.len() ==> height(#[trigger] list[i]) <= h,
        forall|i: int| 0 <= i < list.len() ==> read_match(list[i], d, #[trigger] parts[i]),
        accepts(
            pre + join(codes(list, d)) + post,
            (pre.len() + join(codes(list, d)).len()) as int,
            rest,
        ),
    ensures
        accepts(pre + join(codes(list, d)) + post, pre.len() as int, join(parts) + rest),
    decreases h, list.len() + 1,
{
    let c = pre + join(codes(list, d)) + post;
    if list.len() == 0 {
        assert(join(parts) + rest =~= rest);
        assert(join(codes(list, d)) =~= seq![]);
    } else {
        let before = list.drop_last();
        let last = list.last();
        assert(codes(list, d).drop_last() =~= codes(before, d));
        let head = pre + join(codes(before, d));
        assert(c =~= head + code(last, d) + post);
        assert(read_match(last, d, parts[list.len() - 1]));
        assert(bytewise(list[list.len() - 1]) && supported(list[list.len() - 1]));
        assert(height(list[list.len() - 1]) <= h);
        lemma_complete(head, last, d, post, parts.last(), rest);
        assert(c =~= pre + join(codes(before, d)) + (code(last, d) + post));
        let after = parts.last() + rest;
        lemma_list_complete(pre, before, d, code(last, d) + post, parts.drop_last(), after, h);
        assert(join(parts.drop_last()) + after =~= join(parts) + rest);
    }
}

/// The code of a concatenation is that of its parts in the order in which they
/// are read.
pub proof fn lemma_concat_code(es: Seq<Tree>, d: Direction)
    ensures
        code(Tree::Concat(es), d) == join(codes(oriented(es, d), d)),
{
    match d {
        Direction::Forward => {},
        Direction::Backward => {
            assert(codes(es, d).reverse() =~= codes(es.reverse(), d));
        },
    }
}

/// The parts of a concatenation in the order in which they are read.
proof fn lemma_oriented_list(es: Seq<Tree>, d: Direction)
    requires
        supported(Tree::Concat(es)),
        bytewise(Tree::Concat(es)),
    ensures
        forall|i: int| 0 <= i < es.len() ==> supported(#[trigger] oriented(es, d)[i]),
        forall|i: int| 0 <= i < es.len() ==> bytewise(#[trigger] oriented(es, d)[i]),
        forall|i: int|
            0 <= i < es.len() ==> height(#[trigger] oriented(es, d)[i]) <= heights(es),
        oriented(es, d).len() == es.len(),
{
    let list = oriented(es, d);
    assert forall|i: int| 0 <= i < list.len() implies supported(#[trigger] list[i]) && bytewise(
        list[i],
    ) && height(list[i]) <= heights(es) by {
        let j = match d {
            Direction::Forward => i,
            Direction::Backward => es.len() - 1 - i,
        };
        lemma_heights(es, j);
        assert(list[i] == es[j]);
    }
}

/// The code of an alternation accepts a match of an alternative.
proof fn lemma_alternation_complete(
    pre: Seq<u8>,
    es: Seq<Tree>,
    d: Direction,
    post: Seq<u8>,
    w: Seq<u8>,
    rest: Seq<u8>,
)
    requires
        supported(Tree::Alternation(es)),
        bytewise(Tree::Alternation(es)),
        read_match(Tree::Alternation(es), d, w),
        accepts(
            pre + alternation_code(codes(es, d)) + post,
            (pre.len() + alternation_code(codes(es, d)).len()) as int,
            rest,
        ),
    ensures
        accepts(pre + alternation_code(codes(es, d)) + post, pre.len() as int, w + rest),
    decreases heights(es), 1nat,
{
    let c = pre + alternation_code(codes(es, d)) + post;
    let start = pre.len() as int;
    let i = choose|i: int|
        0 <= i < es.len() && is_match(#[trigger] es[i], oriented(w, d));
    let blocks = codes(es, d);
    lemma_alt_fits_both(es, d);
    lemma_alt_shape(pre, blocks, post, i);
    lemma_heights(es, i);
    let head = pre + split_n_code(alt_starts(blocks)) + alt_body(
        blocks,
        alt_jumps(blocks),
        i,
    );
    let tail = alt_tail(blocks, alt_jumps(blocks), i, blocks.len() as int) + post;
    if i + 1 < es.len() {
        lemma_go(c, start + alt_jump(blocks, i), 0, rest);
    }
    lemma_complete(head, es[i], d, tail, w, rest);
    lemma_go(c, start, i, w + rest);
}

/// The code of an expression, after which the machine goes on, accepts the
/// matches of the expression.
pub proof fn lemma_complete(
    pre: Seq<u8>,
    t: Tree,
    d: Direction,
    post: Seq<u8>,
    w: Seq<u8>,
    rest: Seq<u8>,
)
    requires
        supported(t),
        bytewise(t),
        read_match(t, d, w),
        accepts(pre + code(t, d) + post, (pre.len() + code(t, d).len()) as int, rest),
    ensures
        accepts(pre + code(t, d) + post, pre.len() as int, w + rest),
    decreases height(t), 0nat,
{
    let c = pre + code(t, d) + post;
    let start = pre.len() as int;
    match t {
        Tree::Literal(bytes) => {
            assert(oriented(oriented(w, d), d) =~= w);
            lemma_literal_complete(pre, oriented(bytes, d), post, rest);
        },
        Tree::Class(class) => {
            lemma_class_match_len(class, oriented(w, d));
            assert(oriented(w, d) =~= w);
            assert(w =~= seq![w[0]]);
            lemma_at_class(pre, class, post);
            lemma_read(c, start, w[0], rest);
        },
        Tree::Capture(sub) => lemma_complete(pre, *sub, d, post, w, rest),
        Tree::Repetition { min, sub, greedy, .. } => {
            let parts = lemma_repetition_to_parts(t, d, w);
            if min == 0 {
                lemma_star_complete(pre, t, d, post, parts, rest);
            } else {
                let block = code(*sub, d);
                let others = parts.skip(1);
                lemma_plus_complete(pre, t, d, post, others, rest);
                lemma_code_len(*sub);
                lemma_plus_shape(pre, greedy, block, post);
                let op = if greedy { Instr::SPLIT_B } else { Instr::SPLIT_A };
                let tail = offset_code(op, -(block.len() as int)) + post;
                lemma_complete(pre, *sub, d, tail, parts[0], join(others) + rest);
                assert(parts =~= seq![parts[0]] + others);
                lemma_join_cons(parts[0], others);
                assert(w + rest =~= parts[0] + (join(others) + rest));
            }
        },
        Tree::Concat(es) => {
            let parts = lemma_concat_to_parts(es, d, w);
            lemma_concat_code(es, d);
            lemma_oriented_list(es, d);
            let list = oriented(es, d);
            lemma_list_complete(pre, list, d, post, parts, rest, heights(es));
        },
        Tree::Alternation(es) => {
            lemma_alternation_complete(pre, es, d, post, w, rest);
        },
        _ => {},
    }
}

/// What the machine reads in the code of a literal is the literal.
pub proof fn lemma_literal_sound(
    pre: Seq<u8>,
    bytes: Seq<u8>,
    post: Seq<u8>,
    w: Seq<u8>,
    fuel: nat,
) -> (left: nat)
    requires
        accepts_within(pre + literal_code(bytes) + post, pre.len() as int, w, fuel),
    ensures
        left <= fuel,
        bytes.len() <= w.len(),
        w.take(bytes.len() as int) == bytes,
        accepts_within(
            pre + literal_code(bytes) + post,
            (pre.len() + literal_code(bytes).len()) as int,
            w.skip(bytes.len() as int),
            left,
        ),
    decreases bytes.len(),
{
    let c = pre + literal_code(bytes) + post;
    if bytes.len() == 0 {
        assert(w.skip(0) =~= w);
        assert(w.take(0) =~= bytes);
        fuel
    } else {
        let before = bytes.drop_last();
        let last = bytes.last();
        let n = before.len() as int;
        assert(c =~= pre + literal_code(before) + (byte_code(last) + post));
        let left = lemma_literal_sound(pre, before, byte_code(last) + post, w, fuel);
        let head = pre + literal_code(before);
        assert(c =~= head + byte_code(last) + post);
        lemma_at_byte(head, last, post);
        let u = w.skip(n);
        assert(head.len() < c.len());
        assert(u.len() > 0 && reads(c, head.len() as int, u[0]));
        assert(u.skip(1) =~= w.skip(n + 1));
        assert(w.take(n + 1) =~= bytes) by {
            assert(w.take(n) == before);
            assert forall|i: int| 0 <= i < n + 1 implies w[i] == bytes[i] by {
                if i < n {
                    assert(w.take(n)[i] == before[i]);
                }
            }
        }
        (left - 1) as nat
    }
}

/// The input is read in parts, after which there is `left` fuel left.
pub open spec fn read_in_parts(
    c: Seq<u8>,
    exit: int,
    w: Seq<u8>,
    parts: Seq<Seq<u8>>,
    left: nat,
) -> bool {
    &&& join(parts).len() <= w.len()
    &&& w.take(join(parts).len() as int) == join(parts)
    &&& accepts_within(c, exit, w.skip(join(parts).len() as int), left)
}

proof fn lemma_read_more(
    c: Seq<u8>,
    exit: int,
    w: Seq<u8>,
    n: int,
    parts: Seq<Seq<u8>>,
    left: nat,
)
    requires
        0 <= n <= w.len(),
        read_in_parts(c, exit, w.skip(n), parts, left),
    ensures
        read_in_parts(c, exit, w, seq![w.take(n)] + parts, left),
{
    let first = w.take(n);
    let k = join(parts).len() as int;
    lemma_join_cons(first, parts);
    assert(w.take(n + k) =~= first + w.skip(n).take(k));
    assert(w.skip(n).skip(k) =~= w.skip(n + k));
}

/// What the machine reads in the code of `e*` are matches of `e` in a row.
proof fn lemma_star_sound(
    pre: Seq<u8>,
    t: Tree,
    d: Direction,
    post: Seq<u8>,
    w: Seq<u8>,
    fuel: nat,
) -> (r: (Seq<Seq<u8>>, nat))
    requires
        t is Repetition,
        t->min == 0,
        supported(t),
        bytewise(t),
        accepts_within(pre + code(t, d) + post, pre.len() as int, w, fuel),
    ensures
        r.1 <= fuel,
        forall|i: int| 0 <= i < r.0.len() ==> read_match(*t->sub, d, #[trigger] r.0[i]),
        read_in_parts(
            pre + code(t, d) + post,
            (pre.len() + code(t, d).len()) as int,
            w,
            r.0,
            r.1,
        ),
    decreases fuel, height(*t->sub), 1nat,
{
    let sub = *t->sub;
    let block = code(sub, d);
    let c = pre + code(t, d) + post;
    let start = pre.len() as int;
    let jump = start + 4 + block.len();
    let exit = jump + 4;
    lemma_code_len(sub);
    lemma_star_shape(pre, t->greedy, block, post);
    let f = (fuel - 1) as nat;
    let none = Seq::<Seq<u8>>::empty();
    if accepts_within(c, exit, w, f) {
        assert(w.take(0) =~= join(none));
        assert(w.skip(0) =~= w);
        (none, f)
    } else {
        assert(accepts_within(c, start + 4, w, f));
        let op = if t->greedy { Instr::SPLIT_A } else { Instr::SPLIT_B };
        let head = pre + offset_code(op, block.len() as int + 8);
        let tail = offset_code(Instr::JUMP, -(block.len() as int + 4)) + post;
        let (n, f1) = lemma_sound(head, sub, d, tail, w, f);
        assert(targets(c, jump)[0] == start);
        assert(accepts_within(c, start, w.skip(n), (f1 - 1) as nat));
        let (parts, left) = lemma_star_sound(pre, t, d, post, w.skip(n), (f1 - 1) as nat);
        lemma_read_more(c, exit, w, n, parts, left);
        (seq![w.take(n)] + parts, left)
    }
}

/// What the machine reads in the code of `e+` are one or more matches of `e` in a
/// row.
pub proof fn lemma_plus_sound(
    pre: Seq<u8>,
    t: Tree,
    d: Direction,
    post: Seq<u8>,
    w: Seq<u8>,
    fuel: nat,
) -> (r: (Seq<Seq<u8>>, nat))
    requires
        t is Repetition,
        t->min == 1,
        supported(t),
        bytewise(t),
        accepts_within(pre + code(t, d) + post, pre.len() as int, w, fuel),
    ensures
        r.1 <= fuel,
        r.0.len() > 0,
        forall|i: int| 0 <= i < r.0.len() ==> read_match(*t->sub, d, #[trigger] r.0[i]),
        read_in_parts(
            pre + code(t, d) + post,
            (pre.len() + code(t, d).len()) as int,
            w,
            r.0,
            r.1,
        ),
    decreases fuel, height(*t->sub), 1nat,
{
    let sub = *t->sub;
    let block = code(sub, d);
    let c = pre + code(t, d) + post;
    let start = pre.len() as int;
    let split = start + block.len();
    let exit = split + 4;
    lemma_code_len(sub);
    lemma_plus_shape(pre, t->greedy, block, post);
    let op = if t->greedy { Instr::SPLIT_B } else { Instr::SPLIT_A };
    let tail = offset_code(op, -(block.len() as int)) + post;
    let (n, f1) = lemma_sound(pre, sub, d, tail, w, fuel);
    let f = (f1 - 1) as nat;
    let none = Seq::<Seq<u8>>::empty();
    let u = w.skip(n);
    if accepts_within(c, exit, u, f) {
        assert(u.take(0) =~= join(none));
        assert(u.skip(0) =~= u);
        lemma_read_more(c, exit, w, n, none, f);
        (seq![w.take(n)] + none, f)
    } else {
        assert(accepts_within(c, start, u, f));
        let (parts, left) = lemma_plus_sound(pre, t, d, post, u, f);
        lemma_read_more(c, exit, w, n, parts, left);
        (seq![w.take(n)] + parts, left)
    }
}

/// What the machine reads in the code of several expressions in a row is a match
/// of each.
pub proof fn lemma_list_sound(
    pre: Seq<u8>,
    list: Seq<Tree>,
    d: Direction,
    post: Seq<u8>,
    w: Seq<u8>,
    fuel: nat,
    h: nat,
) -> (r: (Seq<Seq<u8>>, nat))
    requires
        forall|i: int| 0 <= i < list.len() ==> supported(#[trigger] list[i]),
        forall|i: int| 0 <= i < list.len() ==> bytewise(#[trigger] list[i]),
        forall|i: int| 0 <= i < list.len() ==> height(#[trigger] list[i]) <= h,
        accepts_within(pre + join(codes(list, d)) + post, pre.len() as int, w, fuel),
    ensures
        r.1 <= fuel,
        r.0.len() == list.len(),
        forall|i: int| 0 <= i < list.len() ==> read_match(list[i], d, #[trigger] r.0[i]),
        read_in_parts(
            pre + join(codes(list, d)) + post,
            (pre.len() + join(codes(list, d)).len()) as int,
            w,
            r.0,
            r.1,
        ),
    decreases fuel, h, list.len() + 1,
{
    let c = pre + join(codes(list, d)) + post;
    if list.len() == 0 {
        let none = Seq::<Seq<u8>>::empty();
        assert(w.take(0) =~= join(none));
        assert(w.skip(0) =~= w);
        assert(join(codes(list, d)) =~= seq![]);
        (none, fuel)
    } else {
        let before = list.drop_last();
        let last = list.last();
        assert(codes(list, d).drop_last() =~= codes(before, d));
        assert(c =~= pre + join(codes(before, d)) + (code(last, d) + post));
        let (parts, f) = lemma_list_sound(pre, before, d, code(last, d) + post, w, fuel, h);
        let head = pre + join(codes(before, d));
        assert(c =~= head + code(last, d) + post);
        let k = join(parts).len() as int;
        let u = w.skip(k);
        assert(bytewise(list[list.len() - 1]) && supported(list[list.len() - 1]));
        assert(height(list[list.len() - 1]) <= h);
        let (n, left) = lemma_sound(head, last, d, post, u, f);
        let all = parts.push(u.take(n));
        lemma_join_push(parts, u.take(n));
        assert(w.take(k + n) =~= w.take(k) + u.take(n));
        assert(u.skip(n) =~= w.skip(k + n));
        assert forall|i: int| 0 <= i < list.len() implies read_match(
            list[i],
            d,
            #[trigger] all[i],
        ) by {
            if i < list.len() - 1 {
                assert(read_match(before[i], d, parts[i]));
            }
        }
        (all, left)
    }
}

/// What the machine reads in the code of an alternation is a match of an
/// alternative.
proof fn lemma_alternation_sound(
    pre: Seq<u8>,
    es: Seq<Tree>,
    d: Direction,
    post: Seq<u8>,
    w: Seq<u8>,
    fuel: nat,
) -> (r: (int, nat))
    requires
        supported(Tree::Alternation(es)),
        bytewise(Tree::Alternation(es)),
        accepts_within(
            pre + alternation_code(codes(es, d)) + post,
            pre.len() as int,
            w,
            fuel,
        ),
    ensures
        0 <= r.0 <= w.len(),
        r.1 <= fuel,
        read_match(Tree::Alternation(es), d, w.take(r.0)),
        accepts_within(
            pre + alternation_code(codes(es, d)) + post,
            (pre.len() + alternation_code(codes(es, d)).len()) as int,
            w.skip(r.0),
            r.1,
        ),
    decreases fuel, heights(es), 1nat,
{
    let c = pre + alternation_code(codes(es, d)) + post;
    let start = pre.len() as int;
    let blocks = codes(es, d);
    lemma_alt_fits_both(es, d);
    lemma_alt_shape(pre, blocks, post, 0);
    let f = (fuel - 1) as nat;
    let i = choose|i: int|
        0 <= i < targets(c, start).len() && accepts_within(
            c,
            #[trigger] targets(c, start)[i],
            w,
            f,
        );
    lemma_alt_shape(pre, blocks, post, i);
    lemma_heights(es, i);
    let head = pre + split_n_code(alt_starts(blocks)) + alt_body(
        blocks,
        alt_jumps(blocks),
        i,
    );
    let tail = alt_tail(blocks, alt_jumps(blocks), i, blocks.len() as int) + post;
    let (n, f1) = lemma_sound(head, es[i], d, tail, w, f);
    assert(is_match(es[i], oriented(w.take(n), d)));
    if i + 1 < es.len() {
        (n, (f1 - 1) as nat)
    } else {
        (n, f1)
    }
}

/// What the machine reads in the code of an expression is a match of the
/// expression.
proof fn lemma_sound(
    pre: Seq<u8>,
    t: Tree,
    d: Direction,
    post: Seq<u8>,
    w: Seq<u8>,
    fuel: nat,
) -> (r: (int, nat))
    requires
        supported(t),
        bytewise(t),
        accepts_within(pre + code(t, d) + post, pre.len() as int, w, fuel),
    ensures
        0 <= r.0 <= w.len(),
        r.1 <= fuel,
        read_match(t, d, w.take(r.0)),
        accepts_within(
            pre + code(t, d) + post,
            (pre.len() + code(t, d).len()) as int,
            w.skip(r.0),
            r.1,
        ),
    decreases fuel, height(t), 0nat,
{
    let c = pre + code(t, d) + post;
    let start = pre.len() as int;
    match t {
        Tree::Literal(bytes) => {
            let o = oriented(bytes, d);
            let left = lemma_literal_sound(pre, o, post, w, fuel);
            assert(oriented(o, d) =~= bytes);
            (o.len() as int, left)
        },
        Tree::Class(class) => {
            lemma_at_class(pre, class, post);
            assert(w.len() > 0 && reads(c, start, w[0]));
            assert(w.take(1) =~= seq![w[0]]);
            assert(oriented(w.take(1), d) =~= w.take(1));
            (1, (fuel - 1) as nat)
        },
        Tree::Capture(sub) => lemma_sound(pre, *sub, d, post, w, fuel),
        Tree::Repetition { min, .. } => {
            let (parts, left) = if min == 0 {
                lemma_star_sound(pre, t, d, post, w, fuel)
            } else {
                lemma_plus_sound(pre, t, d, post, w, fuel)
            };
            lemma_repetition_from_parts(t, d, parts);
            (join(parts).len() as int, left)
        },
        Tree::Concat(es) => {
            lemma_concat_code(es, d);
            lemma_oriented_list(es, d);
            let list = oriented(es, d);
            let (parts, left) = lemma_list_sound(pre, list, d, post, w, fuel, heights(es));
            lemma_concat_from_parts(es, d, parts);
            (join(parts).len() as int, left)
        },
        Tree::Alternation(es) => {
            lemma_alternation_sound(pre, es, d, post, w, fuel)
        },
        _ => (0, fuel),
    }
}

/// The code of an expression accepts the matches of the expression, and nothing
/// else. (Code that reads its input backwards is given a match backwards.)
pub proof fn lemma_code_correct(t: Tree, d: Direction, w: Seq<u8>)
    requires
        supported(t),
        bytewise(t),
    ensures
        accepts(code(t, d), 0, oriented(w, d)) <==> is_match(t, w),
{
    let c = code(t, d);
    let o = oriented(w, d);
    let none = Seq::<u8>::empty();
    let end = c.len() as int;
    assert(none + c + none =~= c);
    assert(oriented(o, d) =~= w);
    if is_match(t, w) {
        assert(accepts_within(c, end, none, 0));
        lemma_complete(none, t, d, none, o, none);
        assert(o + none =~= o);
    }
    if accepts(c, 0, o) {
        let fuel = choose|fuel: nat| accepts_within(c, 0, o, fuel);
        let (n, left) = lemma_sound(none, t, d, none, o, fuel);
        assert(o.skip(n).len() == 0);
        assert(o.take(n) =~= o);
    }
}

/// What the machine accepts from the start of the code of an expression starts
/// with a match of the expression.
pub proof fn lemma_accepted(
    pre: Seq<u8>,
    t: Tree,
    d: Direction,
    post: Seq<u8>,
    w: Seq<u8>,
) -> (n: int)
    requires
        supported(t),
        bytewise(t),
        accepts(pre + code(t, d) + post, pre.len() as int, w),
    ensures
        0 <= n <= w.len(),
        read_match(t, d, w.take(n)),
        accepts(pre + code(t, d) + post, (pre.len() + code(t, d).len()) as int, w.skip(n)),
{
    let c = pre + code(t, d) + post;
    let start = pre.len() as int;
    let fuel = choose|fuel: nat| accepts_within(c, start, w, fuel);
    let (n, left) = lemma_sound(pre, t, d, post, w, fuel);
    n
}

} // verus!
