//! How blocks of code lie in the code around them.

use vstd::prelude::*;

use crate::code::{
    alt_body, alt_end, alt_jump, alt_layout, alt_start, code, codes, join,
    lemma_reversed_literal_len, Direction,
};
use crate::expr::Tree;
use crate::instr::{
    has_offset_at, has_split_n_at, offset_code, patched, patched_split_n, split_n_code,
    takes_offset, Instr, OPCODE_PREFIX,
};

verus! {

/// Replacing an offset within a block leaves what surrounds the block alone.
pub proof fn lemma_patched_within(pre: Seq<u8>, block: Seq<u8>, post: Seq<u8>, at: int, v: int)
    requires
        0 <= at,
        at + 4 <= block.len(),
    ensures
        patched(pre + block + post, pre.len() + at, v) == pre + patched(block, at, v) + post,
{
    assert(patched(pre + block + post, pre.len() + at, v) =~= pre + patched(block, at, v) + post);
}

/// An instruction is found where it was written, and gets the offset that it is
/// given.
pub proof fn lemma_patched_instr(pre: Seq<u8>, op: u8, o: int, post: Seq<u8>, v: int)
    requires
        takes_offset(op),
    ensures
        has_offset_at(pre + offset_code(op, o) + post, pre.len() as int),
        patched(pre + offset_code(op, o) + post, pre.len() as int, v) == pre + offset_code(op, v)
            + post,
{
    let c = pre + offset_code(op, o) + post;
    assert(c[pre.len() as int] == OPCODE_PREFIX);
    assert(c[pre.len() as int + 1] == op);
    assert(patched(c, pre.len() as int, v) =~= pre + offset_code(op, v) + post);
}

/// The length of several blocks in a row does not depend on their order.
pub proof fn lemma_join_reverse_len(blocks: Seq<Seq<u8>>)
    ensures
        join(blocks.reverse()).len() == join(blocks).len(),
    decreases blocks.len(),
{
    if blocks.len() > 0 {
        let r = blocks.reverse();
        lemma_join_split(r, 1);
        assert(r.skip(1) =~= blocks.drop_last().reverse());
        assert(r.take(1) =~= seq![blocks.last()]);
        assert(join(r.take(1).drop_last()) =~= seq![]);
        assert(join(r.take(1)) =~= blocks.last());
        lemma_join_reverse_len(blocks.drop_last());
    } else {
        assert(blocks.reverse() =~= blocks);
    }
}

/// Several blocks in a row are the first of them and the rest of them.
pub proof fn lemma_join_split(blocks: Seq<Seq<u8>>, n: int)
    requires
        0 <= n <= blocks.len(),
    ensures
        join(blocks) == join(blocks.take(n)) + join(blocks.skip(n)),
    decreases blocks.len(),
{
    if n == blocks.len() {
        assert(blocks.take(n) =~= blocks);
        assert(join(blocks.skip(n)) =~= seq![]);
        assert(join(blocks) =~= join(blocks) + join(blocks.skip(n)));
    } else {
        lemma_join_split(blocks.drop_last(), n);
        assert(blocks.drop_last().take(n) =~= blocks.take(n));
        assert(blocks.drop_last().skip(n) =~= blocks.skip(n).drop_last());
        assert(join(blocks) =~= join(blocks.take(n)) + join(blocks.skip(n)));
    }
}

/// Blocks of the same lengths, one by one.
pub open spec fn same_lens(a: Seq<Seq<u8>>, b: Seq<Seq<u8>>) -> bool {
    &&& a.len() == b.len()
    &&& forall|i: int| 0 <= i < a.len() ==> (#[trigger] a[i]).len() == b[i].len()
}

pub proof fn lemma_join_same_lens(a: Seq<Seq<u8>>, b: Seq<Seq<u8>>)
    requires
        same_lens(a, b),
    ensures
        join(a).len() == join(b).len(),
    decreases a.len(),
{
    if a.len() > 0 {
        lemma_join_same_lens(a.drop_last(), b.drop_last());
    }
}

pub proof fn lemma_alt_same_lens(a: Seq<Seq<u8>>, b: Seq<Seq<u8>>, i: int)
    requires
        same_lens(a, b),
        0 <= i <= a.len(),
    ensures
        alt_start(a, i) == alt_start(b, i),
        i < a.len() ==> alt_jump(a, i) == alt_jump(b, i),
    decreases i,
{
    if i > 0 {
        lemma_alt_same_lens(a, b, i - 1);
    }
}

/// Later alternatives start later.
pub proof fn lemma_alt_start_monotonic(blocks: Seq<Seq<u8>>, i: int, j: int)
    requires
        0 <= i <= j <= blocks.len(),
    ensures
        alt_start(blocks, i) <= alt_start(blocks, j),
        i < j ==> alt_jump(blocks, i) + 4 <= alt_start(blocks, j),
    decreases j - i,
{
    if i < j {
        lemma_alt_start_monotonic(blocks, i, j - 1);
    }
}

/// The length of the first blocks of an alternation and their jumps.
pub proof fn lemma_alt_body_len(blocks: Seq<Seq<u8>>, jumps: Seq<int>, k: int)
    requires
        0 <= k <= blocks.len(),
    ensures
        k < blocks.len() ==> alt_body(blocks, jumps, k).len() == alt_start(blocks, k) - alt_start(
            blocks,
            0,
        ),
        k == blocks.len() && k > 0 ==> alt_body(blocks, jumps, k).len() == alt_end(blocks)
            - alt_start(blocks, 0),
    decreases k,
{
    if k > 0 {
        lemma_alt_body_len(blocks, jumps, k - 1);
    }
}

/// The length of the code of an alternation.
pub proof fn lemma_alt_layout_len(starts: Seq<int>, blocks: Seq<Seq<u8>>, jumps: Seq<int>)
    requires
        blocks.len() > 0,
        starts.len() == blocks.len(),
    ensures
        alt_layout(starts, blocks, jumps).len() == alt_end(blocks),
{
    lemma_alt_body_len(blocks, jumps, blocks.len() as int);
}

/// The jumps that are not among the first do not matter to the first blocks.
pub proof fn lemma_alt_body_jumps(blocks: Seq<Seq<u8>>, a: Seq<int>, b: Seq<int>, k: int)
    requires
        0 <= k <= blocks.len(),
        forall|i: int| 0 <= i < k && i + 1 < blocks.len() ==> #[trigger] a[i] == b[i],
    ensures
        alt_body(blocks, a, k) == alt_body(blocks, b, k),
    decreases k,
{
    if k > 0 {
        lemma_alt_body_jumps(blocks, a, b, k - 1);
    }
}

/// A jump of an alternation is found where it was written, and gets the offset
/// that it is given.
pub proof fn lemma_alt_body_patched(
    blocks: Seq<Seq<u8>>,
    jumps: Seq<int>,
    k: int,
    i: int,
    v: int,
)
    requires
        0 <= i < k <= blocks.len(),
        i < blocks.len() - 1,
        jumps.len() == blocks.len(),
    ensures
        ({
            let at = alt_jump(blocks, i) - alt_start(blocks, 0);
            &&& has_offset_at(alt_body(blocks, jumps, k), at)
            &&& patched(alt_body(blocks, jumps, k), at, v) == alt_body(
                blocks,
                jumps.update(i, v),
                k,
            )
        }),
    decreases k,
{
    let at = alt_jump(blocks, i) - alt_start(blocks, 0);
    let new = jumps.update(i, v);
    if k == i + 1 {
        lemma_alt_body_len(blocks, jumps, i);
        lemma_alt_body_jumps(blocks, jumps, new, i);
        let pre = alt_body(blocks, jumps, i) + blocks[i];
        lemma_patched_instr(pre, Instr::JUMP, jumps[i], seq![], v);
        assert(pre + offset_code(Instr::JUMP, jumps[i]) + seq![] =~= alt_body(blocks, jumps, k));
        assert(pre + offset_code(Instr::JUMP, v) + seq![] =~= alt_body(blocks, new, k));
    } else {
        lemma_alt_body_patched(blocks, jumps, k - 1, i, v);
        let rest = blocks[k - 1] + if k < blocks.len() {
            offset_code(Instr::JUMP, jumps[k - 1])
        } else {
            seq![]
        };
        let before = alt_body(blocks, jumps, k - 1);
        assert(seq![] + before + rest =~= alt_body(blocks, jumps, k));
        lemma_patched_within(seq![], before, rest, at, v);
        assert(seq![] + alt_body(blocks, new, k - 1) + rest =~= alt_body(blocks, new, k));
    }
}

/// The same of the code of the whole alternation, in its surroundings.
pub proof fn lemma_alt_patched(
    pre: Seq<u8>,
    starts: Seq<int>,
    blocks: Seq<Seq<u8>>,
    jumps: Seq<int>,
    i: int,
    v: int,
)
    requires
        0 <= i < blocks.len() - 1,
        jumps.len() == blocks.len(),
        starts.len() == blocks.len(),
    ensures
        ({
            let c = pre + alt_layout(starts, blocks, jumps);
            let at = pre.len() + alt_jump(blocks, i);
            &&& has_offset_at(c, at)
            &&& patched(c, at, v) == pre + alt_layout(starts, blocks, jumps.update(i, v))
        }),
{
    let n = blocks.len() as int;
    let head = pre + split_n_code(starts);
    let body = alt_body(blocks, jumps, n);
    let c = pre + alt_layout(starts, blocks, jumps);
    let rel = alt_jump(blocks, i) - alt_start(blocks, 0);
    let at = pre.len() + alt_jump(blocks, i);
    lemma_alt_body_patched(blocks, jumps, n, i, v);
    assert(c =~= head + body + seq![]);
    assert(head.len() == pre.len() + alt_start(blocks, 0));
    lemma_patched_within(head, body, seq![], rel, v);
    assert(c[at] == body[rel] && c[at + 1] == body[rel + 1]);
    assert(pre + alt_layout(starts, blocks, jumps.update(i, v)) =~= head + patched(body, rel, v)
        + seq![]);
}

/// The `split_n` of an alternation is found where it was written, and gets the
/// offsets that it is given.
pub proof fn lemma_split_n_patched(
    pre: Seq<u8>,
    starts: Seq<int>,
    post: Seq<u8>,
    new_starts: Seq<int>,
)
    requires
        starts.len() == new_starts.len(),
        starts.len() <= 255,
    ensures
        has_split_n_at(pre + split_n_code(starts) + post, pre.len() as int, starts.len()),
        patched_split_n(pre + split_n_code(starts) + post, pre.len() as int, new_starts) == pre
            + split_n_code(new_starts) + post,
{
    let c = pre + split_n_code(starts) + post;
    let at = pre.len() as int;
    assert(c[at] == OPCODE_PREFIX);
    assert(c[at + 1] == Instr::SPLIT_N);
    assert(c[at + 2] == starts.len() as u8);
    let new = pre + split_n_code(new_starts) + post;
    let p = patched_split_n(c, at, new_starts);
    assert(p.len() == new.len());
    assert forall|i: int| 0 <= i < p.len() implies p[i] == new[i] by {
        if at + 3 <= i < at + 3 + 2 * new_starts.len() {
            assert(new[i] == split_n_code(new_starts)[i - at]);
        } else if i < at {
        } else if i < at + 3 {
            assert(c[i] == split_n_code(starts)[i - at]);
            assert(new[i] == split_n_code(new_starts)[i - at]);
        } else {
            assert(c[i] == post[i - at - 3 - 2 * starts.len()]);
        }
    }
    assert(p =~= new);
}

/// An expression has code of the same length in both directions.
pub proof fn lemma_code_len(t: Tree)
    ensures
        code(t, Direction::Forward).len() == code(t, Direction::Backward).len(),
    decreases t, 0int,
{
    match t {
        Tree::Literal(bytes) => lemma_reversed_literal_len(bytes),
        Tree::Capture(sub) => lemma_code_len(*sub),
        Tree::Repetition { sub, .. } => lemma_code_len(*sub),
        Tree::Concat(es) => {
            lemma_codes_len(es);
            lemma_join_same_lens(codes(es, Direction::Forward), codes(es, Direction::Backward));
            lemma_join_reverse_len(codes(es, Direction::Backward));
        },
        Tree::Alternation(es) => {
            lemma_codes_len(es);
            let f = codes(es, Direction::Forward);
            let b = codes(es, Direction::Backward);
            if es.len() > 0 {
                lemma_alt_layout_len(crate::code::alt_starts(f), f, crate::code::alt_jumps(f));
                lemma_alt_layout_len(crate::code::alt_starts(b), b, crate::code::alt_jumps(b));
                lemma_alt_same_lens(f, b, es.len() - 1);
            }
        },
        _ => {},
    }
}

/// Each of the expressions has code of the same length in both directions.
pub proof fn lemma_codes_len(es: Seq<Tree>)
    ensures
        same_lens(codes(es, Direction::Forward), codes(es, Direction::Backward)),
    decreases es, 0int,
{
    assert forall|i: int| 0 <= i < es.len() implies (
    #[trigger] codes(es, Direction::Forward)[i]).len() == codes(
        es,
        Direction::Backward,
    )[i].len() by {
        lemma_code_len(es[i]);
    }
}

} // verus!
