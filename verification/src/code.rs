//! The code that stands for a regular expression.

use vstd::prelude::*;

use crate::class::{canonical_chars, hex_byte_of, is_any, ClassModel};
use crate::expr::Tree;
use crate::instr::{
    byte_class_code, byte_code, fits_offset, instr_code, lemma_literal_code_split, literal_code,
    masked_byte_code, offset_code, split_n_code, Instr,
};

verus! {

/// The order in which code reads its input: from the first byte of a match to
/// the last, or from the last to the first.
pub ghost enum Direction {
    Forward,
    Backward,
}

/// A sequence in the order in which it is read.
pub open spec fn oriented<A>(s: Seq<A>, d: Direction) -> Seq<A> {
    match d {
        Direction::Forward => s,
        Direction::Backward => s.reverse(),
    }
}

/// Several blocks of code, one after the other.
pub open spec fn join(blocks: Seq<Seq<u8>>) -> Seq<u8>
    decreases blocks.len(),
{
    if blocks.len() == 0 {
        seq![]
    } else {
        join(blocks.drop_last()) + blocks.last()
    }
}

/// The class holds ASCII characters only.
pub open spec fn is_ascii_class(ranges: Seq<(char, char)>) -> bool {
    ranges.len() > 0 ==> ranges.last().1 <= '\x7F'
}

/// The bytes of a class of ASCII characters.
pub open spec fn ascii_ranges(ranges: Seq<(char, char)>) -> Seq<(u8, u8)> {
    Seq::new(ranges.len(), |i: int| (ranges[i].0 as u8, ranges[i].1 as u8))
}

/// The code that matches a character of a class that does not hold everything.
pub open spec fn listed_class_code(c: ClassModel) -> Seq<u8> {
    match c {
        ClassModel::Bytes(ranges) => match hex_byte_of(ranges) {
            Some(h) => masked_byte_code(h),
            None => byte_class_code(ranges),
        },
        ClassModel::Unicode(ranges) => byte_class_code(ascii_ranges(ranges)),
    }
}

/// The code that matches a character of a class.
pub open spec fn class_code(c: ClassModel) -> Seq<u8> {
    if is_any(c) {
        instr_code(Instr::ANY_BYTE)
    } else {
        listed_class_code(c)
    }
}

/// The code of an alternation starts with a `split_n`; the blocks of code for
/// the alternatives follow, with a jump after each of them but the last. This is
/// where block `i` starts.
pub open spec fn alt_start(blocks: Seq<Seq<u8>>, i: int) -> int
    decreases i,
{
    if i <= 0 {
        3 + 2 * blocks.len() as int
    } else {
        alt_start(blocks, i - 1) + blocks[i - 1].len() + 4
    }
}

/// Where the jump after block `i` is.
pub open spec fn alt_jump(blocks: Seq<Seq<u8>>, i: int) -> int {
    alt_start(blocks, i) + blocks[i].len()
}

/// Where the code of an alternation ends.
pub open spec fn alt_end(blocks: Seq<Seq<u8>>) -> int {
    alt_jump(blocks, blocks.len() - 1)
}

/// The first `k` blocks of an alternation, with the jumps that follow them.
pub open spec fn alt_body(blocks: Seq<Seq<u8>>, jumps: Seq<int>, k: int) -> Seq<u8>
    decreases k,
{
    if k <= 0 {
        seq![]
    } else {
        alt_body(blocks, jumps, k - 1) + blocks[k - 1] + if k < blocks.len() {
            offset_code(Instr::JUMP, jumps[k - 1])
        } else {
            seq![]
        }
    }
}

/// The code of an alternation with the given offsets.
pub open spec fn alt_layout(
    starts: Seq<int>,
    blocks: Seq<Seq<u8>>,
    jumps: Seq<int>,
) -> Seq<u8> {
    split_n_code(starts) + alt_body(blocks, jumps, blocks.len() as int)
}

/// The offsets of the `split_n`: each leads to a block.
pub open spec fn alt_starts(blocks: Seq<Seq<u8>>) -> Seq<int> {
    Seq::new(blocks.len(), |i: int| alt_start(blocks, i))
}

/// The offsets of the jumps: each leads to the end.
pub open spec fn alt_jumps(blocks: Seq<Seq<u8>>) -> Seq<int> {
    Seq::new(blocks.len(), |i: int| alt_end(blocks) - alt_jump(blocks, i))
}

/// The code that matches what any of the blocks matches.
pub open spec fn alternation_code(blocks: Seq<Seq<u8>>) -> Seq<u8> {
    alt_layout(alt_starts(blocks), blocks, alt_jumps(blocks))
}

/// The code that matches what `block` matches any number of times in a row.
pub open spec fn star_code(greedy: bool, block: Seq<u8>) -> Seq<u8> {
    offset_code(
        if greedy { Instr::SPLIT_A } else { Instr::SPLIT_B },
        block.len() as int + 8,
    ) + block + offset_code(Instr::JUMP, -(block.len() as int + 4))
}

/// The code that matches what `block` matches one or more times in a row.
pub open spec fn plus_code(greedy: bool, block: Seq<u8>) -> Seq<u8> {
    block + offset_code(
        if greedy { Instr::SPLIT_B } else { Instr::SPLIT_A },
        -(block.len() as int),
    )
}

/// The code that matches a regular expression, reading its input in the given
/// direction.
pub open spec fn code(t: Tree, d: Direction) -> Seq<u8>
    decreases t,
{
    match t {
        Tree::Literal(bytes) => literal_code(oriented(bytes, d)),
        Tree::Class(c) => class_code(c),
        Tree::Capture(sub) => code(*sub, d),
        Tree::Concat(es) => match d {
            Direction::Forward => join(codes(es, d)),
            Direction::Backward => join(codes(es, d).reverse()),
        },
        Tree::Alternation(es) => alternation_code(codes(es, d)),
        Tree::Repetition { min, greedy, sub, .. } => if min == 0 {
            star_code(greedy, code(*sub, d))
        } else {
            plus_code(greedy, code(*sub, d))
        },
        _ => seq![],
    }
}

/// The code of each expression.
pub open spec fn codes(es: Seq<Tree>, d: Direction) -> Seq<Seq<u8>>
    decreases es,
{
    Seq::new(
        es.len(),
        |i: int|
            if 0 <= i < es.len() {
                code(es[i], d)
            } else {
                seq![]
            },
    )
}

/// The length of the code of an expression.
pub open spec fn code_len(t: Tree) -> int {
    code(t, Direction::Forward).len() as int
}

/// How deeply the expression is nested.
pub open spec fn height(t: Tree) -> nat
    decreases t,
{
    match t {
        Tree::Capture(sub) => 1 + height(*sub),
        Tree::Repetition { sub, .. } => 1 + height(*sub),
        Tree::Concat(es) => 1 + heights(es),
        Tree::Alternation(es) => 1 + heights(es),
        _ => 1,
    }
}

/// How deeply the deepest of the expressions is nested.
pub open spec fn heights(es: Seq<Tree>) -> nat
    decreases es, es.len(),
{
    if es.len() == 0 {
        0
    } else {
        let h = heights(es.drop_last());
        let last = height(es.last());
        if h > last { h } else { last }
    }
}

/// The offsets in the code of an alternation fit in an instruction.
pub open spec fn alt_fits(blocks: Seq<Seq<u8>>) -> bool {
    &&& forall|i: int| 0 <= i < blocks.len() ==> fits_offset(#[trigger] alt_start(blocks, i))
    &&& forall|i: int|
        0 <= i < blocks.len() - 1 ==> fits_offset(alt_end(blocks) - #[trigger] alt_jump(blocks, i))
}

/// The compiler has code for the expression: there is nothing in it but
/// literals, classes of bytes or ASCII characters, classes of everything, groups,
/// concatenations, alternations of at most 255 expressions, `e*` and `e+`; and
/// every offset in the code fits in an instruction.
pub open spec fn supported(t: Tree) -> bool
    decreases t,
{
    match t {
        Tree::Literal(_) => true,
        Tree::Class(ClassModel::Bytes(_)) => true,
        Tree::Class(ClassModel::Unicode(ranges)) => {
            ||| is_any(ClassModel::Unicode(ranges))
            ||| canonical_chars(ranges) && is_ascii_class(ranges)
        },
        Tree::Capture(sub) => supported(*sub),
        Tree::Repetition { min, max, sub, .. } => {
            &&& max is None
            &&& supported(*sub)
            &&& if min == 0 {
                fits_offset(code_len(*sub) + 8) && fits_offset(-(code_len(*sub) + 4))
            } else {
                min == 1 && fits_offset(-code_len(*sub))
            }
        },
        Tree::Concat(es) => {
            &&& es.len() > 0
            &&& forall|i: int| 0 <= i < es.len() ==> supported(#[trigger] es[i])
        },
        Tree::Alternation(es) => {
            &&& 0 < es.len() <= 255
            &&& forall|i: int| 0 <= i < es.len() ==> supported(#[trigger] es[i])
            &&& alt_fits(codes(es, Direction::Forward))
        },
        _ => false,
    }
}

/// The compiler has code for the expression, and can count how deeply it is
/// nested.
pub open spec fn compilable(t: Tree) -> bool {
    supported(t) && height(t) <= u32::MAX
}

/// A literal has code of the same length in both directions.
pub proof fn lemma_reversed_literal_len(bytes: Seq<u8>)
    ensures
        literal_code(bytes.reverse()).len() == literal_code(bytes).len(),
    decreases bytes.len(),
{
    if bytes.len() == 0 {
        assert(bytes.reverse() =~= bytes);
    } else {
        let r = bytes.reverse();
        lemma_literal_code_split(r, 1);
        assert(r.skip(1) =~= bytes.drop_last().reverse());
        assert(r.take(1) =~= seq![bytes.last()]);
        assert(literal_code(r.take(1).drop_last()) =~= seq![]);
        assert(literal_code(r.take(1)) =~= byte_code(bytes.last()));
        lemma_reversed_literal_len(bytes.drop_last());
    }
}

} // verus!
