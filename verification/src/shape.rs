//! What the code of an expression looks like.

use vstd::prelude::*;

use crate::atoms::AtomModel;
use crate::class::{hex_byte_of, in_ranges, is_masked_byte, ClassModel, HexByte};
use crate::code::{
    alt_body, alt_end, alt_jump, alt_jumps, alt_start, alt_starts, ascii_ranges, code, code_len,
    codes, compilable, height, heights, join, supported, Direction,
};
use crate::correct::{
    alt_tail, lemma_alt_fits_both, lemma_alt_shape, lemma_plus_shape, lemma_star_shape,
};
use crate::cover::{lemma_lies_within, lies_at};
use crate::expr::Tree;
use crate::instr::{
    byte_class_code, byte_code, fits_offset, has_offset_at, has_split_n_at, instr_code,
    lemma_literal_code_split, literal_code, offset_bytes, offset_code, offsets_bytes, patched,
    patched_split_n, read_offset, split_n_code, Instr,
};
use crate::layout::{lemma_code_len, lemma_join_split};
use crate::machine::{lemma_read_offset, reads, targets};
use crate::size::lemma_alt_fits;
use crate::state::State;
use crate::walk::lemma_heights;

verus! {

/// The code of `e*` is a split, the code of `e` and a jump back to the split. The
/// split leads to the code of `e` or past the end, and prefers the former if the
/// repetition is greedy.
pub proof fn lemma_star_code(t: Tree, d: Direction)
    requires
        supported(t),
        t is Repetition,
        t->min == 0,
    ensures
        ({
            let c = code(t, d);
            let block = code(*t->sub, d);
            let end = c.len() as int;
            let jump = 4 + block.len() as int;
            &&& end == jump + 4
            &&& lies_at(c, block, 4)
            &&& targets(c, 0) == if t->greedy {
                seq![4int, end]
            } else {
                seq![end, 4int]
            }
            &&& targets(c, jump) == seq![0int]
            &&& forall|x: u8| !#[trigger] reads(c, 0, x)
            &&& forall|x: u8| !#[trigger] reads(c, jump, x)
        }),
{
    let c = code(t, d);
    let block = code(*t->sub, d);
    let none = Seq::<u8>::empty();
    lemma_code_len(*t->sub);
    lemma_star_shape(none, t->greedy, block, none);
    assert(none + c + none =~= c);
    let op = if t->greedy { Instr::SPLIT_A } else { Instr::SPLIT_B };
    let n = block.len() as int;
    lemma_lies_within(
        c,
        none + offset_code(op, n + 8),
        block,
        offset_code(Instr::JUMP, -(n + 4)) + none,
    );
}

/// The code of `e+` is the code of `e` and a split. The split leads back to the start
/// or past the end, and prefers the former if the repetition is greedy.
pub proof fn lemma_plus_code(t: Tree, d: Direction)
    requires
        supported(t),
        t is Repetition,
        t->min > 0,
    ensures
        ({
            let c = code(t, d);
            let block = code(*t->sub, d);
            let end = c.len() as int;
            &&& end == block.len() + 4
            &&& lies_at(c, block, 0)
            &&& targets(c, block.len() as int) == if t->greedy {
                seq![0int, end]
            } else {
                seq![end, 0int]
            }
            &&& forall|x: u8| !#[trigger] reads(c, block.len() as int, x)
        }),
{
    let c = code(t, d);
    let block = code(*t->sub, d);
    let none = Seq::<u8>::empty();
    lemma_code_len(*t->sub);
    lemma_plus_shape(none, t->greedy, block, none);
    assert(none + c + none =~= c);
    let op = if t->greedy { Instr::SPLIT_B } else { Instr::SPLIT_A };
    lemma_lies_within(c, none, block, offset_code(op, -(block.len() as int)) + none);
}

proof fn lemma_alt_start_sum(blocks: Seq<Seq<u8>>, i: int)
    requires
        0 <= i <= blocks.len(),
    ensures
        alt_start(blocks, i) == 3 + 2 * blocks.len() + 4 * i + join(blocks.take(i)).len(),
    decreases i,
{
    if i > 0 {
        lemma_alt_start_sum(blocks, i - 1);
        assert(blocks.take(i).drop_last() =~= blocks.take(i - 1));
    } else {
        assert(blocks.take(0) =~= seq![]);
    }
}

/// The code of an alternation is a split, which prefers earlier alternatives to later
/// ones, and the code of each alternative in turn, after which a jump leads to the end
/// unless it is there already.
pub proof fn lemma_alternation_code(es: Seq<Tree>, d: Direction, i: int)
    requires
        supported(Tree::Alternation(es)),
        0 <= i < es.len(),
    ensures
        ({
            let c = code(Tree::Alternation(es), d);
            let block = code(es[i], d);
            let start = targets(c, 0)[i];
            let n = es.len();
            &&& targets(c, 0).len() == n
            &&& forall|x: u8| !#[trigger] reads(c, 0, x)
            &&& start == 3 + 2 * n + 4 * i + join(codes(es, d).take(i)).len()
            &&& lies_at(c, block, start)
            &&& if i + 1 < n {
                &&& targets(c, start + block.len()) == seq![c.len() as int]
                &&& forall|x: u8| !#[trigger] reads(c, start + block.len(), x)
            } else {
                start + block.len() == c.len()
            }
        }),
{
    let c = code(Tree::Alternation(es), d);
    let blocks = codes(es, d);
    let none = Seq::<u8>::empty();
    lemma_alt_fits_both(es, d);
    lemma_alt_shape(none, blocks, none, i);
    assert(none + c + none =~= c);
    lemma_alt_start_sum(blocks, i);
    let starts = alt_starts(blocks);
    let jumps = alt_jumps(blocks);
    let head = none + split_n_code(starts) + alt_body(blocks, jumps, i);
    let tail = alt_tail(blocks, jumps, i, blocks.len() as int) + none;
    lemma_lies_within(c, head, blocks[i], tail);
    assert(targets(c, 0)[i] == alt_start(blocks, i));
}

/// The code of a concatenation is that of its parts in the order in which they are
/// read; that of a group is that of what is in it.
pub proof fn lemma_concat_parts(es: Seq<Tree>)
    requires
        es.len() > 0,
    ensures
        code(Tree::Concat(es), Direction::Forward) == code(
            Tree::Concat(es.drop_last()),
            Direction::Forward,
        ) + code(es.last(), Direction::Forward),
        code(Tree::Concat(es), Direction::Backward) == code(es.last(), Direction::Backward)
            + code(Tree::Concat(es.drop_last()), Direction::Backward),
        code(Tree::Concat(seq![]), Direction::Forward).len() == 0,
        code(Tree::Concat(seq![]), Direction::Backward).len() == 0,
{
    let f = codes(es, Direction::Forward);
    assert(f.drop_last() =~= codes(es.drop_last(), Direction::Forward));
    let b = codes(es, Direction::Backward);
    let before = codes(es.drop_last(), Direction::Backward);
    assert(b.reverse() =~= seq![b.last()] + before.reverse());
    lemma_join_split(b.reverse(), 1);
    assert(b.reverse().take(1) =~= seq![b.last()]);
    assert(b.reverse().skip(1) =~= before.reverse());
    assert(join(seq![b.last()].drop_last()) =~= seq![]);
    assert(join(seq![b.last()]) =~= b.last());
    let none = Seq::<Tree>::empty();
    assert(codes(none, Direction::Forward) =~= seq![]);
    assert(codes(none, Direction::Backward).reverse() =~= seq![]);
}

/// The code of a group is that of what is in it.
pub proof fn lemma_capture_code(sub: Tree, d: Direction)
    ensures
        code(Tree::Capture(Box::new(sub)), d) == code(sub, d),
{
}

/// The code of a literal is made of its bytes, in the order in which they are read;
/// the byte that instructions start with is written twice.
pub proof fn lemma_literal_parts(a: Seq<u8>, b: u8)
    ensures
        code(Tree::Literal(a.push(b)), Direction::Forward) == code(
            Tree::Literal(a),
            Direction::Forward,
        ) + if b == 0xAA {
            seq![0xAAu8, 0xAAu8]
        } else {
            seq![b]
        },
        code(Tree::Literal(a.push(b)), Direction::Backward) == (if b == 0xAA {
            seq![0xAAu8, 0xAAu8]
        } else {
            seq![b]
        }) + code(Tree::Literal(a), Direction::Backward),
        code(Tree::Literal(seq![]), Direction::Forward).len() == 0,
        code(Tree::Literal(seq![]), Direction::Backward).len() == 0,
{
    let s = a.push(b);
    assert(s.drop_last() =~= a);
    let r = s.reverse();
    lemma_literal_code_split(r, 1);
    assert(r.take(1) =~= seq![b]);
    assert(r.skip(1) =~= a.reverse());
    assert(literal_code(r.take(1).drop_last()) =~= seq![]);
    assert(literal_code(r.take(1)) =~= byte_code(b));
    assert(Seq::<u8>::empty().reverse() =~= Seq::<u8>::empty());
}

/// A class is a set of bytes that a masked byte accepts for one masked byte at most.
pub proof fn lemma_masked_byte_unique(ranges: Seq<(u8, u8)>, g: HexByte, h: HexByte)
    requires
        g.value & g.mask == g.value,
        h.value & h.mask == h.value,
        forall|b: u8| #[trigger] in_ranges(ranges, b) <==> b & g.mask == g.value,
        forall|b: u8| #[trigger] in_ranges(ranges, b) <==> b & h.mask == h.value,
    ensures
        g == h,
{
    let (v, m, w, n) = (g.value, g.mask, h.value, h.mask);
    let x: u8 = v | !m;
    let y: u8 = w | !n;
    assert((v | !m) & m == v) by (bit_vector)
        requires
            v & m == v,
    ;
    assert((w | !n) & n == w) by (bit_vector)
        requires
            w & n == w,
    ;
    assert(in_ranges(ranges, v));
    assert(in_ranges(ranges, w));
    assert(in_ranges(ranges, x));
    assert(in_ranges(ranges, y));
    assert(v == w && m == n) by (bit_vector)
        requires
            v & m == v,
            w & n == w,
            v & n == w,
            w & m == v,
            (v | !m) & n == w,
            (w | !n) & m == v,
    ;
}

/// A class of bytes that a masked byte stands for has that masked byte, and any other
/// has none.
pub proof fn lemma_masked_byte_found(ranges: Seq<(u8, u8)>, h: HexByte)
    ensures
        h.value & h.mask == h.value && (forall|b: u8| #[trigger]
            in_ranges(ranges, b) <==> b & h.mask == h.value) ==> hex_byte_of(ranges) == Some(h),
        hex_byte_of(ranges) == Some(h) ==> h.value & h.mask == h.value && forall|b: u8| #[trigger]
            in_ranges(ranges, b) <==> b & h.mask == h.value,
{
    if h.value & h.mask == h.value && (forall|b: u8| #[trigger]
        in_ranges(ranges, b) <==> b & h.mask == h.value) {
        assert(is_masked_byte(ranges, h)) by {
            assert forall|b: u8| #[trigger] in_ranges(ranges, b) <==> h.accepts(b) by {}
        }
        let g = hex_byte_of(ranges)->0;
        assert(is_masked_byte(ranges, g));
        assert forall|b: u8| #[trigger] in_ranges(ranges, b) <==> b & g.mask == g.value by {
            assert(in_ranges(ranges, b) <==> g.accepts(b));
        }
        lemma_masked_byte_unique(ranges, g, h);
    }
    if hex_byte_of(ranges) == Some(h) {
        assert(is_masked_byte(ranges, h));
        assert forall|b: u8| #[trigger] in_ranges(ranges, b) <==> b & h.mask == h.value by {
            assert(in_ranges(ranges, b) <==> h.accepts(b));
        }
    }
}

/// The ranges as they are written in an instruction.
pub open spec fn listed(c: Seq<u8>, ranges: Seq<(u8, u8)>) -> bool {
    &&& c.len() == 3 + 2 * ranges.len()
    &&& c[0] == 0xAA
    &&& c[1] == 0x07
    &&& c[2] == ranges.len()
    &&& forall|i: int|
        0 <= i < ranges.len() ==> c[3 + 2 * i] == (#[trigger] ranges[i]).0 && c[4 + 2 * i]
            == ranges[i].1
}

/// The class is written as an instruction with 256 bits.
pub open spec fn mapped(c: Seq<u8>) -> bool {
    c.len() == 34 && c[0] == 0xAA && c[1] == 0x06
}

/// The class of all bytes, or of all characters, has the instruction for any byte.
pub proof fn lemma_any_code(class: ClassModel, d: Direction)
    requires
        match class {
            ClassModel::Bytes(ranges) => ranges.len() > 0 && ranges[0] == (0u8, 255u8),
            ClassModel::Unicode(ranges) => ranges.len() > 0 && ranges[0] == (
                '\0',
                '\u{10FFFF}',
            ),
        },
    ensures
        code(Tree::Class(class), d) == seq![0xAAu8, 0x00u8],
{
}

/// Any other class of bytes that a masked byte stands for has the instruction for that
/// masked byte. One that none stands for has a list of its ranges, or a map of its
/// bytes if it has 16 ranges or more.
pub proof fn lemma_byte_class_code(ranges: Seq<(u8, u8)>, d: Direction, h: HexByte)
    requires
        !(ranges.len() > 0 && ranges[0] == (0u8, 255u8)),
    ensures
        ({
            let c = code(Tree::Class(ClassModel::Bytes(ranges)), d);
            &&& h.value & h.mask == h.value && (forall|b: u8| #[trigger]
                in_ranges(ranges, b) <==> b & h.mask == h.value) ==> c == seq![
                0xAAu8,
                0x05u8,
                h.value,
                h.mask,
            ]
            &&& hex_byte_of(ranges) is None ==> if ranges.len() < 16 {
                listed(c, ranges)
            } else {
                mapped(c)
            }
        }),
{
    lemma_masked_byte_found(ranges, h);
    if hex_byte_of(ranges) is None {
        lemma_listed(ranges);
    }
}

proof fn lemma_listed(ranges: Seq<(u8, u8)>)
    ensures
        ({
            let c = byte_class_code(ranges);
            if ranges.len() < 16 {
                listed(c, ranges)
            } else {
                mapped(c)
            }
        }),
{
    let c = byte_class_code(ranges);
    if ranges.len() < 16 {
        assert forall|i: int| 0 <= i < ranges.len() implies c[3 + 2 * i] == (
        #[trigger] ranges[i]).0 && c[4 + 2 * i] == ranges[i].1 by {
            assert((2 * i) / 2 == i && (2 * i) % 2 == 0);
            assert((2 * i + 1) / 2 == i && (2 * i + 1) % 2 == 1);
        }
    }
}

/// Any other class of ASCII characters has a list of its ranges, or a map of its bytes
/// if it has 16 ranges or more.
pub proof fn lemma_ascii_class_code(ranges: Seq<(char, char)>, d: Direction)
    requires
        !(ranges.len() > 0 && ranges[0] == ('\0', '\u{10FFFF}')),
    ensures
        ({
            let c = code(Tree::Class(ClassModel::Unicode(ranges)), d);
            let bytes = Seq::new(ranges.len(), |i: int| (ranges[i].0 as u8, ranges[i].1 as u8));
            if ranges.len() < 16 {
                listed(c, bytes)
            } else {
                mapped(c)
            }
        }),
{
    let bytes = Seq::new(ranges.len(), |i: int| (ranges[i].0 as u8, ranges[i].1 as u8));
    assert(ascii_ranges(ranges) =~= bytes);
    lemma_listed(bytes);
}

/// A class of bytes holds what lies between the bounds of one of its ranges.
pub proof fn lemma_in_ranges(ranges: Seq<(u8, u8)>, b: u8)
    ensures
        in_ranges(ranges, b) <==> exists|i: int|
            0 <= i < ranges.len() && (#[trigger] ranges[i]).0 <= b && b <= ranges[i].1,
{
}

/// Which expressions without parts have code: literals, classes of bytes, the class of
/// all characters, and classes of ASCII characters in order; no empty expressions and
/// no look-arounds.
pub proof fn lemma_leaf_supported(t: Tree)
    ensures
        t is Empty || t is Look ==> !supported(t),
        t is Literal ==> supported(t),
        t matches Tree::Class(ClassModel::Bytes(_)) ==> supported(t),
        t matches Tree::Class(ClassModel::Unicode(ranges)) ==> (supported(t) <==> {
            ||| ranges.len() > 0 && ranges[0] == ('\0', '\u{10FFFF}')
            ||| {
                &&& ranges.len() == 0 || ranges.last().1 <= '\x7F'
                &&& forall|i: int|
                    0 <= i < ranges.len() ==> (#[trigger] ranges[i]).0 <= ranges[i].1
                &&& forall|i: int, j: int|
                    0 <= i < j < ranges.len() ==> (#[trigger] ranges[i]).1 as int + 1 < (
                    #[trigger] ranges[j]).0 as int
            }
        }),
{
}

/// Which groups and repetitions have code: those of what has code, if there is no upper
/// bound, at most one is asked for, and the code is not too long to jump over.
pub proof fn lemma_wrapped_supported(sub: Tree, min: u32, max: Option<u32>, greedy: bool)
    ensures
        supported(Tree::Capture(Box::new(sub))) <==> supported(sub),
        supported(Tree::Repetition { min, max, greedy, sub: Box::new(sub) }) <==> {
            &&& supported(sub)
            &&& max is None
            &&& min == 0 && code_len(sub) <= 32759 || min == 1 && code_len(sub) <= 32768
        },
{
}

/// Which concatenations have code: those of one part or more that all have code.
pub proof fn lemma_concat_supported(es: Seq<Tree>)
    ensures
        supported(Tree::Concat(es)) <==> es.len() > 0 && forall|i: int|
            0 <= i < es.len() ==> supported(#[trigger] es[i]),
{
}

/// Which alternations have code: those of 1 to 255 alternatives that all have code, if
/// neither the way from the start to the last alternative nor that from the end of the
/// first to the end is too long to jump over.
pub proof fn lemma_alternation_supported(es: Seq<Tree>)
    ensures
        supported(Tree::Alternation(es)) <==> {
            let blocks = codes(es, Direction::Forward);
            let n = es.len();
            &&& 0 < n <= 255
            &&& forall|i: int| 0 <= i < es.len() ==> supported(#[trigger] es[i])
            &&& 3 + 2 * n + 4 * (n - 1) + join(blocks.take(n - 1)).len() <= 32767
            &&& n > 1 ==> 4 * (n - 1) + join(blocks.skip(1)).len() <= 32767
        },
{
    let blocks = codes(es, Direction::Forward);
    let n = es.len() as int;
    if 0 < n {
        lemma_alt_fits(blocks);
        lemma_alt_start_sum(blocks, n - 1);
        lemma_alt_start_sum(blocks, 0);
        assert(blocks.take(0) =~= seq![]);
        assert(blocks.drop_last() =~= blocks.take(n - 1));
        assert(join(blocks) == join(blocks.drop_last()) + blocks.last());
        lemma_join_split(blocks, 1);
        assert(blocks.take(1).drop_last() =~= seq![]);
        assert(join(blocks.take(1).drop_last()) =~= seq![]);
        assert(join(blocks.take(1)) =~= blocks[0]);
        assert(join(blocks).len() == blocks[0].len() + join(blocks.skip(1)).len());
        assert(alt_jump(blocks, 0) == 3 + 2 * n + blocks[0].len());
        assert(alt_end(blocks) == 3 + 2 * n + 4 * (n - 1) + join(blocks).len());
    }
}

/// What has code is compiled unless it is nested more deeply than 32 bits can count.
pub proof fn lemma_compilable(t: Tree)
    ensures
        compilable(t) <==> supported(t) && height(t) <= 0xffff_ffff,
        t is Literal || t is Class ==> height(t) == 1,
        t matches Tree::Capture(sub) ==> height(t) == height(*sub) + 1,
        t matches Tree::Repetition { sub, .. } ==> height(t) == height(*sub) + 1,
        t matches Tree::Concat(es) ==> forall|i: int|
            0 <= i < es.len() ==> height(#[trigger] es[i]) < height(t),
        t matches Tree::Concat(es) ==> es.len() > 0 ==> exists|i: int|
            0 <= i < es.len() && height(#[trigger] es[i]) + 1 == height(t),
        t matches Tree::Alternation(es) ==> forall|i: int|
            0 <= i < es.len() ==> height(#[trigger] es[i]) < height(t),
        t matches Tree::Alternation(es) ==> es.len() > 0 ==> exists|i: int|
            0 <= i < es.len() && height(#[trigger] es[i]) + 1 == height(t),
{
    match t {
        Tree::Concat(es) => {
            assert forall|i: int| 0 <= i < es.len() implies height(#[trigger] es[i])
                < height(t) by {
                lemma_heights(es, i);
            }
            if es.len() > 0 {
                let i = lemma_deepest(es);
                assert(height(es[i]) + 1 == height(t));
            }
        },
        Tree::Alternation(es) => {
            assert forall|i: int| 0 <= i < es.len() implies height(#[trigger] es[i])
                < height(t) by {
                lemma_heights(es, i);
            }
            if es.len() > 0 {
                let i = lemma_deepest(es);
                assert(height(es[i]) + 1 == height(t));
            }
        },
        _ => {},
    }
}

proof fn lemma_deepest(es: Seq<Tree>) -> (i: int)
    requires
        es.len() > 0,
    ensures
        0 <= i < es.len(),
        height(es[i]) == heights(es),
    decreases es.len(),
{
    let before = es.drop_last();
    if height(es.last()) >= heights(before) {
        es.len() - 1
    } else {
        lemma_deepest(before)
    }
}

/// An offset is written as 16 bits in two's complement, the lower byte first.
pub proof fn lemma_offset_bytes(offset: int)
    requires
        -32768 <= offset <= 32767,
    ensures
        offset_bytes(offset).len() == 2,
        offset_bytes(offset)[0] + 256 * offset_bytes(offset)[1] == if offset < 0 {
            offset + 65536
        } else {
            offset
        },
        fits_offset(offset),
{
}

/// Instructions without an offset have two bytes, those with one have four, and the
/// offset is 0 at first.
pub proof fn lemma_instr_code(op: u8)
    ensures
        instr_code(op)[0] == 0xAA,
        instr_code(op)[1] == op,
        instr_code(op).len() == if op == 0x01 || op == 0x02 || op == 0x04 {
            4int
        } else {
            2int
        },
        instr_code(op).len() == 4 ==> instr_code(op)[2] == 0 && instr_code(op)[3] == 0,
{
}

/// A new offset is read where it was put, and nothing else changes.
pub proof fn lemma_patched(c: Seq<u8>, at: int, offset: int)
    requires
        has_offset_at(c, at),
        fits_offset(offset),
    ensures
        read_offset(patched(c, at, offset), at + 2) == offset,
        patched(c, at, offset).len() == c.len(),
        forall|i: int|
            0 <= i < c.len() && i != at + 2 && i != at + 3 ==> #[trigger] patched(
                c,
                at,
                offset,
            )[i] == c[i],
{
    lemma_read_offset(patched(c, at, offset), at + 2, offset);
}

/// New offsets of a split are read where they were put, and nothing else changes.
pub proof fn lemma_patched_split(c: Seq<u8>, at: int, offsets: Seq<int>, k: int)
    requires
        has_split_n_at(c, at, offsets.len()),
        0 <= k < offsets.len(),
        fits_offset(offsets[k]),
    ensures
        read_offset(patched_split_n(c, at, offsets), at + 3 + 2 * k) == offsets[k],
        patched_split_n(c, at, offsets).len() == c.len(),
        forall|i: int|
            0 <= i < c.len() && !(at + 3 <= i < at + 3 + 2 * offsets.len())
                ==> #[trigger] patched_split_n(c, at, offsets)[i] == c[i],
{
    let p = patched_split_n(c, at, offsets);
    assert((2 * k) / 2 == k && (2 * k) % 2 == 0);
    assert((2 * k + 1) / 2 == k && (2 * k + 1) % 2 == 1);
    assert(p[at + 3 + 2 * k] == offsets_bytes(offsets)[2 * k]);
    assert(p[at + 3 + 2 * k + 1] == offsets_bytes(offsets)[2 * k + 1]);
    lemma_read_offset(p, at + 3 + 2 * k, offsets[k]);
}

/// A step into an expression goes one level deeper, and a step out of it comes back. A
/// repetition counts as one that may repeat zero times if and only if its minimum is 0,
/// whatever its maximum.
pub proof fn lemma_depths(s: State, t: Tree, atoms: Option<Seq<AtomModel>>)
    ensures
        State::initial().depth == 0,
        State::initial().zero_rep_depth == 0,
        s.visit_pre(t).depth == s.depth + 1,
        s.visit_post(t, atoms).depth == s.depth - 1,
        s.visit_pre(t).zero_rep_depth == s.zero_rep_depth + if t is Repetition && t->min == 0 {
            1int
        } else {
            0int
        },
        s.visit_post(t, atoms).zero_rep_depth == s.zero_rep_depth - if t is Repetition && t->min
            == 0 {
            1int
        } else {
            0int
        },
{
}

} // verus!
