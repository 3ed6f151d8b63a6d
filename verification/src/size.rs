//! The size of the code of an expression, before there is any code.

use vstd::prelude::*;

use crate::class::{canonical_chars, class_to_hex_byte, is_any, CharClass, ClassUnicode};
use crate::code::{
    alt_end, alt_fits, alt_jump, alt_jumps, alt_start, alt_starts, class_code, code_len, codes,
    compilable, height, heights, join, supported, Direction,
};
use crate::expr::{any_byte, trees, Expr, ExprKind, Tree};
use crate::instr::{literal_code, MAX_CLASS_RANGES, OPCODE_PREFIX};
use crate::layout::{lemma_alt_layout_len, lemma_alt_start_monotonic};
use crate::regex::to_byte_class;

verus! {

/// How much code an expression has, and how deeply it is nested.
#[derive(Clone, Copy, Debug, PartialEq, Eq, Structural)]
pub struct Size {
    /// The length of the code, or the largest number that there is room for.
    pub code: u64,
    pub height: u32,
}

/// The largest offset in an instruction.
pub const MAX_OFFSET: u64 = 0x7fff;

/// The number, or the largest that fits in 64 bits.
pub open spec fn capped(n: int) -> int {
    if n > u64::MAX { u64::MAX as int } else { n }
}

pub open spec fn is_size(s: Size, t: Tree) -> bool {
    s.code == capped(code_len(t)) && s.height == height(t)
}

fn code_point(c: char) -> (r: u32)
    ensures
        r == c as int,
        r <= 0x10ffff,
{
    proof {
        vstd::utf8::char_is_scalar(c);
    }
    c as u32
}

/// Tells whether the ranges ascend, and none of them overlaps or touches another.
fn is_canonical(class: &ClassUnicode) -> (r: bool)
    ensures
        r == canonical_chars(class@),
{
    let n: usize = class.ranges.len();
    let ghost s = class@;
    for i in 0..n
        invariant
            n == class.ranges@.len(),
            s == class@,
            canonical_chars(s.take(i as int)),
    {
        let range: (char, char) = class.ranges[i];
        if range.0 > range.1 {
            assert(s[i as int].0 > s[i as int].1);
            return false;
        }
        if i > 0 {
            let before: (char, char) = class.ranges[i - 1];
            let upper: u32 = code_point(before.1);
            let lower: u32 = code_point(range.0);
            if upper + 1 >= lower {
                assert(s[i - 1].1 as int + 1 >= s[i as int].0 as int);
                return false;
            }
        }
        proof {
            let t = s.take(i + 1);
            assert forall|k: int| 0 <= k < t.len() implies (#[trigger] t[k]).0 <= t[k].1 by {
                if k < i {
                    assert(s.take(i as int)[k] == t[k]);
                }
            }
            assert forall|k: int, j: int| 0 <= k < j < t.len() implies (
            #[trigger] t[k]).1 as int + 1 < (#[trigger] t[j]).0 as int by {
                assert(s.take(i as int)[k] == t[k]);
                if j < i {
                    assert(s.take(i as int)[j] == t[j]);
                } else if k < i - 1 {
                    assert(s.take(i as int)[i - 1] == t[i - 1]);
                }
            }
        }
    }
    assert(s.take(n as int) =~= s);
    true
}

/// The length of the code of a class, `None` if the compiler has no code for it.
fn class_code_len(class: &CharClass, any: bool) -> (r: Option<u64>)
    requires
        any == is_any(class@),
    ensures
        r is Some <==> supported(Tree::Class(class@)),
        r matches Some(n) ==> n == class_code(class@).len(),
{
    if any {
        return Some(2);
    }
    match class {
        CharClass::Bytes(c) => {
            if let Some(_) = class_to_hex_byte(c) {
                Some(4)
            } else {
                Some(byte_class_code_len(c.ranges.len()))
            }
        },
        CharClass::Unicode(c) => {
            if !is_canonical(c) {
                return None;
            }
            match to_byte_class(c) {
                Some(bytes) => Some(byte_class_code_len(bytes.ranges.len())),
                None => None,
            }
        },
    }
}

/// The length of the code of a class of bytes with `n` ranges.
fn byte_class_code_len(n: usize) -> (r: u64)
    ensures
        r == if n < MAX_CLASS_RANGES { 3 + 2 * n } else { 34 },
{
    if n < MAX_CLASS_RANGES {
        3 + 2 * (n as u64)
    } else {
        34
    }
}

/// The length of the code of a literal, or the largest number that there is room
/// for.
fn literal_size(literal: &Vec<u8>) -> (r: u64)
    ensures
        r == capped(literal_code(literal@).len() as int),
{
    let n: usize = literal.len();
    let mut length: u64 = 0;
    assert(literal@.take(0) =~= seq![]);
    for i in 0..n
        invariant
            n == literal@.len(),
            length == capped(literal_code(literal@.take(i as int)).len() as int),
    {
        assert(literal@.take(i + 1).drop_last() =~= literal@.take(i as int));
        length = length.saturating_add(if literal[i] == OPCODE_PREFIX { 2 } else { 1 });
    }
    assert(literal@.take(n as int) =~= literal@);
    length
}

/// The size of the code of an expression, `None` if the compiler has no code for
/// it.
pub fn code_size(expr: &Expr) -> (r: Option<Size>)
    ensures
        r is Some <==> compilable(expr.tree()),
        r matches Some(s) ==> is_size(s, expr.tree()),
    decreases expr,
{
    match &expr.kind {
        ExprKind::Empty | ExprKind::Look => None,
        ExprKind::Literal(bytes) => {
            Some(Size { code: literal_size(bytes), height: 1 })
        },
        ExprKind::Class(class) => match class_code_len(class, any_byte(&expr.kind)) {
            Some(code) => Some(Size { code, height: 1 }),
            None => None,
        },
        ExprKind::Capture(sub) => match code_size(sub) {
            Some(s) => if s.height < u32::MAX {
                Some(Size { code: s.code, height: s.height + 1 })
            } else {
                None
            },
            None => None,
        },
        ExprKind::Repetition(rep) => {
            if rep.max.is_some() || rep.min > 1 {
                return None;
            }
            match code_size(&rep.sub) {
                Some(s) => if s.height == u32::MAX {
                    None
                } else if rep.min == 0 {
                    if s.code <= MAX_OFFSET - 8 {
                        Some(Size { code: s.code + 8, height: s.height + 1 })
                    } else {
                        None
                    }
                } else if s.code <= MAX_OFFSET + 1 {
                    Some(Size { code: s.code + 4, height: s.height + 1 })
                } else {
                    None
                },
                None => None,
            }
        },
        ExprKind::Concat(expressions) => {
            proof {
                assert(expr.tree()->Concat_0 =~= trees(expressions@));
            }
            concat_size(expressions)
        },
        ExprKind::Alternation(expressions) => {
            proof {
                assert(expr.tree()->Alternation_0 =~= trees(expressions@));
            }
            alternation_size(expressions)
        },
    }
}

fn concat_size(expressions: &Vec<Expr>) -> (r: Option<Size>)
    ensures
        r is Some <==> compilable(Tree::Concat(trees(expressions@))),
        r matches Some(s) ==> is_size(s, Tree::Concat(trees(expressions@))),
    decreases expressions,
{
    let n: usize = expressions.len();
    if n == 0 {
        return None;
    }
    let ghost es = trees(expressions@);
    let ghost f = codes(es, Direction::Forward);
    let mut code: u64 = 0;
    let mut height: u32 = 0;
    for i in 0..n
        invariant
            n == expressions@.len(),
            es == trees(expressions@),
            f == codes(es, Direction::Forward),
            forall|k: int| 0 <= k < i ==> supported(#[trigger] es[k]),
            code == capped(join(f.take(i as int)).len() as int),
            height == heights(es.take(i as int)),
    {
        match code_size(&expressions[i]) {
            Some(s) => {
                proof {
                    assert(f.take(i + 1).drop_last() =~= f.take(i as int));
                    assert(es.take(i + 1).drop_last() =~= es.take(i as int));
                    assert(f[i as int] == crate::code::code(es[i as int], Direction::Forward));
                }
                code = code.saturating_add(s.code);
                if s.height > height {
                    height = s.height;
                }
            },
            None => {
                proof {
                    lemma_part_compilable(es, i as int);
                }
                return None;
            },
        }
    }
    assert(f.take(n as int) =~= f);
    assert(es.take(n as int) =~= es);
    if height < u32::MAX {
        Some(Size { code, height: height + 1 })
    } else {
        None
    }
}

/// What has code has parts that have code.
proof fn lemma_part_compilable(es: Seq<Tree>, i: int)
    requires
        0 <= i < es.len(),
        !compilable(es[i]),
    ensures
        !compilable(Tree::Concat(es)),
        !compilable(Tree::Alternation(es)),
{
    crate::walk::lemma_heights(es, i);
}

fn alternation_size(expressions: &Vec<Expr>) -> (r: Option<Size>)
    ensures
        r is Some <==> compilable(Tree::Alternation(trees(expressions@))),
        r matches Some(s) ==> is_size(s, Tree::Alternation(trees(expressions@))),
    decreases expressions,
{
    let n: usize = expressions.len();
    if n == 0 || n > 255 {
        return None;
    }
    let ghost es = trees(expressions@);
    let ghost f = codes(es, Direction::Forward);
    // Where the last of the alternatives so far starts and ends, and where the
    // first of them ends.
    let mut start: u64 = 0;
    let mut end: u64 = 0;
    let mut first_end: u64 = 0;
    let mut height: u32 = 0;
    for i in 0..n
        invariant
            n == expressions@.len(),
            0 < n <= 255,
            es == trees(expressions@),
            f == codes(es, Direction::Forward),
            forall|k: int| 0 <= k < i ==> supported(#[trigger] es[k]),
            i > 0 ==> start == capped(alt_start(f, i - 1)),
            i > 0 ==> end == capped(alt_jump(f, i - 1)),
            i > 0 ==> first_end == capped(alt_jump(f, 0)),
            height == heights(es.take(i as int)),
    {
        match code_size(&expressions[i]) {
            Some(s) => {
                proof {
                    assert(es.take(i + 1).drop_last() =~= es.take(i as int));
                    assert(f[i as int] == crate::code::code(es[i as int], Direction::Forward));
                    lemma_alt_start_monotonic(f, 0, i as int);
                }
                start = if i == 0 { 3 + 2 * (n as u64) } else { end.saturating_add(4) };
                end = start.saturating_add(s.code);
                if i == 0 {
                    first_end = end;
                }
                if s.height > height {
                    height = s.height;
                }
            },
            None => {
                proof {
                    lemma_part_compilable(es, i as int);
                }
                return None;
            },
        }
    }
    proof {
        assert(es.take(n as int) =~= es);
        lemma_alt_layout_len(alt_starts(f), f, alt_jumps(f));
        lemma_alt_fits(f);
        lemma_alt_start_monotonic(f, 0, n - 1);
    }
    if start <= MAX_OFFSET && (n == 1 || end - first_end <= MAX_OFFSET) && height < u32::MAX {
        Some(Size { code: end, height: height + 1 })
    } else {
        None
    }
}

/// The offsets in the code of an alternation fit if the largest of them do.
pub proof fn lemma_alt_fits(blocks: Seq<Seq<u8>>)
    requires
        blocks.len() > 0,
    ensures
        alt_fits(blocks) <==> {
            &&& alt_start(blocks, blocks.len() - 1) <= MAX_OFFSET
            &&& blocks.len() > 1 ==> alt_end(blocks) - alt_jump(blocks, 0) <= MAX_OFFSET
        },
{
    let n = blocks.len();
    assert forall|i: int| 0 <= i < n implies 0 <= #[trigger] alt_start(blocks, i) <= alt_start(
        blocks,
        n - 1,
    ) by {
        lemma_alt_start_monotonic(blocks, 0, i);
        lemma_alt_start_monotonic(blocks, i, n - 1);
    }
    assert forall|i: int| 0 <= i < n - 1 implies alt_jump(blocks, 0) <= #[trigger] alt_jump(
        blocks,
        i,
    ) <= alt_end(blocks) by {
        lemma_alt_start_monotonic(blocks, 0, i);
        lemma_alt_start_monotonic(blocks, i, n - 1);
    }
    if n > 1 {
        assert(alt_jump(blocks, 0) <= alt_end(blocks));
    }
}

/// A length that fits in 64 bits is given as it is.
pub proof fn lemma_capped(n: int)
    ensures
        0 <= n <= 0xffff_ffff_ffff_ffff ==> capped(n) == n,
        n > 0xffff_ffff_ffff_ffff ==> capped(n) == 0xffff_ffff_ffff_ffff,
{
}

} // verus!
