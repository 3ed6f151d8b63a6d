//! The virtual machine that the code is for.

use vstd::prelude::*;

use crate::class::{
    canonical_chars, hex_byte_of, in_char_ranges, in_ranges, is_any, is_masked_byte, ClassModel,
    HexByte,
};
use crate::code::{ascii_ranges, class_code, is_ascii_class, supported};
use crate::expr::Tree;
use crate::instr::{
    bitmap_byte, bitmap_code, byte_class_code, byte_code, fits_offset, flag, offset_bytes,
    offset_code, offsets_bytes, ranges_code, read_offset, split_n_code, Instr, OPCODE_PREFIX,
};
use crate::language::class_matches;

verus! {

/// The weight of a bit in a byte.
pub open spec fn bit_weight(k: int) -> int {
    if k == 0 {
        1
    } else if k == 1 {
        2
    } else if k == 2 {
        4
    } else if k == 3 {
        8
    } else if k == 4 {
        16
    } else if k == 5 {
        32
    } else if k == 6 {
        64
    } else {
        128
    }
}

/// The bit of `byte` is set in the map of 256 bits at `at`.
pub open spec fn in_bitmap(code: Seq<u8>, at: int, byte: u8) -> bool {
    (code[at + byte / 8] as int / bit_weight((byte % 8) as int)) % 2 == 1
}

/// The byte lies in one of the `n` ranges at `at`.
pub open spec fn in_range_list(code: Seq<u8>, at: int, n: int, byte: u8) -> bool {
    exists|i: int|
        0 <= i < n && #[trigger] code[at + 2 * i] <= byte <= code[at + 2 * i + 1]
}

/// The length of the instruction at `pc`, if it reads a byte.
pub open spec fn read_len(code: Seq<u8>, pc: int) -> int {
    if code[pc] != OPCODE_PREFIX {
        1
    } else if code[pc + 1] == Instr::MASKED_BYTE {
        4
    } else if code[pc + 1] == Instr::CLASS_BITMAP {
        34
    } else if code[pc + 1] == Instr::CLASS_RANGES {
        3 + 2 * code[pc + 2]
    } else {
        2
    }
}

/// The instruction at `pc` reads a byte, and may read this one.
pub open spec fn reads(code: Seq<u8>, pc: int, byte: u8) -> bool {
    if pc + read_len(code, pc) > code.len() {
        false
    } else if code[pc] != OPCODE_PREFIX {
        byte == code[pc]
    } else if code[pc + 1] == OPCODE_PREFIX {
        byte == OPCODE_PREFIX
    } else if code[pc + 1] == Instr::ANY_BYTE {
        true
    } else if code[pc + 1] == Instr::MASKED_BYTE {
        (HexByte { value: code[pc + 2], mask: code[pc + 3] }).accepts(byte)
    } else if code[pc + 1] == Instr::CLASS_BITMAP {
        in_bitmap(code, pc + 2, byte)
    } else if code[pc + 1] == Instr::CLASS_RANGES {
        in_range_list(code, pc + 3, code[pc + 2] as int, byte)
    } else {
        false
    }
}

/// Where the instruction at `pc` leads without reading anything, the place that it
/// prefers first.
pub open spec fn targets(code: Seq<u8>, pc: int) -> Seq<int> {
    if code[pc] != OPCODE_PREFIX || pc + 4 > code.len() {
        seq![]
    } else if code[pc + 1] == Instr::JUMP {
        seq![pc + read_offset(code, pc + 2)]
    } else if code[pc + 1] == Instr::SPLIT_A {
        seq![pc + 4, pc + read_offset(code, pc + 2)]
    } else if code[pc + 1] == Instr::SPLIT_B {
        seq![pc + read_offset(code, pc + 2), pc + 4]
    } else if code[pc + 1] == Instr::SPLIT_N && pc + 3 + 2 * code[pc + 2] <= code.len() {
        Seq::new(
            code[pc + 2] as nat,
            |i: int| pc + read_offset(code, pc + 3 + 2 * i),
        )
    } else {
        seq![]
    }
}

/// From `pc` the machine can come to the end of the code in `fuel` steps or
/// less, and read the whole of `w` on the way.
pub open spec fn accepts_within(code: Seq<u8>, pc: int, w: Seq<u8>, fuel: nat) -> bool
    decreases fuel,
{
    ||| pc == code.len() && w.len() == 0
    ||| {
        &&& fuel > 0
        &&& 0 <= pc < code.len()
        &&& {
            ||| {
                &&& w.len() > 0
                &&& reads(code, pc, w[0])
                &&& accepts_within(code, pc + read_len(code, pc), w.skip(1), (fuel - 1) as nat)
            }
            ||| exists|i: int|
                0 <= i < targets(code, pc).len() && accepts_within(
                    code,
                    #[trigger] targets(code, pc)[i],
                    w,
                    (fuel - 1) as nat,
                )
        }
    }
}

/// From `pc` the machine can come to the end of the code, and read the whole of
/// `w` on the way.
pub open spec fn accepts(code: Seq<u8>, pc: int, w: Seq<u8>) -> bool {
    exists|fuel: nat| accepts_within(code, pc, w, fuel)
}

/// The machine reads a byte.
pub proof fn lemma_read(code: Seq<u8>, pc: int, byte: u8, rest: Seq<u8>)
    requires
        0 <= pc < code.len(),
        reads(code, pc, byte),
        accepts(code, pc + read_len(code, pc), rest),
    ensures
        accepts(code, pc, seq![byte] + rest),
{
    let next = pc + read_len(code, pc);
    let fuel = choose|fuel: nat| accepts_within(code, next, rest, fuel);
    let w = seq![byte] + rest;
    assert(w.skip(1) =~= rest);
    assert(accepts_within(code, pc, w, fuel + 1));
}

/// The machine goes to another place.
pub proof fn lemma_go(code: Seq<u8>, pc: int, i: int, w: Seq<u8>)
    requires
        0 <= pc < code.len(),
        0 <= i < targets(code, pc).len(),
        accepts(code, targets(code, pc)[i], w),
    ensures
        accepts(code, pc, w),
{
    let next = targets(code, pc)[i];
    let fuel = choose|fuel: nat| accepts_within(code, next, w, fuel);
    assert(accepts_within(code, pc, w, fuel + 1));
}

/// The offset that was written is read.
pub proof fn lemma_read_offset(code: Seq<u8>, at: int, offset: int)
    requires
        0 <= at,
        at + 2 <= code.len(),
        code[at] == offset_bytes(offset)[0],
        code[at + 1] == offset_bytes(offset)[1],
        fits_offset(offset),
    ensures
        read_offset(code, at) == offset,
{
}

/// What the machine does at a byte of a literal.
pub proof fn lemma_at_byte(pre: Seq<u8>, b: u8, post: Seq<u8>)
    ensures
        ({
            let c = pre + byte_code(b) + post;
            let pc = pre.len() as int;
            &&& targets(c, pc) == Seq::<int>::empty()
            &&& read_len(c, pc) == byte_code(b).len()
            &&& forall|x: u8| #[trigger] reads(c, pc, x) <==> x == b
        }),
{
    let c = pre + byte_code(b) + post;
    let pc = pre.len() as int;
    assert(c[pc] == b);
    if b == OPCODE_PREFIX {
        assert(c[pc + 1] == b);
    }
}

/// What the machine does at a jump or a split.
pub proof fn lemma_at_offset(pre: Seq<u8>, op: u8, offset: int, post: Seq<u8>)
    requires
        op == Instr::JUMP || op == Instr::SPLIT_A || op == Instr::SPLIT_B,
        fits_offset(offset),
    ensures
        ({
            let c = pre + offset_code(op, offset) + post;
            let pc = pre.len() as int;
            &&& targets(c, pc) == if op == Instr::JUMP {
                seq![pc + offset]
            } else if op == Instr::SPLIT_A {
                seq![pc + 4, pc + offset]
            } else {
                seq![pc + offset, pc + 4]
            }
            &&& forall|x: u8| !#[trigger] reads(c, pc, x)
        }),
{
    let c = pre + offset_code(op, offset) + post;
    let pc = pre.len() as int;
    assert(c[pc] == OPCODE_PREFIX);
    assert(c[pc + 1] == op);
    assert(c[pc + 2] == offset_bytes(offset)[0]);
    assert(c[pc + 3] == offset_bytes(offset)[1]);
    lemma_read_offset(c, pc + 2, offset);
}

/// What the machine does at a `split_n`.
pub proof fn lemma_at_split_n(pre: Seq<u8>, offsets: Seq<int>, post: Seq<u8>)
    requires
        offsets.len() <= 255,
        forall|i: int| 0 <= i < offsets.len() ==> fits_offset(#[trigger] offsets[i]),
    ensures
        ({
            let c = pre + split_n_code(offsets) + post;
            let pc = pre.len() as int;
            &&& targets(c, pc) == Seq::new(offsets.len(), |i: int| pc + offsets[i])
            &&& forall|x: u8| !#[trigger] reads(c, pc, x)
        }),
{
    let c = pre + split_n_code(offsets) + post;
    let pc = pre.len() as int;
    assert(c[pc] == OPCODE_PREFIX);
    assert(c[pc + 1] == Instr::SPLIT_N);
    assert(c[pc + 2] == offsets.len());
    let places = Seq::new(offsets.len(), |i: int| pc + offsets[i]);
    assert forall|i: int| 0 <= i < offsets.len() implies #[trigger] targets(c, pc)[i]
        == places[i] by {
        let at = pc + 3 + 2 * i;
        assert((2 * i) / 2 == i && (2 * i) % 2 == 0);
        assert((2 * i + 1) / 2 == i && (2 * i + 1) % 2 == 1);
        assert(offsets_bytes(offsets)[2 * i] == offset_bytes(offsets[i])[0]);
        assert(offsets_bytes(offsets)[2 * i + 1] == offset_bytes(offsets[i])[1]);
        assert(c[at] == split_n_code(offsets)[3 + 2 * i]);
        assert(c[at + 1] == split_n_code(offsets)[3 + 2 * i + 1]);
        lemma_read_offset(c, at, offsets[i]);
    }
    assert(targets(c, pc) =~= places);
}

/// A set of flags as a number, and each of them back.
proof fn lemma_flags(f: Seq<bool>, k: int)
    requires
        f.len() == 8,
        0 <= k < 8,
    ensures
        ({
            let sum = flag(f[0], 1) + flag(f[1], 2) + flag(f[2], 4) + flag(f[3], 8) + flag(
                f[4],
                16,
            ) + flag(f[5], 32) + flag(f[6], 64) + flag(f[7], 128);
            &&& 0 <= sum <= 255
            &&& (sum / bit_weight(k)) % 2 == 1 <==> f[k]
        }),
{
}

/// What the machine does at a class of bytes.
proof fn lemma_at_byte_class(pre: Seq<u8>, ranges: Seq<(u8, u8)>, post: Seq<u8>)
    ensures
        ({
            let c = pre + byte_class_code(ranges) + post;
            let pc = pre.len() as int;
            &&& targets(c, pc) == Seq::<int>::empty()
            &&& read_len(c, pc) == byte_class_code(ranges).len()
            &&& forall|x: u8| #[trigger] reads(c, pc, x) <==> in_ranges(ranges, x)
        }),
{
    let c = pre + byte_class_code(ranges) + post;
    let pc = pre.len() as int;
    assert(c[pc] == OPCODE_PREFIX);
    if ranges.len() < crate::instr::MAX_CLASS_RANGES {
        let block = ranges_code(ranges);
        assert(c[pc + 1] == Instr::CLASS_RANGES);
        assert(c[pc + 2] == ranges.len());
        assert forall|i: int| 0 <= i < ranges.len() implies #[trigger] c[pc + 3 + 2 * i]
            == ranges[i].0 && c[pc + 3 + 2 * i + 1] == ranges[i].1 by {
            assert((2 * i) / 2 == i && (2 * i) % 2 == 0);
            assert((2 * i + 1) / 2 == i && (2 * i + 1) % 2 == 1);
            assert(c[pc + 3 + 2 * i] == block[3 + 2 * i]);
            assert(c[pc + 3 + 2 * i + 1] == block[3 + 2 * i + 1]);
        }
        assert forall|x: u8| #[trigger] reads(c, pc, x) <==> in_ranges(ranges, x) by {
            if in_ranges(ranges, x) {
                let i = choose|i: int|
                    0 <= i < ranges.len() && (#[trigger] ranges[i]).0 <= x <= ranges[i].1;
                assert(c[pc + 3 + 2 * i] <= x <= c[pc + 3 + 2 * i + 1]);
            }
            if reads(c, pc, x) {
                let i = choose|i: int|
                    0 <= i < ranges.len() && #[trigger] c[pc + 3 + 2 * i] <= x <= c[pc + 3 + 2
                        * i + 1];
                assert(ranges[i].0 <= x <= ranges[i].1);
            }
        }
    } else {
        let block = bitmap_code(ranges);
        assert(c[pc + 1] == Instr::CLASS_BITMAP);
        assert forall|x: u8| #[trigger] reads(c, pc, x) <==> in_ranges(ranges, x) by {
            let i = (x / 8) as int;
            let k = (x % 8) as int;
            let f = Seq::new(8, |j: int| in_ranges(ranges, (8 * i + j) as u8));
            lemma_flags(f, k);
            assert(c[pc + 2 + i] == block[2 + i]);
            assert(8 * i + k == x);
            assert(f[k] == in_ranges(ranges, x));
            assert(bitmap_byte(ranges, i) == flag(f[0], 1) + flag(f[1], 2) + flag(f[2], 4) + flag(
                f[3],
                8,
            ) + flag(f[4], 16) + flag(f[5], 32) + flag(f[6], 64) + flag(f[7], 128));
        }
    }
}

/// An ASCII character is written in UTF-8 as the byte of the same number.
proof fn lemma_encode_ascii(c: u32)
    requires
        c <= 0x7f,
    ensures
        vstd::utf8::encode_scalar(c) == seq![c as u8],
{
    assert(c & 0x7F == c) by (bit_vector)
        requires
            c <= 0x7f,
    ;
}

proof fn lemma_char_byte(ch: char)
    requires
        ch <= '\x7F',
    ensures
        (ch as u8) as int == ch as int,
{
}

proof fn lemma_ascii_class(ranges: Seq<(char, char)>, w: Seq<u8>)
    requires
        canonical_chars(ranges),
        is_ascii_class(ranges),
    ensures
        class_matches(ClassModel::Unicode(ranges), w) <==> w.len() == 1 && in_ranges(
            ascii_ranges(ranges),
            w[0],
        ),
{
    let bytes = ascii_ranges(ranges);
    assert forall|i: int| 0 <= i < ranges.len() implies (#[trigger] ranges[i]).0 <= ranges[i].1
        <= '\x7F' by {
        if i < ranges.len() - 1 {
            assert(ranges[i].1 as int + 1 < ranges[ranges.len() - 1].0 as int);
        }
    }
    if class_matches(ClassModel::Unicode(ranges), w) {
        let c = choose|c: u32|
            #[trigger] in_char_ranges(ranges, c) && w == vstd::utf8::encode_scalar(c);
        let i = choose|i: int|
            0 <= i < ranges.len() && (#[trigger] ranges[i]).0 as int <= c <= ranges[i].1 as int;
        lemma_encode_ascii(c);
        lemma_char_byte(ranges[i].0);
        lemma_char_byte(ranges[i].1);
        assert(bytes[i].0 <= w[0] <= bytes[i].1);
    }
    if w.len() == 1 && in_ranges(bytes, w[0]) {
        let i = choose|i: int|
            0 <= i < bytes.len() && (#[trigger] bytes[i]).0 <= w[0] <= bytes[i].1;
        let c = w[0] as u32;
        lemma_char_byte(ranges[i].0);
        lemma_char_byte(ranges[i].1);
        assert(ranges[i].0 as int <= c <= ranges[i].1 as int);
        assert(in_char_ranges(ranges, c));
        lemma_encode_ascii(c);
        assert(w =~= seq![c as u8]);
        let m = ClassModel::Unicode(ranges);
        assert(in_char_ranges(m->Unicode_0, c));
    }
}

/// What the machine does at a class. (The class of all Unicode characters is read
/// as a single byte.)
pub proof fn lemma_at_class(pre: Seq<u8>, class: ClassModel, post: Seq<u8>)
    requires
        supported(Tree::Class(class)),
        class is Unicode ==> !is_any(class),
    ensures
        ({
            let c = pre + class_code(class) + post;
            let pc = pre.len() as int;
            &&& targets(c, pc) == Seq::<int>::empty()
            &&& class_code(class).len() > 0
            &&& read_len(c, pc) == class_code(class).len()
            &&& forall|x: u8| #[trigger] reads(c, pc, x) <==> class_matches(class, seq![x])
        }),
{
    let c = pre + class_code(class) + post;
    let pc = pre.len() as int;
    assert(c[pc] == OPCODE_PREFIX);
    assert(c[pc + 1] == class_code(class)[1]);
    match class {
        ClassModel::Bytes(ranges) => {
            if is_any(class) {
                assert forall|x: u8| #[trigger] reads(c, pc, x) <==> class_matches(
                    class,
                    seq![x],
                ) by {
                    assert(ranges[0].0 <= x <= ranges[0].1);
                }
            } else {
                match hex_byte_of(ranges) {
                    Some(h) => {
                        assert(is_masked_byte(ranges, h));
                        assert(c[pc + 2] == h.value && c[pc + 3] == h.mask);
                        assert forall|x: u8| #[trigger] reads(c, pc, x) <==> class_matches(
                            class,
                            seq![x],
                        ) by {
                            assert(in_ranges(ranges, x) <==> h.accepts(x));
                        }
                    },
                    None => lemma_at_byte_class(pre, ranges, post),
                }
            }
        },
        ClassModel::Unicode(ranges) => {
            lemma_at_byte_class(pre, ascii_ranges(ranges), post);
            assert forall|x: u8| #[trigger] reads(c, pc, x) <==> class_matches(
                class,
                seq![x],
            ) by {
                lemma_ascii_class(ranges, seq![x]);
            }
        },
    }
}

/// A match of a class that has code is a single byte.
pub proof fn lemma_class_match_len(class: ClassModel, w: Seq<u8>)
    requires
        supported(Tree::Class(class)),
        class is Unicode ==> !is_any(class),
        class_matches(class, w),
    ensures
        w.len() == 1,
{
    if let ClassModel::Unicode(ranges) = class {
        lemma_ascii_class(ranges, w);
    }
}

} // verus!
