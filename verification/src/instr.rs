//! Instructions of the virtual machine, and how they are laid out in bytes.
//!
//! A byte other than [`OPCODE_PREFIX`] matches itself. [`OPCODE_PREFIX`] starts
//! an instruction, named by the byte that follows; two of them in a row match
//! one byte equal to the prefix.

use vstd::prelude::*;

use crate::class::{in_ranges, ClassBytes, HexByte};

verus! {

/// Number of alternatives of a `split_n` instruction.
pub type NumAlt = u8;

/// Distance between an instruction and the place it jumps to, counted from the
/// start of the instruction.
pub type Offset = i16;

pub const OPCODE_PREFIX: u8 = 0xAA;

/// Operation codes.
pub struct Instr;

impl Instr {
    /// Matches any byte.
    pub const ANY_BYTE: u8 = 0x00;

    /// Continues with the next instruction, or at an offset if that fails.
    pub const SPLIT_A: u8 = 0x01;

    /// Continues at an offset, or with the next instruction if that fails.
    pub const SPLIT_B: u8 = 0x02;

    /// Continues at any of several offsets.
    pub const SPLIT_N: u8 = 0x03;

    /// Continues at an offset.
    pub const JUMP: u8 = 0x04;

    /// Matches the bytes that agree with a value under a mask.
    pub const MASKED_BYTE: u8 = 0x05;

    /// Matches the bytes whose bit is set in a bitmap.
    pub const CLASS_BITMAP: u8 = 0x06;

    /// Matches the bytes that lie in one of several ranges.
    pub const CLASS_RANGES: u8 = 0x07;
}

/// A class with fewer ranges than this is written as ranges, otherwise as a
/// bitmap.
pub const MAX_CLASS_RANGES: usize = 16;

/// The two bytes, low byte first, that hold an offset in two's complement.
pub open spec fn offset_bytes(offset: int) -> Seq<u8> {
    let u = if offset < 0 { offset + 0x10000 } else { offset };
    seq![(u % 256) as u8, (u / 256) as u8]
}

pub open spec fn fits_offset(offset: int) -> bool {
    i16::MIN <= offset <= i16::MAX
}

/// The offset that the two bytes at `at` hold.
pub open spec fn read_offset(code: Seq<u8>, at: int) -> int {
    let u = code[at] + 256 * code[at + 1];
    if u >= 0x8000 { u - 0x10000 } else { u }
}

/// The bytes of several offsets, one after the other.
pub open spec fn offsets_bytes(offsets: Seq<int>) -> Seq<u8> {
    Seq::new(2 * offsets.len(), |k: int| offset_bytes(offsets[k / 2])[k % 2])
}

/// The instruction takes an offset.
pub open spec fn takes_offset(instr: u8) -> bool {
    instr == Instr::SPLIT_A || instr == Instr::SPLIT_B || instr == Instr::JUMP
}

/// An instruction that takes an offset.
pub open spec fn offset_code(instr: u8, offset: int) -> Seq<u8> {
    seq![OPCODE_PREFIX, instr] + offset_bytes(offset)
}

/// An instruction as it is first written: its offset, if it takes one, is zero.
pub open spec fn instr_code(instr: u8) -> Seq<u8> {
    if takes_offset(instr) {
        offset_code(instr, 0)
    } else {
        seq![OPCODE_PREFIX, instr]
    }
}

/// A `split_n` instruction.
pub open spec fn split_n_code(offsets: Seq<int>) -> Seq<u8> {
    seq![OPCODE_PREFIX, Instr::SPLIT_N, offsets.len() as u8] + offsets_bytes(offsets)
}

pub open spec fn zeros(n: nat) -> Seq<int> {
    Seq::new(n, |i: int| 0)
}

pub open spec fn masked_byte_code(b: HexByte) -> Seq<u8> {
    seq![OPCODE_PREFIX, Instr::MASKED_BYTE, b.value, b.mask]
}

/// The code that matches one byte.
pub open spec fn byte_code(b: u8) -> Seq<u8> {
    if b == OPCODE_PREFIX {
        seq![b, b]
    } else {
        seq![b]
    }
}

/// The code that matches a literal: the codes of its bytes in a row.
pub open spec fn literal_code(literal: Seq<u8>) -> Seq<u8>
    decreases literal.len(),
{
    if literal.len() == 0 {
        seq![]
    } else {
        literal_code(literal.drop_last()) + byte_code(literal.last())
    }
}

pub open spec fn ranges_code(ranges: Seq<(u8, u8)>) -> Seq<u8> {
    seq![OPCODE_PREFIX, Instr::CLASS_RANGES, ranges.len() as u8] + Seq::new(
        2 * ranges.len(),
        |k: int| if k % 2 == 0 { ranges[k / 2].0 } else { ranges[k / 2].1 },
    )
}

pub open spec fn flag(set: bool, weight: int) -> int {
    if set { weight } else { 0 }
}

/// Byte `i` of the bitmap: its bit `j` tells whether the class holds `8 * i + j`.
pub open spec fn bitmap_byte(ranges: Seq<(u8, u8)>, i: int) -> int {
    flag(in_ranges(ranges, (8 * i) as u8), 1) + flag(in_ranges(ranges, (8 * i + 1) as u8), 2)
        + flag(in_ranges(ranges, (8 * i + 2) as u8), 4) + flag(
        in_ranges(ranges, (8 * i + 3) as u8),
        8,
    ) + flag(in_ranges(ranges, (8 * i + 4) as u8), 16) + flag(
        in_ranges(ranges, (8 * i + 5) as u8),
        32,
    ) + flag(in_ranges(ranges, (8 * i + 6) as u8), 64) + flag(
        in_ranges(ranges, (8 * i + 7) as u8),
        128,
    )
}

pub open spec fn bitmap_code(ranges: Seq<(u8, u8)>) -> Seq<u8> {
    seq![OPCODE_PREFIX, Instr::CLASS_BITMAP] + Seq::new(
        32,
        |i: int| bitmap_byte(ranges, i) as u8,
    )
}

/// The code that matches a byte of a class.
pub open spec fn byte_class_code(ranges: Seq<(u8, u8)>) -> Seq<u8> {
    if ranges.len() < MAX_CLASS_RANGES {
        ranges_code(ranges)
    } else {
        bitmap_code(ranges)
    }
}

/// There is an instruction with an offset at `at`.
pub open spec fn has_offset_at(code: Seq<u8>, at: int) -> bool {
    &&& 0 <= at
    &&& at + 4 <= code.len()
    &&& code[at] == OPCODE_PREFIX
    &&& takes_offset(code[at + 1])
}

/// `code` with the offset of the instruction at `at` replaced.
pub open spec fn patched(code: Seq<u8>, at: int, offset: int) -> Seq<u8> {
    code.update(at + 2, offset_bytes(offset)[0]).update(at + 3, offset_bytes(offset)[1])
}

/// There is a `split_n` with `n` alternatives at `at`.
pub open spec fn has_split_n_at(code: Seq<u8>, at: int, n: nat) -> bool {
    &&& 0 <= at
    &&& at + 3 + 2 * n <= code.len()
    &&& code[at] == OPCODE_PREFIX
    &&& code[at + 1] == Instr::SPLIT_N
    &&& code[at + 2] == n
}

/// `code` with the offsets of the `split_n` at `at` replaced.
pub open spec fn patched_split_n(code: Seq<u8>, at: int, offsets: Seq<int>) -> Seq<u8> {
    Seq::new(
        code.len(),
        |i: int|
            if at + 3 <= i < at + 3 + 2 * offsets.len() {
                offsets_bytes(offsets)[i - at - 3]
            } else {
                code[i]
            },
    )
}

/// The values of a sequence of offsets.
pub open spec fn offset_values(offsets: Seq<Offset>) -> Seq<int> {
    Seq::new(offsets.len(), |i: int| offsets[i] as int)
}

fn low_byte(offset: Offset) -> (r: u8)
    ensures
        r == offset_bytes(offset as int)[0],
{
    let u: u16 = offset as u16;
    assert(u as int == if offset < 0 { offset + 0x10000 } else { offset as int }) by (bit_vector)
        requires
            u == offset as u16,
    ;
    (u % 256) as u8
}

fn high_byte(offset: Offset) -> (r: u8)
    ensures
        r == offset_bytes(offset as int)[1],
{
    let u: u16 = offset as u16;
    assert(u as int == if offset < 0 { offset + 0x10000 } else { offset as int }) by (bit_vector)
        requires
            u == offset as u16,
    ;
    (u / 256) as u8
}

/// A sequence of instructions.
#[derive(Debug)]
pub struct InstrSeq {
    seq_id: u64,
    seq: Vec<u8>,
}

impl View for InstrSeq {
    type V = Seq<u8>;

    closed spec fn view(&self) -> Seq<u8> {
        self.seq@
    }
}

impl InstrSeq {
    /// The number given to the sequence.
    pub closed spec fn id(&self) -> u64 {
        self.seq_id
    }

    /// The code of a sequence is no longer than a vector can be.
    pub proof fn lemma_len(&self)
        ensures
            self@.len() <= usize::MAX,
    {
        assert(self.seq.len() == self.seq@.len());
    }

    pub fn new(seq_id: u64) -> (r: Self)
        ensures
            r@ == Seq::<u8>::empty(),
            r.id() == seq_id,
    {
        InstrSeq { seq_id, seq: Vec::new() }
    }

    /// The code written so far.
    pub fn as_slice(&self) -> (r: &[u8])
        ensures
            r@ == self@,
    {
        self.seq.as_slice()
    }

    /// The number given to the sequence.
    pub fn seq_id(&self) -> (r: u64)
        ensures
            r == self.id(),
    {
        self.seq_id
    }

    /// Where the next instruction will be written.
    pub fn location(&self) -> (r: u64)
        ensures
            r == self@.len(),
            self@.len() <= usize::MAX,
    {
        self.seq.len() as u64
    }

    /// Appends the code of another sequence.
    pub fn append(&mut self, other: &Self)
        ensures
            final(self)@ == old(self)@ + other@,
            final(self).id() == old(self).id(),
    {
        let n: usize = other.seq.len();
        for i in 0..n
            invariant
                n == other@.len(),
                self@ == old(self)@ + other@.take(i as int),
                self.id() == old(self).id(),
        {
            self.seq.push(other.seq[i]);
            assert(other@.take(i + 1) == other@.take(i as int).push(other@[i as int]));
            assert(self@ == old(self)@ + other@.take(i + 1));
        }
        assert(other@.take(n as int) == other@);
    }

    /// Writes an instruction, with a zero offset if it takes one, and returns
    /// its location.
    pub fn emit_instr(&mut self, instr: u8) -> (r: u64)
        ensures
            final(self)@ == old(self)@ + instr_code(instr),
            final(self).id() == old(self).id(),
            r == old(self)@.len(),
    {
        let location: u64 = self.location();
        self.seq.push(OPCODE_PREFIX);
        self.seq.push(instr);
        if instr == Instr::SPLIT_A || instr == Instr::SPLIT_B || instr == Instr::JUMP {
            self.seq.push(0);
            self.seq.push(0);
        }
        assert(self@ =~= old(self)@ + instr_code(instr));
        location
    }

    /// Writes a `split_n` instruction with zero offsets and returns its
    /// location.
    pub fn emit_split_n(&mut self, n: NumAlt) -> (r: u64)
        ensures
            final(self)@ == old(self)@ + split_n_code(zeros(n as nat)),
            final(self).id() == old(self).id(),
            r == old(self)@.len(),
    {
        let location: u64 = self.location();
        self.seq.push(OPCODE_PREFIX);
        self.seq.push(Instr::SPLIT_N);
        self.seq.push(n);
        let ghost start = self@;
        for i in 0..n
            invariant
                self@ == start + offsets_bytes(zeros(i as nat)),
                self.id() == old(self).id(),
        {
            self.seq.push(0);
            self.seq.push(0);
            assert(self@ =~= start + offsets_bytes(zeros((i + 1) as nat)));
        }
        assert(self@ =~= old(self)@ + split_n_code(zeros(n as nat)));
        location
    }

    /// Writes an instruction that matches a masked byte and returns its
    /// location.
    pub fn emit_masked_byte(&mut self, b: HexByte) -> (r: u64)
        ensures
            final(self)@ == old(self)@ + masked_byte_code(b),
            final(self).id() == old(self).id(),
            r == old(self)@.len(),
    {
        let location: u64 = self.location();
        self.seq.push(OPCODE_PREFIX);
        self.seq.push(Instr::MASKED_BYTE);
        self.seq.push(b.value);
        self.seq.push(b.mask);
        assert(self@ =~= old(self)@ + masked_byte_code(b));
        location
    }

    /// Writes an instruction that matches a byte of the class and returns its
    /// location.
    pub fn emit_class(&mut self, c: &ClassBytes) -> (r: u64)
        ensures
            final(self)@ == old(self)@ + byte_class_code(c@),
            final(self).id() == old(self).id(),
            r == old(self)@.len(),
    {
        let location: u64 = self.location();
        if c.ranges.len() < MAX_CLASS_RANGES {
            self.emit_class_ranges(c);
        } else {
            self.emit_class_bitmap(c);
        }
        location
    }

    fn emit_class_ranges(&mut self, c: &ClassBytes)
        requires
            c@.len() < MAX_CLASS_RANGES,
        ensures
            final(self)@ == old(self)@ + ranges_code(c@),
            final(self).id() == old(self).id(),
    {
        let n: usize = c.ranges.len();
        self.seq.push(OPCODE_PREFIX);
        self.seq.push(Instr::CLASS_RANGES);
        self.seq.push(n as u8);
        let ghost start = self@;
        let ghost tail = ranges_code(c@).skip(3);
        for i in 0..n
            invariant
                n == c@.len(),
                tail == ranges_code(c@).skip(3),
                self@ == start + tail.take(2 * i),
                self.id() == old(self).id(),
        {
            let range: (u8, u8) = c.ranges[i];
            self.seq.push(range.0);
            self.seq.push(range.1);
            assert(tail[2 * i] == range.0 && tail[2 * i + 1] == range.1);
            assert(self@ =~= start + tail.take(2 * (i + 1)));
        }
        assert(self@ =~= old(self)@ + ranges_code(c@));
    }

    fn emit_class_bitmap(&mut self, c: &ClassBytes)
        ensures
            final(self)@ == old(self)@ + bitmap_code(c@),
            final(self).id() == old(self).id(),
    {
        self.seq.push(OPCODE_PREFIX);
        self.seq.push(Instr::CLASS_BITMAP);
        let ghost start = self@;
        let ghost tail = bitmap_code(c@).skip(2);
        for i in 0..32u8
            invariant
                tail == bitmap_code(c@).skip(2),
                self@ == start + tail.take(i as int),
                self.id() == old(self).id(),
        {
            let mut bits: u8 = 0;
            if c.contains(8 * i) {
                bits = bits + 1;
            }
            if c.contains(8 * i + 1) {
                bits = bits + 2;
            }
            if c.contains(8 * i + 2) {
                bits = bits + 4;
            }
            if c.contains(8 * i + 3) {
                bits = bits + 8;
            }
            if c.contains(8 * i + 4) {
                bits = bits + 16;
            }
            if c.contains(8 * i + 5) {
                bits = bits + 32;
            }
            if c.contains(8 * i + 6) {
                bits = bits + 64;
            }
            if c.contains(8 * i + 7) {
                bits = bits + 128;
            }
            assert(tail[i as int] == bits);
            self.seq.push(bits);
            assert(self@ =~= start + tail.take(i + 1));
        }
        assert(self@ =~= old(self)@ + bitmap_code(c@));
    }

    /// Writes the code that matches a literal and returns its location.
    pub fn emit_literal(&mut self, literal: &[u8]) -> (r: u64)
        ensures
            final(self)@ == old(self)@ + literal_code(literal@),
            final(self).id() == old(self).id(),
            r == old(self)@.len(),
    {
        let location: u64 = self.location();
        let n: usize = literal.len();
        assert(literal@.take(0) =~= seq![]);
        for i in 0..n
            invariant
                n == literal@.len(),
                self@ =~= old(self)@ + literal_code(literal@.take(i as int)),
                self.id() == old(self).id(),
        {
            let b: u8 = literal[i];
            assert(literal@.take(i + 1).drop_last() =~= literal@.take(i as int));
            assert(literal@.take(i + 1).last() == b);
            self.seq.push(b);
            if b == OPCODE_PREFIX {
                self.seq.push(b);
            }
            assert(self@ =~= old(self)@ + literal_code(literal@.take(i + 1)));
        }
        assert(literal@.take(n as int) =~= literal@);
        location
    }

    /// Replaces the offset of the instruction at `location`.
    pub fn patch_instr(&mut self, location: u64, offset: Offset)
        requires
            has_offset_at(old(self)@, location as int),
        ensures
            final(self)@ == patched(old(self)@, location as int, offset as int),
            final(self).id() == old(self).id(),
    {
        proof {
            self.lemma_len();
        }
        let at: usize = location as usize;
        self.seq.set(at + 2, low_byte(offset));
        self.seq.set(at + 3, high_byte(offset));
    }

    /// Replaces the offsets of the `split_n` instruction at `location`.
    pub fn patch_split_n(&mut self, location: u64, offsets: &Vec<Offset>)
        requires
            has_split_n_at(old(self)@, location as int, offsets@.len()),
        ensures
            final(self)@ == patched_split_n(
                old(self)@,
                location as int,
                offset_values(offsets@),
            ),
            final(self).id() == old(self).id(),
    {
        proof {
            self.lemma_len();
        }
        let at: usize = location as usize + 3;
        let n: usize = offsets.len();
        let ghost values = offset_values(offsets@);
        for i in 0..n
            invariant
                n == offsets@.len(),
                at == location + 3,
                at + 2 * n <= old(self)@.len() <= usize::MAX,
                values == offset_values(offsets@),
                self@.len() == old(self)@.len(),
                forall|k: int|
                    0 <= k < self@.len() ==> #[trigger] self@[k] == if at <= k < at + 2 * i {
                        offsets_bytes(values)[k - at]
                    } else {
                        old(self)@[k]
                    },
                self.id() == old(self).id(),
        {
            let offset: Offset = offsets[i];
            assert(values[i as int] == offset);
            let ghost before = self@;
            self.seq.set(at + 2 * i, low_byte(offset));
            self.seq.set(at + 2 * i + 1, high_byte(offset));
            assert(offsets_bytes(values)[2 * i] == offset_bytes(offset as int)[0]);
            assert(offsets_bytes(values)[2 * i + 1] == offset_bytes(offset as int)[1]);
        }
        assert(self@ =~= patched_split_n(old(self)@, location as int, values));
    }
}

/// The length of the code that matches a literal.
///
/// It is longer than the literal where the literal holds a byte equal to
/// [`OPCODE_PREFIX`].
pub fn literal_code_length(literal: &[u8]) -> (r: usize)
    requires
        literal_code(literal@).len() <= usize::MAX,
    ensures
        r == literal_code(literal@).len(),
{
    let mut length: usize = 0;
    let n: usize = literal.len();
    assert(literal@.take(0) =~= seq![]);
    for i in 0..n
        invariant
            n == literal@.len(),
            literal_code(literal@).len() <= usize::MAX,
            length == literal_code(literal@.take(i as int)).len(),
    {
        let b: u8 = literal[i];
        proof {
            assert(literal@.take(i + 1).drop_last() =~= literal@.take(i as int));
            assert(literal@.take(i + 1).last() == b);
            lemma_literal_code_split(literal@, i + 1);
        }
        if b == OPCODE_PREFIX {
            length = length + 2;
        } else {
            length = length + 1;
        }
    }
    assert(literal@.take(n as int) =~= literal@);
    length
}

/// The code of a literal is the code of its first bytes and that of the rest.
pub proof fn lemma_literal_code_split(literal: Seq<u8>, n: int)
    requires
        0 <= n <= literal.len(),
    ensures
        literal_code(literal) == literal_code(literal.take(n)) + literal_code(literal.skip(n)),
    decreases literal.len(),
{
    if n == literal.len() {
        assert(literal.take(n) =~= literal);
        assert(literal.skip(n) =~= seq![]);
        assert(literal_code(literal) =~= literal_code(literal) + literal_code(seq![]));
    } else {
        lemma_literal_code_split(literal.drop_last(), n);
        assert(literal.drop_last().take(n) =~= literal.take(n));
        assert(literal.drop_last().skip(n) =~= literal.skip(n).drop_last());
        assert(literal_code(literal) =~= literal_code(literal.take(n)) + literal_code(
            literal.skip(n),
        ));
    }
}

} // verus!
