//! Character classes, and the classes that a masked byte can stand for.

use vstd::prelude::*;

verus! {

/// A byte of which only the bits set in `mask` count.
#[derive(Clone, Copy, Debug, PartialEq, Eq, Structural)]
pub struct HexByte {
    pub value: u8,
    pub mask: u8,
}

impl HexByte {
    /// No bit of the value lies outside the mask.
    pub open spec fn valid(self) -> bool {
        self.value & self.mask == self.value
    }

    pub open spec fn accepts(self, byte: u8) -> bool {
        byte & self.mask == self.value
    }
}

/// A set of bytes, written as inclusive ranges.
#[derive(Debug)]
pub struct ClassBytes {
    pub ranges: Vec<(u8, u8)>,
}

/// A set of characters, written as inclusive ranges.
#[derive(Debug)]
pub struct ClassUnicode {
    pub ranges: Vec<(char, char)>,
}

#[derive(Debug)]
pub enum CharClass {
    Unicode(ClassUnicode),
    Bytes(ClassBytes),
}

/// What a class is, whatever holds its ranges.
#[verifier::ext_equal]
pub ghost enum ClassModel {
    Unicode(Seq<(char, char)>),
    Bytes(Seq<(u8, u8)>),
}

/// `byte` lies in one of the ranges.
pub open spec fn in_ranges(ranges: Seq<(u8, u8)>, byte: u8) -> bool {
    exists|i: int| 0 <= i < ranges.len() && (#[trigger] ranges[i]).0 <= byte <= ranges[i].1
}

/// The number of a character that lies in one of the ranges.
pub open spec fn in_char_ranges(ranges: Seq<(char, char)>, c: u32) -> bool {
    &&& vstd::utf8::is_scalar(c)
    &&& exists|i: int|
        0 <= i < ranges.len() && (#[trigger] ranges[i]).0 as int <= c <= ranges[i].1 as int
}

/// Ascending ranges, none of which overlaps or touches another.
pub open spec fn canonical_bytes(ranges: Seq<(u8, u8)>) -> bool {
    &&& forall|i: int| 0 <= i < ranges.len() ==> (#[trigger] ranges[i]).0 <= ranges[i].1
    &&& forall|i: int, j: int|
        0 <= i < j < ranges.len() ==> (#[trigger] ranges[i]).1 + 1 < (#[trigger] ranges[j]).0
}

/// Ascending ranges, none of which overlaps or touches another.
pub open spec fn canonical_chars(ranges: Seq<(char, char)>) -> bool {
    &&& forall|i: int| 0 <= i < ranges.len() ==> (#[trigger] ranges[i]).0 <= ranges[i].1
    &&& forall|i: int, j: int|
        0 <= i < j < ranges.len() ==> (#[trigger] ranges[i]).1 as int + 1 < (
        #[trigger] ranges[j]).0 as int
}

/// The bytes of the class are those that `h` accepts.
pub open spec fn is_masked_byte(ranges: Seq<(u8, u8)>, h: HexByte) -> bool {
    &&& h.valid()
    &&& forall|b: u8| #[trigger] in_ranges(ranges, b) <==> h.accepts(b)
}

/// The masked byte that stands for the class, if there is one.
pub open spec fn hex_byte_of(ranges: Seq<(u8, u8)>) -> Option<HexByte> {
    if exists|h: HexByte| is_masked_byte(ranges, h) {
        Some(choose|h: HexByte| is_masked_byte(ranges, h))
    } else {
        None
    }
}

/// The class holds every byte, or every character.
pub open spec fn is_any(c: ClassModel) -> bool {
    match c {
        ClassModel::Bytes(ranges) => ranges.len() > 0 && ranges[0] == (0u8, 255u8),
        ClassModel::Unicode(ranges) => ranges.len() > 0 && ranges[0] == ('\0', '\u{10FFFF}'),
    }
}

impl View for ClassBytes {
    type V = Seq<(u8, u8)>;

    open spec fn view(&self) -> Seq<(u8, u8)> {
        self.ranges@
    }
}

impl View for ClassUnicode {
    type V = Seq<(char, char)>;

    open spec fn view(&self) -> Seq<(char, char)> {
        self.ranges@
    }
}

impl View for CharClass {
    type V = ClassModel;

    open spec fn view(&self) -> ClassModel {
        match self {
            CharClass::Unicode(c) => ClassModel::Unicode(c@),
            CharClass::Bytes(c) => ClassModel::Bytes(c@),
        }
    }
}

impl ClassBytes {
    /// Tells whether the class holds `byte`.
    pub fn contains(&self, byte: u8) -> (r: bool)
        ensures
            r == in_ranges(self@, byte),
    {
        let n: usize = self.ranges.len();
        for i in 0..n
            invariant
                n == self.ranges@.len(),
                forall|j: int| 0 <= j < i ==> !((#[trigger] self@[j]).0 <= byte <= self@[j].1),
        {
            let range: (u8, u8) = self.ranges[i];
            if range.0 <= byte && byte <= range.1 {
                assert(self@[i as int].0 <= byte <= self@[i as int].1);
                return true;
            }
        }
        false
    }
}

proof fn lemma_masked_bounds(h: HexByte, b: u8)
    requires
        h.valid(),
        h.accepts(b),
    ensures
        h.value <= b <= h.value | !h.mask,
        h.accepts(h.value),
        h.accepts(h.value | !h.mask),
        !(h.value ^ (h.value | !h.mask)) == h.mask,
{
    let v = h.value;
    let m = h.mask;
    assert(v & m == v && b & m == v ==> v <= b && b <= v | !m && v & m == v && (v | !m) & m == v
        && !(v ^ (v | !m)) == m) by (bit_vector);
}

/// The masked byte that stands for the class, if there is one.
pub fn class_to_hex_byte(class: &ClassBytes) -> (r: Option<HexByte>)
    ensures
        r == hex_byte_of(class@),
        r matches Some(h) ==> is_masked_byte(class@, h),
{
    let mut smallest: u8 = 0;
    while smallest < 255 && !class.contains(smallest)
        invariant
            forall|b: u8| b < smallest ==> !in_ranges(class@, b),
        decreases 255 - smallest,
    {
        smallest = smallest + 1;
    }
    let mut largest: u8 = 255;
    while largest > 0 && !class.contains(largest)
        invariant
            forall|b: u8| b > largest ==> !in_ranges(class@, b),
        decreases largest,
    {
        largest = largest - 1;
    }
    let mask: u8 = !(smallest ^ largest);
    let hex: HexByte = HexByte { value: smallest, mask };
    proof {
        // A masked byte for the class has to be `hex`.
        assert forall|h: HexByte| is_masked_byte(class@, h) implies h == hex by {
            lemma_masked_bounds(h, h.value);
            assert(in_ranges(class@, h.value));
            assert(in_ranges(class@, h.value | !h.mask));
            if in_ranges(class@, smallest) {
                lemma_masked_bounds(h, smallest);
            }
            if in_ranges(class@, largest) {
                lemma_masked_bounds(h, largest);
            }
        }
    }
    if smallest & mask != smallest {
        return None;
    }
    let mut b: u8 = 0;
    loop
        invariant
            hex == (HexByte { value: smallest, mask }),
            hex.valid(),
            forall|h: HexByte| is_masked_byte(class@, h) ==> h == hex,
            forall|c: u8| c < b ==> (#[trigger] in_ranges(class@, c) <==> hex.accepts(c)),
        decreases 255 - b,
    {
        let accepted: bool = b & mask == smallest;
        if class.contains(b) != accepted {
            return None;
        }
        if b == 255 {
            assert(is_masked_byte(class@, hex));
            return Some(hex);
        }
        b = b + 1;
    }
}

} // verus!
