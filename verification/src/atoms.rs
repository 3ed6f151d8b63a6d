//! Atoms: short literals that a search looks for before it runs any code.

use vstd::prelude::*;

verus! {

/// The length that atoms are meant to have.
pub const DESIRED_ATOM_SIZE: usize = 4;

/// A literal to search for.
#[derive(Debug, PartialEq, Eq)]
pub struct Atom {
    pub bytes: Vec<u8>,
    /// Finding the atom is finding a match.
    pub exact: bool,
    /// How far behind the start of the literal it was taken from the atom lies.
    pub backtrack: u64,
}

/// What an atom is.
#[verifier::ext_equal]
pub ghost struct AtomModel {
    pub bytes: Seq<u8>,
    pub exact: bool,
    pub backtrack: int,
}

impl View for Atom {
    type V = AtomModel;

    open spec fn view(&self) -> AtomModel {
        AtomModel { bytes: self.bytes@, exact: self.exact, backtrack: self.backtrack as int }
    }
}

impl AtomModel {
    pub open spec fn make_inexact(self) -> AtomModel {
        AtomModel { exact: false, ..self }
    }
}

/// The models of several atoms.
pub open spec fn atom_models(atoms: Seq<Atom>) -> Seq<AtomModel> {
    Seq::new(atoms.len(), |i: int| atoms[i]@)
}

/// Bytes that most files are full of.
pub open spec fn is_common(b: u8) -> bool {
    b == 0x00 || b == 0x20 || b == 0x90 || b == 0xcc || b == 0xff
}

pub open spec fn is_letter(b: u8) -> bool {
    0x41 <= b <= 0x5a || 0x61 <= b <= 0x7a
}

/// What a byte adds to the quality of an atom: common bytes add little, letters
/// less than digits and the rest.
pub open spec fn byte_weight(b: u8) -> int {
    if is_common(b) {
        12
    } else if is_letter(b) {
        18
    } else {
        20
    }
}

pub open spec fn total_weight(bytes: Seq<u8>) -> int
    decreases bytes.len(),
{
    if bytes.len() == 0 {
        0
    } else {
        total_weight(bytes.drop_last()) + byte_weight(bytes.last())
    }
}

/// The weight of the bytes, and two for each different byte; but an atom that
/// repeats one common byte loses ten for each of its bytes.
pub open spec fn unbounded_quality(bytes: Seq<u8>) -> int {
    let different = bytes.to_set().len() as int;
    total_weight(bytes) + if different == 1 && is_common(bytes[0]) {
        -10 * bytes.len()
    } else {
        2 * different
    }
}

pub open spec fn clamp_i32(q: int) -> int {
    if q < i32::MIN {
        i32::MIN as int
    } else if q > i32::MAX {
        i32::MAX as int
    } else {
        q
    }
}

/// How good an atom made of these bytes is.
pub open spec fn quality(bytes: Seq<u8>) -> int {
    clamp_i32(unbounded_quality(bytes))
}

fn is_common_byte(b: u8) -> (r: bool)
    ensures
        r == is_common(b),
{
    b == 0x00 || b == 0x20 || b == 0x90 || b == 0xcc || b == 0xff
}

fn weigh_byte(b: u8) -> (r: i128)
    ensures
        r == byte_weight(b),
{
    if is_common_byte(b) {
        12
    } else if (0x41 <= b && b <= 0x5a) || (0x61 <= b && b <= 0x7a) {
        18
    } else {
        20
    }
}

/// The number of different bytes.
fn count_different(bytes: &[u8]) -> (r: usize)
    ensures
        r == bytes@.to_set().len(),
        r <= 256,
{
    let mut seen: [bool; 256] = [false; 256];
    let mut count: usize = 0;
    let n: usize = bytes.len();
    assert(bytes@.take(0).to_set() =~= Set::<u8>::empty());
    for i in 0..n
        invariant
            n == bytes@.len(),
            bytes@.take(i as int).to_set().finite(),
            count == bytes@.take(i as int).to_set().len(),
            count <= i,
            forall|b: u8|
                #![trigger seen@[b as int]]
                seen@[b as int] <==> bytes@.take(i as int).contains(b),
    {
        let b: u8 = bytes[i];
        let ghost before = bytes@.take(i as int);
        let ghost after = bytes@.take(i + 1);
        proof {
            assert(after =~= before.push(b));
            assert(after.to_set() =~= before.to_set().insert(b)) by {
                assert(after[i as int] == b);
                assert forall|c: u8| #[trigger] after.contains(c) implies before.contains(c) || c
                    == b by {
                    let k = choose|k: int| 0 <= k < after.len() && after[k] == c;
                    if k < i {
                        assert(before[k] == c);
                    }
                }
                assert forall|c: u8| #[trigger] before.contains(c) implies after.contains(c) by {
                    let k = choose|k: int| 0 <= k < before.len() && before[k] == c;
                    assert(after[k] == c);
                }
            }
            assert forall|c: u8| #[trigger] after.contains(c) <==> before.contains(c) || c
                == b by {
                assert(after.to_set().contains(c) <==> before.to_set().insert(b).contains(c));
            }
        }
        if !seen[b as usize] {
            count = count + 1;
        }
        seen[b as usize] = true;
    }
    assert(bytes@.take(n as int) =~= bytes@);
    proof {
        lemma_bytes_are_few(bytes@.to_set());
    }
    count
}

proof fn lemma_bytes_are_few(s: Set<u8>)
    requires
        s.finite(),
    ensures
        s.len() <= 256,
{
    let f = |b: u8| b as int;
    let ints = s.map(f);
    let range = vstd::set_lib::set_int_range(0, 256);
    vstd::set_lib::lemma_int_range(0, 256);
    vstd::set_lib::lemma_map_size(s, ints, f);
    assert(ints.subset_of(range));
    vstd::set_lib::lemma_len_subset(ints, range);
}

impl Atom {
    /// An atom whose presence is not by itself a match.
    pub fn inexact(bytes: Vec<u8>) -> (r: Atom)
        ensures
            r@ == (AtomModel { bytes: bytes@, exact: false, backtrack: 0 }),
    {
        Atom { bytes, exact: false, backtrack: 0 }
    }

    /// The same atom, no longer exact.
    pub fn make_inexact(self) -> (r: Atom)
        ensures
            r@ == self@.make_inexact(),
    {
        Atom { bytes: self.bytes, exact: false, backtrack: self.backtrack }
    }

    /// An atom equal to this one.
    pub fn duplicate(&self) -> (r: Atom)
        ensures
            r@ == self@,
    {
        let bytes: Vec<u8> = self.bytes.clone();
        assert(bytes@ =~= self.bytes@);
        Atom { bytes, exact: self.exact, backtrack: self.backtrack }
    }

    /// How good the atom is.
    pub fn quality(&self) -> (r: i32)
        ensures
            r == quality(self@.bytes),
    {
        bytes_quality(self.bytes.as_slice())
    }
}

/// How good an atom made of these bytes is.
pub fn bytes_quality(bytes: &[u8]) -> (r: i32)
    ensures
        r == quality(bytes@),
{
    let mut q: i128 = 0;
    let n: usize = bytes.len();
    for i in 0..n
        invariant
            n == bytes@.len(),
            q == total_weight(bytes@.take(i as int)),
            0 <= q <= 20 * i,
    {
        assert(bytes@.take(i + 1).drop_last() =~= bytes@.take(i as int));
        q = q + weigh_byte(bytes[i]);
    }
    assert(bytes@.take(n as int) =~= bytes@);
    let different: usize = count_different(bytes);
    proof {
        if bytes@.len() == 0 {
            assert(bytes@.to_set() =~= Set::<u8>::empty());
        }
    }
    if different == 1 && is_common_byte(bytes[0]) {
        q = q - 10 * (n as i128);
    } else {
        q = q + 2 * (different as i128);
    }
    if q > i32::MAX as i128 {
        i32::MAX
    } else if q < i32::MIN as i128 {
        i32::MIN
    } else {
        q as i32
    }
}

/// The bytes of `s` from `start` on, `size` of them or as many as there are.
pub open spec fn window(s: Seq<u8>, size: int, start: int) -> Seq<u8> {
    s.subrange(start, if start + size < s.len() { start + size } else { s.len() as int })
}

/// The last start of a window: windows that the end of `s` would cut short are
/// left out, except that there is always one window.
pub open spec fn last_start(s: Seq<u8>, size: int) -> int {
    if s.len() > size { s.len() - size } else { 0 }
}

/// The start of the best of the windows that start no later than at `last`; the
/// earliest of them if several are equally good.
pub open spec fn best_start(s: Seq<u8>, size: int, last: int) -> int
    decreases last,
{
    if last <= 0 {
        0
    } else {
        let best = best_start(s, size, last - 1);
        if quality(window(s, size, last)) > quality(window(s, size, best)) {
            last
        } else {
            best
        }
    }
}

/// The best atom of at most `size` bytes in a literal.
pub open spec fn best_atom(s: Seq<u8>, size: int) -> AtomModel {
    let start = best_start(s, size, last_start(s, size));
    AtomModel {
        bytes: window(s, size, start),
        exact: window(s, size, start).len() == s.len(),
        backtrack: start,
    }
}

/// The chosen window is no worse than any other, and better than any before it.
pub proof fn lemma_best_start(s: Seq<u8>, size: int, last: int)
    requires
        0 <= last,
    ensures
        0 <= best_start(s, size, last) <= last,
        forall|i: int|
            0 <= i <= last ==> #[trigger] quality(window(s, size, i)) <= quality(
                window(s, size, best_start(s, size, last)),
            ),
        forall|i: int|
            0 <= i < best_start(s, size, last) ==> #[trigger] quality(window(s, size, i))
                < quality(window(s, size, best_start(s, size, last))),
    decreases last,
{
    if last > 0 {
        lemma_best_start(s, size, last - 1);
    }
}

/// Picks the best atom of at most `atom_size` bytes out of a literal.
pub fn best_atom_from_slice(s: &[u8], atom_size: usize) -> (r: Atom)
    ensures
        r@ == best_atom(s@, atom_size as int),
{
    let n: usize = s.len();
    let last: usize = if n > atom_size { n - atom_size } else { 0 };
    let mut best: usize = 0;
    let mut best_bytes: Vec<u8> = copy_window(s, atom_size, 0);
    let mut best_quality: i32 = bytes_quality(best_bytes.as_slice());
    for i in 0..last
        invariant
            n == s@.len(),
            last == last_start(s@, atom_size as int),
            0 <= best <= i,
            best == best_start(s@, atom_size as int, i as int),
            best_bytes@ == window(s@, atom_size as int, best as int),
            best_quality == quality(best_bytes@),
    {
        let candidate: Vec<u8> = copy_window(s, atom_size, i + 1);
        let q: i32 = bytes_quality(candidate.as_slice());
        if q > best_quality {
            best = i + 1;
            best_bytes = candidate;
            best_quality = q;
        }
    }
    Atom { exact: best_bytes.len() == n, bytes: best_bytes, backtrack: best as u64 }
}

fn copy_window(s: &[u8], size: usize, start: usize) -> (r: Vec<u8>)
    requires
        start <= last_start(s@, size as int),
    ensures
        r@ == window(s@, size as int, start as int),
{
    let n: usize = s.len();
    let end: usize = if n - start > size { start + size } else { n };
    let mut r: Vec<u8> = Vec::new();
    for i in start..end
        invariant
            start <= end <= n == s@.len(),
            r@ =~= s@.subrange(start as int, i as int),
    {
        r.push(s[i]);
    }
    r
}

} // verus!
