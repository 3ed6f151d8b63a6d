//! Which atoms are better than others.

use vstd::prelude::*;

use crate::atoms::{
    best_atom, byte_weight, is_common, last_start, lemma_best_start, quality, total_weight,
    unbounded_quality, window,
};

verus! {

/// A length up to which the quality of an atom fits in 32 bits with room to spare.
pub const MAX_RATED_LEN: usize = 0x100_0000;

/// One of the bytes that most files are full of.
pub open spec fn is_filler(b: u8) -> bool {
    b == 0x00 || b == 0x20 || b == 0x90 || b == 0xcc || b == 0xff
}

pub open spec fn is_ascii_letter(b: u8) -> bool {
    0x41 <= b <= 0x5a || 0x61 <= b <= 0x7a
}

pub open spec fn is_digit(b: u8) -> bool {
    0x30 <= b <= 0x39
}

/// Fillers come last, then letters, then everything else.
pub open spec fn byte_rank(b: u8) -> int {
    if is_filler(b) {
        0
    } else if is_ascii_letter(b) {
        1
    } else {
        2
    }
}

/// The number of different bytes.
pub open spec fn different(s: Seq<u8>) -> nat {
    s.to_set().len()
}

/// A byte weighs more than another if and only if it has a higher rank: a filler
/// less than a letter, a letter less than a digit, and a digit as much as any other
/// byte.
pub proof fn lemma_byte_weights(a: u8, b: u8)
    ensures
        byte_weight(a) < byte_weight(b) <==> byte_rank(a) < byte_rank(b),
        byte_weight(a) > 0,
        is_filler(a) && is_ascii_letter(b) ==> byte_weight(a) < byte_weight(b),
        is_filler(a) && is_digit(b) ==> byte_weight(a) < byte_weight(b),
        is_ascii_letter(a) && is_digit(b) ==> byte_weight(a) < byte_weight(b),
{
}

proof fn lemma_weight_bounds(s: Seq<u8>)
    ensures
        12 * s.len() <= total_weight(s) <= 20 * s.len(),
    decreases s.len(),
{
    if s.len() > 0 {
        lemma_weight_bounds(s.drop_last());
    }
}

proof fn lemma_different_bounds(s: Seq<u8>)
    ensures
        different(s) <= s.len(),
        s.len() > 0 ==> different(s) > 0,
        s.to_set().finite(),
{
    vstd::seq_lib::seq_to_set_is_finite(s);
    s.lemma_cardinality_of_set();
    if s.len() > 0 {
        assert(s.to_set().contains(s[0]));
    }
}

/// Short atoms have a quality that is not cut off.
proof fn lemma_not_cut_off(s: Seq<u8>)
    requires
        s.len() <= MAX_RATED_LEN,
    ensures
        quality(s) == unbounded_quality(s),
        s.len() > 0 ==> quality(s) > 0,
        s.len() == 0 ==> quality(s) == 0,
{
    lemma_weight_bounds(s);
    lemma_different_bounds(s);
    if s.len() == 0 {
        assert(s.to_set() =~= Set::<u8>::empty());
    }
}

proof fn lemma_heavier(a: Seq<u8>, b: Seq<u8>)
    requires
        a.len() == b.len(),
        forall|i: int| 0 <= i < a.len() ==> byte_rank(#[trigger] a[i]) <= byte_rank(b[i]),
    ensures
        total_weight(a) <= total_weight(b),
        (exists|i: int| 0 <= i < a.len() && byte_rank(#[trigger] a[i]) < byte_rank(b[i]))
            ==> total_weight(a) < total_weight(b),
    decreases a.len(),
{
    if a.len() > 0 {
        let x = a.drop_last();
        let y = b.drop_last();
        assert forall|i: int| 0 <= i < x.len() implies byte_rank(#[trigger] x[i]) <= byte_rank(
            y[i],
        ) by {
            assert(byte_rank(a[i]) <= byte_rank(b[i]));
        }
        lemma_heavier(x, y);
        let n = a.len() - 1;
        assert(byte_rank(a[n]) <= byte_rank(b[n]));
        if exists|i: int| 0 <= i < a.len() && byte_rank(#[trigger] a[i]) < byte_rank(b[i]) {
            let i = choose|i: int|
                0 <= i < a.len() && byte_rank(#[trigger] a[i]) < byte_rank(b[i]);
            if i < n {
                assert(byte_rank(x[i]) < byte_rank(y[i]));
            }
        }
    }
}

/// Of two atoms of the same length and with as many different bytes, one is better
/// if none of its bytes has a lower rank than that of the other at the same place
/// and one of them has a higher.
pub proof fn lemma_better_bytes(a: Seq<u8>, b: Seq<u8>)
    requires
        a.len() == b.len() <= MAX_RATED_LEN,
        different(a) == different(b),
        forall|i: int| 0 <= i < a.len() ==> byte_rank(#[trigger] a[i]) <= byte_rank(b[i]),
        exists|i: int| 0 <= i < a.len() && byte_rank(#[trigger] a[i]) < byte_rank(b[i]),
    ensures
        quality(a) < quality(b),
{
    lemma_not_cut_off(a);
    lemma_not_cut_off(b);
    lemma_heavier(a, b);
    lemma_different_bounds(a);
    let k = choose|k: int| 0 <= k < a.len() && byte_rank(#[trigger] a[k]) < byte_rank(b[k]);
    if different(b) == 1 && is_common(b[0]) {
        lemma_all_the_same(b, k);
        assert(b[k] == b[0]);
    }
}

/// A sequence with a single different byte repeats it.
proof fn lemma_all_the_same(s: Seq<u8>, k: int)
    requires
        different(s) == 1,
        0 <= k < s.len(),
    ensures
        s[k] == s[0],
{
    lemma_different_bounds(s);
    let set = s.to_set();
    assert(set.contains(s[0]) && set.contains(s[k]));
    if s[k] != s[0] {
        let rest = set.remove(s[0]);
        assert(rest.contains(s[k]));
        assert(rest.len() == 0);
        assert(rest =~= Set::<u8>::empty());
    }
}

/// Of two atoms of the same length and with as many different bytes, one of digits
/// is better than one of letters, and one of letters better than one of fillers.
pub proof fn lemma_digits_letters_fillers(a: Seq<u8>, b: Seq<u8>)
    requires
        0 < a.len() == b.len() <= MAX_RATED_LEN,
        different(a) == different(b),
        ({
            ||| {
                &&& forall|i: int| 0 <= i < a.len() ==> is_ascii_letter(#[trigger] a[i])
                &&& forall|i: int| 0 <= i < b.len() ==> is_digit(#[trigger] b[i])
            }
            ||| {
                &&& forall|i: int| 0 <= i < a.len() ==> is_filler(#[trigger] a[i])
                &&& forall|i: int| 0 <= i < b.len() ==> is_ascii_letter(#[trigger] b[i])
            }
        }),
    ensures
        quality(a) < quality(b),
{
    assert forall|i: int| 0 <= i < a.len() implies byte_rank(#[trigger] a[i]) < byte_rank(
        b[i],
    ) by {
        if is_ascii_letter(a[0]) {
            assert(is_digit(b[0]));
            assert(is_ascii_letter(a[i]));
            assert(is_digit(b[i]));
        } else {
            assert(is_filler(a[0]));
            assert(is_filler(a[i]));
            assert(is_ascii_letter(b[i]));
        }
    }
    assert(byte_rank(a[0]) < byte_rank(b[0]));
    lemma_better_bytes(a, b);
}

/// Of two atoms of the same length whose bytes have the same ranks, the one with
/// more different bytes is better.
pub proof fn lemma_more_different_bytes(a: Seq<u8>, b: Seq<u8>)
    requires
        a.len() == b.len() <= MAX_RATED_LEN,
        forall|i: int| 0 <= i < a.len() ==> byte_rank(#[trigger] a[i]) == byte_rank(b[i]),
        different(a) < different(b),
    ensures
        quality(a) < quality(b),
{
    lemma_not_cut_off(a);
    lemma_not_cut_off(b);
    lemma_heavier(a, b);
    assert forall|i: int| 0 <= i < b.len() implies byte_rank(#[trigger] b[i]) <= byte_rank(
        a[i],
    ) by {
        assert(byte_rank(a[i]) == byte_rank(b[i]));
    }
    lemma_heavier(b, a);
    lemma_different_bounds(a);
    lemma_different_bounds(b);
}

/// The order of the bytes of an atom does not matter.
pub proof fn lemma_order_of_bytes(a: Seq<u8>, b: Seq<u8>)
    requires
        a.to_multiset() == b.to_multiset(),
    ensures
        quality(a) == quality(b),
{
    broadcast use vstd::seq_lib::group_to_multiset_ensures;

    lemma_weight_of_multiset(a, b);
    assert(a.len() == b.len());
    assert forall|x: u8| a.to_set().contains(x) <==> b.to_set().contains(x) by {
        assert(a.contains(x) <==> a.to_multiset().count(x) > 0);
        assert(b.contains(x) <==> b.to_multiset().count(x) > 0);
    }
    assert(a.to_set() =~= b.to_set());
    if different(a) == 1 {
        lemma_different_bounds(a);
        assert(a.contains(a[0]));
        assert(b.to_set().contains(a[0]));
        let k = choose|k: int| 0 <= k < b.len() && b[k] == a[0];
        lemma_all_the_same(b, k);
    }
}

proof fn lemma_weight_of_multiset(a: Seq<u8>, b: Seq<u8>)
    requires
        a.to_multiset() == b.to_multiset(),
    ensures
        total_weight(a) == total_weight(b),
        a.len() == b.len(),
    decreases a.len(),
{
    broadcast use vstd::seq_lib::group_to_multiset_ensures;

    assert(a.len() == a.to_multiset().len());
    assert(b.len() == b.to_multiset().len());
    if a.len() > 0 {
        let last = a.last();
        assert(a.contains(a[a.len() - 1]));
        assert(b.to_multiset().count(last) > 0);
        assert(b.contains(last));
        let k = choose|k: int| 0 <= k < b.len() && b[k] == last;
        lemma_weight_without(b, k);
        assert(a.drop_last() =~= a.remove(a.len() - 1));
        assert(a.remove(a.len() - 1).to_multiset() =~= a.to_multiset().remove(last));
        assert(b.remove(k).to_multiset() =~= b.to_multiset().remove(last));
        lemma_weight_of_multiset(a.drop_last(), b.remove(k));
    }
}

proof fn lemma_weight_without(s: Seq<u8>, k: int)
    requires
        0 <= k < s.len(),
    ensures
        total_weight(s) == total_weight(s.remove(k)) + byte_weight(s[k]),
    decreases s.len(),
{
    if k == s.len() - 1 {
        assert(s.remove(k) =~= s.drop_last());
    } else {
        lemma_weight_without(s.drop_last(), k);
        assert(s.remove(k).drop_last() =~= s.drop_last().remove(k));
        assert(s.remove(k).last() == s.last());
    }
}

/// A longer atom is better than one that it starts with; the empty one has quality
/// 0.
pub proof fn lemma_longer_is_better(s: Seq<u8>, b: u8)
    requires
        s.len() < MAX_RATED_LEN,
    ensures
        quality(s) < quality(s.push(b)),
        quality(s) >= 0,
        quality(s) == 0 <==> s.len() == 0,
{
    let t = s.push(b);
    lemma_not_cut_off(s);
    lemma_not_cut_off(t);
    lemma_different_bounds(s);
    lemma_different_bounds(t);
    assert(t.drop_last() =~= s);
    lemma_weight_bounds(s);
    if s.len() > 0 {
        assert(s.to_set().subset_of(t.to_set())) by {
            assert forall|x: u8| s.to_set().contains(x) implies t.to_set().contains(x) by {
                let i = choose|i: int| 0 <= i < s.len() && s[i] == x;
                assert(t[i] == x);
            }
        }
        vstd::set_lib::lemma_len_subset(s.to_set(), t.to_set());
        if different(t) == 1 && is_common(t[0]) {
            lemma_all_the_same(t, s.len() as int);
            assert(s[0] == t[0]);
            assert(different(s) == 1);
        }
    }
}

/// An atom that repeats one filler is worse than any other atom of its length that
/// does not.
pub proof fn lemma_repeated_filler_is_worst(c: u8, s: Seq<u8>)
    requires
        is_filler(c),
        0 < s.len() <= MAX_RATED_LEN,
        !(is_filler(s[0]) && forall|i: int| 0 <= i < s.len() ==> #[trigger] s[i] == s[0]),
    ensures
        quality(Seq::new(s.len(), |i: int| c)) < quality(s),
{
    let r = Seq::new(s.len(), |i: int| c);
    lemma_not_cut_off(r);
    lemma_not_cut_off(s);
    lemma_different_bounds(s);
    lemma_weight_bounds(s);
    lemma_repeated_weight(c, s.len());
    assert(r.to_set() =~= set![c]) by {
        assert(r[0] == c);
        assert forall|x: u8| r.to_set().contains(x) implies x == c by {
            let i = choose|i: int| 0 <= i < r.len() && r[i] == x;
        }
    }
    if different(s) == 1 && is_common(s[0]) {
        assert forall|i: int| 0 <= i < s.len() implies #[trigger] s[i] == s[0] by {
            lemma_all_the_same(s, i);
        }
    }
}

proof fn lemma_repeated_weight(c: u8, n: nat)
    ensures
        total_weight(Seq::new(n, |i: int| c)) == byte_weight(c) * n,
    decreases n,
{
    if n > 0 {
        let r = Seq::new(n, |i: int| c);
        let m = (n - 1) as nat;
        lemma_repeated_weight(c, m);
        assert(r.drop_last() =~= Seq::new(m, |i: int| c));
        assert(byte_weight(c) * n == byte_weight(c) * m + byte_weight(c)) by (nonlinear_arith)
            requires
                n == m + 1,
        ;
    }
}

/// The best atom of a literal is as long as it may be. It is a part of the literal,
/// no other part of that length is better, and those before it are worse. It is
/// exact if it is the whole literal.
pub proof fn lemma_best_atom(s: Seq<u8>, size: int)
    requires
        0 <= size,
    ensures
        ({
            let a = best_atom(s, size);
            let n = if size < s.len() { size } else { s.len() as int };
            &&& 0 <= a.backtrack <= s.len() - n
            &&& a.bytes == s.subrange(a.backtrack, a.backtrack + n)
            &&& forall|i: int|
                0 <= i <= s.len() - n ==> quality(#[trigger] s.subrange(i, i + n)) <= quality(
                    a.bytes,
                )
            &&& forall|i: int|
                0 <= i < a.backtrack ==> quality(#[trigger] s.subrange(i, i + n)) < quality(
                    a.bytes,
                )
            &&& a.exact <==> n == s.len()
        }),
{
    let a = best_atom(s, size);
    let n = if size < s.len() { size } else { s.len() as int };
    let last = last_start(s, size);
    lemma_best_start(s, size, last);
    assert(last == s.len() - n);
    assert forall|i: int| 0 <= i <= s.len() - n implies quality(#[trigger] s.subrange(i, i + n))
        <= quality(a.bytes) by {
        assert(s.subrange(i, i + n) == window(s, size, i));
    }
    assert forall|i: int| 0 <= i < a.backtrack implies quality(#[trigger] s.subrange(i, i + n))
        < quality(a.bytes) by {
        assert(s.subrange(i, i + n) == window(s, size, i));
    }
}

/// A part of the literal, as long as the best atom, is not better than it.
pub proof fn lemma_no_better_part(s: Seq<u8>, size: int, i: int)
    requires
        0 <= size <= s.len(),
        0 <= i <= s.len() - size,
    ensures
        quality(s.subrange(i, i + size)) <= quality(best_atom(s, size).bytes),
        i < best_atom(s, size).backtrack ==> quality(s.subrange(i, i + size)) < quality(
            best_atom(s, size).bytes,
        ),
{
    lemma_best_start(s, size, last_start(s, size));
    assert(s.subrange(i, i + size) == window(s, size, i));
}

/// Where a literal has a part of digits alone, the best atom is no part of letters
/// alone that has as many different bytes.
pub proof fn lemma_digits_before_letters(s: Seq<u8>, size: int, i: int, j: int)
    requires
        0 < size <= s.len(),
        size <= MAX_RATED_LEN,
        0 <= i <= s.len() - size,
        0 <= j <= s.len() - size,
        forall|k: int| 0 <= k < size ==> is_digit(#[trigger] s.subrange(i, i + size)[k]),
        forall|k: int| 0 <= k < size ==> is_ascii_letter(#[trigger] s.subrange(j, j + size)[k]),
        different(s.subrange(i, i + size)) == different(s.subrange(j, j + size)),
    ensures
        best_atom(s, size).backtrack != j,
        best_atom(s, size).bytes != s.subrange(j, j + size),
{
    lemma_best_atom(s, size);
    lemma_no_better_part(s, size, i);
    lemma_digits_letters_fillers(s.subrange(j, j + size), s.subrange(i, i + size));
}

} // verus!
