//! The atoms that every match of an expression starts with.

use vstd::prelude::*;

use crate::atoms::{atom_models, Atom, AtomModel};
use crate::expr::{optional_models, Notes, Tree};
use crate::language::{all_start_with, atom_bytes, is_match};
use crate::regex::{
    common_prefix, extracted, literal_bytes, literal_models, longest_len, shared_len, LitExtractor,
    Literal, LiteralModel,
};

verus! {

/// The literal as an atom.
pub open spec fn literal_atom(literal: LiteralModel) -> AtomModel {
    AtomModel { bytes: literal.bytes, exact: literal.exact, backtrack: 0 }
}

/// The literals as atoms.
pub open spec fn as_atoms(literals: Seq<LiteralModel>) -> Seq<AtomModel> {
    Seq::new(literals.len(), |i: int| literal_atom(literals[i]))
}

/// A single atom that is not exact.
pub open spec fn single_atom(bytes: Seq<u8>) -> Seq<AtomModel> {
    seq![AtomModel { bytes, exact: false, backtrack: 0 }]
}

/// There are 256 literals that differ in nothing but their last byte.
pub open spec fn differ_in_last_byte(literals: Seq<LiteralModel>) -> bool {
    &&& literals.len() == 256
    &&& longest_len(literals) > 1
    &&& common_prefix(literals).len() == longest_len(literals) - 1
}

/// The atoms made of the literals. In place of 256 atoms that differ in nothing
/// but their last byte there is one atom without that byte.
pub open spec fn literal_atoms(literals: Option<Seq<LiteralModel>>) -> Option<Seq<AtomModel>> {
    match literals {
        Some(l) => if differ_in_last_byte(l) {
            Some(single_atom(common_prefix(l)))
        } else {
            Some(as_atoms(l))
        },
        None => None,
    }
}

/// The atoms of an expression and of its sub-expressions.
pub open spec fn notes_of(t: Tree, limits: LitExtractor) -> Notes
    decreases t,
{
    Notes {
        atoms: literal_atoms(extracted(t, limits)),
        subs: match t {
            Tree::Repetition { sub, .. } => seq![notes_of(*sub, limits)],
            Tree::Capture(sub) => seq![notes_of(*sub, limits)],
            Tree::Concat(es) => Seq::new(
                es.len(),
                |i: int|
                    if 0 <= i < es.len() {
                        notes_of(es[i], limits)
                    } else {
                        Notes { atoms: None, subs: seq![] }
                    },
            ),
            Tree::Alternation(es) => Seq::new(
                es.len(),
                |i: int|
                    if 0 <= i < es.len() {
                        notes_of(es[i], limits)
                    } else {
                        Notes { atoms: None, subs: seq![] }
                    },
            ),
            _ => seq![],
        },
    }
}

/// Makes atoms of the literals that were found in an expression. The number of
/// literals, the length of the longest and the longest prefix that they have in
/// common are given with them.
pub fn atoms_from_literals(
    len: Option<usize>,
    max_literal_len: Option<usize>,
    longest_common_prefix: Option<Vec<u8>>,
    literals: Option<Vec<Literal>>,
) -> (r: Option<Vec<Atom>>)
    ensures
        optional_models(r) == if len == Some(256usize) && (max_literal_len matches Some(max_len)
            && max_len > 1 && (longest_common_prefix matches Some(prefix) && prefix@.len()
            == max_len - 1)) {
            Some(single_atom(longest_common_prefix->0@))
        } else {
            match literals {
                Some(l) => Some(as_atoms(literal_models(l@))),
                None => None,
            }
        },
{
    if let Some(256) = len {
        if let Some(max_len) = max_literal_len {
            if max_len > 1 {
                if let Some(prefix) = longest_common_prefix {
                    if prefix.len() == max_len - 1 {
                        let mut single: Vec<Atom> = Vec::new();
                        single.push(Atom::inexact(prefix));
                        assert(atom_models(single@) =~= single_atom(prefix@));
                        return Some(single);
                    }
                }
            }
        }
    }
    match literals {
        Some(literals) => Some(atoms_of(literals)),
        None => None,
    }
}

fn atoms_of(literals: Vec<Literal>) -> (r: Vec<Atom>)
    ensures
        atom_models(r@) == as_atoms(literal_models(literals@)),
{
    let n: usize = literals.len();
    let mut r: Vec<Atom> = Vec::with_capacity(n);
    for i in 0..n
        invariant
            n == literals@.len(),
            r@.len() == i,
            forall|k: int| 0 <= k < i ==> (#[trigger] r@[k])@ == literal_atom(literals@[k]@),
    {
        let bytes: Vec<u8> = copy_bytes(literals[i].bytes.as_slice());
        r.push(Atom { bytes, exact: literals[i].exact, backtrack: 0 });
    }
    assert(atom_models(r@) =~= as_atoms(literal_models(literals@)));
    r
}

pub(crate) fn copy_bytes(bytes: &[u8]) -> (r: Vec<u8>)
    ensures
        r@ == bytes@,
{
    let n: usize = bytes.len();
    let mut r: Vec<u8> = Vec::with_capacity(n);
    for i in 0..n
        invariant
            n == bytes@.len(),
            r@ == bytes@.take(i as int),
    {
        r.push(bytes[i]);
    }
    assert(bytes@.take(n as int) =~= bytes@);
    r
}

proof fn lemma_shared_len(a: Seq<u8>, b: Seq<u8>)
    ensures
        shared_len(a, b) <= a.len(),
        a.take(shared_len(a, b) as int).is_prefix_of(b),
    decreases a.len(),
{
    if a.len() == 0 || b.len() == 0 || a[0] != b[0] {
    } else {
        lemma_shared_len(a.skip(1), b.skip(1));
        let n = shared_len(a, b) as int;
        let rest = a.skip(1).take(n - 1);
        assert forall|i: int| 0 <= i < n implies a[i] == b[i] by {
            if i > 0 {
                assert(a[i] == rest[i - 1]);
                assert(b[i] == b.skip(1).subrange(0, n - 1)[i - 1]);
            }
        }
        assert(a.take(n) =~= b.subrange(0, n));
    }
}

/// Each of the literals starts with their common prefix.
proof fn lemma_common_prefix(literals: Seq<LiteralModel>, i: int)
    requires
        0 <= i < literals.len(),
    ensures
        common_prefix(literals).is_prefix_of(literals[i].bytes),
    decreases literals.len(),
{
    if literals.len() > 1 {
        let before = literals.drop_last();
        let p = common_prefix(before);
        let last = literals.last().bytes;
        lemma_shared_len(p, last);
        if i < literals.len() - 1 {
            lemma_common_prefix(before, i);
            let n = shared_len(p, last) as int;
            assert(p.take(n) =~= literals[i].bytes.subrange(0, n));
        }
    }
}

proof fn lemma_longest_len(literals: Seq<LiteralModel>, limit: int)
    requires
        forall|i: int|
            0 <= i < literals.len() ==> (#[trigger] literals[i]).bytes.len() <= limit,
        literals.len() > 0,
    ensures
        longest_len(literals) <= limit,
    decreases literals.len(),
{
    assert(literals.last().bytes.len() <= limit);
    if literals.len() > 1 {
        lemma_longest_len(literals.drop_last(), limit);
    } else {
        assert(longest_len(literals.drop_last()) == 0);
    }
}

/// The atoms made of literals are as good a choice as the literals: every match
/// starts with one of them, one that is exact is a match, and none of them is
/// longer than the literals may be.
pub proof fn lemma_literal_atoms(t: Tree, literals: Seq<LiteralModel>, limit: int)
    requires
        forall|i: int|
            0 <= i < literals.len() ==> (#[trigger] literals[i]).bytes.len() <= limit,
    ensures
        ({
            let atoms = literal_atoms(Some(literals))->0;
            &&& all_start_with(t, literal_bytes(literals)) ==> all_start_with(
                t,
                atom_bytes(atoms),
            )
            &&& (forall|i: int|
                0 <= i < literals.len() && (#[trigger] literals[i]).exact ==> is_match(
                    t,
                    literals[i].bytes,
                )) ==> (forall|i: int|
                0 <= i < atoms.len() && (#[trigger] atoms[i]).exact ==> is_match(
                    t,
                    atoms[i].bytes,
                ))
            &&& forall|i: int| 0 <= i < atoms.len() ==> (#[trigger] atoms[i]).bytes.len() <= limit
        }),
{
    let atoms = literal_atoms(Some(literals))->0;
    if differ_in_last_byte(literals) {
        lemma_longest_len(literals, limit);
        if all_start_with(t, literal_bytes(literals)) {
            assert forall|w: Seq<u8>| #[trigger] is_match(t, w) implies exists|i: int|
                0 <= i < atom_bytes(atoms).len() && (#[trigger] atom_bytes(
                    atoms,
                )[i]).is_prefix_of(w) by {
                let l = literal_bytes(literals);
                let k = choose|k: int| 0 <= k < l.len() && (#[trigger] l[k]).is_prefix_of(w);
                lemma_common_prefix(literals, k);
                let p = common_prefix(literals);
                assert(p =~= w.subrange(0, p.len() as int));
                assert(atom_bytes(atoms)[0].is_prefix_of(w));
            }
        }
    } else {
        assert(atom_bytes(atoms) =~= literal_bytes(literals));
        assert forall|i: int| 0 <= i < atoms.len() implies (#[trigger] atoms[i]).bytes
            == literals[i].bytes && atoms[i].exact == literals[i].exact by {}
    }
}

/// What both start with is not longer than what they share.
proof fn lemma_shared_most(q: Seq<u8>, a: Seq<u8>, b: Seq<u8>)
    requires
        q.is_prefix_of(a),
        q.is_prefix_of(b),
    ensures
        q.len() <= shared_len(a, b),
    decreases q.len(),
{
    if q.len() > 0 {
        assert(q[0] == a.subrange(0, q.len() as int)[0]);
        assert(q[0] == b.subrange(0, q.len() as int)[0]);
        let r = q.skip(1);
        assert(r =~= a.skip(1).subrange(0, r.len() as int)) by {
            assert forall|i: int| 0 <= i < r.len() implies r[i] == a.skip(1)[i] by {
                assert(q[i + 1] == a.subrange(0, q.len() as int)[i + 1]);
            }
        }
        assert(r =~= b.skip(1).subrange(0, r.len() as int)) by {
            assert forall|i: int| 0 <= i < r.len() implies r[i] == b.skip(1)[i] by {
                assert(q[i + 1] == b.subrange(0, q.len() as int)[i + 1]);
            }
        }
        lemma_shared_most(r, a.skip(1), b.skip(1));
    }
}

/// What all of the literals start with, their common prefix starts with.
proof fn lemma_common_most(literals: Seq<LiteralModel>, q: Seq<u8>)
    requires
        literals.len() > 0,
        forall|i: int|
            0 <= i < literals.len() ==> q.is_prefix_of((#[trigger] literals[i]).bytes),
    ensures
        q.is_prefix_of(common_prefix(literals)),
    decreases literals.len(),
{
    assert(q.is_prefix_of(literals[0].bytes));
    if literals.len() > 1 {
        let before = literals.drop_last();
        assert forall|i: int| 0 <= i < before.len() implies q.is_prefix_of(
            (#[trigger] before[i]).bytes,
        ) by {
            assert(q.is_prefix_of(literals[i].bytes));
        }
        lemma_common_most(before, q);
        let p = common_prefix(before);
        let last = literals.last().bytes;
        assert(q.is_prefix_of(literals[literals.len() - 1].bytes));
        lemma_shared_most(q, p, last);
        lemma_shared_len(p, last);
        let n = shared_len(p, last) as int;
        assert(q =~= p.take(n).subrange(0, q.len() as int)) by {
            assert(q == p.subrange(0, q.len() as int));
        }
    }
}

proof fn lemma_longest_reached(literals: Seq<LiteralModel>, n: int)
    requires
        forall|i: int| 0 <= i < literals.len() ==> (#[trigger] literals[i]).bytes.len() <= n,
        exists|i: int| 0 <= i < literals.len() && (#[trigger] literals[i]).bytes.len() == n,
    ensures
        longest_len(literals) == n,
    decreases literals.len(),
{
    let k = choose|k: int|
        0 <= k < literals.len() && (#[trigger] literals[k]).bytes.len() == n;
    let before = literals.drop_last();
    lemma_longest_len(literals, n);
    if k < before.len() {
        assert(before[k].bytes.len() == n);
        assert forall|i: int| 0 <= i < before.len() implies (#[trigger] before[i]).bytes.len()
            <= n by {
            assert(literals[i].bytes.len() <= n);
        }
        lemma_longest_reached(before, n);
    }
}

/// In place of 256 literals of which the longest has more than one byte, that are
/// not all the same, and that have all but the last byte of the longest in common,
/// there is a single atom: what they have in common. It is not exact.
pub proof fn lemma_one_atom_for_last_byte(l: Seq<LiteralModel>, n: int, p: Seq<u8>)
    requires
        l.len() == 256,
        n > 1,
        forall|i: int| 0 <= i < l.len() ==> (#[trigger] l[i]).bytes.len() <= n,
        exists|i: int| 0 <= i < l.len() && (#[trigger] l[i]).bytes.len() == n,
        p.len() == n - 1,
        forall|i: int| 0 <= i < l.len() ==> p.is_prefix_of((#[trigger] l[i]).bytes),
        exists|i: int, j: int|
            0 <= i < l.len() && 0 <= j < l.len() && (#[trigger] l[i]).bytes != (
            #[trigger] l[j]).bytes,
    ensures
        literal_atoms(Some(l)) matches Some(atoms) && atoms.len() == 1 && atoms[0].bytes == p
            && !atoms[0].exact && atoms[0].backtrack == 0,
{
    lemma_longest_reached(l, n);
    lemma_common_most(l, p);
    let c = common_prefix(l);
    let (i, j) = choose|i: int, j: int|
        0 <= i < l.len() && 0 <= j < l.len() && (#[trigger] l[i]).bytes != (
        #[trigger] l[j]).bytes;
    lemma_common_prefix(l, i);
    lemma_common_prefix(l, j);
    if c.len() >= n {
        assert(l[i].bytes =~= c);
        assert(l[j].bytes =~= c);
    }
    assert(c =~= p);
}

/// The same of the literals whose longest has `n` bytes and whose common prefix has
/// all of them but one.
pub proof fn lemma_one_atom_for_common_prefix(l: Seq<LiteralModel>)
    requires
        l.len() == 256,
        longest_len(l) > 1,
        common_prefix(l).len() == longest_len(l) - 1,
    ensures
        literal_atoms(Some(l)) matches Some(atoms) && atoms.len() == 1 && atoms[0].bytes
            == common_prefix(l) && !atoms[0].exact && atoms[0].backtrack == 0,
{
}

/// Any other literals become atoms one for one: if there are not 256 of them, if
/// none has more than one byte, if they are all the same, or if one of them does not
/// start with all but the last byte of the longest.
pub proof fn lemma_literals_kept(l: Seq<LiteralModel>, i: int, j: int)
    requires
        ({
            ||| l.len() != 256
            ||| forall|k: int| 0 <= k < l.len() ==> (#[trigger] l[k]).bytes.len() <= 1
            ||| forall|k: int| 0 <= k < l.len() ==> (#[trigger] l[k]).bytes == l[0].bytes
            ||| {
                &&& 0 <= i < l.len()
                &&& 0 <= j < l.len()
                &&& l[i].bytes.len() > 1
                &&& forall|k: int|
                    0 <= k < l.len() ==> (#[trigger] l[k]).bytes.len() <= l[i].bytes.len()
                &&& !l[i].bytes.drop_last().is_prefix_of(l[j].bytes)
            }
        }),
    ensures
        literal_atoms(Some(l)) matches Some(atoms) && atoms.len() == l.len() && forall|k: int|
            0 <= k < l.len() ==> (#[trigger] atoms[k]).bytes == l[k].bytes && atoms[k].exact
                == l[k].exact && atoms[k].backtrack == 0,
{
    if l.len() == 256 {
        let c = common_prefix(l);
        if forall|k: int| 0 <= k < l.len() ==> (#[trigger] l[k]).bytes.len() <= 1 {
            lemma_longest_len(l, 1);
        } else if forall|k: int| 0 <= k < l.len() ==> (#[trigger] l[k]).bytes == l[0].bytes {
            let n = l[0].bytes.len() as int;
            lemma_longest_reached(l, n);
            assert forall|k: int| 0 <= k < l.len() implies l[0].bytes.is_prefix_of(
                (#[trigger] l[k]).bytes,
            ) by {
                assert(l[k].bytes == l[0].bytes);
                assert(l[0].bytes =~= l[0].bytes.subrange(0, n));
            }
            lemma_common_most(l, l[0].bytes);
        } else {
            lemma_longest_reached(l, l[i].bytes.len() as int);
            lemma_common_prefix(l, i);
            lemma_common_prefix(l, j);
            if c.len() == l[i].bytes.len() - 1 {
                assert(l[i].bytes.drop_last() =~= c);
            }
        }
    }
}

/// The atoms noted of an expression are those of the literals that were found in
/// it, and none if there are infinitely many. The same holds of its sub-expressions.
pub proof fn lemma_notes_of(t: Tree, limits: LitExtractor)
    ensures
        notes_of(t, limits).atoms == literal_atoms(extracted(t, limits)),
        extracted(t, limits) is None <==> notes_of(t, limits).atoms is None,
        t matches Tree::Capture(sub) ==> notes_of(t, limits).subs == seq![notes_of(*sub, limits)],
        t matches Tree::Repetition { sub, .. } ==> notes_of(t, limits).subs == seq![
            notes_of(*sub, limits),
        ],
        t matches Tree::Concat(es) ==> notes_of(t, limits).subs == Seq::new(
            es.len(),
            |i: int| notes_of(es[i], limits),
        ),
        t matches Tree::Alternation(es) ==> notes_of(t, limits).subs == Seq::new(
            es.len(),
            |i: int| notes_of(es[i], limits),
        ),
{
    match t {
        Tree::Concat(es) => assert(notes_of(t, limits).subs =~= Seq::new(
            es.len(),
            |i: int| notes_of(es[i], limits),
        )),
        Tree::Alternation(es) => assert(notes_of(t, limits).subs =~= Seq::new(
            es.len(),
            |i: int| notes_of(es[i], limits),
        )),
        _ => {},
    }
}

} // verus!
