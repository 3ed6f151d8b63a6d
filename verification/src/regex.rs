//! The parts of `regex_syntax` that the compiler rests on.

use vstd::prelude::*;

use crate::class::{
    canonical_bytes, canonical_chars, CharClass, ClassBytes, ClassModel, ClassUnicode,
};
use crate::code::{ascii_ranges, is_ascii_class, supported};
use crate::expr::Tree;
use crate::language::{all_start_with, is_match};

verus! {

/// Limits on the literals that are extracted from an expression.
#[derive(Clone, Copy, Debug)]
pub struct LitExtractor {
    /// A class with more characters than this yields no literals.
    pub limit_class: usize,
    /// An expression with more literals than this yields none.
    pub limit_total: usize,
    /// Longer literals are cut short.
    pub limit_literal_len: usize,
}

/// A literal that was extracted from an expression.
#[derive(Debug)]
pub struct Literal {
    pub bytes: Vec<u8>,
    /// The literal was not cut short: it leads to the end of a match.
    pub exact: bool,
}

#[verifier::ext_equal]
pub ghost struct LiteralModel {
    pub bytes: Seq<u8>,
    pub exact: bool,
}

impl View for Literal {
    type V = LiteralModel;

    open spec fn view(&self) -> LiteralModel {
        LiteralModel { bytes: self.bytes@, exact: self.exact }
    }
}

/// The models of several literals.
pub open spec fn literal_models(literals: Seq<Literal>) -> Seq<LiteralModel> {
    Seq::new(literals.len(), |i: int| literals[i]@)
}

/// The bytes of each literal.
pub open spec fn literal_bytes(literals: Seq<LiteralModel>) -> Seq<Seq<u8>> {
    Seq::new(literals.len(), |i: int| literals[i].bytes)
}

/// The length of the longest literal.
pub open spec fn longest_len(literals: Seq<LiteralModel>) -> nat
    decreases literals.len(),
{
    if literals.len() == 0 {
        0
    } else {
        let before = longest_len(literals.drop_last());
        let last = literals.last().bytes.len();
        if last > before { last } else { before }
    }
}

/// How many bytes at the start of `a` and `b` are the same.
pub open spec fn shared_len(a: Seq<u8>, b: Seq<u8>) -> nat
    decreases a.len(),
{
    if a.len() == 0 || b.len() == 0 || a[0] != b[0] {
        0
    } else {
        1 + shared_len(a.skip(1), b.skip(1))
    }
}

/// The longest prefix that the literals have in common.
pub open spec fn common_prefix(literals: Seq<LiteralModel>) -> Seq<u8>
    decreases literals.len(),
{
    if literals.len() <= 1 {
        literals[0].bytes
    } else {
        let p = common_prefix(literals.drop_last());
        p.take(shared_len(p, literals.last().bytes) as int)
    }
}

/// A regular expression of `regex_syntax`.
#[verifier::external_type_specification]
#[verifier::external_body]
pub struct ExHir(regex_syntax::hir::Hir);

/// A character class of `regex_syntax`.
#[verifier::external_type_specification]
#[verifier::external_body]
pub struct ExClass(regex_syntax::hir::Class);

/// A sequence of literals of `regex_syntax`.
#[verifier::external_type_specification]
#[verifier::external_body]
pub struct ExLiteralSeq(regex_syntax::hir::literal::Seq);

/// What an expression of `regex_syntax` holds: the tree that `Hir::kind` shows
/// node by node.
pub uninterp spec fn hir_tree(hir: regex_syntax::hir::Hir) -> Tree;

/// The ranges of a class of `regex_syntax`.
pub uninterp spec fn class_ranges(class: regex_syntax::hir::Class) -> ClassModel;

/// What a sequence of literals of `regex_syntax` holds, `None` if it is infinite.
pub uninterp spec fn literal_seq(seq: regex_syntax::hir::literal::Seq) -> Option<
    Seq<LiteralModel>,
>;

/// The prefixes that `Extractor::extract` finds in an expression.
pub uninterp spec fn extracted(t: Tree, limits: LitExtractor) -> Option<Seq<LiteralModel>>;

/// The root of an expression, with what lies below it.
pub enum RegexKind<'a> {
    Empty,
    Look,
    Literal(&'a [u8]),
    Class(&'a regex_syntax::hir::Class),
    Repetition {
        min: u32,
        max: Option<u32>,
        greedy: bool,
        sub: &'a regex_syntax::hir::Hir,
    },
    Capture(&'a regex_syntax::hir::Hir),
    Concat(&'a Vec<regex_syntax::hir::Hir>),
    Alternation(&'a Vec<regex_syntax::hir::Hir>),
}

/// What each of several expressions of `regex_syntax` holds.
pub open spec fn hir_trees(hirs: Seq<regex_syntax::hir::Hir>) -> Seq<Tree> {
    Seq::new(hirs.len(), |i: int| hir_tree(hirs[i]))
}

/// The tree with the given root.
pub open spec fn kind_tree(kind: RegexKind<'_>) -> Tree {
    match kind {
        RegexKind::Empty => Tree::Empty,
        RegexKind::Look => Tree::Look,
        RegexKind::Literal(bytes) => Tree::Literal(bytes@),
        RegexKind::Class(class) => Tree::Class(class_ranges(*class)),
        RegexKind::Repetition { min, max, greedy, sub } => Tree::Repetition {
            min,
            max,
            greedy,
            sub: Box::new(hir_tree(*sub)),
        },
        RegexKind::Capture(sub) => Tree::Capture(Box::new(hir_tree(*sub))),
        RegexKind::Concat(es) => Tree::Concat(hir_trees(es@)),
        RegexKind::Alternation(es) => Tree::Alternation(hir_trees(es@)),
    }
}

/// Calls `regex_syntax::hir::Hir::kind`: an expression is its root and what lies
/// below it. Which look-around a `Look` is, and the name and number of a group,
/// are left out.
#[verifier::external_body]
pub(crate) fn hir_kind(hir: &regex_syntax::hir::Hir) -> (r: RegexKind<'_>)
    ensures
        hir_tree(*hir) == kind_tree(r),
{
    match hir.kind() {
        regex_syntax::hir::HirKind::Empty => RegexKind::Empty,
        regex_syntax::hir::HirKind::Look(_) => RegexKind::Look,
        regex_syntax::hir::HirKind::Literal(l) => RegexKind::Literal(&l.0),
        regex_syntax::hir::HirKind::Class(c) => RegexKind::Class(c),
        regex_syntax::hir::HirKind::Repetition(r) => {
            RegexKind::Repetition { min: r.min, max: r.max, greedy: r.greedy, sub: &r.sub }
        },
        regex_syntax::hir::HirKind::Capture(c) => RegexKind::Capture(&c.sub),
        regex_syntax::hir::HirKind::Concat(es) => RegexKind::Concat(es),
        regex_syntax::hir::HirKind::Alternation(es) => RegexKind::Alternation(es),
    }
}

/// Calls `regex_syntax::hir::ClassBytes::ranges` or
/// `regex_syntax::hir::ClassUnicode::ranges`: the ranges of a class of bytes
/// ascend, and none of them overlaps or touches another. The same holds of a class
/// of ASCII characters. It is not stated of other classes of characters: next to
/// the surrogates, two ranges of a negated class may touch.
#[verifier::external_body]
pub(crate) fn hir_class(class: &regex_syntax::hir::Class) -> (r: CharClass)
    ensures
        r@ == class_ranges(*class),
        r matches CharClass::Bytes(c) ==> canonical_bytes(c@),
        r matches CharClass::Unicode(c) ==> is_ascii_class(c@) ==> canonical_chars(c@),
{
    match class {
        regex_syntax::hir::Class::Unicode(c) => CharClass::Unicode(
            ClassUnicode { ranges: c.ranges().iter().map(|r| (r.start(), r.end())).collect() },
        ),
        regex_syntax::hir::Class::Bytes(c) => CharClass::Bytes(
            ClassBytes { ranges: c.ranges().iter().map(|r| (r.start(), r.end())).collect() },
        ),
    }
}

/// Calls `regex_syntax::hir::literal::Extractor::extract` with the given limits.
/// Which prefixes it finds depends on the expression and the limits alone. If
/// there are finitely many, none of them is longer than the limit; every match of
/// the expression starts with one of them; and one that is exact is itself a
/// match. (The last two are stated for the expressions that the compiler has code
/// for, among which there are no look-arounds.)
#[verifier::external_body]
pub(crate) fn extract(hir: &regex_syntax::hir::Hir, limits: LitExtractor) -> (r:
    regex_syntax::hir::literal::Seq)
    requires
        0 < limits.limit_class <= limits.limit_total,
    ensures
        literal_seq(r) == extracted(hir_tree(*hir), limits),
        literal_seq(r) matches Some(l) ==> forall|i: int|
            0 <= i < l.len() ==> (#[trigger] l[i]).bytes.len() <= limits.limit_literal_len,
        literal_seq(r) matches Some(l) ==> supported(hir_tree(*hir)) ==> all_start_with(
            hir_tree(*hir),
            literal_bytes(l),
        ),
        literal_seq(r) matches Some(l) ==> supported(hir_tree(*hir)) ==> forall|i: int|
            0 <= i < l.len() && (#[trigger] l[i]).exact ==> is_match(hir_tree(*hir), l[i].bytes),
{
    let mut extractor = regex_syntax::hir::literal::Extractor::new();
    extractor.limit_class(limits.limit_class);
    extractor.limit_total(limits.limit_total);
    extractor.limit_literal_len(limits.limit_literal_len);
    extractor.extract(hir)
}

/// Calls `regex_syntax::hir::literal::Seq::len`: the number of literals, `None`
/// if there are infinitely many.
#[verifier::external_body]
pub(crate) fn literal_count(seq: &regex_syntax::hir::literal::Seq) -> (r: Option<usize>)
    ensures
        r is Some <==> literal_seq(*seq) is Some,
        r matches Some(n) ==> n == (literal_seq(*seq)->0).len(),
{
    seq.len()
}

/// Calls `regex_syntax::hir::literal::Seq::max_literal_len`: the length of the
/// longest literal, `None` if there is no literal or infinitely many.
#[verifier::external_body]
pub(crate) fn max_literal_len(seq: &regex_syntax::hir::literal::Seq) -> (r: Option<usize>)
    ensures
        r is Some <==> (literal_seq(*seq) matches Some(l) && l.len() > 0),
        r matches Some(n) ==> n == longest_len(literal_seq(*seq)->0),
{
    seq.max_literal_len()
}

/// Calls `regex_syntax::hir::literal::Seq::longest_common_prefix`: the longest
/// prefix that the literals have in common, `None` if there is no literal or
/// infinitely many.
#[verifier::external_body]
pub(crate) fn longest_common_prefix(seq: &regex_syntax::hir::literal::Seq) -> (r: Option<
    Vec<u8>,
>)
    ensures
        r is Some <==> (literal_seq(*seq) matches Some(l) && l.len() > 0),
        r matches Some(p) ==> p@ == common_prefix(literal_seq(*seq)->0),
{
    seq.longest_common_prefix().map(|p| p.to_vec())
}

/// Calls `regex_syntax::hir::literal::Seq::literals`, with
/// `regex_syntax::hir::literal::Literal::as_bytes` and
/// `regex_syntax::hir::literal::Literal::is_exact` on each: the literals in their
/// order, `None` if there are infinitely many.
#[verifier::external_body]
pub(crate) fn literals(seq: &regex_syntax::hir::literal::Seq) -> (r: Option<Vec<Literal>>)
    ensures
        r is Some <==> literal_seq(*seq) is Some,
        r matches Some(l) ==> literal_models(l@) == literal_seq(*seq)->0,
{
    let literals = seq.literals()?.iter();
    let literals = literals.map(|l| (l.as_bytes().to_vec(), l.is_exact()));
    Some(literals.map(|l| Literal { bytes: l.0, exact: l.1 }).collect())
}

/// Calls `regex_syntax::hir::ClassUnicode::to_byte_class`: a class that holds
/// ASCII characters only has a class of bytes with the same ranges, any other
/// class has none.
#[verifier::external_body]
pub(crate) fn to_byte_class(class: &ClassUnicode) -> (r: Option<ClassBytes>)
    requires
        canonical_chars(class@),
    ensures
        r is Some <==> is_ascii_class(class@),
        r matches Some(c) ==> c@ == ascii_ranges(class@),
{
    let ranges = class.ranges.iter();
    let ranges = ranges.map(|r| regex_syntax::hir::ClassUnicodeRange::new(r.0, r.1));
    let bytes = regex_syntax::hir::ClassUnicode::new(ranges).to_byte_class()?;
    Some(ClassBytes { ranges: bytes.ranges().iter().map(|r| (r.start(), r.end())).collect() })
}

} // verus!
