//! Regular expressions as the compiler sees them.

use vstd::prelude::*;

use crate::atoms::{atom_models, Atom, AtomModel};
use crate::class::{is_any, CharClass, ClassModel};

verus! {

/// A regular expression, with the atoms that were extracted from each of its
/// sub-expressions.
#[derive(Debug)]
pub struct Expr {
    pub kind: ExprKind,
    /// Atoms such that every match of the expression starts with one of them;
    /// `None` if no such list of atoms is known.
    pub atoms: Option<Vec<Atom>>,
}

#[derive(Debug)]
pub enum ExprKind {
    /// Matches the empty string.
    Empty,
    /// Matches the empty string where some condition holds.
    Look,
    /// Matches these bytes.
    Literal(Vec<u8>),
    /// Matches a character of the class.
    Class(CharClass),
    /// Matches several times in a row what another expression matches.
    Repetition(Repetition),
    /// Matches what another expression matches.
    Capture(Box<Expr>),
    /// Matches what the expressions match one after the other.
    Concat(Vec<Expr>),
    /// Matches what any of the expressions matches.
    Alternation(Vec<Expr>),
}

#[derive(Debug)]
pub struct Repetition {
    pub min: u32,
    /// `None` if there is no upper bound.
    pub max: Option<u32>,
    pub greedy: bool,
    pub sub: Box<Expr>,
}

/// What a regular expression is.
#[verifier::ext_equal]
pub ghost enum Tree {
    Empty,
    Look,
    Literal(Seq<u8>),
    Class(ClassModel),
    Repetition { min: u32, max: Option<u32>, greedy: bool, sub: Box<Tree> },
    Capture(Box<Tree>),
    Concat(Seq<Tree>),
    Alternation(Seq<Tree>),
}

/// The atoms that were extracted from an expression and from each of its
/// sub-expressions.
#[verifier::ext_equal]
pub ghost struct Notes {
    pub atoms: Option<Seq<AtomModel>>,
    pub subs: Seq<Notes>,
}

/// The models of a list of atoms that may be missing.
pub open spec fn optional_models(atoms: Option<Vec<Atom>>) -> Option<Seq<AtomModel>> {
    match atoms {
        Some(atoms) => Some(atom_models(atoms@)),
        None => None,
    }
}

impl Expr {
    /// The expression without its atoms.
    pub open spec fn tree(&self) -> Tree
        decreases self,
    {
        match self.kind {
            ExprKind::Empty => Tree::Empty,
            ExprKind::Look => Tree::Look,
            ExprKind::Literal(bytes) => Tree::Literal(bytes@),
            ExprKind::Class(class) => Tree::Class(class@),
            ExprKind::Repetition(rep) => Tree::Repetition {
                min: rep.min,
                max: rep.max,
                greedy: rep.greedy,
                sub: Box::new(rep.sub.tree()),
            },
            ExprKind::Capture(sub) => Tree::Capture(Box::new(sub.tree())),
            ExprKind::Concat(es) => Tree::Concat(
                Seq::new(
                    es@.len(),
                    |i: int|
                        if 0 <= i < es@.len() {
                            es[i].tree()
                        } else {
                            Tree::Empty
                        },
                ),
            ),
            ExprKind::Alternation(es) => Tree::Alternation(
                Seq::new(
                    es@.len(),
                    |i: int|
                        if 0 <= i < es@.len() {
                            es[i].tree()
                        } else {
                            Tree::Empty
                        },
                ),
            ),
        }
    }

    /// The atoms of the expression and of its sub-expressions.
    pub open spec fn notes(&self) -> Notes
        decreases self,
    {
        Notes {
            atoms: optional_models(self.atoms),
            subs: match self.kind {
                ExprKind::Repetition(rep) => seq![rep.sub.notes()],
                ExprKind::Capture(sub) => seq![sub.notes()],
                ExprKind::Concat(es) => Seq::new(
                    es@.len(),
                    |i: int|
                        if 0 <= i < es@.len() {
                            es[i].notes()
                        } else {
                            Notes { atoms: None, subs: seq![] }
                        },
                ),
                ExprKind::Alternation(es) => Seq::new(
                    es@.len(),
                    |i: int|
                        if 0 <= i < es@.len() {
                            es[i].notes()
                        } else {
                            Notes { atoms: None, subs: seq![] }
                        },
                ),
                _ => seq![],
            },
        }
    }
}

/// The trees of several expressions.
pub open spec fn trees(es: Seq<Expr>) -> Seq<Tree> {
    Seq::new(es.len(), |i: int| es[i].tree())
}

/// The notes of several expressions.
pub open spec fn all_notes(es: Seq<Expr>) -> Seq<Notes> {
    Seq::new(es.len(), |i: int| es[i].notes())
}

/// Tells whether the expression is a class that holds everything.
pub fn any_byte(kind: &ExprKind) -> (r: bool)
    ensures
        r == (kind matches ExprKind::Class(c) && is_any(c@)),
{
    match kind {
        ExprKind::Class(CharClass::Bytes(c)) => {
            c.ranges.len() > 0 && c.ranges[0].0 == 0 && c.ranges[0].1 == 255
        },
        ExprKind::Class(CharClass::Unicode(c)) => {
            c.ranges.len() > 0 && c.ranges[0].0 == '\0' && c.ranges[0].1 == '\u{10FFFF}'
        },
        _ => false,
    }
}

/// The model of a list of atoms holds each of them.
pub proof fn lemma_optional_models(atoms: Vec<Atom>)
    ensures
        optional_models(None) is None,
        optional_models(Some(atoms)) matches Some(models) && models.len() == atoms@.len()
            && forall|i: int|
            0 <= i < atoms@.len() ==> {
                &&& (#[trigger] models[i]).bytes == atoms@[i].bytes@
                &&& models[i].exact == atoms@[i].exact
                &&& models[i].backtrack == atoms@[i].backtrack
            },
{
}

/// The tree of an expression is of the same kind and has the same parts, and its notes
/// are its atoms and those of its parts.
pub proof fn lemma_tree_and_notes(expr: Expr)
    ensures
        expr.notes().atoms == optional_models(expr.atoms),
        match expr.kind {
            ExprKind::Empty => expr.tree() is Empty,
            ExprKind::Look => expr.tree() is Look,
            ExprKind::Literal(bytes) => expr.tree() == Tree::Literal(bytes@),
            ExprKind::Class(CharClass::Bytes(c)) => expr.tree() == Tree::Class(
                ClassModel::Bytes(c.ranges@),
            ),
            ExprKind::Class(CharClass::Unicode(c)) => expr.tree() == Tree::Class(
                ClassModel::Unicode(c.ranges@),
            ),
            ExprKind::Capture(sub) => {
                &&& expr.tree() == Tree::Capture(Box::new(sub.tree()))
                &&& expr.notes().subs == seq![sub.notes()]
            },
            ExprKind::Repetition(rep) => {
                &&& expr.tree() == Tree::Repetition {
                    min: rep.min,
                    max: rep.max,
                    greedy: rep.greedy,
                    sub: Box::new(rep.sub.tree()),
                }
                &&& expr.notes().subs == seq![rep.sub.notes()]
            },
            ExprKind::Concat(es) => {
                &&& expr.tree() == Tree::Concat(Seq::new(es@.len(), |i: int| es@[i].tree()))
                &&& expr.notes().subs == Seq::new(es@.len(), |i: int| es@[i].notes())
            },
            ExprKind::Alternation(es) => {
                &&& expr.tree() == Tree::Alternation(Seq::new(es@.len(), |i: int| es@[i].tree()))
                &&& expr.notes().subs == Seq::new(es@.len(), |i: int| es@[i].notes())
            },
        },
{
    match expr.kind {
        ExprKind::Concat(es) => {
            assert(expr.tree()->Concat_0 =~= Seq::new(es@.len(), |i: int| es@[i].tree()));
            assert(expr.notes().subs =~= Seq::new(es@.len(), |i: int| es@[i].notes()));
        },
        ExprKind::Alternation(es) => {
            assert(expr.tree()->Alternation_0 =~= Seq::new(es@.len(), |i: int| es@[i].tree()));
            assert(expr.notes().subs =~= Seq::new(es@.len(), |i: int| es@[i].notes()));
        },
        _ => {},
    }
}

} // verus!
