//! Compiles regular expressions into code for a Pike virtual machine.
//!
//! [`compiler::Compiler::compile`] takes an expression of `regex_syntax` and gives
//! the code that matches it from left to right, the code that matches it from right
//! to left, and the atoms that it is searched by.
//!
//! What the code is, `code` says; what the machine makes of it, `machine`; what an
//! expression matches, `language`. That these agree is proved in `correct`, for
//! expressions without the class of all Unicode characters. The code for that class
//! reads a single byte: what the code of any expression accepts is stated in `bytes`.
//!
//! What the code of each kind of expression looks like, and which expressions have
//! code, is told in `shape`. Which atoms are better than others is told in `quality`,
//! and how those of an expression come from those of its parts in `offers`: they are
//! the best there are.
//!
//! Which atoms are chosen, `select` says. If there are any, one of them occurs in
//! every match: that is proved in `present`. For expressions without the class of
//! all Unicode characters it is proved in `cover` and `cut` that a search for the
//! atoms, if there are any, finds the matches and nothing else.

pub mod atoms;
pub mod bytes;
pub mod choice;
pub mod class;
pub mod code;
pub mod compiler;
pub mod correct;
pub mod cover;
pub mod cut;
pub mod expr;
pub mod extract;
pub mod instr;
pub mod language;
pub mod layout;
pub mod machine;
pub mod offers;
pub mod present;
pub mod quality;
pub mod regex;
pub mod select;
pub mod shape;
pub mod size;
pub mod state;
pub mod walk;
