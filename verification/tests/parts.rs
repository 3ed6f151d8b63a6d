use yara_x_re::atoms::{best_atom_from_slice, bytes_quality, Atom, DESIRED_ATOM_SIZE};
use yara_x_re::class::{class_to_hex_byte, CharClass, ClassBytes, ClassUnicode, HexByte};
use yara_x_re::compiler::{Compiler, Location};
use yara_x_re::expr::{any_byte, Expr, ExprKind, Repetition};
use yara_x_re::extract::atoms_from_literals;
use yara_x_re::instr::{literal_code_length, Instr, InstrSeq};
use yara_x_re::regex::Literal;
use yara_x_re::size::{code_size, Size};

fn bytes(ranges: &[(u8, u8)]) -> ClassBytes {
    ClassBytes { ranges: ranges.to_vec() }
}

fn expr(kind: ExprKind) -> Expr {
    Expr { kind, atoms: None }
}

fn literal(s: &[u8]) -> Expr {
    expr(ExprKind::Literal(s.to_vec()))
}

fn chars(ranges: &[(char, char)]) -> ExprKind {
    ExprKind::Class(CharClass::Unicode(ClassUnicode { ranges: ranges.to_vec() }))
}

fn repeat(min: u32, max: Option<u32>, sub: Expr) -> Expr {
    expr(ExprKind::Repetition(Repetition { min, max, greedy: true, sub: Box::new(sub) }))
}

fn inexact(s: &[u8]) -> Atom {
    Atom { bytes: s.to_vec(), exact: false, backtrack: 0 }
}

#[test]
fn distance_between_locations() {
    let a = Location { fwd: 100, bck_seq_id: 3, bck: 7 };
    let b = Location { fwd: 30, bck_seq_id: 1, bck: 50 };
    assert_eq!((a.sub(&b).fwd, a.sub(&b).bck), (70, -43));
    assert_eq!((b.sub(&a).fwd, b.sub(&a).bck), (-70, 43));
    let far = Location { fwd: 32797, bck_seq_id: 0, bck: 32818 };
    assert_eq!((far.sub(&b).fwd, b.sub(&far).bck), (32767, -32768));
}

#[test]
fn instructions_are_written() {
    let mut seq = InstrSeq::new(5);
    assert_eq!(seq.seq_id(), 5);
    assert_eq!(seq.emit_literal(b"a\xAA"), 0);
    assert_eq!(seq.emit_instr(Instr::ANY_BYTE), 3);
    assert_eq!(seq.emit_instr(Instr::JUMP), 5);
    assert_eq!(seq.emit_split_n(2), 9);
    assert_eq!(seq.emit_masked_byte(HexByte { value: 0x10, mask: 0xF0 }), 16);
    assert_eq!(seq.location(), 20);
    seq.patch_instr(5, -2);
    seq.patch_split_n(9, &vec![7, 300]);
    let expected = [
        b'a', 0xAA, 0xAA, 0xAA, 0x00, 0xAA, 0x04, 0xFE, 0xFF, 0xAA, 0x03, 2, 7, 0, 44, 1, 0xAA,
        0x05, 0x10, 0xF0,
    ];
    assert_eq!(seq.as_slice(), &expected);
}

#[test]
fn sequences_are_appended() {
    let mut a = InstrSeq::new(0);
    let mut b = InstrSeq::new(1);
    a.emit_literal(b"xy");
    b.emit_literal(b"z");
    a.append(&b);
    assert_eq!(a.as_slice(), b"xyz");
    assert_eq!(b.as_slice(), b"z");
    assert_eq!(a.seq_id(), 0);
}

#[test]
fn length_of_literal_code() {
    assert_eq!(literal_code_length(b""), 0);
    assert_eq!(literal_code_length(b"abc"), 3);
    assert_eq!(literal_code_length(b"\xAAb\xAA"), 5);
}

#[test]
fn classes_that_are_masked_bytes() {
    let masked = |ranges: &[(u8, u8)]| class_to_hex_byte(&bytes(ranges));
    assert_eq!(masked(&[(0x10, 0x1F)]), Some(HexByte { value: 0x10, mask: 0xF0 }));
    assert_eq!(masked(&[(0x41, 0x41)]), Some(HexByte { value: 0x41, mask: 0xFF }));
    assert_eq!(masked(&[(0, 255)]), Some(HexByte { value: 0, mask: 0 }));
    let low: Vec<(u8, u8)> = (0..16).map(|i| (16 * i + 5, 16 * i + 5)).collect();
    assert_eq!(masked(&low), Some(HexByte { value: 5, mask: 0x0F }));
    assert_eq!(masked(&[(0x10, 0x1E)]), None);
    assert_eq!(masked(&[(0x41, 0x43)]), None);
    assert_eq!(masked(&[(0x41, 0x42)]), None);
    assert_eq!(masked(&[]), None);
}

#[test]
fn class_holds_its_bytes() {
    let c = bytes(&[(3, 5), (9, 9)]);
    let held: Vec<u8> = (0..=255).filter(|b| c.contains(*b)).collect();
    assert_eq!(held, vec![3, 4, 5, 9]);
}

#[test]
fn classes_of_everything() {
    let of_bytes = |ranges: &[(u8, u8)]| ExprKind::Class(CharClass::Bytes(bytes(ranges)));
    assert!(any_byte(&of_bytes(&[(0, 255)])));
    assert!(!any_byte(&of_bytes(&[(0, 254)])));
    assert!(!any_byte(&of_bytes(&[])));
    assert!(any_byte(&chars(&[('\0', '\u{10FFFF}')])));
    assert!(!any_byte(&chars(&[('\0', '\u{7F}')])));
    assert!(!any_byte(&ExprKind::Literal(vec![0])));
}

#[test]
fn quality_of_atoms() {
    assert_eq!(bytes_quality(b""), 0);
    assert_eq!(bytes_quality(b"1234"), 88);
    assert_eq!(bytes_quality(b"abcd"), 80);
    assert_eq!(bytes_quality(b"aaaa"), 74);
    assert_eq!(bytes_quality(&[0, 0, 0, 0]), 8);
    assert_eq!(bytes_quality(&[0, 1]), 36);
    assert_eq!(inexact(b"1234").quality(), 88);
}

#[test]
fn best_atom_is_the_first_of_the_best_windows() {
    let best = best_atom_from_slice(b"abcd1234efgh5678", DESIRED_ATOM_SIZE);
    assert_eq!(best, Atom { bytes: b"1234".to_vec(), exact: false, backtrack: 4 });
    let best = best_atom_from_slice(b"abc", DESIRED_ATOM_SIZE);
    assert_eq!(best, Atom { bytes: b"abc".to_vec(), exact: true, backtrack: 0 });
    let best = best_atom_from_slice(b"\0\0\0\0ab", DESIRED_ATOM_SIZE);
    assert_eq!(best, Atom { bytes: b"\0\0ab".to_vec(), exact: false, backtrack: 2 });
}

#[test]
fn atoms_made_inexact() {
    let a = Atom { bytes: b"ab".to_vec(), exact: true, backtrack: 3 };
    assert_eq!(a.duplicate(), a);
    assert_eq!(a.make_inexact(), Atom { bytes: b"ab".to_vec(), exact: false, backtrack: 3 });
    assert_eq!(Atom::inexact(b"xy".to_vec()), inexact(b"xy"));
}

fn pair(exact: bool) -> Option<Vec<Literal>> {
    Some(vec![
        Literal { bytes: b"ab".to_vec(), exact },
        Literal { bytes: b"ac".to_vec(), exact: false },
    ])
}

#[test]
fn literals_become_atoms() {
    let got = atoms_from_literals(Some(2), Some(2), Some(b"a".to_vec()), pair(true)).unwrap();
    assert_eq!(got[0], Atom { bytes: b"ab".to_vec(), exact: true, backtrack: 0 });
    assert_eq!(got[1], inexact(b"ac"));
    assert_eq!(atoms_from_literals(None, None, None, None), None);
    assert_eq!(atoms_from_literals(Some(0), None, None, Some(vec![])), Some(vec![]));
}

#[test]
fn literals_that_differ_in_last_byte_become_one_atom() {
    let prefix = || Some(b"a".to_vec());
    let got = atoms_from_literals(Some(256), Some(2), prefix(), pair(true));
    assert_eq!(got, Some(vec![inexact(b"a")]));
    // Not so if one of the conditions fails.
    for got in [
        atoms_from_literals(Some(255), Some(2), prefix(), pair(true)),
        atoms_from_literals(Some(256), Some(3), prefix(), pair(true)),
        atoms_from_literals(Some(256), Some(1), Some(vec![]), pair(true)),
        atoms_from_literals(Some(256), Some(2), None, pair(true)),
        atoms_from_literals(Some(256), None, prefix(), pair(true)),
    ] {
        assert_eq!(got.unwrap().len(), 2);
    }
}

#[test]
fn size_of_code() {
    let size = |e: &Expr| code_size(e);
    assert_eq!(size(&literal(b"a\xAA")), Some(Size { code: 3, height: 1 }));
    assert_eq!(size(&repeat(0, None, literal(b"ab"))), Some(Size { code: 10, height: 2 }));
    assert_eq!(size(&repeat(1, None, literal(b"ab"))), Some(Size { code: 6, height: 2 }));
    assert_eq!(size(&repeat(2, None, literal(b"ab"))), None);
    assert_eq!(size(&repeat(0, Some(1), literal(b"ab"))), None);
    assert_eq!(size(&expr(ExprKind::Empty)), None);
    assert_eq!(size(&expr(ExprKind::Look)), None);
    let group = expr(ExprKind::Capture(Box::new(literal(b"x"))));
    assert_eq!(size(&group), Some(Size { code: 1, height: 2 }));
    let concat = expr(ExprKind::Concat(vec![literal(b"ab"), group]));
    assert_eq!(size(&concat), Some(Size { code: 3, height: 3 }));
    assert_eq!(size(&expr(ExprKind::Concat(vec![]))), None);
    assert_eq!(size(&expr(ExprKind::Alternation(vec![]))), None);
    let alt = expr(ExprKind::Alternation(vec![literal(b"ab"), literal(b"c"), concat]));
    assert_eq!(size(&alt), Some(Size { code: 9 + 2 + 4 + 1 + 4 + 3, height: 4 }));
}

#[test]
fn size_of_class_code() {
    let size = |kind: ExprKind| code_size(&expr(kind)).map(|s| s.code);
    let of_bytes = |ranges: &[(u8, u8)]| ExprKind::Class(CharClass::Bytes(bytes(ranges)));
    assert_eq!(size(of_bytes(&[(0, 255)])), Some(2));
    assert_eq!(size(of_bytes(&[(0, 15)])), Some(4));
    assert_eq!(size(of_bytes(&[(0, 4), (9, 9)])), Some(7));
    assert_eq!(size(chars(&[('a', 'c')])), Some(5));
    assert_eq!(size(chars(&[('a', '\u{80}')])), None);
    assert_eq!(size(chars(&[('\0', '\u{10FFFF}')])), Some(2));
    // Ranges that overlap, or are the wrong way round.
    assert_eq!(size(chars(&[('a', 'c'), ('b', 'd')])), None);
    assert_eq!(size(chars(&[('c', 'a')])), None);
    let many: Vec<(u8, u8)> = (0..16).map(|i| (4 * i, 4 * i)).chain([(0x41, 0x41)]).collect();
    assert_eq!(size(of_bytes(&many)), Some(34));
}

#[test]
fn size_is_that_of_the_code() {
    let exprs = vec![
        literal(b"abc\xAA"),
        repeat(0, None, literal(b"ab")),
        expr(ExprKind::Alternation(vec![literal(b"ab"), literal(b"c"), literal(b"")])),
        expr(ExprKind::Concat(vec![literal(b"ab"), expr(chars(&[('a', 'f')]))])),
    ];
    for e in exprs {
        let size = code_size(&e).unwrap();
        let (fwd, bck, _) = Compiler::new().compile_expr(&e);
        assert_eq!(size.code, fwd.location());
        assert_eq!(size.code, bck.location());
    }
}

#[test]
fn given_atoms_are_used() {
    let mut any = expr(ExprKind::Class(CharClass::Bytes(bytes(&[(0x61, 0x62)]))));
    any.atoms = Some(vec![
        Atom { bytes: b"a".to_vec(), exact: true, backtrack: 0 },
        Atom { bytes: b"b".to_vec(), exact: true, backtrack: 0 },
    ]);
    let (fwd, _, atoms) = Compiler::new().compile_expr(&any);
    assert_eq!(fwd.as_slice(), &[0xAA, 0x07, 1, 0x61, 0x62]);
    assert_eq!(atoms.len(), 2);
    assert!(atoms[0].atom.exact && atoms[1].atom.exact);
    assert_eq!(atoms[1].code_loc, Location { fwd: 0, bck_seq_id: 0, bck: 5 });
}
