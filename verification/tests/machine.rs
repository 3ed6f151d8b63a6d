use regex_syntax::hir::Hir;
use regex_syntax::ParserBuilder;
use yara_x_re::compiler::{Compiler, RegexpAtom};

fn parse(pattern: &str) -> Hir {
    ParserBuilder::new()
        .utf8(false)
        .unicode(false)
        .dot_matches_new_line(true)
        .build()
        .parse(pattern)
        .unwrap()
}

/// Runs the code from `pc`: tells whether it can end with the input all read.
fn accepts(code: &[u8], pc: usize, input: &[u8], fuel: usize) -> bool {
    if pc == code.len() {
        return input.is_empty();
    }
    if fuel == 0 {
        return false;
    }
    let offset = |at: usize| i16::from_le_bytes([code[at], code[at + 1]]) as isize;
    let go = |o: isize| accepts(code, (pc as isize + o) as usize, input, fuel - 1);
    let read = |ok: bool, len: usize| {
        ok && !input.is_empty() && accepts(code, pc + len, &input[1..], fuel - 1)
    };
    let first = input.first().copied().unwrap_or(0);
    if code[pc] != 0xAA {
        return read(first == code[pc], 1);
    }
    match code[pc + 1] {
        0xAA => read(first == 0xAA, 2),
        0x00 => read(true, 2),
        0x01 | 0x02 => go(4) || go(offset(pc + 2)),
        0x03 => (0..code[pc + 2] as usize).any(|i| go(offset(pc + 3 + 2 * i))),
        0x04 => go(offset(pc + 2)),
        0x05 => read(first & code[pc + 3] == code[pc + 2], 4),
        0x06 => read(code[pc + 2 + first as usize / 8] >> (first % 8) & 1 == 1, 34),
        0x07 => {
            let n = code[pc + 2] as usize;
            let hit = (0..n).any(|i| {
                code[pc + 3 + 2 * i] <= first && first <= code[pc + 4 + 2 * i]
            });
            read(hit, 3 + 2 * n)
        }
        op => panic!("{}", op),
    }
}

fn reversed(input: &[u8]) -> Vec<u8> {
    input.iter().rev().copied().collect()
}

const FUEL: usize = 60;

/// Both kinds of code accept the input.
fn both_accept(pattern: &str, input: &[u8]) -> bool {
    let (fwd, bck, _) = Compiler::new().compile(&parse(pattern));
    let f = accepts(fwd.as_slice(), 0, input, FUEL);
    let b = accepts(bck.as_slice(), 0, &reversed(input), FUEL);
    assert_eq!(f, b, "{} {:?}", pattern, input);
    f
}

/// An atom is found in the input, and the code accepts what is around it.
fn found(fwd: &[u8], bck: &[u8], atoms: &Vec<RegexpAtom>, input: &[u8]) -> bool {
    atoms.iter().any(|a| {
        (0..=input.len()).any(|p| {
            input[p..].starts_with(&a.atom.bytes)
                && accepts(fwd, a.code_loc.fwd as usize, &input[p..], FUEL)
                && accepts(bck, a.code_loc.bck as usize, &reversed(&input[..p]), FUEL)
        })
    })
}

const PATTERNS: [&str; 12] = [
    "abc",
    "a.c",
    "a*b",
    "(ab)+c",
    "ab+?c",
    "a(b|c.)*a",
    "(a|b.)c",
    "[ab]+c",
    "(a(b)+c)+",
    "b[^a]c*",
    "(ab|c+)b",
    r"a[\x60-\x6f]",
];

/// All inputs of up to five of the bytes `abc`.
fn inputs() -> Vec<Vec<u8>> {
    let mut all: Vec<Vec<u8>> = vec![vec![]];
    let mut last = all.clone();
    for _ in 0..5 {
        let mut next = Vec::new();
        for w in &last {
            for b in b"abc" {
                let mut longer = w.clone();
                longer.push(*b);
                next.push(longer);
            }
        }
        all.extend(next.clone());
        last = next;
    }
    all
}

#[test]
fn code_accepts_matches_only() {
    assert!(both_accept("a*b", b"aaab"));
    assert!(both_accept("a*b", b"b"));
    assert!(!both_accept("a*b", b"aaa"));
    assert!(both_accept("(ab|c.)+", b"abcxab"));
    assert!(!both_accept("(ab|c.)+", b"abcxa"));
    assert!(!both_accept("(ab|c.)+", b""));
    assert!(both_accept(r"[\x10-\x1f]\xAA", b"\x15\xAA"));
    assert!(!both_accept(r"[\x10-\x1f]\xAA", b"\x25\xAA"));
    assert!(both_accept(r"\w+", b"aZ_09"));
    assert!(!both_accept(r"\w+", b"a-b"));
    assert!(both_accept(".", b"\xAA"));
}

#[test]
fn code_of_class_accepts_its_bytes_only() {
    let bitmap = r"[\x00\x02\x04\x06\x08\x0a\x0c\x0e\x10\x12\x14\x16\x18\x1a\x1c\x1f\xff]";
    let members = [0, 2, 4, 6, 8, 10, 12, 14, 16, 18, 20, 22, 24, 26, 28, 31, 255];
    for b in 0..=255u8 {
        assert_eq!(both_accept(bitmap, &[b]), members.contains(&b));
        assert_eq!(both_accept("[a-cx-z]", &[b]), b"abcxyz".contains(&b));
        assert_eq!(both_accept(r"[\x20\x24]", &[b]), b == 0x20 || b == 0x24);
    }
}

#[test]
fn forward_and_backward_code_agree() {
    for pattern in PATTERNS {
        for w in inputs() {
            both_accept(pattern, &w);
        }
    }
}

#[test]
fn forward_and_backward_code_have_the_same_length() {
    for pattern in PATTERNS {
        let (fwd, bck, _) = Compiler::new().compile(&parse(pattern));
        assert_eq!(fwd.as_slice().len(), bck.as_slice().len());
        assert_eq!(fwd.location(), fwd.as_slice().len() as u64);
    }
}

#[test]
fn search_for_atoms_finds_the_matches() {
    for pattern in PATTERNS {
        let (fwd, bck, atoms) = Compiler::new().compile(&parse(pattern));
        let (f, b) = (fwd.as_slice(), bck.as_slice());
        for w in inputs() {
            let is_match = accepts(f, 0, &w, FUEL);
            assert_eq!(found(f, b, &atoms, &w), is_match, "{} {:?}", pattern, w);
        }
    }
}

#[test]
fn every_match_holds_an_atom() {
    let patterns = ["abc|b*", "(ab|c*)b", "a(b|c*)(ac)+", "(a|b)(c*|ab)", "(a|.)c*"];
    for pattern in PATTERNS.iter().chain(patterns.iter()) {
        let (fwd, bck, atoms) = Compiler::new().compile(&parse(pattern));
        for a in &atoms {
            assert!(a.code_loc.fwd <= fwd.location());
            assert!(a.code_loc.bck <= bck.location());
            assert_eq!(a.code_loc.bck_seq_id, 0);
        }
        for w in inputs() {
            if !atoms.is_empty() && accepts(fwd.as_slice(), 0, &w, FUEL) {
                let held = |a: &RegexpAtom| {
                    (0..=w.len()).any(|p| w[p..].starts_with(&a.atom.bytes))
                };
                assert!(atoms.iter().any(held), "{} {:?}", pattern, w);
            }
        }
    }
}

#[test]
fn class_of_all_characters_is_read_as_a_byte() {
    let unicode = |p: &str| ParserBuilder::new().utf8(false).build().parse(p).unwrap();
    let (uf, ub, ua) = Compiler::new().compile(&unicode("(?s)ab(.c)+"));
    let (bf, bb, ba) = Compiler::new().compile(&parse("ab(.c)+"));
    assert_eq!((uf.as_slice(), ub.as_slice()), (bf.as_slice(), bb.as_slice()));
    assert_eq!(ua[0].code_loc, ba[0].code_loc);
    for (input, is_match) in [(&b"ab\xffc"[..], true), ("ab\u{e9}c".as_bytes(), false)] {
        assert_eq!(accepts(uf.as_slice(), 0, input, FUEL), is_match);
        assert_eq!(accepts(ub.as_slice(), 0, &reversed(input), FUEL), is_match);
        assert_eq!(found(uf.as_slice(), ub.as_slice(), &ua, input), is_match);
    }
}

#[test]
fn every_match_holds_an_atom_with_unicode_characters() {
    let hir = ParserBuilder::new().utf8(false).build().parse("(?s)ab.cd").unwrap();
    let (_, _, atoms) = Compiler::new().compile(&hir);
    let s = "ab\u{e9}cd".as_bytes();
    assert!(!atoms.is_empty());
    assert!(atoms.iter().any(|a| (0..s.len()).any(|p| s[p..].starts_with(&a.atom.bytes))));
}

#[test]
fn exact_atoms_are_matches() {
    for pattern in ["abc", "a[bc]", "[ab][bc]", "abcdefg", "(ab)+", "ab|c."] {
        let (fwd, _, atoms) = Compiler::new().compile(&parse(pattern));
        for a in &atoms {
            assert!(a.atom.bytes.len() <= 4);
            if a.atom.exact {
                assert!(accepts(fwd.as_slice(), 0, &a.atom.bytes, FUEL));
            }
        }
    }
}
