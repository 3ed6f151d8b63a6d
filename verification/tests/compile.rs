use regex_syntax::hir::Hir;
use regex_syntax::ParserBuilder;
use yara_x_re::compiler::{Compiler, RegexpAtom};

/// Parses a pattern in which classes are classes of bytes.
fn parse(pattern: &str) -> Hir {
    ParserBuilder::new()
        .utf8(false)
        .unicode(false)
        .dot_matches_new_line(true)
        .build()
        .parse(pattern)
        .unwrap()
}

/// Parses a pattern in which classes are classes of Unicode characters.
fn parse_unicode(pattern: &str) -> Hir {
    ParserBuilder::new().utf8(false).build().parse(pattern).unwrap()
}

fn codes(pattern: &str) -> (Vec<u8>, Vec<u8>) {
    let (fwd, bck, _) = Compiler::new().compile(&parse(pattern));
    assert_eq!(fwd.seq_id(), 0);
    assert_eq!(bck.seq_id(), 0);
    (fwd.as_slice().to_vec(), bck.as_slice().to_vec())
}

/// The bytes of each atom, whether it is exact, and where the forward and the
/// backward code are entered.
fn places(atoms: &Vec<RegexpAtom>) -> Vec<(Vec<u8>, bool, u64, u64)> {
    let mut r = Vec::new();
    for a in atoms {
        assert_eq!(a.code_loc.bck_seq_id, 0);
        assert_eq!(a.atom.backtrack, 0);
        r.push((a.atom.bytes.clone(), a.atom.exact, a.code_loc.fwd, a.code_loc.bck));
    }
    r
}

fn atoms(pattern: &str) -> Vec<(Vec<u8>, bool, u64, u64)> {
    places(&Compiler::new().compile(&parse(pattern)).2)
}

fn refused(pattern: &str) -> bool {
    Compiler::new().try_compile(&parse(pattern)).is_none()
}

#[test]
fn literal_is_its_own_code() {
    assert_eq!(codes("abcd"), (b"abcd".to_vec(), b"dcba".to_vec()));
    assert_eq!(atoms("abcd"), vec![(b"abcd".to_vec(), true, 0, 4)]);
}

#[test]
fn opcode_prefix_is_doubled_in_literals() {
    let (fwd, bck) = codes(r"a\xAAb");
    assert_eq!(fwd, vec![0x61, 0xAA, 0xAA, 0x62]);
    assert_eq!(bck, vec![0x62, 0xAA, 0xAA, 0x61]);
}

#[test]
fn atom_lies_within_long_literal() {
    // The digits are worth more than the letters before them.
    assert_eq!(codes("abcd1234").0, b"abcd1234".to_vec());
    assert_eq!(atoms("abcd1234"), vec![(b"1234".to_vec(), false, 4, 4)]);
    // The prefix before the atom takes two bytes of code.
    assert_eq!(atoms(r"\xAAabcd1234"), vec![(b"1234".to_vec(), false, 6, 4)]);
}

#[test]
fn dot_is_any_byte() {
    assert_eq!(codes("."), (vec![0xAA, 0x00], vec![0xAA, 0x00]));
}

#[test]
fn nibble_class_is_masked_byte() {
    assert_eq!(codes(r"[\x10-\x1F]").0, vec![0xAA, 0x05, 0x10, 0xF0]);
    assert_eq!(codes(r"[\x01\x03]").1, vec![0xAA, 0x05, 0x01, 0xFD]);
}

#[test]
fn small_class_is_list_of_ranges() {
    let expected = vec![0xAA, 0x07, 2, b'a', b'c', b'x', b'z'];
    assert_eq!(codes("[a-cx-z]"), (expected.clone(), expected));
}

#[test]
fn empty_class_has_no_ranges() {
    assert_eq!(codes("[a&&b]").0, vec![0xAA, 0x07, 0]);
    assert_eq!(atoms("[a&&b]"), vec![]);
}

#[test]
fn class_with_many_ranges_is_bitmap() {
    // Every fourth byte from 0 up to 0x3c, and 0x41: sixteen ranges and one.
    let mut pattern = String::from("[");
    for i in 0..16 {
        pattern.push_str(&format!("\\x{:02x}", 4 * i));
    }
    pattern.push_str("\\x41]");
    let mut expected = vec![0xAA, 0x06];
    expected.extend(vec![0x11; 8]);
    expected.push(0x02);
    expected.extend(vec![0x00; 23]);
    assert_eq!(codes(&pattern).0, expected);
}

#[test]
fn unicode_class_of_ascii_characters_is_class_of_bytes() {
    let (fwd, _, _) = Compiler::new().compile(&parse_unicode("[a-cx]"));
    assert_eq!(fwd.as_slice(), &[0xAA, 0x07, 2, b'a', b'c', b'x', b'x']);
}

#[test]
fn unicode_class_of_everything_is_any_byte() {
    let (fwd, bck, _) = Compiler::new().compile(&parse_unicode("(?s)."));
    assert_eq!(fwd.as_slice(), &[0xAA, 0x00]);
    assert_eq!(bck.as_slice(), &[0xAA, 0x00]);
}

#[test]
fn star_splits_and_jumps_back() {
    let expected = vec![0xAA, 0x01, 9, 0, b'a', 0xAA, 0x04, 0xFB, 0xFF];
    assert_eq!(codes("a*"), (expected.clone(), expected));
    assert_eq!(codes("a*?").0, vec![0xAA, 0x02, 9, 0, b'a', 0xAA, 0x04, 0xFB, 0xFF]);
}

#[test]
fn plus_splits_back() {
    let expected = vec![b'a', 0xAA, 0x02, 0xFF, 0xFF];
    assert_eq!(codes("a+"), (expected.clone(), expected));
    assert_eq!(codes("a+?").0, vec![b'a', 0xAA, 0x01, 0xFF, 0xFF]);
}

#[test]
fn alternation_splits_and_jumps_to_end() {
    let (fwd, bck) = codes("ab.*|cd.*|e.*");
    // The three blocks have 12, 12 and 11 bytes, and start at 9, 25 and 41.
    assert_eq!(&fwd[..9], &[0xAA, 0x03, 3, 9, 0, 25, 0, 41, 0]);
    assert_eq!(&fwd[9..11], b"ab");
    assert_eq!(&fwd[21..25], &[0xAA, 0x04, 31, 0]);
    assert_eq!(&fwd[37..41], &[0xAA, 0x04, 15, 0]);
    assert_eq!(&bck[..9], &fwd[..9]);
    assert_eq!(&bck[19..25], &[b'b', b'a', 0xAA, 0x04, 31, 0]);
    assert_eq!((fwd.len(), bck.len()), (52, 52));
}

#[test]
fn alternation_layout() {
    let (fwd, bck) = codes("(?:ab|c.)x");
    let expected = vec![
        0xAA, 0x03, 2, 7, 0, 13, 0, b'a', b'b', 0xAA, 0x04, 7, 0, b'c', 0xAA, 0x00, b'x',
    ];
    assert_eq!(fwd, expected);
    let expected = vec![
        b'x', 0xAA, 0x03, 2, 7, 0, 13, 0, b'b', b'a', 0xAA, 0x04, 7, 0, 0xAA, 0x00, b'c',
    ];
    assert_eq!(bck, expected);
}

#[test]
fn concatenation_is_reversed_backwards() {
    assert_eq!(
        codes("ab.cd"),
        (vec![b'a', b'b', 0xAA, 0x00, b'c', b'd'], vec![b'd', b'c', 0xAA, 0x00, b'b', b'a'])
    );
}

#[test]
fn nested_concatenation_is_reversed_backwards() {
    assert_eq!(codes("a(b.c)d").1, vec![b'd', b'c', 0xAA, 0x00, b'b', b'a']);
}

#[test]
fn atom_of_later_part_is_moved() {
    // `1234` is the better atom. Its code comes first in the backward code.
    assert_eq!(atoms("ab.1234"), vec![(b"1234".to_vec(), false, 4, 4)]);
    // Here it comes last.
    assert_eq!(atoms("1234.ab"), vec![(b"1234".to_vec(), false, 0, 8)]);
    // In a group within a concatenation it is moved twice.
    assert_eq!(atoms("ab.(x.1234.y).cd"), vec![(b"1234".to_vec(), false, 7, 11)]);
}

#[test]
fn atoms_of_alternatives_are_joined() {
    assert_eq!(
        atoms("(?:abcd.|1234.)"),
        vec![(b"abcd".to_vec(), false, 7, 13), (b"1234".to_vec(), false, 17, 23)]
    );
}

#[test]
fn alternation_with_atomless_alternative_has_no_atoms() {
    // `ef` is a match without `abcd`.
    assert_eq!(atoms("abcd|(?:ef)*"), vec![]);
    assert_eq!(atoms("abcd|.*"), vec![]);
    assert_eq!(atoms(".*|abcd|1234"), vec![]);
    assert_eq!(atoms("abcd|.*|1234"), vec![]);
    // The same within another alternation, and beside a literal.
    assert_eq!(atoms("xyz.|(?:abcd|.*)"), vec![]);
    assert_eq!(atoms("(?:abcd|.*)xy"), vec![(b"xy".to_vec(), false, 25, 2)]);
}

#[test]
fn atoms_under_star_are_not_taken() {
    assert_eq!(atoms("(abcd)*"), vec![]);
    assert_eq!(atoms(".*(abcd|1234)*.*"), vec![]);
    assert_eq!(atoms("(abcd)*xy"), vec![(b"xy".to_vec(), false, 12, 2)]);
}

#[test]
fn atom_under_plus_is_taken() {
    // The backward code is entered behind the code of `abcd`.
    assert_eq!(atoms("(abcd)+"), vec![(b"abcd".to_vec(), false, 0, 4)]);
}

#[test]
fn extracted_literals_are_exact_at_the_root_only() {
    assert_eq!(
        atoms("a[bc]"),
        vec![(b"ab".to_vec(), true, 0, 5), (b"ac".to_vec(), true, 0, 5)]
    );
    assert_eq!(
        atoms("(a[bc])"),
        vec![(b"ab".to_vec(), false, 0, 5), (b"ac".to_vec(), false, 0, 5)]
    );
}

#[test]
fn better_atom_is_kept() {
    // The literal `bcdef` has an atom that is as good as those extracted from the
    // whole expression, and was found before them.
    assert_eq!(atoms("[ab]bcdef"), vec![(b"bcde".to_vec(), false, 5, 5)]);
}

#[test]
fn extracted_literals_are_cut_short() {
    let bytes: Vec<(Vec<u8>, bool)> =
        atoms("[ab]1c[de]2").into_iter().map(|a| (a.0, a.1)).collect();
    assert_eq!(
        bytes,
        vec![
            (b"a1cd".to_vec(), false),
            (b"a1ce".to_vec(), false),
            (b"b1cd".to_vec(), false),
            (b"b1ce".to_vec(), false),
        ]
    );
}

#[test]
fn atoms_that_differ_in_last_byte_become_one() {
    // There are 256 literals of two bytes; `a` stands for all of them.
    assert_eq!(atoms("(a)."), vec![(b"a".to_vec(), false, 0, 3)]);
}

#[test]
fn other_numbers_of_atoms_stay() {
    let got = atoms(r"a[\x00-\xfe]");
    assert_eq!(got.len(), 255);
    assert_eq!(got[254].0, vec![b'a', 0xfe]);
    assert!(got[254].1);
}

#[test]
fn expressions_without_atoms() {
    assert_eq!(atoms(".*"), vec![]);
    // All the characters are too many.
    assert_eq!(places(&Compiler::new().compile(&parse_unicode("(?s).+")).2), vec![]);
}

#[test]
fn empty_expressions_are_refused() {
    assert!(refused(""));
    assert!(refused("(a|)"));
    assert!(refused("a()b"));
}

#[test]
fn look_arounds_are_refused() {
    assert!(refused("^a"));
    assert!(refused(r"a\b"));
}

#[test]
fn bounded_repetitions_are_refused() {
    assert!(refused("(a.)?"));
    assert!(refused("(a.){2,}"));
    assert!(refused("(a.){1,3}"));
    assert!(!refused("(a.){0,}"));
    assert!(!refused("(a.){1,}"));
}

#[test]
fn unicode_classes_are_refused() {
    let compile = |p: &str| Compiler::new().try_compile(&parse_unicode(p));
    assert!(compile("[a-z\u{e9}]").is_none());
    assert!(compile(r"\w").is_none());
    assert!(compile(r"[^\x{D7FF}\x{E000}]").is_none());
    assert!(compile("[a-z]").is_some());
}

#[test]
fn alternations_of_many_are_refused() {
    // Different first bytes keep the alternatives apart.
    let pattern = |n: usize| -> String {
        (0..n).map(|i| format!("\\x{:02x}{}.", i % 256, i / 256)).collect::<Vec<_>>().join("|")
    };
    assert!(!refused(&pattern(255)));
    assert!(refused(&pattern(256)));
}

#[test]
fn long_repetitions_are_refused() {
    let star = |n: usize| format!("(?:{})*", "a".repeat(n));
    assert!(!refused(&star(32759)));
    assert!(refused(&star(32760)));
    let plus = |n: usize| format!("(?:{})+", "a".repeat(n));
    assert!(!refused(&plus(32768)));
    assert!(refused(&plus(32769)));
    // Nothing else is too long.
    assert!(!refused(&"a".repeat(40000)));
}

#[test]
fn long_alternations_are_refused() {
    let alt = |n: usize, m: usize| format!("a{}|b{}", ".".repeat(n), ".".repeat(m));
    // The second alternative starts at 7 + 1 + 2n + 4.
    assert!(!refused(&alt(16377, 0)));
    assert!(refused(&alt(16378, 0)));
    // The jump leads 4 + 1 + 2m on.
    assert!(!refused(&alt(0, 16381)));
    assert!(refused(&alt(0, 16382)));
}

#[test]
fn try_compile_gives_what_compile_gives() {
    for pattern in ["abc", "a(b|c.)*d+", "[a-z]+x|y."] {
        let hir = parse(pattern);
        let a = Compiler::new().compile(&hir);
        let b = Compiler::new().try_compile(&hir).unwrap();
        assert_eq!(a.0.as_slice(), b.0.as_slice());
        assert_eq!(a.1.as_slice(), b.1.as_slice());
        assert_eq!(a.2, b.2);
    }
}
