use kkspell::errors::SpellError;
use kkspell::filter::Filter;
use kkspell::params::derive_params;

#[test]
fn params_are_deterministic_and_exact() {
    // n = 3 at the fixed rate: m = ceil(3 * 6.235224230) = 19, k = round(19/3 * ln 2) = 4
    let first = derive_params(3).unwrap();
    let second = derive_params(3).unwrap();
    assert_eq!(first, (4, 19));
    assert_eq!(second, (4, 19));
    // n = 1: m = ceil(6.235224230) = 7, k = round(7 * ln 2) = 5
    assert_eq!(derive_params(1).unwrap(), (5, 7));
}

#[test]
fn empty_dictionary_is_rejected() {
    assert_eq!(derive_params(0), Err(SpellError::InvalidParameters));
    match Filter::create(0) {
        Err(SpellError::InvalidParameters) => {}
        _ => panic!("an empty word list must be rejected"),
    }
}

#[test]
fn inserted_words_are_always_present() {
    let mut f = Filter::create(3).unwrap();
    f.insert(b"apple");
    f.insert(b"banana");
    f.insert(b"cherry");
    assert!(f.contains(b"apple"));
    assert!(f.contains(b"banana"));
    assert!(f.contains(b"cherry"));
}

#[test]
fn normalization_applies_to_both_sides() {
    let mut f = Filter::create(2).unwrap();
    f.insert(b"  Apple\n");
    f.insert(b"banana");
    // queries go through the same trim + ASCII-lowercase rule as inserts
    assert!(f.contains(b"apple"));
    assert!(f.contains(b"APPLE"));
    assert!(f.contains(b"\tapple  "));
    assert!(f.contains(b"BaNaNa"));
}

#[test]
fn unrelated_long_word_is_absent() {
    let mut f = Filter::create(3).unwrap();
    f.insert(b"apple");
    f.insert(b"banana");
    f.insert(b"cherry");
    assert!(!f.contains(b"zzzzqqqqzzzzqqqqzzzzqqqqzzzzqqqq"));
}

#[test]
fn serialized_record_has_the_wire_format() {
    let mut f = Filter::create(1).unwrap();
    f.insert(b"apple");
    assert_eq!(f.k(), 5);
    assert_eq!(f.m(), 7);
    let bytes = f.serialize();
    assert_eq!(&bytes[..12], b"kkspell.5.7.");
    assert_eq!(bytes.len(), 12 + 7);
    for b in &bytes[12..] {
        assert!(*b == 0x00 || *b == 0x01);
    }
}

#[test]
fn round_trip_preserves_every_answer() {
    let mut f = Filter::create(3).unwrap();
    f.insert(b"apple");
    f.insert(b"banana");
    f.insert(b"cherry");
    let bytes = f.serialize();
    let g = Filter::deserialize(&bytes).unwrap();
    assert_eq!(g.k(), f.k());
    assert_eq!(g.m(), f.m());
    for word in [
        b"apple".as_slice(),
        b"banana",
        b"cherry",
        b"APPLE",
        b"grape",
        b"zzzzqqqqzzzzqqqqzzzzqqqqzzzzqqqq",
        b"",
    ] {
        assert_eq!(g.contains(word), f.contains(word));
    }
    assert!(g.contains(b"apple"));
    assert!(!g.contains(b"zzzzqqqqzzzzqqqqzzzzqqqqzzzzqqqq"));
}

#[test]
fn double_round_trip_is_byte_identical() {
    let mut f = Filter::create(2).unwrap();
    f.insert(b"alpha");
    f.insert(b"beta");
    let bytes = f.serialize();
    let again = Filter::deserialize(&bytes).unwrap().serialize();
    assert_eq!(bytes, again);
}

#[test]
fn wrong_tag_is_a_format_error() {
    let mut f = Filter::create(1).unwrap();
    f.insert(b"apple");
    let mut bytes = f.serialize();
    bytes[0] = b'x';
    match Filter::deserialize(&bytes) {
        Err(SpellError::FormatError) => {}
        _ => panic!("a wrong tag must fail with FormatError"),
    }
}

#[test]
fn non_numeric_fields_are_a_format_error() {
    for record in [
        b"kkspell.4a.19.".as_slice(),
        b"kkspell..19.",
        b"kkspell.4.x.",
        b"kkspell.4..",
        b"kkspell.4.19",
        b"kkspell.",
        b"kkspell",
        b"",
    ] {
        match Filter::deserialize(record) {
            Err(SpellError::FormatError) => {}
            _ => panic!("a malformed header must fail with FormatError"),
        }
    }
}

#[test]
fn truncated_bit_array_is_a_format_error() {
    let mut f = Filter::create(3).unwrap();
    f.insert(b"apple");
    let bytes = f.serialize();
    let short = &bytes[..bytes.len() - 1];
    match Filter::deserialize(short) {
        Err(SpellError::FormatError) => {}
        _ => panic!("fewer than m bit bytes must fail with FormatError"),
    }
}

#[test]
fn zero_parameters_are_a_format_error() {
    for record in [b"kkspell.0.3.\x00\x01\x01".as_slice(), b"kkspell.1.0."] {
        match Filter::deserialize(record) {
            Err(SpellError::FormatError) => {}
            _ => panic!("zero k or m must fail with FormatError"),
        }
    }
}

#[test]
fn any_non_zero_bit_byte_counts_as_set() {
    // 0x00 stays clear; both 0x01 and 0xff read back as set
    let record = b"kkspell.1.3.\x00\x01\xff";
    let f = Filter::deserialize(record).unwrap();
    assert_eq!(f.k(), 1);
    assert_eq!(f.m(), 3);
    let canonical = f.serialize();
    assert_eq!(&canonical[..], b"kkspell.1.3.\x00\x01\x01");
}

#[test]
fn reinserting_a_word_changes_nothing() {
    let mut once = Filter::create(2).unwrap();
    once.insert(b"apple");
    once.insert(b"banana");
    let mut twice = Filter::create(2).unwrap();
    twice.insert(b"apple");
    twice.insert(b"banana");
    twice.insert(b"apple");
    assert_eq!(once.serialize(), twice.serialize());
}

#[test]
fn whitespace_only_words_normalize_to_empty() {
    let mut f = Filter::create(1).unwrap();
    f.insert(b"");
    assert!(f.contains(b""));
    assert!(f.contains(b"  \t\n"));
}
