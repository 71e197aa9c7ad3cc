use kkspell::errors::SpellError;
use kkspell::pipeline::{
    build_filter, check_document, has_spell_extension, misspelled_words, spell_path_for, Config,
};

fn words(list: &[&[u8]]) -> Vec<Vec<u8>> {
    list.iter().map(|w| w.to_vec()).collect()
}

#[test]
fn config_takes_exactly_two_arguments() {
    let c = Config::new(vec!["letter.txt".to_string(), "dict.spell".to_string()]).unwrap();
    assert_eq!(c.file, "letter.txt");
    assert_eq!(c.dict, "dict.spell");
    assert!(Config::new(vec![]).is_none());
    assert!(Config::new(vec!["one".to_string()]).is_none());
    assert!(Config::new(vec!["a".to_string(), "b".to_string(), "c".to_string()]).is_none());
}

#[test]
fn building_from_an_empty_list_fails() {
    match build_filter(&words(&[])) {
        Err(SpellError::InvalidParameters) => {}
        _ => panic!("an empty word list must be rejected"),
    }
}

#[test]
fn a_document_of_dictionary_words_is_clean() {
    let filter = build_filter(&words(&[b"apple", b"banana", b"cherry"])).unwrap();
    let doc = words(&[b"banana", b"apple", b"apple", b"cherry"]);
    let bad = misspelled_words(&filter, &doc);
    assert!(bad.is_empty());
}

#[test]
fn unknown_words_are_reported_in_order() {
    let filter = build_filter(&words(&[b"apple", b"banana"])).unwrap();
    let doc = words(&[b"apple", b"bananna", b"banana", b"aple"]);
    let bad = misspelled_words(&filter, &doc);
    assert_eq!(bad, words(&[b"bananna", b"aple"]));
}

#[test]
fn check_document_round_trips_through_the_record() {
    let filter = build_filter(&words(&[b"apple", b"banana", b"cherry"])).unwrap();
    let record = filter.serialize();
    let doc = words(&[b"cherry", b"graepfruit", b"apple"]);
    let bad = check_document(&record, &doc).unwrap();
    assert_eq!(bad, words(&[b"graepfruit"]));
    let clean = check_document(&record, &words(&[b"apple", b"banana"])).unwrap();
    assert!(clean.is_empty());
}

#[test]
fn check_document_rejects_a_malformed_record() {
    let doc = words(&[b"apple"]);
    match check_document(b"not a filter record", &doc) {
        Err(SpellError::FormatError) => {}
        _ => panic!("a malformed record must fail with FormatError"),
    }
}

#[test]
fn spell_extension_is_recognized() {
    assert!(has_spell_extension(b"dict.spell"));
    assert!(has_spell_extension(b".spell"));
    assert!(!has_spell_extension(b"dict.txt"));
    assert!(!has_spell_extension(b"spell"));
    assert!(!has_spell_extension(b""));
}

#[test]
fn output_path_replaces_the_extension() {
    assert_eq!(spell_path_for(b"words.txt"), b"words.spell".to_vec());
    assert_eq!(spell_path_for(b"words"), b"words.spell".to_vec());
    assert_eq!(spell_path_for(b"a.b.c"), b"a.b.spell".to_vec());
    assert_eq!(spell_path_for(b"dir.v2/words"), b"dir.v2/words.spell".to_vec());
    assert_eq!(spell_path_for(b"dir/words.txt"), b"dir/words.spell".to_vec());
}
