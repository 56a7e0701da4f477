use knora::index::{
    count_occurrences, distinct_of, find, tokenize, Frequencies, TermIndex, TokenizedDocument,
};

fn strings(items: &[&str]) -> Vec<String> {
    items.iter().map(|s| s.to_string()).collect()
}

fn doc(path: &str, tokens: &[&str]) -> TokenizedDocument {
    TokenizedDocument { path: path.to_string(), tokens: strings(tokens) }
}

#[test]
fn tokens_are_lower_case_runs_longer_than_two_bytes() {
    assert_eq!(
        tokenize("The quick brown Fox, it's 42 ok a1b"),
        strings(&["the", "quick", "brown", "fox", "a1b"])
    );
    assert_eq!(tokenize(""), Vec::<String>::new());
    assert_eq!(tokenize("a bc !! -- de"), Vec::<String>::new());
    assert_eq!(tokenize("abc"), strings(&["abc"]));
    assert_eq!(tokenize("x_yz12"), strings(&["yz12"]));
}

#[test]
fn tokens_of_an_ascii_text() {
    assert_eq!(
        tokenize("Hello, World! It is a TEST-42x"),
        strings(&["hello", "world", "test", "42x"])
    );
}

#[test]
fn token_length_is_counted_in_bytes() {
    // two characters, three bytes
    assert_eq!(tokenize("\u{e9}a"), strings(&["\u{e9}a"]));
    assert_eq!(tokenize("\u{c9}COLE ab"), strings(&["\u{e9}cole"]));
}

#[test]
fn list_helpers() {
    let list = strings(&["b", "a", "b", "c", "a"]);
    assert_eq!(distinct_of(&list), strings(&["b", "a", "c"]));
    assert_eq!(find(&list, &"a".to_string()), Some(1));
    assert_eq!(find(&list, &"z".to_string()), None);
    assert_eq!(count_occurrences(&list, &"b".to_string()), 2);
    assert_eq!(count_occurrences(&list, &"z".to_string()), 0);
}

#[test]
fn frequencies_keep_the_last_count() {
    let mut table = Frequencies::new();
    assert_eq!(table.get(&"cat".to_string()), None);
    table.set(&"cat".to_string(), 2);
    table.set(&"dog".to_string(), 1);
    table.set(&"cat".to_string(), 5);
    assert_eq!(table.get(&"cat".to_string()), Some(5));
    assert_eq!(table.get(&"dog".to_string()), Some(1));
    assert_eq!(table.tokens, strings(&["cat", "dog"]));
}

#[test]
fn vocabulary_gives_coordinates_in_order_of_first_appearance() {
    let mut index = TermIndex::new(384);
    index.update(&vec![doc("a", &["cat", "dog", "cat"]), doc("b", &["emu", "dog"])]);
    assert_eq!(index.vocabulary, strings(&["cat", "dog", "emu"]));
    assert_eq!(index.frequencies.get(&"cat".to_string()), Some(1));
    assert_eq!(index.frequencies.get(&"dog".to_string()), Some(2));
    assert_eq!(index.frequencies.get(&"emu".to_string()), Some(1));
    index.update(&vec![doc("c", &["fox", "cat"])]);
    assert_eq!(index.vocabulary, strings(&["cat", "dog", "emu", "fox"]));
}

#[test]
fn documents_with_one_path_count_once() {
    let mut index = TermIndex::new(384);
    index.update(&vec![doc("same", &["cat"]), doc("same", &["cat"]), doc("other", &["cat"])]);
    assert_eq!(index.frequencies.get(&"cat".to_string()), Some(2));
}

#[test]
fn document_frequency_is_overwritten_by_each_batch() {
    let mut index = TermIndex::new(384);
    index.update(&vec![doc("a", &["cat"]), doc("b", &["cat"]), doc("c", &["cat", "dog"])]);
    assert_eq!(index.frequencies.get(&"cat".to_string()), Some(3));
    index.update(&vec![doc("d", &["cat"])]);
    assert_eq!(index.frequencies.get(&"cat".to_string()), Some(1));
    assert_eq!(index.frequencies.get(&"dog".to_string()), Some(1));
}

#[test]
fn full_vocabulary_takes_no_more_tokens() {
    let mut index = TermIndex::new(2);
    index.update(&vec![doc("a", &["one", "two", "three"])]);
    assert_eq!(index.vocabulary, strings(&["one", "two"]));
    // the token without coordinate is still counted
    assert_eq!(index.frequencies.get(&"three".to_string()), Some(1));
    index.update(&vec![doc("b", &["four"])]);
    assert_eq!(index.vocabulary, strings(&["one", "two"]));
    let profile = index.profile("three four one", 7);
    assert_eq!(profile.total_tokens, 3);
    assert_eq!(profile.terms.len(), 1);
    assert_eq!(profile.terms[0].index, 0);
}

#[test]
fn profile_counts_the_tokens_that_have_a_coordinate() {
    let mut index = TermIndex::new(384);
    index.update(&vec![doc("a", &["cat", "dog"]), doc("b", &["dog"])]);
    let profile = index.profile("Dog cat DOG bird dog.", 10);
    assert_eq!(profile.total_tokens, 5);
    assert_eq!(profile.documents, 10);
    let terms: Vec<(usize, usize, Option<usize>)> =
        profile.terms.iter().map(|t| (t.index, t.count, t.doc_frequency)).collect();
    assert_eq!(terms, vec![(1, 3, Some(2)), (0, 1, Some(1))]);
}

#[test]
fn profile_in_an_empty_store_counts_one_document() {
    let index = TermIndex::new(384);
    let profile = index.profile("nothing known here", 0);
    assert_eq!(profile.documents, 1);
    assert_eq!(profile.total_tokens, 3);
    assert!(profile.terms.is_empty());
    let profile = index.profile("", 3);
    assert_eq!(profile.documents, 3);
    assert_eq!(profile.total_tokens, 0);
}
