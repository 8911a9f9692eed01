use search::index::TermFreq;
use search::scorer::split_query;
use search::{index_document, index_documents, tf_idf_search, ScoreIndex, TermFreqIndex, Tokenizer};

fn chars(s: &str) -> Vec<char> {
    s.chars().collect()
}

fn all_tokens(s: &str) -> Vec<String> {
    let content = chars(s);
    let mut tokenizer = Tokenizer::new(&content);
    let mut out = Vec::new();
    while let Some(token) = tokenizer.next() {
        out.push(token.iter().collect::<String>());
    }
    out
}

fn table(pairs: &[(&str, usize)]) -> Vec<(String, usize)> {
    pairs.iter().map(|(t, n)| (t.to_string(), *n)).collect()
}

fn two_documents() -> TermFreqIndex {
    let entries = vec![
        ("a".to_string(), table(&[("cat", 3)])),
        ("b".to_string(), table(&[("cat", 1), ("dog", 2)])),
    ];
    TermFreqIndex::from_entries(&entries).expect("valid entries")
}

fn score_of(result: &ScoreIndex, doc: &str) -> Option<f32> {
    result.docs.iter().find(|d| d.doc == doc).map(|d| {
        d.matches
            .iter()
            .map(|m| m.freq as f32 * (result.n_docs as f32 / m.docs_with_term as f32).ln())
            .sum()
    })
}

#[test]
fn mixed_runs_split_as_described() {
    assert_eq!(all_tokens("abc123 456 !@"), vec!["abc123", "456", "!", "@"]);
}

#[test]
fn white_space_only_has_no_tokens() {
    assert!(all_tokens("  \t\n  \r ").is_empty());
    assert!(all_tokens("").is_empty());
}

#[test]
fn digit_run_stops_at_a_letter() {
    assert_eq!(all_tokens("123abc"), vec!["123", "abc"]);
    assert_eq!(all_tokens("12.5"), vec!["12", ".", "5"]);
}

#[test]
fn word_run_absorbs_punctuation_until_white_space() {
    assert_eq!(all_tokens("!hello, world."), vec!["!", "hello,", "world."]);
}

#[test]
fn tokens_cover_the_non_space_characters() {
    let text = "  foo42 bar\t7 8 ?!  ";
    let tokens = all_tokens(text);
    let joined: String = tokens.concat();
    let expected: String = text.chars().filter(|c| !c.is_whitespace()).collect();
    assert_eq!(joined, expected);
    assert!(joined.chars().count() <= text.chars().count());
    assert!(tokens.iter().all(|t| !t.is_empty()));
}

#[test]
fn cat_cat_dog_counts() {
    let tf = index_document(&chars("cat cat dog"));
    assert_eq!(tf.len(), 2);
    assert_eq!(tf.get(&"cat".to_string()), Some(2));
    assert_eq!(tf.get(&"dog".to_string()), Some(1));
    assert_eq!(tf.get(&"bird".to_string()), None);
}

#[test]
fn indexing_lower_cases_ascii_letters() {
    let tf = index_document(&chars("Cat CAT cat"));
    assert_eq!(tf.len(), 1);
    assert_eq!(tf.get(&"cat".to_string()), Some(3));
    assert_eq!(tf.get(&"Cat".to_string()), None);
}

#[test]
fn indexing_documents_keeps_one_entry_per_identifier() {
    let docs = vec![
        ("x".to_string(), chars("one two")),
        ("y".to_string(), chars("two")),
        ("x".to_string(), chars("three")),
    ];
    let index = index_documents(&docs);
    assert_eq!(index.len(), 2);
    let entries = index.to_entries();
    let x = entries.iter().find(|e| e.0 == "x").unwrap();
    assert_eq!(x.1, table(&[("three", 1)]));
}

#[test]
fn rare_term_scores_its_document() {
    let index = two_documents();
    let result = tf_idf_search(&index, &chars("dog"));
    assert_eq!(result.n_docs, 2);
    assert_eq!(result.docs.len(), 1);
    assert_eq!(result.docs[0].doc, "b");
    assert_eq!(result.docs[0].matches.len(), 1);
    assert_eq!(result.docs[0].matches[0].freq, 2);
    assert_eq!(result.docs[0].matches[0].docs_with_term, 1);
    let score = score_of(&result, "b").unwrap();
    assert!((score - 2.0 * 2.0f32.ln()).abs() < 1e-5);
    assert!((score - 1.386).abs() < 1e-3);
    assert!(score_of(&result, "a").is_none());
}

#[test]
fn term_in_every_document_scores_nothing() {
    let index = two_documents();
    let result = tf_idf_search(&index, &chars("cat"));
    assert!(result.docs.is_empty());
}

#[test]
fn empty_query_scores_nothing() {
    let index = two_documents();
    assert!(tf_idf_search(&index, &chars("")).docs.is_empty());
    assert!(tf_idf_search(&index, &chars("   ")).docs.is_empty());
}

#[test]
fn upper_case_query_term_matches_nothing() {
    let index = two_documents();
    assert!(tf_idf_search(&index, &chars("DOG")).docs.is_empty());
}

#[test]
fn repeated_query_term_counts_twice() {
    let index = two_documents();
    let result = tf_idf_search(&index, &chars("dog dog cat"));
    assert_eq!(result.docs.len(), 1);
    let doc = &result.docs[0];
    assert_eq!(doc.matches.len(), 3);
    assert_eq!((doc.matches[2].freq, doc.matches[2].docs_with_term), (1, 2));
    let score = score_of(&result, "b").unwrap();
    assert!((score - 4.0 * 2.0f32.ln()).abs() < 1e-5);
}

#[test]
fn query_splits_on_white_space_only() {
    assert_eq!(split_query(&chars("  Foo-bar\tbaz  ")), vec!["Foo-bar", "baz"]);
    assert!(split_query(&chars(" \n ")).is_empty());
}

#[test]
fn saved_index_loads_back_the_same() {
    let docs = vec![
        ("d1".to_string(), chars("cat cat dog")),
        ("d2".to_string(), chars("bird 42")),
    ];
    let index = index_documents(&docs);
    let text = serde_json::to_string(&index.to_entries()).unwrap();
    let parsed: Vec<(String, Vec<(String, usize)>)> = serde_json::from_str(&text).unwrap();
    let loaded = TermFreqIndex::from_entries(&parsed).expect("loads");
    assert_eq!(loaded.len(), index.len());
    assert_eq!(loaded.to_entries(), index.to_entries());
}

#[test]
fn zero_count_is_refused() {
    assert!(TermFreq::from_entries(&table(&[("cat", 0)])).is_none());
    let entries = vec![("a".to_string(), table(&[("cat", 0)]))];
    assert!(TermFreqIndex::from_entries(&entries).is_none());
}

#[test]
fn repeated_term_or_identifier_is_refused() {
    assert!(TermFreq::from_entries(&table(&[("cat", 1), ("cat", 2)])).is_none());
    let entries = vec![
        ("a".to_string(), table(&[("cat", 1)])),
        ("a".to_string(), table(&[("dog", 1)])),
    ];
    assert!(TermFreqIndex::from_entries(&entries).is_none());
}

#[test]
fn insert_replaces_a_document() {
    let mut index = TermFreqIndex::new();
    index.insert("a".to_string(), index_document(&chars("x y")));
    index.insert("a".to_string(), index_document(&chars("z")));
    assert_eq!(index.len(), 1);
    assert_eq!(index.doc_id(0), "a");
    assert_eq!(index.doc_terms(0).get(&"z".to_string()), Some(1));
    assert_eq!(index.doc_terms(0).get(&"x".to_string()), None);
}

#[test]
fn add_counts_up() {
    let mut tf = TermFreq::new();
    tf.add("cat".to_string());
    tf.add("cat".to_string());
    tf.add("dog".to_string());
    assert_eq!(tf.get(&"cat".to_string()), Some(2));
    assert_eq!(tf.to_entries(), table(&[("cat", 2), ("dog", 1)]));
}
