use tfidf_search::chars::ascii_lowercase;
use tfidf_search::chars::chars_of;
use tfidf_search::extract::extract_text;
use tfidf_search::index::index_documents;
use tfidf_search::index::index_xml_documents;
use tfidf_search::index::CorpusIndex;
use tfidf_search::lexer::tokenize;
use tfidf_search::lexer::Lexer;
use tfidf_search::rank::document_frequency;
use tfidf_search::rank::prepare_query;
use tfidf_search::rank::rank;
use tfidf_search::rank::score_lt_exec;
use tfidf_search::rank::Score;
use tfidf_search::stem::normalize_term;
use tfidf_search::stem::normalize_tokens;
use tfidf_search::stem::Normalizer;
use tfidf_search::store::parse_index_str;
use tfidf_search::store::render_index_str;
use tfidf_search::table::term_table;

fn toks(text: &str) -> Vec<String> {
    tokenize(text)
}

fn idf_weight(total_docs: usize, df: usize) -> i64 {
    let ratio = total_docs as f64 / (1.0 + df as f64);
    (ratio.log10() * 1_000_000.0) as i64
}

fn weights_for(ix: &CorpusIndex, query: &str) -> (Vec<String>, Vec<i64>) {
    let (terms, dfs) = prepare_query(ix, query);
    let d = ix.len();
    let ws: Vec<i64> = dfs.iter().map(|&df| idf_weight(d, df)).collect();
    (terms, ws)
}

fn corpus(entries: &[(&str, &str)]) -> CorpusIndex {
    let docs: Vec<(String, Option<String>)> = entries
        .iter()
        .map(|(id, text)| (id.to_string(), Some(text.to_string())))
        .collect();
    index_documents(docs)
}

#[test]
fn tokenizer_deterministic() {
    let a = toks("Hello, world 42");
    let b = toks("Hello, world 42");
    assert_eq!(a, b);
    assert_eq!(a, vec!["Hello", ",", "world", "42"]);
}

#[test]
fn tokenizer_empty_input() {
    assert!(toks("").is_empty());
    assert!(toks("   \t\n ").is_empty());
}

#[test]
fn tokenizer_rules() {
    assert_eq!(toks("a1b2 2x -c"), vec!["a1b2", "2", "x", "-", "c"]);
    assert_eq!(toks("123abc"), vec!["123", "abc"]);
    assert_eq!(toks("x+y=z"), vec!["x", "+", "y", "=", "z"]);
    assert_eq!(toks("\"q\""), vec!["\"", "q", "\""]);
}

#[test]
fn tokens_concatenate_to_input_without_whitespace() {
    let toks = toks(" ab 12.x\tY ");
    let joined: String = toks.concat();
    assert_eq!(joined, "ab12.xY");
    assert_eq!(toks, vec!["ab", "12", ".", "x", "Y"]);
}

#[test]
fn tables_hold_no_zero_counts() {
    let t = term_table("cat dog dog");
    assert_eq!(t.len(), 2);
    let mut i = 0;
    while i < t.len() {
        assert!(t.entry_at(i).1 >= 1);
        i += 1;
    }
}

#[test]
fn lexer_hands_out_tokens_in_order() {
    let cs = chars_of("dog  fish");
    let mut lx = Lexer::new(cs.as_slice());
    assert_eq!(lx.next(), Some("dog".to_string()));
    assert_eq!(lx.next(), Some("fish".to_string()));
    assert_eq!(lx.next(), None);
    assert_eq!(lx.next(), None);
}

#[test]
fn lowercasing_is_ascii_only() {
    assert_eq!(ascii_lowercase("AbC!"), "abc!");
    assert_eq!(ascii_lowercase("DOG42dog"), "dog42dog");
}

#[test]
fn table_total_matches_token_count() {
    let t = term_table("cat dog dog");
    assert_eq!(t.count(&"dog".to_string()), 2);
    assert_eq!(t.count(&"cat".to_string()), 1);
    assert_eq!(t.count(&"fish".to_string()), 0);
    assert_eq!(t.total(), 3);
    assert_eq!(toks("cat dog dog").len(), 3);
}

#[test]
fn tf_is_zero_without_tokens() {
    let t = term_table("");
    assert_eq!(t.total(), 0);
    assert_eq!(t.count(&"dog".to_string()), 0);
    let u = term_table("dog");
    assert!(u.count(&"dog".to_string()) <= u.total());
}

#[test]
fn idf_nonincreasing_in_df() {
    let d = 10usize;
    let mut last = f64::INFINITY;
    for df in 0..=5usize {
        let idf = (d as f64 / (1.0 + df as f64)).log10();
        assert!(idf <= last);
        last = idf;
    }
    assert!(idf_weight(10, 0) >= idf_weight(10, 1));
    assert!(idf_weight(10, 1) >= idf_weight(10, 5));
}

#[test]
fn store_round_trip() {
    let ix = corpus(&[("A", "cat dog dog"), ("B", "dog fish")]);
    let text = render_index_str(&ix);
    let back = parse_index_str(text.as_str()).expect("canonical text must load");
    assert_eq!(back.len(), 2);
    assert_eq!(back.doc_id(0), "A");
    assert_eq!(back.doc_id(1), "B");
    assert_eq!(back.doc_count(0, &"dog".to_string()), 2);
    assert_eq!(back.doc_count(0, &"cat".to_string()), 1);
    assert_eq!(back.doc_count(1, &"dog".to_string()), 1);
    assert_eq!(back.doc_total(0), 3);
    assert_eq!(back.doc_total(1), 2);
    assert_eq!(render_index_str(&back), text);
}

#[test]
fn store_exact_format() {
    let ix = corpus(&[("a", "dog dog")]);
    assert_eq!(render_index_str(&ix), "{\"a\":{\"dog\":2}}");
    let empty = corpus(&[]);
    assert_eq!(render_index_str(&empty), "{}");
}

#[test]
fn store_escapes_round_trip() {
    let ix = corpus(&[("dir\\file \"1\"", "say \" and \\ twice \\")]);
    let text = render_index_str(&ix);
    assert!(text.contains("\\\\"));
    assert!(text.contains("\\\""));
    let back = parse_index_str(text.as_str()).expect("escaped text must load");
    assert_eq!(back.doc_id(0), "dir\\file \"1\"");
    assert_eq!(back.doc_count(0, &"\"".to_string()), 1);
    assert_eq!(back.doc_count(0, &"\\".to_string()), 2);
    assert_eq!(render_index_str(&back), text);
}

#[test]
fn store_rejects_malformed() {
    assert!(parse_index_str("").is_none());
    assert!(parse_index_str("{").is_none());
    assert!(parse_index_str("[]").is_none());
    assert!(parse_index_str("{\"a\":{}").is_none());
    assert!(parse_index_str("{\"a\":{},\"a\":{}}").is_none());
    assert!(parse_index_str("{\"a\":{\"t\":1,\"t\":2}}").is_none());
    assert!(parse_index_str("{\"a\":{\"t\":01}}").is_none());
    assert!(parse_index_str("{\"a\":{\"t\":99999999999999999999999999}}").is_none());
    assert!(parse_index_str("{\"a\":{}}x").is_none());
    assert!(parse_index_str("{ \"a\" : {} }").is_none());
}

#[test]
fn store_accepts_empty_index() {
    let ix = parse_index_str("{}").expect("an empty object is a valid index");
    assert_eq!(ix.len(), 0);
}

#[test]
fn extraction_pulls_character_data() {
    assert_eq!(extract_text("<d>hi</d>"), Some("hi ".to_string()));
    // Two character-data runs, each followed by one space.
    assert_eq!(
        extract_text("<d>hello <b>world</b></d>"),
        Some("hello  world ".to_string())
    );
}

#[test]
fn extraction_fails_on_malformed_markup() {
    assert!(extract_text("<d><b></d>").is_none());
    assert!(extract_text("no markup at all").is_none());
}

#[test]
fn scenario_two_documents_tf_and_df() {
    let ix = corpus(&[("A", "cat dog dog"), ("B", "dog fish")]);
    let dog = "dog".to_string();
    assert_eq!(ix.doc_count(0, &dog), 2);
    assert_eq!(ix.doc_total(0), 3);
    assert_eq!(ix.doc_count(1, &dog), 1);
    assert_eq!(ix.doc_total(1), 2);
    assert_eq!(document_frequency(&ix, &dog), 2);
    // With two documents both holding the term, idf = log10(2/3) is
    // negative, so every score is non-positive and nothing is returned.
    let (terms, ws) = weights_for(&ix, "dog");
    assert_eq!(terms, vec!["dog"]);
    assert!(ws[0] < 0);
    let results = rank(&ix, &terms, &ws);
    assert!(results.is_empty());
}

#[test]
fn scenario_ranking_orders_by_score() {
    // Four documents, two holding the term: idf = log10(4/3) > 0, and
    // the document with the higher term frequency comes first.
    let ix = corpus(&[
        ("A", "cat dog dog"),
        ("B", "dog fish"),
        ("C", "cat"),
        ("D", "fish"),
    ]);
    let (terms, ws) = weights_for(&ix, "dog");
    assert!(ws[0] > 0);
    let results = rank(&ix, &terms, &ws);
    assert_eq!(results.len(), 2);
    assert_eq!(results[0].0, "A");
    assert_eq!(results[1].0, "B");
    assert!(score_lt_exec(&results[1].1, &results[0].1));
}

#[test]
fn scenario_unmatched_query_returns_nothing() {
    let ix = corpus(&[("A", "cat dog dog"), ("B", "dog fish")]);
    let (terms, ws) = weights_for(&ix, "zebra");
    let results = rank(&ix, &terms, &ws);
    assert!(results.is_empty());
}

#[test]
fn scenario_fifteen_documents_truncate_to_ten() {
    let entries: Vec<(String, String)> = (1..=15)
        .map(|i| (format!("d{}", i), format!("r{}", i)))
        .collect();
    let docs: Vec<(String, Option<String>)> = entries
        .iter()
        .map(|(id, text)| (id.clone(), Some(text.clone())))
        .collect();
    let ix = index_documents(docs);
    let query = (1..=15).map(|i| format!("r{}", i)).collect::<Vec<_>>().join(" ");
    let (terms, ws) = weights_for(&ix, query.as_str());
    assert!(ws.iter().all(|&w| w > 0));
    let results = rank(&ix, &terms, &ws);
    assert_eq!(results.len(), 10);
    for (k, (id, score)) in results.iter().enumerate() {
        assert_eq!(id, &format!("d{}", k + 1));
        assert!(score.num > 0);
    }
}

#[test]
fn scenario_corrupted_document_is_tolerated() {
    let docs: Vec<(String, String)> = vec![
        ("good1".to_string(), "<d>cat dog</d>".to_string()),
        ("bad".to_string(), "<d><b></d>".to_string()),
        ("good2".to_string(), "<d>dog dog</d>".to_string()),
        ("good3".to_string(), "<d>fish</d>".to_string()),
    ];
    let ix = index_xml_documents(docs);
    assert_eq!(ix.len(), 4);
    assert_eq!(ix.doc_id(1), "bad");
    assert_eq!(ix.doc_total(1), 0);
    assert!(ix.doc_total(0) > 0);
    assert!(ix.doc_total(2) > 0);
    assert!(ix.doc_total(3) > 0);
    let (terms, ws) = weights_for(&ix, "dog");
    let results = rank(&ix, &terms, &ws);
    assert_eq!(results.len(), 2);
    assert_eq!(results[0].0, "good2");
    assert_eq!(results[1].0, "good1");
}

#[test]
fn query_is_lowercased_before_matching() {
    let ix = corpus(&[("A", "cat dog dog"), ("B", "dog fish"), ("C", "x")]);
    let (terms, _) = prepare_query(&ix, "DOG Cat");
    assert_eq!(terms, vec!["dog", "cat"]);
}

#[test]
fn document_frequency_counts_documents_not_occurrences() {
    let ix = corpus(&[("A", "dog dog dog"), ("B", "dog"), ("C", "cat")]);
    assert_eq!(document_frequency(&ix, &"dog".to_string()), 2);
    assert_eq!(document_frequency(&ix, &"cat".to_string()), 1);
    assert_eq!(document_frequency(&ix, &"fish".to_string()), 0);
}

#[test]
fn score_comparison_is_exact() {
    let half = Score { num: 1, den: 2 };
    let third = Score { num: 1, den: 3 };
    assert!(score_lt_exec(&third, &half));
    assert!(!score_lt_exec(&half, &third));
    let same = Score { num: 2, den: 4 };
    assert!(!score_lt_exec(&half, &same));
    assert!(!score_lt_exec(&same, &half));
}

#[test]
fn stemming_normalizes_terms() {
    let stemmed = normalize_term(Normalizer::EnglishStem, &"fruitlessly".to_string());
    assert_eq!(stemmed, "fruitless");
    let plain = normalize_term(Normalizer::Plain, &"fruitlessly".to_string());
    assert_eq!(plain, "fruitlessly");
    let all = normalize_tokens(Normalizer::EnglishStem, &vec![
        "running".to_string(),
        "dogs".to_string(),
    ]);
    assert_eq!(all, vec!["run", "dog"]);
}

#[test]
fn indexing_skips_missing_text() {
    let docs: Vec<(String, Option<String>)> = vec![
        ("present".to_string(), Some("cat".to_string())),
        ("absent".to_string(), None),
    ];
    let ix = index_documents(docs);
    assert_eq!(ix.len(), 2);
    assert_eq!(ix.doc_total(0), 1);
    assert_eq!(ix.doc_total(1), 0);
    assert!(ix.contains_doc(&"absent".to_string()));
    assert!(!ix.contains_doc(&"other".to_string()));
}
