use trustami::inverse_doc_frequency::{InverseDocumentFrequency, Weight};
use trustami::rank::rank;
use trustami::term_frequency::TermFrequency;
use trustami::utils::{index_docs, score, TfIdf};

fn doc(path: &str, terms: &[&str]) -> TermFrequency {
    let mut tf = TermFrequency::new(path.to_string());
    for term in terms {
        tf.update(term);
    }
    tf
}

#[test]
fn term_frequency_counts_occurrences() {
    let mut tf = TermFrequency::new("doc".to_string());
    tf.update("x");
    tf.update("x");
    tf.update("x");
    tf.update("y");

    assert_eq!(tf.count_of("x"), 3);
    assert_eq!(tf.count_of("y"), 1);
    assert_eq!(tf.count_of("z"), 0);
}

#[test]
fn idf_weight_formula() {
    // Three documents, `t` appears in exactly one: weight = (3+1)/(1+1) = 2.0.
    let docs = vec![doc("a", &["t"]), doc("b", &["u"]), doc("c", &["v"])];
    let mut idf = InverseDocumentFrequency::new();

    idf.update("t", &docs);

    let w = idf.get("t").unwrap();
    assert_eq!(w, Weight { num: 4, den: 2 });
    assert_eq!(w.num as f64 / w.den as f64, 2.0);
}

#[test]
fn idf_update_is_idempotent() {
    let docs = vec![doc("a", &["t"]), doc("b", &["t"]), doc("c", &["v"])];
    let mut idf = InverseDocumentFrequency::new();

    idf.update("t", &docs);
    let first = idf.get("t").unwrap();
    idf.update("t", &docs);
    let second = idf.get("t").unwrap();

    assert_eq!(first, second);
    assert_eq!(idf.get_inner_map().len(), 1);
}

#[test]
fn scorer_fallback_weight_is_corpus_size_plus_one() {
    let d = doc("a", &["other"]);
    let idf = InverseDocumentFrequency::new();

    let scored = TfIdf::new("missing", &d, &idf, 7);

    assert_eq!(scored.weight, Weight { num: 8, den: 1 });
    assert_eq!(scored.term_count, 0);
}

#[test]
fn scorer_lowercases_the_query() {
    let d = doc("a", &["abc"]);
    let mut idf = InverseDocumentFrequency::new();
    let corpus = vec![doc("a", &["abc"])];
    idf.update("abc", &corpus);

    let scored = TfIdf::new("ABC", &d, &idf, 1);

    assert_eq!(scored.term_count, 1);
    assert_eq!(scored.weight, Weight { num: 2, den: 2 });
}

#[test]
fn scorer_is_total_and_scores_are_finite_and_non_negative() {
    let docs = vec![
        doc("a", &["t", "t", "u"]),
        doc("b", &[]),
        doc("c", &["v"]),
    ];
    let mut idf = InverseDocumentFrequency::new();
    idf.update("t", &docs);
    idf.update("u", &docs);
    idf.update("v", &docs);

    for d in &docs {
        for term in ["t", "u", "v", "never-indexed", ""] {
            let scored = TfIdf::new(term, d, &idf, docs.len());
            let value =
                scored.term_count as f64 * (scored.weight.num as f64 / scored.weight.den as f64).log10();
            assert!(value.is_finite());
            assert!(value >= 0.0);
            assert!(scored.weight.den >= 1 && scored.weight.num >= scored.weight.den);
        }
    }
}

#[test]
fn empty_corpus_scores_zero() {
    let d = doc("a", &["t"]);
    let idf = InverseDocumentFrequency::new();

    let scored = TfIdf::new("t", &d, &idf, 0);

    // Fallback weight is (0 + 1) / 1 = 1, and log10(1) = 0.
    assert_eq!(scored.weight, Weight { num: 1, den: 1 });
    let value = scored.term_count as f64 * (scored.weight.num as f64 / scored.weight.den as f64).log10();
    assert_eq!(value, 0.0);
}

#[test]
fn ranking_is_descending() {
    let w = Weight { num: 10, den: 1 };
    let results = vec![
        TfIdf { document_path: "three".to_string(), term_count: 3, weight: w },
        TfIdf { document_path: "nine".to_string(), term_count: 9, weight: w },
        TfIdf { document_path: "one".to_string(), term_count: 1, weight: w },
    ];

    let ranked = rank(results);

    let scores: Vec<f64> = ranked
        .iter()
        .map(|r| r.term_count as f64 * (r.weight.num as f64 / r.weight.den as f64).log10())
        .collect();
    assert_eq!(scores, vec![9.0, 3.0, 1.0]);
    assert_eq!(ranked[0].document_path, "nine");
    assert_eq!(ranked[1].document_path, "three");
    assert_eq!(ranked[2].document_path, "one");
}

#[test]
fn query_ranks_documents_by_relevance() {
    let documents = vec![
        ("a".to_string(), "apple apple apple banana".chars().collect::<Vec<char>>()),
        ("b".to_string(), "apple cherry".chars().collect()),
        ("c".to_string(), "cherry cherry".chars().collect()),
    ];
    let index = index_docs(&documents);

    let results = score("apple", &index);

    assert_eq!(results.len(), 3);
    assert_eq!(results[0].document_path, "a");
    assert_eq!(results[0].term_count, 3);
    assert_eq!(results[1].document_path, "b");
    assert_eq!(results[1].term_count, 1);
    assert_eq!(results[2].document_path, "c");
    assert_eq!(results[2].term_count, 0);
}

#[test]
fn indexing_weighs_every_term_over_the_whole_corpus() {
    let documents = vec![
        ("a".to_string(), "x y".chars().collect::<Vec<char>>()),
        ("b".to_string(), "x".chars().collect()),
    ];
    let index = index_docs(&documents);

    let idf = &index.inverse_document_frequency;
    // `x` is in both documents: (2+1)/(2+1); `y` in one: (2+1)/(1+1).
    assert_eq!(idf.get("x").unwrap(), Weight { num: 3, den: 3 });
    assert_eq!(idf.get("y").unwrap(), Weight { num: 3, den: 2 });
    assert_eq!(idf.get("z"), None);
}
