use trustami::codec::{deserialize, serialize};
use trustami::utils::{index_docs, score};

fn sample_index() -> trustami::utils::Index {
    let documents = vec![
        ("docs/alpha.xml".to_string(), "apple apple banana 42".chars().collect::<Vec<char>>()),
        ("docs/beta.xml".to_string(), "banana cherry!".chars().collect()),
        ("docs/gamma.xml".to_string(), "".chars().collect()),
    ];
    index_docs(&documents)
}

#[test]
fn serialize_then_deserialize_recovers_the_index() {
    let index = sample_index();

    let encoded = serialize(&index);
    let decoded = deserialize(&encoded).expect("a serialized index must deserialize");

    assert_eq!(
        decoded.term_frequencies.len(),
        index.term_frequencies.len()
    );
    for (a, b) in index.term_frequencies.iter().zip(decoded.term_frequencies.iter()) {
        assert_eq!(a.document_path, b.document_path);
        assert_eq!(a.term_freq, b.term_freq);
    }
    assert_eq!(
        index.inverse_document_frequency.weights,
        decoded.inverse_document_frequency.weights
    );
}

#[test]
fn round_trip_preserves_scoring() {
    let index = sample_index();
    let encoded = serialize(&index);
    let decoded = deserialize(&encoded).unwrap();

    for query in ["apple", "banana", "cherry", "42", "absent"] {
        let before = score(query, &index);
        let after = score(query, &decoded);
        assert_eq!(before.len(), after.len());
        for (x, y) in before.iter().zip(after.iter()) {
            assert_eq!(x.document_path, y.document_path);
            assert_eq!(x.term_count, y.term_count);
            assert_eq!(x.weight, y.weight);
        }
    }
}

#[test]
fn empty_index_round_trips() {
    let index = index_docs(&Vec::new());

    let encoded = serialize(&index);
    assert_eq!(encoded.iter().collect::<String>(), "0;0;");
    let decoded = deserialize(&encoded).unwrap();

    assert!(decoded.term_frequencies.is_empty());
    assert!(decoded.inverse_document_frequency.weights.is_empty());
}

#[test]
fn deserialize_rejects_garbage() {
    let cases = [
        "",
        "x",
        ";",
        "02;",
        "1;",
        "99999999999999999999999999;",
        "0;0",
        "0;1;",
    ];
    for case in cases {
        let chars: Vec<char> = case.chars().collect();
        assert!(deserialize(&chars).is_none(), "accepted {:?}", case);
    }
}

#[test]
fn deserialize_rejects_trailing_characters() {
    let index = sample_index();
    let mut encoded = serialize(&index);
    encoded.push(' ');

    assert!(deserialize(&encoded).is_none());
}

#[test]
fn deserialize_rejects_duplicate_terms() {
    // One document, two entries carrying the same term "a" with count 1:
    // path "d" then 2 entries of (1:a 1;).
    let text = "1;1;d2;1;a1;1;a1;0;";
    let chars: Vec<char> = text.chars().collect();

    assert!(deserialize(&chars).is_none());
}

#[test]
fn deserialize_rejects_zero_counts_and_bad_weights() {
    // A record entry with count zero.
    let zero_count = "1;1;d1;1;a0;0;";
    // A weight whose denominator exceeds its numerator.
    let bad_weight = "0;1;1;a1;2;";
    // A weight with denominator zero.
    let zero_den = "0;1;1;a1;0;";
    for case in [zero_count, bad_weight, zero_den] {
        let chars: Vec<char> = case.chars().collect();
        assert!(deserialize(&chars).is_none(), "accepted {:?}", case);
    }
}

#[test]
fn round_trip_function_recovers_the_index() {
    let index = sample_index();

    let again = trustami::codec::round_trip(&index);

    assert_eq!(index.term_frequencies.len(), again.term_frequencies.len());
    for (a, b) in index.term_frequencies.iter().zip(again.term_frequencies.iter()) {
        assert_eq!(a.document_path, b.document_path);
        assert_eq!(a.term_freq, b.term_freq);
    }
    assert_eq!(
        index.inverse_document_frequency.weights,
        again.inverse_document_frequency.weights
    );
}
