//! Scoring one document against a query term, and building a whole index.

use vstd::prelude::*;
use crate::inverse_doc_frequency::{idf_weight, InverseDocumentFrequency, Weight};
use crate::rank::{rank, sorted_descending};
use crate::term_frequency::TermFrequency;
use crate::tokenizer::{tokens_of, Tokenizer};

verus! {

pub uninterp spec fn lower_of(s: Seq<char>) -> Seq<char>;

/// Relies on str::to_lowercase: the result depends on the characters alone.
#[verifier::external_body]
fn lowercase(s: &str) -> (r: String)
    ensures
        r@ == lower_of(s@),
{
    s.to_lowercase()
}

/// One document's relevance against one query term.
///
/// The numeric score is `term_count * log10(weight.num / weight.den)`; the
/// factors are held exactly and the logarithm is left to presentation code.
/// Since a well-formed weight is at least one, that score is always finite
/// and never negative.
pub struct TfIdf {
    /// Identifies the scored document.
    pub document_path: String,
    /// How often the lowercased query term occurs in the document.
    pub term_count: u64,
    /// The term's smoothed corpus weight, or the fallback for unseen terms.
    pub weight: Weight,
}

/// The weight assumed for a term the corpus never produced: what one new
/// document containing it would get, `(docs_count + 1) / 1`.
pub open spec fn fallback_weight(docs_count: nat) -> Weight {
    Weight { num: (docs_count + 1) as u64, den: 1u64 }
}

/// What scoring `term` against one document returns: counts and weights are
/// looked up under the lowercased term, a missing count is zero, and a
/// missing weight falls back to `fallback_weight`.
pub open spec fn spec_tf_idf(
    term: Seq<char>,
    doc: TermFrequency,
    weights: Map<Seq<char>, Weight>,
    docs_count: nat,
) -> TfIdf {
    let key = lower_of(term);
    TfIdf {
        document_path: doc.document_path,
        term_count: if doc.counts().contains_key(key) {
            doc.counts()[key]
        } else {
            0u64
        },
        weight: if weights.contains_key(key) {
            weights[key]
        } else {
            fallback_weight(docs_count)
        },
    }
}

impl TfIdf {
    /// Scores `term` against one document of a corpus of `docs_count`
    /// documents whose weights are `idf`. Total: every term of every
    /// document gets a score, and the resulting weight ratio is at least
    /// one, so the numeric score is finite and non-negative.
    pub fn new(
        term: &str,
        doc: &TermFrequency,
        idf: &InverseDocumentFrequency,
        docs_count: usize,
    ) -> (r: TfIdf)
        requires
            doc.wf(),
            idf.wf(),
            docs_count + 1 <= u64::MAX,
        ensures
            r == spec_tf_idf(term@, *doc, idf.weights_map(), docs_count as nat),
            r.weight.wf(),
    {
        let lowercase_term = lowercase(term);
        let term_count = doc.count_of(lowercase_term.as_str());
        let weight = match idf.get(lowercase_term.as_str()) {
            Some(w) => w,
            None => Weight { num: docs_count as u64 + 1, den: 1 },
        };
        proof {
            if idf.weights_map().contains_key(lower_of(term@)) {
                crate::assoc::lemma_assoc_map_dom(idf.weights@, lower_of(term@));
                let i = choose|i: int|
                    0 <= i < idf.weights@.len() && idf.weights@[i].0@ == lower_of(term@);
                crate::assoc::lemma_assoc_map_index(idf.weights@, i);
                assert(idf.weights_map()[lower_of(term@)].wf());
            }
        }
        TfIdf { document_path: doc.document_path.clone(), term_count, weight }
    }
}

/// How often token `t` occurs in `toks`.
pub open spec fn occurrences(toks: Seq<Seq<char>>, t: Seq<char>) -> nat
    decreases toks.len(),
{
    if toks.len() == 0 {
        0
    } else {
        occurrences(toks.drop_last(), t) + if toks.last() == t {
            1nat
        } else {
            0nat
        }
    }
}

pub proof fn lemma_occurrences_le(toks: Seq<Seq<char>>, t: Seq<char>)
    ensures
        occurrences(toks, t) <= toks.len(),
    decreases toks.len(),
{
    if toks.len() > 0 {
        lemma_occurrences_le(toks.drop_last(), t);
    }
}

pub proof fn lemma_occurrences_absent(toks: Seq<Seq<char>>, t: Seq<char>)
    requires
        !toks.contains(t),
    ensures
        occurrences(toks, t) == 0,
    decreases toks.len(),
{
    if toks.len() > 0 {
        assert(forall|i: int| 0 <= i < toks.len() - 1 ==> toks.drop_last()[i] == toks[i]);
        assert(!toks.drop_last().contains(t));
        lemma_occurrences_absent(toks.drop_last(), t);
        assert(toks[toks.len() - 1] != t);
    }
}

/// `m` is exactly the occurrence-count map of the token sequence `toks`.
pub open spec fn counts_tokens(m: Map<Seq<char>, u64>, toks: Seq<Seq<char>>) -> bool {
    &&& forall|t: Seq<char>| #[trigger] m.contains_key(t) <==> toks.contains(t)
    &&& forall|t: Seq<char>| m.contains_key(t) ==> #[trigger] m[t] == occurrences(toks, t)
}

/// Counting one more token keeps the count map exact.
proof fn lemma_counts_tokens_update(m: Map<Seq<char>, u64>, toks: Seq<Seq<char>>, t: Seq<char>)
    requires
        counts_tokens(m, toks),
        m.contains_key(t) ==> m[t] < u64::MAX,
    ensures
        counts_tokens(
            m.insert(
                t,
                if m.contains_key(t) {
                    (m[t] + 1) as u64
                } else {
                    1u64
                },
            ),
            toks.push(t),
        ),
{
    let toks2 = toks.push(t);
    assert(toks2.drop_last() =~= toks);
    assert(toks2.last() == t);
    assert forall|x: Seq<char>| #[trigger] toks2.contains(x) implies (toks.contains(x) || x
        == t) by {
        let i = choose|i: int| 0 <= i < toks2.len() && toks2[i] == x;
        if i < toks.len() {
            assert(toks[i] == x);
        }
    }
    assert forall|x: Seq<char>| toks.contains(x) implies #[trigger] toks2.contains(x) by {
        let i = choose|i: int| 0 <= i < toks.len() && toks[i] == x;
        assert(toks2[i] == x);
    }
    assert(toks2[toks.len() as int] == t);
    assert(toks2.contains(t));
    if !m.contains_key(t) {
        lemma_occurrences_absent(toks, t);
    }
}

/// A whole searchable corpus: one term-frequency record per document, in
/// traversal order, and the weight map derived from exactly those records.
pub struct Index {
    /// One record per indexed document.
    pub term_frequencies: Vec<TermFrequency>,
    /// The corpus-wide weight map.
    pub inverse_document_frequency: InverseDocumentFrequency,
}

impl Index {
    pub open spec fn wf(&self) -> bool {
        &&& forall|i: int| 0 <= i < self.term_frequencies@.len() ==> (
        #[trigger] self.term_frequencies@[i]).wf()
        &&& self.inverse_document_frequency.wf()
    }
}

/// Some document of `docs` contains `t`.
pub open spec fn term_in_corpus(t: Seq<char>, docs: Seq<TermFrequency>) -> bool {
    exists|k: int| 0 <= k < docs.len() && (#[trigger] docs[k]).counts().contains_key(t)
}

/// The weight map `idf` is exactly the one derived from the corpus `docs`:
/// it weighs precisely the terms occurring somewhere in the corpus, each by
/// the smoothed formula over the whole corpus.
pub open spec fn idf_of_corpus(
    idf: Map<Seq<char>, Weight>,
    docs: Seq<TermFrequency>,
) -> bool {
    &&& forall|t: Seq<char>| #[trigger] idf.contains_key(t) <==> term_in_corpus(t, docs)
    &&& forall|t: Seq<char>| idf.contains_key(t) ==> #[trigger] idf[t] == idf_weight(t, docs)
}

/// Builds an index over `documents`, each a document path with its raw text:
/// every document is tokenized into a term-frequency record, and once all
/// records exist the weight of every term of every document is computed over
/// the full corpus.
pub fn index_docs(documents: &Vec<(String, Vec<char>)>) -> (r: Index)
    requires
        documents@.len() < u64::MAX,
    ensures
        r.wf(),
        r.term_frequencies@.len() == documents@.len(),
        forall|i: int| 0 <= i < documents@.len() ==> (#[trigger] r.term_frequencies@[i]).document_path
            == documents@[i].0,
        forall|i: int| 0 <= i < documents@.len() ==> counts_tokens(
            (#[trigger] r.term_frequencies@[i]).counts(),
            tokens_of(documents@[i].1@),
        ),
        idf_of_corpus(r.inverse_document_frequency.weights_map(), r.term_frequencies@),
{
    let mut tf_docs: Vec<TermFrequency> = Vec::new();
    let mut di: usize = 0;
    while di < documents.len()
        invariant
            0 <= di <= documents@.len(),
            tf_docs@.len() == di,
            forall|i: int| 0 <= i < di ==> (#[trigger] tf_docs@[i]).wf(),
            forall|i: int| 0 <= i < di ==> (#[trigger] tf_docs@[i]).document_path
                == documents@[i].0,
            forall|i: int| 0 <= i < di ==> counts_tokens(
                (#[trigger] tf_docs@[i]).counts(),
                tokens_of(documents@[i].1@),
            ),
        decreases documents@.len() - di,
    {
        let document = &documents[di];
        let mut tf = TermFrequency::new(document.0.clone());
        let chars: &[char] = document.1.as_slice();
        let mut tokenizer = Tokenizer::from_chars(chars);
        let ghost all_tokens = tokens_of(chars@);
        let ghost mut consumed: Seq<Seq<char>> = Seq::empty();
        proof {
            assert(consumed + tokens_of(tokenizer.remaining()) =~= all_tokens);
        }
        loop
            invariant
                tokenizer.wf(),
                tokenizer.spec_input() == chars@,
                tf.wf(),
                tf.document_path == document.0,
                consumed.len() <= tokenizer.pos,
                consumed + tokens_of(tokenizer.remaining()) == all_tokens,
                counts_tokens(tf.counts(), consumed),
            ensures
                tf.wf(),
                tf.document_path == document.0,
                counts_tokens(tf.counts(), all_tokens),
            decreases chars@.len() - tokenizer.pos,
        {
            let ghost pos_before = tokenizer.pos;
            let ghost rem_before = tokenizer.remaining();
            match tokenizer.next_token() {
                Some(token) => {
                    proof {
                        assert(usize::MAX <= u64::MAX);
                        assert(tokens_of(rem_before)[0] == (consumed + tokens_of(rem_before))[
                            consumed.len() as int]);
                        if tf.counts().contains_key(token@) {
                            lemma_occurrences_le(consumed, token@);
                        }
                        lemma_counts_tokens_update(tf.counts(), consumed, token@);
                    }
                    tf.update(token.as_str());
                    proof {
                        consumed = consumed.push(token@);
                        assert(consumed + tokens_of(tokenizer.remaining()) =~= all_tokens);
                    }
                },
                None => {
                    proof {
                        assert(consumed =~= all_tokens);
                    }
                    break;
                },
            }
        }
        tf_docs.push(tf);
        di = di + 1;
    }

    let ghost tfs = tf_docs@;
    let mut idf = InverseDocumentFrequency::new();
    let mut d: usize = 0;
    while d < tf_docs.len()
        invariant
            0 <= d <= tf_docs@.len(),
            tf_docs@ == tfs,
            tfs.len() < u64::MAX,
            forall|i: int| 0 <= i < tfs.len() ==> (#[trigger] tfs[i]).wf(),
            idf.wf(),
            forall|t: Seq<char>| #[trigger] idf.weights_map().contains_key(t) ==> term_in_corpus(
                t,
                tfs,
            ),
            forall|t: Seq<char>| idf.weights_map().contains_key(t)
                ==> #[trigger] idf.weights_map()[t] == idf_weight(t, tfs),
            forall|j: int, t: Seq<char>| 0 <= j < d && (#[trigger] tfs[j]).counts().contains_key(t)
                ==> #[trigger] idf.weights_map().contains_key(t),
        decreases tf_docs@.len() - d,
    {
        let entry_count = tf_docs[d].term_freq.len();
        let mut e: usize = 0;
        while e < entry_count
            invariant
                0 <= d < tf_docs@.len(),
                0 <= e <= entry_count,
                tf_docs@ == tfs,
                tfs.len() < u64::MAX,
                entry_count == tfs[d as int].term_freq@.len(),
                forall|i: int| 0 <= i < tfs.len() ==> (#[trigger] tfs[i]).wf(),
                idf.wf(),
                forall|t: Seq<char>| #[trigger] idf.weights_map().contains_key(t)
                    ==> term_in_corpus(t, tfs),
                forall|t: Seq<char>| idf.weights_map().contains_key(t)
                    ==> #[trigger] idf.weights_map()[t] == idf_weight(t, tfs),
                forall|j: int, t: Seq<char>| 0 <= j < d && (#[trigger] tfs[j]).counts().contains_key(
                    t,
                ) ==> #[trigger] idf.weights_map().contains_key(t),
                forall|k: int| 0 <= k < e ==> idf.weights_map().contains_key(
                    (#[trigger] tfs[d as int].term_freq@[k]).0@,
                ),
            decreases entry_count - e,
        {
            let term = &tf_docs[d].term_freq[e].0;
            proof {
                crate::assoc::lemma_assoc_map_index(tfs[d as int].term_freq@, e as int);
                assert(tfs[d as int].counts().contains_key(term@));
                assert(term_in_corpus(term@, tfs));
            }
            idf.update(term.as_str(), &tf_docs);
            e = e + 1;
        }
        proof {
            assert forall|t: Seq<char>| (#[trigger] tfs[d as int].counts().contains_key(t))
                implies idf.weights_map().contains_key(t) by {
                crate::assoc::lemma_assoc_map_dom(tfs[d as int].term_freq@, t);
                let k = choose|k: int|
                    0 <= k < tfs[d as int].term_freq@.len() && tfs[d as int].term_freq@[k].0@ == t;
                assert(idf.weights_map().contains_key(tfs[d as int].term_freq@[k].0@));
            }
        }
        d = d + 1;
    }

    Index { term_frequencies: tf_docs, inverse_document_frequency: idf }
}

/// The data a scored record carries, free of object identity: the
/// document's characters, the term count, and the exact weight.
pub open spec fn tfidf_views(s: Seq<TfIdf>) -> Seq<(Seq<char>, u64, Weight)> {
    Seq::new(s.len(), |i: int| (s[i].document_path@, s[i].term_count, s[i].weight))
}

/// What querying an index returns, one record per document, before ordering.
pub open spec fn spec_scores(term: Seq<char>, index: Index) -> Seq<TfIdf> {
    Seq::new(
        index.term_frequencies@.len(),
        |i: int|
            spec_tf_idf(
                term,
                index.term_frequencies@[i],
                index.inverse_document_frequency.weights_map(),
                index.term_frequencies@.len() as nat,
            ),
    )
}

/// Scores every document of the index against `query_term` and returns the
/// records ordered by descending score.
pub fn score(query_term: &str, index: &Index) -> (r: Vec<TfIdf>)
    requires
        index.wf(),
        index.term_frequencies@.len() + 1 <= u64::MAX,
    ensures
        r@.len() == index.term_frequencies@.len(),
        r@.to_multiset() == spec_scores(query_term@, *index).to_multiset(),
        sorted_descending(r@),
{
    let ghost expected = spec_scores(query_term@, *index);
    let n = index.term_frequencies.len();
    let mut scored: Vec<TfIdf> = Vec::new();
    let mut i: usize = 0;
    while i < n
        invariant
            0 <= i <= n,
            n == index.term_frequencies@.len(),
            n + 1 <= u64::MAX,
            index.wf(),
            expected == spec_scores(query_term@, *index),
            scored@.len() == i,
            forall|k: int| 0 <= k < i ==> #[trigger] scored@[k] == expected[k],
            forall|k: int| 0 <= k < i ==> (#[trigger] scored@[k]).weight.wf(),
        decreases n - i,
    {
        scored.push(
            TfIdf::new(
                query_term,
                &index.term_frequencies[i],
                &index.inverse_document_frequency,
                n,
            ),
        );
        i = i + 1;
    }
    proof {
        assert(scored@ =~= expected);
    }
    rank(scored)
}

} // verus!
