//! Corpus-wide smoothed inverse-document-frequency weights.
//!
//! For a corpus of `N` documents of which `df` contain a term, the term's
//! weight is `(N + 1) / (df + 1)` with add-one smoothing on both sides. The
//! ratio is held exactly as its integer numerator and denominator, so the
//! weight of every stored term is pinned down without rounding; evaluating
//! the quotient is left to presentation code.

use vstd::prelude::*;
use crate::assoc::{assoc_map, find_index, lemma_assoc_map_dom, lemma_assoc_map_index,
    lemma_assoc_map_push, unique_keys};
use crate::term_frequency::TermFrequency;

verus! {

/// A smoothed inverse-document-frequency weight, the exact ratio `num / den`.
#[derive(Clone, Copy, Debug, PartialEq, Eq, Structural)]
pub struct Weight {
    /// One more than the number of documents in the corpus.
    pub num: u64,
    /// One more than the number of corpus documents containing the term.
    pub den: u64,
}

impl Weight {
    /// The ratio is at least one: the smoothed containing-document count
    /// never exceeds the smoothed corpus size.
    pub open spec fn wf(self) -> bool {
        1 <= self.den <= self.num
    }
}

/// How many documents of `docs` contain `term`.
pub open spec fn doc_frequency(term: Seq<char>, docs: Seq<TermFrequency>) -> nat
    decreases docs.len(),
{
    if docs.len() == 0 {
        0
    } else {
        doc_frequency(term, docs.drop_last()) + if docs.last().counts().contains_key(term) {
            1nat
        } else {
            0nat
        }
    }
}

pub proof fn lemma_doc_frequency_le(term: Seq<char>, docs: Seq<TermFrequency>)
    ensures
        doc_frequency(term, docs) <= docs.len(),
    decreases docs.len(),
{
    if docs.len() > 0 {
        lemma_doc_frequency_le(term, docs.drop_last());
    }
}

/// The smoothed weight of `term` over the corpus `docs`.
pub open spec fn idf_weight(term: Seq<char>, docs: Seq<TermFrequency>) -> Weight {
    Weight { num: (docs.len() + 1) as u64, den: (doc_frequency(term, docs) + 1) as u64 }
}

/// What one `update` call leaves of a weight map: the first computation for
/// a term wins, later ones change nothing.
pub open spec fn updated_weights(
    m: Map<Seq<char>, Weight>,
    term: Seq<char>,
    docs: Seq<TermFrequency>,
) -> Map<Seq<char>, Weight> {
    if m.contains_key(term) {
        m
    } else {
        m.insert(term, idf_weight(term, docs))
    }
}

/// Updating twice for the same term and the same corpus stores exactly what
/// one update stores.
pub proof fn lemma_update_idempotent(
    m: Map<Seq<char>, Weight>,
    term: Seq<char>,
    docs: Seq<TermFrequency>,
)
    ensures
        updated_weights(updated_weights(m, term, docs), term, docs) == updated_weights(
            m,
            term,
            docs,
        ),
{
}

/// The term-to-weight mapping of a whole corpus.
pub struct InverseDocumentFrequency {
    /// One entry per term whose weight has been computed.
    pub weights: Vec<(String, Weight)>,
}

impl InverseDocumentFrequency {
    /// The mapping this record stands for.
    pub open spec fn weights_map(&self) -> Map<Seq<char>, Weight> {
        assoc_map(self.weights@)
    }

    /// Keys are distinct and every stored weight is a well-formed ratio.
    pub open spec fn wf(&self) -> bool {
        &&& unique_keys(self.weights@)
        &&& forall|i: int| 0 <= i < self.weights@.len() ==> (#[trigger] self.weights@[i].1).wf()
    }

    /// An empty weight map.
    pub fn new() -> (r: Self)
        ensures
            r.wf(),
            r.weights_map() == Map::<Seq<char>, Weight>::empty(),
    {
        Self { weights: Vec::new() }
    }

    /// The stored entries, one per weighted term.
    pub fn get_inner_map(&self) -> (r: &Vec<(String, Weight)>)
        ensures
            r == &self.weights,
    {
        &self.weights
    }

    /// The stored weight of `term`, if one was computed.
    pub fn get(&self, term: &str) -> (r: Option<Weight>)
        requires
            self.wf(),
        ensures
            r == if self.weights_map().contains_key(term@) {
                Some(self.weights_map()[term@])
            } else {
                None::<Weight>
            },
    {
        let key = term.to_owned();
        match find_index(&self.weights, &key) {
            Some(i) => {
                proof {
                    lemma_assoc_map_index(self.weights@, i as int);
                }
                Some(self.weights[i].1)
            },
            None => {
                proof {
                    lemma_assoc_map_dom(self.weights@, term@);
                }
                None
            },
        }
    }

    /// Computes and stores the smoothed weight of `term` over the corpus
    /// `docs`, unless a weight for `term` is already present, in which case
    /// nothing changes.
    pub fn update(&mut self, term: &str, docs: &Vec<TermFrequency>)
        requires
            old(self).wf(),
            docs@.len() < u64::MAX,
            forall|i: int| 0 <= i < docs@.len() ==> (#[trigger] docs@[i]).wf(),
        ensures
            final(self).wf(),
            final(self).weights_map() == updated_weights(
                old(self).weights_map(),
                term@,
                docs@,
            ),
    {
        let key = term.to_owned();
        match find_index(&self.weights, &key) {
            Some(_) => {
                proof {
                    lemma_assoc_map_dom(self.weights@, term@);
                }
            },
            None => {
                proof {
                    lemma_assoc_map_dom(self.weights@, term@);
                }
                let mut matched_docs_count: u64 = 0;
                let mut i: usize = 0;
                while i < docs.len()
                    invariant
                        0 <= i <= docs@.len(),
                        docs@.len() < u64::MAX,
                        matched_docs_count <= i,
                        forall|j: int| 0 <= j < docs@.len() ==> (#[trigger] docs@[j]).wf(),
                        matched_docs_count == doc_frequency(term@, docs@.take(i as int)),
                    decreases docs@.len() - i,
                {
                    proof {
                        assert(docs@.take(i + 1).drop_last() =~= docs@.take(i as int));
                        assert(docs@.take(i + 1).last() == docs@[i as int]);
                    }
                    if docs[i].contains_term(term) {
                        matched_docs_count = matched_docs_count + 1;
                    }
                    i = i + 1;
                }
                proof {
                    assert(docs@.take(docs@.len() as int) =~= docs@);
                }
                let weight = Weight { num: docs.len() as u64 + 1, den: matched_docs_count + 1 };
                proof {
                    lemma_doc_frequency_le(term@, docs@);
                    assert(weight.wf());
                }
                self.weights.push((key, weight));
                proof {
                    lemma_assoc_map_push(old(self).weights@, (key, weight));
                }
            },
        }
    }
}

} // verus!
