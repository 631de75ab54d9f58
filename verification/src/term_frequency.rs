//! Per-document term occurrence counts, tagged with the document's path.

use vstd::prelude::*;
use crate::assoc::{assoc_map, find_index, lemma_assoc_map_dom, lemma_assoc_map_index,
    lemma_assoc_map_push, lemma_assoc_map_update, unique_keys};

verus! {

/// Occurrence counts of every term of one document, keyed case-sensitively
/// by the term exactly as it was handed to `update`.
pub struct TermFrequency {
    /// Identifies the document the counts were taken from.
    pub document_path: String,
    /// One entry per distinct term; the count says how often `update` saw it.
    pub term_freq: Vec<(String, u64)>,
}

impl TermFrequency {
    /// The term-to-count mapping this record stands for.
    pub open spec fn counts(&self) -> Map<Seq<char>, u64> {
        assoc_map(self.term_freq@)
    }

    /// Keys are distinct and every stored count is at least one.
    pub open spec fn wf(&self) -> bool {
        &&& unique_keys(self.term_freq@)
        &&& forall|i: int| 0 <= i < self.term_freq@.len() ==> self.term_freq@[i].1 >= 1
    }

    /// An empty record for the document at `document_path`.
    pub fn new(document_path: String) -> (r: Self)
        ensures
            r.wf(),
            r.document_path == document_path,
            r.counts() == Map::<Seq<char>, u64>::empty(),
    {
        Self { document_path, term_freq: Vec::new() }
    }

    /// Counts one more occurrence of `term`, inserting it with count one if
    /// it was absent.
    pub fn update(&mut self, term: &str)
        requires
            old(self).wf(),
            old(self).counts().contains_key(term@) ==> old(self).counts()[term@] < u64::MAX,
        ensures
            final(self).wf(),
            final(self).document_path == old(self).document_path,
            final(self).counts() == old(self).counts().insert(
                term@,
                if old(self).counts().contains_key(term@) {
                    (old(self).counts()[term@] + 1) as u64
                } else {
                    1u64
                },
            ),
    {
        let key = term.to_owned();
        match find_index(&self.term_freq, &key) {
            Some(i) => {
                proof {
                    lemma_assoc_map_index(self.term_freq@, i as int);
                }
                let pair = self.term_freq.remove(i);
                let count = pair.1;
                self.term_freq.insert(i, (pair.0, count + 1));
                proof {
                    assert(self.term_freq@ =~= old(self).term_freq@.update(
                        i as int,
                        (pair.0, (count + 1) as u64),
                    ));
                    lemma_assoc_map_update(
                        old(self).term_freq@,
                        i as int,
                        (pair.0, (count + 1) as u64),
                    );
                }
            },
            None => {
                self.term_freq.push((key, 1));
                proof {
                    lemma_assoc_map_push(old(self).term_freq@, (key, 1u64));
                    lemma_assoc_map_dom(old(self).term_freq@, term@);
                }
            },
        }
    }

    /// How often `term` was counted; zero when it never was.
    pub fn count_of(&self, term: &str) -> (r: u64)
        requires
            self.wf(),
        ensures
            r == if self.counts().contains_key(term@) {
                self.counts()[term@]
            } else {
                0u64
            },
    {
        let key = term.to_owned();
        match find_index(&self.term_freq, &key) {
            Some(i) => {
                proof {
                    lemma_assoc_map_index(self.term_freq@, i as int);
                }
                self.term_freq[i].1
            },
            None => {
                proof {
                    lemma_assoc_map_dom(self.term_freq@, term@);
                }
                0
            },
        }
    }

    /// Whether `term` was ever counted.
    pub fn contains_term(&self, term: &str) -> (r: bool)
        requires
            self.wf(),
        ensures
            r == self.counts().contains_key(term@),
    {
        let key = term.to_owned();
        let found = find_index(&self.term_freq, &key);
        proof {
            lemma_assoc_map_dom(self.term_freq@, term@);
        }
        found.is_some()
    }
}

} // verus!
