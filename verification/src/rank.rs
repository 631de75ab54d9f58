//! Ordering scored documents by relevance.
//!
//! A `TfIdf` stands for the real score `term_count * log10(num / den)`.
//! Comparing two such scores needs no real arithmetic: since `log10` is
//! increasing, `x * log10(n1/d1) <= y * log10(n2/d2)` holds exactly when
//! `(n1/d1)^x <= (n2/d2)^y`, that is, when
//! `n1^x * d2^y <= n2^y * d1^x` over the integers. `score_le` states the
//! order that way, and `rank` sorts descending with respect to it.

use vstd::prelude::*;
use vstd::multiset::Multiset;
use vstd::arithmetic::power::{lemma_pow1, lemma_pow_adds, lemma_pow_positive, pow};
use vstd::arithmetic::mul::{lemma_mul_inequality, lemma_mul_left_inequality,
    lemma_mul_strict_inequality};
use crate::inverse_doc_frequency::Weight;
use crate::utils::TfIdf;

verus! {

/// The real score of `a` is at most the real score of `b`: the integral form
/// of `a.term_count * log10(a.weight) <= b.term_count * log10(b.weight)`.
pub open spec fn score_le(a: TfIdf, b: TfIdf) -> bool {
    pow(a.weight.num as int, a.term_count as nat) * pow(b.weight.den as int, b.term_count as nat)
        <= pow(b.weight.num as int, b.term_count as nat) * pow(
        a.weight.den as int,
        a.term_count as nat,
    )
}

/// Scores never increase along the sequence.
pub open spec fn sorted_descending(s: Seq<TfIdf>) -> bool {
    forall|i: int, j: int| 0 <= i <= j < s.len() ==> score_le(#[trigger] s[j], #[trigger] s[i])
}

/// Raising both of two positive bases to the same power keeps their order.
proof fn lemma_pow_base_le(d: int, n: int, k: nat)
    requires
        1 <= d <= n,
    ensures
        pow(d, k) <= pow(n, k),
    decreases k,
{
    reveal(pow);
    if k > 0 {
        lemma_pow_base_le(d, n, (k - 1) as nat);
        lemma_pow_positive(d, (k - 1) as nat);
        lemma_pow_positive(n, (k - 1) as nat);
        lemma_mul_inequality(d, n, pow(d, (k - 1) as nat));
        lemma_mul_left_inequality(n, pow(d, (k - 1) as nat), pow(n, (k - 1) as nat));
    }
}

/// Strictly larger bases give strictly larger powers, once the exponent is
/// positive.
proof fn lemma_pow_base_lt(d: int, n: int, k: nat)
    requires
        1 <= d < n,
        k >= 1,
    ensures
        pow(d, k) < pow(n, k),
    decreases k,
{
    reveal(pow);
    if k == 1 {
        lemma_pow1(d);
        lemma_pow1(n);
    } else {
        lemma_pow_base_le(d, n, (k - 1) as nat);
        lemma_pow_positive(d, (k - 1) as nat);
        lemma_pow_positive(n, (k - 1) as nat);
        lemma_mul_left_inequality(d, pow(d, (k - 1) as nat), pow(n, (k - 1) as nat));
        lemma_mul_strict_inequality(d, n, pow(n, (k - 1) as nat));
    }
}

/// Under one shared well-formed weight, the score order is decided by the
/// term counts alone, except that a weight of exactly one makes every score
/// zero and hence all scores equal.
proof fn lemma_score_le_same_weight(a: TfIdf, b: TfIdf)
    requires
        a.weight == b.weight,
        a.weight.wf(),
    ensures
        score_le(a, b) <==> (a.weight.num == a.weight.den || a.term_count <= b.term_count),
{
    let n = a.weight.num as int;
    let d = a.weight.den as int;
    let x = a.term_count as nat;
    let y = b.term_count as nat;
    lemma_pow_positive(n, x);
    lemma_pow_positive(n, y);
    lemma_pow_positive(d, x);
    lemma_pow_positive(d, y);
    if n == d {
        assert(pow(n, x) * pow(d, y) == pow(n, y) * pow(d, x)) by (nonlinear_arith)
            requires
                pow(n, x) == pow(d, x),
                pow(n, y) == pow(d, y),
        {};
    } else {
        if x <= y {
            let k = (y - x) as nat;
            lemma_pow_adds(d, x, k);
            lemma_pow_adds(n, x, k);
            lemma_pow_base_le(d, n, k);
            assert(pow(n, x) * pow(d, y) <= pow(n, y) * pow(d, x)) by (nonlinear_arith)
                requires
                    pow(d, y) == pow(d, x) * pow(d, k),
                    pow(n, y) == pow(n, x) * pow(n, k),
                    pow(d, k) <= pow(n, k),
                    pow(n, x) > 0,
                    pow(d, x) > 0,
            {};
        } else {
            let k = (x - y) as nat;
            lemma_pow_adds(d, y, k);
            lemma_pow_adds(n, y, k);
            lemma_pow_base_lt(d, n, k);
            lemma_pow_positive(d, k);
            assert(pow(n, x) * pow(d, y) > pow(n, y) * pow(d, x)) by (nonlinear_arith)
                requires
                    pow(d, x) == pow(d, y) * pow(d, k),
                    pow(n, x) == pow(n, y) * pow(n, k),
                    pow(d, k) < pow(n, k),
                    pow(n, y) > 0,
                    pow(d, y) > 0,
                    pow(d, k) > 0,
            {};
        }
    }
}

/// Decides `score_le` for two records sharing one well-formed weight.
fn score_le_exec(a: &TfIdf, b: &TfIdf) -> (r: bool)
    requires
        a.weight == b.weight,
        a.weight.wf(),
    ensures
        r == score_le(*a, *b),
{
    proof {
        lemma_score_le_same_weight(*a, *b);
    }
    a.weight.num == a.weight.den || a.term_count <= b.term_count
}

/// Sorts scored documents so that scores never increase along the result;
/// the result holds exactly the given records. All records must carry the
/// same well-formed weight, which is what scoring one query term against one
/// corpus produces.
pub fn rank(results: Vec<TfIdf>) -> (r: Vec<TfIdf>)
    requires
        forall|i: int, j: int| 0 <= i < results@.len() && 0 <= j < results@.len() ==> (
        #[trigger] results@[i]).weight == (#[trigger] results@[j]).weight,
        forall|i: int| 0 <= i < results@.len() ==> (#[trigger] results@[i]).weight.wf(),
    ensures
        r@.len() == results@.len(),
        r@.to_multiset() == results@.to_multiset(),
        sorted_descending(r@),
{
    let ghost w0: Weight = if results@.len() > 0 {
        results@[0].weight
    } else {
        arbitrary()
    };
    let mut rem = results;
    let mut out: Vec<TfIdf> = Vec::new();
    proof {
        broadcast use vstd::seq_lib::group_to_multiset_ensures;

        assert(out@.to_multiset().add(rem@.to_multiset()) =~= results@.to_multiset());
    }
    while rem.len() > 0
        invariant
            out@.to_multiset().add(rem@.to_multiset()) == results@.to_multiset(),
            sorted_descending(out@),
            forall|i: int, j: int| 0 <= i < rem@.len() && 0 <= j < out@.len() ==> score_le(
                #[trigger] rem@[i],
                #[trigger] out@[j],
            ),
            forall|i: int| 0 <= i < rem@.len() ==> (#[trigger] rem@[i]).weight == w0,
            forall|i: int| 0 <= i < out@.len() ==> (#[trigger] out@[i]).weight == w0,
            rem@.len() > 0 || out@.len() > 0 ==> w0.wf(),
        decreases rem@.len(),
    {
        let mut m: usize = 0;
        let mut i: usize = 1;
        while i < rem.len()
            invariant
                0 < rem@.len(),
                0 <= m < i,
                1 <= i <= rem@.len(),
                forall|k: int| 0 <= k < i ==> score_le(#[trigger] rem@[k], rem@[m as int]),
                forall|k: int| 0 <= k < rem@.len() ==> (#[trigger] rem@[k]).weight == w0,
                w0.wf(),
            decreases rem@.len() - i,
        {
            if score_le_exec(&rem[m], &rem[i]) {
                proof {
                    assert forall|k: int| 0 <= k < i + 1 implies score_le(
                        #[trigger] rem@[k],
                        rem@[i as int],
                    ) by {
                        lemma_score_le_same_weight(rem@[k], rem@[m as int]);
                        lemma_score_le_same_weight(rem@[m as int], rem@[i as int]);
                        lemma_score_le_same_weight(rem@[k], rem@[i as int]);
                    }
                }
                m = i;
            } else {
                proof {
                    assert forall|k: int| 0 <= k < i + 1 implies score_le(
                        #[trigger] rem@[k],
                        rem@[m as int],
                    ) by {
                        if k == i {
                            lemma_score_le_same_weight(rem@[m as int], rem@[i as int]);
                            lemma_score_le_same_weight(rem@[i as int], rem@[m as int]);
                        }
                    }
                }
            }
            i = i + 1;
        }
        let ghost rem_before = rem@;
        let ghost out_before = out@;
        let x = rem.remove(m);
        out.push(x);
        proof {
            broadcast use vstd::seq_lib::group_to_multiset_ensures;

            assert(rem@ == rem_before.remove(m as int));
            assert(out@ == out_before.push(x));
            assert(out@.to_multiset().add(rem@.to_multiset()) =~= results@.to_multiset());
            assert forall|p: int, q: int| 0 <= p <= q < out@.len() implies score_le(
                #[trigger] out@[q],
                #[trigger] out@[p],
            ) by {
                if q < out_before.len() {
                    assert(out@[p] == out_before[p]);
                    assert(out@[q] == out_before[q]);
                } else {
                    assert(out@[q] == x);
                }
            }
            assert forall|p: int, q: int| 0 <= p < rem@.len() && 0 <= q < out@.len() implies
                score_le(#[trigger] rem@[p], #[trigger] out@[q]) by {
                let p0 = if p < m { p } else { p + 1 };
                assert(rem@[p] == rem_before[p0]);
                if q < out_before.len() {
                    assert(out@[q] == out_before[q]);
                } else {
                    assert(out@[q] == x);
                    assert(score_le(rem_before[p0], rem_before[m as int]));
                }
            }
        }
    }
    proof {
        broadcast use vstd::seq_lib::group_to_multiset_ensures;

        assert(rem@.to_multiset() =~= Multiset::<TfIdf>::empty());
        assert(out@.to_multiset().add(Multiset::<TfIdf>::empty()) =~= out@.to_multiset());
        assert(out@.to_multiset().len() == out@.len());
        assert(results@.to_multiset().len() == results@.len());
    }
    out
}

} // verus!
