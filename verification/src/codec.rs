//! A lossless textual encoding of a built index.
//!
//! The format is length-prefixed throughout: a number is its canonical
//! decimal numeral followed by `;`, and a string is the number of its
//! characters followed by the characters themselves. An index is the number
//! of documents, each document's record (path, entry count, entries), the
//! number of weighted terms, and the weight entries (term, numerator,
//! denominator). Both directions are verified: `serialize` emits exactly
//! `spec_serialize`, and `deserialize` accepts exactly the well-formed
//! serializations and recovers the index they came from.

use vstd::prelude::*;
use vstd::string::StrSliceExecFns;
use vstd::slice::{slice_index_get, slice_subrange};
use crate::inverse_doc_frequency::Weight;
use crate::text::chars_to_string;
use crate::term_frequency::TermFrequency;
use crate::utils::Index;

verus! {

pub open spec fn is_digit_char(c: char) -> bool {
    c == '0' || c == '1' || c == '2' || c == '3' || c == '4' || c == '5' || c == '6' || c == '7'
        || c == '8' || c == '9'
}

pub open spec fn digit_char(d: int) -> char {
    if d == 0 {
        '0'
    } else if d == 1 {
        '1'
    } else if d == 2 {
        '2'
    } else if d == 3 {
        '3'
    } else if d == 4 {
        '4'
    } else if d == 5 {
        '5'
    } else if d == 6 {
        '6'
    } else if d == 7 {
        '7'
    } else if d == 8 {
        '8'
    } else {
        '9'
    }
}

pub open spec fn digit_val(c: char) -> nat {
    if c == '0' {
        0
    } else if c == '1' {
        1
    } else if c == '2' {
        2
    } else if c == '3' {
        3
    } else if c == '4' {
        4
    } else if c == '5' {
        5
    } else if c == '6' {
        6
    } else if c == '7' {
        7
    } else if c == '8' {
        8
    } else {
        9
    }
}

/// The canonical decimal numeral of `n`: no leading zero except for `0`.
pub open spec fn dec(n: nat) -> Seq<char>
    decreases n,
{
    if n < 10 {
        seq![digit_char(n as int)]
    } else {
        dec(n / 10).push(digit_char((n % 10) as int))
    }
}

/// The numeric value of a digit sequence.
pub open spec fn val(s: Seq<char>) -> nat
    decreases s.len(),
{
    if s.len() == 0 {
        0
    } else {
        10 * val(s.drop_last()) + digit_val(s.last())
    }
}

/// A serialized number: the canonical numeral closed by `;`.
pub open spec fn ser_num(n: nat) -> Seq<char> {
    dec(n).push(';')
}

/// A serialized string: its length, then its characters verbatim.
pub open spec fn ser_str(s: Seq<char>) -> Seq<char> {
    ser_num(s.len()) + s
}

pub open spec fn ser_count_entry(e: (String, u64)) -> Seq<char> {
    ser_str(e.0@) + ser_num(e.1 as nat)
}

pub open spec fn ser_count_entries(s: Seq<(String, u64)>) -> Seq<char>
    decreases s.len(),
{
    if s.len() == 0 {
        Seq::empty()
    } else {
        ser_count_entry(s.first()) + ser_count_entries(s.drop_first())
    }
}

pub open spec fn ser_tf(tf: TermFrequency) -> Seq<char> {
    ser_str(tf.document_path@) + ser_num(tf.term_freq@.len()) + ser_count_entries(tf.term_freq@)
}

pub open spec fn ser_tfs(s: Seq<TermFrequency>) -> Seq<char>
    decreases s.len(),
{
    if s.len() == 0 {
        Seq::empty()
    } else {
        ser_tf(s.first()) + ser_tfs(s.drop_first())
    }
}

pub open spec fn ser_weight_entry(e: (String, Weight)) -> Seq<char> {
    ser_str(e.0@) + ser_num(e.1.num as nat) + ser_num(e.1.den as nat)
}

pub open spec fn ser_weight_entries(s: Seq<(String, Weight)>) -> Seq<char>
    decreases s.len(),
{
    if s.len() == 0 {
        Seq::empty()
    } else {
        ser_weight_entry(s.first()) + ser_weight_entries(s.drop_first())
    }
}

/// The full serialization of an index.
pub open spec fn spec_serialize(ix: Index) -> Seq<char> {
    ser_num(ix.term_frequencies@.len()) + ser_tfs(ix.term_frequencies@) + ser_num(
        ix.inverse_document_frequency.weights@.len(),
    ) + ser_weight_entries(ix.inverse_document_frequency.weights@)
}

/// Every length occurring in the index fits a `u64`, as it does for any
/// index that exists at run time.
pub open spec fn bounded_index(ix: Index) -> bool {
    &&& ix.term_frequencies@.len() <= u64::MAX
    &&& forall|i: int| 0 <= i < ix.term_frequencies@.len() ==> {
        let tf = #[trigger] ix.term_frequencies@[i];
        &&& tf.document_path@.len() <= u64::MAX
        &&& tf.term_freq@.len() <= u64::MAX
        &&& forall|j: int| 0 <= j < tf.term_freq@.len() ==> (#[trigger] tf.term_freq@[j]).0@.len()
            <= u64::MAX
    }
    &&& ix.inverse_document_frequency.weights@.len() <= u64::MAX
    &&& forall|j: int| 0 <= j < ix.inverse_document_frequency.weights@.len() ==> (
    #[trigger] ix.inverse_document_frequency.weights@[j]).0@.len() <= u64::MAX
}

/// The shape of every canonical numeral: at least one digit, all digits,
/// no leading zero unless the numeral is `0`, and its value is the number.
pub proof fn lemma_dec(v: nat)
    ensures
        dec(v).len() >= 1,
        forall|i: int| 0 <= i < dec(v).len() ==> is_digit_char(#[trigger] dec(v)[i]),
        dec(v)[0] != '0' || dec(v).len() == 1,
        val(dec(v)) == v,
    decreases v,
{
    if v < 10 {
        assert(dec(v) == seq![digit_char(v as int)]);
        assert(val(dec(v)) == 10 * val(dec(v).drop_last()) + digit_val(dec(v).last()));
        assert(dec(v).drop_last() =~= Seq::<char>::empty());
    } else {
        lemma_dec(v / 10);
        let d = dec(v / 10);
        let w = dec(v);
        assert(w == d.push(digit_char((v % 10) as int)));
        assert(w.drop_last() =~= d);
        assert(w[0] == d[0]);
        assert(v / 10 >= 1);
        if d.len() == 1 {
            if v / 10 < 10 {
                assert(d == seq![digit_char((v / 10) as int)]);
            } else {
                lemma_dec(v / 10 / 10);
                assert(d == dec(v / 10 / 10).push(digit_char(((v / 10) % 10) as int)));
                assert(false);
            }
        }
        assert(val(w) == 10 * val(d) + digit_val(digit_char((v % 10) as int)));
    }
}

/// A digit sequence without a leading zero is the canonical numeral of its
/// value.
pub proof fn lemma_dec_of_val(s: Seq<char>)
    requires
        s.len() >= 1,
        forall|i: int| 0 <= i < s.len() ==> is_digit_char(#[trigger] s[i]),
        s[0] != '0' || s.len() == 1,
    ensures
        dec(val(s)) == s,
    decreases s.len(),
{
    if s.len() == 1 {
        assert(s.drop_last() =~= Seq::<char>::empty());
        assert(val(s.drop_last()) == 0);
        assert(val(s) == 10 * val(s.drop_last()) + digit_val(s.last()));
        assert(s.last() == s[0]);
        assert(val(s) == digit_val(s[0]));
        assert(val(s) < 10);
        assert(dec(val(s)) == seq![digit_char(digit_val(s[0]) as int)]);
        assert(digit_char(digit_val(s[0]) as int) == s[0]);
        assert(dec(val(s)) =~= s);
    } else {
        let d = s.drop_last();
        assert(d[0] == s[0]);
        assert(forall|i: int| 0 <= i < d.len() ==> d[i] == #[trigger] s[i]);
        lemma_dec_of_val(d);
        lemma_val_pos(d);
        assert(val(s) == 10 * val(d) + digit_val(s.last()));
        assert(val(s) >= 10);
        assert(val(s) / 10 == val(d) && val(s) % 10 == digit_val(s.last())) by (nonlinear_arith)
            requires
                val(s) == 10 * val(d) + digit_val(s.last()),
                digit_val(s.last()) < 10,
        {};
        assert(dec(val(s)) == dec(val(d)).push(digit_char(digit_val(s.last()) as int)));
        assert(dec(val(s)) =~= s);
    }
}

/// A nonempty digit sequence that does not start with `0` has value at
/// least one.
pub proof fn lemma_val_pos(s: Seq<char>)
    requires
        s.len() >= 1,
        forall|i: int| 0 <= i < s.len() ==> is_digit_char(#[trigger] s[i]),
        s[0] != '0',
    ensures
        val(s) >= 1,
    decreases s.len(),
{
    if s.len() == 1 {
        assert(s.drop_last() =~= Seq::<char>::empty());
    } else {
        let d = s.drop_last();
        assert(d[0] == s[0]);
        assert(forall|i: int| 0 <= i < d.len() ==> d[i] == #[trigger] s[i]);
        lemma_val_pos(d);
    }
}

pub proof fn lemma_ser_count_entries_push(s: Seq<(String, u64)>, e: (String, u64))
    ensures
        ser_count_entries(s.push(e)) == ser_count_entries(s) + ser_count_entry(e),
    decreases s.len(),
{
    let t = s.push(e);
    assert(ser_count_entries(t) == ser_count_entry(t.first()) + ser_count_entries(t.drop_first()));
    if s.len() == 0 {
        assert(t.drop_first() =~= Seq::<(String, u64)>::empty());
        assert(t.first() == e);
        assert(ser_count_entries(t.drop_first()) == Seq::<char>::empty());
        assert(ser_count_entries(t) =~= ser_count_entries(s) + ser_count_entry(e));
    } else {
        assert(t.first() == s.first());
        assert(t.drop_first() =~= s.drop_first().push(e));
        lemma_ser_count_entries_push(s.drop_first(), e);
        assert(ser_count_entries(t) == ser_count_entry(s.first()) + (ser_count_entries(s.drop_first()) + ser_count_entry(e)));
        assert(ser_count_entries(s) == ser_count_entry(s.first()) + ser_count_entries(s.drop_first()));
        assert(ser_count_entries(t) =~= ser_count_entries(s) + ser_count_entry(e));
    }
}

pub proof fn lemma_ser_tfs_push(s: Seq<TermFrequency>, tf: TermFrequency)
    ensures
        ser_tfs(s.push(tf)) == ser_tfs(s) + ser_tf(tf),
    decreases s.len(),
{
    let t = s.push(tf);
    assert(ser_tfs(t) == ser_tf(t.first()) + ser_tfs(t.drop_first()));
    if s.len() == 0 {
        assert(t.drop_first() =~= Seq::<TermFrequency>::empty());
        assert(t.first() == tf);
        assert(ser_tfs(t.drop_first()) == Seq::<char>::empty());
        assert(ser_tfs(t) =~= ser_tfs(s) + ser_tf(tf));
    } else {
        assert(t.first() == s.first());
        assert(t.drop_first() =~= s.drop_first().push(tf));
        lemma_ser_tfs_push(s.drop_first(), tf);
        assert(ser_tfs(t) == ser_tf(s.first()) + (ser_tfs(s.drop_first()) + ser_tf(tf)));
        assert(ser_tfs(s) == ser_tf(s.first()) + ser_tfs(s.drop_first()));
        assert(ser_tfs(t) =~= ser_tfs(s) + ser_tf(tf));
    }
}

pub proof fn lemma_ser_weight_entries_push(s: Seq<(String, Weight)>, e: (String, Weight))
    ensures
        ser_weight_entries(s.push(e)) == ser_weight_entries(s) + ser_weight_entry(e),
    decreases s.len(),
{
    let t = s.push(e);
    assert(ser_weight_entries(t) == ser_weight_entry(t.first()) + ser_weight_entries(t.drop_first()));
    if s.len() == 0 {
        assert(t.drop_first() =~= Seq::<(String, Weight)>::empty());
        assert(t.first() == e);
        assert(ser_weight_entries(t.drop_first()) == Seq::<char>::empty());
        assert(ser_weight_entries(t) =~= ser_weight_entries(s) + ser_weight_entry(e));
    } else {
        assert(t.first() == s.first());
        assert(t.drop_first() =~= s.drop_first().push(e));
        lemma_ser_weight_entries_push(s.drop_first(), e);
        assert(ser_weight_entries(t) == ser_weight_entry(s.first()) + (ser_weight_entries(s.drop_first()) + ser_weight_entry(e)));
        assert(ser_weight_entries(s) == ser_weight_entry(s.first()) + ser_weight_entries(s.drop_first()));
        assert(ser_weight_entries(t) =~= ser_weight_entries(s) + ser_weight_entry(e));
    }
}

/// The value of a prefix of a digit sequence never exceeds the value of the
/// whole.
pub proof fn lemma_val_prefix_le(s: Seq<char>, m: int)
    requires
        0 <= m <= s.len(),
    ensures
        val(s.take(m)) <= val(s),
    decreases s.len(),
{
    if m == s.len() {
        assert(s.take(m) =~= s);
    } else {
        let d = s.drop_last();
        assert(s.take(m) =~= d.take(m));
        lemma_val_prefix_le(d, m);
    }
}

fn digit_char_of(d: u64) -> (c: char)
    requires
        d < 10,
    ensures
        c == digit_char(d as int),
{
    if d == 0 {
        '0'
    } else if d == 1 {
        '1'
    } else if d == 2 {
        '2'
    } else if d == 3 {
        '3'
    } else if d == 4 {
        '4'
    } else if d == 5 {
        '5'
    } else if d == 6 {
        '6'
    } else if d == 7 {
        '7'
    } else if d == 8 {
        '8'
    } else {
        '9'
    }
}

fn push_dec(out: &mut Vec<char>, n: u64)
    ensures
        final(out)@ == old(out)@ + dec(n as nat),
    decreases n,
{
    if n < 10 {
        out.push(digit_char_of(n));
        proof {
            assert(out@ =~= old(out)@ + dec(n as nat));
        }
    } else {
        push_dec(out, n / 10);
        out.push(digit_char_of(n % 10));
        proof {
            assert(out@ =~= old(out)@ + dec(n as nat));
        }
    }
}

fn push_num(out: &mut Vec<char>, n: u64)
    ensures
        final(out)@ == old(out)@ + ser_num(n as nat),
{
    push_dec(out, n);
    out.push(';');
    proof {
        assert(out@ =~= old(out)@ + ser_num(n as nat));
    }
}

fn push_str_ser(out: &mut Vec<char>, s: &String)
    ensures
        final(out)@ == old(out)@ + ser_str(s@),
        s@.len() <= u64::MAX,
{
    let l = s.as_str().unicode_len();
    proof {
        assert(usize::MAX <= u64::MAX);
    }
    push_num(out, l as u64);
    let ghost base = out@;
    let mut i: usize = 0;
    while i < l
        invariant
            0 <= i <= l,
            l == s@.len(),
            out@ == base + s@.take(i as int),
        decreases l - i,
    {
        let c = s.as_str().get_char(i);
        out.push(c);
        proof {
            assert(out@ =~= base + s@.take(i + 1));
        }
        i = i + 1;
    }
    proof {
        assert(s@.take(l as int) =~= s@);
        assert(out@ =~= old(out)@ + ser_str(s@));
    }
}

fn push_tf(out: &mut Vec<char>, tf: &TermFrequency)
    ensures
        final(out)@ == old(out)@ + ser_tf(*tf),
        tf.document_path@.len() <= u64::MAX,
        tf.term_freq@.len() <= u64::MAX,
        forall|j: int| 0 <= j < tf.term_freq@.len() ==> (#[trigger] tf.term_freq@[j]).0@.len()
            <= u64::MAX,
{
    push_str_ser(out, &tf.document_path);
    proof {
        assert(usize::MAX <= u64::MAX);
    }
    push_num(out, tf.term_freq.len() as u64);
    let ghost base = out@;
    let mut e: usize = 0;
    while e < tf.term_freq.len()
        invariant
            0 <= e <= tf.term_freq@.len(),
            out@ == base + ser_count_entries(tf.term_freq@.take(e as int)),
            forall|j: int| 0 <= j < e ==> (#[trigger] tf.term_freq@[j]).0@.len() <= u64::MAX,
        decreases tf.term_freq@.len() - e,
    {
        push_str_ser(out, &tf.term_freq[e].0);
        push_num(out, tf.term_freq[e].1);
        proof {
            assert(tf.term_freq@.take(e + 1) =~= tf.term_freq@.take(e as int).push(
                tf.term_freq@[e as int],
            ));
            lemma_ser_count_entries_push(tf.term_freq@.take(e as int), tf.term_freq@[e as int]);
            assert(out@ =~= base + ser_count_entries(tf.term_freq@.take(e + 1)));
        }
        e = e + 1;
    }
    proof {
        assert(tf.term_freq@.take(tf.term_freq@.len() as int) =~= tf.term_freq@);
        assert(out@ =~= old(out)@ + ser_tf(*tf));
    }
}

/// Writes the index out as characters; the result is exactly
/// `spec_serialize` of the index.
pub fn serialize(index: &Index) -> (r: Vec<char>)
    ensures
        r@ == spec_serialize(*index),
        bounded_index(*index),
{
    let mut out: Vec<char> = Vec::new();
    proof {
        assert(usize::MAX <= u64::MAX);
    }
    push_num(&mut out, index.term_frequencies.len() as u64);
    let ghost base = out@;
    let mut d: usize = 0;
    while d < index.term_frequencies.len()
        invariant
            0 <= d <= index.term_frequencies@.len(),
            out@ == base + ser_tfs(index.term_frequencies@.take(d as int)),
            forall|i: int| 0 <= i < d ==> {
                let tf = #[trigger] index.term_frequencies@[i];
                &&& tf.document_path@.len() <= u64::MAX
                &&& tf.term_freq@.len() <= u64::MAX
                &&& forall|j: int| 0 <= j < tf.term_freq@.len() ==> (
                #[trigger] tf.term_freq@[j]).0@.len() <= u64::MAX
            },
        decreases index.term_frequencies@.len() - d,
    {
        push_tf(&mut out, &index.term_frequencies[d]);
        proof {
            assert(index.term_frequencies@.take(d + 1) =~= index.term_frequencies@.take(
                d as int,
            ).push(index.term_frequencies@[d as int]));
            lemma_ser_tfs_push(
                index.term_frequencies@.take(d as int),
                index.term_frequencies@[d as int],
            );
            assert(out@ =~= base + ser_tfs(index.term_frequencies@.take(d + 1)));
        }
        d = d + 1;
    }
    proof {
        assert(index.term_frequencies@.take(index.term_frequencies@.len() as int)
            =~= index.term_frequencies@);
    }
    let weights = &index.inverse_document_frequency.weights;
    push_num(&mut out, weights.len() as u64);
    let ghost base2 = out@;
    let mut w: usize = 0;
    while w < weights.len()
        invariant
            0 <= w <= weights@.len(),
            out@ == base2 + ser_weight_entries(weights@.take(w as int)),
            forall|j: int| 0 <= j < w ==> (#[trigger] weights@[j]).0@.len() <= u64::MAX,
        decreases weights@.len() - w,
    {
        push_str_ser(&mut out, &weights[w].0);
        push_num(&mut out, weights[w].1.num);
        push_num(&mut out, weights[w].1.den);
        proof {
            assert(weights@.take(w + 1) =~= weights@.take(w as int).push(weights@[w as int]));
            lemma_ser_weight_entries_push(weights@.take(w as int), weights@[w as int]);
            assert(out@ =~= base2 + ser_weight_entries(weights@.take(w + 1)));
        }
        w = w + 1;
    }
    proof {
        assert(weights@.take(weights@.len() as int) =~= weights@);
        assert(out@ =~= spec_serialize(*index));
    }
    out
}

/// `p` is an initial segment of `s`.
pub open spec fn starts_with(s: Seq<char>, p: Seq<char>) -> bool {
    p.len() <= s.len() && s.take(p.len() as int) == p
}

proof fn lemma_starts_with_index(s: Seq<char>, p: Seq<char>)
    requires
        starts_with(s, p),
    ensures
        forall|k: int| 0 <= k < p.len() ==> s[k] == #[trigger] p[k],
{
    assert(forall|k: int| 0 <= k < p.len() ==> s.take(p.len() as int)[k] == #[trigger] s[k]);
}

fn digit_value(c: char) -> (r: Option<u64>)
    ensures
        r is Some <==> is_digit_char(c),
        r matches Some(d) ==> d == digit_val(c) && d < 10,
{
    if c == '0' {
        Some(0)
    } else if c == '1' {
        Some(1)
    } else if c == '2' {
        Some(2)
    } else if c == '3' {
        Some(3)
    } else if c == '4' {
        Some(4)
    } else if c == '5' {
        Some(5)
    } else if c == '6' {
        Some(6)
    } else if c == '7' {
        Some(7)
    } else if c == '8' {
        Some(8)
    } else if c == '9' {
        Some(9)
    } else {
        None
    }
}

/// Where `ser_num(v)` begins at `pos` in `data`, the numeral occupies
/// `data[pos .. pos + dec(v).len()]` and the closing `;` stands right after
/// it, inside `data`.
proof fn lemma_num_run(data: Seq<char>, pos: int, v: nat)
    requires
        0 <= pos <= data.len(),
        starts_with(data.skip(pos), ser_num(v)),
    ensures
        dec(v).len() >= 1,
        pos + dec(v).len() < data.len(),
        forall|k: int| 0 <= k < dec(v).len() ==> data[pos + k] == #[trigger] dec(v)[k],
        data[pos + dec(v).len()] == ';',
        forall|k: int| 0 <= k < dec(v).len() ==> is_digit_char(#[trigger] dec(v)[k]),
        dec(v)[0] != '0' || dec(v).len() == 1,
        val(dec(v)) == v,
{
    lemma_dec(v);
    let s = data.skip(pos);
    lemma_starts_with_index(s, ser_num(v));
    let ll = dec(v).len() as int;
    assert(ser_num(v).len() == ll + 1);
    assert forall|k: int| 0 <= k < ll implies data[pos + k] == #[trigger] dec(v)[k] by {
        assert(s[k] == ser_num(v)[k]);
        assert(ser_num(v)[k] == dec(v)[k]);
        assert(s[k] == data[pos + k]);
    }
    assert(s[ll] == ser_num(v)[ll]);
    assert(ser_num(v)[ll] == ';');
    assert(s[ll] == data[pos + ll]);
}

/// Reads one serialized number. On success the consumed characters are
/// exactly `ser_num` of the value; on failure no representable number has
/// its serialization here.
fn parse_num(data: &[char], pos: usize) -> (r: Option<(u64, usize)>)
    requires
        pos <= data@.len(),
    ensures
        match r {
            Some(vp) => pos < vp.1 <= data@.len() && data@.subrange(pos as int, vp.1 as int)
                == ser_num(vp.0 as nat),
            None => forall|v: nat|
                v <= u64::MAX ==> !starts_with(data@.skip(pos as int), ser_num(v)),
        },
{
    let ghost sfx = data@.skip(pos as int);
    let len = data.len();
    if pos == len {
        proof {
            assert forall|v: nat| v <= u64::MAX implies !starts_with(sfx, ser_num(v)) by {
                lemma_dec(v);
            }
        }
        return None;
    }
    let c0 = *slice_index_get(data, pos);
    proof {
        assert(sfx[0] == data@[pos as int]);
    }
    let d0 = match digit_value(c0) {
        None => {
            proof {
                assert forall|v: nat| v <= u64::MAX implies !starts_with(sfx, ser_num(v)) by {
                    if starts_with(sfx, ser_num(v)) {
                        lemma_dec(v);
                        lemma_starts_with_index(sfx, ser_num(v));
                        assert(ser_num(v)[0] == dec(v)[0]);
                        assert(is_digit_char(c0));
                    }
                }
            }
            return None;
        },
        Some(d) => d,
    };
    if c0 == '0' {
        if pos + 1 < len {
            let c1 = *slice_index_get(data, pos + 1);
            proof {
                assert(sfx[1] == data@[pos + 1]);
            }
            if digit_value(c1).is_some() {
                proof {
                    assert forall|v: nat| v <= u64::MAX implies !starts_with(sfx, ser_num(v)) by {
                        if starts_with(sfx, ser_num(v)) {
                            lemma_num_run(data@, pos as int, v);
                            assert(data@[pos as int] == dec(v)[0]);
                            assert(dec(v)[0] == '0');
                            assert(dec(v).len() == 1);
                            assert(data@[pos + 1] == ';');
                            assert(is_digit_char(c1));
                        }
                    }
                }
                return None;
            }
            if c1 == ';' {
                proof {
                    assert(dec(0) == seq![digit_char(0)]);
                    assert(data@.subrange(pos as int, pos + 2) =~= ser_num(0));
                }
                return Some((0, pos + 2));
            }
            proof {
                assert forall|v: nat| v <= u64::MAX implies !starts_with(sfx, ser_num(v)) by {
                    if starts_with(sfx, ser_num(v)) {
                        lemma_num_run(data@, pos as int, v);
                        assert(data@[pos as int] == dec(v)[0]);
                        assert(dec(v)[0] == '0');
                        assert(dec(v).len() == 1);
                        assert(data@[pos + 1] == ';');
                    }
                }
            }
            return None;
        } else {
            proof {
                assert forall|v: nat| v <= u64::MAX implies !starts_with(sfx, ser_num(v)) by {
                    if starts_with(sfx, ser_num(v)) {
                        lemma_num_run(data@, pos as int, v);
                        assert(pos + dec(v).len() < data@.len());
                    }
                }
            }
            return None;
        }
    }
    let mut i = pos + 1;
    let mut acc: u64 = d0;
    proof {
        let s1 = data@.subrange(pos as int, pos + 1);
        assert(s1 =~= seq![c0]);
        assert(s1.len() == 1);
        assert(s1.drop_last() =~= Seq::<char>::empty());
        assert(val(s1.drop_last()) == 0);
        assert(s1.last() == c0);
        assert(val(s1) == 10 * val(s1.drop_last()) + digit_val(s1.last()));
        assert(val(s1) == digit_val(c0));
    }
    while i < len && digit_value(*slice_index_get(data, i)).is_some()
        invariant
            pos < i <= len,
            len == data@.len(),
            sfx == data@.skip(pos as int),
            forall|k: int| pos <= k < i ==> is_digit_char(#[trigger] data@[k]),
            data@[pos as int] != '0',
            acc == val(data@.subrange(pos as int, i as int)),
        decreases len - i,
    {
        let c = *slice_index_get(data, i);
        let d = match digit_value(c) {
            Some(d) => d,
            None => 0,
        };
        if acc > (u64::MAX - d) / 10 {
            proof {
                vstd::arithmetic::div_mod::lemma_fundamental_div_mod(
                    (u64::MAX - d) as int,
                    10,
                );
                assert(10 * acc + d > u64::MAX);
                let run = data@.subrange(pos as int, i as int);
                assert forall|v: nat| v <= u64::MAX implies !starts_with(sfx, ser_num(v)) by {
                    if starts_with(sfx, ser_num(v)) {
                        lemma_num_run(data@, pos as int, v);
                        let dv = dec(v);
                        let ll = dv.len() as int;
                        assert(i - pos < ll) by {
                            if ll < i - pos {
                                assert(data@[pos + ll] == ';');
                                assert(is_digit_char(data@[pos + ll]));
                            } else if ll == i - pos {
                                assert(data@[pos + ll] == ';');
                                assert(data@[i as int] == ';');
                            }
                        }
                        let p = dv.take(i - pos + 1);
                        assert(p.len() == i - pos + 1);
                        assert(p.drop_last() =~= run) by {
                            assert forall|k: int| 0 <= k < i - pos implies p.drop_last()[k] == run[
                                k] by {
                                assert(p.drop_last()[k] == dv[k]);
                                assert(dv[k] == data@[pos + k]);
                            }
                        }
                        assert(p.last() == dv[i - pos]);
                        assert(dv[i - pos] == data@[pos + (i - pos)]);
                        assert(pos + (i - pos) == i as int);
                        assert(val(p) == 10 * val(p.drop_last()) + digit_val(p.last()));
                        assert(val(p.drop_last()) == val(run));
                        assert(digit_val(data@[i as int]) == d);
                        assert(val(p) == 10 * acc + d);
                        lemma_val_prefix_le(dv, i - pos + 1);
                        assert(val(dv) >= val(p));
                        assert(v > u64::MAX);
                    }
                }
            }
            return None;
        }
        proof {
            vstd::arithmetic::div_mod::lemma_fundamental_div_mod((u64::MAX - d) as int, 10);
            assert(10 * acc + d <= u64::MAX);
            let run = data@.subrange(pos as int, i as int);
            let run2 = data@.subrange(pos as int, i + 1);
            assert(run2.drop_last() =~= run);
            assert(run2.last() == data@[i as int]);
            assert(val(run2) == 10 * val(run) + digit_val(data@[i as int]));
        }
        acc = acc * 10 + d;
        i = i + 1;
    }
    if i == len {
        proof {
            assert forall|v: nat| v <= u64::MAX implies !starts_with(sfx, ser_num(v)) by {
                if starts_with(sfx, ser_num(v)) {
                    lemma_num_run(data@, pos as int, v);
                    let ll = dec(v).len() as int;
                    assert(data@[pos + ll] == ';');
                    assert(is_digit_char(data@[pos + ll]));
                }
            }
        }
        return None;
    }
    let c = *slice_index_get(data, i);
    if c == ';' {
        let ghost run = data@.subrange(pos as int, i as int);
        proof {
            assert(run[0] == data@[pos as int]);
            lemma_dec_of_val(run);
            assert(data@.subrange(pos as int, i + 1) =~= run.push(';'));
            assert(data@.subrange(pos as int, i + 1) == ser_num(acc as nat));
        }
        return Some((acc, i + 1));
    }
    proof {
        assert(!is_digit_char(c));
        assert forall|v: nat| v <= u64::MAX implies !starts_with(sfx, ser_num(v)) by {
            if starts_with(sfx, ser_num(v)) {
                lemma_num_run(data@, pos as int, v);
                let dv = dec(v);
                let ll = dv.len() as int;
                assert(i - pos <= ll) by {
                    if ll < i - pos {
                        assert(data@[pos + ll] == ';');
                        assert(is_digit_char(data@[pos + ll]));
                    }
                }
                if i - pos < ll {
                    assert(data@[pos + (i - pos)] == dv[i - pos]);
                    assert(pos + (i - pos) == i as int);
                    assert(is_digit_char(dv[i - pos]));
                } else {
                    assert(pos + (i - pos) == i as int);
                    assert(data@[i as int] == ';');
                }
            }
        }
    }
    return None;
}

proof fn lemma_subrange_starts_with(data: Seq<char>, pos: int, x: Seq<char>)
    requires
        0 <= pos,
        pos + x.len() <= data.len(),
        data.subrange(pos, pos + x.len() as int) == x,
    ensures
        starts_with(data.skip(pos), x),
{
    assert(data.skip(pos).take(x.len() as int) =~= data.subrange(pos, pos + x.len() as int));
}

proof fn lemma_starts_with_cat(s: Seq<char>, a: Seq<char>, b: Seq<char>)
    requires
        starts_with(s, a + b),
    ensures
        starts_with(s, a),
        starts_with(s.skip(a.len() as int), b),
{
    lemma_starts_with_index(s, a + b);
    assert(s.take(a.len() as int) =~= a) by {
        assert forall|k: int| 0 <= k < a.len() implies s.take(a.len() as int)[k] == a[k] by {
            assert(s[k] == (a + b)[k]);
        }
    }
    assert(s.skip(a.len() as int).take(b.len() as int) =~= b) by {
        assert forall|k: int| 0 <= k < b.len() implies s.skip(a.len() as int).take(
            b.len() as int,
        )[k] == b[k] by {
            assert(s[a.len() + k] == (a + b)[a.len() + k]);
        }
    }
}

proof fn lemma_skip_skip(s: Seq<char>, a: int, b: int)
    requires
        0 <= a,
        0 <= b,
        a + b <= s.len(),
    ensures
        s.skip(a).skip(b) == s.skip(a + b),
{
    assert(s.skip(a).skip(b) =~= s.skip(a + b));
}

/// Two serialized numbers occupying the same start position carry the same
/// value.
proof fn lemma_ser_num_at(data: Seq<char>, pos: int, l: nat, v: nat)
    requires
        0 <= pos,
        pos + ser_num(l).len() <= data.len(),
        data.subrange(pos, pos + ser_num(l).len() as int) == ser_num(l),
        starts_with(data.skip(pos), ser_num(v)),
    ensures
        v == l,
        ser_num(v) == ser_num(l),
{
    lemma_dec(l);
    lemma_subrange_starts_with(data, pos, ser_num(l));
    lemma_num_run(data, pos, l);
    lemma_num_run(data, pos, v);
    let dl = dec(l);
    let dv = dec(v);
    assert(dl.len() == dv.len()) by {
        if dl.len() < dv.len() {
            assert(data[pos + dl.len()] == ';');
            assert(data[pos + dl.len()] == dv[dl.len() as int]);
            assert(is_digit_char(dv[dl.len() as int]));
        } else if dv.len() < dl.len() {
            assert(data[pos + dv.len()] == ';');
            assert(data[pos + dv.len()] == dl[dv.len() as int]);
            assert(is_digit_char(dl[dv.len() as int]));
        }
    }
    assert(dl =~= dv) by {
        assert forall|k: int| 0 <= k < dl.len() implies dl[k] == dv[k] by {
            assert(data[pos + k] == dl[k]);
            assert(data[pos + k] == dv[k]);
        }
    }
    assert(val(dl) == val(dv));
}

/// Two serialized strings occupying the same start position hold the same
/// characters.
proof fn lemma_ser_str_at(data: Seq<char>, pos: int, s: Seq<char>, t: Seq<char>)
    requires
        0 <= pos,
        pos + ser_str(s).len() <= data.len(),
        data.subrange(pos, pos + ser_str(s).len() as int) == ser_str(s),
        starts_with(data.skip(pos), ser_str(t)),
    ensures
        t == s,
{
    let nl = ser_num(s.len()).len() as int;
    assert(data.subrange(pos, pos + nl) =~= ser_num(s.len())) by {
        assert forall|k: int| 0 <= k < nl implies data.subrange(pos, pos + nl)[k] == ser_num(
            s.len(),
        )[k] by {
            assert(data.subrange(pos, pos + ser_str(s).len() as int)[k] == ser_str(s)[k]);
            assert(ser_str(s)[k] == ser_num(s.len())[k]);
        }
    }
    lemma_starts_with_cat(data.skip(pos), ser_num(t.len()), t);
    lemma_ser_num_at(data, pos, s.len(), t.len());
    assert(t.len() == s.len());
    lemma_starts_with_index(data.skip(pos), ser_str(t));
    assert(t =~= s) by {
        assert forall|k: int| 0 <= k < s.len() implies t[k] == s[k] by {
            assert(ser_str(t)[nl + k] == t[k]);
            assert(data.skip(pos)[nl + k] == ser_str(t)[nl + k]);
            assert(data.skip(pos)[nl + k] == data[pos + nl + k]);
            assert(data.subrange(pos, pos + ser_str(s).len() as int)[nl + k] == ser_str(s)[nl
                + k]);
            assert(ser_str(s)[nl + k] == s[k]);
        }
    }
}

/// Reads one serialized string. On success the consumed characters are
/// exactly `ser_str` of the result; on failure no representable string has
/// its serialization here.
fn parse_str(data: &[char], pos: usize) -> (r: Option<(String, usize)>)
    requires
        pos <= data@.len(),
    ensures
        match r {
            Some(sp) => pos < sp.1 <= data@.len() && data@.subrange(pos as int, sp.1 as int)
                == ser_str(sp.0@),
            None => forall|t: Seq<char>|
                t.len() <= u64::MAX ==> !starts_with(data@.skip(pos as int), ser_str(t)),
        },
{
    let ghost sfx = data@.skip(pos as int);
    match parse_num(data, pos) {
        None => {
            proof {
                assert forall|t: Seq<char>| t.len() <= u64::MAX implies !starts_with(
                    sfx,
                    ser_str(t),
                ) by {
                    if starts_with(sfx, ser_str(t)) {
                        lemma_starts_with_cat(sfx, ser_num(t.len()), t);
                    }
                }
            }
            None
        },
        Some((l, p1)) => {
            let len = data.len();
            if l > (len - p1) as u64 {
                proof {
                    assert forall|t: Seq<char>| t.len() <= u64::MAX implies !starts_with(
                        sfx,
                        ser_str(t),
                    ) by {
                        if starts_with(sfx, ser_str(t)) {
                            lemma_starts_with_cat(sfx, ser_num(t.len()), t);
                            assert(p1 - pos == ser_num(l as nat).len());
                            lemma_ser_num_at(data@, pos as int, l as nat, t.len());
                            assert(ser_str(t).len() == (p1 - pos) + t.len());
                            assert(ser_str(t).len() <= sfx.len());
                        }
                    }
                }
                None
            } else {
                let end = p1 + l as usize;
                let chars = slice_subrange(data, p1, end);
                let s = chars_to_string(chars);
                proof {
                    assert(s@.len() == l as nat);
                    assert(data@.subrange(pos as int, end as int) =~= data@.subrange(
                        pos as int,
                        p1 as int,
                    ) + data@.subrange(p1 as int, end as int));
                    assert(data@.subrange(pos as int, end as int) == ser_str(s@));
                }
                Some((s, end))
            }
        },
    }
}

/// Lengths inside one record fit a `u64`.
pub open spec fn bounded_tf(tf: TermFrequency) -> bool {
    &&& tf.document_path@.len() <= u64::MAX
    &&& tf.term_freq@.len() <= u64::MAX
    &&& forall|j: int| 0 <= j < tf.term_freq@.len() ==> (#[trigger] tf.term_freq@[j]).0@.len()
        <= u64::MAX
}

/// The two records hold the same path and the same entries, character for
/// character.
pub open spec fn tf_view_eq(a: TermFrequency, b: TermFrequency) -> bool {
    &&& a.document_path@ == b.document_path@
    &&& a.term_freq@.len() == b.term_freq@.len()
    &&& forall|i: int| 0 <= i < a.term_freq@.len() ==> (#[trigger] a.term_freq@[i]).0@
        == b.term_freq@[i].0@ && a.term_freq@[i].1 == b.term_freq@[i].1
}

/// The two indexes hold the same documents and the same weights, character
/// for character.
pub open spec fn index_view_eq(a: Index, b: Index) -> bool {
    &&& a.term_frequencies@.len() == b.term_frequencies@.len()
    &&& forall|i: int| 0 <= i < a.term_frequencies@.len() ==> tf_view_eq(
        #[trigger] a.term_frequencies@[i],
        b.term_frequencies@[i],
    )
    &&& a.inverse_document_frequency.weights@.len() == b.inverse_document_frequency.weights@.len()
    &&& forall|i: int| 0 <= i < a.inverse_document_frequency.weights@.len() ==> (
    #[trigger] a.inverse_document_frequency.weights@[i]).0@
        == b.inverse_document_frequency.weights@[i].0@
        && a.inverse_document_frequency.weights@[i].1 == b.inverse_document_frequency.weights@[i].1
}

proof fn lemma_subrange_cat(data: Seq<char>, pos: int, x: Seq<char>, y: Seq<char>)
    requires
        0 <= pos,
        pos + x.len() + y.len() <= data.len(),
        data.subrange(pos, pos + x.len() + y.len()) == x + y,
    ensures
        data.subrange(pos, pos + x.len() as int) == x,
        data.subrange(pos + x.len() as int, pos + x.len() + y.len()) == y,
{
    assert(data.subrange(pos, pos + x.len() as int) =~= x) by {
        assert forall|k: int| 0 <= k < x.len() implies data.subrange(pos, pos + x.len() as int)[k]
            == x[k] by {
            assert(data.subrange(pos, pos + x.len() + y.len())[k] == (x + y)[k]);
        }
    }
    assert(data.subrange(pos + x.len() as int, pos + x.len() + y.len()) =~= y) by {
        assert forall|k: int| 0 <= k < y.len() implies data.subrange(
            pos + x.len() as int,
            pos + x.len() + y.len(),
        )[k] == y[k] by {
            assert(data.subrange(pos + x.len() as int, pos + x.len() + y.len())[k] == data[pos
                + x.len() + k]);
            assert(data.subrange(pos, pos + x.len() + y.len())[x.len() + k] == data[pos + x.len()
                + k]);
            assert((x + y)[x.len() + k] == y[k]);
        }
    }
}

/// A parsed count entry pins down any serialized count entry standing at
/// the same place.
proof fn lemma_count_entry_at(
    data: Seq<char>,
    pos: int,
    a: (String, u64),
    b: (String, u64),
    rest: Seq<char>,
)
    requires
        0 <= pos,
        pos + ser_count_entry(a).len() <= data.len(),
        data.subrange(pos, pos + ser_count_entry(a).len() as int) == ser_count_entry(a),
        starts_with(data.skip(pos), ser_count_entry(b) + rest),
    ensures
        b.0@ == a.0@,
        b.1 == a.1,
        starts_with(data.skip(pos + ser_count_entry(a).len() as int), rest),
{
    lemma_subrange_cat(data, pos, ser_str(a.0@), ser_num(a.1 as nat));
    assert(ser_count_entry(b) + rest =~= ser_str(b.0@) + (ser_num(b.1 as nat) + rest));
    lemma_starts_with_cat(data.skip(pos), ser_str(b.0@), ser_num(b.1 as nat) + rest);
    lemma_ser_str_at(data, pos, a.0@, b.0@);
    let sl = ser_str(a.0@).len() as int;
    lemma_skip_skip(data, pos, sl);
    lemma_starts_with_cat(data.skip(pos + sl), ser_num(b.1 as nat), rest);
    lemma_ser_num_at(data, pos + sl, a.1 as nat, b.1 as nat);
    let nl = ser_num(a.1 as nat).len() as int;
    lemma_skip_skip(data, pos + sl, nl);
}

/// Parsed count entries pin down, entry by entry, any serialized entry list
/// standing at the same place.
proof fn lemma_count_entries_peel(
    data: Seq<char>,
    pos: int,
    a: Seq<(String, u64)>,
    b: Seq<(String, u64)>,
    rest: Seq<char>,
)
    requires
        0 <= pos,
        pos + ser_count_entries(a).len() <= data.len(),
        data.subrange(pos, pos + ser_count_entries(a).len() as int) == ser_count_entries(a),
        starts_with(data.skip(pos), ser_count_entries(b) + rest),
        a.len() <= b.len(),
    ensures
        forall|q: int| 0 <= q < a.len() ==> (#[trigger] b[q]).0@ == a[q].0@ && b[q].1 == a[q].1,
        starts_with(
            data.skip(pos + ser_count_entries(a).len() as int),
            ser_count_entries(b.skip(a.len() as int)) + rest,
        ),
    decreases a.len(),
{
    if a.len() == 0 {
        assert(b.skip(0) =~= b);
    } else {
        let e = ser_count_entry(a.first());
        let etc = ser_count_entries(a.drop_first());
        assert(ser_count_entries(a) == e + etc);
        lemma_subrange_cat(data, pos, e, etc);
        assert(ser_count_entries(b) + rest =~= ser_count_entry(b.first()) + (ser_count_entries(
            b.drop_first(),
        ) + rest));
        lemma_count_entry_at(
            data,
            pos,
            a.first(),
            b.first(),
            ser_count_entries(b.drop_first()) + rest,
        );
        lemma_count_entries_peel(data, pos + e.len(), a.drop_first(), b.drop_first(), rest);
        assert(b.skip(a.len() as int) =~= b.drop_first().skip(a.len() - 1));
        assert forall|q: int| 0 <= q < a.len() implies (#[trigger] b[q]).0@ == a[q].0@ && b[q].1
            == a[q].1 by {
            if q > 0 {
                assert(b.drop_first()[q - 1] == b[q]);
                assert(a.drop_first()[q - 1] == a[q]);
            } else {
                assert(b[0] == b.first());
                assert(a[0] == a.first());
            }
        }
    }
}

/// A parsed record pins down any serialized record standing at the same
/// place.
proof fn lemma_tf_at(
    data: Seq<char>,
    pos: int,
    a: TermFrequency,
    b: TermFrequency,
    rest: Seq<char>,
)
    requires
        0 <= pos,
        pos + ser_tf(a).len() <= data.len(),
        data.subrange(pos, pos + ser_tf(a).len() as int) == ser_tf(a),
        starts_with(data.skip(pos), ser_tf(b) + rest),
    ensures
        tf_view_eq(a, b),
        starts_with(data.skip(pos + ser_tf(a).len() as int), rest),
{
    let sp = ser_str(a.document_path@);
    let sn = ser_num(a.term_freq@.len());
    let se = ser_count_entries(a.term_freq@);
    assert(ser_tf(a) == sp + sn + se);
    assert(sp + sn + se =~= sp + (sn + se));
    lemma_subrange_cat(data, pos, sp, sn + se);
    lemma_subrange_cat(data, pos + sp.len(), sn, se);
    assert(ser_tf(b) + rest =~= ser_str(b.document_path@) + (ser_num(b.term_freq@.len()) + (
    ser_count_entries(b.term_freq@) + rest)));
    lemma_starts_with_cat(
        data.skip(pos),
        ser_str(b.document_path@),
        ser_num(b.term_freq@.len()) + (ser_count_entries(b.term_freq@) + rest),
    );
    lemma_ser_str_at(data, pos, a.document_path@, b.document_path@);
    lemma_skip_skip(data, pos, sp.len() as int);
    lemma_starts_with_cat(
        data.skip(pos + sp.len()),
        ser_num(b.term_freq@.len()),
        ser_count_entries(b.term_freq@) + rest,
    );
    lemma_ser_num_at(data, pos + sp.len(), a.term_freq@.len(), b.term_freq@.len());
    lemma_skip_skip(data, pos + sp.len(), sn.len() as int);
    lemma_count_entries_peel(
        data,
        pos + sp.len() + sn.len(),
        a.term_freq@,
        b.term_freq@,
        rest,
    );
    assert(b.term_freq@.skip(a.term_freq@.len() as int) =~= Seq::<(String, u64)>::empty());
    assert(ser_count_entries(b.term_freq@.skip(a.term_freq@.len() as int)) + rest =~= rest);
    lemma_skip_skip(data, pos + sp.len() + sn.len(), se.len() as int);
}

/// Parsed records pin down, record by record, any serialized record list
/// standing at the same place.
proof fn lemma_tfs_peel(
    data: Seq<char>,
    pos: int,
    a: Seq<TermFrequency>,
    b: Seq<TermFrequency>,
    rest: Seq<char>,
)
    requires
        0 <= pos,
        pos + ser_tfs(a).len() <= data.len(),
        data.subrange(pos, pos + ser_tfs(a).len() as int) == ser_tfs(a),
        starts_with(data.skip(pos), ser_tfs(b) + rest),
        a.len() <= b.len(),
    ensures
        forall|q: int| 0 <= q < a.len() ==> tf_view_eq(a[q], #[trigger] b[q]),
        starts_with(
            data.skip(pos + ser_tfs(a).len() as int),
            ser_tfs(b.skip(a.len() as int)) + rest,
        ),
    decreases a.len(),
{
    if a.len() == 0 {
        assert(b.skip(0) =~= b);
    } else {
        let e = ser_tf(a.first());
        let etc = ser_tfs(a.drop_first());
        assert(ser_tfs(a) == e + etc);
        lemma_subrange_cat(data, pos, e, etc);
        assert(ser_tfs(b) + rest =~= ser_tf(b.first()) + (ser_tfs(b.drop_first()) + rest));
        lemma_tf_at(data, pos, a.first(), b.first(), ser_tfs(b.drop_first()) + rest);
        lemma_tfs_peel(data, pos + e.len(), a.drop_first(), b.drop_first(), rest);
        assert(b.skip(a.len() as int) =~= b.drop_first().skip(a.len() - 1));
        assert forall|q: int| 0 <= q < a.len() implies tf_view_eq(a[q], #[trigger] b[q]) by {
            if q > 0 {
                assert(b.drop_first()[q - 1] == b[q]);
                assert(a.drop_first()[q - 1] == a[q]);
            } else {
                assert(b[0] == b.first());
                assert(a[0] == a.first());
            }
        }
    }
}

/// A parsed weight entry pins down any serialized weight entry standing at
/// the same place.
proof fn lemma_weight_entry_at(
    data: Seq<char>,
    pos: int,
    a: (String, Weight),
    b: (String, Weight),
    rest: Seq<char>,
)
    requires
        0 <= pos,
        pos + ser_weight_entry(a).len() <= data.len(),
        data.subrange(pos, pos + ser_weight_entry(a).len() as int) == ser_weight_entry(a),
        starts_with(data.skip(pos), ser_weight_entry(b) + rest),
    ensures
        b.0@ == a.0@,
        b.1 == a.1,
        starts_with(data.skip(pos + ser_weight_entry(a).len() as int), rest),
{
    let sp = ser_str(a.0@);
    let sn = ser_num(a.1.num as nat);
    let sd = ser_num(a.1.den as nat);
    assert(ser_weight_entry(a) == sp + sn + sd);
    assert(sp + sn + sd =~= sp + (sn + sd));
    lemma_subrange_cat(data, pos, sp, sn + sd);
    lemma_subrange_cat(data, pos + sp.len(), sn, sd);
    assert(ser_weight_entry(b) + rest =~= ser_str(b.0@) + (ser_num(b.1.num as nat) + (ser_num(
        b.1.den as nat,
    ) + rest)));
    lemma_starts_with_cat(
        data.skip(pos),
        ser_str(b.0@),
        ser_num(b.1.num as nat) + (ser_num(b.1.den as nat) + rest),
    );
    lemma_ser_str_at(data, pos, a.0@, b.0@);
    lemma_skip_skip(data, pos, sp.len() as int);
    lemma_starts_with_cat(
        data.skip(pos + sp.len()),
        ser_num(b.1.num as nat),
        ser_num(b.1.den as nat) + rest,
    );
    lemma_ser_num_at(data, pos + sp.len(), a.1.num as nat, b.1.num as nat);
    lemma_skip_skip(data, pos + sp.len(), sn.len() as int);
    lemma_starts_with_cat(data.skip(pos + sp.len() + sn.len()), ser_num(b.1.den as nat), rest);
    lemma_ser_num_at(data, pos + sp.len() + sn.len(), a.1.den as nat, b.1.den as nat);
    lemma_skip_skip(data, pos + sp.len() + sn.len(), sd.len() as int);
}

/// Parsed weight entries pin down, entry by entry, any serialized weight
/// list standing at the same place.
proof fn lemma_weight_entries_peel(
    data: Seq<char>,
    pos: int,
    a: Seq<(String, Weight)>,
    b: Seq<(String, Weight)>,
    rest: Seq<char>,
)
    requires
        0 <= pos,
        pos + ser_weight_entries(a).len() <= data.len(),
        data.subrange(pos, pos + ser_weight_entries(a).len() as int) == ser_weight_entries(a),
        starts_with(data.skip(pos), ser_weight_entries(b) + rest),
        a.len() <= b.len(),
    ensures
        forall|q: int| 0 <= q < a.len() ==> (#[trigger] b[q]).0@ == a[q].0@ && b[q].1 == a[q].1,
        starts_with(
            data.skip(pos + ser_weight_entries(a).len() as int),
            ser_weight_entries(b.skip(a.len() as int)) + rest,
        ),
    decreases a.len(),
{
    if a.len() == 0 {
        assert(b.skip(0) =~= b);
    } else {
        let e = ser_weight_entry(a.first());
        let etc = ser_weight_entries(a.drop_first());
        assert(ser_weight_entries(a) == e + etc);
        lemma_subrange_cat(data, pos, e, etc);
        assert(ser_weight_entries(b) + rest =~= ser_weight_entry(b.first()) + (
        ser_weight_entries(b.drop_first()) + rest));
        lemma_weight_entry_at(
            data,
            pos,
            a.first(),
            b.first(),
            ser_weight_entries(b.drop_first()) + rest,
        );
        lemma_weight_entries_peel(data, pos + e.len(), a.drop_first(), b.drop_first(), rest);
        assert(b.skip(a.len() as int) =~= b.drop_first().skip(a.len() - 1));
        assert forall|q: int| 0 <= q < a.len() implies (#[trigger] b[q]).0@ == a[q].0@ && b[q].1
            == a[q].1 by {
            if q > 0 {
                assert(b.drop_first()[q - 1] == b[q]);
                assert(a.drop_first()[q - 1] == a[q]);
            } else {
                assert(b[0] == b.first());
                assert(a[0] == a.first());
            }
        }
    }
}

/// Where a whole record is serialized at `pos` and its parsed path and
/// entry count are already known, the record's remaining serialization is
/// its entry list.
proof fn lemma_tf_head_peel(
    data: Seq<char>,
    pos: int,
    path: Seq<char>,
    m: nat,
    p2: int,
    t: TermFrequency,
)
    requires
        0 <= pos <= p2 <= data.len(),
        data.subrange(pos, pos + ser_str(path).len() as int) == ser_str(path),
        data.subrange(pos + ser_str(path).len() as int, p2) == ser_num(m),
        p2 == pos + ser_str(path).len() + ser_num(m).len(),
        starts_with(data.skip(pos), ser_tf(t)),
    ensures
        t.document_path@ == path,
        t.term_freq@.len() == m,
        starts_with(data.skip(p2), ser_count_entries(t.term_freq@)),
{
    assert(ser_tf(t) =~= ser_str(t.document_path@) + (ser_num(t.term_freq@.len())
        + ser_count_entries(t.term_freq@)));
    lemma_starts_with_cat(
        data.skip(pos),
        ser_str(t.document_path@),
        ser_num(t.term_freq@.len()) + ser_count_entries(t.term_freq@),
    );
    lemma_ser_str_at(data, pos, path, t.document_path@);
    let sl = ser_str(path).len() as int;
    lemma_skip_skip(data, pos, sl);
    lemma_starts_with_cat(
        data.skip(pos + sl),
        ser_num(t.term_freq@.len()),
        ser_count_entries(t.term_freq@),
    );
    lemma_ser_num_at(data, pos + sl, m, t.term_freq@.len());
    lemma_skip_skip(data, pos + sl, ser_num(m).len() as int);
}

/// Reads one serialized record, checking that what it holds is a
/// well-formed record: distinct terms, every count at least one. On failure
/// no well-formed, representable record has its serialization here.
fn parse_tf(data: &[char], pos: usize) -> (r: Option<(TermFrequency, usize)>)
    requires
        pos <= data@.len(),
    ensures
        match r {
            Some(tp) => pos < tp.1 <= data@.len() && data@.subrange(pos as int, tp.1 as int)
                == ser_tf(tp.0) && tp.0.wf(),
            None => forall|t: TermFrequency|
                t.wf() && bounded_tf(t) ==> !starts_with(data@.skip(pos as int), ser_tf(t)),
        },
{
    let ghost sfx = data@.skip(pos as int);
    let (path, p1) = match parse_str(data, pos) {
        None => {
            proof {
                assert forall|t: TermFrequency| t.wf() && bounded_tf(t) implies !starts_with(
                    sfx,
                    ser_tf(t),
                ) by {
                    if starts_with(sfx, ser_tf(t)) {
                        assert(ser_tf(t) =~= ser_str(t.document_path@) + (ser_num(
                            t.term_freq@.len(),
                        ) + ser_count_entries(t.term_freq@)));
                        lemma_starts_with_cat(
                            sfx,
                            ser_str(t.document_path@),
                            ser_num(t.term_freq@.len()) + ser_count_entries(t.term_freq@),
                        );
                    }
                }
            }
            return None;
        },
        Some(x) => x,
    };
    let (m, p2) = match parse_num(data, p1) {
        None => {
            proof {
                assert forall|t: TermFrequency| t.wf() && bounded_tf(t) implies !starts_with(
                    sfx,
                    ser_tf(t),
                ) by {
                    if starts_with(sfx, ser_tf(t)) {
                        assert(ser_tf(t) =~= ser_str(t.document_path@) + (ser_num(
                            t.term_freq@.len(),
                        ) + ser_count_entries(t.term_freq@)));
                        lemma_starts_with_cat(
                            sfx,
                            ser_str(t.document_path@),
                            ser_num(t.term_freq@.len()) + ser_count_entries(t.term_freq@),
                        );
                        lemma_ser_str_at(data@, pos as int, path@, t.document_path@);
                        lemma_skip_skip(data@, pos as int, ser_str(path@).len() as int);
                        lemma_starts_with_cat(
                            data@.skip(p1 as int),
                            ser_num(t.term_freq@.len()),
                            ser_count_entries(t.term_freq@),
                        );
                    }
                }
            }
            return None;
        },
        Some(x) => x,
    };
    let mut entries: Vec<(String, u64)> = Vec::new();
    let mut cur = p2;
    let mut j: u64 = 0;
    while j < m
        invariant
            pos <= data@.len(),
            sfx == data@.skip(pos as int),
            j == entries@.len(),
            j <= m,
            pos < p1 <= p2 <= cur <= data@.len(),
            data@.subrange(pos as int, p1 as int) == ser_str(path@),
            data@.subrange(p1 as int, p2 as int) == ser_num(m as nat),
            p1 == pos + ser_str(path@).len(),
            p2 == p1 + ser_num(m as nat).len(),
            data@.subrange(p2 as int, cur as int) == ser_count_entries(entries@),
            cur == p2 + ser_count_entries(entries@).len(),
            crate::assoc::unique_keys(entries@),
            forall|i: int| 0 <= i < entries@.len() ==> (#[trigger] entries@[i]).1 >= 1,
        decreases m - j,
    {
        let parsed_term = parse_str(data, cur);
        let (term, q1) = match parsed_term {
            None => {
                proof {
                    assert forall|t: TermFrequency| t.wf() && bounded_tf(t) implies !starts_with(
                        sfx,
                        ser_tf(t),
                    ) by {
                        if starts_with(sfx, ser_tf(t)) {
                            lemma_tf_head_peel(data@, pos as int, path@, m as nat, p2 as int, t);
                            assert(ser_count_entries(t.term_freq@) + Seq::<char>::empty()
                                =~= ser_count_entries(t.term_freq@));
                            lemma_count_entries_peel(
                                data@,
                                p2 as int,
                                entries@,
                                t.term_freq@,
                                Seq::empty(),
                            );
                            let rem = t.term_freq@.skip(j as int);
                            assert(rem.len() >= 1);
                            assert(ser_count_entries(rem) == ser_count_entry(rem.first())
                                + ser_count_entries(rem.drop_first()));
                            assert(ser_count_entries(rem) + Seq::<char>::empty()
                                =~= ser_str(rem.first().0@) + (ser_num(rem.first().1 as nat)
                                + ser_count_entries(rem.drop_first())));
                            lemma_starts_with_cat(
                                data@.skip(cur as int),
                                ser_str(rem.first().0@),
                                ser_num(rem.first().1 as nat) + ser_count_entries(
                                    rem.drop_first(),
                                ),
                            );
                            assert(rem.first() == t.term_freq@[j as int]);
                        }
                    }
                }
                return None;
            },
            Some(x) => x,
        };
        let parsed_count = parse_num(data, q1);
        let (count, q2) = match parsed_count {
            None => {
                proof {
                    assert forall|t: TermFrequency| t.wf() && bounded_tf(t) implies !starts_with(
                        sfx,
                        ser_tf(t),
                    ) by {
                        if starts_with(sfx, ser_tf(t)) {
                            lemma_tf_head_peel(data@, pos as int, path@, m as nat, p2 as int, t);
                            assert(ser_count_entries(t.term_freq@) + Seq::<char>::empty()
                                =~= ser_count_entries(t.term_freq@));
                            lemma_count_entries_peel(
                                data@,
                                p2 as int,
                                entries@,
                                t.term_freq@,
                                Seq::empty(),
                            );
                            let rem = t.term_freq@.skip(j as int);
                            assert(rem.len() >= 1);
                            assert(ser_count_entries(rem) + Seq::<char>::empty()
                                =~= ser_str(rem.first().0@) + (ser_num(rem.first().1 as nat)
                                + ser_count_entries(rem.drop_first())));
                            lemma_starts_with_cat(
                                data@.skip(cur as int),
                                ser_str(rem.first().0@),
                                ser_num(rem.first().1 as nat) + ser_count_entries(
                                    rem.drop_first(),
                                ),
                            );
                            lemma_ser_str_at(data@, cur as int, term@, rem.first().0@);
                            lemma_skip_skip(data@, cur as int, ser_str(term@).len() as int);
                            lemma_starts_with_cat(
                                data@.skip(q1 as int),
                                ser_num(rem.first().1 as nat),
                                ser_count_entries(rem.drop_first()),
                            );
                        }
                    }
                }
                return None;
            },
            Some(x) => x,
        };
        let dup = crate::assoc::find_index(&entries, &term);
        if count == 0 || dup.is_some() {
            proof {
                assert forall|t: TermFrequency| t.wf() && bounded_tf(t) implies !starts_with(
                    sfx,
                    ser_tf(t),
                ) by {
                    if starts_with(sfx, ser_tf(t)) {
                        lemma_tf_head_peel(data@, pos as int, path@, m as nat, p2 as int, t);
                        assert(ser_count_entries(t.term_freq@) + Seq::<char>::empty()
                            =~= ser_count_entries(t.term_freq@));
                        lemma_count_entries_peel(
                            data@,
                            p2 as int,
                            entries@,
                            t.term_freq@,
                            Seq::empty(),
                        );
                        let rem = t.term_freq@.skip(j as int);
                        assert(rem.len() >= 1);
                        assert(ser_count_entries(rem) + Seq::<char>::empty() =~= ser_count_entry(
                            rem.first(),
                        ) + ser_count_entries(rem.drop_first()));
                        assert(data@.subrange(cur as int, q2 as int) =~= ser_str(term@) + ser_num(
                            count as nat,
                        ));
                        lemma_count_entry_at(
                            data@,
                            cur as int,
                            (term, count),
                            rem.first(),
                            ser_count_entries(rem.drop_first()),
                        );
                        assert(rem.first() == t.term_freq@[j as int]);
                        if count == 0 {
                            assert(t.term_freq@[j as int].1 == 0);
                        } else {
                            let i = dup->0;
                            assert(entries@[i as int].0@ == term@);
                            assert(t.term_freq@[i as int].0@ == entries@[i as int].0@);
                            assert(t.term_freq@[i as int].0@ == t.term_freq@[j as int].0@);
                        }
                    }
                }
            }
            return None;
        }
        let ghost entries_before = entries@;
        entries.push((term, count));
        proof {
            lemma_ser_count_entries_push(entries_before, (term, count));
            assert(entries@ =~= entries_before.push((term, count)));
            assert(data@.subrange(p2 as int, q2 as int) =~= data@.subrange(p2 as int, cur as int)
                + (data@.subrange(cur as int, q1 as int) + data@.subrange(q1 as int, q2 as int)));
            assert(data@.subrange(p2 as int, q2 as int) == ser_count_entries(entries@));
        }
        cur = q2;
        j = j + 1;
    }
    let tf = TermFrequency { document_path: path, term_freq: entries };
    proof {
        assert(data@.subrange(pos as int, cur as int) =~= data@.subrange(pos as int, p1 as int) + (
        data@.subrange(p1 as int, p2 as int) + data@.subrange(p2 as int, cur as int)));
        assert(ser_tf(tf) =~= ser_str(path@) + (ser_num(m as nat) + ser_count_entries(
            entries@,
        )));
        assert(data@.subrange(pos as int, cur as int) == ser_tf(tf));
    }
    Some((tf, cur))
}

/// Serialization depends only on the characters and numbers held, never on
/// object identity.
proof fn lemma_ser_count_entries_congr(a: Seq<(String, u64)>, b: Seq<(String, u64)>)
    requires
        a.len() == b.len(),
        forall|q: int| 0 <= q < a.len() ==> (#[trigger] b[q]).0@ == a[q].0@ && b[q].1 == a[q].1,
    ensures
        ser_count_entries(a) == ser_count_entries(b),
    decreases a.len(),
{
    if a.len() > 0 {
        assert(a[0] == a.first());
        assert(b[0] == b.first());
        assert(ser_count_entry(a.first()) == ser_count_entry(b.first()));
        assert(forall|q: int| 0 <= q < a.len() - 1 ==> #[trigger] a.drop_first()[q] == a[q + 1]);
        assert(forall|q: int| 0 <= q < b.len() - 1 ==> #[trigger] b.drop_first()[q] == b[q + 1]);
        lemma_ser_count_entries_congr(a.drop_first(), b.drop_first());
    }
}

proof fn lemma_ser_tfs_congr(a: Seq<TermFrequency>, b: Seq<TermFrequency>)
    requires
        a.len() == b.len(),
        forall|q: int| 0 <= q < a.len() ==> tf_view_eq(a[q], #[trigger] b[q]),
    ensures
        ser_tfs(a) == ser_tfs(b),
    decreases a.len(),
{
    if a.len() > 0 {
        assert(a[0] == a.first());
        assert(b[0] == b.first());
        assert(tf_view_eq(a.first(), b.first()));
        lemma_ser_count_entries_congr(a.first().term_freq@, b.first().term_freq@);
        assert(ser_tf(a.first()) == ser_tf(b.first()));
        assert(forall|q: int| 0 <= q < a.len() - 1 ==> #[trigger] a.drop_first()[q] == a[q + 1]);
        assert(forall|q: int| 0 <= q < b.len() - 1 ==> #[trigger] b.drop_first()[q] == b[q + 1]);
        lemma_ser_tfs_congr(a.drop_first(), b.drop_first());
    }
}

proof fn lemma_ser_weight_entries_congr(a: Seq<(String, Weight)>, b: Seq<(String, Weight)>)
    requires
        a.len() == b.len(),
        forall|q: int| 0 <= q < a.len() ==> (#[trigger] b[q]).0@ == a[q].0@ && b[q].1 == a[q].1,
    ensures
        ser_weight_entries(a) == ser_weight_entries(b),
    decreases a.len(),
{
    if a.len() > 0 {
        assert(a[0] == a.first());
        assert(b[0] == b.first());
        assert(ser_weight_entry(a.first()) == ser_weight_entry(b.first()));
        assert(forall|q: int| 0 <= q < a.len() - 1 ==> #[trigger] a.drop_first()[q] == a[q + 1]);
        assert(forall|q: int| 0 <= q < b.len() - 1 ==> #[trigger] b.drop_first()[q] == b[q + 1]);
        lemma_ser_weight_entries_congr(a.drop_first(), b.drop_first());
    }
}

/// What any index whose serialization is `data` must look like, once the
/// first `k` documents have been parsed: the document count matches, the
/// parsed documents match, and the rest of the serialization stands at the
/// parsed position.
proof fn lemma_index_peel_docs(
    ix: Index,
    data: Seq<char>,
    ndocs: nat,
    docs: Seq<TermFrequency>,
    pos: int,
)
    requires
        spec_serialize(ix) == data,
        ser_num(ndocs).len() + ser_tfs(docs).len() == pos,
        pos <= data.len(),
        data.subrange(0, ser_num(ndocs).len() as int) == ser_num(ndocs),
        data.subrange(ser_num(ndocs).len() as int, pos) == ser_tfs(docs),
        docs.len() <= ndocs,
    ensures
        ix.term_frequencies@.len() == ndocs,
        forall|q: int| 0 <= q < docs.len() ==> tf_view_eq(
            docs[q],
            #[trigger] ix.term_frequencies@[q],
        ),
        starts_with(
            data.skip(pos),
            ser_tfs(ix.term_frequencies@.skip(docs.len() as int)) + (ser_num(
                ix.inverse_document_frequency.weights@.len(),
            ) + ser_weight_entries(ix.inverse_document_frequency.weights@)),
        ),
{
    let tfs_ix = ix.term_frequencies@;
    let ws_ix = ix.inverse_document_frequency.weights@;
    let rest = ser_num(ws_ix.len()) + ser_weight_entries(ws_ix);
    assert(data =~= ser_num(tfs_ix.len()) + (ser_tfs(tfs_ix) + rest));
    assert(data.skip(0) =~= data);
    assert(starts_with(data, ser_num(tfs_ix.len()) + (ser_tfs(tfs_ix) + rest))) by {
        assert(data.take(data.len() as int) =~= data);
    }
    lemma_starts_with_cat(data, ser_num(tfs_ix.len()), ser_tfs(tfs_ix) + rest);
    assert(starts_with(data.skip(0), ser_num(tfs_ix.len()))) by {
        assert(data.skip(0).take(ser_num(tfs_ix.len()).len() as int) =~= data.take(
            ser_num(tfs_ix.len()).len() as int,
        ));
    }
    lemma_ser_num_at(data, 0, ndocs, tfs_ix.len());
    lemma_tfs_peel(data, ser_num(ndocs).len() as int, docs, tfs_ix, rest);
}

/// Reads back a serialized index. Exactly the serializations of well-formed
/// indexes are accepted, and the result re-serializes to the input, so the
/// encoding loses nothing.
#[verifier::rlimit(100)]
pub fn deserialize(data: &[char]) -> (r: Option<Index>)
    ensures
        match r {
            Some(ix) => ix.wf() && spec_serialize(ix) == data@,
            None => forall|ix: Index|
                ix.wf() && bounded_index(ix) ==> spec_serialize(ix) != data@,
        },
{
    let (ndocs, p0) = match parse_num(data, 0) {
        None => {
            proof {
                assert forall|ix: Index| ix.wf() && bounded_index(ix) implies spec_serialize(ix)
                    != data@ by {
                    if spec_serialize(ix) == data@ {
                        let tfs_ix = ix.term_frequencies@;
                        let ws_ix = ix.inverse_document_frequency.weights@;
                        let rest = ser_num(ws_ix.len()) + ser_weight_entries(ws_ix);
                        assert(data@ =~= ser_num(tfs_ix.len()) + (ser_tfs(tfs_ix) + rest));
                        assert(starts_with(data@, ser_num(tfs_ix.len()) + (ser_tfs(tfs_ix)
                            + rest))) by {
                            assert(data@.take(data@.len() as int) =~= data@);
                        }
                        lemma_starts_with_cat(data@, ser_num(tfs_ix.len()), ser_tfs(tfs_ix)
                            + rest);
                        assert(data@.skip(0) =~= data@);
                    }
                }
            }
            return None;
        },
        Some(x) => x,
    };
    let mut docs: Vec<TermFrequency> = Vec::new();
    let mut pos = p0;
    let mut k: u64 = 0;
    while k < ndocs
        invariant
            k == docs@.len(),
            k <= ndocs,
            0 < p0 <= pos <= data@.len(),
            data@.subrange(0, p0 as int) == ser_num(ndocs as nat),
            p0 == ser_num(ndocs as nat).len(),
            data@.subrange(p0 as int, pos as int) == ser_tfs(docs@),
            pos == p0 + ser_tfs(docs@).len(),
            forall|i: int| 0 <= i < docs@.len() ==> (#[trigger] docs@[i]).wf(),
        decreases ndocs - k,
    {
        let parsed = parse_tf(data, pos);
        let (tf, q) = match parsed {
            None => {
                proof {
                    assert forall|ix: Index| ix.wf() && bounded_index(ix) implies spec_serialize(
                        ix,
                    ) != data@ by {
                        if spec_serialize(ix) == data@ {
                            lemma_index_peel_docs(ix, data@, ndocs as nat, docs@, pos as int);
                            let remdocs = ix.term_frequencies@.skip(k as int);
                            assert(remdocs.len() >= 1);
                            let rest = ser_num(ix.inverse_document_frequency.weights@.len())
                                + ser_weight_entries(ix.inverse_document_frequency.weights@);
                            assert(ser_tfs(remdocs) + rest =~= ser_tf(remdocs.first()) + (
                            ser_tfs(remdocs.drop_first()) + rest));
                            lemma_starts_with_cat(
                                data@.skip(pos as int),
                                ser_tf(remdocs.first()),
                                ser_tfs(remdocs.drop_first()) + rest,
                            );
                            assert(remdocs.first() == ix.term_frequencies@[k as int]);
                        }
                    }
                }
                return None;
            },
            Some(x) => x,
        };
        let ghost docs_before = docs@;
        docs.push(tf);
        proof {
            lemma_ser_tfs_push(docs_before, tf);
            assert(docs@ =~= docs_before.push(tf));
            assert(data@.subrange(p0 as int, q as int) =~= data@.subrange(p0 as int, pos as int)
                + data@.subrange(pos as int, q as int));
            assert(data@.subrange(p0 as int, q as int) == ser_tfs(docs@));
        }
        pos = q;
        k = k + 1;
    }
    let ghost p1 = pos;
    let (nweights, p2) = match parse_num(data, pos) {
        None => {
            proof {
                assert forall|ix: Index| ix.wf() && bounded_index(ix) implies spec_serialize(ix)
                    != data@ by {
                    if spec_serialize(ix) == data@ {
                        lemma_index_peel_docs(ix, data@, ndocs as nat, docs@, pos as int);
                        let ws_ix = ix.inverse_document_frequency.weights@;
                        assert(ix.term_frequencies@.skip(k as int)
                            =~= Seq::<TermFrequency>::empty());
                        assert(ser_tfs(ix.term_frequencies@.skip(k as int)) + (ser_num(
                            ws_ix.len(),
                        ) + ser_weight_entries(ws_ix)) =~= ser_num(ws_ix.len())
                            + ser_weight_entries(ws_ix));
                        lemma_starts_with_cat(
                            data@.skip(pos as int),
                            ser_num(ws_ix.len()),
                            ser_weight_entries(ws_ix),
                        );
                    }
                }
            }
            return None;
        },
        Some(x) => x,
    };
    let mut weights: Vec<(String, Weight)> = Vec::new();
    let mut w: u64 = 0;
    let mut wpos = p2;
    while w < nweights
        invariant
            w == weights@.len(),
            w <= nweights,
            0 < p0 <= p1 <= p2 <= wpos <= data@.len(),
            data@.subrange(0, p0 as int) == ser_num(ndocs as nat),
            p0 == ser_num(ndocs as nat).len(),
            data@.subrange(p0 as int, p1 as int) == ser_tfs(docs@),
            p1 == p0 + ser_tfs(docs@).len(),
            docs@.len() == ndocs,
            forall|i: int| 0 <= i < docs@.len() ==> (#[trigger] docs@[i]).wf(),
            data@.subrange(p1 as int, p2 as int) == ser_num(nweights as nat),
            p2 == p1 + ser_num(nweights as nat).len(),
            data@.subrange(p2 as int, wpos as int) == ser_weight_entries(weights@),
            wpos == p2 + ser_weight_entries(weights@).len(),
            crate::assoc::unique_keys(weights@),
            forall|i: int| 0 <= i < weights@.len() ==> (#[trigger] weights@[i]).1.wf(),
        decreases nweights - w,
    {
        let parsed_term = parse_str(data, wpos);
        let (term, q1) = match parsed_term {
            None => {
                proof {
                    assert forall|ix: Index| ix.wf() && bounded_index(ix) implies spec_serialize(
                        ix,
                    ) != data@ by {
                        if spec_serialize(ix) == data@ {
                            lemma_deser_weights_peel(
                                ix,
                                data@,
                                ndocs as nat,
                                docs@,
                                p1 as int,
                                nweights as nat,
                                weights@,
                                wpos as int,
                            );
                            let remw = ix.inverse_document_frequency.weights@.skip(w as int);
                            assert(remw.len() >= 1);
                            assert(ser_weight_entries(remw) + Seq::<char>::empty()
                                =~= ser_str(remw.first().0@) + (ser_num(remw.first().1.num as nat)
                                + (ser_num(remw.first().1.den as nat) + ser_weight_entries(
                                remw.drop_first(),
                            ))));
                            lemma_starts_with_cat(
                                data@.skip(wpos as int),
                                ser_str(remw.first().0@),
                                ser_num(remw.first().1.num as nat) + (ser_num(
                                    remw.first().1.den as nat,
                                ) + ser_weight_entries(remw.drop_first())),
                            );
                            assert(remw.first() == ix.inverse_document_frequency.weights@[
                                w as int]);
                        }
                    }
                }
                return None;
            },
            Some(x) => x,
        };
        let parsed_num = parse_num(data, q1);
        let (wnum, q2) = match parsed_num {
            None => {
                proof {
                    assert forall|ix: Index| ix.wf() && bounded_index(ix) implies spec_serialize(
                        ix,
                    ) != data@ by {
                        if spec_serialize(ix) == data@ {
                            lemma_deser_weights_peel(
                                ix,
                                data@,
                                ndocs as nat,
                                docs@,
                                p1 as int,
                                nweights as nat,
                                weights@,
                                wpos as int,
                            );
                            let remw = ix.inverse_document_frequency.weights@.skip(w as int);
                            assert(remw.len() >= 1);
                            assert(ser_weight_entries(remw) + Seq::<char>::empty()
                                =~= ser_str(remw.first().0@) + (ser_num(remw.first().1.num as nat)
                                + (ser_num(remw.first().1.den as nat) + ser_weight_entries(
                                remw.drop_first(),
                            ))));
                            lemma_starts_with_cat(
                                data@.skip(wpos as int),
                                ser_str(remw.first().0@),
                                ser_num(remw.first().1.num as nat) + (ser_num(
                                    remw.first().1.den as nat,
                                ) + ser_weight_entries(remw.drop_first())),
                            );
                            lemma_ser_str_at(data@, wpos as int, term@, remw.first().0@);
                            lemma_skip_skip(data@, wpos as int, ser_str(term@).len() as int);
                            lemma_starts_with_cat(
                                data@.skip(q1 as int),
                                ser_num(remw.first().1.num as nat),
                                ser_num(remw.first().1.den as nat) + ser_weight_entries(
                                    remw.drop_first(),
                                ),
                            );
                        }
                    }
                }
                return None;
            },
            Some(x) => x,
        };
        let parsed_den = parse_num(data, q2);
        let (wden, q3) = match parsed_den {
            None => {
                proof {
                    assert forall|ix: Index| ix.wf() && bounded_index(ix) implies spec_serialize(
                        ix,
                    ) != data@ by {
                        if spec_serialize(ix) == data@ {
                            lemma_deser_weights_peel(
                                ix,
                                data@,
                                ndocs as nat,
                                docs@,
                                p1 as int,
                                nweights as nat,
                                weights@,
                                wpos as int,
                            );
                            let remw = ix.inverse_document_frequency.weights@.skip(w as int);
                            assert(remw.len() >= 1);
                            assert(ser_weight_entries(remw) + Seq::<char>::empty()
                                =~= ser_str(remw.first().0@) + (ser_num(remw.first().1.num as nat)
                                + (ser_num(remw.first().1.den as nat) + ser_weight_entries(
                                remw.drop_first(),
                            ))));
                            lemma_starts_with_cat(
                                data@.skip(wpos as int),
                                ser_str(remw.first().0@),
                                ser_num(remw.first().1.num as nat) + (ser_num(
                                    remw.first().1.den as nat,
                                ) + ser_weight_entries(remw.drop_first())),
                            );
                            lemma_ser_str_at(data@, wpos as int, term@, remw.first().0@);
                            lemma_skip_skip(data@, wpos as int, ser_str(term@).len() as int);
                            lemma_starts_with_cat(
                                data@.skip(q1 as int),
                                ser_num(remw.first().1.num as nat),
                                ser_num(remw.first().1.den as nat) + ser_weight_entries(
                                    remw.drop_first(),
                                ),
                            );
                            lemma_ser_num_at(
                                data@,
                                q1 as int,
                                wnum as nat,
                                remw.first().1.num as nat,
                            );
                            lemma_skip_skip(data@, q1 as int, ser_num(wnum as nat).len() as int);
                            lemma_starts_with_cat(
                                data@.skip(q2 as int),
                                ser_num(remw.first().1.den as nat),
                                ser_weight_entries(remw.drop_first()),
                            );
                        }
                    }
                }
                return None;
            },
            Some(x) => x,
        };
        let dup = crate::assoc::find_index(&weights, &term);
        if wden == 0 || wden > wnum || dup.is_some() {
            proof {
                assert forall|ix: Index| ix.wf() && bounded_index(ix) implies spec_serialize(ix)
                    != data@ by {
                    if spec_serialize(ix) == data@ {
                        lemma_deser_weights_peel(
                            ix,
                            data@,
                            ndocs as nat,
                            docs@,
                            p1 as int,
                            nweights as nat,
                            weights@,
                            wpos as int,
                        );
                        let remw = ix.inverse_document_frequency.weights@.skip(w as int);
                        assert(remw.len() >= 1);
                        assert(ser_weight_entries(remw) + Seq::<char>::empty()
                            =~= ser_weight_entry(remw.first()) + ser_weight_entries(
                            remw.drop_first(),
                        ));
                        assert(data@.subrange(wpos as int, q3 as int) =~= ser_str(term@) + ser_num(
                            wnum as nat,
                        ) + ser_num(wden as nat));
                        lemma_weight_entry_at(
                            data@,
                            wpos as int,
                            (term, Weight { num: wnum, den: wden }),
                            remw.first(),
                            ser_weight_entries(remw.drop_first()),
                        );
                        assert(remw.first() == ix.inverse_document_frequency.weights@[w as int]);
                        if wden == 0 || wden > wnum {
                            assert(!ix.inverse_document_frequency.weights@[w as int].1.wf());
                        } else {
                            let i = dup->0;
                            assert(weights@[i as int].0@ == term@);
                            assert(ix.inverse_document_frequency.weights@[i as int].0@
                                == weights@[i as int].0@);
                            assert(ix.inverse_document_frequency.weights@[i as int].0@
                                == ix.inverse_document_frequency.weights@[w as int].0@);
                        }
                    }
                }
            }
            return None;
        }
        let ghost weights_before = weights@;
        weights.push((term, Weight { num: wnum, den: wden }));
        proof {
            lemma_ser_weight_entries_push(
                weights_before,
                (term, Weight { num: wnum, den: wden }),
            );
            assert(weights@ =~= weights_before.push((term, Weight { num: wnum, den: wden })));
            assert(data@.subrange(p2 as int, q3 as int) =~= data@.subrange(
                p2 as int,
                wpos as int,
            ) + (data@.subrange(wpos as int, q1 as int) + (data@.subrange(q1 as int, q2 as int)
                + data@.subrange(q2 as int, q3 as int))));
            assert(data@.subrange(p2 as int, q3 as int) == ser_weight_entries(weights@));
        }
        wpos = q3;
        w = w + 1;
    }
    if wpos != data.len() {
        proof {
            assert forall|ix: Index| ix.wf() && bounded_index(ix) implies spec_serialize(ix)
                != data@ by {
                if spec_serialize(ix) == data@ {
                    lemma_deser_weights_peel(
                        ix,
                        data@,
                        ndocs as nat,
                        docs@,
                        p1 as int,
                        nweights as nat,
                        weights@,
                        wpos as int,
                    );
                    lemma_ser_tfs_congr(docs@, ix.term_frequencies@);
                    lemma_ser_weight_entries_congr(
                        weights@,
                        ix.inverse_document_frequency.weights@,
                    );
                    assert(spec_serialize(ix).len() == p0 + ser_tfs(docs@).len() + ser_num(
                        nweights as nat,
                    ).len() + ser_weight_entries(weights@).len());
                    assert(spec_serialize(ix).len() == wpos);
                }
            }
        }
        return None;
    }
    let ix = Index {
        term_frequencies: docs,
        inverse_document_frequency: crate::inverse_doc_frequency::InverseDocumentFrequency {
            weights,
        },
    };
    proof {
        assert(data@.subrange(0, data@.len() as int) =~= data@);
        assert(data@ =~= data@.subrange(0, p0 as int) + (data@.subrange(p0 as int, p1 as int) + (
        data@.subrange(p1 as int, p2 as int) + data@.subrange(p2 as int, wpos as int))));
        assert(spec_serialize(ix) == data@);
    }
    Some(ix)
}

/// What any index whose serialization is `data` must look like once all
/// documents and the first `w` weight entries are parsed.
proof fn lemma_deser_weights_peel(
    ix: Index,
    data: Seq<char>,
    ndocs: nat,
    docs: Seq<TermFrequency>,
    p1: int,
    nweights: nat,
    weights: Seq<(String, Weight)>,
    wpos: int,
)
    requires
        spec_serialize(ix) == data,
        docs.len() == ndocs,
        ser_num(ndocs).len() + ser_tfs(docs).len() == p1,
        p1 + ser_num(nweights).len() + ser_weight_entries(weights).len() == wpos,
        wpos <= data.len(),
        data.subrange(0, ser_num(ndocs).len() as int) == ser_num(ndocs),
        data.subrange(ser_num(ndocs).len() as int, p1) == ser_tfs(docs),
        data.subrange(p1, p1 + ser_num(nweights).len() as int) == ser_num(nweights),
        data.subrange(p1 + ser_num(nweights).len() as int, wpos) == ser_weight_entries(weights),
        weights.len() <= nweights,
    ensures
        ix.term_frequencies@.len() == ndocs,
        forall|q: int| 0 <= q < docs.len() ==> tf_view_eq(
            docs[q],
            #[trigger] ix.term_frequencies@[q],
        ),
        ix.inverse_document_frequency.weights@.len() == nweights,
        forall|q: int| 0 <= q < weights.len() ==> (
        #[trigger] ix.inverse_document_frequency.weights@[q]).0@ == weights[q].0@
            && ix.inverse_document_frequency.weights@[q].1 == weights[q].1,
        starts_with(
            data.skip(wpos),
            ser_weight_entries(
                ix.inverse_document_frequency.weights@.skip(weights.len() as int),
            ) + Seq::<char>::empty(),
        ),
{
    lemma_index_peel_docs(ix, data, ndocs, docs, p1);
    let ws_ix = ix.inverse_document_frequency.weights@;
    assert(ix.term_frequencies@.skip(docs.len() as int) =~= Seq::<TermFrequency>::empty());
    assert(ser_tfs(ix.term_frequencies@.skip(docs.len() as int)) + (ser_num(ws_ix.len())
        + ser_weight_entries(ws_ix)) =~= ser_num(ws_ix.len()) + ser_weight_entries(ws_ix));
    lemma_starts_with_cat(data.skip(p1), ser_num(ws_ix.len()), ser_weight_entries(ws_ix));
    lemma_ser_num_at(data, p1, nweights, ws_ix.len());
    lemma_skip_skip(data, p1, ser_num(nweights).len() as int);
    assert(starts_with(
        data.skip(p1 + ser_num(nweights).len()),
        ser_weight_entries(ws_ix) + Seq::<char>::empty(),
    )) by {
        assert(ser_weight_entries(ws_ix) + Seq::<char>::empty() =~= ser_weight_entries(ws_ix));
    }
    lemma_weight_entries_peel(
        data,
        p1 + ser_num(nweights).len(),
        weights,
        ws_ix,
        Seq::empty(),
    );
}

/// The encoding is lossless: two indexes with the same serialization hold
/// the same documents and the same weights. Together with the contracts of
/// `serialize` and `deserialize`, reading a serialized index back recovers
/// exactly what was written.
pub proof fn lemma_serialize_injective(a: Index, b: Index)
    requires
        spec_serialize(a) == spec_serialize(b),
    ensures
        index_view_eq(a, b),
{
    let data = spec_serialize(a);
    let tfs = a.term_frequencies@;
    let ws = a.inverse_document_frequency.weights@;
    let a1 = ser_num(tfs.len());
    let a2 = ser_tfs(tfs);
    let a3 = ser_num(ws.len());
    let a4 = ser_weight_entries(ws);
    assert(data =~= a1 + (a2 + (a3 + a4)));
    assert(data.subrange(0, data.len() as int) =~= data);
    lemma_subrange_cat(data, 0, a1, a2 + (a3 + a4));
    lemma_subrange_cat(data, a1.len() as int, a2, a3 + a4);
    lemma_subrange_cat(data, (a1.len() + a2.len()) as int, a3, a4);
    lemma_deser_weights_peel(
        b,
        data,
        tfs.len(),
        tfs,
        (a1.len() + a2.len()) as int,
        ws.len(),
        ws,
        data.len() as int,
    );
    assert forall|q: int| 0 <= q < tfs.len() implies tf_view_eq(
        #[trigger] a.term_frequencies@[q],
        b.term_frequencies@[q],
    ) by {
        assert(tf_view_eq(tfs[q], b.term_frequencies@[q]));
    }
}

/// Two indexes that hold the same data give every query the same scores:
/// the scored paths, counts, and weights agree document by document.
pub proof fn lemma_view_eq_scores(a: Index, b: Index, term: Seq<char>)
    requires
        index_view_eq(a, b),
    ensures
        crate::utils::tfidf_views(crate::utils::spec_scores(term, a)) == crate::utils::tfidf_views(
            crate::utils::spec_scores(term, b),
        ),
{
    let sa = crate::utils::spec_scores(term, a);
    let sb = crate::utils::spec_scores(term, b);
    crate::assoc::lemma_assoc_map_congr(
        a.inverse_document_frequency.weights@,
        b.inverse_document_frequency.weights@,
    );
    assert forall|i: int| 0 <= i < sa.len() implies crate::utils::tfidf_views(sa)[i]
        == crate::utils::tfidf_views(sb)[i] by {
        let da = a.term_frequencies@[i];
        let db = b.term_frequencies@[i];
        assert(tf_view_eq(da, db));
        crate::assoc::lemma_assoc_map_congr(da.term_freq@, db.term_freq@);
    }
    assert(crate::utils::tfidf_views(sa) =~= crate::utils::tfidf_views(sb));
}

/// Writes a well-formed index out and reads it back. The read never fails,
/// and what comes back holds exactly the documents and weights that went
/// in: the encoding loses nothing. Since scoring is a function of that data
/// alone, every query scores the round-tripped index as it scores the
/// given one.
pub fn round_trip(ix: &Index) -> (r: Index)
    requires
        ix.wf(),
    ensures
        r.wf(),
        index_view_eq(*ix, r),
{
    let data = serialize(ix);
    match deserialize(data.as_slice()) {
        Some(decoded) => {
            proof {
                lemma_serialize_injective(*ix, decoded);
            }
            decoded
        },
        None => {
            proof {
                assert(false);
            }
            vstd::pervasive::unreached()
        },
    }
}

} // verus!
