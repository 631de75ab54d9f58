//! Lexical scanning of document text.
//!
//! A token is a maximal run of decimal-digit characters, a maximal run of
//! alphabetic characters, or a single character of any other kind; runs of
//! whitespace separate tokens and are never emitted. `tokens_of` is the
//! spec-level statement of these rules, and `Tokenizer` produces exactly
//! that sequence, one token per `next_token` call.

use vstd::prelude::*;
use vstd::slice::{slice_index_get, slice_subrange};
use crate::text::chars_to_string;

verus! {

pub uninterp spec fn is_whitespace_char(c: char) -> bool;

pub uninterp spec fn is_numeric_char(c: char) -> bool;

pub uninterp spec fn is_alphabetic_char(c: char) -> bool;

/// Relies on char::is_whitespace: whether the character has the Unicode
/// `White_Space` property, a function of the character alone.
pub assume_specification[ char::is_whitespace ](c: char) -> (r: bool)
    ensures
        r == is_whitespace_char(c),
;

/// Relies on char::is_numeric: whether the character is in a Unicode numeric
/// general category, a function of the character alone.
pub assume_specification[ char::is_numeric ](c: char) -> (r: bool)
    ensures
        r == is_numeric_char(c),
;

/// Relies on char::is_alphabetic: whether the character is in a Unicode
/// alphabetic general category, a function of the character alone.
pub assume_specification[ char::is_alphabetic ](c: char) -> (r: bool)
    ensures
        r == is_alphabetic_char(c),
;

pub open spec fn numeric_pred() -> spec_fn(char) -> bool {
    |c: char| is_numeric_char(c)
}

pub open spec fn alphabetic_pred() -> spec_fn(char) -> bool {
    |c: char| is_alphabetic_char(c)
}

/// Length of the longest prefix of `s` whose characters all satisfy `pred`.
pub open spec fn run_len(s: Seq<char>, pred: spec_fn(char) -> bool) -> nat
    decreases s.len(),
{
    if s.len() == 0 || !pred(s[0]) {
        0
    } else {
        1 + run_len(s.drop_first(), pred)
    }
}

pub proof fn lemma_run_len_le(s: Seq<char>, pred: spec_fn(char) -> bool)
    ensures
        run_len(s, pred) <= s.len(),
    decreases s.len(),
{
    if s.len() > 0 && pred(s[0]) {
        lemma_run_len_le(s.drop_first(), pred);
    }
}

/// `run_len` is pinned down by its first failure position.
pub proof fn lemma_run_len_exact(s: Seq<char>, pred: spec_fn(char) -> bool, n: nat)
    requires
        n <= s.len(),
        forall|j: int| 0 <= j < n ==> pred(#[trigger] s[j]),
        n == s.len() || !pred(s[n as int]),
    ensures
        run_len(s, pred) == n,
    decreases n,
{
    if n == 0 {
    } else {
        assert(pred(s[0]));
        assert(forall|j: int| 0 <= j < n - 1 ==> s.drop_first()[j] == s[j + 1]);
        lemma_run_len_exact(s.drop_first(), pred, (n - 1) as nat);
    }
}

/// The token sequence of a character sequence: whitespace is skipped, a
/// leading digit opens a maximal digit run, a leading alphabetic character
/// opens a maximal alphabetic run, and anything else is one token of one
/// character.
pub open spec fn tokens_of(s: Seq<char>) -> Seq<Seq<char>>
    decreases s.len(),
        via tokens_of_decreases
{
    if s.len() == 0 {
        Seq::empty()
    } else if is_whitespace_char(s[0]) {
        tokens_of(s.drop_first())
    } else if is_numeric_char(s[0]) {
        seq![s.take(run_len(s, numeric_pred()) as int)] + tokens_of(
            s.skip(run_len(s, numeric_pred()) as int),
        )
    } else if is_alphabetic_char(s[0]) {
        seq![s.take(run_len(s, alphabetic_pred()) as int)] + tokens_of(
            s.skip(run_len(s, alphabetic_pred()) as int),
        )
    } else {
        seq![s.take(1)] + tokens_of(s.skip(1))
    }
}

#[via_fn]
proof fn tokens_of_decreases(s: Seq<char>) {
    if s.len() > 0 && !is_whitespace_char(s[0]) {
        if is_numeric_char(s[0]) {
            lemma_run_len_le(s, numeric_pred());
            assert(numeric_pred()(s[0]));
            assert(run_len(s, numeric_pred()) == 1 + run_len(s.drop_first(), numeric_pred()));
        } else if is_alphabetic_char(s[0]) {
            lemma_run_len_le(s, alphabetic_pred());
            assert(alphabetic_pred()(s[0]));
            assert(run_len(s, alphabetic_pred()) == 1 + run_len(
                s.drop_first(),
                alphabetic_pred(),
            ));
        }
    }
}

/// Whitespace-only text yields no tokens at all.
pub proof fn lemma_whitespace_only_tokens_empty(s: Seq<char>)
    requires
        forall|i: int| 0 <= i < s.len() ==> is_whitespace_char(#[trigger] s[i]),
    ensures
        tokens_of(s).len() == 0,
    decreases s.len(),
{
    if s.len() > 0 {
        assert(forall|i: int| 0 <= i < s.drop_first().len() ==> #[trigger] s.drop_first()[i]
            == s[i + 1]);
        lemma_whitespace_only_tokens_empty(s.drop_first());
    }
}

/// No token is ever empty.
pub proof fn lemma_tokens_nonempty(s: Seq<char>)
    ensures
        forall|i: int| 0 <= i < tokens_of(s).len() ==> (#[trigger] tokens_of(s)[i]).len() >= 1,
    decreases s.len(),
{
    if s.len() == 0 {
    } else if is_whitespace_char(s[0]) {
        lemma_tokens_nonempty(s.drop_first());
        assert(tokens_of(s) == tokens_of(s.drop_first()));
        assert forall|i: int| 0 <= i < tokens_of(s).len() implies (#[trigger] tokens_of(s)[
            i]).len() >= 1 by {
            assert(tokens_of(s)[i] == tokens_of(s.drop_first())[i]);
        }
    } else {
        let n: int = if is_numeric_char(s[0]) {
            assert(numeric_pred()(s[0]));
            assert(run_len(s, numeric_pred()) == 1 + run_len(s.drop_first(), numeric_pred()));
            lemma_run_len_le(s, numeric_pred());
            run_len(s, numeric_pred()) as int
        } else if is_alphabetic_char(s[0]) {
            assert(alphabetic_pred()(s[0]));
            assert(run_len(s, alphabetic_pred()) == 1 + run_len(
                s.drop_first(),
                alphabetic_pred(),
            ));
            lemma_run_len_le(s, alphabetic_pred());
            run_len(s, alphabetic_pred()) as int
        } else {
            1
        };
        assert(1 <= n <= s.len());
        assert(tokens_of(s) == seq![s.take(n)] + tokens_of(s.skip(n)));
        lemma_tokens_nonempty(s.skip(n));
        assert forall|i: int| 0 <= i < tokens_of(s).len() implies (#[trigger] tokens_of(s)[
            i]).len() >= 1 by {
            if i == 0 {
                assert(tokens_of(s)[0] == s.take(n));
            } else {
                assert(tokens_of(s)[i] == tokens_of(s.skip(n))[i - 1]);
            }
        }
    }
}

/// Scans a character slice from left to right, handing out one token at a
/// time until the input is exhausted.
pub struct Tokenizer<'a> {
    pub input: &'a [char],
    pub pos: usize,
}

impl<'a> Tokenizer<'a> {
    /// The scan position never runs past the input.
    pub open spec fn wf(&self) -> bool {
        self.pos <= self.input@.len()
    }

    /// The characters not yet consumed.
    pub open spec fn remaining(&self) -> Seq<char> {
        self.input@.skip(self.pos as int)
    }

    pub open spec fn spec_input(&self) -> Seq<char> {
        self.input@
    }

    pub fn from_chars(input: &'a [char]) -> (r: Self)
        ensures
            r.wf(),
            r.remaining() == input@,
            r.spec_input() == input@,
    {
        proof {
            assert(input@.skip(0) =~= input@);
        }
        Self { input, pos: 0 }
    }

    /// The characters not yet consumed, for inspection.
    pub fn remaining_chars(&self) -> (r: &'a [char])
        requires
            self.wf(),
        ensures
            r@ == self.remaining(),
    {
        slice_subrange(self.input, self.pos, self.input.len())
    }

    /// Advances past whitespace; the token sequence is unchanged.
    pub fn trim_leading_whitespace(&mut self)
        requires
            old(self).wf(),
        ensures
            final(self).wf(),
            final(self).spec_input() == old(self).spec_input(),
            old(self).pos <= final(self).pos,
            tokens_of(final(self).remaining()) == tokens_of(old(self).remaining()),
            final(self).remaining().len() == 0 || !is_whitespace_char(final(self).remaining()[0]),
    {
        while self.pos < self.input.len() && slice_index_get(self.input, self.pos).is_whitespace()
            invariant
                self.wf(),
                self.input == old(self).input,
                old(self).pos <= self.pos,
                tokens_of(self.remaining()) == tokens_of(old(self).remaining()),
            decreases self.input@.len() - self.pos,
        {
            proof {
                let s = self.remaining();
                assert(s[0] == self.input@[self.pos as int]);
                assert(s.drop_first() =~= self.input@.skip(self.pos + 1));
            }
            self.pos = self.pos + 1;
        }
    }

    /// Consumes the maximal prefix of the remaining input whose characters
    /// satisfy `input_function`, and returns it.
    fn chop_while<F: Fn(&char) -> bool>(
        &mut self,
        input_function: F,
        Ghost(pred): Ghost<spec_fn(char) -> bool>,
    ) -> (output: &'a [char])
        requires
            old(self).wf(),
            forall|c: &char| #[trigger] call_requires(input_function, (c,)),
            forall|c: &char, b: bool| call_ensures(input_function, (c,), b) ==> b == pred(*c),
        ensures
            final(self).wf(),
            final(self).spec_input() == old(self).spec_input(),
            final(self).pos == old(self).pos + run_len(old(self).remaining(), pred),
            output@ == old(self).remaining().take(
                run_len(old(self).remaining(), pred) as int,
            ),
            final(self).remaining() == old(self).remaining().skip(
                run_len(old(self).remaining(), pred) as int,
            ),
    {
        let start = self.pos;
        let len = self.input.len();
        let mut n: usize = 0;
        while start + n < len && input_function(slice_index_get(self.input, start + n))
            invariant
                *self == *old(self),
                start == self.pos,
                self.wf(),
                len == self.input@.len(),
                start + n <= len,
                forall|c: &char| #[trigger] call_requires(input_function, (c,)),
                forall|c: &char, b: bool| call_ensures(input_function, (c,), b) ==> b == pred(*c),
                forall|j: int| 0 <= j < n ==> pred(#[trigger] old(self).remaining()[j]),
            decreases self.input@.len() - start - n,
        {
            proof {
                assert(old(self).remaining()[n as int] == self.input@[start + n]);
            }
            n = n + 1;
        }
        proof {
            let s = old(self).remaining();
            if start + n < self.input@.len() {
                assert(s[n as int] == self.input@[start + n]);
            }
            lemma_run_len_exact(s, pred, n as nat);
        }
        let output = slice_subrange(self.input, start, start + n);
        self.pos = start + n;
        proof {
            let s = old(self).remaining();
            assert(output@ =~= s.take(n as int));
            assert(self.remaining() =~= s.skip(n as int));
        }
        output
    }

    /// Produces the next token, or `None` once only whitespace is left.
    /// The tokens handed out across successive calls are exactly
    /// `tokens_of` of the remaining input.
    pub fn next_token(&mut self) -> (r: Option<String>)
        requires
            old(self).wf(),
        ensures
            final(self).wf(),
            final(self).spec_input() == old(self).spec_input(),
            old(self).pos <= final(self).pos,
            match r {
                None => {
                    &&& tokens_of(old(self).remaining()).len() == 0
                    &&& final(self).remaining().len() == 0
                },
                Some(t) => {
                    &&& tokens_of(old(self).remaining()).len() >= 1
                    &&& t@ == tokens_of(old(self).remaining())[0]
                    &&& tokens_of(final(self).remaining()) == tokens_of(
                        old(self).remaining(),
                    ).drop_first()
                    &&& old(self).pos < final(self).pos
                },
            },
    {
        self.trim_leading_whitespace();

        if self.pos == self.input.len() {
            proof {
                assert(self.remaining().len() == 0);
            }
            return None;
        }

        let ghost s = self.remaining();
        let ghost toks = tokens_of(old(self).remaining());
        proof {
            assert(s.len() > 0);
            assert(!is_whitespace_char(s[0]));
        }
        let c = *slice_index_get(self.input, self.pos);
        proof {
            assert(c == s[0]);
        }

        if c.is_numeric() {
            let output = self.chop_while(
                (|x: &char| -> (r: bool) ensures r == is_numeric_char(*x) { x.is_numeric() }),
                Ghost(numeric_pred()),
            );
            proof {
                let n = run_len(s, numeric_pred()) as int;
                assert(numeric_pred()(s[0]));
                assert(run_len(s, numeric_pred()) >= 1);
                assert(tokens_of(s) == seq![s.take(n)] + tokens_of(s.skip(n)));
                assert((seq![s.take(n)] + tokens_of(s.skip(n)))[0] == s.take(n));
                assert((seq![s.take(n)] + tokens_of(s.skip(n))).drop_first() =~= tokens_of(
                    s.skip(n),
                ));
            }
            return Some(chars_to_string(output));
        }

        if c.is_alphabetic() {
            let output = self.chop_while(
                (|x: &char| -> (r: bool) ensures r == is_alphabetic_char(*x) {
                    x.is_alphabetic()
                }),
                Ghost(alphabetic_pred()),
            );
            proof {
                let n = run_len(s, alphabetic_pred()) as int;
                assert(alphabetic_pred()(s[0]));
                assert(run_len(s, alphabetic_pred()) >= 1);
                assert(tokens_of(s) == seq![s.take(n)] + tokens_of(s.skip(n)));
                assert((seq![s.take(n)] + tokens_of(s.skip(n)))[0] == s.take(n));
                assert((seq![s.take(n)] + tokens_of(s.skip(n))).drop_first() =~= tokens_of(
                    s.skip(n),
                ));
            }
            return Some(chars_to_string(output));
        }

        let output = slice_subrange(self.input, self.pos, self.pos + 1);
        self.pos = self.pos + 1;
        proof {
            assert(output@ =~= s.take(1));
            assert(self.remaining() =~= s.skip(1));
            assert(tokens_of(s) == seq![s.take(1)] + tokens_of(s.skip(1)));
            assert((seq![s.take(1)] + tokens_of(s.skip(1)))[0] == s.take(1));
            assert((seq![s.take(1)] + tokens_of(s.skip(1))).drop_first() =~= tokens_of(s.skip(1)));
        }
        Some(chars_to_string(output))
    }
}

} // verus!
