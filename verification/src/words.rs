//! Word tokenizer: splits a byte text into tokens, each a maximal run of
//! non-whitespace bytes followed by its trailing run of whitespace bytes.
//! Splitting only ever happens at ASCII whitespace bytes, which in UTF-8 are
//! always character boundaries, so multi-byte characters are never cut apart.

use vstd::prelude::*;

verus! {

/// A byte is token-splitting whitespace: space, CR, LF or tab.
pub open spec fn is_ws(b: u8) -> bool {
    b == 32 || b == 13 || b == 10 || b == 9
}

/// Executable mirror of `is_ws`.
pub fn byte_is_ws(b: u8) -> (r: bool)
    ensures
        r == is_ws(b),
{
    b == 32 || b == 13 || b == 10 || b == 9
}

/// Length of the leading run of non-whitespace bytes of `text`.
pub open spec fn nonws_run(text: Seq<u8>) -> int
    decreases text.len(),
{
    if text.len() == 0 || is_ws(text[0]) {
        0
    } else {
        1 + nonws_run(text.drop_first())
    }
}

/// Length of the leading run of whitespace bytes of `text`.
pub open spec fn ws_run(text: Seq<u8>) -> int
    decreases text.len(),
{
    if text.len() == 0 || !is_ws(text[0]) {
        0
    } else {
        1 + ws_run(text.drop_first())
    }
}

/// The leading non-whitespace run is exactly the longest prefix of
/// non-whitespace bytes.
pub proof fn lemma_nonws_run(text: Seq<u8>)
    ensures
        0 <= nonws_run(text) <= text.len(),
        forall|k: int| 0 <= k < nonws_run(text) ==> !is_ws(text[k]),
        nonws_run(text) < text.len() ==> is_ws(text[nonws_run(text)]),
    decreases text.len(),
{
    if text.len() == 0 || is_ws(text[0]) {
    } else {
        lemma_nonws_run(text.drop_first());
        assert forall|k: int| 0 <= k < nonws_run(text) implies !is_ws(text[k]) by {
            if k > 0 {
                assert(text.drop_first()[k - 1] == text[k]);
            }
        }
        if nonws_run(text) < text.len() {
            assert(text.drop_first()[nonws_run(text) - 1] == text[nonws_run(text)]);
        }
    }
}

/// The leading whitespace run is exactly the longest prefix of whitespace
/// bytes.
pub proof fn lemma_ws_run(text: Seq<u8>)
    ensures
        0 <= ws_run(text) <= text.len(),
        forall|k: int| 0 <= k < ws_run(text) ==> is_ws(text[k]),
        ws_run(text) < text.len() ==> !is_ws(text[ws_run(text)]),
    decreases text.len(),
{
    if text.len() == 0 || !is_ws(text[0]) {
    } else {
        lemma_ws_run(text.drop_first());
        assert forall|k: int| 0 <= k < ws_run(text) implies is_ws(text[k]) by {
            if k > 0 {
                assert(text.drop_first()[k - 1] == text[k]);
            }
        }
        if ws_run(text) < text.len() {
            assert(text.drop_first()[ws_run(text) - 1] == text[ws_run(text)]);
        }
    }
}

/// Length of the first token of `text`: its leading non-whitespace run plus
/// the whitespace run that follows it.
pub open spec fn first_token_len(text: Seq<u8>) -> int {
    nonws_run(text) + ws_run(text.skip(nonws_run(text)))
}

/// A non-empty text always begins with a non-empty token that is no longer
/// than the text.
pub proof fn lemma_first_token_len(text: Seq<u8>)
    requires
        text.len() > 0,
    ensures
        1 <= first_token_len(text) <= text.len(),
{
    lemma_nonws_run(text);
    lemma_ws_run(text.skip(nonws_run(text)));
    if nonws_run(text) == 0 {
        assert(text.skip(0) == text);
        assert(is_ws(text.skip(0)[0]));
    }
}

#[via_fn]
proof fn spec_tokens_decreases(text: Seq<u8>) {
    if text.len() != 0 {
        lemma_first_token_len(text);
    }
}

/// The token decomposition of `text`: the first token, then the tokens of
/// what follows it.
pub open spec fn spec_tokens(text: Seq<u8>) -> Seq<Seq<u8>>
    decreases text.len(),
        via spec_tokens_decreases
{
    if text.len() == 0 {
        Seq::empty()
    } else {
        seq![text.take(first_token_len(text))] + spec_tokens(text.skip(first_token_len(text)))
    }
}

/// There are never more tokens than bytes.
pub proof fn lemma_tokens_count(text: Seq<u8>)
    ensures
        spec_tokens(text).len() <= text.len(),
    decreases text.len(),
{
    if text.len() != 0 {
        lemma_first_token_len(text);
        lemma_tokens_count(text.skip(first_token_len(text)));
    }
}

/// Concatenating all tokens in order reproduces the text exactly.
pub proof fn lemma_tokens_flatten(text: Seq<u8>)
    ensures
        spec_tokens(text).flatten() == text,
    decreases text.len(),
{
    if text.len() == 0 {
        assert(spec_tokens(text).flatten() =~= text);
    } else {
        let l = first_token_len(text);
        lemma_first_token_len(text);
        lemma_tokens_flatten(text.skip(l));
        let first = text.take(l);
        let rest = spec_tokens(text.skip(l));
        let whole = seq![first] + rest;
        assert(spec_tokens(text) == whole);
        assert(whole.first() == first);
        assert(whole.drop_first() =~= rest);
        assert(whole.flatten() == first + rest.flatten());
        assert(spec_tokens(text).flatten() =~= text);
    }
}

/// A cursor over the tokens of a byte text. `next` hands out one token at a
/// time; cloning the cursor snapshots the position, so a clone can be
/// advanced independently.
#[derive(Clone, Copy)]
pub struct Words<'a> {
    text: &'a [u8],
    current_index: usize,
}

impl<'a> Words<'a> {
    /// The underlying text.
    pub closed spec fn text_view(&self) -> Seq<u8> {
        self.text@
    }

    /// The not-yet-consumed suffix of the text.
    pub closed spec fn remaining(&self) -> Seq<u8> {
        self.text@.skip(self.current_index as int)
    }

    pub closed spec fn wf(&self) -> bool {
        self.current_index <= self.text@.len()
    }

    pub fn new(text: &'a [u8]) -> (r: Words<'a>)
        ensures
            r.wf(),
            r.text_view() == text@,
            r.remaining() == text@,
    {
        let r = Words { text, current_index: 0 };
        assert(text@.skip(0) == text@);
        r
    }

    /// Yields the next token: the leading non-whitespace run of the remaining
    /// text together with its trailing whitespace run, or `None` when the
    /// text is exhausted.
    pub fn next(&mut self) -> (r: Option<&'a [u8]>)
        requires
            old(self).wf(),
        ensures
            final(self).wf(),
            final(self).text_view() == old(self).text_view(),
            old(self).remaining().len() == 0 ==> r is None && final(self).remaining()
                == old(self).remaining(),
            old(self).remaining().len() > 0 ==> {
                let l = first_token_len(old(self).remaining());
                &&& r matches Some(tok) && tok@ == old(self).remaining().take(l)
                &&& final(self).remaining() == old(self).remaining().skip(l)
            },
    {
        let ghost rem = self.remaining();
        let start = self.current_index;
        let mut i = start;
        while i < self.text.len() && !byte_is_ws(self.text[i])
            invariant
                start <= i <= self.text@.len(),
                rem == self.text@.skip(start as int),
                forall|k: int| start <= k < i ==> !is_ws(self.text@[k]),
            decreases self.text@.len() - i,
        {
            i += 1;
        }
        proof {
            lemma_nonws_run(rem);
            assert forall|k: int| 0 <= k < i - start implies !is_ws(rem[k]) by {
                assert(rem[k] == self.text@[start + k]);
            }
            if (i - start) < rem.len() {
                assert(rem[i - start] == self.text@[i as int]);
            }
            if nonws_run(rem) < i - start {
                assert(!is_ws(rem[nonws_run(rem)]));
            }
            if nonws_run(rem) > i - start {
                assert(!is_ws(rem[i - start]));
            }
            assert(nonws_run(rem) == i - start);
        }
        let ghost after_nonws = i;
        while i < self.text.len() && byte_is_ws(self.text[i])
            invariant
                after_nonws <= i <= self.text@.len(),
                forall|k: int| after_nonws <= k < i ==> is_ws(self.text@[k]),
            decreases self.text@.len() - i,
        {
            i += 1;
        }
        proof {
            let tail = rem.skip(nonws_run(rem));
            lemma_ws_run(tail);
            assert forall|k: int| 0 <= k < i - after_nonws implies is_ws(tail[k]) by {
                assert(tail[k] == self.text@[after_nonws + k]);
            }
            if (i - after_nonws) < tail.len() {
                assert(tail[i - after_nonws] == self.text@[i as int]);
            }
            if ws_run(tail) < i - after_nonws {
                assert(is_ws(tail[ws_run(tail)]));
            }
            if ws_run(tail) > i - after_nonws {
                assert(is_ws(tail[i - after_nonws]));
            }
            assert(ws_run(tail) == i - after_nonws);
            assert(first_token_len(rem) == i - start);
        }
        if i == start {
            assert(rem.len() == 0);
            return None;
        }
        proof {
            lemma_first_token_len(rem);
        }
        let tok = vstd::slice::slice_subrange(self.text, start, i);
        self.current_index = i;
        proof {
            assert(tok@ =~= rem.take(i - start));
            assert(self.text@.skip(i as int) =~= rem.skip(i - start));
        }
        Some(tok)
    }
}

/// All tokens of `text`, materialized as owned byte vectors.
pub fn tokenize(text: &[u8]) -> (r: Vec<Vec<u8>>)
    ensures
        r.deep_view() == spec_tokens(text@),
{
    let mut words = Words::new(text);
    let mut toks: Vec<Vec<u8>> = Vec::new();
    loop
        invariant
            words.wf(),
            words.text_view() == text@,
            spec_tokens(text@) == toks.deep_view() + spec_tokens(words.remaining()),
        decreases words.remaining().len(),
    {
        let ghost rem = words.remaining();
        let ghost old_toks = toks.deep_view();
        match words.next() {
            Some(tok) => {
                proof {
                    lemma_first_token_len(rem);
                }
                toks.push(vstd::slice::slice_to_vec(tok));
                proof {
                    assert(toks.deep_view() =~~= old_toks.push(tok@));
                    assert(spec_tokens(rem) == seq![rem.take(first_token_len(rem))]
                        + spec_tokens(words.remaining()));
                    assert(old_toks.push(tok@) =~= old_toks + seq![tok@]);
                    assert((old_toks + seq![tok@]) + spec_tokens(words.remaining())
                        =~= old_toks + (seq![tok@] + spec_tokens(words.remaining())));
                }
            },
            None => {
                proof {
                    assert(spec_tokens(rem) =~= Seq::<Seq<u8>>::empty());
                    assert(toks.deep_view() + Seq::<Seq<u8>>::empty() =~= toks.deep_view());
                }
                return toks;
            },
        }
    }
}

} // verus!
