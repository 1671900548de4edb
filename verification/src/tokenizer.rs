//! Streaming, offset-restartable tokenizer over a corpus held in memory.
//!
//! A token is a maximal run of non-separator bytes, capped at
//! `MAX_TOKEN_LEN` (an over-long run is forcibly split, losing no bytes).
//! Each newline additionally yields one sentence-end token, in order, even
//! for an empty line. No empty token is ever produced.
//!
//! Tokens are raw byte strings: nothing here decodes text, so a run of
//! invalid UTF-8 passes through unchanged as its own word instead of
//! collapsing into a replacement token. This is what makes the content
//! law below exact: concatenating the word tokens reproduces the
//! corpus's non-whitespace bytes for every corpus.

use vstd::prelude::*;

verus! {

/// Hard cap on the byte length of a single token.
pub const MAX_TOKEN_LEN: usize = 64;

/// One item of the token stream: a word's bytes, or a sentence boundary.
pub enum Token {
    Word(Vec<u8>),
    End,
}

/// The mathematical shape of a token.
pub enum TokenView {
    Word(Seq<u8>),
    End,
}

impl View for Token {
    type V = TokenView;

    open spec fn view(&self) -> TokenView {
        match self {
            Token::Word(w) => TokenView::Word(w@),
            Token::End => TokenView::End,
        }
    }
}

pub open spec fn is_sep(b: u8) -> bool {
    b == 10 || b == 32 || b == 9 || b == 13
}

/// Length of the unbroken non-separator run starting at `pos`.
pub open spec fn run_len(data: Seq<u8>, pos: int) -> int
    decreases data.len() - pos,
{
    if pos < 0 || pos >= data.len() || is_sep(data[pos]) {
        0
    } else {
        1 + run_len(data, pos + 1)
    }
}

/// Length of the token emitted at `pos`: the run, capped.
pub open spec fn word_len(data: Seq<u8>, pos: int) -> int {
    if run_len(data, pos) < MAX_TOKEN_LEN {
        run_len(data, pos)
    } else {
        MAX_TOKEN_LEN as int
    }
}

/// One step of the tokenizer from state `(pos, pending)`: the token
/// produced and the following state, or `None` at the end of the data.
/// `pending` records a sentence end still owed from a newline that
/// terminated the previous word.
pub open spec fn spec_next(data: Seq<u8>, pos: int, pending: bool) -> Option<
    (TokenView, int, bool),
>
    recommends
        0 <= pos <= data.len(),
    decreases data.len() - pos,
{
    if pending {
        Some((TokenView::End, pos, false))
    } else if pos < 0 || pos >= data.len() {
        None
    } else if is_sep(data[pos]) {
        if data[pos] == 10 {
            Some((TokenView::End, pos + 1, false))
        } else {
            spec_next(data, pos + 1, false)
        }
    } else {
        let k = word_len(data, pos);
        let npos = pos + k;
        if npos < data.len() && is_sep(data[npos]) {
            Some((TokenView::Word(data.subrange(pos, npos)), npos + 1, data[npos] == 10))
        } else {
            Some((TokenView::Word(data.subrange(pos, npos)), npos, false))
        }
    }
}

/// A produced token advances the state.
proof fn lemma_spec_next_advances(data: Seq<u8>, pos: int, pending: bool)
    requires
        0 <= pos <= data.len(),
    ensures
        match spec_next(data, pos, pending) {
            Some((t, npos, npend)) => {
                &&& pos <= npos <= data.len()
                &&& (pending ==> npos == pos)
                &&& (!pending ==> pos < npos)
                &&& !(npend && npos == pos)
            },
            None => true,
        },
    decreases data.len() - pos,
{
    if !pending && pos < data.len() {
        if is_sep(data[pos]) {
            if data[pos] != 10 {
                lemma_spec_next_advances(data, pos + 1, false);
            }
        } else {
            lemma_run_len_bounds(data, pos + 1);
            assert(run_len(data, pos) == 1 + run_len(data, pos + 1));
            lemma_run_len_bounds(data, pos);
        }
    }
}

/// The run starting at `pos` stays inside the data.
proof fn lemma_run_len_bounds(data: Seq<u8>, pos: int)
    requires
        0 <= pos <= data.len(),
    ensures
        0 <= run_len(data, pos),
        pos + run_len(data, pos) <= data.len(),
    decreases data.len() - pos,
{
    if pos < data.len() && !is_sep(data[pos]) {
        lemma_run_len_bounds(data, pos + 1);
    }
}

/// Over a stretch known to be free of separators, the run length adds up.
proof fn lemma_run_len_split(data: Seq<u8>, pos: int, mid: int)
    requires
        0 <= pos <= mid <= data.len(),
        forall|j: int| pos <= j < mid ==> !is_sep(#[trigger] data[j]),
    ensures
        run_len(data, pos) == (mid - pos) + run_len(data, mid),
    decreases mid - pos,
{
    if pos < mid {
        lemma_run_len_split(data, pos + 1, mid);
    }
}

/// The whole token stream from state `(pos, pending)`.
pub open spec fn spec_tokens(data: Seq<u8>, pos: int, pending: bool) -> Seq<TokenView>
    recommends
        0 <= pos <= data.len(),
    decreases 2 * (data.len() - pos) + (if pending { 1int } else { 0int }),
    when 0 <= pos <= data.len()
    via spec_tokens_decreases
{
    match spec_next(data, pos, pending) {
        None => Seq::empty(),
        Some((t, npos, npend)) => seq![t] + spec_tokens(data, npos, npend),
    }
}

#[via_fn]
proof fn spec_tokens_decreases(data: Seq<u8>, pos: int, pending: bool) {
    lemma_spec_next_advances(data, pos, pending);
}

/// The token stream of the data itself, from its start.
pub open spec fn tokens_of(data: Seq<u8>) -> Seq<TokenView> {
    spec_tokens(data, 0, false)
}

/// Skipping one non-newline separator leaves the stream unchanged.
proof fn lemma_skip_sep(data: Seq<u8>, pos: int)
    requires
        0 <= pos < data.len(),
        is_sep(data[pos]),
        data[pos] != 10,
    ensures
        spec_tokens(data, pos, false) == spec_tokens(data, pos + 1, false),
{
    assert(spec_next(data, pos, false) == spec_next(data, pos + 1, false));
}

/// A restartable lazy token sequence over an in-memory corpus.
///
/// `new` starts at a byte offset; `reset` re-seeks and clears all pending
/// state; `read_token` yields the stream's next token, `None` at the end.
pub struct TokenIterator {
    data: Vec<u8>,
    pos: usize,
    pending_end: bool,
}

impl TokenIterator {
    pub closed spec fn wf(self) -> bool {
        self.pos <= self.data.len()
    }

    pub closed spec fn data_spec(self) -> Seq<u8> {
        self.data@
    }

    /// The tokens this iterator has yet to produce.
    pub closed spec fn remaining(self) -> Seq<TokenView> {
        spec_tokens(self.data@, self.pos as int, self.pending_end)
    }

    /// Starts a token stream at byte `offset` of `data`; an offset past
    /// the end yields an empty stream.
    pub fn new(data: Vec<u8>, offset: usize) -> (r: TokenIterator)
        ensures
            r.wf(),
            r.data_spec() == data@,
            r.remaining() == (if offset <= data@.len() {
                spec_tokens(data@, offset as int, false)
            } else {
                Seq::<TokenView>::empty()
            }),
    {
        let len = data.len();
        TokenIterator { data, pos: if offset <= len { offset } else { len }, pending_end: false }
    }

    /// Re-seeks to byte `offset` and clears buffered state, including any
    /// pending sentence end.
    pub fn reset(&mut self, offset: usize)
        requires
            old(self).wf(),
        ensures
            final(self).wf(),
            final(self).data_spec() == old(self).data_spec(),
            final(self).remaining() == (if offset <= old(self).data_spec().len() {
                spec_tokens(old(self).data_spec(), offset as int, false)
            } else {
                Seq::<TokenView>::empty()
            }),
    {
        let len = self.data.len();
        self.pos = if offset <= len { offset } else { len };
        self.pending_end = false;
    }

    /// Produces the next token of the stream: exactly the head of
    /// `remaining()`, or `None` once the stream is exhausted.
    pub fn read_token(&mut self) -> (r: Option<Token>)
        requires
            old(self).wf(),
        ensures
            final(self).wf(),
            final(self).data_spec() == old(self).data_spec(),
            match r {
                None => old(self).remaining() == Seq::<TokenView>::empty()
                    && final(self).remaining() == Seq::<TokenView>::empty(),
                Some(t) => old(self).remaining() == seq![t@] + final(self).remaining(),
            },
    {
        let ghost data = self.data@;
        if self.pending_end {
            self.pending_end = false;
            return Some(Token::End);
        }
        // Skip separators, emitting a sentence end at each newline.
        while self.pos < self.data.len() && is_separator(self.data[self.pos])
            invariant
                self.pos <= self.data.len(),
                self.data@ == data,
                data == old(self).data_spec(),
                !self.pending_end,
                spec_tokens(data, self.pos as int, false) == old(self).remaining(),
            decreases self.data.len() - self.pos,
        {
            if self.data[self.pos] == 10 {
                self.pos = self.pos + 1;
                assert(old(self).remaining() == seq![TokenView::End] + spec_tokens(
                    data,
                    self.pos as int,
                    false,
                ));
                return Some(Token::End);
            }
            proof {
                lemma_skip_sep(data, self.pos as int);
            }
            self.pos = self.pos + 1;
        }
        if self.pos == self.data.len() {
            return None;
        }
        // Collect the word starting here, up to the length cap.
        let start = self.pos;
        while self.pos < self.data.len() && !is_separator(self.data[self.pos]) && self.pos - start
            < MAX_TOKEN_LEN
            invariant
                start <= self.pos <= self.data.len(),
                self.pos - start <= MAX_TOKEN_LEN,
                self.data@ == data,
                !self.pending_end,
                forall|j: int| start <= j < self.pos ==> !is_sep(#[trigger] data[j]),
            decreases self.data.len() - self.pos,
        {
            self.pos = self.pos + 1;
        }
        proof {
            lemma_run_len_split(data, start as int, self.pos as int);
            lemma_run_len_bounds(data, self.pos as int);
            if self.pos - start < MAX_TOKEN_LEN {
                // Stopped at a separator or the end: the run is over.
                assert(run_len(data, self.pos as int) == 0);
            }
            assert(word_len(data, start as int) == self.pos - start);
        }
        let mut w: Vec<u8> = Vec::new();
        let mut i = start;
        while i < self.pos
            invariant
                start <= i <= self.pos <= self.data.len(),
                self.data@ == data,
                w@ == data.subrange(start as int, i as int),
            decreases self.pos - i,
        {
            w.push(self.data[i]);
            proof {
                assert(data.subrange(start as int, i as int).push(data[i as int]) =~= data
                    .subrange(start as int, (i + 1) as int));
            }
            i = i + 1;
        }
        if self.pos < self.data.len() && is_separator(self.data[self.pos]) {
            if self.data[self.pos] == 10 {
                self.pending_end = true;
            }
            self.pos = self.pos + 1;
        }
        assert(spec_tokens(data, start as int, false) == seq![TokenView::Word(w@)] + spec_tokens(
            data,
            self.pos as int,
            self.pending_end,
        ));
        Some(Token::Word(w))
    }
}

/// Byte `b` separates tokens: space, tab, carriage return or newline.
pub fn is_separator(b: u8) -> (r: bool)
    ensures
        r == is_sep(b),
{
    b == 10 || b == 32 || b == 9 || b == 13
}

/// The corpus's non-whitespace bytes from `pos` on, in order.
pub open spec fn non_sep_bytes(data: Seq<u8>, pos: int) -> Seq<u8>
    decreases data.len() - pos,
{
    if pos < 0 || pos >= data.len() {
        Seq::empty()
    } else if is_sep(data[pos]) {
        non_sep_bytes(data, pos + 1)
    } else {
        seq![data[pos]] + non_sep_bytes(data, pos + 1)
    }
}

/// The bytes of a token stream's words, concatenated in order; sentence
/// ends contribute nothing.
pub open spec fn words_concat(toks: Seq<TokenView>) -> Seq<u8>
    decreases toks.len(),
{
    if toks.len() == 0 {
        Seq::empty()
    } else {
        (match toks[0] {
            TokenView::Word(w) => w,
            TokenView::End => Seq::empty(),
        }) + words_concat(toks.drop_first())
    }
}

/// Over a separator-free stretch, the non-whitespace bytes are the
/// stretch itself followed by what comes after it.
proof fn lemma_non_sep_bytes_split(data: Seq<u8>, pos: int, mid: int)
    requires
        0 <= pos <= mid <= data.len(),
        forall|j: int| pos <= j < mid ==> !is_sep(#[trigger] data[j]),
    ensures
        non_sep_bytes(data, pos) == data.subrange(pos, mid) + non_sep_bytes(data, mid),
    decreases mid - pos,
{
    if pos == mid {
        assert(data.subrange(pos, mid) =~= Seq::<u8>::empty());
        assert(data.subrange(pos, mid) + non_sep_bytes(data, mid) =~= non_sep_bytes(data, mid));
    } else {
        lemma_non_sep_bytes_split(data, pos + 1, mid);
        assert(seq![data[pos]] + (data.subrange(pos + 1, mid) + non_sep_bytes(data, mid)) =~= data
            .subrange(pos, mid) + non_sep_bytes(data, mid));
    }
}

proof fn lemma_content_from(data: Seq<u8>, pos: int, pending: bool)
    requires
        0 <= pos <= data.len(),
    ensures
        words_concat(spec_tokens(data, pos, pending)) == non_sep_bytes(data, pos),
    decreases 2 * (data.len() - pos) + (if pending { 1int } else { 0int }),
{
    lemma_spec_next_advances(data, pos, pending);
    if pending {
        lemma_content_from(data, pos, false);
        let toks = spec_tokens(data, pos, true);
        assert(toks.drop_first() =~= spec_tokens(data, pos, false));
    } else if pos >= data.len() {
        assert(spec_tokens(data, pos, pending) == Seq::<TokenView>::empty());
    } else if is_sep(data[pos]) {
        if data[pos] == 10 {
            lemma_content_from(data, pos + 1, false);
            let toks = spec_tokens(data, pos, false);
            assert(toks.drop_first() =~= spec_tokens(data, pos + 1, false));
        } else {
            lemma_skip_sep(data, pos);
            lemma_content_from(data, pos + 1, false);
        }
    } else {
        let k = word_len(data, pos);
        let npos = pos + k;
        lemma_run_len_bounds(data, pos);
        assert(forall|j: int| pos <= j < npos ==> !is_sep(#[trigger] data[j])) by {
            lemma_run_len_no_sep(data, pos, npos);
        }
        lemma_non_sep_bytes_split(data, pos, npos);
        let toks = spec_tokens(data, pos, false);
        if npos < data.len() && is_sep(data[npos]) {
            lemma_content_from(data, npos + 1, data[npos] == 10);
            assert(toks.drop_first() =~= spec_tokens(data, npos + 1, data[npos] == 10));
            if data[npos] != 10 {
                lemma_skip_sep(data, npos);
                assert(non_sep_bytes(data, npos) == non_sep_bytes(data, npos + 1));
            } else {
                assert(non_sep_bytes(data, npos) == non_sep_bytes(data, npos + 1));
            }
        } else {
            lemma_content_from(data, npos, false);
            assert(toks.drop_first() =~= spec_tokens(data, npos, false));
        }
    }
}

/// Inside a token's run there is no separator.
proof fn lemma_run_len_no_sep(data: Seq<u8>, pos: int, npos: int)
    requires
        0 <= pos <= data.len(),
        pos <= npos <= pos + run_len(data, pos),
    ensures
        forall|j: int| pos <= j < npos ==> !is_sep(#[trigger] data[j]),
    decreases npos - pos,
{
    if pos < npos {
        assert(run_len(data, pos) > 0);
        assert(!is_sep(data[pos]));
        lemma_run_len_no_sep(data, pos + 1, npos);
    }
}

/// Concatenating all word tokens of a corpus's stream reproduces the
/// corpus's non-whitespace bytes, in order.
pub proof fn lemma_tokens_preserve_content(data: Seq<u8>)
    ensures
        words_concat(tokens_of(data)) == non_sep_bytes(data, 0),
{
    lemma_content_from(data, 0, false);
}

/// Every word token is nonempty and at most `MAX_TOKEN_LEN` bytes, free
/// of separator bytes.
pub proof fn lemma_tokens_wf(data: Seq<u8>, pos: int, pending: bool)
    requires
        0 <= pos <= data.len(),
    ensures
        forall|i: int|
            0 <= i < spec_tokens(data, pos, pending).len() ==> (match #[trigger] spec_tokens(
                data,
                pos,
                pending,
            )[i] {
                TokenView::Word(w) => {
                    &&& 1 <= w.len() <= MAX_TOKEN_LEN
                    &&& forall|j: int| 0 <= j < w.len() ==> !is_sep(#[trigger] w[j])
                },
                TokenView::End => true,
            }),
    decreases 2 * (data.len() - pos) + (if pending { 1int } else { 0int }),
{
    lemma_spec_next_advances(data, pos, pending);
    let toks = spec_tokens(data, pos, pending);
    match spec_next(data, pos, pending) {
        None => {}
        Some((t, npos, npend)) => {
            lemma_tokens_wf(data, npos, npend);
            assert(toks.drop_first() =~= spec_tokens(data, npos, npend));
            match t {
                TokenView::Word(w) => {
                    // The head token is a capped, separator-free run.
                    lemma_head_word_shape(data, pos, pending);
                    let p = choose|p: int|
                        0 <= p < data.len() && !is_sep(data[p]) && t == TokenView::Word(
                            data.subrange(p, p + word_len(data, p)),
                        ) && w == data.subrange(p, p + word_len(data, p));
                    lemma_run_len_bounds(data, p);
                    lemma_run_len_bounds(data, p + 1);
                    lemma_run_len_no_sep(data, p, p + word_len(data, p));
                    assert(run_len(data, p) == 1 + run_len(data, p + 1));
                }
                TokenView::End => {}
            }
            assert forall|i: int| 0 <= i < toks.len() implies (match #[trigger] toks[i] {
                TokenView::Word(w) => {
                    &&& 1 <= w.len() <= MAX_TOKEN_LEN
                    &&& forall|j: int| 0 <= j < w.len() ==> !is_sep(#[trigger] w[j])
                },
                TokenView::End => true,
            }) by {
                if i > 0 {
                    assert(toks[i] == spec_tokens(data, npos, npend)[i - 1]);
                }
            }
        }
    }
}

/// When the head of the stream is a word, it is a capped run starting at
/// some non-separator position.
proof fn lemma_head_word_shape(data: Seq<u8>, pos: int, pending: bool)
    requires
        0 <= pos <= data.len(),
    ensures
        match spec_next(data, pos, pending) {
            Some((t, npos, npend)) => match t {
                TokenView::Word(w) => exists|p: int|
                    0 <= p < data.len() && !is_sep(data[p]) && t == TokenView::Word(
                        data.subrange(p, p + word_len(data, p)),
                    ) && w == data.subrange(p, p + word_len(data, p)),
                TokenView::End => true,
            },
            None => true,
        },
    decreases data.len() - pos,
{
    if !pending && pos < data.len() && is_sep(data[pos]) && data[pos] != 10 {
        lemma_head_word_shape(data, pos + 1, false);
    }
}

} // verus!
