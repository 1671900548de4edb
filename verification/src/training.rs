//! The integer decisions of the training engine's per-worker loop:
//! filling the bounded sentence buffer from the token stream, and
//! drawing the per-word context window radius.
//!
//! The floating-point weight updates themselves live outside the
//! library, next to the thread pool that runs them.

use crate::rng::LcRandomGen;
use crate::tokenizer::{Token, TokenIterator, TokenView};
use crate::vocab::{word_id_of, Vocabulary};
use vstd::prelude::*;

verus! {

/// Hard cap on the number of wordIDs buffered per sentence.
pub const MAX_SENTENCE_LEN: usize = 1024;

/// What filling the sentence buffer from token stream `toks` does, with
/// `acc` already buffered: the buffer when the fill stops, and the
/// tokens left. Words resolve through the entries (unknown words are
/// skipped); a sentence end stops a nonempty fill and is discarded by an
/// empty one; the cap stops a fill by itself.
pub open spec fn fill_spec(
    toks: Seq<TokenView>,
    es: Seq<(Seq<u8>, u32)>,
    acc: Seq<int>,
) -> (Seq<int>, Seq<TokenView>)
    decreases toks.len(),
{
    if toks.len() == 0 {
        (acc, toks)
    } else {
        match toks[0] {
            TokenView::End => {
                if acc.len() > 0 {
                    (acc, toks.drop_first())
                } else {
                    fill_spec(toks.drop_first(), es, acc)
                }
            },
            TokenView::Word(w) => {
                let id = word_id_of(es, w);
                let acc2 = if id >= 0 {
                    acc.push(id)
                } else {
                    acc
                };
                if acc2.len() >= MAX_SENTENCE_LEN {
                    (acc2, toks.drop_first())
                } else {
                    fill_spec(toks.drop_first(), es, acc2)
                }
            },
        }
    }
}

/// Fills the sentence buffer with the wordIDs of the stream's next
/// sentence: exactly `fill_spec` of the remaining tokens. Returns `false`
/// exactly when the stream ran out leaving the buffer empty.
pub fn fill_sentence(it: &mut TokenIterator, vocab: &Vocabulary, sentence: &mut Vec<usize>) -> (r:
    bool)
    requires
        old(it).wf(),
        vocab.wf(),
    ensures
        final(it).wf(),
        final(it).data_spec() == old(it).data_spec(),
        ({
            let (s, rest) = fill_spec(old(it).remaining(), vocab.entries(), Seq::empty());
            &&& final(sentence)@.map_values(|x: usize| x as int) == s
            &&& final(it).remaining() == rest
            &&& r == (s.len() > 0)
            &&& forall|k: int|
                0 <= k < final(sentence)@.len() ==> (#[trigger] final(sentence)@[k])
                    < vocab.entries().len()
        }),
{
    let ghost es = vocab.entries();
    sentence.clear();
    proof {
        assert(sentence@.map_values(|x: usize| x as int) =~= Seq::<int>::empty());
    }
    loop
        invariant_except_break
            sentence@.len() < MAX_SENTENCE_LEN,
            fill_spec(old(it).remaining(), es, Seq::empty()) == fill_spec(
                it.remaining(),
                es,
                sentence@.map_values(|x: usize| x as int),
            ),
        invariant
            it.wf(),
            vocab.wf(),
            es == vocab.entries(),
            it.data_spec() == old(it).data_spec(),
            forall|k: int|
                0 <= k < sentence@.len() ==> (#[trigger] sentence@[k]) < vocab.entries().len(),
        ensures
            it.wf(),
            it.data_spec() == old(it).data_spec(),
            ({
                let (s, rest) = fill_spec(old(it).remaining(), es, Seq::empty());
                &&& sentence@.map_values(|x: usize| x as int) == s
                &&& it.remaining() == rest
                &&& forall|k: int|
                    0 <= k < sentence@.len() ==> (#[trigger] sentence@[k]) < vocab.entries().len()
            }),
        decreases it.remaining().len(),
    {
        let ghost prev = it.remaining();
        let ghost acc = sentence@.map_values(|x: usize| x as int);
        match it.read_token() {
            None => {
                proof {
                    assert(prev.len() == 0);
                    assert(fill_spec(prev, es, acc) == (acc, prev));
                }
                break ;
            },
            Some(Token::End) => {
                proof {
                    assert(prev == seq![TokenView::End] + it.remaining());
                    assert(prev[0] == TokenView::End);
                    assert(prev.drop_first() =~= it.remaining());
                }
                if !sentence.is_empty() {
                    proof {
                        assert(fill_spec(prev, es, acc) == (acc, it.remaining()));
                    }
                    break ;
                }
                proof {
                    assert(fill_spec(prev, es, acc) == fill_spec(it.remaining(), es, acc));
                }
            },
            Some(Token::Word(w)) => {
                proof {
                    assert(prev == seq![TokenView::Word(w@)] + it.remaining());
                    assert(prev[0] == TokenView::Word(w@));
                    assert(prev.drop_first() =~= it.remaining());
                }
                let id = vocab.search_word(&w);
                if id >= 0 {
                    sentence.push(id as usize);
                    proof {
                        assert(sentence@.map_values(|x: usize| x as int) =~= acc.push(id as int));
                    }
                    if sentence.len() >= MAX_SENTENCE_LEN {
                        proof {
                            assert(fill_spec(prev, es, acc) == (
                                acc.push(id as int),
                                it.remaining(),
                            ));
                        }
                        break ;
                    }
                    proof {
                        assert(fill_spec(prev, es, acc) == fill_spec(
                            it.remaining(),
                            es,
                            acc.push(id as int),
                        ));
                    }
                } else {
                    proof {
                        assert(fill_spec(prev, es, acc) == fill_spec(it.remaining(), es, acc));
                    }
                }
            },
        }
    }
    !sentence.is_empty()
}

/// Draws the context window radius for one center word: uniform over
/// `1 ..= window` from the generator's next value's low bits.
pub fn draw_window_radius(rng: &mut LcRandomGen, window: u64) -> (r: u64)
    requires
        window >= 1,
    ensures
        1 <= r <= window,
        ({
            let x = old(rng).state.wrapping_mul(25214903917).wrapping_add(11);
            &&& final(rng).state == x
            &&& r == (x as u64) % window + 1
        }),
{
    let x = rng.next_rand();
    let u: u64 = #[verifier::truncate] (x as u64);
    u % window + 1
}

} // verus!
