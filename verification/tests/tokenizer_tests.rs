use w2v_rs::tokenizer::{Token, TokenIterator, MAX_TOKEN_LEN};

fn collect_tokens(data: &[u8], offset: usize) -> Vec<Vec<u8>> {
    let mut it = TokenIterator::new(data.to_vec(), offset);
    let mut out: Vec<Vec<u8>> = Vec::new();
    while let Some(t) = it.read_token() {
        match t {
            Token::Word(w) => out.push(w),
            Token::End => out.push(b"</s>".to_vec()),
        }
    }
    out
}

#[test]
fn splits_simple_corpus_with_sentence_end() {
    let toks = collect_tokens(b"a b\nc", 0);
    assert_eq!(toks, vec![b"a".to_vec(), b"b".to_vec(), b"</s>".to_vec(), b"c".to_vec()]);
}

#[test]
fn never_produces_empty_tokens() {
    let toks = collect_tokens(b"  a\t\t b  \r\r c  ", 0);
    assert_eq!(toks, vec![b"a".to_vec(), b"b".to_vec(), b"c".to_vec()]);
    for t in &toks {
        assert!(!t.is_empty());
    }
}

#[test]
fn empty_line_still_yields_sentence_end() {
    let toks = collect_tokens(b"a\n\nb", 0);
    assert_eq!(
        toks,
        vec![b"a".to_vec(), b"</s>".to_vec(), b"</s>".to_vec(), b"b".to_vec()]
    );
}

#[test]
fn concatenation_reproduces_non_whitespace_content() {
    let data = b"the quick\tbrown\nfox jumps\r\nover the lazy dog\n";
    let toks = collect_tokens(data, 0);
    let mut joined: Vec<u8> = Vec::new();
    for t in &toks {
        if t != &b"</s>".to_vec() {
            joined.extend_from_slice(t);
        }
    }
    let expected: Vec<u8> = data
        .iter()
        .copied()
        .filter(|b| *b != b' ' && *b != b'\t' && *b != b'\r' && *b != b'\n')
        .collect();
    assert_eq!(joined, expected);
}

#[test]
fn overlong_run_is_split_without_losing_bytes() {
    let mut data = Vec::new();
    for i in 0..100u8 {
        data.push(b'a' + (i % 26));
    }
    let toks = collect_tokens(&data, 0);
    assert_eq!(toks.len(), 2);
    assert_eq!(toks[0].len(), MAX_TOKEN_LEN);
    assert_eq!(toks[1].len(), 100 - MAX_TOKEN_LEN);
    let mut joined = toks[0].clone();
    joined.extend_from_slice(&toks[1]);
    assert_eq!(joined, data);
}

#[test]
fn newline_right_after_word_keeps_order() {
    let toks = collect_tokens(b"x\ny", 0);
    assert_eq!(toks, vec![b"x".to_vec(), b"</s>".to_vec(), b"y".to_vec()]);
}

#[test]
fn construct_at_offset_may_start_mid_token() {
    // Starting inside "quick" yields its truncated remainder.
    let toks = collect_tokens(b"the quick fox", 6);
    assert_eq!(toks, vec![b"ick".to_vec(), b"fox".to_vec()]);
}

#[test]
fn offset_past_end_yields_empty_stream() {
    let toks = collect_tokens(b"abc", 17);
    assert!(toks.is_empty());
}

#[test]
fn reset_clears_pending_state_and_reseeks() {
    let mut it = TokenIterator::new(b"aa\nbb cc".to_vec(), 0);
    // Consume "aa": a sentence end is now pending.
    match it.read_token() {
        Some(Token::Word(w)) => assert_eq!(w, b"aa".to_vec()),
        _ => panic!("expected a word"),
    }
    it.reset(3);
    // The pending sentence end is gone; reading starts at "bb".
    match it.read_token() {
        Some(Token::Word(w)) => assert_eq!(w, b"bb".to_vec()),
        _ => panic!("expected a word"),
    }
    match it.read_token() {
        Some(Token::Word(w)) => assert_eq!(w, b"cc".to_vec()),
        _ => panic!("expected a word"),
    }
    assert!(it.read_token().is_none());
}

#[test]
fn end_of_sequence_is_none_repeatedly() {
    let mut it = TokenIterator::new(b"z".to_vec(), 0);
    assert!(matches!(it.read_token(), Some(Token::Word(_))));
    assert!(it.read_token().is_none());
    assert!(it.read_token().is_none());
}
