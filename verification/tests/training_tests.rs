use w2v_rs::rng::LcRandomGen;
use w2v_rs::tokenizer::TokenIterator;
use w2v_rs::training::{draw_window_radius, fill_sentence, MAX_SENTENCE_LEN};
use w2v_rs::vocab::Vocabulary;

#[test]
fn fills_one_sentence_at_a_time() {
    let corpus = b"a b\nc d\n".to_vec();
    let vocab = Vocabulary::learn_vocabulary_from_training_file(&corpus, 1);
    let id = |w: &[u8]| vocab.search_word(&w.to_vec()) as usize;
    let mut it = TokenIterator::new(corpus.clone(), 0);
    let mut sentence: Vec<usize> = Vec::new();
    assert!(fill_sentence(&mut it, &vocab, &mut sentence));
    assert_eq!(sentence, vec![id(b"a"), id(b"b")]);
    assert!(fill_sentence(&mut it, &vocab, &mut sentence));
    assert_eq!(sentence, vec![id(b"c"), id(b"d")]);
    assert!(!fill_sentence(&mut it, &vocab, &mut sentence));
    assert!(sentence.is_empty());
}

#[test]
fn unknown_words_are_skipped_and_empty_sentences_discarded() {
    let vocab = Vocabulary::load_from_file(&b"</s> 1\na 2\n".to_vec()).unwrap();
    let id_a = vocab.search_word(&b"a".to_vec()) as usize;
    let corpus = b"x y\nz a y\n".to_vec();
    let mut it = TokenIterator::new(corpus, 0);
    let mut sentence: Vec<usize> = Vec::new();
    // The first line resolves to nothing and is discarded.
    assert!(fill_sentence(&mut it, &vocab, &mut sentence));
    assert_eq!(sentence, vec![id_a]);
    assert!(!fill_sentence(&mut it, &vocab, &mut sentence));
}

#[test]
fn sentence_buffer_is_capped() {
    let mut corpus: Vec<u8> = Vec::new();
    for _ in 0..(MAX_SENTENCE_LEN + 50) {
        corpus.extend_from_slice(b"w ");
    }
    corpus.push(b'\n');
    let vocab = Vocabulary::learn_vocabulary_from_training_file(&corpus, 1);
    let mut it = TokenIterator::new(corpus, 0);
    let mut sentence: Vec<usize> = Vec::new();
    assert!(fill_sentence(&mut it, &vocab, &mut sentence));
    assert_eq!(sentence.len(), MAX_SENTENCE_LEN);
    // The overflow words form the next sentence.
    assert!(fill_sentence(&mut it, &vocab, &mut sentence));
    assert_eq!(sentence.len(), 50);
}

#[test]
fn window_radius_stays_in_range_and_is_reproducible() {
    let mut gen = LcRandomGen::new(3);
    let mut again = LcRandomGen::new(3);
    for _ in 0..100 {
        let r = draw_window_radius(&mut gen, 5);
        assert!(1 <= r && r <= 5);
        assert_eq!(r, draw_window_radius(&mut again, 5));
    }
    let mut one = LcRandomGen::new(9);
    for _ in 0..10 {
        assert_eq!(draw_window_radius(&mut one, 1), 1);
    }
}
