use w2v_rs::vocab::Vocabulary;

#[test]
fn sentinel_is_always_word_id_zero() {
    let vocab = Vocabulary::learn_vocabulary_from_training_file(&b"a b\nc".to_vec(), 1);
    assert_eq!(vocab.search_word(&b"</s>".to_vec()), 0);
    assert_eq!(vocab.word_at(0), &b"</s>".to_vec());
}

#[test]
fn search_round_trips_through_the_entry_sequence() {
    let vocab = Vocabulary::learn_vocabulary_from_training_file(
        &b"one two two three three three\n".to_vec(),
        1,
    );
    for word in [&b"one"[..], &b"two"[..], &b"three"[..], &b"</s>"[..]] {
        let id = vocab.search_word(&word.to_vec());
        assert!(id >= 0);
        assert_eq!(vocab.word_at(id as usize), &word.to_vec());
    }
}

#[test]
fn counts_and_total_match_occurrences() {
    // Tokens: a a b; one newline adds a sentinel occurrence, and the
    // sentinel itself is inserted once up front.
    let vocab = Vocabulary::learn_vocabulary_from_training_file(&b"a a b\n".to_vec(), 1);
    assert_eq!(vocab.len(), 3);
    let id_a = vocab.search_word(&b"a".to_vec());
    let id_b = vocab.search_word(&b"b".to_vec());
    assert_eq!(vocab.count_at(id_a as usize), 2);
    assert_eq!(vocab.count_at(id_b as usize), 1);
    assert_eq!(vocab.count_at(0), 2);
    // Sum of retained counts.
    assert_eq!(vocab.train_words(), 2 + 2 + 1);
}

#[test]
fn entries_are_sorted_descending_by_count() {
    let vocab = Vocabulary::learn_vocabulary_from_training_file(
        &b"x y y z z z\nx y y z z z\nz\n".to_vec(),
        1,
    );
    // z: 7, y: 4, x: 2, sentinel: 4.
    assert_eq!(vocab.word_at(1), &b"z".to_vec());
    assert_eq!(vocab.count_at(1), 7);
    assert_eq!(vocab.word_at(2), &b"y".to_vec());
    assert_eq!(vocab.count_at(2), 4);
    assert_eq!(vocab.word_at(3), &b"x".to_vec());
    assert_eq!(vocab.count_at(3), 2);
    for i in 2..vocab.len() {
        assert!(vocab.count_at(i - 1) >= vocab.count_at(i));
    }
}

#[test]
fn equal_counts_keep_first_occurrence_order() {
    // x, y and z are all counted once: the sort is stable, so their
    // wordIDs follow the order they first occur in the corpus.
    let vocab = Vocabulary::learn_vocabulary_from_training_file(&b"x y z\n".to_vec(), 1);
    assert_eq!(vocab.word_at(1), &b"x".to_vec());
    assert_eq!(vocab.word_at(2), &b"y".to_vec());
    assert_eq!(vocab.word_at(3), &b"z".to_vec());
    // Ties below a higher count keep their order too.
    let vocab = Vocabulary::learn_vocabulary_from_training_file(&b"b a c\nc\n".to_vec(), 1);
    assert_eq!(vocab.word_at(1), &b"c".to_vec());
    assert_eq!(vocab.word_at(2), &b"b".to_vec());
    assert_eq!(vocab.word_at(3), &b"a".to_vec());
}

#[test]
fn min_count_drops_rare_words_and_total_follows() {
    let vocab = Vocabulary::learn_vocabulary_from_training_file(&b"a a b\n".to_vec(), 2);
    // b is dropped; the sentinel stays regardless.
    assert_eq!(vocab.len(), 2);
    assert_eq!(vocab.search_word(&b"b".to_vec()), -1);
    assert!(vocab.search_word(&b"a".to_vec()) >= 0);
    assert_eq!(vocab.train_words(), 2 + 2);
}

#[test]
fn unknown_word_is_not_found() {
    let vocab = Vocabulary::learn_vocabulary_from_training_file(&b"a b\n".to_vec(), 1);
    assert_eq!(vocab.search_word(&b"missing".to_vec()), -1);
    assert_eq!(vocab.search_word(&b"ab".to_vec()), -1);
}

#[test]
fn literal_sentinel_word_counts_into_word_id_zero() {
    let vocab = Vocabulary::learn_vocabulary_from_training_file(&b"a </s> a\n".to_vec(), 1);
    // Initial insert + literal token + newline.
    assert_eq!(vocab.count_at(0), 3);
    assert_eq!(vocab.search_word(&b"</s>".to_vec()), 0);
}

#[test]
fn empty_corpus_keeps_only_the_sentinel() {
    let vocab = Vocabulary::learn_vocabulary_from_training_file(&b"".to_vec(), 1);
    assert_eq!(vocab.len(), 1);
    assert!(!vocab.is_empty());
    assert_eq!(vocab.word_at(0), &b"</s>".to_vec());
    assert_eq!(vocab.train_words(), 1);
}
