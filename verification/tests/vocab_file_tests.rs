use w2v_rs::vocab::{VocabError, Vocabulary};

#[test]
fn save_then_load_preserves_every_search_result() {
    let learned = Vocabulary::learn_vocabulary_from_training_file(
        &b"pear plum pear fig\nplum pear\n".to_vec(),
        1,
    );
    let bytes = learned.save_vocab();
    let loaded = Vocabulary::load_from_file(&bytes).expect("a saved file loads");
    assert_eq!(learned.len(), loaded.len());
    for id in 0..learned.len() {
        let word = learned.word_at(id).clone();
        assert_eq!(learned.search_word(&word), loaded.search_word(&word));
        assert_eq!(learned.count_at(id), loaded.count_at(id));
    }
    assert_eq!(learned.train_words(), loaded.train_words());
}

#[test]
fn load_parses_word_count_lines_in_order() {
    let vocab = Vocabulary::load_from_file(&b"</s> 3\nhello 2\nworld 1\n".to_vec()).unwrap();
    assert_eq!(vocab.len(), 3);
    assert_eq!(vocab.word_at(0), &b"</s>".to_vec());
    assert_eq!(vocab.word_at(1), &b"hello".to_vec());
    assert_eq!(vocab.count_at(1), 2);
    assert_eq!(vocab.search_word(&b"world".to_vec()), 2);
    assert_eq!(vocab.train_words(), 6);
}

#[test]
fn load_rejects_empty_input_as_empty_vocabulary() {
    assert!(matches!(
        Vocabulary::load_from_file(&b"".to_vec()),
        Err(VocabError::EmptyVocabulary)
    ));
}

#[test]
fn load_rejects_line_without_space() {
    assert!(matches!(
        Vocabulary::load_from_file(&b"a5\n".to_vec()),
        Err(VocabError::MalformedData)
    ));
}

#[test]
fn load_rejects_non_numeric_count() {
    assert!(matches!(
        Vocabulary::load_from_file(&b"a x\n".to_vec()),
        Err(VocabError::MalformedData)
    ));
    assert!(matches!(
        Vocabulary::load_from_file(&b"a 1x\n".to_vec()),
        Err(VocabError::MalformedData)
    ));
}

#[test]
fn load_rejects_empty_word() {
    assert!(matches!(
        Vocabulary::load_from_file(&b" 5\n".to_vec()),
        Err(VocabError::MalformedData)
    ));
}

#[test]
fn load_rejects_zero_and_oversized_counts() {
    assert!(matches!(
        Vocabulary::load_from_file(&b"a 0\n".to_vec()),
        Err(VocabError::MalformedData)
    ));
    assert!(matches!(
        Vocabulary::load_from_file(&b"a 4294967296\n".to_vec()),
        Err(VocabError::MalformedData)
    ));
}

#[test]
fn load_rejects_unterminated_last_line() {
    assert!(matches!(
        Vocabulary::load_from_file(&b"a 5\nb 2".to_vec()),
        Err(VocabError::MalformedData)
    ));
}

#[test]
fn load_rejects_duplicate_words() {
    assert!(matches!(
        Vocabulary::load_from_file(&b"a 5\na 6\n".to_vec()),
        Err(VocabError::DuplicateWord)
    ));
}

#[test]
fn load_does_not_reapply_a_min_count_filter() {
    // Counts of 1 survive a load even though a learn with min_count 2
    // would have dropped them.
    let vocab = Vocabulary::load_from_file(&b"</s> 1\nrare 1\n".to_vec()).unwrap();
    assert_eq!(vocab.len(), 2);
    assert!(vocab.search_word(&b"rare".to_vec()) >= 0);
}
