use w2v_rs::rng::LcRandomGen;
use w2v_rs::vocab::Vocabulary;

#[test]
fn rng_follows_the_linear_congruential_recurrence() {
    let mut gen = LcRandomGen::new(1);
    assert_eq!(gen.next_rand(), 25214903928);
    let mut again = LcRandomGen::new(1);
    assert_eq!(again.next_rand(), 25214903928);
    assert_eq!(gen.next_rand(), again.next_rand());
}

#[test]
fn sentinel_draw_falls_back_to_a_non_sentinel_word() {
    let vocab = Vocabulary::load_from_file(&b"</s> 1\na 10\nb 1\nc 1\n".to_vec()).unwrap();
    // Slot 0 of the unigram table always holds wordID 0, and a zero
    // seed selects slot 0, so this draw takes the uniform fallback.
    let drawn = vocab.sample_random_word(0);
    assert_eq!(drawn, 1);
}

#[test]
fn samples_are_always_valid_word_ids() {
    let vocab = Vocabulary::load_from_file(&b"</s> 1\na 10\nb 1\nc 1\n".to_vec()).unwrap();
    let mut gen = LcRandomGen::new(7);
    for _ in 0..1000 {
        let id = vocab.sample_random_word(gen.next_rand());
        assert!(0 <= id && id < vocab.len() as i32);
    }
}

#[test]
fn high_count_word_is_drawn_far_more_often() {
    let vocab = Vocabulary::load_from_file(&b"</s> 1\na 10\nb 1\nc 1\n".to_vec()).unwrap();
    let id_a = vocab.search_word(&b"a".to_vec());
    let id_b = vocab.search_word(&b"b".to_vec());
    let id_c = vocab.search_word(&b"c".to_vec());
    let mut gen = LcRandomGen::new(42);
    let mut hits = [0u32; 4];
    for _ in 0..100_000 {
        let id = vocab.sample_random_word(gen.next_rand());
        hits[id as usize] += 1;
    }
    // The sentinel is never returned: its draws are redirected.
    assert_eq!(hits[0], 0);
    // Statistically, the word counted ten times dominates both rare ones.
    assert!(hits[id_a as usize] > 3 * hits[id_b as usize]);
    assert!(hits[id_a as usize] > 3 * hits[id_c as usize]);
    assert!(hits[id_b as usize] > 0);
    assert!(hits[id_c as usize] > 0);
}
