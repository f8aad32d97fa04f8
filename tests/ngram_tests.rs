use rs_gen_core::error::ModelError;
use rs_gen_core::ngram_model::NGramModel;
use rs_gen_core::state::State;

#[test]
fn ngram_new_rejects_small_order() {
    assert!(matches!(NGramModel::new(1), Err(ModelError::OrderTooSmall)));
    assert!(matches!(NGramModel::new(0), Err(ModelError::OrderTooSmall)));
    let m = NGramModel::new(2).unwrap();
    assert_eq!(m.get_order(), 2);
    assert_eq!(m.state_count(), 0);
}

#[test]
fn ngram_add_sentence_lowercases() {
    let mut m = NGramModel::new(3).unwrap();
    m.add_sentence("ABC");
    let st = m.get_state("ab").unwrap();
    assert_eq!(st.count_of('c'), 1);
    assert_eq!(st.key(), "ab");
    assert!(m.get_state("AB").is_some());
    assert_eq!(m.predict("aB"), Some('c'));
}

#[test]
fn ngram_lowercases_beyond_ascii() {
    let mut m = NGramModel::new(2).unwrap();
    m.add_sentence("ÉT");
    let st = m.get_state("é").unwrap();
    assert_eq!(st.count_of('t'), 1);
}

#[test]
fn ngram_short_sentence_ignored() {
    let mut m = NGramModel::new(4).unwrap();
    m.add_sentence("abc");
    assert_eq!(m.state_count(), 0);
    assert_eq!(m.get_random_seed(), None);
}

#[test]
fn ngram_prefix_lengths() {
    let mut m = NGramModel::new(3).unwrap();
    m.add_sentence("hello world");
    m.add_sentence("help");
    assert!(m.state_count() > 0);
    for i in 0..m.state_count() {
        assert_eq!(m.table(i).key().chars().count(), 2);
    }
}

#[test]
fn ngram_counts_every_window() {
    let mut m = NGramModel::new(2).unwrap();
    m.add_sentence("abab");
    assert_eq!(m.get_state("a").unwrap().count_of('b'), 2);
    assert_eq!(m.get_state("b").unwrap().count_of('a'), 1);
    assert_eq!(m.state_count(), 2);
}

#[test]
fn ngram_predict_unknown_prefix() {
    let mut m = NGramModel::new(2).unwrap();
    m.add_sentence("ab");
    assert_eq!(m.predict("a"), Some('b'));
    assert_eq!(m.predict("b"), None);
    assert_eq!(m.predict("zz"), None);
}

#[test]
fn ngram_merge_sums_and_copies() {
    let mut a = NGramModel::new(2).unwrap();
    a.add_sentence("ab");
    let mut b = NGramModel::new(2).unwrap();
    b.add_sentence("ab");
    b.add_sentence("cd");
    assert!(a.merge(&b).is_ok());
    assert_eq!(a.get_state("a").unwrap().count_of('b'), 2);
    assert_eq!(a.get_state("c").unwrap().count_of('d'), 1);
}

#[test]
fn ngram_merge_order_mismatch() {
    let mut a = NGramModel::new(2).unwrap();
    a.add_sentence("ab");
    let b = NGramModel::new(3).unwrap();
    assert_eq!(a.merge(&b), Err(ModelError::OrderMismatch));
    assert_eq!(a.state_count(), 1);
}

#[test]
fn ngram_random_seed_is_known() {
    let mut m = NGramModel::new(3).unwrap();
    m.add_sentence("abcd");
    for _ in 0..20 {
        let s = m.get_random_seed().unwrap();
        assert!(s == "ab" || s == "bc");
    }
}

#[test]
fn ngram_absorb_checks_prefix_length() {
    let mut m = NGramModel::new(3).unwrap();
    let mut st = State::new("ab");
    st.add_occurrences('c', 4);
    assert!(m.absorb(&st).is_ok());
    assert_eq!(m.get_state("ab").unwrap().count_of('c'), 4);
    let mut wrong = State::new("a");
    wrong.add_occurrences('c', 1);
    assert_eq!(m.absorb(&wrong), Err(ModelError::KeyMismatch));
    assert_eq!(m.absorb(&State::new("xy")), Err(ModelError::KeyMismatch));
    assert_eq!(m.state_count(), 1);
}
