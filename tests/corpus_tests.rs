use rs_gen_core::error::ModelError;
use rs_gen_core::generation::{END_CHAR, SCALE};
use rs_gen_core::multigram_model::MultiGramModel;
use rs_gen_core::ngram_model::NGramModel;
use rs_gen_core::prediction_input::StartSeed;

fn corpus(lines: &[&str]) -> MultiGramModel {
    let mut m = MultiGramModel::default();
    for l in lines {
        m.add_sentence(l);
    }
    m
}

/// Every count of the model, as sorted text lines, and its sentences.
fn dump(m: &MultiGramModel) -> (Vec<String>, Vec<String>) {
    let mut out = Vec::new();
    for order in 2..m.size() + 2 {
        let g = m.ngram(order).unwrap();
        for i in 0..g.state_count() {
            let st = g.table(i);
            for j in 0..st.entry_count() {
                let (c, n) = st.entry(j);
                out.push(format!("{}|{}|{}|{}", order, st.key(), c, n));
            }
        }
    }
    out.sort();
    let mut sentences = m.sentences().clone();
    sentences.sort();
    (out, sentences)
}

#[test]
fn corpus_end_to_end_scenario() {
    let m = corpus(&["cat", "car", "can"]);
    let order3 = m.ngram(3).unwrap();
    let st = order3.get_state("<c").unwrap();
    assert_eq!(st.count_of('a'), 3);
    let prefix: Vec<char> = "ca".chars().collect();
    for _ in 0..200 {
        let c = m.predict_char(&prefix, 3).unwrap();
        assert_ne!(c, END_CHAR);
        assert!(c == 't' || c == 'r' || c == 'n');
    }
}

#[test]
fn corpus_orders_up_to_wrapped_length() {
    let m = corpus(&["cat"]);
    assert_eq!(m.size(), 4);
    assert!(m.ngram(5).is_some());
    assert!(m.ngram(6).is_none());
    assert!(m.ngram(1).is_none());
    assert_eq!(m.ngram(5).unwrap().get_state("<cat").unwrap().count_of('>'), 1);
}

#[test]
fn corpus_sentinels_not_doubled() {
    let m = corpus(&["<hi>"]);
    assert_eq!(m.size(), 3);
    assert_eq!(m.ngram(2).unwrap().get_state("<").unwrap().count_of('h'), 1);
    assert!(m.ngram(2).unwrap().get_state("<<").is_none());
}

#[test]
fn corpus_dedup_idempotent() {
    let once = corpus(&["cat"]);
    let twice = corpus(&["cat", "cat"]);
    assert_eq!(dump(&once), dump(&twice));
    assert_eq!(twice.sentences().len(), 1);
    let other_case = corpus(&["cat", "Cat"]);
    assert_eq!(other_case.sentences().len(), 2);
}

#[test]
fn corpus_merge_associative_and_union() {
    let a = corpus(&["cat", "dog"]);
    let b = corpus(&["car", "cow"]);
    let c = corpus(&["can", "dot", "a"]);
    let mut ab_c = a.copy();
    ab_c.merge(&b).unwrap();
    ab_c.merge(&c).unwrap();
    let mut bc = b.copy();
    bc.merge(&c).unwrap();
    let mut a_bc = a.copy();
    a_bc.merge(&bc).unwrap();
    let all = MultiGramModel::from_sentences(
        &["cat", "dog", "car", "cow", "can", "dot", "a"].iter().map(|s| s.to_string()).collect(),
    );
    assert_eq!(dump(&ab_c), dump(&a_bc));
    assert_eq!(dump(&ab_c), dump(&all));
}

#[test]
fn corpus_merge_commutative() {
    let a = corpus(&["cat", "dog"]);
    let b = corpus(&["car", "cow", "x"]);
    let mut ab = a.copy();
    ab.merge(&b).unwrap();
    let mut ba = b.copy();
    ba.merge(&a).unwrap();
    assert_eq!(dump(&ab), dump(&ba));
}

#[test]
fn corpus_merge_appends_names() {
    let mut a = corpus(&["cat"]);
    a.add_model_name("first".to_string());
    let mut b = corpus(&["dog"]);
    b.add_model_name("second".to_string());
    a.merge(&b).unwrap();
    assert_eq!(a.get_model_names(), &vec!["first".to_string(), "second".to_string()]);
}

#[test]
fn corpus_exists_ignores_ascii_case() {
    let m = corpus(&["Paris"]);
    assert!(m.check_if_exists("paris"));
    assert!(m.check_if_exists("PARIS"));
    assert!(!m.check_if_exists("pari"));
    assert!(!m.check_if_exists("london"));
}

#[test]
fn corpus_predict_char_needs_context() {
    let m = corpus(&["cat"]);
    let short: Vec<char> = "c".chars().collect();
    assert_eq!(m.predict_char(&short, 3), None);
    let ctx: Vec<char> = "<c".chars().collect();
    assert_eq!(m.predict_char(&ctx, 3), Some('a'));
    assert_eq!(m.predict_char(&ctx, 1), None);
    assert_eq!(m.predict_char(&ctx, 9), None);
}

#[test]
fn corpus_generation_custom_seed() {
    let m = corpus(&["<hi>"]);
    let w = m.predict(0, 0, 0, false, &StartSeed::Custom("hi".to_string())).unwrap();
    assert_eq!(w, "hi");
    let w2 = m.predict(0, 0, 0, false, &StartSeed::Custom("<hi".to_string())).unwrap();
    assert_eq!(w2, "hi");
}

#[test]
fn corpus_generation_without_seed() {
    let m = corpus(&["abc"]);
    for _ in 0..20 {
        let w = m.predict(0, 0, 0, false, &StartSeed::False).unwrap();
        assert_eq!(w, "abc");
    }
    let w = m.predict(3, 2, SCALE, true, &StartSeed::Random(0)).unwrap();
    assert!(!w.contains(END_CHAR));
}

#[test]
fn corpus_generation_errors() {
    let m = corpus(&["abc"]);
    assert_eq!(m.predict(0, 0, SCALE + 1, false, &StartSeed::False), Err(ModelError::InvalidRandomness));
    let empty = MultiGramModel::default();
    assert_eq!(empty.predict(0, 0, 0, false, &StartSeed::False), Err(ModelError::NoModels));
}

#[test]
fn corpus_random_seed_at_order() {
    let m = corpus(&["ab"]);
    assert_eq!(m.get_random_seed(4).unwrap(), "<ab");
    assert_eq!(m.get_random_seed(7), None);
    assert_eq!(m.get_random_seed(1), None);
    assert_eq!(m.random_seed_at(2).unwrap(), "<ab");
}

#[test]
fn corpus_rebuild_from_parts() {
    let saved = corpus(&["cat", "car"]);
    let mut rebuilt = MultiGramModel::default();
    for order in 2..saved.size() + 2 {
        let g = saved.ngram(order).unwrap();
        let mut copy = NGramModel::new(order).unwrap();
        for i in 0..g.state_count() {
            copy.absorb(g.table(i)).unwrap();
        }
        rebuilt.push_ngram(copy).unwrap();
    }
    for s in saved.sentences() {
        rebuilt.restore_sentence(s);
    }
    assert_eq!(dump(&saved), dump(&rebuilt));
    assert_eq!(rebuilt.push_ngram(NGramModel::new(2).unwrap()), Err(ModelError::OrderMismatch));
}

#[test]
fn corpus_predict_counted_retries() {
    let m = corpus(&["ab"]);
    let (w, t) = m.predict_counted(0, 3, 0, false, &StartSeed::False).unwrap();
    assert_eq!(w, "ab");
    assert_eq!(t, 3);
    let (w0, t0) = m.predict_counted(0, 0, 0, false, &StartSeed::False).unwrap();
    assert_eq!(w0, "ab");
    assert_eq!(t0, 0);
    let (w1, t1) = m.predict_counted(0, 3, 0, false, &StartSeed::Custom("x".to_string())).unwrap();
    assert_eq!(w1, "x");
    assert_eq!(t1, 0);
}

#[test]
fn corpus_random_seed_of_selected_order() {
    let m = corpus(&["abc"]);
    for _ in 0..20 {
        let w = m.predict(0, 0, 0, false, &StartSeed::Random(3)).unwrap();
        assert!(w == "abc" || w == "bc" || w == "c>", "{}", w);
    }
}
