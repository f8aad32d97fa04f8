use rs_gen_core::error::ModelError;
use rs_gen_core::state::State;

fn table(key: &str, entries: &[(char, u64)]) -> State {
    let mut st = State::new(key);
    for (c, n) in entries {
        st.add_occurrences(*c, *n);
    }
    st
}

#[test]
fn state_new_is_empty() {
    let st = State::new("ab");
    assert_eq!(st.entry_count(), 0);
    assert_eq!(st.total_count(), 0);
    assert_eq!(st.predict(), None);
    assert_eq!(st.key(), "ab");
}

#[test]
fn state_add_transition_counts() {
    let mut st = State::new("q");
    st.add_transition('x');
    st.add_transition('x');
    st.add_transition('y');
    assert_eq!(st.count_of('x'), 2);
    assert_eq!(st.count_of('y'), 1);
    assert_eq!(st.count_of('z'), 0);
    assert_eq!(st.entry_count(), 2);
    assert_eq!(st.total_count(), 3);
}

#[test]
fn state_count_saturates() {
    let mut st = table("k", &[('a', u64::MAX - 1)]);
    st.add_transition('a');
    st.add_transition('a');
    assert_eq!(st.count_of('a'), u64::MAX);
}

#[test]
fn state_merge_adds_counts() {
    let mut a = table("ab", &[('c', 2), ('d', 1)]);
    let b = table("ab", &[('d', 4), ('e', 7)]);
    assert_eq!(a.merge(&b), Ok(()));
    assert_eq!(a.count_of('c'), 2);
    assert_eq!(a.count_of('d'), 5);
    assert_eq!(a.count_of('e'), 7);
    assert_eq!(a.key(), "ab");
}

#[test]
fn state_merge_key_mismatch_leaves_unchanged() {
    let mut a = table("ab", &[('c', 2)]);
    let b = table("xy", &[('c', 4)]);
    assert_eq!(a.merge(&b), Err(ModelError::KeyMismatch));
    assert_eq!(a.count_of('c'), 2);
    assert_eq!(a.entry_count(), 1);
}

#[test]
fn state_predict_with_buckets() {
    let st = table("p", &[('a', 90), ('b', 10)]);
    assert_eq!(st.total_count(), 100);
    assert_eq!(st.predict_with(0), Some('a'));
    assert_eq!(st.predict_with(89), Some('a'));
    assert_eq!(st.predict_with(90), Some('b'));
    assert_eq!(st.predict_with(99), Some('b'));
    assert_eq!(st.predict_with(100), None);
}

#[test]
fn state_sampling_bias() {
    let st = table("p", &[('a', 90), ('b', 10)]);
    let mut a = 0;
    let n = 20000;
    for _ in 0..n {
        match st.predict() {
            Some('a') => a += 1,
            Some('b') => {}
            other => panic!("unexpected draw {:?}", other),
        }
    }
    let share = a as f64 / n as f64;
    assert!(share > 0.88 && share < 0.92, "share of a: {}", share);
}

#[test]
fn state_entries_in_first_seen_order() {
    let st = table("p", &[('z', 1), ('a', 3)]);
    assert_eq!(st.entry(0), ('z', 1));
    assert_eq!(st.entry(1), ('a', 3));
}
