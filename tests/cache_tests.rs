use rs_gen_core::multigram_model::MultiGramModel;
use rs_gen_core::ngram_model::NGramModel;
use rs_gen_core::state::State;

type Snapshot = (Vec<(usize, Vec<(String, Vec<(char, u64)>)>)>, Vec<String>, Vec<String>);

fn snapshot(m: &MultiGramModel) -> Snapshot {
    let mut orders = Vec::new();
    for order in 2..m.size() + 2 {
        let g = m.ngram(order).unwrap();
        let states = (0..g.state_count())
            .map(|i| {
                let st = g.table(i);
                (st.key(), (0..st.entry_count()).map(|j| st.entry(j)).collect())
            })
            .collect();
        orders.push((g.get_order(), states));
    }
    (orders, m.sentences().clone(), m.get_model_names().clone())
}

fn restore(s: &Snapshot) -> MultiGramModel {
    let mut m = MultiGramModel::default();
    for (order, states) in &s.0 {
        let mut g = NGramModel::new(*order).unwrap();
        for (key, entries) in states {
            let mut st = State::new(key);
            for (c, n) in entries {
                st.add_occurrences(*c, *n);
            }
            g.absorb(&st).unwrap();
        }
        m.push_ngram(g).unwrap();
    }
    for sentence in &s.1 {
        m.restore_sentence(sentence);
    }
    for name in &s.2 {
        m.add_model_name(name.clone());
    }
    m
}

#[test]
fn cache_round_trip_is_byte_identical() {
    let lines: Vec<String> = ["paris", "lyon", "nice", "Nantes", "lille"].iter().map(|s| s.to_string()).collect();
    let mut built = MultiGramModel::from_sentences(&lines);
    built.add_model_name("villes".to_string());
    let bytes = postcard::to_stdvec(&snapshot(&built)).unwrap();
    let decoded: Snapshot = postcard::from_bytes(&bytes).unwrap();
    let reloaded = restore(&decoded);
    let again = postcard::to_stdvec(&snapshot(&reloaded)).unwrap();
    assert_eq!(bytes, again);
    let rebuilt = MultiGramModel::from_sentences(&lines);
    let mut rebuilt_named = rebuilt.copy();
    rebuilt_named.add_model_name("villes".to_string());
    assert_eq!(postcard::to_stdvec(&snapshot(&rebuilt_named)).unwrap(), bytes);
}
