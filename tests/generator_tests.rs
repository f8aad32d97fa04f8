use rs_gen_core::error::ModelError;
use rs_gen_core::generation::{compute_randomness, next_order, order_choice, target_order, SCALE};
use rs_gen_core::generator::Generator;
use rs_gen_core::multigram_model::MultiGramModel;
use rs_gen_core::prediction_input::{Probability, StartSeed};
use rs_gen_core::seed::parse_seed;
use rs_gen_core::text::lowercase;

fn corpus(lines: &[&str]) -> MultiGramModel {
    let mut m = MultiGramModel::default();
    for l in lines {
        m.add_sentence(l);
    }
    m
}

fn generator(names: &[&str]) -> Generator {
    let mut g = Generator::new();
    for n in names {
        g.load_model(n.to_string(), corpus(&["abc", "bcd"])).unwrap();
    }
    g
}

#[test]
fn generator_names_and_duplicates() {
    let mut g = generator(&["french", "cities"]);
    assert_eq!(g.get_model_names(), vec!["french".to_string(), "cities".to_string()]);
    assert_eq!(g.load_model("french".to_string(), corpus(&["x"])), Err(ModelError::ModelAlreadyLoaded));
    assert_eq!(g.get_model_names().len(), 2);
    assert!(g.get_model("cities").is_some());
    assert!(g.get_model("none").is_none());
}

#[test]
fn config_randomness_validation() {
    let g = generator(&["a"]);
    let mut input = g.make_prediction_input();
    assert_eq!(input.set_randomness(100_000), Ok(()));
    assert_eq!(input.set_randomness(1_500_000), Err(ModelError::InvalidRandomness));
    assert_eq!(input.randomness(), 100_000);
    assert_eq!(input.set_randomness(-100_000), Err(ModelError::InvalidRandomness));
    assert_eq!(input.randomness(), 100_000);
    assert_eq!(input.set_randomness(SCALE as i64), Ok(()));
    assert_eq!(input.set_randomness(0), Ok(()));
}

#[test]
fn config_unknown_model_rejected() {
    let g = generator(&["a", "b"]);
    let mut input = g.make_prediction_input();
    input.set_model_intensity("a", 3).unwrap();
    let before = input.models_probability();
    assert_eq!(input.set_model_intensity("unknown", 5), Err(ModelError::UnknownModel));
    assert_eq!(input.models_probability(), before);
}

#[test]
fn config_normalization() {
    let g = generator(&["french", "fromage", "ville", "pokemon"]);
    let mut input = g.make_prediction_input();
    for (name, p) in input.models_probability() {
        assert_eq!(p, Probability { numerator: 1, denominator: 4 }, "{}", name);
    }
    input.set_model_intensity("french", 100).unwrap();
    input.set_model_intensity("fromage", 50).unwrap();
    input.set_model_intensity("ville", 25).unwrap();
    input.set_model_intensity("pokemon", 0).unwrap();
    let probs = input.models_probability();
    let expect = [("french", 100), ("fromage", 50), ("ville", 25), ("pokemon", 0)];
    assert_eq!(probs.len(), 4);
    for (i, (name, n)) in expect.iter().enumerate() {
        assert_eq!(probs[i].0, *name);
        assert_eq!(probs[i].1, Probability { numerator: *n, denominator: 175 });
    }
}

#[test]
fn config_defaults_and_setters() {
    let g = generator(&["a"]);
    let mut input = g.make_prediction_input();
    assert_eq!(input.max_n(), 0);
    assert_eq!(input.nb_try(), 0);
    assert!(!input.reduce_random());
    assert_eq!(input.start_seed(), &StartSeed::False);
    input.set_max_n(5);
    input.set_nb_try(3);
    input.set_reduce_random(true);
    input.set_start_seed(StartSeed::Random(2));
    assert_eq!(input.max_n(), 5);
    assert_eq!(input.nb_try(), 3);
    assert!(input.reduce_random());
    assert_eq!(input.start_seed(), &StartSeed::Random(2));
}

#[test]
fn generator_weighted_ordering_bias() {
    let g = generator(&["x", "y"]);
    let mut input = g.make_prediction_input();
    input.set_model_intensity("x", 10).unwrap();
    input.set_model_intensity("y", 1).unwrap();
    let mut x_first = 0;
    let n = 4000;
    for _ in 0..n {
        let order = g.get_random_models(&input);
        assert_eq!(order.len(), 2);
        if order[0] == "x" {
            x_first += 1;
        }
    }
    let share = x_first as f64 / n as f64;
    assert!(share > 0.85 && share < 0.96, "x first in {}", share);
}

#[test]
fn generator_ordering_skips_zero_weight() {
    let g = generator(&["x", "y", "z"]);
    let mut input = g.make_prediction_input();
    input.set_model_intensity("x", 1).unwrap();
    for _ in 0..20 {
        assert_eq!(g.get_random_models(&input), vec!["x".to_string()]);
    }
}

#[test]
fn generator_backoff_termination() {
    let mut g = Generator::new();
    g.load_model("hi".to_string(), corpus(&["<hi>"])).unwrap();
    let mut input = g.make_prediction_input();
    input.set_start_seed(StartSeed::Custom("hi".to_string()));
    assert_eq!(g.predict(&input), Ok("hi".to_string()));
    input.set_reduce_random(true);
    input.set_randomness(SCALE as i64).unwrap();
    let w = g.predict(&input).unwrap();
    assert!(w.starts_with("hi"));
}

#[test]
fn generator_generates_from_models() {
    let mut g = Generator::new();
    g.load_model("one".to_string(), corpus(&["abc"])).unwrap();
    let input = g.make_prediction_input();
    assert_eq!(g.predict(&input), Ok("abc".to_string()));
}

#[test]
fn generator_errors() {
    let g = Generator::new();
    let input = g.make_prediction_input();
    assert_eq!(g.predict(&input), Err(ModelError::NoModels));
    let mut empty = Generator::new();
    empty.load_model("e".to_string(), MultiGramModel::default()).unwrap();
    let mut input = empty.make_prediction_input();
    input.set_start_seed(StartSeed::Random(0));
    assert_eq!(empty.predict(&input), Err(ModelError::NoSeed));
}

#[test]
fn generator_merge_by_name() {
    let mut a = Generator::new();
    a.load_model("m".to_string(), corpus(&["ab"])).unwrap();
    let mut b = Generator::new();
    b.load_model("m".to_string(), corpus(&["ab", "cd"])).unwrap();
    b.load_model("n".to_string(), corpus(&["xy"])).unwrap();
    assert_eq!(a.merge(&b), Ok(()));
    assert_eq!(a.get_model_names(), vec!["m".to_string(), "n".to_string()]);
    let m = a.get_model("m").unwrap();
    assert_eq!(m.ngram(3).unwrap().get_state("<a").unwrap().count_of('b'), 2);
    assert_eq!(m.ngram(2).unwrap().get_state("c").unwrap().count_of('d'), 1);
    assert!(m.check_if_exists("cd"));
}

#[test]
fn generator_duplicate_check() {
    let g = generator(&["a"]);
    assert!(g.check_if_exists("ABC"));
    assert!(!g.check_if_exists("abcd"));
}

#[test]
fn order_helpers() {
    assert_eq!(target_order(3, 0), 4);
    assert_eq!(target_order(3, 1), 4);
    assert_eq!(target_order(3, 2), 2);
    assert_eq!(target_order(3, 9), 4);
    assert_eq!(order_choice(10, 7, 3, 4), 6);
    assert_eq!(order_choice(10, 7, 10, 4), 7);
    assert_eq!(compute_randomness(0, 5, 3), 3);
    for _ in 0..50 {
        let r = compute_randomness(SCALE, 5, 3);
        assert!((2..=5).contains(&r));
    }
    assert_eq!(next_order(5, 0, false), 4);
    assert_eq!(next_order(2, SCALE, true), 1);
    for _ in 0..50 {
        let r = next_order(6, SCALE, true);
        assert!((2..=5).contains(&r));
    }
}

#[test]
fn seed_parsing() {
    assert_eq!(parse_seed("none"), Ok(StartSeed::False));
    assert_eq!(parse_seed("NONE"), Ok(StartSeed::False));
    assert_eq!(parse_seed("CUSTOM:Abc"), Ok(StartSeed::Custom("abc".to_string())));
    assert_eq!(parse_seed("custom:"), Err(ModelError::InvalidSeed));
    assert_eq!(parse_seed("random:3"), Ok(StartSeed::Random(3)));
    assert_eq!(parse_seed("random:+4"), Ok(StartSeed::Random(4)));
    assert_eq!(parse_seed("random:x"), Err(ModelError::InvalidSeed));
    assert_eq!(parse_seed("random:"), Err(ModelError::InvalidSeed));
    assert_eq!(parse_seed("random:99999999999999999999999"), Err(ModelError::InvalidSeed));
    assert_eq!(parse_seed("foo"), Err(ModelError::InvalidSeed));
}

#[test]
fn generator_predict_counted_retries() {
    let mut g = Generator::new();
    g.load_model("one".to_string(), corpus(&["abc"])).unwrap();
    let mut input = g.make_prediction_input();
    input.set_nb_try(2);
    assert_eq!(g.predict_counted(&input), Ok(("abc".to_string(), 2)));
    input.set_start_seed(StartSeed::Custom("zz".to_string()));
    assert_eq!(g.predict_counted(&input), Ok(("zz".to_string(), 0)));
}

#[test]
fn lowercase_ascii_and_beyond() {
    assert_eq!(lowercase('A'), 'a');
    assert_eq!(lowercase('>'), '>');
    assert_eq!(lowercase('z'), 'z');
    assert_eq!(lowercase('Ä'), 'ä');
}

#[test]
fn config_setters_keep_other_settings() {
    let g = generator(&["a"]);
    let mut input = g.make_prediction_input();
    input.set_max_n(4);
    input.set_nb_try(7);
    input.set_reduce_random(true);
    input.set_start_seed(StartSeed::Random(3));
    input.set_randomness(500_000).unwrap();
    assert!(input.set_randomness(1_500_000).is_err());
    assert!(input.set_model_intensity("a", 9).is_ok());
    assert_eq!(input.randomness(), 500_000);
    assert_eq!(input.max_n(), 4);
    assert_eq!(input.nb_try(), 7);
    assert!(input.reduce_random());
    assert_eq!(input.start_seed(), &StartSeed::Random(3));
}
