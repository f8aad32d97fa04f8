//! The generator: named corpus models blended under a `PredictionInput`.

use vstd::prelude::*;
use vstd::seq_lib::{to_multiset_build, to_multiset_contains, to_multiset_remove};
use crate::counts::{assoc_map, keys_unique, lemma_assoc_contains, lemma_assoc_index, lemma_assoc_push, lemma_assoc_update, Transitions};
use crate::error::ModelError;
use crate::generation::{
    compute_n, context_chars, context_of, continues_any, eligible_at, finished_any, follows_any,
    generated_from_any, knows, next_order, predicts, random_key_for, random_key_of, random_seed_of, seed_index_ok,
    seed_missing_any, seed_missing_for, seeded_by_any, strip_start_chars, tail_of, END_CHAR, SCALE,
};
use crate::multigram_model::{merge_view, CorpusView, MultiGramModel};
use crate::prediction_input::{PredictionInput, StartSeed};
use crate::random::draw_below;
use crate::text::{chars_of, same_chars, same_ignoring_case, string_of};

verus! {

/// The names, in order, of the entries of `probs` with a positive
/// probability whose model is loaded (among `loaded`).
pub open spec fn eligible_names(probs: Seq<(Seq<char>, nat, nat)>, loaded: Seq<Seq<char>>) -> Seq<Seq<char>>
    decreases probs.len(),
{
    if probs.len() == 0 {
        Seq::empty()
    } else {
        let rest = eligible_names(probs.drop_last(), loaded);
        let p = probs.last();
        if p.1 > 0 && loaded.contains(p.0) {
            rest.push(p.0)
        } else {
            rest
        }
    }
}

proof fn lemma_eligible_loaded(probs: Seq<(Seq<char>, nat, nat)>, loaded: Seq<Seq<char>>, x: Seq<char>)
    requires
        eligible_names(probs, loaded).contains(x),
    ensures
        loaded.contains(x),
    decreases probs.len(),
{
    if probs.len() > 0 {
        let rest = eligible_names(probs.drop_last(), loaded);
        if rest.contains(x) {
            lemma_eligible_loaded(probs.drop_last(), loaded, x);
        } else {
            let e = eligible_names(probs, loaded);
            let i = choose|i: int| 0 <= i < e.len() && e[i] == x;
            if i < rest.len() {
                assert(rest[i] == x);
            }
        }
    }
}

/// The sum of the weights of `s`.
pub open spec fn weight_sum(s: Seq<(String, u32)>) -> nat
    decreases s.len(),
{
    if s.len() == 0 {
        0
    } else {
        weight_sum(s.drop_last()) + s.last().1 as nat
    }
}

proof fn lemma_weight_sum_prefix(s: Seq<(String, u32)>, k: int)
    requires
        0 <= k <= s.len(),
    ensures
        weight_sum(s.subrange(0, k)) <= weight_sum(s),
    decreases s.len() - k,
{
    if k < s.len() {
        lemma_weight_sum_prefix(s, k + 1);
        assert(s.subrange(0, k + 1).drop_last() =~= s.subrange(0, k));
    } else {
        assert(s.subrange(0, k) =~= s);
    }
}

proof fn lemma_weight_sum_positive(s: Seq<(String, u32)>)
    requires
        forall|i: int| 0 <= i < s.len() ==> #[trigger] s[i].1 > 0,
    ensures
        weight_sum(s) >= s.len(),
    decreases s.len(),
{
    if s.len() > 0 {
        lemma_weight_sum_positive(s.drop_last());
    }
}

/// The sum of the weights of `s`.
fn total_weight(s: &Vec<(String, u32)>) -> (r: u128)
    ensures
        r == weight_sum(s@),
{
    let mut acc: u128 = 0;
    let mut i: usize = 0;
    while i < s.len()
        invariant
            i <= s.len(),
            acc == weight_sum(s@.subrange(0, i as int)),
            acc <= i * (u32::MAX as int),
        decreases s.len() - i,
    {
        proof {
            assert(s@.subrange(0, i + 1).drop_last() =~= s@.subrange(0, i as int));
            assert((i + 1) * (u32::MAX as int) == i * (u32::MAX as int) + u32::MAX) by (nonlinear_arith);
            assert((i + 1) * (u32::MAX as int) <= (usize::MAX as int) * (u32::MAX as int)) by (nonlinear_arith)
                requires i + 1 <= usize::MAX;
        }
        acc = acc + s[i].1 as u128;
        i += 1;
    }
    proof {
        assert(s@.subrange(0, i as int) =~= s@);
    }
    acc
}

/// The position whose bucket holds `draw`, the weights laid out one after
/// another as buckets of their sizes.
pub fn pick_weighted(s: &Vec<(String, u32)>, draw: u128) -> (r: usize)
    requires
        draw < weight_sum(s@),
    ensures
        r < s.len(),
        weight_sum(s@.subrange(0, r as int)) <= draw < weight_sum(s@.subrange(0, r + 1)),
{
    let mut acc: u128 = 0;
    let mut i: usize = 0;
    while i < s.len()
        invariant
            i <= s.len(),
            acc == weight_sum(s@.subrange(0, i as int)),
            acc <= draw,
            draw < weight_sum(s@),
            acc <= i * (u32::MAX as int),
        decreases s.len() - i,
    {
        let w = s[i].1 as u128;
        proof {
            assert(s@.subrange(0, i + 1).drop_last() =~= s@.subrange(0, i as int));
            assert((i + 1) * (u32::MAX as int) == i * (u32::MAX as int) + u32::MAX) by (nonlinear_arith);
            assert((i + 1) * (u32::MAX as int) <= (usize::MAX as int) * (u32::MAX as int)) by (nonlinear_arith)
                requires i + 1 <= usize::MAX;
        }
        if draw - acc < w {
            return i;
        }
        acc = acc + w;
        i += 1;
    }
    proof {
        assert(s@.subrange(0, i as int) =~= s@);
    }
    0
}

/// Two sets of corpus models combined by name: a name in both gets the
/// merge of its two models, a name in one keeps its model.
pub open spec fn merge_corpora(a: Map<Seq<char>, CorpusView>, b: Map<Seq<char>, CorpusView>) -> Map<Seq<char>, CorpusView> {
    Map::new(
        |k: Seq<char>| a.contains_key(k) || b.contains_key(k),
        |k: Seq<char>|
            if a.contains_key(k) && b.contains_key(k) {
                merge_view(a[k], b[k])
            } else if a.contains_key(k) {
                a[k]
            } else {
                b[k]
            },
    )
}

proof fn lemma_merge_corpora_insert(
    c: Map<Seq<char>, CorpusView>,
    a: Map<Seq<char>, CorpusView>,
    k: Seq<char>,
    v: CorpusView,
)
    requires
        !a.contains_key(k),
    ensures
        merge_corpora(c, a.insert(k, v)) == merge_corpora(c, a).insert(
            k,
            if c.contains_key(k) {
                merge_view(c[k], v)
            } else {
                v
            },
        ),
        c.contains_key(k) ==> merge_corpora(c, a)[k] == c[k],
        merge_corpora(c, a).contains_key(k) <==> c.contains_key(k),
{
    assert(merge_corpora(c, a.insert(k, v)) =~= merge_corpora(c, a).insert(
        k,
        if c.contains_key(k) {
            merge_view(c[k], v)
        } else {
            v
        },
    ));
}

/// Several named corpus models, blended to generate words.
pub struct Generator {
    models: Vec<(String, MultiGramModel)>,
}

impl Generator {
    /// The loaded models with their names, in the order they were loaded.
    pub closed spec fn entries(&self) -> Seq<(String, MultiGramModel)> {
        self.models@
    }

    /// The names of the loaded models.
    pub open spec fn names(&self) -> Seq<Seq<char>> {
        self.entries().map_values(|e: (String, MultiGramModel)| e.0@)
    }

    /// The transitions of each loaded model, in load order.
    pub open spec fn grams_list(&self) -> Seq<Seq<Transitions>> {
        self.entries().map_values(|e: (String, MultiGramModel)| e.1.view().grams)
    }

    /// What each loaded model has learned, by name.
    pub open spec fn corpora(&self) -> Map<Seq<char>, CorpusView> {
        assoc_map(self.entries().map_values(|e: (String, MultiGramModel)| (e.0@, e.1.view())))
    }

    /// Names are unique and every model is well formed.
    pub open spec fn wf(&self) -> bool {
        &&& keys_unique(self.entries().map_values(|e: (String, MultiGramModel)| (e.0@, e.1.view())))
        &&& forall|i: int| 0 <= i < self.entries().len() ==> (#[trigger] self.entries()[i]).1.wf()
    }

    /// A generator with no model loaded.
    pub fn new() -> (r: Self)
        ensures
            r.wf(),
            r.names().len() == 0,
    {
        Generator { models: Vec::new() }
    }

    /// The position of the model named `name`.
    fn find(&self, name: &str) -> (r: Option<usize>)
        ensures
            match r {
                Some(i) => i < self.names().len() && self.names()[i as int] == name@,
                None => !self.names().contains(name@),
            },
    {
        let target = chars_of(name);
        let mut i: usize = 0;
        while i < self.models.len()
            invariant
                i <= self.models.len(),
                target@ == name@,
                forall|j: int| 0 <= j < i ==> #[trigger] self.names()[j] != name@,
            decreases self.models.len() - i,
        {
            let n = chars_of(self.models[i].0.as_str());
            if same_chars(&n, &target) {
                return Some(i);
            }
            i += 1;
        }
        None
    }

    /// The model named `name`, if loaded.
    pub fn get_model(&self, name: &str) -> (r: Option<&MultiGramModel>)
        requires
            self.wf(),
        ensures
            r is None <==> !self.corpora().contains_key(name@),
            r matches Some(m) ==> m.wf() && m.view() == self.corpora()[name@],
    {
        let ghost q = self.entries().map_values(|e: (String, MultiGramModel)| (e.0@, e.1.view()));
        proof {
            lemma_assoc_contains(q, name@);
        }
        match self.find(name) {
            Some(i) => {
                proof {
                    lemma_assoc_index(q, i as int);
                    assert(self.entries()[i as int].1.wf());
                }
                Some(&self.models[i].1)
            },
            None => {
                proof {
                    if self.corpora().contains_key(name@) {
                        let k = choose|k: int| 0 <= k < q.len() && q[k].0 == name@;
                        assert(self.names()[k] == name@);
                    }
                }
                None
            },
        }
    }

    /// Adds `model` under `name`; refused when a model of that name is
    /// already loaded.
    pub fn load_model(&mut self, name: String, model: MultiGramModel) -> (r: Result<(), ModelError>)
        requires
            old(self).wf(),
            model.wf(),
        ensures
            final(self).wf(),
            r is Ok <==> !old(self).names().contains(name@),
            r is Err ==> r == Err::<(), ModelError>(ModelError::ModelAlreadyLoaded) && final(self).entries() == old(self).entries(),
            r is Ok ==> final(self).names() == old(self).names().push(name@)
                && final(self).corpora() == old(self).corpora().insert(name@, model.view()),
    {
        if self.find(name.as_str()).is_some() {
            return Err(ModelError::ModelAlreadyLoaded);
        }
        let ghost q = self.entries().map_values(|e: (String, MultiGramModel)| (e.0@, e.1.view()));
        proof {
            lemma_assoc_contains(q, name@);
            if assoc_map(q).contains_key(name@) {
                let k = choose|k: int| 0 <= k < q.len() && q[k].0 == name@;
                assert(self.names()[k] == name@);
            }
            lemma_assoc_push(q, name@, model.view());
        }
        let ghost nv = name@;
        let ghost mv = model.view();
        self.models.push((name, model));
        proof {
            assert(self.entries().map_values(|e: (String, MultiGramModel)| (e.0@, e.1.view())) =~= q.push((nv, mv)));
            assert(self.names() =~= old(self).names().push(nv));
        }
        Ok(())
    }

    /// The names of the loaded models, in load order.
    pub fn get_model_names(&self) -> (r: Vec<String>)
        ensures
            r@.map_values(|s: String| s@) == self.names(),
    {
        let mut out: Vec<String> = Vec::new();
        let mut i: usize = 0;
        while i < self.models.len()
            invariant
                i <= self.models.len(),
                out@.len() == i,
                forall|k: int| 0 <= k < i ==> (#[trigger] out@[k])@ == self.names()[k],
            decreases self.models.len() - i,
        {
            out.push(self.models[i].0.clone());
            i += 1;
        }
        proof {
            assert(out@.map_values(|s: String| s@) =~= self.names());
        }
        out
    }

    /// Settings that give every loaded model intensity 0 (so equal
    /// probabilities), with no order limit, no retries, no randomness and
    /// no seed.
    pub fn make_prediction_input(&self) -> (r: PredictionInput)
        requires
            self.wf(),
        ensures
            r.wf(),
            r.intensities() == self.names().map_values(|n: Seq<char>| (n, 0nat)),
            r.randomness_spec() == 0,
            r.max_order() == 0,
            r.retries() == 0,
            !r.reduces_randomly(),
            r.seed() == StartSeed::False,
    {
        let mut v: Vec<(String, u32)> = Vec::new();
        let mut i: usize = 0;
        while i < self.models.len()
            invariant
                i <= self.models.len(),
                v@.len() == i,
                forall|k: int| 0 <= k < i ==> (#[trigger] v@[k]).0@ == self.names()[k] && v@[k].1 == 0,
            decreases self.models.len() - i,
        {
            v.push((self.models[i].0.clone(), 0));
            i += 1;
        }
        proof {
            assert(v@.map_values(|e: (String, u32)| (e.0@, e.1 as nat)) =~= self.names().map_values(|n: Seq<char>| (n, 0nat)));
            let q = self.entries().map_values(|e: (String, MultiGramModel)| (e.0@, e.1.view()));
            let z = self.names().map_values(|n: Seq<char>| (n, 0nat));
            assert forall|a: int, b: int| 0 <= a < z.len() && 0 <= b < z.len() && a != b implies
                #[trigger] z[a].0 != #[trigger] z[b].0 by {
                assert(q[a].0 != q[b].0);
            }
        }
        PredictionInput::new(v)
    }

    /// The loaded model names in a random order biased by probability:
    /// the models with a positive probability that are loaded are drawn
    /// one after another without replacement, each with a chance
    /// proportional to its probability among those left.
    pub fn get_random_models(&self, prediction_input: &PredictionInput) -> (r: Vec<String>)
        requires
            self.wf(),
            prediction_input.wf(),
        ensures
            r@.map_values(|s: String| s@).to_multiset() == eligible_names(
                prediction_input.probabilities(),
                self.names(),
            ).to_multiset(),
            r.len() == eligible_names(prediction_input.probabilities(), self.names()).len(),
            forall|k: int| 0 <= k < r.len() ==> self.names().contains(#[trigger] r@[k]@),
            forall|k: int| 0 <= k < r.len() ==> eligible_names(prediction_input.probabilities(), self.names()).contains(#[trigger] r@[k]@),
            forall|x: Seq<char>| eligible_names(prediction_input.probabilities(), self.names()).contains(x)
                ==> exists|k: int| 0 <= k < r.len() && #[trigger] r@[k]@ == x,
    {
        let probs = prediction_input.models_probability();
        let ghost pv = prediction_input.probabilities();
        let ghost elig = eligible_names(pv, self.names());
        let mut cands: Vec<(String, u32)> = Vec::new();
        let mut i: usize = 0;
        while i < probs.len()
            invariant
                i <= probs.len(),
                pv == probs@.map_values(|e: (String, crate::prediction_input::Probability)| (e.0@, e.1.numerator as nat, e.1.denominator as nat)),
                cands@.map_values(|c: (String, u32)| c.0@) == eligible_names(pv.subrange(0, i as int), self.names()),
                forall|k: int| 0 <= k < cands.len() ==> #[trigger] cands@[k].1 > 0,
            decreases probs.len() - i,
        {
            let ghost before = cands@;
            assert(pv.subrange(0, i + 1).drop_last() =~= pv.subrange(0, i as int));
            let num = probs[i].1.numerator;
            if num > 0 && self.find(probs[i].0.as_str()).is_some() {
                cands.push((probs[i].0.clone(), num));
                proof {
                    assert(cands@.map_values(|c: (String, u32)| c.0@) =~= before.map_values(|c: (String, u32)| c.0@).push(probs@[i as int].0@));
                }
            }
            i += 1;
        }
        proof {
            assert(pv.subrange(0, i as int) =~= pv);
        }
        let mut result: Vec<String> = Vec::new();
        proof {
            let rn0 = result@.map_values(|s: String| s@);
            vstd::seq_lib::to_multiset_len(rn0);
            vstd::multiset::lemma_multiset_empty_len(rn0.to_multiset());
            assert(rn0.to_multiset().add(elig.to_multiset()) =~= elig.to_multiset());
        }
        while cands.len() > 0
            invariant
                elig == eligible_names(pv, self.names()),
                result@.map_values(|s: String| s@).to_multiset().add(cands@.map_values(|c: (String, u32)| c.0@).to_multiset()) == elig.to_multiset(),
                forall|k: int| 0 <= k < cands.len() ==> #[trigger] cands@[k].1 > 0,
            decreases cands.len(),
        {
            let total = total_weight(&cands);
            proof {
                lemma_weight_sum_positive(cands@);
            }
            let d = draw_below(total);
            let idx = pick_weighted(&cands, d);
            let ghost rn = result@.map_values(|s: String| s@);
            let ghost cn = cands@.map_values(|c: (String, u32)| c.0@);
            let ghost cv = cands@;
            let (name, _) = cands.remove(idx);
            result.push(name);
            proof {
                let x = cn[idx as int];
                assert(cands@.map_values(|c: (String, u32)| c.0@) =~= cn.remove(idx as int));
                assert(result@.map_values(|s: String| s@) =~= rn.push(x));
                to_multiset_remove(cn, idx as int);
                to_multiset_build(rn, x);
                to_multiset_contains(cn, x);
                assert(cn.contains(x));
                assert(rn.push(x).to_multiset().add(cn.remove(idx as int).to_multiset()) =~= rn.to_multiset().add(cn.to_multiset()));
                assert forall|k: int| 0 <= k < cands.len() implies #[trigger] cands@[k].1 > 0 by {
                    if k < idx {
                        assert(cands@[k] == cv[k]);
                    } else {
                        assert(cands@[k] == cv[k + 1]);
                    }
                }
            }
        }
        proof {
            let rn = result@.map_values(|s: String| s@);
            let cn0 = cands@.map_values(|c: (String, u32)| c.0@);
            vstd::seq_lib::to_multiset_len(cn0);
            vstd::multiset::lemma_multiset_empty_len(cn0.to_multiset());
            assert(rn.to_multiset() =~= elig.to_multiset());
            vstd::seq_lib::to_multiset_len(rn);
            vstd::seq_lib::to_multiset_len(elig);
            assert forall|k: int| 0 <= k < result.len() implies self.names().contains(#[trigger] result@[k]@) by {
                assert(rn[k] == result@[k]@);
                to_multiset_contains(rn, rn[k]);
                to_multiset_contains(elig, rn[k]);
                lemma_eligible_loaded(pv, self.names(), rn[k]);
            }
            assert forall|k: int| 0 <= k < result.len() implies elig.contains(#[trigger] result@[k]@) by {
                assert(rn[k] == result@[k]@);
                to_multiset_contains(rn, rn[k]);
                to_multiset_contains(elig, rn[k]);
            }
            assert forall|x: Seq<char>| elig.contains(x) implies exists|k: int| 0 <= k < result.len() && #[trigger] result@[k]@ == x by {
                to_multiset_contains(rn, x);
                to_multiset_contains(elig, x);
                let k = choose|k: int| 0 <= k < rn.len() && rn[k] == x;
                assert(result@[k]@ == x);
            }
        }
        result
    }

    /// The position of the loaded model named `name`.
    fn index_of(&self, name: &String) -> (r: usize)
        requires
            self.names().contains(name@),
        ensures
            r < self.entries().len(),
            self.names()[r as int] == name@,
    {
        match self.find(name.as_str()) {
            Some(i) => i,
            None => 0,
        }
    }

    /// The seed asked for by `start_seed`, drawn from the model at `mi`
    /// for a random seed.
    fn seed_chars(&self, mi: usize, start_seed: &StartSeed) -> (r: Result<Vec<char>, ModelError>)
        requires
            self.wf(),
            mi < self.entries().len(),
        ensures
            r is Err ==> r == Err::<Vec<char>, ModelError>(ModelError::NoSeed)
                && seed_missing_for(self.grams_list()[mi as int], *start_seed),
            !seed_missing_for(self.grams_list()[mi as int], *start_seed) ==> r is Ok,
            r matches Ok(v) ==> (start_seed is False ==> v@.len() == 0)
                && (start_seed matches StartSeed::Custom(s) ==> v@ == s@)
                && random_key_for(self.grams_list()[mi as int], *start_seed, v@),
    {
        match start_seed {
            StartSeed::False => Ok(Vec::new()),
            StartSeed::Custom(s) => Ok(chars_of(s.as_str())),
            StartSeed::Random(random) => {
                proof {
                    assert(self.entries()[mi as int].1.wf());
                }
                let model = &self.models[mi].1;
                let ghost g = model.view().grams;
                assert(g == self.grams_list()[mi as int]);
                let size = model.size();
                if size == 0 {
                    return Err(ModelError::NoSeed);
                }
                let idx: usize = if *random < 2 {
                    draw_below(size as u128) as usize
                } else if *random - 2 < size {
                    *random - 2
                } else {
                    size - 1
                };
                assert(seed_index_ok(g.len(), *random as nat, idx as int));
                match model.random_seed_at(idx) {
                    Some(s) => {
                        let v = chars_of(s.as_str());
                        assert(g[idx as int].contains_key(v@));
                        Ok(v)
                    },
                    None => {
                        assert(g[idx as int].dom().len() == 0);
                        Err(ModelError::NoSeed)
                    },
                }
            },
        }
    }

    /// One generation across the loaded models.
    ///
    /// The models are ordered at random by probability; the seed comes
    /// from the start-seed setting (a random seed from the first model).
    /// Each step asks the current model for the next character at the
    /// target order (one more than the context, capped by `max_n`, and
    /// with probability `randomness` drawn from `2..=` that). A character
    /// other than the end marker is appended and the models are ordered
    /// anew; the end marker finishes the word. When a model knows nothing,
    /// the next model in the order is asked; when all have been asked, the
    /// order falls back (by one, or at random when `reduce_random`) and
    /// the models are ordered anew. When no model knows the context at
    /// order 2 the word is finished.
    fn internal_predict(&self, prediction_input: &PredictionInput) -> (r: Result<String, ModelError>)
        requires
            self.wf(),
            prediction_input.wf(),
        ensures
            eligible_names(prediction_input.probabilities(), self.names()).len() == 0 ==> r
                == Err::<String, ModelError>(ModelError::NoModels),
            r is Err ==> (r == Err::<String, ModelError>(ModelError::NoModels) && eligible_names(
                prediction_input.probabilities(),
                self.names(),
            ).len() == 0) || (r == Err::<String, ModelError>(ModelError::NoSeed) && seed_missing_any(
                self.grams_list(),
                self.names(),
                eligible_names(prediction_input.probabilities(), self.names()),
                prediction_input.seed(),
            )),
            eligible_names(prediction_input.probabilities(), self.names()).len() > 0 && !seed_missing_any(
                self.grams_list(),
                self.names(),
                eligible_names(prediction_input.probabilities(), self.names()),
                prediction_input.seed(),
            ) ==> r is Ok,
            r matches Ok(w) ==> generated_from_any(
                self.grams_list(),
                self.names(),
                eligible_names(prediction_input.probabilities(), self.names()),
                prediction_input.seed(),
                w@,
            ),
    {
        let randomness = prediction_input.randomness();
        let max_n = prediction_input.max_n();
        let reduce = prediction_input.reduce_random();
        let ghost gs = self.grams_list();
        let ghost names = self.names();
        let ghost elig = eligible_names(prediction_input.probabilities(), self.names());
        let mut order = self.get_random_models(prediction_input);
        if order.len() == 0 {
            return Err(ModelError::NoModels);
        }
        let mut mi = self.index_of(&order[0]);
        proof {
            assert(eligible_at(names, elig, mi as int));
        }
        let raw = match self.seed_chars(mi, prediction_input.start_seed()) {
            Ok(v) => v,
            Err(e) => {
                return Err(e);
            },
        };
        let ghost raw_v = raw@;
        let mut word = strip_start_chars(raw);
        let ghost seed = word@;
        let mut prefix = context_chars(&word);
        let ghost ctx0 = context_of(seed);
        let ghost mut tail: Seq<char> = Seq::empty();
        proof {
            assert(prefix@ =~= ctx0 + tail);
            assert(word@ =~= seed + tail);
            assert(seeded_by_any(gs, names, elig, prediction_input.seed(), seed)) by {
                if let StartSeed::Random(k) = prediction_input.seed() {
                    assert(random_key_of(gs[mi as int], k as nat, raw_v));
                    assert(random_seed_of(gs[mi as int], k as nat, seed));
                }
            }
        }
        let mut finished = prefix.len() >= usize::MAX - 1;
        let mut n: usize = 2;
        if !finished {
            n = compute_n(prefix.len(), max_n, randomness);
        }
        let mut pos: usize = 0;
        while !finished
            invariant
                self.wf(),
                prediction_input.wf(),
                randomness == prediction_input.randomness_spec(),
                reduce == prediction_input.reduces_randomly(),
                gs == self.grams_list(),
                names == self.names(),
                elig == eligible_names(prediction_input.probabilities(), self.names()),
                elig.len() > 0,
                order.len() == elig.len(),
                forall|k: int| 0 <= k < order.len() ==> elig.contains(#[trigger] order@[k]@),
                forall|x: Seq<char>| elig.contains(x) ==> exists|k: int| 0 <= k < order.len() && #[trigger] order@[k]@ == x,
                randomness <= SCALE,
                word@ == seed + tail,
                prefix@ == ctx0 + tail,
                prefix@.len() >= 1,
                follows_any(gs, ctx0, tail),
                n >= 2,
                pos < order.len(),
                mi < self.entries().len(),
                names[mi as int] == order@[pos as int]@,
                !finished ==> forall|k: int, i: int| #![trigger names[i], order@[k]] 0 <= k < pos && 0 <= i < names.len() && names[i] == order@[k]@
                    ==> !knows(gs[i], prefix@, n as int),
                forall|k: int| 0 <= k < order.len() ==> names.contains(#[trigger] order@[k]@),
                finished ==> finished_any(gs, names, elig, prefix@),
            decreases usize::MAX - prefix.len(), n, order.len() - pos, if finished { 0nat } else { 1nat },
        {
            proof {
                assert(self.entries()[mi as int].1.wf());
                assert(gs[mi as int] == self.entries()[mi as int].1.view().grams);
                lemma_eligible_loaded(prediction_input.probabilities(), names, order@[pos as int]@);
                assert(eligible_at(names, elig, mi as int));
            }
            match self.models[mi].1.predict_char(&prefix, n) {
                Some(c) => {
                    if c == END_CHAR {
                        finished = true;
                    } else {
                        let ghost old_tail = tail;
                        let ghost old_prefix = prefix@;
                        word.push(c);
                        prefix.push(c);
                        proof {
                            tail = tail.push(c);
                            assert(word@ =~= seed + tail);
                            assert(prefix@ =~= ctx0 + tail);
                            assert forall|j: int| 0 <= j < tail.len() implies #[trigger] tail[j] != END_CHAR && exists|m: int, k: int|
                                0 <= m < gs.len() && predicts(gs[m], ctx0 + tail.subrange(0, j), k, tail[j]) by {
                                if j < old_tail.len() {
                                    assert(tail.subrange(0, j) =~= old_tail.subrange(0, j));
                                    assert(old_tail[j] == tail[j]);
                                } else {
                                    assert(tail.subrange(0, j) =~= old_tail);
                                    assert(ctx0 + old_tail == old_prefix);
                                    assert(tail[j] == c);
                                    assert(predicts(gs[mi as int], old_prefix, n as int, c));
                                    assert(predicts(gs[mi as int], ctx0 + tail.subrange(0, j), n as int, tail[j]));
                                }
                            }
                        }
                        if prefix.len() >= usize::MAX - 1 {
                            finished = true;
                        } else {
                            n = compute_n(prefix.len(), max_n, randomness);
                            let fresh = self.get_random_models(prediction_input);
                            if fresh.len() == 0 {
                                finished = true;
                            } else {
                                order = fresh;
                                pos = 0;
                                mi = self.index_of(&order[0]);
                            }
                        }
                    }
                },
                None => {
                    let ghost failed_pos = pos;
                    proof {
                        assert forall|k: int, i: int| #![trigger names[i], order@[k]] 0 <= k <= pos && 0 <= i < names.len() && names[i] == order@[k]@
                            implies !knows(gs[i], prefix@, n as int) by {
                            if k == pos {
                                let q = self.entries().map_values(|e: (String, MultiGramModel)| (e.0@, e.1.view()));
                                assert(q[i].0 == q[mi as int].0);
                            }
                        }
                    }
                    if pos + 1 < order.len() {
                        pos = pos + 1;
                        mi = self.index_of(&order[pos]);
                    } else {
                        let lower = next_order(n, randomness, reduce);
                        if lower < 2 {
                            proof {
                                assert forall|m: int| eligible_at(names, elig, m) && m < gs.len() implies !#[trigger] knows(gs[m], prefix@, 2) by {
                                    let k = choose|k: int| 0 <= k < order.len() && #[trigger] order@[k]@ == names[m];
                                    assert(names[m] == order@[k]@);
                                }
                            }
                            finished = true;
                        } else {
                            let fresh = self.get_random_models(prediction_input);
                            if fresh.len() == 0 {
                                finished = true;
                            } else {
                                n = lower;
                                order = fresh;
                                pos = 0;
                                mi = self.index_of(&order[0]);
                            }
                        }
                    }
                },
            }
        }
        let out = string_of(&word);
        proof {
            assert(word@.subrange(0, seed.len() as int) =~= seed);
            assert(tail_of(seed, word@) =~= tail);
            assert(continues_any(gs, seed, out@));
            assert(finished_any(gs, names, elig, context_of(seed) + tail_of(seed, out@)));
        }
        Ok(out)
    }

    /// `w` equals a sentence that a loaded model has learned, up to ASCII case.
    pub open spec fn known_anywhere(&self, w: Seq<char>) -> bool {
        exists|i: int, s: Seq<char>|
            0 <= i < self.entries().len() && #[trigger] self.entries()[i].1.view().sentences.contains(s)
                && same_ignoring_case(s, w)
    }

    /// Whether a loaded model has learned `word` (up to ASCII case).
    pub fn check_if_exists(&self, word: &str) -> (r: bool)
        requires
            self.wf(),
        ensures
            r == self.known_anywhere(word@),
    {
        let mut i: usize = 0;
        while i < self.models.len()
            invariant
                self.wf(),
                i <= self.models.len(),
                forall|j: int, s: Seq<char>|
                    0 <= j < i && #[trigger] self.entries()[j].1.view().sentences.contains(s) ==> !same_ignoring_case(s, word@),
            decreases self.models.len() - i,
        {
            proof {
                assert(self.entries()[i as int].1.wf());
            }
            if self.models[i].1.check_if_exists(word) {
                return true;
            }
            i += 1;
        }
        false
    }

    /// Generates a word like `predict` and also returns how many times it
    /// was regenerated: at most `nb_try`, and fewer only when the word
    /// returned equals no sentence a loaded model has learned (up to ASCII
    /// case). An error of any attempt is returned as it is.
    pub fn predict_counted(&self, prediction_input: &PredictionInput) -> (r: Result<(String, usize), ModelError>)
        requires
            self.wf(),
            prediction_input.wf(),
        ensures
            eligible_names(prediction_input.probabilities(), self.names()).len() == 0 ==> r
                == Err::<(String, usize), ModelError>(ModelError::NoModels),
            r is Err ==> (r == Err::<(String, usize), ModelError>(ModelError::NoModels) && eligible_names(
                prediction_input.probabilities(),
                self.names(),
            ).len() == 0) || (r == Err::<(String, usize), ModelError>(ModelError::NoSeed) && seed_missing_any(
                self.grams_list(),
                self.names(),
                eligible_names(prediction_input.probabilities(), self.names()),
                prediction_input.seed(),
            )),
            eligible_names(prediction_input.probabilities(), self.names()).len() > 0 && !seed_missing_any(
                self.grams_list(),
                self.names(),
                eligible_names(prediction_input.probabilities(), self.names()),
                prediction_input.seed(),
            ) ==> r is Ok,
            r matches Ok((w, t)) ==> generated_from_any(
                self.grams_list(),
                self.names(),
                eligible_names(prediction_input.probabilities(), self.names()),
                prediction_input.seed(),
                w@,
            ) && t <= prediction_input.retries()
                && (t < prediction_input.retries() ==> !self.known_anywhere(w@)),
    {
        let mut word = match self.internal_predict(prediction_input) {
            Ok(w) => w,
            Err(e) => {
                return Err(e);
            },
        };
        let nb_try = prediction_input.nb_try();
        let mut t: usize = 0;
        while t < nb_try && self.check_if_exists(word.as_str())
            invariant
                self.wf(),
                prediction_input.wf(),
                nb_try == prediction_input.retries(),
                t <= nb_try,
                eligible_names(prediction_input.probabilities(), self.names()).len() > 0,
                generated_from_any(
                self.grams_list(),
                self.names(),
                eligible_names(prediction_input.probabilities(), self.names()),
                prediction_input.seed(),
                word@,
            ),
            decreases nb_try - t,
        {
            match self.internal_predict(prediction_input) {
                Ok(w) => {
                    word = w;
                },
                Err(e) => {
                    return Err(e);
                },
            }
            t += 1;
        }
        Ok((word, t))
    }

    /// Generates a word across the loaded models, regenerating while it
    /// equals a sentence some model has learned (up to ASCII case), at most
    /// `nb_try` more times; the last attempt is returned either way (with
    /// `nb_try == 0`, the first word). `predict_counted` also returns the
    /// number of regenerations.
    pub fn predict(&self, prediction_input: &PredictionInput) -> (r: Result<String, ModelError>)
        requires
            self.wf(),
            prediction_input.wf(),
        ensures
            eligible_names(prediction_input.probabilities(), self.names()).len() == 0 ==> r
                == Err::<String, ModelError>(ModelError::NoModels),
            r is Err ==> (r == Err::<String, ModelError>(ModelError::NoModels) && eligible_names(
                prediction_input.probabilities(),
                self.names(),
            ).len() == 0) || (r == Err::<String, ModelError>(ModelError::NoSeed) && seed_missing_any(
                self.grams_list(),
                self.names(),
                eligible_names(prediction_input.probabilities(), self.names()),
                prediction_input.seed(),
            )),
            eligible_names(prediction_input.probabilities(), self.names()).len() > 0 && !seed_missing_any(
                self.grams_list(),
                self.names(),
                eligible_names(prediction_input.probabilities(), self.names()),
                prediction_input.seed(),
            ) ==> r is Ok,
            r matches Ok(w) ==> generated_from_any(
                self.grams_list(),
                self.names(),
                eligible_names(prediction_input.probabilities(), self.names()),
                prediction_input.seed(),
                w@,
            ),
    {
        match self.predict_counted(prediction_input) {
            Ok((w, _)) => Ok(w),
            Err(e) => Err(e),
        }
    }

    /// Merges `other` into this generator: a model loaded in both is
    /// merged into the one here, a model only in `other` is copied over.
    /// Never fails.
    pub fn merge(&mut self, other: &Self) -> (r: Result<(), ModelError>)
        requires
            old(self).wf(),
            other.wf(),
        ensures
            r is Ok,
            final(self).wf(),
            final(self).corpora() == merge_corpora(old(self).corpora(), other.corpora()),
    {
        let ghost c0 = self.corpora();
        let ghost q = other.entries().map_values(|e: (String, MultiGramModel)| (e.0@, e.1.view()));
        proof {
            assert(q.subrange(0, 0) =~= Seq::<(Seq<char>, CorpusView)>::empty());
            assert(merge_corpora(c0, Map::empty()) =~= c0);
        }
        let mut j: usize = 0;
        while j < other.models.len()
            invariant
                self.wf(),
                other.wf(),
                c0 == old(self).corpora(),
                q == other.entries().map_values(|e: (String, MultiGramModel)| (e.0@, e.1.view())),
                j <= other.models.len(),
                self.corpora() == merge_corpora(c0, assoc_map(q.subrange(0, j as int))),
            decreases other.models.len() - j,
        {
            let ghost a = q.subrange(0, j as int);
            let ghost k = other.models@[j as int].0@;
            let ghost v = other.models@[j as int].1.view();
            let ghost sq = self.entries().map_values(|e: (String, MultiGramModel)| (e.0@, e.1.view()));
            proof {
                assert(q.subrange(0, j + 1).drop_last() =~= a);
                assert(keys_unique(a));
                lemma_assoc_contains(a, k);
                if assoc_map(a).contains_key(k) {
                    let t = choose|t: int| 0 <= t < a.len() && a[t].0 == k;
                    assert(q[t].0 == q[j as int].0);
                }
                lemma_merge_corpora_insert(c0, assoc_map(a), k, v);
                assert(other.entries()[j as int].1.wf());
                lemma_assoc_contains(sq, k);
            }
            match self.find(other.models[j].0.as_str()) {
                Some(i) => {
                    proof {
                        lemma_assoc_index(sq, i as int);
                        assert(self.entries()[i as int].1.wf());
                    }
                    let ghost before = self.entries();
                    let (name, mut model) = self.models.remove(i);
                    let _ = model.merge(&other.models[j].1);
                    let ghost nv = name@;
                    self.models.insert(i, (name, model));
                    proof {
                        assert(self.entries() =~= before.update(i as int, (self.entries()[i as int].0, model)));
                        lemma_assoc_update(sq, i as int, model.view());
                        assert(self.entries().map_values(|e: (String, MultiGramModel)| (e.0@, e.1.view()))
                            =~= sq.update(i as int, (k, model.view())));
                        assert forall|t: int| 0 <= t < self.entries().len() implies (#[trigger] self.entries()[t]).1.wf() by {
                            if t != i {
                                assert(self.entries()[t] == before[t]);
                            }
                        }
                    }
                },
                None => {
                    let copy = other.models[j].1.copy();
                    let name = other.models[j].0.clone();
                    let ghost before = self.entries();
                    proof {
                        if assoc_map(sq).contains_key(k) {
                            let t = choose|t: int| 0 <= t < sq.len() && sq[t].0 == k;
                            assert(self.names()[t] == k);
                        }
                        lemma_assoc_push(sq, k, v);
                    }
                    self.models.push((name, copy));
                    proof {
                        assert(self.entries().map_values(|e: (String, MultiGramModel)| (e.0@, e.1.view())) =~= sq.push((k, v)));
                        assert forall|t: int| 0 <= t < self.entries().len() implies (#[trigger] self.entries()[t]).1.wf() by {
                            if t < before.len() {
                                assert(self.entries()[t] == before[t]);
                            }
                        }
                    }
                },
            }
            j += 1;
        }
        proof {
            assert(q.subrange(0, q.len() as int) =~= q);
        }
        Ok(())
    }
}

} // verus!
