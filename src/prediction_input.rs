//! Generation settings: orders, retries, randomness, the start seed, and
//! per-model intensities with their normalized probabilities.

use vstd::prelude::*;
use crate::error::ModelError;
use crate::generation::SCALE;
use crate::text::{chars_of, same_chars};

verus! {

/// How the first characters of a generated word are chosen.
#[derive(Clone, Debug, PartialEq, Eq)]
pub enum StartSeed {
    /// A known prefix drawn at random: of the given order when it is at
    /// least 2 (capped by the orders available), of a random order below 2.
    Random(usize),
    /// The given text.
    Custom(String),
    /// No seed: generation starts from the start marker alone.
    False,
}

} // verus!

verus! {

/// A probability as the fraction `numerator / denominator`.
#[derive(Clone, Copy, Debug, PartialEq, Eq, Structural)]
pub struct Probability {
    pub numerator: u32,
    pub denominator: u128,
}

/// The sum of the intensities of `s`.
pub open spec fn intensity_sum(s: Seq<(Seq<char>, nat)>) -> nat
    decreases s.len(),
{
    if s.len() == 0 {
        0
    } else {
        intensity_sum(s.drop_last()) + s.last().1
    }
}

/// The probability of each model derived from its intensity: the
/// intensity over the sum of all intensities when that sum is positive,
/// otherwise one over the number of models. Each entry is
/// (name, numerator, denominator).
pub open spec fn normalized(s: Seq<(Seq<char>, nat)>) -> Seq<(Seq<char>, nat, nat)> {
    Seq::new(
        s.len(),
        |i: int|
            if intensity_sum(s) > 0 {
                (s[i].0, s[i].1, intensity_sum(s))
            } else {
                (s[i].0, 1nat, s.len())
            },
    )
}

/// No name occurs twice.
pub open spec fn names_unique(s: Seq<(Seq<char>, nat)>) -> bool {
    forall|i: int, j: int| 0 <= i < s.len() && 0 <= j < s.len() && i != j ==> s[i].0 != s[j].0
}

/// Settings for one generation: the largest order (`max_n`, below 2 for
/// no limit), how many times to regenerate a word already learned
/// (`nb_try`), the randomness (in millionths), whether backing off draws
/// the lower order at random (`reduce_random`), the start seed, and for
/// each model an intensity with its derived probability.
pub struct PredictionInput {
    max_n: usize,
    nb_try: usize,
    randomness: u32,
    reduce_random: bool,
    start_seed: StartSeed,
    models_intensity: Vec<(String, u32)>,
    models_probability: Vec<(String, Probability)>,
}

impl PredictionInput {
    /// The largest order to use; below 2 for no limit.
    pub closed spec fn max_order(&self) -> nat {
        self.max_n as nat
    }

    /// How many times a word already learned is regenerated.
    pub closed spec fn retries(&self) -> nat {
        self.nb_try as nat
    }

    /// Whether backing off draws the lower order at random.
    pub closed spec fn reduces_randomly(&self) -> bool {
        self.reduce_random
    }

    /// How the generated word starts.
    pub closed spec fn seed(&self) -> StartSeed {
        self.start_seed
    }

    /// The randomness, in millionths.
    pub closed spec fn randomness_spec(&self) -> nat {
        self.randomness as nat
    }

    /// Each model's name and intensity.
    pub closed spec fn intensities(&self) -> Seq<(Seq<char>, nat)> {
        self.models_intensity@.map_values(|e: (String, u32)| (e.0@, e.1 as nat))
    }

    /// Each model's name and probability, as (name, numerator, denominator).
    pub closed spec fn probabilities(&self) -> Seq<(Seq<char>, nat, nat)> {
        self.models_probability@.map_values(
            |e: (String, Probability)| (e.0@, e.1.numerator as nat, e.1.denominator as nat),
        )
    }

    /// The settings' invariant: names are unique, randomness lies in
    /// `[0, 1]`, and the probabilities are the normalized intensities.
    pub open spec fn wf(&self) -> bool {
        &&& names_unique(self.intensities())
        &&& self.randomness_spec() <= SCALE
        &&& self.probabilities() == normalized(self.intensities())
    }

    /// Settings for the given models and intensities, with no order limit,
    /// no retries, no randomness and no seed.
    pub(crate) fn new(models_intensity: Vec<(String, u32)>) -> (r: Self)
        requires
            names_unique(models_intensity@.map_values(|e: (String, u32)| (e.0@, e.1 as nat))),
        ensures
            r.wf(),
            r.intensities() == models_intensity@.map_values(|e: (String, u32)| (e.0@, e.1 as nat)),
            r.randomness_spec() == 0,
            r.max_order() == 0,
            r.retries() == 0,
            !r.reduces_randomly(),
            r.seed() == StartSeed::False,
    {
        let mut p = PredictionInput {
            max_n: 0,
            nb_try: 0,
            randomness: 0,
            reduce_random: false,
            start_seed: StartSeed::False,
            models_intensity,
            models_probability: Vec::new(),
        };
        p.normalize();
        p
    }

    /// Recomputes the probabilities from the intensities.
    fn normalize(&mut self)
        ensures
            final(self).probabilities() == normalized(old(self).intensities()),
            final(self).intensities() == old(self).intensities(),
            final(self).randomness == old(self).randomness,
            final(self).max_n == old(self).max_n,
            final(self).nb_try == old(self).nb_try,
            final(self).reduce_random == old(self).reduce_random,
            final(self).start_seed == old(self).start_seed,
    {
        let ghost s = self.intensities();
        let n = self.models_intensity.len();
        let mut sum: u128 = 0;
        let mut i: usize = 0;
        while i < n
            invariant
                n == self.models_intensity.len(),
                s == self.intensities(),
                i <= n,
                sum == intensity_sum(s.subrange(0, i as int)),
                sum <= i * (u32::MAX as int),
            decreases n - i,
        {
            proof {
                assert(s.subrange(0, i + 1).drop_last() =~= s.subrange(0, i as int));
                assert((i + 1) * (u32::MAX as int) == i * (u32::MAX as int) + u32::MAX) by (nonlinear_arith);
                assert((i + 1) * (u32::MAX as int) <= (usize::MAX as int) * (u32::MAX as int)) by (nonlinear_arith)
                    requires i + 1 <= usize::MAX;
            }
            sum = sum + self.models_intensity[i].1 as u128;
            i += 1;
        }
        proof {
            assert(s.subrange(0, n as int) =~= s);
        }
        let ghost target = normalized(s);
        let mut probs: Vec<(String, Probability)> = Vec::new();
        let mut j: usize = 0;
        while j < n
            invariant
                n == self.models_intensity.len(),
                s == self.intensities(),
                target == normalized(s),
                sum == intensity_sum(s),
                j <= n,
                probs@.len() == j,
                forall|k: int| 0 <= k < j ==> (#[trigger] probs@[k]).0@ == target[k].0
                    && probs@[k].1.numerator as nat == target[k].1
                    && probs@[k].1.denominator as nat == target[k].2,
            decreases n - j,
        {
            let name = self.models_intensity[j].0.clone();
            let p = if sum > 0 {
                Probability { numerator: self.models_intensity[j].1, denominator: sum }
            } else {
                Probability { numerator: 1, denominator: n as u128 }
            };
            probs.push((name, p));
            j += 1;
        }
        self.models_probability = probs;
        proof {
            assert(self.probabilities() =~= target);
        }
    }

    /// The largest order to use; below 2 for no limit.
    pub fn max_n(&self) -> (r: usize)
        ensures
            r == self.max_order(),
    {
        self.max_n
    }

    /// Sets the largest order to use; below 2 for no limit.
    pub fn set_max_n(&mut self, max_n: usize)
        requires
            old(self).wf(),
        ensures
            final(self).wf(),
            final(self).max_order() == max_n,
            final(self).retries() == old(self).retries(),
            final(self).reduces_randomly() == old(self).reduces_randomly(),
            final(self).seed() == old(self).seed(),
            final(self).randomness_spec() == old(self).randomness_spec(),
            final(self).intensities() == old(self).intensities(),
            final(self).probabilities() == old(self).probabilities(),
    {
        self.max_n = max_n;
    }

    /// How many times a word already learned is regenerated.
    pub fn nb_try(&self) -> (r: usize)
        ensures
            r == self.retries(),
    {
        self.nb_try
    }

    /// Sets how many times a word already learned is regenerated.
    pub fn set_nb_try(&mut self, nb_try: usize)
        requires
            old(self).wf(),
        ensures
            final(self).wf(),
            final(self).retries() == nb_try,
            final(self).max_order() == old(self).max_order(),
            final(self).reduces_randomly() == old(self).reduces_randomly(),
            final(self).seed() == old(self).seed(),
            final(self).randomness_spec() == old(self).randomness_spec(),
            final(self).intensities() == old(self).intensities(),
            final(self).probabilities() == old(self).probabilities(),
    {
        self.nb_try = nb_try;
    }

    /// Whether backing off draws the lower order at random.
    pub fn reduce_random(&self) -> (r: bool)
        ensures
            r == self.reduces_randomly(),
    {
        self.reduce_random
    }

    /// Sets whether backing off draws the lower order at random.
    pub fn set_reduce_random(&mut self, reduce_random: bool)
        requires
            old(self).wf(),
        ensures
            final(self).wf(),
            final(self).reduces_randomly() == reduce_random,
            final(self).max_order() == old(self).max_order(),
            final(self).retries() == old(self).retries(),
            final(self).seed() == old(self).seed(),
            final(self).randomness_spec() == old(self).randomness_spec(),
            final(self).intensities() == old(self).intensities(),
            final(self).probabilities() == old(self).probabilities(),
    {
        self.reduce_random = reduce_random;
    }

    /// How the generated word starts.
    pub fn start_seed(&self) -> (r: &StartSeed)
        ensures
            *r == self.seed(),
    {
        &self.start_seed
    }

    /// Sets how the generated word starts.
    pub fn set_start_seed(&mut self, start_seed: StartSeed)
        requires
            old(self).wf(),
        ensures
            final(self).wf(),
            final(self).seed() == start_seed,
            final(self).max_order() == old(self).max_order(),
            final(self).retries() == old(self).retries(),
            final(self).reduces_randomly() == old(self).reduces_randomly(),
            final(self).randomness_spec() == old(self).randomness_spec(),
            final(self).intensities() == old(self).intensities(),
            final(self).probabilities() == old(self).probabilities(),
    {
        self.start_seed = start_seed;
    }

    /// The randomness, in millionths.
    pub fn randomness(&self) -> (r: u32)
        ensures
            r == self.randomness_spec(),
    {
        self.randomness
    }

    /// Each model's name and probability.
    pub fn models_probability(&self) -> (r: Vec<(String, Probability)>)
        ensures
            r@.map_values(|e: (String, Probability)| (e.0@, e.1.numerator as nat, e.1.denominator as nat))
                == self.probabilities(),
    {
        let mut out: Vec<(String, Probability)> = Vec::new();
        let mut i: usize = 0;
        while i < self.models_probability.len()
            invariant
                i <= self.models_probability.len(),
                out@.len() == i,
                forall|k: int| 0 <= k < i ==> (#[trigger] out@[k]).0@ == self.models_probability@[k].0@
                    && out@[k].1 == self.models_probability@[k].1,
            decreases self.models_probability.len() - i,
        {
            out.push((self.models_probability[i].0.clone(), self.models_probability[i].1));
            i += 1;
        }
        proof {
            assert(out@.map_values(|e: (String, Probability)| (e.0@, e.1.numerator as nat, e.1.denominator as nat))
                =~= self.probabilities());
        }
        out
    }

    /// Sets the randomness, in millionths (`SCALE` is certainty).
    ///
    /// Fails, and leaves the settings unchanged, outside `0..=SCALE`.
    pub fn set_randomness(&mut self, randomness: i64) -> (r: Result<(), ModelError>)
        requires
            old(self).wf(),
        ensures
            final(self).wf(),
            r is Ok <==> 0 <= randomness <= SCALE,
            r is Ok ==> final(self).randomness_spec() == randomness,
            r is Err ==> r == Err::<(), ModelError>(ModelError::InvalidRandomness),
            r is Err ==> final(self).randomness_spec() == old(self).randomness_spec(),
            final(self).intensities() == old(self).intensities(),
            final(self).probabilities() == old(self).probabilities(),
            final(self).max_order() == old(self).max_order(),
            final(self).retries() == old(self).retries(),
            final(self).reduces_randomly() == old(self).reduces_randomly(),
            final(self).seed() == old(self).seed(),
    {
        if randomness < 0 || randomness > SCALE as i64 {
            return Err(ModelError::InvalidRandomness);
        }
        self.randomness = randomness as u32;
        Ok(())
    }

    /// The position of `model` among the configured models.
    fn find(&self, model: &str) -> (r: Option<usize>)
        ensures
            match r {
                Some(i) => i < self.intensities().len() && self.intensities()[i as int].0 == model@,
                None => forall|i: int| 0 <= i < self.intensities().len() ==> #[trigger] self.intensities()[i].0 != model@,
            },
    {
        let target = chars_of(model);
        let mut i: usize = 0;
        while i < self.models_intensity.len()
            invariant
                i <= self.models_intensity.len(),
                target@ == model@,
                forall|j: int| 0 <= j < i ==> #[trigger] self.intensities()[j].0 != model@,
            decreases self.models_intensity.len() - i,
        {
            let name = chars_of(self.models_intensity[i].0.as_str());
            if same_chars(&name, &target) {
                return Some(i);
            }
            i += 1;
        }
        None
    }

    /// Sets the intensity of `model` and recomputes the probabilities.
    ///
    /// Fails, and leaves the settings unchanged, for a model that is not
    /// configured.
    pub fn set_model_intensity(&mut self, model: &str, intensity: u32) -> (r: Result<(), ModelError>)
        requires
            old(self).wf(),
        ensures
            final(self).wf(),
            r is Ok <==> exists|i: int| 0 <= i < old(self).intensities().len() && #[trigger] old(self).intensities()[i].0 == model@,
            r is Err ==> r == Err::<(), ModelError>(ModelError::UnknownModel),
            r is Err ==> final(self).intensities() == old(self).intensities()
                && final(self).probabilities() == old(self).probabilities(),
            r is Ok ==> final(self).intensities() == old(self).intensities().map_values(
                |e: (Seq<char>, nat)| if e.0 == model@ { (e.0, intensity as nat) } else { e },
            ),
            final(self).randomness_spec() == old(self).randomness_spec(),
            final(self).max_order() == old(self).max_order(),
            final(self).retries() == old(self).retries(),
            final(self).reduces_randomly() == old(self).reduces_randomly(),
            final(self).seed() == old(self).seed(),
    {
        match self.find(model) {
            None => Err(ModelError::UnknownModel),
            Some(i) => {
                let ghost old_s = self.intensities();
                let name = self.models_intensity[i].0.clone();
                self.models_intensity.set(i, (name, intensity));
                proof {
                    assert(self.intensities() =~= old_s.map_values(
                        |e: (Seq<char>, nat)| if e.0 == model@ { (e.0, intensity as nat) } else { e },
                    ));
                }
                self.normalize();
                Ok(())
            },
        }
    }
}

} // verus!
