//! A corpus model: n-gram models of every order from 2 up to the longest
//! sentence seen, the set of sentences learned, and the corpus names.

use vstd::prelude::*;
use vstd::hash_set::StringHashSet;
use crate::counts::{
    learn, lemma_merge_transitions_empty, merge_orders, order_at,
    transitions_valid, Transitions,
};
use crate::error::ModelError;
use crate::generation::{
    compute_n, context_chars, context_of, continues, finished, follows, generated_from, knows, next_order, predicts,
    random_key_of, random_seed_of, seed_index_ok, seed_missing, seeded_by, strip_start_chars, tail_of,
    END_CHAR, SCALE, START_CHAR,
};
use crate::prediction_input::StartSeed;
use crate::random::draw_below;
use crate::ngram_model::NGramModel;
use crate::text::{chars_of, copy_range, eq_ignore_case, lower_seq, same_ignoring_case, string_of};

verus! {

/// `s` with the start marker put in front and the end marker put after,
/// each where it is not already there.
pub open spec fn wrap(s: Seq<char>) -> Seq<char> {
    let a = if s.len() > 0 && s[0] == START_CHAR {
        s
    } else {
        seq![START_CHAR] + s
    };
    if a.last() == END_CHAR {
        a
    } else {
        a.push(END_CHAR)
    }
}

/// What a corpus model has learned: the transitions of order `i + 2` at
/// index `i`, and the sentences.
pub ghost struct CorpusView {
    pub grams: Seq<Transitions>,
    pub sentences: Set<Seq<char>>,
}

/// Transition maps of every order after learning the (wrapped) sentence
/// `w`: orders `2..=w.len()` learn it, longer orders stay as they were.
pub open spec fn ingest_grams(g: Seq<Transitions>, w: Seq<char>) -> Seq<Transitions> {
    Seq::new(
        if g.len() >= w.len() - 1 {
            g.len()
        } else {
            (w.len() - 1) as nat
        },
        |i: int| learn(order_at(g, i), lower_seq(w), (i + 2) as nat),
    )
}

/// The model after learning `s`: nothing changes for a sentence already
/// learned; otherwise the wrapped sentence is learned at every order.
pub open spec fn ingest(v: CorpusView, s: Seq<char>) -> CorpusView {
    if v.sentences.contains(s) {
        v
    } else {
        CorpusView { grams: ingest_grams(v.grams, wrap(s)), sentences: v.sentences.insert(s) }
    }
}

/// `w` equals a sentence of `v`, up to ASCII case.
pub open spec fn is_known(v: CorpusView, w: Seq<char>) -> bool {
    exists|s: Seq<char>| v.sentences.contains(s) && #[trigger] same_ignoring_case(s, w)
}

/// Two corpus models combined: counts added order by order, prefix by
/// prefix, character by character; sentence sets united.
pub open spec fn merge_view(a: CorpusView, b: CorpusView) -> CorpusView {
    CorpusView {
        grams: merge_orders(a.grams, b.grams),
        sentences: a.sentences.union(b.sentences),
    }
}

/// The model that has learned nothing.
pub open spec fn empty_view() -> CorpusView {
    CorpusView { grams: Seq::empty(), sentences: Set::empty() }
}

/// The model built by learning the sentences of `ss` in order.
pub open spec fn build(ss: Seq<Seq<char>>) -> CorpusView
    decreases ss.len(),
{
    if ss.len() == 0 {
        empty_view()
    } else {
        ingest(build(ss.drop_last()), ss.last())
    }
}

/// A corpus model: n-gram models of orders `2..` (index `i` holds order
/// `i + 2`), every sentence learned, and the names of the corpora it holds.
pub struct MultiGramModel {
    ngrams: Vec<NGramModel>,
    sentences: Vec<String>,
    seen: StringHashSet,
    model_names: Vec<String>,
}

impl MultiGramModel {
    /// The n-gram models, order 2 first.
    pub closed spec fn models(&self) -> Seq<NGramModel> {
        self.ngrams@
    }

    /// The sentences learned, each once, in the order first seen.
    pub closed spec fn sentence_list(&self) -> Seq<String> {
        self.sentences@
    }

    /// The names of the corpora merged into this model.
    pub closed spec fn names(&self) -> Seq<String> {
        self.model_names@
    }

    /// What this model has learned.
    pub open spec fn view(&self) -> CorpusView {
        CorpusView {
            grams: Seq::new(self.models().len(), |i: int| self.models()[i].transitions()),
            sentences: Set::new(
                |s: Seq<char>|
                    exists|i: int| 0 <= i < self.sentence_list().len() && #[trigger] self.sentence_list()[i]@ == s,
            ),
        }
    }

    pub closed spec fn seen_ok(&self) -> bool {
        forall|s: Seq<char>| #[trigger]
            self.seen@.contains(s) <==> exists|i: int|
                0 <= i < self.sentences@.len() && #[trigger] self.sentences@[i]@ == s
    }

    /// The model's invariant: the model at index `i` is well formed and of
    /// order `i + 2`.
    pub open spec fn wf(&self) -> bool {
        &&& forall|i: int|
            0 <= i < self.models().len() ==> (#[trigger] self.models()[i]).wf()
                && self.models()[i].order() == i + 2
        &&& self.seen_ok()
    }

    proof fn lemma_sentences_seen(&self)
        requires
            self.seen_ok(),
        ensures
            self.view().sentences == self.seen@,
    {
        assert(self.view().sentences =~= self.seen@);
    }

    pub proof fn lemma_view_valid(&self)
        requires
            self.wf(),
        ensures
            forall|i: int| 0 <= i < self.view().grams.len() ==> transitions_valid(#[trigger] self.view().grams[i]),
    {
        assert forall|i: int| 0 <= i < self.view().grams.len() implies transitions_valid(
            #[trigger] self.view().grams[i],
        ) by {
            self.models()[i].lemma_transitions_valid();
        }
    }

    /// A model that has learned nothing.
    pub fn default() -> (r: Self)
        ensures
            r.wf(),
            r.view() == empty_view(),
            r.names().len() == 0,
    {
        let r = MultiGramModel {
            ngrams: Vec::new(),
            sentences: Vec::new(),
            seen: StringHashSet::new(),
            model_names: Vec::new(),
        };
        assert(r.view().grams =~= Seq::<Transitions>::empty());
        assert(r.view().sentences =~= Set::<Seq<char>>::empty());
        r
    }

    /// The names of the corpora merged into this model.
    pub fn get_model_names(&self) -> (r: &Vec<String>)
        ensures
            r@ == self.names(),
    {
        &self.model_names
    }

    /// Records `name` as a corpus held by this model.
    pub fn add_model_name(&mut self, name: String)
        requires
            old(self).wf(),
        ensures
            final(self).wf(),
            final(self).view() == old(self).view(),
            final(self).names() == old(self).names().push(name),
    {
        self.model_names.push(name);
        assert(self.ngrams == old(self).ngrams);
        assert(self.models() == old(self).models());
        assert(forall|i: int| 0 <= i < self.models().len() ==> (#[trigger] self.models()[i]).wf());
        assert(self.seen == old(self).seen);
        assert(self.sentences == old(self).sentences);
        assert(self.seen_ok());
    }

    /// The number of orders held: orders `2..=size() + 1`.
    pub fn size(&self) -> (r: usize)
        ensures
            r == self.view().grams.len(),
    {
        self.ngrams.len()
    }

    /// `chars` wrapped in the start and end markers where missing.
    fn wrap_chars(chars: Vec<char>) -> (r: Vec<char>)
        ensures
            r@ == wrap(chars@),
            r@.len() >= 2,
    {
        let mut a = if chars.len() > 0 && chars[0] == START_CHAR {
            chars
        } else {
            let mut v: Vec<char> = Vec::new();
            v.push(START_CHAR);
            let mut i: usize = 0;
            while i < chars.len()
                invariant
                    i <= chars.len(),
                    v@ == seq![START_CHAR] + chars@.subrange(0, i as int),
                decreases chars.len() - i,
            {
                v.push(chars[i]);
                assert(seq![START_CHAR] + chars@.subrange(0, i + 1) =~= (seq![START_CHAR]
                    + chars@.subrange(0, i as int)).push(chars@[i as int]));
                i += 1;
            }
            assert(chars@.subrange(0, chars.len() as int) =~= chars@);
            v
        };
        if a[a.len() - 1] != END_CHAR {
            a.push(END_CHAR);
        }
        a
    }

    /// Learns a sentence. A sentence already learned is skipped. Otherwise
    /// it is wrapped in the start and end markers (where not already
    /// there) and learned by the models of every order from 2 up to its
    /// wrapped length, which are created as needed.
    pub fn add_sentence(&mut self, sentence: &str)
        requires
            old(self).wf(),
        ensures
            final(self).wf(),
            final(self).view() == ingest(old(self).view(), sentence@),
            final(self).names() == old(self).names(),
    {
        proof {
            self.lemma_sentences_seen();
        }
        if self.seen.contains(sentence) {
            return;
        }
        let w = Self::wrap_chars(chars_of(sentence));
        let ghost g0 = self.view().grams;
        let ghost target = ingest_grams(g0, w@);
        assert(forall|i: int| 0 <= i < self.ngrams.len() ==> #[trigger] self.models()[i].transitions() == order_at(g0, i));
        while self.ngrams.len() < w.len() - 1
            invariant
                self.wf(),
                self.model_names == old(self).model_names,
                self.sentences == old(self).sentences,
                self.seen == old(self).seen,
                w@.len() >= 2,
                g0.len() <= self.ngrams.len(),
                self.ngrams.len() == g0.len() || self.ngrams.len() + 1 <= w.len(),
                forall|i: int| 0 <= i < self.ngrams.len() ==> #[trigger] self.models()[i].transitions() == order_at(g0, i),
            decreases w.len() - self.ngrams.len(),
        {
            let n = self.ngrams.len() + 2;
            let ghost before = self.models();
            match NGramModel::new(n) {
                Ok(m) => {
                    self.ngrams.push(m);
                    proof {
                        assert(self.ngrams@ == before.push(m));
                        assert(self.seen == old(self).seen);
                        assert(self.sentences == old(self).sentences);
                        assert forall|i: int| 0 <= i < self.models().len() implies (#[trigger] self.models()[i]).wf()
                            && self.models()[i].order() == i + 2 by {
                            if i < before.len() {
                                assert(self.models()[i] == before[i]);
                                assert(before[i].wf());
                            } else {
                                assert(i == before.len());
                                assert(self.models()[i] == m);
                                assert(m.wf());
                                assert(m.order() == i + 2);
                            }
                        }
                        assert forall|i: int| 0 <= i < self.ngrams.len() implies #[trigger] self.models()[i].transitions() == order_at(g0, i) by {
                            if i < before.len() {
                                assert(self.models()[i] == before[i]);
                            } else {
                                assert(self.models()[i] == m);
                                assert(m.transitions() =~= order_at(g0, i));
                            }
                        }
                    }
                },
                Err(_) => {},
            }
        }
        let count = self.ngrams.len();
        let mut i: usize = 0;
        while i < count
            invariant
                self.wf(),
                count == self.ngrams.len(),
                count == target.len(),
                w@.len() >= 2,
                target == ingest_grams(g0, w@),
                self.model_names == old(self).model_names,
                self.sentences == old(self).sentences,
                self.seen == old(self).seen,
                i <= count,
                forall|j: int| 0 <= j < i ==> #[trigger] self.models()[j].transitions() == target[j],
                forall|j: int| i <= j < count ==> #[trigger] self.models()[j].transitions() == order_at(g0, j),
            decreases count - i,
        {
            let ghost before = self.models();
            proof {
                assert(self.models()[i as int].wf());
                assert(self.models()[i as int].transitions() == order_at(g0, i as int));
            }
            let mut m = self.ngrams.remove(i);
            m.add_chars(&w);
            self.ngrams.insert(i, m);
            proof {
                assert(self.ngrams@ =~= before.update(i as int, m));
                assert(self.seen == old(self).seen);
                assert(self.sentences == old(self).sentences);
                assert forall|j: int| 0 <= j < count implies (#[trigger] self.models()[j]).wf()
                    && self.models()[j].order() == j + 2 by {
                    if j != i {
                        assert(self.models()[j] == before[j]);
                    }
                }
                assert forall|j: int| 0 <= j <= i implies #[trigger] self.models()[j].transitions() == target[j] by {
                    if j != i {
                        assert(self.models()[j] == before[j]);
                    }
                }
                assert forall|j: int| i < j < count implies #[trigger] self.models()[j].transitions() == order_at(g0, j) by {
                    assert(self.models()[j] == before[j]);
                }
            }
            i += 1;
        }
        let ghost ms = self.models();
        assert(forall|j: int| 0 <= j < count ==> #[trigger] ms[j].transitions() == target[j]);
        assert(forall|j: int| 0 <= j < count ==> (#[trigger] ms[j]).wf() && ms[j].order() == j + 2);
        let s = string_of(&chars_of(sentence));
        let ghost before = self.sentences@;
        self.sentences.push(s);
        let s2 = string_of(&chars_of(sentence));
        self.seen.insert(s2);
        proof {
            assert(self.models() == ms);
            assert(self.view().grams =~= target);
            assert forall|x: Seq<char>| #[trigger] self.seen@.contains(x) <==> exists|i: int|
                0 <= i < self.sentences@.len() && #[trigger] self.sentences@[i]@ == x by {
                if x == sentence@ {
                    assert(self.sentences@[before.len() as int]@ == x);
                } else if self.seen@.contains(x) {
                    let k = choose|k: int| 0 <= k < before.len() && #[trigger] before[k]@ == x;
                    assert(self.sentences@[k]@ == x);
                } else if exists|i: int| 0 <= i < self.sentences@.len() && #[trigger] self.sentences@[i]@ == x {
                    let k = choose|k: int| 0 <= k < self.sentences@.len() && #[trigger] self.sentences@[k]@ == x;
                    assert(before[k]@ == x);
                }
            }
            self.lemma_sentences_seen();
            assert(self.view().sentences =~= old(self).view().sentences.insert(sentence@));
        }
    }

    /// Adds `s` to the sentences learned.
    fn remember(&mut self, s: &String)
        requires
            old(self).seen_ok(),
            !old(self).seen@.contains(s@),
        ensures
            final(self).seen_ok(),
            final(self).seen@ == old(self).seen@.insert(s@),
            final(self).ngrams == old(self).ngrams,
            final(self).model_names == old(self).model_names,
    {
        let ghost before = self.sentences@;
        self.sentences.push(s.clone());
        self.seen.insert(s.clone());
        proof {
            assert forall|x: Seq<char>| #[trigger] self.seen@.contains(x) <==> exists|i: int|
                0 <= i < self.sentences@.len() && #[trigger] self.sentences@[i]@ == x by {
                if x == s@ {
                    assert(self.sentences@[before.len() as int]@ == x);
                } else if self.seen@.contains(x) {
                    let k = choose|k: int| 0 <= k < before.len() && #[trigger] before[k]@ == x;
                    assert(self.sentences@[k]@ == x);
                } else if exists|i: int| 0 <= i < self.sentences@.len() && #[trigger] self.sentences@[i]@ == x {
                    let k = choose|k: int| 0 <= k < self.sentences@.len() && #[trigger] self.sentences@[k]@ == x;
                    assert(before[k]@ == x);
                }
            }
        }
    }

    /// Merges `other` into this model: the n-gram models of each order are
    /// merged (an order missing here is copied over), the sentence sets
    /// united and the corpus names appended. Never fails.
    pub fn merge(&mut self, other: &Self) -> (r: Result<(), ModelError>)
        requires
            old(self).wf(),
            other.wf(),
        ensures
            r is Ok,
            final(self).wf(),
            final(self).view() == merge_view(old(self).view(), other.view()),
            final(self).names() == old(self).names() + other.names(),
    {
        let ghost g0 = self.view().grams;
        let ghost go = other.view().grams;
        let ghost target = merge_orders(g0, go);
        proof {
            self.lemma_view_valid();
            other.lemma_view_valid();
            self.lemma_sentences_seen();
            other.lemma_sentences_seen();
        }
        let mut i: usize = 0;
        while i < other.ngrams.len()
            invariant
                self.wf(),
                other.wf(),
                old(self).wf(),
                self.sentences == old(self).sentences,
                self.seen == old(self).seen,
                self.model_names == old(self).model_names,
                g0 == old(self).view().grams,
                go == other.view().grams,
                target == merge_orders(g0, go),
                forall|j: int| 0 <= j < g0.len() ==> transitions_valid(#[trigger] g0[j]),
                forall|j: int| 0 <= j < go.len() ==> transitions_valid(#[trigger] go[j]),
                i <= go.len(),
                self.ngrams.len() == if g0.len() >= i {
                    g0.len()
                } else {
                    i as nat
                },
                forall|j: int| 0 <= j < i ==> #[trigger] self.models()[j].transitions() == target[j],
                forall|j: int| i <= j < self.ngrams.len() ==> #[trigger] self.models()[j].transitions() == g0[j],
            decreases go.len() - i,
        {
            let ghost before = self.models();
            proof {
                assert(other.models()[i as int].wf());
                assert(go[i as int] == other.models()[i as int].transitions());
            }
            if i < self.ngrams.len() {
                proof {
                    assert(before[i as int].wf());
                    assert(before[i as int].transitions() == g0[i as int]);
                }
                let mut m = self.ngrams.remove(i);
                let _ = m.merge(&other.ngrams[i]);
                self.ngrams.insert(i, m);
                proof {
                    assert(self.ngrams@ =~= before.update(i as int, m));
                    assert(m.transitions() == target[i as int]);
                }
            } else {
                let m = other.ngrams[i].copy();
                self.ngrams.push(m);
                proof {
                    assert(self.ngrams@ == before.push(m));
                    lemma_merge_transitions_empty(go[i as int]);
                    assert(order_at(g0, i as int) == Map::<Seq<char>, crate::counts::Counts>::empty());
                    assert(m.transitions() == target[i as int]);
                }
            }
            proof {
                assert(self.seen == old(self).seen);
                assert(self.sentences == old(self).sentences);
                assert(self.seen_ok());
                assert forall|j: int| 0 <= j < self.ngrams.len() implies (#[trigger] self.models()[j]).wf()
                    && self.models()[j].order() == j + 2 by {
                    if j != i {
                        assert(self.models()[j] == before[j]);
                    }
                }
                assert forall|j: int| 0 <= j <= i implies #[trigger] self.models()[j].transitions() == target[j] by {
                    if j != i {
                        assert(self.models()[j] == before[j]);
                    }
                }
                assert forall|j: int| i < j < self.ngrams.len() implies #[trigger] self.models()[j].transitions() == g0[j] by {
                    assert(self.models()[j] == before[j]);
                }
            }
            i += 1;
        }
        let ghost ms = self.models();
        proof {
            assert forall|j: int| 0 <= j < target.len() implies #[trigger] ms[j].transitions() == target[j] by {
                if j >= go.len() {
                    lemma_merge_transitions_empty(g0[j]);
                    assert(order_at(go, j) == Map::<Seq<char>, crate::counts::Counts>::empty());
                }
            }
        }
        let ghost s0 = self.seen@;
        let mut k: usize = 0;
        while k < other.sentences.len()
            invariant
                self.seen_ok(),
                other.wf(),
                self.models() == ms,
                self.model_names == old(self).model_names,
                k <= other.sentences.len(),
                self.seen@ == s0.union(Set::new(|x: Seq<char>| exists|j: int| 0 <= j < k && #[trigger] other.sentences@[j]@ == x)),
            decreases other.sentences.len() - k,
        {
            let ghost prev = self.seen@;
            if !self.seen.contains(other.sentences[k].as_str()) {
                self.remember(&other.sentences[k]);
            } else {
                proof {
                    assert(self.seen_ok());
                }
            }
            proof {
                assert(self.seen@ =~= s0.union(Set::new(|x: Seq<char>| exists|j: int| 0 <= j < k + 1 && #[trigger] other.sentences@[j]@ == x))) by {
                    assert forall|x: Seq<char>| #[trigger] self.seen@.contains(x) <==> s0.union(Set::new(|x: Seq<char>| exists|j: int| 0 <= j < k + 1 && #[trigger] other.sentences@[j]@ == x)).contains(x) by {
                        if x == other.sentences@[k as int]@ {
                        } else if exists|j: int| 0 <= j < k + 1 && #[trigger] other.sentences@[j]@ == x {
                            let j = choose|j: int| 0 <= j < k + 1 && #[trigger] other.sentences@[j]@ == x;
                            assert(j < k);
                        }
                    }
                }
            }
            k += 1;
        }
        let ghost seen1 = self.seen;
        let ghost sentences1 = self.sentences;
        let mut t: usize = 0;
        while t < other.model_names.len()
            invariant
                self.seen_ok(),
                self.models() == ms,
                self.seen == seen1,
                self.sentences == sentences1,
                t <= other.model_names.len(),
                self.model_names@ == old(self).model_names@ + other.model_names@.subrange(0, t as int),
            decreases other.model_names.len() - t,
        {
            self.model_names.push(other.model_names[t].clone());
            proof {
                assert(self.seen == seen1);
                assert(self.sentences == sentences1);
                assert(self.seen_ok());
                assert(other.model_names@.subrange(0, t + 1) =~= other.model_names@.subrange(0, t as int).push(other.model_names@[t as int]));
            }
            t += 1;
        }
        proof {
            assert(other.model_names@.subrange(0, t as int) =~= other.model_names@);
            self.lemma_sentences_seen();
            assert(self.view().grams =~= target);
            assert(Set::new(|x: Seq<char>| exists|j: int| 0 <= j < other.sentences@.len() && #[trigger] other.sentences@[j]@ == x) =~= other.view().sentences);
            assert(self.view().sentences =~= merge_view(old(self).view(), other.view()).sentences);
        }
        Ok(())
    }

    /// An independent copy of this model.
    pub fn copy(&self) -> (r: Self)
        requires
            self.wf(),
        ensures
            r.wf(),
            r.view() == self.view(),
            r.names() == self.names(),
    {
        let mut r = Self::default();
        let _ = r.merge(self);
        proof {
            self.lemma_view_valid();
            let g = self.view().grams;
            assert forall|i: int| 0 <= i < g.len() implies #[trigger] merge_orders(Seq::empty(), g)[i] == g[i] by {
                lemma_merge_transitions_empty(g[i]);
            }
            assert(merge_orders(Seq::empty(), g) =~= g);
            assert(Set::<Seq<char>>::empty().union(self.view().sentences) =~= self.view().sentences);
            assert(Seq::<String>::empty() + self.names() =~= self.names());
        }
        r
    }

    /// The model built by learning `lines` in order.
    pub fn from_sentences(lines: &Vec<String>) -> (r: Self)
        ensures
            r.wf(),
            r.view() == build(lines@.map_values(|s: String| s@)),
            r.names().len() == 0,
    {
        let ghost ss = lines@.map_values(|s: String| s@);
        let mut m = Self::default();
        let mut i: usize = 0;
        while i < lines.len()
            invariant
                m.wf(),
                m.names().len() == 0,
                i <= lines.len(),
                ss == lines@.map_values(|s: String| s@),
                m.view() == build(ss.subrange(0, i as int)),
            decreases lines.len() - i,
        {
            m.add_sentence(lines[i].as_str());
            proof {
                assert(ss.subrange(0, i + 1).drop_last() =~= ss.subrange(0, i as int));
            }
            i += 1;
        }
        proof {
            assert(ss.subrange(0, i as int) =~= ss);
        }
        m
    }

    /// Predicts the character after `prefix` with the model of order
    /// `order`, from the last `order - 1` characters of `prefix`
    /// (lowercased). `None` when `prefix` is too short, no model of that
    /// order exists, or the prefix is unknown to it.
    pub fn predict_char(&self, prefix: &Vec<char>, order: usize) -> (r: Option<char>)
        requires
            self.wf(),
        ensures
            r is None <==> !knows(self.view().grams, prefix@, order as int),
            r is Some ==> predicts(self.view().grams, prefix@, order as int, r->0),
    {
        if order < 2 || order - 1 > prefix.len() || order - 2 >= self.ngrams.len() {
            return None;
        }
        let key = copy_range(prefix, prefix.len() - (order - 1), prefix.len());
        proof {
            assert(self.models()[order - 2].wf());
        }
        self.ngrams[order - 2].predict_chars(&key)
    }

    /// A known prefix of order `order`, drawn uniformly; `None` when that
    /// order is absent or empty.
    pub fn get_random_seed(&self, order: usize) -> (r: Option<String>)
        requires
            self.wf(),
        ensures
            r is None <==> (order < 2 || order - 2 >= self.view().grams.len() || self.view().grams[order - 2].dom().len() == 0),
            r matches Some(s) ==> 2 <= order && order - 2 < self.view().grams.len()
                && self.view().grams[order - 2].contains_key(s@),
    {
        if order < 2 || order - 2 >= self.ngrams.len() {
            return None;
        }
        proof {
            assert(self.models()[order - 2].wf());
        }
        self.ngrams[order - 2].get_random_seed()
    }

    /// Whether a learned sentence equals `word` up to ASCII case.
    pub fn check_if_exists(&self, word: &str) -> (r: bool)
        requires
            self.wf(),
        ensures
            r == is_known(self.view(), word@),
    {
        let w = chars_of(word);
        let mut i: usize = 0;
        while i < self.sentences.len()
            invariant
                i <= self.sentences.len(),
                w@ == word@,
                forall|j: int| 0 <= j < i ==> !same_ignoring_case(#[trigger] self.sentences@[j]@, word@),
            decreases self.sentences.len() - i,
        {
            let c = chars_of(self.sentences[i].as_str());
            if eq_ignore_case(&c, &w) {
                proof {
                    assert(self.view().sentences.contains(self.sentences@[i as int]@));
                }
                return true;
            }
            i += 1;
        }
        proof {
            assert forall|s: Seq<char>| self.view().sentences.contains(s) implies !#[trigger] same_ignoring_case(s, word@) by {
                let j = choose|j: int| 0 <= j < self.sentences@.len() && #[trigger] self.sentences@[j]@ == s;
                assert(!same_ignoring_case(self.sentences@[j]@, word@));
            }
        }
        false
    }

    /// The characters of the seed that `start_seed` asks for, before the
    /// start marker is stripped.
    fn seed_chars(&self, start_seed: &StartSeed) -> (r: Vec<char>)
        requires
            self.wf(),
        ensures
            start_seed is False ==> r@.len() == 0,
            start_seed matches StartSeed::Custom(s) ==> r@ == s@,
            start_seed matches StartSeed::Random(k) ==> random_key_of(self.view().grams, k as nat, r@)
                || (r@.len() == 0 && seed_missing(self.view().grams, k as nat)),
    {
        match start_seed {
            StartSeed::False => Vec::new(),
            StartSeed::Custom(s) => chars_of(s.as_str()),
            StartSeed::Random(random) => {
                let size = self.ngrams.len();
                if size == 0 {
                    return Vec::new();
                }
                let idx: usize = if *random < 2 {
                    draw_below(size as u128) as usize
                } else if *random - 2 < size {
                    *random - 2
                } else {
                    size - 1
                };
                let ghost g = self.view().grams;
                assert(seed_index_ok(g.len(), *random as nat, idx as int));
                match self.random_seed_at(idx) {
                    Some(s) => {
                        let v = chars_of(s.as_str());
                        assert(g[idx as int].contains_key(v@));
                        v
                    },
                    None => {
                        assert(g[idx as int].dom().len() == 0);
                        Vec::new()
                    },
                }
            },
        }
    }

    /// One generation: the seed, then characters predicted one at a time
    /// at the highest order available (shortened at random with probability
    /// `randomness` in millionths), backing off to lower orders, until the
    /// end marker is drawn or no order knows the context.
    fn internal_predict(&self, max_n: usize, randomness: u32, reduce_random: bool, start_seed: &StartSeed) -> (r: Result<String, ModelError>)
        requires
            self.wf(),
        ensures
            r is Ok <==> randomness <= SCALE && self.view().grams.len() > 0,
            randomness > SCALE ==> r == Err::<String, ModelError>(ModelError::InvalidRandomness),
            randomness <= SCALE && self.view().grams.len() == 0 ==> r == Err::<String, ModelError>(ModelError::NoModels),
            r matches Ok(w) ==> generated_from(self.view().grams, *start_seed, w@),
    {
        if randomness > SCALE {
            return Err(ModelError::InvalidRandomness);
        }
        if self.ngrams.len() == 0 {
            return Err(ModelError::NoModels);
        }
        let ghost g = self.view().grams;
        let raw = self.seed_chars(start_seed);
        let ghost raw_v = raw@;
        let mut word = strip_start_chars(raw);
        let ghost seed = word@;
        let mut prefix = context_chars(&word);
        let ghost ctx0 = context_of(seed);
        let ghost mut tail: Seq<char> = Seq::empty();
        proof {
            assert(prefix@ =~= ctx0 + tail);
            assert(word@ =~= seed + tail);
            assert(seeded_by(g, *start_seed, seed)) by {
                if let StartSeed::Random(k) = *start_seed {
                    if random_key_of(g, k as nat, raw_v) {
                        assert(random_seed_of(g, k as nat, seed));
                    }
                }
            }
        }
        loop
            invariant
                self.wf(),
                g == self.view().grams,
                randomness <= SCALE,
                word@ == seed + tail,
                prefix@ == ctx0 + tail,
                prefix@.len() >= 1,
                follows(g, ctx0, tail),
            ensures
                word@ == seed + tail,
                prefix@ == ctx0 + tail,
                follows(g, ctx0, tail),
                finished(g, prefix@),
            decreases usize::MAX - prefix.len(),
        {
            if prefix.len() >= usize::MAX - 1 {
                break;
            }
            let mut n = compute_n(prefix.len(), max_n, randomness);
            let mut next: Option<char> = None;
            while n >= 2
                invariant_except_break
                    next is None,
                invariant
                    self.wf(),
                    g == self.view().grams,
                    randomness <= SCALE,
                    n < 2 ==> !knows(g, prefix@, 2),
                ensures
                    next matches Some(c) ==> predicts(g, prefix@, n as int, c),
                    next is None ==> !knows(g, prefix@, 2),
                decreases n,
            {
                match self.predict_char(&prefix, n) {
                    Some(c) => {
                        next = Some(c);
                        break;
                    },
                    None => {
                        n = next_order(n, randomness, reduce_random);
                    },
                }
            }
            match next {
                Some(c) => {
                    if c == END_CHAR {
                        break;
                    }
                    let ghost old_tail = tail;
                    let ghost old_prefix = prefix@;
                    word.push(c);
                    prefix.push(c);
                    proof {
                        tail = tail.push(c);
                        assert(word@ =~= seed + tail);
                        assert(prefix@ =~= ctx0 + tail);
                        assert forall|j: int| 0 <= j < tail.len() implies #[trigger] tail[j] != END_CHAR && exists|m: int|
                            predicts(g, ctx0 + tail.subrange(0, j), m, tail[j]) by {
                            if j < old_tail.len() {
                                assert(tail.subrange(0, j) =~= old_tail.subrange(0, j));
                                assert(old_tail[j] == tail[j]);
                            } else {
                                assert(tail.subrange(0, j) =~= old_tail);
                                assert(ctx0 + old_tail == old_prefix);
                                assert(tail[j] == c);
                                assert(predicts(g, old_prefix, n as int, c));
                                assert(predicts(g, ctx0 + tail.subrange(0, j), n as int, tail[j]));
                            }
                        }
                    }
                },
                None => {
                    break;
                },
            }
        }
        let out = string_of(&word);
        proof {
            assert(word@.subrange(0, seed.len() as int) =~= seed);
            assert(tail_of(seed, word@) =~= tail);
            assert(continues(g, seed, out@));
            assert(finished(g, context_of(seed) + tail_of(seed, out@)));
        }
        Ok(out)
    }

    /// Generates a word like `predict` and also returns how many times it
    /// was regenerated: at most `nb_try`, and fewer only when the word
    /// returned equals no learned sentence (up to ASCII case).
    pub fn predict_counted(&self, max_n: usize, nb_try: usize, randomness: u32, reduce_random: bool, start_seed: &StartSeed) -> (r: Result<(String, usize), ModelError>)
        requires
            self.wf(),
        ensures
            r is Ok <==> randomness <= SCALE && self.view().grams.len() > 0,
            randomness > SCALE ==> r == Err::<(String, usize), ModelError>(ModelError::InvalidRandomness),
            randomness <= SCALE && self.view().grams.len() == 0 ==> r == Err::<(String, usize), ModelError>(ModelError::NoModels),
            r matches Ok((w, t)) ==> generated_from(self.view().grams, *start_seed, w@) && t <= nb_try
                && (t < nb_try ==> !is_known(self.view(), w@)),
    {
        let mut word = match self.internal_predict(max_n, randomness, reduce_random, start_seed) {
            Ok(w) => w,
            Err(e) => {
                return Err(e);
            },
        };
        let mut t: usize = 0;
        while t < nb_try && self.check_if_exists(word.as_str())
            invariant
                self.wf(),
                t <= nb_try,
                randomness <= SCALE && self.view().grams.len() > 0,
                generated_from(self.view().grams, *start_seed, word@),
            decreases nb_try - t,
        {
            match self.internal_predict(max_n, randomness, reduce_random, start_seed) {
                Ok(w) => {
                    word = w;
                },
                Err(_) => {},
            }
            t += 1;
        }
        Ok((word, t))
    }

    /// Generates a word, regenerating while it equals a learned sentence
    /// (up to ASCII case), at most `nb_try` more times; the last attempt is
    /// returned either way (with `nb_try == 0`, the first word).
    /// `randomness` is in millionths. `predict_counted` also returns the
    /// number of regenerations.
    pub fn predict(&self, max_n: usize, nb_try: usize, randomness: u32, reduce_random: bool, start_seed: &StartSeed) -> (r: Result<String, ModelError>)
        requires
            self.wf(),
        ensures
            r is Ok <==> randomness <= SCALE && self.view().grams.len() > 0,
            randomness > SCALE ==> r == Err::<String, ModelError>(ModelError::InvalidRandomness),
            randomness <= SCALE && self.view().grams.len() == 0 ==> r == Err::<String, ModelError>(ModelError::NoModels),
            r matches Ok(w) ==> generated_from(self.view().grams, *start_seed, w@),
    {
        match self.predict_counted(max_n, nb_try, randomness, reduce_random, start_seed) {
            Ok((w, _)) => Ok(w),
            Err(e) => Err(e),
        }
    }

    /// A known prefix of order `index + 2`, drawn uniformly; `None` when
    /// that order is absent or empty.
    pub fn random_seed_at(&self, index: usize) -> (r: Option<String>)
        requires
            self.wf(),
        ensures
            r is None <==> (index >= self.view().grams.len() || self.view().grams[index as int].dom().len() == 0),
            r matches Some(s) ==> index < self.view().grams.len() && self.view().grams[index as int].contains_key(s@),
    {
        if index >= self.ngrams.len() {
            return None;
        }
        proof {
            assert(self.models()[index as int].wf());
        }
        self.ngrams[index].get_random_seed()
    }

    /// The n-gram model of order `order`, if held.
    pub fn ngram(&self, order: usize) -> (r: Option<&NGramModel>)
        requires
            self.wf(),
        ensures
            r is None <==> (order < 2 || order - 2 >= self.view().grams.len()),
            r matches Some(m) ==> m.wf() && m.order() == order && m.transitions() == self.view().grams[order - 2],
    {
        if order < 2 || order - 2 >= self.ngrams.len() {
            return None;
        }
        proof {
            assert(self.models()[order - 2].wf());
        }
        Some(&self.ngrams[order - 2])
    }

    /// The sentences learned, each once, in the order first seen.
    pub fn sentences(&self) -> (r: &Vec<String>)
        ensures
            r@ == self.sentence_list(),
    {
        &self.sentences
    }

    /// Appends `m` as the model of the next order; used to rebuild a saved
    /// model. Refused, with the model unchanged, unless `m` has order
    /// `size() + 2`.
    pub fn push_ngram(&mut self, m: NGramModel) -> (r: Result<(), ModelError>)
        requires
            old(self).wf(),
            m.wf(),
        ensures
            final(self).wf(),
            r is Ok <==> m.order() == old(self).view().grams.len() + 2,
            r is Err ==> r == Err::<(), ModelError>(ModelError::OrderMismatch) && final(self).view() == old(self).view(),
            r is Ok ==> final(self).view().grams == old(self).view().grams.push(m.transitions())
                && final(self).view().sentences == old(self).view().sentences,
            final(self).names() == old(self).names(),
    {
        if m.get_order() - 2 != self.ngrams.len() {
            return Err(ModelError::OrderMismatch);
        }
        let ghost before = self.models();
        self.ngrams.push(m);
        proof {
            assert(self.seen == old(self).seen);
            assert(self.sentences == old(self).sentences);
            assert forall|i: int| 0 <= i < self.models().len() implies (#[trigger] self.models()[i]).wf()
                && self.models()[i].order() == i + 2 by {
                if i < before.len() {
                    assert(self.models()[i] == before[i]);
                }
            }
            assert(self.view().grams =~= old(self).view().grams.push(m.transitions()));
        }
        Ok(())
    }

    /// Records `sentence` as learned without learning its transitions; used
    /// to rebuild a saved model, whose counts are restored separately.
    pub fn restore_sentence(&mut self, sentence: &str)
        requires
            old(self).wf(),
        ensures
            final(self).wf(),
            final(self).view().grams == old(self).view().grams,
            final(self).view().sentences == old(self).view().sentences.insert(sentence@),
            final(self).names() == old(self).names(),
    {
        proof {
            self.lemma_sentences_seen();
        }
        if self.seen.contains(sentence) {
            assert(old(self).view().sentences.insert(sentence@) =~= old(self).view().sentences);
            return;
        }
        let s = string_of(&chars_of(sentence));
        let ghost ms = self.models();
        self.remember(&s);
        proof {
            assert(self.models() == ms);
            self.lemma_sentences_seen();
        }
    }
}

} // verus!
