//! A fixed-order n-gram model: one transition table per observed prefix
//! of `n - 1` characters.

use vstd::prelude::*;
use vstd::hash_map::StringHashMap;
use crate::counts::{
    assoc_map, counts_valid, keys_unique, learn, lemma_assoc_contains, lemma_assoc_index,
    lemma_assoc_push, lemma_assoc_update, lemma_merge_counts_empty,
    lemma_merge_transitions_insert, merge_counts, merge_transitions, record, record_windows,
    table_in, transitions_valid, Counts, Transitions,
};
use crate::error::ModelError;
use crate::random::draw_below;
use crate::state::State;
use crate::text::{chars_of, copy_range, lower_all, lower_seq, string_of};

verus! {

/// Each table as a (prefix, counts) pair.
pub open spec fn state_pairs(s: Seq<State>) -> Seq<(Seq<char>, Counts)> {
    s.map_values(|st: State| (st.prefix(), st.counts()))
}

/// An n-gram model of order `n >= 2`: for each prefix of `n - 1`
/// (lowercase) characters, the counts of the characters that followed it.
pub struct NGramModel {
    n: usize,
    states: Vec<State>,
    index: StringHashMap<usize>,
}

impl NGramModel {
    /// The order `n` of the model.
    pub closed spec fn order(&self) -> nat {
        self.n as nat
    }

    /// The transition tables, one per prefix.
    pub closed spec fn tables(&self) -> Seq<State> {
        self.states@
    }

    /// For each known prefix, the counts of its following characters.
    pub open spec fn transitions(&self) -> Transitions {
        assoc_map(state_pairs(self.tables()))
    }

    pub closed spec fn index_ok(&self) -> bool {
        &&& forall|p: Seq<char>| #[trigger]
            self.index@.contains_key(p) <==> self.transitions().contains_key(p)
        &&& forall|p: Seq<char>| #[trigger]
            self.index@.contains_key(p) ==> self.index@[p] < self.states.len()
                && self.states@[self.index@[p] as int].prefix() == p
    }

    /// The model's invariant.
    pub open spec fn wf(&self) -> bool {
        &&& self.order() >= 2
        &&& keys_unique(state_pairs(self.tables()))
        &&& forall|i: int|
            0 <= i < self.tables().len() ==> {
                &&& (#[trigger] self.tables()[i]).wf()
                &&& self.tables()[i].prefix().len() == self.order() - 1
                &&& self.tables()[i].entries().len() > 0
            }
        &&& self.index_ok()
    }

    /// Every prefix key of a model has exactly `order - 1` characters.
    pub proof fn lemma_prefix_length(&self)
        requires
            self.wf(),
        ensures
            forall|p: Seq<char>| #[trigger]
                self.transitions().contains_key(p) ==> p.len() == self.order() - 1,
    {
        let q = state_pairs(self.tables());
        assert forall|p: Seq<char>| #[trigger]
            self.transitions().contains_key(p) implies p.len() == self.order() - 1 by {
            lemma_assoc_contains(q, p);
            let i = choose|i: int| 0 <= i < q.len() && q[i].0 == p;
            assert(self.tables()[i].prefix() == p);
        }
    }

    /// Every table of a model holds valid counts.
    pub proof fn lemma_transitions_valid(&self)
        requires
            self.wf(),
        ensures
            transitions_valid(self.transitions()),
    {
        let q = state_pairs(self.tables());
        assert forall|p: Seq<char>| self.transitions().contains_key(p) implies counts_valid(
            #[trigger] self.transitions()[p],
        ) by {
            lemma_assoc_contains(q, p);
            let i = choose|i: int| 0 <= i < q.len() && q[i].0 == p;
            lemma_assoc_index(q, i);
            self.tables()[i].lemma_counts();
        }
    }

    /// Creates an empty model of order `n`; refused when `n < 2`.
    pub fn new(n: usize) -> (r: Result<Self, ModelError>)
        ensures
            r is Err <==> n < 2,
            r is Err ==> r == Err::<Self, ModelError>(ModelError::OrderTooSmall),
            r matches Ok(m) ==> m.wf() && m.order() == n && m.transitions() == Map::<
                Seq<char>,
                Counts,
            >::empty(),
    {
        if n < 2 {
            return Err(ModelError::OrderTooSmall);
        }
        let m = NGramModel { n, states: Vec::new(), index: StringHashMap::new() };
        assert(m.transitions() == Map::<Seq<char>, Counts>::empty());
        Ok(m)
    }

    /// The order `n` of the model.
    pub fn get_order(&self) -> (r: usize)
        ensures
            r == self.order(),
    {
        self.n
    }

    /// The number of known prefixes.
    pub fn state_count(&self) -> (r: usize)
        requires
            self.wf(),
        ensures
            r == self.transitions().dom().len(),
    {
        proof {
            self.lemma_state_count();
        }
        self.states.len()
    }

    proof fn lemma_state_count(&self)
        requires
            self.wf(),
        ensures
            self.transitions().dom().len() == self.tables().len(),
            self.transitions().dom().finite(),
        decreases self.tables().len(),
    {
        lemma_tables_count(self.tables());
    }

    /// The table at position `i`, in the order prefixes were first seen.
    pub fn table(&self, i: usize) -> (r: &State)
        requires
            i < self.tables().len(),
        ensures
            *r == self.tables()[i as int],
    {
        &self.states[i]
    }

    /// The position of the table of `key`.
    fn find(&self, key: &Vec<char>) -> (r: Option<usize>)
        requires
            self.wf(),
        ensures
            match r {
                Some(i) => i < self.tables().len() && self.tables()[i as int].prefix() == key@,
                None => !self.transitions().contains_key(key@),
            },
    {
        let s = string_of(key);
        match self.index.get(s.as_str()) {
            Some(i) => Some(*i),
            None => None,
        }
    }

    /// One more observation of `c` after `prefix`.
    fn record_one(&mut self, prefix: Vec<char>, c: char)
        requires
            old(self).wf(),
            prefix@.len() == old(self).order() - 1,
        ensures
            final(self).wf(),
            final(self).order() == old(self).order(),
            final(self).transitions() == record(old(self).transitions(), prefix@, c),
    {
        let ghost q = state_pairs(self.tables());
        match self.find(&prefix) {
            Some(i) => {
                let mut st = self.states[i].copy();
                proof {
                    lemma_assoc_index(q, i as int);
                }
                st.add_transition(c);
                proof {
                    st.lemma_counts();
                }
                self.states.set(i, st);
                proof {
                    lemma_assoc_update(q, i as int, st.counts());
                    assert(state_pairs(self.tables()) =~= q.update(i as int, (prefix@, st.counts())));
                }
            },
            None => {
                let key = string_of(&prefix);
                let mut st = State::from_chars(prefix);
                st.add_transition(c);
                proof {
                    st.lemma_counts();
                }
                let pos = self.states.len();
                self.states.push(st);
                self.index.insert(key, pos);
                proof {
                    lemma_assoc_push(q, st.prefix(), st.counts());
                    assert(state_pairs(self.tables()) =~= q.push((st.prefix(), st.counts())));
                    lemma_assoc_contains(q, st.prefix());
                    assert forall|j: int| 0 <= j < pos implies #[trigger] self.tables()[j].prefix()
                        != st.prefix() by {
                        assert(q[j].0 == self.tables()[j].prefix());
                    }
                }
            },
        }
    }

    /// Learns every window of `order` characters of `chars`, lowercased:
    /// the first `order - 1` form the prefix, the last the next character.
    /// Shorter input is ignored.
    pub fn add_chars(&mut self, chars: &Vec<char>)
        requires
            old(self).wf(),
        ensures
            final(self).wf(),
            final(self).order() == old(self).order(),
            final(self).transitions() == learn(
                old(self).transitions(),
                lower_seq(chars@),
                old(self).order(),
            ),
    {
        let low = lower_all(chars);
        let n = self.n;
        if low.len() < n {
            return;
        }
        let ghost t0 = self.transitions();
        let mut i: usize = 0;
        while i <= low.len() - n
            invariant
                self.wf(),
                self.order() == n,
                n >= 2,
                low@ == lower_seq(chars@),
                low.len() >= n,
                i <= low.len() - n + 1,
                self.transitions() == record_windows(t0, low@, n as nat, i as nat),
            decreases low.len() - i,
        {
            let prefix = copy_range(&low, i, i + n - 1);
            let c = low[i + n - 1];
            self.record_one(prefix, c);
            i += 1;
        }
    }

    /// Adds a sentence, word or short phrase: every window of `order`
    /// characters, lowercased, is counted as a transition from its first
    /// `order - 1` characters to its last. Sentences shorter than the order
    /// are ignored.
    pub fn add_sentence(&mut self, sentence: &str)
        requires
            old(self).wf(),
        ensures
            final(self).wf(),
            final(self).order() == old(self).order(),
            final(self).transitions() == learn(
                old(self).transitions(),
                lower_seq(sentence@),
                old(self).order(),
            ),
    {
        let chars = chars_of(sentence);
        self.add_chars(&chars);
    }

    /// Draws the character following `prefix` (lowercased), at random in
    /// proportion to the counts; `None` when the prefix is unknown.
    pub fn predict_chars(&self, prefix: &Vec<char>) -> (r: Option<char>)
        requires
            self.wf(),
        ensures
            r is None <==> !self.transitions().contains_key(lower_seq(prefix@)),
            r is Some ==> table_in(self.transitions(), lower_seq(prefix@)).contains_key(r->0),
    {
        let key = lower_all(prefix);
        match self.find(&key) {
            None => None,
            Some(i) => {
                proof {
                    lemma_assoc_index(state_pairs(self.tables()), i as int);
                }
                self.states[i].predict()
            },
        }
    }

    /// Draws the character following `prefix` (lowercased), at random in
    /// proportion to the counts; `None` when the prefix is unknown.
    pub fn predict(&self, prefix: &str) -> (r: Option<char>)
        requires
            self.wf(),
        ensures
            r is None <==> !self.transitions().contains_key(lower_seq(prefix@)),
            r is Some ==> table_in(self.transitions(), lower_seq(prefix@)).contains_key(r->0),
    {
        let chars = chars_of(prefix);
        self.predict_chars(&chars)
    }

    /// A known prefix chosen uniformly at random, to start a generation
    /// from; `None` when nothing has been learned.
    pub fn get_random_seed(&self) -> (r: Option<String>)
        requires
            self.wf(),
        ensures
            r is None <==> self.transitions().dom().len() == 0,
            r matches Some(s) ==> self.transitions().contains_key(s@),
    {
        proof {
            self.lemma_state_count();
        }
        if self.states.len() == 0 {
            return None;
        }
        let i = draw_below(self.states.len() as u128) as usize;
        proof {
            lemma_assoc_index(state_pairs(self.tables()), i as int);
        }
        Some(self.states[i].key())
    }

    /// An independent copy of this model.
    pub fn copy(&self) -> (r: Self)
        requires
            self.wf(),
        ensures
            r.wf(),
            r.order() == self.order(),
            r.transitions() == self.transitions(),
    {
        let mut out = NGramModel { n: self.n, states: Vec::new(), index: StringHashMap::new() };
        let ghost sp = state_pairs(self.tables());
        let mut j: usize = 0;
        while j < self.states.len()
            invariant
                self.wf(),
                out.wf(),
                sp == state_pairs(self.tables()),
                out.order() == self.order(),
                j <= self.tables().len(),
                state_pairs(out.tables()) == sp.subrange(0, j as int),
            decreases self.tables().len() - j,
        {
            let st = self.states[j].copy();
            let key = st.key();
            let ghost q = state_pairs(out.tables());
            proof {
                assert(st.counts() == self.tables()[j as int].counts());
                assert(st.prefix() == sp[j as int].0);
                lemma_assoc_contains(q, st.prefix());
                if assoc_map(q).contains_key(st.prefix()) {
                    let k = choose|k: int| 0 <= k < q.len() && q[k].0 == st.prefix();
                    assert(sp[k].0 == sp[j as int].0);
                }
                lemma_assoc_push(q, st.prefix(), st.counts());
                assert(self.tables()[j as int].wf());
            }
            out.states.push(st);
            out.index.insert(key, j);
            proof {
                assert(state_pairs(out.tables()) =~= q.push((st.prefix(), st.counts())));
                assert(state_pairs(out.tables()) =~= sp.subrange(0, j + 1));
                assert forall|k: int| 0 <= k < j implies #[trigger] out.tables()[k].prefix() != st.prefix() by {
                    assert(q[k].0 == out.tables()[k].prefix());
                }
            }
            j += 1;
        }
        proof {
            assert(sp.subrange(0, j as int) =~= sp);
        }
        out
    }

    /// Adds the counts of `other` into this model, table by table; a
    /// prefix unknown here is copied over.
    ///
    /// Fails, and leaves the model unchanged, when the orders differ.
    pub fn merge(&mut self, other: &Self) -> (r: Result<(), ModelError>)
        requires
            old(self).wf(),
            other.wf(),
        ensures
            final(self).wf(),
            final(self).order() == old(self).order(),
            r is Ok <==> old(self).order() == other.order(),
            r is Ok ==> final(self).transitions() == merge_transitions(
                old(self).transitions(),
                other.transitions(),
            ),
            r is Err ==> r == Err::<(), ModelError>(ModelError::OrderMismatch)
                && final(self).transitions() == old(self).transitions(),
    {
        if self.n != other.n {
            return Err(ModelError::OrderMismatch);
        }
        let ghost t0 = self.transitions();
        let ghost q = state_pairs(other.tables());
        proof {
            self.lemma_transitions_valid();
            other.lemma_transitions_valid();
            assert(q.subrange(0, 0) =~= Seq::<(Seq<char>, Counts)>::empty());
            assert(merge_transitions(t0, Map::empty()) =~= t0) by {
                assert forall|p: Seq<char>| #[trigger] t0.contains_key(p) implies merge_counts(
                    table_in(t0, p),
                    table_in(Map::empty(), p),
                ) == t0[p] by {
                    lemma_merge_counts_empty(t0[p]);
                }
            }
        }
        let mut j: usize = 0;
        while j < other.states.len()
            invariant
                self.wf(),
                other.wf(),
                self.order() == other.order(),
                t0 == old(self).transitions(),
                transitions_valid(t0),
                transitions_valid(other.transitions()),
                q == state_pairs(other.tables()),
                j <= other.tables().len(),
                self.transitions() == merge_transitions(t0, assoc_map(q.subrange(0, j as int))),
            decreases other.tables().len() - j,
        {
            let o = &other.states[j];
            let ghost a = q.subrange(0, j as int);
            let ghost cur = self.transitions();
            proof {
                assert(q.subrange(0, j + 1).drop_last() =~= a);
                assert(keys_unique(a));
                lemma_assoc_contains(a, o.prefix());
                if assoc_map(a).contains_key(o.prefix()) {
                    let k = choose|k: int| 0 <= k < a.len() && a[k].0 == o.prefix();
                    assert(q[k].0 == q[j as int].0);
                }
                lemma_assoc_index(q, j as int);
                o.lemma_counts();
                if t0.contains_key(o.prefix()) {
                    assert(counts_valid(t0[o.prefix()]));
                } else {
                    assert(table_in(t0, o.prefix()) == Map::<char, nat>::empty());
                }
                lemma_merge_transitions_insert(t0, assoc_map(a), o.prefix(), o.counts());
            }
            let key = copy_prefix(o);
            let ghost sq = state_pairs(self.tables());
            match self.find(&key) {
                Some(i) => {
                    let mut st = self.states[i].copy();
                    proof {
                        lemma_assoc_index(sq, i as int);
                    }
                    let res = st.merge(o);
                    proof {
                        st.lemma_counts();
                    }
                    self.states.set(i, st);
                    proof {
                        lemma_assoc_update(sq, i as int, st.counts());
                        assert(state_pairs(self.tables()) =~= sq.update(
                            i as int,
                            (o.prefix(), st.counts()),
                        ));
                    }
                },
                None => {
                    let st = o.copy();
                    let skey = string_of(&key);
                    let pos = self.states.len();
                    proof {
                        assert(st.counts() == o.counts());
                        lemma_assoc_contains(sq, st.prefix());
                        lemma_merge_counts_empty(o.counts());
                    }
                    self.states.push(st);
                    self.index.insert(skey, pos);
                    proof {
                        lemma_assoc_push(sq, st.prefix(), st.counts());
                        assert(state_pairs(self.tables()) =~= sq.push((st.prefix(), st.counts())));
                        assert forall|k: int| 0 <= k < pos implies #[trigger] self.tables()[k].prefix()
                            != st.prefix() by {
                            assert(sq[k].0 == self.tables()[k].prefix());
                        }
                    }
                },
            }
            j += 1;
        }
        proof {
            assert(q.subrange(0, q.len() as int) =~= q);
        }
        Ok(())
    }

    /// The table of `prefix` (lowercased), if known.
    pub fn get_state(&self, prefix: &str) -> (r: Option<&State>)
        requires
            self.wf(),
        ensures
            r is None <==> !self.transitions().contains_key(lower_seq(prefix@)),
            r matches Some(st) ==> st.prefix() == lower_seq(prefix@) && st.counts() == self.transitions()[lower_seq(prefix@)],
    {
        let key = lower_all(&chars_of(prefix));
        match self.find(&key) {
            None => None,
            Some(i) => {
                proof {
                    lemma_assoc_index(state_pairs(self.tables()), i as int);
                }
                Some(&self.states[i])
            },
        }
    }

    /// Adds the counts of `st` to the table of its prefix (creating it);
    /// used to rebuild a saved model. Refused, with the model unchanged,
    /// when the prefix does not have `order - 1` characters or `st` is
    /// empty.
    pub fn absorb(&mut self, st: &State) -> (r: Result<(), ModelError>)
        requires
            old(self).wf(),
            st.wf(),
        ensures
            final(self).wf(),
            final(self).order() == old(self).order(),
            r is Ok <==> st.prefix().len() == old(self).order() - 1 && st.entries().len() > 0,
            r is Err ==> r == Err::<(), ModelError>(ModelError::KeyMismatch) && final(self).transitions() == old(self).transitions(),
            r is Ok ==> final(self).transitions() == old(self).transitions().insert(
                st.prefix(),
                merge_counts(table_in(old(self).transitions(), st.prefix()), st.counts()),
            ),
    {
        let key = copy_prefix(st);
        if key.len() != self.n - 1 || st.entry_count() == 0 {
            return Err(ModelError::KeyMismatch);
        }
        let ghost sq = state_pairs(self.tables());
        proof {
            st.lemma_counts();
            self.lemma_transitions_valid();
        }
        match self.find(&key) {
            Some(i) => {
                let mut cur = self.states[i].copy();
                proof {
                    lemma_assoc_index(sq, i as int);
                }
                let _ = cur.merge(st);
                proof {
                    cur.lemma_counts();
                }
                self.states.set(i, cur);
                proof {
                    lemma_assoc_update(sq, i as int, cur.counts());
                    assert(state_pairs(self.tables()) =~= sq.update(i as int, (st.prefix(), cur.counts())));
                }
            },
            None => {
                let copy = st.copy();
                let skey = string_of(&key);
                let pos = self.states.len();
                proof {
                    assert(copy.counts() == st.counts());
                    lemma_assoc_contains(sq, copy.prefix());
                    lemma_merge_counts_empty(st.counts());
                    assert(copy.wf());
                }
                self.states.push(copy);
                self.index.insert(skey, pos);
                proof {
                    lemma_assoc_push(sq, copy.prefix(), copy.counts());
                    assert(state_pairs(self.tables()) =~= sq.push((copy.prefix(), copy.counts())));
                    assert forall|k: int| 0 <= k < pos implies #[trigger] self.tables()[k].prefix() != copy.prefix() by {
                        assert(sq[k].0 == self.tables()[k].prefix());
                    }
                }
            },
        }
        Ok(())
    }
}

/// The prefix of `st` as characters.
fn copy_prefix(st: &State) -> (r: Vec<char>)
    ensures
        r@ == st.prefix(),
{
    let s = st.key();
    chars_of(s.as_str())
}

proof fn lemma_tables_count(s: Seq<State>)
    requires
        keys_unique(state_pairs(s)),
    ensures
        assoc_map(state_pairs(s)).dom().len() == s.len(),
        assoc_map(state_pairs(s)).dom().finite(),
    decreases s.len(),
{
    let q = state_pairs(s);
    lemma_assoc_contains(q, arbitrary());
    if s.len() > 0 {
        assert(state_pairs(s.drop_last()) =~= q.drop_last());
        lemma_tables_count(s.drop_last());
        lemma_assoc_contains(q.drop_last(), q.last().0);
        if assoc_map(q.drop_last()).contains_key(q.last().0) {
            let k = choose|k: int| 0 <= k < q.drop_last().len() && q.drop_last()[k].0 == q.last().0;
            assert(q[k].0 == q[q.len() - 1].0);
        }
    } else {
        assert(assoc_map(q).dom() =~= Set::empty());
    }
}

} // verus!
