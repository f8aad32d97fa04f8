//! A transition table: the characters observed after one prefix, with
//! their occurrence counts.

use vstd::prelude::*;
use crate::counts::{
    assoc_map, bump, count_in, counts_valid, keys_unique, lemma_assoc_contains, lemma_assoc_index,
    lemma_assoc_push, lemma_assoc_update, lemma_merge_counts_empty, lemma_merge_insert,
    merge_counts, Counts,
};
use crate::error::ModelError;
use crate::random::draw_below;
use crate::text::{chars_of, same_chars, string_of};

verus! {

/// The entries of a table with their counts as natural numbers.
pub open spec fn entry_pairs(e: Seq<(char, u64)>) -> Seq<(char, nat)> {
    e.map_values(|x: (char, u64)| (x.0, x.1 as nat))
}

/// The sum of the counts of `e`.
pub open spec fn total_of(e: Seq<(char, u64)>) -> nat
    decreases e.len(),
{
    if e.len() == 0 {
        0
    } else {
        total_of(e.drop_last()) + e.last().1 as nat
    }
}

/// The state reached after a fixed prefix: for each character that was
/// seen to follow the prefix, how many times it did.
#[derive(Clone, Debug)]
pub struct State {
    key: Vec<char>,
    transitions: Vec<(char, u64)>,
}

impl State {
    /// The prefix this table belongs to.
    pub closed spec fn prefix(&self) -> Seq<char> {
        self.key@
    }

    /// The entries in the order in which sampling walks them.
    pub closed spec fn entries(&self) -> Seq<(char, u64)> {
        self.transitions@
    }

    /// Occurrence count of each following character.
    pub open spec fn counts(&self) -> Counts {
        assoc_map(entry_pairs(self.entries()))
    }

    /// The sum of all occurrence counts.
    pub open spec fn total(&self) -> nat {
        total_of(self.entries())
    }

    /// Each character appears once, with a count of at least 1.
    pub open spec fn wf(&self) -> bool {
        &&& keys_unique(entry_pairs(self.entries()))
        &&& forall|i: int| 0 <= i < self.entries().len() ==> #[trigger] self.entries()[i].1 >= 1
    }

    pub proof fn lemma_counts(&self)
        requires
            self.wf(),
        ensures
            counts_valid(self.counts()),
            self.counts().dom().finite(),
            self.counts().dom().len() > 0 <==> self.entries().len() > 0,
            forall|c: char|
                self.counts().contains_key(c) <==> exists|i: int|
                    0 <= i < self.entries().len() && #[trigger] self.entries()[i].0 == c,
            forall|i: int|
                0 <= i < self.entries().len() ==> self.counts()[#[trigger] self.entries()[i].0]
                    == self.entries()[i].1,
    {
        let p = entry_pairs(self.entries());
        assert forall|c: char| self.counts().contains_key(c) implies 1 <= #[trigger] self.counts()[c]
            <= u64::MAX by {
            lemma_assoc_contains(p, c);
            let i = choose|i: int| 0 <= i < p.len() && p[i].0 == c;
            lemma_assoc_index(p, i);
        }
        assert forall|c: char|
            self.counts().contains_key(c) <==> exists|i: int|
                0 <= i < self.entries().len() && #[trigger] self.entries()[i].0 == c by {
            lemma_assoc_contains(p, c);
            if exists|i: int| 0 <= i < self.entries().len() && self.entries()[i].0 == c {
                let i = choose|i: int| 0 <= i < self.entries().len() && self.entries()[i].0 == c;
                assert(p[i].0 == c);
            }
        }
        assert forall|i: int| 0 <= i < self.entries().len() implies self.counts()[#[trigger] self.entries()[i].0]
            == self.entries()[i].1 by {
            lemma_assoc_index(p, i);
        }
        lemma_assoc_contains(p, 'a');
        if self.entries().len() > 0 {
            assert(self.counts().contains_key(self.entries()[0].0));
            assert(self.counts().dom().contains(self.entries()[0].0));
        } else {
            assert(self.counts().dom() =~= Set::empty());
        }
    }

    /// Creates an empty table for `key`.
    pub fn new(key: &str) -> (r: Self)
        ensures
            r.wf(),
            r.prefix() == key@,
            r.entries().len() == 0,
            r.counts() == Map::<char, nat>::empty(),
    {
        State { key: chars_of(key), transitions: Vec::new() }
    }

    /// Creates an empty table for the prefix `key`.
    pub fn from_chars(key: Vec<char>) -> (r: Self)
        ensures
            r.wf(),
            r.prefix() == key@,
            r.entries().len() == 0,
            r.counts() == Map::<char, nat>::empty(),
    {
        State { key, transitions: Vec::new() }
    }

    /// The prefix as a string.
    pub fn key(&self) -> (r: String)
        ensures
            r@ == self.prefix(),
    {
        string_of(&self.key)
    }

    /// An independent copy of this table.
    pub fn copy(&self) -> (r: Self)
        ensures
            r.prefix() == self.prefix(),
            r.entries() == self.entries(),
    {
        let mut key: Vec<char> = Vec::new();
        let mut i: usize = 0;
        while i < self.key.len()
            invariant
                i <= self.key.len(),
                key@ == self.key@.subrange(0, i as int),
            decreases self.key.len() - i,
        {
            key.push(self.key[i]);
            assert(self.key@.subrange(0, i + 1) =~= self.key@.subrange(0, i as int).push(
                self.key@[i as int],
            ));
            i += 1;
        }
        let mut transitions: Vec<(char, u64)> = Vec::new();
        let mut j: usize = 0;
        while j < self.transitions.len()
            invariant
                j <= self.transitions.len(),
                transitions@ == self.transitions@.subrange(0, j as int),
            decreases self.transitions.len() - j,
        {
            transitions.push(self.transitions[j]);
            assert(self.transitions@.subrange(0, j + 1) =~= self.transitions@.subrange(
                0,
                j as int,
            ).push(self.transitions@[j as int]));
            j += 1;
        }
        assert(key@ =~= self.key@);
        assert(transitions@ =~= self.transitions@);
        State { key, transitions }
    }

    /// The position of `c` among the entries.
    fn find(&self, c: char) -> (r: Option<usize>)
        ensures
            match r {
                Some(i) => i < self.entries().len() && self.entries()[i as int].0 == c,
                None => forall|i: int|
                    0 <= i < self.entries().len() ==> #[trigger] self.entries()[i].0 != c,
            },
    {
        let mut i: usize = 0;
        while i < self.transitions.len()
            invariant
                i <= self.transitions.len(),
                forall|j: int| 0 <= j < i ==> #[trigger] self.transitions@[j].0 != c,
            decreases self.transitions.len() - i,
        {
            if self.transitions[i].0 == c {
                return Some(i);
            }
            i += 1;
        }
        None
    }

    /// Adds `v` occurrences of `c`, saturating at the largest count.
    fn add_count(&mut self, c: char, v: u64)
        requires
            old(self).wf(),
            v >= 1,
        ensures
            final(self).wf(),
            final(self).prefix() == old(self).prefix(),
            final(self).counts() == bump(old(self).counts(), c, v as nat),
            final(self).entries().len() >= old(self).entries().len(),
            old(self).counts().contains_key(c) ==> final(self).entries().len() == old(self).entries().len()
                && forall|i: int| 0 <= i < old(self).entries().len() ==> #[trigger] final(self).entries()[i].0
                    == old(self).entries()[i].0,
            !old(self).counts().contains_key(c) ==> final(self).entries() == old(self).entries().push((c, v)),
    {
        proof {
            self.lemma_counts();
        }
        let ghost p = entry_pairs(self.entries());
        match self.find(c) {
            Some(i) => {
                let old_v = self.transitions[i].1;
                let new_v = if old_v <= u64::MAX - v {
                    old_v + v
                } else {
                    u64::MAX
                };
                self.transitions.set(i, (c, new_v));
                proof {
                    lemma_assoc_index(p, i as int);
                    lemma_assoc_update(p, i as int, new_v as nat);
                    assert(entry_pairs(self.entries()) =~= p.update(i as int, (c, new_v as nat)));
                }
            },
            None => {
                self.transitions.push((c, v));
                proof {
                    lemma_assoc_contains(p, c);
                    if assoc_map(p).contains_key(c) {
                        let j = choose|j: int| 0 <= j < p.len() && p[j].0 == c;
                        assert(old(self).entries()[j].0 == c);
                    }
                    lemma_assoc_push(p, c, v as nat);
                    assert(entry_pairs(self.entries()) =~= p.push((c, v as nat)));
                }
            },
        }
    }

    /// Records one more occurrence of `next_char` after the prefix
    /// (a count that has reached the largest `u64` stays there).
    pub fn add_transition(&mut self, next_char: char)
        requires
            old(self).wf(),
        ensures
            final(self).wf(),
            final(self).prefix() == old(self).prefix(),
            final(self).counts() == bump(old(self).counts(), next_char, 1),
            final(self).entries().len() > 0,
            old(self).counts().contains_key(next_char) ==> final(self).entries().len() == old(self).entries().len()
                && forall|i: int| 0 <= i < old(self).entries().len() ==> #[trigger] final(self).entries()[i].0
                    == old(self).entries()[i].0,
            !old(self).counts().contains_key(next_char) ==> final(self).entries() == old(self).entries().push((next_char, 1u64)),
    {
        self.add_count(next_char, 1);
        proof {
            self.lemma_counts();
        }
    }

    /// Adds the counts of `other` to this table, entry by entry.
    ///
    /// Fails, and leaves the table unchanged, when the prefixes differ.
    pub fn merge(&mut self, other: &Self) -> (r: Result<(), ModelError>)
        requires
            old(self).wf(),
            other.wf(),
        ensures
            final(self).wf(),
            final(self).prefix() == old(self).prefix(),
            final(self).entries().len() >= old(self).entries().len(),
            r is Ok <==> old(self).prefix() == other.prefix(),
            r is Ok ==> final(self).counts() == merge_counts(old(self).counts(), other.counts()),
            r is Err ==> r == Err::<(), ModelError>(ModelError::KeyMismatch) && *final(self)
                == *old(self),
    {
        if !same_chars(&self.key, &other.key) {
            return Err(ModelError::KeyMismatch);
        }
        let ghost start = self.counts();
        let ghost q = entry_pairs(other.entries());
        proof {
            self.lemma_counts();
            assert(q.subrange(0, 0) =~= Seq::<(char, nat)>::empty());
            lemma_merge_counts_empty(start);
        }
        let mut j: usize = 0;
        while j < other.transitions.len()
            invariant
                self.wf(),
                other.wf(),
                self.prefix() == old(self).prefix(),
                self.entries().len() >= old(self).entries().len(),
                start == old(self).counts(),
                counts_valid(start),
                q == entry_pairs(other.entries()),
                j <= other.transitions.len(),
                self.counts() == merge_counts(start, assoc_map(q.subrange(0, j as int))),
            decreases other.transitions.len() - j,
        {
            let (c, v) = other.transitions[j];
            self.add_count(c, v);
            proof {
                let a = q.subrange(0, j as int);
                assert(q.subrange(0, j + 1).drop_last() =~= a);
                assert(keys_unique(a));
                lemma_assoc_contains(a, c);
                if assoc_map(a).contains_key(c) {
                    let k = choose|k: int| 0 <= k < a.len() && a[k].0 == c;
                    assert(q[k].0 == q[j as int].0);
                }
                lemma_merge_insert(start, assoc_map(a), c, v as nat);
            }
            j += 1;
        }
        assert(q.subrange(0, q.len() as int) =~= q);
        Ok(())
    }

    /// The sum of all occurrence counts.
    pub fn total_count(&self) -> (r: u128)
        ensures
            r == self.total(),
    {
        let mut acc: u128 = 0;
        let mut i: usize = 0;
        while i < self.transitions.len()
            invariant
                i <= self.transitions.len(),
                acc == total_of(self.entries().subrange(0, i as int)),
                acc <= i * (u64::MAX as int),
            decreases self.transitions.len() - i,
        {
            proof {
                let e = self.entries();
                assert(e.subrange(0, i + 1).drop_last() =~= e.subrange(0, i as int));
                assert((i + 1) * (u64::MAX as int) == i * (u64::MAX as int) + u64::MAX) by (nonlinear_arith);
                assert((i + 1) * (u64::MAX as int) <= (usize::MAX as int) * (u64::MAX as int)) by (nonlinear_arith)
                    requires i + 1 <= usize::MAX;
            }
            acc = acc + self.transitions[i].1 as u128;
            i += 1;
        }
        assert(self.entries().subrange(0, i as int) =~= self.entries());
        acc
    }

    /// The character whose bucket holds `draw`, when the entries are laid
    /// out one after another as buckets of their counts' sizes.
    ///
    /// `None` exactly when `draw` is not below the total count.
    pub fn predict_with(&self, draw: u128) -> (r: Option<char>)
        ensures
            r is Some <==> draw < self.total(),
            r is Some ==> exists|i: int|
                0 <= i < self.entries().len() && total_of(self.entries().subrange(0, i))
                    <= draw < total_of(self.entries().subrange(0, i + 1)) && #[trigger] self.entries()[i].0
                    == r->0,
    {
        let mut acc: u128 = 0;
        let mut i: usize = 0;
        while i < self.transitions.len()
            invariant
                i <= self.transitions.len(),
                acc == total_of(self.entries().subrange(0, i as int)),
                acc <= draw,
                acc <= i * (u64::MAX as int),
            decreases self.transitions.len() - i,
        {
            let w = self.transitions[i].1 as u128;
            proof {
                let e = self.entries();
                assert(e.subrange(0, i + 1).drop_last() =~= e.subrange(0, i as int));
                assert((i + 1) * (u64::MAX as int) == i * (u64::MAX as int) + u64::MAX) by (nonlinear_arith);
                assert((i + 1) * (u64::MAX as int) <= (usize::MAX as int) * (u64::MAX as int)) by (nonlinear_arith)
                    requires i + 1 <= usize::MAX;
                lemma_total_prefix_le(e, i as int + 1);
            }
            if draw - acc < w {
                return Some(self.transitions[i].0);
            }
            acc = acc + w;
            i += 1;
        }
        assert(self.entries().subrange(0, i as int) =~= self.entries());
        None
    }

    /// Draws the next character at random, each with probability
    /// proportional to its count. `None` for an empty table.
    pub fn predict(&self) -> (r: Option<char>)
        requires
            self.wf(),
        ensures
            r is Some <==> self.entries().len() > 0,
            r is Some ==> self.counts().contains_key(r->0),
    {
        let total = self.total_count();
        proof {
            self.lemma_counts();
            lemma_total_positive(self.entries());
        }
        if total == 0 {
            return None;
        }
        let d = draw_below(total);
        let r = self.predict_with(d);
        proof {
            if r is Some {
                let i = choose|i: int|
                    0 <= i < self.entries().len() && total_of(self.entries().subrange(0, i))
                        <= d < total_of(self.entries().subrange(0, i + 1))
                        && #[trigger] self.entries()[i].0 == r->0;
                assert(self.entries()[i].0 == r->0);
            }
        }
        r
    }

    /// The number of distinct following characters.
    pub fn entry_count(&self) -> (r: usize)
        ensures
            r == self.entries().len(),
    {
        self.transitions.len()
    }

    /// The entry at position `i`: a following character and its count.
    pub fn entry(&self, i: usize) -> (r: (char, u64))
        requires
            i < self.entries().len(),
        ensures
            r == self.entries()[i as int],
    {
        self.transitions[i]
    }

    /// How many times `c` followed the prefix (0 when never).
    pub fn count_of(&self, c: char) -> (r: u64)
        requires
            self.wf(),
        ensures
            r == count_in(self.counts(), c),
    {
        proof {
            self.lemma_counts();
        }
        match self.find(c) {
            Some(i) => {
                proof {
                    lemma_assoc_index(entry_pairs(self.entries()), i as int);
                }
                self.transitions[i].1
            },
            None => 0,
        }
    }

    /// Adds `count` occurrences of `c` at once (a count that would pass
    /// the largest `u64` stays there); used to rebuild a saved table.
    pub fn add_occurrences(&mut self, c: char, count: u64)
        requires
            old(self).wf(),
            count >= 1,
        ensures
            final(self).wf(),
            final(self).prefix() == old(self).prefix(),
            final(self).counts() == bump(old(self).counts(), c, count as nat),
            old(self).counts().contains_key(c) ==> final(self).entries().len() == old(self).entries().len()
                && forall|i: int| 0 <= i < old(self).entries().len() ==> #[trigger] final(self).entries()[i].0
                    == old(self).entries()[i].0,
            !old(self).counts().contains_key(c) ==> final(self).entries() == old(self).entries().push((c, count)),
    {
        self.add_count(c, count);
    }
}

proof fn lemma_total_prefix_le(e: Seq<(char, u64)>, k: int)
    requires
        0 <= k <= e.len(),
    ensures
        total_of(e.subrange(0, k)) <= total_of(e),
    decreases e.len() - k,
{
    if k < e.len() {
        lemma_total_prefix_le(e, k + 1);
        assert(e.subrange(0, k + 1).drop_last() =~= e.subrange(0, k));
    } else {
        assert(e.subrange(0, k) =~= e);
    }
}

proof fn lemma_total_positive(e: Seq<(char, u64)>)
    requires
        forall|i: int| 0 <= i < e.len() ==> #[trigger] e[i].1 >= 1,
    ensures
        total_of(e) >= e.len(),
    decreases e.len(),
{
    if e.len() > 0 {
        lemma_total_positive(e.drop_last());
    }
}

} // verus!
