//! The mathematical model of learned statistics: occurrence counts per
//! following character, transition tables per prefix, and one table map
//! per order, together with the algebra of merging them.

use vstd::prelude::*;

verus! {

/// Occurrence count of each following character.
pub type Counts = Map<char, nat>;

/// For each prefix, the counts of the characters that followed it.
pub type Transitions = Map<Seq<char>, Counts>;

/// Addition of occurrence counts, saturating at the largest `u64`.
pub open spec fn sat_add(a: nat, b: nat) -> nat {
    if a + b <= u64::MAX {
        a + b
    } else {
        u64::MAX as nat
    }
}

/// The count of `c` in `m`, zero where `c` was never seen.
pub open spec fn count_in(m: Counts, c: char) -> nat {
    if m.contains_key(c) {
        m[c]
    } else {
        0
    }
}

/// Every recorded count lies in `1..=u64::MAX`.
pub open spec fn counts_valid(m: Counts) -> bool {
    forall|c: char| m.contains_key(c) ==> 1 <= #[trigger] m[c] <= u64::MAX
}

/// Entry-wise sum of two count maps.
pub open spec fn merge_counts(a: Counts, b: Counts) -> Counts {
    Map::new(
        |c: char| a.contains_key(c) || b.contains_key(c),
        |c: char| sat_add(count_in(a, c), count_in(b, c)),
    )
}

/// The counts of `m` after one more occurrence of `c`.
pub open spec fn bump(m: Counts, c: char, v: nat) -> Counts {
    m.insert(c, sat_add(count_in(m, c), v))
}

/// The table of `prefix` in `t`, empty where the prefix is unknown.
pub open spec fn table_in(t: Transitions, prefix: Seq<char>) -> Counts {
    if t.contains_key(prefix) {
        t[prefix]
    } else {
        Map::empty()
    }
}

/// Every table holds valid counts.
pub open spec fn transitions_valid(t: Transitions) -> bool {
    forall|p: Seq<char>| t.contains_key(p) ==> counts_valid(#[trigger] t[p])
}

/// Prefix-wise merge of two transition maps.
pub open spec fn merge_transitions(a: Transitions, b: Transitions) -> Transitions {
    Map::new(
        |p: Seq<char>| a.contains_key(p) || b.contains_key(p),
        |p: Seq<char>| merge_counts(table_in(a, p), table_in(b, p)),
    )
}

/// One more observation of `c` after `prefix`.
pub open spec fn record(t: Transitions, prefix: Seq<char>, c: char) -> Transitions {
    t.insert(prefix, bump(table_in(t, prefix), c, 1))
}

/// The transition map of order `i + 2` in `g`, empty past its end.
pub open spec fn order_at(g: Seq<Transitions>, i: int) -> Transitions {
    if 0 <= i < g.len() {
        g[i]
    } else {
        Map::empty()
    }
}

/// Order-wise merge of two sequences of transition maps (index `i` holds order `i + 2`).
pub open spec fn merge_orders(a: Seq<Transitions>, b: Seq<Transitions>) -> Seq<Transitions> {
    Seq::new(
        if a.len() >= b.len() {
            a.len()
        } else {
            b.len()
        },
        |i: int| merge_transitions(order_at(a, i), order_at(b, i)),
    )
}

pub proof fn lemma_merge_counts_commutative(a: Counts, b: Counts)
    ensures
        merge_counts(a, b) == merge_counts(b, a),
{
    assert(merge_counts(a, b) =~= merge_counts(b, a));
}

pub proof fn lemma_merge_counts_associative(a: Counts, b: Counts, c: Counts)
    ensures
        merge_counts(merge_counts(a, b), c) == merge_counts(a, merge_counts(b, c)),
{
    assert(merge_counts(merge_counts(a, b), c) =~= merge_counts(a, merge_counts(b, c)));
}

pub proof fn lemma_merge_counts_empty(a: Counts)
    requires
        counts_valid(a),
    ensures
        merge_counts(a, Map::empty()) == a,
        merge_counts(Map::empty(), a) == a,
{
    assert(merge_counts(a, Map::empty()) =~= a);
    assert(merge_counts(Map::empty(), a) =~= a);
}

pub proof fn lemma_merge_counts_valid(a: Counts, b: Counts)
    requires
        counts_valid(a),
        counts_valid(b),
    ensures
        counts_valid(merge_counts(a, b)),
        merge_counts(a, b).dom() == a.dom().union(b.dom()),
{
    assert(merge_counts(a, b).dom() =~= a.dom().union(b.dom()));
}

pub proof fn lemma_merge_transitions_commutative(a: Transitions, b: Transitions)
    ensures
        merge_transitions(a, b) == merge_transitions(b, a),
{
    assert forall|p: Seq<char>| #[trigger] table_in(a, p) == table_in(a, p) implies merge_counts(
        table_in(a, p),
        table_in(b, p),
    ) == merge_counts(table_in(b, p), table_in(a, p)) by {
        lemma_merge_counts_commutative(table_in(a, p), table_in(b, p));
    }
    assert(merge_transitions(a, b) =~= merge_transitions(b, a));
}

pub proof fn lemma_table_in_merge(a: Transitions, b: Transitions, p: Seq<char>)
    ensures
        table_in(merge_transitions(a, b), p) == merge_counts(table_in(a, p), table_in(b, p)),
{
    if !a.contains_key(p) && !b.contains_key(p) {
        assert(merge_counts(table_in(a, p), table_in(b, p)) =~= Map::empty());
    }
}

pub proof fn lemma_merge_transitions_associative(a: Transitions, b: Transitions, c: Transitions)
    ensures
        merge_transitions(merge_transitions(a, b), c) == merge_transitions(
            a,
            merge_transitions(b, c),
        ),
{
    let l = merge_transitions(merge_transitions(a, b), c);
    let r = merge_transitions(a, merge_transitions(b, c));
    assert forall|p: Seq<char>| #[trigger] l.contains_key(p) implies l[p] == r[p] by {
        lemma_table_in_merge(a, b, p);
        lemma_table_in_merge(b, c, p);
        lemma_merge_counts_associative(table_in(a, p), table_in(b, p), table_in(c, p));
    }
    assert(l =~= r);
}

pub proof fn lemma_merge_orders_commutative(a: Seq<Transitions>, b: Seq<Transitions>)
    ensures
        merge_orders(a, b) == merge_orders(b, a),
{
    assert forall|i: int| 0 <= i < merge_orders(a, b).len() implies #[trigger] merge_orders(
        a,
        b,
    )[i] == merge_orders(b, a)[i] by {
        lemma_merge_transitions_commutative(order_at(a, i), order_at(b, i));
    }
    assert(merge_orders(a, b) =~= merge_orders(b, a));
}

pub proof fn lemma_merge_orders_associative(
    a: Seq<Transitions>,
    b: Seq<Transitions>,
    c: Seq<Transitions>,
)
    ensures
        merge_orders(merge_orders(a, b), c) == merge_orders(a, merge_orders(b, c)),
{
    let l = merge_orders(merge_orders(a, b), c);
    let r = merge_orders(a, merge_orders(b, c));
    assert forall|i: int| 0 <= i < l.len() implies #[trigger] l[i] == r[i] by {
        assert(order_at(merge_orders(a, b), i) == merge_transitions(order_at(a, i), order_at(b, i)));
        assert(order_at(merge_orders(b, c), i) == merge_transitions(order_at(b, i), order_at(c, i)));
        lemma_merge_transitions_associative(order_at(a, i), order_at(b, i), order_at(c, i));
    }
    assert(l =~= r);
}

pub proof fn lemma_merge_insert(m: Counts, a: Counts, c: char, v: nat)
    requires
        counts_valid(m),
        !a.contains_key(c),
    ensures
        merge_counts(m, a.insert(c, v)) == bump(merge_counts(m, a), c, v),
{
    assert(merge_counts(m, a.insert(c, v)) =~= bump(merge_counts(m, a), c, v));
}

/// The first `k` windows of length `n` of `w` recorded into `t`: window
/// `i` is the prefix `w[i..i + n - 1]` followed by `w[i + n - 1]`.
pub open spec fn record_windows(t: Transitions, w: Seq<char>, n: nat, k: nat) -> Transitions
    decreases k,
{
    if k == 0 {
        t
    } else {
        let i = k - 1;
        record(record_windows(t, w, n, (k - 1) as nat), w.subrange(i, i + n - 1), w[i + n - 1])
    }
}

/// Every window of length `n` of `w` recorded into `t`; nothing when `w`
/// is shorter than `n`.
pub open spec fn learn(t: Transitions, w: Seq<char>, n: nat) -> Transitions {
    if w.len() < n {
        t
    } else {
        record_windows(t, w, n, (w.len() - n + 1) as nat)
    }
}

pub proof fn lemma_merge_transitions_insert(t: Transitions, a: Transitions, p: Seq<char>, c: Counts)
    requires
        counts_valid(table_in(t, p)),
        counts_valid(c),
        !a.contains_key(p),
    ensures
        table_in(merge_transitions(t, a), p) == table_in(t, p),
        merge_transitions(t, a.insert(p, c)) == merge_transitions(t, a).insert(
            p,
            merge_counts(table_in(t, p), c),
        ),
{
    lemma_merge_counts_empty(table_in(t, p));
    lemma_table_in_merge(t, a, p);
    let l = merge_transitions(t, a.insert(p, c));
    let r = merge_transitions(t, a).insert(p, merge_counts(table_in(t, p), c));
    assert forall|q: Seq<char>| #[trigger] l.contains_key(q) implies l[q] == r[q] by {
        if q != p {
            lemma_table_in_merge(t, a, q);
        }
    }
    assert(l =~= r);
}

pub proof fn lemma_merge_transitions_empty(t: Transitions)
    requires
        transitions_valid(t),
    ensures
        merge_transitions(t, Map::empty()) == t,
        merge_transitions(Map::empty(), t) == t,
{
    assert forall|p: Seq<char>| #[trigger] t.contains_key(p) implies merge_counts(
        table_in(t, p),
        table_in(Map::empty(), p),
    ) == t[p] && merge_counts(table_in(Map::empty(), p), table_in(t, p)) == t[p] by {
        lemma_merge_counts_empty(t[p]);
    }
    assert(merge_transitions(t, Map::empty()) =~= t);
    assert(merge_transitions(Map::empty(), t) =~= t);
}

// Association lists: a sequence of (key, value) pairs read as a map.

/// The map of an association list; a later pair wins over an earlier one.
pub open spec fn assoc_map<K, V>(s: Seq<(K, V)>) -> Map<K, V>
    decreases s.len(),
{
    if s.len() == 0 {
        Map::empty()
    } else {
        assoc_map(s.drop_last()).insert(s.last().0, s.last().1)
    }
}

/// No key occurs twice.
pub open spec fn keys_unique<K, V>(s: Seq<(K, V)>) -> bool {
    forall|i: int, j: int| 0 <= i < s.len() && 0 <= j < s.len() && i != j ==> s[i].0 != s[j].0
}

pub proof fn lemma_assoc_contains<K, V>(s: Seq<(K, V)>, k: K)
    ensures
        assoc_map(s).contains_key(k) <==> exists|i: int| 0 <= i < s.len() && s[i].0 == k,
        assoc_map(s).dom().finite(),
        assoc_map(s).dom().len() <= s.len(),
    decreases s.len(),
{
    if s.len() > 0 {
        lemma_assoc_contains(s.drop_last(), k);
        if assoc_map(s).contains_key(k) && k != s.last().0 {
            let i = choose|i: int| 0 <= i < s.drop_last().len() && s.drop_last()[i].0 == k;
            assert(s[i].0 == k);
        }
        if exists|i: int| 0 <= i < s.len() && s[i].0 == k {
            let i = choose|i: int| 0 <= i < s.len() && s[i].0 == k;
            if i < s.len() - 1 {
                assert(s.drop_last()[i].0 == k);
            }
        }
    }
}

pub proof fn lemma_assoc_index<K, V>(s: Seq<(K, V)>, i: int)
    requires
        keys_unique(s),
        0 <= i < s.len(),
    ensures
        assoc_map(s).contains_key(s[i].0),
        assoc_map(s)[s[i].0] == s[i].1,
    decreases s.len(),
{
    if i < s.len() - 1 {
        assert(keys_unique(s.drop_last()));
        lemma_assoc_index(s.drop_last(), i);
        assert(s[i].0 != s.last().0);
    }
}

pub proof fn lemma_assoc_update<K, V>(s: Seq<(K, V)>, i: int, v: V)
    requires
        keys_unique(s),
        0 <= i < s.len(),
    ensures
        assoc_map(s.update(i, (s[i].0, v))) == assoc_map(s).insert(s[i].0, v),
        keys_unique(s.update(i, (s[i].0, v))),
    decreases s.len(),
{
    let u = s.update(i, (s[i].0, v));
    if i == s.len() - 1 {
        assert(u.drop_last() =~= s.drop_last());
        assert(assoc_map(u) =~= assoc_map(s).insert(s[i].0, v));
    } else {
        assert(keys_unique(s.drop_last()));
        assert(u.drop_last() =~= s.drop_last().update(i, (s[i].0, v)));
        lemma_assoc_update(s.drop_last(), i, v);
        assert(s[i].0 != s.last().0);
        assert(assoc_map(u) =~= assoc_map(s).insert(s[i].0, v));
    }
}

pub proof fn lemma_assoc_push<K, V>(s: Seq<(K, V)>, k: K, v: V)
    requires
        keys_unique(s),
        !assoc_map(s).contains_key(k),
    ensures
        assoc_map(s.push((k, v))) == assoc_map(s).insert(k, v),
        keys_unique(s.push((k, v))),
{
    lemma_assoc_contains(s, k);
    assert(s.push((k, v)).drop_last() =~= s);
}

} // verus!
