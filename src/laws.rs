//! Laws of learning and merging: merging corpus models is associative and
//! commutative, learning a sentence twice is learning it once, and a model
//! built from two disjoint sets of sentences is the merge of the models
//! built from each.

use vstd::prelude::*;
use crate::counts::{
    bump, counts_valid, learn, lemma_merge_counts_valid,
    lemma_merge_orders_associative, lemma_merge_orders_commutative,
    lemma_merge_transitions_empty, lemma_table_in_merge, merge_counts, merge_orders,
    merge_transitions, order_at, record, record_windows, table_in, transitions_valid,
    Counts, Transitions,
};
use crate::multigram_model::{
    build, empty_view, ingest, ingest_grams, merge_view, wrap, CorpusView, MultiGramModel,
};
use crate::text::lower_seq;

verus! {

/// Every transition map of `v` holds valid counts.
pub open spec fn view_valid(v: CorpusView) -> bool {
    forall|i: int| 0 <= i < v.grams.len() ==> transitions_valid(#[trigger] v.grams[i])
}

/// The model that has learned the single sentence `s`.
pub open spec fn single(s: Seq<char>) -> CorpusView {
    ingest(empty_view(), s)
}

proof fn lemma_bump_merge(m: Counts, a: Counts, c: char, v: nat)
    ensures
        bump(merge_counts(m, a), c, v) == merge_counts(m, bump(a, c, v)),
{
    assert(bump(merge_counts(m, a), c, v) =~= merge_counts(m, bump(a, c, v)));
}

proof fn lemma_record_merge(t: Transitions, a: Transitions, p: Seq<char>, c: char)
    ensures
        record(merge_transitions(t, a), p, c) == merge_transitions(t, record(a, p, c)),
{
    let l = record(merge_transitions(t, a), p, c);
    let r = merge_transitions(t, record(a, p, c));
    assert forall|q: Seq<char>| #[trigger] l.contains_key(q) implies l[q] == r[q] by {
        lemma_table_in_merge(t, a, q);
        if q == p {
            lemma_bump_merge(table_in(t, p), table_in(a, p), c, 1);
        }
    }
    assert(l =~= r);
}

proof fn lemma_record_valid(t: Transitions, p: Seq<char>, c: char)
    requires
        transitions_valid(t),
    ensures
        transitions_valid(record(t, p, c)),
{
    assert(counts_valid(table_in(t, p)));
}

proof fn lemma_windows_merge(t: Transitions, w: Seq<char>, n: nat, k: nat)
    requires
        transitions_valid(t),
    ensures
        record_windows(t, w, n, k) == merge_transitions(t, record_windows(Map::empty(), w, n, k)),
        transitions_valid(record_windows(t, w, n, k)),
    decreases k,
{
    if k == 0 {
        lemma_merge_transitions_empty(t);
    } else {
        let i = k - 1;
        lemma_windows_merge(t, w, n, (k - 1) as nat);
        lemma_record_merge(t, record_windows(Map::empty(), w, n, (k - 1) as nat), w.subrange(i, i + n - 1), w[i + n - 1]);
        lemma_record_valid(record_windows(t, w, n, (k - 1) as nat), w.subrange(i, i + n - 1), w[i + n - 1]);
    }
}

proof fn lemma_learn_merge(t: Transitions, w: Seq<char>, n: nat)
    requires
        transitions_valid(t),
    ensures
        learn(t, w, n) == merge_transitions(t, learn(Map::empty(), w, n)),
        transitions_valid(learn(t, w, n)),
{
    if w.len() < n {
        lemma_merge_transitions_empty(t);
    } else {
        lemma_windows_merge(t, w, n, (w.len() - n + 1) as nat);
    }
}

proof fn lemma_merge_transitions_valid(a: Transitions, b: Transitions)
    requires
        transitions_valid(a),
        transitions_valid(b),
    ensures
        transitions_valid(merge_transitions(a, b)),
{
    assert forall|p: Seq<char>| merge_transitions(a, b).contains_key(p) implies counts_valid(
        #[trigger] merge_transitions(a, b)[p],
    ) by {
        lemma_merge_counts_valid(table_in(a, p), table_in(b, p));
    }
}

proof fn lemma_merge_view_valid(a: CorpusView, b: CorpusView)
    requires
        view_valid(a),
        view_valid(b),
    ensures
        view_valid(merge_view(a, b)),
{
    assert forall|i: int| 0 <= i < merge_view(a, b).grams.len() implies transitions_valid(
        #[trigger] merge_view(a, b).grams[i],
    ) by {
        lemma_merge_transitions_valid(order_at(a.grams, i), order_at(b.grams, i));
    }
}

proof fn lemma_ingest_merge(v: CorpusView, s: Seq<char>)
    requires
        view_valid(v),
        !v.sentences.contains(s),
    ensures
        ingest(v, s) == merge_view(v, single(s)),
        view_valid(ingest(v, s)),
{
    let w = wrap(s);
    let g = v.grams;
    let e = ingest_grams(Seq::empty(), w);
    let l = ingest_grams(g, w);
    let r = merge_orders(g, e);
    assert forall|i: int| 0 <= i < l.len() implies #[trigger] l[i] == r[i] && transitions_valid(l[i]) by {
        lemma_learn_merge(order_at(g, i), lower_seq(w), (i + 2) as nat);
        if i >= e.len() {
            assert(lower_seq(w).len() < i + 2);
            assert(order_at(e, i) == Map::<Seq<char>, Counts>::empty());
            lemma_merge_transitions_empty(order_at(g, i));
        } else {
            assert(order_at(Seq::<Transitions>::empty(), i) == Map::<Seq<char>, Counts>::empty());
        }
    }
    assert(l =~= r);
    assert(ingest(v, s).sentences =~= merge_view(v, single(s)).sentences);
}

proof fn lemma_merge_empty(v: CorpusView)
    requires
        view_valid(v),
    ensures
        merge_view(v, empty_view()) == v,
{
    assert forall|i: int| 0 <= i < v.grams.len() implies #[trigger] merge_orders(v.grams, Seq::empty())[i] == v.grams[i] by {
        lemma_merge_transitions_empty(v.grams[i]);
    }
    assert(merge_orders(v.grams, Seq::empty()) =~= v.grams);
    assert(v.sentences.union(Set::empty()) =~= v.sentences);
}

proof fn lemma_build_facts(ss: Seq<Seq<char>>)
    ensures
        view_valid(build(ss)),
        forall|x: Seq<char>| build(ss).sentences.contains(x) <==> ss.contains(x),
    decreases ss.len(),
{
    if ss.len() > 0 {
        lemma_build_facts(ss.drop_last());
        let b = build(ss.drop_last());
        if !b.sentences.contains(ss.last()) {
            lemma_ingest_merge(b, ss.last());
        }
        assert forall|x: Seq<char>| build(ss).sentences.contains(x) <==> ss.contains(x) by {
            if ss.contains(x) && x != ss.last() {
                let i = choose|i: int| 0 <= i < ss.len() && ss[i] == x;
                assert(ss.drop_last()[i] == x);
            }
            if ss.drop_last().contains(x) {
                let i = choose|i: int| 0 <= i < ss.drop_last().len() && ss.drop_last()[i] == x;
                assert(ss[i] == x);
            }
            if x == ss.last() {
                assert(ss[ss.len() - 1] == x);
            }
        }
    }
}

/// Merging corpus models is associative: the learned counts and the
/// sentence set do not depend on how the merges are grouped.
pub proof fn lemma_merge_associative(a: &MultiGramModel, b: &MultiGramModel, c: &MultiGramModel)
    requires
        a.wf(),
        b.wf(),
        c.wf(),
    ensures
        merge_view(merge_view(a.view(), b.view()), c.view()) == merge_view(
            a.view(),
            merge_view(b.view(), c.view()),
        ),
{
    lemma_merge_orders_associative(a.view().grams, b.view().grams, c.view().grams);
    assert(a.view().sentences.union(b.view().sentences).union(c.view().sentences) =~= a.view().sentences.union(
        b.view().sentences.union(c.view().sentences),
    ));
}

/// Merging corpus models is commutative: the learned counts and the
/// sentence set do not depend on the order of the two models.
pub proof fn lemma_merge_commutative(a: &MultiGramModel, b: &MultiGramModel)
    requires
        a.wf(),
        b.wf(),
    ensures
        merge_view(a.view(), b.view()) == merge_view(b.view(), a.view()),
{
    lemma_merge_orders_commutative(a.view().grams, b.view().grams);
    assert(a.view().sentences.union(b.view().sentences) =~= b.view().sentences.union(a.view().sentences));
}

/// Learning a sentence a second time changes nothing: the model equals
/// the one that learned it once.
pub proof fn lemma_add_sentence_twice(m: &MultiGramModel, s: Seq<char>)
    requires
        m.wf(),
    ensures
        ingest(ingest(m.view(), s), s) == ingest(m.view(), s),
{
}

/// The model built from the sentences of `xs` and then of `ys`, when no
/// sentence of `ys` is among `xs`, is the merge of the model built from
/// `xs` and the model built from `ys`.
pub proof fn lemma_build_union(xs: Seq<Seq<char>>, ys: Seq<Seq<char>>)
    requires
        forall|i: int| 0 <= i < ys.len() ==> !xs.contains(#[trigger] ys[i]),
    ensures
        build(xs + ys) == merge_view(build(xs), build(ys)),
    decreases ys.len(),
{
    lemma_build_facts(xs);
    if ys.len() == 0 {
        assert(xs + ys =~= xs);
        lemma_merge_empty(build(xs));
    } else {
        let y = ys.last();
        let yp = ys.drop_last();
        assert forall|i: int| 0 <= i < yp.len() implies !xs.contains(#[trigger] yp[i]) by {
            assert(yp[i] == ys[i]);
        }
        lemma_build_union(xs, yp);
        assert((xs + ys).drop_last() =~= xs + yp);
        assert((xs + ys).last() == y);
        let bx = build(xs);
        let by = build(yp);
        lemma_build_facts(yp);
        lemma_merge_view_valid(bx, by);
        if by.sentences.contains(y) {
            assert(merge_view(bx, by).sentences.contains(y));
        } else {
            assert(!xs.contains(ys[ys.len() - 1]));
            assert(!bx.sentences.contains(y));
            lemma_ingest_merge(merge_view(bx, by), y);
            lemma_ingest_merge(by, y);
            lemma_merge_orders_associative(bx.grams, by.grams, single(y).grams);
            assert(bx.sentences.union(by.sentences).union(single(y).sentences) =~= bx.sentences.union(
                by.sentences.union(single(y).sentences),
            ));
        }
    }
}

} // verus!
