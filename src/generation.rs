//! The pieces of generation shared by corpus models and the generator:
//! which order to try, how randomness shortens it, and what a generated
//! character is owed.

use vstd::prelude::*;
use crate::counts::{table_in, Transitions};
use crate::random::draw_below;
use crate::prediction_input::StartSeed;
use crate::text::lower_seq;

verus! {

/// Randomness is given in millionths: `SCALE` stands for certainty.
pub const SCALE: u32 = 1_000_000;

/// Marks the start of every learned sentence.
pub const START_CHAR: char = '<';

/// Marks the end of every learned sentence.
pub const END_CHAR: char = '>';

/// The last `k` characters of `s`.
pub open spec fn last_chars(s: Seq<char>, k: int) -> Seq<char> {
    s.subrange(s.len() - k, s.len() as int)
}

/// The context `ctx` has, at order `n`, a known prefix in `g`: its last
/// `n - 1` characters, lowercased.
pub open spec fn knows(g: Seq<Transitions>, ctx: Seq<char>, n: int) -> bool {
    &&& 2 <= n
    &&& n - 1 <= ctx.len()
    &&& n - 2 < g.len()
    &&& g[n - 2].contains_key(lower_seq(last_chars(ctx, n - 1)))
}

/// `c` was seen, at order `n`, after the last `n - 1` characters of `ctx`.
pub open spec fn predicts(g: Seq<Transitions>, ctx: Seq<char>, n: int, c: char) -> bool {
    &&& knows(g, ctx, n)
    &&& table_in(g[n - 2], lower_seq(last_chars(ctx, n - 1))).contains_key(c)
}

/// Each character of `tail` is not the end marker and was seen, at some
/// order, after what precedes it (`ctx`, then the earlier characters of `tail`).
pub open spec fn follows(g: Seq<Transitions>, ctx: Seq<char>, tail: Seq<char>) -> bool {
    forall|j: int|
        0 <= j < tail.len() ==> #[trigger] tail[j] != END_CHAR && exists|n: int|
            predicts(g, ctx + tail.subrange(0, j), n, tail[j])
}

/// A seed without its leading start marker.
pub open spec fn strip_start(s: Seq<char>) -> Seq<char> {
    if s.len() > 0 && s[0] == START_CHAR {
        s.drop_first()
    } else {
        s
    }
}

/// The context that prediction starts from: the stripped seed, led by the
/// start marker.
pub open spec fn context_of(seed: Seq<char>) -> Seq<char> {
    if seed.len() > 0 && seed[0] == START_CHAR {
        seed
    } else {
        seq![START_CHAR] + seed
    }
}

/// `w` is `seed` followed by characters that each follow, in `g`, the
/// context of the seed and the characters before them.
pub open spec fn continues(g: Seq<Transitions>, seed: Seq<char>, w: Seq<char>) -> bool {
    &&& seed.len() <= w.len()
    &&& w.subrange(0, seed.len() as int) == seed
    &&& follows(g, context_of(seed), w.subrange(seed.len() as int, w.len() as int))
}

/// The order index (order minus 2) that a random seed of order `k` may
/// select among `size` orders: `k - 2`, capped by the last order, when
/// `k >= 2`; any index when `k < 2`.
pub open spec fn seed_index_ok(size: nat, k: nat, idx: int) -> bool {
    &&& 0 <= idx < size
    &&& k >= 2 ==> idx == if k - 2 < size {
        k - 2
    } else {
        size - 1
    }
}

/// `p` is a known prefix of an order that a random seed of order `k` may
/// select in `g`.
pub open spec fn random_key_of(g: Seq<Transitions>, k: nat, p: Seq<char>) -> bool {
    exists|idx: int| seed_index_ok(g.len(), k, idx) && #[trigger] g[idx].contains_key(p)
}

/// `seed` is a known prefix, without its start marker, of an order that a
/// random seed of order `k` may select in `g`.
pub open spec fn random_seed_of(g: Seq<Transitions>, k: nat, seed: Seq<char>) -> bool {
    exists|p: Seq<char>| #[trigger] random_key_of(g, k, p) && seed == strip_start(p)
}

/// `g` holds no order, or an order that a random seed of order `k` may
/// select knows no prefix.
pub open spec fn seed_missing(g: Seq<Transitions>, k: nat) -> bool {
    g.len() == 0 || exists|idx: int| seed_index_ok(g.len(), k, idx) && (#[trigger] g[idx]).dom().len() == 0
}

/// `seed` is what `start_seed` asks for in `g`: nothing for `False`, the
/// custom text without its start marker for `Custom`, and for `Random(k)`
/// a known prefix of the selected order without its start marker (nothing
/// when that order knows no prefix).
pub open spec fn seeded_by(g: Seq<Transitions>, start_seed: StartSeed, seed: Seq<char>) -> bool {
    match start_seed {
        StartSeed::False => seed.len() == 0,
        StartSeed::Custom(s) => seed == strip_start(s@),
        StartSeed::Random(k) => random_seed_of(g, k as nat, seed) || (seed.len() == 0 && seed_missing(g, k as nat)),
    }
}

/// The characters of `w` after the seed.
pub open spec fn tail_of(seed: Seq<char>, w: Seq<char>) -> Seq<char> {
    w.subrange(seed.len() as int, w.len() as int)
}

/// Generation may stop after the context `ctx`: the end marker was seen
/// after it at some order, no order from 2 up knows it, or it has reached
/// the largest length.
pub open spec fn finished(g: Seq<Transitions>, ctx: Seq<char>) -> bool {
    ||| exists|n: int| #[trigger] predicts(g, ctx, n, END_CHAR)
    ||| !knows(g, ctx, 2)
    ||| ctx.len() >= usize::MAX - 1
}

/// `w` is a seed that `start_seed` asks for, followed by characters that
/// each follow, in `g`, what precedes them, and generation stopped after it.
pub open spec fn generated_from(g: Seq<Transitions>, start_seed: StartSeed, w: Seq<char>) -> bool {
    exists|seed: Seq<char>|
        #[trigger] continues(g, seed, w) && seeded_by(g, start_seed, seed) && finished(
            g,
            context_of(seed) + tail_of(seed, w),
        )
}

/// Each character of `tail` is not the end marker and was seen, at some
/// order and in one of the models `gs`, after what precedes it.
pub open spec fn follows_any(gs: Seq<Seq<Transitions>>, ctx: Seq<char>, tail: Seq<char>) -> bool {
    forall|j: int|
        0 <= j < tail.len() ==> #[trigger] tail[j] != END_CHAR && exists|m: int, n: int|
            0 <= m < gs.len() && predicts(gs[m], ctx + tail.subrange(0, j), n, tail[j])
}

/// `w` is `seed` followed by characters that each follow, in one of the
/// models `gs`, the context of the seed and the characters before them.
pub open spec fn continues_any(gs: Seq<Seq<Transitions>>, seed: Seq<char>, w: Seq<char>) -> bool {
    &&& seed.len() <= w.len()
    &&& w.subrange(0, seed.len() as int) == seed
    &&& follows_any(gs, context_of(seed), w.subrange(seed.len() as int, w.len() as int))
}

/// The model at `m` is among the eligible ones: its name is in `elig`.
pub open spec fn eligible_at(names: Seq<Seq<char>>, elig: Seq<Seq<char>>, m: int) -> bool {
    0 <= m < names.len() && elig.contains(names[m])
}

/// `seed` is what `start_seed` asks for, a random seed being drawn from
/// one of the eligible models.
pub open spec fn seeded_by_any(
    gs: Seq<Seq<Transitions>>,
    names: Seq<Seq<char>>,
    elig: Seq<Seq<char>>,
    start_seed: StartSeed,
    seed: Seq<char>,
) -> bool {
    match start_seed {
        StartSeed::False => seed.len() == 0,
        StartSeed::Custom(s) => seed == strip_start(s@),
        StartSeed::Random(k) => exists|m: int| #[trigger] eligible_at(names, elig, m) && m < gs.len() && random_seed_of(gs[m], k as nat, seed),
    }
}

/// Generation across models may stop after `ctx`: an eligible model saw
/// the end marker after it, no eligible model knows it at order 2, or it
/// has reached the largest length.
pub open spec fn finished_any(
    gs: Seq<Seq<Transitions>>,
    names: Seq<Seq<char>>,
    elig: Seq<Seq<char>>,
    ctx: Seq<char>,
) -> bool {
    ||| exists|m: int, n: int| eligible_at(names, elig, m) && m < gs.len() && #[trigger] predicts(gs[m], ctx, n, END_CHAR)
    ||| forall|m: int| eligible_at(names, elig, m) && m < gs.len() ==> !#[trigger] knows(gs[m], ctx, 2)
    ||| ctx.len() >= usize::MAX - 1
}

/// `w` is a seed that `start_seed` asks for, followed by characters that
/// each follow, in one of the models `gs`, what precedes them, and
/// generation stopped after it.
pub open spec fn generated_from_any(
    gs: Seq<Seq<Transitions>>,
    names: Seq<Seq<char>>,
    elig: Seq<Seq<char>>,
    start_seed: StartSeed,
    w: Seq<char>,
) -> bool {
    exists|seed: Seq<char>|
        #[trigger] continues_any(gs, seed, w) && seeded_by_any(gs, names, elig, start_seed, seed)
            && finished_any(gs, names, elig, context_of(seed) + tail_of(seed, w))
}

/// A random seed is asked for and the order it selects in `g` may know no
/// prefix.
pub open spec fn seed_missing_for(g: Seq<Transitions>, start_seed: StartSeed) -> bool {
    match start_seed {
        StartSeed::Random(k) => seed_missing(g, k as nat),
        _ => false,
    }
}

/// For a random seed, `p` is a known prefix of an order it may select in `g`.
pub open spec fn random_key_for(g: Seq<Transitions>, start_seed: StartSeed, p: Seq<char>) -> bool {
    match start_seed {
        StartSeed::Random(k) => random_key_of(g, k as nat, p),
        _ => true,
    }
}

/// Some eligible model may lack the prefix a random seed asks for.
pub open spec fn seed_missing_any(
    gs: Seq<Seq<Transitions>>,
    names: Seq<Seq<char>>,
    elig: Seq<Seq<char>>,
    start_seed: StartSeed,
) -> bool {
    exists|m: int| #[trigger] eligible_at(names, elig, m) && m < gs.len() && seed_missing_for(gs[m], start_seed)
}

/// `seed` without its leading start marker.
pub fn strip_start_chars(seed: Vec<char>) -> (r: Vec<char>)
    ensures
        r@ == strip_start(seed@),
{
    let mut w = seed;
    if w.len() > 0 && w[0] == START_CHAR {
        w.remove(0);
        assert(w@ =~= strip_start(seed@));
    }
    w
}

/// The context that prediction starts from after `seed`.
pub fn context_chars(seed: &Vec<char>) -> (r: Vec<char>)
    ensures
        r@ == context_of(seed@),
{
    let mut p: Vec<char> = Vec::new();
    let mut i: usize = 0;
    if !(seed.len() > 0 && seed[0] == START_CHAR) {
        p.push(START_CHAR);
    }
    let ghost lead = p@;
    while i < seed.len()
        invariant
            i <= seed.len(),
            p@ == lead + seed@.subrange(0, i as int),
        decreases seed.len() - i,
    {
        p.push(seed[i]);
        assert(lead + seed@.subrange(0, i + 1) =~= (lead + seed@.subrange(0, i as int)).push(seed@[i as int]));
        i += 1;
    }
    assert(lead + seed@.subrange(0, seed.len() as int) =~= context_of(seed@));
    p
}

/// The order to try after a context of `prefix_len` characters: one more
/// than the context, capped by `max_order` when that is at least 2.
pub open spec fn target_order_spec(prefix_len: nat, max_order: nat) -> nat {
    if max_order < 2 || prefix_len + 1 <= max_order {
        prefix_len + 1
    } else {
        max_order
    }
}

/// The order to try after a context of `prefix_len` characters.
pub fn target_order(prefix_len: usize, max_order: usize) -> (r: usize)
    requires
        prefix_len < usize::MAX,
    ensures
        r == target_order_spec(prefix_len as nat, max_order as nat),
{
    if max_order < 2 || prefix_len + 1 <= max_order {
        prefix_len + 1
    } else {
        max_order
    }
}

/// The order chosen from the draws: when `coin` falls below
/// `randomness`, the order `2 + pick`; otherwise `default`.
pub fn order_choice(randomness: u32, default: usize, coin: u32, pick: usize) -> (r: usize)
    requires
        pick <= usize::MAX - 2,
    ensures
        r == if coin < randomness {
            2 + pick
        } else {
            default as int
        },
{
    if coin < randomness {
        2 + pick
    } else {
        default
    }
}

/// With probability `randomness / SCALE`, an order drawn uniformly from
/// `2..=max(bound, 2)`; otherwise `default`.
pub fn compute_randomness(randomness: u32, bound: usize, default: usize) -> (r: usize)
    requires
        randomness <= SCALE,
    ensures
        r == default || 2 <= r <= if bound >= 2 {
            bound as int
        } else {
            2
        },
        randomness == 0 ==> r == default,
        randomness == SCALE ==> 2 <= r <= if bound >= 2 {
            bound as int
        } else {
            2
        },
{
    let coin = draw_below(SCALE as u128) as u32;
    if coin < randomness {
        let width: usize = if bound >= 2 {
            bound - 1
        } else {
            1
        };
        let pick = draw_below(width as u128) as usize;
        order_choice(randomness, default, coin, pick)
    } else {
        default
    }
}

/// The order to try next after a context of `prefix_len` characters: the
/// target order, or with probability `randomness / SCALE` an order drawn
/// uniformly from `2..=` the target order.
pub fn compute_n(prefix_len: usize, max_order: usize, randomness: u32) -> (r: usize)
    requires
        prefix_len < usize::MAX,
        randomness <= SCALE,
    ensures
        r == target_order_spec(prefix_len as nat, max_order as nat) || 2 <= r <= if target_order_spec(
            prefix_len as nat,
            max_order as nat,
        ) >= 2 {
            target_order_spec(prefix_len as nat, max_order as nat) as int
        } else {
            2
        },
        randomness == 0 ==> r == target_order_spec(prefix_len as nat, max_order as nat),
        prefix_len >= 1 ==> r >= 2,
{
    let n = target_order(prefix_len, max_order);
    compute_randomness(randomness, n, n)
}

/// The order to fall back to after order `n` found nothing: `n - 1`, or,
/// with `reduce` set, an order drawn by the randomness rule below `n`.
/// Below 2 nothing is left to try.
pub fn next_order(n: usize, randomness: u32, reduce: bool) -> (r: usize)
    requires
        n >= 2,
        randomness <= SCALE,
    ensures
        r < n,
        !reduce ==> r == n - 1,
        n == 2 ==> r == 1,
        n > 2 ==> r >= 2,
{
    if reduce && n > 2 {
        compute_randomness(randomness, n - 1, n - 1)
    } else {
        n - 1
    }
}

} // verus!
