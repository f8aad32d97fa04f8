//! Reading a start seed from its text form: `none`, `custom:<text>` or
//! `random:<order>` (case-insensitive).

use vstd::prelude::*;
use crate::error::ModelError;
use crate::prediction_input::StartSeed;
use crate::text::{chars_of, copy_range, lower_all, lower_seq, same_chars, string_of};

verus! {

/// `c` is an ASCII decimal digit.
pub open spec fn is_digit(c: char) -> bool {
    48 <= (c as u32) && (c as u32) <= 57
}

/// The value of the decimal digits `s`.
pub open spec fn digits_value(s: Seq<char>) -> nat
    decreases s.len(),
{
    if s.len() == 0 {
        0
    } else {
        digits_value(s.drop_last()) * 10 + ((s.last() as u32) - 48) as nat
    }
}

/// Every character of `d` is a decimal digit.
pub open spec fn all_digits(d: Seq<char>) -> bool {
    forall|i: int| 0 <= i < d.len() ==> is_digit(#[trigger] d[i])
}

/// `s` without a leading `+`.
pub open spec fn unsigned_part(s: Seq<char>) -> Seq<char> {
    if s.len() > 0 && s[0] == '+' {
        s.drop_first()
    } else {
        s
    }
}

/// The `usize` that `s` writes in decimal, with an optional leading `+`;
/// `None` when `s` is no such number or the number does not fit.
pub open spec fn usize_text(s: Seq<char>) -> Option<nat> {
    let d = unsigned_part(s);
    if d.len() > 0 && all_digits(d) && digits_value(d) <= usize::MAX {
        Some(digits_value(d))
    } else {
        None
    }
}

/// `s` begins with `p`.
pub open spec fn starts_with(s: Seq<char>, p: Seq<char>) -> bool {
    p.len() <= s.len() && s.subrange(0, p.len() as int) == p
}

proof fn lemma_digits_grow(s: Seq<char>, k: int)
    requires
        0 <= k <= s.len(),
        forall|i: int| 0 <= i < s.len() ==> is_digit(#[trigger] s[i]),
    ensures
        digits_value(s.subrange(0, k)) <= digits_value(s),
    decreases s.len() - k,
{
    if k < s.len() {
        lemma_digits_grow(s, k + 1);
        assert(s.subrange(0, k + 1).drop_last() =~= s.subrange(0, k));
    } else {
        assert(s.subrange(0, k) =~= s);
    }
}

/// Reads a decimal `usize` with an optional leading `+`.
pub fn parse_usize(s: &Vec<char>) -> (r: Option<usize>)
    ensures
        match usize_text(s@) {
            Some(v) => r == Some(v as usize),
            None => r is None,
        },
{
    let start: usize = if s.len() > 0 && s[0] == '+' {
        1
    } else {
        0
    };
    let d = copy_range(s, start, s.len());
    assert(d@ =~= unsigned_part(s@));
    if d.len() == 0 {
        return None;
    }
    let mut value: usize = 0;
    let mut i: usize = 0;
    while i < d.len()
        invariant
            i <= d.len(),
            d@ == unsigned_part(s@),
            value == digits_value(d@.subrange(0, i as int)),
            forall|j: int| 0 <= j < i ==> is_digit(#[trigger] d@[j]),
        decreases d.len() - i,
    {
        let code = d[i] as u32;
        if code < 48 || code > 57 {
            assert(!is_digit(d@[i as int]));
            return None;
        }
        let digit = (code - 48) as usize;
        assert(d@.subrange(0, i + 1).drop_last() =~= d@.subrange(0, i as int));
        assert(digits_value(d@.subrange(0, i + 1)) == value * 10 + digit);
        if value > (usize::MAX - digit) / 10 {
            proof {
                assert(value * 10 + digit > usize::MAX) by (nonlinear_arith)
                    requires value > (usize::MAX - digit) / 10, digit <= 9;
                if all_digits(d@) {
                    lemma_digits_grow(d@, i + 1);
                }
            }
            return None;
        }
        proof {
            assert(value * 10 + digit <= usize::MAX) by (nonlinear_arith)
                requires value <= (usize::MAX - digit) / 10, digit <= 9;
        }
        value = value * 10 + digit;
        i += 1;
    }
    assert(d@.subrange(0, d@.len() as int) =~= d@);
    Some(value)
}

/// Reads a start seed from text, case-insensitively: `none` for no seed,
/// `custom:<text>` for a custom seed (which must not be empty, and is kept
/// lowercased), `random:<order>` for a random seed of that order.
pub fn parse_seed(text: &str) -> (r: Result<StartSeed, ModelError>)
    ensures
        ({
            let low = lower_seq(text@);
            if low == "none"@ {
                r == Ok::<StartSeed, ModelError>(StartSeed::False)
            } else if starts_with(low, "custom:"@) {
                let rest = low.subrange("custom:"@.len() as int, low.len() as int);
                if rest.len() == 0 {
                    r == Err::<StartSeed, ModelError>(ModelError::InvalidSeed)
                } else {
                    r matches Ok(StartSeed::Custom(v)) && v@ == rest
                }
            } else if starts_with(low, "random:"@) {
                let rest = low.subrange("random:"@.len() as int, low.len() as int);
                match usize_text(rest) {
                    Some(n) => r == Ok::<StartSeed, ModelError>(StartSeed::Random(n as usize)),
                    None => r == Err::<StartSeed, ModelError>(ModelError::InvalidSeed),
                }
            } else {
                r == Err::<StartSeed, ModelError>(ModelError::InvalidSeed)
            }
        }),
{
    let low = lower_all(&chars_of(text));
    let none_word = chars_of("none");
    if same_chars(&low, &none_word) {
        return Ok(StartSeed::False);
    }
    let custom_word = chars_of("custom:");
    if custom_word.len() <= low.len() && same_chars(&copy_range(&low, 0, custom_word.len()), &custom_word) {
        let rest = copy_range(&low, custom_word.len(), low.len());
        if rest.len() == 0 {
            return Err(ModelError::InvalidSeed);
        }
        return Ok(StartSeed::Custom(string_of(&rest)));
    }
    let random_word = chars_of("random:");
    if random_word.len() <= low.len() && same_chars(&copy_range(&low, 0, random_word.len()), &random_word) {
        let rest = copy_range(&low, random_word.len(), low.len());
        return match parse_usize(&rest) {
            Some(n) => Ok(StartSeed::Random(n)),
            None => Err(ModelError::InvalidSeed),
        };
    }
    Err(ModelError::InvalidSeed)
}

} // verus!
