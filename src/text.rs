//! Character helpers shared by the models: case mapping and conversions
//! between strings and character vectors.

use vstd::prelude::*;

verus! {

broadcast use vstd::string::group_string_axioms;

/// The first character of the Unicode lowercase mapping of `c`.
pub uninterp spec fn lower_of(c: char) -> char;

/// `c` is an ASCII character but no capital letter: it has no lowercase
/// mapping of its own (or is already lowercase).
pub open spec fn ascii_fixed(c: char) -> bool {
    (c as u32) < 128 && !(65 <= (c as u32) && (c as u32) <= 90)
}

/// The lowercase form of `c`: itself for an ASCII character other than a
/// capital letter, otherwise the first character of its Unicode mapping.
pub open spec fn lower(c: char) -> char {
    if ascii_fixed(c) {
        c
    } else {
        lower_of(c)
    }
}

/// Relies on `char::to_lowercase`: its first character, which depends on
/// `c` alone (the mapping always yields at least one character). As std
/// documents, a character without a lowercase mapping maps to itself (so
/// does every ASCII character but `A`..=`Z`), and `A`..=`Z` map to
/// `a`..=`z`.
#[verifier::external_body]
pub(crate) fn lower_char(c: char) -> (r: char)
    ensures
        r == lower(c),
        !ascii_fixed(c) ==> r == lower_of(c),
        65 <= (c as u32) && (c as u32) <= 90 ==> (r as u32) == (c as u32) + 32,
{
    c.to_lowercase().next().unwrap_or(c)
}

/// The lowercase form of `c`.
pub fn lowercase(c: char) -> (r: char)
    ensures
        r == lower(c),
        65 <= (c as u32) && (c as u32) <= 90 ==> (r as u32) == (c as u32) + 32,
{
    lower_char(c)
}

/// Each character of `s` replaced by its lowercase form.
pub open spec fn lower_seq(s: Seq<char>) -> Seq<char> {
    Seq::new(s.len(), |i: int| lower(s[i]))
}

/// The characters of `s`, in order.
pub fn chars_of(s: &str) -> (r: Vec<char>)
    ensures
        r@ == s@,
{
    let n = s.unicode_len();
    let mut out: Vec<char> = Vec::new();
    let mut i: usize = 0;
    while i < n
        invariant
            n == s@.len(),
            i <= n,
            out@ == s@.subrange(0, i as int),
        decreases n - i,
    {
        out.push(s.get_char(i));
        i += 1;
    }
    out
}

/// Relies on `String::push`: appends `c` at the end.
#[verifier::external_body]
fn push_char(s: &mut String, c: char)
    ensures
        final(s)@ == old(s)@.push(c),
{
    s.push(c)
}

/// A string holding the characters of `v`.
pub fn string_of(v: &Vec<char>) -> (r: String)
    ensures
        r@ == v@,
{
    let mut out = String::new();
    let mut i: usize = 0;
    while i < v.len()
        invariant
            i <= v.len(),
            out@ == v@.subrange(0, i as int),
        decreases v.len() - i,
    {
        push_char(&mut out, v[i]);
        assert(v@.subrange(0, i + 1) =~= v@.subrange(0, i as int).push(v@[i as int]));
        i += 1;
    }
    assert(v@.subrange(0, v.len() as int) =~= v@);
    out
}

/// Whether `a` and `b` hold the same characters.
pub fn same_chars(a: &Vec<char>, b: &Vec<char>) -> (r: bool)
    ensures
        r == (a@ == b@),
{
    if a.len() != b.len() {
        return false;
    }
    let mut i: usize = 0;
    while i < a.len()
        invariant
            a.len() == b.len(),
            i <= a.len(),
            forall|j: int| 0 <= j < i ==> a@[j] == b@[j],
        decreases a.len() - i,
    {
        if a[i] != b[i] {
            return false;
        }
        i += 1;
    }
    assert(a@ =~= b@);
    true
}

/// The characters `v[start..end]`.
pub fn copy_range(v: &Vec<char>, start: usize, end: usize) -> (r: Vec<char>)
    requires
        start <= end <= v.len(),
    ensures
        r@ == v@.subrange(start as int, end as int),
{
    let mut out: Vec<char> = Vec::new();
    let mut i: usize = start;
    while i < end
        invariant
            start <= i <= end <= v.len(),
            out@ == v@.subrange(start as int, i as int),
        decreases end - i,
    {
        out.push(v[i]);
        assert(v@.subrange(start as int, i + 1) =~= v@.subrange(start as int, i as int).push(
            v@[i as int],
        ));
        i += 1;
    }
    out
}

/// Each character of `v` in lowercase.
pub fn lower_all(v: &Vec<char>) -> (r: Vec<char>)
    ensures
        r@ == lower_seq(v@),
{
    let mut out: Vec<char> = Vec::new();
    let mut i: usize = 0;
    while i < v.len()
        invariant
            i <= v.len(),
            out@ == lower_seq(v@.subrange(0, i as int)),
        decreases v.len() - i,
    {
        out.push(lower_char(v[i]));
        assert(lower_seq(v@.subrange(0, i + 1)) =~= lower_seq(v@.subrange(0, i as int)).push(
            lower(v@[i as int]),
        ));
        i += 1;
    }
    assert(v@.subrange(0, v.len() as int) =~= v@);
    out
}

/// The code of `c` with ASCII capitals folded to small letters.
pub open spec fn fold_code(c: char) -> u32 {
    let v = c as u32;
    if 65 <= v && v <= 90 {
        (v + 32) as u32
    } else {
        v
    }
}

/// The code of `c` with ASCII capitals folded to small letters.
fn fold(c: char) -> (r: u32)
    ensures
        r == fold_code(c),
{
    let v = c as u32;
    if 65 <= v && v <= 90 {
        v + 32
    } else {
        v
    }
}

/// `a` and `b` are equal up to ASCII case.
pub open spec fn same_ignoring_case(a: Seq<char>, b: Seq<char>) -> bool {
    &&& a.len() == b.len()
    &&& forall|i: int| 0 <= i < a.len() ==> #[trigger] fold_code(a[i]) == fold_code(b[i])
}

/// Whether `a` and `b` are equal up to ASCII case.
pub fn eq_ignore_case(a: &Vec<char>, b: &Vec<char>) -> (r: bool)
    ensures
        r == same_ignoring_case(a@, b@),
{
    if a.len() != b.len() {
        return false;
    }
    let mut i: usize = 0;
    while i < a.len()
        invariant
            a.len() == b.len(),
            i <= a.len(),
            forall|j: int| 0 <= j < i ==> #[trigger] fold_code(a@[j]) == fold_code(b@[j]),
        decreases a.len() - i,
    {
        if fold(a[i]) != fold(b[i]) {
            return false;
        }
        i += 1;
    }
    true
}

} // verus!
