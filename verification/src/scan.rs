//! Character classification and maximal-munch scanning over source text:
//! digit runs, alphanumeric runs, and the numeric value of a digit run.
//! Shared by the lexer, by string validation and by interpolation.

use vstd::prelude::*;

verus! {

/// Whether `c` is an ASCII decimal digit.
pub open spec fn is_digit(c: char) -> bool {
    48 <= c as u32 <= 57
}

/// Whether `c` is an ASCII letter or digit.
pub open spec fn is_alnum(c: char) -> bool {
    ||| is_digit(c)
    ||| 65 <= c as u32 <= 90
    ||| 97 <= c as u32 <= 122
}

/// The numeric value of a digit character.
pub open spec fn digit_val(c: char) -> int
    recommends
        is_digit(c),
{
    (c as u32) as int - 48
}

/// The end of the maximal digit run starting at `i`: the first position at
/// or after `i` that is past the end or holds a non-digit.
pub open spec fn digit_run_end(s: Seq<char>, i: int) -> int
    recommends
        0 <= i <= s.len(),
    decreases s.len() - i,
{
    if i >= s.len() || !is_digit(s[i]) {
        i
    } else {
        digit_run_end(s, i + 1)
    }
}

/// The end of the maximal alphanumeric run starting at `i`.
pub open spec fn alnum_run_end(s: Seq<char>, i: int) -> int
    recommends
        0 <= i <= s.len(),
    decreases s.len() - i,
{
    if i >= s.len() || !is_alnum(s[i]) {
        i
    } else {
        alnum_run_end(s, i + 1)
    }
}

/// The value of the digit run `s[a..b]`, read as a decimal number.
pub open spec fn run_value(s: Seq<char>, a: int, b: int) -> int
    recommends
        0 <= a <= b <= s.len(),
    decreases b - a,
{
    if b <= a {
        0
    } else {
        run_value(s, a, b - 1) * 10 + digit_val(s[b - 1])
    }
}

/// Bounds and contents of a maximal digit run.
pub proof fn lemma_digit_run_end(s: Seq<char>, i: int)
    requires
        0 <= i <= s.len(),
    ensures
        i <= digit_run_end(s, i) <= s.len(),
        forall|k: int| i <= k < digit_run_end(s, i) ==> is_digit(#[trigger] s[k]),
        digit_run_end(s, i) < s.len() ==> !is_digit(s[digit_run_end(s, i)]),
    decreases s.len() - i,
{
    if i < s.len() && is_digit(s[i]) {
        lemma_digit_run_end(s, i + 1);
    }
}

/// Bounds and contents of a maximal alphanumeric run.
pub proof fn lemma_alnum_run_end(s: Seq<char>, i: int)
    requires
        0 <= i <= s.len(),
    ensures
        i <= alnum_run_end(s, i) <= s.len(),
        forall|k: int| i <= k < alnum_run_end(s, i) ==> is_alnum(#[trigger] s[k]),
        alnum_run_end(s, i) < s.len() ==> !is_alnum(s[alnum_run_end(s, i)]),
    decreases s.len() - i,
{
    if i < s.len() && is_alnum(s[i]) {
        lemma_alnum_run_end(s, i + 1);
    }
}

/// A digit run's value is non-negative and grows (weakly) with its length.
pub proof fn lemma_run_value_monotone(s: Seq<char>, a: int, j: int, k: int)
    requires
        0 <= a <= j <= k <= s.len(),
        forall|m: int| a <= m < k ==> is_digit(#[trigger] s[m]),
    ensures
        0 <= run_value(s, a, j) <= run_value(s, a, k),
    decreases k - a,
{
    if j == k {
        if k > a {
            lemma_run_value_monotone(s, a, j - 1, k - 1);
        }
    } else {
        lemma_run_value_monotone(s, a, j, k - 1);
    }
}

/// Relies on `String::push`: appends exactly the one character.
#[verifier::external_body]
pub(crate) fn push_char(s: &mut String, c: char)
    ensures
        final(s)@ == old(s)@.push(c),
{
    s.push(c);
}

/// The character at position `i` of `s`.
pub(crate) fn char_at(s: &String, i: usize) -> (c: char)
    requires
        i < s@.len(),
    ensures
        c == s@[i as int],
{
    s.as_str().get_char(i)
}

/// The character count of `s`.
pub(crate) fn char_len(s: &String) -> (l: usize)
    ensures
        l == s@.len(),
{
    s.as_str().unicode_len()
}

/// Whether `c` is an ASCII decimal digit.
pub(crate) fn is_digit_char(c: char) -> (b: bool)
    ensures
        b == is_digit(c),
{
    let u = c as u32;
    48 <= u && u <= 57
}

/// Whether `c` is an ASCII letter or digit.
pub(crate) fn is_alnum_char(c: char) -> (b: bool)
    ensures
        b == is_alnum(c),
{
    let u = c as u32;
    (48 <= u && u <= 57) || (65 <= u && u <= 90) || (97 <= u && u <= 122)
}

/// The end of the maximal digit run of `s` starting at `i`.
pub(crate) fn digit_run_end_exec(s: &String, i: usize) -> (j: usize)
    requires
        i <= s@.len(),
    ensures
        j == digit_run_end(s@, i as int),
{
    let len = char_len(s);
    let mut j: usize = i;
    while j < len && is_digit_char(char_at(s, j))
        invariant
            i <= j <= len,
            len == s@.len(),
            digit_run_end(s@, i as int) == digit_run_end(s@, j as int),
        decreases len - j,
    {
        j = j + 1;
    }
    j
}

/// The end of the maximal alphanumeric run of `s` starting at `i`.
pub(crate) fn alnum_run_end_exec(s: &String, i: usize) -> (j: usize)
    requires
        i <= s@.len(),
    ensures
        j == alnum_run_end(s@, i as int),
{
    let len = char_len(s);
    let mut j: usize = i;
    while j < len && is_alnum_char(char_at(s, j))
        invariant
            i <= j <= len,
            len == s@.len(),
            alnum_run_end(s@, i as int) == alnum_run_end(s@, j as int),
        decreases len - j,
    {
        j = j + 1;
    }
    j
}

/// The value of the digit run `s[a..b]`, or `None` where it exceeds
/// `usize::MAX` (the machine limit on slot ids).
pub(crate) fn run_value_exec(s: &String, a: usize, b: usize) -> (r: Option<usize>)
    requires
        a <= b <= s@.len(),
        forall|m: int| a <= m < b ==> is_digit(#[trigger] s@[m]),
    ensures
        match r {
            Some(v) => run_value(s@, a as int, b as int) == v as int,
            None => run_value(s@, a as int, b as int) > usize::MAX as int,
        },
{
    let mut v: usize = 0;
    let mut j: usize = a;
    while j < b
        invariant
            a <= j <= b <= s@.len(),
            forall|m: int| a <= m < b ==> is_digit(#[trigger] s@[m]),
            v as int == run_value(s@, a as int, j as int),
        decreases b - j,
    {
        let c = char_at(s, j);
        let d = (c as u32 - 48) as usize;
        assert(0 <= d <= 9);
        if v > (usize::MAX - d) / 10 {
            proof {
                assert(v * 10 + d > usize::MAX) by (nonlinear_arith)
                    requires
                        v > (usize::MAX - d) / 10,
                        d <= 9,
                ;
                assert(run_value(s@, a as int, (j + 1) as int) == v * 10 + d);
                lemma_run_value_monotone(s@, a as int, (j + 1) as int, b as int);
            }
            return None;
        }
        proof {
            assert(v * 10 + d <= usize::MAX) by (nonlinear_arith)
                requires
                    v <= (usize::MAX - d) / 10,
                    d <= 9,
            ;
        }
        v = v * 10 + d;
        j = j + 1;
    }
    Some(v)
}

} // verus!
