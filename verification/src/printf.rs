//! printf-style frame patterns such as `frame.%04d.exr`: the zero-padded
//! frame field `%0<digits>d` gives the padding, and replacing every such
//! field by `*` gives the glob that finds the frames.

use vstd::prelude::*;
use crate::seqpath::opt_view;
use crate::strs::{all_digits, chars_of, digits_value, is_digit, parse_digits};

verus! {

/// Every character is ASCII.
pub open spec fn ascii_only(s: Seq<char>) -> bool {
    forall|i: int| 0 <= i < s.len() ==> (#[trigger] s[i] as u32) < 128
}

/// Length of the run of ASCII digits that starts at `i`.
pub open spec fn digit_run(s: Seq<char>, i: int) -> nat
    decreases s.len() - i,
{
    if 0 <= i < s.len() && is_digit(s[i]) {
        1 + digit_run(s, i + 1)
    } else {
        0
    }
}

/// A frame field `%0<digits>d` starts at `p`.
pub open spec fn printf_at(s: Seq<char>, p: int) -> bool {
    let run = digit_run(s, p + 2);
    &&& 0 <= p
    &&& p + 1 < s.len()
    &&& s[p] == '%'
    &&& s[p + 1] == '0'
    &&& run >= 1
    &&& p + 2 + run < s.len()
    &&& s[p + 2 + run] == 'd'
}

/// Start of the first frame field at or after `from`, or -1.
pub open spec fn first_printf(s: Seq<char>, from: int) -> int
    decreases s.len() - from,
{
    if from < 0 || from >= s.len() {
        -1
    } else if printf_at(s, from) {
        from
    } else {
        first_printf(s, from + 1)
    }
}

/// The digits of the first frame field of an ASCII pattern, if it has one.
pub open spec fn spec_printf_padding(s: Seq<char>) -> Option<Seq<char>> {
    let p = first_printf(s, 0);
    if p < 0 {
        None
    } else {
        Some(s.subrange(p + 2, p + 2 + digit_run(s, p + 2)))
    }
}

/// From position `i` on, an ASCII pattern with each frame field replaced
/// by `*`, scanning left to right.
pub open spec fn glob_from(s: Seq<char>, i: int) -> Seq<char>
    decreases s.len() - i,
{
    if i < 0 || i >= s.len() {
        Seq::empty()
    } else if printf_at(s, i) {
        seq!['*'] + glob_from(s, i + 3 + digit_run(s, i + 2))
    } else {
        seq![s[i]] + glob_from(s, i + 1)
    }
}

/// An ASCII pattern with each frame field replaced by `*`.
pub open spec fn spec_printf_to_glob(s: Seq<char>) -> Seq<char> {
    glob_from(s, 0)
}

/// What the regex `%0(\d+)d` captures in its first match on a pattern.
pub uninterp spec fn regex_printf_padding(p: Seq<char>) -> Option<Seq<char>>;

/// A pattern after the regex `%0(\d+)d` replaced every match by `*`.
pub uninterp spec fn regex_printf_glob(p: Seq<char>) -> Seq<char>;

/// Runs the regex `%0(\d+)d` (`Regex::captures`) and returns the digits its
/// first match captured; the result is named `regex_printf_padding`. On an
/// ASCII pattern it is the first `%0<digits>d` field's digits. `\d` also
/// matches non-ASCII decimal digits, which is left unstated.
#[verifier::external_body]
fn printf_padding(pattern: &str) -> (r: Option<String>)
    ensures
        opt_view(r) == regex_printf_padding(pattern@),
        ascii_only(pattern@) ==> opt_view(r) == spec_printf_padding(pattern@),
{
    let re = regex::Regex::new(r"%0(\d+)d").unwrap();
    re.captures(pattern).and_then(|c| c.get(1)).map(|m| m.as_str().to_string())
}

/// Runs the regex `%0(\d+)d` (`Regex::replace_all` with `*`); the result is
/// named `regex_printf_glob`. On an ASCII pattern every `%0<digits>d` field,
/// left to right, becomes `*`. `\d` also matches non-ASCII decimal digits,
/// which is left unstated.
#[verifier::external_body]
fn printf_to_glob(pattern: &str) -> (r: String)
    ensures
        r@ == regex_printf_glob(pattern@),
        ascii_only(pattern@) ==> r@ == spec_printf_to_glob(pattern@),
{
    let re = regex::Regex::new(r"%0(\d+)d").unwrap();
    re.replace_all(pattern, "*").into_owned()
}

/// The padding a frame field's digits give: their value when they are
/// ASCII digits whose value fits in `usize`; 4 otherwise, and without a
/// field.
pub open spec fn printf_pad_value(d: Option<Seq<char>>) -> nat {
    match d {
        Some(x) => if x.len() > 0 && all_digits(x) && digits_value(x) <= usize::MAX {
            digits_value(x)
        } else {
            4
        },
        None => 4,
    }
}

/// The padding the captured digits give (see `printf_pad_value`).
pub fn padding_from_digits(d: Option<&str>) -> (r: usize)
    ensures
        r == printf_pad_value(match d {
            Some(x) => Some(x@),
            None => None,
        }),
{
    let s = match d {
        Some(x) => x,
        None => return 4,
    };
    let v = chars_of(s);
    if v.len() == 0 {
        return 4;
    }
    let mut i: usize = 0;
    while i < v.len()
        invariant
            i <= v@.len(),
            v@ == s@,
            d == Some(s),
            forall|q: int| 0 <= q < i ==> is_digit(#[trigger] v@[q]),
        decreases v@.len() - i,
    {
        let c = v[i] as u32;
        if !(c >= 48 && c <= 57) {
            proof {
                assert(!is_digit(v@[i as int]));
                assert(!all_digits(s@));
            }
            return 4;
        }
        i = i + 1;
    }
    proof {
        assert(v@.subrange(0, v@.len() as int) =~= v@);
    }
    match parse_digits(v.as_slice(), 0, v.len(), usize::MAX as u64) {
        Some(n) => n as usize,
        None => 4,
    }
}

/// Padding and glob of a printf-style frame pattern: the first
/// `%0<digits>d` field's digits give the padding (4 when there is none or
/// its number is not a `usize`), and every such field becomes `*`.
pub fn printf_pattern(pattern: &str) -> (r: (usize, String))
    ensures
        r.0 == printf_pad_value(regex_printf_padding(pattern@)),
        r.1@ == regex_printf_glob(pattern@),
        ascii_only(pattern@) ==> r.0 == printf_pad_value(spec_printf_padding(pattern@)) && r.1@
            == spec_printf_to_glob(pattern@),
{
    let digits = printf_padding(pattern);
    let padding = match &digits {
        Some(d) => padding_from_digits(Some(d.as_str())),
        None => padding_from_digits(None),
    };
    (padding, printf_to_glob(pattern))
}

} // verus!
