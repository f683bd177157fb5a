//! String helpers shared by the parsers: character views, decimal digits,
//! zero padding and the two `String` operations vstd leaves unspecified.

use vstd::prelude::*;

verus! {

/// What `str::to_lowercase` makes of a string (full Unicode case mapping).
pub uninterp spec fn lowercase(s: Seq<char>) -> Seq<char>;

/// Every character is an ASCII lowercase letter.
pub open spec fn ascii_lower(s: Seq<char>) -> bool {
    forall|i: int| 0 <= i < s.len() ==> 97 <= (#[trigger] s[i] as u32) <= 122
}

/// Calls `str::to_lowercase`; the result is named `lowercase` of the
/// input. A string of ASCII lowercase letters is its own lowercase
/// equivalent, so it comes back unchanged.
#[verifier::external_body]
pub(crate) fn str_to_lowercase(s: &str) -> (r: String)
    ensures
        r@ == lowercase(s@),
        ascii_lower(s@) ==> r@ == s@,
{
    s.to_lowercase()
}

/// Calls `String::push`, which appends one character.
#[verifier::external_body]
pub(crate) fn push_char(s: &mut String, c: char)
    ensures
        final(s)@ == old(s)@.push(c),
{
    s.push(c)
}

/// The characters of a string, in order.
pub fn chars_of(s: &str) -> (r: Vec<char>)
    ensures
        r@ == s@,
{
    let n = s.unicode_len();
    let mut v: Vec<char> = Vec::new();
    let mut i: usize = 0;
    while i < n
        invariant
            n == s@.len(),
            i <= n,
            v@ == s@.subrange(0, i as int),
        decreases n - i,
    {
        let c = s.get_char(i);
        v.push(c);
        i = i + 1;
        proof {
            assert(v@ =~= s@.subrange(0, i as int));
        }
    }
    proof {
        assert(v@ =~= s@);
    }
    v
}

/// A string holding the characters `v[from..to]`.
pub fn string_from_chars(v: &[char], from: usize, to: usize) -> (r: String)
    requires
        from <= to <= v@.len(),
    ensures
        r@ == v@.subrange(from as int, to as int),
{
    let mut s = String::new();
    let mut i = from;
    while i < to
        invariant
            from <= i <= to,
            to <= v@.len(),
            s@ == v@.subrange(from as int, i as int),
        decreases to - i,
    {
        push_char(&mut s, v[i]);
        i = i + 1;
        proof {
            assert(s@ =~= v@.subrange(from as int, i as int));
        }
    }
    s
}

/// Appends the characters of `t` to `s`.
pub fn push_str(s: &mut String, t: &str)
    ensures
        final(s)@ == old(s)@ + t@,
{
    s.append(t);
}

/// Appends `v[from..to]` to `s`.
pub fn push_chars(s: &mut String, v: &[char], from: usize, to: usize)
    requires
        from <= to <= v@.len(),
    ensures
        final(s)@ == old(s)@ + v@.subrange(from as int, to as int),
{
    let ghost s0 = s@;
    let mut i = from;
    while i < to
        invariant
            from <= i <= to,
            to <= v@.len(),
            s@ == s0 + v@.subrange(from as int, i as int),
        decreases to - i,
    {
        push_char(s, v[i]);
        i = i + 1;
        proof {
            assert(s@ =~= s0 + v@.subrange(from as int, i as int));
        }
    }
}

/// Character-wise equality of two strings.
pub fn str_eq(a: &str, b: &str) -> (r: bool)
    ensures
        r == (a@ == b@),
{
    let n = a.unicode_len();
    if n != b.unicode_len() {
        return false;
    }
    let mut i: usize = 0;
    while i < n
        invariant
            n == a@.len(),
            n == b@.len(),
            i <= n,
            forall|j: int| 0 <= j < i ==> a@[j] == b@[j],
        decreases n - i,
    {
        if a.get_char(i) != b.get_char(i) {
            return false;
        }
        i = i + 1;
    }
    proof {
        assert(a@ =~= b@);
    }
    true
}

/// Equality of a character slice range with a string.
pub fn chars_eq_str(v: &[char], from: usize, to: usize, b: &str) -> (r: bool)
    requires
        from <= to <= v@.len(),
    ensures
        r == (v@.subrange(from as int, to as int) == b@),
{
    let n = b.unicode_len();
    if to - from != n {
        proof {
            assert(v@.subrange(from as int, to as int).len() != b@.len());
        }
        return false;
    }
    let mut i: usize = 0;
    while i < n
        invariant
            n == b@.len(),
            to - from == n,
            from <= to <= v@.len(),
            i <= n,
            forall|j: int| 0 <= j < i ==> v@[from + j] == b@[j],
        decreases n - i,
    {
        if v[from + i] != b.get_char(i) {
            return false;
        }
        i = i + 1;
    }
    proof {
        assert(v@.subrange(from as int, to as int) =~= b@);
    }
    true
}

/// An ASCII decimal digit.
pub open spec fn is_digit(c: char) -> bool {
    48 <= (c as u32) && (c as u32) <= 57
}

/// Every character is an ASCII decimal digit.
pub open spec fn all_digits(s: Seq<char>) -> bool {
    forall|i: int| 0 <= i < s.len() ==> is_digit(#[trigger] s[i])
}

/// The value of a digit character.
pub open spec fn digit_val(c: char) -> nat {
    ((c as u32) - 48) as nat
}

/// The value of a string of decimal digits (0 for the empty string).
pub open spec fn digits_value(s: Seq<char>) -> nat
    decreases s.len(),
{
    if s.len() == 0 {
        0
    } else {
        digits_value(s.drop_last()) * 10 + digit_val(s.last())
    }
}

/// The digit character for a value below ten.
pub open spec fn digit_char(d: nat) -> char {
    ((d + 48) as u32) as char
}

/// The decimal representation of a natural number, without leading zeros.
pub open spec fn dec(n: nat) -> Seq<char>
    decreases n,
{
    if n < 10 {
        seq![digit_char(n)]
    } else {
        dec(n / 10).push(digit_char(n % 10))
    }
}

/// `s` left-padded with zeros to at least `w` characters.
pub open spec fn pad_zeros(s: Seq<char>, w: nat) -> Seq<char> {
    if s.len() >= w {
        s
    } else {
        Seq::new((w - s.len()) as nat, |i: int| '0') + s
    }
}

/// `format!("{:0w$}", n)` for a signed integer: the sign counts toward the width.
pub open spec fn fmt_signed_padded(n: int, w: nat) -> Seq<char> {
    if n < 0 {
        seq!['-'] + pad_zeros(dec((-n) as nat), if w >= 1 { (w - 1) as nat } else { 0 })
    } else {
        pad_zeros(dec(n as nat), w)
    }
}

/// What `str::parse::<usize>` accepts: an optional `+`, then at least one
/// digit, with a value that fits; `None` otherwise.
pub open spec fn parse_unsigned(s: Seq<char>, max: nat) -> Option<nat> {
    let body = if s.len() > 0 && s[0] == '+' { s.drop_first() } else { s };
    if body.len() > 0 && all_digits(body) && digits_value(body) <= max {
        Some(digits_value(body))
    } else {
        None
    }
}

/// A prefix of a digit string never has a larger value than the whole.
pub proof fn lemma_digits_prefix_le(s: Seq<char>, k: int)
    requires
        0 <= k <= s.len(),
    ensures
        digits_value(s.subrange(0, k)) <= digits_value(s),
    decreases s.len(),
{
    if k < s.len() {
        lemma_digits_prefix_le(s.drop_last(), k);
        assert(s.drop_last().subrange(0, k) =~= s.subrange(0, k));
    } else {
        assert(s.subrange(0, k) =~= s);
    }
}

/// Value of the digits `v[from..to]`, or `None` when it exceeds `max`.
pub fn parse_digits(v: &[char], from: usize, to: usize, max: u64) -> (r: Option<u64>)
    requires
        from <= to <= v@.len(),
        all_digits(v@.subrange(from as int, to as int)),
    ensures
        match r {
            Some(n) => n == digits_value(v@.subrange(from as int, to as int)) && n <= max,
            None => digits_value(v@.subrange(from as int, to as int)) > max,
        },
{
    let ghost whole = v@.subrange(from as int, to as int);
    let mut acc: u64 = 0;
    let mut i = from;
    proof {
        assert(v@.subrange(from as int, from as int) =~= Seq::<char>::empty());
    }
    while i < to
        invariant
            from <= i <= to,
            to <= v@.len(),
            whole == v@.subrange(from as int, to as int),
            all_digits(whole),
            acc == digits_value(v@.subrange(from as int, i as int)),
            acc <= max,
        decreases to - i,
    {
        let c = v[i];
        proof {
            assert(whole[i - from] == c);
            assert(is_digit(c));
        }
        let d: u64 = (c as u32 - 48) as u64;
        let ghost pre = v@.subrange(from as int, i as int);
        let ghost next = v@.subrange(from as int, i + 1);
        proof {
            assert(next.drop_last() =~= pre);
            assert(next.last() == c);
            assert(digits_value(next) == digits_value(pre) * 10 + digit_val(c));
            assert(whole.subrange(0, i + 1 - from) =~= next);
            lemma_digits_prefix_le(whole, i + 1 - from);
        }
        if d > max || acc > (max - d) / 10 {
            proof {
                if d <= max {
                    assert(acc * 10 + d > max) by (nonlinear_arith)
                        requires acc > (max - d) / 10, d <= max;
                }
            }
            return None;
        }
        proof {
            assert(acc * 10 + d <= max) by (nonlinear_arith)
                requires acc <= (max - d) / 10, d <= max;
        }
        acc = acc * 10 + d;
        i = i + 1;
    }
    Some(acc)
}

} // verus!

verus! {

fn digit_char_exec(d: u64) -> (c: char)
    requires
        d < 10,
    ensures
        c == digit_char(d as nat),
{
    match d {
        0 => '0',
        1 => '1',
        2 => '2',
        3 => '3',
        4 => '4',
        5 => '5',
        6 => '6',
        7 => '7',
        8 => '8',
        _ => '9',
    }
}

/// Appends the decimal representation of `n`.
pub fn push_dec(s: &mut String, n: u64)
    ensures
        final(s)@ == old(s)@ + dec(n as nat),
    decreases n,
{
    let ghost s0 = s@;
    if n >= 10 {
        push_dec(s, n / 10);
    }
    push_char(s, digit_char_exec(n % 10));
    proof {
        if n >= 10 {
            assert(s@ =~= s0 + dec(n as nat));
        } else {
            assert(n % 10 == n);
            assert(s@ =~= s0 + dec(n as nat));
        }
    }
}

/// The number of decimal digits of `n`.
pub proof fn lemma_dec_len(n: nat)
    ensures
        dec(n).len() >= 1,
        n < 10 ==> dec(n).len() == 1,
    decreases n,
{
    if n >= 10 {
        lemma_dec_len(n / 10);
    }
}

/// The decimal representation of `n` is all digits, starts with one, and
/// reads back as `n`.
pub proof fn lemma_dec_digits(n: nat)
    ensures
        all_digits(dec(n)),
        digits_value(dec(n)) == n,
        dec(n).len() >= 1,
        is_digit(dec(n)[0]),
    decreases n,
{
    lemma_dec_len(n);
    if n < 10 {
        let c = digit_char(n);
        assert((c as u32) == n + 48);
        assert(dec(n) =~= seq![c]);
        assert(seq![c].drop_last() =~= Seq::<char>::empty());
        assert(digits_value(seq![c]) == digits_value(Seq::<char>::empty()) * 10 + digit_val(c));
    } else {
        lemma_dec_digits(n / 10);
        let d = dec(n / 10);
        let c = digit_char(n % 10);
        assert((c as u32) == n % 10 + 48);
        assert(dec(n) == d.push(c));
        assert(d.push(c).drop_last() =~= d);
        assert(d.push(c)[0] == d[0]);
        assert(digits_value(d.push(c)) == digits_value(d) * 10 + digit_val(c));
        vstd::arithmetic::div_mod::lemma_fundamental_div_mod(n as int, 10);
        assert forall|i: int| 0 <= i < d.push(c).len() implies is_digit(#[trigger] d.push(c)[i]) by {
            if i < d.len() {
                assert(d.push(c)[i] == d[i]);
            }
        }
    }
}

fn dec_len(n: u64) -> (r: u64)
    ensures
        r == dec(n as nat).len(),
        1 <= r <= 20,
    decreases n,
{
    proof {
        lemma_dec_len(n as nat);
    }
    if n < 10 {
        1
    } else {
        let k = dec_len(n / 10);
        proof {
            assert(n / 10 < 10 ==> k == 1);
            assert(k <= 19) by {
                lemma_dec_len_bound(n as nat);
            }
        }
        k + 1
    }
}

proof fn lemma_dec_len_bound(n: nat)
    requires
        n >= 10,
        n <= u64::MAX,
    ensures
        dec(n / 10).len() <= 19,
{
    reveal_with_fuel(pow10, 20);
    assert(u64::MAX / 10 < pow10(19));
    lemma_dec_len_lt_pow(n / 10, 19);
}

spec fn pow10(e: nat) -> nat
    decreases e,
{
    if e == 0 {
        1
    } else {
        10 * pow10((e - 1) as nat)
    }
}

proof fn lemma_dec_len_lt_pow(n: nat, e: nat)
    requires
        n < pow10(e),
        e >= 1,
    ensures
        dec(n).len() <= e,
    decreases e,
{
    if n >= 10 {
        assert(n / 10 < pow10((e - 1) as nat)) by (nonlinear_arith)
            requires n < pow10(e), e >= 1, pow10(e) == 10 * pow10((e - 1) as nat);
        if e == 1 {
            assert(pow10(1) == 10 * pow10(0));
            assert(false);
        }
        lemma_dec_len_lt_pow(n / 10, (e - 1) as nat);
    } else {
        lemma_dec_len(n);
    }
}

/// Appends `w - len` zeros (when positive).
fn push_zeros(s: &mut String, count: u64)
    ensures
        final(s)@ == old(s)@ + Seq::new(count as nat, |i: int| '0'),
{
    let ghost s0 = s@;
    let mut i: u64 = 0;
    while i < count
        invariant
            i <= count,
            s@ == s0 + Seq::new(i as nat, |j: int| '0'),
        decreases count - i,
    {
        push_char(s, '0');
        i = i + 1;
        proof {
            assert(s@ =~= s0 + Seq::new(i as nat, |j: int| '0'));
        }
    }
}

/// Appends `format!("{:0width$}", n)`.
pub fn push_signed_padded(s: &mut String, n: i64, width: u64)
    ensures
        final(s)@ == old(s)@ + fmt_signed_padded(n as int, width as nat),
{
    let ghost s0 = s@;
    if n < 0 {
        push_char(s, '-');
        let m: u64 = if n == i64::MIN { 9223372036854775808u64 } else { (-n) as u64 };
        let w = if width >= 1 { width - 1 } else { 0 };
        let l = dec_len(m);
        if l < w {
            push_zeros(s, w - l);
        }
        push_dec(s, m);
        proof {
            assert(s@ =~= s0 + fmt_signed_padded(n as int, width as nat));
        }
    } else {
        let m = n as u64;
        let l = dec_len(m);
        if l < width {
            push_zeros(s, width - l);
        }
        push_dec(s, m);
        proof {
            assert(s@ =~= s0 + fmt_signed_padded(n as int, width as nat));
        }
    }
}

} // verus!

verus! {

/// `parse_unsigned` of the characters `v[from..to]`, as an exec check.
pub fn parse_unsigned_in(v: &[char], from: usize, to: usize, max: u64) -> (r: Option<u64>)
    requires
        from <= to <= v@.len(),
    ensures
        match r {
            Some(n) => parse_unsigned(v@.subrange(from as int, to as int), max as nat) == Some(n as nat),
            None => parse_unsigned(v@.subrange(from as int, to as int), max as nat) is None,
        },
{
    let ghost s = v@.subrange(from as int, to as int);
    let start = if from < to && v[from] == '+' { from + 1 } else { from };
    proof {
        if from < to && v@[from as int] == '+' {
            assert(s[0] == '+');
            assert(s.drop_first() =~= v@.subrange(start as int, to as int));
        } else {
            assert(s =~= v@.subrange(start as int, to as int));
        }
    }
    if start == to {
        return None;
    }
    let ghost body = v@.subrange(start as int, to as int);
    let mut i = start;
    while i < to
        invariant
            start < to <= v@.len(),
            start <= i <= to,
            s == v@.subrange(from as int, to as int),
            body == v@.subrange(start as int, to as int),
            parse_unsigned(s, max as nat) == (if all_digits(body) && digits_value(body) <= max {
                Some(digits_value(body))
            } else {
                None
            }),
            all_digits(v@.subrange(start as int, i as int)),
        decreases to - i,
    {
        let cu = v[i] as u32;
        if !(cu >= 48 && cu <= 57) {
            proof {
                assert(body[i - start] == v@[i as int]);
                assert(v@[i as int] as u32 == cu);
                assert(!is_digit(body[i - start]));
                assert(!all_digits(body));
            }
            return None;
        }
        proof {
            assert forall|j: int| 0 <= j < i + 1 - start implies is_digit(
                #[trigger] v@.subrange(start as int, i + 1)[j],
            ) by {
                if j < i - start {
                    assert(v@.subrange(start as int, i + 1)[j] == v@.subrange(start as int, i as int)[j]);
                }
            }
        }
        i = i + 1;
    }
    parse_digits(v, start, to, max)
}

} // verus!
