//! Decimal text of integers: writing and reading it.
use vstd::prelude::*;

verus! {

/// The character of a decimal digit `d` (`0 <= d < 10`).
pub open spec fn digit_char(d: int) -> char {
    (48 + d) as char
}

/// Whether `c` is one of the characters `0` to `9`.
pub open spec fn is_digit(c: char) -> bool {
    '0' <= c && c <= '9'
}

/// The decimal digits of `n`, most significant first, without leading zeros
/// (the digits of zero are `0`).
pub open spec fn nat_digits(n: nat) -> Seq<char>
    decreases n,
{
    if n < 10 {
        seq![digit_char(n as int)]
    } else {
        nat_digits(n / 10).push(digit_char((n % 10) as int))
    }
}

/// The decimal text of `v`: a `-` in front of the digits of its magnitude when
/// it is negative. This is what `to_string` gives for a primitive integer.
pub open spec fn int_text(v: int) -> Seq<char> {
    if v < 0 {
        seq!['-'] + nat_digits((-v) as nat)
    } else {
        nat_digits(v as nat)
    }
}

fn digit_to_char(d: u64) -> (c: char)
    requires
        d < 10,
    ensures
        c == digit_char(d as int),
{
    ((d as u8) + 48u8) as char
}

fn push_nat_digits(out: &mut Vec<char>, n: u64)
    ensures
        final(out)@ == old(out)@ + nat_digits(n as nat),
    decreases n,
{
    if n >= 10 {
        push_nat_digits(out, n / 10);
    }
    let c = digit_to_char(n % 10);
    out.push(c);
}

/// The decimal text of `value`, as `value.to_string()` writes it.
pub fn decimal_chars(value: i64) -> (text: Vec<char>)
    ensures
        text@ == int_text(value as int),
{
    let mut out: Vec<char> = Vec::new();
    if value < 0 {
        out.push('-');
        let magnitude: u64 = ((-(value + 1)) as u64) + 1;
        push_nat_digits(&mut out, magnitude);
    } else {
        push_nat_digits(&mut out, value as u64);
    }
    out
}


/// The value of a sequence of decimal digits, read most significant first.
pub open spec fn digits_value(s: Seq<char>) -> nat
    decreases s.len(),
{
    if s.len() == 0 {
        0
    } else {
        digits_value(s.drop_last()) * 10 + (s.last() as int - 48) as nat
    }
}

/// Whether every character of `s` is a decimal digit.
pub open spec fn all_digits(s: Seq<char>) -> bool {
    forall|i: int| 0 <= i < s.len() ==> is_digit(#[trigger] s[i])
}

/// Splits an optional leading sign off `s`: whether it was `-`, and the rest.
pub open spec fn split_sign(s: Seq<char>) -> (bool, Seq<char>) {
    if s.len() > 0 && s[0] == '-' {
        (true, s.drop_first())
    } else if s.len() > 0 && s[0] == '+' {
        (false, s.drop_first())
    } else {
        (false, s)
    }
}

/// What `str::parse::<i64>` accepts and gives: an optional `+` or `-`, then
/// one or more decimal digits whose value, with the sign, lies in the range
/// of `i64`. Anything else is refused.
pub open spec fn parse_i64_text(s: Seq<char>) -> Option<i64> {
    let (negative, body) = split_sign(s);
    if body.len() == 0 || !all_digits(body) {
        None
    } else if negative {
        if digits_value(body) <= 9223372036854775808 {
            Some((-(digits_value(body) as int)) as i64)
        } else {
            None
        }
    } else {
        if digits_value(body) <= 9223372036854775807 {
            Some(digits_value(body) as i64)
        } else {
            None
        }
    }
}

/// Reading a longer run of digits never gives a smaller value.
proof fn lemma_digits_value_prefix(s: Seq<char>, k: int)
    requires
        0 <= k <= s.len(),
        all_digits(s),
    ensures
        digits_value(s.take(k)) <= digits_value(s),
    decreases s.len(),
{
    if k < s.len() {
        let t = s.drop_last();
        assert(t.take(k) =~= s.take(k));
        assert forall|i: int| 0 <= i < t.len() implies is_digit(#[trigger] t[i]) by {
            assert(t[i] == s[i]);
        }
        lemma_digits_value_prefix(t, k);
    } else {
        assert(s.take(k) =~= s);
    }
}

proof fn lemma_parse_step(body: Seq<char>, k: int)
    requires
        0 <= k < body.len(),
        all_digits(body.take(k)),
        is_digit(body[k]),
    ensures
        all_digits(body.take(k + 1)),
        digits_value(body.take(k + 1)) == digits_value(body.take(k)) * 10 + (body[k] as int - 48),
{
    assert(body.take(k + 1).drop_last() =~= body.take(k));
    assert forall|j: int| 0 <= j < k + 1 implies is_digit(#[trigger] body.take(k + 1)[j]) by {
        if j < k {
            assert(body.take(k + 1)[j] == body.take(k)[j]);
        }
    }
}

/// Reads `s` as `str::parse::<i64>` does: `Some` with the value when `s` is
/// the decimal text of an `i64` (an optional sign, then digits), else `None`.
pub fn parse_i64(s: &str) -> (parsed: Option<i64>)
    ensures
        parsed == parse_i64_text(s@),
{
    let n = s.unicode_len();
    if n == 0 {
        return None;
    }
    let first = s.get_char(0);
    let negative = first == '-';
    let start: usize = if first == '-' || first == '+' { 1 } else { 0 };
    let ghost body = split_sign(s@).1;
    assert(body =~= s@.skip(start as int));
    if start == n {
        return None;
    }
    let mut acc: u64 = 0;
    let mut i: usize = start;
    while i < n
        invariant
            n == s@.len(),
            start <= i <= n,
            body == s@.skip(start as int),
            body == split_sign(s@).1,
            negative == split_sign(s@).0,
            all_digits(body.take(i - start)),
            acc == digits_value(body.take(i - start)),
            acc <= 9223372036854775808,
        decreases n - i,
    {
        let c = s.get_char(i);
        let ghost k = i - start;
        assert(body[k] == c);
        if !(c >= '0' && c <= '9') {
            assert(!all_digits(body));
            assert(parse_i64_text(s@).is_none());
            return None;
        }
        let d: u64 = (c as u32 - 48) as u64;
        proof {
            lemma_parse_step(body, k);
        }
        if acc > 922337203685477580 || (acc == 922337203685477580 && d > 8) {
            proof {
                if all_digits(body) {
                    lemma_digits_value_prefix(body, k + 1);
                }
            }
            return None;
        }
        acc = acc * 10 + d;
        i = i + 1;
    }
    assert(body.take(i - start) =~= body);
    if negative {
        if acc == 9223372036854775808 {
            Some(i64::MIN)
        } else {
            Some(-(acc as i64))
        }
    } else if acc <= 9223372036854775807 {
        Some(acc as i64)
    } else {
        None
    }
}

pub(crate) proof fn lemma_nat_digits_read_back(n: nat)
    ensures
        nat_digits(n).len() > 0,
        all_digits(nat_digits(n)),
        digits_value(nat_digits(n)) == n,
    decreases n,
{
    if n >= 10 {
        lemma_nat_digits_read_back(n / 10);
        let t = nat_digits(n / 10);
        let s = nat_digits(n);
        assert(s.drop_last() =~= t);
        let d = (n % 10) as int;
        assert(digit_char(d) as int == 48 + d);
        assert(s.last() == digit_char(d));
        assert(digits_value(s.drop_last()) == n / 10);
        assert(digits_value(s) == digits_value(s.drop_last()) * 10 + (s.last() as int - 48) as nat);
        assert(n == (n / 10) * 10 + d);
        assert forall|i: int| 0 <= i < s.len() implies is_digit(#[trigger] s[i]) by {
            if i < t.len() {
                assert(s[i] == t[i]);
            }
        }
    } else {
        let s = nat_digits(n);
        assert(s.drop_last() =~= Seq::<char>::empty());
        assert(digit_char(n as int) as int == 48 + n);
        assert(s.last() == digit_char(n as int));
        assert(digits_value(s.drop_last()) == 0);
    }
}

/// Law: reading back the decimal text of any `i64` gives the same value, so
/// a number shown by the explorer is found again when searched for.
pub proof fn lemma_parse_reads_back_text(v: i64)
    ensures
        parse_i64_text(int_text(v as int)) == Some(v),
{
    if v < 0 {
        let m = (-(v as int)) as nat;
        lemma_nat_digits_read_back(m);
        assert((seq!['-'] + nat_digits(m)).drop_first() =~= nat_digits(m));
    } else {
        lemma_nat_digits_read_back(v as nat);
    }
}

/// The decimal text of an integer holds no comma and no point, and is never
/// empty.
pub proof fn lemma_int_text_shape(v: int)
    ensures
        !int_text(v).contains(','),
        !int_text(v).contains('.'),
        int_text(v).len() > 0,
{
    let m: nat = if v < 0 { (-v) as nat } else { v as nat };
    lemma_nat_digits_read_back(m);
    let d = nat_digits(m);
    let t = int_text(v);
    assert forall|i: int| 0 <= i < t.len() implies t[i] != ',' && t[i] != '.' by {
        if v < 0 {
            assert(t == seq!['-'] + d);
            if i > 0 {
                assert(t[i] == d[i - 1]);
                assert(is_digit(d[i - 1]));
            }
        } else {
            assert(is_digit(d[i]));
        }
    }
}

/// Law: the text of a negative number is a `-` in front of the text of its
/// magnitude.
pub proof fn lemma_int_text_negative(v: int)
    requires
        v < 0,
    ensures
        int_text(v) == seq!['-'] + int_text(-v),
{
}

/// `k` zeros.
pub open spec fn zeros(k: nat) -> Seq<char> {
    Seq::new(k, |i: int| '0')
}

proof fn lemma_zeros_value(k: nat)
    ensures
        digits_value(zeros(k)) == 0,
        all_digits(zeros(k)),
    decreases k,
{
    if k > 0 {
        assert(zeros(k).drop_last() =~= zeros((k - 1) as nat));
        lemma_zeros_value((k - 1) as nat);
    }
}

pub(crate) proof fn lemma_leading_zeros_value(k: nat, d: Seq<char>)
    requires
        all_digits(d),
    ensures
        digits_value(zeros(k) + d) == digits_value(d),
        all_digits(zeros(k) + d),
    decreases d.len(),
{
    lemma_zeros_value(k);
    if d.len() == 0 {
        assert(zeros(k) + d =~= zeros(k));
    } else {
        let t = d.drop_last();
        assert forall|i: int| 0 <= i < t.len() implies is_digit(#[trigger] t[i]) by {
            assert(t[i] == d[i]);
        }
        lemma_leading_zeros_value(k, t);
        assert((zeros(k) + d).drop_last() =~= zeros(k) + t);
        assert((zeros(k) + d).last() == d.last());
    }
    assert forall|i: int| 0 <= i < (zeros(k) + d).len() implies is_digit(#[trigger] (zeros(k)
        + d)[i]) by {
        if i >= k {
            assert((zeros(k) + d)[i] == d[i - k]);
        }
    }
}

/// Law: what `parse_i64` reads is an optional `+` or `-` followed by
/// decimal digits only, at least one.
pub proof fn lemma_parse_accepts_only_digits(s: Seq<char>)
    requires
        parse_i64_text(s) is Some,
    ensures
        s.len() > 0,
        is_digit(s[0]) || ((s[0] == '+' || s[0] == '-') && s.len() > 1),
        forall|i: int| 0 < i < s.len() ==> is_digit(#[trigger] s[i]),
{
    let body = split_sign(s).1;
    if s[0] == '+' || s[0] == '-' {
        assert forall|i: int| 0 < i < s.len() implies is_digit(#[trigger] s[i]) by {
            assert(s[i] == body[i - 1]);
        }
    } else {
        assert(body[0] == s[0]);
    }
}

/// Law: `parse_i64` reads a number with leading zeros and an optional `+`
/// as its value, and a `-` in front as its negation, as long as the value
/// lies in the range of `i64`; outside that range it reads nothing.
pub proof fn lemma_parse_signs_and_zeros(m: nat, k: nat)
    ensures
        m <= i64::MAX ==> parse_i64_text(zeros(k) + nat_digits(m)) == Some(m as i64),
        m <= i64::MAX ==> parse_i64_text(seq!['+'] + (zeros(k) + nat_digits(m))) == Some(
            m as i64,
        ),
        m <= 9223372036854775808 ==> parse_i64_text(seq!['-'] + (zeros(k) + nat_digits(m)))
            == Some((-(m as int)) as i64),
        m > i64::MAX ==> parse_i64_text(zeros(k) + nat_digits(m)) is None,
        m > i64::MAX ==> parse_i64_text(seq!['+'] + (zeros(k) + nat_digits(m))) is None,
        m > 9223372036854775808 ==> parse_i64_text(seq!['-'] + (zeros(k) + nat_digits(m)))
            is None,
{
    lemma_nat_digits_read_back(m);
    let b = zeros(k) + nat_digits(m);
    lemma_leading_zeros_value(k, nat_digits(m));
    assert(b.len() > 0);
    assert(is_digit(b[0]));
    assert((seq!['+'] + b).drop_first() =~= b);
    assert((seq!['-'] + b).drop_first() =~= b);
}

} // verus!
