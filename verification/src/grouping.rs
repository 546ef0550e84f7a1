//! Thousands separators for the `format_number` template filter.
use vstd::prelude::*;
use crate::decimal::{all_digits, decimal_chars, int_text, parse_i64, parse_i64_text};
use crate::text::{push_char, push_chars};

verus! {

/// `s` with a `,` in front of every block of three characters counted from
/// the right, except in front of the first character. Every character counts,
/// the sign of a negative number too.
pub open spec fn group_thousands(s: Seq<char>) -> Seq<char>
    decreases s.len(),
{
    if s.len() <= 3 {
        s
    } else {
        group_thousands(s.take(s.len() - 3)) + seq![','] + s.skip(s.len() - 3)
    }
}

/// Appends `group_thousands(text[..end])` to `out`.
fn push_grouped(out: &mut String, text: &Vec<char>, end: usize)
    requires
        end <= text.len(),
    ensures
        final(out)@ == old(out)@ + group_thousands(text@.take(end as int)),
    decreases end,
{
    let ghost prefix = text@.take(end as int);
    if end > 3 {
        push_grouped(out, text, end - 3);
        push_char(out, ',');
        push_chars(out, text, end - 3, end);
        assert(prefix.take(prefix.len() - 3) =~= text@.take(end - 3));
        assert(prefix.skip(prefix.len() - 3) =~= text@.subrange(end - 3, end as int));
    } else {
        push_chars(out, text, 0, end);
        assert(prefix =~= text@.subrange(0, end as int));
    }
}

/// The decimal text of `value` with a `,` between groups of three characters,
/// counted from the right: `1234567` gives `1,234,567`. The minus sign of a
/// negative value is counted as a character, so `-123456` gives `-,123,456`.
pub fn format_int(value: i64) -> (formatted: String)
    ensures
        formatted@ == group_thousands(int_text(value as int)),
        drop_commas(formatted@) == int_text(value as int),
        formatted@.len() > 0 && formatted@[0] != ',',
        commas_before_triples(formatted@),
        no_long_groups(formatted@),
{
    proof {
        lemma_format_int_layout(value);
    }
    let text = decimal_chars(value);
    let mut out = String::new();
    push_grouped(&mut out, &text, text.len());
    assert(text@.take(text.len() as int) =~= text@);
    out
}

/// `s` with every `,` taken out.
pub open spec fn drop_commas(s: Seq<char>) -> Seq<char>
    decreases s.len(),
{
    if s.len() == 0 {
        s
    } else if s.last() == ',' {
        drop_commas(s.drop_last())
    } else {
        drop_commas(s.drop_last()).push(s.last())
    }
}

proof fn lemma_drop_commas_append(a: Seq<char>, b: Seq<char>)
    ensures
        drop_commas(a + b) == drop_commas(a) + drop_commas(b),
    decreases b.len(),
{
    if b.len() == 0 {
        assert(a + b =~= a);
        assert(drop_commas(a) + drop_commas(b) =~= drop_commas(a));
    } else {
        assert((a + b).drop_last() =~= a + b.drop_last());
        lemma_drop_commas_append(a, b.drop_last());
        if b.last() != ',' {
            assert(drop_commas(a) + drop_commas(b.drop_last()).push(b.last()) =~= (drop_commas(a)
                + drop_commas(b.drop_last())).push(b.last()));
        }
    }
}

/// Law: taking the separators out of a grouped text gives the text back, for
/// any text without commas of its own.
pub proof fn lemma_group_thousands_drop_commas(s: Seq<char>)
    requires
        !s.contains(','),
    ensures
        drop_commas(group_thousands(s)) == s,
        s.len() > 0 ==> group_thousands(s).len() == s.len() + (s.len() - 1) / 3,
    decreases s.len(),
{
    if s.len() <= 3 {
        lemma_no_commas_kept(s);
    } else {
        let head = s.take(s.len() - 3);
        let tail = s.skip(s.len() - 3);
        assert(!head.contains(',')) by {
            if head.contains(',') {
                let i = choose|i: int| 0 <= i < head.len() && head[i] == ',';
                assert(s[i] == ',');
            }
        }
        assert(!tail.contains(',')) by {
            if tail.contains(',') {
                let i = choose|i: int| 0 <= i < tail.len() && tail[i] == ',';
                assert(s[s.len() - 3 + i] == ',');
            }
        }
        lemma_group_thousands_drop_commas(head);
        lemma_no_commas_kept(tail);
        let g = group_thousands(head);
        lemma_drop_commas_append(g + seq![','], tail);
        lemma_drop_commas_append(g, seq![',']);
        assert(drop_commas(seq![',']) =~= Seq::<char>::empty()) by {
            assert(seq![','].drop_last() =~= Seq::<char>::empty());
            assert(seq![','].last() == ',');
            assert(drop_commas(Seq::<char>::empty()) =~= Seq::<char>::empty());
        }
        assert(head + tail =~= s);
    }
}

proof fn lemma_no_commas_kept(s: Seq<char>)
    requires
        !s.contains(','),
    ensures
        drop_commas(s) == s,
    decreases s.len(),
{
    if s.len() > 0 {
        let t = s.drop_last();
        assert(!t.contains(',')) by {
            if t.contains(',') {
                let i = choose|i: int| 0 <= i < t.len() && t[i] == ',';
                assert(s[i] == ',');
            }
        }
        lemma_no_commas_kept(t);
        assert(s.last() == s[s.len() - 1]);
        assert(t.push(s.last()) =~= s);
    }
}

/// Law: the grouped decimal text of a number, with the commas taken out, is
/// its plain decimal text.
pub proof fn lemma_format_int_digits(value: i64)
    ensures
        drop_commas(group_thousands(int_text(value as int))) == int_text(value as int),
{
    crate::decimal::lemma_int_text_shape(value as int);
    lemma_group_thousands_drop_commas(int_text(value as int));
}

/// The characters of `s` before its first `.`; all of `s` when it has none.
pub open spec fn before_dot(s: Seq<char>) -> Seq<char>
    decreases s.len(),
{
    if s.len() == 0 || s[0] == '.' {
        Seq::empty()
    } else {
        seq![s[0]] + before_dot(s.drop_first())
    }
}

/// The characters of `s` after its first `.`.
pub open spec fn after_dot(s: Seq<char>) -> Seq<char> {
    s.skip(before_dot(s).len() + 1int)
}

proof fn lemma_before_dot_at(s: Seq<char>, k: int)
    requires
        0 <= k <= s.len(),
        forall|j: int| 0 <= j < k ==> s[j] != '.',
        k == s.len() || s[k] == '.',
    ensures
        before_dot(s) == s.take(k),
    decreases s.len(),
{
    if k > 0 {
        let t = s.drop_first();
        assert forall|j: int| 0 <= j < k - 1 implies t[j] != '.' by {
            assert(t[j] == s[j + 1]);
        }
        lemma_before_dot_at(t, k - 1);
        assert(seq![s[0]] + t.take(k - 1) =~= s.take(k));
    } else {
        assert(s.take(0) =~= Seq::<char>::empty());
    }
}

/// The index of the first `c` in `text` at or after `from`, or the length
/// of `text` when there is none.
fn find_char(text: &str, from: usize, c: char) -> (found: usize)
    requires
        from <= text@.len(),
    ensures
        from <= found <= text@.len(),
        forall|j: int| from <= j < found ==> text@[j] != c,
        found == text@.len() || text@[found as int] == c,
{
    let n = text.unicode_len();
    let mut i = from;
    while i < n && text.get_char(i) != c
        invariant
            n == text@.len(),
            from <= i <= n,
            forall|j: int| from <= j < i ==> text@[j] != c,
        decreases n - i,
    {
        i = i + 1;
    }
    i
}

/// The number `text` holds, with thousands separators: `text` is a fixed-point
/// decimal such as `1234.50`, as `format!` writes a float with a number of
/// decimal places. The part before the first `.` is read as an `i64` and
/// written with `format_int`; the part after it, up to a second `.` if there
/// were one, is kept as it stands. The sign of a part before the point that
/// reads as zero is lost: `-0.50` gives `0.50`.
pub fn group_fixed_point(text: &str) -> (formatted: String)
    requires
        text@.contains('.'),
        parse_i64_text(before_dot(text@)) is Some,
    ensures
        formatted@ == group_thousands(int_text(parse_i64_text(before_dot(text@))->0 as int))
            + seq!['.'] + before_dot(after_dot(text@)),
{
    let n = text.unicode_len();
    let point = find_char(text, 0, '.');
    proof {
        lemma_before_dot_at(text@, point as int);
        if point == n {
            let i = choose|i: int| 0 <= i < text@.len() && text@[i] == '.';
            assert(text@[i] != '.');
        }
    }
    let whole = text.substring_char(0, point);
    assert(whole@ =~= before_dot(text@));
    let value = parse_i64(whole).unwrap();
    let mut out = format_int(value);
    push_char(&mut out, '.');
    let ghost rest = after_dot(text@);
    let end = find_char(text, point + 1, '.');
    proof {
        assert(rest =~= text@.skip(point + 1));
        lemma_before_dot_at(rest, end - point - 1);
        assert(rest.take(end - point - 1) =~= text@.subrange(point + 1, end as int));
    }
    let fraction = text.substring_char(point + 1, end);
    let mut i: usize = 0;
    let m = fraction.unicode_len();
    let ghost start = out@;
    while i < m
        invariant
            m == fraction@.len(),
            i <= m,
            out@ == start + fraction@.take(i as int),
        decreases m - i,
    {
        push_char(&mut out, fraction.get_char(i));
        i = i + 1;
        assert(fraction@.take(i as int) =~= fraction@.take(i - 1).push(fraction@[i - 1]));
    }
    assert(fraction@.take(m as int) =~= fraction@);
    out
}

proof fn lemma_group_thousands_sign(d: Seq<char>)
    requires
        d.len() % 3 != 0,
    ensures
        group_thousands(seq!['-'] + d) == seq!['-'] + group_thousands(d),
    decreases d.len(),
{
    let s = seq!['-'] + d;
    if d.len() > 3 {
        let head = d.take(d.len() - 3);
        lemma_group_thousands_sign(head);
        assert(s.take(s.len() - 3) =~= seq!['-'] + head);
        assert(s.skip(s.len() - 3) =~= d.skip(d.len() - 3));
        assert(seq!['-'] + group_thousands(head) + seq![','] + d.skip(d.len() - 3) =~= seq!['-']
            + (group_thousands(head) + seq![','] + d.skip(d.len() - 3)));
    }
}

/// Law: when the digits of a negative number do not fill whole groups of
/// three, its grouped text is a `-` in front of the grouped text of its
/// magnitude: `-1234` gives `-1,234`. (When they do, the sign forms a group of
/// its own: `-123` gives `-,123`.)
pub proof fn lemma_format_int_negative(value: i64)
    requires
        i64::MIN < value < 0,
        int_text(-value).len() % 3 != 0,
    ensures
        group_thousands(int_text(value as int)) == seq!['-'] + group_thousands(
            int_text(-value),
        ),
{
    crate::decimal::lemma_int_text_negative(value as int);
    lemma_group_thousands_sign(int_text(-value));
}

/// Law: on a fixed-point text whose whole part is written as `to_string`
/// writes it (no `+`, no leading zeros, no `-0`) and whose fraction is
/// digits, `group_fixed_point` only adds commas: taking them out gives the
/// text back.
pub proof fn lemma_group_fixed_point_drop_commas(text: Seq<char>, whole: i64, fraction: Seq<char>)
    requires
        text == int_text(whole as int) + seq!['.'] + fraction,
        all_digits(fraction),
    ensures
        text.contains('.'),
        parse_i64_text(before_dot(text)) == Some(whole),
        drop_commas(
            group_thousands(int_text(parse_i64_text(before_dot(text))->0 as int)) + seq!['.']
                + before_dot(after_dot(text)),
        ) == text,
{
    let w = int_text(whole as int);
    crate::decimal::lemma_int_text_shape(whole as int);
    crate::decimal::lemma_parse_reads_back_text(whole);
    assert(text[w.len() as int] == '.');
    assert forall|j: int| 0 <= j < w.len() implies text[j] != '.' by {
        assert(text[j] == w[j]);
    }
    lemma_before_dot_at(text, w.len() as int);
    assert(text.take(w.len() as int) =~= w);
    assert(after_dot(text) =~= fraction);
    assert forall|j: int| 0 <= j < fraction.len() implies fraction[j] != '.' && fraction[j]
        != ',' by {
        assert(crate::decimal::is_digit(fraction[j]));
    }
    lemma_before_dot_at(fraction, fraction.len() as int);
    assert(fraction.take(fraction.len() as int) =~= fraction);
    lemma_group_thousands_drop_commas(w);
    let g = group_thousands(w);
    lemma_drop_commas_append(g + seq!['.'], fraction);
    lemma_drop_commas_append(g, seq!['.']);
    assert(drop_commas(seq!['.']) =~= seq!['.']) by {
        assert(seq!['.'].drop_last() =~= Seq::<char>::empty());
        assert(seq!['.'].last() == '.');
        assert(drop_commas(Seq::<char>::empty()) =~= Seq::<char>::empty());
    }
    assert(!fraction.contains(','));
    lemma_no_commas_kept(fraction);
}

/// Every `,` in `g` is followed by three characters that are no commas, and
/// then by another `,` or by the end of `g`.
pub open spec fn commas_before_triples(g: Seq<char>) -> bool {
    forall|i: int|
        #![trigger g[i]]
        0 <= i < g.len() && g[i] == ',' ==> {
            &&& i + 3 < g.len()
            &&& g[i + 1] != ','
            &&& g[i + 2] != ','
            &&& g[i + 3] != ','
            &&& (i + 4 == g.len() || g[i + 4] == ',')
        }
}

/// No four characters in a row of `g` are without a `,`.
pub open spec fn no_long_groups(g: Seq<char>) -> bool {
    forall|i: int|
        #![trigger g[i]]
        0 <= i && i + 3 < g.len() ==> (g[i] == ',' || g[i + 1] == ',' || g[i + 2] == ',' || g[i
            + 3] == ',')
}

/// Law: a grouped text starts with a character of the text, every comma in
/// it stands before exactly three characters of the text (the last group has
/// three), and no group has more than three characters (the first has one to
/// three).
pub proof fn lemma_group_thousands_layout(s: Seq<char>)
    requires
        s.len() > 0,
        !s.contains(','),
    ensures
        group_thousands(s).len() > 0,
        group_thousands(s)[0] != ',',
        commas_before_triples(group_thousands(s)),
        no_long_groups(group_thousands(s)),
    decreases s.len(),
{
    let g = group_thousands(s);
    if s.len() <= 3 {
        assert forall|i: int| 0 <= i < g.len() implies g[i] != ',' by {
            assert(s[i] != ',');
        }
    } else {
        let h = s.take(s.len() - 3);
        let t = s.skip(s.len() - 3);
        assert(!h.contains(',')) by {
            if h.contains(',') {
                let i = choose|i: int| 0 <= i < h.len() && h[i] == ',';
                assert(s[i] == ',');
            }
        }
        lemma_group_thousands_layout(h);
        let gh = group_thousands(h);
        let n = gh.len() as int;
        assert(g == gh + seq![','] + t);
        assert(g.len() == n + 4);
        assert forall|k: int| 0 <= k < n implies g[k] == gh[k] by {}
        assert(g[n] == ',');
        assert forall|k: int| n < k < n + 4 implies g[k] != ',' by {
            assert(g[k] == t[k - n - 1]);
            assert(t[k - n - 1] == s[s.len() - 3 + k - n - 1]);
        }
        assert(g[0] == gh[0]);
        assert forall|i: int| #![trigger g[i]] 0 <= i < g.len() && g[i] == ',' implies {
            &&& i + 3 < g.len()
            &&& g[i + 1] != ','
            &&& g[i + 2] != ','
            &&& g[i + 3] != ','
            &&& (i + 4 == g.len() || g[i + 4] == ',')
        } by {
            if i < n {
                assert(gh[i] == ',');
                if i + 4 < n {
                    assert(g[i + 4] == gh[i + 4]);
                }
                assert(g[i + 1] == gh[i + 1]);
                assert(g[i + 2] == gh[i + 2]);
                assert(g[i + 3] == gh[i + 3]);
            }
        }
        assert forall|i: int| #![trigger g[i]] 0 <= i && i + 3 < g.len() implies (g[i] == ',' || g[i + 1] == ','
            || g[i + 2] == ',' || g[i + 3] == ',') by {
            if i + 3 < n {
                assert(gh[i] == ',' || gh[i + 1] == ',' || gh[i + 2] == ',' || gh[i + 3] == ',');
                assert(g[i] == gh[i]);
                assert(g[i + 1] == gh[i + 1]);
                assert(g[i + 2] == gh[i + 2]);
                assert(g[i + 3] == gh[i + 3]);
            }
        }
    }
}

/// Law: `format_int` writes the decimal text of the value in groups of three
/// characters counted from the right, separated by commas: the first group
/// has one to three characters, every other exactly three.
pub proof fn lemma_format_int_layout(value: i64)
    ensures
        group_thousands(int_text(value as int))[0] != ',',
        commas_before_triples(group_thousands(int_text(value as int))),
        no_long_groups(group_thousands(int_text(value as int))),
        drop_commas(group_thousands(int_text(value as int))) == int_text(value as int),
{
    crate::decimal::lemma_int_text_shape(value as int);
    lemma_group_thousands_layout(int_text(value as int));
    lemma_format_int_digits(value);
}

/// Law: `before_dot` cuts a text at its first `.`: it is a prefix of the
/// text that holds no `.`, and is either the whole text or followed by `.`.
pub proof fn lemma_before_dot_cuts_at_first_point(s: Seq<char>)
    ensures
        before_dot(s).len() <= s.len(),
        before_dot(s) == s.take(before_dot(s).len() as int),
        !before_dot(s).contains('.'),
        before_dot(s).len() == s.len() || s[before_dot(s).len() as int] == '.',
        after_dot(s) == s.skip(before_dot(s).len() + 1int),
    decreases s.len(),
{
    if s.len() > 0 && s[0] != '.' {
        let t = s.drop_first();
        lemma_before_dot_cuts_at_first_point(t);
        let b = before_dot(s);
        let bt = before_dot(t);
        assert(b == seq![s[0]] + bt);
        assert forall|j: int| 0 <= j < b.len() implies b[j] == s[j] by {
            if j > 0 {
                assert(b[j] == bt[j - 1]);
                assert(bt[j - 1] == t.take(bt.len() as int)[j - 1]);
                assert(t[j - 1] == s[j]);
            }
        }
        assert(b =~= s.take(b.len() as int));
        if b.contains('.') {
            let i = choose|i: int| 0 <= i < b.len() && b[i] == '.';
            assert(i > 0);
            assert(before_dot(t)[i - 1] == '.');
        }
        if b.len() < s.len() {
            assert(bt.len() < t.len());
            assert(s[b.len() as int] == t[bt.len() as int]);
        }
        assert(after_dot(s) =~= s.skip(b.len() + 1int));
    } else {
        assert(s.take(0) =~= Seq::<char>::empty());
        assert(before_dot(s) =~= Seq::<char>::empty());
        assert(after_dot(s) =~= s.skip(1int));
    }
}

} // verus!
