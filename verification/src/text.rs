//! Building `String`s character by character.
use vstd::prelude::*;

verus! {

/// `String::push`: appends the character `c` to `s`. The contract states
/// what std documents: the string afterwards is the old one followed by `c`.
#[verifier::external_body]
pub(crate) fn push_char(s: &mut String, c: char)
    ensures
        final(s)@ == old(s)@.push(c),
{
    s.push(c);
}

/// Appends `chars[start..end]` to `out`.
pub(crate) fn push_chars(out: &mut String, chars: &Vec<char>, start: usize, end: usize)
    requires
        start <= end <= chars.len(),
    ensures
        final(out)@ == old(out)@ + chars@.subrange(start as int, end as int),
{
    let mut i = start;
    while i < end
        invariant
            start <= i <= end <= chars.len(),
            out@ == old(out)@ + chars@.subrange(start as int, i as int),
        decreases end - i,
    {
        push_char(out, chars[i]);
        i = i + 1;
        assert(chars@.subrange(start as int, i as int) =~= chars@.subrange(
            start as int,
            i - 1,
        ).push(chars@[i - 1]));
    }
}

} // verus!
