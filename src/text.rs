use vstd::prelude::*;

verus! {

/// Appends one character to a string.
/// Relies on std's `String::push`, which appends the given char to the end of the string.
#[verifier::external_body]
pub(crate) fn push_char(s: &mut String, c: char)
    ensures
        final(s)@ == old(s)@.push(c),
{
    s.push(c);
}

/// The characters of a string, in order.
pub fn chars_of(s: &str) -> (r: Vec<char>)
    ensures
        r@ == s@,
{
    let n = s.unicode_len();
    let mut r: Vec<char> = Vec::new();
    let mut i: usize = 0;
    while i < n
        invariant
            n == s@.len(),
            i <= n,
            r@ == s@.take(i as int),
        decreases n - i,
    {
        let c = s.get_char(i);
        r.push(c);
        i = i + 1;
        assert(r@ =~= s@.take(i as int));
    }
    assert(r@ =~= s@);
    r
}

/// Appends every character of `cs` to `s`.
pub fn push_chars(s: &mut String, cs: &Vec<char>)
    ensures
        final(s)@ == old(s)@ + cs@,
{
    let mut i: usize = 0;
    while i < cs.len()
        invariant
            i <= cs@.len(),
            s@ == old(s)@ + cs@.take(i as int),
        decreases cs@.len() - i,
    {
        push_char(s, cs[i]);
        i = i + 1;
        assert(s@ =~= old(s)@ + cs@.take(i as int));
    }
    assert(cs@.take(cs@.len() as int) =~= cs@);
}

/// A string holding exactly the characters of `cs`.
pub fn string_of(cs: &Vec<char>) -> (r: String)
    ensures
        r@ == cs@,
{
    let mut r = String::new();
    push_chars(&mut r, cs);
    assert(r@ =~= cs@);
    r
}

} // verus!
