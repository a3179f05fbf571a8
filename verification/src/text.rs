//! Character classes and small string helpers shared by the tokenizer and the
//! tree constructor.

use vstd::prelude::*;
use vstd::std_specs::iter::IteratorSpec;

verus! {

/// `String::push` of the standard library appends one character to the end of
/// the string and leaves everything before it untouched.
pub assume_specification[ String::push ](s: &mut String, c: char)
    ensures
        final(s)@ == old(s)@.push(c),
;

/// The two characters that the engine treats as insignificant whitespace.
pub open spec fn spec_is_whitespace(c: char) -> bool {
    c == ' ' || c == '\n'
}

#[verifier::when_used_as_spec(spec_is_whitespace)]
pub fn is_whitespace(c: char) -> (r: bool)
    ensures
        r == spec_is_whitespace(c),
{
    c == ' ' || c == '\n'
}

pub open spec fn spec_is_ascii_upper(c: char) -> bool {
    'A' <= c && c <= 'Z'
}

#[verifier::when_used_as_spec(spec_is_ascii_upper)]
pub fn is_ascii_upper(c: char) -> (r: bool)
    ensures
        r == spec_is_ascii_upper(c),
{
    'A' <= c && c <= 'Z'
}

pub open spec fn spec_is_ascii_alpha(c: char) -> bool {
    ('a' <= c && c <= 'z') || ('A' <= c && c <= 'Z')
}

#[verifier::when_used_as_spec(spec_is_ascii_alpha)]
pub fn is_ascii_alpha(c: char) -> (r: bool)
    ensures
        r == spec_is_ascii_alpha(c),
{
    ('a' <= c && c <= 'z') || ('A' <= c && c <= 'Z')
}

/// ASCII upper-case letters map to their lower-case form; every other
/// character maps to itself.
pub open spec fn spec_ascii_lower(c: char) -> char {
    if spec_is_ascii_upper(c) {
        ((c as u8) + 32) as char
    } else {
        c
    }
}

#[verifier::when_used_as_spec(spec_ascii_lower)]
pub fn ascii_lower(c: char) -> (r: char)
    ensures
        r == spec_ascii_lower(c),
{
    if is_ascii_upper(c) {
        let b: u8 = c as u8;
        (b + 32) as char
    } else {
        c
    }
}

/// Lower-casing never produces an upper-case letter, and is the identity on
/// everything that is not one.
pub proof fn lemma_ascii_lower_idempotent(c: char)
    ensures
        !spec_is_ascii_upper(spec_ascii_lower(c)),
        spec_ascii_lower(spec_ascii_lower(c)) == spec_ascii_lower(c),
        spec_is_ascii_alpha(c) == spec_is_ascii_alpha(spec_ascii_lower(c)),
{
}

/// The characters of `s`, in order.
pub fn to_chars(s: &str) -> (r: Vec<char>)
    ensures
        r@ == s@,
{
    let mut out: Vec<char> = Vec::new();
    let mut it = s.chars();
    loop
        invariant_except_break
            out@ + it.remaining() == s@,
        invariant
            it.obeys_prophetic_iter_laws(),
            it.decrease() is Some,
        ensures
            out@ == s@,
        decreases it.decrease()->0,
    {
        let ghost before = it.remaining();
        let ghost done = out@;
        match it.next() {
            Some(c) => {
                out.push(c);
                assert(out@ + it.remaining() =~= done + before) by {
                    assert(before =~= seq![c] + before.drop_first());
                }
            },
            None => {
                assert(out@ + before =~= out@);
                break ;
            },
        }
    }
    out
}

/// Whether two strings hold the same characters.
pub fn same_text(a: &str, b: &str) -> (r: bool)
    ensures
        r == (a@ == b@),
{
    let mut x = a.chars();
    let mut y = b.chars();
    let ghost mut seen: Seq<char> = Seq::empty();
    assert(seen + x.remaining() =~= a@);
    assert(seen + y.remaining() =~= b@);
    loop
        invariant
            seen + x.remaining() == a@,
            seen + y.remaining() == b@,
            x.obeys_prophetic_iter_laws(),
            y.obeys_prophetic_iter_laws(),
            x.decrease() is Some,
        decreases x.decrease()->0,
    {
        let ghost left = x.remaining();
        let ghost right = y.remaining();
        let c = x.next();
        let d = y.next();
        match c {
            Some(c) => match d {
                Some(d) => {
                    assert(a@[seen.len() as int] == c);
                    assert(b@[seen.len() as int] == d);
                    if c != d {
                        return false;
                    }
                    proof {
                        assert(left =~= seq![c] + left.drop_first());
                        assert(right =~= seq![c] + right.drop_first());
                        assert(seen.push(c) + x.remaining() =~= seen + left);
                        assert(seen.push(c) + y.remaining() =~= seen + right);
                        seen = seen.push(c);
                    }
                },
                None => {
                    assert(a@.len() != b@.len());
                    return false;
                },
            },
            None => {
                match d {
                    Some(_) => {
                        assert(a@.len() != b@.len());
                        return false;
                    },
                    None => {
                        assert(left =~= right);
                        return true;
                    },
                }
            },
        }
    }
}

} // verus!
