//! Building strings.

use vstd::prelude::*;
use vstd::std_specs::iter::IteratorSpec;

verus! {

/// `String::push`: appends one character.
#[verifier::external_body]
pub(crate) fn string_push(s: &mut String, c: char)
    ensures
        final(s)@ == old(s)@.push(c),
{
    s.push(c)
}

/// `String::push_str`: appends a string slice.
#[verifier::external_body]
pub(crate) fn string_push_str(s: &mut String, t: &str)
    ensures
        final(s)@ == old(s)@ + t@,
{
    s.push_str(t)
}

/// The characters of all the parts, one after the other.
pub open spec fn concat_all(parts: Seq<Seq<char>>) -> Seq<char>
    decreases parts.len(),
{
    if parts.len() == 0 {
        Seq::empty()
    } else {
        concat_all(parts.drop_last()) + parts.last()
    }
}

/// The concatenation of string slices, as a new string.
pub fn concat(parts: &[&str]) -> (r: String)
    ensures
        r@ == concat_all(parts@.map_values(|p: &str| p@)),
{
    let mut r = String::new();
    let mut i: usize = 0;
    let ghost views = parts@.map_values(|p: &str| p@);
    while i < parts.len()
        invariant
            i <= parts@.len(),
            views == parts@.map_values(|p: &str| p@),
            r@ == concat_all(views.subrange(0, i as int)),
        decreases parts@.len() - i,
    {
        proof {
            let pre = views.subrange(0, i as int);
            assert(views.subrange(0, i + 1).drop_last() =~= pre);
            assert(views[i as int] == parts@[i as int]@);
        }
        string_push_str(&mut r, parts[i]);
        i = i + 1;
    }
    proof {
        assert(views.subrange(0, i as int) =~= views);
    }
    r
}

/// The characters of a string slice.
pub fn chars_of(s: &str) -> (r: Vec<char>)
    ensures
        r@ == s@,
{
    broadcast use vstd::string::group_string_axioms;

    let mut r: Vec<char> = Vec::new();
    let mut it = s.chars();
    loop
        invariant
            r@ + it.remaining() == s@,
            it.decrease() is Some,
        ensures
            r@ == s@,
        decreases it.decrease().unwrap(),
    {
        let ghost before = it.remaining();
        match it.next() {
            Some(c) => {
                proof {
                    assert(before.len() > 0);
                    assert(before =~= seq![c] + it.remaining());
                }
                r.push(c);
                assert(r@ + it.remaining() =~= s@);
            },
            None => {
                assert(before.len() == 0);
                assert(r@ =~= s@);
                break;
            },
        }
    }
    r
}

} // verus!
