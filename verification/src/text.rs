//! Small text operations on the character sequences of strings.

use vstd::prelude::*;
use vstd::string::StrSliceExecFns;

verus! {

/// `String::push`: appends one character.
#[verifier::external_body]
pub(crate) fn push_char(s: &mut String, c: char)
    ensures
        final(s)@ == old(s)@.push(c),
{
    s.push(c);
}

/// The characters of a string, in order.
pub fn chars_of(s: &str) -> (r: Vec<char>)
    ensures
        r@ == s@,
{
    let n = s.unicode_len();
    let mut r: Vec<char> = Vec::new();
    let mut i: usize = 0;
    while i < n
        invariant
            n == s@.len(),
            i <= n,
            r@ == s@.take(i as int),
        decreases n - i,
    {
        r.push(s.get_char(i));
        proof {
            assert(s@.take(i + 1) =~= s@.take(i as int).push(s@[i as int]));
        }
        i = i + 1;
    }
    proof {
        assert(s@.take(n as int) =~= s@);
    }
    r
}

/// A string made of the given characters.
pub fn string_of(chars: &Vec<char>) -> (r: String)
    ensures
        r@ == chars@,
{
    let mut r = String::new();
    let n = chars.len();
    let mut i: usize = 0;
    while i < n
        invariant
            n == chars@.len(),
            i <= n,
            r@ == chars@.take(i as int),
        decreases n - i,
    {
        push_char(&mut r, chars[i]);
        proof {
            assert(chars@.take(i + 1) =~= chars@.take(i as int).push(chars@[i as int]));
        }
        i = i + 1;
    }
    proof {
        assert(chars@.take(n as int) =~= chars@);
    }
    r
}

/// `a` followed by `b`.
pub fn join_text(a: &str, b: &str) -> (r: String)
    ensures
        r@ == a@ + b@,
{
    let mut r = String::new();
    let x = chars_of(a);
    let y = chars_of(b);
    let mut i: usize = 0;
    while i < x.len()
        invariant
            i <= x@.len(),
            x@ == a@,
            r@ == a@.take(i as int),
        decreases x@.len() - i,
    {
        push_char(&mut r, x[i]);
        proof {
            assert(a@.take(i + 1) =~= a@.take(i as int).push(a@[i as int]));
        }
        i = i + 1;
    }
    proof {
        assert(a@.take(x@.len() as int) =~= a@);
    }
    let mut j: usize = 0;
    while j < y.len()
        invariant
            j <= y@.len(),
            y@ == b@,
            r@ == a@ + b@.take(j as int),
        decreases y@.len() - j,
    {
        push_char(&mut r, y[j]);
        proof {
            assert(b@.take(j + 1) =~= b@.take(j as int).push(b@[j as int]));
            assert(a@ + b@.take(j + 1) =~= (a@ + b@.take(j as int)).push(b@[j as int]));
        }
        j = j + 1;
    }
    proof {
        assert(b@.take(y@.len() as int) =~= b@);
    }
    r
}

/// `s` with every character `from` replaced by `to`.
pub open spec fn replace_char(s: Seq<char>, from: char, to: char) -> Seq<char> {
    s.map_values(|c: char| if c == from { to } else { c })
}

/// `str::replace` for one character by another.
pub fn replace_all(s: &str, from: char, to: char) -> (r: String)
    ensures
        r@ == replace_char(s@, from, to),
{
    let x = chars_of(s);
    let mut r = String::new();
    let mut i: usize = 0;
    while i < x.len()
        invariant
            i <= x@.len(),
            x@ == s@,
            r@ == replace_char(s@.take(i as int), from, to),
        decreases x@.len() - i,
    {
        let c = x[i];
        push_char(&mut r, if c == from { to } else { c });
        proof {
            assert(replace_char(s@.take(i + 1), from, to) =~= replace_char(
                s@.take(i as int),
                from,
                to,
            ).push(if c == from { to } else { c }));
        }
        i = i + 1;
    }
    proof {
        assert(s@.take(x@.len() as int) =~= s@);
    }
    r
}

/// The parts of `s` between the separator `sep`, as `str::split` gives them:
/// one more part than there are separators, empty parts included.
pub open spec fn split_on(s: Seq<char>, sep: char) -> Seq<Seq<char>>
    decreases s.len(),
{
    if s.len() == 0 {
        seq![Seq::empty()]
    } else {
        let init = split_on(s.drop_last(), sep);
        if s.last() == sep {
            init.push(Seq::empty())
        } else {
            init.update(init.len() - 1, init.last().push(s.last()))
        }
    }
}

pub proof fn lemma_split_on_nonempty(s: Seq<char>, sep: char)
    ensures
        split_on(s, sep).len() >= 1,
    decreases s.len(),
{
    if s.len() > 0 {
        lemma_split_on_nonempty(s.drop_last(), sep);
    }
}

/// `s.split(sep).nth(index)`: the part of `s` at `index`, if there is one.
pub fn split_nth(s: &str, sep: char, index: usize) -> (r: Option<String>)
    ensures
        match r {
            Some(part) => index < split_on(s@, sep).len() && part@ == split_on(s@, sep)[index as int],
            None => index >= split_on(s@, sep).len(),
        },
{
    let x = chars_of(s);
    let mut seps: usize = 0;
    let mut part: Vec<char> = Vec::new();
    let mut i: usize = 0;
    proof {
        assert(s@.take(0) =~= Seq::<char>::empty());
    }
    while i < x.len()
        invariant
            i <= x@.len(),
            x@ == s@,
            seps <= i,
            split_on(s@.take(i as int), sep).len() == seps + 1,
            seps < index ==> part@.len() == 0,
            seps >= index ==> part@ == split_on(s@.take(i as int), sep)[index as int],
        decreases x@.len() - i,
    {
        let c = x[i];
        let ghost pre = s@.take(i as int);
        proof {
            assert(s@.take(i + 1).drop_last() =~= pre);
            assert(s@.take(i + 1).last() == c);
            lemma_split_on_nonempty(pre, sep);
        }
        if c == sep {
            seps = seps + 1;
        } else if seps == index {
            part.push(c);
        }
        i = i + 1;
    }
    proof {
        assert(s@.take(x@.len() as int) =~= s@);
    }
    if seps >= index {
        Some(string_of(&part))
    } else {
        None
    }
}

} // verus!
