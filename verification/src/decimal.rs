//! Whole numbers written in decimal, read and written as Rust's `str::parse`
//! and `to_string` do: an optional sign, then digits, no other characters.

use vstd::prelude::*;

use crate::text::{chars_of, push_char};

verus! {

pub open spec fn is_digit(c: char) -> bool {
    '0' <= c <= '9'
}

pub open spec fn digit_value(c: char) -> int {
    c as int - '0' as int
}

pub open spec fn all_digits(s: Seq<char>) -> bool {
    forall|i: int| 0 <= i < s.len() ==> is_digit(#[trigger] s[i])
}

/// The number the digits `s` stand for.
pub open spec fn digits_value(s: Seq<char>) -> int
    decreases s.len(),
{
    if s.len() == 0 {
        0
    } else {
        digits_value(s.drop_last()) * 10 + digit_value(s.last())
    }
}

/// What `s.parse::<i32>()` gives: a value when `s` is an optional `+` or `-`
/// followed by at least one digit and the number fits in an `i32`; nothing
/// otherwise.
pub open spec fn parse_i32_spec(s: Seq<char>) -> Option<i32> {
    let signed = s.len() > 0 && (s[0] == '+' || s[0] == '-');
    let negative = s.len() > 0 && s[0] == '-';
    let body = if signed {
        s.drop_first()
    } else {
        s
    };
    let value = if negative {
        -digits_value(body)
    } else {
        digits_value(body)
    };
    if body.len() == 0 || !all_digits(body) || value < i32::MIN || value > i32::MAX {
        None
    } else {
        Some(value as i32)
    }
}

pub proof fn lemma_digits_value_nonnegative(s: Seq<char>)
    requires
        all_digits(s),
    ensures
        digits_value(s) >= 0,
    decreases s.len(),
{
    if s.len() > 0 {
        assert(all_digits(s.drop_last()));
        lemma_digits_value_nonnegative(s.drop_last());
        assert(is_digit(s[s.len() - 1]));
    }
}

/// Reads a whole number the way `str::parse::<i32>` does.
pub fn parse_i32(s: &str) -> (r: Option<i32>)
    ensures
        r == parse_i32_spec(s@),
{
    let x = chars_of(s);
    let n = x.len();
    let signed = n > 0 && (x[0] == '+' || x[0] == '-');
    let negative = n > 0 && x[0] == '-';
    let start: usize = if signed {
        1
    } else {
        0
    };
    let ghost body = if signed {
        s@.drop_first()
    } else {
        s@
    };
    proof {
        assert(body =~= s@.skip(start as int));
    }
    if start == n {
        return None;
    }
    let mut acc: i64 = 0;
    let mut big = false;
    let mut i: usize = start;
    proof {
        assert(body.take(0) =~= Seq::<char>::empty());
    }
    while i < n
        invariant
            n == x@.len(),
            x@ == s@,
            signed == (s@.len() > 0 && (s@[0] == '+' || s@[0] == '-')),
            negative == (s@.len() > 0 && s@[0] == '-'),
            start == (if signed {
                1usize
            } else {
                0usize
            }),
            body == (if signed {
                s@.drop_first()
            } else {
                s@
            }),
            start <= i <= n,
            body =~= s@.skip(start as int),
            all_digits(body.take(i - start)),
            !big ==> acc == digits_value(body.take(i - start)) && 0 <= acc <= 2_147_483_648,
            big ==> digits_value(body.take(i - start)) > 2_147_483_648,
        decreases n - i,
    {
        let c = x[i];
        let ghost pre = body.take(i - start);
        proof {
            assert(body.take(i + 1 - start).drop_last() =~= pre);
            assert(body.take(i + 1 - start).last() == c);
            lemma_digits_value_nonnegative(pre);
        }
        if !('0' <= c && c <= '9') {
            proof {
                assert(body[i - start] == c);
                assert(!is_digit(body[i - start]));
                assert(!all_digits(body));
                assert(body.len() > 0);
                assert(parse_i32_spec(s@) is None);
            }
            return None;
        }
        let d = (c as u32 - '0' as u32) as i64;
        if !big {
            acc = acc * 10 + d;
            if acc > 2_147_483_648 {
                big = true;
            }
        }
        proof {
            assert(all_digits(body.take(i + 1 - start)));
        }
        i = i + 1;
    }
    proof {
        assert(body.take(n - start) =~= body);
    }
    if big {
        return None;
    }
    if negative {
        Some((-acc) as i32)
    } else if acc <= 2_147_483_647 {
        Some(acc as i32)
    } else {
        None
    }
}

pub open spec fn digit_char(d: int) -> char {
    if d == 0 {
        '0'
    } else if d == 1 {
        '1'
    } else if d == 2 {
        '2'
    } else if d == 3 {
        '3'
    } else if d == 4 {
        '4'
    } else if d == 5 {
        '5'
    } else if d == 6 {
        '6'
    } else if d == 7 {
        '7'
    } else if d == 8 {
        '8'
    } else {
        '9'
    }
}

fn digit_to_char(d: u64) -> (c: char)
    requires
        d < 10,
    ensures
        c == digit_char(d as int),
{
    if d == 0 {
        '0'
    } else if d == 1 {
        '1'
    } else if d == 2 {
        '2'
    } else if d == 3 {
        '3'
    } else if d == 4 {
        '4'
    } else if d == 5 {
        '5'
    } else if d == 6 {
        '6'
    } else if d == 7 {
        '7'
    } else if d == 8 {
        '8'
    } else {
        '9'
    }
}

/// The decimal digits of a non-negative number, without leading zeros.
pub open spec fn digits_of(m: nat) -> Seq<char>
    decreases m,
{
    if m < 10 {
        seq![digit_char(m as int)]
    } else {
        digits_of(m / 10).push(digit_char((m % 10) as int))
    }
}

/// What `to_string` writes for a whole number.
pub open spec fn decimal(n: int) -> Seq<char> {
    if n < 0 {
        seq!['-'] + digits_of((-n) as nat)
    } else {
        digits_of(n as nat)
    }
}

pub proof fn lemma_digits_of(m: nat)
    ensures
        digits_of(m).len() >= 1,
        all_digits(digits_of(m)),
        digits_value(digits_of(m)) == m,
    decreases m,
{
    if m >= 10 {
        lemma_digits_of(m / 10);
        let d = digits_of(m);
        assert(d.drop_last() =~= digits_of(m / 10));
        assert(d.last() == digit_char((m % 10) as int));
        assert(digit_value(digit_char((m % 10) as int)) == m % 10);
        assert(digits_value(d) == digits_value(digits_of(m / 10)) * 10 + digit_value(d.last()));
        assert((m / 10) * 10 + m % 10 == m);
        assert(digits_value(d) == m);
        assert forall|i: int| 0 <= i < d.len() implies is_digit(#[trigger] d[i]) by {
            if i < d.len() - 1 {
                assert(d[i] == digits_of(m / 10)[i]);
            }
        }
    } else {
        let d = digits_of(m);
        assert(d.drop_last() =~= Seq::<char>::empty());
        assert(d.last() == digit_char(m as int));
        assert(digit_value(digit_char(m as int)) == m);
        assert(digits_value(d) == digits_value(d.drop_last()) * 10 + digit_value(d.last()));
        assert(digits_value(d) == m);
    }
}

/// Reading back what was written gives the number again.
pub proof fn lemma_parse_decimal(n: i32)
    ensures
        parse_i32_spec(decimal(n as int)) == Some(n),
{
    let s = decimal(n as int);
    if n < 0 {
        lemma_digits_of((-n) as nat);
        assert(s.drop_first() =~= digits_of((-n) as nat));
    } else {
        lemma_digits_of(n as nat);
        assert(is_digit(s[0]));
    }
}

/// Writes a whole number in decimal, as `to_string` does.
pub fn to_decimal(n: i64) -> (r: String)
    ensures
        r@ == decimal(n as int),
{
    let negative = n < 0;
    let mut m: u64 = if negative {
        (-(n as i128)) as u64
    } else {
        n as u64
    };
    let ghost total: nat = m as nat;
    let mut rev: Vec<char> = Vec::new();
    loop
        invariant_except_break
            m as nat <= total,
            rev@.len() > 0 ==> digits_of(total) =~= digits_of(m as nat) + rev@.reverse(),
            rev@.len() == 0 ==> m == total,
        ensures
            digits_of(total) =~= rev@.reverse(),
        decreases m,
    {
        let c = digit_to_char(m % 10);
        let ghost before = rev@;
        rev.push(c);
        proof {
            assert(c == digit_char((m % 10) as int));
            if before.len() > 0 {
                assert(rev@.reverse() =~= seq![c] + before.reverse());
            } else {
                assert(rev@.reverse() =~= seq![c]);
            }
        }
        if m < 10 {
            proof {
                assert(digits_of(m as nat) =~= seq![c]);
                assert(digits_of(total) =~= rev@.reverse());
            }
            break;
        }
        proof {
            assert(digits_of(m as nat) =~= digits_of((m / 10) as nat).push(c));
        }
        m = m / 10;
    }
    let mut r = String::new();
    if negative {
        push_char(&mut r, '-');
    }
    let ghost head = r@;
    let mut k = rev.len();
    while k > 0
        invariant
            k <= rev@.len(),
            r@ == head + rev@.reverse().take(rev@.len() - k),
        decreases k,
    {
        k = k - 1;
        push_char(&mut r, rev[k]);
        proof {
            assert(rev@.reverse().take(rev@.len() - k) =~= rev@.reverse().take(rev@.len() - k
                - 1).push(rev@[k as int]));
        }
    }
    proof {
        assert(rev@.reverse().take(rev@.len() as int) =~= rev@.reverse());
    }
    r
}

} // verus!
