//! Decimal parsing of the numeric field values (`ID`, `C`, `V`) carried by the
//! wire protocol. A token is accepted exactly when, after an optional leading
//! `+`, it consists of one or more ASCII digits and its value fits the bound.

use vstd::prelude::*;

verus! {

/// `c` is an ASCII decimal digit.
pub open spec fn is_ascii_digit(c: char) -> bool {
    '0' <= c && c <= '9'
}

/// Numeric value of one ASCII digit.
pub open spec fn digit_val(c: char) -> int {
    c as int - '0' as int
}

/// Every character of `s` is an ASCII digit.
pub open spec fn all_digits(s: Seq<char>) -> bool {
    forall|i: int| 0 <= i < s.len() ==> is_ascii_digit(#[trigger] s[i])
}

/// Value of a string of ASCII digits, most significant first.
pub open spec fn digits_val(s: Seq<char>) -> int
    decreases s.len(),
{
    if s.len() == 0 {
        0
    } else {
        digits_val(s.drop_last()) * 10 + digit_val(s.last())
    }
}

/// The digit part of a decimal token: everything after an optional leading `+`.
pub open spec fn digits_body(s: Seq<char>) -> Seq<char> {
    if s.len() > 0 && s[0] == '+' {
        s.skip(1)
    } else {
        s
    }
}

/// The token parses as an unsigned decimal number no greater than `max`.
pub open spec fn parses_as_uint(s: Seq<char>, max: int) -> bool {
    &&& digits_body(s).len() > 0
    &&& all_digits(digits_body(s))
    &&& digits_val(digits_body(s)) <= max
}

/// Value of a token that satisfies `parses_as_uint`.
pub open spec fn uint_value(s: Seq<char>) -> int {
    digits_val(digits_body(s))
}

proof fn lemma_digits_val_nonneg(s: Seq<char>)
    requires
        all_digits(s),
    ensures
        digits_val(s) >= 0,
    decreases s.len(),
{
    if s.len() > 0 {
        assert(all_digits(s.drop_last())) by {
            assert(forall|i: int|
                0 <= i < s.len() - 1 ==> is_ascii_digit(#[trigger] s.drop_last()[i]));
        }
        lemma_digits_val_nonneg(s.drop_last());
    }
}

/// A digit string is worth at least as much as any of its prefixes.
proof fn lemma_digits_val_prefix(s: Seq<char>, i: int)
    requires
        all_digits(s),
        0 <= i <= s.len(),
    ensures
        digits_val(s.take(i)) <= digits_val(s),
    decreases s.len(),
{
    lemma_digits_val_nonneg(s);
    if i < s.len() {
        assert(all_digits(s.drop_last())) by {
            assert(forall|i: int|
                0 <= i < s.len() - 1 ==> is_ascii_digit(#[trigger] s.drop_last()[i]));
        }
        lemma_digits_val_prefix(s.drop_last(), i);
        assert(s.drop_last().take(i) =~= s.take(i));
        assert(digits_val(s) >= digits_val(s.drop_last())) by {
            lemma_digits_val_nonneg(s.drop_last());
        }
    } else {
        assert(s.take(i) =~= s);
    }
}

/// Parse `s` as an unsigned decimal number bounded by `max`: an optional
/// leading `+`, then one or more ASCII digits. Returns `None` exactly when the
/// token is malformed or its value exceeds `max`.
pub fn parse_uint_up_to(s: &str, max: u16) -> (r: Option<u16>)
    ensures
        r is Some <==> parses_as_uint(s@, max as int),
        r matches Some(v) ==> v as int == uint_value(s@),
{
    let len = s.unicode_len();
    let start: usize = if len > 0 && s.get_char(0) == '+' {
        1
    } else {
        0
    };
    let ghost body = digits_body(s@);
    proof {
        assert(body =~= s@.skip(start as int));
    }
    if len == start {
        return None;
    }
    let mut acc: u32 = 0;
    let mut i: usize = start;
    while i < len
        invariant
            start <= i <= len,
            len == s@.len(),
            body == digits_body(s@),
            body == s@.skip(start as int),
            body.len() == len - start,
            all_digits(body.take(i - start)),
            acc as int == digits_val(body.take(i - start)),
            acc <= max,
        decreases len - i,
    {
        let c = s.get_char(i);
        if c < '0' || c > '9' {
            proof {
                assert(body[i - start] == s@[i as int]);
                assert(!is_ascii_digit(body[i - start]));
            }
            return None;
        }
        let d: u32 = c as u32 - '0' as u32;
        proof {
            assert(body.take(i - start + 1).drop_last() =~= body.take(i - start));
            assert(body.take(i - start + 1).last() == s@[i as int]);
        }
        acc = acc * 10 + d;
        i = i + 1;
        if acc > max as u32 {
            proof {
                assert(all_digits(body.take(i - start))) by {
                    assert(forall|j: int|
                        0 <= j < i - start ==> is_ascii_digit(#[trigger] body.take(i - start)[j]));
                }
                if parses_as_uint(s@, max as int) {
                    lemma_digits_val_prefix(body, i - start);
                    assert(body.take(body.len() as int) =~= body);
                }
            }
            return None;
        }
    }
    proof {
        assert(body.take(len - start) =~= body);
    }
    Some(acc as u16)
}

} // verus!
