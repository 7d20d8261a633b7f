//! The limit parser: a user-facing option string becomes a strictly positive
//! count of lines or bytes, or the offending token comes back verbatim.

use vstd::prelude::*;
use vstd::string::StrSliceExecFns;

verus! {

/// A decimal digit character.
pub open spec fn is_digit(c: char) -> bool {
    '0' <= c && c <= '9'
}

/// The numeric value of one digit character.
pub open spec fn digit_val(c: char) -> int {
    c as int - '0' as int
}

/// Every character of `s` is a decimal digit.
pub open spec fn all_digits(s: Seq<char>) -> bool {
    forall|i: int| 0 <= i < s.len() ==> is_digit(#[trigger] s[i])
}

/// The digits of a limit token: an optional leading `+` sign is dropped.
pub open spec fn token_digits(s: Seq<char>) -> Seq<char> {
    if s.len() > 0 && s[0] == '+' {
        s.skip(1)
    } else {
        s
    }
}

/// A token is numeric when, after an optional leading `+`, it consists of one
/// or more decimal digits.
pub open spec fn is_numeric_token(s: Seq<char>) -> bool {
    token_digits(s).len() > 0 && all_digits(token_digits(s))
}

/// The value of a digit string, most significant digit first.
pub open spec fn digits_value(s: Seq<char>) -> int
    decreases s.len(),
{
    if s.len() == 0 {
        0
    } else {
        digits_value(s.drop_last()) * 10 + digit_val(s.last())
    }
}

/// The numeric value of a token, sign dropped.
pub open spec fn token_value(s: Seq<char>) -> int {
    digits_value(token_digits(s))
}

proof fn lemma_digits_value_nonneg(s: Seq<char>)
    requires
        all_digits(s),
    ensures
        digits_value(s) >= 0,
    decreases s.len(),
{
    if s.len() > 0 {
        assert(all_digits(s.drop_last()));
        lemma_digits_value_nonneg(s.drop_last());
    }
}

/// A digit string is worth at least as much as any of its prefixes.
proof fn lemma_digits_value_prefix_le(s: Seq<char>, i: int)
    requires
        all_digits(s),
        0 <= i <= s.len(),
    ensures
        digits_value(s.take(i)) <= digits_value(s),
    decreases s.len(),
{
    if i == s.len() {
        assert(s.take(i) =~= s);
    } else {
        assert(s.len() > 0);
        assert(all_digits(s.drop_last()));
        assert(s.take(i) =~= s.drop_last().take(i));
        lemma_digits_value_prefix_le(s.drop_last(), i);
        lemma_digits_value_nonneg(s.drop_last());
    }
}

/// Converts an option token to a strictly positive count.
///
/// The token must be a base-10 integer (an optional leading `+` is part of
/// integer syntax) whose value is at least 1 and fits in `usize`; any other
/// token comes back unchanged as the error payload, so that user-facing
/// messages can quote it verbatim.
pub fn parse_positive_int(val: &str) -> (r: Result<usize, String>)
    ensures
        r is Ok <==> is_numeric_token(val@) && 1 <= token_value(val@) <= usize::MAX,
        r is Ok ==> r->Ok_0 == token_value(val@),
        r is Err ==> r->Err_0@ == val@,
{
    let n_chars = val.unicode_len();
    let mut i: usize = 0;
    if n_chars > 0 && val.get_char(0) == '+' {
        i = 1;
    }
    if i >= n_chars {
        return Err(val.to_owned());
    }
    let ghost digits = token_digits(val@);
    let ghost start = i as int;
    assert(digits =~= val@.skip(start));
    let mut acc: usize = 0;
    while i < n_chars
        invariant
            n_chars == val@.len(),
            start <= i <= n_chars,
            start == (if val@.len() > 0 && val@[0] == '+' {
                1int
            } else {
                0int
            }),
            digits == val@.skip(start),
            digits.len() > 0,
            all_digits(digits.take(i - start)),
            acc == digits_value(digits.take(i - start)),
        decreases n_chars - i,
    {
        let c = val.get_char(i);
        if c < '0' || c > '9' {
            assert(digits[i - start] == val@[i as int]);
            assert(!all_digits(digits));
            assert(token_digits(val@) =~= digits);
            return Err(val.to_owned());
        }
        let d: usize = (c as u32 as usize) - ('0' as u32 as usize);
        let ghost prev = digits.take(i - start);
        let ghost cur = digits.take(i + 1 - start);
        assert(cur.drop_last() =~= prev);
        assert(cur.last() == digits[i - start]);
        assert(digits[i - start] == val@[i as int]);
        assert(digits_value(cur) == acc * 10 + d);
        match acc.checked_mul(10) {
            Some(a) => {
                match a.checked_add(d) {
                    Some(next) => {
                        acc = next;
                    },
                    None => {
                        proof {
                            assert(digits_value(cur) > usize::MAX);
                            assert(token_digits(val@) =~= digits);
                            if is_numeric_token(val@) {
                                lemma_digits_value_prefix_le(digits, i + 1 - start);
                                assert(token_value(val@) > usize::MAX);
                            }
                        }
                        return Err(val.to_owned());
                    },
                }
            },
            None => {
                proof {
                    assert(digits_value(cur) > usize::MAX);
                    assert(token_digits(val@) =~= digits);
                    if is_numeric_token(val@) {
                        lemma_digits_value_prefix_le(digits, i + 1 - start);
                        assert(token_value(val@) > usize::MAX);
                    }
                }
                return Err(val.to_owned());
            },
        }
        assert(all_digits(cur)) by {
            assert(forall|j: int| 0 <= j < cur.len() - 1 ==> cur[j] == prev[j]);
        }
        i = i + 1;
    }
    assert(digits.take(i - start) =~= digits);
    if acc == 0 {
        return Err(val.to_owned());
    }
    Ok(acc)
}

} // verus!
