//! The textual tag syntax: colon-separated tokens, each a `DD-MM-YYYY` date,
//! a signed decimal integer or, failing both, a word.
use vstd::prelude::*;

use crate::tags::TagValue;

verus! {

pub open spec fn is_digit(c: char) -> bool {
    48 <= c as u32 && c as u32 <= 57
}

pub open spec fn digit_value(c: char) -> int {
    c as u32 as int - 48
}

pub open spec fn all_digits(s: Seq<char>) -> bool {
    forall|i: int| 0 <= i < s.len() ==> is_digit(#[trigger] s[i])
}

/// The decimal value of a run of digits.
pub open spec fn digits_value(s: Seq<char>) -> int
    decreases s.len(),
{
    if s.len() == 0 {
        0
    } else {
        digits_value(s.drop_last()) * 10 + digit_value(s.last())
    }
}

/// The integer that `s` spells: an optional `+` or `-`, then one or more digits.
pub open spec fn int_value(s: Seq<char>) -> Option<int> {
    if s.len() > 0 && (s[0] == '-' || s[0] == '+') {
        let body = s.drop_first();
        if body.len() > 0 && all_digits(body) {
            Some(
                if s[0] == '-' {
                    -digits_value(body)
                } else {
                    digits_value(body)
                },
            )
        } else {
            None
        }
    } else if s.len() > 0 && all_digits(s) {
        Some(digits_value(s))
    } else {
        None
    }
}

/// The `i32` that `s` spells, if it spells one in range.
pub open spec fn i32_value(s: Seq<char>) -> Option<i32> {
    match int_value(s) {
        Some(v) => if i32::MIN <= v && v <= i32::MAX {
            Some(v as i32)
        } else {
            None
        },
        None => None,
    }
}

/// Position of the first `:` in `s`, or its length when there is none.
pub open spec fn token_end(s: Seq<char>) -> nat
    decreases s.len(),
{
    if s.len() == 0 {
        0
    } else if s[0] == ':' {
        0
    } else {
        1 + token_end(s.drop_first())
    }
}

/// What is left of `s` once the token ending at `k` and its delimiter are taken.
pub open spec fn after(s: Seq<char>, k: int) -> Seq<char> {
    if k < s.len() {
        s.subrange(k + 1, s.len() as int)
    } else {
        Seq::empty()
    }
}

/// `s` starts with `DD-MM-YYYY`, followed by the delimiter or by nothing.
pub open spec fn date_shaped(s: Seq<char>) -> bool {
    &&& s.len() >= 10
    &&& is_digit(s[0]) && is_digit(s[1]) && s[2] == '-'
    &&& is_digit(s[3]) && is_digit(s[4]) && s[5] == '-'
    &&& is_digit(s[6]) && is_digit(s[7]) && is_digit(s[8]) && is_digit(s[9])
    &&& (s.len() == 10 || s[10] == ':')
}

/// The date at the front of a date-shaped `s`.
pub open spec fn date_value(s: Seq<char>) -> TagValue {
    TagValue::Date(
        (digit_value(s[0]) * 10 + digit_value(s[1])) as u32,
        (digit_value(s[3]) * 10 + digit_value(s[4])) as u32,
        (digit_value(s[6]) * 1000 + digit_value(s[7]) * 100 + digit_value(s[8]) * 10
            + digit_value(s[9])) as u32,
    )
}

/// The first token of `s`, decoded: a date if it has that shape, else a
/// number if it spells one, else the word up to the delimiter.
pub open spec fn first_value(s: Seq<char>) -> TagValue {
    if date_shaped(s) {
        date_value(s)
    } else {
        match i32_value(s.subrange(0, token_end(s) as int)) {
            Some(n) => TagValue::Number(n),
            None => TagValue::Str(s.subrange(0, token_end(s) as int)),
        }
    }
}

/// Where the first token of `s` ends.
pub open spec fn first_end(s: Seq<char>) -> int {
    if date_shaped(s) {
        10
    } else {
        token_end(s) as int
    }
}

/// The elements that `s` decodes to, in textual order; a trailing delimiter
/// adds nothing, and the empty text decodes to one empty word.
pub open spec fn decode(s: Seq<char>) -> Seq<TagValue>
    decreases s.len(),
{
    let k = first_end(s);
    if k + 1 >= s.len() {
        seq![first_value(s)]
    } else {
        seq![first_value(s)] + decode(s.subrange(k + 1, s.len() as int))
    }
}

pub proof fn lemma_token_end(s: Seq<char>)
    ensures
        token_end(s) <= s.len(),
        forall|j: int| 0 <= j < token_end(s) ==> s[j] != ':',
        token_end(s) < s.len() ==> s[token_end(s) as int] == ':',
    decreases s.len(),
{
    if s.len() > 0 && s[0] != ':' {
        lemma_token_end(s.drop_first());
        assert forall|j: int| 0 <= j < token_end(s) implies s[j] != ':' by {
            if j > 0 {
                assert(s[j] == s.drop_first()[j - 1]);
            }
        }
    }
}

/// The first colon is the only position with no colon before it and a colon
/// (or the end) at it.
pub proof fn lemma_token_end_unique(s: Seq<char>, k: int)
    requires
        0 <= k <= s.len(),
        forall|j: int| 0 <= j < k ==> s[j] != ':',
        k == s.len() || s[k] == ':',
    ensures
        token_end(s) == k,
{
    lemma_token_end(s);
}

proof fn lemma_digits_value_nonneg(s: Seq<char>)
    requires
        all_digits(s),
    ensures
        digits_value(s) >= 0,
    decreases s.len(),
{
    if s.len() > 0 {
        lemma_digits_value_nonneg(s.drop_last());
    }
}

proof fn lemma_digits_value_grows(s: Seq<char>, k: int)
    requires
        all_digits(s),
        0 <= k <= s.len(),
    ensures
        digits_value(s) >= digits_value(s.subrange(0, k)),
    decreases s.len(),
{
    if k < s.len() {
        assert(s.drop_last().subrange(0, k) =~= s.subrange(0, k));
        lemma_digits_value_grows(s.drop_last(), k);
        lemma_digits_value_nonneg(s.drop_last());
    } else {
        assert(s.subrange(0, k) =~= s);
    }
}

/// Index of the first `:` in `s`, or its length.
pub(crate) fn find_colon(s: &str) -> (r: usize)
    ensures
        r == token_end(s@),
{
    let n = s.unicode_len();
    let mut i: usize = 0;
    while i < n
        invariant
            n == s@.len(),
            i <= n,
            forall|j: int| 0 <= j < i ==> s@[j] != ':',
        decreases n - i,
    {
        if s.get_char(i) == ':' {
            proof {
                lemma_token_end_unique(s@, i as int);
            }
            return i;
        }
        i = i + 1;
    }
    proof {
        lemma_token_end_unique(s@, i as int);
    }
    i
}

/// Decodes a signed decimal `i32`: an optional sign, then digits only.
pub(crate) fn parse_i32(s: &str) -> (r: Option<i32>)
    ensures
        r == i32_value(s@),
{
    let n = s.unicode_len();
    if n == 0 {
        return None;
    }
    let c0 = s.get_char(0);
    let negative = c0 == '-';
    let start: usize = if c0 == '-' || c0 == '+' {
        1
    } else {
        0
    };
    if start == n {
        return None;
    }
    let ghost body = s@.subrange(start as int, n as int);
    assert(start == 1 ==> body =~= s@.drop_first());
    assert(start == 0 ==> body =~= s@);
    let ghost expected = if body.len() > 0 && all_digits(body) {
        Some(
            if negative {
                -digits_value(body)
            } else {
                digits_value(body)
            },
        )
    } else {
        None::<int>
    };
    assert(int_value(s@) == expected);
    let mut acc: i64 = 0;
    let mut i: usize = start;
    while i < n
        invariant
            n == s@.len(),
            start <= i <= n,
            body == s@.subrange(start as int, n as int),
            int_value(s@) == expected,
            expected == if body.len() > 0 && all_digits(body) {
                Some(
                    if negative {
                        -digits_value(body)
                    } else {
                        digits_value(body)
                    },
                )
            } else {
                None::<int>
            },
            all_digits(s@.subrange(start as int, i as int)),
            acc == digits_value(s@.subrange(start as int, i as int)),
            0 <= acc <= 2147483648,
        decreases n - i,
    {
        let c = s.get_char(i);
        let v = c as u32;
        if v < 48 || v > 57 {
            assert(!all_digits(body)) by {
                assert(body[i - start] == c);
                assert(!is_digit(c));
            }
            return None;
        }
        let ghost prev = s@.subrange(start as int, i as int);
        let ghost next = s@.subrange(start as int, i + 1);
        assert(next.drop_last() =~= prev);
        acc = acc * 10 + (v - 48) as i64;
        i = i + 1;
        if acc > 2147483648 {
            proof {
                assert(all_digits(next));
                if all_digits(body) {
                    assert(body.subrange(0, (i - start) as int) =~= next);
                    lemma_digits_value_grows(body, (i - start) as int);
                }
            }
            return None;
        }
    }
    assert(s@.subrange(start as int, n as int) =~= body);
    if negative {
        Some((-acc) as i32)
    } else if acc <= 2147483647 {
        Some(acc as i32)
    } else {
        None
    }
}

} // verus!
