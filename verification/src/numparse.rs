//! Decimal integer parsing with the grammar of `str::parse` for integers: an optional
//! sign, then one or more ASCII digits, the value in range.

use vstd::prelude::*;

use crate::update::{digits_value, is_digit, lemma_digits_value_push};

verus! {

/// Every character of `s` is an ASCII digit.
pub open spec fn all_digits(s: Seq<char>) -> bool {
    forall|i: int| 0 <= i < s.len() ==> is_digit(#[trigger] s[i])
}

/// `s` without one leading `c`, if it starts with one.
pub open spec fn strip_one(s: Seq<char>, c: char) -> Seq<char> {
    if s.len() > 0 && s[0] == c {
        s.drop_first()
    } else {
        s
    }
}

/// The value of a non-empty run of digits, or `None`.
pub open spec fn digits_only(s: Seq<char>) -> Option<nat> {
    if s.len() > 0 && all_digits(s) {
        Some(digits_value(s))
    } else {
        None
    }
}

/// What `str::parse` gives for an unsigned integer type whose largest value is `max`:
/// an optional `+`, then digits, the value at most `max`.
pub open spec fn parse_unsigned(s: Seq<char>, max: nat) -> Option<nat> {
    match digits_only(strip_one(s, '+')) {
        Some(v) => if v <= max {
            Some(v)
        } else {
            None
        },
        None => None,
    }
}

/// What `str::parse` gives for a signed integer type with range `min..=max`: an optional
/// `+` or `-`, then digits, the value in range.
pub open spec fn parse_signed(s: Seq<char>, min: int, max: int) -> Option<int> {
    if s.len() > 0 && s[0] == '-' {
        match digits_only(s.drop_first()) {
            Some(v) => if -v >= min {
                Some(-v)
            } else {
                None
            },
            None => None,
        }
    } else {
        match digits_only(strip_one(s, '+')) {
            Some(v) => if v <= max {
                Some(v as int)
            } else {
                None
            },
            None => None,
        }
    }
}

/// The digits of `s` from character `start` on, as a value capped at 2^64; `None` when
/// that part is empty or holds a non-digit.
fn scan_digits(s: &str, start: usize) -> (r: Option<u128>)
    requires
        start <= s@.len(),
    ensures
        r == (match digits_only(s@.skip(start as int)) {
            Some(v) => Some(
                (if v > 0x1_0000_0000_0000_0000 {
                    0x1_0000_0000_0000_0000
                } else {
                    v
                }) as u128,
            ),
            None => None,
        }),
{
    let n = s.unicode_len();
    let ghost rest = s@.skip(start as int);
    let cap: u128 = 0x1_0000_0000_0000_0000;
    if start >= n {
        proof {
            assert(rest.len() == 0);
        }
        return None;
    }
    let mut i = start;
    let mut acc: u128 = 0;
    proof {
        assert(rest.take(0) =~= Seq::<char>::empty());
    }
    while i < n
        invariant
            n == s@.len(),
            start <= i <= n,
            cap == 0x1_0000_0000_0000_0000u128,
            rest == s@.skip(start as int),
            forall|j: int| 0 <= j < i - start ==> is_digit(rest[j]),
            acc == (if digits_value(rest.take(i - start)) > cap {
                cap as int
            } else {
                digits_value(rest.take(i - start)) as int
            }),
        decreases n - i,
    {
        let c = s.get_char(i);
        if c < '0' || c > '9' {
            proof {
                assert(rest[i - start] == c);
                assert(!all_digits(rest));
            }
            return None;
        }
        let dv = (c as u32 - 48) as u128;
        proof {
            assert(rest[i - start] == c);
            assert(rest.take(i - start + 1) =~= rest.take(i - start).push(c));
            lemma_digits_value_push(rest.take(i - start), c);
        }
        acc = if acc >= cap {
            cap
        } else {
            let v = acc * 10 + dv;
            if v > cap {
                cap
            } else {
                v
            }
        };
        i = i + 1;
    }
    proof {
        assert(rest.take(i - start) =~= rest);
        assert(all_digits(rest));
    }
    Some(acc)
}

/// Parse an unsigned decimal integer no larger than `max`, as `str::parse` does.
pub fn parse_uint(s: &str, max: u64) -> (r: Option<u64>)
    ensures
        r == (match parse_unsigned(s@, max as nat) {
            Some(v) => Some(v as u64),
            None => None,
        }),
{
    let n = s.unicode_len();
    let start: usize = if n > 0 && s.get_char(0) == '+' {
        1
    } else {
        0
    };
    proof {
        assert(s@.skip(start as int) =~= strip_one(s@, '+'));
    }
    match scan_digits(s, start) {
        Some(v) => if v <= max as u128 {
            Some(v as u64)
        } else {
            None
        },
        None => None,
    }
}

/// Parse a signed decimal integer in `min..=max`, as `str::parse` does.
pub fn parse_int(s: &str, min: i64, max: i64) -> (r: Option<i64>)
    requires
        min <= 0 <= max,
    ensures
        r == (match parse_signed(s@, min as int, max as int) {
            Some(v) => Some(v as i64),
            None => None,
        }),
{
    let n = s.unicode_len();
    if n > 0 && s.get_char(0) == '-' {
        proof {
            assert(s@.skip(1) =~= s@.drop_first());
        }
        match scan_digits(s, 1) {
            Some(v) => {
                let lim: u128 = (0i128 - min as i128) as u128;
                if v <= lim {
                    let m = v as i128;
                    Some((0 - m) as i64)
                } else {
                    None
                }
            },
            None => None,
        }
    } else {
        let start: usize = if n > 0 && s.get_char(0) == '+' {
            1
        } else {
            0
        };
        proof {
            assert(s@.skip(start as int) =~= strip_one(s@, '+'));
        }
        match scan_digits(s, start) {
            Some(v) => if v <= max as u128 {
                Some(v as i64)
            } else {
                None
            },
            None => None,
        }
    }
}

} // verus!
