//! Reading decimal numbers (as IBKR writes amounts, prices and quantities) into the
//! library's fixed-point representation: four decimals, truncated toward zero.

use vstd::prelude::*;

use crate::model::PRICE_SCALE;
use crate::numparse::all_digits;
use crate::update::{digits_value, is_digit, lemma_digits_value_push};

verus! {

/// Position of the first `.` in `s`.
pub open spec fn dot_at(s: Seq<char>) -> Option<int>
    decreases s.len(),
{
    if s.len() == 0 {
        None
    } else if s[0] == '.' {
        Some(0)
    } else {
        match dot_at(s.drop_first()) {
            Some(i) => Some(i + 1),
            None => None,
        }
    }
}

/// The sign and the unsigned part of a number's text.
pub open spec fn sign_split(s: Seq<char>) -> (bool, Seq<char>) {
    if s.len() > 0 && s[0] == '-' {
        (true, s.drop_first())
    } else if s.len() > 0 && s[0] == '+' {
        (false, s.drop_first())
    } else {
        (false, s)
    }
}

/// The first four decimals of the fraction digits `f` (missing ones are zeros), as an
/// integer in `[0, 10^4)`.
pub open spec fn frac4(f: Seq<char>) -> int {
    if f.len() >= 4 {
        digits_value(f.take(4)) as int
    } else if f.len() == 3 {
        (digits_value(f) * 10) as int
    } else if f.len() == 2 {
        (digits_value(f) * 100) as int
    } else if f.len() == 1 {
        (digits_value(f) * 1000) as int
    } else {
        0
    }
}

/// The fixed-point value of a decimal text: an optional sign, digits, and optionally a
/// `.` and more digits (at least one digit in all); decimals beyond the fourth are
/// dropped (truncation toward zero). `None` for any other text, or a value out of `i64`.
pub open spec fn fixed_parse(s: Seq<char>) -> Option<int> {
    let (neg, body) = sign_split(s);
    let (ip, fp) = match dot_at(body) {
        Some(d) => (body.take(d), body.skip(d + 1)),
        None => (body, Seq::<char>::empty()),
    };
    if ip.len() + fp.len() == 0 || !all_digits(ip) || !all_digits(fp) {
        None
    } else {
        let mag = digits_value(ip) * PRICE_SCALE + frac4(fp);
        if mag > i64::MAX {
            None
        } else if neg {
            Some(-mag)
        } else {
            Some(mag)
        }
    }
}

proof fn lemma_dot_at(s: Seq<char>)
    ensures
        dot_at(s) matches Some(d) ==> 0 <= d < s.len() && s[d] == '.' && forall|j: int| 0 <= j < d ==> s[j] != '.',
        dot_at(s) is None ==> forall|j: int| 0 <= j < s.len() ==> s[j] != '.',
    decreases s.len(),
{
    if s.len() > 0 && s[0] != '.' {
        lemma_dot_at(s.drop_first());
        assert forall|j: int| 0 < j < s.len() implies s[j] == s.drop_first()[j - 1] by {}
    }
}

proof fn lemma_dot_at_unique(s: Seq<char>, d: int)
    requires
        0 <= d < s.len(),
        s[d] == '.',
        forall|j: int| 0 <= j < d ==> s[j] != '.',
    ensures
        dot_at(s) == Some(d),
    decreases s.len(),
{
    if d > 0 {
        assert forall|j: int| 0 <= j < d - 1 implies s.drop_first()[j] != '.' by {
            assert(s.drop_first()[j] == s[j + 1]);
        }
        lemma_dot_at_unique(s.drop_first(), d - 1);
    }
}

/// Parse a decimal text into fixed-point, as [`fixed_parse`] reads it.
pub fn parse_fixed(s: &str) -> (r: Option<i64>)
    ensures
        match fixed_parse(s@) {
            Some(v) => r == Some(v as i64),
            None => r is None,
        },
{
    let n = s.unicode_len();
    let ghost sp = sign_split(s@);
    let (neg, start): (bool, usize) = if n > 0 && s.get_char(0) == '-' {
        (true, 1)
    } else if n > 0 && s.get_char(0) == '+' {
        (false, 1)
    } else {
        (false, 0)
    };
    let ghost body = s@.skip(start as int);
    proof {
        if start == 1 {
            assert(body =~= s@.drop_first());
        } else {
            assert(body =~= s@);
        }
        assert(sp.0 == neg && sp.1 == body);
    }
    let cap: u128 = 0x1_0000_0000_0000_0000;
    // integer digits
    let mut i = start;
    let mut ip: u128 = 0;
    proof {
        assert(body.take(0) =~= Seq::<char>::empty());
    }
    while i < n && s.get_char(i) != '.'
        invariant
            n == s@.len(),
            start <= i <= n,
            body == s@.skip(start as int),
            sign_split(s@).1 == body,
            cap == 0x1_0000_0000_0000_0000u128,
            forall|j: int| 0 <= j < i - start ==> body[j] != '.',
            all_digits(body.take(i - start)),
            ip == (if digits_value(body.take(i - start)) > cap {
                cap as int
            } else {
                digits_value(body.take(i - start)) as int
            }),
        decreases n - i,
    {
        let c = s.get_char(i);
        proof {
            assert(body[i - start] == c);
        }
        if c < '0' || c > '9' {
            proof {
                lemma_dot_at(body);
                // no dot before i, and a non-digit at i: the integer part is not all digits
                match dot_at(body) {
                    Some(d) => {
                        assert(d > i - start);
                        assert(body.take(d)[i - start] == c);
                        assert(!all_digits(body.take(d)));
                    },
                    None => {
                        assert(!all_digits(body));
                    },
                }
                assert(fixed_parse(s@) is None);
            }
            return None;
        }
        proof {
            assert(body.take(i - start + 1) =~= body.take(i - start).push(c));
            lemma_digits_value_push(body.take(i - start), c);
            assert(all_digits(body.take(i - start + 1)));
        }
        let dv = (c as u32 - 48) as u128;
        ip = if ip >= cap {
            cap
        } else {
            let v = ip * 10 + dv;
            if v > cap {
                cap
            } else {
                v
            }
        };
        i = i + 1;
    }
    let int_len = i - start;
    let ghost ipart = body.take(int_len as int);
    let has_dot = i < n;
    proof {
        lemma_dot_at(body);
        if has_dot {
            assert(body[int_len as int] == '.');
            lemma_dot_at_unique(body, int_len as int);
        } else {
            assert(body.take(int_len as int) =~= body);
            assert forall|j: int| 0 <= j < body.len() implies body[j] != '.' by {}
            if dot_at(body) is Some {
                let d = dot_at(body)->0;
                assert(body[d] == '.');
            }
        }
    }
    // fraction digits
    let mut fp: u64 = 0;
    let mut flen: usize = 0;
    let ghost fpart: Seq<char> = if has_dot {
        body.skip(int_len + 1)
    } else {
        Seq::<char>::empty()
    };
    if has_dot {
        let fstart = i + 1;
        let mut j = fstart;
        proof {
            assert(fpart =~= s@.skip(fstart as int));
            assert(fpart.take(0) =~= Seq::<char>::empty());
        }
        while j < n
            invariant
                n == s@.len(),
                fstart <= j <= n,
                fpart == s@.skip(fstart as int),
                sign_split(s@).1 == body,
                dot_at(body) == Some(int_len as int),
                fpart == body.skip(int_len + 1),
                all_digits(fpart.take(j - fstart)),
                flen == (if j - fstart < 4 {
                    j - fstart
                } else {
                    4
                }),
                fp == digits_value(fpart.take(flen as int)),
                fp < 10000,
            decreases n - j,
        {
            let c = s.get_char(j);
            proof {
                assert(fpart[j - fstart] == c);
            }
            if c < '0' || c > '9' {
                proof {
                    assert(!all_digits(fpart));
                    assert(fixed_parse(s@) is None);
                }
                return None;
            }
            proof {
                assert(fpart.take(j - fstart + 1) =~= fpart.take(j - fstart).push(c));
                assert(all_digits(fpart.take(j - fstart + 1)));
            }
            if flen < 4 {
                proof {
                    assert(fpart.take(flen + 1) =~= fpart.take(flen as int).push(c));
                    lemma_digits_value_push(fpart.take(flen as int), c);
                    assert(digits_value(fpart.take(flen as int)) < pow10_small(flen as int)) by {
                        lemma_digits_bound(fpart.take(flen as int));
                    }
                }
                fp = fp * 10 + (c as u32 - 48) as u64;
                flen = flen + 1;
                proof {
                    lemma_digits_bound(fpart.take(flen as int));
                }
            }
            j = j + 1;
        }
        proof {
            assert(fpart.take(j - fstart) =~= fpart);
        }
    } else {
        proof {
            assert(fpart.take(0) =~= Seq::<char>::empty());
        }
    }
    proof {
        assert(ipart == body.take(int_len as int));
        assert(all_digits(fpart));
        if fpart.len() >= 4 {
            assert(flen == 4);
        } else {
            assert(flen == fpart.len());
            assert(fpart.take(flen as int) =~= fpart);
        }
    }
    if int_len == 0 && flen == 0 {
        proof {
            assert(fpart.len() == 0);
        }
        return None;
    }
    let scale: u64 = if flen == 0 {
        10000
    } else if flen == 1 {
        1000
    } else if flen == 2 {
        100
    } else if flen == 3 {
        10
    } else {
        1
    };
    let frac = fp * scale;
    proof {
        assert(frac == frac4(fpart));
    }
    if ip > 922337203685477 {
        proof {
            assert(digits_value(ipart) * PRICE_SCALE + frac4(fpart) > i64::MAX);
        }
        return None;
    }
    let mag: u128 = ip * 10000 + frac as u128;
    if mag > i64::MAX as u128 {
        return None;
    }
    if neg {
        Some(-(mag as i64))
    } else {
        Some(mag as i64)
    }
}

pub open spec fn pow10_small(k: int) -> int {
    if k <= 0 {
        1
    } else if k == 1 {
        10
    } else if k == 2 {
        100
    } else if k == 3 {
        1000
    } else {
        10000
    }
}

proof fn lemma_digits_bound(d: Seq<char>)
    requires
        all_digits(d),
        d.len() <= 4,
    ensures
        digits_value(d) < pow10_small(d.len() as int),
    decreases d.len(),
{
    if d.len() > 0 {
        let w = d.drop_last();
        assert(all_digits(w)) by {
            assert forall|i: int| 0 <= i < w.len() implies is_digit(#[trigger] w[i]) by {
                assert(w[i] == d[i]);
            }
        }
        lemma_digits_bound(w);
        assert(is_digit(d[d.len() - 1]));
    }
}

} // verus!
