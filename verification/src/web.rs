//! What the client panel and the master API share: request paths, methods, JSON string
//! literals and the rendering of fixed-point amounts in JSON bodies.

use vstd::prelude::*;

use crate::model::PRICE_SCALE;
use crate::text::{decimal, push_decimal};

verus! {

/// The request methods the HTTP handlers tell apart.
#[derive(Debug, Clone, Copy, PartialEq, Eq, Structural)]
pub enum HttpMethod {
    Get,
    Post,
    Other,
}

/// The path of a request URL: everything before the first `?`.
pub open spec fn path_of(url: Seq<char>) -> Seq<char>
    decreases url.len(),
{
    if url.len() == 0 {
        url
    } else if url[0] == '?' {
        Seq::empty()
    } else {
        seq![url[0]] + path_of(url.drop_first())
    }
}

/// The path of a request URL.
pub fn request_path(url: &str) -> (r: &str)
    ensures
        r@ == path_of(url@),
{
    let n = url.unicode_len();
    let mut i: usize = 0;
    proof {
        assert(url@.take(0) =~= Seq::<char>::empty());
        assert(url@.skip(0) =~= url@);
        assert(Seq::<char>::empty() + path_of(url@) =~= path_of(url@));
    }
    while i < n && url.get_char(i) != '?'
        invariant
            n == url@.len(),
            i <= n,
            path_of(url@) == url@.take(i as int) + path_of(url@.skip(i as int)),
        decreases n - i,
    {
        proof {
            let rest = url@.skip(i as int);
            assert(rest[0] == url@[i as int]);
            assert(rest.drop_first() =~= url@.skip(i + 1));
            assert(url@.take(i + 1) =~= url@.take(i as int).push(url@[i as int]));
            assert(url@.take(i as int) + (seq![rest[0]] + path_of(rest.drop_first())) =~= url@.take(
                i + 1,
            ) + path_of(url@.skip(i + 1)));
        }
        i = i + 1;
    }
    proof {
        let rest = url@.skip(i as int);
        if i < n {
            assert(rest[0] == '?');
        }
        assert(path_of(rest) =~= Seq::<char>::empty());
        assert(url@.take(i as int) + Seq::<char>::empty() =~= url@.take(i as int));
    }
    url.substring_char(0, i)
}

/// ASCII lower case of a character.
pub open spec fn ascii_lower(c: char) -> char {
    if 'A' <= c <= 'Z' {
        ((c as u32) + 32) as char
    } else {
        c
    }
}

/// `a` and `b` are equal ignoring ASCII case (what `str::eq_ignore_ascii_case` tests).
pub open spec fn eq_ascii_nocase(a: Seq<char>, b: Seq<char>) -> bool {
    a.len() == b.len() && forall|i: int| 0 <= i < a.len() ==> ascii_lower(#[trigger] a[i]) == ascii_lower(b[i])
}

fn lower_char(c: char) -> (r: char)
    ensures
        r == ascii_lower(c),
{
    if 'A' <= c && c <= 'Z' {
        let b = c as u8;
        proof {
            assert(b == c as u32);
        }
        (b + 32) as char
    } else {
        c
    }
}

/// Whether two strings are equal ignoring ASCII case.
pub fn eq_ignore_ascii_case(a: &str, b: &str) -> (r: bool)
    ensures
        r == eq_ascii_nocase(a@, b@),
{
    let n = a.unicode_len();
    if n != b.unicode_len() {
        return false;
    }
    let mut i: usize = 0;
    while i < n
        invariant
            n == a@.len(),
            n == b@.len(),
            i <= n,
            forall|j: int| 0 <= j < i ==> ascii_lower(#[trigger] a@[j]) == ascii_lower(b@[j]),
        decreases n - i,
    {
        if lower_char(a.get_char(i)) != lower_char(b.get_char(i)) {
            return false;
        }
        i = i + 1;
    }
    true
}

// ── JSON ─────────────────────────────────────────────────────────────────────

/// A lowercase hexadecimal digit.
pub open spec fn hex_lower(n: int) -> char {
    if n < 10 {
        (n + 48) as char
    } else {
        (n - 10 + 97) as char
    }
}

/// One character inside a JSON string literal: `"` and `\` after a backslash; backspace,
/// tab, line feed, form feed and carriage return as `\b`, `\t`, `\n`, `\f`, `\r`; any
/// other character below U+0020 as `\u00xx` in lowercase hex; every other character as
/// it is.
pub open spec fn json_char(c: char) -> Seq<char> {
    if c == '"' {
        seq!['\\', '"']
    } else if c == '\\' {
        seq!['\\', '\\']
    } else if c == '\u{8}' {
        seq!['\\', 'b']
    } else if c == '\t' {
        seq!['\\', 't']
    } else if c == '\n' {
        seq!['\\', 'n']
    } else if c == '\u{c}' {
        seq!['\\', 'f']
    } else if c == '\r' {
        seq!['\\', 'r']
    } else if (c as int) < 0x20 {
        seq!['\\', 'u', '0', '0', hex_lower(c as int / 16), hex_lower(c as int % 16)]
    } else {
        seq![c]
    }
}

/// The characters of `s`, each written as inside a JSON string literal.
pub open spec fn json_body(s: Seq<char>) -> Seq<char>
    decreases s.len(),
{
    if s.len() == 0 {
        Seq::empty()
    } else {
        json_body(s.drop_last()) + json_char(s.last())
    }
}

/// The JSON string literal of `s`, as `serde_json` writes it: a quote, each character
/// in turn, a closing quote.
pub open spec fn json_string(s: Seq<char>) -> Seq<char> {
    seq!['"'] + json_body(s) + seq!['"']
}

/// `serde_json::to_string` of a `&str`. Trusted: its result is the JSON string literal of
/// the argument, as `format_escaped_str` writes it through serde_json's escape table
/// (`json_string`); serialising a `&str` into memory does not fail, so the `""` fallback
/// of the error branch is never taken.
#[verifier::external_body]
pub(crate) fn json_quote(s: &str) -> (r: String)
    ensures
        r@ == json_string(s@),
{
    serde_json::to_string(s).unwrap_or_else(|_| "\"\"".to_string())
}

/// `true` / `false`.
pub open spec fn bool_text(b: bool) -> Seq<char> {
    if b {
        "true"@
    } else {
        "false"@
    }
}

pub fn push_bool(out: &mut String, b: bool)
    ensures
        final(out)@ == old(out)@ + bool_text(b),
{
    proof {
        reveal_strlit("true");
        reveal_strlit("false");
    }
    if b {
        out.append("true");
    } else {
        out.append("false");
    }
}

/// The four decimals of `f / 10^4` (`0 < f < 10^4`), without trailing zeros.
pub open spec fn frac_text(f: int) -> Seq<char> {
    let c1 = crate::text::digit_char((f / 1000) as nat);
    let c2 = crate::text::digit_char(((f / 100) % 10) as nat);
    let c3 = crate::text::digit_char(((f / 10) % 10) as nat);
    let c4 = crate::text::digit_char((f % 10) as nat);
    if f % 1000 == 0 {
        seq![c1]
    } else if f % 100 == 0 {
        seq![c1, c2]
    } else if f % 10 == 0 {
        seq![c1, c2, c3]
    } else {
        seq![c1, c2, c3, c4]
    }
}

/// A fixed-point amount written the way `{}` writes the same amount as a float: the whole
/// part, then, when there is a fraction, a `.` and its digits without trailing zeros;
/// a `-` in front of a negative amount.
pub open spec fn amount_text(v: int) -> Seq<char> {
    let a = if v < 0 {
        -v
    } else {
        v
    };
    let whole = a / PRICE_SCALE as int;
    let frac = a % PRICE_SCALE as int;
    (if v < 0 {
        seq!['-']
    } else {
        Seq::empty()
    }) + decimal(whole as nat) + (if frac == 0 {
        Seq::empty()
    } else {
        seq!['.'] + frac_text(frac)
    })
}

/// Append a fixed-point amount written as [`amount_text`] describes.
pub fn push_amount(out: &mut String, v: i64)
    ensures
        final(out)@ == old(out)@ + amount_text(v as int),
{
    let a: u64 = if v < 0 {
        if v == i64::MIN {
            9223372036854775808u64
        } else {
            (-v) as u64
        }
    } else {
        v as u64
    };
    let ghost start = out@;
    proof {
        reveal_strlit("-");
        reveal_strlit(".");
    }
    if v < 0 {
        out.append("-");
    }
    push_decimal(out, a / 10000);
    let frac = a % 10000;
    if frac != 0 {
        out.append(".");
        out.append(crate::text::digit_str(frac / 1000));
        if frac % 1000 != 0 {
            out.append(crate::text::digit_str((frac / 100) % 10));
            if frac % 100 != 0 {
                out.append(crate::text::digit_str((frac / 10) % 10));
                if frac % 10 != 0 {
                    out.append(crate::text::digit_str(frac % 10));
                }
            }
        }
    }
    proof {
        assert(out@ =~= start + amount_text(v as int));
    }
}

} // verus!
