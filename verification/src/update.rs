//! Update check: version comparison and release evaluation.
//!
//! The caller fetches the latest release description; this module decides whether it is
//! newer than the running build and which asset belongs to this app.

use vstd::prelude::*;

use crate::text::{contains_seq, contains_str, ends_with_seq, ends_with_str, lowercase, to_lowercase,
    trim, trim_start_char, trim_start_matches_char, trim_str};

verus! {

/// The latest release found by an update check.
#[derive(Debug)]
pub struct UpdateInfo {
    /// Latest version (without a leading `v`).
    pub version: String,
    /// Direct download URL for this app's executable asset. Kept internal — never shown.
    pub asset_url: String,
}

impl Default for UpdateInfo {
    fn default() -> (r: UpdateInfo)
        ensures
            r.version@ == Seq::<char>::empty(),
            r.asset_url@ == Seq::<char>::empty(),
    {
        UpdateInfo { version: String::new(), asset_url: String::new() }
    }
}

/// The index of the first `.` in `s`.
pub open spec fn first_dot(s: Seq<char>) -> Option<int>
    decreases s.len(),
{
    if s.len() == 0 {
        None
    } else if s[0] == '.' {
        Some(0)
    } else {
        match first_dot(s.drop_first()) {
            Some(i) => Some(i + 1),
            None => None,
        }
    }
}

/// The text from the start of the `k`-th `.`-separated segment to the end, if the
/// segment exists.
pub open spec fn rest_at(s: Seq<char>, k: nat) -> Option<Seq<char>>
    decreases k,
{
    if k == 0 {
        Some(s)
    } else {
        match rest_at(s, (k - 1) as nat) {
            Some(r) => match first_dot(r) {
                Some(i) => Some(r.skip(i + 1)),
                None => None,
            },
            None => None,
        }
    }
}

pub open spec fn is_digit(c: char) -> bool {
    '0' <= c && c <= '9'
}

/// The leading ASCII digits of `s`.
pub open spec fn digit_prefix(s: Seq<char>) -> Seq<char>
    decreases s.len(),
{
    if s.len() > 0 && is_digit(s[0]) {
        seq![s[0]] + digit_prefix(s.drop_first())
    } else {
        Seq::empty()
    }
}

/// The value of a string of decimal digits.
pub open spec fn digits_value(ds: Seq<char>) -> nat
    decreases ds.len(),
{
    if ds.len() == 0 {
        0
    } else {
        digits_value(ds.drop_last()) * 10 + ((ds.last() as u32) - 48) as nat
    }
}

/// One version field: the segment's leading digits as a `u64`, or 0 when there are none,
/// when they overflow, or when the segment is missing.
pub open spec fn field_value(s: Seq<char>, k: nat) -> u64 {
    match rest_at(s, k) {
        Some(r) => {
            let ds = digit_prefix(r);
            if ds.len() == 0 || digits_value(ds) > u64::MAX {
                0
            } else {
                digits_value(ds) as u64
            }
        },
        None => 0,
    }
}

/// The `(major, minor, patch)` triple of a version string: trimmed, leading `v`s removed,
/// split on `.`.
pub open spec fn version_triple(v: Seq<char>) -> (u64, u64, u64) {
    let s = trim_start_char(trim(v), 'v');
    (field_value(s, 0), field_value(s, 1), field_value(s, 2))
}

/// Lexicographic order on version triples.
pub open spec fn triple_gt(a: (u64, u64, u64), b: (u64, u64, u64)) -> bool {
    a.0 > b.0 || (a.0 == b.0 && (a.1 > b.1 || (a.1 == b.1 && a.2 > b.2)))
}

/// `a` names a strictly newer version than `b`.
pub open spec fn version_gt_spec(a: Seq<char>, b: Seq<char>) -> bool {
    triple_gt(version_triple(a), version_triple(b))
}

proof fn lemma_first_dot_bounds(s: Seq<char>)
    ensures
        first_dot(s) matches Some(i) ==> 0 <= i < s.len() && s[i] == '.',
        first_dot(s) matches Some(i) ==> forall|j: int| 0 <= j < i ==> s[j] != '.',
        first_dot(s) is None ==> forall|j: int| 0 <= j < s.len() ==> s[j] != '.',
    decreases s.len(),
{
    if s.len() > 0 && s[0] != '.' {
        lemma_first_dot_bounds(s.drop_first());
        if let Some(i) = first_dot(s.drop_first()) {
            assert forall|j: int| 0 <= j < i + 1 implies s[j] != '.' by {
                if j > 0 {
                    assert(s[j] == s.drop_first()[j - 1]);
                }
            }
        } else {
            assert forall|j: int| 0 <= j < s.len() implies s[j] != '.' by {
                if j > 0 {
                    assert(s[j] == s.drop_first()[j - 1]);
                }
            }
        }
    }
}

proof fn lemma_first_dot_skip(s: Seq<char>, i: int)
    requires
        0 <= i <= s.len(),
        forall|j: int| 0 <= j < i ==> s[j] != '.',
    ensures
        first_dot(s) == (match first_dot(s.skip(i)) {
            Some(k) => Some(k + i),
            None => None,
        }),
    decreases i,
{
    if i > 0 {
        assert(s.skip(1) =~= s.drop_first());
        lemma_first_dot_skip(s.drop_first(), i - 1);
        assert(s.drop_first().skip(i - 1) =~= s.skip(i));
    } else {
        assert(s.skip(0) =~= s);
    }
}

proof fn lemma_digit_prefix_skip(s: Seq<char>, i: int)
    requires
        0 <= i <= s.len(),
        forall|j: int| 0 <= j < i ==> is_digit(s[j]),
    ensures
        digit_prefix(s) == s.take(i) + digit_prefix(s.skip(i)),
    decreases i,
{
    if i > 0 {
        lemma_digit_prefix_skip(s.drop_first(), i - 1);
        assert(s.drop_first().skip(i - 1) =~= s.skip(i));
        assert(s.take(i) =~= seq![s[0]] + s.drop_first().take(i - 1));
    } else {
        assert(s.take(0) =~= Seq::<char>::empty());
        assert(s.skip(0) =~= s);
    }
}

/// Digit values only grow as digits are appended.
pub proof fn lemma_digits_value_push(ds: Seq<char>, c: char)
    requires
        is_digit(c),
    ensures
        digits_value(ds.push(c)) == digits_value(ds) * 10 + ((c as u32) - 48) as nat,
{
    assert(ds.push(c).drop_last() =~= ds);
}

/// The value of one field starting at character `start` of `s` (capped at 2^64), and the
/// position just past its `.` (or `None` when it is the last segment).
fn scan_field(s: &str, start: usize) -> (r: (u64, Option<usize>))
    requires
        start <= s@.len(),
    ensures
        ({
            let rest = s@.skip(start as int);
            let ds = digit_prefix(rest);
            &&& r.0 == (if ds.len() == 0 || digits_value(ds) > u64::MAX {
                0
            } else {
                digits_value(ds) as u64
            })
            &&& match first_dot(rest) {
                Some(i) => r.1 matches Some(p) && p as int == start + i + 1,
                None => r.1 is None,
            }
        }),
{
    let n = s.unicode_len();
    let ghost rest = s@.skip(start as int);
    let mut i = start;
    let mut acc: u128 = 0;
    let cap: u128 = 0x1_0000_0000_0000_0000;
    proof {
        assert(rest.take(0) =~= Seq::<char>::empty());
    }
    while i < n && '0' <= s.get_char(i) && s.get_char(i) <= '9'
        invariant
            n == s@.len(),
            start <= i <= n,
            cap == 0x1_0000_0000_0000_0000u128,
            rest == s@.skip(start as int),
            forall|j: int| 0 <= j < i - start ==> is_digit(rest[j]),
            acc == (if digits_value(rest.take(i - start)) > cap {
                cap as int
            } else {
                digits_value(rest.take(i - start)) as int
            }),
        decreases n - i,
    {
        let c = s.get_char(i);
        let dv = (c as u32 - 48) as u128;
        proof {
            assert(rest[i - start] == c);
            assert(rest.take(i - start + 1) =~= rest.take(i - start).push(c));
            lemma_digits_value_push(rest.take(i - start), c);
        }
        acc = if acc >= cap {
            cap
        } else {
            let v = acc * 10 + dv;
            if v > cap {
                cap
            } else {
                v
            }
        };
        i = i + 1;
    }
    proof {
        lemma_digit_prefix_skip(rest, i - start);
        let tail = rest.skip(i - start);
        assert(tail.len() == 0 || !is_digit(tail[0]));
        assert(digit_prefix(tail) =~= Seq::<char>::empty());
        assert(digit_prefix(rest) =~= rest.take(i - start));
    }
    let digits_len = i - start;
    let value: u64 = if digits_len == 0 || acc > u64::MAX as u128 {
        0
    } else {
        acc as u64
    };
    // Find the end of the segment.
    while i < n && s.get_char(i) != '.'
        invariant
            n == s@.len(),
            start <= i <= n,
            rest == s@.skip(start as int),
            forall|j: int| 0 <= j < i - start ==> rest[j] != '.' || is_digit(rest[j]),
        decreases n - i,
    {
        i = i + 1;
    }
    proof {
        assert forall|j: int| 0 <= j < i - start implies rest[j] != '.' by {
            if is_digit(rest[j]) {
            }
        }
        lemma_first_dot_skip(rest, i - start);
        assert(rest.skip(i - start) =~= s@.skip(i as int));
        if i < n {
            assert(s@.skip(i as int)[0] == '.');
            assert(first_dot(s@.skip(i as int)) == Some(0int));
        } else {
            assert(s@.skip(i as int).len() == 0);
        }
    }
    if i < n {
        (value, Some(i + 1))
    } else {
        (value, None)
    }
}

/// Parse a version string into `(major, minor, patch)`: trimmed, leading `v`s removed,
/// split on `.`, each field's leading digits (0 when missing, empty, or too large).
pub fn parse(v: &str) -> (r: (u64, u64, u64))
    ensures
        r == version_triple(v@),
{
    let s = trim_start_matches_char(trim_str(v), 'v');
    let ghost sv = s@;
    proof {
        assert(s@.skip(0) =~= s@);
    }
    let (a, next) = scan_field(s, 0);
    let (b, next2) = match next {
        Some(p) => {
            proof {
                lemma_first_dot_bounds(sv);
                assert(rest_at(sv, 0) == Some(sv));
                let i0 = first_dot(sv)->0;
                assert(p == i0 + 1);
                assert(rest_at(sv, 1) == Some(sv.skip(i0 + 1)));
            }
            scan_field(s, p)
        },
        None => (0, None),
    };
    let c: u64 = match next2 {
        Some(p) => {
            proof {
                let p1 = next->0;
                lemma_first_dot_bounds(sv);
                assert(rest_at(sv, 0) == Some(sv));
                let i0 = first_dot(sv)->0;
                assert(p1 == i0 + 1);
                assert(rest_at(sv, 1) == Some(sv.skip(p1 as int)));
                let r1 = sv.skip(p1 as int);
                lemma_first_dot_bounds(r1);
                let i1 = first_dot(r1)->0;
                assert(p == p1 + i1 + 1);
                assert(r1.skip(i1 + 1) =~= sv.skip(p as int));
                assert(rest_at(sv, 2) == Some(sv.skip(p as int)));
            }
            scan_field(s, p).0
        },
        None => 0,
    };
    proof {
        if next is None {
            assert(rest_at(sv, 1) is None);
            assert(rest_at(sv, 2) is None);
        } else if next2 is None {
            let p1 = next->0;
            lemma_first_dot_bounds(sv);
            assert(rest_at(sv, 1) == Some(sv.skip(p1 as int)));
            assert(rest_at(sv, 2) is None);
        }
    }
    (a, b, c)
}

/// `a` names a strictly newer version than `b`.
pub fn version_gt(a: &str, b: &str) -> (r: bool)
    ensures
        r == version_gt_spec(a@, b@),
{
    let x = parse(a);
    let y = parse(b);
    x.0 > y.0 || (x.0 == y.0 && (x.1 > y.1 || (x.1 == y.1 && x.2 > y.2)))
}

/// One asset of a release, as the release feed describes it.
#[derive(Debug)]
pub struct ReleaseAsset {
    pub name: Option<String>,
    pub browser_download_url: Option<String>,
}

/// The parts of a release description the update check reads.
#[derive(Debug)]
pub struct ReleaseInfo {
    pub tag_name: Option<String>,
    pub assets: Vec<ReleaseAsset>,
}

/// An asset's name, lower-cased (empty when absent).
pub open spec fn asset_name_lower(a: ReleaseAsset) -> Seq<char> {
    match a.name {
        Some(n) => lowercase(n@),
        None => lowercase(Seq::empty()),
    }
}

/// The asset belongs to this app: its lower-cased name contains the lower-cased hint
/// and ends with `.exe`.
pub open spec fn asset_matches(a: ReleaseAsset, hint: Seq<char>) -> bool {
    name_matches_lower(asset_name_lower(a), lowercase(hint))
}

/// A lower-cased asset name matches a lower-cased hint: it contains the hint and ends
/// with `.exe`.
pub open spec fn name_matches_lower(name: Seq<char>, hint: Seq<char>) -> bool {
    contains_seq(name, hint) && ends_with_seq(name, ".exe"@)
}

/// Whether a lower-cased asset name matches a lower-cased hint.
pub fn lower_name_matches(name: &str, hint: &str) -> (r: bool)
    ensures
        r == name_matches_lower(name@, hint@),
{
    proof {
        reveal_strlit(".exe");
    }
    contains_str(name, hint) && ends_with_str(name, ".exe")
}

/// The download URL of the first matching asset (empty when none matches).
pub open spec fn chosen_asset_url(assets: Seq<ReleaseAsset>, hint: Seq<char>) -> Seq<char>
    decreases assets.len(),
{
    if assets.len() == 0 {
        Seq::empty()
    } else if asset_matches(assets[0], hint) {
        match assets[0].browser_download_url {
            Some(u) => u@,
            None => Seq::empty(),
        }
    } else {
        chosen_asset_url(assets.drop_first(), hint)
    }
}

/// Decide what a release description means for a build at version `current`: `None`
/// when it has no tag or is not newer; otherwise the new version (leading `v`s removed)
/// and the first asset URL whose name contains `asset_hint` and ends with `.exe`.
pub fn evaluate_release(release: &ReleaseInfo, current: &str, asset_hint: &str) -> (r: Option<
    UpdateInfo,
>)
    ensures
        match release.tag_name {
            None => r is None,
            Some(tag) => if !version_gt_spec(tag@, current@) {
                r is None
            } else {
                r matches Some(info) && info.version@ == trim_start_char(tag@, 'v')
                    && info.asset_url@ == chosen_asset_url(release.assets@, asset_hint@)
            },
        },
{
    let tag = match &release.tag_name {
        Some(t) => t,
        None => {
            return None;
        },
    };
    if !version_gt(tag.as_str(), current) {
        return None;
    }
    let hint = to_lowercase(asset_hint);
    let mut asset_url = String::new();
    let n = release.assets.len();
    let mut i: usize = 0;
    proof {
        assert(release.assets@.skip(0) =~= release.assets@);
    }
    while i < n
        invariant_except_break
            asset_url@ == Seq::<char>::empty(),
            chosen_asset_url(release.assets@, asset_hint@) == chosen_asset_url(
                release.assets@.skip(i as int),
                asset_hint@,
            ),
        invariant
            n == release.assets@.len(),
            i <= n,
            hint@ == lowercase(asset_hint@),
        ensures
            asset_url@ == chosen_asset_url(release.assets@, asset_hint@),
        decreases n - i,
    {
        let a = &release.assets[i];
        proof {
            assert(release.assets@.skip(i as int)[0] == *a);
            assert(release.assets@.skip(i as int).drop_first() =~= release.assets@.skip(i + 1));
        }
        let name = match &a.name {
            Some(nm) => to_lowercase(nm.as_str()),
            None => {
                proof {
                    reveal_strlit("");
                    assert(""@ =~= Seq::<char>::empty());
                }
                to_lowercase("")
            },
        };
        if lower_name_matches(name.as_str(), hint.as_str()) {
            asset_url = match &a.browser_download_url {
                Some(u) => u.clone(),
                None => String::new(),
            };
            break;
        }
        i = i + 1;
    }
    Some(
        UpdateInfo {
            version: trim_start_matches_char(tag.as_str(), 'v').to_owned(),
            asset_url,
        },
    )
}


/// "Newer than" is a strict order on version strings: never newer than itself, never
/// both ways, and transitive.
pub proof fn law_version_order_is_strict(a: Seq<char>, b: Seq<char>, c: Seq<char>)
    ensures
        !version_gt_spec(a, a),
        version_gt_spec(a, b) ==> !version_gt_spec(b, a),
        version_gt_spec(a, b) && version_gt_spec(b, c) ==> version_gt_spec(a, c),
{
}
} // verus!
