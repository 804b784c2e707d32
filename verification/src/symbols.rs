//! Sorted, duplicate-free symbol lists (the order a `BTreeMap<String, _>` walks its keys).

use vstd::prelude::*;

use crate::text::{lemma_seq_lt_asymmetric, lemma_seq_lt_irreflexive, lemma_seq_lt_total,
    lemma_seq_lt_transitive, seq_lt, str_lt};

verus! {

/// The character sequences of a list of strings.
pub open spec fn views(v: Seq<String>) -> Seq<Seq<char>> {
    v.map_values(|s: String| s@)
}

/// Every element sorts strictly before every later one (so no duplicates).
pub open spec fn strictly_sorted(s: Seq<Seq<char>>) -> bool {
    forall|i: int, j: int| 0 <= i < j < s.len() ==> seq_lt(#[trigger] s[i], #[trigger] s[j])
}

/// `s` lists exactly the elements of `set`, in strictly increasing order.
pub open spec fn is_sorted_set(s: Seq<Seq<char>>, set: Set<Seq<char>>) -> bool {
    strictly_sorted(s) && s.to_set() == set
}

/// The sorted listing of a set is unique.
pub proof fn lemma_sorted_set_unique(a: Seq<Seq<char>>, b: Seq<Seq<char>>, set: Set<Seq<char>>)
    requires
        is_sorted_set(a, set),
        is_sorted_set(b, set),
    ensures
        a == b,
    decreases a.len(),
{
    if a.len() == 0 {
        if b.len() > 0 {
            assert(b.to_set().contains(b[0]));
            assert(!a.to_set().contains(b[0]));
        }
        assert(a =~= b);
    } else {
        if b.len() == 0 {
            assert(a.to_set().contains(a[0]));
            assert(!b.to_set().contains(a[0]));
        }
        let x = a[0];
        let y = b[0];
        assert(a.to_set().contains(x));
        assert(b.to_set().contains(y));
        let j = choose|j: int| 0 <= j < b.len() && b[j] == x;
        let k = choose|k: int| 0 <= k < a.len() && a[k] == y;
        if j > 0 && k > 0 {
            assert(seq_lt(b[0], b[j]));
            assert(seq_lt(a[0], a[k]));
            lemma_seq_lt_asymmetric(x, y);
        }
        assert(x == y);
        let ra = a.drop_first();
        let rb = b.drop_first();
        let rest = set.remove(x);
        assert(strictly_sorted(ra));
        assert(strictly_sorted(rb));
        assert forall|z: Seq<char>| ra.to_set().contains(z) <==> rest.contains(z) by {
            if ra.to_set().contains(z) {
                let i = choose|i: int| 0 <= i < ra.len() && ra[i] == z;
                assert(a[i + 1] == z);
                assert(a.to_set().contains(z));
                assert(seq_lt(a[0], a[i + 1]));
                lemma_seq_lt_irreflexive(z);
            }
            if rest.contains(z) {
                assert(a.to_set().contains(z));
                let i = choose|i: int| 0 <= i < a.len() && a[i] == z;
                assert(i != 0);
                assert(ra[i - 1] == z);
            }
        }
        assert forall|z: Seq<char>| rb.to_set().contains(z) <==> rest.contains(z) by {
            if rb.to_set().contains(z) {
                let i = choose|i: int| 0 <= i < rb.len() && rb[i] == z;
                assert(b[i + 1] == z);
                assert(b.to_set().contains(z));
                assert(seq_lt(b[0], b[i + 1]));
                lemma_seq_lt_irreflexive(z);
            }
            if rest.contains(z) {
                assert(b.to_set().contains(z));
                let i = choose|i: int| 0 <= i < b.len() && b[i] == z;
                assert(i != 0);
                assert(rb[i - 1] == z);
            }
        }
        assert(ra.to_set() =~= rest);
        assert(rb.to_set() =~= rest);
        lemma_sorted_set_unique(ra, rb, rest);
        assert(a =~= seq![x] + ra);
        assert(b =~= seq![y] + rb);
    }
}

/// Insert `x` into the sorted list `v` unless it is already there.
pub fn insert_sorted(v: &mut Vec<String>, x: &String)
    requires
        strictly_sorted(views(old(v)@)),
    ensures
        strictly_sorted(views(final(v)@)),
        views(final(v)@).to_set() == views(old(v)@).to_set().insert(x@),
{
    let ghost old_views = views(v@);
    let n = v.len();
    let mut i: usize = 0;
    while i < n && str_lt(v[i].as_str(), x.as_str())
        invariant
            n == v.len(),
            v@ == old(v)@,
            i <= n,
            forall|k: int| 0 <= k < i ==> seq_lt(#[trigger] views(v@)[k], x@),
        decreases n - i,
    {
        i = i + 1;
    }
    if i < n && v[i] == *x {
        proof {
            assert(views(v@)[i as int] == x@);
            assert(views(v@).to_set() =~= old_views.to_set().insert(x@));
        }
        return;
    }
    proof {
        if i < n {
            lemma_seq_lt_total(views(v@)[i as int], x@);
        }
    }
    v.insert(i, x.clone());
    proof {
        let nv = views(v@);
        assert(nv =~= old_views.insert(i as int, x@));
        assert forall|a: int, b: int| 0 <= a < b < nv.len() implies seq_lt(
            #[trigger] nv[a],
            #[trigger] nv[b],
        ) by {
            if b == i {
                assert(nv[a] == old_views[a]);
            } else if a == i {
                assert(nv[b] == old_views[b - 1]);
                if b - 1 > i {
                    assert(seq_lt(old_views[i as int], old_views[b - 1]));
                    lemma_seq_lt_transitive(x@, old_views[i as int], old_views[b - 1]);
                }
            } else if a < i && b < i {
                assert(nv[a] == old_views[a]);
                assert(nv[b] == old_views[b]);
            } else if a < i {
                assert(nv[a] == old_views[a]);
                assert(nv[b] == old_views[b - 1]);
            } else {
                assert(nv[a] == old_views[a - 1]);
                assert(nv[b] == old_views[b - 1]);
            }
        }
        assert forall|z: Seq<char>| nv.to_set().contains(z) <==> old_views.to_set().insert(
            x@,
        ).contains(z) by {
            if nv.to_set().contains(z) {
                let k = choose|k: int| 0 <= k < nv.len() && nv[k] == z;
                if k < i {
                    assert(old_views[k] == z);
                } else if k > i {
                    assert(old_views[k - 1] == z);
                }
            }
            if old_views.to_set().contains(z) {
                let k = choose|k: int| 0 <= k < old_views.len() && old_views[k] == z;
                if k < i {
                    assert(nv[k] == z);
                } else {
                    assert(nv[k + 1] == z);
                }
            }
            if z == x@ {
                assert(nv[i as int] == z);
            }
        }
        assert(nv.to_set() =~= old_views.to_set().insert(x@));
    }
}

} // verus!
