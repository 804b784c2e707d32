//! Books of records kept in key order with one record per key: the master's positions
//! and the client's portfolio rows.

use vstd::prelude::*;

use crate::text::{lemma_seq_lt_irreflexive, lemma_seq_lt_total, lemma_seq_lt_transitive, seq_lt,
    str_eq, str_lt};

verus! {

/// A record filed under a text key.
pub trait Keyed: Sized {
    spec fn key_view(&self) -> Seq<char>;

    fn key_str(&self) -> (r: &str)
        ensures
            r@ == self.key_view(),
    ;
}

/// The book's keys are strictly increasing.
pub open spec fn keys_sorted<T: Keyed>(b: Seq<T>) -> bool {
    forall|i: int, j: int| 0 <= i < j < b.len() ==> seq_lt(#[trigger] b[i].key_view(), #[trigger] b[j].key_view())
}

/// The record filed under `k` (a later record wins).
pub open spec fn find_key<T: Keyed>(b: Seq<T>, k: Seq<char>) -> Option<T>
    decreases b.len(),
{
    if b.len() == 0 {
        None
    } else if b.last().key_view() == k {
        Some(b.last())
    } else {
        find_key(b.drop_last(), k)
    }
}

pub proof fn lemma_key_find<T: Keyed>(b: Seq<T>, k: Seq<char>)
    requires
        keys_sorted(b),
    ensures
        forall|i: int| 0 <= i < b.len() && #[trigger] b[i].key_view() == k ==> find_key(b, k) == Some(b[i]),
        (forall|i: int| 0 <= i < b.len() ==> #[trigger] b[i].key_view() != k) ==> find_key(b, k) is None,
    decreases b.len(),
{
    if b.len() > 0 {
        let w = b.drop_last();
        assert(keys_sorted(w)) by {
            assert forall|i: int, j: int| 0 <= i < j < w.len() implies seq_lt(#[trigger] w[i].key_view(), #[trigger] w[j].key_view()) by {
                assert(w[i] == b[i] && w[j] == b[j]);
            }
        }
        lemma_key_find(w, k);
        let n = b.len() as int;
        assert forall|i: int| 0 <= i < b.len() && #[trigger] b[i].key_view() == k implies find_key(b, k) == Some(b[i]) by {
            if i < n - 1 {
                assert(w[i] == b[i]);
                if b[n - 1].key_view() == k {
                    assert(seq_lt(b[i].key_view(), b[n - 1].key_view()));
                    lemma_seq_lt_irreflexive(k);
                }
            }
        }
        if forall|i: int| 0 <= i < b.len() ==> #[trigger] b[i].key_view() != k {
            assert(b[n - 1].key_view() != k);
            assert forall|i: int| 0 <= i < w.len() implies #[trigger] w[i].key_view() != k by {
                assert(w[i] == b[i]);
            }
        }
    }
}


/// Where `k` belongs in a sorted book: its index, and whether a record is filed there.
fn locate<T: Keyed>(book: &Vec<T>, k: &str) -> (r: (usize, bool))
    requires
        keys_sorted(book@),
    ensures
        r.0 <= book@.len(),
        forall|j: int| 0 <= j < r.0 ==> seq_lt(#[trigger] book@[j].key_view(), k@),
        r.1 == (r.0 < book@.len() && book@[r.0 as int].key_view() == k@),
        !r.1 && r.0 < book@.len() ==> seq_lt(k@, book@[r.0 as int].key_view()),
        forall|j: int| 0 <= j < book@.len() && j != r.0 ==> #[trigger] book@[j].key_view() != k@,
{
    let ghost b0 = book@;
    let n = book.len();
    let mut i: usize = 0;
    while i < n && str_lt(book[i].key_str(), k)
        invariant
            n == book@.len(),
            book@ == b0,
            i <= n,
            forall|j: int| 0 <= j < i ==> seq_lt(#[trigger] book@[j].key_view(), k@),
        decreases n - i,
    {
        i = i + 1;
    }
    let present = i < n && str_eq(book[i].key_str(), k);
    proof {
        if i < n && !present {
            lemma_seq_lt_total(b0[i as int].key_view(), k@);
        }
        assert forall|j: int| 0 <= j < b0.len() && j != i implies #[trigger] b0[j].key_view() != k@ by {
            if j < i {
                lemma_seq_lt_irreflexive(k@);
            } else {
                assert(seq_lt(b0[i as int].key_view(), b0[j].key_view()));
                lemma_seq_lt_total(b0[i as int].key_view(), k@);
                if b0[j].key_view() == k@ {
                    if b0[i as int].key_view() == k@ {
                        lemma_seq_lt_irreflexive(k@);
                    } else {
                        lemma_seq_lt_transitive(k@, b0[i as int].key_view(), b0[j].key_view());
                        lemma_seq_lt_irreflexive(k@);
                    }
                }
            }
        }
    }
    (i, present)
}

/// The index of the record filed under `k`, if any.
pub fn book_find<T: Keyed>(book: &Vec<T>, k: &str) -> (r: Option<usize>)
    requires
        keys_sorted(book@),
    ensures
        match r {
            Some(i) => i < book@.len() && find_key(book@, k@) == Some(book@[i as int]),
            None => find_key(book@, k@) is None,
        },
{
    let (i, present) = locate(book, k);
    proof {
        lemma_key_find(book@, k@);
    }
    if present {
        Some(i)
    } else {
        None
    }
}

/// File `item` under its key, replacing the record there; every other key is untouched.
pub fn book_put<T: Keyed>(book: &mut Vec<T>, item: T)
    requires
        keys_sorted(old(book)@),
    ensures
        keys_sorted(final(book)@),
        find_key(final(book)@, item.key_view()) == Some(item),
        forall|s: Seq<char>| s != item.key_view() ==> #[trigger] find_key(final(book)@, s) == find_key(old(book)@, s),
{
    let ghost b0 = book@;
    let ghost k = item.key_view();
    let (i, present) = locate(book, item.key_str());
    let ghost it = item;
    if present {
        book.set(i, item);
        proof {
            assert(book@ == b0.update(i as int, it));
            assert(keys_sorted(book@)) by {
                assert forall|a: int, b: int| 0 <= a < b < book@.len() implies seq_lt(#[trigger] book@[a].key_view(), #[trigger] book@[b].key_view()) by {
                    assert(book@[a].key_view() == b0[a].key_view());
                    assert(book@[b].key_view() == b0[b].key_view());
                }
            }
            lemma_key_find(book@, k);
            assert(book@[i as int] == it);
            assert forall|s: Seq<char>| s != k implies #[trigger] find_key(book@, s) == find_key(b0, s) by {
                lemma_key_find(book@, s);
                lemma_key_find(b0, s);
                if exists|j: int| 0 <= j < b0.len() && #[trigger] b0[j].key_view() == s {
                    let j = choose|j: int| 0 <= j < b0.len() && #[trigger] b0[j].key_view() == s;
                    assert(book@[j] == b0[j]);
                } else {
                    assert forall|j: int| 0 <= j < book@.len() implies #[trigger] book@[j].key_view() != s by {
                        assert(book@[j].key_view() == b0[j].key_view());
                    }
                }
            }
        }
    } else {
        let n = book.len();
        book.insert(i, item);
        proof {
            assert(book@ == b0.insert(i as int, it));
            assert(keys_sorted(book@)) by {
                assert forall|a: int, b: int| 0 <= a < b < book@.len() implies seq_lt(#[trigger] book@[a].key_view(), #[trigger] book@[b].key_view()) by {
                    if b < i {
                        assert(book@[a] == b0[a] && book@[b] == b0[b]);
                    } else if b == i {
                        assert(book@[a] == b0[a]);
                    } else if a < i {
                        assert(book@[a] == b0[a] && book@[b] == b0[b - 1]);
                        if b - 1 > i {
                            assert(seq_lt(b0[i as int].key_view(), b0[b - 1].key_view()));
                            lemma_seq_lt_transitive(k, b0[i as int].key_view(), b0[b - 1].key_view());
                        }
                        lemma_seq_lt_transitive(b0[a].key_view(), k, b0[b - 1].key_view());
                    } else if a == i {
                        assert(book@[b] == b0[b - 1]);
                        if b - 1 > i {
                            assert(seq_lt(b0[i as int].key_view(), b0[b - 1].key_view()));
                            lemma_seq_lt_transitive(k, b0[i as int].key_view(), b0[b - 1].key_view());
                        }
                    } else {
                        assert(book@[a] == b0[a - 1] && book@[b] == b0[b - 1]);
                    }
                }
            }
            lemma_key_find(book@, k);
            assert(book@[i as int] == it);
            assert forall|s: Seq<char>| s != k implies #[trigger] find_key(book@, s) == find_key(b0, s) by {
                lemma_key_find(book@, s);
                lemma_key_find(b0, s);
                if exists|j: int| 0 <= j < b0.len() && #[trigger] b0[j].key_view() == s {
                    let j = choose|j: int| 0 <= j < b0.len() && #[trigger] b0[j].key_view() == s;
                    if j < i {
                        assert(book@[j] == b0[j]);
                    } else {
                        assert(book@[j + 1] == b0[j]);
                    }
                } else {
                    assert forall|j: int| 0 <= j < book@.len() implies #[trigger] book@[j].key_view() != s by {
                        if j < i {
                            assert(book@[j] == b0[j]);
                        } else if j > i {
                            assert(book@[j] == b0[j - 1]);
                        }
                    }
                }
            }
        }
    }
}

/// Remove the record filed under `k`, if any; every other key is untouched.
pub fn book_remove<T: Keyed>(book: &mut Vec<T>, k: &str)
    requires
        keys_sorted(old(book)@),
    ensures
        keys_sorted(final(book)@),
        find_key(final(book)@, k@) is None,
        forall|s: Seq<char>| s != k@ ==> #[trigger] find_key(final(book)@, s) == find_key(old(book)@, s),
{
    let ghost b0 = book@;
    let (i, present) = locate(book, k);
    if present {
        book.remove(i);
        proof {
            assert(book@ == b0.remove(i as int));
            assert(keys_sorted(book@)) by {
                assert forall|a: int, b: int| 0 <= a < b < book@.len() implies seq_lt(#[trigger] book@[a].key_view(), #[trigger] book@[b].key_view()) by {
                    let aa = if a < i { a } else { a + 1 };
                    let bb = if b < i { b } else { b + 1 };
                    assert(book@[a] == b0[aa] && book@[b] == b0[bb]);
                }
            }
            assert forall|j: int| 0 <= j < book@.len() implies #[trigger] book@[j].key_view() != k@ by {
                let jj = if j < i { j } else { j + 1 };
                assert(book@[j] == b0[jj]);
            }
            lemma_key_find(book@, k@);
            assert forall|s: Seq<char>| s != k@ implies #[trigger] find_key(book@, s) == find_key(b0, s) by {
                lemma_key_find(book@, s);
                lemma_key_find(b0, s);
                if exists|j: int| 0 <= j < b0.len() && #[trigger] b0[j].key_view() == s {
                    let j = choose|j: int| 0 <= j < b0.len() && #[trigger] b0[j].key_view() == s;
                    assert(j != i);
                    if j < i {
                        assert(book@[j] == b0[j]);
                    } else {
                        assert(book@[j - 1] == b0[j]);
                    }
                } else {
                    assert forall|j: int| 0 <= j < book@.len() implies #[trigger] book@[j].key_view() != s by {
                        let jj = if j < i { j } else { j + 1 };
                        assert(book@[j] == b0[jj]);
                    }
                }
            }
        }
    } else {
        proof {
            lemma_key_find(b0, k@);
        }
    }
}

} // verus!
