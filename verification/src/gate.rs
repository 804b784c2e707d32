//! The master-change lock.
//!
//! The client re-syncs a symbol's structure ONLY when the master's net position in that
//! symbol changes. Between changes the locked targets are held, so balance or price drift
//! never triggers a resize (which would rack up commissions). A target is recomputed,
//! proportionally to the balances of that instant, when — and only when — that symbol's
//! master net moves.

use vstd::prelude::*;

use crate::model::{Position, MAX_QTY};
use crate::reconcile::{find_locked, find_pos, find_position, find_target};
use crate::sizing::{balances_known, opt_int, target_net_qty, target_spec, SizingParams};
use crate::symbols::{insert_sorted, strictly_sorted, views};
use crate::text::{lemma_seq_lt_asymmetric, lemma_seq_lt_irreflexive, lemma_seq_lt_total,
    lemma_seq_lt_transitive, seq_lt, str_lt};

verus! {

// ── sorted symbol tables ─────────────────────────────────────────────────────

/// The table's symbols are strictly increasing (so each appears once).
pub open spec fn table_sorted(v: Seq<(String, i64)>) -> bool {
    forall|i: int, j: int| 0 <= i < j < v.len() ==> seq_lt(#[trigger] v[i].0@, #[trigger] v[j].0@)
}

/// Every value of the table is a share count the engine deals in.
pub open spec fn table_bounded(v: Seq<(String, i64)>) -> bool {
    forall|i: int| 0 <= i < v.len() ==> -MAX_QTY <= (#[trigger] v[i]).1 <= MAX_QTY
}

proof fn lemma_find_in_sorted(v: Seq<(String, i64)>, k: Seq<char>)
    requires
        table_sorted(v),
    ensures
        match find_target(v, k) {
            Some(x) => exists|i: int| 0 <= i < v.len() && #[trigger] v[i].0@ == k && v[i].1 == x,
            None => forall|i: int| 0 <= i < v.len() ==> #[trigger] v[i].0@ != k,
        },
        forall|i: int| 0 <= i < v.len() && #[trigger] v[i].0@ == k ==> find_target(v, k) == Some(v[i].1),
    decreases v.len(),
{
    if v.len() > 0 {
        let w = v.drop_last();
        assert(table_sorted(w)) by {
            assert forall|i: int, j: int| 0 <= i < j < w.len() implies seq_lt(#[trigger] w[i].0@, #[trigger] w[j].0@) by {
                assert(w[i] == v[i] && w[j] == v[j]);
            }
        }
        lemma_find_in_sorted(w, k);
        let n = v.len() as int;
        if v[n - 1].0@ == k {
            assert forall|i: int| 0 <= i < v.len() && #[trigger] v[i].0@ == k implies find_target(v, k) == Some(v[i].1) by {
                if i < n - 1 {
                    assert(seq_lt(v[i].0@, v[n - 1].0@));
                    lemma_seq_lt_irreflexive(k);
                }
            }
        } else {
            assert forall|i: int| 0 <= i < v.len() && #[trigger] v[i].0@ == k implies find_target(v, k) == Some(v[i].1) by {
                assert(w[i] == v[i]);
            }
            match find_target(w, k) {
                Some(x) => {
                    let i = choose|i: int| 0 <= i < w.len() && #[trigger] w[i].0@ == k && w[i].1 == x;
                    assert(v[i] == w[i]);
                },
                None => {
                    assert forall|i: int| 0 <= i < v.len() implies #[trigger] v[i].0@ != k by {
                        if i < n - 1 {
                            assert(w[i] == v[i]);
                        }
                    }
                },
            }
        }
    }
}

/// Set `k`'s value in a sorted table to `val` (inserting it in order when absent).
pub fn upsert(v: &mut Vec<(String, i64)>, k: &String, val: i64)
    requires
        table_sorted(old(v)@),
    ensures
        table_sorted(final(v)@),
        forall|s: Seq<char>| #[trigger] find_target(final(v)@, s) == (if s == k@ {
            Some(val)
        } else {
            find_target(old(v)@, s)
        }),
        forall|i: int| 0 <= i < final(v)@.len() ==> ((#[trigger] final(v)@[i]).0@ == k@ && final(v)@[i].1 == val)
            || exists|j: int| 0 <= j < old(v)@.len() && old(v)@[j] == final(v)@[i],
        table_bounded(old(v)@) && -MAX_QTY <= val <= MAX_QTY ==> table_bounded(final(v)@),
{
    let ghost v0 = v@;
    let n = v.len();
    let mut i: usize = 0;
    while i < n && str_lt(v[i].0.as_str(), k.as_str())
        invariant
            n == v@.len(),
            v@ == v0,
            i <= n,
            forall|j: int| 0 <= j < i ==> seq_lt(#[trigger] v@[j].0@, k@),
        decreases n - i,
    {
        i = i + 1;
    }
    proof {
        lemma_find_in_sorted(v0, k@);
    }
    if i < n && v[i].0 == *k {
        let e = (k.clone(), val);
        v.set(i, e);
        proof {
            assert(v@ == v0.update(i as int, e));
            assert forall|a: int, b: int| 0 <= a < b < v@.len() implies seq_lt(#[trigger] v@[a].0@, #[trigger] v@[b].0@) by {
                assert(v@[a].0@ == v0[a].0@);
                assert(v@[b].0@ == v0[b].0@);
            }
            lemma_find_in_sorted(v@, k@);
            assert(v@[i as int].0@ == k@);
            assert forall|s: Seq<char>| #[trigger] find_target(v@, s) == (if s == k@ {
                Some(val)
            } else {
                find_target(v0, s)
            }) by {
                lemma_find_in_sorted(v@, s);
                lemma_find_in_sorted(v0, s);
                if s != k@ {
                    match find_target(v0, s) {
                        Some(x) => {
                            let j = choose|j: int| 0 <= j < v0.len() && #[trigger] v0[j].0@ == s && v0[j].1 == x;
                            assert(j != i);
                            assert(v@[j] == v0[j]);
                        },
                        None => {
                            assert forall|j: int| 0 <= j < v@.len() implies #[trigger] v@[j].0@ != s by {
                                if j != i {
                                    assert(v@[j] == v0[j]);
                                }
                            }
                        },
                    }
                }
            }
            assert forall|a: int| 0 <= a < v@.len() implies ((#[trigger] v@[a]).0@ == k@ && v@[a].1 == val)
                || exists|j: int| 0 <= j < v0.len() && v0[j] == v@[a] by {
                if a != i {
                    assert(v0[a] == v@[a]);
                }
            }
        }
    } else {
        proof {
            if i < n {
                assert(!seq_lt(v0[i as int].0@, k@));
                lemma_seq_lt_total(v0[i as int].0@, k@);
                assert(seq_lt(k@, v0[i as int].0@));
            }
            assert forall|j: int| 0 <= j < v0.len() implies #[trigger] v0[j].0@ != k@ by {
                if j < i {
                    lemma_seq_lt_irreflexive(k@);
                } else if j > i {
                    assert(seq_lt(v0[i as int].0@, v0[j].0@));
                    lemma_seq_lt_transitive(k@, v0[i as int].0@, v0[j].0@);
                    lemma_seq_lt_irreflexive(k@);
                } else {
                    lemma_seq_lt_irreflexive(k@);
                }
            }
        }
        let e = (k.clone(), val);
        v.insert(i, e);
        proof {
            assert(v@ == v0.insert(i as int, e));
            assert forall|a: int, b: int| 0 <= a < b < v@.len() implies seq_lt(#[trigger] v@[a].0@, #[trigger] v@[b].0@) by {
                if b < i {
                    assert(v@[a] == v0[a] && v@[b] == v0[b]);
                } else if b == i {
                    assert(v@[a] == v0[a]);
                } else if a < i {
                    assert(v@[a] == v0[a] && v@[b] == v0[b - 1]);
                    if b - 1 > i {
                        assert(seq_lt(v0[i as int].0@, v0[b - 1].0@));
                        lemma_seq_lt_transitive(k@, v0[i as int].0@, v0[b - 1].0@);
                    }
                    lemma_seq_lt_transitive(v0[a].0@, k@, v0[b - 1].0@);
                } else if a == i {
                    assert(v@[b] == v0[b - 1]);
                    if b - 1 > i {
                        assert(seq_lt(v0[i as int].0@, v0[b - 1].0@));
                        lemma_seq_lt_transitive(k@, v0[i as int].0@, v0[b - 1].0@);
                    }
                } else {
                    assert(v@[a] == v0[a - 1] && v@[b] == v0[b - 1]);
                }
            }
            lemma_find_in_sorted(v@, k@);
            assert(v@[i as int].0@ == k@);
            assert forall|s: Seq<char>| #[trigger] find_target(v@, s) == (if s == k@ {
                Some(val)
            } else {
                find_target(v0, s)
            }) by {
                lemma_find_in_sorted(v@, s);
                lemma_find_in_sorted(v0, s);
                if s != k@ {
                    match find_target(v0, s) {
                        Some(x) => {
                            let j = choose|j: int| 0 <= j < v0.len() && #[trigger] v0[j].0@ == s && v0[j].1 == x;
                            if j < i {
                                assert(v@[j] == v0[j]);
                            } else {
                                assert(v@[j + 1] == v0[j]);
                            }
                        },
                        None => {
                            assert forall|j: int| 0 <= j < v@.len() implies #[trigger] v@[j].0@ != s by {
                                if j < i {
                                    assert(v@[j] == v0[j]);
                                } else if j > i {
                                    assert(v@[j] == v0[j - 1]);
                                }
                            }
                        },
                    }
                }
            }
            assert forall|a: int| 0 <= a < v@.len() implies ((#[trigger] v@[a]).0@ == k@ && v@[a].1 == val)
                || exists|j: int| 0 <= j < v0.len() && v0[j] == v@[a] by {
                if a < i {
                    assert(v0[a] == v@[a]);
                } else if a > i {
                    assert(v0[a - 1] == v@[a]);
                }
            }
        }
    }
    proof {
        if table_bounded(v0) && -MAX_QTY <= val <= MAX_QTY {
            assert forall|a: int| 0 <= a < v@.len() implies -MAX_QTY <= (#[trigger] v@[a]).1 <= MAX_QTY by {
                if !(v@[a].0@ == k@ && v@[a].1 == val) {
                    let j = choose|j: int| 0 <= j < v0.len() && v0[j] == v@[a];
                    assert(-MAX_QTY <= v0[j].1 <= MAX_QTY);
                }
            }
        }
    }
}


// ── the target lock ─────────────────────────────────────────────────────────────────

/// The master's net position in `sym` (flat when it holds none).
pub open spec fn now_of(master: Seq<Position>, sym: Seq<char>) -> int {
    match find_pos(master, sym) {
        Some(p) => p.net_qty as int,
        None => 0,
    }
}

/// The master's average cost in `sym` (0 when it holds none).
pub open spec fn price_of(master: Seq<Position>, sym: Seq<char>) -> int {
    match find_pos(master, sym) {
        Some(p) => p.avg_cost as int,
        None => 0,
    }
}

/// The target lock tracks `sym`: it was seen before, or the master holds it now.
pub open spec fn in_scope(seen: Seq<(String, i64)>, master: Seq<Position>, sym: Seq<char>) -> bool {
    find_target(seen, sym) is Some || find_pos(master, sym) is Some
}

/// The master's net in `sym` moved since its target was locked (or was never locked).
pub open spec fn sym_changed(seen: Seq<(String, i64)>, master: Seq<Position>, sym: Seq<char>) -> bool {
    in_scope(seen, master, sym) && match find_target(seen, sym) {
        Some(prev) => prev != now_of(master, sym),
        None => true,
    }
}

/// The target locked for `sym` when its master net moves: flat when the master is flat,
/// else the proportional target (flat when it cannot be sized), never short in
/// long-only mode.
pub open spec fn gate_target(master: Seq<Position>, sym: Seq<char>, sizing: SizingParams, long_only: bool) -> int {
    let now = now_of(master, sym);
    if now == 0 {
        0
    } else {
        let t = match target_spec(now, price_of(master, sym), sizing) {
            Some(t) => t,
            None => 0,
        };
        if long_only && t < 0 {
            0
        } else {
            t
        }
    }
}

/// The symbols the target lock walks: those seen before and those the master holds.
pub open spec fn scope_set(seen: Seq<(String, i64)>, master: Seq<Position>) -> Set<Seq<char>> {
    Set::new(|s: Seq<char>| in_scope(seen, master, s))
}

proof fn lemma_find_pos_some(ps: Seq<Position>, i: int)
    requires
        0 <= i < ps.len(),
    ensures
        find_pos(ps, ps[i].symbol@) is Some,
    decreases ps.len(),
{
    if i < ps.len() - 1 && ps.last().symbol@ != ps[i].symbol@ {
        assert(ps.drop_last()[i] == ps[i]);
        lemma_find_pos_some(ps.drop_last(), i);
    }
}

proof fn lemma_find_pos_member(ps: Seq<Position>, sym: Seq<char>)
    ensures
        find_pos(ps, sym) is Some ==> exists|i: int| 0 <= i < ps.len() && (#[trigger] ps[i]).symbol@ == sym,
    decreases ps.len(),
{
    if ps.len() > 0 && ps.last().symbol@ != sym {
        lemma_find_pos_member(ps.drop_last(), sym);
        if find_pos(ps, sym) is Some {
            let i = choose|i: int| 0 <= i < ps.drop_last().len() && (#[trigger] ps.drop_last()[i]).symbol@ == sym;
            assert(ps[i] == ps.drop_last()[i]);
        }
    } else if ps.len() > 0 {
        assert(ps[ps.len() - 1].symbol@ == sym);
    }
}

/// The symbols in scope, sorted.
fn scope_symbols(seen: &Vec<(String, i64)>, master: &[Position]) -> (r: Vec<String>)
    requires
        table_sorted(seen@),
    ensures
        strictly_sorted(views(r@)),
        views(r@).to_set() == scope_set(seen@, master@),
{
    let mut syms: Vec<String> = Vec::new();
    let ghost mut got: Set<Seq<char>> = Set::empty();
    proof {
        assert(views(syms@).to_set() =~= got);
    }
    let mut i: usize = 0;
    while i < seen.len()
        invariant
            i <= seen@.len(),
            strictly_sorted(views(syms@)),
            views(syms@).to_set() == got,
            forall|s: Seq<char>| got.contains(s) <==> exists|k: int| 0 <= k < i && (#[trigger] seen@[k]).0@ == s,
        decreases seen.len() - i,
    {
        insert_sorted(&mut syms, &seen[i].0);
        proof {
            got = got.insert(seen@[i as int].0@);
            assert forall|s: Seq<char>| got.contains(s) <==> exists|k: int| 0 <= k < i + 1 && (#[trigger] seen@[k]).0@ == s by {
                if got.contains(s) && s != seen@[i as int].0@ {
                    let k = choose|k: int| 0 <= k < i && (#[trigger] seen@[k]).0@ == s;
                }
            }
        }
        i = i + 1;
    }
    let mut j: usize = 0;
    while j < master.len()
        invariant
            j <= master@.len(),
            strictly_sorted(views(syms@)),
            views(syms@).to_set() == got,
            forall|s: Seq<char>| got.contains(s) <==> (exists|k: int| 0 <= k < seen@.len() && (#[trigger] seen@[k]).0@ == s)
                || (exists|k: int| 0 <= k < j && (#[trigger] master@[k]).symbol@ == s),
        decreases master.len() - j,
    {
        insert_sorted(&mut syms, &master[j].symbol);
        proof {
            got = got.insert(master@[j as int].symbol@);
            assert forall|s: Seq<char>| got.contains(s) <==> (exists|k: int| 0 <= k < seen@.len() && (#[trigger] seen@[k]).0@ == s)
                || (exists|k: int| 0 <= k < j + 1 && (#[trigger] master@[k]).symbol@ == s) by {
                if got.contains(s) && s != master@[j as int].symbol@ {
                    if !(exists|k: int| 0 <= k < seen@.len() && (#[trigger] seen@[k]).0@ == s) {
                        let k = choose|k: int| 0 <= k < j && (#[trigger] master@[k]).symbol@ == s;
                    }
                }
            }
        }
        j = j + 1;
    }
    proof {
        assert forall|s: Seq<char>| got.contains(s) <==> in_scope(seen@, master@, s) by {
            lemma_find_in_sorted(seen@, s);
            lemma_find_pos_member(master@, s);
            if exists|k: int| 0 <= k < master@.len() && (#[trigger] master@[k]).symbol@ == s {
                let k = choose|k: int| 0 <= k < master@.len() && (#[trigger] master@[k]).symbol@ == s;
                lemma_find_pos_some(master@, k);
            }
        }
        assert(got =~= scope_set(seen@, master@));
    }
    syms
}

/// Run the target lock over the master's current book: for every symbol whose master net moved
/// since its target was locked (or that was never locked), record the new master net and
/// lock a fresh target sized with the current balances; leave every other symbol's target
/// untouched. Returns whether any symbol changed. Does nothing while the balances are
/// unknown.
pub fn update_targets(
    seen: &mut Vec<(String, i64)>,
    locked: &mut Vec<(String, i64)>,
    master: &[Position],
    sizing: &SizingParams,
    long_only: bool,
) -> (changed: bool)
    requires
        table_sorted(old(seen)@),
        table_sorted(old(locked)@),
    ensures
        table_sorted(final(seen)@),
        table_sorted(final(locked)@),
        table_bounded(old(locked)@) ==> table_bounded(final(locked)@),
        !balances_known(*sizing) ==> final(seen)@ == old(seen)@ && final(locked)@ == old(locked)@
            && !changed,
        balances_known(*sizing) ==> {
            &&& forall|s: Seq<char>| #[trigger] opt_int(find_target(final(seen)@, s)) == (if sym_changed(
                old(seen)@,
                master@,
                s,
            ) {
                Some(now_of(master@, s))
            } else {
                opt_int(find_target(old(seen)@, s))
            })
            &&& forall|s: Seq<char>| #[trigger] opt_int(find_target(final(locked)@, s)) == (if sym_changed(
                old(seen)@,
                master@,
                s,
            ) {
                Some(gate_target(master@, s, *sizing, long_only))
            } else {
                opt_int(find_target(old(locked)@, s))
            })
            &&& changed == exists|s: Seq<char>| #[trigger] sym_changed(old(seen)@, master@, s)
        },
{
    if sizing.ratio().is_none() {
        return false;
    }
    let ghost seen0 = seen@;
    let ghost locked0 = locked@;
    let syms = scope_symbols(seen, master);
    let n = syms.len();
    let mut changed = false;
    let mut k: usize = 0;
    while k < n
        invariant
            n == syms@.len(),
            k <= n,
            balances_known(*sizing),
            strictly_sorted(views(syms@)),
            views(syms@).to_set() == scope_set(seen0, master@),
            table_sorted(seen@),
            table_sorted(locked@),
            table_bounded(locked0) ==> table_bounded(locked@),
            forall|s: Seq<char>| #[trigger] opt_int(find_target(seen@, s)) == (if (exists|j: int|
                0 <= j < k && syms@[j]@ == s) && sym_changed(seen0, master@, s) {
                Some(now_of(master@, s))
            } else {
                opt_int(find_target(seen0, s))
            }),
            forall|s: Seq<char>| #[trigger] opt_int(find_target(locked@, s)) == (if (exists|j: int|
                0 <= j < k && syms@[j]@ == s) && sym_changed(seen0, master@, s) {
                Some(gate_target(master@, s, *sizing, long_only))
            } else {
                opt_int(find_target(locked0, s))
            }),
            changed == exists|j: int| 0 <= j < k && sym_changed(seen0, master@, #[trigger] syms@[j]@),
        decreases n - k,
    {
        let sym = &syms[k];
        let ghost sv = sym@;
        proof {
            // syms are distinct, so this symbol was not handled yet
            assert forall|j: int| 0 <= j < k implies syms@[j]@ != sv by {
                assert(seq_lt(views(syms@)[j], views(syms@)[k as int]));
                lemma_seq_lt_irreflexive(sv);
            }
            assert(views(syms@).to_set().contains(sv)) by {
                assert(views(syms@)[k as int] == sv);
            }
        }
        let prev = find_locked(seen.as_slice(), sym);
        let (now, price): (i64, i64) = match find_position(master, sym) {
            Some(p) => (p.net_qty, p.avg_cost),
            None => (0, 0),
        };
        proof {
            assert(opt_int(prev) == opt_int(find_target(seen0, sv)));
            assert(now == now_of(master@, sv));
            assert(price == price_of(master@, sv));
            assert(in_scope(seen0, master@, sv));
        }
        let sym_moved = match prev {
            Some(p) => p != now,
            None => true,
        };
        if sym_moved {
            let t: i64 = if now == 0 {
                0
            } else {
                let t0 = match target_net_qty(now, price, sizing) {
                    Some(t) => t,
                    None => 0,
                };
                if long_only && t0 < 0 {
                    0
                } else {
                    t0
                }
            };
            proof {
                assert(t == gate_target(master@, sv, *sizing, long_only));
                assert(-MAX_QTY <= t <= MAX_QTY);
            }
            let ghost seen_b = seen@;
            let ghost locked_b = locked@;
            upsert(seen, sym, now);
            upsert(locked, sym, t);
            changed = true;
            proof {
                assert forall|s: Seq<char>| #[trigger] opt_int(find_target(seen@, s)) == (if (exists|j: int|
                    0 <= j < k + 1 && syms@[j]@ == s) && sym_changed(seen0, master@, s) {
                    Some(now_of(master@, s))
                } else {
                    opt_int(find_target(seen0, s))
                }) by {
                    if s == sv {
                        assert(syms@[k as int]@ == s);
                    } else {
                        assert(opt_int(find_target(seen@, s)) == opt_int(find_target(seen_b, s)));
                    }
                }
                assert forall|s: Seq<char>| #[trigger] opt_int(find_target(locked@, s)) == (if (exists|j: int|
                    0 <= j < k + 1 && syms@[j]@ == s) && sym_changed(seen0, master@, s) {
                    Some(gate_target(master@, s, *sizing, long_only))
                } else {
                    opt_int(find_target(locked0, s))
                }) by {
                    if s == sv {
                        assert(syms@[k as int]@ == s);
                    } else {
                        assert(opt_int(find_target(locked@, s)) == opt_int(find_target(locked_b, s)));
                    }
                }
                assert(sym_changed(seen0, master@, syms@[k as int]@));
            }
        } else {
            proof {
                assert(!sym_changed(seen0, master@, sv));
                assert forall|s: Seq<char>| #[trigger] opt_int(find_target(seen@, s)) == (if (exists|j: int|
                    0 <= j < k + 1 && syms@[j]@ == s) && sym_changed(seen0, master@, s) {
                    Some(now_of(master@, s))
                } else {
                    opt_int(find_target(seen0, s))
                }) by {
                    if s != sv {
                        if exists|j: int| 0 <= j < k + 1 && syms@[j]@ == s {
                            let j = choose|j: int| 0 <= j < k + 1 && syms@[j]@ == s;
                            assert(j != k);
                        }
                    }
                }
                assert forall|s: Seq<char>| #[trigger] opt_int(find_target(locked@, s)) == (if (exists|j: int|
                    0 <= j < k + 1 && syms@[j]@ == s) && sym_changed(seen0, master@, s) {
                    Some(gate_target(master@, s, *sizing, long_only))
                } else {
                    opt_int(find_target(locked0, s))
                }) by {
                    if s != sv {
                        if exists|j: int| 0 <= j < k + 1 && syms@[j]@ == s {
                            let j = choose|j: int| 0 <= j < k + 1 && syms@[j]@ == s;
                            assert(j != k);
                        }
                    }
                }
            }
        }
        k = k + 1;
    }
    proof {
        // every changed symbol is in scope, hence among `syms`
        assert forall|s: Seq<char>| sym_changed(seen0, master@, s) implies exists|j: int| 0 <= j < n && syms@[j]@ == s by {
            assert(scope_set(seen0, master@).contains(s));
            assert(views(syms@).to_set().contains(s));
            let j = choose|j: int| 0 <= j < views(syms@).len() && views(syms@)[j] == s;
            assert(syms@[j]@ == s);
        }
        if changed {
            let j = choose|j: int| 0 <= j < n && sym_changed(seen0, master@, #[trigger] syms@[j]@);
            assert(sym_changed(seen0, master@, syms@[j]@));
        }
        if exists|s: Seq<char>| #[trigger] sym_changed(seen0, master@, s) {
            let s = choose|s: Seq<char>| #[trigger] sym_changed(seen0, master@, s);
            let j = choose|j: int| 0 <= j < n && syms@[j]@ == s;
            assert(sym_changed(seen0, master@, syms@[j]@));
        }
    }
    changed
}

/// The target lock's central promise: a symbol whose master net did not move keeps its locked
/// target whatever the balances, prices or multiplier are now — so a matched book is never
/// resized by drift, and a move in one name never re-sizes another.
pub proof fn law_unmoved_symbol_keeps_target(
    seen: Seq<(String, i64)>,
    locked: Seq<(String, i64)>,
    master: Seq<Position>,
    sizing: SizingParams,
    long_only: bool,
    sym: Seq<char>,
    new_locked: Seq<(String, i64)>,
)
    requires
        find_target(seen, sym) matches Some(prev) && prev == now_of(master, sym),
        forall|s: Seq<char>| #[trigger] opt_int(find_target(new_locked, s)) == (if sym_changed(seen, master, s) {
            Some(gate_target(master, s, sizing, long_only))
        } else {
            opt_int(find_target(locked, s))
        }),
    ensures
        find_target(new_locked, sym) == find_target(locked, sym),
{
    assert(!sym_changed(seen, master, sym));
    assert(opt_int(find_target(new_locked, sym)) == opt_int(find_target(locked, sym)));
}

/// When the master's net in a symbol moves, the target locked for it is the proportional
/// target of the new net at the current balances (flat when the master went flat, never
/// short in long-only mode).
pub proof fn law_moved_symbol_relocks(
    seen: Seq<(String, i64)>,
    locked: Seq<(String, i64)>,
    master: Seq<Position>,
    sizing: SizingParams,
    long_only: bool,
    sym: Seq<char>,
    new_locked: Seq<(String, i64)>,
)
    requires
        find_pos(master, sym) is Some,
        find_target(seen, sym) matches Some(prev) ==> prev != now_of(master, sym),
        forall|s: Seq<char>| #[trigger] opt_int(find_target(new_locked, s)) == (if sym_changed(seen, master, s) {
            Some(gate_target(master, s, sizing, long_only))
        } else {
            opt_int(find_target(locked, s))
        }),
    ensures
        opt_int(find_target(new_locked, sym)) == Some(gate_target(master, sym, sizing, long_only)),
        now_of(master, sym) == 0 ==> opt_int(find_target(new_locked, sym)) == Some(0int),
        long_only ==> gate_target(master, sym, sizing, long_only) >= 0,
{
    assert(sym_changed(seen, master, sym));
}

} // verus!
