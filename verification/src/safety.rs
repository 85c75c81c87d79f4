//! The re-matches of a rewritten arm never fail.
//!
//! A re-match takes the value that a name was bound to and lays the
//! substructure of that binding over it again. It succeeds as long as the
//! name still stands for the value that the binding captured, and the value
//! did come in through that binding. [`rematch_safe`] names the patterns for
//! which both are certain, and [`lemma_rewrite_accepts_same`] is the law that
//! rests on it.

use crate::hoist::{hoist, hoist_each, hoist_entries, hoist_entries_each, Entry};
use crate::pattern::PatternView;
use crate::rewrite::{
    lemma_hoist_binds_own_names, lemma_level_binds_next_level, lemma_next_level_weight,
    level_rematches, next_level, own_names, rematches, weight, RematchView,
};
use crate::semantics::{
    accepts, all_succeed, bindings, bindings_each, child_values, lemma_bindings_within_names,
    lemma_erase_hoist, lemma_hoist_accepts_same, lemma_run_concat, lemma_run_frame, scope_after,
    Host,
};
use vstd::prelude::*;

verus! {

/// No binding of `p` has a substructure.
pub open spec fn plain(p: PatternView) -> bool
    decreases p,
{
    match p {
        PatternView::NamedBinding { sub: Some(_), .. } => false,
        PatternView::Node { children, .. } => forall|i: int|
            0 <= i < children.len() ==> plain(#[trigger] children[i]),
        _ => true,
    }
}

/// No alternation of `p`, at any depth, holds a binding with a substructure.
pub open spec fn alternation_safe(p: PatternView) -> bool
    decreases p,
{
    match p {
        PatternView::NamedBinding { sub: Some(s), .. } => alternation_safe(*s),
        PatternView::Node { shape, children } => {
            if shape is Alternation {
                forall|i: int| 0 <= i < children.len() ==> plain(#[trigger] children[i])
            } else {
                forall|i: int| 0 <= i < children.len() ==> alternation_safe(#[trigger] children[i])
            }
        },
        _ => true,
    }
}

/// One if `name` is `n`, zero if not.
pub open spec fn one_if_named(name: Seq<char>, n: Seq<char>) -> nat {
    if name == n {
        1
    } else {
        0
    }
}

/// How many bindings of `p`, at any depth, have the name `n`.
pub open spec fn occurrences(p: PatternView, n: Seq<char>) -> nat
    decreases p,
{
    match p {
        PatternView::NamedBinding { name, sub: Some(s), .. } => one_if_named(name, n)
            + occurrences(*s, n),
        PatternView::NamedBinding { name, sub: None, .. } => one_if_named(name, n),
        PatternView::Node { children, .. } => occurrences_each(children, n),
        _ => 0,
    }
}

/// How many bindings of the patterns of `ps` have the name `n`.
pub open spec fn occurrences_each(ps: Seq<PatternView>, n: Seq<char>) -> nat
    decreases ps,
{
    if ps.len() == 0 {
        0
    } else {
        occurrences_each(ps.drop_last(), n) + occurrences(ps.last(), n)
    }
}

/// Some binding of `p` that has a substructure has the name `n`.
pub open spec fn binds_with_sub(p: PatternView, n: Seq<char>) -> bool
    decreases p,
{
    match p {
        PatternView::NamedBinding { name, sub: Some(s), .. } => name == n || binds_with_sub(
            *s,
            n,
        ),
        PatternView::Node { children, .. } => exists|i: int|
            0 <= i < children.len() && binds_with_sub(#[trigger] children[i], n),
        _ => false,
    }
}

/// The patterns on which every re-match is bound to succeed: no alternation
/// holds a binding with a substructure, and the name of a binding that has a
/// substructure is the name of no other binding.
pub open spec fn rematch_safe(p: PatternView) -> bool {
    &&& alternation_safe(p)
    &&& forall|n: Seq<char>| binds_with_sub(p, n) ==> occurrences(p, n) == 1
}

/// The values that the bindings recorded by the hoister capture when `p` is
/// laid over `v`: one for each entry of `hoist_entries(p)`, in the same
/// order.
pub(crate) open spec fn captured<V>(h: Host<V>, p: PatternView, v: V) -> Seq<V>
    decreases p,
{
    match p {
        PatternView::NamedBinding { .. } => seq![v],
        PatternView::Node { children, .. } => captured_each(h, children, child_values(h, p, v)),
        _ => Seq::empty(),
    }
}

/// [`captured`] for the patterns of `ps`, each laid over the value of `vs`
/// at its own index, one pattern after the other.
pub(crate) open spec fn captured_each<V>(h: Host<V>, ps: Seq<PatternView>, vs: Seq<V>) -> Seq<V>
    decreases ps,
{
    if ps.len() == 0 {
        Seq::empty()
    } else {
        captured_each(h, ps.drop_last(), vs) + captured(h, ps.last(), vs[ps.len() - 1])
    }
}

/// The hoister records one entry for each value captured.
pub(crate) proof fn lemma_captured_len<V>(h: Host<V>, p: PatternView, v: V)
    ensures
        captured(h, p, v).len() == hoist_entries(p).len(),
    decreases p,
{
    match p {
        PatternView::Node { children, .. } => {
            lemma_captured_each_len(h, children, child_values(h, p, v));
        },
        _ => {},
    }
}

/// The same for a run of patterns.
pub(crate) proof fn lemma_captured_each_len<V>(h: Host<V>, ps: Seq<PatternView>, vs: Seq<V>)
    ensures
        captured_each(h, ps, vs).len() == hoist_entries_each(ps).len(),
    decreases ps,
{
    if ps.len() > 0 {
        lemma_captured_each_len(h, ps.drop_last(), vs);
        lemma_captured_len(h, ps.last(), vs[ps.len() - 1]);
    }
}

/// The hoister records no substructure in a plain pattern.
pub(crate) proof fn lemma_plain_entries(p: PatternView)
    requires
        plain(p),
    ensures
        forall|k: int|
            0 <= k < hoist_entries(p).len() ==> (#[trigger] hoist_entries(p)[k]).sub is None,
    decreases p,
{
    match p {
        PatternView::Node { children, .. } => {
            lemma_plain_entries_each(children);
        },
        _ => {},
    }
}

/// The same for a run of patterns.
proof fn lemma_plain_entries_each(ps: Seq<PatternView>)
    requires
        forall|i: int| 0 <= i < ps.len() ==> plain(#[trigger] ps[i]),
    ensures
        forall|k: int|
            0 <= k < hoist_entries_each(ps).len() ==> (#[trigger] hoist_entries_each(
                ps,
            )[k]).sub is None,
    decreases ps,
{
    if ps.len() > 0 {
        lemma_plain_entries_each(ps.drop_last());
        lemma_plain_entries(ps.last());
    }
}

/// The substructures that the hoister records in a pattern without unsafe
/// alternations hold none either.
proof fn lemma_entries_alternation_safe(p: PatternView)
    requires
        alternation_safe(p),
    ensures
        forall|k: int|
            0 <= k < hoist_entries(p).len() ==> ((#[trigger] hoist_entries(p)[k]).sub matches Some(
                s,
            ) ==> alternation_safe(s)),
    decreases p,
{
    match p {
        PatternView::Node { shape, children } => {
            if shape is Alternation {
                lemma_plain_entries_each(children);
            } else {
                lemma_entries_alternation_safe_each(children);
            }
        },
        _ => {},
    }
}

/// The same for a run of patterns.
proof fn lemma_entries_alternation_safe_each(ps: Seq<PatternView>)
    requires
        forall|i: int| 0 <= i < ps.len() ==> alternation_safe(#[trigger] ps[i]),
    ensures
        forall|k: int|
            0 <= k < hoist_entries_each(ps).len() ==> ((#[trigger] hoist_entries_each(
                ps,
            )[k]).sub matches Some(s) ==> alternation_safe(s)),
    decreases ps,
{
    if ps.len() > 0 {
        let front = ps.drop_last();
        assert forall|i: int| 0 <= i < front.len() implies alternation_safe(
            #[trigger] front[i],
        ) by {
            assert(front[i] == ps[i]);
        }
        lemma_entries_alternation_safe_each(front);
        lemma_entries_alternation_safe(ps.last());
    }
}

/// Where a pattern accepts a value, each substructure that the hoister
/// records accepts the value that its binding captures, and holds no unsafe
/// alternation either.
pub(crate) proof fn lemma_substructure_accepts<V>(h: Host<V>, p: PatternView, v: V, k: int)
    requires
        alternation_safe(p),
        accepts(h, p, v),
        0 <= k < hoist_entries(p).len(),
        hoist_entries(p)[k].sub is Some,
    ensures
        k < captured(h, p, v).len(),
        accepts(h, hoist_entries(p)[k].sub->0, captured(h, p, v)[k]),
        alternation_safe(hoist_entries(p)[k].sub->0),
    decreases p,
{
    lemma_captured_len(h, p, v);
    match p {
        PatternView::Node { shape, children } => {
            if shape is Alternation {
                lemma_plain_entries_each(children);
            } else {
                lemma_substructure_accepts_each(h, children, child_values(h, p, v), k);
            }
        },
        _ => {},
    }
}

/// The same for a run of patterns.
proof fn lemma_substructure_accepts_each<V>(h: Host<V>, ps: Seq<PatternView>, vs: Seq<V>, k: int)
    requires
        forall|i: int| 0 <= i < ps.len() ==> alternation_safe(#[trigger] ps[i]),
        forall|i: int| 0 <= i < ps.len() ==> accepts(h, #[trigger] ps[i], vs[i]),
        0 <= k < hoist_entries_each(ps).len(),
        hoist_entries_each(ps)[k].sub is Some,
    ensures
        k < captured_each(h, ps, vs).len(),
        accepts(h, hoist_entries_each(ps)[k].sub->0, captured_each(h, ps, vs)[k]),
        alternation_safe(hoist_entries_each(ps)[k].sub->0),
    decreases ps,
{
    lemma_captured_each_len(h, ps, vs);
    if ps.len() > 0 {
        let front = ps.drop_last();
        lemma_captured_each_len(h, front, vs);
        assert forall|i: int| 0 <= i < front.len() implies alternation_safe(#[trigger] front[i])
            && accepts(h, front[i], vs[i]) by {
            assert(front[i] == ps[i]);
        }
        if k < hoist_entries_each(front).len() {
            lemma_substructure_accepts_each(h, front, vs, k);
        } else {
            lemma_substructure_accepts(
                h,
                ps.last(),
                vs[ps.len() - 1],
                k - hoist_entries_each(front).len(),
            );
        }
    }
}

/// How many entries of `q` have the name `n`.
pub(crate) open spec fn own_occurrences(q: Seq<Entry>, n: Seq<char>) -> nat
    decreases q.len(),
{
    if q.len() == 0 {
        0
    } else {
        own_occurrences(q.drop_last(), n) + one_if_named(q.last().name, n)
    }
}

/// The own occurrences of a name in two queues joined.
proof fn lemma_own_occurrences_concat(a: Seq<Entry>, b: Seq<Entry>, n: Seq<char>)
    ensures
        own_occurrences(a + b, n) == own_occurrences(a, n) + own_occurrences(b, n),
    decreases b.len(),
{
    if b.len() == 0 {
        assert(a + b =~= a);
    } else {
        lemma_own_occurrences_concat(a, b.drop_last(), n);
        assert((a + b).drop_last() =~= a + b.drop_last());
    }
}

/// An entry of a queue counts among the occurrences of its name.
pub(crate) proof fn lemma_own_occurrences_of_entry(q: Seq<Entry>, k: int)
    requires
        0 <= k < q.len(),
    ensures
        own_occurrences(q, q[k].name) >= 1,
    decreases q.len(),
{
    if k < q.len() - 1 {
        lemma_own_occurrences_of_entry(q.drop_last(), k);
    }
}

/// A name that no entry of a queue has is not among the queue's own names.
proof fn lemma_own_occurrences_none(q: Seq<Entry>, n: Seq<char>)
    requires
        own_occurrences(q, n) == 0,
    ensures
        !own_names(q).contains(n),
    decreases q.len(),
{
    if q.len() > 0 {
        lemma_own_occurrences_none(q.drop_last(), n);
    }
}

/// The flattened pattern binds the name of an entry that has a substructure
/// to the value that the entry captures, provided that no other entry has
/// the same name.
pub(crate) proof fn lemma_bindings_capture<V>(h: Host<V>, p: PatternView, v: V, k: int)
    requires
        alternation_safe(p),
        0 <= k < hoist_entries(p).len(),
        hoist_entries(p)[k].sub is Some,
        own_occurrences(hoist_entries(p), hoist_entries(p)[k].name) == 1,
    ensures
        k < captured(h, p, v).len(),
        bindings(h, hoist(p), v).contains_key(hoist_entries(p)[k].name),
        bindings(h, hoist(p), v)[hoist_entries(p)[k].name] == captured(h, p, v)[k],
    decreases p,
{
    lemma_captured_len(h, p, v);
    match p {
        PatternView::Node { shape, children } => {
            if shape is Alternation {
                lemma_plain_entries_each(children);
            } else {
                lemma_erase_hoist(p);
                assert(child_values(h, hoist(p), v) == child_values(h, p, v));
                lemma_bindings_capture_each(h, children, child_values(h, p, v), k);
            }
        },
        _ => {},
    }
}

/// The same for a run of patterns.
proof fn lemma_bindings_capture_each<V>(h: Host<V>, ps: Seq<PatternView>, vs: Seq<V>, k: int)
    requires
        forall|i: int| 0 <= i < ps.len() ==> alternation_safe(#[trigger] ps[i]),
        0 <= k < hoist_entries_each(ps).len(),
        hoist_entries_each(ps)[k].sub is Some,
        own_occurrences(hoist_entries_each(ps), hoist_entries_each(ps)[k].name) == 1,
    ensures
        k < captured_each(h, ps, vs).len(),
        bindings_each(h, hoist_each(ps), vs).contains_key(hoist_entries_each(ps)[k].name),
        bindings_each(h, hoist_each(ps), vs)[hoist_entries_each(ps)[k].name] == captured_each(
            h,
            ps,
            vs,
        )[k],
    decreases ps,
{
    lemma_captured_each_len(h, ps, vs);
    if ps.len() > 0 {
        let front = ps.drop_last();
        let last = ps.last();
        let part = vs[ps.len() - 1];
        let q_front = hoist_entries_each(front);
        let q_last = hoist_entries(last);
        let n = hoist_entries_each(ps)[k].name;
        lemma_captured_each_len(h, front, vs);
        lemma_own_occurrences_concat(q_front, q_last, n);
        assert(hoist_each(ps).drop_last() =~= hoist_each(front));
        assert(hoist_each(ps).last() == hoist(last));
        assert forall|i: int| 0 <= i < front.len() implies alternation_safe(
            #[trigger] front[i],
        ) by {
            assert(front[i] == ps[i]);
        }
        if k < q_front.len() {
            lemma_own_occurrences_of_entry(q_front, k);
            lemma_bindings_capture_each(h, front, vs, k);
            lemma_own_occurrences_none(q_last, n);
            lemma_hoist_binds_own_names(last);
            lemma_bindings_within_names(h, hoist(last), part);
            assert(!bindings(h, hoist(last), part).contains_key(n));
        } else {
            lemma_own_occurrences_of_entry(q_last, k - q_front.len());
            lemma_bindings_capture(h, last, part, k - q_front.len());
        }
    }
}

/// How many bindings the entry `e` stands for that have the name `n`: its
/// own, and those of its substructure.
pub(crate) open spec fn entry_occurrences(e: Entry, n: Seq<char>) -> nat {
    one_if_named(e.name, n) + match e.sub {
        Some(s) => occurrences(s, n),
        None => 0,
    }
}

/// How many bindings the entries of `q` stand for that have the name `n`.
pub(crate) open spec fn queue_occurrences(q: Seq<Entry>, n: Seq<char>) -> nat
    decreases q.len(),
{
    if q.len() == 0 {
        0
    } else {
        queue_occurrences(q.drop_last(), n) + entry_occurrences(q.last(), n)
    }
}

/// The entry `e` has a substructure, and it or a binding with a
/// substructure inside it has the name `n`.
pub(crate) open spec fn entry_binds_with_sub(e: Entry, n: Seq<char>) -> bool {
    e.sub matches Some(s) && (e.name == n || binds_with_sub(s, n))
}

/// Some entry of `q` binds `n` with a substructure, itself or further in.
pub(crate) open spec fn queue_binds_with_sub(q: Seq<Entry>, n: Seq<char>) -> bool {
    exists|k: int| 0 <= k < q.len() && entry_binds_with_sub(#[trigger] q[k], n)
}

/// What [`rematch_safe`] says of a pattern, said of a queue of entries.
pub(crate) open spec fn queue_safe(q: Seq<Entry>) -> bool {
    &&& forall|k: int|
        0 <= k < q.len() ==> ((#[trigger] q[k]).sub matches Some(s) ==> alternation_safe(s))
    &&& forall|n: Seq<char>| queue_binds_with_sub(q, n) ==> queue_occurrences(q, n) == 1
}

/// The occurrences of a name in two queues joined.
proof fn lemma_queue_occurrences_concat(a: Seq<Entry>, b: Seq<Entry>, n: Seq<char>)
    ensures
        queue_occurrences(a + b, n) == queue_occurrences(a, n) + queue_occurrences(b, n),
    decreases b.len(),
{
    if b.len() == 0 {
        assert(a + b =~= a);
    } else {
        lemma_queue_occurrences_concat(a, b.drop_last(), n);
        assert((a + b).drop_last() =~= a + b.drop_last());
    }
}

/// A queue counts at least what one of its entries counts.
proof fn lemma_queue_occurrences_of_entry(q: Seq<Entry>, k: int, n: Seq<char>)
    requires
        0 <= k < q.len(),
    ensures
        queue_occurrences(q, n) >= entry_occurrences(q[k], n),
    decreases q.len(),
{
    if k < q.len() - 1 {
        lemma_queue_occurrences_of_entry(q.drop_last(), k, n);
    }
}

/// The own occurrences of a name are among all its occurrences.
pub(crate) proof fn lemma_own_occurrences_bound(q: Seq<Entry>, n: Seq<char>)
    ensures
        own_occurrences(q, n) <= queue_occurrences(q, n),
    decreases q.len(),
{
    if q.len() > 0 {
        lemma_own_occurrences_bound(q.drop_last(), n);
    }
}

/// The entries of a pattern stand for every binding of the pattern.
proof fn lemma_entries_occurrences(p: PatternView, n: Seq<char>)
    ensures
        queue_occurrences(hoist_entries(p), n) == occurrences(p, n),
    decreases p,
{
    match p {
        PatternView::NamedBinding { .. } => {
            let q = hoist_entries(p);
            assert(q.drop_last() =~= Seq::<Entry>::empty());
            assert(queue_occurrences(q.drop_last(), n) == 0);
        },
        PatternView::Node { children, .. } => {
            lemma_entries_occurrences_each(children, n);
        },
        _ => {},
    }
}

/// The same for a run of patterns.
proof fn lemma_entries_occurrences_each(ps: Seq<PatternView>, n: Seq<char>)
    ensures
        queue_occurrences(hoist_entries_each(ps), n) == occurrences_each(ps, n),
    decreases ps,
{
    if ps.len() > 0 {
        lemma_entries_occurrences_each(ps.drop_last(), n);
        lemma_entries_occurrences(ps.last(), n);
        lemma_queue_occurrences_concat(
            hoist_entries_each(ps.drop_last()),
            hoist_entries(ps.last()),
            n,
        );
    }
}

/// What a queue counts is what its entries count themselves and what the
/// level below counts.
proof fn lemma_queue_occurrences_unfold(q: Seq<Entry>, n: Seq<char>)
    ensures
        queue_occurrences(q, n) == own_occurrences(q, n) + queue_occurrences(next_level(q), n),
    decreases q.len(),
{
    if q.len() > 0 {
        lemma_queue_occurrences_unfold(q.drop_last(), n);
        match q.last().sub {
            Some(s) => {
                lemma_entries_occurrences(s, n);
                lemma_queue_occurrences_concat(next_level(q.drop_last()), hoist_entries(s), n);
            },
            None => {
                assert(next_level(q) =~= next_level(q.drop_last()));
            },
        }
    }
}

/// A binding with a substructure is a binding.
proof fn lemma_binds_with_sub_occurs(p: PatternView, n: Seq<char>)
    requires
        binds_with_sub(p, n),
    ensures
        occurrences(p, n) >= 1,
    decreases p,
{
    match p {
        PatternView::NamedBinding { name, sub: Some(s), .. } => {
            if name != n {
                lemma_binds_with_sub_occurs(*s, n);
            }
        },
        PatternView::Node { children, .. } => {
            let i = choose|i: int|
                0 <= i < children.len() && binds_with_sub(#[trigger] children[i], n);
            lemma_binds_with_sub_occurs(children[i], n);
            lemma_occurrences_of_child(children, i, n);
        },
        _ => {},
    }
}

/// A run of patterns has at least the occurrences that one of them has.
proof fn lemma_occurrences_of_child(ps: Seq<PatternView>, i: int, n: Seq<char>)
    requires
        0 <= i < ps.len(),
    ensures
        occurrences_each(ps, n) >= occurrences(ps[i], n),
    decreases ps.len(),
{
    if i < ps.len() - 1 {
        lemma_occurrences_of_child(ps.drop_last(), i, n);
    }
}

/// Where a queue binds a name with a substructure, the name occurs in it.
proof fn lemma_queue_binds_with_sub_occurs(q: Seq<Entry>, n: Seq<char>)
    requires
        queue_binds_with_sub(q, n),
    ensures
        queue_occurrences(q, n) >= 1,
{
    let k = choose|k: int| 0 <= k < q.len() && entry_binds_with_sub(#[trigger] q[k], n);
    lemma_queue_occurrences_of_entry(q, k, n);
    if q[k].name != n {
        lemma_binds_with_sub_occurs(q[k].sub->0, n);
    }
}

/// Two queues joined bind with a substructure what either does.
proof fn lemma_queue_binds_with_sub_concat(a: Seq<Entry>, b: Seq<Entry>, n: Seq<char>)
    ensures
        queue_binds_with_sub(a + b, n) <==> queue_binds_with_sub(a, n) || queue_binds_with_sub(
            b,
            n,
        ),
{
    if queue_binds_with_sub(a + b, n) {
        let k = choose|k: int|
            0 <= k < (a + b).len() && entry_binds_with_sub(#[trigger] (a + b)[k], n);
        if k < a.len() {
            assert(entry_binds_with_sub(a[k], n));
        } else {
            assert(entry_binds_with_sub(b[k - a.len()], n));
        }
    }
    if queue_binds_with_sub(a, n) {
        let k = choose|k: int| 0 <= k < a.len() && entry_binds_with_sub(#[trigger] a[k], n);
        assert(entry_binds_with_sub((a + b)[k], n));
    }
    if queue_binds_with_sub(b, n) {
        let k = choose|k: int| 0 <= k < b.len() && entry_binds_with_sub(#[trigger] b[k], n);
        assert(entry_binds_with_sub((a + b)[k + a.len()], n));
    }
}

/// What the entries of a pattern bind with a substructure, the pattern does.
proof fn lemma_entries_bind_with_sub(p: PatternView, n: Seq<char>)
    requires
        queue_binds_with_sub(hoist_entries(p), n),
    ensures
        binds_with_sub(p, n),
    decreases p,
{
    match p {
        PatternView::Node { children, .. } => {
            lemma_entries_bind_with_sub_each(children, n);
        },
        _ => {},
    }
}

/// The same for a run of patterns.
proof fn lemma_entries_bind_with_sub_each(ps: Seq<PatternView>, n: Seq<char>)
    requires
        queue_binds_with_sub(hoist_entries_each(ps), n),
    ensures
        exists|i: int| 0 <= i < ps.len() && binds_with_sub(#[trigger] ps[i], n),
    decreases ps,
{
    if ps.len() > 0 {
        let front = ps.drop_last();
        lemma_queue_binds_with_sub_concat(hoist_entries_each(front), hoist_entries(ps.last()), n);
        if queue_binds_with_sub(hoist_entries_each(front), n) {
            lemma_entries_bind_with_sub_each(front, n);
            let i = choose|i: int| 0 <= i < front.len() && binds_with_sub(#[trigger] front[i], n);
            assert(binds_with_sub(ps[i], n));
        } else {
            lemma_entries_bind_with_sub(ps.last(), n);
            assert(binds_with_sub(ps[ps.len() - 1], n));
        }
    }
}

/// What the level below binds with a substructure, the queue does.
proof fn lemma_next_level_binds_with_sub(q: Seq<Entry>, n: Seq<char>)
    requires
        queue_binds_with_sub(next_level(q), n),
    ensures
        queue_binds_with_sub(q, n),
    decreases q.len(),
{
    if q.len() > 0 {
        let front = q.drop_last();
        match q.last().sub {
            Some(s) => {
                lemma_queue_binds_with_sub_concat(next_level(front), hoist_entries(s), n);
                if queue_binds_with_sub(next_level(front), n) {
                    lemma_next_level_binds_with_sub(front, n);
                    let k = choose|k: int|
                        0 <= k < front.len() && entry_binds_with_sub(#[trigger] front[k], n);
                    assert(entry_binds_with_sub(q[k], n));
                } else {
                    lemma_entries_bind_with_sub(s, n);
                    assert(entry_binds_with_sub(q[q.len() - 1], n));
                }
            },
            None => {
                assert(next_level(q) =~= next_level(front));
                lemma_next_level_binds_with_sub(front, n);
                let k = choose|k: int|
                    0 <= k < front.len() && entry_binds_with_sub(#[trigger] front[k], n);
                assert(entry_binds_with_sub(q[k], n));
            },
        }
    }
}

/// The entries of a safe pattern make a safe queue.
pub(crate) proof fn lemma_entries_safe(p: PatternView)
    requires
        rematch_safe(p),
    ensures
        queue_safe(hoist_entries(p)),
{
    let q = hoist_entries(p);
    lemma_entries_alternation_safe(p);
    assert forall|n: Seq<char>| queue_binds_with_sub(q, n) implies queue_occurrences(q, n)
        == 1 by {
        lemma_entries_bind_with_sub(p, n);
        lemma_entries_occurrences(p, n);
    }
}

/// The substructures of the level below a safe queue are free of unsafe
/// alternations.
proof fn lemma_next_level_alternation_safe(q: Seq<Entry>)
    requires
        forall|k: int|
            0 <= k < q.len() ==> ((#[trigger] q[k]).sub matches Some(s) ==> alternation_safe(s)),
    ensures
        forall|k: int|
            0 <= k < next_level(q).len() ==> ((#[trigger] next_level(q)[k]).sub matches Some(s)
                ==> alternation_safe(s)),
    decreases q.len(),
{
    if q.len() > 0 {
        let front = q.drop_last();
        assert forall|k: int| 0 <= k < front.len() implies ((#[trigger] front[k]).sub matches Some(
            s,
        ) ==> alternation_safe(s)) by {
            assert(front[k] == q[k]);
        }
        lemma_next_level_alternation_safe(front);
        match q.last().sub {
            Some(s) => {
                assert(q[q.len() - 1].sub == Some(s));
                lemma_entries_alternation_safe(s);
            },
            None => {
                assert(next_level(q) =~= next_level(front));
            },
        }
    }
}

/// The level below a safe queue is safe.
pub(crate) proof fn lemma_next_level_safe(q: Seq<Entry>)
    requires
        queue_safe(q),
    ensures
        queue_safe(next_level(q)),
{
    lemma_next_level_alternation_safe(q);
    let below = next_level(q);
    assert forall|n: Seq<char>| queue_binds_with_sub(below, n) implies queue_occurrences(
        below,
        n,
    ) == 1 by {
        lemma_next_level_binds_with_sub(q, n);
        lemma_queue_occurrences_unfold(q, n);
        lemma_queue_binds_with_sub_occurs(below, n);
    }
}

/// The front part of a safe queue is safe.
proof fn lemma_front_safe(q: Seq<Entry>)
    requires
        queue_safe(q),
        q.len() > 0,
    ensures
        queue_safe(q.drop_last()),
{
    let front = q.drop_last();
    assert forall|k: int| 0 <= k < front.len() implies ((#[trigger] front[k]).sub matches Some(
        s,
    ) ==> alternation_safe(s)) by {
        assert(front[k] == q[k]);
    }
    assert forall|n: Seq<char>| queue_binds_with_sub(front, n) implies queue_occurrences(
        front,
        n,
    ) == 1 by {
        let k = choose|k: int| 0 <= k < front.len() && entry_binds_with_sub(#[trigger] front[k], n);
        assert(entry_binds_with_sub(q[k], n));
        assert(queue_binds_with_sub(q, n));
        assert(queue_occurrences(q, n) == 1);
        lemma_queue_binds_with_sub_occurs(front, n);
    }
}

/// The scope holds the name of every entry of `q` that has a substructure,
/// with the value of `ws` at the entry's index.
pub(crate) open spec fn in_scope<V>(q: Seq<Entry>, ws: Seq<V>, scope: Map<Seq<char>, V>) -> bool {
    forall|k: int|
        0 <= k < q.len() && (#[trigger] q[k]).sub is Some ==> scope.contains_key(q[k].name)
            && scope[q[k].name] == ws[k]
}

/// Every substructure of `q` accepts the value of `ws` at its entry's index.
pub(crate) open spec fn subs_accept<V>(h: Host<V>, q: Seq<Entry>, ws: Seq<V>) -> bool {
    forall|k: int|
        0 <= k < q.len() ==> ((#[trigger] q[k]).sub matches Some(s) ==> accepts(h, s, ws[k]))
}

/// The values captured one level below `q`, in the order of
/// `next_level(q)`, when each substructure of `q` is laid over the value of
/// `ws` at its entry's index.
pub(crate) open spec fn captured_below<V>(h: Host<V>, q: Seq<Entry>, ws: Seq<V>) -> Seq<V>
    decreases q.len(),
{
    if q.len() == 0 {
        Seq::empty()
    } else {
        captured_below(h, q.drop_last(), ws) + match q.last().sub {
            Some(s) => captured(h, s, ws[q.len() - 1]),
            None => Seq::empty(),
        }
    }
}

/// What the re-matches of the level `q` bring into scope: for each entry
/// that has a substructure, what the flattened substructure binds on the
/// value of `ws` at the entry's index; a later entry wins over an earlier.
pub(crate) open spec fn opened<V>(h: Host<V>, q: Seq<Entry>, ws: Seq<V>) -> Map<Seq<char>, V>
    decreases q.len(),
{
    if q.len() == 0 {
        Map::empty()
    } else {
        opened(h, q.drop_last(), ws).union_prefer_right(
            match q.last().sub {
                Some(s) => bindings(h, hoist(s), ws[q.len() - 1]),
                None => Map::empty(),
            },
        )
    }
}

/// One value is captured for each entry of the level below.
pub(crate) proof fn lemma_captured_below_len<V>(h: Host<V>, q: Seq<Entry>, ws: Seq<V>)
    ensures
        captured_below(h, q, ws).len() == next_level(q).len(),
    decreases q.len(),
{
    if q.len() > 0 {
        lemma_captured_below_len(h, q.drop_last(), ws);
        if let Some(s) = q.last().sub {
            lemma_captured_len(h, s, ws[q.len() - 1]);
        }
    }
}

/// One level of the drain. Where the scope holds what the entries of a safe
/// queue captured and each substructure accepts its value, the re-matches of
/// the level all succeed, and afterwards the same holds one level below.
pub(crate) proof fn lemma_level_succeeds<V>(
    h: Host<V>,
    q: Seq<Entry>,
    ws: Seq<V>,
    scope: Map<Seq<char>, V>,
)
    requires
        queue_safe(q),
        in_scope(q, ws, scope),
        subs_accept(h, q, ws),
    ensures
        all_succeed(h, level_rematches(q), scope),
        scope_after(h, level_rematches(q), scope) == scope.union_prefer_right(opened(h, q, ws)),
        in_scope(
            next_level(q),
            captured_below(h, q, ws),
            scope_after(h, level_rematches(q), scope),
        ),
        subs_accept(h, next_level(q), captured_below(h, q, ws)),
    decreases q.len(),
{
    if q.len() == 0 {
        assert(scope =~= scope.union_prefer_right(opened(h, q, ws)));
    } else {
        let front = q.drop_last();
        let last = q.last();
        let below_front = next_level(front);
        let ws_front = captured_below(h, front, ws);
        let scope_front = scope_after(h, level_rematches(front), scope);
        lemma_front_safe(q);
        assert(in_scope(front, ws, scope)) by {
            assert forall|k: int|
                0 <= k < front.len() && (#[trigger] front[k]).sub is Some implies {
                &&& scope.contains_key(front[k].name)
                &&& scope[front[k].name] == ws[k]
            } by {
                assert(front[k] == q[k]);
            }
        }
        assert(subs_accept(h, front, ws)) by {
            assert forall|k: int| 0 <= k < front.len() implies {
                (#[trigger] front[k]).sub matches Some(s) ==> accepts(h, s, ws[k])
            } by {
                assert(front[k] == q[k]);
            }
        }
        lemma_level_succeeds(h, front, ws, scope);
        lemma_captured_below_len(h, front, ws);
        match last.sub {
            None => {
                assert(next_level(q) =~= below_front);
                assert(level_rematches(q) =~= level_rematches(front));
                assert(captured_below(h, q, ws) =~= ws_front);
                assert(opened(h, q, ws) =~= opened(h, front, ws));
            },
            Some(s) => {
                let n = last.name;
                let w = ws[q.len() - 1];
                let stmt = RematchView { name: n, pat: hoist(s) };
                let stmts = level_rematches(q);
                let below = next_level(q);
                let ws_below = captured_below(h, q, ws);
                let added = bindings(h, hoist(s), w);
                let scope_below = scope_after(h, stmts, scope);
                assert(q[q.len() - 1] == last);
                assert(alternation_safe(s));
                assert(accepts(h, s, w));
                assert(scope.contains_key(n) && scope[n] == w);
                assert(stmts.drop_last() =~= level_rematches(front));
                assert(stmts.last() == stmt);
                // The name of the entry is bound nowhere else, so the
                // re-matches before this one have left it alone.
                assert(entry_binds_with_sub(q[q.len() - 1], n));
                assert(queue_binds_with_sub(q, n));
                assert(queue_occurrences(q, n) == 1);
                lemma_queue_occurrences_unfold(front, n);
                lemma_own_occurrences_bound(below_front, n);
                lemma_own_occurrences_none(below_front, n);
                lemma_level_binds_next_level(front);
                lemma_run_frame(h, level_rematches(front), scope, n);
                assert(scope_front.contains_key(n) && scope_front[n] == w);
                lemma_hoist_accepts_same(h, s, w);
                assert(all_succeed(h, stmts, scope));
                assert(scope_below == scope_front.union_prefer_right(added));
                assert(scope_below =~= scope.union_prefer_right(opened(h, q, ws)));
                lemma_next_level_safe(q);
                lemma_captured_len(h, s, w);
                assert forall|j: int|
                    0 <= j < below.len() && (#[trigger] below[j]).sub is Some implies {
                    &&& scope_below.contains_key(below[j].name)
                    &&& scope_below[below[j].name] == ws_below[j]
                } by {
                    let m = below[j].name;
                    assert(entry_binds_with_sub(below[j], m));
                    assert(queue_binds_with_sub(below, m));
                    assert(queue_occurrences(below, m) == 1);
                    lemma_own_occurrences_bound(below, m);
                    lemma_own_occurrences_concat(below_front, hoist_entries(s), m);
                    if j < below_front.len() {
                        assert(below[j] == below_front[j]);
                        lemma_own_occurrences_of_entry(below_front, j);
                        lemma_own_occurrences_none(hoist_entries(s), m);
                        lemma_hoist_binds_own_names(s);
                        lemma_bindings_within_names(h, hoist(s), w);
                        assert(!added.contains_key(m));
                        assert(ws_below[j] == ws_front[j]);
                    } else {
                        let i = j - below_front.len();
                        assert(below[j] == hoist_entries(s)[i]);
                        lemma_own_occurrences_of_entry(hoist_entries(s), i);
                        lemma_bindings_capture(h, s, w, i);
                        assert(ws_below[j] == captured(h, s, w)[i]);
                    }
                }
                assert forall|j: int| 0 <= j < below.len() implies {
                    (#[trigger] below[j]).sub matches Some(t) ==> accepts(h, t, ws_below[j])
                } by {
                    if j < below_front.len() {
                        assert(below[j] == below_front[j]);
                        assert(ws_below[j] == ws_front[j]);
                    } else {
                        let i = j - below_front.len();
                        assert(below[j] == hoist_entries(s)[i]);
                        assert(ws_below[j] == captured(h, s, w)[i]);
                        if below[j].sub is Some {
                            lemma_substructure_accepts(h, s, w, i);
                        }
                    }
                }
            },
        }
    }
}

/// The whole drain. Where the scope holds what the entries of a safe queue
/// captured and each substructure accepts its value, every re-match that the
/// queue gives rise to succeeds.
proof fn lemma_drain_succeeds<V>(h: Host<V>, q: Seq<Entry>, ws: Seq<V>, scope: Map<Seq<char>, V>)
    requires
        queue_safe(q),
        in_scope(q, ws, scope),
        subs_accept(h, q, ws),
    ensures
        all_succeed(h, rematches(q), scope),
    decreases weight(q),
{
    if q.len() > 0 {
        lemma_level_succeeds(h, q, ws, scope);
        lemma_next_level_safe(q);
        lemma_next_level_weight(q);
        lemma_drain_succeeds(
            h,
            next_level(q),
            captured_below(h, q, ws),
            scope_after(h, level_rematches(q), scope),
        );
        lemma_run_concat(h, level_rematches(q), rematches(next_level(q)), scope);
    }
}

/// The flattened pattern opens the scope that the drain starts from: where a
/// safe pattern accepts a value, the name of each entry that has a
/// substructure stands for the value that the entry captured, and the
/// substructure accepts that value.
pub(crate) proof fn lemma_entries_in_scope<V>(h: Host<V>, p: PatternView, v: V)
    requires
        rematch_safe(p),
        accepts(h, p, v),
    ensures
        queue_safe(hoist_entries(p)),
        in_scope(hoist_entries(p), captured(h, p, v), bindings(h, hoist(p), v)),
        subs_accept(h, hoist_entries(p), captured(h, p, v)),
{
    let q = hoist_entries(p);
    let ws = captured(h, p, v);
    let scope = bindings(h, hoist(p), v);
    lemma_entries_safe(p);
    assert forall|k: int| 0 <= k < q.len() && (#[trigger] q[k]).sub is Some implies {
        &&& scope.contains_key(q[k].name)
        &&& scope[q[k].name] == ws[k]
    } by {
        let n = q[k].name;
        assert(entry_binds_with_sub(q[k], n));
        assert(queue_binds_with_sub(q, n));
        assert(queue_occurrences(q, n) == 1);
        lemma_own_occurrences_bound(q, n);
        lemma_own_occurrences_of_entry(q, k);
        lemma_bindings_capture(h, p, v, k);
    }
    assert forall|k: int| 0 <= k < q.len() implies ((#[trigger] q[k]).sub matches Some(s)
        ==> accepts(h, s, ws[k])) by {
        if q[k].sub is Some {
            lemma_substructure_accepts(h, p, v, k);
        }
    }
}

/// The re-matches never fail: where a safe pattern accepts a value, every
/// re-match of the rewritten arm, run in order in the scope that the
/// flattened pattern opens, finds its name bound and accepts the value bound
/// to it.
pub proof fn lemma_rematches_succeed<V>(h: Host<V>, p: PatternView, v: V)
    requires
        rematch_safe(p),
        accepts(h, p, v),
    ensures
        all_succeed(h, rematches(hoist_entries(p)), bindings(h, hoist(p), v)),
{
    lemma_entries_in_scope(h, p, v);
    lemma_drain_succeeds(h, hoist_entries(p), captured(h, p, v), bindings(h, hoist(p), v));
}

/// Acceptance is kept: a safe pattern accepts a value exactly when the
/// flattened pattern accepts it and every re-match of the rewritten arm then
/// succeeds.
pub proof fn lemma_rewrite_accepts_same<V>(h: Host<V>, p: PatternView, v: V)
    requires
        rematch_safe(p),
    ensures
        accepts(h, p, v) <==> accepts(h, hoist(p), v) && all_succeed(
            h,
            rematches(hoist_entries(p)),
            bindings(h, hoist(p), v),
        ),
{
    lemma_hoist_accepts_same(h, p, v);
    if accepts(h, p, v) {
        lemma_rematches_succeed(h, p, v);
    }
}

} // verus!
