//! The body of a rewritten arm sees every name with the value it had before.

use crate::erase::{binding_free, erase, lemma_erase_binding_free};
use crate::hoist::{
    hoist, hoist_each, hoist_entries, hoist_entries_each, lemma_binding_free_names,
    lemma_hoist_keeps_names, names, names_each, Entry,
};
use crate::pattern::PatternView;
use crate::rewrite::{lemma_next_level_weight, level_rematches, next_level, rematches, weight};
use crate::safety::{
    alternation_safe, binds_with_sub, captured, captured_below, captured_each, in_scope,
    lemma_captured_below_len, lemma_captured_each_len, lemma_captured_len,
    lemma_entries_in_scope, lemma_level_succeeds, lemma_next_level_safe, lemma_plain_entries,
    occurrences, occurrences_each, opened, plain, queue_safe, rematch_safe, subs_accept,
};
use crate::semantics::{
    accepts, bindings, bindings_each, child_values, lemma_bindings_within_names,
    lemma_erase_hoist, lemma_run_concat, scope_after, Host,
};
use vstd::prelude::*;

verus! {

/// No name is bound twice on one way through `p`: a binding does not bind
/// its own name again in its substructure, and the children of a node other
/// than an alternation bind different names.
pub open spec fn well_named(p: PatternView) -> bool
    decreases p,
{
    match p {
        PatternView::NamedBinding { name, sub: Some(s), .. } => !names(*s).contains(name)
            && well_named(*s),
        PatternView::Node { shape, children } => {
            &&& forall|i: int| 0 <= i < children.len() ==> well_named(#[trigger] children[i])
            &&& shape is Alternation || forall|i: int, j: int|
                0 <= i < j < children.len() ==> names(#[trigger] children[i]).disjoint(
                    names(#[trigger] children[j]),
                )
        },
        _ => true,
    }
}

/// What is still to be bound for the entries of `q`: for each entry that has
/// a substructure, what the substructure binds on the value of `ws` at the
/// entry's index; a later entry wins over an earlier.
pub(crate) open spec fn deferred<V>(h: Host<V>, q: Seq<Entry>, ws: Seq<V>) -> Map<Seq<char>, V>
    decreases q.len(),
{
    if q.len() == 0 {
        Map::empty()
    } else {
        deferred(h, q.drop_last(), ws).union_prefer_right(
            match q.last().sub {
                Some(s) => bindings(h, s, ws[q.len() - 1]),
                None => Map::empty(),
            },
        )
    }
}

/// The names that the substructures of `q` bind.
pub(crate) open spec fn sub_names(q: Seq<Entry>) -> Set<Seq<char>>
    decreases q.len(),
{
    if q.len() == 0 {
        Set::empty()
    } else {
        sub_names(q.drop_last()).union(
            match q.last().sub {
                Some(s) => names(s),
                None => Set::empty(),
            },
        )
    }
}

/// The substructures of `q` are well named, and no two of them bind the
/// same name.
pub(crate) open spec fn queue_well_named(q: Seq<Entry>) -> bool
    decreases q.len(),
{
    if q.len() == 0 {
        true
    } else {
        &&& queue_well_named(q.drop_last())
        &&& match q.last().sub {
            Some(s) => well_named(s) && sub_names(q.drop_last()).disjoint(names(s)),
            None => true,
        }
    }
}

/// The names of the substructures of two queues joined are those of both.
proof fn lemma_sub_names_concat(a: Seq<Entry>, b: Seq<Entry>)
    ensures
        sub_names(a + b) == sub_names(a).union(sub_names(b)),
    decreases b.len(),
{
    if b.len() == 0 {
        assert(a + b =~= a);
        assert(sub_names(a + b) =~= sub_names(a).union(sub_names(b)));
    } else {
        lemma_sub_names_concat(a, b.drop_last());
        assert((a + b).drop_last() =~= a + b.drop_last());
        assert(sub_names(a + b) =~= sub_names(a).union(sub_names(b)));
    }
}

/// A queue joined from two is well named when both are and their
/// substructures share no name.
proof fn lemma_queue_well_named_concat(a: Seq<Entry>, b: Seq<Entry>)
    requires
        queue_well_named(a),
        queue_well_named(b),
        sub_names(a).disjoint(sub_names(b)),
    ensures
        queue_well_named(a + b),
    decreases b.len(),
{
    if b.len() == 0 {
        assert(a + b =~= a);
    } else {
        lemma_queue_well_named_concat(a, b.drop_last());
        lemma_sub_names_concat(a, b.drop_last());
        assert((a + b).drop_last() =~= a + b.drop_last());
    }
}

/// What is still to be bound for a queue binds only names of its
/// substructures.
proof fn lemma_deferred_within_sub_names<V>(h: Host<V>, q: Seq<Entry>, ws: Seq<V>)
    ensures
        deferred(h, q, ws).dom().subset_of(sub_names(q)),
    decreases q.len(),
{
    if q.len() > 0 {
        lemma_deferred_within_sub_names(h, q.drop_last(), ws);
        if let Some(s) = q.last().sub {
            lemma_bindings_within_names(h, s, ws[q.len() - 1]);
        }
    }
}

/// The substructures of the entries of a pattern bind only names of the
/// pattern.
proof fn lemma_sub_names_within_names(p: PatternView)
    ensures
        sub_names(hoist_entries(p)).subset_of(names(p)),
    decreases p,
{
    match p {
        PatternView::NamedBinding { .. } => {
            let q = hoist_entries(p);
            assert(q.drop_last() =~= Seq::<Entry>::empty());
            assert(sub_names(q.drop_last()) =~= Set::<Seq<char>>::empty());
        },
        PatternView::Node { children, .. } => {
            lemma_sub_names_within_names_each(children);
        },
        _ => {},
    }
}

/// The same for a run of patterns.
proof fn lemma_sub_names_within_names_each(ps: Seq<PatternView>)
    ensures
        sub_names(hoist_entries_each(ps)).subset_of(names_each(ps)),
    decreases ps,
{
    if ps.len() > 0 {
        lemma_sub_names_within_names_each(ps.drop_last());
        lemma_sub_names_within_names(ps.last());
        lemma_sub_names_concat(hoist_entries_each(ps.drop_last()), hoist_entries(ps.last()));
    }
}

/// The names of the level below are names of the substructures.
proof fn lemma_next_level_sub_names(q: Seq<Entry>)
    ensures
        sub_names(next_level(q)).subset_of(sub_names(q)),
    decreases q.len(),
{
    if q.len() > 0 {
        lemma_next_level_sub_names(q.drop_last());
        match q.last().sub {
            Some(s) => {
                lemma_sub_names_within_names(s);
                lemma_sub_names_concat(next_level(q.drop_last()), hoist_entries(s));
            },
            None => {
                assert(next_level(q) =~= next_level(q.drop_last()));
            },
        }
    }
}

/// What is still to be bound depends on the values at the entries' indices
/// only.
proof fn lemma_deferred_values<V>(h: Host<V>, q: Seq<Entry>, ws: Seq<V>, xs: Seq<V>)
    requires
        forall|k: int| 0 <= k < q.len() ==> ws[k] == xs[k],
    ensures
        deferred(h, q, ws) == deferred(h, q, xs),
    decreases q.len(),
{
    if q.len() > 0 {
        lemma_deferred_values(h, q.drop_last(), ws, xs);
    }
}

/// What is still to be bound for two queues joined.
proof fn lemma_deferred_concat<V>(h: Host<V>, a: Seq<Entry>, ws: Seq<V>, b: Seq<Entry>, xs: Seq<V>)
    requires
        ws.len() == a.len(),
        b.len() <= xs.len(),
    ensures
        deferred(h, a + b, ws + xs) == deferred(h, a, ws).union_prefer_right(
            deferred(h, b, xs),
        ),
    decreases b.len(),
{
    if b.len() == 0 {
        assert(a + b =~= a);
        lemma_deferred_values(h, a, ws + xs, ws);
        assert(deferred(h, a, ws).union_prefer_right(deferred(h, b, xs)) =~= deferred(h, a, ws));
    } else {
        lemma_deferred_concat(h, a, ws, b.drop_last(), xs);
        assert((a + b).drop_last() =~= a + b.drop_last());
        assert((ws + xs)[(a + b).len() - 1] == xs[b.len() - 1]);
        assert(deferred(h, a + b, ws + xs) =~= deferred(h, a, ws).union_prefer_right(
            deferred(h, b, xs),
        ));
    }
}

/// A pattern without bindings binds nothing.
proof fn lemma_binding_free_binds_nothing<V>(h: Host<V>, p: PatternView, v: V)
    requires
        binding_free(p),
    ensures
        bindings(h, p, v) == Map::<Seq<char>, V>::empty(),
{
    lemma_binding_free_names(p);
    lemma_bindings_within_names(h, p, v);
    assert(bindings(h, p, v) =~= Map::<Seq<char>, V>::empty());
}

/// Hoisting changes nothing in a plain pattern.
proof fn lemma_hoist_fixes_plain(p: PatternView)
    requires
        plain(p),
    ensures
        hoist(p) == p,
    decreases p,
{
    match p {
        PatternView::Node { children, .. } => {
            assert forall|i: int| 0 <= i < children.len() implies hoist_each(children)[i]
                == children[i] by {
                lemma_hoist_fixes_plain(children[i]);
            }
            assert(hoist_each(children) =~= children);
        },
        _ => {},
    }
}

/// A queue without substructures is well named.
proof fn lemma_plain_queue_well_named(q: Seq<Entry>)
    requires
        forall|k: int| 0 <= k < q.len() ==> (#[trigger] q[k]).sub is None,
    ensures
        sub_names(q) == Set::<Seq<char>>::empty(),
        queue_well_named(q),
    decreases q.len(),
{
    if q.len() > 0 {
        let front = q.drop_last();
        assert forall|k: int| 0 <= k < front.len() implies (#[trigger] front[k]).sub is None by {
            assert(front[k] == q[k]);
        }
        lemma_plain_queue_well_named(front);
        assert(q[q.len() - 1].sub is None);
        assert(sub_names(q) =~= Set::<Seq<char>>::empty());
    }
}

/// Nothing is still to be bound for a queue without substructures.
proof fn lemma_deferred_of_plain<V>(h: Host<V>, q: Seq<Entry>, ws: Seq<V>)
    requires
        forall|k: int| 0 <= k < q.len() ==> (#[trigger] q[k]).sub is None,
    ensures
        deferred(h, q, ws) == Map::<Seq<char>, V>::empty(),
    decreases q.len(),
{
    if q.len() > 0 {
        let front = q.drop_last();
        assert forall|k: int| 0 <= k < front.len() implies (#[trigger] front[k]).sub is None by {
            assert(front[k] == q[k]);
        }
        lemma_deferred_of_plain(h, front, ws);
        assert(q[q.len() - 1].sub is None);
        assert(deferred(h, q, ws) =~= Map::<Seq<char>, V>::empty());
    }
}

/// A name bound by one of a run of patterns is bound by the run.
proof fn lemma_names_of_child(ps: Seq<PatternView>, i: int)
    requires
        0 <= i < ps.len(),
    ensures
        names(ps[i]).subset_of(names_each(ps)),
    decreases ps.len(),
{
    if i < ps.len() - 1 {
        lemma_names_of_child(ps.drop_last(), i);
    }
}

/// Where the patterns of a run bind different names, the last binds none of
/// the names of those before it.
proof fn lemma_last_names_apart(ps: Seq<PatternView>)
    requires
        ps.len() > 0,
        forall|i: int, j: int|
            0 <= i < j < ps.len() ==> names(#[trigger] ps[i]).disjoint(names(#[trigger] ps[j])),
    ensures
        names_each(ps.drop_last()).disjoint(names(ps.last())),
{
    let front = ps.drop_last();
    assert forall|n: Seq<char>| names_each(front).contains(n) implies !names(ps.last()).contains(
        n,
    ) by {
        lemma_name_has_child(front, n);
        let i = choose|i: int| 0 <= i < front.len() && names(#[trigger] front[i]).contains(n);
        assert(front[i] == ps[i]);
        assert(names(ps[i]).disjoint(names(ps[ps.len() - 1])));
    }
}

/// A name bound by a run of patterns is bound by one of them.
proof fn lemma_name_has_child(ps: Seq<PatternView>, n: Seq<char>)
    requires
        names_each(ps).contains(n),
    ensures
        exists|i: int| 0 <= i < ps.len() && names(#[trigger] ps[i]).contains(n),
    decreases ps.len(),
{
    if ps.len() > 0 {
        if names(ps.last()).contains(n) {
            assert(names(ps[ps.len() - 1]).contains(n));
        } else {
            lemma_name_has_child(ps.drop_last(), n);
            let i = choose|i: int|
                0 <= i < ps.drop_last().len() && names(#[trigger] ps.drop_last()[i]).contains(n);
            assert(ps.drop_last()[i] == ps[i]);
        }
    }
}

/// The entries of a well-named, safe pattern make a well-named queue.
proof fn lemma_entries_well_named(p: PatternView)
    requires
        alternation_safe(p),
        well_named(p),
    ensures
        queue_well_named(hoist_entries(p)),
    decreases p,
{
    let q = hoist_entries(p);
    match p {
        PatternView::NamedBinding { .. } => {
            assert(q.drop_last() =~= Seq::<Entry>::empty());
            assert(sub_names(q.drop_last()) =~= Set::<Seq<char>>::empty());
            assert(queue_well_named(q.drop_last()));
        },
        PatternView::Node { shape, children } => {
            if shape is Alternation {
                lemma_plain_entries(p);
                lemma_plain_queue_well_named(q);
            } else {
                lemma_entries_well_named_each(children);
            }
        },
        _ => {},
    }
}

/// The same for a run of patterns.
proof fn lemma_entries_well_named_each(ps: Seq<PatternView>)
    requires
        forall|i: int| 0 <= i < ps.len() ==> alternation_safe(#[trigger] ps[i]),
        forall|i: int| 0 <= i < ps.len() ==> well_named(#[trigger] ps[i]),
        forall|i: int, j: int|
            0 <= i < j < ps.len() ==> names(#[trigger] ps[i]).disjoint(names(#[trigger] ps[j])),
    ensures
        queue_well_named(hoist_entries_each(ps)),
    decreases ps,
{
    if ps.len() > 0 {
        let front = ps.drop_last();
        assert forall|i: int| 0 <= i < front.len() implies alternation_safe(#[trigger] front[i])
            && well_named(front[i]) by {
            assert(front[i] == ps[i]);
        }
        assert forall|i: int, j: int| 0 <= i < j < front.len() implies names(
            #[trigger] front[i],
        ).disjoint(names(#[trigger] front[j])) by {
            assert(front[i] == ps[i]);
            assert(front[j] == ps[j]);
        }
        lemma_entries_well_named_each(front);
        lemma_entries_well_named(ps.last());
        lemma_last_names_apart(ps);
        lemma_sub_names_within_names_each(front);
        lemma_sub_names_within_names(ps.last());
        lemma_queue_well_named_concat(hoist_entries_each(front), hoist_entries(ps.last()));
    }
}

/// What a pattern binds is what its flattened form binds and what is still
/// to be bound for the entries recorded.
proof fn lemma_bindings_split<V>(h: Host<V>, p: PatternView, v: V)
    requires
        alternation_safe(p),
        well_named(p),
    ensures
        bindings(h, p, v) == bindings(h, hoist(p), v).union_prefer_right(
            deferred(h, hoist_entries(p), captured(h, p, v)),
        ),
    decreases p,
{
    let q = hoist_entries(p);
    let ws = captured(h, p, v);
    match p {
        PatternView::NamedBinding { name, sub: Some(s), .. } => {
            lemma_erase_binding_free(*s);
            lemma_binding_free_binds_nothing(h, erase(*s), v);
            lemma_bindings_within_names(h, *s, v);
            assert(q.drop_last() =~= Seq::<Entry>::empty());
            assert(deferred(h, q.drop_last(), ws) =~= Map::<Seq<char>, V>::empty());
            assert(deferred(h, q, ws) =~= bindings(h, *s, v));
            assert(bindings(h, p, v) =~= bindings(h, hoist(p), v).union_prefer_right(
                deferred(h, q, ws),
            ));
        },
        PatternView::NamedBinding { name, sub: None, .. } => {
            assert(q.drop_last() =~= Seq::<Entry>::empty());
            assert(deferred(h, q.drop_last(), ws) =~= Map::<Seq<char>, V>::empty());
            assert(deferred(h, q, ws) =~= Map::<Seq<char>, V>::empty());
            assert(bindings(h, p, v) =~= bindings(h, hoist(p), v).union_prefer_right(
                deferred(h, q, ws),
            ));
        },
        PatternView::Node { shape, children } => {
            if shape is Alternation {
                assert forall|i: int| 0 <= i < children.len() implies hoist_each(children)[i]
                    == children[i] by {
                    lemma_hoist_fixes_plain(children[i]);
                }
                assert(hoist_each(children) =~= children);
                lemma_plain_entries(p);
                lemma_deferred_of_plain(h, q, ws);
                assert(bindings(h, p, v) =~= bindings(h, hoist(p), v).union_prefer_right(
                    deferred(h, q, ws),
                ));
            } else {
                lemma_erase_hoist(p);
                assert(child_values(h, hoist(p), v) == child_values(h, p, v));
                lemma_bindings_split_each(h, children, child_values(h, p, v));
            }
        },
        _ => {
            assert(bindings(h, p, v) =~= bindings(h, hoist(p), v).union_prefer_right(
                deferred(h, q, ws),
            ));
        },
    }
}

/// The same for a run of patterns.
proof fn lemma_bindings_split_each<V>(h: Host<V>, ps: Seq<PatternView>, vs: Seq<V>)
    requires
        forall|i: int| 0 <= i < ps.len() ==> alternation_safe(#[trigger] ps[i]),
        forall|i: int| 0 <= i < ps.len() ==> well_named(#[trigger] ps[i]),
        forall|i: int, j: int|
            0 <= i < j < ps.len() ==> names(#[trigger] ps[i]).disjoint(names(#[trigger] ps[j])),
    ensures
        bindings_each(h, ps, vs) == bindings_each(h, hoist_each(ps), vs).union_prefer_right(
            deferred(h, hoist_entries_each(ps), captured_each(h, ps, vs)),
        ),
    decreases ps,
{
    if ps.len() == 0 {
        assert(bindings_each(h, ps, vs) =~= bindings_each(
            h,
            hoist_each(ps),
            vs,
        ).union_prefer_right(deferred(h, hoist_entries_each(ps), captured_each(h, ps, vs))));
    } else {
        let front = ps.drop_last();
        let last = ps.last();
        let part = vs[ps.len() - 1];
        assert forall|i: int| 0 <= i < front.len() implies alternation_safe(#[trigger] front[i])
            && well_named(front[i]) by {
            assert(front[i] == ps[i]);
        }
        assert forall|i: int, j: int| 0 <= i < j < front.len() implies names(
            #[trigger] front[i],
        ).disjoint(names(#[trigger] front[j])) by {
            assert(front[i] == ps[i]);
            assert(front[j] == ps[j]);
        }
        lemma_bindings_split_each(h, front, vs);
        lemma_bindings_split(h, last, part);
        lemma_last_names_apart(ps);
        assert(hoist_each(ps).drop_last() =~= hoist_each(front));
        assert(hoist_each(ps).last() == hoist(last));
        let q_front = hoist_entries_each(front);
        let q_last = hoist_entries(last);
        let ws_front = captured_each(h, front, vs);
        let ws_last = captured(h, last, part);
        lemma_captured_each_len(h, front, vs);
        lemma_captured_len(h, last, part);
        lemma_deferred_concat(h, q_front, ws_front, q_last, ws_last);
        let top_front = bindings_each(h, hoist_each(front), vs);
        let top_last = bindings(h, hoist(last), part);
        let rest_front = deferred(h, q_front, ws_front);
        let rest_last = deferred(h, q_last, ws_last);
        // What is still to be bound for the patterns before the last and
        // what the last one binds at once share no name.
        lemma_deferred_within_sub_names(h, q_front, ws_front);
        lemma_sub_names_within_names_each(front);
        lemma_sub_names_within_names(last);
        lemma_bindings_within_names(h, hoist(last), part);
        lemma_hoist_keeps_names(last);
        assert forall|n: Seq<char>| rest_front.contains_key(n) implies !top_last.contains_key(
            n,
        ) by {
            assert(names_each(front).contains(n));
        }
        assert(bindings_each(h, ps, vs) =~= top_front.union_prefer_right(
            top_last,
        ).union_prefer_right(rest_front.union_prefer_right(rest_last)));
    }
}

/// The level below a well-named queue of safe entries is well named.
proof fn lemma_next_level_well_named(q: Seq<Entry>)
    requires
        queue_well_named(q),
        forall|k: int|
            0 <= k < q.len() ==> ((#[trigger] q[k]).sub matches Some(s) ==> alternation_safe(s)),
    ensures
        queue_well_named(next_level(q)),
    decreases q.len(),
{
    if q.len() > 0 {
        let front = q.drop_last();
        assert forall|k: int| 0 <= k < front.len() implies ((#[trigger] front[k]).sub matches Some(
            s,
        ) ==> alternation_safe(s)) by {
            assert(front[k] == q[k]);
        }
        lemma_next_level_well_named(front);
        match q.last().sub {
            Some(s) => {
                assert(q[q.len() - 1].sub == Some(s));
                lemma_entries_well_named(s);
                lemma_next_level_sub_names(front);
                lemma_sub_names_within_names(s);
                lemma_queue_well_named_concat(next_level(front), hoist_entries(s));
            },
            None => {
                assert(next_level(q) =~= next_level(front));
            },
        }
    }
}

/// What is still to be bound for a queue is what its level's re-matches
/// bring into scope and what is still to be bound one level below.
proof fn lemma_deferred_unfold<V>(h: Host<V>, q: Seq<Entry>, ws: Seq<V>)
    requires
        queue_well_named(q),
        forall|k: int|
            0 <= k < q.len() ==> ((#[trigger] q[k]).sub matches Some(s) ==> alternation_safe(s)),
    ensures
        deferred(h, q, ws) == opened(h, q, ws).union_prefer_right(
            deferred(h, next_level(q), captured_below(h, q, ws)),
        ),
    decreases q.len(),
{
    if q.len() == 0 {
        assert(deferred(h, q, ws) =~= opened(h, q, ws).union_prefer_right(
            deferred(h, next_level(q), captured_below(h, q, ws)),
        ));
    } else {
        let front = q.drop_last();
        assert forall|k: int| 0 <= k < front.len() implies ((#[trigger] front[k]).sub matches Some(
            s,
        ) ==> alternation_safe(s)) by {
            assert(front[k] == q[k]);
        }
        lemma_deferred_unfold(h, front, ws);
        lemma_captured_below_len(h, front, ws);
        let below_front = deferred(h, next_level(front), captured_below(h, front, ws));
        match q.last().sub {
            Some(s) => {
                let w = ws[q.len() - 1];
                assert(q[q.len() - 1].sub == Some(s));
                lemma_bindings_split(h, s, w);
                lemma_captured_len(h, s, w);
                lemma_deferred_concat(
                    h,
                    next_level(front),
                    captured_below(h, front, ws),
                    hoist_entries(s),
                    captured(h, s, w),
                );
                // What is still to be bound below the entries before the
                // last shares no name with what the last one brings into
                // scope.
                lemma_deferred_within_sub_names(
                    h,
                    next_level(front),
                    captured_below(h, front, ws),
                );
                lemma_next_level_sub_names(front);
                lemma_bindings_within_names(h, hoist(s), w);
                lemma_hoist_keeps_names(s);
                let top_last = bindings(h, hoist(s), w);
                assert forall|n: Seq<char>|
                    below_front.contains_key(n) implies !top_last.contains_key(n) by {
                    assert(sub_names(front).contains(n));
                }
                assert(deferred(h, q, ws) =~= opened(h, q, ws).union_prefer_right(
                    deferred(h, next_level(q), captured_below(h, q, ws)),
                ));
            },
            None => {
                assert(next_level(q) =~= next_level(front));
                assert(captured_below(h, q, ws) =~= captured_below(h, front, ws));
                assert(deferred(h, q, ws) =~= opened(h, q, ws).union_prefer_right(
                    deferred(h, next_level(q), captured_below(h, q, ws)),
                ));
            },
        }
    }
}

/// A name that occurs in a pattern is among the names of the pattern.
proof fn lemma_occurring_name(p: PatternView, n: Seq<char>)
    requires
        occurrences(p, n) > 0,
    ensures
        names(p).contains(n),
    decreases p,
{
    match p {
        PatternView::NamedBinding { name, sub: Some(s), .. } => {
            if name != n {
                lemma_occurring_name(*s, n);
            }
        },
        PatternView::Node { children, .. } => {
            lemma_occurring_name_each(children, n);
        },
        _ => {},
    }
}

/// The same for a run of patterns.
proof fn lemma_occurring_name_each(ps: Seq<PatternView>, n: Seq<char>)
    requires
        occurrences_each(ps, n) > 0,
    ensures
        names_each(ps).contains(n),
    decreases ps,
{
    if ps.len() > 0 {
        if occurrences(ps.last(), n) > 0 {
            lemma_occurring_name(ps.last(), n);
        } else {
            lemma_occurring_name_each(ps.drop_last(), n);
        }
    }
}

/// No binding of a plain pattern has a substructure, whatever its name.
proof fn lemma_plain_binds_no_sub(p: PatternView, n: Seq<char>)
    requires
        plain(p),
    ensures
        !binds_with_sub(p, n),
    decreases p,
{
    match p {
        PatternView::Node { children, .. } => {
            assert forall|i: int| 0 <= i < children.len() implies !binds_with_sub(
                #[trigger] children[i],
                n,
            ) by {
                lemma_plain_binds_no_sub(children[i], n);
            }
        },
        _ => {},
    }
}

/// Where only one pattern of a run has a binding of some name, the run has
/// as many bindings of that name as that pattern.
proof fn lemma_occurrences_in_one(ps: Seq<PatternView>, i: int, n: Seq<char>)
    requires
        0 <= i < ps.len(),
        forall|j: int| 0 <= j < ps.len() && j != i ==> occurrences(#[trigger] ps[j], n) == 0,
    ensures
        occurrences_each(ps, n) == occurrences(ps[i], n),
    decreases ps.len(),
{
    let front = ps.drop_last();
    assert forall|j: int| 0 <= j < front.len() && j != i implies occurrences(
        #[trigger] front[j],
        n,
    ) == 0 by {
        assert(front[j] == ps[j]);
    }
    if i < ps.len() - 1 {
        lemma_occurrences_in_one(front, i, n);
        assert(occurrences(ps[ps.len() - 1], n) == 0);
    } else {
        lemma_occurrences_none(front, n);
    }
}

/// A name that none of a run of patterns binds does not occur in the run.
proof fn lemma_occurrences_none(ps: Seq<PatternView>, n: Seq<char>)
    requires
        forall|j: int| 0 <= j < ps.len() ==> occurrences(#[trigger] ps[j], n) == 0,
    ensures
        occurrences_each(ps, n) == 0,
    decreases ps.len(),
{
    if ps.len() > 0 {
        let front = ps.drop_last();
        assert forall|j: int| 0 <= j < front.len() implies occurrences(#[trigger] front[j], n)
            == 0 by {
            assert(front[j] == ps[j]);
        }
        lemma_occurrences_none(front, n);
        assert(occurrences(ps[ps.len() - 1], n) == 0);
    }
}

/// In a well-named pattern without unsafe alternations, the name of a
/// binding that has a substructure is the name of no other binding.
proof fn lemma_well_named_occurs_once(p: PatternView, n: Seq<char>)
    requires
        alternation_safe(p),
        well_named(p),
        binds_with_sub(p, n),
    ensures
        occurrences(p, n) == 1,
    decreases p,
{
    match p {
        PatternView::NamedBinding { name, sub: Some(s), .. } => {
            if name == n {
                if occurrences(*s, n) > 0 {
                    lemma_occurring_name(*s, n);
                }
            } else {
                lemma_well_named_occurs_once(*s, n);
            }
        },
        PatternView::Node { shape, children } => {
            let i = choose|i: int|
                0 <= i < children.len() && binds_with_sub(#[trigger] children[i], n);
            if shape is Alternation {
                lemma_plain_binds_no_sub(children[i], n);
            } else {
                lemma_well_named_occurs_once(children[i], n);
                lemma_occurring_name(children[i], n);
                assert forall|j: int| 0 <= j < children.len() && j != i implies occurrences(
                    #[trigger] children[j],
                    n,
                ) == 0 by {
                    if occurrences(children[j], n) > 0 {
                        lemma_occurring_name(children[j], n);
                        if j < i {
                            assert(names(children[j]).disjoint(names(children[i])));
                        } else {
                            assert(names(children[i]).disjoint(names(children[j])));
                        }
                    }
                }
                lemma_occurrences_in_one(children, i, n);
            }
        },
        _ => {},
    }
}

/// A well-named pattern is safe to re-match as soon as its alternations are.
pub proof fn lemma_well_named_is_safe(p: PatternView)
    requires
        alternation_safe(p),
        well_named(p),
    ensures
        rematch_safe(p),
{
    assert forall|n: Seq<char>| binds_with_sub(p, n) implies occurrences(p, n) == 1 by {
        lemma_well_named_occurs_once(p, n);
    }
}

/// The drain brings into scope exactly what was still to be bound.
proof fn lemma_drain_binds_deferred<V>(
    h: Host<V>,
    q: Seq<Entry>,
    ws: Seq<V>,
    scope: Map<Seq<char>, V>,
)
    requires
        queue_safe(q),
        queue_well_named(q),
        in_scope(q, ws, scope),
        subs_accept(h, q, ws),
    ensures
        scope_after(h, rematches(q), scope) == scope.union_prefer_right(deferred(h, q, ws)),
    decreases weight(q),
{
    if q.len() == 0 {
        assert(scope_after(h, rematches(q), scope) =~= scope.union_prefer_right(
            deferred(h, q, ws),
        ));
    } else {
        let below = next_level(q);
        let ws_below = captured_below(h, q, ws);
        let scope_below = scope_after(h, level_rematches(q), scope);
        lemma_level_succeeds(h, q, ws, scope);
        lemma_next_level_safe(q);
        lemma_next_level_well_named(q);
        lemma_next_level_weight(q);
        lemma_drain_binds_deferred(h, below, ws_below, scope_below);
        lemma_run_concat(h, level_rematches(q), rematches(below), scope);
        lemma_deferred_unfold(h, q, ws);
        assert(scope_after(h, rematches(q), scope) =~= scope.union_prefer_right(
            deferred(h, q, ws),
        ));
    }
}

/// Bindings are kept: where a well-named, safe pattern accepts a value, the
/// scope that the flattened pattern opens and the re-matches then fill is
/// the scope that the pattern itself opens. The body of the rewritten arm
/// sees every name with the value it had before.
pub proof fn lemma_rewrite_binds_same<V>(h: Host<V>, p: PatternView, v: V)
    requires
        alternation_safe(p),
        well_named(p),
        accepts(h, p, v),
    ensures
        scope_after(h, rematches(hoist_entries(p)), bindings(h, hoist(p), v)) == bindings(
            h,
            p,
            v,
        ),
{
    let q = hoist_entries(p);
    let ws = captured(h, p, v);
    let scope = bindings(h, hoist(p), v);
    lemma_well_named_is_safe(p);
    lemma_entries_in_scope(h, p, v);
    lemma_entries_well_named(p);
    lemma_bindings_split(h, p, v);
    lemma_drain_binds_deferred(h, q, ws, scope);
}

} // verus!
