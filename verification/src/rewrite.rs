//! The arm rewriter: hoists the bindings of an arm's pattern and turns every
//! substructure that was taken out into a deferred re-match, breadth first.

use crate::erase::{erase, lemma_erase_binding_free};
use crate::error::UnsupportedPattern;
use crate::hoist::{
    get_toplevel_bindings_and_remove_others, hoist, hoist_each, hoist_entries,
    hoist_entries_each, hoistable, is_flat, lemma_binding_free_names, lemma_hoist_is_flat,
    lemma_hoist_keeps_names, lemma_queue_names_concat, names, names_each, queue_names,
    queue_view, Entry,
};
use crate::pattern::{Pattern, PatternView};
use std::collections::VecDeque;
use vstd::prelude::*;

verus! {

/// A deferred re-match: the statement that destructures the value already
/// bound to `name` with `pat`, and that the arm's body may rely on never to
/// fail.
#[derive(Debug, PartialEq, Eq)]
pub struct Rematch {
    pub name: String,
    pub pat: Pattern,
}

/// The view of a [`Rematch`].
pub ghost struct RematchView {
    pub name: Seq<char>,
    pub pat: PatternView,
}

impl View for Rematch {
    type V = RematchView;

    open spec fn view(&self) -> RematchView {
        RematchView { name: self.name@, pat: self.pat@ }
    }
}

impl Clone for Rematch {
    /// A copy of the re-match and of its pattern.
    fn clone(&self) -> (copy: Rematch)
        ensures
            copy@ == self@,
    {
        Rematch { name: self.name.clone(), pat: self.pat.clone() }
    }
}

/// The views of a run of re-matches, in order.
pub open spec fn rematch_views(rs: Seq<Rematch>) -> Seq<RematchView> {
    Seq::new(rs.len(), |i: int| rs[i]@)
}

/// One arm of a match: its pattern, and a body that the engine carries along
/// and never looks into.
#[derive(Debug, PartialEq, Eq)]
pub struct Arm<B> {
    pub pat: Pattern,
    pub body: B,
}

/// A rewritten arm. It stands for the arm `pat => { rematches; body }`.
#[derive(Debug, PartialEq, Eq)]
pub struct RewrittenArm<B> {
    pub pat: Pattern,
    pub rematches: Vec<Rematch>,
    pub body: B,
}

/// The number of nodes of `p`.
pub open spec fn size(p: PatternView) -> nat
    decreases p,
{
    match p {
        PatternView::NamedBinding { sub: Some(s), .. } => 1 + size(*s),
        PatternView::Node { children, .. } => 1 + size_each(children),
        _ => 1,
    }
}

/// The number of nodes of the patterns of a run.
pub open spec fn size_each(ps: Seq<PatternView>) -> nat
    decreases ps,
{
    if ps.len() == 0 {
        0
    } else {
        size_each(ps.drop_last()) + size(ps.last())
    }
}

/// The work that a queue still stands for: one for each entry, and the size
/// of each substructure.
pub open spec fn weight(q: Seq<Entry>) -> nat
    decreases q.len(),
{
    if q.len() == 0 {
        0
    } else {
        weight(q.drop_last()) + 1 + match q.last().sub {
            Some(s) => size(s),
            None => 0,
        }
    }
}

/// The re-matches for the entries of one queue, in queue order: one for each
/// entry that has a substructure, with that substructure hoisted.
pub open spec fn level_rematches(q: Seq<Entry>) -> Seq<RematchView>
    decreases q.len(),
{
    if q.len() == 0 {
        Seq::empty()
    } else {
        level_rematches(q.drop_last()) + match q.last().sub {
            Some(s) => seq![RematchView { name: q.last().name, pat: hoist(s) }],
            None => Seq::empty(),
        }
    }
}

/// The entries one nesting level below those of `q`: what hoisting the
/// substructures of `q` records, in queue order.
pub open spec fn next_level(q: Seq<Entry>) -> Seq<Entry>
    decreases q.len(),
{
    if q.len() == 0 {
        Seq::empty()
    } else {
        next_level(q.drop_last()) + match q.last().sub {
            Some(s) => hoist_entries(s),
            None => Seq::empty(),
        }
    }
}

/// All re-matches that a queue gives rise to, in breadth-first order: first
/// those for the entries of `q` itself, then those for the entries one level
/// below, and so on down.
pub open spec fn rematches(q: Seq<Entry>) -> Seq<RematchView>
    decreases weight(q),
{
    if q.len() == 0 {
        Seq::empty()
    } else {
        proof {
            lemma_next_level_weight(q);
        }
        level_rematches(q) + rematches(next_level(q))
    }
}

/// `p` holds no embedded construct at any depth.
pub open spec fn decomposable(p: PatternView) -> bool
    decreases p,
{
    match p {
        PatternView::NamedBinding { sub: Some(s), .. } => decomposable(*s),
        PatternView::Node { children, .. } => forall|i: int|
            0 <= i < children.len() ==> decomposable(#[trigger] children[i]),
        PatternView::EmbeddedConstruct { .. } => false,
        _ => true,
    }
}

/// Every substructure in `q` is decomposable.
pub open spec fn queue_decomposable(q: Seq<Entry>) -> bool {
    forall|k: int|
        0 <= k < q.len() ==> match (#[trigger] q[k]).sub {
            Some(s) => decomposable(s),
            None => true,
        }
}

/// `out` is `arm` rewritten: the pattern hoisted, the re-matches of its
/// entries in breadth-first order, and the body as it was.
pub open spec fn arm_rewritten<B>(arm: Arm<B>, out: RewrittenArm<B>) -> bool {
    &&& out.pat@ == hoist(arm.pat@)
    &&& rematch_views(out.rematches@) == rematches(hoist_entries(arm.pat@))
    &&& out.body == arm.body
}

/// The weight of two queues joined is the sum of their weights.
proof fn lemma_weight_concat(a: Seq<Entry>, b: Seq<Entry>)
    ensures
        weight(a + b) == weight(a) + weight(b),
    decreases b.len(),
{
    if b.len() == 0 {
        assert(a + b =~= a);
    } else {
        lemma_weight_concat(a, b.drop_last());
        assert((a + b).drop_last() =~= a + b.drop_last());
    }
}

/// The weight of a queue of one entry.
proof fn lemma_weight_single(e: Entry)
    ensures
        weight(seq![e]) == 1 + match e.sub {
            Some(s) => size(s),
            None => 0,
        },
{
    let q = seq![e];
    assert(q.drop_last() =~= Seq::<Entry>::empty());
    assert(weight(q.drop_last()) == 0);
    assert(q.last() == e);
}

/// The entries of a pattern weigh no more than the pattern's size.
proof fn lemma_entries_weight(p: PatternView)
    ensures
        weight(hoist_entries(p)) <= size(p),
    decreases p,
{
    match p {
        PatternView::NamedBinding { .. } => {
            lemma_weight_single(hoist_entries(p)[0]);
            assert(hoist_entries(p) =~= seq![hoist_entries(p)[0]]);
        },
        PatternView::Node { children, .. } => {
            lemma_entries_weight_each(children);
        },
        _ => {},
    }
}

/// The same for a run of patterns.
proof fn lemma_entries_weight_each(ps: Seq<PatternView>)
    ensures
        weight(hoist_entries_each(ps)) <= size_each(ps),
    decreases ps,
{
    if ps.len() > 0 {
        lemma_entries_weight_each(ps.drop_last());
        lemma_entries_weight(ps.last());
        lemma_weight_concat(hoist_entries_each(ps.drop_last()), hoist_entries(ps.last()));
    }
}

/// Going one level down sheds at least one unit of weight per entry.
pub proof fn lemma_next_level_weight(q: Seq<Entry>)
    ensures
        weight(next_level(q)) + q.len() <= weight(q),
    decreases q.len(),
{
    if q.len() > 0 {
        lemma_next_level_weight(q.drop_last());
        match q.last().sub {
            Some(s) => {
                lemma_entries_weight(s);
                lemma_weight_concat(next_level(q.drop_last()), hoist_entries(s));
            },
            None => {
                assert(next_level(q) =~= next_level(q.drop_last()));
            },
        }
    }
}

/// A queue joined from two is decomposable when both are.
proof fn lemma_queue_decomposable_concat(a: Seq<Entry>, b: Seq<Entry>)
    ensures
        queue_decomposable(a + b) <==> queue_decomposable(a) && queue_decomposable(b),
{
    if queue_decomposable(a + b) {
        assert forall|k: int| 0 <= k < a.len() implies match (#[trigger] a[k]).sub {
            Some(s) => decomposable(s),
            None => true,
        } by {
            assert((a + b)[k] == a[k]);
        }
        assert forall|k: int| 0 <= k < b.len() implies match (#[trigger] b[k]).sub {
            Some(s) => decomposable(s),
            None => true,
        } by {
            assert((a + b)[k + a.len()] == b[k]);
        }
    }
}

/// A pattern is decomposable when the hoister can walk it and every
/// substructure that the walk records is decomposable in turn.
proof fn lemma_decomposable_unfold(p: PatternView)
    ensures
        decomposable(p) <==> hoistable(p) && queue_decomposable(hoist_entries(p)),
    decreases p,
{
    match p {
        PatternView::NamedBinding { sub, .. } => {
            let q = hoist_entries(p);
            assert(q.len() == 1);
            if queue_decomposable(q) {
                assert(match q[0].sub {
                    Some(s) => decomposable(s),
                    None => true,
                });
            }
        },
        PatternView::Node { children, .. } => {
            lemma_decomposable_unfold_each(children);
        },
        _ => {},
    }
}

/// The same for a run of patterns.
proof fn lemma_decomposable_unfold_each(ps: Seq<PatternView>)
    ensures
        (forall|i: int| 0 <= i < ps.len() ==> decomposable(#[trigger] ps[i])) <==> (forall|i: int|
            0 <= i < ps.len() ==> hoistable(#[trigger] ps[i])) && queue_decomposable(
            hoist_entries_each(ps),
        ),
    decreases ps,
{
    if ps.len() > 0 {
        let front = ps.drop_last();
        lemma_decomposable_unfold_each(front);
        lemma_decomposable_unfold(ps.last());
        lemma_queue_decomposable_concat(hoist_entries_each(front), hoist_entries(ps.last()));
        assert(forall|i: int| 0 <= i < front.len() ==> front[i] == ps[i]);
        if forall|i: int| 0 <= i < ps.len() ==> decomposable(#[trigger] ps[i]) {
            assert forall|i: int| 0 <= i < front.len() implies decomposable(
                #[trigger] front[i],
            ) by {
                assert(front[i] == ps[i]);
            }
            assert(decomposable(ps.last()));
        }
        if (forall|i: int| 0 <= i < ps.len() ==> hoistable(#[trigger] ps[i]))
            && queue_decomposable(hoist_entries_each(ps)) {
            assert forall|i: int| 0 <= i < front.len() implies hoistable(#[trigger] front[i]) by {
                assert(front[i] == ps[i]);
            }
            assert(hoistable(ps.last()));
            assert forall|i: int| 0 <= i < ps.len() implies decomposable(#[trigger] ps[i]) by {
                if i < front.len() {
                    assert(front[i] == ps[i]);
                } else {
                    assert(ps[i] == ps.last());
                }
            }
        }
    }
}

/// The names of the entries of a queue themselves, without what their
/// substructures bind.
pub open spec fn own_names(q: Seq<Entry>) -> Set<Seq<char>>
    decreases q.len(),
{
    if q.len() == 0 {
        Set::empty()
    } else {
        own_names(q.drop_last()).insert(q.last().name)
    }
}

/// The names that the patterns of a run of re-matches bind.
pub open spec fn rematch_names(rs: Seq<RematchView>) -> Set<Seq<char>>
    decreases rs.len(),
{
    if rs.len() == 0 {
        Set::empty()
    } else {
        rematch_names(rs.drop_last()).union(names(rs.last().pat))
    }
}

/// The own names of two queues joined are those of both.
proof fn lemma_own_names_concat(a: Seq<Entry>, b: Seq<Entry>)
    ensures
        own_names(a + b) == own_names(a).union(own_names(b)),
    decreases b.len(),
{
    if b.len() == 0 {
        assert(a + b =~= a);
        assert(own_names(a + b) =~= own_names(a).union(own_names(b)));
    } else {
        lemma_own_names_concat(a, b.drop_last());
        assert((a + b).drop_last() =~= a + b.drop_last());
        assert(own_names(a + b) =~= own_names(a).union(own_names(b)));
    }
}

/// The names of two runs of re-matches joined are those of both.
proof fn lemma_rematch_names_concat(a: Seq<RematchView>, b: Seq<RematchView>)
    ensures
        rematch_names(a + b) == rematch_names(a).union(rematch_names(b)),
    decreases b.len(),
{
    if b.len() == 0 {
        assert(a + b =~= a);
        assert(rematch_names(a + b) =~= rematch_names(a).union(rematch_names(b)));
    } else {
        lemma_rematch_names_concat(a, b.drop_last());
        assert((a + b).drop_last() =~= a + b.drop_last());
        assert(rematch_names(a + b) =~= rematch_names(a).union(rematch_names(b)));
    }
}

/// The hoisted pattern binds exactly the names of the recorded entries.
pub(crate) proof fn lemma_hoist_binds_own_names(p: PatternView)
    ensures
        names(hoist(p)) == own_names(hoist_entries(p)),
    decreases p,
{
    match p {
        PatternView::NamedBinding { name, sub, .. } => {
            let q = hoist_entries(p);
            assert(q.drop_last() =~= Seq::<Entry>::empty());
            assert(own_names(q.drop_last()) == Set::<Seq<char>>::empty());
            if let Some(s) = sub {
                lemma_erase_binding_free(*s);
                lemma_binding_free_names(erase(*s));
            }
            assert(names(hoist(p)) =~= own_names(q));
        },
        PatternView::Node { children, .. } => {
            lemma_hoist_binds_own_names_each(children);
        },
        _ => {},
    }
}

/// The same for a run of patterns.
proof fn lemma_hoist_binds_own_names_each(ps: Seq<PatternView>)
    ensures
        names_each(hoist_each(ps)) == own_names(hoist_entries_each(ps)),
    decreases ps,
{
    if ps.len() > 0 {
        lemma_hoist_binds_own_names_each(ps.drop_last());
        lemma_hoist_binds_own_names(ps.last());
        assert(hoist_each(ps).drop_last() =~= hoist_each(ps.drop_last()));
        lemma_own_names_concat(hoist_entries_each(ps.drop_last()), hoist_entries(ps.last()));
    }
}

/// The patterns of a level's re-matches bind exactly the names of the entries
/// one level below.
pub(crate) proof fn lemma_level_binds_next_level(q: Seq<Entry>)
    ensures
        rematch_names(level_rematches(q)) == own_names(next_level(q)),
    decreases q.len(),
{
    if q.len() > 0 {
        lemma_level_binds_next_level(q.drop_last());
        match q.last().sub {
            Some(s) => {
                let r = seq![RematchView { name: q.last().name, pat: hoist(s) }];
                lemma_hoist_binds_own_names(s);
                lemma_own_names_concat(next_level(q.drop_last()), hoist_entries(s));
                lemma_rematch_names_concat(level_rematches(q.drop_last()), r);
                assert(r.drop_last() =~= Seq::<RematchView>::empty());
                assert(rematch_names(r.drop_last()) == Set::<Seq<char>>::empty());
                assert(rematch_names(r) =~= names(hoist(s)));
            },
            None => {
                assert(next_level(q) =~= next_level(q.drop_last()));
                assert(level_rematches(q) =~= level_rematches(q.drop_last()));
            },
        }
    }
}

/// The own names of a queue are among the names it stands for.
proof fn lemma_own_names_in_queue_names(q: Seq<Entry>)
    ensures
        own_names(q).subset_of(queue_names(q)),
    decreases q.len(),
{
    if q.len() > 0 {
        lemma_own_names_in_queue_names(q.drop_last());
    }
}

/// The names a queue stands for are its own and those that the level below
/// stands for.
proof fn lemma_queue_names_unfold(q: Seq<Entry>)
    ensures
        queue_names(q) == own_names(q).union(queue_names(next_level(q))),
    decreases q.len(),
{
    if q.len() == 0 {
        assert(queue_names(q) =~= own_names(q).union(queue_names(next_level(q))));
    } else {
        lemma_queue_names_unfold(q.drop_last());
        match q.last().sub {
            Some(s) => {
                lemma_hoist_keeps_names(s);
                lemma_hoist_binds_own_names(s);
                lemma_own_names_in_queue_names(hoist_entries(s));
                lemma_queue_names_concat(next_level(q.drop_last()), hoist_entries(s));
            },
            None => {
                assert(next_level(q) =~= next_level(q.drop_last()));
            },
        }
        assert(queue_names(q) =~= own_names(q).union(queue_names(next_level(q))));
    }
}

/// The names a queue stands for are its own and those that the patterns of
/// its re-matches bind.
proof fn lemma_rematches_keep_names(q: Seq<Entry>)
    ensures
        queue_names(q) == own_names(q).union(rematch_names(rematches(q))),
    decreases weight(q),
{
    if q.len() == 0 {
        assert(queue_names(q) =~= own_names(q).union(rematch_names(rematches(q))));
    } else {
        lemma_next_level_weight(q);
        lemma_rematches_keep_names(next_level(q));
        lemma_queue_names_unfold(q);
        lemma_level_binds_next_level(q);
        lemma_rematch_names_concat(level_rematches(q), rematches(next_level(q)));
        assert(queue_names(q) =~= own_names(q).union(rematch_names(rematches(q))));
    }
}

/// Binding completeness of a rewritten arm: every name that the pattern of
/// the arm binds is bound by the hoisted pattern or by the pattern of one of
/// the re-matches, and they bind no other name.
pub proof fn lemma_rewrite_keeps_names(p: PatternView)
    ensures
        names(p) == names(hoist(p)).union(rematch_names(rematches(hoist_entries(p)))),
{
    lemma_hoist_keeps_names(p);
    lemma_hoist_binds_own_names(p);
    lemma_rematches_keep_names(hoist_entries(p));
    assert(names(p) =~= names(hoist(p)).union(rematch_names(rematches(hoist_entries(p)))));
}

/// The patterns of the re-matches of one level are flat.
proof fn lemma_level_rematches_flat(q: Seq<Entry>)
    ensures
        forall|k: int|
            0 <= k < level_rematches(q).len() ==> is_flat((#[trigger] level_rematches(q)[k]).pat),
    decreases q.len(),
{
    if q.len() > 0 {
        lemma_level_rematches_flat(q.drop_last());
        if let Some(s) = q.last().sub {
            lemma_hoist_is_flat(s);
        }
    }
}

/// No nested bindings in a rewritten arm: the pattern of every re-match is
/// flat, as the hoisted pattern of the arm is.
pub proof fn lemma_rematches_flat(q: Seq<Entry>)
    ensures
        forall|k: int| 0 <= k < rematches(q).len() ==> is_flat((#[trigger] rematches(q)[k]).pat),
    decreases weight(q),
{
    if q.len() > 0 {
        lemma_next_level_weight(q);
        lemma_level_rematches_flat(q);
        lemma_rematches_flat(next_level(q));
    }
}

/// The entries `depth` nesting levels below those of `q`.
pub open spec fn level_at(q: Seq<Entry>, depth: nat) -> Seq<Entry>
    decreases depth,
{
    if depth == 0 {
        q
    } else {
        next_level(level_at(q, (depth - 1) as nat))
    }
}

/// The re-matches for the first `depth` levels of `q`, shallowest level
/// first, each level in queue order.
pub open spec fn rematches_above(q: Seq<Entry>, depth: nat) -> Seq<RematchView>
    decreases depth,
{
    if depth == 0 {
        Seq::empty()
    } else {
        rematches_above(q, (depth - 1) as nat) + level_rematches(
            level_at(q, (depth - 1) as nat),
        )
    }
}

/// Order preservation: the re-matches come out breadth first. For every
/// depth, those that decompose a binding nested less deep than `depth` come
/// first, level after level, and all that decompose a deeper one follow.
pub proof fn lemma_rematches_breadth_first(q: Seq<Entry>, depth: nat)
    ensures
        rematches(q) == rematches_above(q, depth) + rematches(level_at(q, depth)),
    decreases depth,
{
    if depth == 0 {
        assert(rematches(q) =~= rematches_above(q, depth) + rematches(level_at(q, depth)));
    } else {
        let d = (depth - 1) as nat;
        let level = level_at(q, d);
        lemma_rematches_breadth_first(q, d);
        if level.len() == 0 {
            assert(next_level(level) =~= Seq::<Entry>::empty());
            assert(level_rematches(level) =~= Seq::<RematchView>::empty());
        }
        assert(rematches(level) =~= level_rematches(level) + rematches(next_level(level)));
        assert(rematches(q) =~= rematches_above(q, depth) + rematches(level_at(q, depth)));
    }
}

/// The state of a drain, between two steps: `level` is the level of entries
/// being worked through, of which the first `taken` are done; `above` is what
/// the levels before it gave. What is queued is the rest of the level and,
/// behind it, what the part that is done has recorded for the level below.
pub(crate) open spec fn draining(
    start: Seq<Entry>,
    level: Seq<Entry>,
    taken: int,
    above: Seq<RematchView>,
    queue: Seq<Entry>,
    emitted: Seq<RematchView>,
) -> bool {
    &&& 0 <= taken <= level.len()
    &&& queue == level.skip(taken) + next_level(level.take(taken))
    &&& emitted == above + level_rematches(level.take(taken))
    &&& above + rematches(level) == rematches(start)
}

/// A drain starts with the whole queue as its first level.
proof fn lemma_drain_start(start: Seq<Entry>)
    ensures
        draining(start, start, 0, Seq::empty(), start, Seq::empty()),
{
    assert(start.take(0) =~= Seq::<Entry>::empty());
    assert(start.skip(0) =~= start);
    assert(start.skip(0) + next_level(start.take(0)) =~= start);
    assert(Seq::<RematchView>::empty() + level_rematches(start.take(0)) =~= Seq::<
        RematchView,
    >::empty());
    assert(Seq::<RematchView>::empty() + rematches(start) =~= rematches(start));
}

/// When a level is used up, what is queued is the level below it.
proof fn lemma_drain_roll(
    start: Seq<Entry>,
    level: Seq<Entry>,
    above: Seq<RematchView>,
    queue: Seq<Entry>,
    emitted: Seq<RematchView>,
)
    requires
        draining(start, level, level.len() as int, above, queue, emitted),
    ensures
        draining(start, next_level(level), 0, above + level_rematches(level), queue, emitted),
{
    let below = next_level(level);
    assert(level.take(level.len() as int) =~= level);
    assert(level.skip(level.len() as int) =~= Seq::<Entry>::empty());
    assert(queue =~= below);
    assert(below.take(0) =~= Seq::<Entry>::empty());
    assert(below.skip(0) =~= below);
    assert(queue =~= below.skip(0) + next_level(below.take(0)));
    assert(emitted =~= (above + level_rematches(level)) + level_rematches(below.take(0)));
    if level.len() == 0 {
        assert(below =~= Seq::<Entry>::empty());
    }
    assert((above + level_rematches(level)) + rematches(below) =~= above + rematches(level));
}

/// One step of a drain: the front entry leaves the queue, what hoisting its
/// substructure records joins at the back, and its re-match is emitted.
proof fn lemma_drain_step(
    start: Seq<Entry>,
    level: Seq<Entry>,
    taken: int,
    above: Seq<RematchView>,
    queue: Seq<Entry>,
    emitted: Seq<RematchView>,
)
    requires
        draining(start, level, taken, above, queue, emitted),
        taken < level.len(),
    ensures
        queue.len() > 0,
        queue[0] == level[taken],
        match queue[0].sub {
            Some(s) => draining(
                start,
                level,
                taken + 1,
                above,
                queue.skip(1) + hoist_entries(s),
                emitted.push(RematchView { name: queue[0].name, pat: hoist(s) }),
            ),
            None => draining(start, level, taken + 1, above, queue.skip(1), emitted),
        },
{
    let done = level.take(taken + 1);
    assert(done.drop_last() =~= level.take(taken));
    assert(done.last() == level[taken]);
    assert(level.skip(taken) =~= seq![level[taken]] + level.skip(taken + 1));
    assert(queue[0] == level[taken]);
    assert(queue.skip(1) =~= level.skip(taken + 1) + next_level(level.take(taken)));
    match level[taken].sub {
        Some(s) => {
            assert(queue.skip(1) + hoist_entries(s) =~= level.skip(taken + 1) + next_level(done));
            assert(emitted.push(RematchView { name: queue[0].name, pat: hoist(s) }) =~= above
                + level_rematches(done));
        },
        None => {
            assert(next_level(done) =~= next_level(level.take(taken)));
            assert(level_rematches(done) =~= level_rematches(level.take(taken)));
        },
    }
}

/// When the queue has run empty, everything has been emitted.
proof fn lemma_drain_end(
    start: Seq<Entry>,
    level: Seq<Entry>,
    taken: int,
    above: Seq<RematchView>,
    emitted: Seq<RematchView>,
)
    requires
        draining(start, level, taken, above, Seq::empty(), emitted),
    ensures
        emitted == rematches(start),
{
    assert(level.skip(taken).len() == 0);
    assert(level.take(taken) =~= level);
    assert(next_level(level).len() == 0);
    if level.len() > 0 {
        assert(next_level(level) =~= Seq::<Entry>::empty());
        assert(rematches(next_level(level)) =~= Seq::<RematchView>::empty());
        assert(rematches(level) =~= level_rematches(level));
    } else {
        assert(level_rematches(level) =~= rematches(level));
    }
}

/// What taking the front entry off a queue does to the queue's weight and to
/// whether it is decomposable.
proof fn lemma_queue_step(q: Seq<Entry>)
    requires
        q.len() > 0,
    ensures
        match q[0].sub {
            Some(s) => {
                &&& weight(q.skip(1) + hoist_entries(s)) < weight(q)
                &&& queue_decomposable(q) <==> hoistable(s) && queue_decomposable(
                    q.skip(1) + hoist_entries(s),
                )
            },
            None => {
                &&& weight(q.skip(1)) < weight(q)
                &&& queue_decomposable(q) <==> queue_decomposable(q.skip(1))
            },
        },
{
    let front = seq![q[0]];
    let rest = q.skip(1);
    assert(q =~= front + rest);
    lemma_weight_concat(front, rest);
    lemma_weight_single(q[0]);
    lemma_queue_decomposable_concat(front, rest);
    assert(front[0] == q[0]);
    match q[0].sub {
        Some(s) => {
            lemma_decomposable_unfold(s);
            lemma_entries_weight(s);
            lemma_weight_concat(rest, hoist_entries(s));
            lemma_queue_decomposable_concat(rest, hoist_entries(s));
        },
        None => {},
    }
}

/// Rewrites one arm: hoists the bindings of its pattern, then takes the
/// recorded entries from the front of the queue one by one, hoists the
/// substructure of each that has one (which may record further entries at the
/// back) and emits a re-match of the entry's name against the result.
///
/// The arm is refused exactly when its pattern holds an embedded construct.
pub fn rewrite_arm<B>(arm: Arm<B>) -> (rewritten: Result<RewrittenArm<B>, UnsupportedPattern>)
    ensures
        match rewritten {
            Ok(out) => decomposable(arm.pat@) && arm_rewritten(arm, out),
            Err(_) => !decomposable(arm.pat@),
        },
{
    let Arm { pat, body } = arm;
    let ghost given = pat@;
    let ghost start = hoist_entries(given);
    let mut bindings: VecDeque<(String, Option<Pattern>)> = VecDeque::new();
    proof {
        lemma_decomposable_unfold(given);
    }
    let pat = match get_toplevel_bindings_and_remove_others(pat, &mut bindings) {
        Ok(flat) => flat,
        Err(e) => {
            return Err(e);
        },
    };
    assert(queue_view(bindings@) =~= start);
    let mut stmts: Vec<Rematch> = Vec::new();
    let ghost mut level = start;
    let ghost mut taken: int = 0;
    let ghost mut above = Seq::<RematchView>::empty();
    proof {
        lemma_drain_start(start);
        assert(rematch_views(stmts@) =~= Seq::<RematchView>::empty());
    }
    while bindings.len() > 0
        invariant
            given == arm.pat@,
            pat@ == hoist(given),
            body == arm.body,
            start == hoist_entries(given),
            draining(start, level, taken, above, queue_view(bindings@), rematch_views(stmts@)),
            decomposable(given) <==> queue_decomposable(queue_view(bindings@)),
        decreases weight(queue_view(bindings@)),
    {
        let ghost queue = queue_view(bindings@);
        let ghost emitted = rematch_views(stmts@);
        proof {
            if taken == level.len() {
                lemma_drain_roll(start, level, above, queue, emitted);
                above = above + level_rematches(level);
                level = next_level(level);
                taken = 0;
            }
            lemma_drain_step(start, level, taken, above, queue, emitted);
            lemma_queue_step(queue);
            taken = taken + 1;
        }
        let (name, sub) = bindings.pop_front().unwrap();
        assert(queue_view(bindings@) =~= queue.skip(1));
        match sub {
            Some(sub) => {
                match get_toplevel_bindings_and_remove_others(sub, &mut bindings) {
                    Ok(flat) => {
                        stmts.push(Rematch { name, pat: flat });
                        assert(rematch_views(stmts@) =~= emitted.push(
                            RematchView { name: queue[0].name, pat: hoist(sub@) },
                        ));
                    },
                    Err(e) => {
                        return Err(e);
                    },
                }
            },
            None => {},
        }
    }
    proof {
        assert(queue_view(bindings@) =~= Seq::<Entry>::empty());
        lemma_drain_end(start, level, taken, above, rematch_views(stmts@));
    }
    Ok(RewrittenArm { pat, rematches: stmts, body })
}

} // verus!
