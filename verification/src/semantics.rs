//! What a pattern accepts and binds.
//!
//! The engine does not know the host's values. Matching is therefore stated
//! over any type of values `V` and any [`Host`]: a record of how the host
//! judges a leaf and how it lays the children of a structural node over a
//! value. Everything else is the pattern grammar's own: a binding accepts
//! what its substructure accepts and captures the value it is laid over, an
//! alternation accepts what one of its alternatives accepts, any other node
//! accepts a value that its shape takes apart into parts that its children
//! accept.
//!
//! A rewritten arm is held against this by running its re-matches one after
//! the other in the scope that its flattened pattern opens.

use crate::erase::{erase, erase_each, lemma_erase_idempotent};
use crate::hoist::{hoist, hoist_each, names, names_each};
use crate::pattern::{OpaqueKind, PatternView};
use crate::rewrite::{rematch_names, RematchView};
use vstd::prelude::*;

verus! {

/// The host's side of matching.
#[verifier::reject_recursive_types(V)]
pub ghost struct Host<V> {
    /// Whether a leaf of the given kind and text accepts a value. Not asked
    /// for wildcards: they accept every value.
    pub leaf: spec_fn(OpaqueKind, Seq<char>, V) -> bool,
    /// The parts of a value that the children of a structural node are laid
    /// over, in the children's order, or `None` where the node's own shape
    /// does not take the value. The node is handed over erased: names do not
    /// bear on how a value comes apart.
    pub layout: spec_fn(PatternView, V) -> Option<Seq<V>>,
}

/// The shape of the node `p` takes the value `v`: the host lays out one part
/// for each child. An alternation hands the value itself to each alternative
/// and takes every value.
pub open spec fn lays_out<V>(h: Host<V>, p: PatternView, v: V) -> bool {
    match p {
        PatternView::Node { shape, children } => {
            ||| shape is Alternation
            ||| ((h.layout)(erase(p), v) matches Some(parts) && parts.len() == children.len())
        },
        _ => true,
    }
}

/// The values that the children of the node `p` are laid over when `p` is
/// laid over `v`, one for each child. Where the shape of `p` does not take
/// `v`, each child is handed `v` itself.
pub open spec fn child_values<V>(h: Host<V>, p: PatternView, v: V) -> Seq<V> {
    match p {
        PatternView::Node { shape, children } => {
            if !(shape is Alternation) && lays_out(h, p, v) {
                (h.layout)(erase(p), v)->0
            } else {
                Seq::new(children.len(), |i: int| v)
            }
        },
        _ => Seq::empty(),
    }
}

/// `p` accepts the value `v`. An embedded construct is beyond what the engine
/// can interpret, and accepts nothing here.
pub open spec fn accepts<V>(h: Host<V>, p: PatternView, v: V) -> bool
    decreases p,
{
    match p {
        PatternView::NamedBinding { sub: Some(s), .. } => accepts(h, *s, v),
        PatternView::NamedBinding { sub: None, .. } => true,
        PatternView::Node { shape, children } => {
            if shape is Alternation {
                exists|i: int| 0 <= i < children.len() && accepts(h, #[trigger] children[i], v)
            } else {
                &&& lays_out(h, p, v)
                &&& forall|i: int|
                    0 <= i < children.len() ==> accepts(
                        h,
                        #[trigger] children[i],
                        child_values(h, p, v)[i],
                    )
            }
        },
        PatternView::Opaque { kind, text } => kind == OpaqueKind::Wildcard || (h.leaf)(
            kind,
            text,
            v,
        ),
        PatternView::EmbeddedConstruct { .. } => false,
    }
}

/// One of `ps` accepts `v`.
pub open spec fn some_accepts<V>(h: Host<V>, ps: Seq<PatternView>, v: V) -> bool {
    exists|i: int| 0 <= i < ps.len() && accepts(h, #[trigger] ps[i], v)
}

/// The names that `p` binds when it is laid over `v`, each with the value it
/// captures.
pub open spec fn bindings<V>(h: Host<V>, p: PatternView, v: V) -> Map<Seq<char>, V>
    decreases p,
{
    match p {
        PatternView::NamedBinding { name, sub: Some(s), .. } => bindings(h, *s, v).insert(
            name,
            v,
        ),
        PatternView::NamedBinding { name, sub: None, .. } => Map::empty().insert(name, v),
        PatternView::Node { shape, children } => {
            if shape is Alternation {
                bindings_first(h, children, v)
            } else {
                bindings_each(h, children, child_values(h, p, v))
            }
        },
        _ => Map::empty(),
    }
}

/// What the patterns of `ps` bind when each is laid over the value of `vs`
/// at its own index; where two bind the same name, the later one wins.
pub open spec fn bindings_each<V>(h: Host<V>, ps: Seq<PatternView>, vs: Seq<V>) -> Map<
    Seq<char>,
    V,
>
    decreases ps,
{
    if ps.len() == 0 {
        Map::empty()
    } else {
        bindings_each(h, ps.drop_last(), vs).union_prefer_right(
            bindings(h, ps.last(), vs[ps.len() - 1]),
        )
    }
}

/// What the first of `alts` that accepts `v` binds.
pub open spec fn bindings_first<V>(h: Host<V>, alts: Seq<PatternView>, v: V) -> Map<
    Seq<char>,
    V,
>
    decreases alts,
{
    if alts.len() == 0 {
        Map::empty()
    } else if some_accepts(h, alts.drop_last(), v) {
        bindings_first(h, alts.drop_last(), v)
    } else {
        bindings(h, alts.last(), v)
    }
}

/// The names in scope after the re-matches `stmts` have run in order,
/// starting from `scope`: each re-match adds what its pattern binds when laid
/// over the value that its name stands for by then.
pub open spec fn scope_after<V>(
    h: Host<V>,
    stmts: Seq<RematchView>,
    scope: Map<Seq<char>, V>,
) -> Map<Seq<char>, V>
    decreases stmts.len(),
{
    if stmts.len() == 0 {
        scope
    } else {
        let before = scope_after(h, stmts.drop_last(), scope);
        before.union_prefer_right(bindings(h, stmts.last().pat, before[stmts.last().name]))
    }
}

/// Every re-match of `stmts`, run in order from `scope`, succeeds: its name
/// is in scope by then, and its pattern accepts the value that the name
/// stands for.
pub open spec fn all_succeed<V>(
    h: Host<V>,
    stmts: Seq<RematchView>,
    scope: Map<Seq<char>, V>,
) -> bool
    decreases stmts.len(),
{
    if stmts.len() == 0 {
        true
    } else {
        let before = scope_after(h, stmts.drop_last(), scope);
        &&& all_succeed(h, stmts.drop_last(), scope)
        &&& before.contains_key(stmts.last().name)
        &&& accepts(h, stmts.last().pat, before[stmts.last().name])
    }
}

/// Hoisting and erasing lead to the same erased pattern.
pub(crate) proof fn lemma_erase_hoist(p: PatternView)
    ensures
        erase(hoist(p)) == erase(p),
    decreases p,
{
    match p {
        PatternView::NamedBinding { sub: Some(s), .. } => {
            lemma_erase_idempotent(*s);
        },
        PatternView::Node { shape, children } => {
            assert forall|i: int| 0 <= i < children.len() implies erase_each(
                hoist_each(children),
            )[i] == erase_each(children)[i] by {
                lemma_erase_hoist(children[i]);
            }
            assert(erase_each(hoist_each(children)) =~= erase_each(children));
        },
        _ => {},
    }
}

/// Erasing the names of a pattern does not change what it accepts.
pub proof fn lemma_erase_accepts_same<V>(h: Host<V>, p: PatternView, v: V)
    ensures
        accepts(h, erase(p), v) <==> accepts(h, p, v),
    decreases p,
{
    match p {
        PatternView::NamedBinding { sub: Some(s), .. } => {
            lemma_erase_accepts_same(h, *s, v);
        },
        PatternView::Node { shape, children } => {
            let erased = erase_each(children);
            lemma_erase_idempotent(p);
            if shape is Alternation {
                if accepts(h, p, v) {
                    let i = choose|i: int|
                        0 <= i < children.len() && accepts(h, #[trigger] children[i], v);
                    lemma_erase_accepts_same(h, children[i], v);
                    assert(accepts(h, erased[i], v));
                }
                if accepts(h, erase(p), v) {
                    let i = choose|i: int|
                        0 <= i < erased.len() && accepts(h, #[trigger] erased[i], v);
                    lemma_erase_accepts_same(h, children[i], v);
                    assert(accepts(h, children[i], v));
                }
            } else {
                assert(lays_out(h, erase(p), v) == lays_out(h, p, v));
                assert(child_values(h, erase(p), v) == child_values(h, p, v));
                let parts = child_values(h, p, v);
                if accepts(h, p, v) {
                    assert forall|i: int| 0 <= i < erased.len() implies accepts(
                        h,
                        #[trigger] erased[i],
                        parts[i],
                    ) by {
                        lemma_erase_accepts_same(h, children[i], parts[i]);
                        assert(accepts(h, children[i], parts[i]));
                    }
                }
                if accepts(h, erase(p), v) {
                    assert forall|i: int| 0 <= i < children.len() implies accepts(
                        h,
                        #[trigger] children[i],
                        parts[i],
                    ) by {
                        lemma_erase_accepts_same(h, children[i], parts[i]);
                        assert(accepts(h, erased[i], parts[i]));
                    }
                }
            }
        },
        _ => {},
    }
}

/// The flattened pattern accepts exactly the values that the pattern itself
/// accepts.
pub proof fn lemma_hoist_accepts_same<V>(h: Host<V>, p: PatternView, v: V)
    ensures
        accepts(h, hoist(p), v) <==> accepts(h, p, v),
    decreases p,
{
    match p {
        PatternView::NamedBinding { sub: Some(s), .. } => {
            lemma_erase_accepts_same(h, *s, v);
        },
        PatternView::Node { shape, children } => {
            let hoisted = hoist_each(children);
            lemma_erase_hoist(p);
            if shape is Alternation {
                if accepts(h, p, v) {
                    let i = choose|i: int|
                        0 <= i < children.len() && accepts(h, #[trigger] children[i], v);
                    lemma_hoist_accepts_same(h, children[i], v);
                    assert(accepts(h, hoisted[i], v));
                }
                if accepts(h, hoist(p), v) {
                    let i = choose|i: int|
                        0 <= i < hoisted.len() && accepts(h, #[trigger] hoisted[i], v);
                    lemma_hoist_accepts_same(h, children[i], v);
                    assert(accepts(h, children[i], v));
                }
            } else {
                assert(lays_out(h, hoist(p), v) == lays_out(h, p, v));
                assert(child_values(h, hoist(p), v) == child_values(h, p, v));
                let parts = child_values(h, p, v);
                if accepts(h, p, v) {
                    assert forall|i: int| 0 <= i < hoisted.len() implies accepts(
                        h,
                        #[trigger] hoisted[i],
                        parts[i],
                    ) by {
                        lemma_hoist_accepts_same(h, children[i], parts[i]);
                        assert(accepts(h, children[i], parts[i]));
                    }
                }
                if accepts(h, hoist(p), v) {
                    assert forall|i: int| 0 <= i < children.len() implies accepts(
                        h,
                        #[trigger] children[i],
                        parts[i],
                    ) by {
                        lemma_hoist_accepts_same(h, children[i], parts[i]);
                        assert(accepts(h, hoisted[i], parts[i]));
                    }
                }
            }
        },
        _ => {},
    }
}

/// A pattern binds only names that occur in it.
pub(crate) proof fn lemma_bindings_within_names<V>(h: Host<V>, p: PatternView, v: V)
    ensures
        bindings(h, p, v).dom().subset_of(names(p)),
    decreases p,
{
    match p {
        PatternView::NamedBinding { sub: Some(s), .. } => {
            lemma_bindings_within_names(h, *s, v);
        },
        PatternView::Node { shape, children } => {
            if shape is Alternation {
                lemma_bindings_first_within_names(h, children, v);
            } else {
                lemma_bindings_each_within_names(h, children, child_values(h, p, v));
            }
        },
        _ => {},
    }
}

proof fn lemma_bindings_each_within_names<V>(h: Host<V>, ps: Seq<PatternView>, vs: Seq<V>)
    ensures
        bindings_each(h, ps, vs).dom().subset_of(names_each(ps)),
    decreases ps,
{
    if ps.len() > 0 {
        lemma_bindings_each_within_names(h, ps.drop_last(), vs);
        lemma_bindings_within_names(h, ps.last(), vs[ps.len() - 1]);
    }
}

/// The same for the first alternative that accepts.
proof fn lemma_bindings_first_within_names<V>(h: Host<V>, alts: Seq<PatternView>, v: V)
    ensures
        bindings_first(h, alts, v).dom().subset_of(names_each(alts)),
    decreases alts,
{
    if alts.len() > 0 {
        lemma_bindings_first_within_names(h, alts.drop_last(), v);
        lemma_bindings_within_names(h, alts.last(), v);
    }
}

/// Running two runs of re-matches one after the other.
pub(crate) proof fn lemma_run_concat<V>(
    h: Host<V>,
    a: Seq<RematchView>,
    b: Seq<RematchView>,
    scope: Map<Seq<char>, V>,
)
    ensures
        scope_after(h, a + b, scope) == scope_after(h, b, scope_after(h, a, scope)),
        all_succeed(h, a + b, scope) <==> all_succeed(h, a, scope) && all_succeed(
            h,
            b,
            scope_after(h, a, scope),
        ),
    decreases b.len(),
{
    if b.len() == 0 {
        assert(a + b =~= a);
    } else {
        lemma_run_concat(h, a, b.drop_last(), scope);
        assert((a + b).drop_last() =~= a + b.drop_last());
        assert((a + b).last() == b.last());
    }
}

/// A run of re-matches leaves alone every name that none of its patterns
/// binds.
pub(crate) proof fn lemma_run_frame<V>(
    h: Host<V>,
    stmts: Seq<RematchView>,
    scope: Map<Seq<char>, V>,
    n: Seq<char>,
)
    requires
        !rematch_names(stmts).contains(n),
    ensures
        scope_after(h, stmts, scope).contains_key(n) == scope.contains_key(n),
        scope.contains_key(n) ==> scope_after(h, stmts, scope)[n] == scope[n],
    decreases stmts.len(),
{
    if stmts.len() > 0 {
        let before = scope_after(h, stmts.drop_last(), scope);
        lemma_run_frame(h, stmts.drop_last(), scope, n);
        lemma_bindings_within_names(h, stmts.last().pat, before[stmts.last().name]);
    }
}

} // verus!
