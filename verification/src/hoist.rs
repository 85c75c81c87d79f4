//! The binding hoister: one walk that records every binding it meets and
//! strips the substructure of each down to its erased form.

use crate::erase::{binding_free, erase, lemma_erase_binding_free, remove_all_bindings};
use crate::error::UnsupportedPattern;
use crate::pattern::{
    field_names, field_views, pattern_views, wildcard, FieldPattern, Pattern, PatternView,
};
use std::collections::VecDeque;
use vstd::prelude::*;

verus! {

/// One recorded binding: its name and the substructure it was bound with, as
/// it stood in the pattern.
pub ghost struct Entry {
    pub name: Seq<char>,
    pub sub: Option<PatternView>,
}

/// The view of one queued binding.
pub open spec fn entry_view(e: (String, Option<Pattern>)) -> Entry {
    Entry {
        name: e.0@,
        sub: match e.1 {
            Some(p) => Some(p@),
            None => None,
        },
    }
}

/// The view of a queue of bindings, front first.
pub open spec fn queue_view(q: Seq<(String, Option<Pattern>)>) -> Seq<Entry> {
    Seq::new(q.len(), |i: int| entry_view(q[i]))
}

/// The pattern that the hoister returns for `p`: every binding it reaches
/// keeps its name and mode and has its substructure erased. The walk goes
/// through structural nodes and stops at bindings and leaves.
pub open spec fn hoist(p: PatternView) -> PatternView
    decreases p,
{
    match p {
        PatternView::NamedBinding { name, mode, sub: Some(s) } => PatternView::NamedBinding {
            name,
            mode,
            sub: Some(Box::new(erase(*s))),
        },
        PatternView::Node { shape, children } => PatternView::Node {
            shape,
            children: hoist_each(children),
        },
        _ => p,
    }
}

/// [`hoist`] applied to each pattern of a run.
pub open spec fn hoist_each(ps: Seq<PatternView>) -> Seq<PatternView>
    decreases ps,
{
    Seq::new(
        ps.len(),
        |i: int|
            if 0 <= i < ps.len() {
                hoist(ps[i])
            } else {
                wildcard()
            },
    )
}

/// The entries that the hoister records for `p`, in the order in which it
/// records them: left to right, one for each binding that no other binding
/// encloses, each with its substructure as it stands in `p`.
pub open spec fn hoist_entries(p: PatternView) -> Seq<Entry>
    decreases p,
{
    match p {
        PatternView::NamedBinding { name, sub: Some(s), .. } => seq![
            Entry { name, sub: Some(*s) },
        ],
        PatternView::NamedBinding { name, sub: None, .. } => seq![Entry { name, sub: None }],
        PatternView::Node { children, .. } => hoist_entries_each(children),
        _ => Seq::empty(),
    }
}

/// The entries of each pattern of a run, one pattern after the other.
pub open spec fn hoist_entries_each(ps: Seq<PatternView>) -> Seq<Entry>
    decreases ps,
{
    if ps.len() == 0 {
        Seq::empty()
    } else {
        hoist_entries_each(ps.drop_last()) + hoist_entries(ps.last())
    }
}

/// The hoister can walk `p`: it meets no embedded construct. What lies inside
/// the substructure of a binding is not walked and does not count.
pub open spec fn hoistable(p: PatternView) -> bool
    decreases p,
{
    match p {
        PatternView::Node { children, .. } => forall|i: int|
            0 <= i < children.len() ==> hoistable(#[trigger] children[i]),
        PatternView::EmbeddedConstruct { .. } => false,
        _ => true,
    }
}

/// No binding of `p` lies inside the substructure of another binding.
pub open spec fn is_flat(p: PatternView) -> bool
    decreases p,
{
    match p {
        PatternView::NamedBinding { sub: Some(s), .. } => binding_free(*s),
        PatternView::Node { children, .. } => forall|i: int|
            0 <= i < children.len() ==> is_flat(#[trigger] children[i]),
        _ => true,
    }
}

/// The names that `p` binds, at any depth.
pub open spec fn names(p: PatternView) -> Set<Seq<char>>
    decreases p,
{
    match p {
        PatternView::NamedBinding { name, sub: Some(s), .. } => names(*s).insert(name),
        PatternView::NamedBinding { name, sub: None, .. } => set![name],
        PatternView::Node { children, .. } => names_each(children),
        _ => Set::empty(),
    }
}

/// The names that the patterns of a run bind.
pub open spec fn names_each(ps: Seq<PatternView>) -> Set<Seq<char>>
    decreases ps,
{
    if ps.len() == 0 {
        Set::empty()
    } else {
        names_each(ps.drop_last()).union(names(ps.last()))
    }
}

/// The names that one entry stands for: its own and those that its
/// substructure binds.
pub open spec fn entry_names(e: Entry) -> Set<Seq<char>> {
    match e.sub {
        Some(s) => names(s).insert(e.name),
        None => set![e.name],
    }
}

/// The names that the entries of a queue stand for.
pub open spec fn queue_names(q: Seq<Entry>) -> Set<Seq<char>>
    decreases q.len(),
{
    if q.len() == 0 {
        Set::empty()
    } else {
        queue_names(q.drop_last()).union(entry_names(q.last()))
    }
}

/// A pattern without bindings binds no name.
pub(crate) proof fn lemma_binding_free_names(p: PatternView)
    requires
        binding_free(p),
    ensures
        names(p) == Set::<Seq<char>>::empty(),
    decreases p,
{
    match p {
        PatternView::Node { children, .. } => {
            lemma_binding_free_names_each(children);
        },
        _ => {},
    }
}

/// The same for a run of patterns.
proof fn lemma_binding_free_names_each(ps: Seq<PatternView>)
    requires
        forall|i: int| 0 <= i < ps.len() ==> binding_free(#[trigger] ps[i]),
    ensures
        names_each(ps) == Set::<Seq<char>>::empty(),
    decreases ps,
{
    if ps.len() > 0 {
        lemma_binding_free_names_each(ps.drop_last());
        lemma_binding_free_names(ps.last());
    }
}

/// No nested bindings after hoisting: in the pattern that the hoister
/// returns, the substructure of every binding is free of bindings.
pub proof fn lemma_hoist_is_flat(p: PatternView)
    ensures
        is_flat(hoist(p)),
    decreases p,
{
    match p {
        PatternView::NamedBinding { sub: Some(s), .. } => {
            lemma_erase_binding_free(*s);
        },
        PatternView::Node { children, .. } => {
            let hoisted = hoist_each(children);
            assert forall|i: int| 0 <= i < hoisted.len() implies is_flat(#[trigger] hoisted[i]) by {
                lemma_hoist_is_flat(children[i]);
            }
        },
        _ => {},
    }
}

/// Binding completeness: the names that `p` binds are those that the hoisted
/// pattern binds together with those that the recorded entries stand for.
pub proof fn lemma_hoist_keeps_names(p: PatternView)
    ensures
        names(p) == names(hoist(p)).union(queue_names(hoist_entries(p))),
    decreases p,
{
    match p {
        PatternView::NamedBinding { name, sub: Some(s), .. } => {
            lemma_erase_binding_free(*s);
            lemma_binding_free_names(erase(*s));
            let q = hoist_entries(p);
            assert(q.drop_last() =~= Seq::<Entry>::empty());
            assert(queue_names(q.drop_last()) == Set::<Seq<char>>::empty());
            assert(names(p) =~= names(hoist(p)).union(queue_names(q)));
        },
        PatternView::NamedBinding { name, sub: None, .. } => {
            let q = hoist_entries(p);
            assert(q.drop_last() =~= Seq::<Entry>::empty());
            assert(queue_names(q.drop_last()) == Set::<Seq<char>>::empty());
            assert(names(p) =~= names(hoist(p)).union(queue_names(q)));
        },
        PatternView::Node { children, .. } => {
            lemma_hoist_keeps_names_each(children);
        },
        _ => {
            assert(names(p) =~= names(hoist(p)).union(queue_names(hoist_entries(p))));
        },
    }
}

/// The same for a run of patterns.
proof fn lemma_hoist_keeps_names_each(ps: Seq<PatternView>)
    ensures
        names_each(ps) == names_each(hoist_each(ps)).union(queue_names(hoist_entries_each(ps))),
    decreases ps,
{
    if ps.len() == 0 {
        assert(names_each(ps) =~= names_each(hoist_each(ps)).union(
            queue_names(hoist_entries_each(ps)),
        ));
    } else {
        lemma_hoist_keeps_names_each(ps.drop_last());
        lemma_hoist_keeps_names(ps.last());
        assert(hoist_each(ps).drop_last() =~= hoist_each(ps.drop_last()));
        lemma_queue_names_concat(hoist_entries_each(ps.drop_last()), hoist_entries(ps.last()));
        assert(names_each(ps) =~= names_each(hoist_each(ps)).union(
            queue_names(hoist_entries_each(ps)),
        ));
    }
}

/// The names of two queues joined are the names of both.
pub(crate) proof fn lemma_queue_names_concat(a: Seq<Entry>, b: Seq<Entry>)
    ensures
        queue_names(a + b) == queue_names(a).union(queue_names(b)),
    decreases b.len(),
{
    if b.len() == 0 {
        assert(a + b =~= a);
        assert(queue_names(a + b) =~= queue_names(a).union(queue_names(b)));
    } else {
        lemma_queue_names_concat(a, b.drop_last());
        assert((a + b).drop_last() =~= a + b.drop_last());
        assert((a + b).last() == b.last());
        assert(queue_names(a + b) =~= queue_names(a).union(queue_names(b)));
    }
}

/// Everything that was queued is still queued, in place, at the front.
pub open spec fn extends<T>(before: Seq<T>, after: Seq<T>) -> bool {
    before.len() <= after.len() && after.subrange(0, before.len() as int) == before
}

/// Walks `pat` once, appends one entry to `bindings` for each binding it
/// reaches, and returns `pat` with the substructure of each of them erased.
///
/// The alternatives of an alternation are walked like any other children: a
/// name that several of them bind is recorded once for each.
///
/// The walk fails exactly when it meets an embedded construct; `bindings` is
/// then left as it was.
pub fn get_toplevel_bindings_and_remove_others(
    pat: Pattern,
    bindings: &mut VecDeque<(String, Option<Pattern>)>,
) -> (hoisted: Result<Pattern, UnsupportedPattern>)
    ensures
        match hoisted {
            Ok(flat) => {
                &&& hoistable(pat@)
                &&& flat@ == hoist(pat@)
                &&& is_flat(flat@)
                &&& queue_view(final(bindings)@) == queue_view(old(bindings)@) + hoist_entries(
                    pat@,
                )
            },
            Err(_) => !hoistable(pat@) && final(bindings)@ == old(bindings)@,
        },
{
    let queued = bindings.len();
    let walked = hoist_walk(pat, bindings);
    match walked {
        Ok(flat) => {
            proof {
                lemma_hoist_is_flat(pat@);
            }
            Ok(flat)
        },
        Err(e) => {
            // Take back what the walk recorded before it failed.
            bindings.truncate(queued);
            Err(e)
        },
    }
}

/// The walk itself. Where it fails, what it has recorded up to there stays
/// at the back of `bindings`.
fn hoist_walk(
    pat: Pattern,
    bindings: &mut VecDeque<(String, Option<Pattern>)>,
) -> (walked: Result<Pattern, UnsupportedPattern>)
    ensures
        extends(old(bindings)@, final(bindings)@),
        match walked {
            Ok(flat) => {
                &&& hoistable(pat@)
                &&& flat@ == hoist(pat@)
                &&& queue_view(final(bindings)@) == queue_view(old(bindings)@) + hoist_entries(
                    pat@,
                )
            },
            Err(_) => !hoistable(pat@),
        },
    decreases pat,
{
    let ghost before = bindings@;
    match pat {
        Pattern::NamedBinding { name, mode, sub: Some(sub) } => {
            let erased = remove_all_bindings(&sub);
            bindings.push_back((name.clone(), Some(*sub)));
            assert(queue_view(bindings@) =~= queue_view(before) + hoist_entries(pat@));
            assert(bindings@.subrange(0, before.len() as int) =~= before);
            Ok(Pattern::NamedBinding { name, mode, sub: Some(Box::new(erased)) })
        },
        Pattern::NamedBinding { name, mode, sub: None } => {
            bindings.push_back((name.clone(), None));
            assert(queue_view(bindings@) =~= queue_view(before) + hoist_entries(pat@));
            assert(bindings@.subrange(0, before.len() as int) =~= before);
            Ok(Pattern::NamedBinding { name, mode, sub: None })
        },
        Pattern::Wrapper { kind, child } => {
            assert(pat@->children[0] == child@);
            assert(pat@->children.drop_last() =~= Seq::<PatternView>::empty());
            assert(hoist_entries_each(pat@->children.drop_last()) == Seq::<Entry>::empty());
            match hoist_walk(*child, bindings) {
                Ok(child) => {
                    let flat = Pattern::Wrapper { kind, child: Box::new(child) };
                    assert(flat@->children =~= hoist_each(pat@->children));
                    assert(queue_view(bindings@) =~= queue_view(before) + hoist_entries(pat@));
                    Ok(flat)
                },
                Err(e) => Err(e),
            }
        },
        Pattern::Alternation { alts } => {
            proof {
                pat.lemma_model_children();
            }
            match hoist_walk_each(alts, bindings) {
                Ok(alts) => {
                    let flat = Pattern::Alternation { alts };
                    proof {
                        flat.lemma_model_children();
                    }
                    Ok(flat)
                },
                Err(e) => Err(e),
            }
        },
        Pattern::AggregateByName { path, fields, has_rest } => {
            proof {
                pat.lemma_model_children();
            }
            match hoist_walk_fields(fields, bindings) {
                Ok(fields) => {
                    let flat = Pattern::AggregateByName { path, fields, has_rest };
                    proof {
                        flat.lemma_model_children();
                    }
                    Ok(flat)
                },
                Err(e) => Err(e),
            }
        },
        Pattern::AggregatePositional { path, elems } => {
            proof {
                pat.lemma_model_children();
            }
            match hoist_walk_each(elems, bindings) {
                Ok(elems) => {
                    let flat = Pattern::AggregatePositional { path, elems };
                    proof {
                        flat.lemma_model_children();
                    }
                    Ok(flat)
                },
                Err(e) => Err(e),
            }
        },
        Pattern::Sequence { elems } => {
            proof {
                pat.lemma_model_children();
            }
            match hoist_walk_each(elems, bindings) {
                Ok(elems) => {
                    let flat = Pattern::Sequence { elems };
                    proof {
                        flat.lemma_model_children();
                    }
                    Ok(flat)
                },
                Err(e) => Err(e),
            }
        },
        Pattern::Opaque { kind, text } => {
            assert(queue_view(bindings@) =~= queue_view(before) + hoist_entries(pat@));
            assert(bindings@.subrange(0, before.len() as int) =~= before);
            Ok(Pattern::Opaque { kind, text })
        },
        Pattern::EmbeddedConstruct { .. } => {
            assert(bindings@.subrange(0, before.len() as int) =~= before);
            Err(UnsupportedPattern)
        },
    }
}

/// [`hoist_walk`] on each pattern of `pats`, from left to right, up to the
/// first that fails.
fn hoist_walk_each(
    pats: Vec<Pattern>,
    bindings: &mut VecDeque<(String, Option<Pattern>)>,
) -> (walked: Result<Vec<Pattern>, UnsupportedPattern>)
    ensures
        extends(old(bindings)@, final(bindings)@),
        match walked {
            Ok(flat) => {
                &&& forall|i: int|
                    0 <= i < pats@.len() ==> hoistable(#[trigger] pattern_views(pats@)[i])
                &&& pattern_views(flat@) == hoist_each(pattern_views(pats@))
                &&& queue_view(final(bindings)@) == queue_view(old(bindings)@)
                    + hoist_entries_each(pattern_views(pats@))
            },
            Err(_) => exists|i: int|
                0 <= i < pats@.len() && !hoistable(#[trigger] pattern_views(pats@)[i]),
        },
    decreases pats,
{
    let ghost before = bindings@;
    let ghost given = pats;
    let ghost views = pattern_views(pats@);
    let mut flat: Vec<Pattern> = Vec::new();
    assert(views.take(0) =~= Seq::<PatternView>::empty());
    assert(bindings@.subrange(0, before.len() as int) =~= before);
    for pat in it: pats
        invariant
            given == pats,
            it.seq() == given@,
            views == pattern_views(given@),
            before == old(bindings)@,
            extends(before, bindings@),
            flat.len() == it.index(),
            forall|j: int| 0 <= j < flat.len() ==> hoistable(#[trigger] views[j]),
            forall|j: int| 0 <= j < flat.len() ==> flat@[j]@ == hoist(views[j]),
            queue_view(bindings@) == queue_view(before) + hoist_entries_each(
                views.take(it.index() as int),
            ),
    {
        let ghost k = it.index() as int;
        let ghost so_far = bindings@;
        assert(pat@ == views[k]);
        assert(views.take(k + 1).drop_last() =~= views.take(k));
        assert(views.take(k + 1).last() == views[k]);
        match hoist_walk(pat, bindings) {
            Ok(walked) => {
                flat.push(walked);
            },
            Err(e) => {
                assert(bindings@.subrange(0, before.len() as int) =~= so_far.subrange(
                    0,
                    before.len() as int,
                ));
                return Err(e);
            },
        }
        assert(bindings@.subrange(0, before.len() as int) =~= so_far.subrange(
            0,
            before.len() as int,
        ));
    }
    assert(views.take(views.len() as int) =~= views);
    assert(pattern_views(flat@) =~= hoist_each(views));
    Ok(flat)
}

/// [`hoist_walk`] on the pattern of each field of `fields`, from left to
/// right, up to the first that fails; the field names stay.
fn hoist_walk_fields(
    fields: Vec<FieldPattern>,
    bindings: &mut VecDeque<(String, Option<Pattern>)>,
) -> (walked: Result<Vec<FieldPattern>, UnsupportedPattern>)
    ensures
        extends(old(bindings)@, final(bindings)@),
        match walked {
            Ok(flat) => {
                &&& forall|i: int|
                    0 <= i < fields@.len() ==> hoistable(#[trigger] field_views(fields@)[i])
                &&& field_names(flat@) == field_names(fields@)
                &&& field_views(flat@) == hoist_each(field_views(fields@))
                &&& queue_view(final(bindings)@) == queue_view(old(bindings)@)
                    + hoist_entries_each(field_views(fields@))
            },
            Err(_) => exists|i: int|
                0 <= i < fields@.len() && !hoistable(#[trigger] field_views(fields@)[i]),
        },
    decreases fields,
{
    let ghost before = bindings@;
    let ghost given = fields;
    let ghost views = field_views(fields@);
    let mut flat: Vec<FieldPattern> = Vec::new();
    assert(views.take(0) =~= Seq::<PatternView>::empty());
    assert(bindings@.subrange(0, before.len() as int) =~= before);
    for field in it: fields
        invariant
            given == fields,
            it.seq() == given@,
            views == field_views(given@),
            before == old(bindings)@,
            extends(before, bindings@),
            flat.len() == it.index(),
            forall|j: int| 0 <= j < flat.len() ==> hoistable(#[trigger] views[j]),
            forall|j: int| 0 <= j < flat.len() ==> flat@[j].name@ == given@[j].name@,
            forall|j: int| 0 <= j < flat.len() ==> flat@[j].pat@ == hoist(views[j]),
            queue_view(bindings@) == queue_view(before) + hoist_entries_each(
                views.take(it.index() as int),
            ),
    {
        let ghost k = it.index() as int;
        let ghost so_far = bindings@;
        assert(field.pat@ == views[k]);
        assert(views.take(k + 1).drop_last() =~= views.take(k));
        assert(views.take(k + 1).last() == views[k]);
        let FieldPattern { name, pat } = field;
        match hoist_walk(pat, bindings) {
            Ok(walked) => {
                flat.push(FieldPattern { name, pat: walked });
            },
            Err(e) => {
                assert(bindings@.subrange(0, before.len() as int) =~= so_far.subrange(
                    0,
                    before.len() as int,
                ));
                return Err(e);
            },
        }
        assert(bindings@.subrange(0, before.len() as int) =~= so_far.subrange(
            0,
            before.len() as int,
        ));
    }
    assert(views.take(views.len() as int) =~= views);
    assert(field_names(flat@) =~= field_names(given@));
    assert(field_views(flat@) =~= hoist_each(views));
    Ok(flat)
}

} // verus!
