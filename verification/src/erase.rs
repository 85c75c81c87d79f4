//! The binding eraser: the same shape with every name removed.

use crate::pattern::{
    field_names, field_views, pattern_views, wildcard, FieldPattern, OpaqueKind, Pattern,
    PatternView,
};
use vstd::prelude::*;

verus! {

/// `p` with every binding removed. A binding with a substructure gives way to
/// that substructure, erased in turn; a bare name becomes the wildcard.
/// Structural nodes keep their shape, leaves and embedded fragments stay as
/// they are.
pub open spec fn erase(p: PatternView) -> PatternView
    decreases p,
{
    match p {
        PatternView::NamedBinding { sub: Some(s), .. } => erase(*s),
        PatternView::NamedBinding { sub: None, .. } => wildcard(),
        PatternView::Node { shape, children } => PatternView::Node {
            shape,
            children: erase_each(children),
        },
        _ => p,
    }
}

/// [`erase`] applied to each pattern of a run.
pub open spec fn erase_each(ps: Seq<PatternView>) -> Seq<PatternView>
    decreases ps,
{
    Seq::new(
        ps.len(),
        |i: int|
            if 0 <= i < ps.len() {
                erase(ps[i])
            } else {
                wildcard()
            },
    )
}

/// No node of `p` is a named binding.
pub open spec fn binding_free(p: PatternView) -> bool
    decreases p,
{
    match p {
        PatternView::NamedBinding { .. } => false,
        PatternView::Node { children, .. } => forall|i: int|
            0 <= i < children.len() ==> binding_free(#[trigger] children[i]),
        _ => true,
    }
}

/// Erasure leaves no binding behind.
pub proof fn lemma_erase_binding_free(p: PatternView)
    ensures
        binding_free(erase(p)),
    decreases p,
{
    match p {
        PatternView::NamedBinding { sub: Some(s), .. } => {
            lemma_erase_binding_free(*s);
        },
        PatternView::Node { shape, children } => {
            let erased = erase_each(children);
            assert forall|i: int| 0 <= i < erased.len() implies binding_free(
                #[trigger] erased[i],
            ) by {
                lemma_erase_binding_free(children[i]);
            }
        },
        _ => {},
    }
}

/// Erasure changes nothing in a pattern that binds no name.
pub proof fn lemma_erase_fixes_binding_free(p: PatternView)
    requires
        binding_free(p),
    ensures
        erase(p) == p,
    decreases p,
{
    match p {
        PatternView::Node { shape, children } => {
            assert forall|i: int| 0 <= i < children.len() implies erase_each(children)[i]
                == children[i] by {
                lemma_erase_fixes_binding_free(children[i]);
            }
            assert(erase_each(children) =~= children);
        },
        _ => {},
    }
}

/// Erasure is idempotent: erasing an erased pattern changes nothing.
pub proof fn lemma_erase_idempotent(p: PatternView)
    ensures
        erase(erase(p)) == erase(p),
{
    lemma_erase_binding_free(p);
    lemma_erase_fixes_binding_free(erase(p));
}

/// Removes every binding from `pat` and returns the erased tree.
pub fn remove_all_bindings(pat: &Pattern) -> (erased: Pattern)
    ensures
        erased@ == erase(pat@),
    decreases pat,
{
    match pat {
        Pattern::NamedBinding { sub: Some(sub), .. } => remove_all_bindings(sub),
        Pattern::NamedBinding { sub: None, .. } => Pattern::Opaque {
            kind: OpaqueKind::Wildcard,
            text: "_".to_owned(),
        },
        Pattern::Wrapper { kind, child } => {
            let erased = Pattern::Wrapper {
                kind: *kind,
                child: Box::new(remove_all_bindings(child)),
            };
            assert(erased@->children =~= erase_each(pat@->children));
            erased
        },
        Pattern::Alternation { alts } => {
            let erased = Pattern::Alternation { alts: remove_all_bindings_each(alts) };
            proof {
                pat.lemma_model_children();
                erased.lemma_model_children();
            }
            erased
        },
        Pattern::AggregateByName { path, fields, has_rest } => {
            let erased = Pattern::AggregateByName {
                path: path.clone(),
                fields: remove_all_bindings_in_fields(fields),
                has_rest: *has_rest,
            };
            proof {
                pat.lemma_model_children();
                erased.lemma_model_children();
            }
            erased
        },
        Pattern::AggregatePositional { path, elems } => {
            let erased = Pattern::AggregatePositional {
                path: path.clone(),
                elems: remove_all_bindings_each(elems),
            };
            proof {
                pat.lemma_model_children();
                erased.lemma_model_children();
            }
            erased
        },
        Pattern::Sequence { elems } => {
            let erased = Pattern::Sequence { elems: remove_all_bindings_each(elems) };
            proof {
                pat.lemma_model_children();
                erased.lemma_model_children();
            }
            erased
        },
        Pattern::Opaque { kind, text } => Pattern::Opaque { kind: *kind, text: text.clone() },
        Pattern::EmbeddedConstruct { text } => Pattern::EmbeddedConstruct { text: text.clone() },
    }
}

/// [`remove_all_bindings`] on each pattern of `pats`, in order.
fn remove_all_bindings_each(pats: &Vec<Pattern>) -> (erased: Vec<Pattern>)
    ensures
        pattern_views(erased@) == erase_each(pattern_views(pats@)),
    decreases pats,
{
    let mut erased: Vec<Pattern> = Vec::new();
    let mut i: usize = 0;
    while i < pats.len()
        invariant
            i <= pats.len(),
            erased.len() == i,
            forall|j: int| 0 <= j < i ==> erased@[j]@ == erase(pats@[j]@),
        decreases pats.len() - i,
    {
        erased.push(remove_all_bindings(&pats[i]));
        i += 1;
    }
    assert(pattern_views(erased@) =~= erase_each(pattern_views(pats@)));
    erased
}

/// [`remove_all_bindings`] on the pattern of each field of `fields`, in
/// order; the field names stay.
fn remove_all_bindings_in_fields(fields: &Vec<FieldPattern>) -> (erased: Vec<FieldPattern>)
    ensures
        field_names(erased@) == field_names(fields@),
        field_views(erased@) == erase_each(field_views(fields@)),
    decreases fields,
{
    let mut erased: Vec<FieldPattern> = Vec::new();
    let mut i: usize = 0;
    while i < fields.len()
        invariant
            i <= fields.len(),
            erased.len() == i,
            forall|j: int| 0 <= j < i ==> erased@[j].name@ == fields@[j].name@,
            forall|j: int| 0 <= j < i ==> erased@[j].pat@ == erase(fields@[j].pat@),
        decreases fields.len() - i,
    {
        let field = &fields[i];
        erased.push(
            FieldPattern { name: field.name.clone(), pat: remove_all_bindings(&field.pat) },
        );
        i += 1;
    }
    assert(field_names(erased@) =~= field_names(fields@));
    assert(field_views(erased@) =~= erase_each(field_views(fields@)));
    erased
}

} // verus!
