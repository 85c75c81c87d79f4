//! The pattern tree that the engine walks, and its mathematical view.
//!
//! A [`Pattern`] is owned, executable data. Every contract in this crate is
//! stated over its view, a [`PatternView`], in which all structural nodes
//! (wrappers, alternations, aggregates and sequences) share one shape: a
//! [`Shape`] tag and the children in source order. The two walks treat every
//! structural node alike, so the view says so once.

use vstd::prelude::*;

verus! {

/// How a named binding captures its value: `ref`, `mut`, both or neither.
#[derive(Clone, Copy, Debug, PartialEq, Eq)]
pub struct BindingMode {
    pub by_ref: bool,
    pub mutable: bool,
}

/// The single-child patterns.
#[derive(Clone, Copy, Debug, PartialEq, Eq)]
pub enum WrapperKind {
    /// `box p`
    Boxed,
    /// `&p`
    Reference,
    /// `&mut p`
    MutReference,
}

/// The leaves that can neither bind a name nor hold a nested pattern.
#[derive(Clone, Copy, Debug, PartialEq, Eq)]
pub enum OpaqueKind {
    Literal,
    Range,
    PathConstant,
    RestMarker,
    TypeAscription,
    Wildcard,
}

/// One node of a pattern tree.
#[derive(Debug, PartialEq, Eq)]
#[allow(inconsistent_fields)]
pub enum Pattern {
    /// `name` or `name @ sub`.
    NamedBinding { name: String, mode: BindingMode, sub: Option<Box<Pattern>> },
    /// A pattern behind one level of indirection.
    Wrapper { kind: WrapperKind, child: Box<Pattern> },
    /// `a | b | c`.
    Alternation { alts: Vec<Pattern> },
    /// `Path { field: pat, .. }`.
    AggregateByName { path: String, fields: Vec<FieldPattern>, has_rest: bool },
    /// `(a, b)` when `path` is `None`, `Path(a, b)` otherwise.
    AggregatePositional { path: Option<String>, elems: Vec<Pattern> },
    /// `[a, b, c]`.
    Sequence { elems: Vec<Pattern> },
    /// A leaf, carried as its source text.
    Opaque { kind: OpaqueKind, text: String },
    /// A fragment of another grammar that the engine cannot look into.
    EmbeddedConstruct { text: String },
}

/// One `field: pat` entry of an [`Pattern::AggregateByName`].
#[derive(Debug, PartialEq, Eq)]
pub struct FieldPattern {
    pub name: String,
    pub pat: Pattern,
}

/// What kind of structural node a [`PatternView::Node`] is, with everything
/// the node carries besides its children.
#[allow(inconsistent_fields)]
pub ghost enum Shape {
    Wrapper { kind: WrapperKind },
    Alternation,
    AggregateByName { path: Seq<char>, field_names: Seq<Seq<char>>, has_rest: bool },
    AggregatePositional { path: Option<Seq<char>> },
    Sequence,
}

/// The mathematical view of a [`Pattern`].
#[allow(inconsistent_fields)]
pub ghost enum PatternView {
    NamedBinding { name: Seq<char>, mode: BindingMode, sub: Option<Box<PatternView>> },
    Node { shape: Shape, children: Seq<PatternView> },
    Opaque { kind: OpaqueKind, text: Seq<char> },
    EmbeddedConstruct { text: Seq<char> },
}

/// The wildcard leaf `_`.
pub open spec fn wildcard() -> PatternView {
    PatternView::Opaque { kind: OpaqueKind::Wildcard, text: "_"@ }
}

/// The views of a run of patterns, in order.
pub open spec fn pattern_views(ps: Seq<Pattern>) -> Seq<PatternView> {
    Seq::new(ps.len(), |i: int| ps[i]@)
}

/// The field names of a run of field patterns, in order.
pub open spec fn field_names(fs: Seq<FieldPattern>) -> Seq<Seq<char>> {
    Seq::new(fs.len(), |i: int| fs[i].name@)
}

/// The views of the patterns of a run of field patterns, in order.
pub open spec fn field_views(fs: Seq<FieldPattern>) -> Seq<PatternView> {
    Seq::new(fs.len(), |i: int| fs[i].pat@)
}

/// The view of an optional string.
pub open spec fn text_view(t: Option<String>) -> Option<Seq<char>> {
    match t {
        Some(s) => Some(s@),
        None => None,
    }
}

impl Pattern {
    /// The view, by recursion over the tree. `p@` is this function.
    pub open spec fn model(&self) -> PatternView
        decreases self,
    {
        match self {
            Pattern::NamedBinding { name, mode, sub } => PatternView::NamedBinding {
                name: name@,
                mode: *mode,
                sub: match sub {
                    Some(s) => Some(Box::new(s.model())),
                    None => None,
                },
            },
            Pattern::Wrapper { kind, child } => PatternView::Node {
                shape: Shape::Wrapper { kind: *kind },
                children: seq![child.model()],
            },
            Pattern::Alternation { alts } => PatternView::Node {
                shape: Shape::Alternation,
                children: Seq::new(
                    alts@.len(),
                    |i: int|
                        if 0 <= i < alts@.len() {
                            alts@[i].model()
                        } else {
                            wildcard()
                        },
                ),
            },
            Pattern::AggregateByName { path, fields, has_rest } => PatternView::Node {
                shape: Shape::AggregateByName {
                    path: path@,
                    field_names: field_names(fields@),
                    has_rest: *has_rest,
                },
                children: Seq::new(
                    fields@.len(),
                    |i: int|
                        if 0 <= i < fields@.len() {
                            fields@[i].pat.model()
                        } else {
                            wildcard()
                        },
                ),
            },
            Pattern::AggregatePositional { path, elems } => PatternView::Node {
                shape: Shape::AggregatePositional { path: text_view(*path) },
                children: Seq::new(
                    elems@.len(),
                    |i: int|
                        if 0 <= i < elems@.len() {
                            elems@[i].model()
                        } else {
                            wildcard()
                        },
                ),
            },
            Pattern::Sequence { elems } => PatternView::Node {
                shape: Shape::Sequence,
                children: Seq::new(
                    elems@.len(),
                    |i: int|
                        if 0 <= i < elems@.len() {
                            elems@[i].model()
                        } else {
                            wildcard()
                        },
                ),
            },
            Pattern::Opaque { kind, text } => PatternView::Opaque { kind: *kind, text: text@ },
            Pattern::EmbeddedConstruct { text } => PatternView::EmbeddedConstruct { text: text@ },
        }
    }

    /// The children of a structural node are the views of its child patterns.
    pub proof fn lemma_model_children(&self)
        ensures
            match self {
                Pattern::Wrapper { child, .. } => self@->children == seq![child@],
                Pattern::Alternation { alts } => self@->children == pattern_views(alts@),
                Pattern::AggregateByName { fields, .. } => self@->children == field_views(
                    fields@,
                ),
                Pattern::AggregatePositional { elems, .. } => self@->children == pattern_views(
                    elems@,
                ),
                Pattern::Sequence { elems } => self@->children == pattern_views(elems@),
                _ => true,
            },
    {
        match self {
            Pattern::Alternation { alts } => {
                assert(self@->children =~= pattern_views(alts@));
            },
            Pattern::AggregateByName { fields, .. } => {
                assert(self@->children =~= field_views(fields@));
            },
            Pattern::AggregatePositional { elems, .. } => {
                assert(self@->children =~= pattern_views(elems@));
            },
            Pattern::Sequence { elems } => {
                assert(self@->children =~= pattern_views(elems@));
            },
            _ => {},
        }
    }
}

impl View for Pattern {
    type V = PatternView;

    open spec fn view(&self) -> PatternView {
        self.model()
    }
}

impl Clone for Pattern {
    /// A copy of the whole tree.
    fn clone(&self) -> (copy: Pattern)
        ensures
            copy@ == self@,
        decreases self,
    {
        match self {
            Pattern::NamedBinding { name, mode, sub: Some(sub) } => Pattern::NamedBinding {
                name: name.clone(),
                mode: *mode,
                sub: Some(Box::new((**sub).clone())),
            },
            Pattern::NamedBinding { name, mode, sub: None } => Pattern::NamedBinding {
                name: name.clone(),
                mode: *mode,
                sub: None,
            },
            Pattern::Wrapper { kind, child } => {
                let copy = Pattern::Wrapper { kind: *kind, child: Box::new((**child).clone()) };
                assert(copy@->children =~= self@->children);
                copy
            },
            Pattern::Alternation { alts } => {
                let copy = Pattern::Alternation { alts: clone_patterns(alts) };
                proof {
                    self.lemma_model_children();
                    copy.lemma_model_children();
                }
                copy
            },
            Pattern::AggregateByName { path, fields, has_rest } => {
                let copy = Pattern::AggregateByName {
                    path: path.clone(),
                    fields: clone_fields(fields),
                    has_rest: *has_rest,
                };
                proof {
                    self.lemma_model_children();
                    copy.lemma_model_children();
                }
                copy
            },
            Pattern::AggregatePositional { path, elems } => {
                let copy = Pattern::AggregatePositional {
                    path: path.clone(),
                    elems: clone_patterns(elems),
                };
                proof {
                    self.lemma_model_children();
                    copy.lemma_model_children();
                }
                copy
            },
            Pattern::Sequence { elems } => {
                let copy = Pattern::Sequence { elems: clone_patterns(elems) };
                proof {
                    self.lemma_model_children();
                    copy.lemma_model_children();
                }
                copy
            },
            Pattern::Opaque { kind, text } => Pattern::Opaque { kind: *kind, text: text.clone() },
            Pattern::EmbeddedConstruct { text } => Pattern::EmbeddedConstruct {
                text: text.clone(),
            },
        }
    }
}

impl Clone for FieldPattern {
    /// A copy of the field and of the tree below it.
    fn clone(&self) -> (copy: FieldPattern)
        ensures
            copy.name@ == self.name@,
            copy.pat@ == self.pat@,
        decreases self,
    {
        FieldPattern { name: self.name.clone(), pat: self.pat.clone() }
    }
}

/// A copy of each pattern of `pats`, in order.
fn clone_patterns(pats: &Vec<Pattern>) -> (copies: Vec<Pattern>)
    ensures
        pattern_views(copies@) == pattern_views(pats@),
    decreases pats,
{
    let mut copies: Vec<Pattern> = Vec::new();
    let mut i: usize = 0;
    while i < pats.len()
        invariant
            i <= pats.len(),
            copies.len() == i,
            forall|j: int| 0 <= j < i ==> copies@[j]@ == pats@[j]@,
        decreases pats.len() - i,
    {
        copies.push(pats[i].clone());
        i += 1;
    }
    assert(pattern_views(copies@) =~= pattern_views(pats@));
    copies
}

/// A copy of each field of `fields`, in order.
fn clone_fields(fields: &Vec<FieldPattern>) -> (copies: Vec<FieldPattern>)
    ensures
        field_names(copies@) == field_names(fields@),
        field_views(copies@) == field_views(fields@),
    decreases fields,
{
    let mut copies: Vec<FieldPattern> = Vec::new();
    let mut i: usize = 0;
    while i < fields.len()
        invariant
            i <= fields.len(),
            copies.len() == i,
            forall|j: int| 0 <= j < i ==> copies@[j].name@ == fields@[j].name@,
            forall|j: int| 0 <= j < i ==> copies@[j].pat@ == fields@[j].pat@,
        decreases fields.len() - i,
    {
        copies.push(fields[i].clone());
        i += 1;
    }
    assert(field_names(copies@) =~= field_names(fields@));
    assert(field_views(copies@) =~= field_views(fields@));
    copies
}

} // verus!
