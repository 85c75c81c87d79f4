use smart_pat_bindings::error::UnsupportedPattern;
use smart_pat_bindings::hoist::get_toplevel_bindings_and_remove_others;
use smart_pat_bindings::pattern::{BindingMode, FieldPattern, OpaqueKind, Pattern, WrapperKind};
use std::collections::VecDeque;

const PLAIN: BindingMode = BindingMode { by_ref: false, mutable: false };

type Queue = VecDeque<(String, Option<Pattern>)>;

fn name(n: &str) -> Pattern {
    Pattern::NamedBinding { name: n.to_string(), mode: PLAIN, sub: None }
}

fn bind(n: &str, sub: Pattern) -> Pattern {
    Pattern::NamedBinding { name: n.to_string(), mode: PLAIN, sub: Some(Box::new(sub)) }
}

fn leaf(kind: OpaqueKind, text: &str) -> Pattern {
    Pattern::Opaque { kind, text: text.to_string() }
}

fn wild() -> Pattern {
    leaf(OpaqueKind::Wildcard, "_")
}

fn field(n: &str, pat: Pattern) -> FieldPattern {
    FieldPattern { name: n.to_string(), pat }
}

fn tuple(elems: Vec<Pattern>) -> Pattern {
    Pattern::AggregatePositional { path: None, elems }
}

fn ctor(p: &str, elems: Vec<Pattern>) -> Pattern {
    Pattern::AggregatePositional { path: Some(p.to_string()), elems }
}

fn embedded() -> Pattern {
    Pattern::EmbeddedConstruct { text: "m!(x)".to_string() }
}

fn entry(n: &str, sub: Option<Pattern>) -> (String, Option<Pattern>) {
    (n.to_string(), sub)
}

#[test]
fn hoist_bare_name_records_it_and_keeps_it() {
    let mut queue = Queue::new();
    let out = get_toplevel_bindings_and_remove_others(name("x"), &mut queue);
    assert_eq!(out, Ok(name("x")));
    assert_eq!(queue, Queue::from(vec![entry("x", None)]));
}

#[test]
fn hoist_binding_records_the_substructure_as_it_stood() {
    let mut queue = Queue::new();
    let sub = || ctor("Some", vec![bind("n", leaf(OpaqueKind::Range, "1..=9"))]);
    let out = get_toplevel_bindings_and_remove_others(bind("x", sub()), &mut queue);
    assert_eq!(out, Ok(bind("x", ctor("Some", vec![leaf(OpaqueKind::Range, "1..=9")]))));
    assert_eq!(queue, Queue::from(vec![entry("x", Some(sub()))]));
}

#[test]
fn hoist_keeps_name_and_mode() {
    let mode = BindingMode { by_ref: true, mutable: true };
    let pat = Pattern::NamedBinding {
        name: "x".to_string(),
        mode,
        sub: Some(Box::new(ctor("Some", vec![name("n")]))),
    };
    let mut queue = Queue::new();
    let out = get_toplevel_bindings_and_remove_others(pat, &mut queue);
    assert_eq!(
        out,
        Ok(Pattern::NamedBinding {
            name: "x".to_string(),
            mode,
            sub: Some(Box::new(ctor("Some", vec![wild()]))),
        })
    );
}

#[test]
fn hoist_appends_behind_what_is_queued() {
    let mut queue = Queue::from(vec![entry("before", Some(name("z")))]);
    let pat = tuple(vec![name("a"), name("b")]);
    let out = get_toplevel_bindings_and_remove_others(pat, &mut queue);
    assert_eq!(out, Ok(tuple(vec![name("a"), name("b")])));
    assert_eq!(
        queue,
        Queue::from(vec![entry("before", Some(name("z"))), entry("a", None), entry("b", None)])
    );
}

#[test]
fn hoist_records_siblings_left_to_right_and_depth_first() {
    // ((a, b @ 1), [c, &d], S { f: e, g: h @ _ })
    let pat = tuple(vec![
        tuple(vec![name("a"), bind("b", leaf(OpaqueKind::Literal, "1"))]),
        Pattern::Sequence {
            elems: vec![
                name("c"),
                Pattern::Wrapper { kind: WrapperKind::Reference, child: Box::new(name("d")) },
            ],
        },
        Pattern::AggregateByName {
            path: "S".to_string(),
            fields: vec![field("f", name("e")), field("g", bind("h", wild()))],
            has_rest: false,
        },
    ]);
    let mut queue = Queue::new();
    let out = get_toplevel_bindings_and_remove_others(pat, &mut queue).unwrap();
    let names: Vec<&str> = queue.iter().map(|(n, _)| n.as_str()).collect();
    assert_eq!(names, vec!["a", "b", "c", "d", "e", "h"]);
    assert_eq!(queue[1].1, Some(leaf(OpaqueKind::Literal, "1")));
    assert_eq!(queue[5].1, Some(wild()));
    assert_eq!(
        out,
        tuple(vec![
            tuple(vec![name("a"), bind("b", leaf(OpaqueKind::Literal, "1"))]),
            Pattern::Sequence {
                elems: vec![
                    name("c"),
                    Pattern::Wrapper { kind: WrapperKind::Reference, child: Box::new(name("d")) },
                ],
            },
            Pattern::AggregateByName {
                path: "S".to_string(),
                fields: vec![field("f", name("e")), field("g", bind("h", wild()))],
                has_rest: false,
            },
        ])
    );
}

#[test]
fn hoist_records_each_alternative() {
    // x @ Some(1) | x @ None
    let pat = Pattern::Alternation {
        alts: vec![
            bind("x", ctor("Some", vec![leaf(OpaqueKind::Literal, "1")])),
            bind("x", leaf(OpaqueKind::PathConstant, "None")),
        ],
    };
    let mut queue = Queue::new();
    let out = get_toplevel_bindings_and_remove_others(pat, &mut queue);
    assert_eq!(
        out,
        Ok(Pattern::Alternation {
            alts: vec![
                bind("x", ctor("Some", vec![leaf(OpaqueKind::Literal, "1")])),
                bind("x", leaf(OpaqueKind::PathConstant, "None")),
            ],
        })
    );
    assert_eq!(
        queue,
        Queue::from(vec![
            entry("x", Some(ctor("Some", vec![leaf(OpaqueKind::Literal, "1")]))),
            entry("x", Some(leaf(OpaqueKind::PathConstant, "None"))),
        ])
    );
}

#[test]
fn hoist_leaves_a_leaf_alone() {
    let mut queue = Queue::new();
    let out = get_toplevel_bindings_and_remove_others(leaf(OpaqueKind::Literal, "7"), &mut queue);
    assert_eq!(out, Ok(leaf(OpaqueKind::Literal, "7")));
    assert!(queue.is_empty());
}

#[test]
fn hoist_fails_on_embedded_construct_and_leaves_queue_alone() {
    let mut queue = Queue::from(vec![entry("before", None)]);
    let pat = tuple(vec![name("a"), ctor("Some", vec![embedded()])]);
    let out = get_toplevel_bindings_and_remove_others(pat, &mut queue);
    assert_eq!(out, Err(UnsupportedPattern));
    assert_eq!(queue, Queue::from(vec![entry("before", None)]));
}

#[test]
fn hoist_does_not_look_inside_a_substructure() {
    let mut queue = Queue::new();
    let out = get_toplevel_bindings_and_remove_others(bind("x", embedded()), &mut queue);
    assert_eq!(out, Ok(bind("x", embedded())));
    assert_eq!(queue, Queue::from(vec![entry("x", Some(embedded()))]));
}

#[test]
fn hoist_fails_wherever_the_walk_meets_an_embedded_construct() {
    let field_of = |pat: Pattern| Pattern::AggregateByName {
        path: "S".to_string(),
        fields: vec![field("f", bind("a", name("b"))), field("g", pat)],
        has_rest: false,
    };
    let in_the_way = vec![
        embedded(),
        Pattern::Wrapper { kind: WrapperKind::Boxed, child: Box::new(embedded()) },
        Pattern::Alternation { alts: vec![name("a"), embedded()] },
        Pattern::Sequence { elems: vec![name("a"), name("b"), embedded(), name("c")] },
        field_of(embedded()),
        tuple(vec![name("a"), tuple(vec![name("b"), ctor("Some", vec![embedded()])])]),
    ];
    for pat in in_the_way {
        let mut queue = Queue::from(vec![entry("p", None), entry("q", Some(name("r")))]);
        let out = get_toplevel_bindings_and_remove_others(pat, &mut queue);
        assert_eq!(out, Err(UnsupportedPattern));
        assert_eq!(queue, Queue::from(vec![entry("p", None), entry("q", Some(name("r")))]));
    }
    let mut queue = Queue::new();
    assert!(get_toplevel_bindings_and_remove_others(field_of(bind("x", embedded())), &mut queue)
        .is_ok());
    assert_eq!(queue.len(), 2);
}

fn has_binding(p: &Pattern) -> bool {
    match p {
        Pattern::NamedBinding { .. } => true,
        Pattern::Wrapper { child, .. } => has_binding(child),
        Pattern::Alternation { alts } => alts.iter().any(has_binding),
        Pattern::AggregateByName { fields, .. } => fields.iter().any(|f| has_binding(&f.pat)),
        Pattern::AggregatePositional { elems, .. } => elems.iter().any(has_binding),
        Pattern::Sequence { elems } => elems.iter().any(has_binding),
        Pattern::Opaque { .. } | Pattern::EmbeddedConstruct { .. } => false,
    }
}

fn has_nested_binding(p: &Pattern) -> bool {
    match p {
        Pattern::NamedBinding { sub, .. } => sub.as_ref().map_or(false, |s| has_binding(s)),
        Pattern::Wrapper { child, .. } => has_nested_binding(child),
        Pattern::Alternation { alts } => alts.iter().any(has_nested_binding),
        Pattern::AggregateByName { fields, .. } => {
            fields.iter().any(|f| has_nested_binding(&f.pat))
        }
        Pattern::AggregatePositional { elems, .. } => elems.iter().any(has_nested_binding),
        Pattern::Sequence { elems } => elems.iter().any(has_nested_binding),
        Pattern::Opaque { .. } | Pattern::EmbeddedConstruct { .. } => false,
    }
}

#[test]
fn hoist_leaves_no_binding_under_a_binding() {
    let pat = tuple(vec![
        bind("a", ctor("Some", vec![bind("b", ctor("Some", vec![name("c")]))])),
        Pattern::Wrapper {
            kind: WrapperKind::Reference,
            child: Box::new(bind("d", tuple(vec![name("e"), bind("f", name("g"))]))),
        },
    ]);
    assert!(has_nested_binding(&pat));
    let mut queue = Queue::new();
    let out = get_toplevel_bindings_and_remove_others(pat, &mut queue).unwrap();
    assert!(!has_nested_binding(&out));
    assert_eq!(
        out,
        tuple(vec![
            bind("a", ctor("Some", vec![ctor("Some", vec![wild()])])),
            Pattern::Wrapper {
                kind: WrapperKind::Reference,
                child: Box::new(bind("d", tuple(vec![wild(), wild()]))),
            },
        ])
    );
}
