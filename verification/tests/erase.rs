use smart_pat_bindings::erase::remove_all_bindings;
use smart_pat_bindings::pattern::{BindingMode, FieldPattern, OpaqueKind, Pattern, WrapperKind};

const PLAIN: BindingMode = BindingMode { by_ref: false, mutable: false };

fn name(n: &str) -> Pattern {
    Pattern::NamedBinding { name: n.to_string(), mode: PLAIN, sub: None }
}

fn bind(n: &str, sub: Pattern) -> Pattern {
    Pattern::NamedBinding { name: n.to_string(), mode: PLAIN, sub: Some(Box::new(sub)) }
}

fn leaf(kind: OpaqueKind, text: &str) -> Pattern {
    Pattern::Opaque { kind, text: text.to_string() }
}

fn wild() -> Pattern {
    leaf(OpaqueKind::Wildcard, "_")
}

fn field(n: &str, pat: Pattern) -> FieldPattern {
    FieldPattern { name: n.to_string(), pat }
}

fn ctor(p: &str, elems: Vec<Pattern>) -> Pattern {
    Pattern::AggregatePositional { path: Some(p.to_string()), elems }
}

#[test]
fn erase_bare_name_gives_wildcard() {
    assert_eq!(remove_all_bindings(&name("x")), wild());
}

#[test]
fn erase_ignores_binding_mode() {
    let by_ref = Pattern::NamedBinding {
        name: "x".to_string(),
        mode: BindingMode { by_ref: true, mutable: true },
        sub: None,
    };
    assert_eq!(remove_all_bindings(&by_ref), wild());
}

#[test]
fn erase_binding_with_substructure_keeps_the_substructure() {
    let pat = bind("x", ctor("Some", vec![leaf(OpaqueKind::Literal, "1")]));
    assert_eq!(remove_all_bindings(&pat), ctor("Some", vec![leaf(OpaqueKind::Literal, "1")]));
}

#[test]
fn erase_goes_through_chains_of_bindings() {
    let pat = bind("a", bind("b", bind("c", name("d"))));
    assert_eq!(remove_all_bindings(&pat), wild());
}

#[test]
fn erase_keeps_every_structural_shape() {
    let pat = Pattern::Sequence {
        elems: vec![
            Pattern::Wrapper { kind: WrapperKind::Reference, child: Box::new(name("a")) },
            Pattern::Wrapper { kind: WrapperKind::MutReference, child: Box::new(name("b")) },
            Pattern::Wrapper { kind: WrapperKind::Boxed, child: Box::new(name("c")) },
            Pattern::Alternation {
                alts: vec![ctor("Ok", vec![name("v")]), ctor("Err", vec![name("v")])],
            },
            Pattern::AggregateByName {
                path: "P".to_string(),
                fields: vec![field("x", name("x")), field("y", bind("yy", name("z")))],
                has_rest: true,
            },
            Pattern::AggregatePositional { path: None, elems: vec![name("t"), name("u")] },
            leaf(OpaqueKind::RestMarker, ".."),
        ],
    };
    let expected = Pattern::Sequence {
        elems: vec![
            Pattern::Wrapper { kind: WrapperKind::Reference, child: Box::new(wild()) },
            Pattern::Wrapper { kind: WrapperKind::MutReference, child: Box::new(wild()) },
            Pattern::Wrapper { kind: WrapperKind::Boxed, child: Box::new(wild()) },
            Pattern::Alternation {
                alts: vec![ctor("Ok", vec![wild()]), ctor("Err", vec![wild()])],
            },
            Pattern::AggregateByName {
                path: "P".to_string(),
                fields: vec![field("x", wild()), field("y", wild())],
                has_rest: true,
            },
            Pattern::AggregatePositional { path: None, elems: vec![wild(), wild()] },
            leaf(OpaqueKind::RestMarker, ".."),
        ],
    };
    assert_eq!(remove_all_bindings(&pat), expected);
}

#[test]
fn erase_leaves_every_leaf_kind_unchanged() {
    for (kind, text) in [
        (OpaqueKind::Literal, "42"),
        (OpaqueKind::Range, "1..=9"),
        (OpaqueKind::PathConstant, "Color::Red"),
        (OpaqueKind::RestMarker, ".."),
        (OpaqueKind::TypeAscription, "x: u8"),
        (OpaqueKind::Wildcard, "_"),
    ] {
        assert_eq!(remove_all_bindings(&leaf(kind, text)), leaf(kind, text));
    }
}

#[test]
fn erase_passes_embedded_construct_through() {
    let pat = ctor("Some", vec![Pattern::EmbeddedConstruct { text: "m!(x)".to_string() }]);
    assert_eq!(
        remove_all_bindings(&pat),
        ctor("Some", vec![Pattern::EmbeddedConstruct { text: "m!(x)".to_string() }])
    );
}

#[test]
fn erase_empty_aggregates() {
    let empty_tuple = Pattern::AggregatePositional { path: None, elems: vec![] };
    assert_eq!(
        remove_all_bindings(&empty_tuple),
        Pattern::AggregatePositional { path: None, elems: vec![] }
    );
    let empty_alt = Pattern::Alternation { alts: vec![] };
    assert_eq!(remove_all_bindings(&empty_alt), Pattern::Alternation { alts: vec![] });
}

#[test]
fn erase_twice_is_erase_once() {
    let pat = bind(
        "a",
        Pattern::AggregateByName {
            path: "V".to_string(),
            fields: vec![field("b", bind("bb", ctor("Inner", vec![name("e"), name("f")])))],
            has_rest: false,
        },
    );
    let once = remove_all_bindings(&pat);
    let twice = remove_all_bindings(&once);
    assert_eq!(twice, once);
}

#[test]
fn clone_copies_the_whole_tree() {
    let pat = Pattern::Sequence {
        elems: vec![
            bind("a", ctor("Some", vec![name("b"), leaf(OpaqueKind::Range, "1..=2")])),
            Pattern::Wrapper { kind: WrapperKind::Boxed, child: Box::new(name("c")) },
            Pattern::Alternation { alts: vec![name("d"), wild()] },
            Pattern::AggregateByName {
                path: "P".to_string(),
                fields: vec![field("x", name("x"))],
                has_rest: false,
            },
            Pattern::AggregatePositional { path: None, elems: vec![] },
            Pattern::EmbeddedConstruct { text: "m!()".to_string() },
        ],
    };
    let copy = pat.clone();
    assert_eq!(copy, pat);
    assert_eq!(remove_all_bindings(&copy), remove_all_bindings(&pat));
}

#[test]
fn erase_does_not_touch_its_argument() {
    let pat = bind("a", name("b"));
    let _ = remove_all_bindings(&pat);
    assert_eq!(pat, bind("a", name("b")));
}
