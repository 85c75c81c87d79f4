use smart_pat_bindings::error::{RewriteError, UnsupportedPattern};
use smart_pat_bindings::pattern::{BindingMode, FieldPattern, OpaqueKind, Pattern, WrapperKind};
use smart_pat_bindings::rewrite::{rewrite_arm, Arm, Rematch, RewrittenArm};
use smart_pat_bindings::{smart_pat_bindings, Expr};
use std::collections::BTreeSet;

const PLAIN: BindingMode = BindingMode { by_ref: false, mutable: false };

fn name(n: &str) -> Pattern {
    Pattern::NamedBinding { name: n.to_string(), mode: PLAIN, sub: None }
}

fn bind(n: &str, sub: Pattern) -> Pattern {
    Pattern::NamedBinding { name: n.to_string(), mode: PLAIN, sub: Some(Box::new(sub)) }
}

fn leaf(kind: OpaqueKind, text: &str) -> Pattern {
    Pattern::Opaque { kind, text: text.to_string() }
}

fn wild() -> Pattern {
    leaf(OpaqueKind::Wildcard, "_")
}

fn path(p: &str) -> Pattern {
    leaf(OpaqueKind::PathConstant, p)
}

fn field(n: &str, pat: Pattern) -> FieldPattern {
    FieldPattern { name: n.to_string(), pat }
}

fn record(p: &str, fields: Vec<FieldPattern>, has_rest: bool) -> Pattern {
    Pattern::AggregateByName { path: p.to_string(), fields, has_rest }
}

fn tuple(elems: Vec<Pattern>) -> Pattern {
    Pattern::AggregatePositional { path: None, elems }
}

fn ctor(p: &str, elems: Vec<Pattern>) -> Pattern {
    Pattern::AggregatePositional { path: Some(p.to_string()), elems }
}

fn embedded() -> Pattern {
    Pattern::EmbeddedConstruct { text: "m!(x)".to_string() }
}

fn rematch(n: &str, pat: Pattern) -> Rematch {
    Rematch { name: n.to_string(), pat }
}

fn names_of(p: &Pattern, into: &mut BTreeSet<String>) {
    match p {
        Pattern::NamedBinding { name, sub, .. } => {
            into.insert(name.clone());
            if let Some(s) = sub {
                names_of(s, into);
            }
        }
        Pattern::Wrapper { child, .. } => names_of(child, into),
        Pattern::Alternation { alts } => alts.iter().for_each(|a| names_of(a, into)),
        Pattern::AggregateByName { fields, .. } => {
            fields.iter().for_each(|f| names_of(&f.pat, into))
        }
        Pattern::AggregatePositional { elems, .. } => elems.iter().for_each(|e| names_of(e, into)),
        Pattern::Sequence { elems } => elems.iter().for_each(|e| names_of(e, into)),
        Pattern::Opaque { .. } | Pattern::EmbeddedConstruct { .. } => {}
    }
}

fn has_binding(p: &Pattern) -> bool {
    let mut names = BTreeSet::new();
    names_of(p, &mut names);
    !names.is_empty()
}

fn has_nested_binding(p: &Pattern) -> bool {
    match p {
        Pattern::NamedBinding { sub, .. } => sub.as_ref().map_or(false, |s| has_binding(s)),
        Pattern::Wrapper { child, .. } => has_nested_binding(child),
        Pattern::Alternation { alts } => alts.iter().any(has_nested_binding),
        Pattern::AggregateByName { fields, .. } => {
            fields.iter().any(|f| has_nested_binding(&f.pat))
        }
        Pattern::AggregatePositional { elems, .. } => elems.iter().any(has_nested_binding),
        Pattern::Sequence { elems } => elems.iter().any(has_nested_binding),
        Pattern::Opaque { .. } | Pattern::EmbeddedConstruct { .. } => false,
    }
}

// a @ Variant1 { b: bb @ VariantX::Inner { e }, .. }
fn nested_in_a_field() -> Pattern {
    let inner = record("VariantX::Inner", vec![field("e", name("e"))], false);
    bind("a", record("Variant1", vec![field("b", bind("bb", inner))], true))
}

#[test]
fn binding_nested_in_a_named_field_gives_two_rematches() {
    let out = rewrite_arm(Arm { pat: nested_in_a_field(), body: "body" }).unwrap();
    // The top-level pattern keeps `a` and the erased shape under it.
    assert_eq!(
        out.pat,
        bind(
            "a",
            record(
                "Variant1",
                vec![field("b", record("VariantX::Inner", vec![field("e", wild())], false))],
                true
            )
        )
    );
    // `a` is taken apart first, which brings `bb` into scope; then `bb`,
    // which brings `e` into scope.
    assert_eq!(
        out.rematches,
        vec![
            rematch(
                "a",
                record(
                    "Variant1",
                    vec![field(
                        "b",
                        bind("bb", record("VariantX::Inner", vec![field("e", wild())], false))
                    )],
                    true
                )
            ),
            rematch("bb", record("VariantX::Inner", vec![field("e", name("e"))], false)),
        ]
    );
    assert_eq!(out.body, "body");
}

#[test]
fn binding_directly_in_a_named_field_gives_one_rematch() {
    // Variant1 { b: bb @ VariantX::Inner { e }, .. }
    let inner = record("VariantX::Inner", vec![field("e", name("e"))], false);
    let pat = record("Variant1", vec![field("b", bind("bb", inner))], true);
    let out = rewrite_arm(Arm { pat, body: () }).unwrap();
    assert_eq!(
        out.pat,
        record(
            "Variant1",
            vec![field(
                "b",
                bind("bb", record("VariantX::Inner", vec![field("e", wild())], false))
            )],
            true
        )
    );
    assert_eq!(
        out.rematches,
        vec![rematch("bb", record("VariantX::Inner", vec![field("e", name("e"))], false))]
    );
}

#[test]
fn tuple_of_two_bindings_gives_two_rematches_in_order() {
    // (x @ Some(n), y @ None)
    let pat = tuple(vec![bind("x", ctor("Some", vec![name("n")])), bind("y", path("None"))]);
    let out = rewrite_arm(Arm { pat, body: 7u32 }).unwrap();
    assert_eq!(
        out,
        RewrittenArm {
            pat: tuple(vec![bind("x", ctor("Some", vec![wild()])), bind("y", path("None"))]),
            rematches: vec![
                rematch("x", ctor("Some", vec![name("n")])),
                rematch("y", path("None")),
            ],
            body: 7u32,
        }
    );
}

#[test]
fn unit_variant_read_as_a_name_is_erased_like_a_name() {
    // (x @ Some(n), y @ None), with `None` handed over as an identifier,
    // which is how a parser that cannot resolve names reads it.
    let pat = tuple(vec![bind("x", ctor("Some", vec![name("n")])), bind("y", name("None"))]);
    let out = rewrite_arm(Arm { pat, body: () }).unwrap();
    assert_eq!(out.pat, tuple(vec![bind("x", ctor("Some", vec![wild()])), bind("y", wild())]));
    assert_eq!(
        out.rematches,
        vec![rematch("x", ctor("Some", vec![name("n")])), rematch("y", name("None"))]
    );
}

#[test]
fn flat_tuple_of_plain_names_is_unchanged() {
    let pat = tuple(vec![name("a"), name("b"), name("c")]);
    let out = rewrite_arm(Arm { pat, body: 'x' }).unwrap();
    assert_eq!(
        out,
        RewrittenArm {
            pat: tuple(vec![name("a"), name("b"), name("c")]),
            rematches: vec![],
            body: 'x',
        }
    );
}

#[test]
fn anything_but_a_match_is_the_wrong_construct() {
    assert_eq!(smart_pat_bindings(Expr::<()>::Other), Err(RewriteError::WrongConstruct));
}

#[test]
fn embedded_construct_is_unsupported() {
    let arms = vec![Arm { pat: tuple(vec![name("a"), embedded()]), body: () }];
    assert_eq!(
        smart_pat_bindings(Expr::Match { arms }),
        Err(RewriteError::UnsupportedPattern { arm: 0 })
    );
}

#[test]
fn embedded_construct_deep_inside_substructures_is_unsupported() {
    let pat = bind("a", ctor("Some", vec![bind("b", ctor("Some", vec![embedded()]))]));
    assert_eq!(rewrite_arm(Arm { pat, body: () }), Err(UnsupportedPattern));
}

#[test]
fn one_bad_arm_refuses_the_whole_match() {
    let arms = vec![
        Arm { pat: name("a"), body: 1 },
        Arm { pat: bind("b", embedded()), body: 2 },
        Arm { pat: embedded(), body: 3 },
        Arm { pat: wild(), body: 4 },
    ];
    assert_eq!(
        smart_pat_bindings(Expr::Match { arms }),
        Err(RewriteError::UnsupportedPattern { arm: 1 })
    );
}

#[test]
fn match_without_arms_rewrites_to_no_arms() {
    let arms: Vec<Arm<u8>> = vec![];
    assert_eq!(smart_pat_bindings(Expr::Match { arms }), Ok(vec![]));
}

#[test]
fn every_arm_is_rewritten_in_place() {
    let arms = vec![
        Arm { pat: bind("x", ctor("Some", vec![name("n")])), body: "first" },
        Arm { pat: wild(), body: "second" },
    ];
    let out = smart_pat_bindings(Expr::Match { arms }).unwrap();
    assert_eq!(
        out,
        vec![
            RewrittenArm {
                pat: bind("x", ctor("Some", vec![wild()])),
                rematches: vec![rematch("x", ctor("Some", vec![name("n")]))],
                body: "first",
            },
            RewrittenArm { pat: wild(), rematches: vec![], body: "second" },
        ]
    );
}

#[test]
fn rematches_come_out_breadth_first() {
    // (a @ A(b @ B(c @ C)), d @ D(e @ E))
    let pat = tuple(vec![
        bind("a", ctor("A", vec![bind("b", ctor("B", vec![bind("c", path("C"))]))])),
        bind("d", ctor("D", vec![bind("e", path("E"))])),
    ]);
    let out = rewrite_arm(Arm { pat, body: () }).unwrap();
    let order: Vec<&str> = out.rematches.iter().map(|r| r.name.as_str()).collect();
    assert_eq!(order, vec!["a", "d", "b", "e", "c"]);
    assert_eq!(
        out.rematches,
        vec![
            rematch("a", ctor("A", vec![bind("b", ctor("B", vec![path("C")]))])),
            rematch("d", ctor("D", vec![bind("e", path("E"))])),
            rematch("b", ctor("B", vec![bind("c", path("C"))])),
            rematch("e", path("E")),
            rematch("c", path("C")),
        ]
    );
    assert_eq!(
        out.pat,
        tuple(vec![
            bind("a", ctor("A", vec![ctor("B", vec![path("C")])])),
            bind("d", ctor("D", vec![path("E")])),
        ])
    );
}

#[test]
fn bindings_without_substructure_give_no_rematch() {
    // (x @ (y, z), w)
    let pat = tuple(vec![bind("x", tuple(vec![name("y"), name("z")])), name("w")]);
    let out = rewrite_arm(Arm { pat, body: () }).unwrap();
    assert_eq!(out.rematches, vec![rematch("x", tuple(vec![name("y"), name("z")]))]);
}

#[test]
fn every_name_stays_bound() {
    let pat = tuple(vec![
        nested_in_a_field(),
        Pattern::Wrapper {
            kind: WrapperKind::MutReference,
            child: Box::new(bind(
                "r",
                Pattern::Sequence { elems: vec![name("s"), bind("t", name("u"))] },
            )),
        },
        Pattern::Alternation {
            alts: vec![ctor("Ok", vec![name("v")]), ctor("Err", vec![name("v")])],
        },
    ]);
    let mut before = BTreeSet::new();
    names_of(&pat, &mut before);
    let out = rewrite_arm(Arm { pat, body: () }).unwrap();
    let mut after = BTreeSet::new();
    names_of(&out.pat, &mut after);
    for r in &out.rematches {
        names_of(&r.pat, &mut after);
    }
    assert_eq!(after, before);
    let expected: BTreeSet<String> =
        ["a", "bb", "e", "r", "s", "t", "u", "v"].iter().map(|n| n.to_string()).collect();
    assert_eq!(before, expected);
}

#[test]
fn nothing_in_a_rewritten_arm_nests_bindings() {
    let pat = tuple(vec![nested_in_a_field(), bind("p", bind("q", bind("r", name("s"))))]);
    let out = rewrite_arm(Arm { pat, body: () }).unwrap();
    assert!(!has_nested_binding(&out.pat));
    assert_eq!(out.rematches.len(), 5);
    for r in &out.rematches {
        assert!(!has_nested_binding(&r.pat));
    }
}

#[test]
fn chain_of_bindings_is_unrolled_one_by_one() {
    // p @ q @ r @ s
    let pat = bind("p", bind("q", bind("r", name("s"))));
    let out = rewrite_arm(Arm { pat, body: () }).unwrap();
    assert_eq!(out.pat, bind("p", wild()));
    assert_eq!(
        out.rematches,
        vec![
            rematch("p", bind("q", wild())),
            rematch("q", bind("r", wild())),
            rematch("r", name("s")),
        ]
    );
}

#[test]
fn rematch_clone_is_equal() {
    let r = rematch("x", ctor("Some", vec![name("n")]));
    assert_eq!(r.clone(), r);
    assert_eq!(r.clone().pat, ctor("Some", vec![name("n")]));
}

#[test]
fn error_messages() {
    assert_eq!(
        RewriteError::WrongConstruct.message(),
        "#[smart_pat_bindings] can only be used on match expression"
    );
    assert_eq!(
        RewriteError::UnsupportedPattern { arm: 3 }.message(),
        "#[smart_pat_bindings] cannot process macro in match"
    );
}
