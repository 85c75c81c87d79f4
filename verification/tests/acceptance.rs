use smart_pat_bindings::pattern::{BindingMode, FieldPattern, OpaqueKind, Pattern, WrapperKind};
use smart_pat_bindings::rewrite::{rewrite_arm, Arm};
use std::collections::BTreeMap;

const PLAIN: BindingMode = BindingMode { by_ref: false, mutable: false };

/// The values of a small host, enough to lay every kind of node over.
#[derive(Clone, Debug, PartialEq)]
enum Value {
    Int(i64),
    Unit(String),
    Tuple(Option<String>, Vec<Value>),
    Record(String, Vec<(String, Value)>),
    List(Vec<Value>),
    Ref(Box<Value>),
}

type Scope = BTreeMap<String, Value>;

/// Lays `p` over `v`; on acceptance the names bound are added to `scope`.
fn accepts(p: &Pattern, v: &Value, scope: &mut Scope) -> bool {
    match p {
        Pattern::NamedBinding { name, sub, .. } => {
            if let Some(sub) = sub {
                if !accepts(sub, v, scope) {
                    return false;
                }
            }
            scope.insert(name.clone(), v.clone());
            true
        }
        Pattern::Wrapper { child, .. } => match v {
            Value::Ref(inner) => accepts(child, inner, scope),
            _ => false,
        },
        Pattern::Alternation { alts } => {
            for alt in alts {
                let mut trial = scope.clone();
                if accepts(alt, v, &mut trial) {
                    *scope = trial;
                    return true;
                }
            }
            false
        }
        Pattern::AggregateByName { path, fields, has_rest } => match v {
            Value::Record(ctor, values) => {
                ctor == path
                    && (*has_rest || fields.len() == values.len())
                    && fields.iter().all(|f| {
                        values.iter().any(|(n, part)| *n == f.name && accepts(&f.pat, part, scope))
                    })
            }
            _ => false,
        },
        Pattern::AggregatePositional { path, elems } => match v {
            Value::Tuple(ctor, parts) => {
                ctor == path
                    && parts.len() == elems.len()
                    && elems.iter().zip(parts).all(|(e, part)| accepts(e, part, scope))
            }
            _ => false,
        },
        Pattern::Sequence { elems } => match v {
            Value::List(parts) => {
                parts.len() == elems.len()
                    && elems.iter().zip(parts).all(|(e, part)| accepts(e, part, scope))
            }
            _ => false,
        },
        Pattern::Opaque { kind, text } => match kind {
            OpaqueKind::Wildcard => true,
            OpaqueKind::Literal => *v == Value::Int(text.parse().unwrap()),
            OpaqueKind::PathConstant => *v == Value::Unit(text.clone()),
            OpaqueKind::Range => {
                let (lo, hi) = text.split_once("..=").unwrap();
                match v {
                    Value::Int(i) => lo.parse::<i64>().unwrap() <= *i && *i <= hi.parse().unwrap(),
                    _ => false,
                }
            }
            OpaqueKind::RestMarker | OpaqueKind::TypeAscription => false,
        },
        Pattern::EmbeddedConstruct { .. } => false,
    }
}

/// What the arm `pat => body` binds on `v`, or `None` where it does not
/// accept `v`.
fn run_plain(pat: &Pattern, v: &Value) -> Option<Scope> {
    let mut scope = Scope::new();
    accepts(pat, v, &mut scope).then_some(scope)
}

/// The same for the rewritten arm: the flattened pattern first, then every
/// re-match in order, each against what its name holds by then. The outer
/// `None` is a value that the flattened pattern turns away, the inner one a
/// re-match that failed.
fn run_rewritten(pat: Pattern, v: &Value) -> Option<Option<Scope>> {
    let out = rewrite_arm(Arm { pat, body: () }).unwrap();
    let mut scope = Scope::new();
    if !accepts(&out.pat, v, &mut scope) {
        return None;
    }
    for rematch in &out.rematches {
        let Some(held) = scope.get(&rematch.name).cloned() else {
            return Some(None);
        };
        if !accepts(&rematch.pat, &held, &mut scope) {
            return Some(None);
        }
    }
    Some(Some(scope))
}

fn name(n: &str) -> Pattern {
    Pattern::NamedBinding { name: n.to_string(), mode: PLAIN, sub: None }
}

fn bind(n: &str, sub: Pattern) -> Pattern {
    Pattern::NamedBinding { name: n.to_string(), mode: PLAIN, sub: Some(Box::new(sub)) }
}

fn leaf(kind: OpaqueKind, text: &str) -> Pattern {
    Pattern::Opaque { kind, text: text.to_string() }
}

fn lit(i: i64) -> Pattern {
    leaf(OpaqueKind::Literal, &i.to_string())
}

fn unit(p: &str) -> Pattern {
    leaf(OpaqueKind::PathConstant, p)
}

fn tuple(elems: Vec<Pattern>) -> Pattern {
    Pattern::AggregatePositional { path: None, elems }
}

fn ctor(p: &str, elems: Vec<Pattern>) -> Pattern {
    Pattern::AggregatePositional { path: Some(p.to_string()), elems }
}

fn record(p: &str, fields: Vec<(&str, Pattern)>, has_rest: bool) -> Pattern {
    Pattern::AggregateByName {
        path: p.to_string(),
        fields: fields
            .into_iter()
            .map(|(n, pat)| FieldPattern { name: n.to_string(), pat })
            .collect(),
        has_rest,
    }
}

fn some(v: Value) -> Value {
    Value::Tuple(Some("Some".to_string()), vec![v])
}

fn none() -> Value {
    Value::Unit("None".to_string())
}

fn pair(a: Value, b: Value) -> Value {
    Value::Tuple(None, vec![a, b])
}

// (x @ Some(n @ 1..=9), y @ (None | Some(_)))
fn pattern_of_options() -> Pattern {
    tuple(vec![
        bind("x", ctor("Some", vec![bind("n", leaf(OpaqueKind::Range, "1..=9"))])),
        bind(
            "y",
            Pattern::Alternation {
                alts: vec![unit("None"), ctor("Some", vec![leaf(OpaqueKind::Wildcard, "_")])],
            },
        ),
    ])
}

// a @ V { b: bb @ Inner { e }, .. }
fn pattern_of_records() -> Pattern {
    let inner = record("Inner", vec![("e", name("e"))], false);
    bind("a", record("V", vec![("b", bind("bb", inner))], true))
}

// &[first @ (p @ 1, q), Ok(r) | Err(r)]
fn pattern_of_a_list() -> Pattern {
    Pattern::Wrapper {
        kind: WrapperKind::Reference,
        child: Box::new(Pattern::Sequence {
            elems: vec![
                bind("first", tuple(vec![bind("p", lit(1)), name("q")])),
                Pattern::Alternation {
                    alts: vec![ctor("Ok", vec![name("r")]), ctor("Err", vec![name("r")])],
                },
            ],
        }),
    }
}

fn values() -> Vec<Value> {
    let inner = |e: i64| Value::Record("Inner".to_string(), vec![("e".to_string(), Value::Int(e))]);
    let other = Value::Record("Other".to_string(), vec![("e".to_string(), Value::Int(0))]);
    let v = |b: Value| {
        Value::Record("V".to_string(), vec![("b".to_string(), b), ("c".to_string(), Value::Int(5))])
    };
    let list = |first: Value, second: Value| Value::Ref(Box::new(Value::List(vec![first, second])));
    let ok = |i: i64| Value::Tuple(Some("Ok".to_string()), vec![Value::Int(i)]);
    let err = |i: i64| Value::Tuple(Some("Err".to_string()), vec![Value::Int(i)]);
    vec![
        Value::Int(3),
        none(),
        pair(some(Value::Int(3)), none()),
        pair(some(Value::Int(9)), some(Value::Int(0))),
        pair(some(Value::Int(10)), none()),
        pair(some(Value::Int(3)), Value::Int(1)),
        pair(none(), none()),
        v(inner(4)),
        v(other),
        inner(4),
        list(pair(Value::Int(1), Value::Int(2)), ok(7)),
        list(pair(Value::Int(1), Value::Int(2)), err(8)),
        list(pair(Value::Int(2), Value::Int(2)), ok(7)),
        list(pair(Value::Int(1), Value::Int(2)), Value::Int(7)),
        Value::List(vec![pair(Value::Int(1), Value::Int(2)), ok(7)]),
    ]
}

#[test]
fn rewritten_arm_accepts_what_the_arm_accepts() {
    let mut accepted = 0;
    for make in [pattern_of_options, pattern_of_records, pattern_of_a_list] {
        for v in values() {
            let plain = run_plain(&make(), &v);
            match run_rewritten(make(), &v) {
                None => assert_eq!(plain, None),
                Some(after) => {
                    // Once the flattened pattern has let the value in, no
                    // re-match fails, and the body sees every name with the
                    // value it had before the rewrite.
                    assert!(after.is_some());
                    assert_eq!(after, plain);
                    accepted += 1;
                }
            }
        }
    }
    assert_eq!(accepted, 5);
}

#[test]
fn rewritten_arm_binds_the_nested_names() {
    let v = pair(some(Value::Int(3)), none());
    let scope = run_rewritten(pattern_of_options(), &v).unwrap().unwrap();
    let expected: Scope = [
        ("x".to_string(), some(Value::Int(3))),
        ("n".to_string(), Value::Int(3)),
        ("y".to_string(), none()),
    ]
    .into_iter()
    .collect();
    assert_eq!(scope, expected);
}

#[test]
fn rematch_under_an_alternation_can_fail() {
    // (x @ Some(1)) | (x @ None): the re-match of the first alternative runs
    // on a value that came in through the second.
    let make = || Pattern::Alternation {
        alts: vec![bind("x", ctor("Some", vec![lit(1)])), bind("x", unit("None"))],
    };
    assert!(run_plain(&make(), &none()).is_some());
    assert_eq!(run_rewritten(make(), &none()), Some(None));
}
