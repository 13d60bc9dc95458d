use hyperdrive::decode::{Decoded, DecodeError, Env, RequestView};
use hyperdrive::field::ParseKind;
use hyperdrive::method::HttpMethod;
use hyperdrive::pattern::PatternError;
use hyperdrive::table::{ConfigError, Leaf, PathField, RouteSpec, Router, TableEntry};

fn leaf(id: u64) -> Leaf {
    Leaf {
        id,
        path_fields: vec![],
        has_query: false,
        guards: vec![],
        has_body: false,
        forward: None,
    }
}

fn pf(name: &str, kind: ParseKind) -> PathField {
    PathField { name: name.to_string(), kind }
}

fn route(method: HttpMethod, path: &str) -> RouteSpec {
    RouteSpec { method, path: path.to_string() }
}

fn entry(routes: Vec<RouteSpec>, leaf: Leaf) -> TableEntry {
    TableEntry { routes, leaf }
}

fn req(method: HttpMethod, target: &str) -> RequestView {
    match target.split_once('?') {
        Some((p, q)) => RequestView {
            method,
            path: p.to_string(),
            query: Some(q.to_string()),
            headers: vec![],
        },
        None => RequestView { method, path: target.to_string(), query: None, headers: vec![] },
    }
}

struct TestEnv {
    guard_log: Vec<u64>,
}

impl TestEnv {
    fn new() -> TestEnv {
        TestEnv { guard_log: vec![] }
    }
}

impl Env for TestEnv {
    fn guard(&mut self, _leaf_id: u64, guard_id: u64, _req: &RequestView) -> Result<u64, String> {
        self.guard_log.push(guard_id);
        Ok(guard_id)
    }

    fn query(&mut self, _leaf_id: u64, _raw_query: &str, _req: &RequestView) -> Result<u64, String> {
        Ok(0)
    }

    fn body(&mut self, _leaf_id: u64, _req: &RequestView, _body: Vec<u8>) -> Result<u64, String> {
        Ok(0)
    }
}

fn build_err(entries: Vec<TableEntry>) -> ConfigError {
    let mut r = Router::new();
    match r.add_table(&entries) {
        Ok(_) => panic!("table unexpectedly built"),
        Err(e) => e,
    }
}

#[test]
fn wrong_routes() {
    // Two routes on one target must use the same placeholders in the same
    // order.
    let err = build_err(vec![entry(
        vec![route(HttpMethod::Get, "/{ph}"), route(HttpMethod::Post, "/{pl}")],
        Leaf { path_fields: vec![pf("ph", ParseKind::U32)], ..leaf(0) },
    )]);
    assert!(matches!(err, ConfigError::PlaceholderMismatch { id: 0 }));
}

#[test]
fn dup_routes() {
    // `/{ph}` and `/{pl}` match the same requests.
    let err = build_err(vec![
        entry(
            vec![route(HttpMethod::Get, "/{ph}")],
            Leaf { path_fields: vec![pf("ph", ParseKind::U32)], ..leaf(1) },
        ),
        entry(
            vec![route(HttpMethod::Get, "/{pl}")],
            Leaf { path_fields: vec![pf("pl", ParseKind::U32)], ..leaf(2) },
        ),
    ]);
    assert!(matches!(err, ConfigError::DuplicateRoute { id: 2, other_id: 1 }));
}

#[test]
fn no_placeholder_field() {
    // A placeholder must refer to a declared field.
    let err = build_err(vec![entry(vec![route(HttpMethod::Get, "/{pl}")], leaf(0))]);
    assert!(matches!(err, ConfigError::PlaceholderMismatch { id: 0 }));
}

#[test]
fn dup_placeholder() {
    let err = build_err(vec![entry(
        vec![route(HttpMethod::Get, "/{ph}/{ph}")],
        Leaf { path_fields: vec![pf("ph", ParseKind::U32)], ..leaf(0) },
    )]);
    match err {
        ConfigError::Pattern { path, error } => {
            assert_eq!(path, "/{ph}/{ph}");
            assert!(matches!(error, PatternError::DuplicatePlaceholder { .. }));
        },
        other => panic!("expected a pattern error, got {:?}", other),
    }
}

#[test]
fn any_placeholder1() {
    let err = build_err(vec![entry(
        vec![route(HttpMethod::Get, "/{ph}/{rest...}/")],
        Leaf {
            path_fields: vec![pf("ph", ParseKind::U32), pf("rest", ParseKind::Text)],
            ..leaf(0)
        },
    )]);
    assert!(matches!(
        err,
        ConfigError::Pattern { error: PatternError::RestNotLast, .. }
    ));
}

#[test]
fn any_placeholder2() {
    let err = build_err(vec![entry(
        vec![route(HttpMethod::Get, "/{rest...}/more/{stuff}")],
        Leaf {
            path_fields: vec![pf("rest", ParseKind::Text), pf("stuff", ParseKind::Text)],
            ..leaf(0)
        },
    )]);
    assert!(matches!(
        err,
        ConfigError::Pattern { error: PatternError::RestNotLast, .. }
    ));
}

#[test]
fn any_placeholder3() {
    let err = build_err(vec![entry(
        vec![route(HttpMethod::Get, "/{rest...}/more/{stuff...}")],
        Leaf {
            path_fields: vec![pf("rest", ParseKind::Text), pf("stuff", ParseKind::Text)],
            ..leaf(0)
        },
    )]);
    assert!(matches!(
        err,
        ConfigError::Pattern { error: PatternError::RestNotLast, .. }
    ));
}

#[test]
fn unrouted() {
    // A body field needs a route to be decoded from.
    let err = build_err(vec![
        entry(vec![route(HttpMethod::Get, "/")], leaf(0)),
        entry(vec![], Leaf { has_body: true, ..leaf(1) }),
    ]);
    assert!(matches!(err, ConfigError::BodyWithoutRoute { id: 1 }));
}

#[test]
fn query_without_route() {
    let err = build_err(vec![
        entry(vec![route(HttpMethod::Get, "/")], leaf(0)),
        entry(vec![], Leaf { has_query: true, ..leaf(1) }),
    ]);
    assert!(matches!(err, ConfigError::QueryWithoutRoute { id: 1 }));
}

#[test]
fn path_field_without_route() {
    let err = build_err(vec![
        entry(vec![route(HttpMethod::Get, "/")], leaf(0)),
        entry(vec![], Leaf { path_fields: vec![pf("x", ParseKind::U32)], ..leaf(1) }),
    ]);
    assert!(matches!(err, ConfigError::PathFieldWithoutRoute { id: 1 }));
}

#[test]
fn body_and_forward() {
    // Both would consume the request body.
    let err = build_err(vec![entry(
        vec![route(HttpMethod::Get, "/")],
        Leaf { has_body: true, forward: Some(0), ..leaf(0) },
    )]);
    assert!(matches!(err, ConfigError::BodyAndForward { id: 0 }));
}

#[test]
fn bad_forward() {
    // A forward must name a table that was already built.
    let err = build_err(vec![entry(vec![], Leaf { forward: Some(3), ..leaf(0) })]);
    assert!(matches!(err, ConfigError::BadForward { id: 0 }));
}

#[test]
fn multiple_fallback_routes() {
    let mut r = Router::new();
    let inner = r
        .add_table(&vec![entry(vec![route(HttpMethod::Get, "/")], leaf(0))])
        .expect("inner table should build");
    let err = r
        .add_table(&vec![
            entry(vec![], Leaf { forward: Some(inner), ..leaf(1) }),
            entry(vec![], Leaf { forward: Some(inner), ..leaf(2) }),
        ])
        .expect_err("two fallbacks must be rejected");
    assert!(matches!(err, ConfigError::MultipleFallbacks { id: 2, other_id: 1 }));
}

#[test]
fn mod_overlap() {
    // `/{ph}` overlaps the previously defined `/0`; both would match `/0`.
    let err = build_err(vec![
        entry(vec![route(HttpMethod::Get, "/0")], leaf(1)),
        entry(
            vec![route(HttpMethod::Get, "/{ph}")],
            Leaf { path_fields: vec![pf("ph", ParseKind::U32)], ..leaf(2) },
        ),
    ]);
    match err {
        ConfigError::Overlap { id, other_id, example } => {
            assert_eq!(id, 2);
            assert_eq!(other_id, 1);
            assert_eq!(example, "/0");
        },
        other => panic!("expected an overlap error, got {:?}", other),
    }
}

#[test]
fn no_route_enum() {
    // Nothing could ever be constructed.
    let err = build_err(vec![entry(vec![], leaf(0))]);
    assert!(matches!(err, ConfigError::NotConstructible));
}

fn sample_entries() -> Vec<TableEntry> {
    vec![
        entry(vec![route(HttpMethod::Get, "/")], leaf(0)),
        entry(
            vec![route(HttpMethod::Get, "/users/{id}"), route(HttpMethod::Patch, "/users/{id}")],
            Leaf { path_fields: vec![pf("id", ParseKind::U32)], ..leaf(1) },
        ),
        entry(vec![route(HttpMethod::Post, "/test")], leaf(2)),
    ]
}

fn observe(r: &Router) -> Vec<String> {
    let mut log: Vec<String> = vec![];
    let requests = vec![
        (HttpMethod::Get, "/"),
        (HttpMethod::Head, "/"),
        (HttpMethod::Post, "/"),
        (HttpMethod::Get, "/users/42"),
        (HttpMethod::Patch, "/users/42"),
        (HttpMethod::Post, "/users/42"),
        (HttpMethod::Get, "/users/nope"),
        (HttpMethod::Post, "/test"),
        (HttpMethod::Get, "/missing"),
    ];
    for (method, target) in requests {
        let mut env = TestEnv::new();
        match r.decode(&req(method, target), vec![], &mut env) {
            Ok(d) => log.push(format!("ok {}", d.leaf_id)),
            Err(e) => match e.allowed_methods() {
                Some(allowed) => log.push(format!("wrong-method {:?}", allowed)),
                None => log.push(format!("err {}", e.http_status())),
            },
        }
    }
    log
}

#[test]
fn build_twice_same_behavior() {
    // Building the same entry list twice yields behaviorally identical
    // matching and dispatch results.
    let mut r1 = Router::new();
    r1.add_table(&sample_entries()).expect("table should build");
    let mut r2 = Router::new();
    r2.add_table(&sample_entries()).expect("table should build");
    assert_eq!(observe(&r1), observe(&r2));
}

#[test]
fn head_kept_when_explicit() {
    // An explicitly declared HEAD route is kept; no second one is added.
    let mut r = Router::new();
    r.add_table(&vec![
        entry(vec![route(HttpMethod::Get, "/x")], leaf(0)),
        entry(vec![route(HttpMethod::Head, "/x")], leaf(1)),
    ])
    .expect("table should build");
    let mut env = TestEnv::new();
    let d = r.decode(&req(HttpMethod::Head, "/x"), vec![], &mut env).expect("HEAD resolves");
    assert_eq!(d.leaf_id, 1);
    let d = r.decode(&req(HttpMethod::Get, "/x"), vec![], &mut env).expect("GET resolves");
    assert_eq!(d.leaf_id, 0);
}

fn decoded_summary(d: &Decoded) -> String {
    format!("{} guards={:?}", d.leaf_id, d.guard_tokens)
}

#[test]
fn fallback_not_used_when_route_matches() {
    // The outer, explicitly declared route wins over the fallback.
    let mut r = Router::new();
    let inner = r
        .add_table(&vec![entry(vec![route(HttpMethod::Get, "/x")], leaf(10))])
        .expect("inner table should build");
    r.add_table(&vec![
        entry(vec![route(HttpMethod::Get, "/x")], leaf(20)),
        entry(vec![], Leaf { forward: Some(inner), ..leaf(21) }),
    ])
    .expect("outer table should build");
    let mut env = TestEnv::new();
    let d = r.decode(&req(HttpMethod::Get, "/x"), vec![], &mut env).expect("GET /x resolves");
    assert_eq!(decoded_summary(&d), "20 guards=[]");
    assert!(d.forwarded.is_none());
}

#[test]
fn build_and_paths() {
    let r = Router::build(&sample_entries()).expect("table should build");
    // One path per distinct pattern, in insertion order.
    assert_eq!(
        r.paths(0),
        vec!["/".to_string(), "/users/{id}".to_string(), "/test".to_string()]
    );
    let mut env = TestEnv::new();
    let d = r.decode(&req(HttpMethod::Get, "/users/7"), vec![], &mut env).expect("resolves");
    assert_eq!(d.leaf_id, 1);
}
