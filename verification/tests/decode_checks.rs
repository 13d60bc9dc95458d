use hyperdrive::decode::{Decoded, DecodeError, Env, RequestView};
use hyperdrive::field::{FieldValue, ParseKind};
use hyperdrive::method::HttpMethod;
use hyperdrive::table::{Leaf, PathField, RouteSpec, Router, TableEntry};

fn leaf(id: u64) -> Leaf {
    Leaf {
        id,
        path_fields: vec![],
        has_query: false,
        guards: vec![],
        has_body: false,
        forward: None,
    }
}

fn pf(name: &str, kind: ParseKind) -> PathField {
    PathField { name: name.to_string(), kind }
}

fn route(method: HttpMethod, path: &str) -> RouteSpec {
    RouteSpec { method, path: path.to_string() }
}

fn entry(routes: Vec<RouteSpec>, leaf: Leaf) -> TableEntry {
    TableEntry { routes, leaf }
}

fn req(method: HttpMethod, target: &str) -> RequestView {
    match target.split_once('?') {
        Some((p, q)) => RequestView {
            method,
            path: p.to_string(),
            query: Some(q.to_string()),
            headers: vec![],
        },
        None => RequestView { method, path: target.to_string(), query: None, headers: vec![] },
    }
}

/// A capability environment backed by real decoders: query strings go
/// through `serde_urlencoded`, bodies are kept for the test to inspect.
struct AppEnv {
    guard_log: Vec<u64>,
    fail_guard: Option<(u64, String)>,
    queries: Vec<(u64, String)>,
    fail_query: Option<String>,
    pagination: Vec<(u32, u32)>,
    bodies: Vec<(u64, Vec<u8>)>,
    fail_body: Option<String>,
    next: u64,
}

impl AppEnv {
    fn new() -> AppEnv {
        AppEnv {
            guard_log: vec![],
            fail_guard: None,
            queries: vec![],
            fail_query: None,
            pagination: vec![],
            bodies: vec![],
            fail_body: None,
            next: 0,
        }
    }
}

impl Env for AppEnv {
    fn guard(&mut self, _leaf_id: u64, guard_id: u64, _req: &RequestView) -> Result<u64, String> {
        self.guard_log.push(guard_id);
        if let Some((bad, message)) = &self.fail_guard {
            if *bad == guard_id {
                return Err(message.clone());
            }
        }
        Ok(guard_id)
    }

    fn query(&mut self, leaf_id: u64, raw_query: &str, _req: &RequestView) -> Result<u64, String> {
        if let Some(message) = &self.fail_query {
            return Err(message.clone());
        }
        self.queries.push((leaf_id, raw_query.to_string()));
        let pairs: Vec<(String, String)> =
            serde_urlencoded::from_str(raw_query).map_err(|e| format!("{}", e))?;
        let mut start: u32 = 0;
        let mut count: u32 = 10;
        for (k, v) in &pairs {
            if k == "start" {
                start = v.parse().map_err(|e| format!("{}", e))?;
            }
            if k == "count" {
                count = v.parse().map_err(|e| format!("{}", e))?;
            }
        }
        self.pagination.push((start, count));
        self.next += 1;
        Ok(self.next)
    }

    fn body(&mut self, leaf_id: u64, _req: &RequestView, body: Vec<u8>) -> Result<u64, String> {
        if let Some(message) = &self.fail_body {
            return Err(message.clone());
        }
        self.bodies.push((leaf_id, body));
        self.next += 1;
        Ok(self.next)
    }
}

fn uint_at(d: &Decoded, i: usize) -> u64 {
    d.path_values[i].as_uint().expect("expected an integer field")
}

fn text_at(d: &Decoded, i: usize) -> String {
    d.path_values[i].as_text().expect("expected a text field").clone()
}

fn allowed_of(e: &DecodeError) -> Vec<HttpMethod> {
    e.allowed_methods().expect("expected a wrong-method error").clone()
}

#[test]
fn user_app() {
    let mut r = Router::new();
    r.add_table(&vec![
        entry(
            vec![route(HttpMethod::Post, "/login")],
            Leaf { has_body: true, has_query: true, guards: vec![1], ..leaf(0) },
        ),
        entry(
            vec![route(HttpMethod::Get, "/users/{id}")],
            Leaf { path_fields: vec![pf("id", ParseKind::U32)], ..leaf(1) },
        ),
        entry(
            vec![route(HttpMethod::Patch, "/users/{id}")],
            Leaf { path_fields: vec![pf("id", ParseKind::U32)], has_body: true, ..leaf(2) },
        ),
    ])
    .expect("table should build");

    let mut env = AppEnv::new();
    let body = br#"
        {
            "email": "test@example.com",
            "password": "hunter2"
        }
        "#;
    let d = r
        .decode(&req(HttpMethod::Post, "/login"), body.to_vec(), &mut env)
        .expect("/login not routed properly");
    assert_eq!(d.leaf_id, 0);
    assert_eq!(env.guard_log, vec![1]);
    let (body_leaf, bytes) = &env.bodies[0];
    assert_eq!(*body_leaf, 0);
    let v: serde_json::Value = serde_json::from_slice(bytes).expect("body is JSON");
    assert_eq!(v["email"].as_str().unwrap(), "test@example.com");
    assert_eq!(v["password"].as_str().unwrap(), "hunter2");

    let mut env = AppEnv::new();
    let e = r
        .decode(&req(HttpMethod::Get, "/login"), vec![], &mut env)
        .expect_err("GET /login must be rejected");
    assert_eq!(allowed_of(&e), vec![HttpMethod::Post]);

    let mut env = AppEnv::new();
    let e = r
        .decode(&req(HttpMethod::Post, "/users/0"), vec![], &mut env)
        .expect_err("POST /users/0 must be rejected");
    assert_eq!(
        allowed_of(&e),
        vec![HttpMethod::Get, HttpMethod::Patch, HttpMethod::Head]
    );

    let mut env = AppEnv::new();
    let e = r
        .decode(&req(HttpMethod::Get, "/users/wrong"), vec![], &mut env)
        .expect_err("an unparsable id must be rejected");
    assert!(matches!(&e, DecodeError::PathSegment { .. }));
    assert_eq!(e.http_status(), 404);
}

#[test]
fn context() {
    // Guards with different context needs collapse to two guards here; the
    // environment owns whatever context each needs.
    let mut r = Router::new();
    r.add_table(&vec![entry(
        vec![route(HttpMethod::Get, "/")],
        Leaf { guards: vec![1, 2], ..leaf(0) },
    )])
    .expect("table should build");
    let mut env = AppEnv::new();
    r.decode(&req(HttpMethod::Get, "/"), vec![], &mut env).expect("GET / resolves");
    let mut env = AppEnv::new();
    r.decode(&req(HttpMethod::Get, "/bla"), vec![], &mut env)
        .expect_err("GET /bla must not resolve");
}

#[test]
fn struct_context() {
    let mut r = Router::new();
    r.add_table(&vec![entry(
        vec![route(HttpMethod::Get, "/")],
        Leaf { guards: vec![1, 2], ..leaf(0) },
    )])
    .expect("table should build");
    let mut env = AppEnv::new();
    r.decode(&req(HttpMethod::Get, "/"), vec![], &mut env).expect("GET / resolves");
    assert_eq!(env.guard_log, vec![1, 2]);
    let mut env = AppEnv::new();
    r.decode(&req(HttpMethod::Get, "/bla"), vec![], &mut env)
        .expect_err("GET /bla must not resolve");
}

#[test]
fn any_placeholder() {
    let mut r = Router::new();
    r.add_table(&vec![entry(
        vec![route(HttpMethod::Get, "/{ph}/{rest...}")],
        Leaf {
            path_fields: vec![pf("ph", ParseKind::U32), pf("rest", ParseKind::Text)],
            ..leaf(0)
        },
    )])
    .expect("table should build");

    let mut env = AppEnv::new();
    let d = r
        .decode(&req(HttpMethod::Get, "/1234/bla/bli?param=123"), vec![], &mut env)
        .expect("path should match");
    assert_eq!(uint_at(&d, 0), 1234);
    assert_eq!(text_at(&d, 1), "bla/bli");

    let mut env = AppEnv::new();
    let d = r
        .decode(&req(HttpMethod::Get, "/1234/"), vec![], &mut env)
        .expect("path should match");
    assert_eq!(uint_at(&d, 0), 1234);
    assert_eq!(text_at(&d, 1), "");

    let mut env = AppEnv::new();
    r.decode(&req(HttpMethod::Get, "/1234"), vec![], &mut env)
        .expect_err("the rest placeholder needs its own segment");
}

#[test]
fn asterisk() {
    let mut r = Router::new();
    r.add_table(&vec![entry(vec![route(HttpMethod::Options, "*")], leaf(0))])
        .expect("table should build");
    let mut env = AppEnv::new();
    r.decode(&req(HttpMethod::Options, "*"), vec![], &mut env).expect("OPTIONS * resolves");
    let mut env = AppEnv::new();
    r.decode(&req(HttpMethod::Options, "/"), vec![], &mut env)
        .expect_err("`*` must not match `/`");
    let mut env = AppEnv::new();
    r.decode(&req(HttpMethod::Head, "/"), vec![], &mut env)
        .expect_err("`*` must not match `/`");

    // The same route on a single-variant table behaves identically.
    let mut r = Router::new();
    r.add_table(&vec![entry(vec![route(HttpMethod::Options, "*")], leaf(1))])
        .expect("table should build");
    let mut env = AppEnv::new();
    r.decode(&req(HttpMethod::Options, "*"), vec![], &mut env).expect("OPTIONS * resolves");
    let mut env = AppEnv::new();
    r.decode(&req(HttpMethod::Options, "/"), vec![], &mut env)
        .expect_err("`*` must not match `/`");
    let mut env = AppEnv::new();
    r.decode(&req(HttpMethod::Head, "/"), vec![], &mut env)
        .expect_err("`*` must not match `/`");
}

#[test]
fn implicit_head_route() {
    let mut r = Router::new();
    r.add_table(&vec![
        entry(vec![route(HttpMethod::Get, "/")], leaf(0)),
        entry(vec![route(HttpMethod::Get, "/2/other")], leaf(1)),
        // We should still be able to define our own HEAD route instead.
        entry(vec![route(HttpMethod::Head, "/2/other")], leaf(2)),
    ])
    .expect("table should build");

    let mut env = AppEnv::new();
    let d = r.decode(&req(HttpMethod::Head, "/"), vec![], &mut env).expect("HEAD / resolves");
    assert_eq!(d.leaf_id, 0);

    let mut env = AppEnv::new();
    let d = r
        .decode(&req(HttpMethod::Head, "/2/other"), vec![], &mut env)
        .expect("HEAD /2/other resolves");
    assert_eq!(d.leaf_id, 2);

    let mut env = AppEnv::new();
    let d = r
        .decode(&req(HttpMethod::Get, "/2/other"), vec![], &mut env)
        .expect("GET /2/other resolves");
    assert_eq!(d.leaf_id, 1);
}

#[test]
fn query_params() {
    let mut r = Router::new();
    r.add_table(&vec![entry(
        vec![route(HttpMethod::Get, "/users")],
        Leaf { has_query: true, ..leaf(0) },
    )])
    .expect("table should build");

    let mut env = AppEnv::new();
    r.decode(&req(HttpMethod::Get, "/users"), vec![], &mut env).expect("resolves");
    assert_eq!(env.pagination, vec![(0, 10)]);

    let mut env = AppEnv::new();
    r.decode(&req(HttpMethod::Get, "/users?count=30"), vec![], &mut env).expect("resolves");
    assert_eq!(env.pagination, vec![(0, 30)]);

    let mut env = AppEnv::new();
    r.decode(&req(HttpMethod::Get, "/users?start=543"), vec![], &mut env).expect("resolves");
    assert_eq!(env.pagination, vec![(543, 10)]);

    let mut env = AppEnv::new();
    r.decode(&req(HttpMethod::Get, "/users?start=123&count=30"), vec![], &mut env)
        .expect("resolves");
    assert_eq!(env.pagination, vec![(123, 30)]);
}

#[test]
fn query_error() {
    let mut r = Router::new();
    r.add_table(&vec![entry(
        vec![route(HttpMethod::Get, "/users")],
        Leaf { has_query: true, ..leaf(0) },
    )])
    .expect("table should build");
    let mut env = AppEnv::new();
    env.fail_query = Some("bad query".to_string());
    let e = r
        .decode(&req(HttpMethod::Get, "/users?start=x"), vec![], &mut env)
        .expect_err("the query capability rejects this");
    match e {
        DecodeError::QueryParam { message } => assert_eq!(message, "bad query"),
        other => panic!("expected a query error, got {:?}", other),
    }
}

#[test]
fn generic() {
    // One route taking a path segment, query parameters, a body and a guard.
    let mut r = Router::new();
    r.add_table(&vec![entry(
        vec![route(HttpMethod::Get, "/{path}")],
        Leaf {
            path_fields: vec![pf("path", ParseKind::Text)],
            has_query: true,
            has_body: true,
            guards: vec![9],
            ..leaf(0)
        },
    )])
    .expect("table should build");

    let body = br#"
        {
            "email": "test@example.com",
            "password": "hunter2"
        }
        "#;
    let mut env = AppEnv::new();
    let d = r
        .decode(&req(HttpMethod::Get, "/users?start=123&count=30"), body.to_vec(), &mut env)
        .expect("resolves");
    assert_eq!(d.leaf_id, 0);
    assert_eq!(text_at(&d, 0), "users");
    assert_eq!(env.pagination, vec![(123, 30)]);
    assert_eq!(env.guard_log, vec![9]);
    let v: serde_json::Value = serde_json::from_slice(&env.bodies[0].1).expect("body is JSON");
    assert_eq!(v["email"].as_str().unwrap(), "test@example.com");
    assert_eq!(v["password"].as_str().unwrap(), "hunter2");
}

fn forward_router() -> Router {
    let mut r = Router::new();
    let inner = r
        .add_table(&vec![
            entry(vec![route(HttpMethod::Get, "/")], leaf(10)),
            entry(vec![route(HttpMethod::Get, "/flabberghast")], leaf(11)),
            entry(vec![route(HttpMethod::Post, "/")], leaf(12)),
        ])
        .expect("inner table should build");
    r.add_table(&vec![
        entry(vec![route(HttpMethod::Get, "/")], Leaf { forward: Some(inner), ..leaf(20) }),
        entry(vec![], Leaf { forward: Some(inner), ..leaf(21) }),
    ])
    .expect("outer table should build");
    r
}

#[test]
fn forward() {
    let r = forward_router();

    let mut env = AppEnv::new();
    let d = r.decode(&req(HttpMethod::Get, "/"), vec![], &mut env).expect("GET /");
    assert_eq!(d.leaf_id, 20);
    assert_eq!(d.forwarded.as_ref().expect("forwarded").leaf_id, 10);

    let mut env = AppEnv::new();
    let d = r.decode(&req(HttpMethod::Head, "/"), vec![], &mut env).expect("HEAD /");
    assert_eq!(d.leaf_id, 20);
    assert_eq!(d.forwarded.as_ref().expect("forwarded").leaf_id, 10);

    let mut env = AppEnv::new();
    let d = r
        .decode(&req(HttpMethod::Get, "/flabberghast"), vec![], &mut env)
        .expect("GET /flabberghast");
    assert_eq!(d.leaf_id, 21);
    assert_eq!(d.forwarded.as_ref().expect("forwarded").leaf_id, 11);

    let mut env = AppEnv::new();
    let d = r.decode(&req(HttpMethod::Post, "/"), vec![], &mut env).expect("POST /");
    assert_eq!(d.leaf_id, 21);
    assert_eq!(d.forwarded.as_ref().expect("forwarded").leaf_id, 12);
}

fn wrapper_router() -> Router {
    let mut r = Router::new();
    let inner = r
        .add_table(&vec![
            entry(
                vec![route(HttpMethod::Get, "/"), route(HttpMethod::Post, "/")],
                leaf(40),
            ),
            entry(vec![route(HttpMethod::Get, "/customhead")], leaf(41)),
            entry(vec![route(HttpMethod::Head, "/customhead")], leaf(42)),
            entry(vec![route(HttpMethod::Post, "/post")], leaf(43)),
            entry(vec![route(HttpMethod::Post, "/shared")], leaf(44)),
            entry(
                vec![route(HttpMethod::Post, "/shared/{s}")],
                Leaf { path_fields: vec![pf("s", ParseKind::U32)], ..leaf(45) },
            ),
        ])
        .expect("inner table should build");
    r.add_table(&vec![
        entry(vec![route(HttpMethod::Get, "/shared")], leaf(50)),
        entry(
            vec![route(HttpMethod::Get, "/shared/{s}")],
            Leaf { path_fields: vec![pf("s", ParseKind::U8)], ..leaf(51) },
        ),
        entry(vec![], Leaf { forward: Some(inner), ..leaf(52) }),
    ])
    .expect("outer table should build");
    r
}

#[test]
fn forward_allowed_methods() {
    let r = wrapper_router();

    let mut env = AppEnv::new();
    let e = r
        .decode(&req(HttpMethod::Get, "/post"), vec![], &mut env)
        .expect_err("GET /post must be rejected");
    assert_eq!(allowed_of(&e), vec![HttpMethod::Post]);

    let mut env = AppEnv::new();
    let e = r
        .decode(&req(HttpMethod::Post, "/customhead"), vec![], &mut env)
        .expect_err("POST /customhead must be rejected");
    assert_eq!(allowed_of(&e), vec![HttpMethod::Get, HttpMethod::Head]);

    // `/shared` is defined in both. Outer takes precedence over inner, if it
    // matches.
    let mut env = AppEnv::new();
    let d = r.decode(&req(HttpMethod::Post, "/shared"), vec![], &mut env).expect("POST /shared");
    assert_eq!(d.leaf_id, 52);
    assert_eq!(d.forwarded.as_ref().expect("forwarded").leaf_id, 44);

    let mut env = AppEnv::new();
    let d = r.decode(&req(HttpMethod::Get, "/shared"), vec![], &mut env).expect("GET /shared");
    assert_eq!(d.leaf_id, 50);
    assert!(d.forwarded.is_none());

    // Methods not accepted by either result in the allowed sets being merged
    // together, the outer table's methods first.
    let mut env = AppEnv::new();
    let e = r
        .decode(&req(HttpMethod::Put, "/shared"), vec![], &mut env)
        .expect_err("PUT /shared must be rejected");
    assert_eq!(
        allowed_of(&e),
        vec![HttpMethod::Get, HttpMethod::Head, HttpMethod::Post]
    );

    // Also with parsed path segments.
    let mut env = AppEnv::new();
    let d = r
        .decode(&req(HttpMethod::Post, "/shared/123"), vec![], &mut env)
        .expect("POST /shared/123");
    assert_eq!(d.leaf_id, 52);
    let inner = d.forwarded.as_ref().expect("forwarded");
    assert_eq!(inner.leaf_id, 45);
    assert_eq!(inner.path_values[0].as_uint(), Some(123));

    let mut env = AppEnv::new();
    let d = r
        .decode(&req(HttpMethod::Get, "/shared/123"), vec![], &mut env)
        .expect("GET /shared/123");
    assert_eq!(d.leaf_id, 51);
    assert_eq!(d.path_values[0].as_uint(), Some(123));
}

#[test]
fn generic_forward() {
    let mut r = Router::new();
    let inner = r
        .add_table(&vec![entry(vec![route(HttpMethod::Get, "/")], leaf(62))])
        .expect("inner table should build");
    r.add_table(&vec![
        entry(vec![route(HttpMethod::Get, "/unused")], leaf(60)),
        entry(vec![], Leaf { guards: vec![7], forward: Some(inner), ..leaf(61) }),
    ])
    .expect("outer table should build");

    let mut env = AppEnv::new();
    let d = r.decode(&req(HttpMethod::Get, "/"), vec![], &mut env).expect("GET /");
    assert_eq!(d.leaf_id, 61);
    assert_eq!(env.guard_log, vec![7]);
    assert_eq!(d.forwarded.as_ref().expect("forwarded").leaf_id, 62);
}

fn custom_error_router() -> Router {
    let mut r = Router::new();
    let inner = r
        .add_table(&vec![entry(
            vec![route(HttpMethod::Get, "/c")],
            Leaf { guards: vec![2], ..leaf(73) },
        )])
        .expect("inner table should build");
    r.add_table(&vec![
        entry(
            vec![route(HttpMethod::Get, "/a")],
            Leaf { guards: vec![1], has_body: true, ..leaf(70) },
        ),
        entry(vec![route(HttpMethod::Get, "/b")], Leaf { has_body: true, ..leaf(71) }),
        entry(vec![], Leaf { forward: Some(inner), ..leaf(72) }),
    ])
    .expect("outer table should build");
    r
}

#[test]
fn use_custom_errors() {
    let r = custom_error_router();

    // The outer guard's error value passes through verbatim.
    let mut env = AppEnv::new();
    env.fail_guard = Some((1, "failed outer".to_string()));
    let e = r
        .decode(&req(HttpMethod::Get, "/a"), vec![], &mut env)
        .expect_err("the guard rejects this");
    match e {
        DecodeError::GuardFailed { message } => assert_eq!(message, "failed outer"),
        other => panic!("expected a guard error, got {:?}", other),
    }

    // The body decoder's error value passes through verbatim.
    let mut env = AppEnv::new();
    env.fail_body = Some("failed body".to_string());
    let e = r
        .decode(&req(HttpMethod::Get, "/b"), vec![], &mut env)
        .expect_err("the body decoder rejects this");
    match e {
        DecodeError::BodyFailed { message } => assert_eq!(message, "failed body"),
        other => panic!("expected a body error, got {:?}", other),
    }

    // An inner guard's error propagates out through the fallback unchanged.
    let mut env = AppEnv::new();
    env.fail_guard = Some((2, "12".to_string()));
    let e = r
        .decode(&req(HttpMethod::Get, "/c"), vec![], &mut env)
        .expect_err("the inner guard rejects this");
    match e {
        DecodeError::GuardFailed { message } => assert_eq!(message, "12"),
        other => panic!("expected a guard error, got {:?}", other),
    }
}

#[test]
fn generic_use_custom_errors() {
    let r = custom_error_router();

    let mut env = AppEnv::new();
    env.fail_guard = Some((1, "failed outer".to_string()));
    let e = r
        .decode(&req(HttpMethod::Get, "/a"), vec![], &mut env)
        .expect_err("the guard rejects this");
    match e {
        DecodeError::GuardFailed { message } => assert_eq!(message, "failed outer"),
        other => panic!("expected a guard error, got {:?}", other),
    }

    let mut env = AppEnv::new();
    env.fail_body = Some("failed body".to_string());
    let e = r
        .decode(&req(HttpMethod::Get, "/b"), vec![], &mut env)
        .expect_err("the body decoder rejects this");
    match e {
        DecodeError::BodyFailed { message } => assert_eq!(message, "failed body"),
        other => panic!("expected a body error, got {:?}", other),
    }

    let mut env = AppEnv::new();
    env.fail_guard = Some((2, "12".to_string()));
    let e = r
        .decode(&req(HttpMethod::Get, "/c"), vec![], &mut env)
        .expect_err("the inner guard rejects this");
    match e {
        DecodeError::GuardFailed { message } => assert_eq!(message, "12"),
        other => panic!("expected a guard error, got {:?}", other),
    }
}

#[test]
fn guard_order() {
    // Three guards on one target run in declared order on every successful
    // decode.
    let mut r = Router::new();
    r.add_table(&vec![entry(
        vec![route(HttpMethod::Get, "/")],
        Leaf { guards: vec![1, 2, 3], ..leaf(0) },
    )])
    .expect("table should build");
    let mut env = AppEnv::new();
    let d = r.decode(&req(HttpMethod::Get, "/"), vec![], &mut env).expect("GET / resolves");
    assert_eq!(env.guard_log, vec![1, 2, 3]);
    assert_eq!(d.guard_tokens, vec![1, 2, 3]);
}

#[test]
fn guard_short_circuit() {
    // The second guard's failure prevents the third from ever running.
    let mut r = Router::new();
    r.add_table(&vec![entry(
        vec![route(HttpMethod::Get, "/")],
        Leaf { guards: vec![1, 2, 3], ..leaf(0) },
    )])
    .expect("table should build");
    let mut env = AppEnv::new();
    env.fail_guard = Some((2, "no".to_string()));
    let e = r
        .decode(&req(HttpMethod::Get, "/"), vec![], &mut env)
        .expect_err("the second guard rejects this");
    assert!(matches!(e, DecodeError::GuardFailed { .. }));
    assert_eq!(env.guard_log, vec![1, 2]);
}

#[test]
fn placeholder_parse_failure_is_not_found() {
    // A failed placeholder parse is reported for the matched route, never by
    // trying another candidate, and reads as "not found".
    let mut r = Router::new();
    r.add_table(&vec![entry(
        vec![route(HttpMethod::Get, "/users/{id}")],
        Leaf { path_fields: vec![pf("id", ParseKind::U32)], ..leaf(0) },
    )])
    .expect("table should build");
    let mut env = AppEnv::new();
    let e = r
        .decode(&req(HttpMethod::Get, "/users/not-a-number"), vec![], &mut env)
        .expect_err("an unparsable id must be rejected");
    match &e {
        DecodeError::PathSegment { name, capture } => {
            assert_eq!(name, "id");
            assert_eq!(capture, "not-a-number");
        },
        other => panic!("expected a path segment error, got {:?}", other),
    }
    assert_eq!(e.http_status(), 404);
}

#[test]
fn no_matching_route_status() {
    let mut r = Router::new();
    r.add_table(&vec![entry(vec![route(HttpMethod::Get, "/")], leaf(0))])
        .expect("table should build");
    let mut env = AppEnv::new();
    let e = r
        .decode(&req(HttpMethod::Get, "/missing"), vec![], &mut env)
        .expect_err("GET /missing must not resolve");
    assert!(matches!(e, DecodeError::NoMatchingRoute));
    assert_eq!(e.http_status(), 404);
}
