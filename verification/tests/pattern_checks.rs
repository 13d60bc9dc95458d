use hyperdrive::byproxy::ByProxy;
use hyperdrive::field::{parse_field, FieldValue, ParseKind};
use hyperdrive::pattern::{valid_ident, PathPattern, PatternError};

fn parse(path: &str) -> PathPattern {
    PathPattern::parse(path).expect("pattern should parse")
}

fn intersect(a: &str, b: &str) -> Option<String> {
    parse(a).find_overlap(&parse(b))
}

#[test]
fn ident() {
    assert!(valid_ident("__"));
    assert!(valid_ident("_0"));
    assert!(valid_ident("a"));
    assert!(valid_ident("abc0"));
    assert!(valid_ident("abc0_"));
    assert!(!valid_ident("_"));
    assert!(!valid_ident(" "));
    assert!(!valid_ident(""));
    assert!(!valid_ident("0abc"));
}

#[test]
fn parse_overlap() {
    assert_eq!(intersect("/", "/literal"), None);
    assert_eq!(intersect("/", "/"), Some("/".to_string()));
    assert_eq!(intersect("/a", "/b"), None);
    assert_eq!(intersect("/abc", "/abc"), Some("/abc".to_string()));
    assert_eq!(intersect("/{a}", "/b"), Some("/b".to_string()));
    assert_eq!(intersect("/a", "/{b}"), Some("/a".to_string()));
    assert_eq!(intersect("/{a}", "/{b}"), Some("/a".to_string()));
    assert_eq!(intersect("/{a}/", "/{b}"), None);
    assert_eq!(intersect("/{a}/", "/{b}/lit"), None);
    assert_eq!(intersect("/{a}/{x}", "/{b}/{y}"), Some("/a/x".to_string()));
    assert_eq!(intersect("/{a}/{x...}", "/{b}"), None);
    assert_eq!(intersect("/{a}/{x...}", "/{b...}"), Some("/a/x...".to_string()));
    assert_eq!(intersect("/lit/{x...}", "/{b...}"), Some("/lit/x...".to_string()));
    assert_eq!(intersect("/lit/bla", "/{b...}"), Some("/lit/bla".to_string()));
    assert_eq!(intersect("/lit/bla", "/lit/{b...}"), Some("/lit/bla".to_string()));
    assert_eq!(intersect("/lit/bla", "/blit/{b...}"), None);
    assert_eq!(intersect("*", "/{b...}"), None);
    assert_eq!(intersect("*", "/"), None);
    assert_eq!(intersect("*", "*"), Some("*".to_string()));
}

#[test]
fn overlap_example_matches_both() {
    // The reported example is matched by both patterns.
    let a = parse("/users/{id}/files/{rest...}");
    let b = parse("/{section}/42/{leaf...}");
    let example = a.find_overlap(&b).expect("patterns overlap");
    assert!(a.matches_path(&example).is_some());
    assert!(b.matches_path(&example).is_some());
    // And symmetrically.
    let example = b.find_overlap(&a).expect("patterns overlap");
    assert!(a.matches_path(&example).is_some());
    assert!(b.matches_path(&example).is_some());
}

#[test]
fn parse_rejects_relative() {
    assert!(matches!(
        PathPattern::parse("users/{id}"),
        Err(PatternError::NotAbsolute)
    ));
    assert!(matches!(PathPattern::parse(""), Err(PatternError::NotAbsolute)));
}

#[test]
fn parse_rejects_bad_placeholder() {
    assert!(matches!(
        PathPattern::parse("/{}"),
        Err(PatternError::InvalidPlaceholder { .. })
    ));
    assert!(matches!(
        PathPattern::parse("/{0abc}"),
        Err(PatternError::InvalidPlaceholder { .. })
    ));
    assert!(matches!(
        PathPattern::parse("/{...}"),
        Err(PatternError::InvalidPlaceholder { .. })
    ));
}

#[test]
fn parse_rejects_duplicate_placeholder() {
    match PathPattern::parse("/{ph}/{ph}") {
        Err(PatternError::DuplicatePlaceholder { name }) => assert_eq!(name, "ph"),
        other => panic!("expected a duplicate placeholder error, got {:?}", other),
    }
}

#[test]
fn parse_rejects_rest_not_last() {
    assert!(matches!(
        PathPattern::parse("/{rest...}/more"),
        Err(PatternError::RestNotLast)
    ));
}

#[test]
fn asterisk_literal() {
    // `*` matches only the literal request target `*`, never `/`.
    let star = parse("*");
    assert!(star.matches_path("*").is_some());
    assert!(star.matches_path("/").is_none());
    assert!(star.matches_path("/*").is_none());
    // And no ordinary pattern matches `*`.
    let root = parse("/");
    assert!(root.matches_path("*").is_none());
    assert!(root.matches_path("/").is_some());
}

#[test]
fn captures_in_order() {
    let p = parse("/users/{id}/posts/{post}");
    let caps = p.matches_path("/users/12/posts/34").expect("path matches");
    assert_eq!(caps, vec!["12".to_string(), "34".to_string()]);
    assert!(p.matches_path("/users/12/posts").is_none());
    assert!(p.matches_path("/users/12/posts/34/56").is_none());
}

#[test]
fn rest_captures_remainder() {
    let p = parse("/{ph}/{rest...}");
    let caps = p.matches_path("/1234/bla/bli").expect("path matches");
    assert_eq!(caps, vec!["1234".to_string(), "bla/bli".to_string()]);
    let caps = p.matches_path("/1234/").expect("path matches");
    assert_eq!(caps, vec!["1234".to_string(), "".to_string()]);
    assert!(p.matches_path("/1234").is_none());
}

#[test]
fn field_parse_values() {
    match parse_field(ParseKind::U32, "1234") {
        Some(FieldValue::Uint(v)) => assert_eq!(v, 1234),
        other => panic!("expected an integer, got {:?}", other),
    }
    match parse_field(ParseKind::U32, "+42") {
        Some(FieldValue::Uint(v)) => assert_eq!(v, 42),
        other => panic!("expected an integer, got {:?}", other),
    }
    match parse_field(ParseKind::U32, "4294967295") {
        Some(FieldValue::Uint(v)) => assert_eq!(v, 4294967295),
        other => panic!("expected an integer, got {:?}", other),
    }
    assert!(parse_field(ParseKind::U32, "4294967296").is_none());
    assert!(parse_field(ParseKind::U8, "256").is_none());
    assert!(parse_field(ParseKind::U8, "255").is_some());
    assert!(parse_field(ParseKind::U32, "").is_none());
    assert!(parse_field(ParseKind::U32, "+").is_none());
    assert!(parse_field(ParseKind::U32, "-1").is_none());
    assert!(parse_field(ParseKind::U32, "12a").is_none());
    match parse_field(ParseKind::Text, "anything/at all") {
        Some(FieldValue::Text(s)) => assert_eq!(s, "anything/at all"),
        other => panic!("expected text, got {:?}", other),
    }
}

#[test]
fn by_proxy_compares_by_key() {
    let a = ByProxy::new("first".to_string(), vec![1u8, 2, 3]);
    let b = ByProxy::new("second".to_string(), vec![1u8, 2, 3]);
    let c = ByProxy::new("first".to_string(), vec![9u8]);
    assert!(a.same_key(&b));
    assert!(!a.same_key(&c));
    assert_eq!(a.object(), "first");
    assert_eq!(a.key(), &vec![1u8, 2, 3]);
}

#[test]
fn overlap_conservative_on_empty_literal() {
    // A placeholder held against an empty literal segment is reported as an
    // overlap, conservatively: the table build rejects the pair, although
    // the example `/` is matched by only one side.
    assert_eq!(intersect("/{a}", "/"), Some("/".to_string()));
    assert!(parse("/{a}").matches_path("/").is_none());
    assert!(parse("/").matches_path("/").is_some());
}
