//! Matching, dispatch and the decode pipeline.
//!
//! [`Router::decode`] is the single entry point: given a request view, the
//! body bytes and the caller's capability environment, it resolves the
//! request to at most one route, extracts and parses the placeholder
//! captures, and then runs the pipeline in its fixed order: query parameters,
//! guards in declared order, and finally the body or a forward to a nested
//! table. Every step failure short-circuits the decode.

use vstd::prelude::*;

use crate::field::{parse_field, parse_field_spec, FieldValue, FieldValueView};
use crate::method::HttpMethod;
use crate::pattern::{captures_for, lemma_captures_len, names_of, pattern_matches, segs_wf};
use crate::table::{
    fallback_wf, find_method, group_wf, leaf_wf, router_wf, table_wf, GroupV, Leaf, LeafV,
    MethodLeaf, MethodLeafV, PathFieldV, Router, TableV,
};

verus! {

/// The router's view of one incoming request: the method, the request path,
/// the raw query string, and the headers. The body travels separately, since
/// it is consumed.
#[derive(Debug)]
pub struct RequestView {
    pub method: HttpMethod,
    pub path: String,
    pub query: Option<String>,
    pub headers: Vec<(String, String)>,
}

/// Why one decode attempt failed.
#[derive(Debug)]
pub enum DecodeError {
    /// No pattern matched the path and the table has no fallback.
    NoMatchingRoute,
    /// A pattern matched but the method did not; `allowed` lists every
    /// method the path accepts, fallback tables merged in after the table's
    /// own methods.
    WrongMethod { allowed: Vec<HttpMethod> },
    /// A placeholder's captured text failed to parse into its field. By
    /// design this reads as "not found", not as a client syntax error.
    PathSegment { name: String, capture: String },
    /// The query capability rejected the query string.
    QueryParam { message: String },
    /// A guard rejected the request; its error text passes through verbatim.
    GuardFailed { message: String },
    /// The body capability rejected the body; its error text passes through
    /// verbatim.
    BodyFailed { message: String },
}

impl DecodeError {
    /// The HTTP status the error maps to.
    pub open spec fn http_status_spec(&self) -> u16 {
        match self {
            DecodeError::NoMatchingRoute => 404,
            DecodeError::WrongMethod { .. } => 405,
            DecodeError::PathSegment { .. } => 404,
            DecodeError::QueryParam { .. } => 400,
            DecodeError::GuardFailed { .. } => 500,
            DecodeError::BodyFailed { .. } => 500,
        }
    }

    /// The HTTP status the error maps to: an unparsable placeholder reads as
    /// "not found", a rejected query string as a client error.
    pub fn http_status(&self) -> (r: u16)
        ensures
            r == self.http_status_spec(),
    {
        match self {
            DecodeError::NoMatchingRoute => 404,
            DecodeError::WrongMethod { .. } => 405,
            DecodeError::PathSegment { .. } => 404,
            DecodeError::QueryParam { .. } => 400,
            DecodeError::GuardFailed { .. } => 500,
            DecodeError::BodyFailed { .. } => 500,
        }
    }

    /// The allowed methods of a wrong-method error.
    pub fn allowed_methods(&self) -> (r: Option<&Vec<HttpMethod>>)
        ensures
            match self {
                DecodeError::WrongMethod { allowed } => r == Some(allowed),
                _ => r is None,
            },
    {
        match self {
            DecodeError::WrongMethod { allowed } => Some(allowed),
            _ => None,
        }
    }
}

/// One successfully decoded request: the leaf that was constructed and the
/// values its fields received, in declaration order.
#[derive(Debug)]
pub struct Decoded {
    /// The id of the leaf that matched.
    pub leaf_id: u64,
    /// The parsed placeholder values, in order of appearance.
    pub path_values: Vec<FieldValue>,
    /// The query capability's token, when the leaf takes the query.
    pub query_token: Option<u64>,
    /// The guard capability's tokens, in declared guard order.
    pub guard_tokens: Vec<u64>,
    /// The body capability's token, when the leaf takes the body.
    pub body_token: Option<u64>,
    /// The nested decode, when the leaf forwards.
    pub forwarded: Option<Box<Decoded>>,
}

/// The caller-supplied capabilities the pipeline drives: query-string
/// deserialization, guards, and body decoding. Each call receives the id of
/// the leaf being constructed and returns an opaque token the caller can
/// resolve to its own typed value, or an error text that passes through the
/// pipeline verbatim.
pub trait Env {
    /// Evaluates one guard against the request metadata.
    fn guard(&mut self, leaf_id: u64, guard_id: u64, req: &RequestView) -> Result<u64, String>;

    /// Deserializes the raw query string; an absent query arrives as `""`.
    fn query(&mut self, leaf_id: u64, raw_query: &str, req: &RequestView) -> Result<u64, String>;

    /// Decodes the request body, consuming it.
    fn body(&mut self, leaf_id: u64, req: &RequestView, body: Vec<u8>) -> Result<u64, String>;
}

/// The first group whose pattern matches the path, if any.
pub open spec fn match_index(groups: Seq<GroupV>, path: Seq<char>) -> Option<int>
    decreases groups.len(),
{
    if groups.len() == 0 {
        None
    } else if pattern_matches(groups[0].pattern, path) {
        Some(0)
    } else {
        match match_index(groups.skip(1), path) {
            Some(i) => Some(i + 1),
            None => None,
        }
    }
}

/// If the first `i` groups miss and group `i` matches, it is the match.
proof fn lemma_match_index_at(groups: Seq<GroupV>, path: Seq<char>, i: int)
    requires
        0 <= i < groups.len(),
        pattern_matches(groups[i].pattern, path),
        forall|k: int| 0 <= k < i ==> !pattern_matches((#[trigger] groups[k]).pattern, path),
    ensures
        match_index(groups, path) == Some(i),
    decreases i,
{
    if i == 0 {
    } else {
        assert(forall|k: int| 0 <= k < groups.skip(1).len() ==> groups.skip(1)[k] == groups[k
            + 1]);
        lemma_match_index_at(groups.skip(1), path, i - 1);
    }
}

/// If no group matches, there is no match.
proof fn lemma_match_index_none(groups: Seq<GroupV>, path: Seq<char>)
    requires
        forall|k: int|
            0 <= k < groups.len() ==> !pattern_matches((#[trigger] groups[k]).pattern, path),
    ensures
        match_index(groups, path) is None,
    decreases groups.len(),
{
    if groups.len() == 0 {
    } else {
        assert(forall|k: int| 0 <= k < groups.skip(1).len() ==> groups.skip(1)[k] == groups[k
            + 1]);
        lemma_match_index_none(groups.skip(1), path);
    }
}

/// A found match is a real match.
proof fn lemma_match_index_some_inv(groups: Seq<GroupV>, path: Seq<char>)
    requires
        match_index(groups, path) is Some,
    ensures
        0 <= match_index(groups, path)->Some_0 < groups.len(),
        pattern_matches(groups[match_index(groups, path)->Some_0].pattern, path),
    decreases groups.len(),
{
    if groups.len() == 0 {
    } else if pattern_matches(groups[0].pattern, path) {
    } else {
        lemma_match_index_some_inv(groups.skip(1), path);
    }
}

/// In a consistent table the matched group is the only group whose pattern
/// matches the path: table construction made the patterns mutually
/// exclusive.
pub proof fn lemma_match_unique(t: TableV, n: int, path: Seq<char>, j: int)
    requires
        table_wf(t, n),
        match_index(t.groups, path) is Some,
        0 <= j < t.groups.len(),
        j != match_index(t.groups, path)->Some_0,
    ensures
        !pattern_matches(t.groups[j].pattern, path),
{
    lemma_match_index_some_inv(t.groups, path);
    crate::table::lemma_at_most_one_match(
        t,
        n,
        match_index(t.groups, path)->Some_0,
        j,
        path,
    );
}

/// The first path field whose capture fails to parse, if any.
pub open spec fn first_bad_field(fields: Seq<PathFieldV>, caps: Seq<Seq<char>>) -> Option<int>
    decreases fields.len(),
{
    if fields.len() == 0 {
        None
    } else if parse_field_spec(fields[0].kind, caps[0]) is None {
        Some(0)
    } else {
        match first_bad_field(fields.skip(1), caps.skip(1)) {
            Some(i) => Some(i + 1),
            None => None,
        }
    }
}

/// The parsed placeholder values, meaningful when every capture parses.
pub open spec fn parsed_values(fields: Seq<PathFieldV>, caps: Seq<Seq<char>>) -> Seq<
    FieldValueView,
>
    decreases fields.len(),
{
    if fields.len() == 0 {
        Seq::<FieldValueView>::empty()
    } else {
        seq![parse_field_spec(fields[0].kind, caps[0])->Some_0] + parsed_values(
            fields.skip(1),
            caps.skip(1),
        )
    }
}

/// Where each parsed value comes from.
proof fn lemma_parsed_values_index(fields: Seq<PathFieldV>, caps: Seq<Seq<char>>)
    requires
        caps.len() >= fields.len(),
    ensures
        parsed_values(fields, caps).len() == fields.len(),
        forall|i: int|
            0 <= i < fields.len() ==> parsed_values(fields, caps)[i] == parse_field_spec(
                (#[trigger] fields[i]).kind,
                caps[i],
            )->Some_0,
    decreases fields.len(),
{
    if fields.len() == 0 {
    } else {
        lemma_parsed_values_index(fields.skip(1), caps.skip(1));
        assert(forall|i: int| 0 <= i < fields.skip(1).len() ==> fields.skip(1)[i] == fields[i
            + 1]);
        assert(forall|i: int| 0 <= i < caps.skip(1).len() ==> caps.skip(1)[i] == caps[i + 1]);
        assert forall|i: int| 0 <= i < fields.len() implies parsed_values(fields, caps)[i]
            == parse_field_spec((#[trigger] fields[i]).kind, caps[i])->Some_0 by {
            if i > 0 {
                assert(parsed_values(fields, caps)[i] == parsed_values(
                    fields.skip(1),
                    caps.skip(1),
                )[i - 1]);
                assert(parsed_values(fields.skip(1), caps.skip(1))[i - 1] == parse_field_spec(
                    fields.skip(1)[i - 1].kind,
                    caps.skip(1)[i - 1],
                )->Some_0);
            }
        }
    }
}

/// If the first `i` captures parse and capture `i` fails, field `i` is the
/// first bad one.
proof fn lemma_first_bad_at(fields: Seq<PathFieldV>, caps: Seq<Seq<char>>, i: int)
    requires
        caps.len() >= fields.len(),
        0 <= i < fields.len(),
        parse_field_spec(fields[i].kind, caps[i]) is None,
        forall|k: int|
            0 <= k < i ==> parse_field_spec((#[trigger] fields[k]).kind, caps[k]) is Some,
    ensures
        first_bad_field(fields, caps) == Some(i),
    decreases i,
{
    if i == 0 {
    } else {
        assert(forall|k: int| 0 <= k < fields.skip(1).len() ==> fields.skip(1)[k] == fields[k
            + 1]);
        assert(forall|k: int| 0 <= k < caps.skip(1).len() ==> caps.skip(1)[k] == caps[k + 1]);
        lemma_first_bad_at(fields.skip(1), caps.skip(1), i - 1);
    }
}

/// If every capture parses, no field is bad.
proof fn lemma_first_bad_none(fields: Seq<PathFieldV>, caps: Seq<Seq<char>>)
    requires
        caps.len() >= fields.len(),
        forall|k: int|
            0 <= k < fields.len() ==> parse_field_spec((#[trigger] fields[k]).kind, caps[k])
                is Some,
    ensures
        first_bad_field(fields, caps) is None,
    decreases fields.len(),
{
    if fields.len() == 0 {
    } else {
        assert(forall|k: int| 0 <= k < fields.skip(1).len() ==> fields.skip(1)[k] == fields[k
            + 1]);
        assert(forall|k: int| 0 <= k < caps.skip(1).len() ==> caps.skip(1)[k] == caps[k + 1]);
        lemma_first_bad_none(fields.skip(1), caps.skip(1));
    }
}

/// Whether a leaf accepts the concrete captures: every capture parses into
/// its field.
pub open spec fn leaf_accepts(l: LeafV, caps: Seq<Seq<char>>) -> bool {
    forall|k: int|
        0 <= k < l.path_fields.len() ==> parse_field_spec(
            (#[trigger] l.path_fields[k]).kind,
            caps[k],
        ) is Some
}

/// The methods a group accepts for concrete captures, in mapping order: a
/// method counts as allowed when its leaf's placeholder parses all succeed.
pub open spec fn allowed_methods_spec(entries: Seq<MethodLeafV>, caps: Seq<Seq<char>>) -> Seq<
    HttpMethod,
>
    decreases entries.len(),
{
    if entries.len() == 0 {
        Seq::<HttpMethod>::empty()
    } else {
        (if leaf_accepts(entries[0].leaf, caps) {
            seq![entries[0].method]
        } else {
            Seq::<HttpMethod>::empty()
        }) + allowed_methods_spec(entries.skip(1), caps)
    }
}

/// What one leaf's decode returns, for every behaviour of the environment.
///
/// When some capture fails to parse, the decode fails with a `PathSegment`
/// error naming the first failing field. Otherwise a success carries the
/// leaf's id and the parsed placeholder values, and took one token per
/// declared query, guard and body field, in declared order; each error kind
/// can arrive only from a step the leaf declares; and a leaf with no query,
/// guards, body or forward always succeeds.
pub open spec fn leaf_result_spec(
    lv: LeafV,
    caps: Seq<Seq<char>>,
    r: Result<Decoded, DecodeError>,
) -> bool {
    match first_bad_field(lv.path_fields, caps) {
        Some(k) => match r {
            Err(DecodeError::PathSegment { name, capture }) => name@ == lv.path_fields[k].name
                && capture@ == caps[k],
            _ => false,
        },
        None => {
            &&& (r matches Ok(d) ==> {
                &&& d.leaf_id == lv.id
                &&& d.path_values@.map_values(|v: FieldValue| v@) == parsed_values(
                    lv.path_fields,
                    caps,
                )
                &&& d.guard_tokens@.len() == lv.guards.len()
                &&& (d.query_token is Some <==> lv.has_query)
                &&& (d.body_token is Some <==> lv.has_body)
                &&& (d.forwarded is Some <==> lv.forward is Some)
            })
            &&& (r matches Err(e) ==> match e {
                DecodeError::PathSegment { .. } => lv.forward is Some,
                DecodeError::QueryParam { .. } => lv.has_query || lv.forward is Some,
                DecodeError::GuardFailed { .. } => lv.guards.len() > 0 || lv.forward is Some,
                DecodeError::BodyFailed { .. } => lv.has_body || lv.forward is Some,
                DecodeError::NoMatchingRoute => lv.forward is Some,
                DecodeError::WrongMethod { .. } => lv.forward is Some,
            })
            &&& ((!lv.has_query && lv.guards.len() == 0 && !lv.has_body && lv.forward is None)
                ==> r is Ok)
        },
    }
}

/// What one table's dispatch returns.
///
/// No matching group and no fallback is "no matching route"; with a fallback
/// the fallback leaf decodes the request. A matched group resolves the
/// method in its mapping: a hit decodes that leaf — an outer, explicitly
/// declared route always wins over anything a fallback would do — and a miss
/// reports the allowed methods, after letting a fallback try first and
/// merging its allowed methods behind the table's own.
pub open spec fn decode_at_spec(
    tv: TableV,
    method: HttpMethod,
    path: Seq<char>,
    r: Result<Decoded, DecodeError>,
) -> bool {
    match match_index(tv.groups, path) {
        None => match tv.fallback {
            None => r matches Err(DecodeError::NoMatchingRoute),
            Some(fl) => leaf_result_spec(fl, Seq::<Seq<char>>::empty(), r),
        },
        Some(gi) => {
            let g = tv.groups[gi];
            let caps = captures_for(g.pattern, path);
            match find_method(g.entries, method) {
                Some(l) => leaf_result_spec(l, caps, r),
                None => match tv.fallback {
                    None => match r {
                        Err(DecodeError::WrongMethod { allowed }) => allowed@
                            == allowed_methods_spec(g.entries, caps),
                        _ => false,
                    },
                    Some(fl) => {
                        &&& (!(r matches Err(DecodeError::WrongMethod { .. }))
                            ==> leaf_result_spec(fl, Seq::<Seq<char>>::empty(), r))
                        &&& (r matches Err(e) ==> match e {
                            DecodeError::WrongMethod { allowed } => allowed_methods_spec(
                                g.entries,
                                caps,
                            ).is_prefix_of(allowed@),
                            _ => true,
                        })
                    },
                },
            }
        },
    }
}

/// Returns whether a leaf accepts the concrete captures.
#[verifier::loop_isolation(false)]
fn leaf_accepts_exec(leaf: &Leaf, caps: &Vec<String>) -> (r: bool)
    requires
        caps@.len() == leaf.path_fields@.len(),
    ensures
        r == leaf_accepts(leaf@, caps@.map_values(|c: String| c@)),
{
    let ghost cviews = caps@.map_values(|c: String| c@);
    let mut k: usize = 0;
    while k < leaf.path_fields.len()
        invariant
            0 <= k <= leaf.path_fields.len(),
            forall|x: int|
                0 <= x < k ==> parse_field_spec(
                    (#[trigger] leaf@.path_fields[x]).kind,
                    cviews[x],
                ) is Some,
        decreases leaf.path_fields.len() - k,
    {
        if parse_field(leaf.path_fields[k].kind, caps[k].as_str()).is_none() {
            proof {
                assert(parse_field_spec(leaf@.path_fields[k as int].kind, cviews[k as int])
                    is None);
            }
            return false;
        }
        k = k + 1;
    }
    true
}

/// Collects the methods a group allows for concrete captures.
#[verifier::loop_isolation(false)]
fn allowed_exec(entries: &Vec<MethodLeaf>, caps: &Vec<String>) -> (r: Vec<HttpMethod>)
    requires
        forall|i: int|
            0 <= i < entries@.len() ==> (#[trigger] entries@[i]).leaf.path_fields@.len()
                == caps@.len(),
    ensures
        r@ == allowed_methods_spec(
            entries@.map_values(|e: MethodLeaf| e@),
            caps@.map_values(|c: String| c@),
        ),
{
    let ghost eviews = entries@.map_values(|e: MethodLeaf| e@);
    let ghost cviews = caps@.map_values(|c: String| c@);
    let mut r: Vec<HttpMethod> = Vec::new();
    let mut i: usize = 0;
    proof {
        assert(eviews.skip(0) =~= eviews);
        assert(r@ + allowed_methods_spec(eviews, cviews) =~= allowed_methods_spec(
            eviews,
            cviews,
        ));
    }
    while i < entries.len()
        invariant
            0 <= i <= entries.len(),
            allowed_methods_spec(eviews, cviews) == r@ + allowed_methods_spec(
                eviews.skip(i as int),
                cviews,
            ),
        decreases entries.len() - i,
    {
        proof {
            assert(eviews.skip(i as int)[0] == eviews[i as int]);
            assert(eviews.skip(i as int).skip(1) =~= eviews.skip(i as int + 1));
        }
        if leaf_accepts_exec(&entries[i].leaf, caps) {
            r.push(entries[i].method);
            proof {
                assert(r@ + allowed_methods_spec(eviews.skip(i as int + 1), cviews) =~= r@
                    .drop_last() + (seq![eviews[i as int].method] + allowed_methods_spec(
                    eviews.skip(i as int + 1),
                    cviews,
                )));
            }
        } else {
            proof {
                assert(Seq::<HttpMethod>::empty() + allowed_methods_spec(
                    eviews.skip(i as int + 1),
                    cviews,
                ) =~= allowed_methods_spec(eviews.skip(i as int + 1), cviews));
            }
        }
        i = i + 1;
    }
    proof {
        assert(eviews.skip(entries@.len() as int) =~= Seq::<MethodLeafV>::empty());
        assert(r@ + Seq::<HttpMethod>::empty() =~= r@);
    }
    r
}

impl Router {
    /// Decodes one leaf: parses the captures into the placeholder fields,
    /// then runs the pipeline in its fixed order — query string, guards in
    /// declared order, then the body or a forward to a nested table — and
    /// short-circuits on the first failure.
    #[verifier::loop_isolation(false)]
    #[verifier::rlimit(60)]
    fn decode_leaf<E: Env>(
        &self,
        bound: usize,
        leaf: &Leaf,
        caps: &Vec<String>,
        req: &RequestView,
        body: Vec<u8>,
        env: &mut E,
    ) -> (r: Result<Decoded, DecodeError>)
        requires
            router_wf(self@),
            bound <= self@.len(),
            caps@.len() == leaf.path_fields@.len(),
            leaf@.forward matches Some(f) ==> f < bound,
            !(leaf@.has_body && leaf@.forward is Some),
        ensures
            leaf_result_spec(leaf@, caps@.map_values(|c: String| c@), r),
        decreases bound, 0int,
    {
        let ghost cviews = caps@.map_values(|c: String| c@);
        // Path placeholders, in order of appearance; the first parse failure
        // fails the whole decode.
        let mut path_values: Vec<FieldValue> = Vec::new();
        let mut k: usize = 0;
        proof {
            lemma_parsed_values_index(leaf@.path_fields, cviews);
        }
        while k < leaf.path_fields.len()
            invariant
                0 <= k <= leaf.path_fields.len(),
                path_values@.len() == k,
                forall|x: int|
                    0 <= x < k ==> parse_field_spec(
                        (#[trigger] leaf@.path_fields[x]).kind,
                        cviews[x],
                    ) is Some,
                forall|x: int|
                    0 <= x < k ==> (#[trigger] path_values@[x])@ == parsed_values(
                        leaf@.path_fields,
                        cviews,
                    )[x],
            decreases leaf.path_fields.len() - k,
        {
            match parse_field(leaf.path_fields[k].kind, caps[k].as_str()) {
                Some(v) => {
                    path_values.push(v);
                    proof {
                        assert(parse_field_spec(
                            leaf@.path_fields[k as int].kind,
                            cviews[k as int],
                        ) == Some(path_values@[k as int]@));
                        assert(path_values@[k as int]@ == parsed_values(
                            leaf@.path_fields,
                            cviews,
                        )[k as int]);
                    }
                },
                None => {
                    proof {
                        lemma_first_bad_at(leaf@.path_fields, cviews, k as int);
                    }
                    return Err(
                        DecodeError::PathSegment {
                            name: leaf.path_fields[k].name.clone(),
                            capture: caps[k].clone(),
                        },
                    );
                },
            }
            k = k + 1;
        }
        proof {
            lemma_first_bad_none(leaf@.path_fields, cviews);
            assert(path_values@.map_values(|v: FieldValue| v@) =~= parsed_values(
                leaf@.path_fields,
                cviews,
            ));
        }
        // Query parameters.
        let query_token: Option<u64> = if leaf.has_query {
            let raw: &str = match &req.query {
                Some(q) => q.as_str(),
                None => "",
            };
            match env.query(leaf.id, raw, req) {
                Ok(tok) => Some(tok),
                Err(message) => {
                    return Err(DecodeError::QueryParam { message });
                },
            }
        } else {
            None
        };
        // Guards, in declared order; the first failure prevents every later
        // guard from running.
        let mut guard_tokens: Vec<u64> = Vec::new();
        let mut gi: usize = 0;
        while gi < leaf.guards.len()
            invariant
                0 <= gi <= leaf.guards.len(),
                guard_tokens@.len() == gi,
                query_token is Some <==> leaf.has_query,
            decreases leaf.guards.len() - gi,
        {
            match env.guard(leaf.id, leaf.guards[gi], req) {
                Ok(tok) => {
                    guard_tokens.push(tok);
                },
                Err(message) => {
                    return Err(DecodeError::GuardFailed { message });
                },
            }
            gi = gi + 1;
        }
        // Exactly one of: body decode, or forward to a nested table.
        if leaf.has_body {
            match env.body(leaf.id, req, body) {
                Ok(tok) => Ok(
                    Decoded {
                        leaf_id: leaf.id,
                        path_values,
                        query_token,
                        guard_tokens,
                        body_token: Some(tok),
                        forwarded: None,
                    },
                ),
                Err(message) => Err(DecodeError::BodyFailed { message }),
            }
        } else {
            match leaf.forward {
                Some(fwd) => {
                    match self.decode_at(fwd, req, body, env) {
                        Ok(inner) => Ok(
                            Decoded {
                                leaf_id: leaf.id,
                                path_values,
                                query_token,
                                guard_tokens,
                                body_token: None,
                                forwarded: Some(Box::new(inner)),
                            },
                        ),
                        Err(e) => Err(e),
                    }
                },
                None => Ok(
                    Decoded {
                        leaf_id: leaf.id,
                        path_values,
                        query_token,
                        guard_tokens,
                        body_token: None,
                        forwarded: None,
                    },
                ),
            }
        }
    }

    /// Dispatches one request against the table at `t`: finds the at most
    /// one matching group, resolves the method, and decodes the resolved
    /// leaf, falling back to the fallback leaf where the table itself has no
    /// answer.
    #[verifier::loop_isolation(false)]
    #[verifier::rlimit(100)]
    fn decode_at<E: Env>(
        &self,
        t: usize,
        req: &RequestView,
        body: Vec<u8>,
        env: &mut E,
    ) -> (r: Result<Decoded, DecodeError>)
        requires
            router_wf(self@),
            t < self@.len(),
        ensures
            decode_at_spec(self@[t as int], req.method, req.path@, r),
        decreases t, 1int,
    {
        let ghost tv = self@[t as int];
        let table = &self.tables[t];
        proof {
            assert(tv == table@);
            assert(table_wf(tv, t as int));
        }
        // Find the matching group; the build guarantees at most one exists.
        let mut found: Option<usize> = None;
        let mut caps: Vec<String> = Vec::new();
        let mut i: usize = 0;
        while found.is_none() && i < table.groups.len()
            invariant
                0 <= i <= table.groups.len(),
                match found {
                    Some(g) => {
                        &&& g == i
                        &&& i < table.groups@.len()
                        &&& pattern_matches(tv.groups[g as int].pattern, req.path@)
                        &&& caps@.map_values(|c: String| c@) == captures_for(
                            tv.groups[g as int].pattern,
                            req.path@,
                        )
                        &&& forall|x: int|
                            0 <= x < i ==> !pattern_matches(
                                (#[trigger] tv.groups[x]).pattern,
                                req.path@,
                            )
                    },
                    None => forall|x: int|
                        0 <= x < i ==> !pattern_matches(
                            (#[trigger] tv.groups[x]).pattern,
                            req.path@,
                        ),
                },
            decreases table.groups.len() - i + (if found is Some {
                0int
            } else {
                1int
            }),
        {
            proof {
                assert(tv.groups[i as int] == table.groups@[i as int]@);
                assert(group_wf(tv.groups[i as int], t as int));
            }
            match table.groups[i].pattern.matches_path(req.path.as_str()) {
                Some(c) => {
                    caps = c;
                    found = Some(i);
                },
                None => {
                    i = i + 1;
                },
            }
        }
        match found {
            None => {
                proof {
                    lemma_match_index_none(tv.groups, req.path@);
                }
                match &table.fallback {
                    None => Err(DecodeError::NoMatchingRoute),
                    Some(fl) => {
                        proof {
                            assert(tv.fallback == Some(fl@));
                            assert(fallback_wf(fl@, t as int));
                        }
                        let empty_caps: Vec<String> = Vec::new();
                        proof {
                            assert(empty_caps@.map_values(|c: String| c@) =~= Seq::<
                                Seq<char>,
                            >::empty());
                        }
                        self.decode_leaf(t, fl, &empty_caps, req, body, env)
                    },
                }
            },
            Some(gi) => {
                proof {
                    lemma_match_index_at(tv.groups, req.path@, gi as int);
                    assert(group_wf(tv.groups[gi as int], t as int));
                    lemma_group_caps_len(tv.groups[gi as int], req.path@, t as int);
                }
                match crate::table::find_method_exec(&table.groups[gi].entries, req.method) {
                    Some(mi) => {
                        let leaf = &table.groups[gi].entries[mi].leaf;
                        proof {
                            assert(tv.groups[gi as int].entries[mi as int] == table.groups@[gi
                                as int].entries@[mi as int]@);
                            assert(leaf_wf(leaf@, tv.groups[gi as int].pattern, t as int));
                        }
                        self.decode_leaf(t, leaf, &caps, req, body, env)
                    },
                    None => {
                        proof {
                            assert(caps@.map_values(|c: String| c@).len() == caps@.len());
                            assert forall|x: int|
                                0 <= x < table.groups@[gi as int].entries@.len() implies (
                            #[trigger] table.groups@[gi as int].entries@[x]).leaf.path_fields@
                                .len() == caps@.len() by {
                                assert(tv.groups[gi as int].entries[x] == table.groups@[gi
                                    as int].entries@[x]@);
                                assert(tv.groups[gi as int].entries[x].leaf.path_fields.len()
                                    == captures_for(
                                    tv.groups[gi as int].pattern,
                                    req.path@,
                                ).len());
                            }
                        }
                        let allowed = allowed_exec(&table.groups[gi].entries, &caps);
                        match &table.fallback {
                            None => Err(DecodeError::WrongMethod { allowed }),
                            Some(fl) => {
                                proof {
                                    assert(tv.fallback == Some(fl@));
                                    assert(fallback_wf(fl@, t as int));
                                }
                                let empty_caps: Vec<String> = Vec::new();
                                proof {
                                    assert(empty_caps@.map_values(|c: String| c@) =~= Seq::<
                                        Seq<char>,
                                    >::empty());
                                }
                                match self.decode_leaf(t, fl, &empty_caps, req, body, env) {
                                    Ok(d) => Ok(d),
                                    Err(e) => match e {
                                        DecodeError::WrongMethod { allowed: inner } => {
                                            let mut merged = allowed;
                                            let ghost outer = merged@;
                                            let mut x: usize = 0;
                                            while x < inner.len()
                                                invariant
                                                    0 <= x <= inner.len(),
                                                    merged@ == outer + inner@.take(x as int),
                                                decreases inner.len() - x,
                                            {
                                                merged.push(inner[x]);
                                                proof {
                                                    assert(outer + inner@.take(x as int + 1)
                                                        =~= (outer + inner@.take(
                                                        x as int,
                                                    )).push(inner@[x as int]));
                                                }
                                                x = x + 1;
                                            }
                                            proof {
                                                assert(outer.is_prefix_of(merged@));
                                            }
                                            Err(DecodeError::WrongMethod { allowed: merged })
                                        },
                                        other => Err(other),
                                    },
                                }
                            },
                        }
                    },
                }
            },
        }
    }

    /// Decodes one request against the root table: the single entry point.
    ///
    /// The request resolves to at most one route; placeholder captures are
    /// parsed into the leaf's fields, then the pipeline runs query, guards
    /// and body or forward in order, short-circuiting on the first failure.
    pub fn decode<E: Env>(
        &self,
        req: &RequestView,
        body: Vec<u8>,
        env: &mut E,
    ) -> (r: Result<Decoded, DecodeError>)
        requires
            router_wf(self@),
            self@.len() > 0,
        ensures
            decode_at_spec(self@[self@.len() - 1], req.method, req.path@, r),
    {
        self.decode_at(self.tables.len() - 1, req, body, env)
    }
}

/// In a consistent group, captures line up one to one with path fields.
proof fn lemma_group_caps_len(g: GroupV, path: Seq<char>, n: int)
    requires
        group_wf(g, n),
    ensures
        forall|x: int|
            0 <= x < g.entries.len() ==> (#[trigger] g.entries[x]).leaf.path_fields.len()
                == captures_for(g.pattern, path).len(),
{
    if g.pattern.len() == 0 {
        assert(names_of(g.pattern).len() == 0);
        assert(captures_for(g.pattern, path).len() == 0);
    } else {
        lemma_captures_len(g.pattern, crate::strutil::split_slash_spec(path.skip(1)));
    }
}

} // verus!
