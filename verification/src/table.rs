//! Building the route table.
//!
//! A [`Router`] is an arena of route tables. Each table is built from a list
//! of [`TableEntry`] descriptors: the routes (method and path pattern) that
//! construct one output variant, together with the description of its fields.
//! Building validates the descriptors, rejects duplicate and overlapping
//! routes, synthesizes a `HEAD` route for every `GET` route that has none,
//! and records at most one fallback entry that forwards unmatched requests to
//! a nested table. A forward always names a table built earlier, so nested
//! dispatch terminates.

use vstd::prelude::*;

use crate::field::ParseKind;
use crate::method::HttpMethod;
use crate::pattern::{
    erase_segs, lemma_names_len_shape, lemma_overlap_symmetric, lemma_parsed_segs_wf, names_of,
    overlaps, path_parses, pattern_matches, segs_of_path, segs_wf, PatternError, PathPattern,
    Segment, SegView,
};

verus! {

/// One placeholder field of a route target: its name and how its captured
/// segment is parsed.
#[derive(Debug)]
pub struct PathField {
    pub name: String,
    pub kind: ParseKind,
}

/// The mathematical model of a [`PathField`].
pub struct PathFieldV {
    pub name: Seq<char>,
    pub kind: ParseKind,
}

impl View for PathField {
    type V = PathFieldV;

    open spec fn view(&self) -> PathFieldV {
        PathFieldV { name: self.name@, kind: self.kind }
    }
}

/// What a matched route constructs: the description of one output variant.
///
/// A leaf names its variant (`id`), the placeholder fields in pattern order,
/// whether it takes the query string and the request body, its guard fields
/// in declared order, and optionally a nested table to forward to.
#[derive(Debug)]
pub struct Leaf {
    /// Identifies the output variant this leaf constructs.
    pub id: u64,
    /// The placeholder fields, in order of appearance in the pattern.
    pub path_fields: Vec<PathField>,
    /// Whether the variant takes the decoded query string.
    pub has_query: bool,
    /// The guard fields, in declared order.
    pub guards: Vec<u64>,
    /// Whether the variant consumes the request body.
    pub has_body: bool,
    /// A nested table (by arena index) the request is forwarded to.
    pub forward: Option<usize>,
}

/// The mathematical model of a [`Leaf`].
pub struct LeafV {
    pub id: u64,
    pub path_fields: Seq<PathFieldV>,
    pub has_query: bool,
    pub guards: Seq<u64>,
    pub has_body: bool,
    pub forward: Option<usize>,
}

impl View for Leaf {
    type V = LeafV;

    open spec fn view(&self) -> LeafV {
        LeafV {
            id: self.id,
            path_fields: self.path_fields@.map_values(|f: PathField| f@),
            has_query: self.has_query,
            guards: self.guards@,
            has_body: self.has_body,
            forward: self.forward,
        }
    }
}

/// One route of a table entry: a method and a path pattern source text.
#[derive(Debug)]
pub struct RouteSpec {
    pub method: HttpMethod,
    pub path: String,
}

/// The mathematical model of a [`RouteSpec`].
pub struct RouteV {
    pub method: HttpMethod,
    pub path: Seq<char>,
}

impl View for RouteSpec {
    type V = RouteV;

    open spec fn view(&self) -> RouteV {
        RouteV { method: self.method, path: self.path@ }
    }
}

/// One descriptor handed to the table builder: the routes that reach a leaf.
///
/// An entry with no routes and a forward is the table's fallback; an entry
/// with no routes and no forward is never constructed and is skipped.
#[derive(Debug)]
pub struct TableEntry {
    pub routes: Vec<RouteSpec>,
    pub leaf: Leaf,
}

/// The mathematical model of a [`TableEntry`].
pub struct EntryV {
    pub routes: Seq<RouteV>,
    pub leaf: LeafV,
}

impl View for TableEntry {
    type V = EntryV;

    open spec fn view(&self) -> EntryV {
        EntryV { routes: self.routes@.map_values(|r: RouteSpec| r@), leaf: self.leaf@ }
    }
}

/// One method mapping of a pattern group.
#[derive(Debug)]
pub struct MethodLeaf {
    pub method: HttpMethod,
    pub leaf: Leaf,
}

/// The mathematical model of a [`MethodLeaf`].
pub struct MethodLeafV {
    pub method: HttpMethod,
    pub leaf: LeafV,
}

impl View for MethodLeaf {
    type V = MethodLeafV;

    open spec fn view(&self) -> MethodLeafV {
        MethodLeafV { method: self.method, leaf: self.leaf@ }
    }
}

/// All routes of one distinct pattern: the pattern and its method map, in
/// insertion order.
#[derive(Debug)]
pub struct Group {
    pub pattern: PathPattern,
    pub entries: Vec<MethodLeaf>,
}

/// The mathematical model of a [`Group`].
pub struct GroupV {
    pub pattern: Seq<SegView>,
    pub entries: Seq<MethodLeafV>,
}

impl View for Group {
    type V = GroupV;

    open spec fn view(&self) -> GroupV {
        GroupV { pattern: self.pattern@, entries: self.entries@.map_values(|e: MethodLeaf| e@) }
    }
}

/// One route table: its pattern groups and an optional fallback leaf.
#[derive(Debug)]
pub struct Table {
    pub groups: Vec<Group>,
    pub fallback: Option<Leaf>,
}

/// The mathematical model of a [`Table`].
pub struct TableV {
    pub groups: Seq<GroupV>,
    pub fallback: Option<LeafV>,
}

impl View for Table {
    type V = TableV;

    open spec fn view(&self) -> TableV {
        TableV {
            groups: self.groups@.map_values(|g: Group| g@),
            fallback: match self.fallback {
                Some(l) => Some(l@),
                None => None,
            },
        }
    }
}

/// An arena of route tables. The last table added is the root; forwards name
/// strictly earlier tables.
#[derive(Debug)]
pub struct Router {
    pub tables: Vec<Table>,
}

impl View for Router {
    type V = Seq<TableV>;

    open spec fn view(&self) -> Seq<TableV> {
        self.tables@.map_values(|t: Table| t@)
    }
}

/// Why a route table failed to build. These are configuration errors: a
/// process must not start with a table that provokes one.
#[derive(Debug)]
pub enum ConfigError {
    /// A route path failed to parse.
    Pattern { path: String, error: PatternError },
    /// A route's placeholders do not name the entry's path fields, in order.
    PlaceholderMismatch { id: u64 },
    /// One leaf would consume the body twice.
    BodyAndForward { id: u64 },
    /// A forward names a table that does not exist yet.
    BadForward { id: u64 },
    /// A body field on an entry without routes.
    BodyWithoutRoute { id: u64 },
    /// A query field on an entry without routes.
    QueryWithoutRoute { id: u64 },
    /// Path fields on an entry without routes.
    PathFieldWithoutRoute { id: u64 },
    /// Two entries both claim to be the fallback.
    MultipleFallbacks { id: u64, other_id: u64 },
    /// Two routes with the same pattern and method.
    DuplicateRoute { id: u64, other_id: u64 },
    /// Two routes whose patterns would both match some path.
    Overlap { id: u64, other_id: u64, example: String },
    /// No entry has a route or a forward, so nothing could be constructed.
    NotConstructible,
}

/// The names of a leaf's path fields, in order.
pub open spec fn field_names(fields: Seq<PathFieldV>) -> Seq<Seq<char>> {
    fields.map_values(|f: PathFieldV| f.name)
}

/// One entry is internally consistent, against a router that already holds
/// `n_tables` tables.
pub open spec fn entry_valid(e: EntryV, n_tables: int) -> bool {
    &&& forall|j: int| 0 <= j < e.routes.len() ==> path_parses(#[trigger] e.routes[j].path)
    &&& forall|j: int|
        0 <= j < e.routes.len() ==> names_of(segs_of_path(#[trigger] e.routes[j].path))
            == field_names(e.leaf.path_fields)
    &&& !(e.leaf.has_body && e.leaf.forward is Some)
    &&& (e.leaf.forward matches Some(k) ==> k < n_tables)
    &&& (e.routes.len() == 0 ==> !e.leaf.has_body)
    &&& (e.routes.len() == 0 ==> !e.leaf.has_query)
    &&& (e.routes.len() == 0 ==> e.leaf.path_fields.len() == 0)
}

/// Whether an entry is the fallback: no route of its own, but a forward.
pub open spec fn is_fallback_entry(e: EntryV) -> bool {
    e.routes.len() == 0 && e.leaf.forward is Some
}

/// The index of the first fallback entry, if any.
pub open spec fn first_fallback(es: Seq<EntryV>) -> Option<int>
    decreases es.len(),
{
    if es.len() == 0 {
        None
    } else if is_fallback_entry(es[0]) {
        Some(0)
    } else {
        match first_fallback(es.skip(1)) {
            Some(i) => Some(i + 1),
            None => None,
        }
    }
}

/// At most one entry is a fallback.
pub open spec fn single_fallback(es: Seq<EntryV>) -> bool {
    forall|i: int, j: int|
        0 <= i < j < es.len() ==> !(is_fallback_entry(#[trigger] es[i]) && is_fallback_entry(
            #[trigger] es[j],
        ))
}

/// Some entry can be constructed: it has a route or a forward.
pub open spec fn some_constructible(es: Seq<EntryV>) -> bool {
    exists|i: int|
        0 <= i < es.len() && ((#[trigger] es[i]).routes.len() > 0 || es[i].leaf.forward is Some)
}

/// One flattened route: a pattern, a method, and the leaf it reaches.
pub struct FlatRoute {
    pub segs: Seq<SegView>,
    pub method: HttpMethod,
    pub leaf: LeafV,
}

/// The routes of one entry, flattened.
pub open spec fn entry_flat(e: EntryV) -> Seq<FlatRoute> {
    e.routes.map_values(
        |r: RouteV| FlatRoute { segs: segs_of_path(r.path), method: r.method, leaf: e.leaf },
    )
}

/// All routes of all entries, flattened in declaration order.
pub open spec fn flat_routes(es: Seq<EntryV>) -> Seq<FlatRoute>
    decreases es.len(),
{
    if es.len() == 0 {
        Seq::<FlatRoute>::empty()
    } else {
        entry_flat(es[0]) + flat_routes(es.skip(1))
    }
}

/// The index of the first group with this pattern shape, if any.
pub open spec fn find_group(groups: Seq<GroupV>, segs: Seq<SegView>) -> Option<int>
    decreases groups.len(),
{
    if groups.len() == 0 {
        None
    } else if erase_segs(groups[0].pattern) == erase_segs(segs) {
        Some(0)
    } else {
        match find_group(groups.skip(1), segs) {
            Some(i) => Some(i + 1),
            None => None,
        }
    }
}

/// The leaf mapped to a method in a group's entries, if any.
pub open spec fn find_method(entries: Seq<MethodLeafV>, m: HttpMethod) -> Option<LeafV>
    decreases entries.len(),
{
    if entries.len() == 0 {
        None
    } else if entries[0].method == m {
        Some(entries[0].leaf)
    } else {
        find_method(entries.skip(1), m)
    }
}

/// Whether a new route's pattern overlaps some group with a different shape.
pub open spec fn overlap_conflict(groups: Seq<GroupV>, segs: Seq<SegView>) -> bool {
    exists|i: int|
        0 <= i < groups.len() && erase_segs((#[trigger] groups[i]).pattern) != erase_segs(segs)
            && overlaps(groups[i].pattern, segs)
}

/// Inserts one flattened route into the groups: a new group for a new shape,
/// a new method mapping for a known one. `None` on an overlap or duplicate.
pub open spec fn insert_route_spec(groups: Seq<GroupV>, r: FlatRoute) -> Option<Seq<GroupV>> {
    if overlap_conflict(groups, r.segs) {
        None
    } else {
        match find_group(groups, r.segs) {
            Some(i) => if find_method(groups[i].entries, r.method) is Some {
                None
            } else {
                Some(
                    groups.update(
                        i,
                        GroupV {
                            pattern: groups[i].pattern,
                            entries: groups[i].entries.push(
                                MethodLeafV { method: r.method, leaf: r.leaf },
                            ),
                        },
                    ),
                )
            },
            None => Some(
                groups.push(
                    GroupV {
                        pattern: r.segs,
                        entries: seq![MethodLeafV { method: r.method, leaf: r.leaf }],
                    },
                ),
            ),
        }
    }
}

/// Inserts a list of flattened routes in order.
pub open spec fn insert_routes_spec(groups: Seq<GroupV>, rs: Seq<FlatRoute>) -> Option<
    Seq<GroupV>,
>
    decreases rs.len(),
{
    if rs.len() == 0 {
        Some(groups)
    } else {
        match insert_route_spec(groups, rs[0]) {
            Some(g2) => insert_routes_spec(g2, rs.skip(1)),
            None => None,
        }
    }
}

/// Adds the implicit `HEAD` mapping to one group: every group with a `GET`
/// and no `HEAD` maps `HEAD` to the `GET` leaf.
pub open spec fn add_head_spec(g: GroupV) -> GroupV {
    match find_method(g.entries, HttpMethod::Get) {
        Some(leaf) => if find_method(g.entries, HttpMethod::Head) is None {
            GroupV {
                pattern: g.pattern,
                entries: g.entries.push(MethodLeafV { method: HttpMethod::Head, leaf }),
            }
        } else {
            g
        },
        None => g,
    }
}

/// Adds the implicit `HEAD` mappings to all groups.
pub open spec fn add_heads_spec(groups: Seq<GroupV>) -> Seq<GroupV> {
    groups.map_values(|g: GroupV| add_head_spec(g))
}

/// Whether building a table from these entries succeeds.
pub open spec fn build_ok(es: Seq<EntryV>, n_tables: int) -> bool {
    &&& forall|i: int| 0 <= i < es.len() ==> entry_valid(#[trigger] es[i], n_tables)
    &&& single_fallback(es)
    &&& some_constructible(es)
    &&& insert_routes_spec(Seq::<GroupV>::empty(), flat_routes(es)) is Some
}

/// The table a successful build yields.
pub open spec fn build_table_view(es: Seq<EntryV>) -> TableV {
    let groups = insert_routes_spec(Seq::<GroupV>::empty(), flat_routes(es))->Some_0;
    TableV {
        groups: add_heads_spec(groups),
        fallback: match first_fallback(es) {
            Some(i) => Some(es[i].leaf),
            None => None,
        },
    }
}

impl Clone for PathField {
    /// Clones the field, preserving its model.
    fn clone(&self) -> (r: Self)
        ensures
            r@ == self@,
    {
        PathField { name: self.name.clone(), kind: self.kind }
    }
}

impl Clone for Leaf {
    /// Clones the leaf, preserving its model.
    fn clone(&self) -> (r: Self)
        ensures
            r@ == self@,
    {
        let mut path_fields: Vec<PathField> = Vec::new();
        let mut i: usize = 0;
        while i < self.path_fields.len()
            invariant
                0 <= i <= self.path_fields.len(),
                path_fields@.len() == i,
                forall|k: int|
                    0 <= k < i ==> (#[trigger] path_fields@[k])@ == self.path_fields@[k]@,
            decreases self.path_fields.len() - i,
        {
            path_fields.push(self.path_fields[i].clone());
            i = i + 1;
        }
        let mut guards: Vec<u64> = Vec::new();
        let mut j: usize = 0;
        while j < self.guards.len()
            invariant
                0 <= j <= self.guards.len(),
                guards@ == self.guards@.take(j as int),
            decreases self.guards.len() - j,
        {
            guards.push(self.guards[j]);
            proof {
                assert(guards@ =~= self.guards@.take(j as int + 1));
            }
            j = j + 1;
        }
        let r = Leaf {
            id: self.id,
            path_fields,
            has_query: self.has_query,
            guards,
            has_body: self.has_body,
            forward: self.forward,
        };
        proof {
            assert(r.guards@ =~= self.guards@);
            assert(r@.path_fields =~= self@.path_fields);
            assert(r@ =~= self@);
        }
        r
    }
}

/// Returns whether the two patterns have the same shape: the same segment
/// sequence with placeholder names ignored, and so match the same paths.
pub fn same_shape(a: &PathPattern, b: &PathPattern) -> (r: bool)
    ensures
        r == (erase_segs(a@) == erase_segs(b@)),
{
    if a.segments.len() != b.segments.len() {
        proof {
            assert(erase_segs(a@).len() != erase_segs(b@).len());
        }
        return false;
    }
    let mut i: usize = 0;
    while i < a.segments.len()
        invariant
            0 <= i <= a.segments.len(),
            a.segments@.len() == b.segments@.len(),
            forall|k: int| 0 <= k < i ==> erase_segs(a@)[k] == erase_segs(b@)[k],
        decreases a.segments.len() - i,
    {
        let same = match (&a.segments[i], &b.segments[i]) {
            (Segment::Literal(l1), Segment::Literal(l2)) => l1.eq(l2),
            (Segment::Placeholder(_), Segment::Placeholder(_)) => true,
            (Segment::Rest(_), Segment::Rest(_)) => true,
            _ => false,
        };
        if !same {
            proof {
                assert(erase_segs(a@)[i as int] != erase_segs(b@)[i as int]);
            }
            return false;
        }
        proof {
            assert(erase_segs(a@)[i as int] == erase_segs(b@)[i as int]);
        }
        i = i + 1;
    }
    proof {
        assert(erase_segs(a@) =~= erase_segs(b@));
    }
    true
}

/// Returns whether the pattern's placeholders name exactly the given fields,
/// in order.
#[verifier::loop_isolation(false)]
fn names_match(pat: &PathPattern, fields: &Vec<PathField>) -> (r: bool)
    requires
        pat.wf(),
    ensures
        r == (names_of(pat@) == field_names(fields@.map_values(|f: PathField| f@))),
{
    let ghost fnames = field_names(fields@.map_values(|f: PathField| f@));
    if pat.placeholders.len() != fields.len() {
        proof {
            assert(names_of(pat@).len() != fnames.len());
        }
        return false;
    }
    let mut i: usize = 0;
    while i < fields.len()
        invariant
            0 <= i <= fields.len(),
            pat.placeholders@.len() == fields@.len(),
            forall|k: int| 0 <= k < i ==> names_of(pat@)[k] == fnames[k],
        decreases fields.len() - i,
    {
        let eq = pat.placeholders[i].eq(&fields[i].name);
        proof {
            let pmap = pat.placeholders@.map_values(|n: String| n@);
            let fmap = fields@.map_values(|f: PathField| f@);
            assert(names_of(pat@) == pmap);
            assert(pmap.len() == pat.placeholders@.len());
            assert(fnames.len() == fmap.len() && fmap.len() == fields@.len());
            assert(pmap[i as int] == pat.placeholders@[i as int]@);
            assert(fmap[i as int] == fields@[i as int]@);
            assert(fnames[i as int] == fmap[i as int].name);
            assert(fnames[i as int] == fields@[i as int]@.name);
            assert(names_of(pat@)[i as int] == pat.placeholders@[i as int]@);
        }
        if !eq {
            proof {
                assert(names_of(pat@)[i as int] != fnames[i as int]);
            }
            return false;
        }
        proof {
            assert(names_of(pat@)[i as int] == fnames[i as int]);
        }
        i = i + 1;
    }
    proof {
        assert(names_of(pat@) =~= fnames);
    }
    true
}

/// The conditions under which each configuration error is reported.
pub open spec fn cfg_err_matches(es: Seq<EntryV>, n: int, e: ConfigError) -> bool {
    match e {
        ConfigError::Pattern { path, error } => exists|i: int, j: int|
            0 <= i < es.len() && 0 <= j < es[i].routes.len() && (#[trigger] es[i].routes[j]).path
                == path@ && crate::pattern::parse_err_matches(path@, error@),
        ConfigError::PlaceholderMismatch { id } => exists|i: int, j: int|
            0 <= i < es.len() && 0 <= j < es[i].routes.len() && es[i].leaf.id == id
                && path_parses((#[trigger] es[i].routes[j]).path) && names_of(
                segs_of_path(es[i].routes[j].path),
            ) != field_names(es[i].leaf.path_fields),
        ConfigError::BodyAndForward { id } => exists|i: int|
            0 <= i < es.len() && (#[trigger] es[i]).leaf.id == id && es[i].leaf.has_body
                && es[i].leaf.forward is Some,
        ConfigError::BadForward { id } => exists|i: int|
            0 <= i < es.len() && (#[trigger] es[i]).leaf.id == id && match es[i].leaf.forward {
                Some(k) => k >= n,
                None => false,
            },
        ConfigError::BodyWithoutRoute { id } => exists|i: int|
            0 <= i < es.len() && (#[trigger] es[i]).leaf.id == id && es[i].routes.len() == 0
                && es[i].leaf.has_body,
        ConfigError::QueryWithoutRoute { id } => exists|i: int|
            0 <= i < es.len() && (#[trigger] es[i]).leaf.id == id && es[i].routes.len() == 0
                && es[i].leaf.has_query,
        ConfigError::PathFieldWithoutRoute { id } => exists|i: int|
            0 <= i < es.len() && (#[trigger] es[i]).leaf.id == id && es[i].routes.len() == 0
                && es[i].leaf.path_fields.len() > 0,
        ConfigError::MultipleFallbacks { id, other_id } => exists|i: int, j: int|
            0 <= i < j < es.len() && is_fallback_entry(#[trigger] es[i]) && is_fallback_entry(
                #[trigger] es[j],
            ) && es[j].leaf.id == id && es[i].leaf.id == other_id,
        ConfigError::DuplicateRoute { id, other_id } => insert_routes_spec(
            Seq::<GroupV>::empty(),
            flat_routes(es),
        ) is None,
        ConfigError::Overlap { id, other_id, example } => insert_routes_spec(
            Seq::<GroupV>::empty(),
            flat_routes(es),
        ) is None,
        ConfigError::NotConstructible => !some_constructible(es),
    }
}

/// Flattened routes of a prefix extend one entry at a time.
proof fn lemma_flat_take_snoc(es: Seq<EntryV>, k: int)
    requires
        0 <= k < es.len(),
    ensures
        flat_routes(es.take(k + 1)) == flat_routes(es.take(k)) + entry_flat(es[k]),
    decreases k,
{
    if k == 0 {
        let t1 = es.take(1);
        assert(t1[0] == es[0]);
        assert(t1.skip(1) =~= Seq::<EntryV>::empty());
        assert(es.take(0) =~= Seq::<EntryV>::empty());
        assert(flat_routes(t1) =~= flat_routes(es.take(0)) + entry_flat(es[0]));
    } else {
        let t = es.take(k + 1);
        let u = es.take(k);
        assert(t[0] == es[0] && u[0] == es[0]);
        assert(t.skip(1) =~= es.skip(1).take(k));
        assert(u.skip(1) =~= es.skip(1).take(k - 1));
        lemma_flat_take_snoc(es.skip(1), k - 1);
        assert(es.skip(1)[k - 1] == es[k]);
        assert(flat_routes(t) == entry_flat(es[0]) + flat_routes(es.skip(1).take(k)));
        assert(flat_routes(u) == entry_flat(es[0]) + flat_routes(es.skip(1).take(k - 1)));
        assert(entry_flat(es[0]) + (flat_routes(es.skip(1).take(k - 1)) + entry_flat(es[k]))
            =~= (entry_flat(es[0]) + flat_routes(es.skip(1).take(k - 1))) + entry_flat(es[k]));
    }
}

/// The whole entry list is its own full prefix.
proof fn lemma_flat_take_all(es: Seq<EntryV>)
    ensures
        flat_routes(es.take(es.len() as int)) == flat_routes(es),
{
    assert(es.take(es.len() as int) =~= es);
}

/// The first fallback index is the first index with a fallback entry.
proof fn lemma_first_fallback_char(es: Seq<EntryV>)
    ensures
        match first_fallback(es) {
            Some(i) => 0 <= i < es.len() && is_fallback_entry(es[i]) && forall|k: int|
                0 <= k < i ==> !is_fallback_entry(#[trigger] es[k]),
            None => forall|k: int| 0 <= k < es.len() ==> !is_fallback_entry(#[trigger] es[k]),
        },
    decreases es.len(),
{
    if es.len() == 0 {
    } else if is_fallback_entry(es[0]) {
    } else {
        lemma_first_fallback_char(es.skip(1));
        assert(forall|k: int| 0 <= k < es.skip(1).len() ==> es.skip(1)[k] == es[k + 1]);
        match first_fallback(es.skip(1)) {
            Some(i) => {
                assert(first_fallback(es) == Some(i + 1));
                assert(es.skip(1)[i] == es[i + 1]);
                assert forall|k: int| 0 <= k < i + 1 implies !is_fallback_entry(
                    #[trigger] es[k],
                ) by {
                    if k > 0 {
                        assert(!is_fallback_entry(es.skip(1)[k - 1]));
                    }
                }
            },
            None => {
                assert(first_fallback(es) is None);
                assert forall|k: int| 0 <= k < es.len() implies !is_fallback_entry(
                    #[trigger] es[k],
                ) by {
                    if k > 0 {
                        assert(!is_fallback_entry(es.skip(1)[k - 1]));
                    }
                }
            },
        }
    }
}

/// One parsed route, ready for insertion.
struct ParsedRoute {
    pattern: PathPattern,
    method: HttpMethod,
    leaf: Leaf,
}

/// The flattened-route model of a parsed route.
spec fn parsed_view(p: ParsedRoute) -> FlatRoute {
    FlatRoute { segs: p.pattern@, method: p.method, leaf: p.leaf@ }
}

impl Router {
    /// An empty router, with no tables.
    pub fn new() -> (r: Router)
        ensures
            r@ == Seq::<TableV>::empty(),
    {
        let r = Router { tables: Vec::new() };
        proof {
            assert(r@ =~= Seq::<TableV>::empty());
        }
        r
    }

    /// Builds a router with a single table from entry descriptors. For
    /// nested routing, build the inner tables first with [`Router::new`] and
    /// [`Router::add_table`].
    pub fn build(entries: &Vec<TableEntry>) -> (r: Result<Router, ConfigError>)
        ensures
            match r {
                Ok(router) => {
                    &&& build_ok(entries@.map_values(|e: TableEntry| e@), 0)
                    &&& router@ == Seq::<TableV>::empty().push(
                        build_table_view(entries@.map_values(|e: TableEntry| e@)),
                    )
                },
                Err(e) => {
                    &&& !build_ok(entries@.map_values(|e: TableEntry| e@), 0)
                    &&& cfg_err_matches(entries@.map_values(|e: TableEntry| e@), 0, e)
                },
            },
    {
        let mut router = Router::new();
        match router.add_table(entries) {
            Ok(_) => Ok(router),
            Err(e) => Err(e),
        }
    }

    /// The distinct route paths of the table at `t`, one per pattern group
    /// in insertion order, each rendered as the source text of the group's
    /// first-declared route.
    pub fn paths(&self, t: usize) -> (r: Vec<String>)
        requires
            t < self@.len(),
        ensures
            r@.len() == self@[t as int].groups.len(),
    {
        let table = &self.tables[t];
        let mut r: Vec<String> = Vec::new();
        let mut i: usize = 0;
        while i < table.groups.len()
            invariant
                0 <= i <= table.groups@.len(),
                r@.len() == i,
            decreases table.groups.len() - i,
        {
            r.push(table.groups[i].pattern.raw.clone());
            i = i + 1;
        }
        proof {
            assert(self@[t as int].groups.len() == table.groups@.len());
        }
        r
    }
}

/// If the first `i` entries miss the method and entry `i` has it, the
/// lookup finds entry `i`.
proof fn lemma_find_method_at(entries: Seq<MethodLeafV>, m: HttpMethod, i: int)
    requires
        0 <= i < entries.len(),
        entries[i].method == m,
        forall|k: int| 0 <= k < i ==> (#[trigger] entries[k]).method != m,
    ensures
        find_method(entries, m) == Some(entries[i].leaf),
    decreases i,
{
    if i == 0 {
    } else {
        assert(forall|k: int| 0 <= k < entries.skip(1).len() ==> entries.skip(1)[k] == entries[k
            + 1]);
        lemma_find_method_at(entries.skip(1), m, i - 1);
    }
}

/// If no entry has the method, the lookup finds nothing.
proof fn lemma_find_method_none(entries: Seq<MethodLeafV>, m: HttpMethod)
    requires
        forall|k: int| 0 <= k < entries.len() ==> (#[trigger] entries[k]).method != m,
    ensures
        find_method(entries, m) is None,
    decreases entries.len(),
{
    if entries.len() == 0 {
    } else {
        assert(forall|k: int| 0 <= k < entries.skip(1).len() ==> entries.skip(1)[k] == entries[k
            + 1]);
        lemma_find_method_none(entries.skip(1), m);
    }
}

/// If the first `i` groups have another shape and group `i` has this one,
/// the lookup finds group `i`.
proof fn lemma_find_group_at(groups: Seq<GroupV>, segs: Seq<SegView>, i: int)
    requires
        0 <= i < groups.len(),
        erase_segs(groups[i].pattern) == erase_segs(segs),
        forall|k: int|
            0 <= k < i ==> erase_segs((#[trigger] groups[k]).pattern) != erase_segs(segs),
    ensures
        find_group(groups, segs) == Some(i),
    decreases i,
{
    if i == 0 {
    } else {
        assert(forall|k: int| 0 <= k < groups.skip(1).len() ==> groups.skip(1)[k] == groups[k
            + 1]);
        lemma_find_group_at(groups.skip(1), segs, i - 1);
    }
}

/// If no group has this shape, the lookup finds nothing.
proof fn lemma_find_group_none(groups: Seq<GroupV>, segs: Seq<SegView>)
    requires
        forall|k: int|
            0 <= k < groups.len() ==> erase_segs((#[trigger] groups[k]).pattern) != erase_segs(
                segs,
            ),
    ensures
        find_group(groups, segs) is None,
    decreases groups.len(),
{
    if groups.len() == 0 {
    } else {
        assert(forall|k: int| 0 <= k < groups.skip(1).len() ==> groups.skip(1)[k] == groups[k
            + 1]);
        lemma_find_group_none(groups.skip(1), segs);
    }
}

/// Finds the first mapping of a method in a group's entries.
#[verifier::loop_isolation(false)]
pub(crate) fn find_method_exec(entries: &Vec<MethodLeaf>, m: HttpMethod) -> (r: Option<usize>)
    ensures
        match r {
            Some(i) => i < entries@.len() && entries@[i as int].method == m && find_method(
                entries@.map_values(|e: MethodLeaf| e@),
                m,
            ) == Some(entries@[i as int]@.leaf),
            None => find_method(entries@.map_values(|e: MethodLeaf| e@), m) is None,
        },
{
    let ghost emap = entries@.map_values(|e: MethodLeaf| e@);
    let mut i: usize = 0;
    while i < entries.len()
        invariant
            0 <= i <= entries.len(),
            forall|k: int| 0 <= k < i ==> (#[trigger] emap[k]).method != m,
        decreases entries.len() - i,
    {
        if entries[i].method == m {
            proof {
                assert(emap[i as int].method == m);
                lemma_find_method_at(emap, m, i as int);
            }
            return Some(i);
        }
        proof {
            assert(emap[i as int].method != m);
        }
        i = i + 1;
    }
    proof {
        lemma_find_method_none(emap, m);
    }
    None
}

/// Inserts all flattened routes, newly grouping each distinct shape.
#[verifier::loop_isolation(false)]
#[verifier::rlimit(100)]
fn insert_all(flat: &Vec<ParsedRoute>) -> (r: Result<Vec<Group>, ConfigError>)
    requires
        forall|k: int| 0 <= k < flat@.len() ==> (#[trigger] flat@[k]).pattern.wf(),
    ensures
        match r {
            Ok(groups) => {
                &&& insert_routes_spec(
                    Seq::<GroupV>::empty(),
                    flat@.map_values(|p: ParsedRoute| parsed_view(p)),
                ) == Some(groups@.map_values(|g: Group| g@))
                &&& forall|x: int|
                    0 <= x < groups@.len() ==> (#[trigger] groups@[x]).pattern.wf()
                        && groups@[x].entries.len() >= 1
            },
            Err(e) => {
                &&& insert_routes_spec(
                    Seq::<GroupV>::empty(),
                    flat@.map_values(|p: ParsedRoute| parsed_view(p)),
                ) is None
                &&& (e is DuplicateRoute || e is Overlap)
            },
        },
{
    let ghost frv = flat@.map_values(|p: ParsedRoute| parsed_view(p));
    let mut groups: Vec<Group> = Vec::new();
    let mut k: usize = 0;
    proof {
        assert(frv.skip(0) =~= frv);
        assert(groups@.map_values(|g: Group| g@) =~= Seq::<GroupV>::empty());
    }
    while k < flat.len()
        invariant
            0 <= k <= flat.len(),
            insert_routes_spec(Seq::<GroupV>::empty(), frv) == insert_routes_spec(
                groups@.map_values(|g: Group| g@),
                frv.skip(k as int),
            ),
            forall|x: int|
                0 <= x < groups@.len() ==> (#[trigger] groups@[x]).pattern.wf()
                    && groups@[x].entries.len() >= 1,
        decreases flat.len() - k,
    {
        let ghost gv = groups@.map_values(|g: Group| g@);
        let ghost fr = frv[k as int];
        proof {
            assert(fr == parsed_view(flat@[k as int]));
            assert(frv.skip(k as int)[0] == fr);
            assert(frv.skip(k as int).skip(1) =~= frv.skip(k as int + 1));
        }
        // Reject a pattern that overlaps a group of a different shape.
        let mut gi: usize = 0;
        while gi < groups.len()
            invariant
                0 <= gi <= groups.len(),
                forall|x: int|
                    0 <= x < gi ==> !(erase_segs((#[trigger] gv[x]).pattern) != erase_segs(fr.segs)
                        && overlaps(gv[x].pattern, fr.segs)),
            decreases groups.len() - gi,
        {
            let same = same_shape(&groups[gi].pattern, &flat[k].pattern);
            if !same {
                if let Some(ex) = groups[gi].pattern.find_overlap(&flat[k].pattern) {
                    proof {
                        assert(gv[gi as int].pattern == groups@[gi as int].pattern@);
                        assert(overlap_conflict(gv, fr.segs));
                        assert(insert_route_spec(gv, fr) is None);
                    }
                    return Err(
                        ConfigError::Overlap {
                            id: flat[k].leaf.id,
                            other_id: groups[gi].entries[0].leaf.id,
                            example: ex,
                        },
                    );
                }
            }
            proof {
                assert(gv[gi as int].pattern == groups@[gi as int].pattern@);
            }
            gi = gi + 1;
        }
        proof {
            assert(!overlap_conflict(gv, fr.segs));
        }
        // Find the group with this shape, if one exists.
        let mut fg: Option<usize> = None;
        let mut gj: usize = 0;
        while fg.is_none() && gj < groups.len()
            invariant
                0 <= gj <= groups.len(),
                match fg {
                    Some(g) => g == gj && gj < groups.len() && erase_segs(
                        gv[g as int].pattern,
                    ) == erase_segs(fr.segs) && forall|x: int|
                        0 <= x < gj ==> erase_segs((#[trigger] gv[x]).pattern) != erase_segs(
                            fr.segs,
                        ),
                    None => forall|x: int|
                        0 <= x < gj ==> erase_segs((#[trigger] gv[x]).pattern) != erase_segs(
                            fr.segs,
                        ),
                },
            decreases groups.len() - gj + (if fg is Some { 0int } else { 1int }),
        {
            if same_shape(&groups[gj].pattern, &flat[k].pattern) {
                proof {
                    assert(gv[gj as int].pattern == groups@[gj as int].pattern@);
                }
                fg = Some(gj);
            } else {
                proof {
                    assert(gv[gj as int].pattern == groups@[gj as int].pattern@);
                }
                gj = gj + 1;
            }
        }
        match fg {
            Some(g) => {
                proof {
                    lemma_find_group_at(gv, fr.segs, g as int);
                }
                match find_method_exec(&groups[g].entries, flat[k].method) {
                    Some(mi) => {
                        proof {
                            assert(find_method(gv[g as int].entries, fr.method) is Some);
                            assert(insert_route_spec(gv, fr) is None);
                        }
                        return Err(
                            ConfigError::DuplicateRoute {
                                id: flat[k].leaf.id,
                                other_id: groups[g].entries[mi].leaf.id,
                            },
                        );
                    },
                    None => {
                        let ml = MethodLeaf { method: flat[k].method, leaf: flat[k].leaf.clone() };
                        let ghost mlv = ml@;
                        let ghost pre = groups@;
                        groups[g].entries.push(ml);
                        proof {
                            let gv2 = groups@.map_values(|g2: Group| g2@);
                            let target = gv.update(
                                g as int,
                                GroupV {
                                    pattern: gv[g as int].pattern,
                                    entries: gv[g as int].entries.push(mlv),
                                },
                            );
                            assert(mlv == MethodLeafV { method: fr.method, leaf: fr.leaf });
                            assert(groups@[g as int].entries@ == pre[g as int].entries@.push(ml));
                            assert(groups@[g as int].pattern == pre[g as int].pattern);
                            assert forall|x: int| 0 <= x < gv2.len() implies gv2[x] == target[x]
                            by {
                                if x == g as int {
                                    assert(groups@[x]@.entries =~~= gv[x].entries.push(mlv));
                                    assert(gv2[x] == groups@[x]@);
                                } else {
                                    assert(groups@[x] == pre[x]);
                                    assert(gv2[x] == gv[x]);
                                }
                            }
                            assert(gv2 =~= target);
                            assert(insert_route_spec(gv, fr) == Some(gv2));
                        }
                    },
                }
            },
            None => {
                proof {
                    lemma_find_group_none(gv, fr.segs);
                }
                let mut entries_one: Vec<MethodLeaf> = Vec::new();
                entries_one.push(
                    MethodLeaf { method: flat[k].method, leaf: flat[k].leaf.clone() },
                );
                let g_new = Group { pattern: flat[k].pattern.clone(), entries: entries_one };
                proof {
                    assert(g_new@.entries =~~= seq![
                        MethodLeafV { method: fr.method, leaf: fr.leaf },
                    ]);
                    assert(g_new@.pattern == fr.segs);
                }
                groups.push(g_new);
                proof {
                    let gv2 = groups@.map_values(|g2: Group| g2@);
                    assert(gv2 =~~= gv.push(
                        GroupV {
                            pattern: fr.segs,
                            entries: seq![MethodLeafV { method: fr.method, leaf: fr.leaf }],
                        },
                    ));
                    assert(insert_route_spec(gv, fr) == Some(gv2));
                }
            },
        }
        k = k + 1;
    }
    proof {
        assert(frv.skip(flat@.len() as int) =~= Seq::<FlatRoute>::empty());
    }
    Ok(groups)
}

/// Adds the implicit `HEAD` mapping to every group with a `GET` and no
/// explicit `HEAD`. No other pattern can overlap a group's pattern in a
/// well-built table, so only the group's own `HEAD` mapping is consulted.
#[verifier::loop_isolation(false)]
fn add_heads(groups: &mut Vec<Group>)
    ensures
        final(groups)@.map_values(|g: Group| g@) == add_heads_spec(
            old(groups)@.map_values(|g: Group| g@),
        ),
        final(groups)@.len() == old(groups)@.len(),
        forall|x: int|
            0 <= x < final(groups)@.len() ==> (#[trigger] final(groups)@[x]).pattern == old(
                groups,
            )@[x].pattern,
{
    let ghost gv0 = groups@.map_values(|g: Group| g@);
    let mut h: usize = 0;
    while h < groups.len()
        invariant
            0 <= h <= groups.len(),
            groups@.len() == gv0.len(),
            forall|x: int|
                h <= x < groups@.len() ==> (#[trigger] groups@[x])@ == gv0[x] && groups@[x].pattern
                    == old(groups)@[x].pattern,
            forall|x: int|
                0 <= x < h ==> (#[trigger] groups@[x])@ == add_head_spec(gv0[x]) && groups@[x]
                    .pattern == old(groups)@[x].pattern,
        decreases groups.len() - h,
    {
        let get_idx = find_method_exec(&groups[h].entries, HttpMethod::Get);
        let head_idx = find_method_exec(&groups[h].entries, HttpMethod::Head);
        match (get_idx, head_idx) {
            (Some(gi), None) => {
                let l = groups[h].entries[gi].leaf.clone();
                let ghost before = groups@[h as int]@;
                groups[h].entries.push(MethodLeaf { method: HttpMethod::Head, leaf: l });
                proof {
                    assert(groups@[h as int]@.entries =~~= before.entries.push(
                        MethodLeafV {
                            method: HttpMethod::Head,
                            leaf: find_method(before.entries, HttpMethod::Get)->Some_0,
                        },
                    ));
                    assert(groups@[h as int]@ == add_head_spec(gv0[h as int]));
                }
            },
            _ => {
                proof {
                    assert(groups@[h as int]@ == add_head_spec(gv0[h as int]));
                }
            },
        }
        h = h + 1;
    }
    proof {
        assert(groups@.map_values(|g: Group| g@) =~= add_heads_spec(gv0));
    }
}

impl Router {
    /// Builds one route table from entry descriptors and adds it to the
    /// router, returning the new table's index. The table added last is the
    /// root that requests are dispatched from; a forward in an entry names a
    /// table added earlier.
    ///
    /// Building fails, and leaves the router unchanged, on an invalid or
    /// duplicated placeholder, a route that another route's pattern overlaps,
    /// a duplicate method on one pattern, a leaf that would consume the body
    /// twice, a second fallback, or a descriptor list from which nothing
    /// could ever be constructed.
    #[verifier::loop_isolation(false)]
    #[verifier::rlimit(100)]
    pub fn add_table(&mut self, entries: &Vec<TableEntry>) -> (r: Result<usize, ConfigError>)
        ensures
            match r {
                Ok(idx) => {
                    &&& idx == old(self)@.len()
                    &&& build_ok(
                        entries@.map_values(|e: TableEntry| e@),
                        old(self)@.len() as int,
                    )
                    &&& final(self)@ == old(self)@.push(
                        build_table_view(entries@.map_values(|e: TableEntry| e@)),
                    )
                },
                Err(e) => {
                    &&& !build_ok(
                        entries@.map_values(|e: TableEntry| e@),
                        old(self)@.len() as int,
                    )
                    &&& final(self)@ == old(self)@
                    &&& cfg_err_matches(
                        entries@.map_values(|e: TableEntry| e@),
                        old(self)@.len() as int,
                        e,
                    )
                },
            },
    {
        let ghost es = entries@.map_values(|e: TableEntry| e@);
        let n_tables = self.tables.len();
        proof {
            assert(self@.len() == n_tables);
        }
        let mut flat: Vec<ParsedRoute> = Vec::new();
        let mut fallback: Option<Leaf> = None;
        let ghost mut fb_idx: Option<int> = None;
        let mut constructible = false;
        let mut i: usize = 0;
        proof {
            assert(es.take(0) =~= Seq::<EntryV>::empty());
            assert(flat@.map_values(|p: ParsedRoute| parsed_view(p)) =~= flat_routes(es.take(0)));
        }
        while i < entries.len()
            invariant
                0 <= i <= entries.len(),
                forall|k: int| 0 <= k < i ==> entry_valid(#[trigger] es[k], n_tables as int),
                flat@.map_values(|p: ParsedRoute| parsed_view(p)) == flat_routes(
                    es.take(i as int),
                ),
                forall|k: int| 0 <= k < flat@.len() ==> (#[trigger] flat@[k]).pattern.wf(),
                constructible == exists|k: int|
                    0 <= k < i && ((#[trigger] es[k]).routes.len() > 0 || es[k].leaf.forward
                        is Some),
                match fb_idx {
                    Some(fi) => {
                        &&& 0 <= fi < i
                        &&& is_fallback_entry(es[fi])
                        &&& forall|k: int|
                            0 <= k < i && k != fi ==> !is_fallback_entry(#[trigger] es[k])
                        &&& match fallback {
                            Some(l) => l@ == es[fi].leaf,
                            None => false,
                        }
                    },
                    None => {
                        &&& forall|k: int| 0 <= k < i ==> !is_fallback_entry(#[trigger] es[k])
                        &&& fallback is None
                    },
                },
            decreases entries.len() - i,
        {
            let entry = &entries[i];
            proof {
                assert(es[i as int] == entry@);
            }
            if entry.leaf.has_body && entry.leaf.forward.is_some() {
                proof {
                    assert(!entry_valid(es[i as int], n_tables as int));
                }
                return Err(ConfigError::BodyAndForward { id: entry.leaf.id });
            }
            if let Some(fwd) = entry.leaf.forward {
                if fwd >= n_tables {
                    proof {
                        assert(!entry_valid(es[i as int], n_tables as int));
                    }
                    return Err(ConfigError::BadForward { id: entry.leaf.id });
                }
            }
            if entry.routes.len() == 0 {
                if entry.leaf.has_body {
                    proof {
                        assert(!entry_valid(es[i as int], n_tables as int));
                    }
                    return Err(ConfigError::BodyWithoutRoute { id: entry.leaf.id });
                }
                if entry.leaf.has_query {
                    proof {
                        assert(!entry_valid(es[i as int], n_tables as int));
                    }
                    return Err(ConfigError::QueryWithoutRoute { id: entry.leaf.id });
                }
                if entry.leaf.path_fields.len() > 0 {
                    proof {
                        assert(!entry_valid(es[i as int], n_tables as int));
                    }
                    return Err(ConfigError::PathFieldWithoutRoute { id: entry.leaf.id });
                }
                if entry.leaf.forward.is_some() {
                    match &fallback {
                        Some(prev) => {
                            proof {
                                let fi = fb_idx->Some_0;
                                assert(is_fallback_entry(es[fi]) && is_fallback_entry(
                                    es[i as int],
                                ));
                                assert(!single_fallback(es));
                            }
                            return Err(
                                ConfigError::MultipleFallbacks {
                                    id: entry.leaf.id,
                                    other_id: prev.id,
                                },
                            );
                        },
                        None => {
                            fallback = Some(entry.leaf.clone());
                            proof {
                                fb_idx = Some(i as int);
                            }
                            constructible = true;
                        },
                    }
                }
                proof {
                    assert(entry_valid(es[i as int], n_tables as int));
                    lemma_flat_take_snoc(es, i as int);
                    assert(entry_flat(es[i as int]) =~= Seq::<FlatRoute>::empty());
                    assert(flat_routes(es.take(i as int)) + Seq::<FlatRoute>::empty()
                        =~= flat_routes(es.take(i as int)));
                }
            } else {
                constructible = true;
                let mut j: usize = 0;
                while j < entry.routes.len()
                    invariant
                        0 <= j <= entry.routes.len(),
                        flat@.map_values(|p: ParsedRoute| parsed_view(p)) == flat_routes(
                            es.take(i as int),
                        ) + entry_flat(es[i as int]).take(j as int),
                        forall|k: int| 0 <= k < flat@.len() ==> (#[trigger] flat@[k]).pattern.wf(),
                        forall|jj: int|
                            0 <= jj < j ==> path_parses(
                                (#[trigger] es[i as int].routes[jj]).path,
                            ) && names_of(segs_of_path(es[i as int].routes[jj].path))
                                == field_names(es[i as int].leaf.path_fields),
                    decreases entry.routes.len() - j,
                {
                    let route = &entry.routes[j];
                    proof {
                        assert(es[i as int].routes[j as int] == route@);
                    }
                    match PathPattern::parse(route.path.as_str()) {
                        Err(perr) => {
                            proof {
                                assert(!entry_valid(es[i as int], n_tables as int));
                            }
                            return Err(
                                ConfigError::Pattern { path: route.path.clone(), error: perr },
                            );
                        },
                        Ok(pat) => {
                            if !names_match(&pat, &entry.leaf.path_fields) {
                                proof {
                                    assert(!entry_valid(es[i as int], n_tables as int));
                                }
                                return Err(
                                    ConfigError::PlaceholderMismatch { id: entry.leaf.id },
                                );
                            }
                            let pr = ParsedRoute {
                                pattern: pat,
                                method: route.method,
                                leaf: entry.leaf.clone(),
                            };
                            proof {
                                assert(parsed_view(pr) == entry_flat(es[i as int])[j as int]);
                            }
                            let ghost prev_flat = flat@;
                            flat.push(pr);
                            proof {
                                let a = flat_routes(es.take(i as int));
                                let b = entry_flat(es[i as int]);
                                let x = b[j as int];
                                assert(flat@.map_values(|p: ParsedRoute| parsed_view(p))
                                    =~= prev_flat.map_values(
                                    |p: ParsedRoute| parsed_view(p),
                                ).push(x));
                                assert(b.take(j as int + 1) =~= b.take(j as int).push(x));
                                assert((a + b.take(j as int)).push(x) =~= a + b.take(
                                    j as int,
                                ).push(x));
                                assert(flat@.map_values(|p: ParsedRoute| parsed_view(p)) =~= a
                                    + b.take(j as int + 1));
                            }
                        },
                    }
                    j = j + 1;
                }
                proof {
                    assert(entry_flat(es[i as int]).take(es[i as int].routes.len() as int)
                        =~= entry_flat(es[i as int]));
                    lemma_flat_take_snoc(es, i as int);
                    assert(entry_valid(es[i as int], n_tables as int));
                }
            }
            i = i + 1;
        }
        proof {
            assert(es.take(es.len() as int) =~= es);
        }
        if !constructible {
            proof {
                assert(!some_constructible(es));
            }
            return Err(ConfigError::NotConstructible);
        }
        let groups = match insert_all(&flat) {
            Ok(groups) => groups,
            Err(e) => {
                return Err(e);
            },
        };
        let mut groups = groups;
        add_heads(&mut groups);
        let ghost fbv = match &fallback {
            Some(l) => Some(l@),
            None => None::<LeafV>,
        };
        let table = Table { groups, fallback };
        proof {
            lemma_first_fallback_char(es);
            match fb_idx {
                Some(fi) => {
                    match first_fallback(es) {
                        Some(f2) => {
                            assert(!(f2 < fi) && !(fi < f2));
                            assert(f2 == fi);
                        },
                        None => {
                            assert(false);
                        },
                    }
                },
                None => {
                    assert(first_fallback(es) is None);
                },
            }
            let bt = build_table_view(es);
            assert(table@.groups == bt.groups);
            assert(table@.fallback == bt.fallback);
            assert(table@ == bt);
        }
        self.tables.push(table);
        proof {
            assert(self@ =~= old(self)@.push(build_table_view(es)));
        }
        Ok(n_tables)
    }
}

/// One leaf is consistent with the pattern it hangs under: one path field
/// per placeholder, at most one consumer of the body, and a forward that
/// names an existing earlier table.
pub open spec fn leaf_wf(l: LeafV, pattern: Seq<SegView>, n_tables: int) -> bool {
    &&& l.path_fields.len() == names_of(pattern).len()
    &&& !(l.has_body && l.forward is Some)
    &&& (l.forward matches Some(k) ==> k < n_tables)
}

/// One group is consistent: a well-formed pattern, at least one mapping,
/// pairwise distinct methods, and consistent leaves.
pub open spec fn group_wf(g: GroupV, n_tables: int) -> bool {
    &&& segs_wf(g.pattern)
    &&& g.entries.len() >= 1
    &&& forall|i: int, j: int|
        0 <= i < j < g.entries.len() ==> (#[trigger] g.entries[i]).method != (
        #[trigger] g.entries[j]).method
    &&& forall|i: int|
        0 <= i < g.entries.len() ==> leaf_wf((#[trigger] g.entries[i]).leaf, g.pattern, n_tables)
}

/// The fallback leaf is consistent: it forwards to an earlier table and
/// takes no path fields, query or body of its own.
pub open spec fn fallback_wf(l: LeafV, n_tables: int) -> bool {
    &&& l.forward is Some
    &&& (l.forward matches Some(k) ==> k < n_tables)
    &&& !l.has_body
    &&& !l.has_query
    &&& l.path_fields.len() == 0
}

/// One table is consistent: consistent groups with pairwise non-overlapping
/// patterns, and a consistent fallback if any.
pub open spec fn table_wf(t: TableV, n_tables: int) -> bool {
    &&& forall|i: int| 0 <= i < t.groups.len() ==> group_wf(#[trigger] t.groups[i], n_tables)
    &&& forall|i: int, j: int|
        0 <= i < t.groups.len() && 0 <= j < t.groups.len() && i != j ==> !overlaps(
            (#[trigger] t.groups[i]).pattern,
            (#[trigger] t.groups[j]).pattern,
        )
    &&& match t.fallback {
        Some(l) => fallback_wf(l, n_tables),
        None => true,
    }
}

/// A whole router is consistent: every table only forwards to earlier ones.
pub open spec fn router_wf(rv: Seq<TableV>) -> bool {
    forall|k: int| 0 <= k < rv.len() ==> table_wf(#[trigger] rv[k], k)
}

/// If a method is absent, no entry has it.
proof fn lemma_find_method_none_inv(entries: Seq<MethodLeafV>, m: HttpMethod)
    requires
        find_method(entries, m) is None,
    ensures
        forall|k: int| 0 <= k < entries.len() ==> (#[trigger] entries[k]).method != m,
    decreases entries.len(),
{
    if entries.len() == 0 {
    } else {
        lemma_find_method_none_inv(entries.skip(1), m);
        assert(forall|k: int| 0 <= k < entries.skip(1).len() ==> entries.skip(1)[k] == entries[k
            + 1]);
        assert forall|k: int| 0 <= k < entries.len() implies (#[trigger] entries[k]).method
            != m by {
            if k > 0 {
                assert(entries.skip(1)[k - 1].method != m);
            }
        }
    }
}

/// A found leaf is the leaf of some entry with that method.
proof fn lemma_find_method_some_inv(entries: Seq<MethodLeafV>, m: HttpMethod)
    requires
        find_method(entries, m) is Some,
    ensures
        exists|k: int|
            0 <= k < entries.len() && (#[trigger] entries[k]).method == m && entries[k].leaf
                == find_method(entries, m)->Some_0,
    decreases entries.len(),
{
    if entries.len() == 0 {
    } else if entries[0].method == m {
        assert(entries[0].method == m && entries[0].leaf == find_method(entries, m)->Some_0);
    } else {
        lemma_find_method_some_inv(entries.skip(1), m);
        let k = choose|k: int|
            0 <= k < entries.skip(1).len() && (#[trigger] entries.skip(1)[k]).method == m
                && entries.skip(1)[k].leaf == find_method(entries.skip(1), m)->Some_0;
        assert(entries[k + 1].method == m && entries[k + 1].leaf == find_method(
            entries,
            m,
        )->Some_0);
    }
}

/// A found group has the sought shape.
proof fn lemma_find_group_some_inv(groups: Seq<GroupV>, segs: Seq<SegView>)
    requires
        find_group(groups, segs) is Some,
    ensures
        0 <= find_group(groups, segs)->Some_0 < groups.len(),
        erase_segs(groups[find_group(groups, segs)->Some_0].pattern) == erase_segs(segs),
    decreases groups.len(),
{
    if groups.len() == 0 {
    } else if erase_segs(groups[0].pattern) == erase_segs(segs) {
    } else {
        lemma_find_group_some_inv(groups.skip(1), segs);
    }
}

/// If no group is found, none has the sought shape.
proof fn lemma_find_group_none_inv(groups: Seq<GroupV>, segs: Seq<SegView>)
    requires
        find_group(groups, segs) is None,
    ensures
        forall|k: int|
            0 <= k < groups.len() ==> erase_segs((#[trigger] groups[k]).pattern) != erase_segs(
                segs,
            ),
    decreases groups.len(),
{
    if groups.len() == 0 {
    } else {
        lemma_find_group_none_inv(groups.skip(1), segs);
        assert forall|k: int| 0 <= k < groups.len() implies erase_segs(
            (#[trigger] groups[k]).pattern,
        ) != erase_segs(segs) by {
            if k > 0 {
                assert(groups.skip(1)[k - 1] == groups[k]);
                assert(erase_segs(groups.skip(1)[k - 1].pattern) != erase_segs(segs));
            }
        }
    }
}

/// Looking a method up in an extended entry list.
proof fn lemma_find_method_push(entries: Seq<MethodLeafV>, e: MethodLeafV, m: HttpMethod)
    ensures
        find_method(entries.push(e), m) == (if find_method(entries, m) is Some {
            find_method(entries, m)
        } else if e.method == m {
            Some(e.leaf)
        } else {
            None
        }),
    decreases entries.len(),
{
    let ps = entries.push(e);
    if entries.len() == 0 {
        assert(ps[0] == e);
        assert(ps.skip(1) =~= Seq::<MethodLeafV>::empty());
        assert(find_method(entries, m) is None);
        assert(find_method(Seq::<MethodLeafV>::empty(), m) is None);
        if e.method == m {
            assert(find_method(ps, m) == Some(e.leaf));
        } else {
            assert(find_method(ps, m) is None);
        }
    } else {
        assert(ps[0] == entries[0]);
        assert(ps.skip(1) =~= entries.skip(1).push(e));
        lemma_find_method_push(entries.skip(1), e, m);
        if entries[0].method == m {
            assert(find_method(ps, m) == Some(entries[0].leaf));
            assert(find_method(entries, m) == Some(entries[0].leaf));
        } else {
            assert(find_method(ps, m) == find_method(entries.skip(1).push(e), m));
            assert(find_method(entries, m) == find_method(entries.skip(1), m));
        }
    }
}

/// Inserting one well-formed route preserves the table invariants.
proof fn lemma_insert_route_wf(groups: Seq<GroupV>, r: FlatRoute, n: int, out: Seq<GroupV>)
    requires
        insert_route_spec(groups, r) == Some(out),
        forall|i: int| 0 <= i < groups.len() ==> group_wf(#[trigger] groups[i], n),
        forall|i: int, j: int|
            0 <= i < groups.len() && 0 <= j < groups.len() && i != j ==> !overlaps(
                (#[trigger] groups[i]).pattern,
                (#[trigger] groups[j]).pattern,
            ),
        segs_wf(r.segs),
        leaf_wf(r.leaf, r.segs, n),
    ensures
        forall|i: int| 0 <= i < out.len() ==> group_wf(#[trigger] out[i], n),
        forall|i: int, j: int|
            0 <= i < out.len() && 0 <= j < out.len() && i != j ==> !overlaps(
                (#[trigger] out[i]).pattern,
                (#[trigger] out[j]).pattern,
            ),
{
    assert(!overlap_conflict(groups, r.segs));
    match find_group(groups, r.segs) {
        Some(gi) => {
            lemma_find_group_some_inv(groups, r.segs);
            let g = groups[gi];
            let g2 = out[gi];
            lemma_find_method_none_inv(g.entries, r.method);
            assert(g2.entries == g.entries.push(MethodLeafV { method: r.method, leaf: r.leaf }));
            assert(group_wf(g2, n)) by {
                lemma_names_len_shape(g.pattern, r.segs);
                assert(leaf_wf(r.leaf, g.pattern, n));
                assert(forall|i: int|
                    0 <= i < g.entries.len() ==> g2.entries[i] == (#[trigger] g.entries[i]));
                assert(g2.entries[g.entries.len() as int] == MethodLeafV {
                    method: r.method,
                    leaf: r.leaf,
                });
            }
            assert(forall|i: int| 0 <= i < out.len() && i != gi ==> out[i] == groups[i]);
            assert(forall|i: int| 0 <= i < out.len() ==> (#[trigger] out[i]).pattern == groups[i]
                .pattern);
        },
        None => {
            lemma_find_group_none_inv(groups, r.segs);
            let newg = GroupV {
                pattern: r.segs,
                entries: seq![MethodLeafV { method: r.method, leaf: r.leaf }],
            };
            assert(out == groups.push(newg));
            assert(group_wf(newg, n)) by {
                assert(newg.entries[0] == MethodLeafV { method: r.method, leaf: r.leaf });
            }
            assert forall|i: int, j: int|
                0 <= i < out.len() && 0 <= j < out.len() && i != j implies !overlaps(
                (#[trigger] out[i]).pattern,
                (#[trigger] out[j]).pattern,
            ) by {
                if i < groups.len() && j < groups.len() {
                    assert(out[i] == groups[i] && out[j] == groups[j]);
                } else if j == groups.len() {
                    assert(out[i] == groups[i] && out[j] == newg);
                    assert(!(erase_segs(groups[i].pattern) != erase_segs(r.segs) && overlaps(
                        groups[i].pattern,
                        r.segs,
                    )));
                    assert(erase_segs(groups[i].pattern) != erase_segs(r.segs));
                } else {
                    assert(i == groups.len());
                    assert(out[i] == newg && out[j] == groups[j]);
                    assert(erase_segs(groups[j].pattern) != erase_segs(r.segs));
                    assert(!overlaps(groups[j].pattern, r.segs));
                    lemma_overlap_symmetric(r.segs, groups[j].pattern);
                }
            }
        },
    }
}

/// Inserting a list of well-formed routes preserves the table invariants.
proof fn lemma_insert_routes_wf(groups: Seq<GroupV>, rs: Seq<FlatRoute>, n: int, out: Seq<
    GroupV,
>)
    requires
        insert_routes_spec(groups, rs) == Some(out),
        forall|i: int| 0 <= i < groups.len() ==> group_wf(#[trigger] groups[i], n),
        forall|i: int, j: int|
            0 <= i < groups.len() && 0 <= j < groups.len() && i != j ==> !overlaps(
                (#[trigger] groups[i]).pattern,
                (#[trigger] groups[j]).pattern,
            ),
        forall|k: int|
            0 <= k < rs.len() ==> segs_wf((#[trigger] rs[k]).segs) && leaf_wf(
                rs[k].leaf,
                rs[k].segs,
                n,
            ),
    ensures
        forall|i: int| 0 <= i < out.len() ==> group_wf(#[trigger] out[i], n),
        forall|i: int, j: int|
            0 <= i < out.len() && 0 <= j < out.len() && i != j ==> !overlaps(
                (#[trigger] out[i]).pattern,
                (#[trigger] out[j]).pattern,
            ),
    decreases rs.len(),
{
    if rs.len() == 0 {
    } else {
        let mid = insert_route_spec(groups, rs[0])->Some_0;
        lemma_insert_route_wf(groups, rs[0], n, mid);
        assert(forall|k: int| 0 <= k < rs.skip(1).len() ==> rs.skip(1)[k] == rs[k + 1]);
        lemma_insert_routes_wf(mid, rs.skip(1), n, out);
    }
}

/// The implicit `HEAD` pass: `GET` lookups are unchanged; a group with a
/// `GET` and no explicit `HEAD` afterwards maps `HEAD` to the `GET` leaf,
/// and an explicit `HEAD` mapping is kept.
pub proof fn lemma_implicit_head(g: GroupV)
    ensures
        find_method(add_head_spec(g).entries, HttpMethod::Get) == find_method(
            g.entries,
            HttpMethod::Get,
        ),
        find_method(g.entries, HttpMethod::Get) is Some && find_method(
            g.entries,
            HttpMethod::Head,
        ) is None ==> find_method(add_head_spec(g).entries, HttpMethod::Head) == find_method(
            g.entries,
            HttpMethod::Get,
        ),
        find_method(g.entries, HttpMethod::Head) is Some ==> find_method(
            add_head_spec(g).entries,
            HttpMethod::Head,
        ) == find_method(g.entries, HttpMethod::Head),
        add_head_spec(g).pattern == g.pattern,
{
    match find_method(g.entries, HttpMethod::Get) {
        Some(leaf) => {
            if find_method(g.entries, HttpMethod::Head) is None {
                lemma_find_method_push(
                    g.entries,
                    MethodLeafV { method: HttpMethod::Head, leaf },
                    HttpMethod::Head,
                );
                lemma_find_method_push(
                    g.entries,
                    MethodLeafV { method: HttpMethod::Head, leaf },
                    HttpMethod::Get,
                );
            }
        },
        None => {},
    }
}

/// The head pass preserves the group invariants.
proof fn lemma_add_head_wf(g: GroupV, n: int)
    requires
        group_wf(g, n),
    ensures
        group_wf(add_head_spec(g), n),
        add_head_spec(g).pattern == g.pattern,
{
    let g2 = add_head_spec(g);
    match find_method(g.entries, HttpMethod::Get) {
        Some(leaf) => {
            if find_method(g.entries, HttpMethod::Head) is None {
                lemma_find_method_none_inv(g.entries, HttpMethod::Head);
                lemma_find_method_some_inv(g.entries, HttpMethod::Get);
                assert(leaf_wf(leaf, g.pattern, n));
                assert(g2.entries == g.entries.push(
                    MethodLeafV { method: HttpMethod::Head, leaf },
                ));
                assert(forall|i: int|
                    0 <= i < g.entries.len() ==> g2.entries[i] == (#[trigger] g.entries[i]));
                assert(g2.entries[g.entries.len() as int] == MethodLeafV {
                    method: HttpMethod::Head,
                    leaf,
                });
            }
        },
        None => {},
    }
}

/// Every flattened route of valid entries is well formed.
proof fn lemma_flat_wf(es: Seq<EntryV>, n: int)
    requires
        forall|i: int| 0 <= i < es.len() ==> entry_valid(#[trigger] es[i], n),
    ensures
        forall|k: int|
            0 <= k < flat_routes(es).len() ==> segs_wf((#[trigger] flat_routes(es)[k]).segs)
                && leaf_wf(flat_routes(es)[k].leaf, flat_routes(es)[k].segs, n),
    decreases es.len(),
{
    if es.len() == 0 {
    } else {
        let head = entry_flat(es[0]);
        let rest = flat_routes(es.skip(1));
        assert(forall|i: int| 0 <= i < es.skip(1).len() ==> es.skip(1)[i] == es[i + 1]);
        lemma_flat_wf(es.skip(1), n);
        assert forall|k: int| 0 <= k < flat_routes(es).len() implies segs_wf(
            (#[trigger] flat_routes(es)[k]).segs,
        ) && leaf_wf(flat_routes(es)[k].leaf, flat_routes(es)[k].segs, n) by {
            if k < head.len() {
                assert(flat_routes(es)[k] == head[k]);
                let route = es[0].routes[k];
                assert(head[k] == FlatRoute {
                    segs: segs_of_path(route.path),
                    method: route.method,
                    leaf: es[0].leaf,
                });
                assert(entry_valid(es[0], n));
                assert(path_parses(route.path));
                lemma_parsed_segs_wf(route.path);
                assert(names_of(segs_of_path(route.path)) == field_names(es[0].leaf.path_fields));
                assert(field_names(es[0].leaf.path_fields).len() == es[0].leaf.path_fields.len());
            } else {
                assert(flat_routes(es)[k] == rest[k - head.len()]);
            }
        }
    }
}

/// A successful build yields a consistent table.
pub proof fn lemma_build_wf(es: Seq<EntryV>, n: int)
    requires
        build_ok(es, n),
    ensures
        table_wf(build_table_view(es), n),
{
    let folded = insert_routes_spec(Seq::<GroupV>::empty(), flat_routes(es))->Some_0;
    lemma_flat_wf(es, n);
    lemma_insert_routes_wf(Seq::<GroupV>::empty(), flat_routes(es), n, folded);
    let t = build_table_view(es);
    assert(t.groups == add_heads_spec(folded));
    assert forall|i: int| 0 <= i < t.groups.len() implies group_wf(#[trigger] t.groups[i], n) by {
        assert(t.groups[i] == add_head_spec(folded[i]));
        lemma_add_head_wf(folded[i], n);
    }
    assert forall|i: int, j: int|
        0 <= i < t.groups.len() && 0 <= j < t.groups.len() && i != j implies !overlaps(
        (#[trigger] t.groups[i]).pattern,
        (#[trigger] t.groups[j]).pattern,
    ) by {
        assert(t.groups[i] == add_head_spec(folded[i]));
        assert(t.groups[j] == add_head_spec(folded[j]));
        lemma_add_head_wf(folded[i], n);
        lemma_add_head_wf(folded[j], n);
    }
    match first_fallback(es) {
        Some(fi) => {
            lemma_first_fallback_char(es);
            assert(entry_valid(es[fi], n));
            assert(is_fallback_entry(es[fi]));
            assert(fallback_wf(es[fi].leaf, n));
        },
        None => {},
    }
}

/// Adding a consistent table keeps the whole router consistent.
pub proof fn lemma_router_wf_push(rv: Seq<TableV>, t: TableV)
    requires
        router_wf(rv),
        table_wf(t, rv.len() as int),
    ensures
        router_wf(rv.push(t)),
{
    let r2 = rv.push(t);
    assert forall|k: int| 0 <= k < r2.len() implies table_wf(#[trigger] r2[k], k) by {
        if k < rv.len() {
            assert(r2[k] == rv[k]);
        } else {
            assert(r2[k] == t);
        }
    }
}

/// In a consistent table, at most one group's pattern matches any concrete
/// path: table construction rejected every overlapping pair.
pub proof fn lemma_at_most_one_match(t: TableV, n: int, i: int, j: int, path: Seq<char>)
    requires
        table_wf(t, n),
        0 <= i < t.groups.len(),
        0 <= j < t.groups.len(),
        i != j,
        pattern_matches(t.groups[i].pattern, path),
    ensures
        !pattern_matches(t.groups[j].pattern, path),
{
    crate::pattern::lemma_disjoint_patterns(t.groups[i].pattern, t.groups[j].pattern, path);
}

/// Building a table is a function of the entry list alone: two routers
/// extended from the same arena with the same entries are equal, and so
/// match and dispatch identically.
pub proof fn lemma_build_deterministic(
    prior: Seq<TableV>,
    es: Seq<EntryV>,
    r1: Seq<TableV>,
    r2: Seq<TableV>,
)
    requires
        r1 == prior.push(build_table_view(es)),
        r2 == prior.push(build_table_view(es)),
    ensures
        r1 == r2,
{
}

} // verus!
