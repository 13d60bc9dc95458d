//! Route path patterns: parsing, matching and overlap detection.
//!
//! A pattern is either the special catch-all request target `*`, or an
//! absolute path whose `/`-separated segments are literals, single-segment
//! placeholders `{name}`, or one trailing rest placeholder `{name...}` that
//! captures the remainder of the path.

use vstd::prelude::*;

use crate::strutil::{
    all_no_slash, join_slash, join_slash_spec, lemma_split_len, no_slash, split_slash,
    split_slash_spec,
};

verus! {

/// One segment of a parsed path pattern.
#[derive(Debug)]
pub enum Segment {
    /// Matches exactly this text.
    Literal(String),
    /// `{name}`: matches one non-empty segment.
    Placeholder(String),
    /// `{name...}`: matches the whole remainder of the path.
    Rest(String),
}

/// The mathematical model of a [`Segment`].
pub enum SegView {
    Literal(Seq<char>),
    Placeholder(Seq<char>),
    Rest(Seq<char>),
}

impl View for Segment {
    type V = SegView;

    open spec fn view(&self) -> SegView {
        match self {
            Segment::Literal(l) => SegView::Literal(l@),
            Segment::Placeholder(n) => SegView::Placeholder(n@),
            Segment::Rest(n) => SegView::Rest(n@),
        }
    }
}

/// A segment with its placeholder name erased.
///
/// Two patterns are equivalent (match exactly the same paths) when their
/// erased segment sequences are equal.
pub enum SegShape {
    Literal(Seq<char>),
    Placeholder,
    Rest,
}

/// Erases the placeholder name of one segment.
pub open spec fn erase_seg(s: SegView) -> SegShape {
    match s {
        SegView::Literal(l) => SegShape::Literal(l),
        SegView::Placeholder(_) => SegShape::Placeholder,
        SegView::Rest(_) => SegShape::Rest,
    }
}

/// Erases all placeholder names of a segment sequence.
pub open spec fn erase_segs(segs: Seq<SegView>) -> Seq<SegShape> {
    segs.map_values(|s: SegView| erase_seg(s))
}

/// Why a route path failed to parse.
#[derive(Debug)]
pub enum PatternError {
    /// The path neither starts with `/` nor is exactly `*`.
    NotAbsolute,
    /// A `{...}` segment does not contain a valid identifier.
    InvalidPlaceholder { segment: String },
    /// The same placeholder name is used twice in one pattern.
    DuplicatePlaceholder { name: String },
    /// A rest placeholder `{name...}` is followed by further segments.
    RestNotLast,
}

/// The mathematical model of a [`PatternError`].
pub enum PatErrView {
    NotAbsolute,
    InvalidPlaceholder(Seq<char>),
    DuplicatePlaceholder(Seq<char>),
    RestNotLast,
}

impl View for PatternError {
    type V = PatErrView;

    open spec fn view(&self) -> PatErrView {
        match self {
            PatternError::NotAbsolute => PatErrView::NotAbsolute,
            PatternError::InvalidPlaceholder { segment } => PatErrView::InvalidPlaceholder(
                segment@,
            ),
            PatternError::DuplicatePlaceholder { name } => PatErrView::DuplicatePlaceholder(name@),
            PatternError::RestNotLast => PatErrView::RestNotLast,
        }
    }
}

/// Characters that may start an identifier: ASCII letters and `_`.
pub open spec fn ident_start_char(c: char) -> bool {
    c == '_' || ('a' as u32 <= c as u32 && c as u32 <= 'z' as u32) || ('A' as u32 <= c as u32
        && c as u32 <= 'Z' as u32)
}

/// Characters that may continue an identifier: letters, digits and `_`.
pub open spec fn ident_cont_char(c: char) -> bool {
    ident_start_char(c) || ('0' as u32 <= c as u32 && c as u32 <= '9' as u32)
}

/// A valid placeholder name: a non-empty identifier other than `_`.
pub open spec fn valid_ident_spec(s: Seq<char>) -> bool {
    &&& s.len() > 0
    &&& !(s.len() == 1 && s[0] == '_')
    &&& ident_start_char(s[0])
    &&& forall|i: int| 1 <= i < s.len() ==> ident_cont_char(#[trigger] s[i])
}

/// Returns whether `s` is a valid placeholder name.
pub fn valid_ident(s: &str) -> (r: bool)
    ensures
        r == valid_ident_spec(s@),
{
    let len = s.unicode_len();
    if len == 0 {
        return false;
    }
    let first = s.get_char(0);
    if len == 1 && first == '_' {
        return false;
    }
    let f = first as u32;
    if !(first == '_' || (97 <= f && f <= 122) || (65 <= f && f <= 90)) {
        assert(!ident_start_char(s@[0]));
        return false;
    }
    let mut i: usize = 1;
    while i < len
        invariant
            1 <= i <= len,
            len == s@.len(),
            forall|k: int| 1 <= k < i ==> ident_cont_char(#[trigger] s@[k]),
        decreases len - i,
    {
        let c = s.get_char(i);
        let u = c as u32;
        if !(c == '_' || (97 <= u && u <= 122) || (65 <= u && u <= 90) || (48 <= u && u <= 57)) {
            assert(!ident_cont_char(s@[i as int]));
            return false;
        }
        i = i + 1;
    }
    true
}

/// How one segment text parses: the segment, or the error it provokes.
pub open spec fn seg_of_text(t: Seq<char>) -> Result<SegView, PatErrView> {
    if t.len() >= 2 && t[0] == '{' && t[t.len() - 1] == '}' {
        let inner = t.subrange(1, t.len() - 1);
        if inner.len() >= 3 && inner.subrange(inner.len() - 3, inner.len() as int) =~= seq![
            '.',
            '.',
            '.',
        ] {
            let name = inner.subrange(0, inner.len() - 3);
            if valid_ident_spec(name) {
                Ok(SegView::Rest(name))
            } else {
                Err(PatErrView::InvalidPlaceholder(inner))
            }
        } else {
            if valid_ident_spec(inner) {
                Ok(SegView::Placeholder(inner))
            } else {
                Err(PatErrView::InvalidPlaceholder(inner))
            }
        }
    } else {
        Ok(SegView::Literal(t))
    }
}

/// Parses one segment text.
pub fn parse_segment(text: &str) -> (r: Result<Segment, PatternError>)
    ensures
        match r {
            Ok(seg) => seg_of_text(text@) == Ok::<SegView, PatErrView>(seg@),
            Err(e) => seg_of_text(text@) == Err::<SegView, PatErrView>(e@),
        },
{
    let len = text.unicode_len();
    if len >= 2 && text.get_char(0) == '{' && text.get_char(len - 1) == '}' {
        let inner = text.substring_char(1, len - 1);
        let ilen = len - 2;
        assert(inner@ == text@.subrange(1, text@.len() - 1));
        assert(inner@.len() == ilen);
        if ilen >= 3 && inner.get_char(ilen - 1) == '.' && inner.get_char(ilen - 2) == '.'
            && inner.get_char(ilen - 3) == '.' {
            assert(inner@.subrange(ilen - 3, ilen as int) =~= seq!['.', '.', '.']);
            let name = inner.substring_char(0, ilen - 3);
            if valid_ident(name) {
                Ok(Segment::Rest(name.to_owned()))
            } else {
                Err(PatternError::InvalidPlaceholder { segment: inner.to_owned() })
            }
        } else {
            proof {
                if ilen >= 3 {
                    let dots = inner@.subrange(ilen - 3, ilen as int);
                    assert(dots.len() == 3);
                    assert(dots[0] == inner@[ilen - 3]);
                    assert(dots[1] == inner@[ilen - 2]);
                    assert(dots[2] == inner@[ilen - 1]);
                }
            }
            if valid_ident(inner) {
                Ok(Segment::Placeholder(inner.to_owned()))
            } else {
                Err(PatternError::InvalidPlaceholder { segment: inner.to_owned() })
            }
        }
    } else {
        Ok(Segment::Literal(text.to_owned()))
    }
}

/// A parsed route path pattern.
#[derive(Debug)]
pub struct PathPattern {
    /// The source text the pattern was parsed from.
    pub raw: String,
    /// The segments, left to right. Empty exactly for the `*` pattern.
    pub segments: Vec<Segment>,
    /// The placeholder names, in order of appearance.
    pub placeholders: Vec<String>,
}

impl View for PathPattern {
    type V = Seq<SegView>;

    open spec fn view(&self) -> Seq<SegView> {
        self.segments@.map_values(|s: Segment| s@)
    }
}

/// The error of the first segment text that fails to parse, if any.
pub open spec fn first_seg_err(texts: Seq<Seq<char>>) -> Option<PatErrView>
    decreases texts.len(),
{
    if texts.len() == 0 {
        None
    } else {
        match seg_of_text(texts[0]) {
            Err(e) => Some(e),
            Ok(_) => first_seg_err(texts.skip(1)),
        }
    }
}

/// The segment a text parses to; meaningful only when it parses.
pub open spec fn seg_ok(t: Seq<char>) -> SegView {
    match seg_of_text(t) {
        Ok(s) => s,
        Err(_) => SegView::Literal(t),
    }
}

/// The segments of a list of segment texts that all parse.
pub open spec fn segs_of_texts(texts: Seq<Seq<char>>) -> Seq<SegView> {
    texts.map_values(|t: Seq<char>| seg_ok(t))
}

/// Holds when a rest placeholder stands anywhere but last.
pub open spec fn rest_misplaced(segs: Seq<SegView>) -> bool {
    exists|i: int| 0 <= i < segs.len() - 1 && (#[trigger] segs[i]) is Rest
}

/// The placeholder names of a segment sequence, in order of appearance.
pub open spec fn names_of(segs: Seq<SegView>) -> Seq<Seq<char>>
    decreases segs.len(),
{
    if segs.len() == 0 {
        Seq::<Seq<char>>::empty()
    } else {
        let rest = names_of(segs.skip(1));
        match segs[0] {
            SegView::Literal(_) => rest,
            SegView::Placeholder(n) => seq![n] + rest,
            SegView::Rest(n) => seq![n] + rest,
        }
    }
}

/// Holds when some placeholder name repeats.
pub open spec fn has_dup(names: Seq<Seq<char>>) -> bool {
    exists|i: int, j: int| 0 <= i < j < names.len() && names[i] == names[j]
}

/// The split segment texts of a non-`*` path.
pub open spec fn texts_of(path: Seq<char>) -> Seq<Seq<char>> {
    split_slash_spec(path.skip(1))
}

/// Holds when `path` parses to a pattern.
pub open spec fn path_parses(path: Seq<char>) -> bool {
    ||| path == seq!['*']
    ||| {
        &&& path.len() > 0
        &&& path[0] == '/'
        &&& first_seg_err(texts_of(path)) is None
        &&& !rest_misplaced(segs_of_texts(texts_of(path)))
        &&& !has_dup(names_of(segs_of_texts(texts_of(path))))
    }
}

/// The segments `path` parses to, when it parses.
pub open spec fn segs_of_path(path: Seq<char>) -> Seq<SegView> {
    if path == seq!['*'] {
        Seq::<SegView>::empty()
    } else {
        segs_of_texts(texts_of(path))
    }
}

/// Which parse error `path` provokes; each variant comes exactly when its
/// condition holds.
pub open spec fn parse_err_matches(path: Seq<char>, e: PatErrView) -> bool {
    match e {
        PatErrView::NotAbsolute => {
            &&& path != seq!['*']
            &&& (path.len() == 0 || path[0] != '/')
        },
        PatErrView::InvalidPlaceholder(seg) => {
            &&& path != seq!['*']
            &&& path.len() > 0
            &&& path[0] == '/'
            &&& first_seg_err(texts_of(path)) == Some(PatErrView::InvalidPlaceholder(seg))
        },
        PatErrView::RestNotLast => {
            &&& path != seq!['*']
            &&& path.len() > 0
            &&& path[0] == '/'
            &&& first_seg_err(texts_of(path)) is None
            &&& rest_misplaced(segs_of_texts(texts_of(path)))
        },
        PatErrView::DuplicatePlaceholder(n) => {
            &&& path != seq!['*']
            &&& path.len() > 0
            &&& path[0] == '/'
            &&& first_seg_err(texts_of(path)) is None
            &&& !rest_misplaced(segs_of_texts(texts_of(path)))
            &&& {
                let names = names_of(segs_of_texts(texts_of(path)));
                exists|i: int, j: int| 0 <= i < j < names.len() && names[i] == names[j] && names[j]
                    == n
            }
        },
    }
}

/// Well-formed segments: literals are slash-free, placeholder names are
/// valid identifiers, and a rest placeholder stands only last.
pub open spec fn segs_wf(segs: Seq<SegView>) -> bool {
    &&& forall|i: int|
        0 <= i < segs.len() ==> match #[trigger] segs[i] {
            SegView::Literal(l) => no_slash(l),
            SegView::Placeholder(n) => valid_ident_spec(n),
            SegView::Rest(n) => valid_ident_spec(n),
        }
    &&& !rest_misplaced(segs)
}

impl PathPattern {
    /// The pattern is well formed: literals are slash-free, placeholder names
    /// are valid and pairwise distinct, a rest placeholder stands only last,
    /// and the placeholder list mirrors the segments.
    pub open spec fn wf(&self) -> bool {
        &&& segs_wf(self@)
        &&& !has_dup(names_of(self@))
        &&& self.placeholders@.map_values(|n: String| n@) == names_of(self@)
        &&& (self@.len() == 0 ==> self.raw@ == seq!['*'])
    }

    /// Parses a route path: `*`, or an absolute `/`-separated path whose
    /// segments are literals, `{name}` placeholders, or one final `{name...}`
    /// rest placeholder.
    #[verifier::loop_isolation(false)]
    pub fn parse(path: &str) -> (r: Result<PathPattern, PatternError>)
        ensures
            r is Ok <==> path_parses(path@),
            r matches Ok(p) ==> p@ == segs_of_path(path@) && p.wf() && p.raw@ == path@,
            r matches Err(e) ==> parse_err_matches(path@, e@),
    {
        let len = path.unicode_len();
        if len == 1 && path.get_char(0) == '*' {
            proof {
                assert(path@ =~= seq!['*']);
            }
            let p = PathPattern { raw: path.to_owned(), segments: Vec::new(), placeholders: Vec::new() };
            proof {
                assert(p@ =~= Seq::<SegView>::empty());
                assert(names_of(p@) =~= Seq::<Seq<char>>::empty());
                assert(p.placeholders@.map_values(|n: String| n@) =~= names_of(p@));
            }
            return Ok(p);
        }
        proof {
            if path@.len() == 1 && path@[0] == '*' {
                assert(path@ =~= seq!['*']);
            }
            assert(path@ != seq!['*']);
        }
        if len == 0 || path.get_char(0) != '/' {
            return Err(PatternError::NotAbsolute);
        }
        let texts = split_slash(path.substring_char(1, len));
        let ghost tviews = texts_of(path@);
        proof {
            assert(path@.subrange(1, len as int) =~= path@.skip(1));
        }
        let mut segments: Vec<Segment> = Vec::new();
        let mut i: usize = 0;
        while i < texts.len()
            invariant
                0 <= i <= texts.len(),
                texts@.len() == tviews.len(),
                forall|k: int| 0 <= k < texts@.len() ==> texts@[k]@ == tviews[k],
                segments@.len() == i,
                forall|k: int|
                    0 <= k < i ==> seg_of_text(tviews[k]) == Ok::<SegView, PatErrView>(
                        #[trigger] segments@[k]@,
                    ),
            decreases texts.len() - i,
        {
            match parse_segment(texts[i].as_str()) {
                Ok(seg) => {
                    segments.push(seg);
                },
                Err(e) => {
                    proof {
                        assert forall|k: int| 0 <= k < i implies seg_of_text(
                            #[trigger] tviews[k],
                        ) is Ok by {
                            assert(seg_of_text(tviews[k]) == Ok::<SegView, PatErrView>(
                                segments@[k]@,
                            ));
                        }
                        lemma_first_seg_err(tviews, i as int);
                        assert(e@ is InvalidPlaceholder);
                    }
                    return Err(e);
                },
            }
            i = i + 1;
        }
        proof {
            lemma_first_seg_err_none(tviews, segments@.map_values(|s: Segment| s@));
            assert(segments@.map_values(|s: Segment| s@) =~= segs_of_texts(tviews));
        }
        let ghost segviews = segments@.map_values(|s: Segment| s@);
        // A rest placeholder is legal only as the final segment.
        if segments.len() > 0 {
            let mut k: usize = 0;
            while k < segments.len() - 1
                invariant
                    segments.len() > 0,
                    0 <= k <= segments.len() - 1,
                    segviews == segments@.map_values(|s: Segment| s@),
                    forall|j: int| 0 <= j < k ==> !((#[trigger] segviews[j]) is Rest),
                decreases segments.len() - 1 - k,
            {
                if let Segment::Rest(_) = &segments[k] {
                    proof {
                        assert(segviews[k as int] is Rest);
                        assert(rest_misplaced(segviews));
                    }
                    return Err(PatternError::RestNotLast);
                }
                k = k + 1;
            }
        }
        assert(!rest_misplaced(segviews));
        // Collect placeholder names, rejecting duplicates.
        let mut placeholders: Vec<String> = Vec::new();
        let mut k: usize = 0;
        while k < segments.len()
            invariant
                0 <= k <= segments.len(),
                segviews == segments@.map_values(|s: Segment| s@),
                placeholders@.map_values(|n: String| n@) == names_of(
                    segviews.subrange(0, k as int),
                ),
                forall|a: int, b: int|
                    0 <= a < b < placeholders@.len() ==> (#[trigger] placeholders@[a])@ != (
                    #[trigger] placeholders@[b])@,
            decreases segments.len() - k,
        {
            proof {
                lemma_names_snoc(segviews.subrange(0, k as int), segviews[k as int]);
                assert(segviews.subrange(0, k as int).push(segviews[k as int]) =~= segviews
                    .subrange(0, k as int + 1));
            }
            let name_opt: Option<&String> = match &segments[k] {
                Segment::Literal(_) => None,
                Segment::Placeholder(n) => Some(n),
                Segment::Rest(n) => Some(n),
            };
            if let Some(name) = name_opt {
                if contains_string(&placeholders, name) {
                    proof {
                        let names = names_of(segviews);
                        let pre = names_of(segviews.subrange(0, k as int + 1));
                        lemma_names_prefix(segviews, k as int + 1);
                        let witness = choose|a: int|
                            0 <= a < placeholders@.len() && (#[trigger] placeholders@[a])@
                                == name@;
                        assert(names[witness] == name@);
                        assert(names[pre.len() - 1] == name@);
                        assert(0 <= witness < pre.len() - 1 < names.len());
                    }
                    return Err(PatternError::DuplicatePlaceholder { name: name.clone() });
                }
                proof {
                    let m = placeholders@.map_values(|n: String| n@);
                    assert forall|a: int| 0 <= a < placeholders@.len() implies (
                    #[trigger] placeholders@[a])@ != name@ by {
                        assert(m[a] == placeholders@[a]@);
                        if placeholders@[a]@ == name@ {
                            assert(m.contains(name@));
                        }
                    }
                }
                placeholders.push(name.clone());
                proof {
                    let pviews = placeholders@.map_values(|n: String| n@);
                    assert(pviews =~= names_of(segviews.subrange(0, k as int)).push(name@));
                    assert(pviews =~= names_of(segviews.subrange(0, k as int + 1)));
                }
            }
            k = k + 1;
        }
        proof {
            assert(segviews.subrange(0, segviews.len() as int) =~= segviews);
            assert(!has_dup(names_of(segviews)));
        }
        let p = PathPattern { raw: path.to_owned(), segments, placeholders };
        proof {
            assert(p@ == segviews);
            assert(forall|i: int|
                0 <= i < p@.len() ==> match #[trigger] p@[i] {
                    SegView::Literal(l) => no_slash(l),
                    SegView::Placeholder(n) => valid_ident_spec(n),
                    SegView::Rest(n) => valid_ident_spec(n),
                }) by {
                crate::strutil::lemma_split_parts_no_slash(path@.skip(1));
                assert(forall|i: int|
                    0 <= i < p@.len() ==> seg_of_text(tviews[i]) == Ok::<SegView, PatErrView>(
                        #[trigger] p@[i],
                    ) && no_slash(tviews[i]));
                assert(forall|i: int| 0 <= i < p@.len() ==> seg_wf_from_text(tviews[i], p@[i])) by {
                    assert(forall|i: int|
                        0 <= i < p@.len() ==> seg_of_text(tviews[i]) == Ok::<SegView, PatErrView>(
                            #[trigger] p@[i],
                        ) && no_slash(tviews[i]) && seg_wf_from_text(tviews[i], p@[i])) by {
                        assert forall|i: int| 0 <= i < p@.len() implies seg_wf_from_text(
                            tviews[i],
                            p@[i],
                        ) by {
                            lemma_seg_of_text_wf(tviews[i], p@[i]);
                        }
                    }
                }
            }
        }
        Ok(p)
    }
}

/// Holds when `seg`, parsed from the slash-free text `t`, is well formed.
pub open spec fn seg_wf_from_text(t: Seq<char>, seg: SegView) -> bool {
    match seg {
        SegView::Literal(l) => no_slash(t) ==> no_slash(l),
        SegView::Placeholder(n) => valid_ident_spec(n),
        SegView::Rest(n) => valid_ident_spec(n),
    }
}

/// A segment that parses from a slash-free text is well formed.
proof fn lemma_seg_of_text_wf(t: Seq<char>, seg: SegView)
    requires
        seg_of_text(t) == Ok::<SegView, PatErrView>(seg),
    ensures
        seg_wf_from_text(t, seg),
{
}

/// If the first `i` texts parse and text `i` fails, its error is the first.
proof fn lemma_first_seg_err(texts: Seq<Seq<char>>, i: int)
    requires
        0 <= i < texts.len(),
        forall|k: int| 0 <= k < i ==> seg_of_text(#[trigger] texts[k]) is Ok,
        seg_of_text(texts[i]) is Err,
    ensures
        first_seg_err(texts) == Some(seg_of_text(texts[i]).get_Err_0()),
    decreases i,
{
    if i == 0 {
    } else {
        assert(forall|k: int| 0 <= k < i - 1 ==> texts.skip(1)[k] == texts[k + 1]);
        lemma_first_seg_err(texts.skip(1), i - 1);
    }
}

/// If every text parses, there is no first error.
proof fn lemma_first_seg_err_none(texts: Seq<Seq<char>>, segs: Seq<SegView>)
    requires
        segs.len() == texts.len(),
        forall|k: int|
            0 <= k < texts.len() ==> seg_of_text(#[trigger] texts[k]) == Ok::<SegView, PatErrView>(
                segs[k],
            ),
    ensures
        first_seg_err(texts) is None,
        segs == segs_of_texts(texts),
    decreases texts.len(),
{
    assert(segs =~= segs_of_texts(texts));
    if texts.len() == 0 {
    } else {
        assert(forall|k: int| 0 <= k < texts.len() - 1 ==> texts.skip(1)[k] == texts[k + 1]);
        lemma_first_seg_err_none(texts.skip(1), segs.skip(1));
    }
}

/// Appending a segment appends its name, if it has one.
proof fn lemma_names_snoc(segs: Seq<SegView>, s: SegView)
    ensures
        names_of(segs.push(s)) == match s {
            SegView::Literal(_) => names_of(segs),
            SegView::Placeholder(n) => names_of(segs).push(n),
            SegView::Rest(n) => names_of(segs).push(n),
        },
    decreases segs.len(),
{
    let ps = segs.push(s);
    if segs.len() == 0 {
        reveal_with_fuel(names_of, 3);
        assert(ps[0] == s);
        assert(ps.skip(1) =~= Seq::<SegView>::empty());
        assert(names_of(ps.skip(1)) =~= Seq::<Seq<char>>::empty());
        match s {
            SegView::Literal(_) => {},
            SegView::Placeholder(n) => {
                assert(names_of(ps) =~~= names_of(segs).push(n));
            },
            SegView::Rest(n) => {
                assert(names_of(ps) =~~= names_of(segs).push(n));
            },
        }
    } else {
        assert(ps[0] == segs[0]);
        assert(ps.skip(1) =~= segs.skip(1).push(s));
        lemma_names_snoc(segs.skip(1), s);
        let tail = names_of(segs.skip(1));
        match s {
            SegView::Literal(_) => {
                match segs[0] {
                    SegView::Literal(_) => {},
                    SegView::Placeholder(m) => {},
                    SegView::Rest(m) => {},
                }
                assert(names_of(ps) =~~= names_of(segs));
            },
            SegView::Placeholder(n) => {
                match segs[0] {
                    SegView::Literal(_) => {
                        assert(names_of(ps) == tail.push(n));
                    },
                    SegView::Placeholder(m) => {
                        assert(names_of(ps) == seq![m] + tail.push(n));
                        assert(seq![m] + tail.push(n) =~~= (seq![m] + tail).push(n));
                    },
                    SegView::Rest(m) => {
                        assert(names_of(ps) == seq![m] + tail.push(n));
                        assert(seq![m] + tail.push(n) =~~= (seq![m] + tail).push(n));
                    },
                }
                assert(names_of(ps) =~~= names_of(segs).push(n));
            },
            SegView::Rest(n) => {
                match segs[0] {
                    SegView::Literal(_) => {
                        assert(names_of(ps) == tail.push(n));
                    },
                    SegView::Placeholder(m) => {
                        assert(names_of(ps) == seq![m] + tail.push(n));
                        assert(seq![m] + tail.push(n) =~~= (seq![m] + tail).push(n));
                    },
                    SegView::Rest(m) => {
                        assert(names_of(ps) == seq![m] + tail.push(n));
                        assert(seq![m] + tail.push(n) =~~= (seq![m] + tail).push(n));
                    },
                }
                assert(names_of(ps) =~~= names_of(segs).push(n));
            },
        }
    }
}

/// The names of a prefix are a prefix of the names.
proof fn lemma_names_prefix(segs: Seq<SegView>, k: int)
    requires
        0 <= k <= segs.len(),
    ensures
        names_of(segs.subrange(0, k)).len() <= names_of(segs).len(),
        forall|a: int|
            0 <= a < names_of(segs.subrange(0, k)).len() ==> names_of(segs.subrange(0, k))[a]
                == names_of(segs)[a],
    decreases segs.len() - k,
{
    if k == segs.len() {
        assert(segs.subrange(0, k) =~= segs);
    } else {
        lemma_names_snoc(segs.subrange(0, k), segs[k]);
        assert(segs.subrange(0, k).push(segs[k]) =~= segs.subrange(0, k + 1));
        lemma_names_prefix(segs, k + 1);
    }
}

/// Returns whether some element of `v` equals `s`.
pub fn contains_string(v: &Vec<String>, s: &String) -> (r: bool)
    ensures
        r == v@.map_values(|n: String| n@).contains(s@),
{
    let mut i: usize = 0;
    while i < v.len()
        invariant
            0 <= i <= v.len(),
            forall|k: int| 0 <= k < i ==> (#[trigger] v@[k])@ != s@,
        decreases v.len() - i,
    {
        if v[i].eq(s) {
            assert(v@.map_values(|n: String| n@)[i as int] == s@);
            return true;
        }
        i = i + 1;
    }
    false
}

/// Whether one non-rest segment accepts one slash-free path part.
pub open spec fn seg_matches_part(seg: SegView, part: Seq<char>) -> bool {
    match seg {
        SegView::Literal(l) => part == l,
        SegView::Placeholder(_) => part.len() > 0,
        SegView::Rest(_) => true,
    }
}

/// Whether the final segment is a rest placeholder.
pub open spec fn ends_with_rest(segs: Seq<SegView>) -> bool {
    segs.len() > 0 && segs[segs.len() - 1] is Rest
}

/// Whether a segment sequence matches a list of path parts.
///
/// Without a rest placeholder the parts must line up one to one; with one,
/// the leading segments must line up and the rest placeholder swallows the
/// remaining parts (at least one).
pub open spec fn segs_match_parts(segs: Seq<SegView>, parts: Seq<Seq<char>>) -> bool {
    if ends_with_rest(segs) {
        parts.len() >= segs.len() && forall|i: int|
            0 <= i < segs.len() - 1 ==> seg_matches_part(#[trigger] segs[i], parts[i])
    } else {
        parts.len() == segs.len() && forall|i: int|
            0 <= i < segs.len() ==> seg_matches_part(#[trigger] segs[i], parts[i])
    }
}

/// Whether a pattern (given by its segments) matches a request path.
///
/// The empty segment sequence is the `*` pattern, which matches only the
/// literal request target `*`; every other pattern matches only absolute
/// paths, part for part.
pub open spec fn pattern_matches(segs: Seq<SegView>, path: Seq<char>) -> bool {
    if segs.len() == 0 {
        path == seq!['*']
    } else {
        path.len() > 0 && path[0] == '/' && segs_match_parts(segs, split_slash_spec(path.skip(1)))
    }
}

/// The texts captured by the placeholders, in order of appearance: one part
/// per placeholder, and the joined remaining parts for a rest placeholder.
pub open spec fn capture_list(segs: Seq<SegView>, parts: Seq<Seq<char>>) -> Seq<Seq<char>>
    decreases segs.len(),
{
    if segs.len() == 0 {
        Seq::<Seq<char>>::empty()
    } else {
        match segs[0] {
            SegView::Literal(_) => capture_list(segs.skip(1), parts.skip(1)),
            SegView::Placeholder(_) => seq![parts[0]] + capture_list(segs.skip(1), parts.skip(1)),
            SegView::Rest(_) => seq![join_slash_spec(parts)],
        }
    }
}

/// The captures a pattern takes from a path it matches.
pub open spec fn captures_for(segs: Seq<SegView>, path: Seq<char>) -> Seq<Seq<char>> {
    if segs.len() == 0 {
        Seq::<Seq<char>>::empty()
    } else {
        capture_list(segs, split_slash_spec(path.skip(1)))
    }
}

/// Appending one non-rest segment and its part appends its capture, if any.
proof fn lemma_capture_snoc(segs: Seq<SegView>, parts: Seq<Seq<char>>, s: SegView, p: Seq<char>)
    requires
        segs.len() == parts.len(),
        forall|i: int| 0 <= i < segs.len() ==> !((#[trigger] segs[i]) is Rest),
    ensures
        capture_list(segs.push(s), parts.push(p)) == match s {
            SegView::Literal(_) => capture_list(segs, parts),
            SegView::Placeholder(_) => capture_list(segs, parts).push(p),
            SegView::Rest(_) => capture_list(segs, parts).push(join_slash_spec(seq![p])),
        },
    decreases segs.len(),
{
    let ss = segs.push(s);
    let pp = parts.push(p);
    if segs.len() == 0 {
        assert(ss[0] == s);
        assert(ss.skip(1) =~= Seq::<SegView>::empty());
        assert(pp.skip(1) =~= Seq::<Seq<char>>::empty());
        reveal_with_fuel(capture_list, 3);
        match s {
            SegView::Literal(_) => {},
            SegView::Placeholder(_) => {
                assert(pp[0] == p);
                assert(capture_list(ss, pp) =~~= capture_list(segs, parts).push(p));
            },
            SegView::Rest(_) => {
                assert(pp =~= seq![p]);
                assert(capture_list(ss, pp) =~~= capture_list(segs, parts).push(
                    join_slash_spec(seq![p]),
                ));
            },
        }
    } else {
        assert(ss[0] == segs[0]);
        assert(ss.skip(1) =~= segs.skip(1).push(s));
        assert(pp.skip(1) =~= parts.skip(1).push(p));
        assert(forall|i: int|
            0 <= i < segs.skip(1).len() ==> !((#[trigger] segs.skip(1)[i]) is Rest)) by {
            assert(forall|i: int|
                0 <= i < segs.skip(1).len() ==> segs.skip(1)[i] == segs[i + 1]);
        }
        lemma_capture_snoc(segs.skip(1), parts.skip(1), s, p);
        let tail = capture_list(segs.skip(1), parts.skip(1));
        match segs[0] {
            SegView::Literal(_) => {},
            SegView::Placeholder(_) => {
                match s {
                    SegView::Literal(_) => {},
                    SegView::Placeholder(_) => {
                        assert(seq![pp[0]] + tail.push(p) =~~= (seq![parts[0]] + tail).push(p));
                    },
                    SegView::Rest(_) => {
                        assert(seq![pp[0]] + tail.push(join_slash_spec(seq![p])) =~~= (seq![
                            parts[0],
                        ] + tail).push(join_slash_spec(seq![p])));
                    },
                }
            },
            SegView::Rest(_) => {
                assert(false);
            },
        }
    }
}

/// A pattern ending in a rest placeholder captures its prefix parts and the
/// joined remainder.
proof fn lemma_capture_rest(pre: Seq<SegView>, parts: Seq<Seq<char>>, name: Seq<char>)
    requires
        pre.len() <= parts.len(),
        forall|i: int| 0 <= i < pre.len() ==> !((#[trigger] pre[i]) is Rest),
    ensures
        capture_list(pre.push(SegView::Rest(name)), parts) == capture_list(
            pre,
            parts.take(pre.len() as int),
        ) + seq![join_slash_spec(parts.skip(pre.len() as int))],
    decreases pre.len(),
{
    let whole = pre.push(SegView::Rest(name));
    if pre.len() == 0 {
        assert(whole[0] == SegView::Rest(name));
        assert(parts.skip(0) =~= parts);
        assert(capture_list(pre, parts.take(0)) =~= Seq::<Seq<char>>::empty());
        assert(capture_list(whole, parts) =~~= capture_list(pre, parts.take(0)) + seq![
            join_slash_spec(parts),
        ]);
    } else {
        assert(whole[0] == pre[0]);
        assert(whole.skip(1) =~= pre.skip(1).push(SegView::Rest(name)));
        assert(forall|i: int|
            0 <= i < pre.skip(1).len() ==> !((#[trigger] pre.skip(1)[i]) is Rest)) by {
            assert(forall|i: int| 0 <= i < pre.skip(1).len() ==> pre.skip(1)[i] == pre[i + 1]);
        }
        lemma_capture_rest(pre.skip(1), parts.skip(1), name);
        assert(parts.skip(1).take(pre.len() - 1) =~= parts.take(pre.len() as int).skip(1));
        assert(parts.skip(1).skip(pre.len() - 1) =~= parts.skip(pre.len() as int));
        assert(parts.take(pre.len() as int)[0] == parts[0]);
        let tail = capture_list(pre.skip(1), parts.take(pre.len() as int).skip(1));
        let restcap = seq![join_slash_spec(parts.skip(pre.len() as int))];
        match pre[0] {
            SegView::Literal(_) => {},
            SegView::Placeholder(_) => {
                assert(seq![parts[0]] + (tail + restcap) =~~= (seq![parts[0]] + tail) + restcap);
            },
            SegView::Rest(_) => {
                assert(false);
            },
        }
    }
}

/// An asterisk pattern matches exactly the literal request target `*`, and in
/// particular never the root path `/`.
pub proof fn lemma_asterisk_matches(segs: Seq<SegView>, path: Seq<char>)
    requires
        segs.len() == 0,
    ensures
        pattern_matches(segs, path) <==> path == seq!['*'],
        !pattern_matches(segs, seq!['/']),
{
    assert(seq!['/'][0] == '/');
    assert(seq!['*'][0] == '*');
    assert(seq!['/'] != seq!['*']);
}

impl PathPattern {
    /// Matches a request path against this pattern.
    ///
    /// Returns the placeholder captures, in order of appearance, when the
    /// path matches, and `None` when it does not.
    #[verifier::loop_isolation(false)]
    pub fn matches_path(&self, path: &str) -> (r: Option<Vec<String>>)
        requires
            segs_wf(self@),
        ensures
            r is Some <==> pattern_matches(self@, path@),
            r matches Some(caps) ==> caps@.map_values(|c: String| c@) == captures_for(
                self@,
                path@,
            ),
    {
        let n = self.segments.len();
        let plen = path.unicode_len();
        if n == 0 {
            if plen == 1 && path.get_char(0) == '*' {
                proof {
                    assert(path@ =~= seq!['*']);
                }
                return Some(Vec::new());
            }
            proof {
                assert(path@ != seq!['*']) by {
                    assert(seq!['*'].len() == 1);
                    assert(seq!['*'][0] == '*');
                }
            }
            return None;
        }
        if plen == 0 || path.get_char(0) != '/' {
            return None;
        }
        let parts = split_slash(path.substring_char(1, plen));
        let ghost pviews = split_slash_spec(path@.skip(1));
        proof {
            assert(path@.subrange(1, plen as int) =~= path@.skip(1));
        }
        let with_rest = match &self.segments[n - 1] {
            Segment::Rest(_) => true,
            _ => false,
        };
        proof {
            assert(with_rest == ends_with_rest(self@));
        }
        if with_rest {
            if parts.len() < n {
                return None;
            }
        } else {
            if parts.len() != n {
                return None;
            }
        }
        let limit = if with_rest {
            n - 1
        } else {
            n
        };
        let mut caps: Vec<String> = Vec::new();
        let mut i: usize = 0;
        proof {
            assert(caps@.map_values(|c: String| c@) =~= capture_list(
                self@.subrange(0, 0),
                pviews.subrange(0, 0),
            ));
        }
        while i < limit
            invariant
                0 <= i <= limit,
                forall|k: int| 0 <= k < i ==> seg_matches_part(#[trigger] self@[k], pviews[k]),
                caps@.map_values(|c: String| c@) == capture_list(
                    self@.subrange(0, i as int),
                    pviews.subrange(0, i as int),
                ),
            decreases limit - i,
        {
            proof {
                assert(forall|k: int|
                    0 <= k < i ==> !((#[trigger] self@.subrange(0, i as int)[k]) is Rest));
                lemma_capture_snoc(
                    self@.subrange(0, i as int),
                    pviews.subrange(0, i as int),
                    self@[i as int],
                    pviews[i as int],
                );
                assert(self@.subrange(0, i as int).push(self@[i as int]) =~= self@.subrange(
                    0,
                    i as int + 1,
                ));
                assert(pviews.subrange(0, i as int).push(pviews[i as int]) =~= pviews.subrange(
                    0,
                    i as int + 1,
                ));
            }
            match &self.segments[i] {
                Segment::Literal(l) => {
                    if !l.eq(&parts[i]) {
                        proof {
                            assert(!seg_matches_part(self@[i as int], pviews[i as int]));
                        }
                        return None;
                    }
                },
                Segment::Placeholder(_) => {
                    if parts[i].as_str().is_empty() {
                        proof {
                            assert(!seg_matches_part(self@[i as int], pviews[i as int]));
                        }
                        return None;
                    }
                    let cap = parts[i].clone();
                    caps.push(cap);
                },
                Segment::Rest(_) => {
                    proof {
                        assert(self@[i as int] is Rest);
                        if i < n - 1 {
                            assert(rest_misplaced(self@));
                        }
                        assert(false);
                    }
                    return None;
                },
            }
            i = i + 1;
        }
        if with_rest {
            let mut tail_parts: Vec<String> = Vec::new();
            let mut j: usize = limit;
            while j < parts.len()
                invariant
                    limit <= j <= parts.len(),
                    tail_parts@.len() == j - limit,
                    forall|k: int|
                        0 <= k < tail_parts@.len() ==> (#[trigger] tail_parts@[k])@ == pviews[k
                            + limit],
                decreases parts.len() - j,
            {
                tail_parts.push(parts[j].clone());
                j = j + 1;
            }
            let rest_cap = join_slash(&tail_parts);
            proof {
                assert(tail_parts@.map_values(|p: String| p@) =~= pviews.skip(limit as int));
                lemma_capture_rest(
                    self@.subrange(0, limit as int),
                    pviews,
                    self@[limit as int]->Rest_0,
                );
                assert(self@.subrange(0, limit as int).push(self@[limit as int]) =~= self@);
                assert(pviews.take(limit as int) =~= pviews.subrange(0, limit as int));
            }
            caps.push(rest_cap);
            proof {
                assert(caps@.map_values(|c: String| c@) =~= capture_list(self@, pviews));
            }
            Some(caps)
        } else {
            proof {
                assert(self@.subrange(0, limit as int) =~= self@);
                assert(pviews.subrange(0, limit as int) =~= pviews);
            }
            Some(caps)
        }
    }
}

/// An example text that one segment would match: the literal itself, the
/// placeholder's name, or `name...` for a rest placeholder.
pub open spec fn seg_example(s: SegView) -> Seq<char> {
    match s {
        SegView::Literal(l) => l,
        SegView::Placeholder(n) => n,
        SegView::Rest(n) => n + seq!['.', '.', '.'],
    }
}

/// The segment-wise overlap comparison of two non-`*` patterns.
///
/// The two sequences are walked in step, a trailing rest placeholder
/// repeating indefinitely; `s` records whether a rest placeholder was already
/// passed. The result is an example part list matched by both patterns, or
/// `None` when the patterns cannot overlap.
pub open spec fn overlap_segs(a: Seq<SegView>, b: Seq<SegView>, s: bool) -> Option<
    Seq<Seq<char>>,
>
    decreases a.len() + b.len(),
{
    if a.len() == 0 || b.len() == 0 {
        if a.len() == b.len() || s {
            Some(Seq::<Seq<char>>::empty())
        } else {
            None
        }
    } else {
        let x = a[0];
        let y = b[0];
        if x is Rest && y is Rest {
            Some(seq![seg_example(x)])
        } else if x is Rest {
            match overlap_segs(a, b.skip(1), true) {
                Some(t) => Some(seq![seg_example(y)] + t),
                None => None,
            }
        } else if y is Rest {
            match overlap_segs(a.skip(1), b, true) {
                Some(t) => Some(seq![seg_example(x)] + t),
                None => None,
            }
        } else if x is Placeholder && y is Placeholder {
            match overlap_segs(a.skip(1), b.skip(1), s) {
                Some(t) => Some(seq![seg_example(x)] + t),
                None => None,
            }
        } else if x is Placeholder {
            match overlap_segs(a.skip(1), b.skip(1), s) {
                Some(t) => Some(seq![seg_example(y)] + t),
                None => None,
            }
        } else if y is Placeholder {
            match overlap_segs(a.skip(1), b.skip(1), s) {
                Some(t) => Some(seq![seg_example(x)] + t),
                None => None,
            }
        } else {
            if x->Literal_0 == y->Literal_0 {
                match overlap_segs(a.skip(1), b.skip(1), s) {
                    Some(t) => Some(seq![seg_example(x)] + t),
                    None => None,
                }
            } else {
                None
            }
        }
    }
}

/// An example path matched by both patterns, or `None`.
///
/// The `*` pattern overlaps only the `*` pattern; two ordinary patterns
/// overlap according to [`overlap_segs`], and the example is the part list
/// written as an absolute path.
pub open spec fn overlap_example(a: Seq<SegView>, b: Seq<SegView>) -> Option<Seq<char>> {
    if a.len() == 0 || b.len() == 0 {
        if a.len() == 0 && b.len() == 0 {
            Some(seq!['*'])
        } else {
            None
        }
    } else {
        match overlap_segs(a, b, false) {
            Some(parts) => Some(seq!['/'] + join_slash_spec(parts)),
            None => None,
        }
    }
}

/// Whether the two patterns overlap at all.
pub open spec fn overlaps(a: Seq<SegView>, b: Seq<SegView>) -> bool {
    overlap_example(a, b) is Some
}

/// Overlap detection is symmetric: walking the comparison from either side
/// finds an overlap for exactly the same pattern pairs.
proof fn lemma_overlap_segs_symmetric(a: Seq<SegView>, b: Seq<SegView>, s: bool)
    ensures
        overlap_segs(a, b, s) is Some <==> overlap_segs(b, a, s) is Some,
    decreases a.len() + b.len(),
{
    if a.len() == 0 || b.len() == 0 {
    } else {
        let x = a[0];
        let y = b[0];
        if x is Rest && y is Rest {
        } else if x is Rest {
            lemma_overlap_segs_symmetric(a, b.skip(1), true);
        } else if y is Rest {
            lemma_overlap_segs_symmetric(a.skip(1), b, true);
        } else {
            lemma_overlap_segs_symmetric(a.skip(1), b.skip(1), s);
        }
    }
}

/// Overlap detection is symmetric.
pub proof fn lemma_overlap_symmetric(a: Seq<SegView>, b: Seq<SegView>)
    ensures
        overlaps(a, b) <==> overlaps(b, a),
{
    if a.len() > 0 && b.len() > 0 {
        lemma_overlap_segs_symmetric(a, b, false);
    }
}

/// Builds the example text for one segment.
fn seg_example_of(seg: &Segment) -> (r: String)
    ensures
        r@ == seg_example(seg@),
{
    match seg {
        Segment::Literal(l) => l.clone(),
        Segment::Placeholder(n) => n.clone(),
        Segment::Rest(n) => {
            let r = n.clone().concat("...");
            proof {
                reveal_strlit("...");
                assert("..."@ =~= seq!['.', '.', '.']);
            }
            r
        },
    }
}

impl PathPattern {
    /// Searches for a concrete path that `self` and `other` would both
    /// match, and returns a shortest example of one.
    ///
    /// Patterns of different length overlap only through a rest placeholder;
    /// a placeholder overlaps any literal and any placeholder; two distinct
    /// literals never overlap; `*` overlaps only `*`.
    #[verifier::loop_isolation(false)]
    #[verifier::rlimit(100)]
    pub fn find_overlap(&self, other: &PathPattern) -> (r: Option<String>)
        requires
            segs_wf(self@),
            segs_wf(other@),
        ensures
            r is Some <==> overlaps(self@, other@),
            r matches Some(ex) ==> overlap_example(self@, other@) == Some(ex@),
    {
        let ghost av = self@;
        let ghost bv = other@;
        let alen = self.segments.len();
        let blen = other.segments.len();
        if alen == 0 {
            if blen == 0 {
                let ex = "*".to_owned();
                proof {
                    reveal_strlit("*");
                    assert(ex@ =~= seq!['*']);
                }
                return Some(ex);
            }
            return None;
        }
        if blen == 0 {
            return None;
        }
        let mut parts: Vec<String> = Vec::new();
        let ghost mut gparts = Seq::<Seq<char>>::empty();
        let mut ia: usize = 0;
        let mut ib: usize = 0;
        let mut saw_rest = false;
        proof {
            assert(av.skip(0) =~= av);
            assert(bv.skip(0) =~= bv);
            assert(parts@.map_values(|p: String| p@) =~= gparts);
        }
        while ia < alen && ib < blen
            invariant
                0 <= ia <= alen,
                0 <= ib <= blen,
                gparts == parts@.map_values(|p: String| p@),
                match overlap_segs(av.skip(ia as int), bv.skip(ib as int), saw_rest) {
                    Some(t) => overlap_segs(av, bv, false) == Some(gparts + t),
                    None => overlap_segs(av, bv, false) is None,
                },
            decreases (alen - ia) + (blen - ib),
        {
            let ghost aa = av.skip(ia as int);
            let ghost bb = bv.skip(ib as int);
            proof {
                assert(aa[0] == av[ia as int]);
                assert(bb[0] == bv[ib as int]);
                assert(aa.skip(1) =~= av.skip(ia as int + 1));
                assert(bb.skip(1) =~= bv.skip(ib as int + 1));
            }
            let a_rest = match &self.segments[ia] {
                Segment::Rest(_) => true,
                _ => false,
            };
            let b_rest = match &other.segments[ib] {
                Segment::Rest(_) => true,
                _ => false,
            };
            if a_rest && b_rest {
                let ex_part = seg_example_of(&self.segments[ia]);
                let ghost old_parts = parts@;
                parts.push(ex_part);
                proof {
                    assert(overlap_segs(aa, bb, saw_rest) == Some(seq![seg_example(aa[0])]));
                    gparts = gparts + seq![seg_example(aa[0])];
                    assert(gparts =~= parts@.map_values(|p: String| p@));
                }
                let joined = join_slash(&parts);
                let mut out = String::new();
                out.append("/");
                out.append(joined.as_str());
                proof {
                    reveal_strlit("/");
                    assert("/"@ =~= seq!['/']);
                    assert(overlap_segs(av, bv, false) == Some(gparts));
                    assert(out@ == seq!['/'] + join_slash_spec(gparts));
                }
                return Some(out);
            } else if a_rest {
                let ex_part = seg_example_of(&other.segments[ib]);
                proof {
                    assert(aa.len() > 0 && bb.len() > 0);
                    assert(aa[0] is Rest && !(bb[0] is Rest));
                }
                parts.push(ex_part);
                proof {
                    gparts = gparts + seq![seg_example(bb[0])];
                    assert(gparts =~= parts@.map_values(|p: String| p@));
                    assert(gparts.drop_last() + (seq![seg_example(bb[0])] + overlap_segs(
                        aa,
                        bb.skip(1),
                        true,
                    )->Some_0) =~= gparts + overlap_segs(aa, bb.skip(1), true)->Some_0);
                }
                saw_rest = true;
                ib = ib + 1;
            } else if b_rest {
                let ex_part = seg_example_of(&self.segments[ia]);
                parts.push(ex_part);
                proof {
                    gparts = gparts + seq![seg_example(aa[0])];
                    assert(gparts =~= parts@.map_values(|p: String| p@));
                    assert(gparts.drop_last() + (seq![seg_example(aa[0])] + overlap_segs(
                        aa.skip(1),
                        bb,
                        true,
                    )->Some_0) =~= gparts + overlap_segs(aa.skip(1), bb, true)->Some_0);
                }
                saw_rest = true;
                ia = ia + 1;
            } else {
                let ex_part_opt: Option<String> = match (&self.segments[ia], &other.segments[ib]) {
                    (Segment::Placeholder(n), Segment::Placeholder(_)) => Some(n.clone()),
                    (Segment::Placeholder(_), Segment::Literal(l)) => Some(l.clone()),
                    (Segment::Literal(l), Segment::Placeholder(_)) => Some(l.clone()),
                    (Segment::Literal(l1), Segment::Literal(l2)) => {
                        if l1.eq(l2) {
                            Some(l1.clone())
                        } else {
                            None
                        }
                    },
                    _ => {
                        proof {
                            assert(false);
                        }
                        None
                    },
                };
                match ex_part_opt {
                    None => {
                        proof {
                            assert(overlap_segs(aa, bb, saw_rest) is None);
                        }
                        return None;
                    },
                    Some(ex_part) => {
                        let ghost exv = ex_part@;
                        parts.push(ex_part);
                        proof {
                            assert(overlap_segs(aa, bb, saw_rest) == match overlap_segs(
                                aa.skip(1),
                                bb.skip(1),
                                saw_rest,
                            ) {
                                Some(t) => Some(seq![exv] + t),
                                None => None::<Seq<Seq<char>>>,
                            });
                            gparts = gparts + seq![exv];
                            assert(gparts =~= parts@.map_values(|p: String| p@));
                            assert(gparts.drop_last() + (seq![exv] + overlap_segs(
                                aa.skip(1),
                                bb.skip(1),
                                saw_rest,
                            )->Some_0) =~= gparts + overlap_segs(aa.skip(1), bb.skip(1), saw_rest)
                                ->Some_0);
                        }
                        ia = ia + 1;
                        ib = ib + 1;
                    },
                }
            }
        }
        // One side ran out without reaching a rest placeholder.
        if alen - ia == blen - ib || saw_rest {
            proof {
                assert(overlap_segs(av.skip(ia as int), bv.skip(ib as int), saw_rest) == Some(
                    Seq::<Seq<char>>::empty(),
                ));
                assert(gparts + Seq::<Seq<char>>::empty() =~= gparts);
            }
            let joined = join_slash(&parts);
            let mut out = String::new();
            out.append("/");
            out.append(joined.as_str());
            proof {
                reveal_strlit("/");
                assert("/"@ =~= seq!['/']);
                assert(overlap_segs(av, bv, false) == Some(gparts));
                assert(out@ == seq!['/'] + join_slash_spec(gparts));
            }
            Some(out)
        } else {
            proof {
                assert(overlap_segs(av.skip(ia as int), bv.skip(ib as int), saw_rest) is None);
            }
            None
        }
    }
}

/// A valid identifier contains no `/`.
proof fn lemma_ident_no_slash(n: Seq<char>)
    requires
        valid_ident_spec(n),
    ensures
        no_slash(n),
        n.len() > 0,
{
    assert forall|i: int| 0 <= i < n.len() implies n[i] != '/' by {
        if i == 0 {
            assert(ident_start_char(n[0]));
        } else {
            assert(ident_cont_char(n[i]));
        }
    }
}

/// The example text of a segment is slash-free and, for placeholders and
/// rest placeholders, non-empty.
proof fn lemma_seg_example_no_slash(seg: SegView)
    requires
        match seg {
            SegView::Literal(l) => no_slash(l),
            SegView::Placeholder(n) => valid_ident_spec(n),
            SegView::Rest(n) => valid_ident_spec(n),
        },
    ensures
        no_slash(seg_example(seg)),
        !(seg is Literal) ==> seg_example(seg).len() > 0,
{
    match seg {
        SegView::Literal(_) => {},
        SegView::Placeholder(n) => {
            lemma_ident_no_slash(n);
        },
        SegView::Rest(n) => {
            lemma_ident_no_slash(n);
            let ex = n + seq!['.', '.', '.'];
            assert forall|i: int| 0 <= i < ex.len() implies ex[i] != '/' by {
                if i < n.len() {
                    assert(ex[i] == n[i]);
                } else {
                    assert(ex[i] == '.');
                }
            }
        },
    }
}

/// Well-formedness survives dropping the first segment.
proof fn lemma_segs_wf_skip(segs: Seq<SegView>)
    requires
        segs_wf(segs),
        segs.len() > 0,
    ensures
        segs_wf(segs.skip(1)),
{
    let t = segs.skip(1);
    assert(forall|i: int| 0 <= i < t.len() ==> t[i] == segs[i + 1]);
    assert(!rest_misplaced(t)) by {
        if exists|i: int| 0 <= i < t.len() - 1 && (#[trigger] t[i]) is Rest {
            let i = choose|i: int| 0 <= i < t.len() - 1 && (#[trigger] t[i]) is Rest;
            assert(segs[i + 1] is Rest && 0 <= i + 1 < segs.len() - 1);
        }
    }
}

/// A rest placeholder at the head of well-formed segments is the only one.
proof fn lemma_rest_head_alone(segs: Seq<SegView>)
    requires
        segs_wf(segs),
        segs.len() > 0,
        segs[0] is Rest,
    ensures
        segs.len() == 1,
{
    if segs.len() > 1 {
        assert(0 < segs.len() - 1 && segs[0] is Rest);
        assert(rest_misplaced(segs));
    }
}

/// Prepending a matching part to a matching tail keeps the match.
proof fn lemma_match_cons(segs: Seq<SegView>, t: Seq<Seq<char>>, x: Seq<char>)
    requires
        segs.len() > 0,
        !(segs[0] is Rest),
        seg_matches_part(segs[0], x),
        segs_match_parts(segs.skip(1), t),
    ensures
        segs_match_parts(segs, seq![x] + t),
{
    let parts = seq![x] + t;
    let rest = segs.skip(1);
    assert(forall|i: int| 0 <= i < rest.len() ==> rest[i] == segs[i + 1]);
    assert(forall|i: int| 0 <= i < t.len() ==> parts[i + 1] == t[i]);
    assert(parts[0] == x);
    if segs.len() == 1 {
        assert(!ends_with_rest(segs));
        assert(rest.len() == 0);
        assert(!ends_with_rest(rest));
        assert(t.len() == 0);
        assert(parts.len() == 1);
        assert forall|i: int| 0 <= i < segs.len() implies seg_matches_part(
            #[trigger] segs[i],
            parts[i],
        ) by {
            assert(i == 0);
        }
    } else {
        assert(segs[segs.len() - 1] == rest[rest.len() - 1]);
        assert(ends_with_rest(segs) == ends_with_rest(rest));
        if ends_with_rest(rest) {
            assert(t.len() >= rest.len());
            assert(parts.len() >= segs.len());
            assert forall|i: int| 0 <= i < segs.len() - 1 implies seg_matches_part(
                #[trigger] segs[i],
                parts[i],
            ) by {
                if i > 0 {
                    assert(seg_matches_part(rest[i - 1], t[i - 1]));
                }
            }
        } else {
            assert(t.len() == rest.len());
            assert(parts.len() == segs.len());
            assert forall|i: int| 0 <= i < segs.len() implies seg_matches_part(
                #[trigger] segs[i],
                parts[i],
            ) by {
                if i > 0 {
                    assert(seg_matches_part(rest[i - 1], t[i - 1]));
                }
            }
        }
    }
}

/// Whether the overlap comparison of `a` and `b` never holds a placeholder
/// against an empty literal segment.
///
/// On such pairs (for example `/{a}` against `/`) the comparison reports an
/// example that the placeholder side does not in fact match; everywhere else
/// the reported example is exact.
pub open spec fn overlap_wellmatched(a: Seq<SegView>, b: Seq<SegView>) -> bool
    decreases a.len() + b.len(),
{
    if a.len() == 0 || b.len() == 0 {
        true
    } else {
        let x = a[0];
        let y = b[0];
        if x is Rest && y is Rest {
            true
        } else if x is Rest {
            overlap_wellmatched(a, b.skip(1))
        } else if y is Rest {
            overlap_wellmatched(a.skip(1), b)
        } else if x is Placeholder && y is Placeholder {
            overlap_wellmatched(a.skip(1), b.skip(1))
        } else if x is Placeholder {
            y->Literal_0.len() > 0 && overlap_wellmatched(a.skip(1), b.skip(1))
        } else if y is Placeholder {
            x->Literal_0.len() > 0 && overlap_wellmatched(a.skip(1), b.skip(1))
        } else {
            x->Literal_0 == y->Literal_0 ==> overlap_wellmatched(a.skip(1), b.skip(1))
        }
    }
}

/// The segment-wise overlap example is matched by both sides.
proof fn lemma_overlap_segs_exact(a: Seq<SegView>, b: Seq<SegView>, s: bool)
    requires
        segs_wf(a),
        segs_wf(b),
        overlap_wellmatched(a, b),
        s ==> ((a.len() == 1 && a[0] is Rest) || (b.len() == 1 && b[0] is Rest)),
        overlap_segs(a, b, s) is Some,
    ensures
        all_no_slash(overlap_segs(a, b, s)->Some_0),
        a.len() > 0 ==> (segs_match_parts(a, overlap_segs(a, b, s)->Some_0) || (overlap_segs(
            a,
            b,
            s,
        )->Some_0.len() == 0 && s)),
        b.len() > 0 ==> (segs_match_parts(b, overlap_segs(a, b, s)->Some_0) || (overlap_segs(
            a,
            b,
            s,
        )->Some_0.len() == 0 && s)),
    decreases a.len() + b.len(),
{
    let t = overlap_segs(a, b, s)->Some_0;
    if a.len() == 0 || b.len() == 0 {
        assert(t =~= Seq::<Seq<char>>::empty());
    } else {
        let x = a[0];
        let y = b[0];
        if x is Rest && y is Rest {
            lemma_rest_head_alone(a);
            lemma_rest_head_alone(b);
            lemma_seg_example_of_head(a);
            assert(t =~= seq![seg_example(x)]);
            assert(segs_match_parts(a, t));
            assert(segs_match_parts(b, t));
        } else if x is Rest {
            lemma_rest_head_alone(a);
            lemma_segs_wf_skip(b);
            lemma_overlap_segs_exact(a, b.skip(1), true);
            let t2 = overlap_segs(a, b.skip(1), true)->Some_0;
            assert(t == seq![seg_example(y)] + t2);
            lemma_seg_example_of_head(b);
            assert(all_no_slash(t)) by {
                assert(forall|i: int| 1 <= i < t.len() ==> t[i] == t2[i - 1]);
                assert(t[0] == seg_example(y));
            }
            assert(segs_match_parts(a, t)) by {
                assert(ends_with_rest(a));
                assert(t.len() >= 1);
            }
            if b.skip(1).len() == 0 {
                assert(t2 =~= Seq::<Seq<char>>::empty());
                assert(t =~= seq![seg_example(y)]);
                assert(!ends_with_rest(b));
                assert(seg_matches_part(y, seg_example(y)));
                assert(segs_match_parts(b, t));
            } else {
                if t2.len() == 0 {
                    assert(b.skip(1).len() == 0);
                    assert(false);
                }
                assert(segs_match_parts(b.skip(1), t2));
                assert(seg_matches_part(y, seg_example(y)));
                lemma_match_cons(b, t2, seg_example(y));
            }
        } else if y is Rest {
            lemma_rest_head_alone(b);
            lemma_segs_wf_skip(a);
            lemma_overlap_segs_exact(a.skip(1), b, true);
            let t2 = overlap_segs(a.skip(1), b, true)->Some_0;
            assert(t == seq![seg_example(x)] + t2);
            lemma_seg_example_of_head(a);
            assert(all_no_slash(t)) by {
                assert(forall|i: int| 1 <= i < t.len() ==> t[i] == t2[i - 1]);
                assert(t[0] == seg_example(x));
            }
            assert(segs_match_parts(b, t)) by {
                assert(ends_with_rest(b));
                assert(t.len() >= 1);
            }
            if a.skip(1).len() == 0 {
                assert(t2 =~= Seq::<Seq<char>>::empty());
                assert(t =~= seq![seg_example(x)]);
                assert(!ends_with_rest(a));
                assert(seg_matches_part(x, seg_example(x)));
                assert(segs_match_parts(a, t));
            } else {
                if t2.len() == 0 {
                    assert(a.skip(1).len() == 0);
                    assert(false);
                }
                assert(segs_match_parts(a.skip(1), t2));
                assert(seg_matches_part(x, seg_example(x)));
                lemma_match_cons(a, t2, seg_example(x));
            }
        } else {
            // Neither head is a rest placeholder, so no rest placeholder has
            // been passed yet.
            assert(!s);
            lemma_segs_wf_skip(a);
            lemma_segs_wf_skip(b);
            lemma_overlap_segs_exact(a.skip(1), b.skip(1), false);
            let t2 = overlap_segs(a.skip(1), b.skip(1), false)->Some_0;
            let ex = if x is Placeholder && y is Placeholder {
                seg_example(x)
            } else if x is Placeholder {
                seg_example(y)
            } else if y is Placeholder {
                seg_example(x)
            } else {
                seg_example(x)
            };
            assert(t == seq![ex] + t2);
            lemma_seg_example_of_head(a);
            lemma_seg_example_of_head(b);
            assert(seg_matches_part(x, ex) && seg_matches_part(y, ex)) by {
                if x is Placeholder && y is Placeholder {
                    lemma_ident_no_slash(x->Placeholder_0);
                } else if x is Placeholder {
                    assert(y->Literal_0.len() > 0);
                } else if y is Placeholder {
                    assert(x->Literal_0.len() > 0);
                } else {
                    assert(x->Literal_0 == y->Literal_0);
                }
            }
            assert(all_no_slash(t)) by {
                assert(forall|i: int| 1 <= i < t.len() ==> t[i] == t2[i - 1]);
                assert(no_slash(ex));
                assert(t[0] == ex);
            }
            if a.skip(1).len() == 0 {
                assert(t2 =~= Seq::<Seq<char>>::empty());
                assert(b.skip(1).len() == 0);
                assert(t =~= seq![ex]);
                assert(segs_match_parts(a, t));
                assert(segs_match_parts(b, t));
            } else {
                if t2.len() == 0 {
                    assert(false);
                }
                assert(segs_match_parts(a.skip(1), t2));
                assert(segs_match_parts(b.skip(1), t2));
                lemma_match_cons(a, t2, ex);
                lemma_match_cons(b, t2, ex);
            }
        }
    }
}

/// The example of the head segment of well-formed segments is slash-free.
proof fn lemma_seg_example_of_head(segs: Seq<SegView>)
    requires
        segs_wf(segs),
        segs.len() > 0,
    ensures
        no_slash(seg_example(segs[0])),
        !(segs[0] is Literal) ==> seg_example(segs[0]).len() > 0,
        segs[0] is Placeholder ==> valid_ident_spec(segs[0]->Placeholder_0),
{
    lemma_seg_example_no_slash(segs[0]);
}

/// The overlap example is exact: an example path reported for two
/// well-formed patterns is matched by both, provided the comparison never
/// holds a placeholder against an empty literal segment.
pub proof fn lemma_overlap_exact(a: Seq<SegView>, b: Seq<SegView>)
    requires
        segs_wf(a),
        segs_wf(b),
        overlap_wellmatched(a, b),
        overlap_example(a, b) is Some,
    ensures
        pattern_matches(a, overlap_example(a, b)->Some_0),
        pattern_matches(b, overlap_example(a, b)->Some_0),
{
    let ex = overlap_example(a, b)->Some_0;
    if a.len() == 0 || b.len() == 0 {
        assert(a.len() == 0 && b.len() == 0);
        assert(ex == seq!['*']);
    } else {
        let t = overlap_segs(a, b, false)->Some_0;
        lemma_overlap_segs_exact(a, b, false);
        assert(t.len() >= 1);
        assert(segs_match_parts(a, t));
        assert(segs_match_parts(b, t));
        assert(ex == seq!['/'] + join_slash_spec(t));
        assert(ex[0] == '/');
        assert(ex.skip(1) =~= join_slash_spec(t));
        crate::strutil::lemma_split_of_join(t);
    }
}

impl Clone for Segment {
    /// Clones the segment, preserving its model.
    fn clone(&self) -> (r: Self)
        ensures
            r@ == self@,
    {
        match self {
            Segment::Literal(l) => Segment::Literal(l.clone()),
            Segment::Placeholder(n) => Segment::Placeholder(n.clone()),
            Segment::Rest(n) => Segment::Rest(n.clone()),
        }
    }
}

impl Clone for PathPattern {
    /// Clones the pattern, preserving its model, raw text and placeholders.
    fn clone(&self) -> (r: Self)
        ensures
            r@ == self@,
            r.raw@ == self.raw@,
            r.placeholders@.map_values(|n: String| n@) == self.placeholders@.map_values(
                |n: String| n@,
            ),
            self.wf() ==> r.wf(),
    {
        let mut segments: Vec<Segment> = Vec::new();
        let mut i: usize = 0;
        while i < self.segments.len()
            invariant
                0 <= i <= self.segments.len(),
                segments@.len() == i,
                forall|k: int| 0 <= k < i ==> (#[trigger] segments@[k])@ == self.segments@[k]@,
            decreases self.segments.len() - i,
        {
            segments.push(self.segments[i].clone());
            i = i + 1;
        }
        let mut placeholders: Vec<String> = Vec::new();
        let mut j: usize = 0;
        while j < self.placeholders.len()
            invariant
                0 <= j <= self.placeholders.len(),
                placeholders@.len() == j,
                forall|k: int|
                    0 <= k < j ==> (#[trigger] placeholders@[k])@ == self.placeholders@[k]@,
            decreases self.placeholders.len() - j,
        {
            placeholders.push(self.placeholders[j].clone());
            j = j + 1;
        }
        let r = PathPattern { raw: self.raw.clone(), segments, placeholders };
        proof {
            assert(r@ =~= self@);
            assert(r.placeholders@.map_values(|n: String| n@) =~= self.placeholders@.map_values(
                |n: String| n@,
            ));
        }
        r
    }
}

/// A pattern captures one value per placeholder name.
pub proof fn lemma_captures_len(segs: Seq<SegView>, parts: Seq<Seq<char>>)
    requires
        segs_wf(segs),
    ensures
        capture_list(segs, parts).len() == names_of(segs).len(),
    decreases segs.len(),
{
    if segs.len() == 0 {
    } else {
        match segs[0] {
            SegView::Literal(_) => {
                lemma_segs_wf_skip(segs);
                lemma_captures_len(segs.skip(1), parts.skip(1));
            },
            SegView::Placeholder(_) => {
                lemma_segs_wf_skip(segs);
                lemma_captures_len(segs.skip(1), parts.skip(1));
            },
            SegView::Rest(_) => {
                lemma_rest_head_alone(segs);
                assert(segs.skip(1) =~= Seq::<SegView>::empty());
                assert(names_of(Seq::<SegView>::empty()).len() == 0);
                assert(capture_list(segs, parts).len() == 1);
                assert(names_of(segs).len() == 1);
            },
        }
    }
}

/// Dropping a matched head segment keeps the tail matching.
proof fn lemma_match_tail(segs: Seq<SegView>, parts: Seq<Seq<char>>)
    requires
        segs.len() > 0,
        !(segs[0] is Rest),
        segs_match_parts(segs, parts),
    ensures
        parts.len() > 0,
        segs_match_parts(segs.skip(1), parts.skip(1)),
{
    let st = segs.skip(1);
    let pt = parts.skip(1);
    assert(forall|i: int| 0 <= i < st.len() ==> st[i] == segs[i + 1]);
    assert(forall|i: int| 0 <= i < pt.len() ==> pt[i] == parts[i + 1]);
    if ends_with_rest(segs) {
        assert(segs.len() >= 2);
        assert(st[st.len() - 1] == segs[segs.len() - 1]);
        assert(ends_with_rest(st));
        assert(pt.len() >= st.len());
        assert forall|i: int| 0 <= i < st.len() - 1 implies seg_matches_part(
            #[trigger] st[i],
            pt[i],
        ) by {
            assert(seg_matches_part(segs[i + 1], parts[i + 1]));
        }
    } else {
        if segs.len() == 1 {
            assert(st.len() == 0 && pt.len() == 0);
            assert(!ends_with_rest(st));
        } else {
            assert(st[st.len() - 1] == segs[segs.len() - 1]);
            assert(!ends_with_rest(st));
            assert forall|i: int| 0 <= i < st.len() implies seg_matches_part(
                #[trigger] st[i],
                pt[i],
            ) by {
                assert(seg_matches_part(segs[i + 1], parts[i + 1]));
            }
        }
    }
}

/// If two patterns both match a part list, walking them in step finds an
/// overlap.
proof fn lemma_overlap_segs_complete(a: Seq<SegView>, b: Seq<SegView>, s: bool, parts: Seq<
    Seq<char>,
>)
    requires
        segs_wf(a),
        segs_wf(b),
        segs_match_parts(a, parts) || (s && a.len() == 1 && a[0] is Rest),
        segs_match_parts(b, parts) || (s && b.len() == 1 && b[0] is Rest),
    ensures
        overlap_segs(a, b, s) is Some,
    decreases a.len() + b.len(),
{
    if a.len() == 0 || b.len() == 0 {
        if a.len() == 0 {
            assert(segs_match_parts(a, parts));
            assert(!ends_with_rest(a));
            assert(parts.len() == 0);
            if b.len() > 0 {
                if segs_match_parts(b, parts) {
                    if ends_with_rest(b) {
                        assert(parts.len() >= b.len());
                        assert(false);
                    } else {
                        assert(parts.len() == b.len());
                        assert(false);
                    }
                } else {
                    assert(s);
                }
            }
        } else {
            assert(segs_match_parts(b, parts));
            assert(parts.len() == 0);
            if segs_match_parts(a, parts) {
                if ends_with_rest(a) {
                    assert(parts.len() >= a.len());
                    assert(false);
                } else {
                    assert(parts.len() == a.len());
                    assert(false);
                }
            } else {
                assert(s);
            }
        }
    } else {
        let x = a[0];
        let y = b[0];
        if x is Rest && y is Rest {
        } else if x is Rest {
            lemma_rest_head_alone(a);
            lemma_segs_wf_skip(b);
            assert(!(y is Rest));
            assert(segs_match_parts(b, parts)) by {
                if !(segs_match_parts(b, parts)) {
                    assert(s && b.len() == 1 && b[0] is Rest);
                }
            }
            lemma_match_tail(b, parts);
            lemma_overlap_segs_complete(a, b.skip(1), true, parts.skip(1));
        } else if y is Rest {
            lemma_rest_head_alone(b);
            lemma_segs_wf_skip(a);
            assert(segs_match_parts(a, parts)) by {
                if !(segs_match_parts(a, parts)) {
                    assert(s && a.len() == 1 && a[0] is Rest);
                }
            }
            lemma_match_tail(a, parts);
            lemma_overlap_segs_complete(a.skip(1), b, true, parts.skip(1));
        } else {
            assert(segs_match_parts(a, parts));
            assert(segs_match_parts(b, parts));
            assert(parts.len() > 0) by {
                if ends_with_rest(a) {
                    assert(parts.len() >= a.len());
                } else {
                    assert(parts.len() == a.len());
                }
            }
            assert(seg_matches_part(x, parts[0]));
            assert(seg_matches_part(y, parts[0]));
            lemma_segs_wf_skip(a);
            lemma_segs_wf_skip(b);
            lemma_match_tail(a, parts);
            lemma_match_tail(b, parts);
            if x is Placeholder || y is Placeholder {
                lemma_overlap_segs_complete(a.skip(1), b.skip(1), s, parts.skip(1));
            } else {
                assert(x->Literal_0 == parts[0] && y->Literal_0 == parts[0]);
                lemma_overlap_segs_complete(a.skip(1), b.skip(1), s, parts.skip(1));
            }
        }
    }
}

/// Patterns that do not overlap never both match one concrete path.
pub proof fn lemma_disjoint_patterns(a: Seq<SegView>, b: Seq<SegView>, path: Seq<char>)
    requires
        segs_wf(a),
        segs_wf(b),
        !overlaps(a, b),
        pattern_matches(a, path),
    ensures
        !pattern_matches(b, path),
{
    if pattern_matches(b, path) {
        if a.len() == 0 {
            assert(path == seq!['*']);
            if b.len() == 0 {
                assert(overlaps(a, b));
            } else {
                assert(path[0] == '/');
                assert(seq!['*'][0] == '*');
                assert(false);
            }
        } else if b.len() == 0 {
            assert(path == seq!['*']);
            assert(path[0] == '/');
            assert(seq!['*'][0] == '*');
            assert(false);
        } else {
            let parts = split_slash_spec(path.skip(1));
            lemma_overlap_segs_complete(a, b, false, parts);
            assert(overlaps(a, b));
        }
    }
}

/// If no segment text fails, every segment text parses.
proof fn lemma_first_seg_err_none_inv(texts: Seq<Seq<char>>)
    requires
        first_seg_err(texts) is None,
    ensures
        forall|i: int| 0 <= i < texts.len() ==> seg_of_text(#[trigger] texts[i]) is Ok,
    decreases texts.len(),
{
    if texts.len() == 0 {
    } else {
        assert(seg_of_text(texts[0]) is Ok);
        lemma_first_seg_err_none_inv(texts.skip(1));
        assert(forall|i: int| 0 <= i < texts.skip(1).len() ==> texts.skip(1)[i] == texts[i + 1]);
        assert forall|i: int| 0 <= i < texts.len() implies seg_of_text(
            #[trigger] texts[i],
        ) is Ok by {
            if i > 0 {
                assert(seg_of_text(texts.skip(1)[i - 1]) is Ok);
            }
        }
    }
}

/// The segments of a path that parses are well formed.
pub proof fn lemma_parsed_segs_wf(path: Seq<char>)
    requires
        path_parses(path),
    ensures
        segs_wf(segs_of_path(path)),
        !has_dup(names_of(segs_of_path(path))),
    decreases path.len(),
{
    let segs = segs_of_path(path);
    if path == seq!['*'] {
        assert(segs.len() == 0);
        assert(!rest_misplaced(segs));
    } else {
        let texts = texts_of(path);
        lemma_first_seg_err_none_inv(texts);
        crate::strutil::lemma_split_parts_no_slash(path.skip(1));
        assert forall|i: int| 0 <= i < segs.len() implies match #[trigger] segs[i] {
            SegView::Literal(l) => no_slash(l),
            SegView::Placeholder(n) => valid_ident_spec(n),
            SegView::Rest(n) => valid_ident_spec(n),
        } by {
            assert(seg_of_text(texts[i]) is Ok);
            assert(segs[i] == seg_ok(texts[i]));
            lemma_seg_of_text_wf(texts[i], segs[i]);
            assert(no_slash(texts[i]));
        }
    }
}

/// Patterns of one shape have the same number of placeholder names.
pub proof fn lemma_names_len_shape(a: Seq<SegView>, b: Seq<SegView>)
    requires
        erase_segs(a) == erase_segs(b),
    ensures
        names_of(a).len() == names_of(b).len(),
    decreases a.len(),
{
    assert(erase_segs(a).len() == a.len());
    assert(erase_segs(b).len() == b.len());
    assert(a.len() == b.len());
    if a.len() == 0 {
    } else {
        assert(erase_segs(a)[0] == erase_seg(a[0]));
        assert(erase_segs(b)[0] == erase_seg(b[0]));
        assert(erase_segs(a.skip(1)) =~= erase_segs(a).skip(1));
        assert(erase_segs(b.skip(1)) =~= erase_segs(b).skip(1));
        lemma_names_len_shape(a.skip(1), b.skip(1));
        match a[0] {
            SegView::Literal(_) => {
                assert(b[0] is Literal);
            },
            SegView::Placeholder(_) => {
                assert(b[0] is Placeholder);
            },
            SegView::Rest(_) => {
                assert(b[0] is Rest);
            },
        }
    }
}

} // verus!
