//! Splitting and joining of `/`-separated path strings.
//!
//! A request path such as `/users/42` is handled segment-wise throughout the
//! crate. The functions here split a string at every `/` and join segment
//! lists back together, with exact specifications relating the two.

use vstd::prelude::*;

verus! {

/// Holds when no character of `s` is a `/`.
pub open spec fn no_slash(s: Seq<char>) -> bool {
    forall|i: int| 0 <= i < s.len() ==> s[i] != '/'
}

/// Holds when no part of `parts` contains a `/`.
pub open spec fn all_no_slash(parts: Seq<Seq<char>>) -> bool {
    forall|i: int| 0 <= i < parts.len() ==> no_slash(#[trigger] parts[i])
}

/// The list of `/`-separated parts of `s`.
///
/// Every string has at least one part; separators at the ends yield empty
/// parts, so `"/a/"` splits into `["", "a", ""]`.
pub open spec fn split_slash_spec(s: Seq<char>) -> Seq<Seq<char>>
    decreases s.len(),
{
    if s.len() == 0 {
        seq![Seq::<char>::empty()]
    } else if s[0] == '/' {
        seq![Seq::<char>::empty()] + split_slash_spec(s.skip(1))
    } else {
        let rest = split_slash_spec(s.skip(1));
        seq![seq![s[0]] + rest[0]] + rest.skip(1)
    }
}

/// The parts of `parts` concatenated with a `/` between neighbours.
pub open spec fn join_slash_spec(parts: Seq<Seq<char>>) -> Seq<char>
    decreases parts.len(),
{
    if parts.len() == 0 {
        Seq::<char>::empty()
    } else if parts.len() == 1 {
        parts[0]
    } else {
        parts[0] + seq!['/'] + join_slash_spec(parts.skip(1))
    }
}

/// Splitting yields at least one part.
pub proof fn lemma_split_len(s: Seq<char>)
    ensures
        split_slash_spec(s).len() >= 1,
    decreases s.len(),
{
    if s.len() == 0 {
    } else {
        lemma_split_len(s.skip(1));
    }
}

/// A string without `/` is its own single part.
pub proof fn lemma_split_no_slash(s: Seq<char>)
    requires
        no_slash(s),
    ensures
        split_slash_spec(s) =~= seq![s],
    decreases s.len(),
{
    if s.len() == 0 {
        assert(s =~= Seq::<char>::empty());
        assert(split_slash_spec(s) =~= seq![s]);
    } else {
        assert(s[0] != '/');
        assert(no_slash(s.skip(1))) by {
            assert(forall|i: int|
                0 <= i < s.skip(1).len() ==> s.skip(1)[i] == s[i + 1] && s[i + 1] != '/');
        }
        lemma_split_no_slash(s.skip(1));
        assert(seq![s[0]] + s.skip(1) =~= s);
    }
}

/// Splitting distributes over the first `/` after a slash-free prefix.
pub proof fn lemma_split_append(p: Seq<char>, t: Seq<char>)
    requires
        no_slash(p),
    ensures
        split_slash_spec(p + seq!['/'] + t) =~= seq![p] + split_slash_spec(t),
    decreases p.len(),
{
    let s = p + seq!['/'] + t;
    if p.len() == 0 {
        assert(s[0] == '/');
        assert(s.skip(1) =~= t);
        assert(p =~= Seq::<char>::empty());
        assert(split_slash_spec(s) =~= seq![Seq::<char>::empty()] + split_slash_spec(t));
    } else {
        assert(s[0] == p[0]);
        assert(s[0] != '/');
        assert(no_slash(p.skip(1))) by {
            assert(forall|i: int|
                0 <= i < p.skip(1).len() ==> p.skip(1)[i] == p[i + 1] && p[i + 1] != '/');
        }
        assert(s.skip(1) =~= p.skip(1) + seq!['/'] + t);
        lemma_split_append(p.skip(1), t);
        let rest = split_slash_spec(s.skip(1));
        assert(rest =~= seq![p.skip(1)] + split_slash_spec(t));
        assert(rest[0] == p.skip(1));
        assert(seq![s[0]] + rest[0] =~= p);
        assert(rest.skip(1) =~= split_slash_spec(t));
    }
}

/// Joining, then splitting, restores a non-empty list of slash-free parts.
pub proof fn lemma_split_of_join(parts: Seq<Seq<char>>)
    requires
        parts.len() >= 1,
        all_no_slash(parts),
    ensures
        split_slash_spec(join_slash_spec(parts)) =~= parts,
    decreases parts.len(),
{
    if parts.len() == 1 {
        lemma_split_no_slash(parts[0]);
        assert(split_slash_spec(join_slash_spec(parts)) =~= seq![parts[0]]);
        assert(seq![parts[0]] =~= parts);
    } else {
        assert(all_no_slash(parts.skip(1))) by {
            assert(forall|i: int|
                0 <= i < parts.skip(1).len() ==> parts.skip(1)[i] == parts[i + 1]);
        }
        lemma_split_of_join(parts.skip(1));
        lemma_split_append(parts[0], join_slash_spec(parts.skip(1)));
        assert(seq![parts[0]] + parts.skip(1) =~= parts);
    }
}

/// Every part produced by splitting is slash-free.
pub proof fn lemma_split_parts_no_slash(s: Seq<char>)
    ensures
        all_no_slash(split_slash_spec(s)),
    decreases s.len(),
{
    if s.len() == 0 {
    } else {
        lemma_split_parts_no_slash(s.skip(1));
        let rest = split_slash_spec(s.skip(1));
        lemma_split_len(s.skip(1));
        if s[0] == '/' {
        } else {
            let first = seq![s[0]] + rest[0];
            assert(no_slash(first)) by {
                assert(forall|i: int| 1 <= i < first.len() ==> first[i] == rest[0][i - 1]);
            }
            let whole = split_slash_spec(s);
            assert(forall|i: int|
                1 <= i < whole.len() ==> whole[i] == rest.skip(1)[i - 1] && no_slash(
                    rest.skip(1)[i - 1],
                ));
        }
    }
}

/// Splits `s` at every `/`.
pub fn split_slash(s: &str) -> (parts: Vec<String>)
    ensures
        parts@.len() == split_slash_spec(s@).len(),
        forall|i: int| 0 <= i < parts@.len() ==> parts@[i]@ == split_slash_spec(s@)[i],
{
    let len = s.unicode_len();
    let mut parts: Vec<String> = Vec::new();
    let mut start: usize = 0;
    let mut i: usize = 0;
    proof {
        assert(s@.skip(0) =~= s@);
        assert(parts@.map_values(|p: String| p@) =~= Seq::<Seq<char>>::empty());
    }
    while i < len
        invariant
            0 <= start <= i <= len,
            len == s@.len(),
            no_slash(s@.subrange(start as int, i as int)),
            split_slash_spec(s@) =~= parts@.map_values(|p: String| p@) + split_slash_spec(
                s@.skip(start as int),
            ),
        decreases len - i,
    {
        let c = s.get_char(i);
        if c == '/' {
            let part = s.substring_char(start, i).to_owned();
            proof {
                let p = s@.subrange(start as int, i as int);
                let t = s@.skip(i as int + 1);
                assert(s@.skip(start as int) =~= p + seq!['/'] + t);
                lemma_split_append(p, t);
                assert((parts@ + seq![part]).map_values(|q: String| q@) =~= parts@.map_values(
                    |q: String| q@,
                ) + seq![p]);
            }
            parts.push(part);
            start = i + 1;
            proof {
                assert(s@.subrange(start as int, i as int + 1) =~= Seq::<char>::empty());
            }
        } else {
            proof {
                assert(no_slash(s@.subrange(start as int, i as int + 1))) by {
                    let sub = s@.subrange(start as int, i as int + 1);
                    assert(forall|k: int|
                        0 <= k < sub.len() - 1 ==> sub[k] == s@.subrange(
                            start as int,
                            i as int,
                        )[k]);
                    assert(sub[sub.len() - 1] == s@[i as int]);
                    assert(s@[i as int] != '/');
                }
            }
        }
        i = i + 1;
    }
    let last = s.substring_char(start, len).to_owned();
    proof {
        let p = s@.subrange(start as int, len as int);
        assert(s@.skip(start as int) =~= p);
        lemma_split_no_slash(p);
        assert((parts@ + seq![last]).map_values(|q: String| q@) =~= parts@.map_values(
            |q: String| q@,
        ) + seq![p]);
    }
    parts.push(last);
    parts
}

/// Joining one more part appends a separator and the part.
pub proof fn lemma_join_snoc(parts: Seq<Seq<char>>, q: Seq<char>)
    ensures
        parts.len() == 0 ==> join_slash_spec(parts.push(q)) =~= q,
        parts.len() >= 1 ==> join_slash_spec(parts.push(q)) =~= join_slash_spec(parts)
            + seq!['/'] + q,
    decreases parts.len(),
{
    if parts.len() == 0 {
        assert(join_slash_spec(parts.push(q)) == parts.push(q)[0]);
        assert(parts.push(q)[0] == q);
    } else if parts.len() == 1 {
        let both = parts.push(q);
        assert(both.skip(1) =~= seq![q]);
        assert(both[0] == parts[0]);
        assert(join_slash_spec(both.skip(1)) == q);
        assert(join_slash_spec(both) =~= parts[0] + seq!['/'] + q);
    } else {
        lemma_join_snoc(parts.skip(1), q);
        let both = parts.push(q);
        assert(both.skip(1) =~= parts.skip(1).push(q));
        assert(join_slash_spec(both) =~= both[0] + seq!['/'] + join_slash_spec(
            parts.skip(1).push(q),
        ));
        assert(join_slash_spec(both) =~= parts[0] + seq!['/'] + (join_slash_spec(parts.skip(1))
            + seq!['/'] + q));
        assert(parts[0] + seq!['/'] + (join_slash_spec(parts.skip(1)) + seq!['/'] + q) =~= (
        parts[0] + seq!['/'] + join_slash_spec(parts.skip(1))) + seq!['/'] + q);
    }
}

/// Joins `parts` with a `/` between neighbours.
pub fn join_slash(parts: &Vec<String>) -> (r: String)
    ensures
        r@ == join_slash_spec(parts@.map_values(|p: String| p@)),
{
    let views = Ghost(parts@.map_values(|p: String| p@));
    let mut r = String::new();
    let mut i: usize = 0;
    while i < parts.len()
        invariant
            0 <= i <= parts.len(),
            views@ == parts@.map_values(|p: String| p@),
            r@ == join_slash_spec(views@.take(i as int)),
        decreases parts.len() - i,
    {
        if i > 0 {
            r.append("/");
            proof {
                reveal_strlit("/");
                assert("/"@ =~= seq!['/']);
            }
        }
        r.append(parts[i].as_str());
        proof {
            lemma_join_snoc(views@.take(i as int), views@[i as int]);
            assert(views@.take(i as int + 1) =~= views@.take(i as int).push(views@[i as int]));
        }
        i = i + 1;
    }
    proof {
        assert(views@.take(parts@.len() as int) =~= views@);
    }
    r
}

} // verus!
