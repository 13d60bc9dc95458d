//! Typed placeholder fields and their string-parse capability.
//!
//! Each placeholder field of a route declares a [`ParseKind`]: how the
//! captured path segment is turned into a value. Parsing follows the usual
//! decimal integer syntax: an optional leading `+`, then one or more digits,
//! rejected on overflow of the declared width.

use vstd::prelude::*;

verus! {

/// How a captured path segment is parsed into a field value.
#[derive(Clone, Copy, PartialEq, Eq, Structural, Debug)]
pub enum ParseKind {
    U8,
    U32,
    U64,
    /// The segment text itself, never failing.
    Text,
}

/// A parsed field value.
#[derive(Debug)]
pub enum FieldValue {
    Uint(u64),
    Text(String),
}

/// The mathematical model of a [`FieldValue`].
pub enum FieldValueView {
    Uint(nat),
    Text(Seq<char>),
}

impl View for FieldValue {
    type V = FieldValueView;

    open spec fn view(&self) -> FieldValueView {
        match self {
            FieldValue::Uint(v) => FieldValueView::Uint(*v as nat),
            FieldValue::Text(s) => FieldValueView::Text(s@),
        }
    }
}

/// A decimal digit.
pub open spec fn is_digit(c: char) -> bool {
    48 <= c as u32 <= 57
}

/// The numeric value of a digit; zero for other characters.
pub open spec fn digit_val(c: char) -> nat {
    if is_digit(c) {
        (c as u32 - 48) as nat
    } else {
        0
    }
}

/// The value of a digit string, most significant digit first.
pub open spec fn dec_val(s: Seq<char>) -> nat
    decreases s.len(),
{
    if s.len() == 0 {
        0
    } else {
        dec_val(s.drop_last()) * 10 + digit_val(s.last())
    }
}

/// The digits of an integer literal: everything after an optional `+`.
pub open spec fn uint_str_body(s: Seq<char>) -> Seq<char> {
    if s.len() > 0 && s[0] == '+' {
        s.skip(1)
    } else {
        s
    }
}

/// Whether `s` is a decimal unsigned integer literal.
pub open spec fn is_uint_str(s: Seq<char>) -> bool {
    let b = uint_str_body(s);
    b.len() > 0 && forall|i: int| 0 <= i < b.len() ==> is_digit(#[trigger] b[i])
}

/// The value of a decimal unsigned integer literal.
pub open spec fn uint_of_str(s: Seq<char>) -> nat {
    dec_val(uint_str_body(s))
}

/// The largest value a parse kind accepts; zero for text.
pub open spec fn kind_max(kind: ParseKind) -> nat {
    match kind {
        ParseKind::U8 => 0xff,
        ParseKind::U32 => 0xffff_ffff,
        ParseKind::U64 => 0xffff_ffff_ffff_ffff,
        ParseKind::Text => 0,
    }
}

/// What parsing a segment text yields: the value, or `None` on failure.
pub open spec fn parse_field_spec(kind: ParseKind, s: Seq<char>) -> Option<FieldValueView> {
    match kind {
        ParseKind::Text => Some(FieldValueView::Text(s)),
        _ => if is_uint_str(s) && uint_of_str(s) <= kind_max(kind) {
            Some(FieldValueView::Uint(uint_of_str(s)))
        } else {
            None
        },
    }
}

/// The value of a digit-string prefix never exceeds the whole.
proof fn lemma_dec_val_prefix(b: Seq<char>, j: int)
    requires
        0 <= j <= b.len(),
    ensures
        dec_val(b.take(j)) <= dec_val(b),
    decreases b.len() - j,
{
    if j == b.len() {
        assert(b.take(j) =~= b);
    } else {
        let t = b.take(j + 1);
        assert(t.drop_last() =~= b.take(j));
        assert(t.last() == b[j]);
        assert(dec_val(b.take(j)) * 10 >= dec_val(b.take(j))) by (nonlinear_arith);
        assert(dec_val(b.take(j)) <= dec_val(t));
        lemma_dec_val_prefix(b, j + 1);
    }
}

/// Ten times a value past a tenth of the maximum exceeds the maximum.
proof fn lemma_mul_ten_exceeds(v: nat, max: nat)
    requires
        v > max / 10,
    ensures
        v * 10 > max,
{
    assert(v >= max / 10 + 1);
    assert((max / 10 + 1) * 10 > max) by (nonlinear_arith);
    assert(v * 10 >= (max / 10 + 1) * 10) by (nonlinear_arith)
        requires
            v >= max / 10 + 1,
    ;
}

/// Parses a captured path segment according to its declared kind.
#[verifier::loop_isolation(false)]
pub fn parse_field(kind: ParseKind, s: &str) -> (r: Option<FieldValue>)
    ensures
        match r {
            Some(v) => parse_field_spec(kind, s@) == Some(v@),
            None => parse_field_spec(kind, s@) is None,
        },
{
    let max: u64 = match kind {
        ParseKind::U8 => 0xff,
        ParseKind::U32 => 0xffff_ffff,
        ParseKind::U64 => 0xffff_ffff_ffff_ffff,
        ParseKind::Text => {
            return Some(FieldValue::Text(s.to_owned()));
        },
    };
    let len = s.unicode_len();
    let start: usize = if len > 0 && s.get_char(0) == '+' {
        1
    } else {
        0
    };
    let ghost body = uint_str_body(s@);
    proof {
        assert(body =~= s@.subrange(start as int, len as int));
    }
    if start == len {
        proof {
            assert(body.len() == 0);
        }
        return None;
    }
    let mut v: u64 = 0;
    let mut i: usize = start;
    proof {
        assert(body.take(0) =~= Seq::<char>::empty());
    }
    while i < len
        invariant
            start <= i <= len,
            v <= max,
            forall|k: int| start <= k < i ==> is_digit(#[trigger] s@[k]),
            v as nat == dec_val(body.take(i - start)),
        decreases len - i,
    {
        let c = s.get_char(i);
        let u = c as u32;
        if !(48 <= u && u <= 57) {
            proof {
                assert(body[i - start] == s@[i as int]);
                assert(!is_digit(body[i - start]));
            }
            return None;
        }
        let d = (u - 48) as u64;
        proof {
            assert(body.take(i - start + 1).drop_last() =~= body.take(i - start));
            assert(body.take(i - start + 1).last() == s@[i as int]);
            assert(digit_val(s@[i as int]) == d as nat);
        }
        if v > max / 10 {
            proof {
                if is_uint_str(s@) {
                    lemma_mul_ten_exceeds(v as nat, max as nat);
                    assert(dec_val(body.take(i - start + 1)) >= v as nat * 10);
                    lemma_dec_val_prefix(body, i - start + 1);
                }
            }
            return None;
        }
        proof {
            lemma_mul_ten_le(v as nat, max as nat);
        }
        let v10 = v * 10;
        if d > max - v10 {
            proof {
                if is_uint_str(s@) {
                    assert(dec_val(body.take(i - start + 1)) == v as nat * 10 + d as nat);
                    assert(v as nat * 10 + d as nat > max as nat);
                    lemma_dec_val_prefix(body, i - start + 1);
                }
            }
            return None;
        }
        v = v10 + d;
        i = i + 1;
    }
    proof {
        assert(body.take(len - start) =~= body);
        assert(is_uint_str(s@)) by {
            assert(forall|k: int| 0 <= k < body.len() ==> body[k] == s@[k + start]);
        }
        assert(uint_of_str(s@) == v as nat);
    }
    Some(FieldValue::Uint(v))
}

/// A value at most a tenth of the maximum stays within it when multiplied.
proof fn lemma_mul_ten_le(v: nat, max: nat)
    requires
        v <= max / 10,
    ensures
        v * 10 <= max,
{
    assert((max / 10) * 10 <= max) by (nonlinear_arith);
    assert(v * 10 <= (max / 10) * 10) by (nonlinear_arith)
        requires
            v <= max / 10,
    ;
}

impl FieldValue {
    /// The integer value, if this is an integer field.
    pub fn as_uint(&self) -> (r: Option<u64>)
        ensures
            match self {
                FieldValue::Uint(v) => r == Some(*v),
                FieldValue::Text(_) => r is None,
            },
    {
        match self {
            FieldValue::Uint(v) => Some(*v),
            FieldValue::Text(_) => None,
        }
    }

    /// The text value, if this is a text field.
    pub fn as_text(&self) -> (r: Option<&String>)
        ensures
            match self {
                FieldValue::Text(s) => r == Some(s),
                FieldValue::Uint(_) => r is None,
            },
    {
        match self {
            FieldValue::Text(s) => Some(s),
            FieldValue::Uint(_) => None,
        }
    }
}

} // verus!
