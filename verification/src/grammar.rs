//! The grammar itself, as specification functions over sequences of
//! characters.  Every executable parser is proved equal to the function here
//! that models it.

use vstd::prelude::*;

use crate::value::ErrorKind;
use crate::value::SpecValue;

verus! {

/// One step of a parse: either a value together with the cursor position
/// after it, or a failure category together with the offset it was noticed
/// at.  A failing parser never moves the cursor: the caller goes on from the
/// position it already holds.
#[verifier::ext_equal]
pub enum SpecStep<V> {
    Found(V, int),
    Failed(ErrorKind, int),
}

/// The whitespace the grammar skips around structural tokens.
pub open spec fn is_space(c: char) -> bool {
    c == ' ' || c == '\t' || c == '\n' || c == '\r'
}

/// The first position at or after `pos` that does not hold whitespace
/// (or the end of the input).
pub open spec fn ws_end(s: Seq<char>, pos: int) -> int
    recommends
        0 <= pos <= s.len(),
    decreases s.len() - pos,
{
    if pos < s.len() && is_space(s[pos]) {
        ws_end(s, pos + 1)
    } else {
        pos
    }
}

/// Bounds on `ws_end` that hold with no assumption on `pos`, for the
/// termination proofs of the grammar's recursion.
pub proof fn lemma_ws_end_bounds(s: Seq<char>, pos: int)
    ensures
        pos <= ws_end(s, pos),
        pos <= s.len() ==> ws_end(s, pos) <= s.len(),
    decreases s.len() - pos,
{
    if pos < s.len() && is_space(s[pos]) {
        lemma_ws_end_bounds(s, pos + 1);
    }
}

pub proof fn lemma_ws_end(s: Seq<char>, pos: int)
    requires
        0 <= pos <= s.len(),
    ensures
        pos <= ws_end(s, pos) <= s.len(),
        ws_end(s, pos) < s.len() ==> !is_space(s[ws_end(s, pos)]),
        forall|i: int| pos <= i < ws_end(s, pos) ==> is_space(s[i]),
    decreases s.len() - pos,
{
    if pos < s.len() && is_space(s[pos]) {
        lemma_ws_end(s, pos + 1);
    }
}

/// The token wrapper: skip whitespace, require the single character `c`,
/// skip whitespace again.  Only structural punctuation goes through it.
pub open spec fn spec_token(s: Seq<char>, pos: int, c: char) -> SpecStep<()>
    recommends
        0 <= pos <= s.len(),
{
    let p = ws_end(s, pos);
    if p < s.len() && s[p] == c {
        SpecStep::Found((), ws_end(s, p + 1))
    } else {
        SpecStep::Failed(ErrorKind::TokenExpected, p)
    }
}

pub proof fn lemma_token(s: Seq<char>, pos: int, c: char)
    requires
        0 <= pos <= s.len(),
    ensures
        spec_token(s, pos, c) matches SpecStep::Found(_, p) ==> pos < p <= s.len(),
        spec_token(s, pos, c) matches SpecStep::Failed(_, q) ==> pos <= q <= s.len(),
{
    lemma_ws_end(s, pos);
    let p = ws_end(s, pos);
    if p < s.len() && s[p] == c {
        lemma_ws_end(s, p + 1);
    }
}

/// The literal `null`.
pub open spec fn spec_null(s: Seq<char>, pos: int) -> SpecStep<()>
    recommends
        0 <= pos <= s.len(),
{
    if pos + 4 <= s.len() && s[pos] == 'n' && s[pos + 1] == 'u' && s[pos + 2] == 'l' && s[pos + 3]
        == 'l' {
        SpecStep::Found((), pos + 4)
    } else {
        SpecStep::Failed(ErrorKind::TokenExpected, pos)
    }
}

/// The literals `true` and `false`, tried in that order.
pub open spec fn spec_bool(s: Seq<char>, pos: int) -> SpecStep<bool>
    recommends
        0 <= pos <= s.len(),
{
    if pos + 4 <= s.len() && s[pos] == 't' && s[pos + 1] == 'r' && s[pos + 2] == 'u' && s[pos + 3]
        == 'e' {
        SpecStep::Found(true, pos + 4)
    } else if pos + 5 <= s.len() && s[pos] == 'f' && s[pos + 1] == 'a' && s[pos + 2] == 'l' && s[pos
        + 3] == 's' && s[pos + 4] == 'e' {
        SpecStep::Found(false, pos + 5)
    } else {
        SpecStep::Failed(ErrorKind::TokenExpected, pos)
    }
}

/// A decimal digit.
pub open spec fn is_digit(c: char) -> bool {
    '0' as int <= c as int && c as int <= '9' as int
}

/// The numeric value of a decimal digit.
pub open spec fn digit_val(c: char) -> int {
    c as int - '0' as int
}

/// The end of the run of decimal digits starting at `pos`.
pub open spec fn digits_end(s: Seq<char>, pos: int) -> int
    recommends
        0 <= pos <= s.len(),
    decreases s.len() - pos,
{
    if pos < s.len() && is_digit(s[pos]) {
        digits_end(s, pos + 1)
    } else {
        pos
    }
}

pub proof fn lemma_digits_end(s: Seq<char>, pos: int)
    requires
        0 <= pos <= s.len(),
    ensures
        pos <= digits_end(s, pos) <= s.len(),
        digits_end(s, pos) < s.len() ==> !is_digit(s[digits_end(s, pos)]),
        forall|i: int| pos <= i < digits_end(s, pos) ==> is_digit(s[i]),
    decreases s.len() - pos,
{
    if pos < s.len() && is_digit(s[pos]) {
        lemma_digits_end(s, pos + 1);
    }
}

/// The base-10 value of the digit run `s[pos..end)`, most significant first.
pub open spec fn digits_val(s: Seq<char>, pos: int, end: int) -> int
    recommends
        0 <= pos <= end <= s.len(),
    decreases end - pos,
{
    if pos < end {
        digits_val(s, pos, end - 1) * 10 + digit_val(s[end - 1])
    } else {
        0
    }
}

/// An integer literal: an optional leading `-`, then one or more decimal
/// digits, read as a signed 64-bit value.  Fails where no digit follows, and
/// reports `NumericOverflow` (at the start of the literal) where the digits
/// denote a value outside the 64-bit range.
pub open spec fn spec_int(s: Seq<char>, pos: int) -> SpecStep<int>
    recommends
        0 <= pos <= s.len(),
{
    let dstart = if pos < s.len() && s[pos] == '-' {
        pos + 1
    } else {
        pos
    };
    let dend = digits_end(s, dstart);
    if dend == dstart {
        SpecStep::Failed(ErrorKind::TokenExpected, dstart)
    } else {
        let m = digits_val(s, dstart, dend);
        let v = if dstart == pos + 1 {
            -m
        } else {
            m
        };
        if i64::MIN <= v <= i64::MAX {
            SpecStep::Found(v, dend)
        } else {
            SpecStep::Failed(ErrorKind::NumericOverflow, pos)
        }
    }
}

/// The optional exponent after a float mantissa that ends at `mend`: `e` or
/// `E`, an optional sign, then one or more digits.  An exponent marker whose
/// digits are missing fails the whole float form (the dispatcher then falls
/// back to the integer form).  On success the result is the matched text,
/// from `pos` on.
pub open spec fn spec_float_exp(s: Seq<char>, pos: int, mend: int) -> SpecStep<Seq<char>>
    recommends
        0 <= pos <= mend <= s.len(),
{
    if mend < s.len() && (s[mend] == 'e' || s[mend] == 'E') {
        let es = if mend + 1 < s.len() && (s[mend + 1] == '+' || s[mend + 1] == '-') {
            mend + 2
        } else {
            mend + 1
        };
        if es < s.len() && is_digit(s[es]) {
            let end = digits_end(s, es);
            SpecStep::Found(s.subrange(pos, end), end)
        } else {
            SpecStep::Failed(ErrorKind::TokenExpected, es)
        }
    } else {
        SpecStep::Found(s.subrange(pos, mend), mend)
    }
}

/// A float-form literal: an optional leading `-`, then either one or more
/// digits with an optional `.` and further digits, or `.` followed by one or
/// more digits; then an optional exponent.  The result is the matched text
/// itself — the core never converts it to floating point.  Note that a bare
/// digit run matches this form, which is what makes the dispatcher's
/// float-before-integer order decisive.
pub open spec fn spec_float(s: Seq<char>, pos: int) -> SpecStep<Seq<char>>
    recommends
        0 <= pos <= s.len(),
{
    let dstart = if pos < s.len() && s[pos] == '-' {
        pos + 1
    } else {
        pos
    };
    if dstart < s.len() && is_digit(s[dstart]) {
        let intend = digits_end(s, dstart);
        let mend = if intend < s.len() && s[intend] == '.' {
            digits_end(s, intend + 1)
        } else {
            intend
        };
        spec_float_exp(s, pos, mend)
    } else if dstart + 1 < s.len() && s[dstart] == '.' && is_digit(s[dstart + 1]) {
        spec_float_exp(s, pos, digits_end(s, dstart + 1))
    } else {
        SpecStep::Failed(ErrorKind::TokenExpected, dstart)
    }
}

/// The position of the first `"` at or after `pos`, if any.
pub open spec fn quote_pos(s: Seq<char>, pos: int) -> Option<int>
    recommends
        0 <= pos <= s.len(),
    decreases s.len() - pos,
{
    if pos < s.len() {
        if s[pos] == '"' {
            Some(pos)
        } else {
            quote_pos(s, pos + 1)
        }
    } else {
        None
    }
}

pub proof fn lemma_quote_pos(s: Seq<char>, pos: int)
    requires
        0 <= pos <= s.len(),
    ensures
        quote_pos(s, pos) matches Some(q) ==> pos <= q < s.len() && s[q] == '"' && forall|i: int|
            pos <= i < q ==> s[i] != '"',
        quote_pos(s, pos) is None ==> forall|i: int| pos <= i < s.len() ==> s[i] != '"',
    decreases s.len() - pos,
{
    if pos < s.len() && s[pos] != '"' {
        lemma_quote_pos(s, pos + 1);
    }
}

/// A string literal: `"`, then everything up to (not including) the next `"`,
/// then that `"`.  No escape processing at all: a raw `"` inside the text
/// always terminates the literal.  Fails as unterminated when no closing
/// quote exists.
pub open spec fn spec_string(s: Seq<char>, pos: int) -> SpecStep<Seq<char>>
    recommends
        0 <= pos <= s.len(),
{
    if pos < s.len() && s[pos] == '"' {
        match quote_pos(s, pos + 1) {
            Some(q) => SpecStep::Found(s.subrange(pos + 1, q), q + 1),
            None => SpecStep::Failed(ErrorKind::UnterminatedString, pos),
        }
    } else {
        SpecStep::Failed(ErrorKind::TokenExpected, pos)
    }
}

/// The first index whose entry's key is `k`, or `ms.len()` when no entry has
/// that key.
pub open spec fn key_index(ms: Seq<(Seq<char>, SpecValue)>, k: Seq<char>) -> int
    decreases ms.len(),
{
    if ms.len() == 0 {
        0
    } else if ms[0].0 == k {
        0
    } else {
        1 + key_index(ms.skip(1), k)
    }
}

pub proof fn lemma_key_index(ms: Seq<(Seq<char>, SpecValue)>, k: Seq<char>)
    ensures
        0 <= key_index(ms, k) <= ms.len(),
        key_index(ms, k) < ms.len() ==> ms[key_index(ms, k)].0 == k,
        forall|j: int| 0 <= j < key_index(ms, k) ==> ms[j].0 != k,
    decreases ms.len(),
{
    if ms.len() != 0 && ms[0].0 != k {
        lemma_key_index(ms.skip(1), k);
        assert forall|j: int| 0 <= j < key_index(ms, k) implies ms[j].0 != k by {
            if j > 0 {
                assert(ms.skip(1)[j - 1] == ms[j]);
            }
        }
    }
}

/// Inserting a member into an object, the way a hash-map insert behaves:
/// a duplicate key overwrites the earlier value in place (last write wins),
/// a new key goes to the end.
pub open spec fn obj_insert(
    ms: Seq<(Seq<char>, SpecValue)>,
    k: Seq<char>,
    v: SpecValue,
) -> Seq<(Seq<char>, SpecValue)> {
    let i = key_index(ms, k);
    if i < ms.len() {
        ms.update(i, (k, v))
    } else {
        ms.push((k, v))
    }
}

/// The value dispatcher: ordered choice over null, the booleans, the float
/// form, the integer form, string, array and object, in that fixed order.
/// The order is a deliberate tie-break: the float form also matches a bare
/// digit run, so an all-digit literal always becomes `Number`.  When an
/// opening `[` or `{` matches, the parse commits to that composite and a
/// failure inside it propagates unchanged; when no alternative starts at
/// `pos` the dispatcher fails with `NoAlternativeMatched` there.
pub open spec fn spec_value(s: Seq<char>, pos: int) -> SpecStep<SpecValue>
    recommends
        0 <= pos <= s.len(),
    decreases s.len() - pos, 0int,
    via spec_value_dec
{
    match spec_null(s, pos) {
        SpecStep::Found(_, p) => SpecStep::Found(SpecValue::Null, p),
        SpecStep::Failed(..) => match spec_bool(s, pos) {
            SpecStep::Found(b, p) => SpecStep::Found(SpecValue::Bool(b), p),
            SpecStep::Failed(..) => match spec_float(s, pos) {
                SpecStep::Found(t, p) => SpecStep::Found(SpecValue::Number(t), p),
                SpecStep::Failed(..) => match spec_int(s, pos) {
                    SpecStep::Found(v, p) => SpecStep::Found(SpecValue::Int(v), p),
                    SpecStep::Failed(..) => match spec_string(s, pos) {
                        SpecStep::Found(t, p) => SpecStep::Found(SpecValue::String(t), p),
                        SpecStep::Failed(..) => match spec_token(s, pos, '[') {
                            SpecStep::Found(_, p) => match spec_array_rest(s, p) {
                                SpecStep::Found(vs, q) => SpecStep::Found(
                                    SpecValue::Array(vs),
                                    q,
                                ),
                                SpecStep::Failed(k, e) => SpecStep::Failed(k, e),
                            },
                            SpecStep::Failed(..) => match spec_token(s, pos, '{') {
                                SpecStep::Found(_, p) => match spec_object_rest(s, p) {
                                    SpecStep::Found(ms, q) => SpecStep::Found(
                                        SpecValue::Object(ms),
                                        q,
                                    ),
                                    SpecStep::Failed(k, e) => SpecStep::Failed(k, e),
                                },
                                SpecStep::Failed(..) => SpecStep::Failed(
                                    ErrorKind::NoAlternativeMatched,
                                    pos,
                                ),
                            },
                        },
                    },
                },
            },
        },
    }
}

#[via_fn]
proof fn spec_value_dec(s: Seq<char>, pos: int) {
    lemma_ws_end_bounds(s, pos);
    lemma_ws_end_bounds(s, ws_end(s, pos) + 1);
}

/// The inside of an array, after the opening `[` token: zero or more values
/// separated by `,` tokens, then the closing `]` token.  A missing closer is
/// `UnbalancedDelimiter`; a separator with no value after it fails with the
/// value parse's own error (a trailing comma never succeeds).
pub open spec fn spec_array_rest(s: Seq<char>, p: int) -> SpecStep<Seq<SpecValue>>
    decreases s.len() - p, 1int,
    when 0 <= p <= s.len()
{
    match spec_value(s, p) {
        SpecStep::Found(v, p1) => if p < p1 <= s.len() {
            spec_array_more(s, p1, seq![v])
        } else {
            // a successful value parse always advances within bounds
            // (lemma_value_progress); this branch only bounds the recursion
            SpecStep::Failed(ErrorKind::UnbalancedDelimiter, p)
        },
        SpecStep::Failed(..) => match spec_token(s, p, ']') {
            SpecStep::Found(_, q) => SpecStep::Found(Seq::empty(), q),
            SpecStep::Failed(_, e) => SpecStep::Failed(ErrorKind::UnbalancedDelimiter, e),
        },
    }
}

/// The continuation of an array after at least one element: either a `,`
/// token and another value, or the closing `]` token.
pub open spec fn spec_array_more(s: Seq<char>, p: int, acc: Seq<SpecValue>) -> SpecStep<
    Seq<SpecValue>,
>
    decreases s.len() - p, 1int,
    when 0 <= p <= s.len()
    via spec_array_more_dec
{
    match spec_token(s, p, ',') {
        SpecStep::Found(_, p2) => match spec_value(s, p2) {
            SpecStep::Found(v, p3) => if p2 < p3 <= s.len() {
                spec_array_more(s, p3, acc.push(v))
            } else {
                // unreachable: a successful value parse always advances
                SpecStep::Failed(ErrorKind::UnbalancedDelimiter, p)
            },
            SpecStep::Failed(k, e) => SpecStep::Failed(k, e),
        },
        SpecStep::Failed(..) => match spec_token(s, p, ']') {
            SpecStep::Found(_, q) => SpecStep::Found(acc, q),
            SpecStep::Failed(_, e) => SpecStep::Failed(ErrorKind::UnbalancedDelimiter, e),
        },
    }
}

#[via_fn]
proof fn spec_array_more_dec(s: Seq<char>, p: int, acc: Seq<SpecValue>) {
    lemma_ws_end_bounds(s, p);
    lemma_ws_end_bounds(s, ws_end(s, p) + 1);
}

/// The inside of an object, after the opening `{` token: zero or more
/// `"key" : value` members separated by `,` tokens, then the closing `}`
/// token.  Keys repeat last-write-wins, as `obj_insert` says.
pub open spec fn spec_object_rest(s: Seq<char>, p: int) -> SpecStep<Seq<(Seq<char>, SpecValue)>>
    decreases s.len() - p, 1int,
    when 0 <= p <= s.len()
    via spec_object_rest_dec
{
    match spec_string(s, p) {
        SpecStep::Found(k, pk) => match spec_token(s, pk, ':') {
            SpecStep::Found(_, pc) => match spec_value(s, pc) {
                SpecStep::Found(v, pv) => if pc < pv <= s.len() {
                    spec_object_more(s, pv, obj_insert(Seq::empty(), k, v))
                } else {
                    // unreachable: a successful value parse always advances
                    SpecStep::Failed(ErrorKind::UnbalancedDelimiter, p)
                },
                SpecStep::Failed(k2, e) => SpecStep::Failed(k2, e),
            },
            SpecStep::Failed(k2, e) => SpecStep::Failed(k2, e),
        },
        SpecStep::Failed(..) => match spec_token(s, p, '}') {
            SpecStep::Found(_, q) => SpecStep::Found(Seq::empty(), q),
            SpecStep::Failed(_, e) => SpecStep::Failed(ErrorKind::UnbalancedDelimiter, e),
        },
    }
}

#[via_fn]
proof fn spec_object_rest_dec(s: Seq<char>, p: int) {
    if 0 <= p && p < s.len() && s[p] == '"' {
        lemma_quote_pos(s, p + 1);
        if let Some(q) = quote_pos(s, p + 1) {
            lemma_ws_end_bounds(s, q + 1);
            lemma_ws_end_bounds(s, ws_end(s, q + 1) + 1);
        }
    }
}

/// The continuation of an object after at least one member: either a `,`
/// token and another member, or the closing `}` token.
pub open spec fn spec_object_more(
    s: Seq<char>,
    p: int,
    acc: Seq<(Seq<char>, SpecValue)>,
) -> SpecStep<Seq<(Seq<char>, SpecValue)>>
    decreases s.len() - p, 1int,
    when 0 <= p <= s.len()
    via spec_object_more_dec
{
    match spec_token(s, p, ',') {
        SpecStep::Found(_, p2) => match spec_string(s, p2) {
            SpecStep::Found(k, pk) => match spec_token(s, pk, ':') {
                SpecStep::Found(_, pc) => match spec_value(s, pc) {
                    SpecStep::Found(v, pv) => if pc < pv <= s.len() {
                        spec_object_more(s, pv, obj_insert(acc, k, v))
                    } else {
                        // unreachable: a successful value parse always advances
                        SpecStep::Failed(ErrorKind::UnbalancedDelimiter, p)
                    },
                    SpecStep::Failed(k2, e) => SpecStep::Failed(k2, e),
                },
                SpecStep::Failed(k2, e) => SpecStep::Failed(k2, e),
            },
            SpecStep::Failed(k2, e) => SpecStep::Failed(k2, e),
        },
        SpecStep::Failed(..) => match spec_token(s, p, '}') {
            SpecStep::Found(_, q) => SpecStep::Found(acc, q),
            SpecStep::Failed(_, e) => SpecStep::Failed(ErrorKind::UnbalancedDelimiter, e),
        },
    }
}

/// A whole array: the `[` token, then its inside.
pub open spec fn spec_array(s: Seq<char>, pos: int) -> SpecStep<Seq<SpecValue>>
    recommends
        0 <= pos <= s.len(),
{
    match spec_token(s, pos, '[') {
        SpecStep::Found(_, p) => spec_array_rest(s, p),
        SpecStep::Failed(k, e) => SpecStep::Failed(k, e),
    }
}

/// A whole object: the `{` token, then its inside.
pub open spec fn spec_object(s: Seq<char>, pos: int) -> SpecStep<Seq<(Seq<char>, SpecValue)>>
    recommends
        0 <= pos <= s.len(),
{
    match spec_token(s, pos, '{') {
        SpecStep::Found(_, p) => spec_object_rest(s, p),
        SpecStep::Failed(k, e) => SpecStep::Failed(k, e),
    }
}

#[via_fn]
proof fn spec_object_more_dec(s: Seq<char>, p: int, acc: Seq<(Seq<char>, SpecValue)>) {
    lemma_ws_end_bounds(s, p);
    let p2 = ws_end(s, ws_end(s, p) + 1);
    lemma_ws_end_bounds(s, ws_end(s, p) + 1);
    if 0 <= p2 && p2 < s.len() && s[p2] == '"' {
        lemma_quote_pos(s, p2 + 1);
        if let Some(q) = quote_pos(s, p2 + 1) {
            lemma_ws_end_bounds(s, q + 1);
            lemma_ws_end_bounds(s, ws_end(s, q + 1) + 1);
        }
    }
}

/// A successful string parse advances past `pos` and stays in bounds.
pub proof fn lemma_string_progress(s: Seq<char>, pos: int)
    requires
        0 <= pos <= s.len(),
    ensures
        spec_string(s, pos) matches SpecStep::Found(_, p) ==> pos < p <= s.len(),
{
    if pos < s.len() && s[pos] == '"' {
        lemma_quote_pos(s, pos + 1);
    }
}

/// A successful float-exponent parse stays at or after the mantissa's end and
/// in bounds.
pub proof fn lemma_float_exp_progress(s: Seq<char>, pos: int, mend: int)
    requires
        0 <= pos <= mend <= s.len(),
    ensures
        spec_float_exp(s, pos, mend) matches SpecStep::Found(_, p) ==> mend <= p <= s.len(),
{
    if mend < s.len() && (s[mend] == 'e' || s[mend] == 'E') {
        let es = if mend + 1 < s.len() && (s[mend + 1] == '+' || s[mend + 1] == '-') {
            mend + 2
        } else {
            mend + 1
        };
        if es < s.len() && is_digit(s[es]) {
            lemma_digits_end(s, es);
        }
    }
}

/// A successful float parse advances past `pos` and stays in bounds.
pub proof fn lemma_float_progress(s: Seq<char>, pos: int)
    requires
        0 <= pos <= s.len(),
    ensures
        spec_float(s, pos) matches SpecStep::Found(_, p) ==> pos < p <= s.len(),
{
    let dstart = if pos < s.len() && s[pos] == '-' {
        pos + 1
    } else {
        pos
    };
    if dstart < s.len() && is_digit(s[dstart]) {
        let intend = digits_end(s, dstart);
        assert(digits_end(s, dstart) == digits_end(s, dstart + 1));
        lemma_digits_end(s, dstart + 1);
        if intend < s.len() && s[intend] == '.' {
            lemma_digits_end(s, intend + 1);
            lemma_float_exp_progress(s, pos, digits_end(s, intend + 1));
        } else {
            lemma_float_exp_progress(s, pos, intend);
        }
    } else if dstart + 1 < s.len() && s[dstart] == '.' && is_digit(s[dstart + 1]) {
        assert(digits_end(s, dstart + 1) == digits_end(s, dstart + 2));
        lemma_digits_end(s, dstart + 2);
        lemma_float_exp_progress(s, pos, digits_end(s, dstart + 1));
    }
}

/// A successful integer parse advances past `pos` and stays in bounds.
pub proof fn lemma_int_progress(s: Seq<char>, pos: int)
    requires
        0 <= pos <= s.len(),
    ensures
        spec_int(s, pos) matches SpecStep::Found(_, p) ==> pos < p <= s.len(),
{
    let dstart = if pos < s.len() && s[pos] == '-' {
        pos + 1
    } else {
        pos
    };
    lemma_digits_end(s, dstart);
}

/// A successful value parse always advances past `pos` and stays in bounds:
/// the recursion-bounding guards in the composite grammar functions are never
/// taken.
pub proof fn lemma_value_progress(s: Seq<char>, pos: int)
    requires
        0 <= pos <= s.len(),
    ensures
        spec_value(s, pos) matches SpecStep::Found(_, p) ==> pos < p <= s.len(),
    decreases s.len() - pos, 0int,
{
    lemma_float_progress(s, pos);
    lemma_int_progress(s, pos);
    lemma_string_progress(s, pos);
    lemma_token(s, pos, '[');
    lemma_token(s, pos, '{');
    if let SpecStep::Found(_, p) = spec_token(s, pos, '[') {
        lemma_array_rest_progress(s, p);
    }
    if let SpecStep::Found(_, p) = spec_token(s, pos, '{') {
        lemma_object_rest_progress(s, p);
    }
}

/// A successful array-inside parse advances and stays in bounds.
pub proof fn lemma_array_rest_progress(s: Seq<char>, p: int)
    requires
        0 <= p <= s.len(),
    ensures
        spec_array_rest(s, p) matches SpecStep::Found(_, q) ==> p < q <= s.len(),
    decreases s.len() - p, 1int,
{
    lemma_value_progress(s, p);
    match spec_value(s, p) {
        SpecStep::Found(v, p1) => {
            if p < p1 <= s.len() {
                lemma_array_more_progress(s, p1, seq![v]);
            }
        },
        SpecStep::Failed(..) => {
            lemma_token(s, p, ']');
        },
    }
}

/// A successful array-continuation parse advances and stays in bounds.
pub proof fn lemma_array_more_progress(s: Seq<char>, p: int, acc: Seq<SpecValue>)
    requires
        0 <= p <= s.len(),
    ensures
        spec_array_more(s, p, acc) matches SpecStep::Found(_, q) ==> p < q <= s.len(),
    decreases s.len() - p, 1int,
{
    lemma_token(s, p, ',');
    lemma_token(s, p, ']');
    if let SpecStep::Found(_, p2) = spec_token(s, p, ',') {
        lemma_value_progress(s, p2);
        if let SpecStep::Found(v, p3) = spec_value(s, p2) {
            if p2 < p3 <= s.len() {
                lemma_array_more_progress(s, p3, acc.push(v));
            }
        }
    }
}

/// A successful object-inside parse advances and stays in bounds.
pub proof fn lemma_object_rest_progress(s: Seq<char>, p: int)
    requires
        0 <= p <= s.len(),
    ensures
        spec_object_rest(s, p) matches SpecStep::Found(_, q) ==> p < q <= s.len(),
    decreases s.len() - p, 1int,
{
    lemma_string_progress(s, p);
    lemma_token(s, p, '}');
    if let SpecStep::Found(k, pk) = spec_string(s, p) {
        lemma_token(s, pk, ':');
        if let SpecStep::Found(_, pc) = spec_token(s, pk, ':') {
            lemma_value_progress(s, pc);
            if let SpecStep::Found(v, pv) = spec_value(s, pc) {
                if pc < pv <= s.len() {
                    lemma_object_more_progress(s, pv, obj_insert(Seq::empty(), k, v));
                }
            }
        }
    }
}

/// A successful object-continuation parse advances and stays in bounds.
pub proof fn lemma_object_more_progress(s: Seq<char>, p: int, acc: Seq<(Seq<char>, SpecValue)>)
    requires
        0 <= p <= s.len(),
    ensures
        spec_object_more(s, p, acc) matches SpecStep::Found(_, q) ==> p < q <= s.len(),
    decreases s.len() - p, 1int,
{
    lemma_token(s, p, ',');
    lemma_token(s, p, '}');
    if let SpecStep::Found(_, p2) = spec_token(s, p, ',') {
        lemma_string_progress(s, p2);
        if let SpecStep::Found(k, pk) = spec_string(s, p2) {
            lemma_token(s, pk, ':');
            if let SpecStep::Found(_, pc) = spec_token(s, pk, ':') {
                lemma_value_progress(s, pc);
                if let SpecStep::Found(v, pv) = spec_value(s, pc) {
                    if pc < pv <= s.len() {
                        lemma_object_more_progress(s, pv, obj_insert(acc, k, v));
                    }
                }
            }
        }
    }
}

} // verus!
