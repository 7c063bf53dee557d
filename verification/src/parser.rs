//! The executable parsers, each proved equal to the grammar function that
//! models it.  Every parser takes the input text and a cursor position; a
//! success returns the parsed value with the position after it, a failure
//! returns the error and leaves the caller's position untouched.

use vstd::prelude::*;

use crate::grammar::SpecStep;
use crate::grammar::key_index;
use crate::grammar::lemma_key_index;
use crate::grammar::obj_insert;
use crate::grammar::quote_pos;
use crate::grammar::spec_array;
use crate::grammar::spec_array_more;
use crate::grammar::spec_array_rest;
use crate::grammar::spec_float;
use crate::grammar::spec_float_exp;
use crate::grammar::spec_object;
use crate::grammar::spec_object_more;
use crate::grammar::spec_object_rest;
use crate::grammar::spec_string;
use crate::grammar::spec_value;
use crate::grammar::digit_val;
use crate::grammar::digits_end;
use crate::grammar::digits_val;
use crate::grammar::is_digit;
use crate::grammar::is_space;
use crate::grammar::lemma_digits_end;
use crate::grammar::lemma_ws_end;
use crate::grammar::spec_bool;
use crate::grammar::spec_int;
use crate::grammar::spec_null;
use crate::grammar::spec_token;
use crate::grammar::ws_end;
use crate::value::ErrorKind;
use crate::value::JsonValue;
use crate::value::ParseError;
use crate::value::SpecValue;
use crate::value::lemma_members_view_index;
use crate::value::lemma_members_view_len;
use crate::value::lemma_members_view_push;
use crate::value::lemma_members_view_update;
use crate::value::lemma_seq_view_push;
use crate::value::members_view;
use crate::value::seq_view;

verus! {

/// Whether `c` is whitespace the grammar skips.
fn is_space_char(c: char) -> (r: bool)
    ensures
        r == is_space(c),
{
    c == ' ' || c == '\t' || c == '\n' || c == '\r'
}

/// Whether `c` is a decimal digit.
fn is_digit_char(c: char) -> (r: bool)
    ensures
        r == is_digit(c),
{
    let u = c as u32;
    48 <= u && u <= 57
}

/// Consumes the run of whitespace starting at `pos`; never fails.
pub fn skip_space(input: &str, pos: usize) -> (r: usize)
    requires
        pos <= input@.len(),
    ensures
        r as int == ws_end(input@, pos as int),
        pos <= r <= input@.len(),
{
    let n = input.unicode_len();
    let mut i = pos;
    while i < n && is_space_char(input.get_char(i))
        invariant
            pos <= i <= n,
            n == input@.len(),
            ws_end(input@, pos as int) == ws_end(input@, i as int),
        decreases n - i,
    {
        i = i + 1;
    }
    proof {
        lemma_ws_end(input@, pos as int);
    }
    i
}

/// Consumes the run of decimal digits starting at `pos`; never fails.
fn digits_end_at(input: &str, pos: usize) -> (r: usize)
    requires
        pos <= input@.len(),
    ensures
        r as int == digits_end(input@, pos as int),
        pos <= r <= input@.len(),
{
    let n = input.unicode_len();
    let mut i = pos;
    while i < n && is_digit_char(input.get_char(i))
        invariant
            pos <= i <= n,
            n == input@.len(),
            digits_end(input@, pos as int) == digits_end(input@, i as int),
        decreases n - i,
    {
        i = i + 1;
    }
    proof {
        lemma_digits_end(input@, pos as int);
    }
    i
}

/// The whitespace-wrapped token parser for structural punctuation: skips
/// whitespace, requires exactly the character `tok`, skips whitespace again.
pub fn sep_with_space(input: &str, pos: usize, tok: char) -> (r: Result<usize, ParseError>)
    requires
        pos <= input@.len(),
    ensures
        r matches Ok(p) ==> spec_token(input@, pos as int, tok) == SpecStep::<()>::Found(
            (),
            p as int,
        ) && pos < p <= input@.len(),
        r matches Err(e) ==> spec_token(input@, pos as int, tok) == SpecStep::<()>::Failed(
            e.kind,
            e.at as int,
        ) && e.kind == ErrorKind::TokenExpected && pos <= e.at <= input@.len(),
{
    let p = skip_space(input, pos);
    let n = input.unicode_len();
    if p < n && input.get_char(p) == tok {
        let q = skip_space(input, p + 1);
        Ok(q)
    } else {
        Err(ParseError { kind: ErrorKind::TokenExpected, at: p })
    }
}

/// The literal `null`.
pub fn parse_null(input: &str, pos: usize) -> (r: Result<usize, ParseError>)
    requires
        pos <= input@.len(),
    ensures
        r matches Ok(p) ==> spec_null(input@, pos as int) == SpecStep::<()>::Found((), p as int)
            && pos < p <= input@.len(),
        r matches Err(e) ==> spec_null(input@, pos as int) == SpecStep::<()>::Failed(
            e.kind,
            e.at as int,
        ),
{
    let n = input.unicode_len();
    if n - pos >= 4 && input.get_char(pos) == 'n' && input.get_char(pos + 1) == 'u'
        && input.get_char(pos + 2) == 'l' && input.get_char(pos + 3) == 'l' {
        Ok(pos + 4)
    } else {
        Err(ParseError { kind: ErrorKind::TokenExpected, at: pos })
    }
}

/// The literals `true` and `false`, tried in that order.
pub fn parse_bool(input: &str, pos: usize) -> (r: Result<(bool, usize), ParseError>)
    requires
        pos <= input@.len(),
    ensures
        r matches Ok((b, p)) ==> spec_bool(input@, pos as int) == SpecStep::<bool>::Found(
            b,
            p as int,
        ) && pos < p <= input@.len(),
        r matches Err(e) ==> spec_bool(input@, pos as int) == SpecStep::<bool>::Failed(
            e.kind,
            e.at as int,
        ),
{
    let n = input.unicode_len();
    if n - pos >= 4 && input.get_char(pos) == 't' && input.get_char(pos + 1) == 'r'
        && input.get_char(pos + 2) == 'u' && input.get_char(pos + 3) == 'e' {
        Ok((true, pos + 4))
    } else if n - pos >= 5 && input.get_char(pos) == 'f' && input.get_char(pos + 1) == 'a'
        && input.get_char(pos + 2) == 'l' && input.get_char(pos + 3) == 's' && input.get_char(
        pos + 4,
    ) == 'e' {
        Ok((false, pos + 5))
    } else {
        Err(ParseError { kind: ErrorKind::TokenExpected, at: pos })
    }
}

/// An integer literal, read as signed 64-bit: an optional leading `-`, then
/// one or more decimal digits.  Fails with `NumericOverflow` when the digits
/// denote a value outside the 64-bit range.
pub fn parse_int(input: &str, pos: usize) -> (r: Result<(i64, usize), ParseError>)
    requires
        pos <= input@.len(),
    ensures
        r matches Ok((v, p)) ==> spec_int(input@, pos as int) == SpecStep::<int>::Found(
            v as int,
            p as int,
        ) && pos < p <= input@.len(),
        r matches Err(e) ==> spec_int(input@, pos as int) == SpecStep::<int>::Failed(
            e.kind,
            e.at as int,
        ),
{
    let ghost s = input@;
    let n = input.unicode_len();
    let neg = pos < n && input.get_char(pos) == '-';
    let dstart = if neg {
        pos + 1
    } else {
        pos
    };
    let dend = digits_end_at(input, dstart);
    if dend == dstart {
        return Err(ParseError { kind: ErrorKind::TokenExpected, at: dstart });
    }
    proof {
        lemma_digits_end(s, dstart as int);
    }
    let limit: u128 = if neg {
        9223372036854775808
    } else {
        9223372036854775807
    };
    let mut acc: u128 = 0;
    let mut over = false;
    let mut i = dstart;
    while i < dend
        invariant
            s == input@,
            dstart <= i <= dend <= n,
            n == s.len(),
            dend as int == digits_end(s, dstart as int),
            forall|j: int| dstart <= j < dend ==> is_digit(s[j]),
            limit < 0x10000000000000000,
            !over ==> acc as int == digits_val(s, dstart as int, i as int) && acc <= limit,
            over ==> digits_val(s, dstart as int, i as int) > limit,
            digits_val(s, dstart as int, i as int) >= 0,
        decreases dend - i,
    {
        let c = input.get_char(i);
        let d: u128 = (c as u32 - 48) as u128;
        proof {
            assert(digits_val(s, dstart as int, i + 1) == digits_val(s, dstart as int, i as int)
                * 10 + digit_val(s[i as int]));
        }
        if !over {
            let next = acc * 10 + d;
            if next > limit {
                over = true;
            } else {
                acc = next;
            }
        }
        i = i + 1;
    }
    if over {
        return Err(ParseError { kind: ErrorKind::NumericOverflow, at: pos });
    }
    if neg {
        if acc == 9223372036854775808 {
            Ok((i64::MIN, dend))
        } else {
            Ok((-(acc as i64), dend))
        }
    } else {
        Ok((acc as i64, dend))
    }
}

/// The optional exponent after a float mantissa ending at `mend`.
fn float_exp(input: &str, pos: usize, mend: usize) -> (r: Result<(String, usize), ParseError>)
    requires
        pos <= mend <= input@.len(),
    ensures
        r matches Ok((t, p)) ==> spec_float_exp(input@, pos as int, mend as int) == SpecStep::<
            Seq<char>,
        >::Found(t@, p as int) && mend <= p <= input@.len(),
        r matches Err(e) ==> spec_float_exp(input@, pos as int, mend as int) == SpecStep::<
            Seq<char>,
        >::Failed(e.kind, e.at as int),
{
    let n = input.unicode_len();
    if mend < n && (input.get_char(mend) == 'e' || input.get_char(mend) == 'E') {
        let es = if n - mend >= 2 && (input.get_char(mend + 1) == '+' || input.get_char(mend + 1)
            == '-') {
            mend + 2
        } else {
            mend + 1
        };
        if es < n && is_digit_char(input.get_char(es)) {
            let end = digits_end_at(input, es);
            let t = input.substring_char(pos, end).to_owned();
            Ok((t, end))
        } else {
            Err(ParseError { kind: ErrorKind::TokenExpected, at: es })
        }
    } else {
        let t = input.substring_char(pos, mend).to_owned();
        Ok((t, mend))
    }
}

/// A float-form literal; the result is the matched text itself, never a
/// machine float.
pub fn parse_float(input: &str, pos: usize) -> (r: Result<(String, usize), ParseError>)
    requires
        pos <= input@.len(),
    ensures
        r matches Ok((t, p)) ==> spec_float(input@, pos as int) == SpecStep::<Seq<char>>::Found(
            t@,
            p as int,
        ) && pos < p <= input@.len(),
        r matches Err(e) ==> spec_float(input@, pos as int) == SpecStep::<Seq<char>>::Failed(
            e.kind,
            e.at as int,
        ),
{
    let ghost s = input@;
    let n = input.unicode_len();
    let neg = pos < n && input.get_char(pos) == '-';
    let dstart = if neg {
        pos + 1
    } else {
        pos
    };
    if dstart < n && is_digit_char(input.get_char(dstart)) {
        let intend = digits_end_at(input, dstart);
        proof {
            assert(digits_end(s, dstart as int) == digits_end(s, dstart + 1));
            lemma_digits_end(s, dstart + 1);
        }
        let mend = if intend < n && input.get_char(intend) == '.' {
            digits_end_at(input, intend + 1)
        } else {
            intend
        };
        float_exp(input, pos, mend)
    } else if n - dstart >= 2 && input.get_char(dstart) == '.' && is_digit_char(
        input.get_char(dstart + 1),
    ) {
        let fstart = dstart + 1;
        proof {
            assert(digits_end(s, fstart as int) == digits_end(s, fstart + 1));
            lemma_digits_end(s, fstart + 1);
        }
        let mend = digits_end_at(input, fstart);
        float_exp(input, pos, mend)
    } else {
        Err(ParseError { kind: ErrorKind::TokenExpected, at: dstart })
    }
}

/// A string literal: everything between a `"` and the next `"`, with no
/// escape processing.
pub fn parse_string(input: &str, pos: usize) -> (r: Result<(String, usize), ParseError>)
    requires
        pos <= input@.len(),
    ensures
        r matches Ok((t, p)) ==> spec_string(input@, pos as int) == SpecStep::<Seq<char>>::Found(
            t@,
            p as int,
        ) && pos < p <= input@.len(),
        r matches Err(e) ==> spec_string(input@, pos as int) == SpecStep::<Seq<char>>::Failed(
            e.kind,
            e.at as int,
        ),
{
    let n = input.unicode_len();
    if pos < n && input.get_char(pos) == '"' {
        let mut i = pos + 1;
        while i < n && input.get_char(i) != '"'
            invariant
                pos + 1 <= i <= n,
                n == input@.len(),
                quote_pos(input@, pos + 1) == quote_pos(input@, i as int),
            decreases n - i,
        {
            i = i + 1;
        }
        if i < n {
            let t = input.substring_char(pos + 1, i).to_owned();
            Ok((t, i + 1))
        } else {
            Err(ParseError { kind: ErrorKind::UnterminatedString, at: pos })
        }
    } else {
        Err(ParseError { kind: ErrorKind::TokenExpected, at: pos })
    }
}

/// Puts one member into an object's member list the way a hash-map insert
/// behaves: an existing key keeps its place and takes the new value, a new
/// key goes to the end.
#[verifier::loop_isolation(false)]
fn insert_member(ms: &mut Vec<(String, JsonValue)>, k: String, v: JsonValue)
    ensures
        members_view(final(ms)@) == obj_insert(members_view(old(ms)@), k@, v@),
{
    proof {
        lemma_key_index(members_view(old(ms)@), k@);
        lemma_members_view_len(old(ms)@);
        assert forall|j: int| 0 <= j < old(ms)@.len() implies members_view(old(ms)@)[j] == (
        (#[trigger] old(ms)@[j]).0@,
        old(ms)@[j].1@,
        ) by {
            lemma_members_view_index(old(ms)@, j);
        }
    }
    let ghost ki = key_index(members_view(old(ms)@), k@);
    let n = ms.len();
    let mut i: usize = 0;
    while i < n
        invariant
            0 <= i <= n,
            ms@ == old(ms)@,
            forall|j: int| 0 <= j < i ==> (#[trigger] ms@[j]).0@ != k@,
        decreases n - i,
    {
        if ms[i].0 == k {
            proof {
                lemma_members_view_index(ms@, i as int);
                if ki < i {
                    lemma_members_view_index(ms@, ki);
                }
                assert(ki == i);
                lemma_members_view_update(ms@, i as int, k, v);
            }
            ms[i] = (k, v);
            return ;
        }
        i = i + 1;
    }
    proof {
        if ki < old(ms)@.len() {
            lemma_members_view_index(ms@, ki);
        }
        assert(ki == members_view(old(ms)@).len());
        lemma_members_view_push(ms@, k, v);
    }
    ms.push((k, v));
}

/// The value dispatcher at a position: ordered choice over null, bool, the
/// float form, the integer form, string, array, object.
pub fn parse_value_at(input: &str, pos: usize) -> (r: Result<(JsonValue, usize), ParseError>)
    requires
        pos <= input@.len(),
    ensures
        r matches Ok(vp) ==> spec_value(input@, pos as int) == SpecStep::<SpecValue>::Found(
            vp.0@,
            vp.1 as int,
        ) && pos < vp.1 <= input@.len(),
        r matches Err(e) ==> spec_value(input@, pos as int) == SpecStep::<SpecValue>::Failed(
            e.kind,
            e.at as int,
        ),
    decreases input@.len() - pos, 0int,
{
    let r0 = parse_null(input, pos);
    if let Ok(p) = r0 {
        return Ok((JsonValue::Null, p));
    }
    let r1 = parse_bool(input, pos);
    if let Ok((b, p)) = r1 {
        return Ok((JsonValue::Bool(b), p));
    }
    let r2 = parse_float(input, pos);
    if let Ok((t, p)) = r2 {
        return Ok((JsonValue::Number(t), p));
    }
    let r3 = parse_int(input, pos);
    if let Ok((v, p)) = r3 {
        return Ok((JsonValue::Int(v), p));
    }
    let r4 = parse_string(input, pos);
    if let Ok((t, p)) = r4 {
        return Ok((JsonValue::String(t), p));
    }
    let r5 = sep_with_space(input, pos, '[');
    if let Ok(p) = r5 {
        return match parse_array_rest(input, p) {
            Ok((vs, q)) => Ok((JsonValue::Array(vs), q)),
            Err(e) => Err(e),
        };
    }
    let r6 = sep_with_space(input, pos, '{');
    if let Ok(p) = r6 {
        return match parse_object_rest(input, p) {
            Ok((ms, q)) => Ok((JsonValue::Object(ms), q)),
            Err(e) => Err(e),
        };
    }
    Err(ParseError { kind: ErrorKind::NoAlternativeMatched, at: pos })
}

/// The inside of an array, after the opening `[` token.
fn parse_array_rest(input: &str, p: usize) -> (r: Result<(Vec<JsonValue>, usize), ParseError>)
    requires
        p <= input@.len(),
    ensures
        r matches Ok(vp) ==> spec_array_rest(input@, p as int) == SpecStep::<
            Seq<SpecValue>,
        >::Found(seq_view(vp.0@), vp.1 as int) && p < vp.1 <= input@.len(),
        r matches Err(e) ==> spec_array_rest(input@, p as int) == SpecStep::<
            Seq<SpecValue>,
        >::Failed(e.kind, e.at as int),
    decreases input@.len() - p, 1int,
{
    let r0 = parse_value_at(input, p);
    match r0 {
        Ok((v, p1)) => {
            let mut acc: Vec<JsonValue> = Vec::new();
            proof {
                lemma_seq_view_push(acc@, v);
            }
            acc.push(v);
            proof {
                assert(seq_view(Seq::<JsonValue>::empty()) == Seq::<SpecValue>::empty());
                assert(seq_view(acc@) =~= seq![v@]);
            }
            parse_array_more(input, p1, acc)
        },
        Err(_) => {
            match sep_with_space(input, p, ']') {
                Ok(q) => {
                    let vs: Vec<JsonValue> = Vec::new();
                    proof {
                        assert(seq_view(vs@) =~= Seq::<SpecValue>::empty());
                    }
                    Ok((vs, q))
                },
                Err(e) => Err(ParseError { kind: ErrorKind::UnbalancedDelimiter, at: e.at }),
            }
        },
    }
}

/// The continuation of an array after at least one element.
fn parse_array_more(input: &str, p: usize, acc: Vec<JsonValue>) -> (r: Result<
    (Vec<JsonValue>, usize),
    ParseError,
>)
    requires
        p <= input@.len(),
    ensures
        r matches Ok(vp) ==> spec_array_more(input@, p as int, seq_view(acc@)) == SpecStep::<
            Seq<SpecValue>,
        >::Found(seq_view(vp.0@), vp.1 as int) && p < vp.1 <= input@.len(),
        r matches Err(e) ==> spec_array_more(input@, p as int, seq_view(acc@)) == SpecStep::<
            Seq<SpecValue>,
        >::Failed(e.kind, e.at as int),
    decreases input@.len() - p, 1int,
{
    let rc = sep_with_space(input, p, ',');
    match rc {
        Ok(p2) => {
            match parse_value_at(input, p2) {
                Ok((v, p3)) => {
                    let mut acc2 = acc;
                    proof {
                        lemma_seq_view_push(acc2@, v);
                    }
                    acc2.push(v);
                    parse_array_more(input, p3, acc2)
                },
                Err(e) => Err(e),
            }
        },
        Err(_) => {
            match sep_with_space(input, p, ']') {
                Ok(q) => Ok((acc, q)),
                Err(e) => Err(ParseError { kind: ErrorKind::UnbalancedDelimiter, at: e.at }),
            }
        },
    }
}

/// The inside of an object, after the opening `{` token.
fn parse_object_rest(input: &str, p: usize) -> (r: Result<
    (Vec<(String, JsonValue)>, usize),
    ParseError,
>)
    requires
        p <= input@.len(),
    ensures
        r matches Ok(vp) ==> spec_object_rest(input@, p as int) == SpecStep::<
            Seq<(Seq<char>, SpecValue)>,
        >::Found(members_view(vp.0@), vp.1 as int) && p < vp.1 <= input@.len(),
        r matches Err(e) ==> spec_object_rest(input@, p as int) == SpecStep::<
            Seq<(Seq<char>, SpecValue)>,
        >::Failed(e.kind, e.at as int),
    decreases input@.len() - p, 1int,
{
    let r0 = parse_string(input, p);
    match r0 {
        Ok((k, pk)) => {
            match sep_with_space(input, pk, ':') {
                Ok(pc) => {
                    match parse_value_at(input, pc) {
                        Ok((v, pv)) => {
                            let mut acc: Vec<(String, JsonValue)> = Vec::new();
                            proof {
                                assert(members_view(acc@) =~= Seq::<
                                    (Seq<char>, SpecValue),
                                >::empty());
                            }
                            insert_member(&mut acc, k, v);
                            parse_object_more(input, pv, acc)
                        },
                        Err(e) => Err(e),
                    }
                },
                Err(e) => Err(e),
            }
        },
        Err(_) => {
            match sep_with_space(input, p, '}') {
                Ok(q) => {
                    let ms: Vec<(String, JsonValue)> = Vec::new();
                    proof {
                        assert(members_view(ms@) =~= Seq::<(Seq<char>, SpecValue)>::empty());
                    }
                    Ok((ms, q))
                },
                Err(e) => Err(ParseError { kind: ErrorKind::UnbalancedDelimiter, at: e.at }),
            }
        },
    }
}

/// The continuation of an object after at least one member.
fn parse_object_more(input: &str, p: usize, acc: Vec<(String, JsonValue)>) -> (r: Result<
    (Vec<(String, JsonValue)>, usize),
    ParseError,
>)
    requires
        p <= input@.len(),
    ensures
        r matches Ok(vp) ==> spec_object_more(input@, p as int, members_view(acc@)) == SpecStep::<
            Seq<(Seq<char>, SpecValue)>,
        >::Found(members_view(vp.0@), vp.1 as int) && p < vp.1 <= input@.len(),
        r matches Err(e) ==> spec_object_more(input@, p as int, members_view(acc@)) == SpecStep::<
            Seq<(Seq<char>, SpecValue)>,
        >::Failed(e.kind, e.at as int),
    decreases input@.len() - p, 1int,
{
    let rc = sep_with_space(input, p, ',');
    match rc {
        Ok(p2) => {
            match parse_string(input, p2) {
                Ok((k, pk)) => {
                    match sep_with_space(input, pk, ':') {
                        Ok(pc) => {
                            match parse_value_at(input, pc) {
                                Ok((v, pv)) => {
                                    let mut acc2 = acc;
                                    insert_member(&mut acc2, k, v);
                                    parse_object_more(input, pv, acc2)
                                },
                                Err(e) => Err(e),
                            }
                        },
                        Err(e) => Err(e),
                    }
                },
                Err(e) => Err(e),
            }
        },
        Err(_) => {
            match sep_with_space(input, p, '}') {
                Ok(q) => Ok((acc, q)),
                Err(e) => Err(ParseError { kind: ErrorKind::UnbalancedDelimiter, at: e.at }),
            }
        },
    }
}

/// A whole array, with its `[` token.
pub fn parse_array(input: &str, pos: usize) -> (r: Result<(Vec<JsonValue>, usize), ParseError>)
    requires
        pos <= input@.len(),
    ensures
        r matches Ok(vp) ==> spec_array(input@, pos as int) == SpecStep::<Seq<SpecValue>>::Found(
            seq_view(vp.0@),
            vp.1 as int,
        ) && pos < vp.1 <= input@.len(),
        r matches Err(e) ==> spec_array(input@, pos as int) == SpecStep::<Seq<SpecValue>>::Failed(
            e.kind,
            e.at as int,
        ),
{
    match sep_with_space(input, pos, '[') {
        Ok(p) => parse_array_rest(input, p),
        Err(e) => Err(e),
    }
}

/// A whole object, with its `{` token.
pub fn parse_object(input: &str, pos: usize) -> (r: Result<
    (Vec<(String, JsonValue)>, usize),
    ParseError,
>)
    requires
        pos <= input@.len(),
    ensures
        r matches Ok(vp) ==> spec_object(input@, pos as int) == SpecStep::<
            Seq<(Seq<char>, SpecValue)>,
        >::Found(members_view(vp.0@), vp.1 as int) && pos < vp.1 <= input@.len(),
        r matches Err(e) ==> spec_object(input@, pos as int) == SpecStep::<
            Seq<(Seq<char>, SpecValue)>,
        >::Failed(e.kind, e.at as int),
{
    match sep_with_space(input, pos, '{') {
        Ok(p) => parse_object_rest(input, p),
        Err(e) => Err(e),
    }
}

/// The top-level driver: parses one value from the start of `input`.
/// Trailing unconsumed input is permitted; a caller that wants full
/// consumption checks the position `parse_value_at` returns instead.
pub fn parse_value(input: &str) -> (r: Result<JsonValue, ParseError>)
    ensures
        r matches Ok(v) ==> (spec_value(input@, 0) matches SpecStep::Found(sv, p) && v@ == sv),
        r matches Err(e) ==> spec_value(input@, 0) == SpecStep::<SpecValue>::Failed(
            e.kind,
            e.at as int,
        ),
{
    match parse_value_at(input, 0) {
        Ok((v, _)) => Ok(v),
        Err(e) => Err(e),
    }
}

} // verus!
