//! Laws of the grammar, stated and proved once and for all inputs.

use vstd::prelude::*;

use crate::grammar::SpecStep;
use crate::grammar::digit_val;
use crate::grammar::digits_end;
use crate::grammar::digits_val;
use crate::grammar::is_digit;
use crate::grammar::is_space;
use crate::grammar::key_index;
use crate::grammar::lemma_key_index;
use crate::grammar::lemma_ws_end;
use crate::grammar::obj_insert;
use crate::grammar::spec_array_more;
use crate::grammar::spec_bool;
use crate::grammar::spec_float;
use crate::grammar::spec_int;
use crate::grammar::spec_null;
use crate::grammar::spec_object_more;
use crate::grammar::spec_string;
use crate::grammar::spec_token;
use crate::grammar::spec_value;
use crate::grammar::ws_end;
use crate::value::SpecValue;

verus! {

/// The character of a decimal digit value.
pub open spec fn digit_char(d: int) -> char
    recommends
        0 <= d <= 9,
{
    ((48 + d) as u8) as char
}

/// The decimal text of a natural number, most significant digit first.
pub open spec fn nat_text(m: nat) -> Seq<char>
    decreases m,
{
    if m < 10 {
        seq![digit_char(m as int)]
    } else {
        nat_text(m / 10).push(digit_char((m % 10) as int))
    }
}

/// The decimal text of an integer: a `-` for a negative value, then digits.
pub open spec fn int_text(v: int) -> Seq<char> {
    if v < 0 {
        seq!['-'] + nat_text((-v) as nat)
    } else {
        nat_text(v as nat)
    }
}

proof fn lemma_digit_char(d: int)
    requires
        0 <= d <= 9,
    ensures
        is_digit(digit_char(d)),
        digit_val(digit_char(d)) == d,
        digit_char(d) != '-',
{
}

/// Every character of `nat_text` is a digit, and the text denotes `m`.
proof fn lemma_nat_text(m: nat)
    ensures
        nat_text(m).len() >= 1,
        forall|i: int| 0 <= i < nat_text(m).len() ==> is_digit(#[trigger] nat_text(m)[i]),
        digits_val(nat_text(m), 0, nat_text(m).len() as int) == m,
    decreases m,
{
    if m < 10 {
        lemma_digit_char(m as int);
        assert(digits_val(nat_text(m), 0, 1) == digits_val(nat_text(m), 0, 0) * 10 + digit_val(
            nat_text(m)[0],
        ));
    } else {
        lemma_nat_text(m / 10);
        lemma_digit_char((m % 10) as int);
        let pre = nat_text(m / 10);
        let s = pre.push(digit_char((m % 10) as int));
        let len = s.len() as int;
        assert forall|i: int| 0 <= i < len implies is_digit(#[trigger] s[i]) by {
            if i < len - 1 {
                assert(s[i] == pre[i]);
            }
        }
        lemma_digits_val_agree(s, pre, 0, pre.len() as int);
        assert(digits_val(s, 0, len) == digits_val(s, 0, len - 1) * 10 + digit_val(s[len - 1]));
    }
}

/// `digits_val` looks only at the characters between `pos` and `end`.
proof fn lemma_digits_val_agree(s1: Seq<char>, s2: Seq<char>, pos: int, end: int)
    requires
        0 <= pos <= end,
        forall|i: int| pos <= i < end ==> s1[i] == s2[i],
    ensures
        digits_val(s1, pos, end) == digits_val(s2, pos, end),
    decreases end - pos,
{
    if pos < end {
        lemma_digits_val_agree(s1, s2, pos, end - 1);
    }
}

/// A digit run reaching the end of the input is consumed whole.
proof fn lemma_digits_end_all(s: Seq<char>, pos: int)
    requires
        0 <= pos <= s.len(),
        forall|i: int| pos <= i < s.len() ==> is_digit(s[i]),
    ensures
        digits_end(s, pos) == s.len(),
    decreases s.len() - pos,
{
    if pos < s.len() {
        lemma_digits_end_all(s, pos + 1);
    }
}

/// Exact numeric round-trip for integers: parsing the decimal text of any
/// signed 64-bit value yields exactly that value, consuming all of it.
pub proof fn lemma_int_round_trip(v: int)
    requires
        i64::MIN <= v <= i64::MAX,
    ensures
        spec_int(int_text(v), 0) == SpecStep::<int>::Found(v, int_text(v).len() as int),
{
    let s = int_text(v);
    if v < 0 {
        let m = (-v) as nat;
        lemma_nat_text(m);
        let body = nat_text(m);
        assert(s.len() == 1 + body.len());
        assert(s[0] == '-');
        assert forall|i: int| 1 <= i < s.len() implies is_digit(s[i]) by {
            assert(s[i] == body[i - 1]);
        }
        lemma_digits_end_all(s, 1);
        lemma_digits_val_shift(s, 1, body);
        assert(digits_val(s, 1, s.len() as int) == m);
    } else {
        lemma_nat_text(v as nat);
        lemma_digit_char(digit_val(s[0]));
        assert(!is_digit('-')) by {
            assert('-' as int == 45);
        }
        assert(s[0] != '-');
        lemma_digits_end_all(s, 0);
    }
}

/// `digits_val` of a suffix equals `digits_val` of the same characters at the
/// start of their own sequence.
proof fn lemma_digits_val_shift(s: Seq<char>, off: int, body: Seq<char>)
    requires
        0 <= off,
        s.len() == off + body.len(),
        forall|i: int| 0 <= i < body.len() ==> s[off + i] == body[i],
    ensures
        digits_val(s, off, s.len() as int) == digits_val(body, 0, body.len() as int),
    decreases body.len(),
{
    if body.len() > 0 {
        let blen = body.len() as int;
        lemma_digits_val_shift(s.take(s.len() - 1), off, body.take(blen - 1));
        assert forall|i: int| 0 <= i < blen - 1 implies s.take(s.len() - 1)[off + i] == #[trigger] (
        body.take(blen - 1)[i]) by {
            assert(s[off + i] == body[i]);
        }
        lemma_digits_val_agree(s.take(s.len() - 1), s, off, s.len() - 1);
        lemma_digits_val_agree(body.take(blen - 1), body, 0, blen - 1);
        assert(s[off + blen - 1] == body[blen - 1]);
    }
}

/// A trailing comma in an array never silently succeeds: when the `,` token
/// matches at `p` and no value can be parsed after it, the array parse fails
/// with that value parse's own error.
pub proof fn lemma_trailing_comma_array(s: Seq<char>, p: int, p2: int, acc: Seq<SpecValue>)
    requires
        0 <= p <= s.len(),
        spec_token(s, p, ',') == SpecStep::<()>::Found((), p2),
        spec_value(s, p2) is Failed,
    ensures
        spec_array_more(s, p, acc) is Failed,
        spec_array_more(s, p, acc) == SpecStep::<Seq<SpecValue>>::Failed(
            spec_value(s, p2)->Failed_0,
            spec_value(s, p2)->Failed_1,
        ),
{
}

/// A trailing comma in an object never silently succeeds: when the `,` token
/// matches at `p` and no member key follows it, the object parse fails.
pub proof fn lemma_trailing_comma_object(
    s: Seq<char>,
    p: int,
    p2: int,
    acc: Seq<(Seq<char>, SpecValue)>,
)
    requires
        0 <= p <= s.len(),
        spec_token(s, p, ',') == SpecStep::<()>::Found((), p2),
        spec_string(s, p2) is Failed,
    ensures
        spec_object_more(s, p, acc) is Failed,
{
}

/// Positions inside one whitespace run all reach its end.
proof fn lemma_ws_end_within(s: Seq<char>, pos: int, i: int)
    requires
        0 <= pos <= i <= ws_end(s, pos),
        pos <= s.len(),
    ensures
        ws_end(s, i) == ws_end(s, pos),
    decreases i - pos,
{
    lemma_ws_end(s, pos);
    if pos < i {
        lemma_ws_end_within(s, pos + 1, i);
    }
}

/// Whitespace around a structural token never changes what the token parse
/// yields: starting anywhere inside the whitespace run that precedes the
/// token gives the very same result, resume position included.  Any amount
/// and kind of whitespace after the token is likewise absorbed, by the
/// definition of the token parse itself.
pub proof fn lemma_token_ws_insensitive(s: Seq<char>, pos: int, i: int, c: char)
    requires
        0 <= pos <= s.len(),
        pos <= i <= ws_end(s, pos),
    ensures
        spec_token(s, i, c) == spec_token(s, pos, c),
{
    lemma_ws_end_within(s, pos, i);
}

/// Where the character at `j` is whitespace or opens a composite, every leaf
/// parser fails at `j`.
proof fn lemma_leaves_fail_at(s: Seq<char>, j: int)
    requires
        0 <= j < s.len(),
        is_space(s[j]) || s[j] == '[' || s[j] == '{',
    ensures
        spec_null(s, j) is Failed,
        spec_bool(s, j) is Failed,
        spec_float(s, j) is Failed,
        spec_int(s, j) is Failed,
        spec_string(s, j) is Failed,
{
    assert(!is_digit(s[j]));
    assert(digits_end(s, j) == j);
}

/// Whitespace before an array or object never changes the parsed value: when
/// the first non-whitespace character at or after `pos` opens a composite,
/// the value parse gives the very same result from every position inside the
/// whitespace run.  Together with `lemma_token_ws_insensitive` this is why
/// the amount and kind of whitespace around structural tokens is irrelevant.
pub proof fn lemma_value_ws_insensitive(s: Seq<char>, pos: int, i: int)
    requires
        0 <= pos <= s.len(),
        pos <= i <= ws_end(s, pos),
        ws_end(s, pos) < s.len(),
        s[ws_end(s, pos)] == '[' || s[ws_end(s, pos)] == '{',
    ensures
        spec_value(s, i) == spec_value(s, pos),
{
    lemma_ws_end(s, pos);
    lemma_ws_end_within(s, pos, i);
    lemma_token_ws_insensitive(s, pos, i, '[');
    lemma_token_ws_insensitive(s, pos, i, '{');
    lemma_leaves_fail_at(s, pos);
    lemma_leaves_fail_at(s, i);
}

/// Object keys stay unique within one member list.
pub open spec fn keys_unique(ms: Seq<(Seq<char>, SpecValue)>) -> bool {
    forall|i: int, j: int| 0 <= i < j < ms.len() ==> (#[trigger] ms[i]).0 != (#[trigger] ms[j]).0
}

/// A hash-map style insert keeps object keys unique.
pub proof fn lemma_obj_insert_keys_unique(ms: Seq<(Seq<char>, SpecValue)>, k: Seq<char>, v: SpecValue)
    requires
        keys_unique(ms),
    ensures
        keys_unique(obj_insert(ms, k, v)),
{
    lemma_key_index(ms, k);
    let ki = key_index(ms, k);
    let out = obj_insert(ms, k, v);
    assert forall|i: int, j: int| 0 <= i < j < out.len() implies (#[trigger] out[i]).0 != (
    #[trigger] out[j]).0 by {
        if ki < ms.len() {
            if i != ki && j != ki {
                assert(out[i] == ms[i] && out[j] == ms[j]);
            } else if i == ki {
                assert(out[j] == ms[j]);
                assert(ms[ki].0 == k);
            } else {
                assert(out[i] == ms[i]);
                assert(ms[ki].0 == k);
            }
        } else {
            if j < out.len() - 1 {
                assert(out[i] == ms[i] && out[j] == ms[j]);
            } else {
                assert(out[i] == ms[i]);
            }
        }
    }
}
/// Well-formedness of a value tree: every object node anywhere in it keeps
/// its keys unique.
pub open spec fn wf(v: SpecValue) -> bool
    decreases v,
{
    match v {
        SpecValue::Array(vs) => forall|i: int| 0 <= i < vs.len() ==> wf(#[trigger] vs[i]),
        SpecValue::Object(ms) => keys_unique(ms) && forall|i: int|
            0 <= i < ms.len() ==> wf((#[trigger] ms[i]).1),
        _ => true,
    }
}

/// A hash-map style insert keeps every member's value well-formed.
proof fn lemma_obj_insert_wf(ms: Seq<(Seq<char>, SpecValue)>, k: Seq<char>, v: SpecValue)
    requires
        forall|i: int| 0 <= i < ms.len() ==> wf((#[trigger] ms[i]).1),
        wf(v),
    ensures
        forall|i: int|
            0 <= i < obj_insert(ms, k, v).len() ==> wf((#[trigger] obj_insert(ms, k, v)[i]).1),
{
    lemma_key_index(ms, k);
    let out = obj_insert(ms, k, v);
    assert forall|i: int| 0 <= i < out.len() implies wf((#[trigger] out[i]).1) by {
        if !(key_index(ms, k) < ms.len() && i == key_index(ms, k)) && i < ms.len() {
            assert(out[i] == ms[i]);
        }
    }
}

/// Every successfully parsed value is well-formed: each object node anywhere
/// in the tree has unique keys, because members only ever enter it through
/// the last-write-wins insert.
pub proof fn lemma_value_wf(s: Seq<char>, pos: int)
    requires
        0 <= pos <= s.len(),
    ensures
        spec_value(s, pos) matches SpecStep::Found(v, _) ==> wf(v),
    decreases s.len() - pos, 0int,
{
    crate::grammar::lemma_token(s, pos, '[');
    crate::grammar::lemma_token(s, pos, '{');
    if let SpecStep::Found(_, p) = spec_token(s, pos, '[') {
        lemma_array_rest_wf(s, p);
    }
    if let SpecStep::Found(_, p) = spec_token(s, pos, '{') {
        lemma_object_rest_wf(s, p);
    }
}

proof fn lemma_array_rest_wf(s: Seq<char>, p: int)
    requires
        0 <= p <= s.len(),
    ensures
        crate::grammar::spec_array_rest(s, p) matches SpecStep::Found(vs, _) ==> forall|i: int|
            0 <= i < vs.len() ==> wf(#[trigger] vs[i]),
    decreases s.len() - p, 1int,
{
    lemma_value_wf(s, p);
    if let SpecStep::Found(v, p1) = spec_value(s, p) {
        if p < p1 <= s.len() {
            lemma_array_more_wf(s, p1, seq![v]);
        }
    }
}

proof fn lemma_array_more_wf(s: Seq<char>, p: int, acc: Seq<SpecValue>)
    requires
        0 <= p <= s.len(),
        forall|i: int| 0 <= i < acc.len() ==> wf(#[trigger] acc[i]),
    ensures
        spec_array_more(s, p, acc) matches SpecStep::Found(vs, _) ==> forall|i: int|
            0 <= i < vs.len() ==> wf(#[trigger] vs[i]),
    decreases s.len() - p, 1int,
{
    crate::grammar::lemma_token(s, p, ',');
    if let SpecStep::Found(_, p2) = spec_token(s, p, ',') {
        lemma_value_wf(s, p2);
        if let SpecStep::Found(v, p3) = spec_value(s, p2) {
            if p2 < p3 <= s.len() {
                assert forall|i: int| 0 <= i < acc.push(v).len() implies wf(
                    #[trigger] acc.push(v)[i],
                ) by {
                    if i < acc.len() {
                        assert(acc.push(v)[i] == acc[i]);
                    }
                }
                lemma_array_more_wf(s, p3, acc.push(v));
            }
        }
    }
}

proof fn lemma_object_rest_wf(s: Seq<char>, p: int)
    requires
        0 <= p <= s.len(),
    ensures
        crate::grammar::spec_object_rest(s, p) matches SpecStep::Found(ms, _) ==> keys_unique(ms)
            && forall|i: int| 0 <= i < ms.len() ==> wf((#[trigger] ms[i]).1),
    decreases s.len() - p, 1int,
{
    if let SpecStep::Found(k, pk) = spec_string(s, p) {
        crate::grammar::lemma_quote_pos(s, p + 1);
        crate::grammar::lemma_token(s, pk, ':');
        if let SpecStep::Found(_, pc) = spec_token(s, pk, ':') {
            lemma_value_wf(s, pc);
            if let SpecStep::Found(v, pv) = spec_value(s, pc) {
                if pc < pv <= s.len() {
                    let start = obj_insert(Seq::empty(), k, v);
                    lemma_obj_insert_keys_unique(Seq::empty(), k, v);
                    lemma_obj_insert_wf(Seq::empty(), k, v);
                    lemma_object_more_wf(s, pv, start);
                }
            }
        }
    }
}

proof fn lemma_object_more_wf(s: Seq<char>, p: int, acc: Seq<(Seq<char>, SpecValue)>)
    requires
        0 <= p <= s.len(),
        keys_unique(acc),
        forall|i: int| 0 <= i < acc.len() ==> wf((#[trigger] acc[i]).1),
    ensures
        spec_object_more(s, p, acc) matches SpecStep::Found(ms, _) ==> keys_unique(ms) && forall|
            i: int,
        | 0 <= i < ms.len() ==> wf((#[trigger] ms[i]).1),
    decreases s.len() - p, 1int,
{
    crate::grammar::lemma_token(s, p, ',');
    if let SpecStep::Found(_, p2) = spec_token(s, p, ',') {
        if let SpecStep::Found(k, pk) = spec_string(s, p2) {
            crate::grammar::lemma_quote_pos(s, p2 + 1);
            crate::grammar::lemma_token(s, pk, ':');
            if let SpecStep::Found(_, pc) = spec_token(s, pk, ':') {
                lemma_value_wf(s, pc);
                if let SpecStep::Found(v, pv) = spec_value(s, pc) {
                    if pc < pv <= s.len() {
                        lemma_obj_insert_keys_unique(acc, k, v);
                        lemma_obj_insert_wf(acc, k, v);
                        lemma_object_more_wf(s, pv, obj_insert(acc, k, v));
                    }
                }
            }
        }
    }
}

} // verus!

