//! The value tree a parse produces, its mathematical model, and the errors a
//! parse can report.

use vstd::prelude::*;

verus! {

/// The failure categories a parse can report.
#[derive(Debug, Clone, Copy, PartialEq, Eq, Structural)]
pub enum ErrorKind {
    /// A specific literal or character class was required but not found.
    TokenExpected,
    /// An opening quote with no matching closing quote.
    UnterminatedString,
    /// An integer literal outside the signed 64-bit range.
    NumericOverflow,
    /// The value dispatcher exhausted every alternative at the position.
    NoAlternativeMatched,
    /// An array or object was opened but not closed where required.
    UnbalancedDelimiter,
}

/// A structured parse failure: what went wrong and the character offset at
/// which it was noticed.
#[derive(Debug, Clone, Copy, PartialEq, Eq, Structural)]
pub struct ParseError {
    pub kind: ErrorKind,
    pub at: usize,
}

/// A parsed document node.
///
/// `Number` keeps the matched float-form literal exactly as written; a caller
/// that wants a machine float converts the text outside the core, so the core
/// itself never holds floating point.  `Object` keeps its members in first
/// insertion order with unique keys; a duplicate key overwrites the earlier
/// value in place (last write wins), mirroring a hash-map insert.
#[derive(Debug, PartialEq)]
pub enum JsonValue {
    Null,
    Bool(bool),
    Int(i64),
    Number(String),
    String(String),
    Array(Vec<JsonValue>),
    Object(Vec<(String, JsonValue)>),
}

/// The mathematical model of a value tree: text as sequences of characters,
/// machine integers widened to mathematical integers.
#[verifier::ext_equal]
pub enum SpecValue {
    Null,
    Bool(bool),
    Int(int),
    Number(Seq<char>),
    String(Seq<char>),
    Array(Seq<SpecValue>),
    Object(Seq<(Seq<char>, SpecValue)>),
}

impl View for JsonValue {
    type V = SpecValue;

    open spec fn view(&self) -> SpecValue
        decreases self,
    {
        match self {
            JsonValue::Null => SpecValue::Null,
            JsonValue::Bool(b) => SpecValue::Bool(*b),
            JsonValue::Int(i) => SpecValue::Int(*i as int),
            JsonValue::Number(t) => SpecValue::Number(t@),
            JsonValue::String(t) => SpecValue::String(t@),
            JsonValue::Array(vs) => SpecValue::Array(seq_view(vs@)),
            JsonValue::Object(ms) => SpecValue::Object(members_view(ms@)),
        }
    }
}

/// The models of a sequence of array elements.
pub open spec fn seq_view(vs: Seq<JsonValue>) -> Seq<SpecValue>
    decreases vs,
{
    if vs.len() == 0 {
        Seq::empty()
    } else {
        seq_view(vs.drop_last()).push(vs.last()@)
    }
}

/// The models of a sequence of object members.
pub open spec fn members_view(ms: Seq<(String, JsonValue)>) -> Seq<(Seq<char>, SpecValue)>
    decreases ms,
{
    if ms.len() == 0 {
        Seq::empty()
    } else {
        members_view(ms.drop_last()).push((ms.last().0@, ms.last().1@))
    }
}

pub proof fn lemma_seq_view_len(vs: Seq<JsonValue>)
    ensures
        seq_view(vs).len() == vs.len(),
    decreases vs,
{
    if vs.len() != 0 {
        lemma_seq_view_len(vs.drop_last());
        assert(seq_view(vs) == seq_view(vs.drop_last()).push(vs.last()@));
    } else {
        assert(seq_view(vs) == Seq::<SpecValue>::empty());
    }
}
pub proof fn lemma_seq_view_push(vs: Seq<JsonValue>, v: JsonValue)
    ensures
        seq_view(vs.push(v)) == seq_view(vs).push(v@),
{
    assert(vs.push(v).drop_last() =~= vs);
    assert(vs.push(v).last() == v);
}

pub proof fn lemma_members_view_len(ms: Seq<(String, JsonValue)>)
    ensures
        members_view(ms).len() == ms.len(),
    decreases ms,
{
    if ms.len() != 0 {
        lemma_members_view_len(ms.drop_last());
        assert(members_view(ms) == members_view(ms.drop_last()).push(
            (ms.last().0@, ms.last().1@),
        ));
    } else {
        assert(members_view(ms) == Seq::<(Seq<char>, SpecValue)>::empty());
    }
}

pub proof fn lemma_members_view_index(ms: Seq<(String, JsonValue)>, i: int)
    requires
        0 <= i < ms.len(),
    ensures
        members_view(ms).len() == ms.len(),
        members_view(ms)[i] == (ms[i].0@, ms[i].1@),
    decreases ms,
{
    lemma_members_view_len(ms);
    assert(members_view(ms) == members_view(ms.drop_last()).push((ms.last().0@, ms.last().1@)));
    lemma_members_view_len(ms.drop_last());
    if i < ms.len() - 1 {
        lemma_members_view_index(ms.drop_last(), i);
        assert(ms.drop_last()[i] == ms[i]);
    }
}

pub proof fn lemma_members_view_push(ms: Seq<(String, JsonValue)>, k: String, v: JsonValue)
    ensures
        members_view(ms.push((k, v))) == members_view(ms).push((k@, v@)),
{
    assert(ms.push((k, v)).drop_last() =~= ms);
}

pub proof fn lemma_members_view_update(ms: Seq<(String, JsonValue)>, i: int, k: String, v: JsonValue)
    requires
        0 <= i < ms.len(),
    ensures
        members_view(ms.update(i, (k, v))) == members_view(ms).update(i, (k@, v@)),
{
    let upd = ms.update(i, (k, v));
    lemma_members_view_len(ms);
    lemma_members_view_len(upd);
    assert forall|j: int| 0 <= j < ms.len() implies members_view(upd)[j] == members_view(ms).update(
        i,
        (k@, v@),
    )[j] by {
        lemma_members_view_index(upd, j);
        lemma_members_view_index(ms, j);
    }
    assert(members_view(upd) =~= members_view(ms).update(i, (k@, v@)));
}

} // verus!
