//! The JSON data model accepted and produced by the codec, together with its
//! mathematical abstraction.

use vstd::prelude::*;
use crate::floats::{canon_float, f64_is_finite};

verus! {

/// Mathematical abstraction of a JSON value: integers are unbounded, strings
/// are character sequences, containers are sequences.
pub enum JVal {
    Null,
    Bool(bool),
    Int(int),
    Float(u64),
    Str(Seq<char>),
    Arr(Seq<JVal>),
    Obj(Seq<(Seq<char>, JVal)>),
}

/// A JSON value: `null`, booleans, numbers (integers, or finite IEEE-754
/// doubles carried by their bit pattern), strings, arrays, and objects with
/// ordered `(key, value)` pairs.
#[derive(Debug, PartialEq)]
pub enum JsonValue {
    Null,
    Bool(bool),
    Int(i64),
    UInt(u64),
    Float(u64),
    Str(String),
    Array(Vec<JsonValue>),
    Object(Vec<(String, JsonValue)>),
}

impl View for JsonValue {
    type V = JVal;

    open spec fn view(&self) -> JVal
        decreases self,
    {
        match self {
            JsonValue::Null => JVal::Null,
            JsonValue::Bool(b) => JVal::Bool(*b),
            JsonValue::Int(n) => JVal::Int(*n as int),
            JsonValue::UInt(n) => JVal::Int(*n as int),
            JsonValue::Float(bits) => JVal::Float(*bits),
            JsonValue::Str(s) => JVal::Str(s@),
            JsonValue::Array(elems) => JVal::Arr(view_elems(elems@)),
            JsonValue::Object(pairs) => JVal::Obj(view_pairs(pairs@)),
        }
    }
}

/// The abstraction of a sequence of values, element by element.
pub open spec fn view_elems(elems: Seq<JsonValue>) -> Seq<JVal>
    decreases elems,
{
    if elems.len() == 0 {
        seq![]
    } else {
        seq![elems[0]@] + view_elems(elems.drop_first())
    }
}

/// The abstraction of a sequence of `(key, value)` pairs, pair by pair.
pub open spec fn view_pairs(pairs: Seq<(String, JsonValue)>) -> Seq<(Seq<char>, JVal)>
    decreases pairs,
{
    if pairs.len() == 0 {
        seq![]
    } else {
        seq![(pairs[0].0@, pairs[0].1@)] + view_pairs(pairs.drop_first())
    }
}

/// The abstraction of a sequence of values, read off element by element.
pub proof fn lemma_view_elems(elems: Seq<JsonValue>)
    ensures
        view_elems(elems).len() == elems.len(),
        forall|i: int| 0 <= i < elems.len() ==> view_elems(elems)[i] == #[trigger] elems[i]@,
    decreases elems.len(),
{
    if elems.len() > 0 {
        lemma_view_elems(elems.drop_first());
        assert(view_elems(elems) == seq![elems[0]@] + view_elems(elems.drop_first()));
        assert forall|i: int| 0 <= i < elems.len() implies view_elems(elems)[i]
            == #[trigger] elems[i]@ by {
            if i > 0 {
                assert(view_elems(elems) == seq![elems[0]@] + view_elems(elems.drop_first()));
                assert((seq![elems[0]@] + view_elems(elems.drop_first()))[i] == view_elems(
                    elems.drop_first(),
                )[i - 1]);
                assert(elems.drop_first()[i - 1] == elems[i]);
            }
        }
    }
}

/// The abstraction of a pair sequence, read off pair by pair.
pub proof fn lemma_view_pairs(pairs: Seq<(String, JsonValue)>)
    ensures
        view_pairs(pairs).len() == pairs.len(),
        forall|i: int|
            0 <= i < pairs.len() ==> view_pairs(pairs)[i] == (
                #[trigger] pairs[i].0@,
                pairs[i].1@,
            ),
    decreases pairs.len(),
{
    if pairs.len() > 0 {
        lemma_view_pairs(pairs.drop_first());
        assert(view_pairs(pairs) == seq![(pairs[0].0@, pairs[0].1@)] + view_pairs(
            pairs.drop_first(),
        ));
        assert forall|i: int| 0 <= i < pairs.len() implies view_pairs(pairs)[i] == (
            #[trigger] pairs[i].0@,
            pairs[i].1@,
        ) by {
            if i > 0 {
                assert(view_pairs(pairs) == seq![(pairs[0].0@, pairs[0].1@)] + view_pairs(
                    pairs.drop_first(),
                ));
                assert((seq![(pairs[0].0@, pairs[0].1@)] + view_pairs(pairs.drop_first()))[i]
                    == view_pairs(pairs.drop_first())[i - 1]);
                assert(pairs.drop_first()[i - 1] == pairs[i]);
            }
        }
    }
}

/// A value as it comes back out of a decoder: every float replaced by the
/// representative the codec's numeric downcast stores for it.
pub open spec fn canon_jval(v: JVal) -> JVal
    decreases v,
{
    match v {
        JVal::Float(b) => JVal::Float(canon_float(b)),
        JVal::Arr(elems) => JVal::Arr(canon_elems(elems)),
        JVal::Obj(pairs) => JVal::Obj(canon_pairs(pairs)),
        _ => v,
    }
}

/// `canon_jval`, element by element.
pub open spec fn canon_elems(elems: Seq<JVal>) -> Seq<JVal>
    decreases elems,
{
    if elems.len() == 0 {
        seq![]
    } else {
        seq![canon_jval(elems[0])] + canon_elems(elems.drop_first())
    }
}

/// `canon_jval`, pair by pair; keys are kept as they are.
pub open spec fn canon_pairs(pairs: Seq<(Seq<char>, JVal)>) -> Seq<(Seq<char>, JVal)>
    decreases pairs,
{
    if pairs.len() == 0 {
        seq![]
    } else {
        seq![(pairs[0].0, canon_jval(pairs[0].1))] + canon_pairs(pairs.drop_first())
    }
}

/// A value no float of which is changed by canonicalization: each is either
/// a positive zero or lies outside the band stored as a single.
pub open spec fn floats_canonical(v: JVal) -> bool
    decreases v,
{
    match v {
        JVal::Float(b) => canon_float(b) == b,
        JVal::Arr(elems) => forall|i: int|
            0 <= i < elems.len() ==> floats_canonical(#[trigger] elems[i]),
        JVal::Obj(pairs) => forall|i: int|
            0 <= i < pairs.len() ==> floats_canonical(#[trigger] pairs[i].1),
        _ => true,
    }
}

/// Canonicalization leaves a value with canonical floats unchanged.
pub proof fn lemma_canon_id(v: JVal)
    requires
        floats_canonical(v),
    ensures
        canon_jval(v) == v,
    decreases v,
{
    match v {
        JVal::Arr(elems) => {
            lemma_canon_elems_id(elems);
        },
        JVal::Obj(pairs) => {
            lemma_canon_pairs_id(pairs);
        },
        _ => {},
    }
}

/// Canonicalization leaves elements with canonical floats unchanged.
pub proof fn lemma_canon_elems_id(elems: Seq<JVal>)
    requires
        forall|i: int| 0 <= i < elems.len() ==> floats_canonical(#[trigger] elems[i]),
    ensures
        canon_elems(elems) == elems,
    decreases elems,
{
    if elems.len() > 0 {
        lemma_canon_id(elems[0]);
        assert(forall|i: int|
            0 <= i < elems.drop_first().len() ==> #[trigger] elems.drop_first()[i] == elems[i
                + 1]);
        lemma_canon_elems_id(elems.drop_first());
        assert(canon_elems(elems) =~= elems);
    }
}

/// Canonicalization leaves pairs with canonical floats unchanged.
pub proof fn lemma_canon_pairs_id(pairs: Seq<(Seq<char>, JVal)>)
    requires
        forall|i: int| 0 <= i < pairs.len() ==> floats_canonical(#[trigger] pairs[i].1),
    ensures
        canon_pairs(pairs) == pairs,
    decreases pairs,
{
    if pairs.len() > 0 {
        lemma_canon_id(pairs[0].1);
        assert(forall|i: int|
            0 <= i < pairs.drop_first().len() ==> #[trigger] pairs.drop_first()[i] == pairs[i
                + 1]);
        lemma_canon_pairs_id(pairs.drop_first());
        assert(canon_pairs(pairs) =~= pairs);
    }
}

} // verus!
