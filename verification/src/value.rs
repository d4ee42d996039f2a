//! The tagged-union representation of a decoded bencode token, and its
//! mathematical model.

use vstd::prelude::*;

verus! {

broadcast use vstd::std_specs::vec::group_vec_axioms, vstd::seq::group_seq_axioms;

/// A decoded bencode value.
///
/// A dictionary is kept as the sequence of key/value pairs in the order
/// they were decoded; canonical (ascending byte-lexicographic) key order
/// is established by the encoder, never assumed of input.
#[derive(Debug, PartialEq, Eq)]
pub enum Value {
    Integer(i64),
    ByteString(Vec<u8>),
    List(Vec<Value>),
    Dictionary(Vec<(Vec<u8>, Value)>),
}

/// The mathematical model of a `Value`: integers are unbounded, byte
/// strings are sequences, containers are sequences of models.
pub enum SpecValue {
    Int(int),
    Str(Seq<u8>),
    List(Seq<SpecValue>),
    Dict(Seq<(Seq<u8>, SpecValue)>),
}

impl Value {
    /// The model of this value.
    pub open spec fn deep_view(self) -> SpecValue
        decreases self, 0int, 0int,
        via Self::deep_view_decreases
    {
        match self {
            Value::Integer(n) => SpecValue::Int(n as int),
            Value::ByteString(b) => SpecValue::Str(b@),
            Value::List(es) => SpecValue::List(views_upto(es@, es@.len() as int)),
            Value::Dictionary(ps) => SpecValue::Dict(pair_views_upto(ps@, ps@.len() as int)),
        }
    }

    #[via_fn]
    proof fn deep_view_decreases(self) {
        match self {
            Value::Integer(_) => {}
            Value::ByteString(_) => {}
            Value::List(es) => {
                assert(decreases_to!(es => es@));
            }
            Value::Dictionary(ps) => {
                assert(decreases_to!(ps => ps@));
            }
        }
    }
}

/// The models of the first `k` values of `es`.
pub open spec fn views_upto(es: Seq<Value>, k: int) -> Seq<SpecValue>
    decreases es, 1int, k,
    via views_upto_decreases
{
    if k <= 0 || k > es.len() {
        Seq::empty()
    } else {
        views_upto(es, k - 1).push(es[k - 1].deep_view())
    }
}

#[via_fn]
proof fn views_upto_decreases(es: Seq<Value>, k: int) {
    if 0 < k <= es.len() {
        assert(decreases_to!(es => es[k - 1]));
    }
}

/// The models of the first `k` key/value pairs of `ps`.
pub open spec fn pair_views_upto(ps: Seq<(Vec<u8>, Value)>, k: int) -> Seq<(Seq<u8>, SpecValue)>
    decreases ps, 1int, k,
    via pair_views_upto_decreases
{
    if k <= 0 || k > ps.len() {
        Seq::empty()
    } else {
        pair_views_upto(ps, k - 1).push((ps[k - 1].0@, ps[k - 1].1.deep_view()))
    }
}

#[via_fn]
proof fn pair_views_upto_decreases(ps: Seq<(Vec<u8>, Value)>, k: int) {
    if 0 < k <= ps.len() {
        assert(decreases_to!(ps => ps[k - 1]));
    }
}

/// The models of a sequence of values.
pub open spec fn views_of(es: Seq<Value>) -> Seq<SpecValue> {
    views_upto(es, es.len() as int)
}

/// The models of a sequence of key/value pairs.
pub open spec fn pair_views_of(ps: Seq<(Vec<u8>, Value)>) -> Seq<(Seq<u8>, SpecValue)> {
    pair_views_upto(ps, ps.len() as int)
}

/// How many models `views_upto` yields.
pub broadcast proof fn lemma_views_upto_len(es: Seq<Value>, k: int)
    requires
        0 <= k <= es.len(),
    ensures
        (#[trigger] views_upto(es, k)).len() == k,
    decreases k,
{
    if k > 0 {
        lemma_views_upto_len(es, k - 1);
    }
}

/// Which model `views_upto` puts at each position.
pub broadcast proof fn lemma_views_upto_index(es: Seq<Value>, k: int, i: int)
    requires
        0 <= i < k <= es.len(),
    ensures
        (#[trigger] views_upto(es, k)[i]) == es[i].deep_view(),
    decreases k,
{
    lemma_views_upto_len(es, k - 1);
    if i < k - 1 {
        lemma_views_upto_index(es, k - 1, i);
    }
}

/// How many models `pair_views_upto` yields.
pub broadcast proof fn lemma_pair_views_upto_len(ps: Seq<(Vec<u8>, Value)>, k: int)
    requires
        0 <= k <= ps.len(),
    ensures
        (#[trigger] pair_views_upto(ps, k)).len() == k,
    decreases k,
{
    if k > 0 {
        lemma_pair_views_upto_len(ps, k - 1);
    }
}

/// Which model `pair_views_upto` puts at each position.
pub broadcast proof fn lemma_pair_views_upto_index(ps: Seq<(Vec<u8>, Value)>, k: int, i: int)
    requires
        0 <= i < k <= ps.len(),
    ensures
        (#[trigger] pair_views_upto(ps, k)[i]) == (ps[i].0@, ps[i].1.deep_view()),
    decreases k,
{
    lemma_pair_views_upto_len(ps, k - 1);
    if i < k - 1 {
        lemma_pair_views_upto_index(ps, k - 1, i);
    }
}

pub broadcast group group_value_views {
    lemma_views_upto_len,
    lemma_views_upto_index,
    lemma_pair_views_upto_len,
    lemma_pair_views_upto_index,
}

/// A model is well formed when every integer in it fits a signed 64-bit
/// word; every value the decoder builds satisfies this.
pub open spec fn wf(v: SpecValue) -> bool
    decreases v,
{
    match v {
        SpecValue::Int(n) => i64::MIN <= n <= i64::MAX,
        SpecValue::Str(_) => true,
        SpecValue::List(es) => forall|i: int| 0 <= i < es.len() ==> wf(#[trigger] es[i]),
        SpecValue::Dict(ps) => forall|i: int| 0 <= i < ps.len() ==> wf(#[trigger] ps[i].1),
    }
}

/// The first value stored under `key`, if any.
pub open spec fn dict_get(ps: Seq<(Seq<u8>, SpecValue)>, key: Seq<u8>) -> Option<SpecValue>
    decreases ps.len(),
{
    if ps.len() == 0 {
        None
    } else if ps[0].0 == key {
        Some(ps[0].1)
    } else {
        dict_get(ps.drop_first(), key)
    }
}

/// The model of every decoded value is well formed.
pub proof fn lemma_deep_view_wf(v: Value)
    ensures
        wf(v.deep_view()),
    decreases v,
{
    broadcast use group_value_views;

    match v {
        Value::Integer(_) => {}
        Value::ByteString(_) => {}
        Value::List(es) => {
            let ms = v.deep_view()->List_0;
            lemma_views_upto_len(es@, es@.len() as int);
            assert forall|i: int| 0 <= i < ms.len() implies wf(#[trigger] ms[i]) by {
                lemma_views_upto_index(es@, es@.len() as int, i);
                lemma_deep_view_wf(es@[i]);
            }
        }
        Value::Dictionary(ps) => {
            let ms = v.deep_view()->Dict_0;
            lemma_pair_views_upto_len(ps@, ps@.len() as int);
            assert forall|i: int| 0 <= i < ms.len() implies wf(#[trigger] ms[i].1) by {
                lemma_pair_views_upto_index(ps@, ps@.len() as int, i);
                lemma_deep_view_wf(ps@[i].1);
            }
        }
    }
}

} // verus!
