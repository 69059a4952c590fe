//! The value tree that a successful parse produces, and its mathematical
//! model: a tagged union over the JSON type system, fully owned and
//! self-contained.
//!
//! A number is kept as its validated source text: the parser guarantees the
//! text to be in standard decimal/exponent syntax, and the conversion to a
//! machine floating-point value is the caller's step.
use vstd::pervasive::VecAdditionalExecFns;
use vstd::prelude::*;

verus! {

/// The mathematical shape of a parsed JSON value, over sequences of
/// characters.  An object is a sequence of key/value pairs whose keys are
/// unique; a later duplicate in the source overwrites the earlier entry.
pub enum JsonModel {
    Null,
    Boolean(bool),
    Number(Seq<char>),
    Text(Seq<char>),
    Array(Seq<JsonModel>),
    Object(Seq<(Seq<char>, JsonModel)>),
}

/// A wrapper that gives object keys an identity of their own; equality and
/// hashing are structural, by the underlying character content.
#[derive(Debug, Hash, Eq, PartialEq)]
pub struct JsonObjectKey {
    pub key: Vec<char>,
}

/// A parsed JSON value: exactly one variant at a time.  Array order equals
/// source order; object keys are unique, the last write winning.
#[derive(Debug, PartialEq)]
pub enum JsonValue {
    JsonString(Vec<char>),
    JsonNull,
    JsonNumber(Vec<char>),
    JsonBoolValue(bool),
    JsonArray(Vec<JsonValue>),
    JsonObject(Vec<(JsonObjectKey, JsonValue)>),
}

impl JsonValue {
    /// The model that this tree stands for.
    pub open spec fn model(self) -> JsonModel
        decreases self,
        via JsonValue::model_decreases
    {
        match self {
            JsonValue::JsonString(t) => JsonModel::Text(t@),
            JsonValue::JsonNull => JsonModel::Null,
            JsonValue::JsonNumber(t) => JsonModel::Number(t@),
            JsonValue::JsonBoolValue(b) => JsonModel::Boolean(b),
            JsonValue::JsonArray(es) => JsonModel::Array(model_elems(es@)),
            JsonValue::JsonObject(ms) => JsonModel::Object(model_members(ms@)),
        }
    }

    #[via_fn]
    proof fn model_decreases(self) {
        broadcast use vstd::std_specs::vec::axiom_vec_decreases_to_view;

    }
}

/// The models of a sequence of trees, in the same order.
pub open spec fn model_elems(es: Seq<JsonValue>) -> Seq<JsonModel>
    decreases es,
    via model_elems_decreases
{
    if es.len() == 0 {
        Seq::empty()
    } else {
        seq![es[0].model()] + model_elems(es.drop_first())
    }
}

#[via_fn]
proof fn model_elems_decreases(es: Seq<JsonValue>) {
    broadcast use
        vstd::seq::axiom_seq_index_decreases,
        vstd::seq::axiom_seq_subrange_decreases;

}

/// The models of a sequence of key/value pairs, in the same order.
pub open spec fn model_members(ms: Seq<(JsonObjectKey, JsonValue)>) -> Seq<(Seq<char>, JsonModel)>
    decreases ms,
    via model_members_decreases
{
    if ms.len() == 0 {
        Seq::empty()
    } else {
        seq![(ms[0].0.key@, ms[0].1.model())] + model_members(ms.drop_first())
    }
}

#[via_fn]
proof fn model_members_decreases(ms: Seq<(JsonObjectKey, JsonValue)>) {
    broadcast use
        vstd::seq::axiom_seq_index_decreases,
        vstd::seq::axiom_seq_subrange_decreases;

}

/// The model of a member list keeps its length and order.
pub proof fn lemma_model_members_all(ms: Seq<(JsonObjectKey, JsonValue)>)
    ensures
        model_members(ms).len() == ms.len(),
        forall|j: int|
            0 <= j < ms.len() ==> #[trigger] model_members(ms)[j] == (
                ms[j].0.key@,
                ms[j].1.model(),
            ),
    decreases ms.len(),
{
    if ms.len() > 0 {
        lemma_model_members_all(ms.drop_first());
    }
}

/// The model of an element list keeps its length and order.
pub proof fn lemma_model_elems_all(es: Seq<JsonValue>)
    ensures
        model_elems(es).len() == es.len(),
        forall|i: int| 0 <= i < es.len() ==> #[trigger] model_elems(es)[i] == es[i].model(),
    decreases es.len(),
{
    if es.len() > 0 {
        lemma_model_elems_all(es.drop_first());
    }
}

/// Inserting a pair: the first pair with the same key is overwritten in
/// place; a fresh key goes to the end.
pub open spec fn obj_insert(
    m: Seq<(Seq<char>, JsonModel)>,
    k: Seq<char>,
    v: JsonModel,
) -> Seq<(Seq<char>, JsonModel)>
    decreases m.len(),
{
    if m.len() == 0 {
        seq![(k, v)]
    } else if m[0].0 == k {
        seq![(k, v)] + m.drop_first()
    } else {
        seq![m[0]] + obj_insert(m.drop_first(), k, v)
    }
}

/// The pairs of `ps` inserted into `m` in order, a later duplicate key
/// silently overwriting an earlier entry.
pub open spec fn insert_all(
    m: Seq<(Seq<char>, JsonModel)>,
    ps: Seq<(Seq<char>, JsonModel)>,
) -> Seq<(Seq<char>, JsonModel)>
    decreases ps.len(),
{
    if ps.len() == 0 {
        m
    } else {
        insert_all(obj_insert(m, ps[0].0, ps[0].1), ps.drop_first())
    }
}

/// The value under a key, if the key is present.
pub open spec fn obj_lookup(m: Seq<(Seq<char>, JsonModel)>, k: Seq<char>) -> Option<JsonModel>
    decreases m.len(),
{
    if m.len() == 0 {
        Option::None
    } else if m[0].0 == k {
        Option::Some(m[0].1)
    } else {
        obj_lookup(m.drop_first(), k)
    }
}

impl JsonObjectKey {
    /// A key over the given characters.
    pub fn new(key: &str) -> (r: Self)
        ensures
            r.key@ == key@,
    {
        JsonObjectKey { key: crate::text::chars_of(key) }
    }
}

impl JsonValue {
    /// Key-based lookup into an object; `None` on a missing key or on a
    /// value of any other variant.
    pub fn object_get<'a>(&'a self, key: &JsonObjectKey) -> (r: Option<&'a JsonValue>)
        ensures
            self matches JsonValue::JsonObject(ms) ==> (match r {
                Option::Some(v) => obj_lookup(model_members(ms@), key.key@) == Option::Some(
                    v.model(),
                ),
                Option::None => obj_lookup(model_members(ms@), key.key@) is None,
            }),
            !(self matches JsonValue::JsonObject(_)) ==> r is None,
    {
        match self {
            JsonValue::JsonObject(ms) => {
                let ghost m = model_members(ms@);
                proof {
                    lemma_model_members_all(ms@);
                    assert(m.skip(0) =~= m);
                }
                let n: usize = ms.len();
                #[verifier::loop_isolation(false)]
                for j in 0..n
                    invariant
                        n == ms@.len(),
                        m == model_members(ms@),
                        m.len() == n,
                        forall|l: int|
                            0 <= l < n ==> #[trigger] m[l] == (ms@[l].0.key@, ms@[l].1.model()),
                        obj_lookup(m, key.key@) == obj_lookup(m.skip(j as int), key.key@),
                {
                    let p = &ms[j];
                    if crate::text::chars_eq(&p.0.key, &key.key) {
                        proof {
                            assert(m.skip(j as int)[0] == m[j as int]);
                            assert(obj_lookup(m.skip(j as int), key.key@) == Option::Some(
                                m[j as int].1,
                            ));
                            assert(m[j as int].1 == ms@[j as int].1.model());
                        }
                        return Option::Some(&p.1);
                    }
                    proof {
                        assert(m.skip(j as int)[0] == m[j as int]);
                        assert(m.skip(j as int).drop_first() =~= m.skip(j + 1 as int));
                    }
                }
                proof {
                    assert(m.skip(n as int) =~= Seq::<(Seq<char>, JsonModel)>::empty());
                    assert(obj_lookup(Seq::<(Seq<char>, JsonModel)>::empty(), key.key@) is None);
                }
                Option::None
            },
            _ => Option::None,
        }
    }
}

/// Puts a key/value pair into a member list as the parser does: the first
/// pair holding the same key is silently overwritten — the last write
/// wins — and a fresh key goes to the end.
pub fn insert_member(members: &mut Vec<(JsonObjectKey, JsonValue)>, key: JsonObjectKey, val: JsonValue)
    ensures
        model_members(final(members)@) == obj_insert(
            model_members(old(members)@),
            key.key@,
            val.model(),
        ),
{
    let n: usize = members.len();
    #[verifier::loop_isolation(false)]
    for j in 0..n
        invariant
            members@ == old(members)@,
            n == members@.len(),
            forall|l: int| 0 <= l < j ==> (#[trigger] members@[l]).0.key@ != key.key@,
    {
        let found = crate::text::chars_eq(&members[j].0.key, &key.key);
        if found {
            proof {
                lemma_model_members_all(members@);
                lemma_obj_insert_found(model_members(members@), key.key@, val.model(), j as int);
            }
            let ghost before = members@;
            members.set(j, (key, val));
            proof {
                lemma_model_members_all(before);
                lemma_model_members_all(members@);
                assert(model_members(members@) =~= model_members(before).update(
                    j as int,
                    (key.key@, val.model()),
                ));
            }
            return;
        }
    }
    proof {
        lemma_model_members_all(members@);
        lemma_obj_insert_absent(model_members(members@), key.key@, val.model());
    }
    let ghost before = members@;
    members.push((key, val));
    proof {
        lemma_model_members_all(before);
        lemma_model_members_all(members@);
        assert(model_members(members@) =~= model_members(before).push((key.key@, val.model())));
    }
}

/// Inserting a fresh key appends its pair.
pub proof fn lemma_obj_insert_absent(m: Seq<(Seq<char>, JsonModel)>, k: Seq<char>, v: JsonModel)
    requires
        forall|l: int| 0 <= l < m.len() ==> (#[trigger] m[l]).0 != k,
    ensures
        obj_insert(m, k, v) == m.push((k, v)),
    decreases m.len(),
{
    if m.len() == 0 {
        assert(obj_insert(m, k, v) =~= m.push((k, v)));
    } else {
        lemma_obj_insert_absent(m.drop_first(), k, v);
        assert(obj_insert(m, k, v) =~= m.push((k, v)));
    }
}

/// Inserting over the first pair that holds the key rewrites that pair.
pub proof fn lemma_obj_insert_found(
    m: Seq<(Seq<char>, JsonModel)>,
    k: Seq<char>,
    v: JsonModel,
    j: int,
)
    requires
        0 <= j < m.len(),
        m[j].0 == k,
        forall|l: int| 0 <= l < j ==> (#[trigger] m[l]).0 != k,
    ensures
        obj_insert(m, k, v) == m.update(j, (k, v)),
    decreases m.len(),
{
    if j == 0 {
        assert(obj_insert(m, k, v) =~= m.update(0, (k, v)));
    } else {
        assert(forall|l: int|
            0 <= l < j - 1 ==> (#[trigger] m.drop_first()[l]).0 == m[l + 1].0);
        lemma_obj_insert_found(m.drop_first(), k, v, j - 1);
        assert(obj_insert(m, k, v) =~= m.update(j, (k, v)));
    }
}

} // verus!
