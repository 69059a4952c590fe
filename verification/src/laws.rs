//! The library's laws: properties that hold of every input, stated once
//! and proved against the parsing specification.
use vstd::prelude::*;

use crate::parse::spec_parse;
use crate::parse::spec_parse_array;
use crate::parse::spec_parse_elems;
use crate::parse::spec_parse_members;
use crate::parse::spec_parse_object;
use crate::parse::ParseError;
use crate::scan::normalized;
use crate::scan::split_outer;
use crate::text::is_string_text;
use crate::text::without_quotes;
use crate::value::insert_all;
use crate::value::obj_insert;
use crate::value::obj_lookup;
use crate::value::JsonModel;

verus! {

/// Law: elements keep their source order.  A successfully parsed fragment
/// list yields exactly one model per fragment, the i-th fragment parsing
/// to the i-th model.
pub proof fn lemma_elements_in_source_order(frs: Seq<Seq<char>>, vs: Seq<JsonModel>)
    requires
        spec_parse_elems(frs) == Result::<Seq<JsonModel>, ParseError>::Ok(vs),
    ensures
        vs.len() == frs.len(),
        forall|i: int|
            0 <= i < frs.len() ==> spec_parse(frs[i]) == Result::<JsonModel, ParseError>::Ok(
                #[trigger] vs[i],
            ),
    decreases frs.len(),
{
    if frs.len() > 0 {
        match spec_parse(frs[0]) {
            Result::Ok(v) => {
                match spec_parse_elems(frs.drop_first()) {
                    Result::Ok(vs2) => {
                        lemma_elements_in_source_order(frs.drop_first(), vs2);
                        assert(vs == seq![v] + vs2);
                        assert(forall|i: int|
                            1 <= i < frs.len() ==> frs.drop_first()[i - 1] == #[trigger] frs[i]);
                        assert(forall|i: int| 1 <= i < vs.len() ==> vs2[i - 1] == #[trigger] vs[i]);
                    },
                    Result::Err(_) => {
                        assert(false);
                    },
                }
            },
            Result::Err(_) => {
                assert(false);
            },
        }
    }
}

/// Law: a well-formed array holds its elements in source order — the i-th
/// comma-separated fragment of the normalized interior parses to the i-th
/// element of the result.
pub proof fn lemma_array_elements_in_source_order(s: Seq<char>, vs: Seq<JsonModel>)
    requires
        spec_parse_array(s) == Result::<JsonModel, ParseError>::Ok(JsonModel::Array(vs)),
        normalized(s).len() > 2,
    ensures
        ({
            let frs = split_outer(normalized(s).subrange(1, normalized(s).len() - 1), ',');
            vs.len() == frs.len() && forall|i: int|
                0 <= i < frs.len() ==> spec_parse(frs[i]) == Result::<JsonModel, ParseError>::Ok(
                    #[trigger] vs[i],
                )
        }),
{
    let frs = split_outer(normalized(s).subrange(1, normalized(s).len() - 1), ',');
    lemma_elements_in_source_order(frs, vs);
}

/// Law: a fragment list every piece of which parses yields a model list
/// of the same length, the i-th model being the parse of the i-th piece.
pub proof fn lemma_elems_complete(frs: Seq<Seq<char>>)
    requires
        forall|i: int| 0 <= i < frs.len() ==> spec_parse(#[trigger] frs[i]) is Ok,
    ensures
        spec_parse_elems(frs) matches Result::Ok(vs) && vs.len() == frs.len() && forall|i: int|
            0 <= i < frs.len() ==> spec_parse(frs[i]) == Result::<JsonModel, ParseError>::Ok(
                #[trigger] vs[i],
            ),
    decreases frs.len(),
{
    if frs.len() > 0 {
        assert(spec_parse(frs[0]) is Ok);
        assert(forall|i: int|
            0 <= i < frs.drop_first().len() ==> #[trigger] frs.drop_first()[i] == frs[i + 1]);
        lemma_elems_complete(frs.drop_first());
        lemma_elements_in_source_order(frs, spec_parse_elems(frs)->Ok_0);
    }
}

/// Law: a fragment whose normalized form is bracketed by `[`..`]` and
/// every comma-separated piece of whose interior parses is a well-formed
/// array holding exactly those parses, in source order.
pub proof fn lemma_array_complete(s: Seq<char>)
    requires
        normalized(s).len() > 2,
        normalized(s).first() == '[',
        normalized(s).last() == ']',
        ({
            let frs = split_outer(normalized(s).subrange(1, normalized(s).len() - 1), ',');
            forall|i: int| 0 <= i < frs.len() ==> spec_parse(#[trigger] frs[i]) is Ok
        }),
    ensures
        ({
            let frs = split_outer(normalized(s).subrange(1, normalized(s).len() - 1), ',');
            spec_parse_array(s) matches Result::Ok(m) && m matches JsonModel::Array(vs)
                && vs.len() == frs.len() && forall|i: int|
                0 <= i < frs.len() ==> spec_parse(frs[i]) == Result::<JsonModel, ParseError>::Ok(
                    #[trigger] vs[i],
                )
        }),
{
    let frs = split_outer(normalized(s).subrange(1, normalized(s).len() - 1), ',');
    lemma_elems_complete(frs);
}

/// Law: members keep their source order.  A successfully parsed member
/// list yields exactly one key/value pair per member fragment: the key is
/// the colon-split key fragment with its quotes stripped, the value is
/// what the value fragment parses to.
pub proof fn lemma_members_in_source_order(ms: Seq<Seq<char>>, ps: Seq<(Seq<char>, JsonModel)>)
    requires
        spec_parse_members(ms) == Result::<Seq<(Seq<char>, JsonModel)>, ParseError>::Ok(ps),
    ensures
        ps.len() == ms.len(),
        forall|i: int|
            0 <= i < ms.len() ==> {
                let kv = split_outer(#[trigger] ms[i], ':');
                &&& kv.len() == 2
                &&& is_string_text(kv[0])
                &&& ps[i].0 == without_quotes(kv[0])
                &&& spec_parse(kv[1]) == Result::<JsonModel, ParseError>::Ok(ps[i].1)
            },
    decreases ms.len(),
{
    if ms.len() > 0 {
        let kv = split_outer(ms[0], ':');
        if kv.len() == 2 && is_string_text(kv[0]) {
            match spec_parse(kv[1]) {
                Result::Ok(v) => {
                    match spec_parse_members(ms.drop_first()) {
                        Result::Ok(ps2) => {
                            lemma_members_in_source_order(ms.drop_first(), ps2);
                            assert(ps == seq![(without_quotes(kv[0]), v)] + ps2);
                            assert(forall|i: int|
                                1 <= i < ms.len() ==> ms.drop_first()[i - 1] == #[trigger] ms[i]);
                            assert(forall|i: int|
                                1 <= i < ps.len() ==> ps2[i - 1] == #[trigger] ps[i]);
                        },
                        Result::Err(_) => {
                            assert(false);
                        },
                    }
                },
                Result::Err(_) => {
                    assert(false);
                },
            }
        } else {
            assert(false);
        }
    }
}

/// Inserting a pair changes the lookup of its own key to its value and of
/// no other key.
pub proof fn lemma_lookup_after_insert(
    m: Seq<(Seq<char>, JsonModel)>,
    k: Seq<char>,
    v: JsonModel,
    k2: Seq<char>,
)
    ensures
        obj_lookup(obj_insert(m, k, v), k2) == if k2 == k {
            Option::Some(v)
        } else {
            obj_lookup(m, k2)
        },
    decreases m.len(),
{
    if m.len() == 0 {
        assert(obj_insert(m, k, v)[0] == (k, v));
        assert(obj_insert(m, k, v).drop_first() =~= Seq::<(Seq<char>, JsonModel)>::empty());
        assert(obj_lookup(Seq::<(Seq<char>, JsonModel)>::empty(), k2) == Option::<
            JsonModel,
        >::None);
    } else if m[0].0 == k {
        assert(obj_insert(m, k, v)[0] == (k, v));
        assert(obj_insert(m, k, v).drop_first() =~= m.drop_first());
    } else {
        lemma_lookup_after_insert(m.drop_first(), k, v, k2);
        assert(obj_insert(m, k, v)[0] == m[0]);
        assert(obj_insert(m, k, v).drop_first() =~= obj_insert(m.drop_first(), k, v));
    }
}

/// Inserting pairs whose keys all differ from `k` leaves the lookup of
/// `k` unchanged.
pub proof fn lemma_insert_all_preserves(
    m: Seq<(Seq<char>, JsonModel)>,
    ps: Seq<(Seq<char>, JsonModel)>,
    k: Seq<char>,
)
    requires
        forall|j: int| 0 <= j < ps.len() ==> (#[trigger] ps[j]).0 != k,
    ensures
        obj_lookup(insert_all(m, ps), k) == obj_lookup(m, k),
    decreases ps.len(),
{
    if ps.len() > 0 {
        lemma_lookup_after_insert(m, ps[0].0, ps[0].1, k);
        assert(forall|j: int|
            0 <= j < ps.drop_first().len() ==> (#[trigger] ps.drop_first()[j]).0 == ps[j + 1].0);
        lemma_insert_all_preserves(obj_insert(m, ps[0].0, ps[0].1), ps.drop_first(), k);
    }
}

/// Law: every key written in the source of a well-formed object is
/// retrievable, and with duplicate keys the last write wins: a pair that
/// no later pair shadows is what the lookup of its key returns.
pub proof fn lemma_object_lookup_last_write(
    m0: Seq<(Seq<char>, JsonModel)>,
    ps: Seq<(Seq<char>, JsonModel)>,
    i: int,
)
    requires
        0 <= i < ps.len(),
        forall|j: int| i < j < ps.len() ==> (#[trigger] ps[j]).0 != ps[i].0,
    ensures
        obj_lookup(insert_all(m0, ps), ps[i].0) == Option::Some(ps[i].1),
    decreases ps.len(),
{
    assert(forall|j: int|
        0 <= j < ps.drop_first().len() ==> #[trigger] ps.drop_first()[j] == ps[j + 1]);
    if i == 0 {
        lemma_lookup_after_insert(m0, ps[0].0, ps[0].1, ps[0].0);
        lemma_insert_all_preserves(obj_insert(m0, ps[0].0, ps[0].1), ps.drop_first(), ps[0].0);
    } else {
        lemma_object_lookup_last_write(obj_insert(m0, ps[0].0, ps[0].1), ps.drop_first(), i - 1);
    }
}

/// Law: whitespace outside quoted spans is insignificant to composite
/// parsing — two fragments with the same normalized form parse to the
/// same array and to the same object.
pub proof fn lemma_whitespace_insensitive(s1: Seq<char>, s2: Seq<char>)
    requires
        normalized(s1) == normalized(s2),
    ensures
        spec_parse_array(s1) == spec_parse_array(s2),
        spec_parse_object(s1) == spec_parse_object(s2),
{
}

} // verus!
