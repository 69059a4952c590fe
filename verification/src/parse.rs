//! The recognizers, one per JSON type, and the dispatcher that tries them
//! in a fixed order: boolean, null, string, array, object, number.  The
//! first success wins; when every recognizer fails, the whole fragment is
//! unparseable.
//!
//! Composite recognizers normalize whitespace, strip the outer brackets,
//! split the interior on outer separators, and dispatch each fragment
//! recursively.  A failed element or member fails the whole composite with
//! that composite's own error; no partial tree ever escapes.
use vstd::prelude::*;

use crate::scan::lemma_normalized_len;
use crate::scan::lemma_split_outer_fragment_len;
use crate::scan::lemma_split_outer_nonempty;
use crate::scan::lemma_split_outer_sum;
use crate::scan::lemma_sum_len_bound;
use crate::scan::normalized;
use crate::scan::split_by_outer_separator;
use crate::scan::split_outer;
use crate::scan::sum_len;
use crate::scan::trim_whitespaces_except_quoted;
use crate::text::all_digits;
use crate::text::chars_of;
use crate::text::is_digit;
use crate::text::is_exponent;
use crate::text::is_mantissa;
use crate::text::is_number_text;
use crate::text::is_string_text;
use crate::text::lemma_mantissa_chars;
use crate::text::lit_false;
use crate::text::lit_null;
use crate::text::lit_true;
use crate::text::strip_sign;
use crate::text::without_quotes;
use crate::value::insert_all;
use crate::value::insert_member;
use crate::value::lemma_model_elems_all;
use crate::value::model_elems;
use crate::value::model_members;
use crate::value::obj_insert;
use crate::value::JsonModel;
use crate::value::JsonObjectKey;
use crate::value::JsonValue;

verus! {

/// The structured diagnostics of a failed parse: one kind per recognizer,
/// and an aggregate kind raised only when every recognizer has failed.
///
/// Causes are deliberately collapsed rather than chained: a failed element
/// or member surfaces as its composite's single diagnostic, and the entry
/// point reports the aggregate kind once every recognizer has declined.
#[derive(Clone, Copy, Debug, PartialEq, Eq, Structural)]
pub enum ParseError {
    InvalidBoolean,
    InvalidNull,
    InvalidString,
    InvalidObject,
    InvalidArray,
    InvalidNumber,
    Unparseable,
}

/// Whether an executable outcome carries exactly the model the
/// specification demands: the same tree on success, the same diagnostic on
/// failure.
pub open spec fn res_models(
    r: Result<JsonValue, ParseError>,
    m: Result<JsonModel, ParseError>,
) -> bool {
    match (r, m) {
        (Result::Ok(v), Result::Ok(vm)) => v.model() == vm,
        (Result::Err(e), Result::Err(em)) => e == em,
        _ => false,
    }
}

/// What any fragment parses to: the recognizers in their fixed order, the
/// first success winning, the aggregate error closing the line.
pub open spec fn spec_parse(s: Seq<char>) -> Result<JsonModel, ParseError>
    decreases s.len(), 3int,
{
    if s == lit_true() {
        Result::Ok(JsonModel::Boolean(true))
    } else if s == lit_false() {
        Result::Ok(JsonModel::Boolean(false))
    } else if s == lit_null() {
        Result::Ok(JsonModel::Null)
    } else if is_string_text(s) {
        Result::Ok(JsonModel::Text(without_quotes(s)))
    } else {
        let a = spec_parse_array(s);
        if a is Ok {
            a
        } else {
            let o = spec_parse_object(s);
            if o is Ok {
                o
            } else if is_number_text(s) {
                Result::Ok(JsonModel::Number(s))
            } else {
                Result::Err(ParseError::Unparseable)
            }
        }
    }
}

/// What a fragment parses to as an array: normalized, bracketed by
/// `[`..`]`, its interior split on outer commas, every element parsing.
pub open spec fn spec_parse_array(s: Seq<char>) -> Result<JsonModel, ParseError>
    decreases s.len(), 2int,
    via spec_parse_array_decreases
{
    let t = normalized(s);
    if !(t.len() >= 2 && t.first() == '[' && t.last() == ']') {
        Result::Err(ParseError::InvalidArray)
    } else if t.len() == 2 {
        Result::Ok(JsonModel::Array(Seq::empty()))
    } else {
        match spec_parse_elems(split_outer(t.subrange(1, t.len() - 1), ',')) {
            Result::Ok(vs) => Result::Ok(JsonModel::Array(vs)),
            Result::Err(_) => Result::Err(ParseError::InvalidArray),
        }
    }
}

#[via_fn]
proof fn spec_parse_array_decreases(s: Seq<char>) {
    let t = normalized(s);
    if t.len() > 2 && t.first() == '[' && t.last() == ']' {
        lemma_normalized_len(s);
        lemma_split_outer_sum(t.subrange(1, t.len() - 1), ',');
    }
}

/// What a sequence of fragments parses to, element by element; the first
/// failure is the whole list's failure.
pub open spec fn spec_parse_elems(frs: Seq<Seq<char>>) -> Result<Seq<JsonModel>, ParseError>
    decreases sum_len(frs) + frs.len(), 0int,
    via spec_parse_elems_decreases
{
    if frs.len() == 0 {
        Result::Ok(Seq::empty())
    } else {
        match spec_parse(frs[0]) {
            Result::Ok(v) => match spec_parse_elems(frs.drop_first()) {
                Result::Ok(vs) => Result::Ok(seq![v] + vs),
                Result::Err(e) => Result::Err(e),
            },
            Result::Err(e) => Result::Err(e),
        }
    }
}

#[via_fn]
proof fn spec_parse_elems_decreases(frs: Seq<Seq<char>>) {
    if frs.len() > 0 {
        lemma_sum_len_bound(frs, 0);
        assert(sum_len(frs) == frs[0].len() + sum_len(frs.drop_first()));
    }
}

/// What a fragment parses to as an object: normalized, braced by
/// `{`..`}`, its interior split on outer commas into members, each member
/// split on an outer colon into a string key and a value.
pub open spec fn spec_parse_object(s: Seq<char>) -> Result<JsonModel, ParseError>
    decreases s.len(), 1int,
    via spec_parse_object_decreases
{
    let t = normalized(s);
    if !(t.len() >= 2 && t.first() == '{' && t.last() == '}') {
        Result::Err(ParseError::InvalidObject)
    } else if t.len() == 2 {
        Result::Ok(JsonModel::Object(Seq::empty()))
    } else {
        match spec_parse_members(split_outer(t.subrange(1, t.len() - 1), ',')) {
            Result::Ok(ps) => Result::Ok(JsonModel::Object(insert_all(Seq::empty(), ps))),
            Result::Err(_) => Result::Err(ParseError::InvalidObject),
        }
    }
}

#[via_fn]
proof fn spec_parse_object_decreases(s: Seq<char>) {
    let t = normalized(s);
    if t.len() > 2 && t.first() == '{' && t.last() == '}' {
        lemma_normalized_len(s);
        lemma_split_outer_sum(t.subrange(1, t.len() - 1), ',');
    }
}

/// What the member fragments of an object parse to, in source order, as
/// raw key/value pairs; duplicates are still present here and are resolved
/// by insertion.  A member must split on an outer colon into exactly a
/// string-shaped key and a parsable value.
pub open spec fn spec_parse_members(ms: Seq<Seq<char>>) -> Result<
    Seq<(Seq<char>, JsonModel)>,
    ParseError,
>
    decreases sum_len(ms) + ms.len(), 0int,
    via spec_parse_members_decreases
{
    if ms.len() == 0 {
        Result::Ok(Seq::empty())
    } else {
        let kv = split_outer(ms[0], ':');
        if kv.len() != 2 {
            Result::Err(ParseError::InvalidObject)
        } else if !is_string_text(kv[0]) {
            Result::Err(ParseError::InvalidObject)
        } else {
            match spec_parse(kv[1]) {
                Result::Ok(v) => match spec_parse_members(ms.drop_first()) {
                    Result::Ok(ps) => Result::Ok(seq![(without_quotes(kv[0]), v)] + ps),
                    Result::Err(e) => Result::Err(e),
                },
                Result::Err(e) => Result::Err(e),
            }
        }
    }
}

#[via_fn]
proof fn spec_parse_members_decreases(ms: Seq<Seq<char>>) {
    if ms.len() > 0 {
        lemma_sum_len_bound(ms, 0);
        assert(sum_len(ms) == ms[0].len() + sum_len(ms.drop_first()));
        let kv = split_outer(ms[0], ':');
        if kv.len() == 2 {
            lemma_split_outer_sum(ms[0], ':');
            lemma_sum_len_bound(kv, 1);
        }
    }
}

/// Parsing one more element extends a successful list by one model and
/// turns a failing element into the list's failure.
pub proof fn lemma_elems_push(a: Seq<Seq<char>>, f: Seq<char>)
    ensures
        (match (spec_parse_elems(a), spec_parse(f)) {
            (Result::Ok(vs), Result::Ok(v)) => spec_parse_elems(a.push(f)) == Result::<
                Seq<JsonModel>,
                ParseError,
            >::Ok(vs.push(v)),
            (Result::Ok(_), Result::Err(e)) => spec_parse_elems(a.push(f)) == Result::<
                Seq<JsonModel>,
                ParseError,
            >::Err(e),
            (Result::Err(_), _) => spec_parse_elems(a.push(f)) == spec_parse_elems(a),
        }),
    decreases a.len(),
{
    if a.len() == 0 {
        assert(a.push(f)[0] == f);
        assert(a.push(f).drop_first() =~= Seq::<Seq<char>>::empty());
        match spec_parse(f) {
            Result::Ok(v) => {
                assert(seq![v] + Seq::<JsonModel>::empty() =~= Seq::<JsonModel>::empty().push(v));
            },
            Result::Err(_) => {},
        }
    } else {
        assert(a.push(f)[0] == a[0]);
        assert(a.push(f).drop_first() =~= a.drop_first().push(f));
        lemma_elems_push(a.drop_first(), f);
        match (spec_parse(a[0]), spec_parse_elems(a.drop_first()), spec_parse(f)) {
            (Result::Ok(v0), Result::Ok(vs), Result::Ok(v)) => {
                assert(seq![v0] + vs.push(v) =~= (seq![v0] + vs).push(v));
            },
            _ => {},
        }
    }
}

/// A failed prefix of the element list decides the whole list.
pub proof fn lemma_elems_err_extend(fv: Seq<Seq<char>>, i: int)
    requires
        0 <= i <= fv.len(),
        spec_parse_elems(fv.take(i)) is Err,
    ensures
        spec_parse_elems(fv) == spec_parse_elems(fv.take(i)),
    decreases fv.len() - i,
{
    if i == fv.len() {
        assert(fv.take(i) =~= fv);
    } else {
        assert(fv.take(i + 1) =~= fv.take(i).push(fv[i]));
        lemma_elems_push(fv.take(i), fv[i]);
        lemma_elems_err_extend(fv, i + 1);
    }
}

/// Parsing one more member extends a successful pair list by one pair and
/// turns a failing member into the object's failure.
#[verifier::rlimit(60)]
pub proof fn lemma_members_push(a: Seq<Seq<char>>, f: Seq<char>)
    ensures
        (match spec_parse_members(a) {
            Result::Ok(ps) => {
                let kv = split_outer(f, ':');
                if kv.len() != 2 || !is_string_text(kv[0]) {
                    spec_parse_members(a.push(f)) == Result::<
                        Seq<(Seq<char>, JsonModel)>,
                        ParseError,
                    >::Err(ParseError::InvalidObject)
                } else {
                    match spec_parse(kv[1]) {
                        Result::Ok(v) => spec_parse_members(a.push(f)) == Result::<
                            Seq<(Seq<char>, JsonModel)>,
                            ParseError,
                        >::Ok(ps.push((without_quotes(kv[0]), v))),
                        Result::Err(e) => spec_parse_members(a.push(f)) == Result::<
                            Seq<(Seq<char>, JsonModel)>,
                            ParseError,
                        >::Err(e),
                    }
                }
            },
            Result::Err(_) => spec_parse_members(a.push(f)) == spec_parse_members(a),
        }),
    decreases a.len(),
{
    if a.len() == 0 {
        assert(a.push(f)[0] == f);
        assert(a.push(f).drop_first() =~= Seq::<Seq<char>>::empty());
        assert(spec_parse_members(a) == Result::<Seq<(Seq<char>, JsonModel)>, ParseError>::Ok(
            Seq::empty(),
        ));
        assert(spec_parse_members(Seq::<Seq<char>>::empty()) == Result::<
            Seq<(Seq<char>, JsonModel)>,
            ParseError,
        >::Ok(Seq::empty()));
        let kv = split_outer(f, ':');
        if kv.len() == 2 && is_string_text(kv[0]) {
            match spec_parse(kv[1]) {
                Result::Ok(v) => {
                    assert(seq![(without_quotes(kv[0]), v)] + Seq::<
                        (Seq<char>, JsonModel),
                    >::empty() =~= Seq::<(Seq<char>, JsonModel)>::empty().push(
                        (without_quotes(kv[0]), v),
                    ));
                },
                Result::Err(_) => {},
            }
        }
    } else {
        assert(a.push(f)[0] == a[0]);
        assert(a.push(f).drop_first() =~= a.drop_first().push(f));
        lemma_members_push(a.drop_first(), f);
        let kv0 = split_outer(a[0], ':');
        if kv0.len() == 2 && is_string_text(kv0[0]) {
            match (spec_parse(kv0[1]), spec_parse_members(a.drop_first())) {
                (Result::Ok(v0), Result::Ok(ps)) => {
                    let kv = split_outer(f, ':');
                    if kv.len() == 2 && is_string_text(kv[0]) {
                        match spec_parse(kv[1]) {
                            Result::Ok(v) => {
                                let p0 = (without_quotes(kv0[0]), v0);
                                let p = (without_quotes(kv[0]), v);
                                assert(seq![p0] + ps.push(p) =~= (seq![p0] + ps).push(p));
                            },
                            Result::Err(_) => {},
                        }
                    }
                },
                _ => {},
            }
        }
    }
}

/// A failed prefix of the member list decides the whole list.
pub proof fn lemma_members_err_extend(mv: Seq<Seq<char>>, i: int)
    requires
        0 <= i <= mv.len(),
        spec_parse_members(mv.take(i)) is Err,
    ensures
        spec_parse_members(mv) == spec_parse_members(mv.take(i)),
    decreases mv.len() - i,
{
    if i == mv.len() {
        assert(mv.take(i) =~= mv);
    } else {
        assert(mv.take(i + 1) =~= mv.take(i).push(mv[i]));
        lemma_members_push(mv.take(i), mv[i]);
        lemma_members_err_extend(mv, i + 1);
    }
}

/// Inserting the pairs one further pair deep is one further insertion.
pub proof fn lemma_insert_all_push(
    m: Seq<(Seq<char>, JsonModel)>,
    ps: Seq<(Seq<char>, JsonModel)>,
    p: (Seq<char>, JsonModel),
)
    ensures
        insert_all(m, ps.push(p)) == obj_insert(insert_all(m, ps), p.0, p.1),
    decreases ps.len(),
{
    if ps.len() == 0 {
        assert(ps.push(p)[0] == p);
        assert(ps.push(p).drop_first() =~= Seq::<(Seq<char>, JsonModel)>::empty());
        assert(insert_all(obj_insert(m, p.0, p.1), Seq::<(Seq<char>, JsonModel)>::empty())
            == obj_insert(m, p.0, p.1));
    } else {
        assert(ps.push(p)[0] == ps[0]);
        assert(ps.push(p).drop_first() =~= ps.drop_first().push(p));
        lemma_insert_all_push(obj_insert(m, ps[0].0, ps[0].1), ps.drop_first(), p);
    }
}

/// An owned copy of `v[from..to]`.
fn subvec(v: &Vec<char>, from: usize, to: usize) -> (r: Vec<char>)
    requires
        from <= to <= v.len(),
    ensures
        r@ == v@.subrange(from as int, to as int),
{
    let mut out: Vec<char> = Vec::new();
    for i in from..to
        invariant
            from <= i <= to <= v@.len(),
            out@ == v@.subrange(from as int, i as int),
    {
        proof {
            assert(v@.subrange(from as int, i + 1 as int).drop_last() =~= v@.subrange(
                from as int,
                i as int,
            ));
        }
        out.push(v[i]);
    }
    out
}

/// Recognizes exactly the literal `null`.
pub fn parse_null(input: &Vec<char>) -> (r: Result<JsonValue, ParseError>)
    ensures
        input@ == lit_null() ==> r == Result::<JsonValue, ParseError>::Ok(JsonValue::JsonNull),
        input@ != lit_null() ==> r == Result::<JsonValue, ParseError>::Err(
            ParseError::InvalidNull,
        ),
{
    if input.len() == 4 && input[0] == 'n' && input[1] == 'u' && input[2] == 'l' && input[3]
        == 'l' {
        proof {
            assert(input@ =~= lit_null());
        }
        Result::Ok(JsonValue::JsonNull)
    } else {
        proof {
            assert(lit_null().len() == 4 && lit_null()[0] == 'n' && lit_null()[1] == 'u'
                && lit_null()[2] == 'l' && lit_null()[3] == 'l');
        }
        Result::Err(ParseError::InvalidNull)
    }
}

/// Recognizes exactly the literals `true` and `false`.
pub fn parse_bool(input: &Vec<char>) -> (r: Result<JsonValue, ParseError>)
    ensures
        input@ == lit_true() ==> r == Result::<JsonValue, ParseError>::Ok(
            JsonValue::JsonBoolValue(true),
        ),
        input@ == lit_false() ==> r == Result::<JsonValue, ParseError>::Ok(
            JsonValue::JsonBoolValue(false),
        ),
        input@ != lit_true() && input@ != lit_false() ==> r == Result::<
            JsonValue,
            ParseError,
        >::Err(ParseError::InvalidBoolean),
{
    if input.len() == 4 && input[0] == 't' && input[1] == 'r' && input[2] == 'u' && input[3]
        == 'e' {
        proof {
            assert(input@ =~= lit_true());
            assert(lit_false().len() == 5);
        }
        Result::Ok(JsonValue::JsonBoolValue(true))
    } else if input.len() == 5 && input[0] == 'f' && input[1] == 'a' && input[2] == 'l'
        && input[3] == 's' && input[4] == 'e' {
        proof {
            assert(input@ =~= lit_false());
            assert(lit_true().len() == 4);
        }
        Result::Ok(JsonValue::JsonBoolValue(false))
    } else {
        proof {
            assert(lit_true().len() == 4 && lit_true()[0] == 't' && lit_true()[1] == 'r'
                && lit_true()[2] == 'u' && lit_true()[3] == 'e');
            assert(lit_false().len() == 5 && lit_false()[0] == 'f' && lit_false()[1] == 'a'
                && lit_false()[2] == 'l' && lit_false()[3] == 's' && lit_false()[4] == 'e');
        }
        Result::Err(ParseError::InvalidBoolean)
    }
}

/// Recognizes a quote-delimited string fragment and strips every quote
/// character from it — the delimiters and any interior quote alike.
pub fn parse_string(input: &Vec<char>) -> (r: Result<JsonValue, ParseError>)
    ensures
        is_string_text(input@) ==> (r matches Result::Ok(v) && v matches JsonValue::JsonString(t)
            && t@ == without_quotes(input@)),
        !is_string_text(input@) ==> r == Result::<JsonValue, ParseError>::Err(
            ParseError::InvalidString,
        ),
{
    let n: usize = input.len();
    if n < 2 {
        return Result::Err(ParseError::InvalidString);
    }
    if input[0] != '"' || input[n - 1] != '"' {
        return Result::Err(ParseError::InvalidString);
    }
    let mut out: Vec<char> = Vec::new();
    for i in 0..n
        invariant
            n == input@.len(),
            out@ == without_quotes(input@.take(i as int)),
    {
        proof {
            assert(input@.take(i + 1 as int).drop_last() =~= input@.take(i as int));
        }
        let c = input[i];
        if c != '"' {
            out.push(c);
        }
    }
    proof {
        assert(input@.take(n as int) =~= input@);
    }
    Result::Ok(JsonValue::JsonString(out))
}

/// Whether the character is a decimal digit, decided at run time.
fn digit_exec(c: char) -> (b: bool)
    ensures
        b == is_digit(c),
{
    '0' <= c && c <= '9'
}

/// The first index at or after `from` (up to `to`) holding a non-digit.
fn scan_digits(v: &Vec<char>, from: usize, to: usize) -> (k: usize)
    requires
        from <= to <= v.len(),
    ensures
        from <= k <= to,
        forall|j: int| from <= j < k ==> is_digit(#[trigger] v@[j]),
        k < to ==> !is_digit(v@[k as int]),
{
    let mut k: usize = from;
    while k < to
        invariant
            from <= k <= to <= v@.len(),
            forall|j: int| from <= j < k ==> is_digit(#[trigger] v@[j]),
        decreases to - k,
    {
        if !digit_exec(v[k]) {
            return k;
        }
        k += 1;
    }
    k
}

/// True when every character of `v[from..to]` is a decimal digit.
fn check_digits(v: &Vec<char>, from: usize, to: usize) -> (b: bool)
    requires
        from <= to <= v.len(),
    ensures
        b == all_digits(v@.subrange(from as int, to as int)),
{
    let ghost s = v@.subrange(from as int, to as int);
    let k = scan_digits(v, from, to);
    proof {
        assert(forall|j: int| 0 <= j < s.len() ==> s[j] == v@[j + from]);
    }
    if k == to {
        proof {
            assert(all_digits(s));
        }
        true
    } else {
        proof {
            assert(!is_digit(s[k - from]));
        }
        false
    }
}

/// The first index holding `e` or `E`, or the length when there is none.
fn scan_to_exp(v: &Vec<char>) -> (j: usize)
    ensures
        j <= v@.len(),
        forall|l: int| 0 <= l < j ==> (#[trigger] v@[l]) != 'e' && v@[l] != 'E',
        j < v@.len() ==> (v@[j as int] == 'e' || v@[j as int] == 'E'),
{
    let n: usize = v.len();
    let mut j: usize = 0;
    while j < n
        invariant
            j <= n == v@.len(),
            forall|l: int| 0 <= l < j ==> (#[trigger] v@[l]) != 'e' && v@[l] != 'E',
        decreases n - j,
    {
        let c = v[j];
        if c == 'e' || c == 'E' {
            return j;
        }
        j += 1;
    }
    j
}

/// Whether `v[..to]` is a well-formed mantissa.
fn check_mantissa(v: &Vec<char>, to: usize) -> (b: bool)
    requires
        to <= v.len(),
    ensures
        b == is_mantissa(v@.take(to as int)),
{
    let ghost s = v@.take(to as int);
    proof {
        assert(forall|j: int| 0 <= j < s.len() ==> s[j] == v@[j]);
    }
    let k = scan_digits(v, 0, to);
    if k == to {
        proof {
            if to >= 1 {
                assert(all_digits(s));
            } else {
                assert(s.len() == 0);
                assert(!is_mantissa(s));
            }
        }
        return to >= 1;
    }
    let c = v[k];
    if c == '.' {
        let db = check_digits(v, k + 1, to);
        let ok = db && to >= 2;
        proof {
            assert(v@.subrange(k + 1 as int, to as int) =~= s.skip(k + 1));
            if ok {
                assert(forall|j: int| 0 <= j < k ==> s.take(k as int)[j] == s[j]);
                assert(all_digits(s.take(k as int)));
                assert(s[k as int] == '.');
                assert(is_mantissa(s));
            } else {
                assert(!is_digit('.'));
                assert(!all_digits(s)) by {
                    assert(s[k as int] == '.');
                }
                if to >= 2 {
                    assert forall|i: int| 0 <= i < s.len() implies !(s[i] == '.' && all_digits(
                        s.take(i),
                    ) && all_digits(s.skip(i + 1))) by {
                        if i < k {
                            assert(is_digit(s[i]));
                        } else if i == k {
                            assert(!all_digits(s.skip(k + 1)));
                        } else {
                            assert(s.take(i)[k as int] == s[k as int]);
                            assert(!all_digits(s.take(i)));
                        }
                    }
                }
                assert(!is_mantissa(s));
            }
        }
        return ok;
    }
    proof {
        assert(!is_digit(s[k as int]));
        assert(!all_digits(s));
        assert forall|i: int| 0 <= i < s.len() implies !(s[i] == '.' && all_digits(s.take(i))
            && all_digits(s.skip(i + 1))) by {
            if i < k {
                assert(is_digit(s[i]));
            } else if i == k {
                assert(s[k as int] != '.');
            } else {
                assert(s.take(i)[k as int] == s[k as int]);
                assert(!all_digits(s.take(i)));
            }
        }
        assert(!is_mantissa(s));
    }
    false
}

/// Whether `v[from..]` is a well-formed exponent part.
fn check_exponent(v: &Vec<char>, from: usize) -> (b: bool)
    requires
        from <= v.len(),
    ensures
        b == is_exponent(v@.skip(from as int)),
{
    let ghost s = v@.skip(from as int);
    proof {
        assert(forall|j: int| 0 <= j < s.len() ==> s[j] == v@[j + from]);
    }
    let n: usize = v.len();
    if n - from < 2 {
        return false;
    }
    let c0 = v[from];
    if !(c0 == 'e' || c0 == 'E') {
        return false;
    }
    let c1 = v[from + 1];
    let ds: usize = if c1 == '+' || c1 == '-' {
        from + 2
    } else {
        from + 1
    };
    let db = check_digits(v, ds, n);
    proof {
        let d = if s[1] == '+' || s[1] == '-' {
            s.skip(2)
        } else {
            s.skip(1)
        };
        assert(d =~= v@.subrange(ds as int, n as int));
    }
    db && ds < n
}

/// Whether the whole fragment is in standard decimal/exponent syntax.
fn check_number(input: &Vec<char>) -> (b: bool)
    ensures
        b == is_number_text(input@),
{
    let n: usize = input.len();
    let si: usize = if n >= 1 && (input[0] == '+' || input[0] == '-') {
        1
    } else {
        0
    };
    let t = subvec(input, si, n);
    proof {
        assert(t@ =~= strip_sign(input@));
    }
    let tn: usize = t.len();
    let j = scan_to_exp(&t);
    if j == tn {
        let m = check_mantissa(&t, tn);
        proof {
            assert(t@.take(tn as int) =~= t@);
            if !m {
                assert forall|i: int| 0 <= i < t@.len() implies !((t@[i] == 'e' || t@[i] == 'E')
                    && is_mantissa(t@.take(i)) && is_exponent(t@.skip(i))) by {
                    assert(t@[i] != 'e' && t@[i] != 'E');
                }
            }
        }
        return m;
    }
    let m = check_mantissa(&t, j);
    let e = check_exponent(&t, j);
    proof {
        if m && e {
            assert((t@[j as int] == 'e' || t@[j as int] == 'E') && is_mantissa(t@.take(j as int))
                && is_exponent(t@.skip(j as int)));
            assert(is_number_text(input@));
        } else {
            assert(!is_mantissa(t@)) by {
                if is_mantissa(t@) {
                    lemma_mantissa_chars(t@, j as int);
                }
            }
            assert forall|i: int| 0 <= i < t@.len() implies !((t@[i] == 'e' || t@[i] == 'E')
                && is_mantissa(t@.take(i)) && is_exponent(t@.skip(i))) by {
                if i < j {
                    assert(t@[i] != 'e' && t@[i] != 'E');
                } else if i == j {
                    assert(!(is_mantissa(t@.take(j as int)) && is_exponent(t@.skip(j as int))));
                } else {
                    if is_mantissa(t@.take(i)) {
                        assert(t@.take(i)[j as int] == t@[j as int]);
                        lemma_mantissa_chars(t@.take(i), j as int);
                        assert(false);
                    }
                }
            }
            assert(!is_number_text(input@));
        }
    }
    m && e
}

/// Recognizes a fragment in standard decimal/exponent numeric syntax and
/// keeps its text; all numbers are read later as double-precision values,
/// so very large integers may lose exactness there — an accepted limit.
pub fn parse_number(input: &Vec<char>) -> (r: Result<JsonValue, ParseError>)
    ensures
        is_number_text(input@) ==> (r matches Result::Ok(v) && v matches JsonValue::JsonNumber(t)
            && t@ == input@),
        !is_number_text(input@) ==> r == Result::<JsonValue, ParseError>::Err(
            ParseError::InvalidNumber,
        ),
{
    if check_number(input) {
        let t = subvec(input, 0, input.len());
        proof {
            assert(t@ =~= input@);
        }
        Result::Ok(JsonValue::JsonNumber(t))
    } else {
        Result::Err(ParseError::InvalidNumber)
    }
}

/// Recognizes an array: the normalized fragment must be bracketed by
/// `[`..`]`; its interior is split on outer commas and every element is
/// dispatched recursively.  A failed element fails the whole array with a
/// single generic diagnostic.
pub fn parse_array(input: &Vec<char>) -> (r: Result<JsonValue, ParseError>)
    ensures
        res_models(r, spec_parse_array(input@)),
    decreases input@.len(), 2int,
{
    let t = trim_whitespaces_except_quoted(input);
    let tn: usize = t.len();
    if tn < 2 || t[0] != '[' || t[tn - 1] != ']' {
        return Result::Err(ParseError::InvalidArray);
    }
    if tn == 2 {
        let no_elems: Vec<JsonValue> = Vec::new();
        proof {
            assert(model_elems(no_elems@) =~= Seq::<JsonModel>::empty());
        }
        return Result::Ok(JsonValue::JsonArray(no_elems));
    }
    let interior = subvec(&t, 1, tn - 1);
    let frs = split_by_outer_separator(&interior, ',');
    let ghost fv = split_outer(interior@, ',');
    let m: usize = frs.len();
    proof {
        lemma_normalized_len(input@);
        lemma_split_outer_nonempty(interior@, ',');
        assert(fv.take(0) =~= Seq::<Seq<char>>::empty());
    }
    let mut values: Vec<JsonValue> = Vec::new();
    #[verifier::loop_isolation(false)]
    for i in 0..m
        invariant
            m == fv.len(),
            frs.deep_view() == fv,
            spec_parse_elems(fv.take(i as int)) == Result::<Seq<JsonModel>, ParseError>::Ok(
                model_elems(values@),
            ),
    {
        proof {
            lemma_split_outer_fragment_len(interior@, ',', i as int);
            assert(frs@[i as int]@ == fv[i as int]);
            assert(fv[i as int].len() < input@.len());
            assert(fv.take(i + 1 as int) =~= fv.take(i as int).push(fv[i as int]));
            lemma_elems_push(fv.take(i as int), fv[i as int]);
        }
        match parser(&frs[i]) {
            Result::Ok(v) => {
                proof {
                    lemma_model_elems_all(values@);
                    lemma_model_elems_all(values@.push(v));
                    assert(model_elems(values@.push(v)) =~= model_elems(values@).push(v.model()));
                }
                values.push(v);
            },
            Result::Err(_) => {
                proof {
                    lemma_elems_err_extend(fv, i + 1 as int);
                }
                return Result::Err(ParseError::InvalidArray);
            },
        }
    }
    proof {
        assert(fv.take(m as int) =~= fv);
    }
    Result::Ok(JsonValue::JsonArray(values))
}

/// Recognizes an object: the normalized fragment must be braced by
/// `{`..`}`; its interior is split on outer commas into members, each
/// member on an outer colon into exactly a quoted key and a value.  Pairs
/// are inserted in source order, a later duplicate key overwriting the
/// earlier entry; any failure fails the whole object with a single
/// generic diagnostic.
pub fn parse_object(input: &Vec<char>) -> (r: Result<JsonValue, ParseError>)
    ensures
        res_models(r, spec_parse_object(input@)),
    decreases input@.len(), 1int,
{
    let t = trim_whitespaces_except_quoted(input);
    let tn: usize = t.len();
    if tn < 2 || t[0] != '{' || t[tn - 1] != '}' {
        return Result::Err(ParseError::InvalidObject);
    }
    if tn == 2 {
        let no_members: Vec<(JsonObjectKey, JsonValue)> = Vec::new();
        proof {
            assert(model_members(no_members@) =~= Seq::<(Seq<char>, JsonModel)>::empty());
        }
        return Result::Ok(JsonValue::JsonObject(no_members));
    }
    let interior = subvec(&t, 1, tn - 1);
    let mfrs = split_by_outer_separator(&interior, ',');
    let ghost mv = split_outer(interior@, ',');
    let m: usize = mfrs.len();
    proof {
        lemma_normalized_len(input@);
        lemma_split_outer_nonempty(interior@, ',');
        assert(mv.take(0) =~= Seq::<Seq<char>>::empty());
    }
    let mut pairs: Vec<(JsonObjectKey, JsonValue)> = Vec::new();
    #[verifier::loop_isolation(false)]
    for i in 0..m
        invariant
            m == mv.len(),
            mfrs.deep_view() == mv,
            spec_parse_members(mv.take(i as int)) matches Result::Ok(ps) && model_members(pairs@)
                == insert_all(Seq::empty(), ps),
    {
        proof {
            lemma_split_outer_fragment_len(interior@, ',', i as int);
            assert(mfrs@[i as int]@ == mv[i as int]);
            assert(mv.take(i + 1 as int) =~= mv.take(i as int).push(mv[i as int]));
            lemma_members_push(mv.take(i as int), mv[i as int]);
        }
        let kv = split_by_outer_separator(&mfrs[i], ':');
        let ghost kvv = split_outer(mv[i as int], ':');
        proof {
            assert(kv.deep_view() == kvv);
        }
        if kv.len() != 2 {
            proof {
                lemma_members_err_extend(mv, i + 1 as int);
            }
            return Result::Err(ParseError::InvalidObject);
        }
        proof {
            assert(kv@[0]@ == kvv[0]);
            assert(kv@[1]@ == kvv[1]);
            lemma_split_outer_fragment_len(mv[i as int], ':', 1);
            assert(kvv[1].len() < input@.len());
        }
        let ktext: Vec<char> = match parse_string(&kv[0]) {
            Result::Ok(JsonValue::JsonString(tt)) => tt,
            Result::Ok(_) => {
                proof {
                    assert(false);
                }
                Vec::new()
            },
            Result::Err(_) => {
                proof {
                    lemma_members_err_extend(mv, i + 1 as int);
                }
                return Result::Err(ParseError::InvalidObject);
            },
        };
        match parser(&kv[1]) {
            Result::Ok(v) => {
                let ghost ps = spec_parse_members(mv.take(i as int))->Ok_0;
                let ghost pair = (without_quotes(kvv[0]), v.model());
                proof {
                    lemma_insert_all_push(Seq::empty(), ps, pair);
                }
                insert_member(&mut pairs, JsonObjectKey { key: ktext }, v);
            },
            Result::Err(_) => {
                proof {
                    lemma_members_err_extend(mv, i + 1 as int);
                }
                return Result::Err(ParseError::InvalidObject);
            },
        }
    }
    proof {
        assert(mv.take(m as int) =~= mv);
    }
    Result::Ok(JsonValue::JsonObject(pairs))
}

/// The dispatcher: tries the recognizers in the fixed order boolean,
/// null, string, array, object, number, and returns the first success.
/// Only when every recognizer has failed does the aggregate diagnostic
/// reach the caller.
pub fn parser(input: &Vec<char>) -> (r: Result<JsonValue, ParseError>)
    ensures
        res_models(r, spec_parse(input@)),
    decreases input@.len(), 3int,
{
    match parse_bool(input) {
        Result::Ok(v) => {
            return Result::Ok(v);
        },
        Result::Err(_) => {},
    }
    match parse_null(input) {
        Result::Ok(v) => {
            return Result::Ok(v);
        },
        Result::Err(_) => {},
    }
    match parse_string(input) {
        Result::Ok(v) => {
            return Result::Ok(v);
        },
        Result::Err(_) => {},
    }
    match parse_array(input) {
        Result::Ok(v) => {
            return Result::Ok(v);
        },
        Result::Err(_) => {},
    }
    match parse_object(input) {
        Result::Ok(v) => {
            return Result::Ok(v);
        },
        Result::Err(_) => {},
    }
    match parse_number(input) {
        Result::Ok(v) => {
            return Result::Ok(v);
        },
        Result::Err(_) => {},
    }
    Result::Err(ParseError::Unparseable)
}

/// The sole entry point: parses a complete textual document into a value
/// tree, or reports why no recognizer accepted it.
pub fn parse(input: &str) -> (r: Result<JsonValue, ParseError>)
    ensures
        res_models(r, spec_parse(input@)),
{
    let cs = chars_of(input);
    parser(&cs)
}

} // verus!
