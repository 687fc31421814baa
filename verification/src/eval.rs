//! Evaluation of one condition: a fact against a rule's value.
use vstd::prelude::*;
use crate::json::{
    F64Order, Json, JsonValue, f64_bits_are_nan, f64_key_of, f64_order_of, int_key, int_key_of, json_eq,
    law_integers_compare_exactly, lemma_nat_f64_bits_bound, number_of, text_of,
};
use crate::rules::{Fault, Operator, RulesError, viewed};
use crate::text::{
    chars_of, contains, contains_chars, ends_with, ends_with_chars, starts_with, starts_with_chars,
};

verus! {

/// How two numeric readings compare under an ordering operator, as `f64`
/// comparisons do: NaN compares with nothing.
pub open spec fn compare_spec(op: Operator, a: F64Order, b: F64Order) -> bool {
    match (a, b) {
        (F64Order::Key(x), F64Order::Key(y)) => match op {
            Operator::Gt => x > y,
            Operator::Gte => x >= y,
            Operator::Lt => x < y,
            Operator::Lte => x <= y,
            _ => false,
        },
        _ => false,
    }
}

/// The outcome of testing `left op right`.
pub open spec fn eval_spec(left: Json, op: Operator, right: Json) -> Result<bool, Fault> {
    match op {
        Operator::Eq => Ok(json_eq(left, right)),
        Operator::Ne => Ok(!json_eq(left, right)),
        Operator::Gt | Operator::Gte | Operator::Lt | Operator::Lte => match number_of(left) {
            None => Err(Fault::NotNumeric(left)),
            Some(a) => match number_of(right) {
                None => Err(Fault::NotNumeric(right)),
                Some(b) => Ok(compare_spec(op, a, b)),
            },
        },
        Operator::Contains | Operator::StartsWith | Operator::EndsWith => match text_of(left) {
            None => Err(Fault::NotText(left)),
            Some(h) => match text_of(right) {
                None => Err(Fault::NotText(right)),
                Some(n) => Ok(
                    match op {
                        Operator::Contains => contains(h, n),
                        Operator::StartsWith => starts_with(h, n),
                        _ => ends_with(h, n),
                    },
                ),
            },
        },
        Operator::In => match right {
            Json::Array(xs) => Ok(exists|i: int| 0 <= i < xs.len() && json_eq(#[trigger] xs[i], left)),
            _ => Err(Fault::InExpectsArray),
        },
    }
}

/// A copy of a value.
pub fn duplicate(v: &JsonValue) -> (r: JsonValue)
    ensures
        r@ == v@,
    decreases *v,
{
    match v {
        JsonValue::Null => JsonValue::Null,
        JsonValue::Bool(b) => JsonValue::Bool(*b),
        JsonValue::Int(i) => JsonValue::Int(*i),
        JsonValue::Float(b) => JsonValue::Float(*b),
        JsonValue::Str { text, number } => JsonValue::Str { text: text.clone(), number: *number },
        JsonValue::Array(xs) => {
            let mut out: Vec<JsonValue> = Vec::new();
            let mut i: usize = 0;
            while i < xs.len()
                invariant
                    i <= xs.len(),
                    *v == JsonValue::Array(*xs),
                    out@.len() == i,
                    forall|j: int| 0 <= j < i ==> out@[j]@ == xs@[j]@,
                decreases xs.len() - i,
            {
                proof {
                    vstd::std_specs::vec::axiom_vec_index_decreases(*xs, i as int);
                    assert(decreases_to!(*v => v->Array_0));
                }
                let d = duplicate(&xs[i]);
                out.push(d);
                i = i + 1;
            }
            let r = JsonValue::Array(out);
            assert(r@->Array_0 =~= v@->Array_0);
            r
        },
        JsonValue::Object(es) => {
            let mut out: Vec<(String, JsonValue)> = Vec::new();
            let mut i: usize = 0;
            while i < es.len()
                invariant
                    i <= es.len(),
                    *v == JsonValue::Object(*es),
                    out@.len() == i,
                    forall|j: int| 0 <= j < i ==> out@[j].0@ == es@[j].0@ && out@[j].1@ == es@[j].1@,
                decreases es.len() - i,
            {
                proof {
                    vstd::std_specs::vec::axiom_vec_index_decreases(*es, i as int);
                    assert(decreases_to!(*v => v->Object_0));
                    assert(decreases_to!(es@[i as int] => es@[i as int].1));
                }
                let k = es[i].0.clone();
                let d = duplicate(&es[i].1);
                out.push((k, d));
                i = i + 1;
            }
            let r = JsonValue::Object(out);
            assert(r@->Object_0 =~= v@->Object_0);
            r
        },
    }
}

/// JSON equality (`==` on `serde_json::Value`).
pub fn json_equal(a: &JsonValue, b: &JsonValue) -> (r: bool)
    ensures
        r == json_eq(a@, b@),
    decreases *a,
{
    match (a, b) {
        (JsonValue::Null, JsonValue::Null) => true,
        (JsonValue::Bool(x), JsonValue::Bool(y)) => *x == *y,
        (JsonValue::Int(x), JsonValue::Int(y)) => *x == *y,
        (JsonValue::Float(x), JsonValue::Float(y)) => {
            !f64_bits_are_nan(*x) && !f64_bits_are_nan(*y) && f64_key_of(*x) == f64_key_of(*y)
        },
        (JsonValue::Str { text: x, .. }, JsonValue::Str { text: y, .. }) => *x == *y,
        (JsonValue::Array(xs), JsonValue::Array(ys)) => {
            if xs.len() != ys.len() {
                return false;
            }
            let mut i: usize = 0;
            while i < xs.len()
                invariant
                    i <= xs.len() == ys.len(),
                    *a == JsonValue::Array(*xs),
                    *b == JsonValue::Array(*ys),
                    forall|j: int| 0 <= j < i ==> json_eq(#[trigger] a@->Array_0[j], b@->Array_0[j]),
                decreases xs.len() - i,
            {
                proof {
                    vstd::std_specs::vec::axiom_vec_index_decreases(*xs, i as int);
                    assert(decreases_to!(*a => a->Array_0));
                }
                if !json_equal(&xs[i], &ys[i]) {
                    assert(!json_eq(a@->Array_0[i as int], b@->Array_0[i as int]));
                    return false;
                }
                i = i + 1;
            }
            true
        },
        (JsonValue::Object(xs), JsonValue::Object(ys)) => {
            if xs.len() != ys.len() {
                return false;
            }
            let mut i: usize = 0;
            while i < xs.len()
                invariant
                    i <= xs.len() == ys.len(),
                    *a == JsonValue::Object(*xs),
                    *b == JsonValue::Object(*ys),
                    forall|j: int|
                        0 <= j < i ==> (#[trigger] a@->Object_0[j]).0 == b@->Object_0[j].0
                            && json_eq(a@->Object_0[j].1, b@->Object_0[j].1),
                decreases xs.len() - i,
            {
                proof {
                    vstd::std_specs::vec::axiom_vec_index_decreases(*xs, i as int);
                    assert(decreases_to!(*a => a->Object_0));
                    assert(decreases_to!(xs@[i as int] => xs@[i as int].1));
                }
                if xs[i].0 != ys[i].0 {
                    assert(a@->Object_0[i as int].0 != b@->Object_0[i as int].0);
                    return false;
                }
                if !json_equal(&xs[i].1, &ys[i].1) {
                    assert(!json_eq(a@->Object_0[i as int].1, b@->Object_0[i as int].1));
                    return false;
                }
                i = i + 1;
            }
            true
        },
        _ => false,
    }
}

/// The numeric reading of a value, or the error naming the value.
pub fn to_number(v: &JsonValue) -> (r: Result<F64Order, RulesError>)
    ensures
        viewed(r) == (match number_of(v@) {
            Some(o) => Ok(o),
            None => Err(Fault::NotNumeric(v@)),
        }),
{
    match v {
        JsonValue::Int(i) => Ok(F64Order::Key(int_key_of(*i))),
        JsonValue::Float(b) => Ok(f64_order_of(*b)),
        JsonValue::Str { number: Some(b), .. } => Ok(f64_order_of(*b)),
        _ => Err(RulesError::NotNumeric(duplicate(v))),
    }
}

/// The text of a string value, or the error naming the value.
pub fn to_text(v: &JsonValue) -> (r: Result<&String, RulesError>)
    ensures
        match r {
            Ok(t) => text_of(v@) == Some(t@),
            Err(e) => text_of(v@) is None && e@ == Fault::NotText(v@),
        },
{
    match v {
        JsonValue::Str { text, .. } => Ok(text),
        _ => Err(RulesError::NotText(duplicate(v))),
    }
}

/// How two numeric readings compare under an ordering operator.
pub fn compare(op: Operator, a: F64Order, b: F64Order) -> (r: bool)
    ensures
        r == compare_spec(op, a, b),
{
    match (a, b) {
        (F64Order::Key(x), F64Order::Key(y)) => match op {
            Operator::Gt => x > y,
            Operator::Gte => x >= y,
            Operator::Lt => x < y,
            Operator::Lte => x <= y,
            _ => false,
        },
        _ => false,
    }
}

/// Tests `left op right`.
pub fn eval(left: &JsonValue, op: Operator, right: &JsonValue) -> (r: Result<bool, RulesError>)
    ensures
        viewed(r) == eval_spec(left@, op, right@),
{
    match op {
        Operator::Eq => Ok(json_equal(left, right)),
        Operator::Ne => Ok(!json_equal(left, right)),
        Operator::Gt | Operator::Gte | Operator::Lt | Operator::Lte => {
            let a = match to_number(left) {
                Ok(a) => a,
                Err(e) => return Err(e),
            };
            let b = match to_number(right) {
                Ok(b) => b,
                Err(e) => return Err(e),
            };
            Ok(compare(op, a, b))
        },
        Operator::Contains | Operator::StartsWith | Operator::EndsWith => {
            let h = match to_text(left) {
                Ok(t) => chars_of(t.as_str()),
                Err(e) => return Err(e),
            };
            let n = match to_text(right) {
                Ok(t) => chars_of(t.as_str()),
                Err(e) => return Err(e),
            };
            match op {
                Operator::Contains => Ok(contains_chars(&h, &n)),
                Operator::StartsWith => Ok(starts_with_chars(&h, &n)),
                _ => Ok(ends_with_chars(&h, &n)),
            }
        },
        Operator::In => match right {
            JsonValue::Array(xs) => {
                let mut i: usize = 0;
                while i < xs.len()
                    invariant
                        i <= xs.len(),
                        op == Operator::In,
                        *right == JsonValue::Array(*xs),
                        forall|j: int| 0 <= j < i ==> !json_eq(#[trigger] right@->Array_0[j], left@),
                    decreases xs.len() - i,
                {
                    if json_equal(&xs[i], left) {
                        assert(right@->Array_0.len() == xs@.len());
                        assert(json_eq(right@->Array_0[i as int], left@));
                        return Ok(true);
                    }
                    i = i + 1;
                }
                Ok(false)
            },
            _ => Err(RulesError::InExpectsArray),
        },
    }
}

/// JSON equality does not depend on the order of its operands.
pub proof fn law_json_equality_is_symmetric(a: Json, b: Json)
    ensures
        json_eq(a, b) == json_eq(b, a),
    decreases a,
{
    match (a, b) {
        (Json::Array(xs), Json::Array(ys)) => {
            if xs.len() == ys.len() {
                assert forall|i: int| 0 <= i < xs.len() implies json_eq(#[trigger] xs[i], ys[i])
                    == json_eq(ys[i], xs[i]) by {
                    law_json_equality_is_symmetric(xs[i], ys[i]);
                }
                assert(json_eq(a, b) == json_eq(b, a));
            }
        },
        (Json::Object(xs), Json::Object(ys)) => {
            if xs.len() == ys.len() {
                assert forall|i: int| 0 <= i < xs.len() implies json_eq(#[trigger] xs[i].1, ys[i].1)
                    == json_eq(ys[i].1, xs[i].1) by {
                    law_json_equality_is_symmetric(xs[i].1, ys[i].1);
                }
                assert(json_eq(a, b) == json_eq(b, a));
            }
        },
        _ => {},
    }
}

/// `eq` and `ne` never fail, and give opposite answers.
pub proof fn law_ne_is_not_eq(left: Json, right: Json)
    ensures
        eval_spec(left, Operator::Eq, right) is Ok,
        eval_spec(left, Operator::Ne, right) == Ok::<bool, Fault>(
            !eval_spec(left, Operator::Eq, right)->Ok_0,
        ),
{
}

/// Swapping the operands of an ordering operator mirrors it: `a > b` is
/// `b < a`, and `a >= b` is `b <= a`, whenever both have a numeric reading.
pub proof fn law_ordering_operators_mirror(a: Json, b: Json)
    requires
        number_of(a) is Some,
        number_of(b) is Some,
    ensures
        eval_spec(a, Operator::Gt, b) == eval_spec(b, Operator::Lt, a),
        eval_spec(a, Operator::Gte, b) == eval_spec(b, Operator::Lte, a),
{
}

/// Between two readings that are not NaN, `a > b` holds exactly when
/// `a <= b` does not.
pub proof fn law_gt_is_not_lte(a: Json, b: Json)
    requires
        number_of(a) matches Some(x) && x is Key,
        number_of(b) matches Some(y) && y is Key,
    ensures
        eval_spec(a, Operator::Gt, b) == Ok::<bool, Fault>(
            !eval_spec(a, Operator::Lte, b)->Ok_0,
        ),
{
}

/// `in` holds exactly when the left side equals an element of the array,
/// by JSON equality in either direction.
pub proof fn law_in_is_membership(left: Json, xs: Seq<Json>)
    ensures
        eval_spec(left, Operator::In, Json::Array(xs)) == Ok::<bool, Fault>(
            exists|i: int| 0 <= i < xs.len() && json_eq(left, #[trigger] xs[i]),
        ),
{
    let e = eval_spec(left, Operator::In, Json::Array(xs));
    let q = exists|i: int| 0 <= i < xs.len() && json_eq(left, #[trigger] xs[i]);
    assert(Json::Array(xs)->Array_0 == xs);
    if e->Ok_0 {
        let i = choose|i: int| 0 <= i < xs.len() && json_eq(#[trigger] xs[i], left);
        law_json_equality_is_symmetric(xs[i], left);
    }
    if q {
        let i = choose|i: int| 0 <= i < xs.len() && json_eq(left, #[trigger] xs[i]);
        law_json_equality_is_symmetric(xs[i], left);
    }
}


/// The text operators on two strings: `contains` holds exactly when the
/// needle occurs as a run of characters somewhere in the text, `starts_with`
/// when it is a prefix, `ends_with` when it is a suffix. On a value that is
/// not a string they fail, naming the first such operand.
pub proof fn law_text_operators(h: Seq<char>, x: Option<u64>, n: Seq<char>, y: Option<u64>, other: Json)
    ensures
        eval_spec(Json::Str(h, x), Operator::Contains, Json::Str(n, y)) == Ok::<bool, Fault>(
            exists|i: int| 0 <= i && i + n.len() <= h.len() && #[trigger] h.subrange(i, i + n.len()) == n,
        ),
        eval_spec(Json::Str(h, x), Operator::StartsWith, Json::Str(n, y)) == Ok::<bool, Fault>(
            n.len() <= h.len() && h.subrange(0, n.len() as int) == n,
        ),
        eval_spec(Json::Str(h, x), Operator::EndsWith, Json::Str(n, y)) == Ok::<bool, Fault>(
            n.len() <= h.len() && h.subrange(h.len() - n.len(), h.len() as int) == n,
        ),
        !(other is Str) ==> eval_spec(other, Operator::Contains, Json::Str(n, y)) == Err::<bool, Fault>(
            Fault::NotText(other),
        ),
        !(other is Str) ==> eval_spec(Json::Str(h, x), Operator::EndsWith, other) == Err::<bool, Fault>(
            Fault::NotText(other),
        ),
        !(other is Str) ==> eval_spec(Json::Str(h, x), Operator::StartsWith, other) == Err::<bool, Fault>(
            Fault::NotText(other),
        ),
{
    let c = exists|i: int| 0 <= i && i + n.len() <= h.len() && #[trigger] h.subrange(i, i + n.len()) == n;
    if c {
        let i = choose|i: int| 0 <= i && i + n.len() <= h.len() && #[trigger] h.subrange(i, i + n.len()) == n;
        assert(crate::text::occurs_at(h, n, i));
    }
    if crate::text::contains(h, n) {
        let i = choose|i: int| crate::text::occurs_at(h, n, i);
        assert(h.subrange(i, i + n.len()) == n);
    }
}

/// Integers of magnitude up to `2^53` are ordered by the numeric operators
/// as integers are: `a > b`, `a >= b`, `a < b` and `a <= b` each hold
/// exactly when they hold of the integers.
pub proof fn law_integer_comparisons(a: int, b: int)
    requires
        -0x20_0000_0000_0000 <= a <= 0x20_0000_0000_0000,
        -0x20_0000_0000_0000 <= b <= 0x20_0000_0000_0000,
    ensures
        eval_spec(Json::Int(a), Operator::Gt, Json::Int(b)) == Ok::<bool, Fault>(a > b),
        eval_spec(Json::Int(a), Operator::Gte, Json::Int(b)) == Ok::<bool, Fault>(a >= b),
        eval_spec(Json::Int(a), Operator::Lt, Json::Int(b)) == Ok::<bool, Fault>(a < b),
        eval_spec(Json::Int(a), Operator::Lte, Json::Int(b)) == Ok::<bool, Fault>(a <= b),
{
    law_integers_compare_exactly(a, b);
    lemma_nat_f64_bits_bound(if a < 0 { (-a) as nat } else { a as nat });
    lemma_nat_f64_bits_bound(if b < 0 { (-b) as nat } else { b as nat });
    assert(int_key(a) as i64 == int_key(a));
    assert(int_key(b) as i64 == int_key(b));
}

/// Equality on plain values: strings are equal exactly when their texts
/// are, integers when their values are, flags when they are; `null` equals
/// `null`; values of different kinds are never equal, and `ne` says the
/// opposite of `eq`.
pub proof fn law_plain_equality(s: Seq<char>, x: Option<u64>, t: Seq<char>, y: Option<u64>, a: int, b: int, p: bool, q: bool)
    ensures
        eval_spec(Json::Str(s, x), Operator::Eq, Json::Str(t, y)) == Ok::<bool, Fault>(s == t),
        eval_spec(Json::Int(a), Operator::Eq, Json::Int(b)) == Ok::<bool, Fault>(a == b),
        eval_spec(Json::Bool(p), Operator::Eq, Json::Bool(q)) == Ok::<bool, Fault>(p == q),
        eval_spec(Json::Null, Operator::Eq, Json::Null) == Ok::<bool, Fault>(true),
        eval_spec(Json::Int(a), Operator::Eq, Json::Str(t, y)) == Ok::<bool, Fault>(false),
        eval_spec(Json::Null, Operator::Eq, Json::Int(a)) == Ok::<bool, Fault>(false),
        eval_spec(Json::Bool(p), Operator::Eq, Json::Null) == Ok::<bool, Fault>(false),
        eval_spec(Json::Str(s, x), Operator::Ne, Json::Str(t, y)) == Ok::<bool, Fault>(s != t),
        eval_spec(Json::Int(a), Operator::Ne, Json::Int(b)) == Ok::<bool, Fault>(a != b),
{
}

/// Numeric operators read strings by their numeric reading, fail on values
/// that have none, naming the first such operand, and `in` fails unless its
/// right side is an array.
pub proof fn law_operator_errors(v: Json, w: Json, op: Operator)
    ensures
        (op == Operator::Gt || op == Operator::Gte || op == Operator::Lt || op == Operator::Lte) ==> (
        number_of(v) is None ==> eval_spec(v, op, w) == Err::<bool, Fault>(Fault::NotNumeric(v))),
        (op == Operator::Gt || op == Operator::Gte || op == Operator::Lt || op == Operator::Lte) ==> (
        number_of(v) is Some && number_of(w) is None ==> eval_spec(v, op, w) == Err::<bool, Fault>(
            Fault::NotNumeric(w),
        )),
        !(w is Array) ==> eval_spec(v, Operator::In, w) == Err::<bool, Fault>(Fault::InExpectsArray),
        (v is Null || v is Bool || v is Array || v is Object) ==> number_of(v) is None,
{
}


/// Integers and fractional numbers are never equal, even of equal value, as
/// in `serde_json`; a NaN equals nothing; arrays are equal exactly when they
/// have the same length and equal elements at each position.
pub proof fn law_number_and_array_equality(a: int, b: u64, xs: Seq<Json>, ys: Seq<Json>)
    ensures
        eval_spec(Json::Int(a), Operator::Eq, Json::Float(b)) == Ok::<bool, Fault>(false),
        eval_spec(Json::Float(b), Operator::Eq, Json::Int(a)) == Ok::<bool, Fault>(false),
        crate::json::f64_is_nan(b) ==> eval_spec(Json::Float(b), Operator::Eq, Json::Float(b)) == Ok::<
            bool,
            Fault,
        >(false),
        !crate::json::f64_is_nan(b) ==> eval_spec(Json::Float(b), Operator::Eq, Json::Float(b)) == Ok::<
            bool,
            Fault,
        >(true),
        eval_spec(Json::Array(xs), Operator::Eq, Json::Array(ys)) == Ok::<bool, Fault>(
            xs.len() == ys.len() && forall|i: int| 0 <= i < xs.len() ==> json_eq(#[trigger] xs[i], ys[i]),
        ),
{
}

} // verus!
