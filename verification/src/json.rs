//! JSON values as the rules engine reads them.
//!
//! Numbers keep what JSON equality and numeric comparison look at: an integer
//! keeps its exact value, a fractional number keeps the bit pattern of its
//! `f64`. A string keeps, besides its text, the bit pattern of the `f64` that
//! the text parses to (if it parses), since numeric operators read strings as
//! numbers. Objects keep their entries in the order of their keys, as
//! `serde_json` holds them.
use vstd::prelude::*;

verus! {

/// A JSON value.
#[derive(Debug)]
pub enum JsonValue {
    Null,
    Bool(bool),
    /// An integer, positive or negative.
    Int(i128),
    /// A number with a fraction or exponent, by the bits of its `f64`.
    Float(u64),
    /// A string; `number` holds the bits of `text.parse::<f64>()` where that succeeds.
    Str { text: String, number: Option<u64> },
    Array(Vec<JsonValue>),
    /// Entries in ascending order of their keys.
    Object(Vec<(String, JsonValue)>),
}

/// The mathematical form of a [`JsonValue`].
pub enum Json {
    Null,
    Bool(bool),
    Int(int),
    Float(u64),
    Str(Seq<char>, Option<u64>),
    Array(Seq<Json>),
    Object(Seq<(Seq<char>, Json)>),
}

impl JsonValue {
    pub open spec fn json(self) -> Json
        decreases self,
    {
        match self {
            JsonValue::Null => Json::Null,
            JsonValue::Bool(b) => Json::Bool(b),
            JsonValue::Int(i) => Json::Int(i as int),
            JsonValue::Float(b) => Json::Float(b),
            JsonValue::Str { text, number } => Json::Str(text@, number),
            JsonValue::Array(xs) => Json::Array(
                Seq::new(
                    xs@.len(),
                    |i: int|
                        if 0 <= i < xs@.len() {
                            xs@[i].json()
                        } else {
                            Json::Null
                        },
                ),
            ),
            JsonValue::Object(es) => Json::Object(
                Seq::new(
                    es@.len(),
                    |i: int|
                        if 0 <= i < es@.len() {
                            (es@[i].0@, es@[i].1.json())
                        } else {
                            (Seq::empty(), Json::Null)
                        },
                ),
            ),
        }
    }
}

impl View for JsonValue {
    type V = Json;

    open spec fn view(&self) -> Json {
        self.json()
    }
}

// ---------------------------------------------------------------------------
// f64 bit patterns
// ---------------------------------------------------------------------------

/// The bits of an `f64` denote NaN.
pub open spec fn f64_is_nan(bits: u64) -> bool {
    (bits >> 52u64) & 0x7ffu64 == 0x7ffu64 && bits & 0xf_ffff_ffff_ffffu64 != 0
}

/// The position of a non-NaN `f64` in the order of `f64`: `x < y` for two
/// non-NaN doubles exactly when their keys are so ordered, and `x == y`
/// exactly when their keys are equal (`-0.0` and `0.0` share the key 0).
pub open spec fn f64_key(bits: u64) -> int {
    let magnitude = (bits & 0x7fff_ffff_ffff_ffffu64) as int;
    if bits >> 63u64 == 1 {
        -magnitude
    } else {
        magnitude
    }
}

/// How a number compares: NaN compares with nothing, every other `f64`
/// compares by its key.
#[derive(Debug, Clone, Copy, PartialEq, Eq, Structural)]
pub enum F64Order {
    Nan,
    Key(i64),
}

pub open spec fn f64_order(bits: u64) -> F64Order {
    if f64_is_nan(bits) {
        F64Order::Nan
    } else {
        F64Order::Key(f64_key(bits) as i64)
    }
}

/// `2` to the power `n`.
pub open spec fn pow_two(n: nat) -> nat
    decreases n,
{
    if n == 0 {
        1
    } else {
        2 * pow_two((n - 1) as nat)
    }
}

/// `floor(log2(a))` for `a >= 1`.
pub open spec fn log2(a: nat) -> nat
    decreases a,
{
    if a < 2 {
        0
    } else {
        1 + log2(a / 2)
    }
}

/// The bits (sign bit clear) of the `f64` nearest to the natural number `a`,
/// ties to even: what `a as f64` gives.
pub open spec fn nat_f64_bits(a: nat) -> nat {
    if a == 0 {
        0
    } else {
        let p = log2(a);
        if p <= 52 {
            (p + 1022) * pow_two(52) + a * pow_two((52 - p) as nat)
        } else {
            let s = (p - 52) as nat;
            let q = a / pow_two(s);
            let r = a % pow_two(s);
            let half = pow_two((s - 1) as nat);
            let m = if r > half || (r == half && q % 2 == 1) {
                q + 1
            } else {
                q
            };
            (p + 1022) * pow_two(52) + m
        }
    }
}

/// The order key of the `f64` that the integer `v` converts to.
pub open spec fn int_key(v: int) -> int {
    if v < 0 {
        -nat_f64_bits((-v) as nat)
    } else {
        nat_f64_bits(v as nat) as int
    }
}

/// The numeric reading of a value, as numeric operators take it: a number
/// by its `f64`, a string by the `f64` its text parses to; any
/// other value, or a string that does not parse, has none.
pub open spec fn number_of(v: Json) -> Option<F64Order> {
    match v {
        Json::Int(i) => Some(F64Order::Key(int_key(i) as i64)),
        Json::Float(b) => Some(f64_order(b)),
        Json::Str(_, Some(b)) => Some(f64_order(b)),
        _ => None,
    }
}

/// The text of a string value.
pub open spec fn text_of(v: Json) -> Option<Seq<char>> {
    match v {
        Json::Str(t, _) => Some(t),
        _ => None,
    }
}

/// JSON equality as `serde_json::Value`'s `==`: integers by value, floats as
/// `f64 ==`, strings by text, arrays and objects entry by entry.
pub open spec fn json_eq(a: Json, b: Json) -> bool
    decreases a,
{
    match (a, b) {
        (Json::Null, Json::Null) => true,
        (Json::Bool(x), Json::Bool(y)) => x == y,
        (Json::Int(x), Json::Int(y)) => x == y,
        (Json::Float(x), Json::Float(y)) => !f64_is_nan(x) && !f64_is_nan(y) && f64_key(x)
            == f64_key(y),
        (Json::Str(x, _), Json::Str(y, _)) => x == y,
        (Json::Array(xs), Json::Array(ys)) => xs.len() == ys.len() && forall|i: int|
            0 <= i < xs.len() ==> json_eq(#[trigger] xs[i], ys[i]),
        (Json::Object(xs), Json::Object(ys)) => xs.len() == ys.len() && forall|i: int|
            0 <= i < xs.len() ==> (#[trigger] xs[i]).0 == ys[i].0 && json_eq(xs[i].1, ys[i].1),
        _ => false,
    }
}

// ---------------------------------------------------------------------------
// Lemmas on powers of two and logarithms
// ---------------------------------------------------------------------------

proof fn lemma_pow_two_positive(n: nat)
    ensures
        pow_two(n) >= 1,
    decreases n,
{
    if n > 0 {
        lemma_pow_two_positive((n - 1) as nat);
    }
}

proof fn lemma_pow_two_add(a: nat, b: nat)
    ensures
        pow_two(a + b) == pow_two(a) * pow_two(b),
    decreases b,
{
    if b == 0 {
        assert(a + b == a);
        assert(pow_two(0) == 1);
    } else {
        let b1 = (b - 1) as nat;
        lemma_pow_two_add(a, b1);
        let x = pow_two(a);
        let y = pow_two(b1);
        assert(pow_two(a + b1) == x * y);
        assert(a + b == (a + b1) + 1);
        assert(pow_two(a + b) == 2 * pow_two(a + b1));
        assert(pow_two(b) == 2 * y);
        assert(2 * (x * y) == x * (2 * y)) by (nonlinear_arith);
    }
}

proof fn lemma_pow_two_monotone(a: nat, b: nat)
    requires
        a <= b,
    ensures
        pow_two(a) <= pow_two(b),
    decreases b,
{
    if a < b {
        lemma_pow_two_monotone(a, (b - 1) as nat);
        lemma_pow_two_positive((b - 1) as nat);
    }
}

proof fn lemma_pow_two_52()
    ensures
        pow_two(52) == 0x10_0000_0000_0000,
        pow_two(53) == 0x20_0000_0000_0000,
        pow_two(127) == 0x8000_0000_0000_0000_0000_0000_0000_0000,
        pow_two(128) == 0x1_0000_0000_0000_0000_0000_0000_0000_0000,
{
    reveal_with_fuel(pow_two, 129);
}

/// `2^log2(a) <= a < 2^(log2(a) + 1)`.
proof fn lemma_log2_bounds(a: nat)
    requires
        a >= 1,
    ensures
        pow_two(log2(a)) <= a < pow_two(log2(a) + 1),
    decreases a,
{
    if a >= 2 {
        let h = a / 2;
        let l = log2(h);
        lemma_log2_bounds(h);
        assert(log2(a) == l + 1);
        assert(pow_two(l + 1) == 2 * pow_two(l));
        assert(pow_two(l + 2) == 2 * pow_two(l + 1));
        assert(2 * h <= a <= 2 * h + 1);
    } else {
        assert(log2(a) == 0);
        assert(pow_two(0) == 1);
        assert(pow_two(1) == 2 * pow_two(0));
    }
}

proof fn lemma_log2_monotone(a: nat, b: nat)
    requires
        1 <= a <= b,
    ensures
        log2(a) <= log2(b),
{
    lemma_log2_bounds(a);
    lemma_log2_bounds(b);
    if log2(a) > log2(b) {
        lemma_pow_two_monotone(log2(b) + 1, log2(a));
    }
}

/// For `1 <= a < 2^53`: `a` is exact as a double, whose bits lie between
/// those of `2^log2(a)` and `2^(log2(a) + 1)`.
proof fn lemma_exact_bits(a: nat)
    requires
        1 <= a < 0x20_0000_0000_0000,
    ensures
        log2(a) <= 52,
        (log2(a) + 1023) * pow_two(52) <= nat_f64_bits(a) < (log2(a) + 1024) * pow_two(52),
        nat_f64_bits(a) == (log2(a) + 1022) * pow_two(52) + a * pow_two((52 - log2(a)) as nat),
{
    let p = log2(a);
    lemma_log2_bounds(a);
    lemma_pow_two_52();
    if p > 52 {
        lemma_pow_two_monotone(53, p);
    }
    let c = pow_two((52 - p) as nat);
    lemma_pow_two_add(p, (52 - p) as nat);
    lemma_pow_two_add(p + 1, (52 - p) as nat);
    lemma_pow_two_positive((52 - p) as nat);
    assert(pow_two(p) * c <= a * c) by (nonlinear_arith)
        requires
            pow_two(p) <= a,
            c >= 1,
    ;
    assert(a * c < pow_two(p + 1) * c) by (nonlinear_arith)
        requires
            a < pow_two(p + 1),
            c >= 1,
    ;
    assert((p + 1 + (52 - p) as nat) as nat == 53);
}

/// Integers of magnitude up to `2^53` compare as their doubles exactly as
/// they compare as integers: the numeric operators order such integers
/// without loss.
pub proof fn law_integers_compare_exactly(a: int, b: int)
    requires
        -0x20_0000_0000_0000 <= a <= 0x20_0000_0000_0000,
        -0x20_0000_0000_0000 <= b <= 0x20_0000_0000_0000,
    ensures
        (int_key(a) < int_key(b)) == (a < b),
        (int_key(a) == int_key(b)) == (a == b),
{
    if a < b {
        lemma_int_key_strict(a, b);
    } else if b < a {
        lemma_int_key_strict(b, a);
    }
}

proof fn lemma_int_key_strict(a: int, b: int)
    requires
        -0x20_0000_0000_0000 <= a < b <= 0x20_0000_0000_0000,
    ensures
        int_key(a) < int_key(b),
{
    if 0 <= a {
        lemma_nat_bits_strict(a as nat, b as nat);
    } else if b <= 0 {
        lemma_nat_bits_strict((-b) as nat, (-a) as nat);
    } else {
        lemma_nat_bits_strict(0, (-a) as nat);
        lemma_nat_bits_strict(0, b as nat);
    }
}

proof fn lemma_nat_bits_strict(a: nat, b: nat)
    requires
        a < b <= 0x20_0000_0000_0000,
    ensures
        nat_f64_bits(a) < nat_f64_bits(b),
{
    lemma_pow_two_52();
    if b == 0x20_0000_0000_0000 {
        lemma_log2_bounds(b);
        if log2(b) < 53 {
            lemma_pow_two_monotone(log2(b) + 1, 53);
        }
        if log2(b) > 53 {
            lemma_pow_two_monotone(54, log2(b));
            reveal_with_fuel(pow_two, 55);
        }
        assert(log2(b) == 53);
        assert(pow_two(1) == 2);
        assert(pow_two(0) == 1);
        assert(b / pow_two(1) == 0x10_0000_0000_0000);
        assert(b % pow_two(1) == 0);
        assert(nat_f64_bits(b) == 1075 * pow_two(52) + 0x10_0000_0000_0000);
        if a >= 1 {
            lemma_exact_bits(a);
        }
    } else if a == 0 {
        lemma_exact_bits(b);
    } else {
        lemma_exact_bits(a);
        lemma_exact_bits(b);
        lemma_log2_monotone(a, b);
        let pa = log2(a);
        let pb = log2(b);
        if pa == pb {
            let c = pow_two((52 - pa) as nat);
            lemma_pow_two_positive((52 - pa) as nat);
            assert(a * c < b * c) by (nonlinear_arith)
                requires
                    a < b,
                    c >= 1,
            ;
        }
    }
}

// ---------------------------------------------------------------------------
// Executable functions
// ---------------------------------------------------------------------------

/// Whether the bits of an `f64` denote NaN.
pub fn f64_bits_are_nan(bits: u64) -> (r: bool)
    ensures
        r == f64_is_nan(bits),
{
    (bits >> 52u64) & 0x7ffu64 == 0x7ffu64 && bits & 0xf_ffff_ffff_ffffu64 != 0
}

/// The order key of the non-NaN `f64` with these bits.
pub fn f64_key_of(bits: u64) -> (r: i64)
    ensures
        r as int == f64_key(bits),
{
    let magnitude: u64 = bits & 0x7fff_ffff_ffff_ffffu64;
    assert(magnitude <= 0x7fff_ffff_ffff_ffffu64) by (bit_vector)
        requires
            magnitude == bits & 0x7fff_ffff_ffff_ffffu64,
    ;
    if bits >> 63u64 == 1 {
        -(magnitude as i64)
    } else {
        magnitude as i64
    }
}

/// How the `f64` with these bits compares.
pub fn f64_order_of(bits: u64) -> (r: F64Order)
    ensures
        r == f64_order(bits),
{
    if f64_bits_are_nan(bits) {
        F64Order::Nan
    } else {
        F64Order::Key(f64_key_of(bits))
    }
}

/// The bits of `a as f64` (nearest, ties to even).
pub fn nat_f64_bits_of(a: u128) -> (r: u64)
    ensures
        r == nat_f64_bits(a as nat),
{
    if a == 0 {
        return 0;
    }
    let mut t: u128 = a;
    let mut p: u64 = 0;
    while t >= 2
        invariant
            t >= 1,
            p <= 128,
            log2(a as nat) == p + log2(t as nat),
        decreases t,
    {
        proof {
            lemma_log2_bounds(a as nat);
            lemma_log2_bounds(t as nat);
            lemma_pow_two_52();
            if p + log2(t as nat) >= 128 {
                lemma_pow_two_monotone(128, log2(a as nat));
            }
        }
        t = t / 2;
        p = p + 1;
    }
    proof {
        lemma_log2_bounds(a as nat);
        lemma_pow_two_52();
        if p >= 128 {
            lemma_pow_two_monotone(128, p as nat);
        }
    }
    assert(p < 128);
    if p <= 52 {
        let mut pw: u128 = 1;
        let mut i: u64 = 0;
        while i < 52 - p
            invariant
                p <= 52,
                i <= 52 - p,
                pw == pow_two(i as nat),
                pw <= 0x10_0000_0000_0000,
            decreases 52 - p - i,
        {
            proof {
                lemma_pow_two_monotone((i + 1) as nat, 52);
                lemma_pow_two_52();
            }
            pw = pw * 2;
            i = i + 1;
        }
        proof {
            lemma_pow_two_add((p + 1) as nat, (52 - p) as nat);
            lemma_pow_two_positive((52 - p) as nat);
            lemma_pow_two_52();
            assert(a * pw < pow_two((p + 1) as nat) * pw) by (nonlinear_arith)
                requires
                    a < pow_two((p + 1) as nat),
                    pw >= 1,
            ;
        }
        let m: u128 = a * pw;
        ((p + 1022) * 0x10_0000_0000_0000u64 + m as u64)
    } else {
        let s: u64 = p - 52;
        proof { lemma_pow_two_positive(s as nat); }
        let mut pw: u128 = 1;
        let mut i: u64 = 0;
        while i < s
            invariant
                s == p - 52,
                p < 128,
                i <= s,
                pw == pow_two(i as nat),
                pw <= pow_two(s as nat),
            decreases s - i,
        {
            proof {
                lemma_pow_two_monotone((i + 1) as nat, s as nat);
                lemma_pow_two_monotone(s as nat, 127);
                lemma_pow_two_52();
                assert(pow_two((i + 1) as nat) == 2 * pow_two(i as nat));
            }
            pw = pw * 2;
            i = i + 1;
        }
        proof { lemma_pow_two_positive(s as nat); }
        let q: u128 = a / pw;
        let r: u128 = a % pw;
        let half: u128 = pw / 2;
        proof {
            lemma_pow_two_add(53, s as nat);
            lemma_pow_two_52();
            assert(pow_two(s as nat) == 2 * pow_two((s - 1) as nat));
            assert(q < 0x20_0000_0000_0000) by (nonlinear_arith)
                requires
                    a < 0x20_0000_0000_0000 * pw,
                    q == a / pw,
                    pw >= 1,
            ;
        }
        let m: u128 = if r > half || (r == half && q % 2 == 1) {
            q + 1
        } else {
            q
        };
        ((p + 1022) * 0x10_0000_0000_0000u64 + m as u64)
    }
}

/// The order key of `v as f64`.
pub fn int_key_of(v: i128) -> (r: i64)
    ensures
        r == int_key(v as int),
{
    if v < 0 {
        let a: u128 = if v == i128::MIN {
            0x8000_0000_0000_0000_0000_0000_0000_0000u128
        } else {
            (-v) as u128
        };
        let b = nat_f64_bits_of(a);
        proof { lemma_nat_f64_bits_bound(a as nat); }
        -(b as i64)
    } else {
        let b = nat_f64_bits_of(v as u128);
        proof { lemma_nat_f64_bits_bound(v as nat); }
        b as i64
    }
}

/// Every integer below `2^128` converts to a finite double, whose bits stay
/// below `2^63`.
pub proof fn lemma_nat_f64_bits_bound(a: nat)
    requires
        a <= 0x8000_0000_0000_0000_0000_0000_0000_0000,
    ensures
        nat_f64_bits(a) <= 0x7fff_ffff_ffff_ffff,
{
    if a > 0 {
        let p = log2(a);
        lemma_log2_bounds(a);
        lemma_pow_two_52();
        if p >= 128 {
            lemma_pow_two_monotone(128, p);
        }
        if p <= 52 {
            lemma_pow_two_add(p + 1, (52 - p) as nat);
            let pw = pow_two((52 - p) as nat);
            lemma_pow_two_positive((52 - p) as nat);
            assert(a * pw < pow_two(p + 1) * pw) by (nonlinear_arith)
                requires
                    a < pow_two(p + 1),
                    pw >= 1,
            ;
            lemma_pow_two_positive((52 - p) as nat);
        } else {
            let s = (p - 52) as nat;
            lemma_pow_two_add(53, s);
            lemma_pow_two_positive(s);
            let pw = pow_two(s);
            let q = a / pw;
            assert(q < 0x20_0000_0000_0000) by (nonlinear_arith)
                requires
                    a < 0x20_0000_0000_0000 * pw,
                    q == a / pw,
                    pw >= 1,
            ;
        }
    }
}

} // verus!
