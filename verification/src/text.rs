//! Character-level text handling: trimming, ASCII case mapping, substring
//! tests and decimal integers, all over the characters of a string.
use vstd::prelude::*;

verus! {

broadcast use vstd::string::axiom_spec_iter;

// ---------------------------------------------------------------------------
// Specifications
// ---------------------------------------------------------------------------

/// The Unicode `White_Space` characters: what `char::is_whitespace` accepts.
pub open spec fn is_whitespace(c: char) -> bool {
    ||| c == '\t' || c == '\n' || c == '\u{0B}' || c == '\u{0C}' || c == '\r' || c == ' '
    ||| c == '\u{85}' || c == '\u{A0}' || c == '\u{1680}'
    ||| ('\u{2000}' <= c && c <= '\u{200A}')
    ||| c == '\u{2028}' || c == '\u{2029}' || c == '\u{202F}' || c == '\u{205F}'
    ||| c == '\u{3000}'
}

/// `s` without its leading whitespace.
pub open spec fn trim_start(s: Seq<char>) -> Seq<char>
    decreases s.len(),
{
    if s.len() > 0 && is_whitespace(s[0]) {
        trim_start(s.drop_first())
    } else {
        s
    }
}

/// `s` without its trailing whitespace.
pub open spec fn trim_end(s: Seq<char>) -> Seq<char>
    decreases s.len(),
{
    if s.len() > 0 && is_whitespace(s.last()) {
        trim_end(s.drop_last())
    } else {
        s
    }
}

/// `s` without leading and trailing whitespace, as `str::trim` gives it.
pub open spec fn trim(s: Seq<char>) -> Seq<char> {
    trim_end(trim_start(s))
}

pub open spec fn lower_char(c: char) -> char {
    if 'A' <= c && c <= 'Z' {
        ((c as u32) + 32) as char
    } else {
        c
    }
}

pub open spec fn upper_char(c: char) -> char {
    if 'a' <= c && c <= 'z' {
        ((c as u32) - 32) as char
    } else {
        c
    }
}

/// ASCII letters mapped to lower case, everything else kept.
pub open spec fn lower(s: Seq<char>) -> Seq<char> {
    s.map_values(|c: char| lower_char(c))
}

/// ASCII letters mapped to upper case, everything else kept.
pub open spec fn upper(s: Seq<char>) -> Seq<char> {
    s.map_values(|c: char| upper_char(c))
}

/// Trimmed, then lower-cased: the form in which names of operators,
/// actions and rule types are matched.
pub open spec fn normalized(s: Seq<char>) -> Seq<char> {
    lower(trim(s))
}

pub open spec fn occurs_at(h: Seq<char>, n: Seq<char>, i: int) -> bool {
    0 <= i && i + n.len() <= h.len() && h.subrange(i, i + n.len()) == n
}

/// `n` occurs in `h` as a contiguous run of characters.
pub open spec fn contains(h: Seq<char>, n: Seq<char>) -> bool {
    exists|i: int| occurs_at(h, n, i)
}

pub open spec fn starts_with(h: Seq<char>, n: Seq<char>) -> bool {
    occurs_at(h, n, 0)
}

pub open spec fn ends_with(h: Seq<char>, n: Seq<char>) -> bool {
    occurs_at(h, n, h.len() - n.len())
}

pub open spec fn is_digit(c: char) -> bool {
    '0' <= c && c <= '9'
}

pub open spec fn digit_value(c: char) -> int {
    (c as int) - ('0' as int)
}

pub open spec fn all_digits(s: Seq<char>) -> bool {
    forall|i: int| 0 <= i < s.len() ==> is_digit(#[trigger] s[i])
}

/// The number that a run of decimal digits denotes.
pub open spec fn decimal_value(s: Seq<char>) -> int
    decreases s.len(),
{
    if s.len() == 0 {
        0
    } else {
        decimal_value(s.drop_last()) * 10 + digit_value(s.last())
    }
}

/// What `str::parse::<i64>` accepts and gives: an optional `+` or `-` sign,
/// then one or more ASCII digits, denoting a value in the range of `i64`.
pub open spec fn parse_i64_spec(s: Seq<char>) -> Option<i64> {
    let negative = s.len() > 0 && s[0] == '-';
    let signed = s.len() > 0 && (s[0] == '-' || s[0] == '+');
    let digits = if signed { s.drop_first() } else { s };
    let value = if negative { -decimal_value(digits) } else { decimal_value(digits) };
    if digits.len() > 0 && all_digits(digits) && i64::MIN <= value <= i64::MAX {
        Some(value as i64)
    } else {
        None
    }
}

pub open spec fn digit_char(d: int) -> char {
    ((d + 48) as u32) as char
}

/// Decimal digits of a natural number, most significant first.
pub open spec fn decimal_digits(n: nat) -> Seq<char>
    decreases n,
{
    if n < 10 {
        seq![digit_char(n as int)]
    } else {
        decimal_digits(n / 10) + seq![digit_char((n % 10) as int)]
    }
}

/// The text `i64::to_string` gives for `v`.
pub open spec fn int_text(v: int) -> Seq<char> {
    if v < 0 {
        seq!['-'] + decimal_digits((-v) as nat)
    } else {
        decimal_digits(v as nat)
    }
}

// ---------------------------------------------------------------------------
// Executable functions
// ---------------------------------------------------------------------------

/// The characters of a string slice, in order.
pub fn chars_of(s: &str) -> (out: Vec<char>)
    ensures
        out@ == s@,
{
    let mut out: Vec<char> = Vec::new();
    for c in it: s.chars()
        invariant
            out@ == it.seq().take(it.index()),
    {
        out.push(c);
    }
    out
}

/// Collects characters into a `String` (`FromIterator<char>` for `String`).
#[verifier::external_body]
pub fn string_from_chars(cs: &Vec<char>) -> (s: String)
    ensures
        s@ == cs@,
{
    cs.iter().collect()
}

pub fn is_whitespace_char(c: char) -> (r: bool)
    ensures
        r == is_whitespace(c),
{
    c == '\t' || c == '\n' || c == '\u{0B}' || c == '\u{0C}' || c == '\r' || c == ' '
        || c == '\u{85}' || c == '\u{A0}' || c == '\u{1680}' || ('\u{2000}' <= c && c
        <= '\u{200A}') || c == '\u{2028}' || c == '\u{2029}' || c == '\u{202F}' || c
        == '\u{205F}' || c == '\u{3000}'
}

/// Copies `v[lo..hi]`.
pub fn copy_range(v: &Vec<char>, lo: usize, hi: usize) -> (out: Vec<char>)
    requires
        lo <= hi <= v.len(),
    ensures
        out@ == v@.subrange(lo as int, hi as int),
{
    let mut out: Vec<char> = Vec::new();
    let mut i = lo;
    while i < hi
        invariant
            lo <= i <= hi <= v.len(),
            out@ == v@.subrange(lo as int, i as int),
        decreases hi - i,
    {
        out.push(v[i]);
        i = i + 1;
        assert(out@ =~= v@.subrange(lo as int, i as int));
    }
    out
}

/// The characters of `v` without leading and trailing whitespace.
pub fn trim_chars(v: &Vec<char>) -> (out: Vec<char>)
    ensures
        out@ == trim(v@),
{
    let n = v.len();
    let mut lo: usize = 0;
    assert(v@.subrange(0, n as int) =~= v@);
    while lo < n && is_whitespace_char(v[lo])
        invariant
            lo <= n == v.len(),
            trim_start(v@) == trim_start(v@.subrange(lo as int, n as int)),
        decreases n - lo,
    {
        assert(v@.subrange(lo as int, n as int).drop_first() =~= v@.subrange(
            lo + 1,
            n as int,
        ));
        lo = lo + 1;
    }
    let ghost t = v@.subrange(lo as int, n as int);
    assert(trim_start(v@) == t);
    let mut hi: usize = n;
    while hi > lo && is_whitespace_char(v[hi - 1])
        invariant
            lo <= hi <= n == v.len(),
            t == v@.subrange(lo as int, n as int),
            trim_end(t) == trim_end(v@.subrange(lo as int, hi as int)),
        decreases hi,
    {
        assert(v@.subrange(lo as int, hi as int).drop_last() =~= v@.subrange(
            lo as int,
            hi - 1,
        ));
        hi = hi - 1;
    }
    copy_range(v, lo, hi)
}

pub fn to_lower(c: char) -> (r: char)
    ensures
        r == lower_char(c),
{
    if 'A' <= c && c <= 'Z' {
        let x: u8 = c as u8;
        (x + 32) as char
    } else {
        c
    }
}

pub fn to_upper(c: char) -> (r: char)
    ensures
        r == upper_char(c),
{
    if 'a' <= c && c <= 'z' {
        let x: u8 = c as u8;
        (x - 32) as char
    } else {
        c
    }
}

/// ASCII lower case of each character (`to_ascii_lowercase`).
pub fn lower_chars(v: &Vec<char>) -> (out: Vec<char>)
    ensures
        out@ == lower(v@),
{
    let mut out: Vec<char> = Vec::new();
    let mut i: usize = 0;
    while i < v.len()
        invariant
            i <= v.len(),
            out@ == lower(v@.subrange(0, i as int)),
        decreases v.len() - i,
    {
        out.push(to_lower(v[i]));
        i = i + 1;
        assert(out@ =~= lower(v@.subrange(0, i as int)));
    }
    assert(v@.subrange(0, v.len() as int) =~= v@);
    out
}

/// ASCII upper case of each character (`to_ascii_uppercase`).
pub fn upper_chars(v: &Vec<char>) -> (out: Vec<char>)
    ensures
        out@ == upper(v@),
{
    let mut out: Vec<char> = Vec::new();
    let mut i: usize = 0;
    while i < v.len()
        invariant
            i <= v.len(),
            out@ == upper(v@.subrange(0, i as int)),
        decreases v.len() - i,
    {
        out.push(to_upper(v[i]));
        i = i + 1;
        assert(out@ =~= upper(v@.subrange(0, i as int)));
    }
    assert(v@.subrange(0, v.len() as int) =~= v@);
    out
}

/// The trimmed, lower-cased characters of `s`.
pub fn normalize(s: &str) -> (out: Vec<char>)
    ensures
        out@ == normalized(s@),
{
    let cs = chars_of(s);
    let t = trim_chars(&cs);
    lower_chars(&t)
}

/// Whether two runs of characters are the same.
pub fn same_chars(a: &Vec<char>, b: &Vec<char>) -> (r: bool)
    ensures
        r == (a@ == b@),
{
    if a.len() != b.len() {
        return false;
    }
    let mut i: usize = 0;
    while i < a.len()
        invariant
            i <= a.len() == b.len(),
            forall|j: int| 0 <= j < i ==> a@[j] == b@[j],
        decreases a.len() - i,
    {
        if a[i] != b[i] {
            return false;
        }
        i = i + 1;
    }
    assert(a@ =~= b@);
    true
}

/// Whether the characters `a` spell the literal `lit`.
pub fn spells(a: &Vec<char>, lit: &str) -> (r: bool)
    ensures
        r == (a@ == lit@),
{
    let l = chars_of(lit);
    same_chars(a, &l)
}

/// Whether `n` occurs in `h` starting at position `i`.
pub fn occurs_at_exec(h: &Vec<char>, n: &Vec<char>, i: usize) -> (r: bool)
    requires
        i + n.len() <= h.len(),
    ensures
        r == occurs_at(h@, n@, i as int),
{
    let mut j: usize = 0;
    while j < n.len()
        invariant
            j <= n.len(),
            i + n.len() <= h.len(),
            forall|k: int| 0 <= k < j ==> h@[i + k] == n@[k],
        decreases n.len() - j,
    {
        if h[i + j] != n[j] {
            assert(h@.subrange(i as int, i + n.len())[j as int] != n@[j as int]);
            return false;
        }
        j = j + 1;
    }
    assert(h@.subrange(i as int, i + n.len()) =~= n@);
    true
}

/// `str::contains` over characters.
pub fn contains_chars(h: &Vec<char>, n: &Vec<char>) -> (r: bool)
    ensures
        r == contains(h@, n@),
{
    if n.len() > h.len() {
        return false;
    }
    let last = h.len() - n.len();
    let mut i: usize = 0;
    loop
        invariant
            i <= last,
            last + n.len() == h.len(),
            forall|k: int| 0 <= k < i ==> !occurs_at(h@, n@, k),
        ensures
            forall|k: int| 0 <= k <= last ==> !occurs_at(h@, n@, k),
        decreases last - i,
    {
        if occurs_at_exec(h, n, i) {
            return true;
        }
        if i == last {
            break;
        }
        i = i + 1;
    }
    assert forall|k: int| !occurs_at(h@, n@, k) by {
        if 0 <= k && k + n@.len() <= h@.len() {
            assert(k <= last);
        }
    }
    false
}

/// `str::starts_with` over characters.
pub fn starts_with_chars(h: &Vec<char>, n: &Vec<char>) -> (r: bool)
    ensures
        r == starts_with(h@, n@),
{
    if n.len() > h.len() {
        false
    } else {
        occurs_at_exec(h, n, 0)
    }
}

/// `str::ends_with` over characters.
pub fn ends_with_chars(h: &Vec<char>, n: &Vec<char>) -> (r: bool)
    ensures
        r == ends_with(h@, n@),
{
    if n.len() > h.len() {
        false
    } else {
        occurs_at_exec(h, n, h.len() - n.len())
    }
}

proof fn lemma_decimal_step(s: Seq<char>, i: int)
    requires
        0 <= i < s.len(),
    ensures
        decimal_value(s.take(i + 1)) == decimal_value(s.take(i)) * 10 + digit_value(s[i]),
{
    assert(s.take(i + 1).drop_last() =~= s.take(i));
}

proof fn lemma_decimal_monotone(s: Seq<char>, i: int)
    requires
        0 <= i <= s.len(),
        all_digits(s),
    ensures
        0 <= decimal_value(s.take(i)) <= decimal_value(s),
    decreases s.len() - i,
{
    if i < s.len() {
        lemma_decimal_step(s, i);
        lemma_decimal_nonneg(s.take(i));
        lemma_decimal_monotone(s, i + 1);
    } else {
        assert(s.take(i) =~= s);
        lemma_decimal_nonneg(s);
    }
}

proof fn lemma_decimal_nonneg(s: Seq<char>)
    requires
        all_digits(s),
    ensures
        decimal_value(s) >= 0,
    decreases s.len(),
{
    if s.len() > 0 {
        assert(is_digit(s[s.len() - 1]));
        lemma_decimal_nonneg(s.drop_last());
    }
}

/// `str::parse::<i64>` over characters: `None` where it returns an error.
pub fn parse_i64_chars(s: &Vec<char>) -> (r: Option<i64>)
    ensures
        r == parse_i64_spec(s@),
{
    let n = s.len();
    if n == 0 {
        return None;
    }
    let negative = s[0] == '-';
    let signed = s[0] == '-' || s[0] == '+';
    let start: usize = if signed { 1 } else { 0 };
    let ghost digits = if signed { s@.drop_first() } else { s@ };
    assert(digits =~= s@.subrange(start as int, n as int));
    if start == n {
        return None;
    }
    // The magnitude, kept while it stays at most 2^63.
    let mut acc: u64 = 0;
    let mut i: usize = start;
    while i < n
        invariant
            start <= i <= n == s.len(),
            start < n,
            digits == s@.subrange(start as int, n as int),
            digits == (if s@.len() > 0 && (s@[0] == '-' || s@[0] == '+') { s@.drop_first() } else { s@ }),
            negative == (s@.len() > 0 && s@[0] == '-'),
            all_digits(digits.take(i - start)),
            acc == decimal_value(digits.take(i - start)),
            acc <= 0x8000_0000_0000_0000u64,
        decreases n - i,
    {
        let c = s[i];
        if !('0' <= c && c <= '9') {
            assert(digits[i - start] == c);
            assert(!is_digit(digits[i - start]));
            assert(!all_digits(digits));
            return None;
        }
        let d: u64 = (c as u32 - '0' as u32) as u64;
        proof {
            lemma_decimal_step(digits, i - start);
            assert(digits.take(i - start + 1) =~= digits.take(i - start).push(c));
        }
        if acc > 922_337_203_685_477_580u64 || (acc == 922_337_203_685_477_580u64 && d > 8) {
            // The magnitude already exceeds 2^63, so no sign makes it fit.
            proof {
                let k = i - start + 1;
                let rest_ok = all_digits(digits);
                if rest_ok {
                    lemma_decimal_monotone(digits, k);
                    assert(decimal_value(digits.take(k)) == acc * 10 + d);
                    assert(decimal_value(digits) > 0x8000_0000_0000_0000);
                }
            }
            return None;
        }
        acc = acc * 10 + d;
        i = i + 1;
    }
    assert(digits.take(n - start) =~= digits);
    if negative {
        if acc == 0x8000_0000_0000_0000u64 {
            Some(i64::MIN)
        } else {
            Some(-(acc as i64))
        }
    } else {
        if acc > 0x7fff_ffff_ffff_ffffu64 {
            None
        } else {
            Some(acc as i64)
        }
    }
}

proof fn lemma_decimal_digits_len(n: nat)
    ensures
        decimal_digits(n).len() >= 1,
    decreases n,
{
    if n >= 10 {
        lemma_decimal_digits_len(n / 10);
    }
}

/// The decimal digits of `n`, most significant first.
pub fn digits_of(n: u64) -> (out: Vec<char>)
    ensures
        out@ == decimal_digits(n as nat),
    decreases n,
{
    if n < 10 {
        let c = ((n as u8) + 48) as char;
        let mut out: Vec<char> = Vec::new();
        out.push(c);
        assert(out@ =~= seq![digit_char(n as int)]);
        out
    } else {
        let mut out = digits_of(n / 10);
        let c = (((n % 10) as u8) + 48) as char;
        out.push(c);
        assert(out@ =~= decimal_digits((n / 10) as nat) + seq![digit_char((n % 10) as int)]);
        out
    }
}

/// The text `i64::to_string` gives.
pub fn int_to_text(v: i64) -> (out: Vec<char>)
    ensures
        out@ == int_text(v as int),
{
    if v < 0 {
        let mag: u64 = if v == i64::MIN {
            0x8000_0000_0000_0000u64
        } else {
            (-v) as u64
        };
        let ds = digits_of(mag);
        let mut out: Vec<char> = Vec::new();
        out.push('-');
        let mut i: usize = 0;
        while i < ds.len()
            invariant
                i <= ds.len(),
                out@ == seq!['-'] + ds@.subrange(0, i as int),
            decreases ds.len() - i,
        {
            out.push(ds[i]);
            i = i + 1;
            assert(out@ =~= seq!['-'] + ds@.subrange(0, i as int));
        }
        assert(ds@.subrange(0, ds.len() as int) =~= ds@);
        out
    } else {
        digits_of(v as u64)
    }
}

pub proof fn lemma_decimal_digits_read_back(n: nat)
    ensures
        decimal_digits(n).len() >= 1,
        all_digits(decimal_digits(n)),
        decimal_value(decimal_digits(n)) == n,
    decreases n,
{
    let d = decimal_digits(n);
    if n < 10 {
        assert(d.drop_last() =~= Seq::<char>::empty());
        assert(decimal_value(d.drop_last()) == 0);
        assert(d.last() == digit_char(n as int));
        assert(digit_value(digit_char(n as int)) == n);
        assert(decimal_value(d) == decimal_value(d.drop_last()) * 10 + digit_value(d.last()));
    } else {
        lemma_decimal_digits_read_back(n / 10);
        let head = decimal_digits(n / 10);
        assert(d.drop_last() =~= head);
        assert(digit_value(digit_char((n % 10) as int)) == n % 10);
        assert(d.last() == digit_char((n % 10) as int));
        assert(decimal_value(d) == decimal_value(head) * 10 + digit_value(d.last()));
        assert((n / 10) * 10 + n % 10 == n);
        assert forall|i: int| 0 <= i < d.len() implies is_digit(#[trigger] d[i]) by {
            if i < head.len() {
                assert(d[i] == head[i]);
            }
        }
    }
}

/// Every character of `s` is whitespace.
pub open spec fn all_whitespace(s: Seq<char>) -> bool {
    forall|i: int| 0 <= i < s.len() ==> is_whitespace(#[trigger] s[i])
}

proof fn lemma_lower_char_whitespace(c: char)
    ensures
        is_whitespace(lower_char(c)) == is_whitespace(c),
{
}

proof fn lemma_trim_start_skips(pre: Seq<char>, x: Seq<char>)
    requires
        all_whitespace(pre),
    ensures
        trim_start(pre + x) == trim_start(x),
    decreases pre.len(),
{
    if pre.len() == 0 {
        assert(pre + x =~= x);
    } else {
        assert((pre + x)[0] == pre[0]);
        assert((pre + x).drop_first() =~= pre.drop_first() + x);
        lemma_trim_start_skips(pre.drop_first(), x);
    }
}

proof fn lemma_trim_end_skips(x: Seq<char>, post: Seq<char>)
    requires
        all_whitespace(post),
    ensures
        trim_end(x + post) == trim_end(x),
    decreases post.len(),
{
    if post.len() == 0 {
        assert(x + post =~= x);
    } else {
        assert((x + post).last() == post.last());
        assert((x + post).drop_last() =~= x + post.drop_last());
        lemma_trim_end_skips(x, post.drop_last());
    }
}

proof fn lemma_trim_start_append(y: Seq<char>, post: Seq<char>)
    requires
        all_whitespace(post),
    ensures
        trim_start(y + post) == (if trim_start(y).len() > 0 {
            trim_start(y) + post
        } else {
            Seq::<char>::empty()
        }),
    decreases y.len(),
{
    if y.len() == 0 {
        assert(y + post =~= post + Seq::<char>::empty());
        lemma_trim_start_skips(post, Seq::<char>::empty());
    } else if is_whitespace(y[0]) {
        assert((y + post)[0] == y[0]);
        assert((y + post).drop_first() =~= y.drop_first() + post);
        lemma_trim_start_append(y.drop_first(), post);
    } else {
        assert((y + post)[0] == y[0]);
    }
}

/// Whitespace before and after `y` does not change its trimmed form.
pub proof fn lemma_trim_padding(pre: Seq<char>, y: Seq<char>, post: Seq<char>)
    requires
        all_whitespace(pre),
        all_whitespace(post),
    ensures
        trim(pre + y + post) == trim(y),
{
    assert(pre + y + post =~= pre + (y + post));
    lemma_trim_start_skips(pre, y + post);
    lemma_trim_start_append(y, post);
    if trim_start(y).len() > 0 {
        lemma_trim_end_skips(trim_start(y), post);
    } else {
        assert(trim_start(y) =~= Seq::<char>::empty());
    }
}

proof fn lemma_trim_start_lower(x: Seq<char>)
    ensures
        trim_start(lower(x)) == lower(trim_start(x)),
    decreases x.len(),
{
    if x.len() > 0 {
        lemma_lower_char_whitespace(x[0]);
        assert(lower(x)[0] == lower_char(x[0]));
        if is_whitespace(x[0]) {
            assert(lower(x).drop_first() =~= lower(x.drop_first()));
            lemma_trim_start_lower(x.drop_first());
        }
    } else {
        assert(lower(x) =~= x);
    }
}

proof fn lemma_trim_end_lower(x: Seq<char>)
    ensures
        trim_end(lower(x)) == lower(trim_end(x)),
    decreases x.len(),
{
    if x.len() > 0 {
        lemma_lower_char_whitespace(x.last());
        assert(lower(x).last() == lower_char(x.last()));
        if is_whitespace(x.last()) {
            assert(lower(x).drop_last() =~= lower(x.drop_last()));
            lemma_trim_end_lower(x.drop_last());
        }
    } else {
        assert(lower(x) =~= x);
    }
}

/// Lower-casing and trimming may be done in either order.
pub proof fn lemma_lower_trim(x: Seq<char>)
    ensures
        lower(trim(x)) == trim(lower(x)),
{
    lemma_trim_start_lower(x);
    lemma_trim_end_lower(trim_start(x));
}

/// Two names that differ only in ASCII letter case and in whitespace around
/// them have the same normalized form.
pub proof fn lemma_normalized_ignores_case_and_padding(
    s: Seq<char>,
    t: Seq<char>,
    pre: Seq<char>,
    post: Seq<char>,
)
    requires
        lower(t) == lower(s),
        all_whitespace(pre),
        all_whitespace(post),
    ensures
        normalized(pre + t + post) == normalized(s),
{
    let whole = pre + t + post;
    lemma_lower_trim(whole);
    lemma_lower_trim(s);
    assert(lower(whole) =~= lower(pre) + lower(t) + lower(post));
    assert forall|i: int| 0 <= i < lower(pre).len() implies is_whitespace(#[trigger] lower(pre)[i]) by {
        lemma_lower_char_whitespace(pre[i]);
    }
    assert forall|i: int| 0 <= i < lower(post).len() implies is_whitespace(#[trigger] lower(post)[i]) by {
        lemma_lower_char_whitespace(post[i]);
    }
    lemma_trim_padding(lower(pre), lower(t), lower(post));
}

/// The text of an integer reads back as that integer.
pub proof fn law_integer_text_reads_back(v: i64)
    ensures
        parse_i64_spec(int_text(v as int)) == Some(v),
{
    let s = int_text(v as int);
    if v < 0 {
        let d = decimal_digits((-v) as nat);
        lemma_decimal_digits_read_back((-v) as nat);
        assert(s.drop_first() =~= d);
    } else {
        lemma_decimal_digits_read_back(v as nat);
    }
}


proof fn lemma_trim_start_shape(s: Seq<char>) -> (a: int)
    ensures
        0 <= a <= s.len(),
        trim_start(s) == s.subrange(a, s.len() as int),
        forall|i: int| 0 <= i < a ==> is_whitespace(#[trigger] s[i]),
        a < s.len() ==> !is_whitespace(s[a]),
    decreases s.len(),
{
    if s.len() > 0 && is_whitespace(s[0]) {
        let t = s.drop_first();
        let a1 = lemma_trim_start_shape(t);
        assert(t.subrange(a1, t.len() as int) =~= s.subrange(a1 + 1, s.len() as int));
        assert forall|i: int| 0 <= i < a1 + 1 implies is_whitespace(#[trigger] s[i]) by {
            if i > 0 {
                assert(s[i] == t[i - 1]);
            }
        }
        assert(a1 + 1 < s.len() ==> s[a1 + 1] == t[a1]);
        a1 + 1
    } else {
        assert(s.subrange(0, s.len() as int) =~= s);
        0
    }
}

proof fn lemma_trim_end_shape(s: Seq<char>) -> (b: int)
    ensures
        0 <= b <= s.len(),
        trim_end(s) == s.subrange(0, b),
        forall|i: int| b <= i < s.len() ==> is_whitespace(#[trigger] s[i]),
        b > 0 ==> !is_whitespace(s[b - 1]),
    decreases s.len(),
{
    if s.len() > 0 && is_whitespace(s.last()) {
        let t = s.drop_last();
        let b1 = lemma_trim_end_shape(t);
        assert(t.subrange(0, b1) =~= s.subrange(0, b1));
        assert forall|i: int| b1 <= i < s.len() implies is_whitespace(#[trigger] s[i]) by {
            if i < s.len() - 1 {
                assert(s[i] == t[i]);
            }
        }
        assert(b1 > 0 ==> s[b1 - 1] == t[b1 - 1]);
        b1
    } else {
        assert(s.subrange(0, s.len() as int) =~= s);
        s.len() as int
    }
}

/// Trimming removes exactly the whitespace at both ends: what is left is a
/// contiguous part of the text, everything before and after it is
/// whitespace, and (where anything is left) it neither starts nor ends with
/// whitespace.
pub proof fn law_trim_strips_whitespace(s: Seq<char>)
    ensures
        exists|a: int, b: int|
            0 <= a <= b <= s.len() && trim(s) == #[trigger] s.subrange(a, b) && (forall|i: int|
                0 <= i < a ==> is_whitespace(#[trigger] s[i])) && (forall|i: int|
                b <= i < s.len() ==> is_whitespace(#[trigger] s[i])) && (a < b ==> !is_whitespace(s[a])
                && !is_whitespace(s[b - 1])),
{
    let a = lemma_trim_start_shape(s);
    let t = s.subrange(a, s.len() as int);
    let b1 = lemma_trim_end_shape(t);
    let b = a + b1;
    assert(t.subrange(0, b1) =~= s.subrange(a, b));
    assert forall|i: int| b <= i < s.len() implies is_whitespace(#[trigger] s[i]) by {
        assert(s[i] == t[i - a]);
    }
    if a < b {
        assert(t[0] == s[a]);
        assert(t[b1 - 1] == s[b - 1]);
    }
    assert(0 <= a <= b <= s.len() && trim(s) == s.subrange(a, b));
}


/// Lower-casing keeps the length and every character but the ASCII capitals,
/// each of which becomes its small letter (32 code points further on).
pub proof fn law_lower_maps_capitals(s: Seq<char>)
    ensures
        lower(s).len() == s.len(),
        forall|i: int|
            0 <= i < s.len() && 'A' <= #[trigger] s[i] <= 'Z' ==> lower(s)[i] as u32 == s[i] as u32 + 32,
        forall|i: int| 0 <= i < s.len() && !('A' <= #[trigger] s[i] <= 'Z') ==> lower(s)[i] == s[i],
{
}

/// What reads as an integer: an optional sign followed by one or more
/// decimal digits, and nothing else; a leading `+` and leading zeros do not
/// change the value.
pub proof fn law_integer_syntax(s: Seq<char>, v: i64)
    ensures
        parse_i64_spec(s) is Some ==> s.len() > 0 && forall|i: int|
            0 <= i < s.len() && !(i == 0 && (s[0] == '-' || s[0] == '+')) ==> is_digit(#[trigger] s[i]),
        v >= 0 ==> parse_i64_spec(seq!['+'] + int_text(v as int)) == Some(v),
        v >= 0 ==> parse_i64_spec(seq!['0'] + int_text(v as int)) == Some(v),
{
    if parse_i64_spec(s) is Some {
        let signed = s[0] == '-' || s[0] == '+';
        let digits = if signed { s.drop_first() } else { s };
        assert forall|i: int|
            0 <= i < s.len() && !(i == 0 && (s[0] == '-' || s[0] == '+')) implies is_digit(#[trigger] s[i]) by {
            if signed {
                assert(s[i] == digits[i - 1]);
            } else {
                assert(s[i] == digits[i]);
            }
        }
    }
    if v >= 0 {
        let d = int_text(v as int);
        lemma_decimal_digits_read_back(v as nat);
        let p = seq!['+'] + d;
        assert(p.drop_first() =~= d);
        let z = seq!['0'] + d;
        lemma_decimal_prepend_zero(d);
        assert(all_digits(z)) by {
            assert forall|i: int| 0 <= i < z.len() implies is_digit(#[trigger] z[i]) by {
                if i > 0 {
                    assert(z[i] == d[i - 1]);
                }
            }
        }
    }
}

proof fn lemma_decimal_prepend_zero(d: Seq<char>)
    ensures
        decimal_value(seq!['0'] + d) == decimal_value(d),
    decreases d.len(),
{
    let z = seq!['0'] + d;
    if d.len() == 0 {
        assert(z.drop_last() =~= Seq::<char>::empty());
        assert(z.last() == '0');
        assert(decimal_value(z.drop_last()) == 0);
        assert(decimal_value(z) == decimal_value(z.drop_last()) * 10 + digit_value(z.last()));
    } else {
        assert(z.drop_last() =~= seq!['0'] + d.drop_last());
        assert(z.last() == d.last());
        lemma_decimal_prepend_zero(d.drop_last());
        assert(decimal_value(z) == decimal_value(z.drop_last()) * 10 + digit_value(z.last()));
        assert(decimal_value(d) == decimal_value(d.drop_last()) * 10 + digit_value(d.last()));
    }
}


/// Upper-casing keeps the length and every character but the ASCII small
/// letters, each of which becomes its capital (32 code points back).
pub proof fn law_upper_maps_smalls(s: Seq<char>)
    ensures
        upper(s).len() == s.len(),
        forall|i: int|
            0 <= i < s.len() && 'a' <= #[trigger] s[i] <= 'z' ==> upper(s)[i] as u32 + 32 == s[i] as u32,
        forall|i: int| 0 <= i < s.len() && !('a' <= #[trigger] s[i] <= 'z') ==> upper(s)[i] == s[i],
{
}

/// The whitespace that trimming removes is Unicode's `White_Space`: the
/// ASCII tab, line feed, vertical tab, form feed, carriage return and space,
/// next line, no-break space, Ogham space mark, the spaces from en quad to
/// hair space, line and paragraph separators, narrow no-break space, medium
/// mathematical space and ideographic space; no letter, digit or sign is
/// whitespace.
pub proof fn law_whitespace_chars(c: char)
    ensures
        is_whitespace(c) <==> (c == '\t' || c == '\n' || c == '\u{0B}' || c == '\u{0C}' || c == '\r'
            || c == ' ' || c == '\u{85}' || c == '\u{A0}' || c == '\u{1680}' || ('\u{2000}' <= c
            && c <= '\u{200A}') || c == '\u{2028}' || c == '\u{2029}' || c == '\u{202F}' || c
            == '\u{205F}' || c == '\u{3000}'),
        ('a' <= c <= 'z' || 'A' <= c <= 'Z' || '0' <= c <= '9' || c == '_' || c == '-' || c == '+')
            ==> !is_whitespace(c),
{
}

} // verus!
