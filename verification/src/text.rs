//! Verified text-level helpers: the lexical grammars of signed 64-bit
//! integers, IEEE-754 double literals and booleans, decimal rendering, and
//! the comma splitting and whitespace trimming used for a log's feature list.

use vstd::prelude::*;

verus! {

broadcast use vstd::seq::group_seq_axioms, vstd::std_specs::vec::group_vec_axioms;

// ---------------------------------------------------------------------------
// Trusted bridges to std's string handling.
// ---------------------------------------------------------------------------
/// Relies on `str`'s `PartialEq`: two string slices are equal exactly when
/// they consist of the same characters in the same order.
#[verifier::external_body]
pub fn str_eq(a: &str, b: &str) -> (r: bool)
    ensures
        r == (a@ == b@),
{
    a == b
}

/// Relies on `str::chars`: it yields the characters of the string in order.
#[verifier::external_body]
pub fn chars_vec(s: &str) -> (r: Vec<char>)
    ensures
        r@ == s@,
{
    s.chars().collect()
}

/// Relies on `String`'s `FromIterator<char>`: collecting characters builds
/// the string holding exactly those characters in order.
#[verifier::external_body]
pub fn string_from_chars(v: &Vec<char>) -> (r: String)
    ensures
        r@ == v@,
{
    v.iter().collect()
}

// ---------------------------------------------------------------------------
// Character classes.
// ---------------------------------------------------------------------------
/// The Unicode `White_Space` characters, the class `str::trim` removes.
pub open spec fn is_space(c: char) -> bool {
    let u = c as u32;
    (0x9 <= u && u <= 0xD) || u == 0x20 || u == 0x85 || u == 0xA0 || u == 0x1680 || (0x2000 <= u
        && u <= 0x200A) || u == 0x2028 || u == 0x2029 || u == 0x202F || u == 0x205F || u == 0x3000
}

/// Decimal digit.
pub open spec fn is_digit(c: char) -> bool {
    0x30 <= c as u32 && c as u32 <= 0x39
}

/// Numeric value of a decimal digit.
pub open spec fn digit_val(c: char) -> int {
    c as u32 - 0x30
}

/// The character for a digit value below ten.
pub open spec fn digit_char(d: int) -> char {
    ((0x30 + d) as u8) as char
}

pub fn exec_is_space(c: char) -> (r: bool)
    ensures
        r == is_space(c),
{
    let u = c as u32;
    (0x9 <= u && u <= 0xD) || u == 0x20 || u == 0x85 || u == 0xA0 || u == 0x1680 || (0x2000 <= u
        && u <= 0x200A) || u == 0x2028 || u == 0x2029 || u == 0x202F || u == 0x205F || u == 0x3000
}

pub fn exec_is_digit(c: char) -> (r: bool)
    ensures
        r == is_digit(c),
{
    let u = c as u32;
    0x30 <= u && u <= 0x39
}

// ---------------------------------------------------------------------------
// Signed 64-bit integers: Rust's lexical grammar, parsing and rendering.
// ---------------------------------------------------------------------------
/// The input with one leading `+` or `-` removed, if present.
pub open spec fn strip_sign(s: Seq<char>) -> Seq<char> {
    if s.len() > 0 && (s[0] == '+' || s[0] == '-') {
        s.drop_first()
    } else {
        s
    }
}

/// Whether the input starts with a `-`.
pub open spec fn has_minus(s: Seq<char>) -> bool {
    s.len() > 0 && s[0] == '-'
}

pub open spec fn all_digits(s: Seq<char>) -> bool {
    forall|i: int| 0 <= i < s.len() ==> is_digit(#[trigger] s[i])
}

/// Value of a digit string read in base ten.
pub open spec fn digits_val(s: Seq<char>) -> int
    decreases s.len(),
{
    if s.len() == 0 {
        0
    } else {
        digits_val(s.drop_last()) * 10 + digit_val(s.last())
    }
}

/// What `str::parse::<i64>` returns: an optional sign, then one or more
/// digits, with the value within the range of `i64`.
pub open spec fn parse_i64_spec(s: Seq<char>) -> Option<i64> {
    let t = strip_sign(s);
    if t.len() == 0 || !all_digits(t) {
        None
    } else if has_minus(s) {
        if digits_val(t) <= 0x8000_0000_0000_0000 {
            Some((-digits_val(t)) as i64)
        } else {
            None
        }
    } else {
        if digits_val(t) <= 0x7FFF_FFFF_FFFF_FFFF {
            Some(digits_val(t) as i64)
        } else {
            None
        }
    }
}

/// A digit string is nonnegative.
proof fn lemma_digits_val_nonneg(s: Seq<char>)
    requires
        all_digits(s),
    ensures
        digits_val(s) >= 0,
    decreases s.len(),
{
    if s.len() > 0 {
        assert(all_digits(s.drop_last())) by {
            assert(forall|i: int|
                0 <= i < s.len() - 1 ==> #[trigger] s.drop_last()[i] == s[i]);
        }
        lemma_digits_val_nonneg(s.drop_last());
        assert(is_digit(s.last()));
    }
}

/// Appending digits never decreases the value.
proof fn lemma_digits_val_prefix(s: Seq<char>, i: int, j: int)
    requires
        all_digits(s),
        0 <= i <= j <= s.len(),
    ensures
        digits_val(s.take(i)) <= digits_val(s.take(j)),
    decreases j - i,
{
    if i < j {
        lemma_digits_val_prefix(s, i, j - 1);
        let p = s.take(j);
        assert(p.drop_last() =~= s.take(j - 1));
        assert(all_digits(s.take(j - 1))) by {
            assert(forall|k: int|
                0 <= k < j - 1 ==> #[trigger] s.take(j - 1)[k] == s[k]);
        }
        lemma_digits_val_nonneg(s.take(j - 1));
        assert(is_digit(p.last()));
        assert(digits_val(p) == digits_val(s.take(j - 1)) * 10 + digit_val(p.last()));
        assert(digits_val(s.take(j - 1)) * 10 >= digits_val(s.take(j - 1))) by (nonlinear_arith)
            requires
                digits_val(s.take(j - 1)) >= 0,
        ;
    }
}

/// `m * 10 + d` exceeds `limit` exactly when `m` exceeds `(limit - d) / 10`.
proof fn lemma_append_digit_bound(m: int, d: int, limit: int)
    requires
        0 <= d <= 9,
        d <= limit,
        0 <= m,
    ensures
        m * 10 + d > limit <==> m > (limit - d) / 10,
{
    let q = (limit - d) / 10;
    let r = (limit - d) % 10;
    vstd::arithmetic::div_mod::lemma_fundamental_div_mod(limit - d, 10);
    assert(limit - d == 10 * q + r);
    if m > q {
        assert(m * 10 >= (q + 1) * 10) by (nonlinear_arith)
            requires
                m >= q + 1,
        ;
    } else {
        assert(m * 10 <= q * 10) by (nonlinear_arith)
            requires
                m <= q,
        ;
    }
}

/// Parses a signed decimal integer exactly as `str::parse::<i64>` does.
pub fn parse_i64(s: &str) -> (r: Option<i64>)
    ensures
        r == parse_i64_spec(s@),
{
    let v = chars_vec(s);
    let n = v.len();
    let mut start: usize = 0;
    let mut neg = false;
    if n > 0 && (v[0] == '+' || v[0] == '-') {
        start = 1;
        neg = v[0] == '-';
    }
    let ghost t = strip_sign(s@);
    proof {
        assert(t =~= s@.skip(start as int));
    }
    if start == n {
        return None;
    }
    let limit: u64 = if neg {
        0x8000_0000_0000_0000
    } else {
        0x7FFF_FFFF_FFFF_FFFF
    };
    let mut mag: u64 = 0;
    let mut i: usize = start;
    while i < n
        invariant
            start <= i <= n,
            n == v.len(),
            v@ == s@,
            start < n,
            t == s@.skip(start as int),
            t == strip_sign(s@),
            limit == if neg {
                0x8000_0000_0000_0000u64
            } else {
                0x7FFF_FFFF_FFFF_FFFFu64
            },
            neg == has_minus(s@) && start == 1 || !neg && (s@.len() == 0 || s@[0] != '-'),
            start == 1 ==> s@.len() > 0 && (s@[0] == '+' || s@[0] == '-'),
            start == 0 ==> s@.len() == 0 || !(s@[0] == '+' || s@[0] == '-'),
            all_digits(t.take(i - start)),
            mag == digits_val(t.take(i - start)),
            mag <= limit,
        decreases n - i,
    {
        let c = v[i];
        if !exec_is_digit(c) {
            proof {
                assert(t[i - start] == s@[i as int]);
                assert(!is_digit(t[i - start]));
                assert(!all_digits(t));
            }
            return None;
        }
        let d: u64 = (c as u32 - 0x30) as u64;
        proof {
            assert(t.take(i + 1 - start).drop_last() =~= t.take(i - start));
            assert(t.take(i + 1 - start).last() == t[i - start] == s@[i as int]);
            lemma_append_digit_bound(mag as int, d as int, limit as int);
        }
        if mag > (limit - d) / 10 {
            // The value of this prefix already exceeds the range; appending
            // further digits cannot bring it back.
            proof {
                assert(all_digits(t.take(i + 1 - start)));
                assert(digits_val(t.take(i + 1 - start)) > limit);
            }
            if all_digits_from(&v, i + 1) {
                proof {
                    assert forall|k: int| 0 <= k < t.len() implies is_digit(#[trigger] t[k]) by {
                        assert(t[k] == s@[k + start]);
                        if k + start < i + 1 {
                            assert(is_digit(t.take(i + 1 - start)[k]));
                        }
                    }
                    lemma_digits_val_prefix(t, i + 1 - start, t.len() as int);
                    assert(t.take(t.len() as int) =~= t);
                    assert(digits_val(t) > limit);
                }
                return None;
            } else {
                proof {
                    let k = choose|k: int|
                        i + 1 <= k < s@.len() && !is_digit(#[trigger] s@[k]);
                    assert(t[k - start] == s@[k]);
                    assert(!all_digits(t));
                }
                return None;
            }
        }
        mag = mag * 10 + d;
        proof {
            assert(all_digits(t.take(i + 1 - start)));
            assert(mag == digits_val(t.take(i + 1 - start)));
        }
        i = i + 1;
    }
    proof {
        assert(t.take(i - start) =~= t);
        assert(all_digits(t));
        lemma_digits_val_nonneg(t);
    }
    if neg {
        if mag == 0x8000_0000_0000_0000 {
            Some(i64::MIN)
        } else {
            Some(-(mag as i64))
        }
    } else {
        Some(mag as i64)
    }
}

/// Whether every character at or after `from` is a digit.
fn all_digits_from(v: &Vec<char>, from: usize) -> (r: bool)
    requires
        from <= v.len(),
    ensures
        r == forall|k: int| from <= k < v@.len() ==> is_digit(#[trigger] v@[k]),
{
    let mut i: usize = from;
    while i < v.len()
        invariant
            from <= i <= v.len(),
            forall|k: int| from <= k < i ==> is_digit(#[trigger] v@[k]),
        decreases v.len() - i,
    {
        if !exec_is_digit(v[i]) {
            return false;
        }
        i = i + 1;
    }
    true
}

/// The decimal digits of a nonnegative number, most significant first.
pub open spec fn dec_str(n: int) -> Seq<char>
    decreases n,
{
    if n < 10 {
        seq![digit_char(if n < 0 { 0 } else { n })]
    } else {
        dec_str(n / 10).push(digit_char(n % 10))
    }
}

/// What `i64::to_string` returns: a minus sign for negative values, then the
/// decimal digits of the magnitude without leading zeros.
pub open spec fn render_i64_spec(v: i64) -> Seq<char> {
    if v < 0 {
        seq!['-'] + dec_str(-(v as int))
    } else {
        dec_str(v as int)
    }
}

/// Appends the decimal digits of `n` to `out`.
fn push_dec(n: u64, out: &mut Vec<char>)
    ensures
        final(out)@ == old(out)@ + dec_str(n as int),
    decreases n,
{
    if n < 10 {
        let c = (0x30u8 + (n as u8)) as char;
        out.push(c);
        proof {
            assert(c == digit_char(n as int));
            assert(final(out)@ =~= old(out)@ + dec_str(n as int));
        }
    } else {
        push_dec(n / 10, out);
        let c = (0x30u8 + ((n % 10) as u8)) as char;
        out.push(c);
        proof {
            assert(c == digit_char(n as int % 10));
            assert(final(out)@ =~= old(out)@ + dec_str(n as int));
        }
    }
}

/// Renders a signed 64-bit integer in decimal, as `i64::to_string` does.
pub fn render_i64(v: i64) -> (r: String)
    ensures
        r@ == render_i64_spec(v),
{
    let mut out: Vec<char> = Vec::new();
    let mag: u64 = if v < 0 {
        out.push('-');
        (-(v as i128)) as u64
    } else {
        v as u64
    };
    push_dec(mag, &mut out);
    proof {
        if v < 0 {
            assert(out@ =~= seq!['-'] + dec_str(-(v as int)));
        }
    }
    string_from_chars(&out)
}

// ---------------------------------------------------------------------------
// Booleans.
// ---------------------------------------------------------------------------
/// What `str::parse::<bool>` returns: exactly `true` or `false`.
pub open spec fn parse_bool_spec(s: Seq<char>) -> Option<bool> {
    if s == "true"@ {
        Some(true)
    } else if s == "false"@ {
        Some(false)
    } else {
        None
    }
}

pub fn parse_bool(s: &str) -> (r: Option<bool>)
    ensures
        r == parse_bool_spec(s@),
{
    if str_eq(s, "true") {
        Some(true)
    } else if str_eq(s, "false") {
        Some(false)
    } else {
        None
    }
}

/// The textual form of a boolean.
pub open spec fn render_bool_spec(b: bool) -> Seq<char> {
    if b {
        "true"@
    } else {
        "false"@
    }
}

pub fn render_bool(b: bool) -> (r: String)
    ensures
        r@ == render_bool_spec(b),
{
    if b {
        String::from_str("true")
    } else {
        String::from_str("false")
    }
}

// ---------------------------------------------------------------------------
// The lexical grammar of IEEE-754 double literals, as `str::parse::<f64>`
// accepts them: an optional sign, then `inf`, `infinity` or `nan` ignoring
// ASCII case, or digits with at most one dot and an optional exponent.
// ---------------------------------------------------------------------------
/// Case-insensitive ASCII comparison against a lowercase reference word.
pub open spec fn eq_ignore_ascii_case(a: Seq<char>, b: Seq<char>) -> bool {
    a.len() == b.len() && forall|i: int|
        0 <= i < a.len() ==> char_eq_lower(#[trigger] a[i], b[i])
}

/// Whether `a` equals the lowercase letter `b`, ignoring ASCII case of `a`.
pub open spec fn char_eq_lower(a: char, b: char) -> bool {
    a as u32 == b as u32 || (0x41 <= a as u32 && a as u32 <= 0x5A && a as u32 + 0x20 == b as u32)
}

/// First index holding `a` or `b`, or a negative value if there is none.
pub open spec fn first_index_match(s: Seq<char>, a: char, b: char) -> int
    decreases s.len(),
{
    if s.len() == 0 {
        -1
    } else if s[0] == a || s[0] == b {
        0
    } else {
        let r = first_index_match(s.drop_first(), a, b);
        if r < 0 {
            -1
        } else {
            r + 1
        }
    }
}

/// Characterization of `first_index_match`.
pub proof fn lemma_first_index_match(s: Seq<char>, a: char, b: char)
    ensures
        first_index_match(s, a, b) < 0 ==> forall|k: int|
            0 <= k < s.len() ==> !(#[trigger] s[k] == a || s[k] == b),
        first_index_match(s, a, b) >= 0 ==> {
            let r = first_index_match(s, a, b);
            &&& r < s.len()
            &&& (s[r] == a || s[r] == b)
            &&& forall|k: int| 0 <= k < r ==> !(#[trigger] s[k] == a || s[k] == b)
        },
    decreases s.len(),
{
    if s.len() > 0 && !(s[0] == a || s[0] == b) {
        lemma_first_index_match(s.drop_first(), a, b);
        assert(forall|k: int|
            1 <= k < s.len() ==> #[trigger] s[k] == s.drop_first()[k - 1]);
    }
}

/// Occurrences of `c` in `s`.
pub open spec fn count_char(s: Seq<char>, c: char) -> int
    decreases s.len(),
{
    if s.len() == 0 {
        0
    } else {
        count_char(s.drop_last(), c) + if s.last() == c {
            1int
        } else {
            0int
        }
    }
}

pub open spec fn has_digit(s: Seq<char>) -> bool {
    exists|i: int| 0 <= i < s.len() && is_digit(#[trigger] s[i])
}

/// Digits with at most one dot and at least one digit, such as `12`, `1.`,
/// `.5` or `3.25`.
pub open spec fn is_mantissa(m: Seq<char>) -> bool {
    &&& m.len() > 0
    &&& forall|i: int| 0 <= i < m.len() ==> is_digit(#[trigger] m[i]) || m[i] == '.'
    &&& count_char(m, '.') <= 1
    &&& has_digit(m)
}

/// An exponent body: an optional sign, then one or more digits.
pub open spec fn is_exponent(x: Seq<char>) -> bool {
    strip_sign(x).len() > 0 && all_digits(strip_sign(x))
}

/// A double literal with its sign already removed.
pub open spec fn is_unsigned_double(t: Seq<char>) -> bool {
    ||| eq_ignore_ascii_case(t, "inf"@)
    ||| eq_ignore_ascii_case(t, "infinity"@)
    ||| eq_ignore_ascii_case(t, "nan"@)
    ||| {
        let e = first_index_match(t, 'e', 'E');
        if e < 0 {
            is_mantissa(t)
        } else {
            is_mantissa(t.take(e)) && is_exponent(t.skip(e + 1))
        }
    }
}

/// What `str::parse::<f64>` accepts.
pub open spec fn is_double_lexeme(s: Seq<char>) -> bool {
    is_unsigned_double(strip_sign(s))
}

/// Case-insensitive comparison of `v` from `start` on against `lit`.
fn eq_ic_from(v: &Vec<char>, start: usize, lit: &Vec<char>) -> (r: bool)
    requires
        start <= v.len(),
    ensures
        r == eq_ignore_ascii_case(v@.skip(start as int), lit@),
{
    let t_len = v.len() - start;
    if t_len != lit.len() {
        return false;
    }
    let mut i: usize = 0;
    while i < t_len
        invariant
            start <= v.len(),
            t_len == v.len() - start,
            t_len == lit.len(),
            0 <= i <= t_len,
            forall|k: int| 0 <= k < i ==> char_eq_lower(#[trigger] v@.skip(start as int)[k], lit@[k]),
        decreases t_len - i,
    {
        let a = v[start + i] as u32;
        let b = lit[i] as u32;
        if !(a == b || (0x41 <= a && a <= 0x5A && a + 0x20 == b)) {
            assert(!char_eq_lower(v@.skip(start as int)[i as int], lit@[i as int]));
            return false;
        }
        assert(char_eq_lower(v@.skip(start as int)[i as int], lit@[i as int]));
        i = i + 1;
    }
    true
}

/// Checks the mantissa rule over `v[start..end)`.
fn check_mantissa(v: &Vec<char>, start: usize, end: usize) -> (r: bool)
    requires
        start <= end <= v.len(),
    ensures
        r == is_mantissa(v@.subrange(start as int, end as int)),
{
    let ghost m = v@.subrange(start as int, end as int);
    if start == end {
        return false;
    }
    let mut dots: usize = 0;
    let mut digit_seen = false;
    let mut i: usize = start;
    while i < end
        invariant
            start <= i <= end <= v.len(),
            m == v@.subrange(start as int, end as int),
            m.len() == end - start,
            forall|k: int| 0 <= k < i - start ==> is_digit(#[trigger] m[k]) || m[k] == '.',
            dots == count_char(m.take(i - start), '.'),
            dots <= i - start,
            digit_seen == has_digit(m.take(i - start)),
        decreases end - i,
    {
        let c = v[i];
        proof {
            assert(m[i - start] == v@[i as int]);
            assert(m.take(i + 1 - start).drop_last() =~= m.take(i - start));
            assert(m.take(i + 1 - start).last() == m[i - start]);
        }
        if exec_is_digit(c) {
            proof {
                assert(has_digit(m.take(i + 1 - start)));
            }
            digit_seen = true;
        } else if c == '.' {
            dots = dots + 1;
        } else {
            proof {
                assert(!(is_digit(m[i - start]) || m[i - start] == '.'));
            }
            return false;
        }
        proof {
            if !has_digit(m.take(i - start)) && !is_digit(m[i - start]) {
                assert forall|k: int| 0 <= k < i + 1 - start && is_digit(#[trigger] m.take(
                    i + 1 - start,
                )[k]) implies false by {
                    if k < i - start {
                        assert(is_digit(m.take(i - start)[k]));
                    }
                }
            }
        }
        i = i + 1;
    }
    proof {
        assert(m.take(i - start) =~= m);
    }
    if dots > 1 {
        return false;
    }
    digit_seen
}

/// Checks the exponent rule over `v[start..)`.
fn check_exponent(v: &Vec<char>, start: usize) -> (r: bool)
    requires
        start <= v.len(),
    ensures
        r == is_exponent(v@.skip(start as int)),
{
    let ghost x = v@.skip(start as int);
    let mut from = start;
    if start < v.len() && (v[start] == '+' || v[start] == '-') {
        from = start + 1;
    }
    proof {
        assert(strip_sign(x) =~= v@.skip(from as int));
    }
    if from == v.len() {
        return false;
    }
    let r = all_digits_from(v, from);
    proof {
        let y = strip_sign(x);
        assert(forall|k: int| 0 <= k < y.len() ==> #[trigger] y[k] == v@[k + from]);
        if r {
            assert forall|k: int| 0 <= k < y.len() implies is_digit(#[trigger] y[k]) by {
                assert(is_digit(v@[k + from]));
            }
        } else {
            let k = choose|k: int| from <= k < v@.len() && !is_digit(#[trigger] v@[k]);
            assert(y[k - from] == v@[k]);
            assert(!all_digits(y));
        }
    }
    r
}

/// Decides whether `s` is a double literal, exactly as `str::parse::<f64>`
/// would accept it.
pub fn check_double_lexeme(s: &str) -> (r: bool)
    ensures
        r == is_double_lexeme(s@),
{
    let v = chars_vec(s);
    let n = v.len();
    let mut start: usize = 0;
    if n > 0 && (v[0] == '+' || v[0] == '-') {
        start = 1;
    }
    let ghost t = strip_sign(s@);
    proof {
        assert(t =~= v@.skip(start as int));
    }
    let inf = chars_vec("inf");
    let infinity = chars_vec("infinity");
    let nan = chars_vec("nan");
    if eq_ic_from(&v, start, &inf) || eq_ic_from(&v, start, &infinity) || eq_ic_from(
        &v,
        start,
        &nan,
    ) {
        return true;
    }
    // Locate the first exponent marker after the sign.
    let mut e_abs: usize = start;
    let mut found_e = false;
    while e_abs < n && !found_e
        invariant
            start <= e_abs <= n,
            n == v.len(),
            !found_e ==> forall|k: int|
                start <= k < e_abs ==> !(#[trigger] v@[k] == 'e' || v@[k] == 'E'),
            found_e ==> start <= e_abs < n && (v@[e_abs as int] == 'e' || v@[e_abs as int] == 'E')
                && forall|k: int| start <= k < e_abs ==> !(#[trigger] v@[k] == 'e' || v@[k] == 'E'),
        decreases n - e_abs + if found_e {
            0int
        } else {
            1int
        },
    {
        if v[e_abs] == 'e' || v[e_abs] == 'E' {
            found_e = true;
        } else {
            e_abs = e_abs + 1;
        }
    }
    proof {
        lemma_first_index_match(t, 'e', 'E');
        assert(forall|k: int| 0 <= k < t.len() ==> #[trigger] t[k] == v@[k + start]);
        if found_e {
            assert(t[e_abs - start] == v@[e_abs as int]);
            let fim = first_index_match(t, 'e', 'E');
            if fim >= 0 {
                assert(t[fim] == v@[fim + start]);
            }
            assert(first_index_match(t, 'e', 'E') == e_abs - start);
        } else {
            let fim = first_index_match(t, 'e', 'E');
            if fim >= 0 {
                assert(t[fim] == v@[fim + start]);
            }
            assert(first_index_match(t, 'e', 'E') < 0);
        }
    }
    if found_e {
        let m_ok = check_mantissa(&v, start, e_abs);
        let x_ok = check_exponent(&v, e_abs + 1);
        proof {
            let e = first_index_match(t, 'e', 'E');
            assert(t.take(e) =~= v@.subrange(start as int, e_abs as int));
            assert(t.skip(e + 1) =~= v@.skip(e_abs + 1));
        }
        m_ok && x_ok
    } else {
        let r = check_mantissa(&v, start, n);
        proof {
            assert(t =~= v@.subrange(start as int, n as int));
        }
        r
    }
}

// ---------------------------------------------------------------------------
// The feature list: comma splitting, whitespace trimming, joining.
// ---------------------------------------------------------------------------
/// Count of leading `White_Space` characters.
pub open spec fn leading_spaces(s: Seq<char>) -> int
    decreases s.len(),
{
    if s.len() == 0 {
        0
    } else if !is_space(s[0]) {
        0
    } else {
        1 + leading_spaces(s.drop_first())
    }
}

/// Count of trailing `White_Space` characters.
pub open spec fn trailing_spaces(s: Seq<char>) -> int
    decreases s.len(),
{
    if s.len() == 0 {
        0
    } else if !is_space(s.last()) {
        0
    } else {
        1 + trailing_spaces(s.drop_last())
    }
}

/// What `str::trim` returns: the input without leading and trailing
/// `White_Space`.
pub open spec fn trim_spec(s: Seq<char>) -> Seq<char> {
    let a = leading_spaces(s);
    let b = s.len() - trailing_spaces(s);
    if a < b {
        s.subrange(a, b)
    } else {
        Seq::empty()
    }
}

pub proof fn lemma_leading_spaces(s: Seq<char>)
    ensures
        0 <= leading_spaces(s) <= s.len(),
        forall|k: int| 0 <= k < leading_spaces(s) ==> is_space(#[trigger] s[k]),
        leading_spaces(s) < s.len() ==> !is_space(s[leading_spaces(s)]),
    decreases s.len(),
{
    if s.len() > 0 && is_space(s[0]) {
        lemma_leading_spaces(s.drop_first());
        assert(forall|k: int|
            1 <= k < s.len() ==> #[trigger] s[k] == s.drop_first()[k - 1]);
    }
}

pub proof fn lemma_trailing_spaces(s: Seq<char>)
    ensures
        0 <= trailing_spaces(s) <= s.len(),
        forall|k: int| s.len() - trailing_spaces(s) <= k < s.len() ==> is_space(#[trigger] s[k]),
        trailing_spaces(s) < s.len() ==> !is_space(s[s.len() - trailing_spaces(s) - 1]),
    decreases s.len(),
{
    if s.len() > 0 && is_space(s.last()) {
        lemma_trailing_spaces(s.drop_last());
        assert(forall|k: int|
            0 <= k < s.len() - 1 ==> #[trigger] s[k] == s.drop_last()[k]);
    }
}

/// Trims `v[start..end)` into a fresh character vector.
fn trim_range(v: &Vec<char>, start: usize, end: usize) -> (r: Vec<char>)
    requires
        start <= end <= v.len(),
    ensures
        r@ == trim_spec(v@.subrange(start as int, end as int)),
{
    let ghost s = v@.subrange(start as int, end as int);
    proof {
        lemma_leading_spaces(s);
        lemma_trailing_spaces(s);
    }
    let mut a = start;
    while a < end && exec_is_space(v[a])
        invariant
            start <= a <= end <= v.len(),
            s == v@.subrange(start as int, end as int),
            forall|k: int| 0 <= k < a - start ==> is_space(#[trigger] s[k]),
        decreases end - a,
    {
        proof {
            assert(s[a - start] == v@[a as int]);
        }
        a = a + 1;
    }
    if a == end {
        // Everything is whitespace.
        proof {
            if leading_spaces(s) < s.len() {
                assert(is_space(s[leading_spaces(s)]));
            }
            assert(leading_spaces(s) == s.len());
            assert(trim_spec(s) =~= Seq::<char>::empty());
        }
        return Vec::new();
    }
    proof {
        assert(s[a - start] == v@[a as int]);
        assert(!is_space(s[a - start]));
        assert(leading_spaces(s) == a - start);
    }
    let mut b = end;
    while b > a && exec_is_space(v[b - 1])
        invariant
            a <= b <= end,
            start <= a < end <= v.len(),
            s == v@.subrange(start as int, end as int),
            forall|k: int| b - start <= k < s.len() ==> is_space(#[trigger] s[k]),
            !is_space(s[a - start]),
        decreases b,
    {
        proof {
            assert(s[b - 1 - start] == v@[b - 1]);
        }
        b = b - 1;
    }
    proof {
        assert(!is_space(s[b - 1 - start]));
        assert(trailing_spaces(s) == s.len() - (b - start));
        assert(trim_spec(s) == s.subrange(a - start, b - start));
    }
    let mut out: Vec<char> = Vec::new();
    let mut k = a;
    while k < b
        invariant
            a <= k <= b <= end <= v.len(),
            s == v@.subrange(start as int, end as int),
            start <= a,
            out@ =~= s.subrange(a - start, k - start),
        decreases b - k,
    {
        out.push(v[k]);
        k = k + 1;
    }
    out
}

/// Splitting on commas, token by token, before trimming.
pub open spec fn split_commas(s: Seq<char>) -> Seq<Seq<char>>
    decreases s.len(),
    via split_commas_decreases
{
    let i = first_index_match(s, ',', ',');
    if i < 0 {
        seq![s]
    } else {
        seq![s.take(i)] + split_commas(s.skip(i + 1))
    }
}

#[via_fn]
proof fn split_commas_decreases(s: Seq<char>) {
    lemma_first_index_match(s, ',', ',');
}

/// What splitting a feature declaration on `,` and trimming each token gives.
pub open spec fn features_of(s: Seq<char>) -> Seq<Seq<char>> {
    split_commas(s).map_values(|t: Seq<char>| trim_spec(t))
}

/// View of a vector of strings as a sequence of character sequences.
pub open spec fn strings_view(v: Seq<String>) -> Seq<Seq<char>> {
    v.map_values(|x: String| x@)
}

/// Splits `v[start..)` on commas, trimming each token.
fn split_tokens(v: &Vec<char>, start: usize, out: &mut Vec<String>)
    requires
        start <= v.len(),
    ensures
        strings_view(final(out)@) == strings_view(old(out)@) + features_of(
            v@.skip(start as int),
        ),
    decreases v.len() - start,
{
    let ghost t = v@.skip(start as int);
    let n = v.len();
    let mut j = start;
    let mut found = false;
    while j < n && !found
        invariant
            start <= j <= n,
            n == v.len(),
            !found ==> forall|k: int| start <= k < j ==> #[trigger] v@[k] != ',',
            found ==> start <= j < n && v@[j as int] == ',' && forall|k: int|
                start <= k < j ==> #[trigger] v@[k] != ',',
        decreases n - j + if found {
            0int
        } else {
            1int
        },
    {
        if v[j] == ',' {
            found = true;
        } else {
            j = j + 1;
        }
    }
    proof {
        lemma_first_index_match(t, ',', ',');
        assert(forall|k: int| 0 <= k < t.len() ==> #[trigger] t[k] == v@[k + start]);
        let fim = first_index_match(t, ',', ',');
        if fim >= 0 {
            assert(t[fim] == v@[fim + start]);
        }
        if found {
            assert(t[j - start] == v@[j as int]);
            assert(first_index_match(t, ',', ',') == j - start);
        } else {
            assert(first_index_match(t, ',', ',') < 0);
        }
    }
    let token = trim_range(v, start, j);
    let tok_s = string_from_chars(&token);
    let ghost prior = out@;
    out.push(tok_s);
    if found {
        proof {
            assert(t.take(j - start) =~= v@.subrange(start as int, j as int));
            assert(t.skip(j - start + 1) =~= v@.skip(j + 1));
        }
        split_tokens(v, j + 1, out);
        proof {
            let i = first_index_match(t, ',', ',');
            assert(split_commas(t) == seq![t.take(i)] + split_commas(t.skip(i + 1)));
            assert(strings_view(final(out)@) =~= strings_view(old(out)@) + features_of(t));
        }
    } else {
        proof {
            assert(t.take(t.len() as int) =~= t);
            assert(t =~= v@.subrange(start as int, n as int));
            assert(split_commas(t) =~= seq![t]);
            assert(strings_view(final(out)@) =~= strings_view(old(out)@) + features_of(t));
        }
    }
}

/// Splits a `features` declaration on commas and trims each token, as the
/// log parser requires.
pub fn split_features(s: &str) -> (r: Vec<String>)
    ensures
        strings_view(r@) == features_of(s@),
{
    let v = chars_vec(s);
    let mut out: Vec<String> = Vec::new();
    split_tokens(&v, 0, &mut out);
    proof {
        assert(v@.skip(0) =~= s@);
        assert(strings_view(out@) =~= features_of(s@));
    }
    out
}

/// Joining feature tokens with commas, the inverse declaration.
pub open spec fn join_commas(fs: Seq<Seq<char>>) -> Seq<char>
    decreases fs.len(),
{
    if fs.len() == 0 {
        Seq::empty()
    } else if fs.len() == 1 {
        fs[0]
    } else {
        fs[0] + seq![','] + join_commas(fs.drop_first())
    }
}

/// Joins feature tokens with commas, the serializer's counterpart of
/// [`split_features`].
pub fn join_features(fs: &Vec<String>) -> (r: String)
    ensures
        r@ == join_commas(strings_view(fs@)),
{
    if fs.len() == 0 {
        return String::new();
    }
    let r = join_from(fs, 0);
    proof {
        assert(strings_view(fs@).skip(0) =~= strings_view(fs@));
    }
    r
}

fn join_from(fs: &Vec<String>, i: usize) -> (r: String)
    requires
        i < fs.len(),
    ensures
        r@ == join_commas(strings_view(fs@).skip(i as int)),
    decreases fs.len() - i,
{
    let ghost sv = strings_view(fs@);
    if i == fs.len() - 1 {
        let r = fs[i].clone();
        proof {
            assert(sv.skip(i as int) =~= seq![sv[i as int]]);
        }
        r
    } else {
        let mut r = fs[i].clone();
        r.append(",");
        let rest = join_from(fs, i + 1);
        r.append(rest.as_str());
        proof {
            assert(sv.skip(i as int).drop_first() =~= sv.skip(i + 1));
            assert(sv.skip(i as int)[0] == sv[i as int]);
            assert(sv.skip(i as int).len() >= 2);
            reveal_strlit(",");
            assert(","@ =~= seq![',']);
            assert(r@ =~= join_commas(sv.skip(i as int)));
        }
        r
    }
}

} // verus!
