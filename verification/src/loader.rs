use vstd::prelude::*;

use crate::tick::Tick;

verus! {

/// Unicode whitespace (the White_Space property, as `str::trim`
/// removes), trimmed from the edges of a field.
pub open spec fn is_space(c: char) -> bool {
    let u = c as u32;
    (9 <= u && u <= 13) || u == 32 || u == 0x85 || u == 0xA0 || u == 0x1680 || (0x2000 <= u && u
        <= 0x200A) || u == 0x2028 || u == 0x2029 || u == 0x202F || u == 0x205F || u == 0x3000
}

pub open spec fn trim_front(s: Seq<char>) -> Seq<char>
    decreases s.len(),
{
    if s.len() > 0 && is_space(s[0]) {
        trim_front(s.drop_first())
    } else {
        s
    }
}

pub open spec fn trim_back(s: Seq<char>) -> Seq<char>
    decreases s.len(),
{
    if s.len() > 0 && is_space(s.last()) {
        trim_back(s.drop_last())
    } else {
        s
    }
}

/// The field with Unicode whitespace removed from both edges.
pub open spec fn trim_spec(s: Seq<char>) -> Seq<char> {
    trim_back(trim_front(s))
}

proof fn lemma_trim_front_skip(s: Seq<char>, lo: int)
    requires
        0 <= lo <= s.len(),
        forall|k: int| 0 <= k < lo ==> is_space(s[k]),
        lo == s.len() || !is_space(s[lo]),
    ensures
        trim_front(s) == s.skip(lo),
    decreases lo,
{
    if lo == 0 {
        assert(s.skip(0) =~= s);
    } else {
        assert(is_space(s[0]));
        lemma_trim_front_skip(s.drop_first(), lo - 1);
        assert(s.drop_first().skip(lo - 1) =~= s.skip(lo));
    }
}

proof fn lemma_trim_back_take(s: Seq<char>, hi: int)
    requires
        0 <= hi <= s.len(),
        forall|k: int| hi <= k < s.len() ==> is_space(s[k]),
        hi == 0 || !is_space(s[hi - 1]),
    ensures
        trim_back(s) == s.take(hi),
    decreases s.len() - hi,
{
    if hi == s.len() {
        assert(s.take(hi) =~= s);
    } else {
        assert(is_space(s.last()));
        lemma_trim_back_take(s.drop_last(), hi);
        assert(s.drop_last().take(hi) =~= s.take(hi));
    }
}

/// Decide `is_space` executably.
fn is_space_char(c: char) -> (r: bool)
    ensures
        r == is_space(c),
{
    let u: u32 = c as u32;
    (9 <= u && u <= 13) || u == 32 || u == 0x85 || u == 0xA0 || u == 0x1680 || (0x2000 <= u && u
        <= 0x200A) || u == 0x2028 || u == 0x2029 || u == 0x202F || u == 0x205F || u == 0x3000
}

/// Trim Unicode whitespace from both edges of a string slice.
pub fn trim(s: &str) -> (r: &str)
    ensures
        r@ == trim_spec(s@),
{
    let n = s.unicode_len();
    let mut lo: usize = 0;
    while lo < n && is_space_char(s.get_char(lo))
        invariant
            n == s@.len(),
            0 <= lo <= n,
            forall|k: int| 0 <= k < lo ==> is_space(s@[k]),
        decreases n - lo,
    {
        lo = lo + 1;
    }
    let mut hi: usize = n;
    while hi > lo && is_space_char(s.get_char(hi - 1))
        invariant
            n == s@.len(),
            0 <= lo <= hi <= n,
            forall|k: int| 0 <= k < lo ==> is_space(s@[k]),
            lo == n || !is_space(s@[lo as int]),
            forall|k: int| hi <= k < n ==> is_space(s@[k]),
        decreases hi,
    {
        hi = hi - 1;
    }
    proof {
        lemma_trim_front_skip(s@, lo as int);
        let u = s@.skip(lo as int);
        lemma_trim_back_take(u, hi - lo);
        assert(u.take(hi - lo) =~= s@.subrange(lo as int, hi as int));
    }
    s.substring_char(lo, hi)
}

pub open spec fn is_digit(c: char) -> bool {
    48 <= c as u32 && c as u32 <= 57
}

pub open spec fn all_digits(s: Seq<char>) -> bool {
    forall|k: int| 0 <= k < s.len() ==> is_digit(s[k])
}

/// The decimal value of a digit sequence.
pub open spec fn dec_value(s: Seq<char>) -> int
    decreases s.len(),
{
    if s.len() == 0 {
        0
    } else {
        dec_value(s.drop_last()) * 10 + (s.last() as u32 - 48)
    }
}

/// The lenient unsigned parse: the trimmed field, less an optional
/// leading '+', read as a decimal value if it is a non-empty digit
/// string whose value fits, otherwise zero.
pub open spec fn parse_u64_or_zero_spec(s: Seq<char>) -> u64 {
    let t = trim_spec(s);
    let b = if t.len() > 0 && t[0] == '+' {
        t.drop_first()
    } else {
        t
    };
    if b.len() > 0 && all_digits(b) && dec_value(b) <= u64::MAX {
        dec_value(b) as u64
    } else {
        0
    }
}

/// The decimal value of the digits of `t`, scanned executably with an
/// overflow cap.
fn dec_scan(t: &str, cap: u128) -> (r: Option<u128>)
    requires
        9 <= cap <= 34028236692093846346337460743176821145u128,
    ensures
        match r {
            Some(v) => t@.len() > 0 && all_digits(t@) && v == dec_value(t@) && v <= cap,
            None => !(t@.len() > 0 && all_digits(t@) && dec_value(t@) <= cap),
        },
{
    let n = t.unicode_len();
    if n == 0 {
        return None;
    }
    let mut val: u128 = 0;
    let mut over: bool = false;
    let mut i: usize = 0;
    while i < n
        invariant
            n == t@.len(),
            0 <= i <= n,
            9 <= cap <= 34028236692093846346337460743176821145u128,
            forall|k: int| 0 <= k < i ==> is_digit(t@[k]),
            !over ==> val == dec_value(t@.take(i as int)) && val <= cap,
            over ==> dec_value(t@.take(i as int)) > cap,
        decreases n - i,
    {
        let c = t.get_char(i);
        let u: u32 = c as u32;
        if u < 48 || u > 57 {
            return None;
        }
        let d: u128 = (u - 48) as u128;
        proof {
            assert(t@.take(i as int + 1).drop_last() =~= t@.take(i as int));
            assert(t@.take(i as int + 1).last() == t@[i as int]);
        }
        if over {
            proof {
                assert(dec_value(t@.take(i as int + 1)) == dec_value(t@.take(i as int)) * 10 + d);
                assert(dec_value(t@.take(i as int)) * 10 >= dec_value(t@.take(i as int)))
                    by (nonlinear_arith)
                    requires
                        dec_value(t@.take(i as int)) >= 0,
                ;
            }
        } else {
            if val > (cap - d) / 10 {
                proof {
                    assert(dec_value(t@.take(i as int + 1)) == val * 10 + d);
                    assert(val * 10 + d > cap) by (nonlinear_arith)
                        requires
                            val > (cap - d) / 10,
                            0 <= d <= cap,
                            cap <= 34028236692093846346337460743176821145u128,
                    ;
                }
                over = true;
            } else {
                proof {
                    assert(val * 10 + d <= cap) by (nonlinear_arith)
                        requires
                            val <= (cap - d) / 10,
                            0 <= d,
                            d <= cap,
                    ;
                }
                val = val * 10 + d;
            }
        }
        i = i + 1;
    }
    proof {
        assert(t@.take(n as int) =~= t@);
    }
    if over {
        None
    } else {
        Some(val)
    }
}

proof fn lemma_dec_value_nonneg(s: Seq<char>)
    requires
        all_digits(s),
    ensures
        dec_value(s) >= 0,
    decreases s.len(),
{
    if s.len() > 0 {
        assert(all_digits(s.drop_last()));
        lemma_dec_value_nonneg(s.drop_last());
        assert(dec_value(s.drop_last()) * 10 >= 0) by (nonlinear_arith)
            requires
                dec_value(s.drop_last()) >= 0,
        ;
    }
}

/// Parse an unsigned integer field leniently: a value that is missing,
/// malformed, or out of range is read as zero.
pub fn parse_u64_or_zero(field: &str) -> (r: u64)
    ensures
        r == parse_u64_or_zero_spec(field@),
{
    let t = trim(field);
    let tn = t.unicode_len();
    let start: usize = if tn > 0 && t.get_char(0) == '+' {
        1
    } else {
        0
    };
    let b = t.substring_char(start, tn);
    proof {
        if start == 1 {
            assert(b@ =~= t@.drop_first());
        } else {
            assert(b@ =~= t@);
        }
        if all_digits(b@) {
            lemma_dec_value_nonneg(b@);
        }
    }
    match dec_scan(b, u64::MAX as u128) {
        Some(v) => v as u64,
        None => 0,
    }
}

/// The index of the first '.' at or after `i`, or the length if none.
pub open spec fn first_dot_from(s: Seq<char>, i: int) -> int
    decreases s.len() - i,
{
    if i < 0 || i >= s.len() {
        s.len() as int
    } else if s[i] == '.' {
        i
    } else {
        first_dot_from(s, i + 1)
    }
}

/// The index of the first 'e' or 'E' at or after `i`, or the length if
/// none.
pub open spec fn first_exp_from(s: Seq<char>, i: int) -> int
    decreases s.len() - i,
{
    if i < 0 || i >= s.len() {
        s.len() as int
    } else if s[i] == 'e' || s[i] == 'E' {
        i
    } else {
        first_exp_from(s, i + 1)
    }
}

/// Ten to a power, one for negative powers.
pub open spec fn pow10(n: int) -> int
    decreases n,
{
    if n <= 0 {
        1
    } else {
        10 * pow10(n - 1)
    }
}

proof fn lemma_pow10_pos(n: int)
    ensures
        pow10(n) >= 1,
    decreases n,
{
    if n > 0 {
        lemma_pow10_pos(n - 1);
    }
}

proof fn lemma_pow10_monotone(a: int, b: int)
    requires
        a <= b,
    ensures
        pow10(a) <= pow10(b),
    decreases b - a,
{
    if a < b {
        lemma_pow10_monotone(a, b - 1);
        lemma_pow10_pos(b - 1);
    }
}

proof fn lemma_pow10_37()
    ensures
        pow10(37) == 10000000000000000000000000000000000000,
{
    assert(pow10(0) == 1);
    assert(pow10(1) == 10);
    assert(pow10(2) == 100);
    assert(pow10(3) == 1000);
    assert(pow10(4) == 10000);
    assert(pow10(5) == 100000);
    assert(pow10(6) == 1000000);
    assert(pow10(7) == 10000000);
    assert(pow10(8) == 100000000);
    assert(pow10(9) == 1000000000);
    assert(pow10(10) == 10000000000);
    assert(pow10(11) == 100000000000);
    assert(pow10(12) == 1000000000000);
    assert(pow10(13) == 10000000000000);
    assert(pow10(14) == 100000000000000);
    assert(pow10(15) == 1000000000000000);
    assert(pow10(16) == 10000000000000000);
    assert(pow10(17) == 100000000000000000);
    assert(pow10(18) == 1000000000000000000);
    assert(pow10(19) == 10000000000000000000);
    assert(pow10(20) == 100000000000000000000);
    assert(pow10(21) == 1000000000000000000000);
    assert(pow10(22) == 10000000000000000000000);
    assert(pow10(23) == 100000000000000000000000);
    assert(pow10(24) == 1000000000000000000000000);
    assert(pow10(25) == 10000000000000000000000000);
    assert(pow10(26) == 100000000000000000000000000);
    assert(pow10(27) == 1000000000000000000000000000);
    assert(pow10(28) == 10000000000000000000000000000);
    assert(pow10(29) == 100000000000000000000000000000);
    assert(pow10(30) == 1000000000000000000000000000000);
    assert(pow10(31) == 10000000000000000000000000000000);
    assert(pow10(32) == 100000000000000000000000000000000);
    assert(pow10(33) == 1000000000000000000000000000000000);
    assert(pow10(34) == 10000000000000000000000000000000000);
    assert(pow10(35) == 100000000000000000000000000000000000);
    assert(pow10(36) == 1000000000000000000000000000000000000);
    assert(pow10(37) == 10000000000000000000000000000000000000);
}

/// A field's digits after the optional leading sign.
pub open spec fn strip_sign(t: Seq<char>) -> Seq<char> {
    if t.len() > 0 && (t[0] == '-' || t[0] == '+') {
        t.drop_first()
    } else {
        t
    }
}

/// The magnitude of `ids` (a digit string) scaled by ten to `eff`,
/// truncated toward zero.
pub open spec fn price_mag(ids: Seq<char>, eff: int) -> int {
    if eff >= 0 {
        dec_value(ids) * pow10(eff)
    } else {
        dec_value(ids) / pow10(-eff)
    }
}

/// The lenient fixed-point parse with four stored decimal places,
/// following the standard float grammar: an optional sign, integer
/// digits, an optional '.' with fraction digits, and an optional
/// 'e'/'E' exponent with its own optional sign — at least one mantissa
/// digit in all. The value is truncated to four decimal places. A
/// field that is missing, malformed, or out of range — or whose
/// mantissa digit string carries more than thirty-seven digits of
/// value — is read as zero.
pub open spec fn parse_price_or_zero_spec(s: Seq<char>) -> i64 {
    let t = trim_spec(s);
    let neg = t.len() > 0 && t[0] == '-';
    let body = strip_sign(t);
    let epos = first_exp_from(body, 0);
    let mant = body.take(epos);
    let epart = if epos < body.len() {
        body.skip(epos + 1)
    } else {
        Seq::empty()
    };
    let eneg = epart.len() > 0 && epart[0] == '-';
    let edigits = strip_sign(epart);
    let dot = first_dot_from(mant, 0);
    let ip = mant.take(dot);
    let f = if dot < mant.len() {
        mant.skip(dot + 1)
    } else {
        Seq::empty()
    };
    let ids = ip + f;
    let ev = if eneg {
        -dec_value(edigits)
    } else {
        dec_value(edigits)
    };
    let eff = ev - f.len() + 4;
    let mag = price_mag(ids, eff);
    if ids.len() >= 1 && all_digits(ids) && (epos == body.len() || (edigits.len() >= 1
        && all_digits(edigits))) && dec_value(ids) <= 10000000000000000000000000000000000000
        && mag <= i64::MAX {
        if neg {
            (-mag) as i64
        } else {
            mag as i64
        }
    } else {
        0
    }
}

/// Decide "non-empty and all digits" executably.
fn digits_only(s: &str) -> (r: bool)
    ensures
        r == (s@.len() > 0 && all_digits(s@)),
{
    let n = s.unicode_len();
    if n == 0 {
        return false;
    }
    let mut i: usize = 0;
    while i < n
        invariant
            n == s@.len(),
            0 <= i <= n,
            forall|k: int| 0 <= k < i ==> is_digit(s@[k]),
        decreases n - i,
    {
        let u: u32 = s.get_char(i) as u32;
        if u < 48 || u > 57 {
            return false;
        }
        i = i + 1;
    }
    true
}

/// Parse a price field leniently into fixed point.
#[verifier::rlimit(100)]
pub fn parse_price_or_zero(field: &str) -> (r: i64)
    ensures
        r == parse_price_or_zero_spec(field@),
{
    let t = trim(field);
    let tn = t.unicode_len();
    let neg: bool = tn > 0 && t.get_char(0) == '-';
    let signed: bool = tn > 0 && (t.get_char(0) == '-' || t.get_char(0) == '+');
    let start: usize = if signed {
        1
    } else {
        0
    };
    let body = t.substring_char(start, tn);
    proof {
        if signed {
            assert(body@ =~= t@.drop_first());
        } else {
            assert(body@ =~= t@);
        }
        assert(body@ == strip_sign(t@));
    }
    let n = body.unicode_len();
    // split off the exponent
    let mut epos: usize = 0;
    while epos < n && body.get_char(epos) != 'e' && body.get_char(epos) != 'E'
        invariant
            n == body@.len(),
            0 <= epos <= n,
            first_exp_from(body@, 0) == first_exp_from(body@, epos as int),
        decreases n - epos,
    {
        epos = epos + 1;
    }
    proof {
        assert(first_exp_from(body@, 0) == epos as int);
    }
    let mant = body.substring_char(0, epos);
    let epart = if epos < n {
        body.substring_char(epos + 1, n)
    } else {
        body.substring_char(n, n)
    };
    let ghost epart_spec: Seq<char> = if (epos as int) < body@.len() {
        body@.skip(epos as int + 1)
    } else {
        Seq::empty()
    };
    proof {
        assert(mant@ =~= body@.take(epos as int));
        assert(epart@ =~= epart_spec);
    }
    let elen = epart.unicode_len();
    let eneg: bool = elen > 0 && epart.get_char(0) == '-';
    let esigned: bool = elen > 0 && (epart.get_char(0) == '-' || epart.get_char(0) == '+');
    let estart: usize = if esigned {
        1
    } else {
        0
    };
    let edig = epart.substring_char(estart, elen);
    proof {
        if esigned {
            assert(edig@ =~= epart@.drop_first());
        } else {
            assert(edig@ =~= epart@);
        }
        assert(edig@ == strip_sign(epart_spec));
    }
    // the mantissa's integer and fraction digits
    let mlen = mant.unicode_len();
    let mut dot: usize = 0;
    while dot < mlen && mant.get_char(dot) != '.'
        invariant
            mlen == mant@.len(),
            0 <= dot <= mlen,
            first_dot_from(mant@, 0) == first_dot_from(mant@, dot as int),
        decreases mlen - dot,
    {
        dot = dot + 1;
    }
    proof {
        assert(first_dot_from(mant@, 0) == dot as int);
    }
    let ip_str = mant.substring_char(0, dot);
    let f_str = if dot < mlen {
        mant.substring_char(dot + 1, mlen)
    } else {
        mant.substring_char(mlen, mlen)
    };
    let ghost f_spec: Seq<char> = if (dot as int) < mant@.len() {
        mant@.skip(dot as int + 1)
    } else {
        Seq::empty()
    };
    proof {
        assert(ip_str@ =~= mant@.take(dot as int));
        assert(f_str@ =~= f_spec);
    }
    let flen = f_str.unicode_len();
    let ids = ip_str.to_owned().concat(f_str);
    let ghost ids_spec: Seq<char> = mant@.take(dot as int) + f_spec;
    proof {
        assert(ids@ == ids_spec);
    }
    let ids_len = ids.as_str().unicode_len();
    if ids_len == 0 {
        // no mantissa digit at all
        return 0;
    }
    // the mantissa's digit value, capped at thirty-seven digits
    let dec_opt = dec_scan(ids.as_str(), 10000000000000000000000000000000000000u128);
    let dec_v: u128 = match dec_opt {
        Some(v) => v,
        None => {
            // a non-digit, or more value than the policy admits
            return 0;
        },
    };
    proof {
        lemma_dec_value_nonneg(ids_spec);
    }
    // the exponent's digit value
    if epos < n && !digits_only(edig) {
        // an exponent marker without a well-formed exponent
        return 0;
    }
    let ev_opt: Option<u128> = if epos < n {
        dec_scan(edig, 1000000000000000000000000000000u128)
    } else {
        Some(0)
    };
    let ghost ev_spec: int = if eneg {
        -dec_value(strip_sign(epart_spec))
    } else {
        dec_value(strip_sign(epart_spec))
    };
    let ghost eff_spec: int = ev_spec - f_spec.len() + 4;
    let ghost mag_spec: int = price_mag(ids_spec, eff_spec);
    proof {
        assert(mag_spec > i64::MAX ==> parse_price_or_zero_spec(field@) == 0);
        assert(0 <= mag_spec && mag_spec <= i64::MAX ==> parse_price_or_zero_spec(field@) == (
        if tn > 0 && t@[0] == '-' {
            (-mag_spec) as i64
        } else {
            mag_spec as i64
        }));
    }
    let magnitude: u128 = match ev_opt {
        Some(ev) => {
            proof {
                if epos < n {
                    lemma_dec_value_nonneg(edig@);
                }
            }
            let eff: i128 = (if eneg {
                -(ev as i128)
            } else {
                ev as i128
            }) - (flen as i128) + 4;
            proof {
                assert(eff == eff_spec);
            }
            if dec_v == 0 {
                proof {
                    if eff_spec >= 0 {
                        assert(0int * pow10(eff_spec) == 0) by (nonlinear_arith);
                    } else {
                        lemma_pow10_pos(-eff_spec);
                        vstd::arithmetic::div_mod::lemma_basic_div(0, pow10(-eff_spec));
                    }
                    assert(mag_spec == 0);
                }
                0
            } else if eff >= 0 {
                let mut m: u128 = dec_v;
                let mut j: i128 = 0;
                proof {
                    assert(pow10(0) == 1);
                    assert(dec_v as int * 1 == dec_v as int);
                }
                while j < eff
                    invariant
                        0 <= j <= eff,
                        eff == eff_spec,
                        1 <= dec_v,
                        m as int == dec_v as int * pow10(j as int),
                        1 <= m,
                        mag_spec == dec_v as int * pow10(eff_spec),
                        mag_spec > i64::MAX ==> parse_price_or_zero_spec(field@) == 0,
                    decreases eff - j,
                {
                    if m > i64::MAX as u128 {
                        proof {
                            lemma_pow10_monotone(j as int, eff_spec);
                            lemma_pow10_pos(j as int);
                            assert(dec_v as int * pow10(j as int) <= dec_v as int * pow10(
                                eff_spec,
                            )) by (nonlinear_arith)
                                requires
                                    1 <= dec_v,
                                    pow10(j as int) <= pow10(eff_spec),
                            ;
                            assert(mag_spec > i64::MAX);
                        }
                        return 0;
                    }
                    proof {
                        assert(pow10(j as int + 1) == 10 * pow10(j as int));
                        assert((m as int) * 10 == dec_v as int * (10 * pow10(j as int)))
                            by (nonlinear_arith)
                            requires
                                m as int == dec_v as int * pow10(j as int),
                        ;
                    }
                    m = m * 10;
                    j = j + 1;
                }
                m
            } else {
                let k: i128 = -eff;
                let mut m: u128 = dec_v;
                let mut j: i128 = 0;
                proof {
                    assert(pow10(0) == 1);
                    assert(dec_v as int / 1 == dec_v as int);
                }
                while j < k && m > 0
                    invariant
                        0 <= j <= k,
                        k == -eff_spec,
                        m as int == dec_v as int / pow10(j as int),
                        0 <= m,
                        mag_spec == dec_v as int / pow10(-eff_spec),
                    decreases k - j,
                {
                    proof {
                        lemma_pow10_pos(j as int);
                        assert(pow10(j as int + 1) == 10 * pow10(j as int));
                        vstd::arithmetic::div_mod::lemma_div_denominator(
                            dec_v as int,
                            pow10(j as int),
                            10,
                        );
                    }
                    m = m / 10;
                    j = j + 1;
                }
                proof {
                    if j < k {
                        // the value vanished before all divisions ran
                        lemma_pow10_monotone(j as int, k as int);
                        lemma_pow10_pos(j as int);
                        lemma_pow10_pos(k as int);
                        vstd::arithmetic::div_mod::lemma_div_is_ordered_by_denominator(
                            dec_v as int,
                            pow10(j as int),
                            pow10(k as int),
                        );
                        vstd::arithmetic::div_mod::lemma_div_pos_is_pos(
                            dec_v as int,
                            pow10(k as int),
                        );
                        assert(mag_spec == 0);
                    }
                }
                m
            }
        },
        None => {
            // the exponent's digits hold more value than any
            // representable result needs
            proof {
                let edig_s = strip_sign(epart_spec);
                assert(dec_value(edig_s) > 1000000000000000000000000000000int);
                lemma_pow10_37();
                if eneg {
                    // a vanishing value: the magnitude truncates to zero
                    assert(-eff_spec >= 38);
                    lemma_pow10_monotone(38, -eff_spec);
                    assert(pow10(38) == 10 * pow10(37));
                    if dec_value(ids_spec) <= 10000000000000000000000000000000000000int {
                        vstd::arithmetic::div_mod::lemma_basic_div(
                            dec_value(ids_spec),
                            pow10(-eff_spec),
                        );
                        assert(mag_spec == 0);
                    }
                } else {
                    // an astronomically large value: out of range
                    assert(eff_spec >= 39);
                    if dec_value(ids_spec) == 0 {
                        assert(0int * pow10(eff_spec) == 0) by (nonlinear_arith);
                        assert(mag_spec == 0);
                    } else {
                        lemma_pow10_monotone(39, eff_spec);
                        assert(pow10(38) == 10 * pow10(37));
                        assert(pow10(39) == 10 * pow10(38));
                        assert(dec_value(ids_spec) * pow10(eff_spec) >= pow10(eff_spec))
                            by (nonlinear_arith)
                            requires
                                dec_value(ids_spec) >= 1,
                                pow10(eff_spec) >= 0,
                        ;
                        assert(mag_spec > i64::MAX);
                    }
                }
            }
            return 0;
        },
    };
    proof {
        assert(magnitude as int == mag_spec);
    }
    if magnitude > i64::MAX as u128 {
        0
    } else if neg {
        -(magnitude as i64)
    } else {
        magnitude as i64
    }
}

/// `p` occurs somewhere in `s` as a contiguous run.
pub open spec fn contains_sub(s: Seq<char>, p: Seq<char>) -> bool {
    exists|k: int| 0 <= k <= s.len() - p.len() && #[trigger] s.skip(k).take(p.len() as int) == p
}

/// Decide substring occurrence by scanning every start position.
pub fn contains_str(s: &str, p: &str) -> (r: bool)
    ensures
        r == contains_sub(s@, p@),
{
    let n = s.unicode_len();
    let m = p.unicode_len();
    if m > n {
        return false;
    }
    let mut k: usize = 0;
    while k <= n - m
        invariant
            n == s@.len(),
            m == p@.len(),
            m <= n,
            0 <= k <= n - m + 1,
            forall|q: int| 0 <= q < k ==> #[trigger] s@.skip(q).take(p@.len() as int) != p@,
        decreases n - m + 1 - k,
    {
        let mut t: usize = 0;
        let mut hit: bool = true;
        while t < m
            invariant
                n == s@.len(),
                m == p@.len(),
                0 <= k <= n - m,
                0 <= t <= m,
                hit == (forall|j: int| 0 <= j < t ==> s@[k + j] == p@[j]),
            decreases m - t,
        {
            if s.get_char(k + t) != p.get_char(t) {
                hit = false;
            }
            t = t + 1;
        }
        if hit {
            proof {
                assert(s@.skip(k as int).take(p@.len() as int) =~= p@);
            }
            return true;
        }
        proof {
            let sub = s@.skip(k as int).take(p@.len() as int);
            let j = choose|j: int| 0 <= j < m && s@[k + j] != p@[j];
            assert(sub[j] == s@[k + j]);
            assert(sub != p@);
        }
        k = k + 1;
    }
    false
}

/// A header row: the line holds all three field names as substrings.
pub open spec fn is_header_spec(line: Seq<char>) -> bool {
    contains_sub(line, "ts_ms"@) && contains_sub(line, "bid"@) && contains_sub(line, "ask"@)
}

/// Detect the optional header row.
pub fn is_header_line(line: &str) -> (r: bool)
    ensures
        r == is_header_spec(line@),
{
    contains_str(line, "ts_ms") && contains_str(line, "bid") && contains_str(line, "ask")
}

/// The comma-separated fields of `s` from `cur` on, with the current
/// field having started at `start`.
pub open spec fn split_from(s: Seq<char>, start: int, cur: int) -> Seq<Seq<char>>
    decreases s.len() - cur,
{
    if cur < 0 || start < 0 || start > cur {
        Seq::empty()
    } else if cur >= s.len() {
        seq![s.subrange(start, s.len() as int)]
    } else if s[cur] == ',' {
        seq![s.subrange(start, cur)] + split_from(s, cur + 1, cur + 1)
    } else {
        split_from(s, start, cur + 1)
    }
}

/// The comma-separated fields of a line.
pub open spec fn split_commas(s: Seq<char>) -> Seq<Seq<char>> {
    split_from(s, 0, 0)
}

/// Split a line on commas.
pub fn split_fields(line: &str) -> (fields: Vec<String>)
    ensures
        fields@.map_values(|f: String| f@) == split_commas(line@),
{
    let n = line.unicode_len();
    let mut fields: Vec<String> = Vec::new();
    let mut start: usize = 0;
    let mut cur: usize = 0;
    proof {
        assert(fields@.map_values(|f: String| f@) =~= Seq::<Seq<char>>::empty());
    }
    while cur < n
        invariant
            n == line@.len(),
            0 <= start <= cur <= n,
            split_commas(line@) == fields@.map_values(|f: String| f@) + split_from(
                line@,
                start as int,
                cur as int,
            ),
        decreases n - cur,
    {
        if line.get_char(cur) == ',' {
            let ghost pre = fields@;
            let piece = line.substring_char(start, cur);
            fields.push(piece.to_owned());
            proof {
                assert(fields@.map_values(|f: String| f@) =~= pre.map_values(|f: String| f@).push(
                    line@.subrange(start as int, cur as int),
                ));
            }
            start = cur + 1;
        }
        cur = cur + 1;
    }
    let ghost pre = fields@;
    let piece = line.substring_char(start, n);
    fields.push(piece.to_owned());
    proof {
        assert(fields@.map_values(|f: String| f@) =~= pre.map_values(|f: String| f@).push(
            line@.subrange(start as int, n as int),
        ));
        assert(fields@.map_values(|f: String| f@) =~= split_commas(line@));
    }
    fields
}

/// One parsed data row: at least three fields, each read leniently; a
/// shorter row is dropped.
pub open spec fn parse_tick_line_spec(line: Seq<char>) -> Option<Tick> {
    let fs = split_commas(line);
    if fs.len() < 3 {
        None
    } else {
        Some(
            Tick {
                ts_ms: parse_u64_or_zero_spec(fs[0]),
                bid: parse_price_or_zero_spec(fs[1]),
                ask: parse_price_or_zero_spec(fs[2]),
            },
        )
    }
}

/// Parse one data row.
pub fn parse_tick_line(line: &str) -> (r: Option<Tick>)
    ensures
        r == parse_tick_line_spec(line@),
{
    let fields = split_fields(line);
    if fields.len() < 3 {
        None
    } else {
        proof {
            assert(fields@.map_values(|f: String| f@)[0] == fields@[0]@);
            assert(fields@.map_values(|f: String| f@)[1] == fields@[1]@);
            assert(fields@.map_values(|f: String| f@)[2] == fields@[2]@);
        }
        let ts_ms = parse_u64_or_zero(fields[0].as_str());
        let bid = parse_price_or_zero(fields[1].as_str());
        let ask = parse_price_or_zero(fields[2].as_str());
        Some(Tick { ts_ms, bid, ask })
    }
}

/// The tick produced by one line, as a sequence of zero or one.
pub open spec fn parsed_opt(line: Seq<char>) -> Seq<Tick> {
    match parse_tick_line_spec(line) {
        Some(t) => seq![t],
        None => Seq::empty(),
    }
}

/// The ticks of lines `from .. i`, in order.
pub open spec fn ticks_upto(lines: Seq<Seq<char>>, from: int, i: int) -> Seq<Tick>
    decreases i - from,
{
    if i <= from || i > lines.len() {
        Seq::empty()
    } else {
        ticks_upto(lines, from, i - 1) + parsed_opt(lines[i - 1])
    }
}

/// The ordered tick sequence of a whole input: a detected header row
/// (first line only) is skipped, every other line is parsed leniently.
pub open spec fn ticks_from_lines_spec(lines: Seq<Seq<char>>) -> Seq<Tick> {
    if lines.len() == 0 {
        Seq::empty()
    } else if is_header_spec(lines[0]) {
        ticks_upto(lines, 1, lines.len() as int)
    } else {
        ticks_upto(lines, 0, lines.len() as int)
    }
}

/// Parse the lines of a tick file into the ordered tick sequence.
pub fn ticks_from_lines(lines: &Vec<String>) -> (ticks: Vec<Tick>)
    ensures
        ticks@ == ticks_from_lines_spec(lines@.map_values(|l: String| l@)),
{
    let n = lines.len();
    let mut ticks: Vec<Tick> = Vec::new();
    if n == 0 {
        return ticks;
    }
    let skip_header = is_header_line(lines[0].as_str());
    let mut i: usize = if skip_header {
        1
    } else {
        0
    };
    let ghost from = i as int;
    let ghost lseq = lines@.map_values(|l: String| l@);
    proof {
        assert(lseq[0] == lines@[0]@);
    }
    while i < n
        invariant
            n == lines@.len(),
            lseq == lines@.map_values(|l: String| l@),
            0 <= from <= i <= n,
            ticks@ == ticks_upto(lseq, from, i as int),
        decreases n - i,
    {
        proof {
            assert(lseq[i as int] == lines@[i as int]@);
        }
        match parse_tick_line(lines[i].as_str()) {
            Some(t) => {
                let ghost pre = ticks@;
                ticks.push(t);
                proof {
                    assert(ticks@ =~= pre + parsed_opt(lseq[i as int]));
                }
            },
            None => {
                proof {
                    assert(ticks@ =~= ticks@ + parsed_opt(lseq[i as int]));
                }
            },
        }
        i = i + 1;
    }
    ticks
}

} // verus!
