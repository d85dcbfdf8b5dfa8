//! Recognizers for the text forms the type lattice distinguishes: null
//! markers, booleans, sized integers, and real numbers with their exact
//! decimal magnitude classification.

use vstd::prelude::*;

use crate::digits::{
    all_digits, digit_val, digits_value, is_dec_digit, lemma_digits_value_append,
    lemma_digits_value_bounds, lemma_digits_value_leading, lemma_digits_value_lex,
    lemma_digits_value_skip_zeros, lemma_digits_value_zeros, lemma_pow10_adds,
    lemma_pow10_increases, lemma_pow10_pos, pow10,
};

verus! {

/// An empty field, the word `null` in any letter case, or the `\N` escape.
pub open spec fn is_null_token(s: Seq<char>) -> bool {
    ||| s.len() == 0
    ||| (s.len() == 4 && (s[0] == 'n' || s[0] == 'N') && (s[1] == 'u' || s[1] == 'U') && (s[2]
        == 'l' || s[2] == 'L') && (s[3] == 'l' || s[3] == 'L'))
    ||| (s.len() == 2 && s[0] == '\\' && (s[1] == 'N' || s[1] == 'n'))
}

/// Exactly the two boolean words the standard parser accepts.
pub open spec fn is_bool_token(s: Seq<char>) -> bool {
    s == "true"@ || s == "false"@
}

/// Length of an optional leading sign.
pub open spec fn sign_len(s: Seq<char>) -> int {
    if s.len() > 0 && (s[0] == '+' || s[0] == '-') {
        1
    } else {
        0
    }
}

/// An optional sign followed by one or more decimal digits: the grammar of
/// the standard integer parsers.
pub open spec fn is_int_literal(s: Seq<char>) -> bool {
    let body = s.skip(sign_len(s));
    body.len() > 0 && all_digits(body)
}

/// The signed value an integer literal denotes.
pub open spec fn int_literal_value(s: Seq<char>) -> int {
    if s.len() > 0 && s[0] == '-' {
        -digits_value(s.skip(1))
    } else {
        digits_value(s.skip(sign_len(s)))
    }
}

pub open spec fn is_exp_char(c: char) -> bool {
    c == 'e' || c == 'E'
}

/// Index of the first exponent marker at or after `i`, or the length.
pub open spec fn find_exp_from(s: Seq<char>, i: int) -> int
    decreases s.len() - i,
{
    if i < 0 || i >= s.len() {
        s.len() as int
    } else if is_exp_char(s[i]) {
        i
    } else {
        find_exp_from(s, i + 1)
    }
}

/// Index of the first dot at or after `i`, or the length.
pub open spec fn find_dot_from(s: Seq<char>, i: int) -> int
    decreases s.len() - i,
{
    if i < 0 || i >= s.len() {
        s.len() as int
    } else if s[i] == '.' {
        i
    } else {
        find_dot_from(s, i + 1)
    }
}

/// The digits of a mantissa with its one optional dot removed.
pub open spec fn mantissa_digits(m: Seq<char>) -> Seq<char> {
    let d = find_dot_from(m, 0);
    if d == m.len() {
        m
    } else {
        m.take(d) + m.skip(d + 1)
    }
}

/// How many mantissa digits stand after the dot.
pub open spec fn frac_len(m: Seq<char>) -> int {
    let d = find_dot_from(m, 0);
    if d == m.len() {
        0
    } else {
        m.len() - d - 1
    }
}

/// A mantissa is digits with at most one dot anywhere, and at least one digit.
pub open spec fn wf_mantissa(m: Seq<char>) -> bool {
    mantissa_digits(m).len() > 0 && all_digits(mantissa_digits(m))
}

/// The grammar of the standard real-number parsers, excluding the infinity
/// and not-a-number words: an optional sign, a mantissa, and an optional
/// exponent that is itself a signed run of digits.
pub open spec fn is_real_literal(s: Seq<char>) -> bool {
    let b = s.skip(sign_len(s));
    let e = find_exp_from(b, 0);
    wf_mantissa(b.take(e)) && (e == b.len() || is_int_literal(b.skip(e + 1)))
}

/// Whether the magnitude a real literal denotes is below `limit`: with
/// mantissa digits `d`, `f` of them fractional, and exponent `e`, the
/// magnitude is `d * 10^(e-f)`, compared with `limit` exactly over integers.
pub open spec fn real_magnitude_lt(s: Seq<char>, limit: int) -> bool {
    let b = s.skip(sign_len(s));
    let ei = find_exp_from(b, 0);
    let d = digits_value(mantissa_digits(b.take(ei)));
    let f = frac_len(b.take(ei));
    let e = if ei == b.len() {
        0
    } else {
        int_literal_value(b.skip(ei + 1))
    };
    if e >= f {
        d * pow10((e - f) as nat) < limit
    } else {
        d < limit * pow10((f - e) as nat)
    }
}

/// The decimal digits of `2^128 - 2^103`: the smallest magnitude at which
/// 32-bit parsing rounds up to infinity.
pub open spec fn real32_limit_digits() -> Seq<char> {
    "340282356779733661637539395458142568448"@
}

/// The decimal digits of `2^1024 - 2^970`: the smallest magnitude at which
/// 64-bit parsing rounds up to infinity.
pub open spec fn real64_limit_digits() -> Seq<char> {
    "179769313486231580793728971405303415079934132710037826936173778980444968292764750946649017977587207096330286416692887910946555547851940402630657488671505820681908902000708383676273854845817711531764475730270069855571366959622842914819860834936475292719074168444365510704342711559699508093042880177904174497792"@
}

/// Text that the 32-bit real parser turns into a finite value.
pub open spec fn fits_real32(s: Seq<char>) -> bool {
    is_real_literal(s) && real_magnitude_lt(s, digits_value(real32_limit_digits()))
}

/// Text that the 64-bit real parser turns into a finite value.
pub open spec fn fits_real64(s: Seq<char>) -> bool {
    is_real_literal(s) && real_magnitude_lt(s, digits_value(real64_limit_digits()))
}

/// Recognize a null marker.
pub(crate) fn scan_null(s: &str) -> (r: bool)
    ensures
        r == is_null_token(s@),
{
    let n = s.unicode_len();
    if n == 0 {
        return true;
    }
    if n == 4 {
        let c0 = s.get_char(0);
        let c1 = s.get_char(1);
        let c2 = s.get_char(2);
        let c3 = s.get_char(3);
        return (c0 == 'n' || c0 == 'N') && (c1 == 'u' || c1 == 'U') && (c2 == 'l' || c2 == 'L') && (
        c3 == 'l' || c3 == 'L');
    }
    if n == 2 {
        let c0 = s.get_char(0);
        let c1 = s.get_char(1);
        return c0 == '\\' && (c1 == 'N' || c1 == 'n');
    }
    false
}

/// Recognize the two boolean words.
pub(crate) fn scan_bool(s: &str) -> (r: bool)
    ensures
        r == is_bool_token(s@),
{
    proof {
        reveal_strlit("true");
        reveal_strlit("false");
    }
    let n = s.unicode_len();
    if n == 4 {
        let r = s.get_char(0) == 't' && s.get_char(1) == 'r' && s.get_char(2) == 'u' && s.get_char(
            3,
        ) == 'e';
        proof {
            if r {
                assert(s@ =~= "true"@);
            }
        }
        r
    } else if n == 5 {
        let r = s.get_char(0) == 'f' && s.get_char(1) == 'a' && s.get_char(2) == 'l' && s.get_char(
            3,
        ) == 's' && s.get_char(4) == 'e';
        proof {
            if r {
                assert(s@ =~= "false"@);
            }
        }
        r
    } else {
        false
    }
}

/// Accumulate the value of a digit run, reporting saturation once the value
/// leaves the 128-bit range.
fn digits_mag(s: &str, start: usize, end: usize) -> (r: (bool, u128))
    requires
        start <= end <= s@.len(),
        all_digits(s@.subrange(start as int, end as int)),
    ensures
        !r.0 ==> r.1 == digits_value(s@.subrange(start as int, end as int)),
        r.0 ==> digits_value(s@.subrange(start as int, end as int)) > u128::MAX,
{
    let ghost whole = s@.subrange(start as int, end as int);
    let mut i: usize = start;
    let mut over: bool = false;
    let mut mag: u128 = 0;
    while i < end
        invariant
            start <= i <= end <= s@.len(),
            all_digits(s@.subrange(start as int, end as int)),
            !over ==> mag == digits_value(s@.subrange(start as int, i as int)),
            over ==> digits_value(s@.subrange(start as int, i as int)) > u128::MAX,
        decreases end - i,
    {
        let c = s.get_char(i);
        proof {
            assert(s@.subrange(start as int, end as int)[i - start] == c);
            assert(is_dec_digit(c));
            assert(s@.subrange(start as int, (i + 1) as int).drop_last() =~= s@.subrange(
                start as int,
                i as int,
            ));
            assert(s@.subrange(start as int, (i + 1) as int).last() == c);
        }
        let d = (c as u32 - 48) as u128;
        proof {
            assert(d == digit_val(c));
            assert(digits_value(s@.subrange(start as int, (i + 1) as int)) == digits_value(
                s@.subrange(start as int, i as int),
            ) * 10 + d);
        }
        if over {
            proof {
                let old_v = digits_value(s@.subrange(start as int, i as int));
                assert(old_v * 10 + d > u128::MAX);
            }
        } else {
            if mag > (u128::MAX - d) / 10 {
                proof {
                    let lim = u128::MAX - d;
                    assert(lim == 10 * (lim / 10) + lim % 10);
                    assert(mag * 10 + d > u128::MAX);
                }
                over = true;
            } else {
                proof {
                    let lim = u128::MAX - d;
                    assert(lim == 10 * (lim / 10) + lim % 10);
                    assert(mag * 10 + d <= u128::MAX);
                }
                mag = mag * 10 + d;
            }
        }
        i = i + 1;
    }
    (over, mag)
}

/// What one pass over a candidate integer literal found.
pub struct IntScan {
    /// Whether the text is an integer literal at all.
    pub is_int: bool,
    /// Whether it carries a minus sign.
    pub negative: bool,
    /// Whether the magnitude left the 128-bit range.
    pub over: bool,
    /// The magnitude, when it did not.
    pub magnitude: u128,
}

/// Scan a candidate integer literal and report its sign and magnitude.
pub(crate) fn scan_int(s: &str) -> (r: IntScan)
    ensures
        r.is_int == is_int_literal(s@),
        r.is_int ==> r.negative == (s@[0] == '-'),
        r.is_int && !r.over ==> int_literal_value(s@) == if r.negative {
            -(r.magnitude as int)
        } else {
            r.magnitude as int
        },
        r.is_int && r.over ==> (if r.negative {
            int_literal_value(s@) < -(u128::MAX as int)
        } else {
            int_literal_value(s@) > u128::MAX as int
        }),
{
    let n = s.unicode_len();
    if n == 0 {
        return IntScan { is_int: false, negative: false, over: false, magnitude: 0 };
    }
    let c0 = s.get_char(0);
    let start: usize = if c0 == '+' || c0 == '-' {
        1
    } else {
        0
    };
    if start == n {
        return IntScan { is_int: false, negative: false, over: false, magnitude: 0 };
    }
    let mut i: usize = start;
    while i < n
        invariant
            start <= i <= n == s@.len(),
            start < n,
            sign_len(s@) == start,
            forall|t: int| start <= t < i ==> is_dec_digit(#[trigger] s@[t]),
        decreases n - i,
    {
        let c = s.get_char(i);
        let u = c as u32;
        if !(48 <= u && u <= 57) {
            proof {
                assert(sign_len(s@) == start);
                assert(!is_dec_digit(s@[i as int]));
                assert(s@.skip(start as int)[i - start] == s@[i as int]);
                assert(!all_digits(s@.skip(sign_len(s@))));
            }
            return IntScan { is_int: false, negative: false, over: false, magnitude: 0 };
        }
        i = i + 1;
    }
    proof {
        assert(s@.subrange(start as int, n as int) =~= s@.skip(start as int));
        assert(sign_len(s@) == start);
        assert(all_digits(s@.skip(start as int)));
    }
    let (over, mag) = digits_mag(s, start, n);
    IntScan { is_int: true, negative: c0 == '-', over, magnitude: mag }
}

proof fn lemma_find_exp_at(s: Seq<char>, j: int, k: int)
    requires
        0 <= j <= k <= s.len(),
        forall|t: int| j <= t < k ==> !is_exp_char(#[trigger] s[t]),
        k == s.len() || is_exp_char(s[k]),
    ensures
        find_exp_from(s, j) == k,
    decreases k - j,
{
    if j < k {
        lemma_find_exp_at(s, j + 1, k);
    }
}

proof fn lemma_find_dot_at(s: Seq<char>, j: int, k: int)
    requires
        0 <= j <= k <= s.len(),
        forall|t: int| j <= t < k ==> #[trigger] s[t] != '.',
        k == s.len() || s[k] == '.',
    ensures
        find_dot_from(s, j) == k,
    decreases k - j,
{
    if j < k {
        lemma_find_dot_at(s, j + 1, k);
    }
}

/// The comparison `real_magnitude_lt` makes, stated over already-extracted
/// parts: significant digits, fraction length and exponent.
pub open spec fn magnitude_lt_parts(sig: Seq<char>, f: int, e: int, limit: Seq<char>) -> bool {
    if e >= f {
        digits_value(sig) * pow10((e - f) as nat) < digits_value(limit)
    } else {
        digits_value(sig) < digits_value(limit) * pow10((f - e) as nat)
    }
}

/// Position of the leading significant digit decides the comparison whenever
/// the two sides have different decimal lengths.
proof fn lemma_magnitude_trichotomy(sig: Seq<char>, f: int, e: int, limit: Seq<char>)
    requires
        all_digits(sig),
        sig.len() > 0,
        digit_val(sig[0]) >= 1,
        all_digits(limit),
        limit.len() > 0,
        digit_val(limit[0]) >= 1,
        f >= 0,
    ensures
        sig.len() - 1 + e - f < limit.len() - 1 ==> magnitude_lt_parts(sig, f, e, limit),
        sig.len() - 1 + e - f > limit.len() - 1 ==> !magnitude_lt_parts(sig, f, e, limit),
{
    let sv = digits_value(sig);
    let lv = digits_value(limit);
    let sl = sig.len() as int;
    let ll = limit.len() as int;
    lemma_digits_value_bounds(sig);
    lemma_digits_value_leading(sig);
    lemma_digits_value_bounds(limit);
    lemma_digits_value_leading(limit);
    if e >= f {
        let p = pow10((e - f) as nat);
        lemma_pow10_pos((e - f) as nat);
        lemma_pow10_adds((sl - 1) as nat, (e - f) as nat);
        lemma_pow10_adds(sl as nat, (e - f) as nat);
        assert(sv * p >= pow10((sl - 1) as nat) * p && sv * p <= (pow10(sl as nat) - 1) * p)
            by (nonlinear_arith)
            requires
                pow10((sl - 1) as nat) <= sv < pow10(sl as nat),
                p >= 1,
        ;
        assert((pow10(sl as nat) - 1) * p < pow10(sl as nat) * p) by (nonlinear_arith)
            requires
                p >= 1,
        ;
        if sl - 1 + e - f < ll - 1 {
            lemma_pow10_increases((sl + e - f) as nat, (ll - 1) as nat);
        }
        if sl - 1 + e - f > ll - 1 {
            lemma_pow10_increases(ll as nat, (sl - 1 + e - f) as nat);
        }
    } else {
        let q = pow10((f - e) as nat);
        lemma_pow10_pos((f - e) as nat);
        lemma_pow10_adds((ll - 1) as nat, (f - e) as nat);
        lemma_pow10_adds(ll as nat, (f - e) as nat);
        assert(lv * q >= pow10((ll - 1) as nat) * q && lv * q <= (pow10(ll as nat) - 1) * q)
            by (nonlinear_arith)
            requires
                pow10((ll - 1) as nat) <= lv < pow10(ll as nat),
                q >= 1,
        ;
        assert((pow10(ll as nat) - 1) * q < pow10(ll as nat) * q) by (nonlinear_arith)
            requires
                q >= 1,
        ;
        if sl - 1 + e - f < ll - 1 {
            lemma_pow10_increases(sl as nat, (ll - 1 + f - e) as nat);
        }
        if sl - 1 + e - f > ll - 1 {
            lemma_pow10_increases((ll + f - e) as nat, (sl - 1) as nat);
        }
    }
}

/// Mantissa digits read off the scanned text between `i` and `ei`, with the
/// dot at `di` removed when there is one.
pub open spec fn mant_digits_at(s: Seq<char>, i: int, di: int, ei: int) -> Seq<char> {
    if di < ei {
        s.subrange(i, di) + s.subrange(di + 1, ei)
    } else {
        s.subrange(i, ei)
    }
}

fn find_exp_idx(s: &str, from: usize, n: usize) -> (ei: usize)
    requires
        from <= n == s@.len(),
    ensures
        from <= ei <= n,
        forall|t: int| from <= t < ei ==> !is_exp_char(#[trigger] s@[t]),
        ei < n ==> is_exp_char(s@[ei as int]),
{
    let mut i: usize = from;
    while i < n
        invariant
            from <= i <= n == s@.len(),
            forall|t: int| from <= t < i ==> !is_exp_char(#[trigger] s@[t]),
        decreases n - i,
    {
        let c = s.get_char(i);
        if c == 'e' || c == 'E' {
            return i;
        }
        i = i + 1;
    }
    i
}

fn find_dot_idx(s: &str, from: usize, end: usize) -> (di: usize)
    requires
        from <= end <= s@.len(),
    ensures
        from <= di <= end,
        forall|t: int| from <= t < di ==> #[trigger] s@[t] != '.',
        di < end ==> s@[di as int] == '.',
{
    let mut i: usize = from;
    while i < end
        invariant
            from <= i <= end <= s@.len(),
            forall|t: int| from <= t < i ==> #[trigger] s@[t] != '.',
        decreases end - i,
    {
        let c = s.get_char(i);
        if c == '.' {
            return i;
        }
        i = i + 1;
    }
    i
}

/// Read one mantissa digit, skipping over the dot.
fn mantissa_digit(s: &str, i: usize, di: usize, ei: usize, j: usize) -> (c: char)
    requires
        i <= di <= ei <= s@.len(),
        j < mant_digits_at(s@, i as int, di as int, ei as int).len(),
    ensures
        c == mant_digits_at(s@, i as int, di as int, ei as int)[j as int],
{
    if di < ei && i + j >= di {
        s.get_char(i + j + 1)
    } else {
        s.get_char(i + j)
    }
}

/// Index of the first significant mantissa digit, or the digit count when
/// every digit is zero.
fn first_nonzero_digit(s: &str, i: usize, di: usize, ei: usize, dcount: usize) -> (nz: usize)
    requires
        i <= di <= ei <= s@.len(),
        dcount == mant_digits_at(s@, i as int, di as int, ei as int).len(),
    ensures
        nz <= dcount,
        forall|t: int|
            0 <= t < nz ==> mant_digits_at(s@, i as int, di as int, ei as int)[t] == '0',
        nz < dcount ==> mant_digits_at(s@, i as int, di as int, ei as int)[nz as int] != '0',
{
    let mut nz: usize = 0;
    while nz < dcount
        invariant
            nz <= dcount,
            i <= di <= ei <= s@.len(),
            dcount == mant_digits_at(s@, i as int, di as int, ei as int).len(),
            forall|t: int|
                0 <= t < nz ==> mant_digits_at(s@, i as int, di as int, ei as int)[t] == '0',
        decreases dcount - nz,
    {
        let c = mantissa_digit(s, i, di, ei, nz);
        if c != '0' {
            return nz;
        }
        nz = nz + 1;
    }
    nz
}

/// A sequence of `n` zero digits.
pub open spec fn zero_digits(n: nat) -> Seq<char> {
    Seq::new(n, |q: int| '0')
}

/// How the decimal position of a number's leading significant digit
/// compares with the limit's leading position.
enum PosCmp {
    Below,
    At,
    Above,
}

/// Compare `lcount - 1 + e - fcount` with `kt` without forming the exponent:
/// a saturated exponent decides at once, an exact one is compared in 128-bit
/// arithmetic.
fn position_compare(
    lcount: usize,
    fcount: usize,
    eneg: bool,
    eover: bool,
    emag: u128,
    kt: usize,
    Ghost(e_val): Ghost<int>,
) -> (c: PosCmp)
    requires
        lcount >= 1,
        eover ==> (if eneg {
            e_val < -(u128::MAX as int)
        } else {
            e_val > u128::MAX as int
        }),
        !eover ==> e_val == (if eneg {
            -(emag as int)
        } else {
            emag as int
        }),
    ensures
        (c is Below) == ((lcount as int - 1 + e_val - fcount as int) < kt as int),
        (c is At) == ((lcount as int - 1 + e_val - fcount as int) == kt as int),
        (c is Above) == ((lcount as int - 1 + e_val - fcount as int) > kt as int),
{
    if eover {
        if eneg {
            PosCmp::Below
        } else {
            PosCmp::Above
        }
    } else if !eneg {
        if emag >= 170141183460469231731687303715884105728u128 {
            return PosCmp::Above;
        }
        let a: u128 = (lcount as u128) + emag;
        let bc: u128 = (kt as u128) + (fcount as u128) + 1;
        if a < bc {
            PosCmp::Below
        } else if a > bc {
            PosCmp::Above
        } else {
            PosCmp::At
        }
    } else {
        if emag >= 170141183460469231731687303715884105728u128 {
            return PosCmp::Below;
        }
        let rhs: u128 = (kt as u128) + (fcount as u128) + emag + 1;
        if (lcount as u128) < rhs {
            PosCmp::Below
        } else if (lcount as u128) > rhs {
            PosCmp::Above
        } else {
            PosCmp::At
        }
    }
}

/// When the leading significant digit and the limit's leading digit stand at
/// the same decimal position, the comparison is decided digit by digit.
#[verifier::loop_isolation(false)]
#[verifier::rlimit(60)]
fn boundary_compare(
    s: &str,
    i: usize,
    di: usize,
    ei: usize,
    nz: usize,
    dcount: usize,
    fcount: usize,
    Ghost(e_val): Ghost<int>,
    limit: &str,
) -> (r: bool)
    requires
        i <= di <= ei <= s@.len(),
        dcount == mant_digits_at(s@, i as int, di as int, ei as int).len(),
        nz < dcount,
        all_digits(mant_digits_at(s@, i as int, di as int, ei as int)),
        digit_val(mant_digits_at(s@, i as int, di as int, ei as int)[nz as int]) >= 1,
        limit@.len() > 0,
        all_digits(limit@),
        digit_val(limit@[0]) >= 1,
        (dcount - nz) as int - 1 + e_val - fcount as int == limit@.len() - 1,
    ensures
        r == magnitude_lt_parts(
            mant_digits_at(s@, i as int, di as int, ei as int).skip(nz as int),
            fcount as int,
            e_val,
            limit@,
        ),
{
    let ghost d_seq = mant_digits_at(s@, i as int, di as int, ei as int);
    let ghost sig = d_seq.skip(nz as int);
    let ghost lv = digits_value(limit@);
    let lcount: usize = dcount - nz;
    let llen = limit.unicode_len();
    proof {
        assert(sig.len() == lcount as int);
        assert(all_digits(sig));
        assert(digit_val(sig[0]) >= 1);
    }
    let ghost mlen: int = if lcount as int >= llen as int {
        lcount as int
    } else {
        llen as int
    };
    let ghost xa = sig + zero_digits((mlen - lcount as int) as nat);
    let ghost bb = limit@ + zero_digits((mlen - llen as int) as nat);
    proof {
        assert forall|q: int| 0 <= q < xa.len() implies is_dec_digit(xa[q]) by {
            if q < lcount as int {
                assert(xa[q] == sig[q]);
            } else {
                assert(xa[q] == '0');
            }
        }
        assert forall|q: int| 0 <= q < bb.len() implies is_dec_digit(bb[q]) by {
            if q < llen as int {
                assert(bb[q] == limit@[q]);
            } else {
                assert(bb[q] == '0');
            }
        }
        assert(all_digits(xa));
        assert(all_digits(bb));
        assert(xa.len() == mlen && bb.len() == mlen);
        // The padded comparison decides the magnitude comparison exactly.
        lemma_digits_value_append(sig, zero_digits((mlen - lcount as int) as nat));
        lemma_digits_value_zeros(zero_digits((mlen - lcount as int) as nat));
        lemma_digits_value_append(limit@, zero_digits((mlen - llen as int) as nat));
        lemma_digits_value_zeros(zero_digits((mlen - llen as int) as nat));
        if e_val >= fcount as int {
            assert(lcount as int <= llen as int);
            assert(mlen == llen as int);
            assert(mlen - lcount as int == e_val - fcount as int);
            assert(digits_value(xa) == digits_value(sig) * pow10((e_val - fcount as int) as nat));
            assert(digits_value(bb) == lv * pow10(0) + 0);
            assert(pow10(0) == 1);
            assert(magnitude_lt_parts(sig, fcount as int, e_val, limit@) == (digits_value(xa)
                < digits_value(bb)));
        } else {
            assert(lcount as int == mlen);
            assert(mlen - llen as int == fcount as int - e_val);
            assert(digits_value(bb) == lv * pow10((fcount as int - e_val) as nat));
            assert(digits_value(xa) == digits_value(sig) * pow10(0) + 0);
            assert(pow10(0) == 1);
            assert(digits_value(xa) == digits_value(sig));
            assert(magnitude_lt_parts(sig, fcount as int, e_val, limit@) == (digits_value(xa)
                < digits_value(bb)));
        }
    }
    let mut j: usize = 0;
    while j < llen
        invariant
            0 <= j <= llen,
            forall|q: int| 0 <= q < j ==> xa[q] == bb[q],
        decreases llen - j,
    {
        let vd: char = if j < lcount {
            mantissa_digit(s, i, di, ei, nz + j)
        } else {
            '0'
        };
        let ld = limit.get_char(j);
        proof {
            if (j as int) < lcount as int {
                assert(d_seq[nz + j] == sig[j as int]);
                assert(vd == xa[j as int]);
            } else {
                assert(xa[j as int] == '0');
            }
            assert(ld == bb[j as int]);
        }
        let vu = vd as u32;
        let lu = ld as u32;
        if vu < lu {
            proof {
                lemma_digits_value_lex(xa, bb, j as int);
            }
            return true;
        }
        if vu > lu {
            proof {
                lemma_digits_value_lex(bb, xa, j as int);
            }
            return false;
        }
        j = j + 1;
    }
    // Every aligned digit matches; the magnitude is at least the limit.
    proof {
        if mlen == llen as int {
            assert(xa =~= bb);
        } else {
            assert(lcount as int > llen as int);
            assert(xa =~= sig);
            assert(xa.take(llen as int) =~= limit@);
            assert(xa =~= xa.take(llen as int) + xa.skip(llen as int));
            lemma_digits_value_append(xa.take(llen as int), xa.skip(llen as int));
            assert(all_digits(xa.skip(llen as int)));
            lemma_digits_value_bounds(xa.skip(llen as int));
            assert(digits_value(xa) >= lv * pow10((mlen - llen as int) as nat));
            assert(digits_value(bb) == lv * pow10((mlen - llen as int) as nat));
        }
    }
    false
}

/// Check that every mantissa position except the dot holds a digit.
#[verifier::loop_isolation(false)]
fn check_mantissa_digits(s: &str, i: usize, di: usize, ei: usize) -> (ok: bool)
    requires
        i <= di <= ei <= s@.len(),
    ensures
        ok == all_digits(mant_digits_at(s@, i as int, di as int, ei as int)),
{
    let ghost d_seq = mant_digits_at(s@, i as int, di as int, ei as int);
    let mut t: usize = i;
    while t < ei
        invariant
            i <= t <= ei,
            forall|u: int| i <= u < t && u != di ==> is_dec_digit(#[trigger] s@[u]),
        decreases ei - t,
    {
        if t != di {
            let c = s.get_char(t);
            let uv = c as u32;
            if !(48 <= uv && uv <= 57) {
                proof {
                    if (di as int) < ei as int && (t as int) > di as int {
                        assert(d_seq[t - i - 1] == s@[t as int]);
                    } else {
                        assert(d_seq[t - i] == s@[t as int]);
                    }
                }
                return false;
            }
        }
        t = t + 1;
    }
    proof {
        assert forall|j: int| 0 <= j < d_seq.len() implies is_dec_digit(d_seq[j]) by {
            if (di as int) < ei as int {
                if j < di - i {
                    assert(d_seq[j] == s@[i + j]);
                } else {
                    assert(d_seq[j] == s@[i + j + 1]);
                }
            } else {
                assert(d_seq[j] == s@[i + j]);
            }
        }
    }
    true
}

/// Decide whether `s` is a real literal whose magnitude stays below the
/// value the digit string `limit` denotes. One pass checks the grammar,
/// locates the significant digits, and compares decimal positions exactly.
#[verifier::loop_isolation(false)]
#[verifier::rlimit(50)]
pub(crate) fn scan_real_within(s: &str, limit: &str) -> (r: bool)
    requires
        limit@.len() > 0,
        all_digits(limit@),
        digit_val(limit@[0]) >= 1,
    ensures
        r == (is_real_literal(s@) && real_magnitude_lt(s@, digits_value(limit@))),
{
    let ghost lv = digits_value(limit@);
    let n = s.unicode_len();
    let mut i: usize = 0;
    if n > 0 {
        let c0 = s.get_char(0);
        if c0 == '+' || c0 == '-' {
            i = 1;
        }
    }
    proof {
        assert(sign_len(s@) == i as int);
    }
    let ghost b = s@.skip(i as int);
    let ei = find_exp_idx(s, i, n);
    proof {
        assert forall|t: int| 0 <= t < ei - i implies !is_exp_char(b[t]) by {
            assert(b[t] == s@[t + i]);
        }
        if (ei as int) < n as int {
            assert(b[ei - i] == s@[ei as int]);
        }
        lemma_find_exp_at(b, 0, ei - i);
    }
    let ghost m = b.take(ei - i);
    let di = find_dot_idx(s, i, ei);
    proof {
        assert forall|t: int| 0 <= t < di - i implies m[t] != '.' by {
            assert(m[t] == s@[t + i]);
        }
        if (di as int) < ei as int {
            assert(m[di - i] == s@[di as int]);
        }
        lemma_find_dot_at(m, 0, di - i);
        if (di as int) < ei as int {
            assert(m.take(di - i) =~= s@.subrange(i as int, di as int));
            assert(m.skip(di - i + 1) =~= s@.subrange(di as int + 1, ei as int));
        } else {
            assert(m =~= s@.subrange(i as int, ei as int));
        }
        assert(mantissa_digits(m) =~= mant_digits_at(s@, i as int, di as int, ei as int));
    }
    let ghost d_seq = mantissa_digits(m);
    let dcount: usize = if di < ei {
        ei - i - 1
    } else {
        ei - i
    };
    if dcount == 0 {
        proof {
            assert(!wf_mantissa(m));
        }
        return false;
    }
    if !check_mantissa_digits(s, i, di, ei) {
        proof {
            assert(!wf_mantissa(m));
        }
        return false;
    }
    proof {
        assert(all_digits(d_seq));
        assert(wf_mantissa(m));
    }
    // The exponent part, when the marker is present, is itself an integer
    // literal.
    let mut eneg: bool = false;
    let mut eover: bool = false;
    let mut emag: u128 = 0;
    if ei < n {
        let exp_str = s.substring_char(ei + 1, n);
        proof {
            assert(exp_str@ =~= b.skip(ei - i + 1));
        }
        let esc = scan_int(exp_str);
        if !esc.is_int {
            return false;
        }
        eneg = esc.negative;
        eover = esc.over;
        emag = esc.magnitude;
    }
    let ghost e_val: int = if ei == n {
        0int
    } else {
        int_literal_value(b.skip(ei - i + 1))
    };
    proof {
        assert(is_real_literal(s@));
        if (ei as int) < n as int {
            if eneg {
                if eover {
                    assert(e_val < -(u128::MAX as int));
                } else {
                    assert(e_val == -(emag as int));
                }
            } else {
                if eover {
                    assert(e_val > u128::MAX as int);
                } else {
                    assert(e_val == emag as int);
                }
            }
        } else {
            assert(e_val == 0 && !eover && !eneg && emag == 0);
        }
    }
    let fcount: usize = if di < ei {
        ei - di - 1
    } else {
        0
    };
    proof {
        assert(frac_len(m) == fcount as int);
    }
    let nz = first_nonzero_digit(s, i, di, ei, dcount);
    let ghost sig = d_seq.skip(nz as int);
    proof {
        lemma_digits_value_skip_zeros(d_seq, nz as int);
        assert(digits_value(d_seq) == digits_value(sig));
        assert(all_digits(sig));
        lemma_digits_value_leading(limit@);
        lemma_digits_value_bounds(limit@);
        lemma_pow10_pos((limit@.len() - 1) as nat);
        assert(lv >= 1);
        assert(real_magnitude_lt(s@, lv) == magnitude_lt_parts(sig, fcount as int, e_val, limit@));
    }
    if nz == dcount {
        // Every mantissa digit is zero: the magnitude is zero, below any limit.
        proof {
            assert(sig =~= Seq::<char>::empty());
            assert(digits_value(sig) == 0);
            if e_val >= fcount as int {
                assert(0 * pow10((e_val - fcount as int) as nat) == 0);
            } else {
                let q = pow10((fcount as int - e_val) as nat);
                lemma_pow10_pos((fcount as int - e_val) as nat);
                assert(lv * q >= 1) by (nonlinear_arith)
                    requires
                        lv >= 1,
                        q >= 1,
                ;
            }
        }
        return true;
    }
    let lcount: usize = dcount - nz;
    proof {
        assert(sig.len() == lcount as int);
        assert(digit_val(sig[0]) >= 1);
    }
    let llen = limit.unicode_len();
    let kt: usize = llen - 1;
    let pos = position_compare(lcount, fcount, eneg, eover, emag, kt, Ghost(e_val));
    match pos {
        PosCmp::Below => {
            proof {
                lemma_magnitude_trichotomy(sig, fcount as int, e_val, limit@);
            }
            true
        },
        PosCmp::Above => {
            proof {
                lemma_magnitude_trichotomy(sig, fcount as int, e_val, limit@);
            }
            false
        },
        PosCmp::At => boundary_compare(s, i, di, ei, nz, dcount, fcount, Ghost(e_val), limit),
    }
}

/// Recognize a real literal that the 32-bit parser accepts as finite.
pub(crate) fn scan_real32(s: &str) -> (r: bool)
    ensures
        r == fits_real32(s@),
{
    proof {
        reveal_strlit("340282356779733661637539395458142568448");
    }
    scan_real_within(s, "340282356779733661637539395458142568448")
}

/// Recognize a real literal that the 64-bit parser accepts as finite.
pub(crate) fn scan_real64(s: &str) -> (r: bool)
    ensures
        r == fits_real64(s@),
{
    proof {
        reveal_strlit(
            "179769313486231580793728971405303415079934132710037826936173778980444968292764750946649017977587207096330286416692887910946555547851940402630657488671505820681908902000708383676273854845817711531764475730270069855571366959622842914819860834936475292719074168444365510704342711559699508093042880177904174497792",
        );
    }
    scan_real_within(
        s,
        "179769313486231580793728971405303415079934132710037826936173778980444968292764750946649017977587207096330286416692887910946555547851940402630657488671505820681908902000708383676273854845817711531764475730270069855571366959622842914819860834936475292719074168444365510704342711559699508093042880177904174497792",
    )
}

} // verus!
