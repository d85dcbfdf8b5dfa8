//! Decimal digit sequences and their integer values: the arithmetic core
//! shared by the integer and real-number recognizers.

use vstd::prelude::*;

verus! {

/// Powers of ten.
pub open spec fn pow10(n: nat) -> int
    decreases n,
{
    if n == 0 {
        1
    } else {
        10 * pow10((n - 1) as nat)
    }
}

/// An ASCII decimal digit.
pub open spec fn is_dec_digit(c: char) -> bool {
    '0' <= c && c <= '9'
}

/// Numeric value of one digit character.
pub open spec fn digit_val(c: char) -> int {
    c as int - '0' as int
}

/// Every character of `s` is a decimal digit.
pub open spec fn all_digits(s: Seq<char>) -> bool {
    forall|i: int| 0 <= i < s.len() ==> is_dec_digit(#[trigger] s[i])
}

/// The integer a digit sequence denotes, most significant digit first.
pub open spec fn digits_value(s: Seq<char>) -> int
    decreases s.len(),
{
    if s.len() == 0 {
        0
    } else {
        digits_value(s.drop_last()) * 10 + digit_val(s.last())
    }
}

pub proof fn lemma_pow10_pos(n: nat)
    ensures
        pow10(n) >= 1,
    decreases n,
{
    if n > 0 {
        lemma_pow10_pos((n - 1) as nat);
    }
}

pub proof fn lemma_pow10_adds(a: nat, b: nat)
    ensures
        pow10(a + b) == pow10(a) * pow10(b),
    decreases a,
{
    if a == 0 {
        assert(pow10(b) == 1 * pow10(b));
    } else {
        lemma_pow10_adds((a - 1) as nat, b);
        assert(pow10((a - 1) as nat + b) == pow10((a - 1) as nat) * pow10(b));
        assert(pow10(a + b) == 10 * (pow10((a - 1) as nat) * pow10(b)));
        assert(10 * (pow10((a - 1) as nat) * pow10(b)) == (10 * pow10((a - 1) as nat)) * pow10(b))
            by (nonlinear_arith);
    }
}

pub proof fn lemma_pow10_increases(a: nat, b: nat)
    requires
        a <= b,
    ensures
        pow10(a) <= pow10(b),
{
    lemma_pow10_adds(a, (b - a) as nat);
    lemma_pow10_pos(a);
    lemma_pow10_pos((b - a) as nat);
    assert(pow10(a) * 1 <= pow10(a) * pow10((b - a) as nat)) by (nonlinear_arith)
        requires
            pow10(a) >= 1,
            pow10((b - a) as nat) >= 1,
    ;
}

/// A digit string of length `n` denotes a value in `[0, 10^n)`.
pub proof fn lemma_digits_value_bounds(s: Seq<char>)
    requires
        all_digits(s),
    ensures
        0 <= digits_value(s) < pow10(s.len()),
    decreases s.len(),
{
    if s.len() > 0 {
        assert(all_digits(s.drop_last()));
        lemma_digits_value_bounds(s.drop_last());
        assert(digits_value(s.drop_last()) <= pow10((s.len() - 1) as nat) - 1);
        assert(pow10(s.len()) == 10 * pow10((s.len() - 1) as nat));
    }
}

/// Concatenation shifts the left part by a power of ten.
pub proof fn lemma_digits_value_append(a: Seq<char>, b: Seq<char>)
    ensures
        digits_value(a + b) == digits_value(a) * pow10(b.len()) + digits_value(b),
    decreases b.len(),
{
    if b.len() == 0 {
        assert(a + b =~= a);
    } else {
        let b0 = b.drop_last();
        lemma_digits_value_append(a, b0);
        assert((a + b).drop_last() =~= a + b0);
        assert(digits_value(a + b) == (digits_value(a) * pow10(b0.len()) + digits_value(b0)) * 10
            + digit_val(b.last()));
        assert((digits_value(a) * pow10(b0.len())) * 10 == digits_value(a) * (10 * pow10(
            b0.len(),
        ))) by (nonlinear_arith);
        assert(pow10(b.len()) == 10 * pow10(b0.len()));
    }
}

/// A run of zero digits denotes zero.
pub proof fn lemma_digits_value_zeros(s: Seq<char>)
    requires
        forall|i: int| 0 <= i < s.len() ==> s[i] == '0',
    ensures
        digits_value(s) == 0,
    decreases s.len(),
{
    if s.len() > 0 {
        lemma_digits_value_zeros(s.drop_last());
    }
}

/// Dropping leading zeros keeps the value.
pub proof fn lemma_digits_value_skip_zeros(s: Seq<char>, j: int)
    requires
        0 <= j <= s.len(),
        forall|i: int| 0 <= i < j ==> s[i] == '0',
    ensures
        digits_value(s) == digits_value(s.skip(j)),
{
    assert(s =~= s.take(j) + s.skip(j));
    lemma_digits_value_append(s.take(j), s.skip(j));
    lemma_digits_value_zeros(s.take(j));
}

/// A digit string with a nonzero leading digit denotes at least `10^(n-1)`.
pub proof fn lemma_digits_value_leading(s: Seq<char>)
    requires
        all_digits(s),
        s.len() > 0,
        digit_val(s[0]) >= 1,
    ensures
        digits_value(s) >= pow10((s.len() - 1) as nat),
{
    reveal_with_fuel(digits_value, 2);
    let rest = s.skip(1);
    assert(s =~= seq![s[0]] + rest);
    assert(seq![s[0]].drop_last() =~= Seq::<char>::empty());
    lemma_digits_value_append(seq![s[0]], rest);
    assert(digits_value(seq![s[0]]) == digit_val(s[0]));
    assert(all_digits(rest));
    lemma_digits_value_bounds(rest);
    lemma_pow10_pos(rest.len());
    assert(digit_val(s[0]) * pow10(rest.len()) >= 1 * pow10(rest.len())) by (nonlinear_arith)
        requires
            digit_val(s[0]) >= 1,
            pow10(rest.len()) >= 1,
    ;
}

/// The character rendering one digit value.
pub open spec fn digit_char(d: int) -> char {
    if d == 0 {
        '0'
    } else if d == 1 {
        '1'
    } else if d == 2 {
        '2'
    } else if d == 3 {
        '3'
    } else if d == 4 {
        '4'
    } else if d == 5 {
        '5'
    } else if d == 6 {
        '6'
    } else if d == 7 {
        '7'
    } else if d == 8 {
        '8'
    } else {
        '9'
    }
}

/// The decimal rendering of a number, most significant digit first.
pub open spec fn dec_digits_of(n: nat) -> Seq<char>
    decreases n,
{
    if n < 10 {
        seq![digit_char(n as int)]
    } else {
        dec_digits_of(n / 10) + seq![digit_char((n % 10) as int)]
    }
}

/// Digit values, least significant first, read back as characters.
spec fn rev_digit_chars(ds: Seq<u8>) -> Seq<char> {
    Seq::new(ds.len(), |i: int| digit_char(ds[ds.len() - 1 - i] as int))
}

fn digit_str(d: u8) -> (r: &'static str)
    requires
        d < 10,
    ensures
        r@.len() == 1,
        r@[0] == digit_char(d as int),
{
    proof {
        reveal_strlit("0");
        reveal_strlit("1");
        reveal_strlit("2");
        reveal_strlit("3");
        reveal_strlit("4");
        reveal_strlit("5");
        reveal_strlit("6");
        reveal_strlit("7");
        reveal_strlit("8");
        reveal_strlit("9");
    }
    match d {
        0 => "0",
        1 => "1",
        2 => "2",
        3 => "3",
        4 => "4",
        5 => "5",
        6 => "6",
        7 => "7",
        8 => "8",
        _ => "9",
    }
}

/// Render a number in decimal.
#[verifier::loop_isolation(false)]
pub fn usize_to_string(n: usize) -> (r: String)
    ensures
        r@ == dec_digits_of(n as nat),
{
    let mut digs: Vec<u8> = Vec::new();
    let mut m: usize = n;
    if m == 0 {
        digs.push(0);
        proof {
            assert(rev_digit_chars(digs@) =~= seq![digit_char(0)]);
        }
    } else {
        proof {
            assert(dec_digits_of(n as nat) =~= dec_digits_of(m as nat) + rev_digit_chars(digs@));
        }
        while m > 0
            invariant
                m > 0 ==> dec_digits_of(n as nat) == dec_digits_of(m as nat) + rev_digit_chars(
                    digs@,
                ),
                m == 0 ==> dec_digits_of(n as nat) == rev_digit_chars(digs@),
                forall|t: int| 0 <= t < digs@.len() ==> digs@[t] < 10,
            decreases m,
        {
            let d = (m % 10) as u8;
            let ghost old_digs = digs@;
            let ghost old_m = m as nat;
            digs.push(d);
            m = m / 10;
            proof {
                assert(rev_digit_chars(digs@) =~= seq![digit_char(d as int)] + rev_digit_chars(
                    old_digs,
                ));
                if old_m < 10 {
                    assert(dec_digits_of(old_m) == seq![digit_char(old_m as int)]);
                    assert(dec_digits_of(n as nat) =~= rev_digit_chars(digs@));
                } else {
                    assert(dec_digits_of(old_m) == dec_digits_of(old_m / 10) + seq![
                        digit_char((old_m % 10) as int),
                    ]);
                    assert(dec_digits_of(n as nat) =~= dec_digits_of(m as nat) + rev_digit_chars(
                        digs@,
                    ));
                }
            }
        }
    }
    let mut out = String::new();
    let mut i: usize = digs.len();
    proof {
        assert(out@ =~= rev_digit_chars(digs@).take(0));
    }
    while i > 0
        invariant
            i <= digs.len(),
            out@ == rev_digit_chars(digs@).take(digs@.len() - i),
        decreases i,
    {
        i = i - 1;
        let d = digs[i];
        out.append(digit_str(d));
        proof {
            assert(out@ =~= rev_digit_chars(digs@).take(digs@.len() - i));
        }
    }
    proof {
        assert(rev_digit_chars(digs@).take(digs@.len() as int) =~= rev_digit_chars(digs@));
    }
    out
}

/// Digit strings of equal length compare as their values do: a smaller digit
/// at the first differing position means a smaller value.
pub proof fn lemma_digits_value_lex(x: Seq<char>, y: Seq<char>, j: int)
    requires
        all_digits(x),
        all_digits(y),
        x.len() == y.len(),
        0 <= j < x.len(),
        forall|i: int| 0 <= i < j ==> x[i] == y[i],
        digit_val(x[j]) < digit_val(y[j]),
    ensures
        digits_value(x) < digits_value(y),
{
    reveal_with_fuel(pow10, 2);
    reveal_with_fuel(digits_value, 2);
    let n = x.len() as int;
    let tail_len = (n - j - 1) as nat;
    assert(x =~= x.take(j) + seq![x[j]] + x.skip(j + 1));
    assert(y =~= y.take(j) + seq![y[j]] + y.skip(j + 1));
    assert(x.take(j) =~= y.take(j));
    let c = digits_value(x.take(j));
    lemma_digits_value_append(x.take(j) + seq![x[j]], x.skip(j + 1));
    lemma_digits_value_append(x.take(j), seq![x[j]]);
    lemma_digits_value_append(y.take(j) + seq![y[j]], y.skip(j + 1));
    lemma_digits_value_append(y.take(j), seq![y[j]]);
    assert(seq![x[j]].drop_last() =~= Seq::<char>::empty());
    assert(seq![y[j]].drop_last() =~= Seq::<char>::empty());
    assert(digits_value(seq![x[j]]) == digit_val(x[j]));
    assert(digits_value(seq![y[j]]) == digit_val(y[j]));
    assert(pow10(1) == 10);
    assert(all_digits(x.skip(j + 1)));
    assert(all_digits(y.skip(j + 1)));
    lemma_digits_value_bounds(x.skip(j + 1));
    lemma_digits_value_bounds(y.skip(j + 1));
    let p = pow10(tail_len);
    lemma_pow10_pos(tail_len);
    let dx = digit_val(x[j]);
    let dy = digit_val(y[j]);
    assert(digits_value(x) == (c * 10 + dx) * p + digits_value(x.skip(j + 1)));
    assert(digits_value(y) == (c * 10 + dy) * p + digits_value(y.skip(j + 1)));
    assert((c * 10 + dx) * p + p <= (c * 10 + dy) * p) by (nonlinear_arith)
        requires
            dx < dy,
            p >= 1,
    ;
}

} // verus!
