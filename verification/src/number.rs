//! The numeric rules of the line grammar: the floating-point token
//! (optional sign, integer part, fractional part, exponent), the value
//! reader that also recognizes the two infinity literals, and the optional
//! timestamp reader, which truncates the decimal value toward zero into a
//! signed 64-bit integer.

use crate::records::MetricValue;
use crate::records::SpecValue;
use crate::text::spec_skip_spaces;
use crate::text::skip_spaces;
use crate::text::string_from_range;
use vstd::prelude::*;
use vstd::string::StrSliceExecFns;

verus! {

/// A decimal digit.
pub open spec fn is_digit_char(c: char) -> bool {
    '0' <= c && c <= '9'
}

/// The numeric value of one digit character (and zero for any other).
pub open spec fn digit_val(c: char) -> nat {
    if is_digit_char(c) {
        (c as u32 - 48) as nat
    } else {
        0
    }
}

/// The value of a run of digit characters read in base ten.
pub open spec fn digits_val(s: Seq<char>) -> nat
    decreases s.len(),
{
    if s.len() == 0 {
        0
    } else {
        digits_val(s.drop_last()) * 10 + digit_val(s.last())
    }
}

/// Ten to the given power.
pub open spec fn pow10(n: nat) -> nat
    decreases n,
{
    if n == 0 {
        1
    } else {
        10 * pow10((n - 1) as nat)
    }
}

/// The end of the run of digit characters starting at `i`.
pub open spec fn spec_scan_digits(s: Seq<char>, i: int) -> int
    decreases s.len() - i,
{
    if 0 <= i && i < s.len() && is_digit_char(s[i]) {
        spec_scan_digits(s, i + 1)
    } else {
        i
    }
}

/// The decomposition of a numeric token: its sign, the digits of the
/// integer and fractional parts run together, the power of ten by which
/// those digits are shifted (exponent minus number of fractional digits),
/// and the position right after the token.
pub struct NumParts {
    pub neg: bool,
    pub digits: Seq<char>,
    pub shift: int,
    pub end: int,
}

/// The exponent rule at `me`, producing the finished decomposition: an
/// optional `e`/`E` with optional sign and at least one digit; without it
/// the token ends at `me`.
pub open spec fn spec_num_finish(
    s: Seq<char>,
    neg: bool,
    int_digits: Seq<char>,
    frac: Seq<char>,
    me: int,
) -> NumParts {
    if me < s.len() && (s[me] == 'e' || s[me] == 'E') {
        let k0 = me + 1;
        let eneg = k0 < s.len() && s[k0] == '-';
        let k = if k0 < s.len() && (s[k0] == '+' || s[k0] == '-') {
            k0 + 1
        } else {
            k0
        };
        if k < s.len() && is_digit_char(s[k]) {
            let ee = spec_scan_digits(s, k);
            let ev = digits_val(s.subrange(k, ee)) as int;
            NumParts {
                neg,
                digits: int_digits + frac,
                shift: (if eneg {
                    -ev
                } else {
                    ev
                }) - frac.len(),
                end: ee,
            }
        } else {
            NumParts { neg, digits: int_digits + frac, shift: -frac.len(), end: me }
        }
    } else {
        NumParts { neg, digits: int_digits + frac, shift: -frac.len(), end: me }
    }
}

/// The numeric-token rule at `i`: an optional sign, then either digits
/// with an optional fraction, or a fraction alone, then an optional
/// exponent. `None` when no such token starts at `i`.
pub open spec fn spec_number(s: Seq<char>, i: int) -> Option<NumParts> {
    if i < 0 {
        None
    } else {
        let j = if i < s.len() && (s[i] == '+' || s[i] == '-') {
            i + 1
        } else {
            i
        };
        let neg = i < s.len() && s[i] == '-';
        if j < s.len() && is_digit_char(s[j]) {
            let ie = spec_scan_digits(s, j);
            if ie < s.len() && s[ie] == '.' {
                let fe = spec_scan_digits(s, ie + 1);
                Some(spec_num_finish(s, neg, s.subrange(j, ie), s.subrange(ie + 1, fe), fe))
            } else {
                Some(spec_num_finish(s, neg, s.subrange(j, ie), Seq::empty(), ie))
            }
        } else if j + 1 < s.len() && s[j] == '.' && is_digit_char(s[j + 1]) {
            let fe = spec_scan_digits(s, j + 1);
            Some(spec_num_finish(s, neg, Seq::empty(), s.subrange(j + 1, fe), fe))
        } else {
            None
        }
    }
}

/// The magnitude of a decomposed token, truncated toward zero. A
/// non-negative shift multiplies the digits by that power of ten; a
/// negative shift drops that many digits from the right, which is exactly
/// truncation of the fractional part.
pub open spec fn spec_trunc_mag(p: NumParts) -> nat {
    if p.shift >= 0 {
        digits_val(p.digits) * pow10(p.shift as nat)
    } else if p.digits.len() + p.shift <= 0 {
        0
    } else {
        digits_val(p.digits.take(p.digits.len() + p.shift))
    }
}

/// The decimal value of a decomposed token, truncated toward zero and
/// clamped to the range of `i64`.
pub open spec fn spec_trunc(p: NumParts) -> int {
    let m = spec_trunc_mag(p);
    let v: int = if p.neg {
        -(m as int)
    } else {
        m as int
    };
    if v > i64::MAX as int {
        i64::MAX as int
    } else if v < i64::MIN as int {
        i64::MIN as int
    } else {
        v
    }
}

proof fn lemma_pow10_pos(n: nat)
    ensures
        pow10(n) >= 1,
    decreases n,
{
    if n > 0 {
        lemma_pow10_pos((n - 1) as nat);
    }
}

proof fn lemma_digits_val_bound(ds: Seq<char>)
    ensures
        digits_val(ds) < pow10(ds.len()),
    decreases ds.len(),
{
    if ds.len() > 0 {
        lemma_digits_val_bound(ds.drop_last());
        assert(pow10(ds.len()) == 10 * pow10((ds.len() - 1) as nat));
    }
}

/// Dropping the last `k` digits of a digit run divides its value by ten
/// to the `k`, rounding down.
proof fn lemma_digit_drop_is_division(ds: Seq<char>, k: nat)
    requires
        k <= ds.len(),
    ensures
        digits_val(ds.take(ds.len() - k)) == digits_val(ds) / pow10(k),
    decreases k,
{
    if k == 0 {
        assert(ds.take(ds.len() - 0) =~= ds);
        assert(pow10(0) == 1);
        vstd::arithmetic::div_mod::lemma_div_basics(digits_val(ds) as int);
    } else {
        let dl = ds.drop_last();
        let d = digit_val(ds.last());
        let v = digits_val(ds);
        assert(v == digits_val(dl) * 10 + d);
        assert(d < 10);
        lemma_digit_drop_is_division(dl, (k - 1) as nat);
        assert(ds.take(ds.len() - k) =~= dl.take(dl.len() - (k - 1)));
        lemma_pow10_pos((k - 1) as nat);
        vstd::arithmetic::div_mod::lemma_div_multiples_vanish_fancy(
            digits_val(dl) as int,
            d as int,
            10,
        );
        assert(10 * (digits_val(dl) as int) + d == v);
        assert(v as int / 10 == digits_val(dl));
        vstd::arithmetic::div_mod::lemma_div_denominator(
            v as int,
            10,
            pow10((k - 1) as nat) as int,
        );
        assert(pow10(k) == 10 * pow10((k - 1) as nat));
    }
}

/// The truncated magnitude of a token with a negative shift, written as a
/// quotient: dropping the trailing digits is exactly floor division of
/// the digit run's value by ten to the size of the shift.
pub proof fn lemma_trunc_mag_division_form(p: NumParts)
    requires
        p.shift < 0,
    ensures
        spec_trunc_mag(p) == digits_val(p.digits) / pow10((-p.shift) as nat),
{
    let ds = p.digits;
    let k = (-p.shift) as nat;
    if k >= ds.len() {
        lemma_digits_val_bound(ds);
        lemma_pow10_mono(ds.len(), k);
        assert(digits_val(ds) < pow10(k));
        vstd::arithmetic::div_mod::lemma_basic_div(digits_val(ds) as int, pow10(k) as int);
    } else {
        lemma_digit_drop_is_division(ds, k);
        assert(ds.len() + p.shift == ds.len() - k);
    }
}

/// Whether the four characters of `+Inf` stand at `i`.
pub open spec fn is_plus_inf_at(s: Seq<char>, i: int) -> bool {
    0 <= i && i + 4 <= s.len() && s[i] == '+' && s[i + 1] == 'I' && s[i + 2] == 'n' && s[i + 3]
        == 'f'
}

/// Whether the four characters of `-Inf` stand at `i`.
pub open spec fn is_minus_inf_at(s: Seq<char>, i: int) -> bool {
    0 <= i && i + 4 <= s.len() && s[i] == '-' && s[i + 1] == 'I' && s[i + 2] == 'n' && s[i + 3]
        == 'f'
}

/// The value rule at `i`: after leading whitespace, `+Inf`, `-Inf`, or a
/// numeric token kept verbatim. `None` when none of the three matches.
pub open spec fn spec_value(s: Seq<char>, i: int) -> Option<(int, SpecValue)> {
    let st = spec_skip_spaces(s, i);
    if is_plus_inf_at(s, st) {
        Some((st + 4, SpecValue::PosInf))
    } else if is_minus_inf_at(s, st) {
        Some((st + 4, SpecValue::NegInf))
    } else {
        match spec_number(s, st) {
            Some(p) => Some((p.end, SpecValue::Num(s.subrange(st, p.end)))),
            None => None,
        }
    }
}

/// The timestamp rule at `i`: an optional numeric token after whitespace,
/// truncated toward zero. Absence of a token is a successful absent
/// timestamp that consumes nothing.
pub open spec fn spec_timestamp(s: Seq<char>, i: int) -> (int, Option<int>) {
    match spec_number(s, spec_skip_spaces(s, i)) {
        Some(p) => (p.end, Some(spec_trunc(p))),
        None => (i, None),
    }
}

/// An absent trailing number yields an absent timestamp, never zero, and
/// consumes no input.
pub proof fn lemma_timestamp_absent(s: Seq<char>, i: int)
    requires
        spec_number(s, spec_skip_spaces(s, i)) is None,
    ensures
        spec_timestamp(s, i).1 is None,
        spec_timestamp(s, i).0 == i,
{
}

/// `+Inf` at the value position yields positive infinity exactly, and
/// `-Inf` negative infinity.
pub proof fn lemma_value_infinities(s: Seq<char>, i: int)
    ensures
        is_plus_inf_at(s, spec_skip_spaces(s, i)) ==> spec_value(s, i) == Some(
            ((spec_skip_spaces(s, i) + 4, SpecValue::PosInf)),
        ),
        is_minus_inf_at(s, spec_skip_spaces(s, i)) ==> spec_value(s, i) == Some(
            ((spec_skip_spaces(s, i) + 4, SpecValue::NegInf)),
        ),
{
}

proof fn lemma_scan_digits_bounds(s: Seq<char>, i: int)
    requires
        0 <= i <= s.len(),
    ensures
        i <= spec_scan_digits(s, i) <= s.len(),
    decreases s.len() - i,
{
    if i < s.len() && is_digit_char(s[i]) {
        lemma_scan_digits_bounds(s, i + 1);
    }
}

fn is_digit(c: char) -> (r: bool)
    ensures
        r == is_digit_char(c),
{
    c >= '0' && c <= '9'
}

fn scan_digits(s: &str, from: usize) -> (r: usize)
    requires
        from <= s@.len(),
    ensures
        from <= r <= s@.len(),
        r == spec_scan_digits(s@, from as int),
        forall|t: int| from <= t < r ==> is_digit_char(s@[t]),
{
    let n: usize = s.unicode_len();
    let mut j: usize = from;
    while j < n && is_digit(s.get_char(j))
        invariant
            from <= j <= n,
            n == s@.len(),
            spec_scan_digits(s@, from as int) == spec_scan_digits(s@, j as int),
            forall|t: int| from <= t < j ==> is_digit_char(s@[t]),
        decreases n - j,
    {
        j = j + 1;
    }
    j
}

/// The character ranges of one scanned numeric token: sign, integer
/// digits `[a, b)`, fractional digits `[c, d)`, exponent sign and digits
/// `[e0, e1)`, and the end of the token.
#[derive(Clone, Copy)]
struct NumScan {
    neg: bool,
    a: usize,
    b: usize,
    c: usize,
    d: usize,
    eneg: bool,
    e0: usize,
    e1: usize,
    end: usize,
}

/// How a scanned token relates to the decomposition the grammar assigns.
spec fn scan_matches(s: Seq<char>, from: int, sc: NumScan) -> bool {
    &&& from <= sc.a <= sc.b <= sc.c <= sc.d <= s.len()
    &&& sc.e0 <= sc.e1 <= s.len()
    &&& from < sc.end <= s.len()
    &&& (forall|t: int| sc.a <= t < sc.b ==> is_digit_char(s[t]))
    &&& (forall|t: int| sc.c <= t < sc.d ==> is_digit_char(s[t]))
    &&& (forall|t: int| sc.e0 <= t < sc.e1 ==> is_digit_char(s[t]))
    &&& spec_number(s, from) == Some(
        (NumParts {
            neg: sc.neg,
            digits: s.subrange(sc.a as int, sc.b as int) + s.subrange(sc.c as int, sc.d as int),
            shift: (if sc.eneg {
                -(digits_val(s.subrange(sc.e0 as int, sc.e1 as int)) as int)
            } else {
                digits_val(s.subrange(sc.e0 as int, sc.e1 as int)) as int
            }) - (sc.d - sc.c),
            end: sc.end as int,
        }),
    )
}

#[verifier::rlimit(80)]
fn scan_number(s: &str, from: usize) -> (r: Option<NumScan>)
    requires
        from <= s@.len(),
    ensures
        r is Some <==> spec_number(s@, from as int) is Some,
        (r matches Some(sc) ==> scan_matches(s@, from as int, sc)),
{
    let n: usize = s.unicode_len();
    let mut j: usize = from;
    let mut neg = false;
    if j < n {
        let c0 = s.get_char(j);
        if c0 == '+' {
            j = j + 1;
        } else if c0 == '-' {
            neg = true;
            j = j + 1;
        }
    }
    let a: usize;
    let b: usize;
    let c: usize;
    let d: usize;
    if j < n && is_digit(s.get_char(j)) {
        a = j;
        b = scan_digits(s, j);
        proof {
            lemma_scan_digits_bounds(s@, j + 1);
        }
        if b < n && s.get_char(b) == '.' {
            c = b + 1;
            d = scan_digits(s, b + 1);
        } else {
            c = b;
            d = b;
        }
    } else if j < n && s.get_char(j) == '.' && j + 1 < n && is_digit(s.get_char(j + 1)) {
        a = j;
        b = j;
        c = j + 1;
        d = scan_digits(s, j + 1);
    } else {
        return None;
    }
    let me = d;
    let mut e0 = me;
    let mut e1 = me;
    let mut eneg = false;
    let mut end = me;
    if me < n {
        let cm = s.get_char(me);
        if cm == 'e' || cm == 'E' {
            let mut k = me + 1;
            let mut en = false;
            if k < n {
                let ck = s.get_char(k);
                if ck == '+' {
                    k = k + 1;
                } else if ck == '-' {
                    en = true;
                    k = k + 1;
                }
            }
            if k < n && is_digit(s.get_char(k)) {
                e0 = k;
                e1 = scan_digits(s, k);
                eneg = en;
                end = e1;
            }
        }
    }
    let sc = NumScan { neg, a, b, c, d, eneg, e0, e1, end };
    proof {
        if a == b {
            assert(s@.subrange(a as int, b as int) =~= Seq::<char>::empty());
        }
        if c == d {
            assert(s@.subrange(c as int, d as int) =~= Seq::<char>::empty());
        }
        if e0 == e1 {
            assert(s@.subrange(e0 as int, e1 as int) =~= Seq::<char>::empty());
            assert(digits_val(s@.subrange(e0 as int, e1 as int)) == 0);
        }
        if a < b {
            assert(Seq::<char>::empty() + s@.subrange(c as int, d as int) =~= s@.subrange(
                c as int,
                d as int,
            ));
        }
        let p = spec_number(s@, from as int);
        assert(p is Some);
        let q = NumParts {
            neg: sc.neg,
            digits: s@.subrange(sc.a as int, sc.b as int) + s@.subrange(sc.c as int, sc.d as int),
            shift: (if sc.eneg {
                -(digits_val(s@.subrange(sc.e0 as int, sc.e1 as int)) as int)
            } else {
                digits_val(s@.subrange(sc.e0 as int, sc.e1 as int)) as int
            }) - (sc.d - sc.c),
            end: sc.end as int,
        };
        assert(p->Some_0.digits =~= q.digits);
        assert(p == Some(q));
    }
    Some(sc)
}

/// A natural number saturated at two to the sixty-third power, the first
/// magnitude outside the range of `i64`.
spec fn sat63(v: nat) -> nat {
    if v >= 9223372036854775808 {
        9223372036854775808
    } else {
        v
    }
}

proof fn lemma_pow10_mono(a: nat, b: nat)
    requires
        a <= b,
    ensures
        pow10(a) <= pow10(b),
    decreases b,
{
    if a < b {
        lemma_pow10_mono(a, (b - 1) as nat);
        assert(pow10(b) == 10 * pow10((b - 1) as nat));
    }
}

proof fn lemma_pow10_19()
    ensures
        pow10(19) == 10000000000000000000nat,
{
    reveal_with_fuel(pow10, 21);
}

proof fn lemma_mul_ge(d: nat, q: nat)
    requires
        d >= 1,
    ensures
        d * q >= q,
{
    assert(d * q >= 1 * q) by (nonlinear_arith)
        requires
            d >= 1,
    ;
}

fn digit_value(c: char) -> (r: u64)
    requires
        is_digit_char(c),
    ensures
        r as nat == digit_val(c),
        r <= 9,
{
    (c as u32 - 48) as u64
}

/// One step of saturated base-ten accumulation: appends the digit `d` to a
/// value whose saturation is `acc`.
fn sat_step(acc: u64, d: u64, Ghost(v): Ghost<nat>) -> (r: u64)
    requires
        d <= 9,
        acc as nat == sat63(v),
    ensures
        r as nat == sat63((v * 10 + d) as nat),
{
    if acc >= 922337203685477581 {
        9223372036854775808u64
    } else {
        let r = acc * 10 + d;
        if r > 9223372036854775808u64 {
            9223372036854775808u64
        } else {
            r
        }
    }
}

/// Computes the truncated, clamped decimal value of a scanned token.
#[verifier::rlimit(100)]
fn trunc_from_scan(s: &str, from: usize, sc: NumScan) -> (t: i64)
    requires
        from <= s@.len(),
        scan_matches(s@, from as int, sc),
    ensures
        (spec_number(s@, from as int) matches Some(p) && t as int == spec_trunc(p)),
{
    let ghost p = spec_number(s@, from as int)->Some_0;
    let ghost ds = p.digits;
    let ghost ev_true = digits_val(s@.subrange(sc.e0 as int, sc.e1 as int));
    // Exponent value, exact below ten to the twentieth power.
    let mut ev: u128 = 0;
    let mut eover: bool = false;
    let mut t0: usize = sc.e0;
    while t0 < sc.e1
        invariant
            scan_matches(s@, from as int, sc),
            sc.e0 <= t0 <= sc.e1 <= s@.len(),
            !eover ==> ev as nat == digits_val(s@.subrange(sc.e0 as int, t0 as int)) && (ev as nat)
                < 100000000000000000000nat,
            eover ==> digits_val(s@.subrange(sc.e0 as int, t0 as int))
                >= 100000000000000000000nat,
        decreases sc.e1 - t0,
    {
        let ghost pre = s@.subrange(sc.e0 as int, t0 as int);
        let ghost post = s@.subrange(sc.e0 as int, (t0 + 1) as int);
        proof {
            assert(post.drop_last() =~= pre);
            assert(post.last() == s@[t0 as int]);
        }
        let ch = s.get_char(t0);
        let dv = digit_value(ch);
        if eover {
            proof {
                assert(digits_val(post) == digits_val(pre) * 10 + digit_val(s@[t0 as int]));
            }
        } else if ev >= 10000000000000000000u128 {
            eover = true;
            proof {
                assert(digits_val(post) == digits_val(pre) * 10 + digit_val(s@[t0 as int]));
            }
        } else {
            ev = ev * 10 + dv as u128;
            proof {
                assert(digits_val(post) == digits_val(pre) * 10 + digit_val(s@[t0 as int]));
            }
        }
        t0 = t0 + 1;
    }
    proof {
        assert(!eover ==> ev as nat == ev_true);
        assert(eover ==> ev_true >= 100000000000000000000nat);
    }
    let fl: usize = sc.d - sc.c;
    let nd: usize = (sc.b - sc.a) + (sc.d - sc.c);
    proof {
        assert(nd == ds.len());
        assert(ds.take(nd as int) =~= ds);
        assert(p.shift == (if sc.eneg {
            -(ev_true as int)
        } else {
            ev_true as int
        }) - fl);
    }
    // Decide how many digits to keep and how many trailing zeros to append;
    // shifts of nineteen or more saturate outright.
    let keep: usize;
    let mshift: usize;
    let saturate: bool;
    if !sc.eneg {
        if eover {
            saturate = true;
            keep = nd;
            mshift = 0;
            proof {
                assert(p.shift >= 19);
                lemma_pow10_mono(19, p.shift as nat);
                lemma_pow10_19();
                if digits_val(ds) >= 1 {
                    lemma_mul_ge(digits_val(ds), pow10(p.shift as nat));
                    assert(spec_trunc_mag(p) >= 9223372036854775808nat);
                }
                assert(digits_val(ds) == 0 ==> spec_trunc_mag(p) == 0);
            }
        } else if ev >= fl as u128 {
            let sh = ev - fl as u128;
            if sh >= 19 {
                saturate = true;
                keep = nd;
                mshift = 0;
                proof {
                    assert(p.shift == sh);
                    lemma_pow10_mono(19, p.shift as nat);
                    lemma_pow10_19();
                    if digits_val(ds) >= 1 {
                        lemma_mul_ge(digits_val(ds), pow10(p.shift as nat));
                        assert(spec_trunc_mag(p) >= 9223372036854775808nat);
                    }
                    assert(digits_val(ds) == 0 ==> spec_trunc_mag(p) == 0);
                }
            } else {
                saturate = false;
                keep = nd;
                mshift = sh as usize;
                proof {
                    assert(p.shift == mshift);
                    assert(ds.take(nd as int) =~= ds);
                    assert(spec_trunc_mag(p) == digits_val(ds.take(keep as int)) * pow10(
                        mshift as nat,
                    ));
                }
            }
        } else {
            let k = fl as u128 - ev;
            let k_us = k as usize;
            saturate = false;
            mshift = 0;
            keep = if k_us >= nd {
                0
            } else {
                nd - k_us
            };
            proof {
                assert(p.shift == -(k_us as int));
                assert(pow10(0) == 1);
                if k_us >= nd {
                    assert(ds.take(0) =~= Seq::<char>::empty());
                    assert(spec_trunc_mag(p) == 0);
                }
                assert(spec_trunc_mag(p) == digits_val(ds.take(keep as int)) * pow10(
                    mshift as nat,
                ));
            }
        }
    } else {
        if eover {
            saturate = false;
            mshift = 0;
            keep = 0;
            proof {
                assert(nd < 100000000000000000000);
                assert(ds.len() + p.shift <= 0);
                assert(ds.take(0) =~= Seq::<char>::empty());
                assert(pow10(0) == 1);
                assert(spec_trunc_mag(p) == digits_val(ds.take(keep as int)) * pow10(
                    mshift as nat,
                ));
            }
        } else {
            let ktot = ev + fl as u128;
            saturate = false;
            mshift = 0;
            keep = if ktot >= nd as u128 {
                0
            } else {
                nd - (ktot as usize)
            };
            proof {
                assert(p.shift == -(ktot as int));
                assert(pow10(0) == 1);
                if ktot >= nd as u128 {
                    assert(ds.take(0) =~= Seq::<char>::empty());
                    assert(spec_trunc_mag(p) == 0);
                }
                assert(spec_trunc_mag(p) == digits_val(ds.take(keep as int)) * pow10(
                    mshift as nat,
                ));
            }
        }
    }
    proof {
        assert(keep <= nd);
        assert(saturate ==> (digits_val(ds) == 0 ==> spec_trunc_mag(p) == 0) && (digits_val(ds)
            >= 1 ==> spec_trunc_mag(p) >= 9223372036854775808nat) && keep == nd && mshift == 0);
        assert(!saturate ==> spec_trunc_mag(p) == digits_val(ds.take(keep as int)) * pow10(
            mshift as nat,
        ));
    }
    // Saturated accumulation of the kept digits, integer part first.
    let mut acc: u64 = 0;
    let mut cnt: usize = 0;
    let mut idx: usize = sc.a;
    proof {
        assert(ds.take(0) =~= Seq::<char>::empty());
    }
    while idx < sc.b && cnt < keep
        invariant
            scan_matches(s@, from as int, sc),
            p == spec_number(s@, from as int)->Some_0,
            ds == p.digits,
            nd == ds.len(),
            keep <= nd,
            sc.a <= idx <= sc.b,
            cnt == idx - sc.a,
            cnt <= keep,
            acc as nat == sat63(digits_val(ds.take(cnt as int))),
        decreases sc.b - idx,
    {
        proof {
            assert(ds.take((cnt + 1) as int).drop_last() =~= ds.take(cnt as int));
            assert(ds[cnt as int] == s@[idx as int]);
        }
        let ch = s.get_char(idx);
        let dv = digit_value(ch);
        acc = sat_step(acc, dv, Ghost(digits_val(ds.take(cnt as int))));
        cnt = cnt + 1;
        idx = idx + 1;
    }
    let mut idx2: usize = sc.c;
    while idx2 < sc.d && cnt < keep
        invariant
            scan_matches(s@, from as int, sc),
            p == spec_number(s@, from as int)->Some_0,
            ds == p.digits,
            nd == ds.len(),
            keep <= nd,
            sc.c <= idx2 <= sc.d,
            cnt <= keep,
            cnt < keep ==> cnt == (sc.b - sc.a) + (idx2 - sc.c),
            acc as nat == sat63(digits_val(ds.take(cnt as int))),
        decreases sc.d - idx2,
    {
        proof {
            assert(ds.take((cnt + 1) as int).drop_last() =~= ds.take(cnt as int));
            assert(ds[cnt as int] == s@[idx2 as int]);
        }
        let ch = s.get_char(idx2);
        let dv = digit_value(ch);
        acc = sat_step(acc, dv, Ghost(digits_val(ds.take(cnt as int))));
        cnt = cnt + 1;
        idx2 = idx2 + 1;
    }
    proof {
        assert(cnt == keep);
    }
    // Append the trailing zeros of a small non-negative shift.
    let ghost d0 = digits_val(ds.take(keep as int));
    let mut ji: usize = 0;
    proof {
        assert(pow10(0) == 1);
    }
    while ji < mshift
        invariant
            ji <= mshift,
            mshift <= 18,
            acc as nat == sat63(d0 * pow10(ji as nat)),
        decreases mshift - ji,
    {
        proof {
            assert(pow10((ji + 1) as nat) == 10 * pow10(ji as nat));
            assert(d0 * (10 * pow10(ji as nat)) == (d0 * pow10(ji as nat)) * 10)
                by (nonlinear_arith);
        }
        acc = sat_step(acc, 0, Ghost(d0 * pow10(ji as nat)));
        ji = ji + 1;
    }
    proof {
        assert(!saturate ==> acc as nat == sat63(spec_trunc_mag(p)));
        assert(saturate ==> acc as nat == sat63(digits_val(ds))) by {
            if saturate {
                assert(ds.take(nd as int) =~= ds);
            }
        }
    }
    if saturate {
        if acc == 0 {
            return 0;
        }
        if sc.neg {
            return i64::MIN;
        } else {
            return i64::MAX;
        }
    }
    if sc.neg {
        if acc >= 9223372036854775808u64 {
            i64::MIN
        } else {
            -(acc as i64)
        }
    } else {
        if acc >= 9223372036854775808u64 {
            i64::MAX
        } else {
            acc as i64
        }
    }
}

/// Reads a sample value at `from`: after leading whitespace, `+Inf`,
/// `-Inf`, or a standard decimal or exponential numeric token, which is
/// kept verbatim. Fails when none of the three forms matches.
pub fn read_value(s: &str, from: usize) -> (r: Option<(usize, MetricValue)>)
    requires
        from <= s@.len(),
    ensures
        r is Some <==> spec_value(s@, from as int) is Some,
        (r matches Some(p) ==> (spec_value(s@, from as int) matches Some(q) && p.0 == q.0 && from
            <= p.0 <= s@.len() && p.1@ == q.1)),
{
    let st = skip_spaces(s, from);
    let n: usize = s.unicode_len();
    if n - st >= 4 {
        let c0 = s.get_char(st);
        if (c0 == '+' || c0 == '-') && s.get_char(st + 1) == 'I' && s.get_char(st + 2) == 'n'
            && s.get_char(st + 3) == 'f' {
            let v = if c0 == '+' {
                MetricValue::PosInf
            } else {
                MetricValue::NegInf
            };
            return Some((st + 4, v));
        }
    }
    match scan_number(s, st) {
        Some(sc) => {
            let raw = string_from_range(s, st, sc.end);
            Some((sc.end, MetricValue::Num(raw)))
        },
        None => None,
    }
}

/// Reads an optional trailing timestamp at `from`: a numeric token after
/// whitespace, truncated toward zero to a signed 64-bit integer. Absence
/// of a token is a successful absent timestamp that consumes nothing.
pub fn read_timestamp(s: &str, from: usize) -> (r: (usize, Option<i64>))
    requires
        from <= s@.len(),
    ensures
        ({
            let t = spec_timestamp(s@, from as int);
            &&& r.0 == t.0
            &&& from <= r.0 <= s@.len()
            &&& (r.1 is Some <==> t.1 is Some)
            &&& (r.1 matches Some(v) ==> t.1 matches Some(w) && v as int == w)
        }),
{
    let st = skip_spaces(s, from);
    match scan_number(s, st) {
        None => (from, None),
        Some(sc) => {
            let t = trunc_from_scan(s, st, sc);
            (sc.end, Some(t))
        },
    }
}

} // verus!
