//! Integer values of the numeric atoms of a DSN file.
//!
//! A coordinate is written as a decimal number: an optional sign, digits with
//! an optional decimal point, and an optional exponent (`1.5`, `-.25`, `3.`,
//! `2e3`); the words `inf`, `infinity` and `nan` (in any case) are numbers
//! too. Its integer value is the number truncated toward zero and clamped to
//! the range of `i64` (`nan` counts as zero). Text that is not a number counts
//! as zero.

use vstd::prelude::*;
use crate::text::chars_of;

verus! {

pub open spec fn is_digit(c: char) -> bool {
    48 <= (c as u32) <= 57
}

pub open spec fn digit_val(c: char) -> nat {
    ((c as u32) - 48) as nat
}

/// The value of a string of decimal digits.
pub open spec fn digits_value(d: Seq<char>) -> nat
    decreases d.len(),
{
    if d.len() == 0 {
        0
    } else {
        digits_value(d.drop_last()) * 10 + digit_val(d.last())
    }
}

pub open spec fn pow10(n: nat) -> nat
    decreases n,
{
    if n == 0 {
        1
    } else {
        10 * pow10((n - 1) as nat)
    }
}

/// End of the run of digits that starts at `i`.
pub open spec fn digit_run(s: Seq<char>, i: int) -> int
    decreases s.len() - i,
{
    if 0 <= i < s.len() && is_digit(s[i]) {
        digit_run(s, i + 1)
    } else {
        i
    }
}

pub open spec fn all_digits(s: Seq<char>) -> bool {
    forall|i: int| 0 <= i < s.len() ==> is_digit(#[trigger] s[i])
}

/// ASCII lower case of a character's code.
pub open spec fn lower(c: char) -> u32 {
    if 65 <= (c as u32) <= 90 {
        ((c as u32) + 32) as u32
    } else {
        c as u32
    }
}

/// Equality of two texts when ASCII letters are compared without regard to case.
pub open spec fn eq_ignore_case(a: Seq<char>, b: Seq<char>) -> bool {
    a.len() == b.len() && forall|i: int| 0 <= i < a.len() ==> lower(#[trigger] a[i]) == lower(b[i])
}

/// The exponent that ends a number (`e`, an optional sign, digits), or zero
/// when there is none; `None` when the text is not such an exponent.
pub open spec fn exponent_of(t: Seq<char>) -> Option<int> {
    if t.len() == 0 {
        Some(0)
    } else if t[0] == 'e' || t[0] == 'E' {
        let u = t.skip(1);
        let neg = u.len() > 0 && u[0] == '-';
        let ds = if u.len() > 0 && (u[0] == '+' || u[0] == '-') {
            u.skip(1)
        } else {
            u
        };
        if ds.len() > 0 && all_digits(ds) {
            Some(
                if neg {
                    -(digits_value(ds) as int)
                } else {
                    digits_value(ds) as int
                },
            )
        } else {
            None
        }
    } else {
        None
    }
}

/// An unsigned decimal number as its digits (integer and fraction digits in
/// order) and the position of the decimal point among them after the
/// exponent is applied; `None` when the text is not such a number.
pub open spec fn decimal_parts(r: Seq<char>) -> Option<(Seq<char>, int)> {
    let a = digit_run(r, 0);
    let has_point = a < r.len() && r[a] == '.';
    let frac = if has_point {
        r.subrange(a + 1, frac_end_of(r))
    } else {
        Seq::empty()
    };
    if a == 0 && frac.len() == 0 {
        None
    } else {
        match exponent_of(r.skip(frac_end_of(r))) {
            Some(e) => Some((r.take(a) + frac, a + e)),
            None => None,
        }
    }
}

/// Where the digits of a number's fraction end.
pub open spec fn frac_end_of(r: Seq<char>) -> int {
    let a = digit_run(r, 0);
    if a < r.len() && r[a] == '.' {
        digit_run(r, a + 1)
    } else {
        a
    }
}

/// The integer part of the number with digits `d` and the decimal point
/// after `p` of them.
pub open spec fn trunc_value(d: Seq<char>, p: int) -> nat {
    if p <= 0 {
        0
    } else if p <= d.len() {
        digits_value(d.take(p))
    } else {
        digits_value(d) * pow10((p - d.len()) as nat)
    }
}

pub open spec fn two63() -> nat {
    0x8000_0000_0000_0000nat
}

/// A magnitude with a sign, clamped to `i64`.
pub open spec fn clamp_signed(neg: bool, m: nat) -> i64 {
    if neg {
        if m >= two63() {
            i64::MIN
        } else {
            (-(m as int)) as i64
        }
    } else {
        if m >= two63() {
            i64::MAX
        } else {
            m as i64
        }
    }
}

/// The integer value of a numeric atom, truncated toward zero and clamped to
/// `i64`; zero when the text is not a number.
pub open spec fn number_value(s: Seq<char>) -> i64 {
    let neg = s.len() > 0 && s[0] == '-';
    let r = if s.len() > 0 && (s[0] == '+' || s[0] == '-') {
        s.skip(1)
    } else {
        s
    };
    if eq_ignore_case(r, "inf"@) || eq_ignore_case(r, "infinity"@) {
        if neg {
            i64::MIN
        } else {
            i64::MAX
        }
    } else if eq_ignore_case(r, "nan"@) {
        0
    } else {
        match decimal_parts(r) {
            Some((d, p)) => clamp_signed(neg, trunc_value(d, p)),
            None => 0,
        }
    }
}

// ─── lemmas ───────────────────────────────────────────────────────────────────

pub open spec fn sat(x: nat) -> nat {
    if x >= two63() {
        two63()
    } else {
        x
    }
}

proof fn lemma_sat_step(x: nat, d: nat)
    ensures
        sat(sat(x) * 10 + d) == sat(x * 10 + d),
{
    if x >= two63() {
        assert(sat(x) * 10 + d >= two63()) by (nonlinear_arith)
            requires
                sat(x) == two63(),
        ;
        assert(x * 10 + d >= two63()) by (nonlinear_arith)
            requires
                x >= two63(),
        ;
    }
}

proof fn lemma_pow10_pos(n: nat)
    ensures
        pow10(n) >= 1,
    decreases n,
{
    if n > 0 {
        lemma_pow10_pos((n - 1) as nat);
    }
}

proof fn lemma_pow10_mono(a: nat, b: nat)
    requires
        a <= b,
    ensures
        pow10(a) <= pow10(b),
    decreases b,
{
    if a < b {
        lemma_pow10_mono(a, (b - 1) as nat);
        lemma_pow10_pos((b - 1) as nat);
    }
}

proof fn lemma_pow10_big(n: nat)
    requires
        n >= 19,
    ensures
        pow10(n) >= two63(),
{
    reveal_with_fuel(pow10, 20);
    assert(pow10(19) == 10_000_000_000_000_000_000nat);
    lemma_pow10_mono(19, n);
}

proof fn lemma_digits_value_take(d: Seq<char>, k: int)
    requires
        0 <= k < d.len(),
    ensures
        digits_value(d.take(k + 1)) == digits_value(d.take(k)) * 10 + digit_val(d[k]),
{
    assert(d.take(k + 1).drop_last() =~= d.take(k));
}

proof fn lemma_mul_step(x: nat, n: nat)
    ensures
        x * pow10(n + 1) == (x * pow10(n)) * 10,
{
    assert(pow10(n + 1) == 10 * pow10(n));
    assert(x * (10 * pow10(n)) == (x * pow10(n)) * 10) by (nonlinear_arith);
}

proof fn lemma_digit_run_shift(s: Seq<char>, start: int, i: int)
    requires
        0 <= start <= i <= s.len(),
    ensures
        digit_run(s.skip(start), i - start) == digit_run(s, i) - start,
    decreases s.len() - i,
{
    if i < s.len() && is_digit(s[i]) {
        lemma_digit_run_shift(s, start, i + 1);
    }
}

pub open spec fn signed(neg: bool, v: nat) -> int {
    if neg {
        -(v as int)
    } else {
        v as int
    }
}

/// Past a point far beyond the digits, the magnitude saturates (or is zero);
/// so an exponent clamped at `2^100` gives the same saturated magnitude.
proof fn lemma_capped_point(d: Seq<char>, a: int, ev: nat, cap: nat, neg: bool)
    requires
        d.len() <= 0x1_0000_0000_0000_0000nat,
        0 <= a <= d.len(),
        cap == 0x10_0000_0000_0000_0000_0000_0000nat,
    ensures
        sat(trunc_value(d, a + signed(neg, if ev >= cap { cap } else { ev }))) == sat(
            trunc_value(d, a + signed(neg, ev)),
        ),
{
    if ev >= cap {
        assert(a + cap > d.len());
        if !neg {
            let v = digits_value(d);
            let n1 = (a + cap - d.len()) as nat;
            let n2 = (a + ev - d.len()) as nat;
            if v > 0 {
                lemma_pow10_big(n1);
                lemma_pow10_big(n2);
                assert(v * pow10(n1) >= two63()) by (nonlinear_arith)
                    requires
                        v >= 1,
                        pow10(n1) >= two63(),
                ;
                assert(v * pow10(n2) >= two63()) by (nonlinear_arith)
                    requires
                        v >= 1,
                        pow10(n2) >= two63(),
                ;
            } else {
                assert(v * pow10(n1) == 0 && v * pow10(n2) == 0) by (nonlinear_arith)
                    requires
                        v == 0,
                ;
            }
            assert(trunc_value(d, a + cap) == v * pow10(n1));
            assert(trunc_value(d, a + ev) == v * pow10(n2));
        }
    }
}

proof fn lemma_clamp_sat(neg: bool, m: nat)
    ensures
        clamp_signed(neg, sat(m)) == clamp_signed(neg, m),
{
}

/// Saturating magnitude of `trunc_value(d, p)`, for a point anywhere.
fn trunc_sat(d: &Vec<char>, p: i128) -> (m: u64)
    requires
        all_digits(d@),
    ensures
        m == sat(trunc_value(d@, p as int)),
{
    let sat_max: u64 = 0x8000_0000_0000_0000;
    if p <= 0 {
        return 0;
    }
    let n: usize = if p < d.len() as i128 {
        p as usize
    } else {
        d.len()
    };
    let mut acc: u64 = 0;
    let mut k: usize = 0;
    while k < n
        invariant
            n <= d.len(),
            all_digits(d@),
            k <= n,
            acc == sat(digits_value(d@.take(k as int))),
            sat_max == two63(),
        decreases n - k,
    {
        let c = d[k];
        assert(is_digit(d@[k as int]));
        let dv = (c as u32 - 48) as u64;
        proof {
            lemma_digits_value_take(d@, k as int);
            lemma_sat_step(digits_value(d@.take(k as int)), dv as nat);
        }
        let next: u128 = acc as u128 * 10 + dv as u128;
        acc = if next >= sat_max as u128 {
            sat_max
        } else {
            next as u64
        };
        k = k + 1;
    }
    if p <= d.len() as i128 {
        return acc;
    }
    assert(d@.take(d.len() as int) =~= d@);
    assert(acc == sat(digits_value(d@) * pow10(0))) by {
        assert(pow10(0) == 1);
        assert(digits_value(d@) * 1 == digits_value(d@));
    }
    let z: i128 = p - d.len() as i128;
    let mut done: i128 = 0;
    proof {
        reveal_with_fuel(pow10, 1);
    }
    while done < z && acc != 0 && acc != sat_max
        invariant
            0 <= done <= z,
            acc == sat(digits_value(d@) * pow10(done as nat)),
            sat_max == two63(),
        decreases z - done,
    {
        proof {
            lemma_mul_step(digits_value(d@), done as nat);
            lemma_sat_step(digits_value(d@) * pow10(done as nat), 0);
        }
        let next: u128 = acc as u128 * 10;
        acc = if next >= sat_max as u128 {
            sat_max
        } else {
            next as u64
        };
        done = done + 1;
    }
    proof {
        let v = digits_value(d@);
        let zz = (p - d.len()) as nat;
        if done < z {
            lemma_pow10_mono(done as nat, zz);
            if acc == 0 {
                lemma_pow10_pos(done as nat);
                assert(v == 0) by (nonlinear_arith)
                    requires
                        v * pow10(done as nat) == 0,
                        pow10(done as nat) >= 1,
                ;
                assert(v * pow10(zz) == 0) by (nonlinear_arith)
                    requires
                        v == 0,
                ;
            } else {
                assert(v * pow10(done as nat) <= v * pow10(zz)) by (nonlinear_arith)
                    requires
                        pow10(done as nat) <= pow10(zz),
                ;
            }
        }
    }
    acc
}

/// Value of a digit string, saturating at `cap`.
fn digits_value_capped(v: &Vec<char>, start: usize, end: usize, cap: u128) -> (r: u128)
    requires
        start <= end <= v.len(),
        all_digits(v@.subrange(start as int, end as int)),
        cap <= 0x1_0000_0000_0000_0000_0000_0000_0000u128,
    ensures
        r == if digits_value(v@.subrange(start as int, end as int)) >= cap {
            cap as nat
        } else {
            digits_value(v@.subrange(start as int, end as int))
        },
{
    let mut acc: u128 = 0;
    let mut k = start;
    while k < end
        invariant
            start <= k <= end <= v.len(),
            all_digits(v@.subrange(start as int, end as int)),
            cap <= 0x1_0000_0000_0000_0000_0000_0000_0000u128,
            acc == if digits_value(v@.subrange(start as int, k as int)) >= cap {
                cap as nat
            } else {
                digits_value(v@.subrange(start as int, k as int))
            },
        decreases end - k,
    {
        assert(v@.subrange(start as int, k + 1).drop_last() =~= v@.subrange(start as int, k as int));
        assert(v@.subrange(start as int, k + 1).last() == v@[k as int]);
        assert(is_digit(v@.subrange(start as int, end as int)[k - start]));
        let dv = (v[k] as u32 - 48) as u128;
        let ghost x = digits_value(v@.subrange(start as int, k as int));
        proof {
            if x >= cap {
                assert(x * 10 + dv >= cap) by (nonlinear_arith)
                    requires
                        x >= cap,
                ;
            }
        }
        if acc >= cap {
            acc = cap;
        } else {
            let next = acc * 10 + dv;
            acc = if next >= cap {
                cap
            } else {
                next
            };
        }
        k = k + 1;
    }
    acc
}

fn digit_run_at(v: &Vec<char>, i: usize) -> (r: usize)
    requires
        i <= v.len(),
    ensures
        r == digit_run(v@, i as int),
        i <= r <= v.len(),
        all_digits(v@.subrange(i as int, r as int)),
        r < v.len() ==> !is_digit(v@[r as int]),
{
    let mut p = i;
    while p < v.len() && (v[p] as u32) >= 48 && (v[p] as u32) <= 57
        invariant
            i <= p <= v.len(),
            digit_run(v@, i as int) == digit_run(v@, p as int),
            all_digits(v@.subrange(i as int, p as int)),
        decreases v.len() - p,
    {
        assert(v@.subrange(i as int, p + 1) =~= v@.subrange(i as int, p as int).push(v@[p as int]));
        p = p + 1;
    }
    p
}

pub fn eq_ignore_case_at(v: &Vec<char>, start: usize, word: &Vec<char>) -> (r: bool)
    requires
        start <= v.len(),
    ensures
        r == eq_ignore_case(v@.skip(start as int), word@),
{
    if v.len() - start != word.len() {
        return false;
    }
    let mut i: usize = 0;
    while i < word.len()
        invariant
            start <= v.len(),
            v.len() - start == word.len(),
            i <= word.len(),
            forall|k: int| 0 <= k < i ==> lower(#[trigger] v@.skip(start as int)[k]) == lower(word@[k]),
        decreases word.len() - i,
    {
        let a = v[start + i] as u32;
        let b = word[i] as u32;
        let la = if a >= 65 && a <= 90 {
            a + 32
        } else {
            a
        };
        let lb = if b >= 65 && b <= 90 {
            b + 32
        } else {
            b
        };
        assert(v@.skip(start as int)[i as int] == v@[start + i]);
        if la != lb {
            return false;
        }
        i = i + 1;
    }
    true
}

pub open spec fn capped(v: nat) -> nat {
    if v >= exponent_cap() {
        exponent_cap()
    } else {
        v
    }
}

pub open spec fn clamp_exp(e: int) -> int {
    if e < 0 {
        -(capped((-e) as nat) as int)
    } else {
        capped(e as nat) as int
    }
}

pub open spec fn exponent_cap() -> nat {
    0x10_0000_0000_0000_0000_0000_0000nat
}

/// The exponent that starts at `i` (or zero at the end of `s`), with its
/// magnitude clamped at `2^100`.
fn exponent_at(s: &Vec<char>, i: usize) -> (r: Option<i128>)
    requires
        i <= s.len(),
    ensures
        match exponent_of(s@.skip(i as int)) {
            None => r is None,
            Some(e) => r matches Some(x) && x as int == clamp_exp(e),
        },
{
    let ghost t = s@.skip(i as int);
    if i == s.len() {
        assert(t.len() == 0);
        return Some(0);
    }
    let c = s[i];
    assert(t[0] == c);
    if c != 'e' && c != 'E' {
        return None;
    }
    let ghost u = t.skip(1);
    assert(u =~= s@.skip(i + 1));
    let mut es = i + 1;
    let eneg = es < s.len() && s[es] == '-';
    if es < s.len() && (s[es] == '+' || s[es] == '-') {
        es = es + 1;
    }
    let ghost ds = if u.len() > 0 && (u[0] == '+' || u[0] == '-') {
        u.skip(1)
    } else {
        u
    };
    assert(ds =~= s@.skip(es as int));
    let eend = digit_run_at(s, es);
    if eend == es || eend != s.len() {
        proof {
            if eend != es || es < s.len() {
                assert(!is_digit(ds[eend - es]));
            }
        }
        return None;
    }
    assert(ds =~= s@.subrange(es as int, eend as int));
    let ev = digits_value_capped(s, es, eend, 0x10_0000_0000_0000_0000_0000_0000u128);
    if eneg {
        Some(-(ev as i128))
    } else {
        Some(ev as i128)
    }
}

pub fn push_range(v: &mut Vec<char>, s: &Vec<char>, from: usize, to: usize)
    requires
        from <= to <= s.len(),
    ensures
        final(v)@ == old(v)@ + s@.subrange(from as int, to as int),
{
    let mut k = from;
    while k < to
        invariant
            from <= k <= to <= s.len(),
            v@ == old(v)@ + s@.subrange(from as int, k as int),
        decreases to - k,
    {
        assert(s@.subrange(from as int, k + 1) =~= s@.subrange(from as int, k as int).push(s@[k as int]));
        v.push(s[k]);
        k = k + 1;
    }
}

/// The digits and point position of the unsigned number that is the rest of
/// `s` from `start`.
fn decimal_parts_at(s: &Vec<char>, start: usize) -> (r: Option<(Vec<char>, i128)>)
    requires
        start <= s.len(),
    ensures
        match decimal_parts(s@.skip(start as int)) {
            None => r is None,
            Some((d, p)) => match r {
                None => false,
                Some((v, x)) => {
                    let rr = s@.skip(start as int);
                    &&& v@ == d
                    &&& all_digits(d)
                    &&& 0 <= digit_run(rr, 0) <= d.len()
                    &&& match exponent_of(rr.skip(frac_end_of(rr))) {
                        Some(e) => p == digit_run(rr, 0) + e && x as int == digit_run(rr, 0)
                            + clamp_exp(e),
                        None => false,
                    }
                },
            },
        },
{
    let ghost r = s@.skip(start as int);
    let a_end = digit_run_at(s, start);
    let has_point = a_end < s.len() && s[a_end] == '.';
    let frac_end = if has_point {
        digit_run_at(s, a_end + 1)
    } else {
        a_end
    };
    proof {
        lemma_digit_run_shift(s@, start as int, start as int);
        if has_point {
            lemma_digit_run_shift(s@, start as int, a_end + 1);
        }
    }
    let a = a_end - start;
    let frac_len = if has_point {
        frac_end - (a_end + 1)
    } else {
        0
    };
    if a == 0 && frac_len == 0 {
        return None;
    }
    let mut digits: Vec<char> = Vec::new();
    push_range(&mut digits, s, start, a_end);
    if has_point {
        push_range(&mut digits, s, a_end + 1, frac_end);
    }
    proof {
        assert(r.take(a as int) =~= s@.subrange(start as int, a_end as int));
        if has_point {
            assert(r.subrange(a + 1, frac_end - start) =~= s@.subrange(a_end + 1, frac_end as int));
        } else {
            assert(digits@ =~= s@.subrange(start as int, a_end as int));
        }
        assert(r.skip(frac_end - start) =~= s@.skip(frac_end as int));
        assert forall|i: int| 0 <= i < digits@.len() implies is_digit(#[trigger] digits@[i]) by {
            if i < a {
                assert(is_digit(s@.subrange(start as int, a_end as int)[i]));
            } else {
                assert(is_digit(s@.subrange(a_end + 1, frac_end as int)[i - a]));
            }
        }
    }
    match exponent_at(s, frac_end) {
        None => None,
        Some(e) => Some((digits, a as i128 + e)),
    }
}

/// The integer value of a numeric text (see the module's documentation).
pub fn number_from_text(text: &str) -> (r: i64)
    ensures
        r == number_value(text@),
{
    let s = chars_of(text);
    let neg = s.len() > 0 && s[0] == '-';
    let start: usize = if s.len() > 0 && (s[0] == '+' || s[0] == '-') {
        1
    } else {
        0
    };
    assert(start == 0 ==> s@.skip(start as int) =~= s@);
    if eq_ignore_case_at(&s, start, &chars_of("inf")) || eq_ignore_case_at(
        &s,
        start,
        &chars_of("infinity"),
    ) {
        return if neg {
            i64::MIN
        } else {
            i64::MAX
        };
    }
    if eq_ignore_case_at(&s, start, &chars_of("nan")) {
        return 0;
    }
    match decimal_parts_at(&s, start) {
        None => 0,
        Some((digits, p)) => {
            let m = trunc_sat(&digits, p);
            assert(digits@.len() == digits.len());
            proof {
                let (d, pt) = decimal_parts(s@.skip(start as int)).unwrap();
                let rr = s@.skip(start as int);
                let a = digit_run(rr, 0);
                let e = exponent_of(rr.skip(frac_end_of(rr))).unwrap();
                let ev: nat = if e < 0 {
                    (-e) as nat
                } else {
                    e as nat
                };
                lemma_capped_point(digits@, a, ev, exponent_cap(), e < 0);
                assert(signed(e < 0, ev) == e);
                lemma_clamp_sat(neg, trunc_value(d, pt));
            }
            if neg {
                if m >= 0x8000_0000_0000_0000u64 {
                    i64::MIN
                } else {
                    -(m as i64)
                }
            } else {
                if m >= 0x8000_0000_0000_0000u64 {
                    i64::MAX
                } else {
                    m as i64
                }
            }
        },
    }
}

} // verus!
