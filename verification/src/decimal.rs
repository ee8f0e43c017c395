//! Decimal numbers in text: reading integers and fixed-point values, and
//! writing them back.
use vstd::prelude::*;
use crate::text::push_char;

verus! {

pub open spec fn is_digit(c: char) -> bool {
    48 <= (c as u32) && (c as u32) <= 57
}

pub open spec fn digit_val(c: char) -> nat {
    ((c as u32) - 48) as nat
}

pub open spec fn all_digits(s: Seq<char>) -> bool {
    forall|i: int| 0 <= i < s.len() ==> is_digit(#[trigger] s[i])
}

/// The value of a string of decimal digits.
pub open spec fn digits_val(s: Seq<char>) -> nat
    decreases s.len(),
{
    if s.len() == 0 {
        0
    } else {
        digits_val(s.subrange(0, s.len() - 1)) * 10 + digit_val(s[s.len() - 1])
    }
}

/// What `str::parse::<u32>` gives: an optional `+`, then one or more digits
/// whose value fits in `u32`.
pub open spec fn parse_u32_spec(s: Seq<char>) -> Option<u32> {
    let d = if s.len() > 0 && s[0] == '+' {
        s.subrange(1, s.len() as int)
    } else {
        s
    };
    if d.len() == 0 || !all_digits(d) || digits_val(d) > u32::MAX {
        None
    } else {
        Some(digits_val(d) as u32)
    }
}

/// What `str::parse::<i32>` gives: an optional sign, then one or more digits
/// whose signed value fits in `i32`.
pub open spec fn parse_i32_spec(s: Seq<char>) -> Option<i32> {
    let neg = s.len() > 0 && s[0] == '-';
    let d = if s.len() > 0 && (s[0] == '+' || s[0] == '-') {
        s.subrange(1, s.len() as int)
    } else {
        s
    };
    let v: int = if neg {
        -digits_val(d)
    } else {
        digits_val(d) as int
    };
    if d.len() == 0 || !all_digits(d) || v < i32::MIN || v > i32::MAX {
        None
    } else {
        Some(v as i32)
    }
}

/// The value of the digits `v[lo..hi]`, capped at `cap`; `None` when some
/// character is not a digit.
fn digits_capped(v: &Vec<char>, lo: usize, hi: usize, cap: u64) -> (r: Option<u64>)
    requires
        lo <= hi <= v.len(),
        cap < 0x1000_0000_0000_0000,
    ensures
        r is None <==> !all_digits(v@.subrange(lo as int, hi as int)),
        r matches Some(x) ==> x == (if digits_val(v@.subrange(lo as int, hi as int)) >= cap {
            cap as int
        } else {
            digits_val(v@.subrange(lo as int, hi as int)) as int
        }),
{
    let mut acc: u64 = 0;
    let mut i = lo;
    assert(v@.subrange(lo as int, lo as int) =~= Seq::<char>::empty());
    while i < hi
        invariant
            lo <= i <= hi <= v.len(),
            cap < 0x1000_0000_0000_0000,
            all_digits(v@.subrange(lo as int, i as int)),
            acc == (if digits_val(v@.subrange(lo as int, i as int)) >= cap {
                cap as int
            } else {
                digits_val(v@.subrange(lo as int, i as int)) as int
            }),
        decreases hi - i,
    {
        let c = v[i];
        if !((c as u32) >= 48 && (c as u32) <= 57) {
            assert(!is_digit(v@.subrange(lo as int, hi as int)[i - lo]));
            return None;
        }
        let d = ((c as u32) - 48) as u64;
        let ghost prev = v@.subrange(lo as int, i as int);
        let ghost next = v@.subrange(lo as int, i + 1);
        assert(next.subrange(0, next.len() - 1) =~= prev);
        assert(digits_val(next) == digits_val(prev) * 10 + d);
        if acc >= cap {
            assert(digits_val(prev) * 10 + d >= cap) by (nonlinear_arith)
                requires
                    digits_val(prev) >= cap,
            ;
        } else {
            let x = acc * 10 + d;
            acc = if x >= cap {
                cap
            } else {
                x
            };
        }
        i = i + 1;
        assert forall|j: int| 0 <= j < next.len() implies is_digit(#[trigger] next[j]) by {
            if j < prev.len() {
                assert(next[j] == prev[j]);
            }
        }
    }
    Some(acc)
}

/// Reads `v[lo..hi]` as `str::parse::<u32>` does.
pub fn parse_u32(v: &Vec<char>, lo: usize, hi: usize) -> (r: Option<u32>)
    requires
        lo <= hi <= v.len(),
    ensures
        r == parse_u32_spec(v@.subrange(lo as int, hi as int)),
{
    let ghost s = v@.subrange(lo as int, hi as int);
    let start = if lo < hi && v[lo] == '+' {
        lo + 1
    } else {
        lo
    };
    assert(v@.subrange(start as int, hi as int) =~= (if s.len() > 0 && s[0] == '+' {
        s.subrange(1, s.len() as int)
    } else {
        s
    }));
    if start == hi {
        return None;
    }
    match digits_capped(v, start, hi, 0x1_0000_0000) {
        None => None,
        Some(x) => {
            if x > 0xffff_ffff {
                None
            } else {
                Some(x as u32)
            }
        },
    }
}

/// Reads `v[lo..hi]` as `str::parse::<i32>` does.
pub fn parse_i32(v: &Vec<char>, lo: usize, hi: usize) -> (r: Option<i32>)
    requires
        lo <= hi <= v.len(),
    ensures
        r == parse_i32_spec(v@.subrange(lo as int, hi as int)),
{
    let ghost s = v@.subrange(lo as int, hi as int);
    let neg = lo < hi && v[lo] == '-';
    let start = if lo < hi && (v[lo] == '+' || v[lo] == '-') {
        lo + 1
    } else {
        lo
    };
    assert(v@.subrange(start as int, hi as int) =~= (if s.len() > 0 && (s[0] == '+' || s[0]
        == '-') {
        s.subrange(1, s.len() as int)
    } else {
        s
    }));
    if start == hi {
        return None;
    }
    match digits_capped(v, start, hi, 0x8000_0001) {
        None => None,
        Some(x) => {
            if neg {
                if x > 0x8000_0000 {
                    None
                } else {
                    Some((0 - (x as i64)) as i32)
                }
            } else {
                if x > 0x7fff_ffff {
                    None
                } else {
                    Some(x as i32)
                }
            }
        },
    }
}

pub open spec fn pow10(n: nat) -> nat
    decreases n,
{
    if n == 0 {
        1
    } else {
        10 * pow10((n - 1) as nat)
    }
}

pub fn pow10_u64(n: u32) -> (r: u64)
    requires
        n <= 18,
    ensures
        r == pow10(n as nat),
        r > 0,
    decreases n,
{
    if n == 0 {
        1
    } else {
        let x = pow10_u64(n - 1);
        assert(pow10((n - 1) as nat) <= 100_000_000_000_000_000) by {
            lemma_pow10_bound((n - 1) as nat);
        }
        10 * x
    }
}

pub proof fn lemma_pow10_bound(n: nat)
    requires
        n <= 17,
    ensures
        1 <= pow10(n) <= 100_000_000_000_000_000,
        pow10(n) * 10 <= 1_000_000_000_000_000_000,
    decreases n,
{
    reveal_with_fuel(pow10, 18);
    assert(pow10(0) == 1);
    assert(pow10(17) == 100_000_000_000_000_000);
    if n > 0 {
        lemma_pow10_bound((n - 1) as nat);
    }
}

/// The value of the first `k` fractional digits of `f`, padded with zeros.
pub open spec fn frac_val(f: Seq<char>, k: nat) -> nat
    decreases k,
{
    if k == 0 {
        0
    } else {
        frac_val(f, (k - 1) as nat) * 10 + (if k - 1 < f.len() {
            digit_val(f[k - 1])
        } else {
            0
        })
    }
}

/// Whether the seventh fractional digit asks to round the millionths up.
pub open spec fn rounds_up(f: Seq<char>) -> bool {
    f.len() > 6 && digit_val(f[6]) >= 5
}

/// A decimal number `[+|-] digits [. digits]` (at least one digit) read as
/// millionths, rounded to the nearest millionth with ties away from zero and
/// saturated at the bounds of `i64`; `None` when `s` has another form.
pub open spec fn parse_fixed_spec(s: Seq<char>) -> Option<i64> {
    let neg = s.len() > 0 && s[0] == '-';
    let b = if s.len() > 0 && (s[0] == '+' || s[0] == '-') {
        s.subrange(1, s.len() as int)
    } else {
        s
    };
    let k = crate::text::find(b, '.');
    let ip = b.subrange(0, k);
    let fp = if k < b.len() {
        b.subrange(k + 1, b.len() as int)
    } else {
        Seq::<char>::empty()
    };
    let abs: int = digits_val(ip) * 1_000_000 + frac_val(fp, 6) + (if rounds_up(fp) {
        1int
    } else {
        0int
    });
    let capped: int = if abs > i64::MAX {
        i64::MAX as int
    } else {
        abs
    };
    if !all_digits(ip) || !all_digits(fp) || ip.len() + fp.len() == 0 {
        None
    } else {
        Some((if neg {
            -capped
        } else {
            capped
        }) as i64)
    }
}

proof fn lemma_frac_val_bound(f: Seq<char>, k: nat)
    requires
        all_digits(f),
    ensures
        frac_val(f, k) < pow10(k),
    decreases k,
{
    if k > 0 {
        lemma_frac_val_bound(f, (k - 1) as nat);
        let a = frac_val(f, (k - 1) as nat);
        let d: nat = if k - 1 < f.len() {
            digit_val(f[k - 1])
        } else {
            0
        };
        if k - 1 < f.len() {
            assert(is_digit(f[k - 1]));
        }
        assert(a * 10 + d < pow10((k - 1) as nat) * 10) by (nonlinear_arith)
            requires
                a < pow10((k - 1) as nat),
                d < 10,
        ;
    }
}

/// Reads `v[lo..hi]` as a fixed-point decimal (see `parse_fixed_spec`).
pub fn parse_fixed(v: &Vec<char>, lo: usize, hi: usize) -> (r: Option<i64>)
    requires
        lo <= hi <= v.len(),
    ensures
        r == parse_fixed_spec(v@.subrange(lo as int, hi as int)),
{
    let ghost s = v@.subrange(lo as int, hi as int);
    let neg = lo < hi && v[lo] == '-';
    let start = if lo < hi && (v[lo] == '+' || v[lo] == '-') {
        lo + 1
    } else {
        lo
    };
    let ghost b = v@.subrange(start as int, hi as int);
    assert(b =~= (if s.len() > 0 && (s[0] == '+' || s[0] == '-') {
        s.subrange(1, s.len() as int)
    } else {
        s
    }));
    let k = crate::text::find_in(v, start, hi, '.');
    assert(v@.subrange(start as int, k as int) =~= b.subrange(0, k - start));
    let fstart = if k < hi {
        k + 1
    } else {
        hi
    };
    let ghost fp = v@.subrange(fstart as int, hi as int);
    assert(fp =~= (if k - start < b.len() {
        b.subrange(k - start + 1, b.len() as int)
    } else {
        Seq::<char>::empty()
    }));
    if k == start && fstart == hi {
        return None;
    }
    let ip = match digits_capped(v, start, k, 9_223_372_036_855) {
        None => {
            return None;
        },
        Some(x) => x,
    };
    match digits_capped(v, fstart, hi, 1) {
        None => {
            return None;
        },
        Some(_) => {},
    }
    let mut frac: u64 = 0;
    let mut j: usize = 0;
    while j < 6
        invariant
            j <= 6,
            fstart <= hi <= v.len(),
            fp == v@.subrange(fstart as int, hi as int),
            all_digits(fp),
            frac == frac_val(fp, j as nat),
            frac < pow10(j as nat),
        decreases 6 - j,
    {
        let d: u64 = if j < hi - fstart {
            assert(is_digit(fp[j as int]));
            ((v[fstart + j] as u32) - 48) as u64
        } else {
            0
        };
        proof {
            lemma_pow10_bound(j as nat);
            assert(frac * 10 + d < pow10(j as nat) * 10) by (nonlinear_arith)
                requires
                    frac < pow10(j as nat),
                    d < 10,
            ;
        }
        frac = frac * 10 + d;
        j = j + 1;
    }
    assert(pow10(6) == 1_000_000) by {
        reveal_with_fuel(pow10, 7);
    }
    let up: u64 = if hi - fstart > 6 && (v[fstart + 6] as u32) >= 53 {
        1
    } else {
        0
    };
    let total: u64 = ip * 1_000_000 + frac + up;
    let capped: u64 = if total > 0x7fff_ffff_ffff_ffff {
        0x7fff_ffff_ffff_ffff
    } else {
        total
    };
    if neg {
        Some(0 - (capped as i64))
    } else {
        Some(capped as i64)
    }
}

pub open spec fn digit_char(d: nat) -> char {
    (d + 48) as char
}

/// The decimal digits of `n`, without leading zeros.
pub open spec fn nat_str(n: nat) -> Seq<char>
    decreases n,
{
    if n < 10 {
        seq![digit_char(n)]
    } else {
        nat_str(n / 10).push(digit_char(n % 10))
    }
}

/// The decimal form of `x`, with a leading `-` when it is negative.
pub open spec fn int_str(x: int) -> Seq<char> {
    if x < 0 {
        seq!['-'] + nat_str((-x) as nat)
    } else {
        nat_str(x as nat)
    }
}

/// The last `d` decimal digits of `n`, with leading zeros.
pub open spec fn padded_str(n: nat, d: nat) -> Seq<char>
    decreases d,
{
    if d == 0 {
        seq![]
    } else {
        padded_str(n / 10, (d - 1) as nat).push(digit_char(n % 10))
    }
}

/// `n / d` rounded to the nearest integer, ties to the even one.
pub open spec fn half_even(n: nat, d: nat) -> nat {
    let q = n / d;
    let r = n % d;
    if 2 * r > d {
        q + 1
    } else if 2 * r < d {
        q
    } else if q % 2 == 1 {
        q + 1
    } else {
        q
    }
}

/// `2^52 * 10^6`: a value of `a` millionths lies in `[2^52, 2^53)` once
/// multiplied by a power of two `p` with `limit <= a * p < 2 * limit`.
pub open spec fn f64_limit() -> nat {
    4_503_599_627_370_496_000_000
}

/// `p` doubled (at most `fuel` times) until `a * p` reaches the limit.
pub open spec fn scale_up(a: nat, p: nat, fuel: nat) -> nat
    decreases fuel,
{
    if fuel == 0 || a * p >= f64_limit() {
        p
    } else {
        scale_up(a, 2 * p, (fuel - 1) as nat)
    }
}

/// The value `a / 10^6` as `f64` holds it and as `{:.d$}` writes it, in
/// units of `10^-d`: the nearest `f64` (its 53-bit significand `m`, scaled
/// by `1 / p`, ties to even), then that exact binary value rounded to `d`
/// decimals, ties to even.
pub open spec fn f64_units(a: nat, d: nat) -> nat {
    if a == 0 {
        0
    } else {
        let p = scale_up(a, 1, 80);
        let m = half_even(a * p, 1_000_000);
        half_even(m * pow10(d), p)
    }
}

/// `format!("{:.d$}", x)` for `1 <= d <= 6`, where `x` is the `f64`
/// nearest to `micro / 10^6` (as reading the decimal text of `micro`
/// millionths gives it).
pub open spec fn fixed_str(micro: int, d: nat) -> Seq<char> {
    let a: nat = if micro < 0 {
        (-micro) as nat
    } else {
        micro as nat
    };
    let q = f64_units(a, d);
    (if micro < 0 {
        seq!['-']
    } else {
        Seq::<char>::empty()
    }) + nat_str(q / pow10(d)) + seq!['.'] + padded_str(q % pow10(d), d)
}

proof fn lemma_half_even_upper(n: nat, d: nat)
    requires
        d > 0,
    ensures
        half_even(n, d) * d <= n + d,
{
    let q = n / d;
    let r = n % d;
    vstd::arithmetic::div_mod::lemma_fundamental_div_mod(n as int, d as int);
    assert(q * d + r == n);
    assert((q + 1) * d == q * d + d) by (nonlinear_arith);
}

fn half_even_exec(n: u128, d: u128) -> (r: u128)
    requires
        0 < d < 0x1_0000_0000_0000_0000_0000_0000,
        n < 0x1_0000_0000_0000_0000_0000_0000_0000,
    ensures
        r == half_even(n as nat, d as nat),
{
    let q = n / d;
    let r = n % d;
    assert(q <= n) by (nonlinear_arith)
        requires
            d > 0,
            q == n / d,
    ;
    assert(r < d);
    if 2 * r > d {
        q + 1
    } else if 2 * r < d {
        q
    } else if q % 2 == 1 {
        q + 1
    } else {
        q
    }
}

/// `a / 10^6` in units of `10^-d` as `f64` formatting gives it (see `f64_units`).
fn f64_units_exec(a: u64, d: u32) -> (q: u64)
    requires
        1 <= d <= 6,
        a <= 0x8000_0000_0000_0000,
    ensures
        q == f64_units(a as nat, d as nat),
{
    if a == 0 {
        return 0;
    }
    let lim: u128 = 4_503_599_627_370_496_000_000;
    let mut p: u128 = 1;
    let mut t: u128 = a as u128;
    let mut fuel: u32 = 80;
    while fuel > 0 && t < lim
        invariant
            1 <= a <= 0x8000_0000_0000_0000,
            lim == f64_limit(),
            t == a * p,
            1 <= p <= t,
            t < 2 * lim,
            scale_up(a as nat, p as nat, fuel as nat) == scale_up(a as nat, 1, 80),
        decreases fuel,
    {
        assert(a * (2 * p) == 2 * t) by (nonlinear_arith)
            requires
                t == a * p,
        ;
        p = 2 * p;
        t = 2 * t;
        fuel = fuel - 1;
    }
    proof {
        lemma_pow10_bound(d as nat);
        lemma_pow10_bound(6);
        reveal_with_fuel(pow10, 7);
        lemma_pow10_mono(d as nat);
    }
    let m = half_even_exec(t, 1_000_000);
    proof {
        lemma_half_even_upper(t as nat, 1_000_000);
    }
    let pd = pow10_u64(d) as u128;
    assert(m * pd <= m * 1_000_000) by (nonlinear_arith)
        requires
            pd <= 1_000_000,
    ;
    let n = m * pd;
    let q = half_even_exec(n, p);
    proof {
        lemma_half_even_upper(n as nat, p as nat);
        assert(q * p <= a * p + 2_000_000 * p) by (nonlinear_arith)
            requires
                q * p <= n + p,
                n <= m * 1_000_000,
                m * 1_000_000 <= t + 1_000_000,
                t == a * p,
                p >= 1,
        ;
        assert(q <= a + 2_000_000) by (nonlinear_arith)
            requires
                q * p <= a * p + 2_000_000 * p,
                p >= 1,
        ;
    }
    q as u64
}

proof fn lemma_pow10_mono(d: nat)
    requires
        d <= 6,
    ensures
        pow10(d) <= 1_000_000,
{
    reveal_with_fuel(pow10, 7);
}

fn digit(d: u64) -> (c: char)
    requires
        d < 10,
    ensures
        c == digit_char(d as nat),
{
    ((d as u8) + 48) as char
}

/// Appends the decimal digits of `n`.
pub fn push_nat(s: &mut String, n: u64)
    ensures
        final(s)@ == old(s)@ + nat_str(n as nat),
    decreases n,
{
    if n >= 10 {
        push_nat(s, n / 10);
    }
    push_char(s, digit(n % 10));
    assert(s@ =~= old(s)@ + nat_str(n as nat));
}

/// Appends the last `d` digits of `n`, with leading zeros.
pub fn push_padded(s: &mut String, n: u64, d: u32)
    ensures
        final(s)@ == old(s)@ + padded_str(n as nat, d as nat),
    decreases d,
{
    if d > 0 {
        push_padded(s, n / 10, d - 1);
        push_char(s, digit(n % 10));
        assert(s@ =~= old(s)@ + padded_str(n as nat, d as nat));
    }
}

/// Appends the decimal form of `x`.
pub fn push_int(s: &mut String, x: i64)
    ensures
        final(s)@ == old(s)@ + int_str(x as int),
{
    if x < 0 {
        push_char(s, '-');
        push_nat(s, (0 - (x as i128)) as u64);
        assert(s@ =~= old(s)@ + int_str(x as int));
    } else {
        push_nat(s, x as u64);
    }
}

/// Appends `micro / 10^6` with `d` decimals (see `fixed_str`).
pub fn push_fixed(s: &mut String, micro: i64, d: u32)
    requires
        1 <= d <= 6,
    ensures
        final(s)@ == old(s)@ + fixed_str(micro as int, d as nat),
{
    let a: u64 = if micro < 0 {
        (0 - (micro as i128)) as u64
    } else {
        micro as u64
    };
    let pd = pow10_u64(d);
    let q = f64_units_exec(a, d);
    if micro < 0 {
        push_char(s, '-');
    }
    let ghost mid = s@;
    push_nat(s, q / pd);
    push_char(s, '.');
    push_padded(s, q % pd, d);
    assert(s@ =~= old(s)@ + fixed_str(micro as int, d as nat));
}


/// The text of a decimal without its sign.
pub open spec fn dec_body(s: Seq<char>) -> Seq<char> {
    if s.len() > 0 && (s[0] == '+' || s[0] == '-') {
        s.subrange(1, s.len() as int)
    } else {
        s
    }
}

/// The digits of a decimal before its point.
pub open spec fn dec_int(s: Seq<char>) -> Seq<char> {
    dec_body(s).subrange(0, crate::text::find(dec_body(s), '.'))
}

/// The digits of a decimal after its point.
pub open spec fn dec_frac(s: Seq<char>) -> Seq<char> {
    let b = dec_body(s);
    let k = crate::text::find(b, '.');
    if k < b.len() {
        b.subrange(k + 1, b.len() as int)
    } else {
        Seq::<char>::empty()
    }
}

/// Whether the decimal `s` has a value above 0 and at most 4, exactly (before
/// any rounding).
pub open spec fn in_scale_range(s: Seq<char>) -> bool {
    let n = digits_val(dec_int(s)) * pow10(dec_frac(s).len()) + digits_val(dec_frac(s));
    &&& !(s.len() > 0 && s[0] == '-')
    &&& 0 < n
    &&& n <= 4 * pow10(dec_frac(s).len())
}

pub open spec fn ascii_lower(c: char) -> char {
    if 65 <= (c as u32) && (c as u32) <= 90 {
        ((c as u32) + 32) as char
    } else {
        c
    }
}

/// `inf`, `infinity` or `nan` in any case, after an optional sign: the texts
/// that `str::parse::<f64>` reads as an infinity or as not a number.
pub open spec fn inf_or_nan(s: Seq<char>) -> bool {
    let l = dec_body(s).map_values(|c: char| ascii_lower(c));
    l == "inf"@ || l == "infinity"@ || l == "nan"@
}

pub(crate) proof fn lemma_digits_val_bound(f: Seq<char>)
    requires
        all_digits(f),
    ensures
        digits_val(f) < pow10(f.len()),
        digits_val(f) == 0 <==> (forall|i: int| 0 <= i < f.len() ==> digit_val(#[trigger] f[i]) == 0),
    decreases f.len(),
{
    if f.len() > 0 {
        let g = f.subrange(0, f.len() - 1);
        assert forall|i: int| 0 <= i < g.len() implies is_digit(#[trigger] g[i]) by {
            assert(g[i] == f[i]);
        }
        lemma_digits_val_bound(g);
        let d = digit_val(f[f.len() - 1]);
        assert(is_digit(f[f.len() - 1]));
        assert(digits_val(g) * 10 + d < pow10(g.len()) * 10) by (nonlinear_arith)
            requires
                digits_val(g) < pow10(g.len()),
                d < 10,
        ;
        assert(pow10(f.len()) == 10 * pow10(g.len()));
        if digits_val(f) == 0 {
            assert(digits_val(g) == 0 && d == 0) by (nonlinear_arith)
                requires
                    digits_val(g) * 10 + d == 0,
            ;
            assert forall|i: int| 0 <= i < f.len() implies digit_val(#[trigger] f[i]) == 0 by {
                if i < g.len() {
                    assert(g[i] == f[i]);
                }
            }
        }
        if forall|i: int| 0 <= i < f.len() ==> digit_val(#[trigger] f[i]) == 0 {
            assert forall|i: int| 0 <= i < g.len() implies digit_val(#[trigger] g[i]) == 0 by {
                assert(g[i] == f[i]);
            }
            assert(digit_val(f[f.len() - 1]) == 0);
        }
    }
}

/// Whether `v[lo..hi]`, a decimal that `parse_fixed` reads, has a value above
/// 0 and at most 4 exactly (see `in_scale_range`).
pub fn scale_in_range(v: &Vec<char>, lo: usize, hi: usize) -> (r: bool)
    requires
        lo <= hi <= v.len(),
        parse_fixed_spec(v@.subrange(lo as int, hi as int)) is Some,
    ensures
        r == in_scale_range(v@.subrange(lo as int, hi as int)),
{
    let ghost s = v@.subrange(lo as int, hi as int);
    let neg = lo < hi && v[lo] == '-';
    let start = if lo < hi && (v[lo] == '+' || v[lo] == '-') {
        lo + 1
    } else {
        lo
    };
    let ghost b = v@.subrange(start as int, hi as int);
    assert(b =~= dec_body(s));
    let k = crate::text::find_in(v, start, hi, '.');
    assert(v@.subrange(start as int, k as int) =~= dec_int(s));
    let fstart = if k < hi {
        k + 1
    } else {
        hi
    };
    let ghost fp = v@.subrange(fstart as int, hi as int);
    assert(fp =~= dec_frac(s));
    let ic = match digits_capped(v, start, k, 5) {
        Some(x) => x,
        None => {
            return false;
        },
    };
    let mut fnz = false;
    let mut j = fstart;
    while j < hi
        invariant
            fstart <= j <= hi <= v.len(),
            fp == v@.subrange(fstart as int, hi as int),
            all_digits(fp),
            fnz <==> exists|i: int| 0 <= i < j - fstart && digit_val(#[trigger] fp[i]) != 0,
        decreases hi - j,
    {
        assert(is_digit(fp[j - fstart]));
        if (v[j] as u32) != 48 {
            assert(digit_val(fp[j - fstart]) != 0);
            fnz = true;
        }
        j = j + 1;
    }
    proof {
        lemma_digits_val_bound(fp);
        let ii = digits_val(dec_int(s));
        let ff = digits_val(fp);
        let p = pow10(fp.len());
        if fnz {
            let i = choose|i: int| 0 <= i < j - fstart && digit_val(#[trigger] fp[i]) != 0;
            assert(!(forall|i: int| 0 <= i < fp.len() ==> digit_val(#[trigger] fp[i]) == 0));
        } else {
            assert forall|i: int| 0 <= i < fp.len() implies digit_val(#[trigger] fp[i]) == 0 by {
                if digit_val(fp[i]) != 0 {
                    assert(0 <= i < j - fstart);
                }
            }
        }
        assert(p >= 1) by {
            lemma_pow10_pos(fp.len());
        }
        assert((0 < ii * p + ff) == (ii > 0 || ff > 0)) by (nonlinear_arith)
            requires
                p >= 1,
        ;
        assert((ii * p + ff <= 4 * p) == (ii < 4 || (ii == 4 && ff == 0))) by (nonlinear_arith)
            requires
                p >= 1,
                ff < p,
        ;
    }
    !neg && (ic > 0 || fnz) && (ic < 4 || (ic == 4 && !fnz))
}

pub(crate) proof fn lemma_pow10_pos(n: nat)
    ensures
        pow10(n) >= 1,
    decreases n,
{
    if n > 0 {
        lemma_pow10_pos((n - 1) as nat);
    }
}

/// Whether `v[lo..hi]` is `inf`, `infinity` or `nan` in any case, after an
/// optional sign (see `inf_or_nan`).
pub fn is_inf_or_nan(v: &Vec<char>, lo: usize, hi: usize) -> (r: bool)
    requires
        lo <= hi <= v.len(),
    ensures
        r == inf_or_nan(v@.subrange(lo as int, hi as int)),
{
    let ghost s = v@.subrange(lo as int, hi as int);
    let start = if lo < hi && (v[lo] == '+' || v[lo] == '-') {
        lo + 1
    } else {
        lo
    };
    let ghost b = v@.subrange(start as int, hi as int);
    assert(b =~= dec_body(s));
    let mut l: Vec<char> = Vec::new();
    let mut i = start;
    while i < hi
        invariant
            start <= i <= hi <= v.len(),
            b == v@.subrange(start as int, hi as int),
            l@ == b.subrange(0, i - start).map_values(|c: char| ascii_lower(c)),
        decreases hi - i,
    {
        let c = v[i];
        let n = c as u32;
        let lc = if 65 <= n && n <= 90 {
            ((n + 32) as u8) as char
        } else {
            c
        };
        assert(lc == ascii_lower(c));
        let ghost before = l@;
        l.push(lc);
        assert(l@ =~= b.subrange(0, i + 1 - start).map_values(|c: char| ascii_lower(c)));
        i = i + 1;
    }
    assert(b.subrange(0, b.len() as int) =~= b);
    let inf = crate::text::chars_of("inf");
    let infinity = crate::text::chars_of("infinity");
    let nan = crate::text::chars_of("nan");
    let n = l.len();
    assert(l@.subrange(0, n as int) =~= l@);
    let r1 = inf.len() == n && crate::text::range_starts_with(&l, 0, n, &inf);
    let r2 = infinity.len() == n && crate::text::range_starts_with(&l, 0, n, &infinity);
    let r3 = nan.len() == n && crate::text::range_starts_with(&l, 0, n, &nan);
    proof {
        if inf@.len() == l@.len() {
            assert(crate::text::starts_with(l@, inf@) == (l@ == inf@)) by {
                if crate::text::starts_with(l@, inf@) {
                    assert(l@ =~= inf@);
                }
            }
        }
        if infinity@.len() == l@.len() {
            assert(crate::text::starts_with(l@, infinity@) == (l@ == infinity@)) by {
                if crate::text::starts_with(l@, infinity@) {
                    assert(l@ =~= infinity@);
                }
            }
        }
        if nan@.len() == l@.len() {
            assert(crate::text::starts_with(l@, nan@) == (l@ == nan@)) by {
                if crate::text::starts_with(l@, nan@) {
                    assert(l@ =~= nan@);
                }
            }
        }
    }
    r1 || r2 || r3
}
} // verus!
