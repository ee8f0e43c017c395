//! Numbers in the forms that `str::parse::<f64>` reads: a decimal, a decimal
//! followed by a power of ten (`25e-2`), and the names of the infinities and
//! of not a number. `read_number` reads the first two as millionths, as the
//! report's refresh rates and scales are kept; `read_scale` reads a scale
//! typed by the user, whose exact value is checked against the accepted range
//! (above 0, at most 4) before it is rounded to millionths.
use vstd::prelude::*;
use crate::decimal::{
    all_digits, dec_body, dec_frac, dec_int, digit_val, digits_val, frac_val, in_scale_range,
    inf_or_nan, is_digit, is_inf_or_nan, lemma_digits_val_bound, lemma_pow10_pos, parse_fixed,
    parse_fixed_spec, pow10, rounds_up, scale_in_range,
};
use crate::text::{find, find_in};

verus! {

/// What a typed scale reads as.
#[derive(Clone, Copy, Debug, PartialEq, Eq, Structural)]
pub enum ScaleEntry {
    /// A number in the accepted range, in millionths.
    Value(i64),
    /// A number outside the accepted range.
    OutOfRange,
    /// No number.
    NotANumber,
}

/// A power of ten above every length of text.
pub const EXP_CAP: u128 = 1_267_650_600_228_229_401_496_703_205_376;

pub open spec fn zeros(k: nat) -> Seq<char> {
    Seq::new(k, |i: int| '0')
}

/// Where the power of ten of `s` starts: its first `e` or `E`, or its length.
pub open spec fn exp_at(s: Seq<char>) -> int {
    let a = find(s, 'e');
    let b = find(s, 'E');
    if a <= b {
        a
    } else {
        b
    }
}

/// An exponent: an optional sign, then one or more digits.
pub open spec fn exp_ok(x: Seq<char>) -> bool {
    dec_body(x).len() > 0 && all_digits(dec_body(x))
}

pub open spec fn exp_val(x: Seq<char>) -> int {
    if x.len() > 0 && x[0] == '-' {
        -digits_val(dec_body(x))
    } else {
        digits_val(dec_body(x)) as int
    }
}

/// The sign that starts `s`, if any.
pub open spec fn sign_of(s: Seq<char>) -> Seq<char> {
    if s.len() > 0 && (s[0] == '+' || s[0] == '-') {
        s.subrange(0, 1)
    } else {
        Seq::empty()
    }
}

/// The decimal `s` with its point moved `e` places to the right (to the left
/// for a negative `e`), with the zeros that this needs.
#[verifier::opaque]
pub open spec fn shift_point(s: Seq<char>, e: int) -> Seq<char> {
    let d = dec_int(s) + dec_frac(s);
    let p = dec_int(s).len() + e;
    sign_of(s) + if p <= 0 {
        seq!['.'] + zeros((-p) as nat) + d
    } else if p >= d.len() {
        d + zeros((p - d.len()) as nat) + seq!['.']
    } else {
        d.subrange(0, p) + seq!['.'] + d.subrange(p, d.len() as int)
    }
}

/// A decimal read as a scale: its millionths when its exact value lies in
/// the accepted range.
#[verifier::opaque]
pub open spec fn decimal_scale(t: Seq<char>) -> ScaleEntry {
    match parse_fixed_spec(t) {
        Some(v) => if in_scale_range(t) {
            ScaleEntry::Value(v)
        } else {
            ScaleEntry::OutOfRange
        },
        None => ScaleEntry::NotANumber,
    }
}

/// What the text `s` reads as, for a scale: a decimal; a decimal, `e` or
/// `E`, and a power of ten (an optional sign and digits), which stands for
/// the decimal with its point moved; an infinity or not a number, which lie
/// outside the range; anything else is no number.
pub open spec fn scale_entry_spec(s: Seq<char>) -> ScaleEntry {
    let k = exp_at(s);
    let m = s.subrange(0, k);
    let x = s.subrange(k + 1, s.len() as int);
    if parse_fixed_spec(s) is Some {
        decimal_scale(s)
    } else if k < s.len() && parse_fixed_spec(m) is Some && exp_ok(x) {
        decimal_scale(shift_point(m, exp_val(x)))
    } else if inf_or_nan(s) {
        ScaleEntry::OutOfRange
    } else {
        ScaleEntry::NotANumber
    }
}

/// What `str::parse::<f64>` reads `s` as, in millionths rounded as
/// `parse_fixed_spec` rounds them: a decimal, or a decimal with a power of
/// ten; `None` for anything else (the infinities and not a number among them,
/// which no count of millionths holds).
pub open spec fn number_spec(s: Seq<char>) -> Option<i64> {
    let k = exp_at(s);
    let m = s.subrange(0, k);
    let x = s.subrange(k + 1, s.len() as int);
    if parse_fixed_spec(s) is Some {
        parse_fixed_spec(s)
    } else if k < s.len() && parse_fixed_spec(m) is Some && exp_ok(x) {
        parse_fixed_spec(shift_point(m, exp_val(x)))
    } else {
        None
    }
}

proof fn lemma_find_after(a: Seq<char>, rest: Seq<char>, c: char)
    requires
        forall|i: int| 0 <= i < a.len() ==> a[i] != c,
        rest.len() > 0,
        rest[0] == c,
    ensures
        find(a + rest, c) == a.len(),
    decreases a.len(),
{
    if a.len() > 0 {
        let t = a.subrange(1, a.len() as int);
        assert forall|i: int| 0 <= i < t.len() implies t[i] != c by {
            assert(t[i] == a[i + 1]);
        }
        lemma_find_after(t, rest, c);
        assert((a + rest).subrange(1, (a + rest).len() as int) =~= t + rest);
    } else {
        assert(a + rest =~= rest);
    }
}

/// The parts of a decimal written as a sign, digits, a point and digits.
proof fn lemma_decimal_form(sg: Seq<char>, a: Seq<char>, b: Seq<char>)
    requires
        sg.len() == 0 || sg == seq!['+'] || sg == seq!['-'],
        all_digits(a),
        all_digits(b),
        a.len() + b.len() > 0,
    ensures
        ({
            let t = sg + (a + seq!['.'] + b);
            &&& dec_int(t) == a
            &&& dec_frac(t) == b
            &&& parse_fixed_spec(t) is Some
            &&& (t.len() > 0 && t[0] == '-') == (sg == seq!['-'])
        }),
{
    let body = a + seq!['.'] + b;
    let t = sg + body;
    assert forall|i: int| 0 <= i < a.len() implies a[i] != '.' by {
        assert(is_digit(a[i]));
    }
    assert(body =~= a + (seq!['.'] + b));
    lemma_find_after(a, seq!['.'] + b, '.');
    if sg.len() == 0 {
        assert(t =~= body);
        if a.len() > 0 {
            assert(is_digit(a[0]));
            assert(t[0] == a[0]);
        }
    } else {
        assert(t.subrange(1, t.len() as int) =~= body);
    }
    assert(dec_body(t) == body);
    let k = find(body, '.');
    assert(k == a.len());
    assert(body.subrange(0, k) =~= a);
    assert(body.subrange(k + 1, body.len() as int) =~= b);
}

proof fn lemma_zeros_digits(k: nat)
    ensures
        all_digits(zeros(k)),
        digits_val(zeros(k)) == 0,
    decreases k,
{
    if k > 0 {
        lemma_zeros_digits((k - 1) as nat);
        assert(zeros(k).subrange(0, k - 1) =~= zeros((k - 1) as nat));
    }
}

proof fn lemma_digits_concat_digits(a: Seq<char>, b: Seq<char>)
    requires
        all_digits(a),
        all_digits(b),
    ensures
        all_digits(a + b),
{
    assert forall|i: int| 0 <= i < (a + b).len() implies is_digit(#[trigger] (a + b)[i]) by {
        if i < a.len() {
            assert((a + b)[i] == a[i]);
        } else {
            assert((a + b)[i] == b[i - a.len()]);
        }
    }
}

/// Zeros after digits multiply their value by a power of ten.
proof fn lemma_trailing_zeros(d: Seq<char>, z: nat)
    ensures
        digits_val(d + zeros(z)) == digits_val(d) * pow10(z),
    decreases z,
{
    if z == 0 {
        assert(d + zeros(0) =~= d);
        assert(pow10(0) == 1);
        assert(digits_val(d) * 1 == digits_val(d));
    } else {
        lemma_trailing_zeros(d, (z - 1) as nat);
        let s = d + zeros(z);
        assert(s.subrange(0, s.len() - 1) =~= d + zeros((z - 1) as nat));
        assert(s[s.len() - 1] == '0');
        assert(digit_val('0') == 0);
        let x = digits_val(d);
        let p = pow10((z - 1) as nat);
        assert(digits_val(s) == digits_val(d + zeros((z - 1) as nat)) * 10);
        assert(pow10(z) == 10 * p);
        assert((x * p) * 10 == x * (10 * p)) by (nonlinear_arith);
    }
}

/// Zeros before digits leave their value.
proof fn lemma_leading_zeros(z: nat, d: Seq<char>)
    ensures
        digits_val(zeros(z) + d) == digits_val(d),
    decreases d.len(),
{
    if d.len() == 0 {
        assert(zeros(z) + d =~= zeros(z));
        lemma_zeros_digits(z);
    } else {
        let s = zeros(z) + d;
        let dl = d.subrange(0, d.len() - 1);
        lemma_leading_zeros(z, dl);
        assert(s.subrange(0, s.len() - 1) =~= zeros(z) + dl);
        assert(s[s.len() - 1] == d[d.len() - 1]);
    }
}

/// A shift far to the left: a value below one millionth, read as 0, and in
/// the range exactly when some digit is not 0 and there is no minus sign.
proof fn lemma_shift_far_left(sg: Seq<char>, z: nat, d: Seq<char>)
    requires
        sg.len() == 0 || sg == seq!['+'] || sg == seq!['-'],
        all_digits(d),
        d.len() > 0,
        z >= 7,
    ensures
        ({
            let t = sg + (seq!['.'] + zeros(z) + d);
            &&& decimal_scale(t) == if sg != seq!['-'] && digits_val(d) > 0 {
                ScaleEntry::Value(0)
            } else {
                ScaleEntry::OutOfRange
            }
            &&& parse_fixed_spec(t) == Some(0i64)
        }),
{
    reveal(decimal_scale);
    let b = zeros(z) + d;
    lemma_zeros_digits(z);
    lemma_digits_concat_digits(zeros(z), d);
    let e = Seq::<char>::empty();
    lemma_decimal_form(sg, e, b);
    let t = sg + (seq!['.'] + zeros(z) + d);
    assert(e + seq!['.'] + b =~= seq!['.'] + zeros(z) + d);
    assert(dec_int(t) == e && dec_frac(t) == b);
    assert(digits_val(e) == 0);
    lemma_leading_zeros(z, d);
    lemma_digits_val_bound(d);
    lemma_pow10_ge(d.len(), b.len());
    reveal_with_fuel(frac_val, 7);
    assert(b[0] == '0' && b[1] == '0' && b[2] == '0' && b[3] == '0' && b[4] == '0' && b[5] == '0'
        && b[6] == '0');
    assert(frac_val(b, 6) == 0);
    assert(!rounds_up(b));
    assert(digits_val(b) <= 4 * pow10(b.len()));
    assert(0 * pow10(b.len()) == 0);
}

proof fn lemma_pow10_ge(a: nat, b: nat)
    requires
        a <= b,
    ensures
        pow10(a) <= pow10(b),
    decreases b,
{
    if b > a {
        lemma_pow10_ge(a, (b - 1) as nat);
        lemma_pow10_pos((b - 1) as nat);
    }
}

/// A shift far to the right: a whole number with zeros after every digit,
/// above the range unless it is 0.
proof fn lemma_shift_far_right(sg: Seq<char>, d: Seq<char>, z: nat)
    requires
        sg.len() == 0 || sg == seq!['+'] || sg == seq!['-'],
        all_digits(d),
        d.len() > 0,
        z >= 1,
    ensures
        decimal_scale(sg + (d + zeros(z) + seq!['.'])) == ScaleEntry::OutOfRange,
{
    reveal(decimal_scale);
    let a = d + zeros(z);
    lemma_zeros_digits(z);
    lemma_digits_concat_digits(d, zeros(z));
    let e = Seq::<char>::empty();
    lemma_decimal_form(sg, a, e);
    let t = sg + (d + zeros(z) + seq!['.']);
    assert(a + seq!['.'] + e =~= d + zeros(z) + seq!['.']);
    lemma_trailing_zeros(d, z);
    lemma_pow10_ge(1, z);
    assert(pow10(1) == 10) by {
        reveal_with_fuel(pow10, 2);
    }
    assert(pow10(0) == 1);
    assert(digits_val(e) == 0);
    let x = digits_val(d);
    let p = pow10(z);
    assert(x == 0 || x * p >= 10) by (nonlinear_arith)
        requires
            p >= 10,
    ;
}

/// The value of a whole number with zeros after its digits: 0 for no digit
/// but 0, and past the bounds of `i64` with 13 zeros or more.
proof fn lemma_far_right_value(sg: Seq<char>, d: Seq<char>, z: nat)
    requires
        sg.len() == 0 || sg == seq!['+'] || sg == seq!['-'],
        all_digits(d),
        d.len() > 0,
    ensures
        ({
            let t = sg + (d + zeros(z) + seq!['.']);
            &&& digits_val(d) == 0 ==> parse_fixed_spec(t) == Some(0i64)
            &&& digits_val(d) > 0 && z >= 13 ==> parse_fixed_spec(t) == Some(
                if sg == seq!['-'] {
                    (-i64::MAX) as i64
                } else {
                    i64::MAX
                },
            )
        }),
{
    let a = d + zeros(z);
    lemma_zeros_digits(z);
    lemma_digits_concat_digits(d, zeros(z));
    let e = Seq::<char>::empty();
    lemma_decimal_form(sg, a, e);
    assert(a + seq!['.'] + e =~= d + zeros(z) + seq!['.']);
    lemma_trailing_zeros(d, z);
    reveal_with_fuel(frac_val, 7);
    assert(frac_val(e, 6) == 0);
    assert(!rounds_up(e));
    if digits_val(d) > 0 && z >= 13 {
        lemma_pow10_ge(13, z);
        reveal_with_fuel(pow10, 14);
        assert(pow10(13) == 10_000_000_000_000);
        let x = digits_val(d);
        let p = pow10(z);
        assert(x * p * 1_000_000 > i64::MAX) by (nonlinear_arith)
            requires
                x >= 1,
                p >= 10_000_000_000_000,
        ;
    }
}

/// A shift beyond the decimals, written out: the whole number with the zeros
/// it needs.
proof fn lemma_shift_right_text(m: Seq<char>, sg: Seq<char>, ip: Seq<char>, fp: Seq<char>, e: int)
    requires
        sign_of(m) == sg,
        dec_int(m) == ip,
        dec_frac(m) == fp,
        e >= fp.len(),
    ensures
        shift_point(m, e) == sg + (ip + fp + zeros((e - fp.len()) as nat) + seq!['.']),
{
    reveal(shift_point);
    assert(shift_point(m, e) =~= sg + (ip + fp + zeros((e - fp.len()) as nat) + seq!['.']));
}

/// The parts of the exponent `v[a..b]`: whether it is negative, and its
/// magnitude capped at `EXP_CAP`; `None` when it is no exponent.
fn exp_parts(v: &Vec<char>, a: usize, b: usize) -> (r: Option<(bool, u128)>)
    requires
        a <= b <= v.len(),
    ensures
        r is Some <==> exp_ok(v@.subrange(a as int, b as int)),
        r matches Some((neg, mag)) ==> {
            let x = v@.subrange(a as int, b as int);
            &&& neg == (x.len() > 0 && x[0] == '-')
            &&& mag == if digits_val(dec_body(x)) >= EXP_CAP {
                EXP_CAP as int
            } else {
                digits_val(dec_body(x)) as int
            }
        },
{
    let ghost x = v@.subrange(a as int, b as int);
    let neg = a < b && v[a] == '-';
    let st = if a < b && (v[a] == '+' || v[a] == '-') {
        a + 1
    } else {
        a
    };
    assert(v@.subrange(st as int, b as int) =~= dec_body(x));
    if st >= b {
        return None;
    }
    let mut acc: u128 = 0;
    let mut i = st;
    assert(v@.subrange(st as int, st as int) =~= Seq::<char>::empty());
    while i < b
        invariant
            st <= i <= b <= v.len(),
            dec_body(v@.subrange(a as int, b as int)) == v@.subrange(st as int, b as int),
            all_digits(v@.subrange(st as int, i as int)),
            acc == (if digits_val(v@.subrange(st as int, i as int)) >= EXP_CAP {
                EXP_CAP as int
            } else {
                digits_val(v@.subrange(st as int, i as int)) as int
            }),
        decreases b - i,
    {
        let c = v[i];
        if !((c as u32) >= 48 && (c as u32) <= 57) {
            assert(!is_digit(v@.subrange(st as int, b as int)[i - st]));
            return None;
        }
        let d = ((c as u32) - 48) as u128;
        let ghost prev = v@.subrange(st as int, i as int);
        let ghost next = v@.subrange(st as int, i + 1);
        assert(next.subrange(0, next.len() - 1) =~= prev);
        assert(digits_val(next) == digits_val(prev) * 10 + d);
        if acc >= EXP_CAP {
            assert(digits_val(prev) * 10 + d >= EXP_CAP) by (nonlinear_arith)
                requires
                    digits_val(prev) >= EXP_CAP,
            ;
        } else {
            let y = acc * 10 + d;
            acc = if y >= EXP_CAP {
                EXP_CAP
            } else {
                y
            };
        }
        i = i + 1;
        assert forall|j: int| 0 <= j < next.len() implies is_digit(#[trigger] next[j]) by {
            if j < prev.len() {
                assert(next[j] == prev[j]);
            }
        }
    }
    Some((neg, acc))
}

/// Whether some digit of `v[a..b]` is not 0.
fn any_nonzero(v: &Vec<char>, a: usize, b: usize) -> (r: bool)
    requires
        a <= b <= v.len(),
        all_digits(v@.subrange(a as int, b as int)),
    ensures
        r == (digits_val(v@.subrange(a as int, b as int)) > 0),
{
    let ghost f = v@.subrange(a as int, b as int);
    let mut j = a;
    let mut nz = false;
    while j < b
        invariant
            a <= j <= b <= v.len(),
            f == v@.subrange(a as int, b as int),
            all_digits(f),
            nz <==> exists|i: int| 0 <= i < j - a && digit_val(#[trigger] f[i]) != 0,
        decreases b - j,
    {
        assert(is_digit(f[j - a]));
        if (v[j] as u32) != 48 {
            assert(digit_val(f[j - a]) != 0);
            nz = true;
        }
        j = j + 1;
    }
    proof {
        lemma_digits_val_bound(f);
        if !nz {
            assert forall|i: int| 0 <= i < f.len() implies digit_val(#[trigger] f[i]) == 0 by {
                if digit_val(f[i]) != 0 {
                    assert(0 <= i < j - a);
                }
            }
        }
    }
    nz
}

fn push_range(t: &mut Vec<char>, v: &Vec<char>, a: usize, b: usize)
    requires
        a <= b <= v.len(),
    ensures
        final(t)@ == old(t)@ + v@.subrange(a as int, b as int),
{
    let mut i = a;
    while i < b
        invariant
            a <= i <= b <= v.len(),
            t@ == old(t)@ + v@.subrange(a as int, i as int),
        decreases b - i,
    {
        t.push(v[i]);
        i = i + 1;
        assert(t@ =~= old(t)@ + v@.subrange(a as int, i as int));
    }
}

fn push_zeros(t: &mut Vec<char>, k: usize)
    ensures
        final(t)@ == old(t)@ + zeros(k as nat),
{
    let mut i: usize = 0;
    while i < k
        invariant
            i <= k,
            t@ == old(t)@ + zeros(i as nat),
        decreases k - i,
    {
        t.push('0');
        i = i + 1;
        assert(t@ =~= old(t)@ + zeros(i as nat));
    }
}

/// The three ways the point moves within reach of the digits of a decimal
/// `m` whose sign, whole digits and decimals are `sg`, `ip` and `fp`.
proof fn lemma_shift_near(m: Seq<char>, sg: Seq<char>, ip: Seq<char>, fp: Seq<char>, e: int)
    requires
        sign_of(m) == sg,
        dec_int(m) == ip,
        dec_frac(m) == fp,
        -(ip.len() + 7) < e <= fp.len(),
    ensures
        0 < e ==> shift_point(m, e) == sg + (ip + fp.subrange(0, e) + seq!['.'] + fp.subrange(e, fp.len() as int)),
        -ip.len() <= e <= 0 ==> shift_point(m, e) == sg + (ip.subrange(0, ip.len() + e) + seq!['.']
            + ip.subrange(ip.len() + e, ip.len() as int) + fp),
        e < -ip.len() ==> shift_point(m, e) == sg + (seq!['.'] + zeros((-(ip.len() + e)) as nat) + ip + fp),
{
    reveal(shift_point);
    let d = ip + fp;
    let p = ip.len() + e;
    assert(zeros(0) =~= Seq::<char>::empty());
    if 0 < e {
        if p < d.len() {
            assert(d.subrange(0, p) =~= ip + fp.subrange(0, e));
            assert(d.subrange(p, d.len() as int) =~= fp.subrange(e, fp.len() as int));
        } else {
            assert(fp.subrange(0, e) =~= fp);
            assert(fp.subrange(e, fp.len() as int) =~= Seq::<char>::empty());
        }
        assert(shift_point(m, e) =~= sg + (ip + fp.subrange(0, e) + seq!['.'] + fp.subrange(e, fp.len() as int)));
    } else if -ip.len() <= e {
        if p <= 0 {
            assert(ip.subrange(0, 0) =~= Seq::<char>::empty());
            assert(ip.subrange(0, ip.len() as int) =~= ip);
        } else if p >= d.len() {
            assert(ip.subrange(0, p) =~= ip);
            assert(ip.subrange(p, ip.len() as int) =~= Seq::<char>::empty());
            assert(fp =~= Seq::<char>::empty());
        } else {
            assert(d.subrange(0, p) =~= ip.subrange(0, p));
            assert(d.subrange(p, d.len() as int) =~= ip.subrange(p, ip.len() as int) + fp);
        }
        assert(shift_point(m, e) =~= sg + (ip.subrange(0, ip.len() + e) + seq!['.'] + ip.subrange(
            ip.len() + e,
            ip.len() as int,
        ) + fp));
    } else {
        assert(shift_point(m, e) =~= sg + (seq!['.'] + zeros((-(ip.len() + e)) as nat) + ip + fp));
    }
}

/// Shifts beyond reach of the digits (see `lemma_shift_far_left` and
/// `lemma_shift_far_right`), for a decimal `m` with the parts `sg`, `ip`, `fp`.
proof fn lemma_shift_far(m: Seq<char>, sg: Seq<char>, ip: Seq<char>, fp: Seq<char>, e: int)
    requires
        sign_of(m) == sg,
        sg.len() == 0 || sg == seq!['+'] || sg == seq!['-'],
        dec_int(m) == ip,
        dec_frac(m) == fp,
        all_digits(ip),
        all_digits(fp),
        ip.len() + fp.len() > 0,
        e > fp.len() || e <= -(ip.len() + 7),
    ensures
        e > fp.len() ==> decimal_scale(shift_point(m, e)) == ScaleEntry::OutOfRange,
        e <= -(ip.len() + 7) ==> decimal_scale(shift_point(m, e)) == if sg != seq!['-'] && (digits_val(ip) > 0
            || digits_val(fp) > 0) {
            ScaleEntry::Value(0)
        } else {
            ScaleEntry::OutOfRange
        },
{
    reveal(shift_point);
    let d = ip + fp;
    let p = ip.len() + e;
    lemma_digits_concat_digits(ip, fp);
    if e > fp.len() {
        lemma_shift_far_right(sg, d, (p - d.len()) as nat);
    } else {
        lemma_shift_far_left(sg, (-p) as nat, d);
        lemma_digits_val_bound(ip);
        lemma_digits_val_bound(fp);
        lemma_digits_val_bound(d);
        if digits_val(d) == 0 {
            assert forall|i: int| 0 <= i < ip.len() implies digit_val(#[trigger] ip[i]) == 0 by {
                assert(ip[i] == d[i]);
            }
            assert forall|i: int| 0 <= i < fp.len() implies digit_val(#[trigger] fp[i]) == 0 by {
                assert(fp[i] == d[ip.len() + i]);
            }
        }
        if digits_val(ip) == 0 && digits_val(fp) == 0 {
            assert forall|i: int| 0 <= i < d.len() implies digit_val(#[trigger] d[i]) == 0 by {
                if i < ip.len() {
                    assert(d[i] == ip[i]);
                } else {
                    assert(d[i] == fp[i - ip.len()]);
                }
            }
        }
    }
}

/// Where the sign, the whole digits and the decimals of the decimal
/// `v[lo..k]` lie: `v[lo..start]`, `v[start..kd]` and `v[fstart..k]`.
fn decimal_parts(v: &Vec<char>, lo: usize, k: usize) -> (r: (usize, usize, usize))
    requires
        lo <= k <= v.len(),
        parse_fixed_spec(v@.subrange(lo as int, k as int)) is Some,
    ensures
        ({
            let (start, kd, fstart) = r;
            let m = v@.subrange(lo as int, k as int);
            let sg = v@.subrange(lo as int, start as int);
            let ip = v@.subrange(start as int, kd as int);
            let fp = v@.subrange(fstart as int, k as int);
            &&& lo <= start <= kd <= fstart <= k
            &&& start <= lo + 1
            &&& sign_of(m) == sg
            &&& (sg.len() == 0 || sg == seq!['+'] || sg == seq!['-'])
            &&& dec_int(m) == ip
            &&& dec_frac(m) == fp
            &&& all_digits(ip)
            &&& all_digits(fp)
            &&& ip.len() + fp.len() > 0
        }),
{
    let ghost m = v@.subrange(lo as int, k as int);
    let start = if lo < k && (v[lo] == '+' || v[lo] == '-') {
        lo + 1
    } else {
        lo
    };
    let ghost sg = sign_of(m);
    assert(sg =~= v@.subrange(lo as int, start as int));
    assert(v@.subrange(start as int, k as int) =~= dec_body(m));
    let kd = find_in(v, start, k, '.');
    let fstart = if kd < k {
        kd + 1
    } else {
        k
    };
    assert(v@.subrange(start as int, kd as int) =~= dec_int(m));
    assert(v@.subrange(fstart as int, k as int) =~= dec_frac(m));
    (start, kd, fstart)
}

/// The decimal `v[lo..k]` (parts as `decimal_parts` gives them) with its
/// point moved `e` places: `mag` to the right (`!neg`, at most as many as its
/// decimals) or to the left (`neg`, fewer than its whole digits and 7).
fn build_near(
    v: &Vec<char>,
    lo: usize,
    start: usize,
    kd: usize,
    fstart: usize,
    k: usize,
    neg: bool,
    mag: u128,
    Ghost(e): Ghost<int>,
) -> (t: Vec<char>)
    requires
        lo <= start <= kd <= fstart <= k <= v.len(),
        sign_of(v@.subrange(lo as int, k as int)) == v@.subrange(lo as int, start as int),
        dec_int(v@.subrange(lo as int, k as int)) == v@.subrange(start as int, kd as int),
        dec_frac(v@.subrange(lo as int, k as int)) == v@.subrange(fstart as int, k as int),
        !neg ==> mag <= (k - fstart) && e == mag,
        neg ==> mag < (kd - start) + 7 && e == -mag,
    ensures
        t@ == shift_point(v@.subrange(lo as int, k as int), e),
{
    let ghost m = v@.subrange(lo as int, k as int);
    let ghost sg = v@.subrange(lo as int, start as int);
    let ghost ip = v@.subrange(start as int, kd as int);
    let ghost fp = v@.subrange(fstart as int, k as int);
    proof {
        lemma_shift_near(m, sg, ip, fp, e);
    }
    let mut t: Vec<char> = Vec::new();
    push_range(&mut t, v, lo, start);
    let il = kd - start;
    if !neg {
        let ee = mag as usize;
        push_range(&mut t, v, start, kd);
        push_range(&mut t, v, fstart, fstart + ee);
        t.push('.');
        push_range(&mut t, v, fstart + ee, k);
        assert(v@.subrange(fstart as int, fstart + mag) =~= fp.subrange(0, e));
        assert(v@.subrange(fstart + mag, k as int) =~= fp.subrange(e, fp.len() as int));
        if mag == 0 {
            assert(ip.subrange(0, ip.len() as int) =~= ip);
            assert(ip.subrange(ip.len() as int, ip.len() as int) =~= Seq::<char>::empty());
            assert(fp.subrange(0, 0) =~= Seq::<char>::empty());
            assert(fp.subrange(0, fp.len() as int) =~= fp);
        }
        assert(t@ =~= shift_point(m, e));
    } else if mag <= il as u128 {
        let q = kd - (mag as usize);
        push_range(&mut t, v, start, q);
        t.push('.');
        push_range(&mut t, v, q, kd);
        push_range(&mut t, v, fstart, k);
        assert(v@.subrange(start as int, q as int) =~= ip.subrange(0, ip.len() + e));
        assert(v@.subrange(q as int, kd as int) =~= ip.subrange(ip.len() + e, ip.len() as int));
        assert(t@ =~= shift_point(m, e));
    } else {
        let zl = (mag - il as u128) as usize;
        t.push('.');
        push_zeros(&mut t, zl);
        push_range(&mut t, v, start, kd);
        push_range(&mut t, v, fstart, k);
        assert(t@ =~= shift_point(m, e));
    }
    t
}

/// The decimal `v[lo..k]` with its point moved `e` places, read as a scale;
/// `neg` and `mag` are the sign and the capped magnitude of `e`.
fn shifted_scale(v: &Vec<char>, lo: usize, k: usize, neg: bool, mag: u128, Ghost(e): Ghost<int>) -> (r:
    ScaleEntry)
    requires
        lo <= k <= v.len(),
        parse_fixed_spec(v@.subrange(lo as int, k as int)) is Some,
        neg ==> e <= 0,
        !neg ==> e >= 0,
        mag == (if e >= EXP_CAP || -e >= EXP_CAP {
            EXP_CAP as int
        } else if e < 0 {
            -e
        } else {
            e
        }),
    ensures
        r == decimal_scale(shift_point(v@.subrange(lo as int, k as int), e)),
{
    let ghost m = v@.subrange(lo as int, k as int);
    let (start, kd, fstart) = decimal_parts(v, lo, k);
    let ghost sg = v@.subrange(lo as int, start as int);
    let ghost ip = v@.subrange(start as int, kd as int);
    let ghost fp = v@.subrange(fstart as int, k as int);
    let minus = start > lo && v[lo] == '-';
    assert(minus == (sg == seq!['-'])) by {
        if start > lo {
            assert(sg[0] == v[lo as int]);
        }
    }
    let il = kd - start;
    let fl = k - fstart;
    if !neg && mag > fl as u128 {
        proof {
            lemma_shift_far(m, sg, ip, fp, e);
        }
        return ScaleEntry::OutOfRange;
    }
    if neg && mag >= il as u128 + 7 {
        let nz1 = any_nonzero(v, start, kd);
        let nz2 = any_nonzero(v, fstart, k);
        proof {
            lemma_shift_far(m, sg, ip, fp, e);
        }
        return if !minus && (nz1 || nz2) {
            ScaleEntry::Value(0)
        } else {
            ScaleEntry::OutOfRange
        };
    }
    let t = build_near(v, lo, start, kd, fstart, k, neg, mag, Ghost(e));
    text_scale(&t)
}

/// The decimal `t` read as a scale (see `decimal_scale`).
fn text_scale(t: &Vec<char>) -> (r: ScaleEntry)
    ensures
        r == decimal_scale(t@),
{
    reveal(decimal_scale);
    let n = t.len();
    assert(t@.subrange(0, n as int) =~= t@);
    match parse_fixed(t, 0, n) {
        Some(x) => if scale_in_range(t, 0, n) {
            ScaleEntry::Value(x)
        } else {
            ScaleEntry::OutOfRange
        },
        None => ScaleEntry::NotANumber,
    }
}

/// The decimal `v[lo..k]` with its point moved `e` places, read as
/// millionths; `neg` and `mag` are the sign and the capped magnitude of `e`.
fn shifted_number(v: &Vec<char>, lo: usize, k: usize, neg: bool, mag: u128, Ghost(e): Ghost<int>) -> (r:
    Option<i64>)
    requires
        lo <= k <= v.len(),
        parse_fixed_spec(v@.subrange(lo as int, k as int)) is Some,
        neg ==> e <= 0,
        !neg ==> e >= 0,
        mag == (if e >= EXP_CAP || -e >= EXP_CAP {
            EXP_CAP as int
        } else if e < 0 {
            -e
        } else {
            e
        }),
    ensures
        r == parse_fixed_spec(shift_point(v@.subrange(lo as int, k as int), e)),
{
    let ghost m = v@.subrange(lo as int, k as int);
    let (start, kd, fstart) = decimal_parts(v, lo, k);
    let ghost sg = v@.subrange(lo as int, start as int);
    let ghost ip = v@.subrange(start as int, kd as int);
    let ghost fp = v@.subrange(fstart as int, k as int);
    let minus = start > lo && v[lo] == '-';
    assert(minus == (sg == seq!['-'])) by {
        if start > lo {
            assert(sg[0] == v[lo as int]);
        }
    }
    let il = kd - start;
    let fl = k - fstart;
    proof {
        lemma_digits_concat_digits(ip, fp);
    }
    if !neg && mag > fl as u128 {
        let nz1 = any_nonzero(v, start, kd);
        let nz2 = any_nonzero(v, fstart, k);
        proof {
            lemma_shift_right_text(m, sg, ip, fp, e);
            let d = ip + fp;
            assert(ip + fp + zeros((e - fp.len()) as nat) =~= d + zeros((e - fp.len()) as nat));
            lemma_far_right_value(sg, d, (e - fp.len()) as nat);
            lemma_nonzero_parts(ip, fp);
        }
        if !nz1 && !nz2 {
            return Some(0);
        }
        if mag - fl as u128 >= 13 {
            return Some(if minus { -i64::MAX } else { i64::MAX });
        }
        let z = (mag - fl as u128) as usize;
        let mut t: Vec<char> = Vec::new();
        push_range(&mut t, v, lo, start);
        push_range(&mut t, v, start, kd);
        push_range(&mut t, v, fstart, k);
        push_zeros(&mut t, z);
        t.push('.');
        assert(t@ =~= shift_point(m, e));
        let n = t.len();
        assert(t@.subrange(0, n as int) =~= t@);
        return parse_fixed(&t, 0, n);
    }
    if neg && mag >= il as u128 + 7 {
        proof {
            reveal(shift_point);
            lemma_shift_far_left(sg, (-(ip.len() + e)) as nat, ip + fp);
        }
        return Some(0);
    }
    let t = build_near(v, lo, start, kd, fstart, k, neg, mag, Ghost(e));
    let n = t.len();
    assert(t@.subrange(0, n as int) =~= t@);
    parse_fixed(&t, 0, n)
}

proof fn lemma_nonzero_parts(ip: Seq<char>, fp: Seq<char>)
    requires
        all_digits(ip),
        all_digits(fp),
    ensures
        (digits_val(ip + fp) > 0) == (digits_val(ip) > 0 || digits_val(fp) > 0),
{
    let d = ip + fp;
    lemma_digits_concat_digits(ip, fp);
    lemma_digits_val_bound(ip);
    lemma_digits_val_bound(fp);
    lemma_digits_val_bound(d);
    if digits_val(d) == 0 {
        assert forall|i: int| 0 <= i < ip.len() implies digit_val(#[trigger] ip[i]) == 0 by {
            assert(ip[i] == d[i]);
        }
        assert forall|i: int| 0 <= i < fp.len() implies digit_val(#[trigger] fp[i]) == 0 by {
            assert(fp[i] == d[ip.len() + i]);
        }
    }
    if digits_val(ip) == 0 && digits_val(fp) == 0 {
        assert forall|i: int| 0 <= i < d.len() implies digit_val(#[trigger] d[i]) == 0 by {
            if i < ip.len() {
                assert(d[i] == ip[i]);
            } else {
                assert(d[i] == fp[i - ip.len()]);
            }
        }
    }
}

/// Reads `v[lo..hi]` as `number_spec` does.
pub fn read_number(v: &Vec<char>, lo: usize, hi: usize) -> (r: Option<i64>)
    requires
        lo <= hi <= v.len(),
    ensures
        r == number_spec(v@.subrange(lo as int, hi as int)),
{
    let ghost s = v@.subrange(lo as int, hi as int);
    let direct = parse_fixed(v, lo, hi);
    if direct.is_some() {
        return direct;
    }
    let ka = find_in(v, lo, hi, 'e');
    let kb = find_in(v, lo, hi, 'E');
    let k = if ka <= kb {
        ka
    } else {
        kb
    };
    assert(k - lo == exp_at(s));
    if k < hi {
        assert(v@.subrange(lo as int, k as int) =~= s.subrange(0, k - lo));
        assert(v@.subrange(k + 1, hi as int) =~= s.subrange(k - lo + 1, s.len() as int));
        if parse_fixed(v, lo, k).is_some() {
            match exp_parts(v, k + 1, hi) {
                Some((neg, mag)) => {
                    let ghost x = v@.subrange(k + 1, hi as int);
                    let ghost e = exp_val(x);
                    return shifted_number(v, lo, k, neg, mag, Ghost(e));
                },
                None => {},
            }
        }
    }
    None
}

/// Reads `v[lo..hi]` as a scale (see `scale_entry_spec`).
pub fn read_scale(v: &Vec<char>, lo: usize, hi: usize) -> (r: ScaleEntry)
    requires
        lo <= hi <= v.len(),
    ensures
        r == scale_entry_spec(v@.subrange(lo as int, hi as int)),
{
    let ghost s = v@.subrange(lo as int, hi as int);
    match parse_fixed(v, lo, hi) {
        Some(x) => {
            proof {
                reveal(decimal_scale);
            }
            return if scale_in_range(v, lo, hi) {
                ScaleEntry::Value(x)
            } else {
                ScaleEntry::OutOfRange
            };
        },
        None => {},
    }
    let ka = find_in(v, lo, hi, 'e');
    let kb = find_in(v, lo, hi, 'E');
    let k = if ka <= kb {
        ka
    } else {
        kb
    };
    assert(k - lo == exp_at(s));
    if k < hi {
        assert(v@.subrange(lo as int, k as int) =~= s.subrange(0, k - lo));
        assert(v@.subrange(k + 1, hi as int) =~= s.subrange(k - lo + 1, s.len() as int));
        if parse_fixed(v, lo, k).is_some() {
            match exp_parts(v, k + 1, hi) {
                Some((neg, mag)) => {
                    let ghost x = v@.subrange(k + 1, hi as int);
                    let ghost e = exp_val(x);
                    return shifted_scale(v, lo, k, neg, mag, Ghost(e));
                },
                None => {},
            }
        }
    }
    if is_inf_or_nan(v, lo, hi) {
        ScaleEntry::OutOfRange
    } else {
        ScaleEntry::NotANumber
    }
}

} // verus!
