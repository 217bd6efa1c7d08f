//! Exact decimal numbers as the protocol carries them. A number is read in
//! the decimal syntax of floating point: an optional sign, digits with an
//! optional `.` (digits on at least one side), and an optional exponent
//! `e`/`E` with an optional sign. A number is written without exponent: an
//! optional `-`, the integer digits, a `.`, and the fraction digits without
//! trailing zeros, at least one. Reading drops trailing fraction zeros, so a
//! value has one form: `-74.0060` is read as `-74.006`, `40` as `40.0`.
use crate::text::push_char;
use vstd::prelude::*;

verus! {

/// The value `mant / 10^scale`, in its one canonical form: no trailing zero
/// among the fraction digits.
#[derive(Clone, Copy, Debug, PartialEq, Eq, Structural)]
pub struct Decimal {
    pub mant: i128,
    pub scale: u32,
}

/// Most digits before the decimal point: magnitudes stay below 10^10.
pub const INT_DIGITS: u32 = 10;

/// Most digits after the decimal point.
pub const FRAC_DIGITS: u32 = 18;

/// Most digits that a number's text may hold before its exponent.
pub const MANT_DIGITS: usize = 30;

/// Most digits that an exponent may hold.
pub const EXP_DIGITS: usize = 3;

pub open spec fn pow10(n: nat) -> int
    decreases n,
{
    if n == 0 {
        1
    } else {
        10 * pow10((n - 1) as nat)
    }
}

pub open spec fn abs(x: int) -> int {
    if x < 0 {
        -x
    } else {
        x
    }
}

pub open spec fn is_digit(c: char) -> bool {
    '0' <= c && c <= '9'
}

pub open spec fn all_digits(s: Seq<char>) -> bool {
    forall|i: int| 0 <= i < s.len() ==> is_digit(#[trigger] s[i])
}

pub open spec fn digit_char(d: int) -> char {
    ((d + 48) as u8) as char
}

pub open spec fn digit_val(c: char) -> int {
    c as int - 48
}

/// The number that a string of decimal digits denotes.
pub open spec fn digits_val(s: Seq<char>) -> int
    decreases s.len(),
{
    if s.len() == 0 {
        0
    } else {
        digits_val(s.drop_last()) * 10 + digit_val(s.last())
    }
}

/// The position of the first `.` in `s`, or its length if there is none.
pub open spec fn first_dot(s: Seq<char>) -> nat
    decreases s.len(),
{
    if s.len() == 0 || s[0] == '.' {
        0
    } else {
        1 + first_dot(s.drop_first())
    }
}

/// The position of the first `e` or `E` in `s`, or its length.
pub open spec fn first_exp(s: Seq<char>) -> nat
    decreases s.len(),
{
    if s.len() == 0 || s[0] == 'e' || s[0] == 'E' {
        0
    } else {
        1 + first_exp(s.drop_first())
    }
}

/// Quotient rounded toward zero.
pub open spec fn tdiv(a: int, b: int) -> int {
    if a < 0 {
        -((-a) / b)
    } else {
        a / b
    }
}

impl Decimal {
    /// Within the range that the protocol carries.
    pub open spec fn wf(self) -> bool {
        &&& self.scale <= FRAC_DIGITS
        &&& abs(self.mant as int) < pow10((INT_DIGITS + self.scale) as nat)
        &&& (self.scale == 0 || abs(self.mant as int) % 10 != 0)
    }

    /// The value in units of 10^-18: exact, as the scale is at most 18.
    pub open spec fn exact(self) -> int {
        self.mant * pow10((FRAC_DIGITS - self.scale) as nat)
    }

    /// The value in units of 10^-8, rounded toward zero.
    pub open spec fn units(self) -> int {
        if self.scale <= 8 {
            self.mant * pow10((8 - self.scale) as nat)
        } else {
            tdiv(self.mant as int, pow10((self.scale - 8) as nat))
        }
    }
}

pub open spec fn has_sign(t: Seq<char>) -> bool {
    t.len() > 0 && (t[0] == '-' || t[0] == '+')
}

pub open spec fn negated(t: Seq<char>) -> bool {
    t.len() > 0 && t[0] == '-'
}

pub open spec fn unsigned(t: Seq<char>) -> Seq<char> {
    if has_sign(t) {
        t.drop_first()
    } else {
        t
    }
}

/// The text before the exponent.
pub open spec fn mant_part(b: Seq<char>) -> Seq<char> {
    b.take(first_exp(b) as int)
}

/// The text after `e`, if there is one.
pub open spec fn exp_part(b: Seq<char>) -> Option<Seq<char>> {
    if first_exp(b) < b.len() {
        Some(b.skip(first_exp(b) as int + 1))
    } else {
        None
    }
}

pub open spec fn int_digits(mp: Seq<char>) -> Seq<char> {
    mp.take(first_dot(mp) as int)
}

pub open spec fn frac_digits(mp: Seq<char>) -> Seq<char> {
    if first_dot(mp) < mp.len() {
        mp.skip(first_dot(mp) as int + 1)
    } else {
        Seq::empty()
    }
}

/// The exponent that the text after `e` denotes; zero when there is none.
pub open spec fn exponent_of(ep: Option<Seq<char>>) -> Option<int> {
    match ep {
        None => Some(0),
        Some(e) => {
            let d = unsigned(e);
            if 1 <= d.len() <= EXP_DIGITS && all_digits(d) {
                Some(
                    if negated(e) {
                        -digits_val(d)
                    } else {
                        digits_val(d)
                    },
                )
            } else {
                None
            }
        },
    }
}

/// `m / 10^s` with the trailing zeros of its fraction dropped.
pub open spec fn strip(m: int, s: int) -> (int, int)
    decreases s,
{
    if s > 0 && m % 10 == 0 {
        strip(m / 10, s - 1)
    } else {
        (m, s)
    }
}

/// The decimal `m / 10^s`, negated if `neg`, if it is in range.
pub open spec fn normalize(neg: bool, m: int, s: int) -> Option<Decimal> {
    if s >= 0 {
        let (m2, s2) = strip(m, s);
        if s2 <= FRAC_DIGITS && m2 < pow10((INT_DIGITS + s2) as nat) {
            Some(Decimal { mant: (if neg { -m2 } else { m2 }) as i128, scale: s2 as u32 })
        } else {
            None
        }
    } else {
        let v = m * pow10((-s) as nat);
        if v < pow10(INT_DIGITS as nat) {
            Some(Decimal { mant: (if neg { -v } else { v }) as i128, scale: 0 })
        } else {
            None
        }
    }
}

/// The decimal that token `t` denotes, if it has the syntax above, at most
/// `MANT_DIGITS` digits before the exponent and `EXP_DIGITS` in it, and a
/// value in range.
pub open spec fn decimal_of(t: Seq<char>) -> Option<Decimal> {
    let b = unsigned(t);
    let mp = mant_part(b);
    let ip = int_digits(mp);
    let fp = frac_digits(mp);
    if all_digits(ip) && all_digits(fp) && 1 <= ip.len() + fp.len() <= MANT_DIGITS {
        match exponent_of(exp_part(b)) {
            Some(e) => normalize(negated(t), digits_val(ip + fp), fp.len() - e),
            None => None,
        }
    } else {
        None
    }
}

/// The decimal digits of `n`, without leading zeros.
pub open spec fn nat_text(n: nat) -> Seq<char>
    decreases n,
{
    if n < 10 {
        seq![digit_char(n as int)]
    } else {
        nat_text(n / 10).push(digit_char((n % 10) as int))
    }
}

/// The last `w` decimal digits of `n`, with leading zeros.
pub open spec fn fixed_digits(n: nat, w: nat) -> Seq<char>
    decreases w,
{
    if w == 0 {
        Seq::empty()
    } else {
        fixed_digits(n / 10, (w - 1) as nat).push(digit_char((n % 10) as int))
    }
}

/// The fraction digits with which a decimal is written: its `scale` digits,
/// or a single `0` when it has none.
pub open spec fn frac_text(d: Decimal) -> Seq<char> {
    if d.scale > 0 {
        fixed_digits((abs(d.mant as int) % pow10(d.scale as nat)) as nat, d.scale as nat)
    } else {
        seq!['0']
    }
}

/// How a decimal is written: sign, integer part, `.`, fraction digits, as
/// floating point is printed for debugging (`40.0`, `-74.006`).
pub open spec fn decimal_text(d: Decimal) -> Seq<char> {
    let mag = abs(d.mant as int);
    let p = pow10(d.scale as nat);
    (if d.mant < 0 {
        seq!['-']
    } else {
        Seq::empty()
    }) + nat_text((mag / p) as nat) + seq!['.'] + frac_text(d)
}

pub proof fn lemma_pow10_pos(n: nat)
    ensures
        pow10(n) >= 1,
    decreases n,
{
    if n > 0 {
        lemma_pow10_pos((n - 1) as nat);
    }
}

pub proof fn lemma_pow10_add(a: nat, b: nat)
    ensures
        pow10(a + b) == pow10(a) * pow10(b),
    decreases b,
{
    if b > 0 {
        lemma_pow10_add(a, (b - 1) as nat);
        assert(pow10(a + b) == 10 * pow10((a + b - 1) as nat));
        assert(pow10(a) * pow10(b) == pow10(a) * (10 * pow10((b - 1) as nat)));
        assert(pow10(a) * (10 * pow10((b - 1) as nat)) == 10 * (pow10(a) * pow10(
            (b - 1) as nat,
        ))) by (nonlinear_arith);
    }
}

pub proof fn lemma_pow10_mono(a: nat, b: nat)
    requires
        a <= b,
    ensures
        pow10(a) <= pow10(b),
{
    lemma_pow10_add(a, (b - a) as nat);
    lemma_pow10_pos(a);
    lemma_pow10_pos((b - a) as nat);
    assert(pow10(a) * pow10((b - a) as nat) >= pow10(a)) by (nonlinear_arith)
        requires
            pow10(a) >= 1,
            pow10((b - a) as nat) >= 1,
    ;
    assert(a + (b - a) as nat == b);
}

pub proof fn lemma_pow10_values()
    ensures
        pow10(8) == 100_000_000,
        pow10(9) == 1_000_000_000,
        pow10(10) == 10_000_000_000,
        pow10(18) == 1_000_000_000_000_000_000,
        pow10(28) == 10_000_000_000_000_000_000_000_000_000,
        pow10(30) == 1_000_000_000_000_000_000_000_000_000_000,
        pow10(38) == 100_000_000_000_000_000_000_000_000_000_000_000_000,
{
    reveal_with_fuel(pow10, 39);
}

pub proof fn lemma_first_exp_none(s: Seq<char>)
    requires
        forall|i: int| 0 <= i < s.len() ==> (#[trigger] s[i]) != 'e' && s[i] != 'E',
    ensures
        first_exp(s) == s.len(),
    decreases s.len(),
{
    if s.len() > 0 {
        assert forall|i: int| 0 <= i < s.drop_first().len() implies (#[trigger] s.drop_first()[i]) != 'e'
            && s.drop_first()[i] != 'E' by {
            assert(s.drop_first()[i] == s[i + 1]);
        }
        lemma_first_exp_none(s.drop_first());
    }
}

pub proof fn lemma_digits_bound(s: Seq<char>)
    requires
        all_digits(s),
    ensures
        0 <= digits_val(s) < pow10(s.len()),
    decreases s.len(),
{
    if s.len() > 0 {
        lemma_digits_bound(s.drop_last());
        let v = digits_val(s.drop_last());
        let d = digit_val(s.last());
        assert(is_digit(s[s.len() - 1]));
        let p = pow10((s.len() - 1) as nat);
        assert(v * 10 + d < p * 10) by (nonlinear_arith)
            requires
                0 <= v < p,
                0 <= d < 10,
        ;
    }
}

pub proof fn lemma_digits_concat(a: Seq<char>, b: Seq<char>)
    ensures
        digits_val(a + b) == digits_val(a) * pow10(b.len()) + digits_val(b),
    decreases b.len(),
{
    if b.len() == 0 {
        assert(a + b =~= a);
    } else {
        assert((a + b).drop_last() =~= a + b.drop_last());
        assert((a + b).last() == b.last());
        lemma_digits_concat(a, b.drop_last());
        let va = digits_val(a);
        let p = pow10((b.len() - 1) as nat);
        let vb = digits_val(b.drop_last());
        assert((va * p + vb) * 10 + digit_val(b.last()) == va * (10 * p) + (vb * 10 + digit_val(
            b.last(),
        ))) by (nonlinear_arith);
    }
}

pub proof fn lemma_digit_char(d: int)
    requires
        0 <= d < 10,
    ensures
        digit_val(digit_char(d)) == d,
        is_digit(digit_char(d)),
{
    assert((d + 48) as u8 == d + 48);
    assert(((d + 48) as u8) as char as int == d + 48);
}

pub proof fn lemma_nat_text(n: nat)
    ensures
        all_digits(nat_text(n)),
        nat_text(n).len() >= 1,
        digits_val(nat_text(n)) == n,
        forall|k: nat| n < pow10(k) && k >= 1 ==> nat_text(n).len() <= k,
    decreases n,
{
    if n >= 10 {
        lemma_nat_text(n / 10);
        let s = nat_text(n);
        assert(s.drop_last() =~= nat_text(n / 10));
        assert forall|k: nat| n < pow10(k) && k >= 1 implies s.len() <= k by {
            if k == 1 {
                reveal_with_fuel(pow10, 2);
            } else {
                assert(pow10(k) == 10 * pow10((k - 1) as nat));
                assert(n / 10 < pow10((k - 1) as nat));
            }
        }
        assert(s.last() == digit_char((n % 10) as int));
        lemma_digit_char((n % 10) as int);
        assert(digits_val(s) == digits_val(s.drop_last()) * 10 + digit_val(s.last()));
        assert(n == (n / 10) * 10 + n % 10);
        assert forall|i: int| 0 <= i < s.len() implies is_digit(#[trigger] s[i]) by {
            if i < s.len() - 1 {
                assert(s[i] == nat_text(n / 10)[i]);
            }
        }
    } else {
        lemma_digit_char(n as int);
        assert(nat_text(n).drop_last() =~= Seq::<char>::empty());
        assert(digits_val(nat_text(n)) == digits_val(nat_text(n).drop_last()) * 10 + digit_val(
            nat_text(n).last(),
        ));
    }
}

pub proof fn lemma_fixed_digits(n: nat, w: nat)
    ensures
        all_digits(fixed_digits(n, w)),
        fixed_digits(n, w).len() == w,
        digits_val(fixed_digits(n, w)) == n as int % pow10(w),
    decreases w,
{
    if w > 0 {
        lemma_fixed_digits(n / 10, (w - 1) as nat);
        let s = fixed_digits(n, w);
        assert(s.drop_last() =~= fixed_digits(n / 10, (w - 1) as nat));
        let p = pow10((w - 1) as nat);
        lemma_pow10_pos((w - 1) as nat);
        assert(((n as int / 10) % p) * 10 + n as int % 10 == n as int % (10 * p)) by (nonlinear_arith)
            requires
                p >= 1,
        {
            vstd::arithmetic::div_mod::lemma_mod_breakdown(n as int, 10, p);
            vstd::arithmetic::mul::lemma_mul_is_commutative(p, 10);
        }
    }
}

pub proof fn lemma_first_dot(ip: Seq<char>, rest: Seq<char>)
    requires
        all_digits(ip),
        rest.len() == 0 || rest[0] == '.',
    ensures
        first_dot(ip + rest) == ip.len(),
    decreases ip.len(),
{
    if ip.len() > 0 {
        assert((ip + rest).drop_first() =~= ip.drop_first() + rest);
        lemma_first_dot(ip.drop_first(), rest);
    } else {
        assert(ip + rest =~= rest);
    }
}

pub proof fn lemma_frac_text(d: Decimal)
    ensures
        all_digits(frac_text(d)),
        frac_text(d).len() == if d.scale > 0 { d.scale as nat } else { 1 },
        d.scale > 0 ==> digits_val(frac_text(d)) == abs(d.mant as int) % pow10(d.scale as nat),
        d.scale == 0 ==> digits_val(frac_text(d)) == 0,
{
    lemma_pow10_pos(d.scale as nat);
    if d.scale > 0 {
        let r = (abs(d.mant as int) % pow10(d.scale as nat)) as nat;
        lemma_fixed_digits(r, d.scale as nat);
        assert(r as int % pow10(d.scale as nat) == r) by {
            vstd::arithmetic::div_mod::lemma_mod_bound(abs(d.mant as int), pow10(d.scale as nat));
            vstd::arithmetic::div_mod::lemma_small_mod(r, pow10(d.scale as nat) as nat);
        }
    } else {
        lemma_digit_char(0);
        assert(seq!['0'].drop_last() =~= Seq::<char>::empty());
        assert(digits_val(seq!['0']) == digits_val(Seq::<char>::empty()) * 10 + digit_val('0'));
    }
}

proof fn lemma_strip_once(m: int)
    requires
        m >= 0,
    ensures
        strip(m * 10, 1) == strip(m, 0),
        strip(m, 0) == (m, 0int),
{
    assert((m * 10) % 10 == 0);
    assert((m * 10) / 10 == m);
}

/// Reading back what `decimal_text` writes gives the same decimal.
#[verifier::rlimit(100)]
pub proof fn lemma_decimal_round_trip(d: Decimal)
    requires
        d.wf(),
    ensures
        decimal_of(decimal_text(d)) == Some(d),
{
    let mag = abs(d.mant as int);
    let p = pow10(d.scale as nat);
    lemma_pow10_pos(d.scale as nat);
    let q = (mag / p) as nat;
    let it = nat_text(q);
    let fp = frac_text(d);
    let tail = seq!['.'] + fp;
    let t = decimal_text(d);
    lemma_nat_text(q);
    lemma_frac_text(d);
    lemma_pow10_add(INT_DIGITS as nat, d.scale as nat);
    lemma_pow10_values();
    assert(q < pow10(10)) by {
        vstd::arithmetic::div_mod::lemma_fundamental_div_mod(mag, p);
        vstd::arithmetic::div_mod::lemma_mod_bound(mag, p);
        let qq = mag / p;
        let rr = mag % p;
        let p10 = pow10(10);
        assert(qq < p10) by (nonlinear_arith)
            requires
                mag == p * qq + rr,
                rr >= 0,
                mag < p10 * p,
                p >= 1,
        ;
    }
    let neg = d.mant < 0;
    let b = it + tail;
    if neg {
        assert(t =~= seq!['-'] + b);
        assert(t.drop_first() =~= b);
    } else {
        assert(t =~= b);
    }
    assert(is_digit(it[0]));
    assert(has_sign(t) <==> neg);
    assert(negated(t) <==> neg);
    assert(unsigned(t) == b);
    assert forall|i: int| 0 <= i < b.len() implies (#[trigger] b[i]) != 'e' && b[i] != 'E' by {
        if i < it.len() {
            assert(b[i] == it[i]);
            assert(is_digit(it[i]));
        } else if i > it.len() {
            assert(b[i] == fp[i - it.len() - 1]);
            assert(is_digit(fp[i - it.len() - 1]));
        }
    }
    lemma_first_exp_none(b);
    assert(mant_part(b) =~= b);
    assert(exp_part(b) is None);
    lemma_first_dot(it, tail);
    assert(int_digits(b) =~= it);
    assert(frac_digits(b) =~= fp);
    lemma_digits_concat(it, fp);
    assert(it.len() <= 10);
    if d.scale == 0 {
        assert(p == 1);
        assert(q == mag);
        assert(digits_val(it + fp) == mag * 10);
        lemma_strip_once(mag);
        assert(normalize(neg, mag * 10, 1) == Some(d));
    } else {
        assert(digits_val(it + fp) == mag) by {
            vstd::arithmetic::div_mod::lemma_fundamental_div_mod(mag, p);
            assert(q * p == p * q) by (nonlinear_arith);
        }
        assert(strip(mag, d.scale as int) == (mag, d.scale as int));
        assert(normalize(neg, mag, d.scale as int) == Some(d));
    }
}

pub fn digit_char_exec(d: u64) -> (r: char)
    requires
        d < 10,
    ensures
        r == digit_char(d as int),
{
    ((d as u8) + 48) as char
}

pub fn is_digit_char(c: char) -> (r: bool)
    ensures
        r == is_digit(c),
{
    '0' <= c && c <= '9'
}

/// `10^n`.
pub fn pow10_exec(n: u32) -> (r: u128)
    requires
        n <= 38,
    ensures
        r == pow10(n as nat),
{
    let mut r: u128 = 1;
    let mut i: u32 = 0;
    while i < n
        invariant
            i <= n <= 38,
            r == pow10(i as nat),
        decreases n - i,
    {
        proof {
            lemma_pow10_mono((i + 1) as nat, 38);
            lemma_pow10_values();
        }
        r = r * 10;
        i += 1;
    }
    r
}

/// The value of the digits `t[lo..hi]`, if all of them are digits.
fn read_digits(t: &Vec<char>, lo: usize, hi: usize) -> (r: Option<u128>)
    requires
        lo <= hi <= t.len(),
        hi - lo <= MANT_DIGITS,
    ensures
        r is Some <==> all_digits(t@.subrange(lo as int, hi as int)),
        r is Some ==> r->0 == digits_val(t@.subrange(lo as int, hi as int)),
        r is Some ==> r->0 < pow10((hi - lo) as nat),
{
    let mut acc: u128 = 0;
    let mut j: usize = lo;
    while j < hi
        invariant
            lo <= j <= hi <= t.len(),
            hi - lo <= MANT_DIGITS,
            all_digits(t@.subrange(lo as int, j as int)),
            acc == digits_val(t@.subrange(lo as int, j as int)),
        decreases hi - j,
    {
        let c = t[j];
        if !is_digit_char(c) {
            assert(t@.subrange(lo as int, hi as int)[j - lo] == c);
            return None;
        }
        proof {
            lemma_digits_bound(t@.subrange(lo as int, j as int));
            lemma_pow10_mono((j - lo) as nat, 30);
            lemma_pow10_values();
            assert(t@.subrange(lo as int, j as int + 1).drop_last() =~= t@.subrange(
                lo as int,
                j as int,
            ));
        }
        acc = acc * 10 + (c as u128 - 48);
        j += 1;
    }
    proof {
        lemma_digits_bound(t@.subrange(lo as int, hi as int));
    }
    Some(acc)
}

/// The decimal `m / 10^s`, negated if `neg`, if it is in range.
fn normalize_exec(neg: bool, m: u128, s: i64) -> (r: Option<Decimal>)
    requires
        m < pow10(30),
        -2000 < s < 2000,
    ensures
        r == normalize(neg, m as int, s as int),
        r matches Some(d) ==> d.wf(),
{
    let m0 = m;
    let s0 = s;
    proof {
        lemma_pow10_values();
    }
    if s >= 0 {
        let mut m = m;
        let mut s = s;
        while s > 0 && m % 10 == 0
            invariant
                0 <= s < 2000,
                m < pow10(30),
                strip(m0 as int, s0 as int) == strip(m as int, s as int),
            decreases s,
        {
            m = m / 10;
            s = s - 1;
        }
        if s > 18 {
            return None;
        }
        proof {
            lemma_pow10_mono((10 + s) as nat, 28);
        }
        if m >= pow10_exec(10 + s as u32) {
            return None;
        }
        let mant: i128 = if neg { -(m as i128) } else { m as i128 };
        proof {
            assert(abs(mant as int) == m);
        }
        Some(Decimal { mant, scale: s as u32 })
    } else {
        let sh = -s;
        if m == 0 {
            proof {
                assert(0 * pow10(sh as nat) == 0);
                lemma_pow10_pos(10);
            }
            return Some(Decimal { mant: 0, scale: 0 });
        }
        proof {
            lemma_pow10_pos(sh as nat);
            assert(m * pow10(sh as nat) >= m) by (nonlinear_arith)
                requires
                    m >= 1,
                    pow10(sh as nat) >= 1,
            ;
        }
        if m >= 10_000_000_000 || sh >= 10 {
            proof {
                if sh >= 10 {
                    lemma_pow10_mono(10, sh as nat);
                    assert(m * pow10(sh as nat) >= pow10(sh as nat)) by (nonlinear_arith)
                        requires
                            m >= 1,
                            pow10(sh as nat) >= 1,
                    ;
                }
            }
            return None;
        }
        proof {
            lemma_pow10_mono(sh as nat, 10);
            assert(m * pow10(sh as nat) <= 10_000_000_000 * 10_000_000_000) by (nonlinear_arith)
                requires
                    m < 10_000_000_000,
                    pow10(sh as nat) <= 10_000_000_000,
                    pow10(sh as nat) >= 1,
            ;
        }
        let v = m * pow10_exec(sh as u32);
        if v >= 10_000_000_000 {
            return None;
        }
        let mant: i128 = if neg { -(v as i128) } else { v as i128 };
        Some(Decimal { mant, scale: 0 })
    }
}

/// The exponent written in `t[from..]`, after its `e`.
fn parse_exponent(t: &Vec<char>, from: usize) -> (r: Option<i64>)
    requires
        from <= t.len(),
    ensures
        r matches Some(e) ==> exponent_of(Some(t@.skip(from as int))) == Some(e as int) && -1000 < e < 1000,
        r is None ==> exponent_of(Some(t@.skip(from as int))) is None,
{
    let n = t.len();
    let ghost ep = t@.skip(from as int);
    let mut j: usize = from;
    let eneg = j < n && t[j] == '-';
    if j < n && (t[j] == '-' || t[j] == '+') {
        j += 1;
    }
    proof {
        assert(negated(ep) == eneg);
        assert(unsigned(ep) =~= t@.subrange(j as int, n as int));
    }
    if n - j < 1 || n - j > EXP_DIGITS {
        return None;
    }
    match read_digits(t, j, n) {
        Some(v) => {
            proof {
                lemma_pow10_mono((n - j) as nat, 3);
                reveal_with_fuel(pow10, 4);
            }
            Some(if eneg { -(v as i64) } else { v as i64 })
        },
        None => None,
    }
}

/// Reads a token as a decimal.
#[verifier::rlimit(100)]
pub fn parse_decimal(t: &Vec<char>) -> (r: Option<Decimal>)
    ensures
        r == decimal_of(t@),
        r is Some ==> r->0.wf(),
{
    let n = t.len();
    let sg = n > 0 && (t[0] == '-' || t[0] == '+');
    let neg = n > 0 && t[0] == '-';
    let i: usize = if sg { 1 } else { 0 };
    let ghost b = unsigned(t@);
    proof {
        if sg {
            assert(b =~= t@.skip(1));
        } else {
            assert(b =~= t@.skip(0));
        }
        assert(negated(t@) == neg);
    }
    let mut x: usize = i;
    while x < n && t[x] != 'e' && t[x] != 'E'
        invariant
            i <= x <= n == t.len(),
            b == t@.skip(i as int),
            first_exp(b) == (x - i) + first_exp(t@.skip(x as int)),
        decreases n - x,
    {
        proof {
            assert(t@.skip(x as int).drop_first() =~= t@.skip(x as int + 1));
        }
        x += 1;
    }
    let ghost mp = mant_part(b);
    proof {
        assert(first_exp(b) == x - i);
        assert(mp =~= t@.subrange(i as int, x as int));
        if x < n {
            assert(exp_part(b) == Some(t@.skip(x as int + 1)));
        } else {
            assert(exp_part(b) is None);
        }
    }
    let mut k: usize = i;
    while k < x && t[k] != '.'
        invariant
            i <= k <= x <= n == t.len(),
            mp == t@.subrange(i as int, x as int),
            first_dot(mp) == (k - i) + first_dot(t@.subrange(k as int, x as int)),
        decreases x - k,
    {
        proof {
            assert(t@.subrange(k as int, x as int).drop_first() =~= t@.subrange(k as int + 1, x as int));
        }
        k += 1;
    }
    let ghost ip = int_digits(mp);
    let ghost fp = frac_digits(mp);
    proof {
        assert(first_dot(mp) == k - i);
        assert(ip =~= t@.subrange(i as int, k as int));
        if k < x {
            assert(fp =~= t@.subrange(k as int + 1, x as int));
        } else {
            assert(fp =~= t@.subrange(x as int, x as int));
        }
    }
    let f0: usize = if k < x { k + 1 } else { x };
    let ni = k - i;
    let nf = x - f0;
    if ni + nf < 1 || ni + nf > MANT_DIGITS {
        return None;
    }
    let ipv = match read_digits(t, i, k) {
        Some(v) => v,
        None => {
            return None;
        },
    };
    let fpv = match read_digits(t, f0, x) {
        Some(v) => v,
        None => {
            return None;
        },
    };
    let mut e: i64 = 0;
    if x < n {
        proof {
            assert(exp_part(b) == Some(t@.skip(x as int + 1)));
        }
        match parse_exponent(t, x + 1) {
            Some(v) => {
                e = v;
            },
            None => {
                return None;
            },
        }
    } else {
        proof {
            assert(exp_part(b) is None);
        }
    }
    proof {
        lemma_digits_concat(ip, fp);
        lemma_pow10_add(ip.len(), fp.len());
        lemma_pow10_mono((ni + nf) as nat, 30);
        lemma_pow10_values();
        assert(ipv * pow10(fp.len()) + fpv < pow10(ip.len()) * pow10(fp.len())) by (nonlinear_arith)
            requires
                ipv < pow10(ip.len()),
                fpv < pow10(fp.len()),
        ;
        assert(exponent_of(exp_part(b)) == Some(e as int));
        assert(-2000 < nf - e < 2000);
    }
    let m: u128 = ipv * pow10_exec(nf as u32) + fpv;
    normalize_exec(neg, m, nf as i64 - e)
}

/// Writes the digits of `n`.
pub fn push_nat(s: &mut String, n: u128)
    ensures
        final(s)@ == old(s)@ + nat_text(n as nat),
    decreases n,
{
    if n >= 10 {
        push_nat(s, n / 10);
    }
    push_char(s, digit_char_exec((n % 10) as u64));
    proof {
        if n < 10 {
            assert(n % 10 == n);
        }
        assert(final(s)@ =~= old(s)@ + nat_text(n as nat));
    }
}

/// Writes the last `w` digits of `n`, with leading zeros.
pub fn push_fixed(s: &mut String, n: u128, w: u32)
    ensures
        final(s)@ == old(s)@ + fixed_digits(n as nat, w as nat),
    decreases w,
{
    if w > 0 {
        push_fixed(s, n / 10, w - 1);
        push_char(s, digit_char_exec((n % 10) as u64));
        proof {
            assert(final(s)@ =~= old(s)@ + fixed_digits(n as nat, w as nat));
        }
    } else {
        proof {
            assert(final(s)@ =~= old(s)@ + fixed_digits(n as nat, w as nat));
        }
    }
}

/// Writes `d` as the protocol does.
pub fn push_decimal(s: &mut String, d: &Decimal)
    requires
        d.wf(),
    ensures
        final(s)@ == old(s)@ + decimal_text(*d),
{
    proof {
        lemma_pow10_mono((INT_DIGITS + d.scale) as nat, 28);
        lemma_pow10_values();
        lemma_pow10_pos(d.scale as nat);
    }
    let ghost s0 = s@;
    let mag: u128 = if d.mant < 0 {
        (-d.mant) as u128
    } else {
        d.mant as u128
    };
    if d.mant < 0 {
        push_char(s, '-');
    }
    let p = pow10_exec(d.scale);
    push_nat(s, mag / p);
    push_char(s, '.');
    if d.scale > 0 {
        push_fixed(s, mag % p, d.scale);
    } else {
        push_char(s, '0');
    }
    proof {
        assert(s@ =~= s0 + decimal_text(*d));
    }
}

/// A copy of a list of coordinate pairs.
pub fn copy_pairs(v: &Vec<(Decimal, Decimal)>) -> (r: Vec<(Decimal, Decimal)>)
    ensures
        r@ == v@,
{
    let mut out: Vec<(Decimal, Decimal)> = Vec::new();
    let mut i: usize = 0;
    while i < v.len()
        invariant
            i <= v.len(),
            out@ == v@.take(i as int),
        decreases v.len() - i,
    {
        out.push(v[i]);
        i += 1;
        proof {
            assert(out@ =~= v@.take(i as int));
        }
    }
    proof {
        assert(out@ =~= v@);
    }
    out
}

} // verus!
