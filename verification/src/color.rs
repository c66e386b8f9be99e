//! Deterministic color assignment: each id maps to a hue by a golden-angle
//! step, `hue = (id * 137.5) mod 360`, carried exactly in tenths of a degree
//! and rendered as an HSL string at fixed saturation and lightness.

use vstd::prelude::*;
use vstd::string::StringExecFns;
use vstd::arithmetic::div_mod::{
    lemma_div_is_ordered,
    lemma_fundamental_div_mod,
    lemma_mod_multiples_basic,
    lemma_mul_mod_noop_left,
    lemma_sub_mod_noop,
};

verus! {

/// The hue of an id, in tenths of a degree: `(id * 1375) mod 3600`.
pub open spec fn spec_hue_tenths(id: int) -> int {
    (id * 1375) % 3600
}

/// The hue of an id in whole degrees: tenths divided by ten, halves rounded
/// to the nearest even degree.
pub open spec fn spec_hue_degrees(id: int) -> int {
    let t = spec_hue_tenths(id);
    let d = t / 10;
    let r = t % 10;
    if r < 5 {
        d
    } else if r > 5 {
        d + 1
    } else if d % 2 == 0 {
        d
    } else {
        d + 1
    }
}

/// Every hue lands on a multiple of twenty-five tenths: consecutive distinct
/// hues are at least two and a half degrees apart.
pub proof fn lemma_hue_tenths_step(id: int)
    ensures
        spec_hue_tenths(id) % 25 == 0,
        0 <= spec_hue_tenths(id) < 3600,
{
    let x = id * 1375;
    let q = x / 3600;
    let t = x % 3600;
    lemma_fundamental_div_mod(x, 3600);
    assert(t == x - 3600 * q);
    assert(x == (id * 55) * 25) by (nonlinear_arith)
        requires
            x == id * 1375,
    ;
    assert(3600 * q == (144 * q) * 25) by (nonlinear_arith);
    lemma_mod_multiples_basic(id * 55, 25);
    lemma_mod_multiples_basic(144 * q, 25);
    lemma_sub_mod_noop(x, 3600 * q, 25);
    assert(t % 25 == 0);
}

/// The hue of an id, in whole degrees, below 360.
pub fn hue_degrees(id: u64) -> (deg: u64)
    ensures
        deg == spec_hue_degrees(id as int),
        deg < 360,
{
    let m: u64 = id % 3600;
    let t: u64 = (m * 1375) % 3600;
    proof {
        lemma_mul_mod_noop_left(id as int, 1375, 3600);
        assert(t == spec_hue_tenths(id as int));
        lemma_hue_tenths_step(id as int);
        lemma_fundamental_div_mod(t as int, 25);
        lemma_div_is_ordered(t as int, 3599, 25);
        assert(t as int == 25 * (t as int / 25));
        assert(t <= 3575);
        vstd::arithmetic::div_mod::lemma_mod_mod(t as int, 5, 2);
        vstd::arithmetic::div_mod::lemma_mod_mod(t as int, 5, 5);
        assert((t as int % 10) % 5 == t as int % 5);
        assert((t as int % 25) % 5 == t as int % 5);
    }
    let d: u64 = t / 10;
    let r: u64 = t % 10;
    if r < 5 {
        d
    } else if r > 5 {
        d + 1
    } else if d % 2 == 0 {
        d
    } else {
        d + 1
    }
}

/// The character of one decimal digit.
pub open spec fn spec_digit_char(d: int) -> char {
    if d == 0 {
        '0'
    } else if d == 1 {
        '1'
    } else if d == 2 {
        '2'
    } else if d == 3 {
        '3'
    } else if d == 4 {
        '4'
    } else if d == 5 {
        '5'
    } else if d == 6 {
        '6'
    } else if d == 7 {
        '7'
    } else if d == 8 {
        '8'
    } else {
        '9'
    }
}

/// The decimal digits of a non-negative number, most significant first, with
/// no leading zero except on zero itself.
pub open spec fn spec_digits(n: int) -> Seq<char>
    recommends
        n >= 0,
    decreases n,
{
    if n < 10 {
        seq![spec_digit_char(n)]
    } else {
        spec_digits(n / 10).push(spec_digit_char(n % 10))
    }
}

/// One decimal digit as a string slice.
fn digit_str(d: u64) -> (r: &'static str)
    requires
        d < 10,
    ensures
        r@ == seq![spec_digit_char(d as int)],
{
    proof {
        reveal_strlit("0");
        reveal_strlit("1");
        reveal_strlit("2");
        reveal_strlit("3");
        reveal_strlit("4");
        reveal_strlit("5");
        reveal_strlit("6");
        reveal_strlit("7");
        reveal_strlit("8");
        reveal_strlit("9");
    }
    let r: &'static str = if d == 0 {
        "0"
    } else if d == 1 {
        "1"
    } else if d == 2 {
        "2"
    } else if d == 3 {
        "3"
    } else if d == 4 {
        "4"
    } else if d == 5 {
        "5"
    } else if d == 6 {
        "6"
    } else if d == 7 {
        "7"
    } else if d == 8 {
        "8"
    } else {
        "9"
    };
    proof {
        assert(r@ =~= seq![spec_digit_char(d as int)]);
    }
    r
}

/// The decimal rendering of a number.
pub fn u64_digits(n: u64) -> (s: String)
    ensures
        s@ == spec_digits(n as int),
    decreases n,
{
    if n < 10 {
        digit_str(n).to_owned()
    } else {
        let mut s = u64_digits(n / 10);
        s.append(digit_str(n % 10));
        proof {
            assert(s@ =~= spec_digits(n as int));
        }
        s
    }
}

/// The HSL triple shown for a hue: fixed saturation and lightness around the
/// decimal hue.
pub open spec fn spec_hsl_seq(deg: int) -> Seq<char> {
    "hsl("@ + spec_digits(deg) + ", 70%, 50%)"@
}

/// The display color of an id: its hue in whole degrees, at 70% saturation
/// and 50% lightness.
pub fn hsl_string(id: u64) -> (c: String)
    ensures
        c@ == spec_hsl_seq(spec_hue_degrees(id as int)),
{
    let deg: u64 = hue_degrees(id);
    let mut c = "hsl(".to_owned();
    let digits = u64_digits(deg);
    c.append(digits.as_str());
    c.append(", 70%, 50%)");
    proof {
        assert(c@ =~= spec_hsl_seq(spec_hue_degrees(id as int)));
    }
    c
}

/// Distinct decimal digits render as distinct characters.
proof fn lemma_digit_char_injective(a: int, b: int)
    requires
        0 <= a < 10,
        0 <= b < 10,
        spec_digit_char(a) == spec_digit_char(b),
    ensures
        a == b,
{
}

/// A decimal rendering is never empty, and two digits or more from ten up.
proof fn lemma_digits_len(n: int)
    requires
        0 <= n,
    ensures
        spec_digits(n).len() >= 1,
        n >= 10 ==> spec_digits(n).len() >= 2,
    decreases n,
{
    if n >= 10 {
        lemma_digits_len(n / 10);
    }
}

/// Decimal renderings are injective: equal digit strings name equal
/// numbers.
proof fn lemma_digits_injective(m: int, n: int)
    requires
        0 <= m,
        0 <= n,
        spec_digits(m) == spec_digits(n),
    ensures
        m == n,
    decreases m,
{
    lemma_digits_len(m);
    lemma_digits_len(n);
    if m < 10 && n < 10 {
        assert(spec_digits(m)[0] == spec_digit_char(m));
        assert(spec_digits(n)[0] == spec_digit_char(n));
        lemma_digit_char_injective(m, n);
    } else if m < 10 {
        assert(spec_digits(m).len() == 1);
        assert(false);
    } else if n < 10 {
        assert(spec_digits(n).len() == 1);
        assert(false);
    } else {
        let pm = spec_digits(m / 10);
        let pn = spec_digits(n / 10);
        let sm = pm.push(spec_digit_char(m % 10));
        let sn = pn.push(spec_digit_char(n % 10));
        assert(sm == sn);
        assert(sm.len() == pm.len() + 1 && sn.len() == pn.len() + 1);
        assert(sm[sm.len() - 1] == spec_digit_char(m % 10));
        assert(sn[sn.len() - 1] == spec_digit_char(n % 10));
        lemma_digit_char_injective(m % 10, n % 10);
        assert(pm =~= pn) by {
            assert(forall|i: int| 0 <= i < pm.len() ==> #[trigger] pm[i] == sm[i] && sm[i] == sn[i]
                && sn[i] == pn[i]);
        }
        lemma_digits_injective(m / 10, n / 10);
        lemma_fundamental_div_mod(m, 10);
        lemma_fundamental_div_mod(n, 10);
    }
}

/// The HSL string pins the hue down: equal color strings carry equal
/// degrees.
pub proof fn lemma_color_determines_hue(d1: int, d2: int)
    requires
        0 <= d1,
        0 <= d2,
        spec_hsl_seq(d1) == spec_hsl_seq(d2),
    ensures
        d1 == d2,
{
    let p = "hsl("@;
    let q = ", 70%, 50%)"@;
    let g1 = spec_digits(d1);
    let g2 = spec_digits(d2);
    assert((p + g1 + q).len() == (p + g2 + q).len());
    assert(g1.len() == g2.len());
    assert(g1 =~= g2) by {
        assert(forall|i: int| 0 <= i < g1.len() ==> #[trigger] g1[i] == (p + g1 + q)[p.len() + i]
            && (p + g2 + q)[p.len() + i] == g2[i]);
    }
    lemma_digits_injective(d1, d2);
}

/// Two ids receive the same hue only when their id gap, stepped by the
/// golden angle, is a whole number of turns: `(a - b) * 137.5 mod 360 == 0`,
/// stated in tenths of a degree.
pub proof fn lemma_hue_separation(a: u64, b: u64)
    ensures
        spec_hue_tenths(a as int) == spec_hue_tenths(b as int) ==> ((a as int - b as int) * 1375)
            % 3600 == 0,
        spec_hue_degrees(a as int) == spec_hue_degrees(b as int) ==> spec_hue_tenths(a as int)
            == spec_hue_tenths(b as int),
{
    let x = (a as int) * 1375;
    let y = (b as int) * 1375;
    lemma_fundamental_div_mod(x, 3600);
    lemma_fundamental_div_mod(y, 3600);
    if spec_hue_tenths(a as int) == spec_hue_tenths(b as int) {
        assert(x - y == (x / 3600 - y / 3600) * 3600);
        lemma_mod_multiples_basic(x / 3600 - y / 3600, 3600);
        assert(((a as int - b as int) * 1375) == x - y) by (nonlinear_arith)
            requires
                x == (a as int) * 1375,
                y == (b as int) * 1375,
        ;
        assert(((a as int - b as int) * 1375) % 3600 == 0);
    }
    lemma_hue_tenths_step(a as int);
    lemma_hue_tenths_step(b as int);
    let ta = spec_hue_tenths(a as int);
    let tb = spec_hue_tenths(b as int);
    lemma_fundamental_div_mod(ta, 10);
    lemma_fundamental_div_mod(tb, 10);
    lemma_fundamental_div_mod(ta, 25);
    lemma_fundamental_div_mod(tb, 25);
    vstd::arithmetic::div_mod::lemma_mod_mod(ta, 5, 2);
    vstd::arithmetic::div_mod::lemma_mod_mod(ta, 5, 5);
    vstd::arithmetic::div_mod::lemma_mod_mod(tb, 5, 2);
    vstd::arithmetic::div_mod::lemma_mod_mod(tb, 5, 5);
    if spec_hue_degrees(a as int) == spec_hue_degrees(b as int) {
        let da = 10 * spec_hue_degrees(a as int);
        assert(ta - 5 <= da <= ta + 5);
        assert(tb - 5 <= da <= tb + 5);
        assert(ta == 25 * (ta / 25) && tb == 25 * (tb / 25));
        assert(ta == tb);
    }
}

/// Two ids can share a color string only when their id gap, stepped by the
/// golden angle, is a whole number of turns.
pub proof fn lemma_color_collision(a: u64, b: u64)
    ensures
        spec_hsl_seq(spec_hue_degrees(a as int)) == spec_hsl_seq(spec_hue_degrees(b as int))
            ==> ((a as int - b as int) * 1375) % 3600 == 0,
{
    if spec_hsl_seq(spec_hue_degrees(a as int)) == spec_hsl_seq(spec_hue_degrees(b as int)) {
        lemma_hue_tenths_step(a as int);
        lemma_hue_tenths_step(b as int);
        vstd::arithmetic::div_mod::lemma_div_pos_is_pos(spec_hue_tenths(a as int), 10);
        vstd::arithmetic::div_mod::lemma_div_pos_is_pos(spec_hue_tenths(b as int), 10);
        lemma_color_determines_hue(spec_hue_degrees(a as int), spec_hue_degrees(b as int));
        lemma_hue_separation(a, b);
    }
}

} // verus!
