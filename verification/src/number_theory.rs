use vstd::prelude::*;
use vstd::arithmetic::div_mod::{
    lemma_fundamental_div_mod, lemma_mod_bound, lemma_mod_multiples_vanish,
};
use vstd::arithmetic::mul::lemma_mul_is_commutative;

verus! {

/// Absolute value of an integer, as a natural number.
pub open spec fn abs_int(x: int) -> nat {
    if x < 0 {
        (-x) as nat
    } else {
        x as nat
    }
}

/// Euclid's greatest common divisor on natural numbers; `gcd_nat(0, 0) == 0`.
pub open spec fn gcd_nat(a: nat, b: nat) -> nat
    decreases b,
{
    if b == 0 {
        a
    } else {
        proof {
            lemma_mod_bound(a as int, b as int);
        }
        gcd_nat(b, a % b)
    }
}

/// The non-negative greatest common divisor of two integers.
pub open spec fn spec_gcd(a: int, b: int) -> nat {
    gcd_nat(abs_int(a), abs_int(b))
}

/// The non-negative least common multiple of two integers; zero when either is zero.
pub open spec fn spec_lcm(a: int, b: int) -> nat {
    if a == 0 || b == 0 {
        0
    } else {
        (abs_int(a) * abs_int(b) / spec_gcd(a, b)) as nat
    }
}

/// Calls `num_integer::Integer::gcd` on `i64`.
/// Claimed: the result is the non-negative greatest common divisor of the two
/// arguments (zero for two zeros). The call is only made where that value fits
/// in an `i64`; the outside code overflows on `i64::MIN` paired with `0` or itself.
#[verifier::external_body]
fn integer_gcd(a: i64, b: i64) -> (r: i64)
    requires
        spec_gcd(a as int, b as int) <= i64::MAX,
    ensures
        r == spec_gcd(a as int, b as int),
{
    num_integer::Integer::gcd(&a, &b)
}

/// Calls `num_integer::Integer::lcm` on `i64`.
/// Claimed: the result is the non-negative least common multiple of the two
/// arguments, zero when either is zero. The call is only made where that value and
/// the greatest common divisor (computed on the way) fit in an `i64`.
#[verifier::external_body]
fn integer_lcm(a: i64, b: i64) -> (r: i64)
    requires
        spec_gcd(a as int, b as int) <= i64::MAX,
        spec_lcm(a as int, b as int) <= i64::MAX,
    ensures
        r == spec_lcm(a as int, b as int),
{
    num_integer::Integer::lcm(&a, &b)
}

/// Element-wise greatest common divisor and least common multiple of two
/// integer arrays. Like a zip, only the common prefix of the two arrays is used.
pub fn gcd_lcm_ufuncs(a: &Vec<i64>, b: &Vec<i64>) -> (res: (Vec<i64>, Vec<i64>))
    requires
        forall|i: int|
            0 <= i < a.len() && i < b.len() ==> #[trigger] spec_gcd(a[i] as int, b[i] as int)
                <= i64::MAX && spec_lcm(a[i] as int, b[i] as int) <= i64::MAX,
    ensures
        res.0.len() == if a.len() <= b.len() { a.len() } else { b.len() },
        res.1.len() == res.0.len(),
        forall|i: int|
            0 <= i < res.0.len() ==> #[trigger] res.0[i] == spec_gcd(a[i] as int, b[i] as int),
        forall|i: int|
            0 <= i < res.1.len() ==> #[trigger] res.1[i] == spec_lcm(a[i] as int, b[i] as int),
{
    let n = if a.len() <= b.len() {
        a.len()
    } else {
        b.len()
    };
    let mut gcds: Vec<i64> = Vec::new();
    let mut lcms: Vec<i64> = Vec::new();
    for i in 0..n
        invariant
            n == (if a.len() <= b.len() { a.len() } else { b.len() }),
            gcds.len() == i,
            lcms.len() == i,
            forall|k: int|
                0 <= k < a.len() && k < b.len() ==> #[trigger] spec_gcd(a[k] as int, b[k] as int)
                    <= i64::MAX && spec_lcm(a[k] as int, b[k] as int) <= i64::MAX,
            forall|k: int| 0 <= k < i ==> #[trigger] gcds[k] == spec_gcd(a[k] as int, b[k] as int),
            forall|k: int| 0 <= k < i ==> #[trigger] lcms[k] == spec_lcm(a[k] as int, b[k] as int),
    {
        let x = a[i];
        let y = b[i];
        assert(spec_gcd(a[i as int] as int, b[i as int] as int) <= i64::MAX);
        gcds.push(integer_gcd(x, y));
        lcms.push(integer_lcm(x, y));
    }
    (gcds, lcms)
}

/// Whether `gcd_lcm_ufuncs` can take the pair `(a, b)`: both its gcd and its lcm
/// fit in an `i64`.
pub fn gcd_lcm_representable(a: i64, b: i64) -> (r: bool)
    ensures
        r == (spec_gcd(a as int, b as int) <= i64::MAX && spec_lcm(a as int, b as int)
            <= i64::MAX),
{
    proof {
        lemma_gcd_divides_both(a as int, b as int);
    }
    if (a == i64::MIN && (b == 0 || b == i64::MIN)) || (a == 0 && b == i64::MIN) {
        proof {
            if b == 0 {
                assert(spec_gcd(a as int, b as int) == abs_int(a as int));
            } else if a == 0 {
                lemma_gcd_commutative(a as int, b as int);
                assert(spec_gcd(b as int, a as int) == abs_int(b as int));
            } else {
                assert(spec_gcd(a as int, b as int) == gcd_nat(abs_int(a as int), abs_int(
                    a as int,
                )));
                vstd::arithmetic::div_mod::lemma_mod_self_0(abs_int(a as int) as int);
                assert(abs_int(a as int) % abs_int(a as int) == 0);
                assert(gcd_nat(abs_int(a as int), abs_int(a as int)) == gcd_nat(
                    abs_int(a as int),
                    0,
                ));
            }
        }
        return false;
    }
    if a == 0 || b == 0 {
        proof {
            if b == 0 {
                assert(spec_gcd(a as int, b as int) == abs_int(a as int));
            } else {
                lemma_gcd_commutative(a as int, b as int);
                assert(spec_gcd(b as int, a as int) == abs_int(b as int));
            }
        }
        return true;
    }
    let ghost g = spec_gcd(a as int, b as int) as int;
    proof {
        lemma_abs_mod(a as int, g);
        lemma_abs_mod(b as int, g);
        lemma_divisor_at_most(abs_int(a as int) as int, g);
        lemma_divisor_at_most(abs_int(b as int) as int, g);
    }
    let gcd = integer_gcd(a, b);
    let aa: i128 = if a < 0 {
        -(a as i128)
    } else {
        a as i128
    };
    let bb: i128 = if b < 0 {
        -(b as i128)
    } else {
        b as i128
    };
    let q = aa / (gcd as i128);
    proof {
        lemma_exact_quotient(aa as int, g, bb as int);
        assert(q <= aa);
        assert(q * bb <= aa * bb) by (nonlinear_arith)
            requires
                0 <= q <= aa,
                0 <= bb,
        ;
        assert(aa * bb <= 0x8000_0000_0000_0000 * 0x8000_0000_0000_0000) by (nonlinear_arith)
            requires
                0 <= aa <= 0x8000_0000_0000_0000,
                0 <= bb <= 0x8000_0000_0000_0000,
        ;
    }
    let l = q * bb;
    l <= i64::MAX as i128
}

/// A positive divisor of a positive number is at most that number.
proof fn lemma_divisor_at_most(x: int, g: int)
    requires
        x > 0,
        g > 0,
        x % g == 0,
    ensures
        g <= x,
{
    lemma_fundamental_div_mod(x, g);
    let k = x / g;
    assert(g <= x) by (nonlinear_arith)
        requires
            x == g * k,
            x > 0,
            g > 0,
    ;
}

/// Dividing a product by an exact divisor of its first factor.
proof fn lemma_exact_quotient(x: int, g: int, y: int)
    requires
        g > 0,
        x >= 0,
        x % g == 0,
    ensures
        (x * y) / g == (x / g) * y,
        0 <= x / g <= x,
{
    lemma_fundamental_div_mod(x, g);
    let k = x / g;
    assert(x * y == g * (k * y)) by (nonlinear_arith)
        requires
            x == g * k,
    ;
    vstd::arithmetic::div_mod::lemma_div_multiples_vanish(k * y, g);
    assert(0 <= k <= x) by (nonlinear_arith)
        requires
            x == g * k,
            x >= 0,
            g > 0,
    ;
}

/// If `g` divides `x` and `y`, it divides `x * q + y`.
proof fn lemma_divides_combination(g: int, x: int, y: int, q: int)
    requires
        g > 0,
        x % g == 0,
        y % g == 0,
    ensures
        (x * q + y) % g == 0,
{
    lemma_fundamental_div_mod(x, g);
    let k = x / g;
    assert(x == g * k);
    assert(x * q == g * (k * q)) by (nonlinear_arith)
        requires
            x == g * k,
    ;
    lemma_mod_multiples_vanish(k * q, y, g);
}

/// Euclid's gcd is zero only for two zeros, and otherwise divides both arguments.
proof fn lemma_gcd_nat_divides(a: nat, b: nat)
    ensures
        gcd_nat(a, b) == 0 <==> (a == 0 && b == 0),
        gcd_nat(a, b) > 0 ==> a % gcd_nat(a, b) == 0 && b % gcd_nat(a, b) == 0,
    decreases b,
{
    if b == 0 {
        if a > 0 {
            lemma_mod_multiples_vanish(1, 0, a as int);
            lemma_mod_multiples_vanish(0, 0, a as int);
        }
    } else {
        lemma_mod_bound(a as int, b as int);
        let r = a % b;
        lemma_gcd_nat_divides(b, r);
        let g = gcd_nat(b, r);
        assert(g > 0);
        lemma_fundamental_div_mod(a as int, b as int);
        lemma_mul_is_commutative(b as int, (a / b) as int);
        lemma_divides_combination(g as int, b as int, r as int, (a / b) as int);
    }
}

/// Every common divisor of the arguments divides Euclid's gcd.
proof fn lemma_gcd_nat_greatest(a: nat, b: nat, d: int)
    requires
        d > 0,
        (a as int) % d == 0,
        (b as int) % d == 0,
    ensures
        (gcd_nat(a, b) as int) % d == 0,
    decreases b,
{
    if b > 0 {
        lemma_mod_bound(a as int, b as int);
        let r = a % b;
        lemma_fundamental_div_mod(a as int, b as int);
        // r == a - b * (a / b)
        lemma_divides_combination(d, b as int, a as int, -((a / b) as int));
        assert(b * (-((a / b) as int)) + a == r) by (nonlinear_arith)
            requires
                a == b * (a / b) + r,
        ;
        lemma_gcd_nat_greatest(b, r, d);
    }
}

proof fn lemma_abs_mod(x: int, d: int)
    requires
        d > 0,
    ensures
        x % d == 0 <==> (abs_int(x) as int) % d == 0,
{
    if x < 0 {
        if x % d == 0 {
            lemma_divides_combination(d, x, 0, -1);
            assert(x * -1 + 0 == abs_int(x));
        }
        if (abs_int(x) as int) % d == 0 {
            lemma_divides_combination(d, abs_int(x) as int, 0, -1);
            assert(abs_int(x) * -1 + 0 == x);
        }
    }
}

/// Law: the gcd of two integers is zero exactly when both are zero; otherwise it
/// divides both of them.
pub proof fn lemma_gcd_divides_both(a: int, b: int)
    ensures
        spec_gcd(a, b) == 0 <==> (a == 0 && b == 0),
        spec_gcd(a, b) > 0 ==> a % (spec_gcd(a, b) as int) == 0 && b % (spec_gcd(a, b) as int)
            == 0,
{
    lemma_gcd_nat_divides(abs_int(a), abs_int(b));
    let g = spec_gcd(a, b);
    if g > 0 {
        lemma_abs_mod(a, g as int);
        lemma_abs_mod(b, g as int);
    }
}

/// Law: every positive common divisor of two integers divides their gcd.
pub proof fn lemma_gcd_is_greatest(a: int, b: int, d: int)
    requires
        d > 0,
        a % d == 0,
        b % d == 0,
    ensures
        (spec_gcd(a, b) as int) % d == 0,
{
    lemma_abs_mod(a, d);
    lemma_abs_mod(b, d);
    lemma_gcd_nat_greatest(abs_int(a), abs_int(b), d);
}

/// Law: the gcd does not depend on the order of the arguments.
pub proof fn lemma_gcd_commutative(a: int, b: int)
    ensures
        spec_gcd(a, b) == spec_gcd(b, a),
{
    let x = abs_int(a);
    let y = abs_int(b);
    if x != y {
        if x == 0 {
            lemma_mod_multiples_vanish(0, 0, y as int);
            assert(gcd_nat(y, 0) == y);
        } else if y == 0 {
            lemma_mod_multiples_vanish(0, 0, x as int);
            assert(gcd_nat(x, 0) == x);
        } else if x < y {
            lemma_small_mod_nat(x, y);
        } else {
            lemma_small_mod_nat(y, x);
        }
    }
}

proof fn lemma_small_mod_nat(x: nat, m: nat)
    requires
        x < m,
    ensures
        x % m == x,
{
    vstd::arithmetic::div_mod::lemma_small_mod(x, m);
}

/// Law: the gcd times the lcm of two integers is the absolute value of their product.
pub proof fn lemma_gcd_times_lcm(a: int, b: int)
    ensures
        spec_gcd(a, b) * spec_lcm(a, b) == abs_int(a * b),
{
    lemma_gcd_divides_both(a, b);
    let g = spec_gcd(a, b) as int;
    let x = abs_int(a) as int;
    let y = abs_int(b) as int;
    assert(abs_int(a * b) == x * y) by (nonlinear_arith)
        requires
            x == abs_int(a),
            y == abs_int(b),
    ;
    if a != 0 && b != 0 {
        lemma_abs_mod(b, g);
        // g divides y, so g divides x * y
        lemma_divides_combination(g, y, 0, x);
        lemma_mul_is_commutative(y, x);
        assert((x * y) % g == 0);
        lemma_fundamental_div_mod(x * y, g);
    } else {
        assert(x * y == 0) by (nonlinear_arith)
            requires
                x == 0 || y == 0,
        ;
    }
}

/// Law: the lcm does not depend on the order of the arguments.
pub proof fn lemma_lcm_commutative(a: int, b: int)
    ensures
        spec_lcm(a, b) == spec_lcm(b, a),
{
    lemma_gcd_commutative(a, b);
    lemma_mul_is_commutative(abs_int(a) as int, abs_int(b) as int);
}

/// Bezout coefficients: integers `s`, `t` with `s * a + t * b == gcd_nat(a, b)`.
proof fn lemma_bezout(a: nat, b: nat) -> (st: (int, int))
    ensures
        st.0 * a + st.1 * b == gcd_nat(a, b),
    decreases b,
{
    if b == 0 {
        (1, 0)
    } else {
        lemma_mod_bound(a as int, b as int);
        lemma_fundamental_div_mod(a as int, b as int);
        let r = a % b;
        let q = (a / b) as int;
        let (s, t) = lemma_bezout(b, r);
        let g = gcd_nat(a, b) as int;
        assert(t * a + (s - t * q) * b == g) by (nonlinear_arith)
            requires
                s * b + t * r == g,
                a == b * q + r,
        ;
        (t, s - t * q)
    }
}

/// Law: the lcm of two non-zero integers is a positive common multiple of both.
pub proof fn lemma_lcm_is_common_multiple(a: int, b: int)
    requires
        a != 0,
        b != 0,
    ensures
        spec_lcm(a, b) > 0,
        (spec_lcm(a, b) as int) % a == 0,
        (spec_lcm(a, b) as int) % b == 0,
{
    lemma_gcd_divides_both(a, b);
    let g = spec_gcd(a, b) as int;
    let x = abs_int(a) as int;
    let y = abs_int(b) as int;
    lemma_abs_mod(a, g);
    lemma_abs_mod(b, g);
    lemma_exact_quotient(y, g, x);
    lemma_exact_quotient(x, g, y);
    let l = spec_lcm(a, b) as int;
    lemma_mul_is_commutative(x, y);
    assert(l == x * (y / g)) by {
        lemma_mul_is_commutative(x, y / g);
    }
    assert(l == y * (x / g)) by {
        lemma_mul_is_commutative(y, x / g);
    }
    lemma_divisor_at_most(y, g);
    assert(y / g > 0) by {
        lemma_fundamental_div_mod(y, g);
        assert(y / g > 0) by (nonlinear_arith)
            requires
                y == g * (y / g),
                y > 0,
                g > 0,
        ;
    }
    assert(l > 0) by (nonlinear_arith)
        requires
            l == x * (y / g),
            x > 0,
            y / g > 0,
    ;
    // x divides l, hence a divides l
    lemma_divides_combination(x, x, 0, y / g);
    lemma_divides_combination(y, y, 0, x / g);
    vstd::arithmetic::div_mod::lemma_mod_self_0(x);
    vstd::arithmetic::div_mod::lemma_mod_self_0(y);
    lemma_multiple_of_abs(l, a);
    lemma_multiple_of_abs(l, b);
}

/// A multiple of `|a|` is a multiple of `a`.
proof fn lemma_multiple_of_abs(m: int, a: int)
    requires
        a != 0,
        m % (abs_int(a) as int) == 0,
    ensures
        m % a == 0,
{
    let x = abs_int(a) as int;
    lemma_fundamental_div_mod(m, x);
    let k = m / x;
    if a < 0 {
        assert(m == a * (-k)) by (nonlinear_arith)
            requires
                m == x * k,
                x == -a,
        ;
        lemma_fundamental_div_mod(m, a);
        vstd::arithmetic::div_mod::lemma_mod_bound(m, -a);
        // Euclidean remainder of m by a negative divisor: m == a * (m / a) + m % a, 0 <= m % a < -a
        let q = m / a;
        let r = m % a;
        assert(r == 0) by (nonlinear_arith)
            requires
                m == a * (-k),
                m == a * q + r,
                0 <= r < -a,
        ;
    }
}

/// Law: the lcm of two non-zero integers divides every common multiple of them.
pub proof fn lemma_lcm_is_least(a: int, b: int, m: int)
    requires
        a != 0,
        b != 0,
        m % a == 0,
        m % b == 0,
    ensures
        m % (spec_lcm(a, b) as int) == 0,
{
    lemma_gcd_divides_both(a, b);
    lemma_lcm_is_common_multiple(a, b);
    let g = spec_gcd(a, b) as int;
    let x = abs_int(a) as int;
    let y = abs_int(b) as int;
    let l = spec_lcm(a, b) as int;
    lemma_abs_of_multiple(m, a);
    lemma_abs_of_multiple(m, b);
    lemma_fundamental_div_mod(m, x);
    lemma_fundamental_div_mod(m, y);
    let u = m / x;
    let v = m / y;
    let (s, t) = lemma_bezout(abs_int(a), abs_int(b));
    // m * g = s * x * m + t * y * m = x * y * (s * v + t * u)
    assert(m * g == s * (x * m) + t * (y * m)) by (nonlinear_arith)
        requires
            s * x + t * y == g,
    ;
    assert(x * m == (x * y) * v) by (nonlinear_arith)
        requires
            m == y * v,
    ;
    assert(y * m == (x * y) * u) by (nonlinear_arith)
        requires
            m == x * u,
    ;
    let xy = x * y;
    assert(m * g == xy * (s * v + t * u)) by (nonlinear_arith)
        requires
            m * g == s * (x * m) + t * (y * m),
            x * m == xy * v,
            y * m == xy * u,
    ;
    lemma_abs_mod(b, g);
    lemma_exact_quotient(y, g, x);
    assert(l == x * (y / g)) by {
        lemma_mul_is_commutative(x, y);
        lemma_mul_is_commutative(x, y / g);
    }
    lemma_fundamental_div_mod(y, g);
    // x * y == l * g, so m * g == l * g * (s v + t u), hence m == l * (s v + t u)
    let w = s * v + t * u;
    assert(m == l * w) by (nonlinear_arith)
        requires
            m * g == xy * w,
            xy == x * y,
            y == g * (y / g),
            l == x * (y / g),
            g > 0,
    ;
    lemma_mod_multiples_vanish(w, 0, l);
    lemma_mul_is_commutative(l, w);
}

/// If `a` divides `m`, so does `|a|`.
proof fn lemma_abs_of_multiple(m: int, a: int)
    requires
        a != 0,
        m % a == 0,
    ensures
        m % (abs_int(a) as int) == 0,
{
    if a < 0 {
        lemma_fundamental_div_mod(m, a);
        let q = m / a;
        assert(m == (-a) * (-q)) by (nonlinear_arith)
            requires
                m == a * q + 0,
        ;
        lemma_mod_multiples_vanish(-q, 0, -a);
    }
}

} // verus!
