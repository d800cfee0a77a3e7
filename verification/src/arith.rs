//! Greatest common divisors and the facts about them that exact rational
//! arithmetic rests on.

use vstd::arithmetic::div_mod::{
    lemma_fundamental_div_mod, lemma_fundamental_div_mod_converse, lemma_mod_bound,
    lemma_mod_multiples_basic,
};
use vstd::prelude::*;

verus! {

/// The greatest common divisor, by Euclid's recursion.
pub open spec fn gcd(a: nat, b: nat) -> nat
    decreases b,
{
    if b == 0 {
        a
    } else {
        proof {
            lemma_mod_bound(a as int, b as int);
        }
        gcd(b, a % b)
    }
}

/// The absolute value of an integer.
pub open spec fn abs(x: int) -> nat {
    if x < 0 {
        (-x) as nat
    } else {
        x as nat
    }
}

/// `k` divides `a`, for a positive `k`.
pub open spec fn divides(k: int, a: int) -> bool {
    k > 0 && a % k == 0
}

/// A multiple of `g` is `g` times its quotient.
pub proof fn lemma_divides_quotient(g: int, a: int)
    requires
        divides(g, a),
    ensures
        a == g * (a / g),
{
    lemma_fundamental_div_mod(a, g);
}

/// Multiples of `g` are closed under `q * x + y`.
pub proof fn lemma_divides_lin(g: int, x: int, y: int, q: int)
    requires
        divides(g, x),
        divides(g, y),
    ensures
        divides(g, q * x + y),
{
    lemma_divides_quotient(g, x);
    lemma_divides_quotient(g, y);
    let xq = x / g;
    let yq = y / g;
    assert(q * x + y == (q * xq + yq) * g) by (nonlinear_arith)
        requires
            x == g * xq,
            y == g * yq,
    ;
    lemma_mod_multiples_basic(q * xq + yq, g);
}

/// `g` divides `g * k`.
pub proof fn lemma_divides_multiple(g: int, k: int)
    requires
        g > 0,
    ensures
        divides(g, g * k),
{
    lemma_mod_multiples_basic(k, g);
    assert(k * g == g * k) by (nonlinear_arith);
}

/// The gcd of two numbers, not both zero, is positive and divides both.
pub proof fn lemma_gcd_divides(a: nat, b: nat)
    requires
        a > 0 || b > 0,
    ensures
        gcd(a, b) > 0,
        divides(gcd(a, b) as int, a as int),
        divides(gcd(a, b) as int, b as int),
    decreases b,
{
    if b == 0 {
        lemma_divides_multiple(a as int, 1);
        lemma_divides_multiple(a as int, 0);
    } else {
        lemma_mod_bound(a as int, b as int);
        let r = a % b;
        lemma_gcd_divides(b, r);
        let g = gcd(b, r) as int;
        lemma_fundamental_div_mod(a as int, b as int);
        assert(a == (a / b) * b + r) by (nonlinear_arith)
            requires
                a == b * (a / b) + r,
        ;
        lemma_divides_lin(g, b as int, r as int, (a / b) as int);
    }
}

/// Every common divisor of `a` and `b` divides their gcd.
pub proof fn lemma_gcd_greatest(a: nat, b: nat, k: int)
    requires
        divides(k, a as int),
        divides(k, b as int),
    ensures
        divides(k, gcd(a, b) as int),
    decreases b,
{
    if b > 0 {
        lemma_mod_bound(a as int, b as int);
        let r = a % b;
        lemma_fundamental_div_mod(a as int, b as int);
        assert(r == (-(a / b)) * b + a) by (nonlinear_arith)
            requires
                a == b * (a / b) + r,
        ;
        lemma_divides_lin(k, b as int, a as int, -(a / b));
        lemma_gcd_greatest(b, r, k);
    }
}

/// Scaling both arguments scales the gcd: `gcd(c*a, c*b) == c * gcd(a, b)`.
pub proof fn lemma_gcd_scale(a: nat, b: nat, c: nat)
    requires
        c > 0,
    ensures
        gcd(c * a, c * b) == c * gcd(a, b),
    decreases b,
{
    if b == 0 {
        assert(c * b == 0);
    } else {
        lemma_mod_bound(a as int, b as int);
        let q = a / b;
        let r = a % b;
        lemma_fundamental_div_mod(a as int, b as int);
        assert(c * b > 0) by (nonlinear_arith)
            requires
                c > 0,
                b > 0,
        ;
        assert(c * a == q * (c * b) + c * r && 0 <= c * r < c * b) by (nonlinear_arith)
            requires
                a == b * q + r,
                0 <= r < b,
                c > 0,
        ;
        lemma_fundamental_div_mod_converse((c * a) as int, (c * b) as int, q as int, (c * r) as int);
        assert((c * a) % (c * b) == c * r);
        lemma_gcd_scale(b, r, c);
    }
}

/// Euclid's lemma: if `b` divides `a * d` and shares no factor with `a`,
/// then `b` divides `d`.
pub proof fn lemma_coprime_divides(a: nat, b: nat, d: nat)
    requires
        gcd(a, b) == 1,
        b > 0,
        divides(b as int, (a * d) as int),
    ensures
        divides(b as int, d as int),
{
    if d == 0 {
        lemma_divides_multiple(b as int, 0);
    } else {
        lemma_gcd_scale(a, b, d);
        assert(d * a == a * d) by (nonlinear_arith);
        assert(d * b == b * d) by (nonlinear_arith);
        lemma_divides_multiple(b as int, d as int);
        lemma_gcd_greatest(d * a, d * b, b as int);
    }
}

/// A positive `a` divisible by positive `b`, and `b` by `a`, are equal.
pub proof fn lemma_mutual_divides(a: int, b: int)
    requires
        divides(a, b),
        divides(b, a),
    ensures
        a == b,
{
    lemma_divides_quotient(a, b);
    lemma_divides_quotient(b, a);
    let k = b / a;
    let m = a / b;
    assert(a == b) by (nonlinear_arith)
        requires
            b == a * k,
            a == b * m,
            a > 0,
            b > 0,
    ;
}

/// A fraction in lowest terms with a positive denominator.
pub open spec fn reduced(n: int, d: int) -> bool {
    d > 0 && gcd(abs(n), d as nat) == 1
}

/// The lowest-terms form of `n / d` with a positive denominator, for a
/// nonzero `d`.
pub open spec fn normalize(n: int, d: int) -> (int, int) {
    let sn = if d < 0 { -n } else { n };
    let sd = if d < 0 { -d } else { d };
    let g = gcd(abs(sn), sd as nat) as int;
    (sn / g, sd / g)
}

/// Two fractions with nonzero denominators denote the same number.
pub open spec fn same_value(x: (int, int), y: (int, int)) -> bool {
    x.0 * y.1 == y.0 * x.1
}

/// Dividing a positive-denominator fraction by the gcd of its parts gives
/// lowest terms, the same number, and parts no larger than before.
pub proof fn lemma_normalize_positive(n: int, d: int)
    requires
        d > 0,
    ensures
        reduced(normalize(n, d).0, normalize(n, d).1),
        same_value(normalize(n, d), (n, d)),
        abs(normalize(n, d).0) <= abs(n),
        0 < normalize(n, d).1 <= d,
        normalize(n, d).0 == n / (gcd(abs(n), d as nat) as int),
        normalize(n, d).1 == d / (gcd(abs(n), d as nat) as int),
        n % (gcd(abs(n), d as nat) as int) == 0,
        d % (gcd(abs(n), d as nat) as int) == 0,
        (n >= 0) == (normalize(n, d).0 >= 0),
{
    let an = abs(n);
    let g = gcd(an, d as nat);
    lemma_gcd_divides(an, d as nat);
    let gi = g as int;
    lemma_divides_quotient(gi, an as int);
    lemma_divides_quotient(gi, d);
    let ka = (an as int) / gi;
    let kd = d / gi;
    // n / g, handling the sign of n
    if n >= 0 {
        assert(n == gi * ka);
        lemma_fundamental_div_mod_converse(n, gi, ka, 0);
    } else {
        assert(n == (-ka) * gi + 0) by (nonlinear_arith)
            requires
                an == -n,
                an == gi * ka,
        ;
        lemma_fundamental_div_mod_converse(n, gi, -ka, 0);
    }
    lemma_fundamental_div_mod_converse(d, gi, kd, 0);
    assert(kd > 0 && kd <= d) by (nonlinear_arith)
        requires
            d == gi * kd,
            d > 0,
            gi > 0,
    ;
    assert(ka >= 0 && ka <= an) by (nonlinear_arith)
        requires
            an == gi * ka,
            an >= 0,
            gi > 0,
    ;
    // lowest terms: g * gcd(ka, kd) == gcd(g*ka, g*kd) == g
    lemma_gcd_scale(ka as nat, kd as nat, g);
    assert(g * (ka as nat) == an);
    assert(g * (kd as nat) == d as nat);
    assert(gcd(ka as nat, kd as nat) == 1) by (nonlinear_arith)
        requires
            g * gcd(ka as nat, kd as nat) == g,
            g > 0,
    ;
    let nn = n / gi;
    assert(n % gi == 0);
    lemma_fundamental_div_mod(n, gi);
    assert(abs(nn) == ka);
    assert(nn * d == n * kd) by (nonlinear_arith)
        requires
            n == gi * nn,
            d == gi * kd,
    ;
}

/// Normalizing any fraction with a nonzero denominator gives lowest terms and
/// the same number.
pub proof fn lemma_normalize(n: int, d: int)
    requires
        d != 0,
    ensures
        reduced(normalize(n, d).0, normalize(n, d).1),
        same_value(normalize(n, d), (n, d)),
{
    if d < 0 {
        lemma_normalize_positive(-n, -d);
        assert(normalize(n, d) == normalize(-n, -d));
        let r = normalize(n, d);
        assert(r.0 * d == n * r.1) by (nonlinear_arith)
            requires
                r.0 * (-d) == (-n) * r.1,
        ;
    } else {
        lemma_normalize_positive(n, d);
    }
}

/// A fraction already in lowest terms is its own normal form.
pub proof fn lemma_normalize_reduced(n: int, d: int)
    requires
        reduced(n, d),
    ensures
        normalize(n, d) == (n, d),
{
    assert(gcd(abs(n), d as nat) == 1);
    assert(n / 1 == n);
    assert(d / 1 == d);
}

/// Two fractions in lowest terms that denote the same number are the same
/// pair.
pub proof fn lemma_reduced_unique(x: (int, int), y: (int, int))
    requires
        reduced(x.0, x.1),
        reduced(y.0, y.1),
        same_value(x, y),
    ensures
        x == y,
{
    let (n1, d1) = x;
    let (n2, d2) = y;
    let a1 = abs(n1);
    let a2 = abs(n2);
    // |n1| * d2 == |n2| * d1
    assert(a1 * d2 == a2 * d1) by (nonlinear_arith)
        requires
            n1 * d2 == n2 * d1,
            a1 == (if n1 < 0 { -n1 } else { n1 }),
            a2 == (if n2 < 0 { -n2 } else { n2 }),
            d1 > 0,
            d2 > 0,
    ;
    lemma_divides_multiple(d1, a2 as int);
    assert(a2 * d1 == d1 * a2) by (nonlinear_arith);
    lemma_coprime_divides(a1, d1 as nat, d2 as nat);
    lemma_divides_multiple(d2, a1 as int);
    assert(a1 * d2 == d2 * a1) by (nonlinear_arith);
    lemma_coprime_divides(a2, d2 as nat, d1 as nat);
    lemma_mutual_divides(d1, d2);
    assert(n1 == n2) by (nonlinear_arith)
        requires
            n1 * d2 == n2 * d1,
            d1 == d2,
            d1 > 0,
    ;
}

/// Fractions that denote the same number have the same normal form.
pub proof fn lemma_normalize_same_value(x: (int, int), y: (int, int))
    requires
        x.1 != 0,
        y.1 != 0,
        same_value(x, y),
    ensures
        normalize(x.0, x.1) == normalize(y.0, y.1),
{
    lemma_normalize(x.0, x.1);
    lemma_normalize(y.0, y.1);
    let nx = normalize(x.0, x.1);
    let ny = normalize(y.0, y.1);
    assert(nx.0 * ny.1 == ny.0 * nx.1) by (nonlinear_arith)
        requires
            nx.0 * x.1 == x.0 * nx.1,
            ny.0 * y.1 == y.0 * ny.1,
            x.0 * y.1 == y.0 * x.1,
            x.1 != 0,
            y.1 != 0,
            nx.1 > 0,
            ny.1 > 0,
    ;
    lemma_reduced_unique(nx, ny);
}

/// Multiplication distributes over addition.
pub proof fn lemma_distrib(x: int, y: int, z: int)
    ensures
        (x + y) * z == x * z + y * z,
{
    vstd::arithmetic::mul::lemma_mul_is_distributive_add_other_way(z, x, y);
}

/// The middle factors of a product of two products may swap.
pub proof fn lemma_mul4_swap(a: int, b: int, c: int, d: int)
    ensures
        (a * b) * (c * d) == (a * c) * (b * d),
{
    assert((a * b) * (c * d) == (a * c) * (b * d)) by (nonlinear_arith);
}

/// The integer `n` as a fraction.
pub open spec fn qint(n: int) -> (int, int) {
    (n, 1)
}

/// The negation of a fraction.
pub open spec fn qneg(x: (int, int)) -> (int, int) {
    (-x.0, x.1)
}

/// The sum of two fractions, in lowest terms.
pub open spec fn qadd(x: (int, int), y: (int, int)) -> (int, int) {
    normalize(x.0 * y.1 + y.0 * x.1, x.1 * y.1)
}

/// The difference of two fractions, in lowest terms.
pub open spec fn qsub(x: (int, int), y: (int, int)) -> (int, int) {
    qadd(x, qneg(y))
}

/// A fraction times an integer, in lowest terms.
pub open spec fn qmul_int(x: (int, int), k: int) -> (int, int) {
    normalize(x.0 * k, x.1)
}

/// A fraction divided by a nonzero integer, in lowest terms.
pub open spec fn qdiv_int(x: (int, int), k: int) -> (int, int) {
    normalize(x.0, x.1 * k)
}

/// Every integer is in lowest terms over one.
pub proof fn lemma_qint_reduced(n: int)
    ensures
        reduced(qint(n).0, qint(n).1),
{
    assert(abs(n) % 1 == 0);
    assert(gcd(1, 0) == 1);
    assert(gcd(abs(n), 1) == gcd(1, abs(n) % 1));
}

/// Negation keeps lowest terms and is its own inverse.
pub proof fn lemma_qneg_reduced(x: (int, int))
    requires
        reduced(x.0, x.1),
    ensures
        reduced(qneg(x).0, qneg(x).1),
        qneg(qneg(x)) == x,
{
    assert(abs(-x.0) == abs(x.0));
}

/// The sum is in lowest terms, has a positive denominator, and denotes the
/// plain sum.
pub proof fn lemma_qadd_facts(x: (int, int), y: (int, int))
    requires
        x.1 > 0,
        y.1 > 0,
    ensures
        reduced(qadd(x, y).0, qadd(x, y).1),
        same_value(qadd(x, y), (x.0 * y.1 + y.0 * x.1, x.1 * y.1)),
{
    assert(x.1 * y.1 > 0) by (nonlinear_arith)
        requires
            x.1 > 0,
            y.1 > 0,
    ;
    lemma_normalize(x.0 * y.1 + y.0 * x.1, x.1 * y.1);
}

/// Replacing the left summand by an equal number does not change the sum.
pub proof fn lemma_qadd_cong_left(a: (int, int), a2: (int, int), b: (int, int))
    requires
        a.1 > 0,
        a2.1 > 0,
        b.1 > 0,
        same_value(a, a2),
    ensures
        qadd(a, b) == qadd(a2, b),
{
    let (p, q) = a;
    let (p2, q2) = a2;
    let (u, v) = b;
    let r1 = (p * v + u * q, q * v);
    let r2 = (p2 * v + u * q2, q2 * v);
    lemma_distrib(p * v, u * q, q2 * v);
    lemma_mul4_swap(p, v, q2, v);
    lemma_distrib(p2 * v, u * q2, q * v);
    lemma_mul4_swap(p2, v, q, v);
    lemma_mul4_swap(u, q2, q, v);
    lemma_mul4_swap(u, q, q2, v);
    lemma_mul4_swap(u, q2, v, q);
    vstd::arithmetic::mul::lemma_mul_is_commutative(q, v);
    vstd::arithmetic::mul::lemma_mul_is_commutative(q2, v);
    assert(p * q2 == p2 * q);
    assert(r1.0 * r2.1 == r2.0 * r1.1);
    assert(q * v > 0 && q2 * v > 0) by (nonlinear_arith)
        requires
            q > 0,
            q2 > 0,
            v > 0,
    ;
    lemma_normalize_same_value(r1, r2);
}

/// Addition commutes.
pub proof fn lemma_qadd_comm(x: (int, int), y: (int, int))
    ensures
        qadd(x, y) == qadd(y, x),
{
    assert(x.0 * y.1 + y.0 * x.1 == y.0 * x.1 + x.0 * y.1);
    assert(x.1 * y.1 == y.1 * x.1) by (nonlinear_arith);
}

/// Addition is associative.
pub proof fn lemma_qadd_assoc(x: (int, int), y: (int, int), z: (int, int))
    requires
        x.1 > 0,
        y.1 > 0,
        z.1 > 0,
    ensures
        qadd(qadd(x, y), z) == qadd(x, qadd(y, z)),
{
    let (x0, x1) = x;
    let (y0, y1) = y;
    let (z0, z1) = z;
    let rxy = (x0 * y1 + y0 * x1, x1 * y1);
    let ryz = (y0 * z1 + z0 * y1, y1 * z1);
    assert(x1 * y1 > 0 && y1 * z1 > 0) by (nonlinear_arith)
        requires
            x1 > 0,
            y1 > 0,
            z1 > 0,
    ;
    lemma_qadd_facts(x, y);
    lemma_qadd_facts(y, z);
    lemma_qadd_cong_left(qadd(x, y), rxy, z);
    lemma_qadd_comm(x, qadd(y, z));
    lemma_qadd_cong_left(qadd(y, z), ryz, x);
    lemma_distrib(x0 * y1, y0 * x1, z1);
    lemma_distrib(y0 * z1, z0 * y1, x1);
    vstd::arithmetic::mul::lemma_mul_is_associative(x0, y1, z1);
    vstd::arithmetic::mul::lemma_mul_is_associative(y0, x1, z1);
    vstd::arithmetic::mul::lemma_mul_is_associative(y0, z1, x1);
    vstd::arithmetic::mul::lemma_mul_is_commutative(x1, z1);
    vstd::arithmetic::mul::lemma_mul_is_associative(z0, y1, x1);
    vstd::arithmetic::mul::lemma_mul_is_commutative(x1, y1);
    assert((x1 * y1) * z1 == (y1 * z1) * x1) by (nonlinear_arith);
}

/// Zero is the additive identity.
pub proof fn lemma_qadd_zero(x: (int, int))
    requires
        reduced(x.0, x.1),
    ensures
        qadd(x, qint(0)) == x,
{
    assert(x.0 * 1 + 0 * x.1 == x.0);
    assert(x.1 * 1 == x.1);
    lemma_normalize_reduced(x.0, x.1);
}

/// A number plus its negation is zero.
pub proof fn lemma_qadd_neg(x: (int, int))
    requires
        reduced(x.0, x.1),
    ensures
        qadd(x, qneg(x)) == qint(0),
{
    let r = (x.0 * x.1 + (-x.0) * x.1, x.1 * x.1);
    assert(r.0 == 0 && r.1 > 0) by (nonlinear_arith)
        requires
            r == (x.0 * x.1 + (-x.0) * x.1, x.1 * x.1),
            x.1 > 0,
    ;
    lemma_qint_reduced(0);
    lemma_normalize_same_value(r, qint(0));
    lemma_normalize_reduced(0, 1);
}

/// Negation distributes over addition.
pub proof fn lemma_qneg_add(x: (int, int), y: (int, int))
    requires
        x.1 > 0,
        y.1 > 0,
    ensures
        qneg(qadd(x, y)) == qadd(qneg(x), qneg(y)),
{
    let r = (x.0 * y.1 + y.0 * x.1, x.1 * y.1);
    let rn = ((-x.0) * y.1 + (-y.0) * x.1, x.1 * y.1);
    assert(x.1 * y.1 > 0) by (nonlinear_arith)
        requires
            x.1 > 0,
            y.1 > 0,
    ;
    assert(rn.0 == -r.0) by (nonlinear_arith)
        requires
            r == (x.0 * y.1 + y.0 * x.1, x.1 * y.1),
            rn == ((-x.0) * y.1 + (-y.0) * x.1, x.1 * y.1),
    ;
    lemma_qadd_facts(x, y);
    lemma_qadd_facts(qneg(x), qneg(y));
    let s = qadd(x, y);
    let t = qadd(qneg(x), qneg(y));
    lemma_qneg_reduced(s);
    assert(same_value(qneg(s), t)) by (nonlinear_arith)
        requires
            s.0 * r.1 == r.0 * s.1,
            t.0 * rn.1 == rn.0 * t.1,
            rn.0 == -r.0,
            rn.1 == r.1,
            r.1 > 0,
            s.1 > 0,
            t.1 > 0,
    ;
    lemma_reduced_unique(qneg(s), t);
}

/// Integer addition carries over to fractions.
pub proof fn lemma_qint_add(a: int, b: int)
    ensures
        qadd(qint(a), qint(b)) == qint(a + b),
{
    assert(a * 1 + b * 1 == a + b);
    assert(1 * 1 == 1int);
    lemma_qint_reduced(a + b);
    lemma_normalize_reduced(a + b, 1);
}

/// Sums of pairs may be regrouped: `(a + b) + (c + d) == (a + c) + (b + d)`.
pub proof fn lemma_qadd_swap_middle(a: (int, int), b: (int, int), c: (int, int), d: (int, int))
    requires
        a.1 > 0,
        b.1 > 0,
        c.1 > 0,
        d.1 > 0,
    ensures
        qadd(qadd(a, b), qadd(c, d)) == qadd(qadd(a, c), qadd(b, d)),
{
    lemma_qadd_facts(a, b);
    lemma_qadd_facts(c, d);
    lemma_qadd_facts(b, c);
    lemma_qadd_facts(c, b);
    lemma_qadd_facts(b, d);
    lemma_qadd_facts(a, c);
    lemma_qadd_facts(b, qadd(c, d));
    lemma_qadd_facts(c, qadd(b, d));
    lemma_qadd_assoc(a, b, qadd(c, d));
    lemma_qadd_assoc(b, c, d);
    lemma_qadd_comm(b, c);
    lemma_qadd_assoc(c, b, d);
    lemma_qadd_assoc(a, c, qadd(b, d));
}

/// Adding and then subtracting the same number changes nothing.
pub proof fn lemma_qadd_cancel(x: (int, int), y: (int, int))
    requires
        reduced(x.0, x.1),
        reduced(y.0, y.1),
    ensures
        qadd(qadd(x, y), qneg(y)) == x,
{
    lemma_qneg_reduced(y);
    lemma_qadd_assoc(x, y, qneg(y));
    lemma_qadd_neg(y);
    lemma_qadd_zero(x);
}

/// Dividing by a positive integer and multiplying back gives the original.
pub proof fn lemma_qmul_div(x: (int, int), n: int)
    requires
        reduced(x.0, x.1),
        n > 0,
    ensures
        qmul_int(qdiv_int(x, n), n) == x,
{
    assert(x.1 * n > 0) by (nonlinear_arith)
        requires
            x.1 > 0,
            n > 0,
    ;
    lemma_normalize(x.0, x.1 * n);
    let a = qdiv_int(x, n);
    lemma_normalize(a.0 * n, a.1);
    let b = qmul_int(a, n);
    assert(same_value(b, x)) by (nonlinear_arith)
        requires
            a.0 * (x.1 * n) == x.0 * a.1,
            b.0 * a.1 == (a.0 * n) * b.1,
            a.1 > 0,
            b.1 > 0,
            x.1 > 0,
            n > 0,
    ;
    lemma_reduced_unique(b, x);
}

} // verus!
