use vstd::prelude::*;
use vstd::arithmetic::div_mod::*;
use vstd::arithmetic::power::*;
use vstd::arithmetic::power2::*;
use vstd::arithmetic::mul::*;

verus! {

/// The Mersenne prime p = 2^31 - 1.
pub const P: u32 = 2147483647;

/// The generator φ = x, where x^2 = x + 1.
pub const PHI_A: u32 = 0;
pub const PHI_B: u32 = 1;

/// The order p^2 - 1 of the multiplicative group of GF(p^2).
pub const GROUP_ORDER: u64 = 4611686014132420608;

const LOW_MASK: u64 = 0x7fff_ffff;

/// An element a + b·x of GF(p)[x] / (x^2 - x - 1).
#[derive(Debug, Copy, Clone, PartialEq, Eq, Structural)]
pub struct GFp2 {
    pub a: u32,
    pub b: u32,
}

impl View for GFp2 {
    type V = (int, int);

    open spec fn view(&self) -> (int, int) {
        (self.a as int, self.b as int)
    }
}

pub open spec fn p_int() -> int {
    P as int
}

/// Both components lie in [0, p).
pub open spec fn is_valid(x: (int, int)) -> bool {
    0 <= x.0 < p_int() && 0 <= x.1 < p_int()
}

pub open spec fn reduced(x: (int, int)) -> (int, int) {
    (x.0 % p_int(), x.1 % p_int())
}

/// (a + bx)(c + dx) = (ac + bd) + (ad + bc + bd)x, since x^2 = x + 1.
pub open spec fn ext_mul(x: (int, int), y: (int, int)) -> (int, int) {
    (
        (x.0 * y.0 + x.1 * y.1) % p_int(),
        (x.0 * y.1 + x.1 * y.0 + x.1 * y.1) % p_int(),
    )
}

pub open spec fn ext_one() -> (int, int) {
    (1, 0)
}

pub open spec fn ext_zero() -> (int, int) {
    (0, 0)
}

pub open spec fn phi() -> (int, int) {
    (PHI_A as int, PHI_B as int)
}

/// Field negation, componentwise.
pub open spec fn ext_neg(x: (int, int)) -> (int, int) {
    ((-x.0) % p_int(), (-x.1) % p_int())
}

/// Componentwise sum, reduced.
pub open spec fn ext_add(x: (int, int), y: (int, int)) -> (int, int) {
    ((x.0 + y.0) % p_int(), (x.1 + y.1) % p_int())
}

/// x^n in GF(p^2).
pub open spec fn ext_pow(x: (int, int), n: nat) -> (int, int)
    decreases n,
{
    if n == 0 {
        ext_one()
    } else {
        ext_mul(ext_pow(x, (n - 1) as nat), x)
    }
}

/// The exponent used for x^(-k): (p^2 - 1 - (k mod (p^2 - 1))) mod (p^2 - 1).
pub open spec fn neg_exponent(k: int) -> int {
    (GROUP_ORDER as int - k % (GROUP_ORDER as int)) % (GROUP_ORDER as int)
}

// ---------------------------------------------------------------- GF(p)

proof fn lemma_fold(x: u64)
    ensures
        (x >> 31u64) + (x & LOW_MASK) <= 0x2_7fff_fffeu64,
        ((x >> 31u64) + (x & LOW_MASK)) as int % p_int() == x as int % p_int(),
{
    let q = x >> 31u64;
    let m = x & LOW_MASK;
    assert(x >> 31u64 == x / 0x8000_0000u64 && x & 0x7fff_ffffu64 == x % 0x8000_0000u64
        && x >> 31u64 <= 0x1_ffff_ffffu64 && x & 0x7fff_ffffu64 <= 0x7fff_ffffu64) by (bit_vector);
    lemma_fundamental_div_mod(x as int, 0x8000_0000);
    assert(x as int == 0x8000_0000 * (q as int) + m as int);
    assert(x as int == 2147483647 * (q as int) + (q as int + m as int));
    lemma_mod_multiples_vanish(q as int, q as int + m as int, p_int());
}

/// Reduces x modulo p by folding the high bits twice (2^31 ≡ 1 mod p).
pub fn modp(x: u64) -> (r: u32)
    ensures
        r < P,
        r as int == x as int % p_int(),
{
    proof {
        lemma_fold(x);
    }
    let r1: u64 = (x >> 31) + (x & LOW_MASK);
    proof {
        lemma_fold(r1);
        assert(r1 <= 0x2_7fff_fffeu64 ==> (r1 >> 31u64) + (r1 & 0x7fff_ffffu64) <= 0x8000_0003u64)
            by (bit_vector);
    }
    let r2: u64 = (r1 >> 31) + (r1 & LOW_MASK);
    let r = r2 as u32;
    let out = if r >= P {
        r - P
    } else {
        r
    };
    proof {
        lemma_mod_add_multiples_vanish(out as int, p_int());
        lemma_small_mod(out as nat, P as nat);
    }
    out
}

/// a · b mod p.
pub fn mul_mod(a: u32, b: u32) -> (r: u32)
    ensures
        r < P,
        r as int == (a as int * b as int) % p_int(),
{
    proof {
        lemma_mul_upper_bound(a as int, 0xffff_ffff, b as int, 0xffff_ffff);
    }
    let r = modp((a as u64) * (b as u64));
    if r >= P {
        r - P
    } else {
        r
    }
}

/// a + b mod p; operands of p or more are reduced first.
pub fn add_mod(a: u32, b: u32) -> (r: u32)
    ensures
        r < P,
        r as int == (a as int + b as int) % p_int(),
{
    let x = a % P;
    let y = b % P;
    let s = x + y;
    proof {
        lemma_add_mod_noop(a as int, b as int, p_int());
        if s >= P {
            lemma_mod_add_multiples_vanish(s as int - p_int(), p_int());
            lemma_small_mod((s - P) as nat, P as nat);
        } else {
            lemma_small_mod(s as nat, P as nat);
        }
    }
    if s >= P {
        s - P
    } else {
        s
    }
}

/// a - b mod p; operands of p or more are reduced first.
pub fn sub_mod(a: u32, b: u32) -> (r: u32)
    ensures
        r < P,
        r as int == (a as int - b as int) % p_int(),
{
    let x = a % P;
    let y = b % P;
    proof {
        lemma_sub_mod_noop(a as int, b as int, p_int());
    }
    if x >= y {
        proof {
            lemma_small_mod((x - y) as nat, P as nat);
        }
        x - y
    } else {
        proof {
            lemma_mod_add_multiples_vanish(x as int - y as int, p_int());
            lemma_small_mod((x + (P - y)) as nat, P as nat);
        }
        x + (P - y)
    }
}

// ---------------------------------------------------------------- GF(p^2)

proof fn lemma_lin2(u: int, v: int, c: int, d: int)
    ensures
        ((u % p_int()) * c + (v % p_int()) * d) % p_int() == (u * c + v * d) % p_int(),
{
    let p = p_int();
    lemma_mul_mod_noop_left(u, c, p);
    lemma_mul_mod_noop_left(v, d, p);
    lemma_add_mod_noop((u % p) * c, (v % p) * d, p);
    lemma_add_mod_noop(u * c, v * d, p);
}

/// Multiplies in GF(p^2): (a + bx)(c + dx) with x^2 = x + 1.
pub fn mul_gfp2(x: &GFp2, y: &GFp2) -> (r: GFp2)
    ensures
        r@ == ext_mul(x@, y@),
        is_valid(r@),
{
    let ac = mul_mod(x.a, y.a);
    let bd = mul_mod(x.b, y.b);
    let ad_bc = add_mod(mul_mod(x.a, y.b), mul_mod(x.b, y.a));
    proof {
        let p = p_int();
        let (a, b, c, d) = (x.a as int, x.b as int, y.a as int, y.b as int);
        lemma_add_mod_noop(a * c, b * d, p);
        lemma_add_mod_noop(a * d, b * c, p);
        lemma_add_mod_noop(a * d + b * c, b * d, p);
    }
    GFp2 {
        a: add_mod(ac, bd),
        b: add_mod(ad_bc, bd),
    }
}

/// Lifts a scalar into the field as (d mod p, 0).
pub fn to_gfp2(d: u32) -> (r: GFp2)
    ensures
        r@ == (d as int % p_int(), 0int),
{
    GFp2 { a: d % P, b: 0 }
}

// ---------------------------------------------------------------- algebra of GF(p^2)

pub proof fn lemma_mul_comm(x: (int, int), y: (int, int))
    ensures
        ext_mul(x, y) == ext_mul(y, x),
{
    assert(x.0 * y.0 + x.1 * y.1 == y.0 * x.0 + y.1 * x.1) by (nonlinear_arith);
    assert(x.0 * y.1 + x.1 * y.0 + x.1 * y.1 == y.0 * x.1 + y.1 * x.0 + y.1 * x.1)
        by (nonlinear_arith);
}

/// Reducing the left operand first does not change a product.
pub proof fn lemma_mul_reduce_left(x: (int, int), y: (int, int))
    ensures
        ext_mul(reduced(x), y) == ext_mul(x, y),
{
    let p = p_int();
    lemma_lin2(x.0, x.1, y.0, y.1);
    lemma_lin2(x.0, x.1, y.1, y.0 + y.1);
    assert((x.0 % p) * y.1 + (x.1 % p) * y.0 + (x.1 % p) * y.1 == (x.0 % p) * y.1 + (x.1 % p)
        * (y.0 + y.1)) by (nonlinear_arith);
    assert(x.0 * y.1 + x.1 * y.0 + x.1 * y.1 == x.0 * y.1 + x.1 * (y.0 + y.1))
        by (nonlinear_arith);
}

pub proof fn lemma_mul_reduce_right(x: (int, int), y: (int, int))
    ensures
        ext_mul(x, reduced(y)) == ext_mul(x, y),
{
    lemma_mul_comm(x, reduced(y));
    lemma_mul_reduce_left(y, x);
    lemma_mul_comm(y, x);
}

pub proof fn lemma_mul_one(x: (int, int))
    ensures
        ext_mul(x, ext_one()) == reduced(x),
        ext_mul(ext_one(), x) == reduced(x),
        is_valid(x) ==> reduced(x) == x,
{
    if is_valid(x) {
        lemma_small_mod(x.0 as nat, P as nat);
        lemma_small_mod(x.1 as nat, P as nat);
    }
}

proof fn lemma_mod_eq(x: int, q: int, r: int)
    requires
        x == q * p_int() + r,
        0 <= r < p_int(),
    ensures
        x % p_int() == r,
{
    lemma_mul_is_commutative(q, p_int());
    lemma_mod_multiples_vanish(q, r, p_int());
    lemma_small_mod(r as nat, P as nat);
}

proof fn lemma_assoc_poly(a: int, b: int, c: int, d: int, e: int, f: int)
    ensures
        (a * c + b * d) * e + (a * d + b * c + b * d) * f == a * (c * e + d * f) + b * (c * f + d
            * e + d * f),
        (a * c + b * d) * f + (a * d + b * c + b * d) * e + (a * d + b * c + b * d) * f == a * (c
            * f + d * e + d * f) + b * (c * e + d * f) + b * (c * f + d * e + d * f),
{
    assert((a * c + b * d) * e == a * c * e + b * d * e) by (nonlinear_arith);
    assert((a * d + b * c + b * d) * f == a * d * f + b * c * f + b * d * f) by (nonlinear_arith);
    assert((a * c + b * d) * f == a * c * f + b * d * f) by (nonlinear_arith);
    assert((a * d + b * c + b * d) * e == a * d * e + b * c * e + b * d * e) by (nonlinear_arith);
    assert(a * (c * e + d * f) == a * c * e + a * d * f) by (nonlinear_arith);
    assert(b * (c * f + d * e + d * f) == b * c * f + b * d * e + b * d * f) by (nonlinear_arith);
    assert(a * (c * f + d * e + d * f) == a * c * f + a * d * e + a * d * f) by (nonlinear_arith);
    assert(b * (c * e + d * f) == b * c * e + b * d * f) by (nonlinear_arith);
}

pub proof fn lemma_mul_assoc(x: (int, int), y: (int, int), z: (int, int))
    ensures
        ext_mul(ext_mul(x, y), z) == ext_mul(x, ext_mul(y, z)),
{
    let raw_xy = (x.0 * y.0 + x.1 * y.1, x.0 * y.1 + x.1 * y.0 + x.1 * y.1);
    let raw_yz = (y.0 * z.0 + y.1 * z.1, y.0 * z.1 + y.1 * z.0 + y.1 * z.1);
    assert(reduced(raw_xy) == ext_mul(x, y));
    assert(reduced(raw_yz) == ext_mul(y, z));
    lemma_mul_reduce_left(raw_xy, z);
    lemma_mul_reduce_right(x, raw_yz);
    lemma_assoc_poly(x.0, x.1, y.0, y.1, z.0, z.1);
}

pub proof fn lemma_pow_valid(x: (int, int), n: nat)
    ensures
        is_valid(ext_pow(x, n)),
    decreases n,
{
    if n > 0 {
        lemma_pow_valid(x, (n - 1) as nat);
    }
}

pub proof fn lemma_pow_add(x: (int, int), m: nat, n: nat)
    ensures
        ext_pow(x, m + n) == ext_mul(ext_pow(x, m), ext_pow(x, n)),
    decreases n,
{
    lemma_pow_valid(x, m);
    if n == 0 {
        lemma_mul_one(ext_pow(x, m));
    } else {
        lemma_pow_add(x, m, (n - 1) as nat);
        assert(ext_pow(x, m + n) == ext_mul(ext_pow(x, (m + n - 1) as nat), x));
        lemma_mul_assoc(ext_pow(x, m), ext_pow(x, (n - 1) as nat), x);
    }
}

pub proof fn lemma_pow_mul(x: (int, int), m: nat, n: nat)
    ensures
        ext_pow(x, m * n) == ext_pow(ext_pow(x, m), n),
    decreases n,
{
    if n == 0 {
        assert(m * n == 0) by (nonlinear_arith)
            requires
                n == 0,
        ;
    } else {
        lemma_pow_mul(x, m, (n - 1) as nat);
        assert(m * n == m * (n - 1) + m) by (nonlinear_arith)
            requires
                n > 0,
        ;
        lemma_pow_add(x, m * (n - 1) as nat, m);
    }
}

pub proof fn lemma_pow_of_one(n: nat)
    ensures
        ext_pow(ext_one(), n) == ext_one(),
    decreases n,
{
    if n > 0 {
        lemma_pow_of_one((n - 1) as nat);
        lemma_mul_one(ext_one());
    }
}

pub proof fn lemma_pow_square(x: (int, int))
    ensures
        ext_pow(x, 2) == ext_mul(x, x),
        ext_pow(x, 1) == reduced(x),
{
    lemma_mul_one(x);
    assert(ext_pow(x, 0) == ext_one());
    assert(ext_pow(x, 1) == ext_mul(ext_one(), x));
    assert(ext_pow(x, 2) == ext_mul(ext_pow(x, 1), x));
    lemma_mul_reduce_left(x, x);
}

/// One step of square-and-multiply: peel off the low bit of the exponent.
proof fn lemma_square_multiply_step(r: (int, int), c: (int, int), n: nat)
    requires
        is_valid(r),
    ensures
        ext_mul(r, ext_pow(c, n)) == ext_mul(
            if n % 2 == 1 {
                ext_mul(r, c)
            } else {
                r
            },
            ext_pow(ext_mul(c, c), n / 2),
        ),
{
    let h = n / 2;
    let cc = ext_mul(c, c);
    lemma_pow_add(c, 2 * h, n % 2);
    assert(n == 2 * h + n % 2);
    lemma_pow_mul(c, 2, h);
    lemma_pow_square(c);
    lemma_pow_valid(cc, h);
    if n % 2 == 1 {
        lemma_mul_comm(ext_pow(cc, h), reduced(c));
        lemma_mul_assoc(r, reduced(c), ext_pow(cc, h));
        lemma_mul_reduce_right(r, c);
    } else {
        lemma_mul_one(ext_pow(cc, h));
    }
}

pub open spec fn sq_iter(x: (int, int), n: nat) -> (int, int)
    decreases n,
{
    if n == 0 {
        x
    } else {
        sq_iter(ext_mul(x, x), (n - 1) as nat)
    }
}

proof fn lemma_pow_pow2(x: (int, int), n: nat)
    requires
        is_valid(x),
    ensures
        ext_pow(x, pow2(n)) == sq_iter(x, n),
    decreases n,
{
    if n == 0 {
        lemma2_to64();
        lemma_pow_square(x);
        lemma_mul_one(x);
    } else {
        lemma_pow2_unfold(n);
        lemma_pow_mul(x, 2, pow2((n - 1) as nat));
        lemma_pow_square(x);
        lemma_pow_pow2(ext_mul(x, x), (n - 1) as nat);
    }
}

/// φ^(2^32) = 1: the order of φ divides 2^32, a divisor of p^2 - 1.
pub proof fn lemma_phi_order()
    ensures
        ext_pow(phi(), 0x1_0000_0000) == ext_one(),
        ext_pow(phi(), GROUP_ORDER as nat) == ext_one(),
{
    lemma_pow_pow2(phi(), 32);
    lemma2_to64();
    lemma_mod_eq(0int * 0int + 1int * 1int, 0int, 1int);
    lemma_mod_eq(0int * 1int + 1int * 0int + 1int * 1int, 0int, 1int);
    assert(sq_iter((0, 1), 32) == sq_iter((1, 1), 31));
    lemma_mod_eq(1int * 1int + 1int * 1int, 0int, 2int);
    lemma_mod_eq(1int * 1int + 1int * 1int + 1int * 1int, 0int, 3int);
    assert(sq_iter((1, 1), 31) == sq_iter((2, 3), 30));
    lemma_mod_eq(2int * 2int + 3int * 3int, 0int, 13int);
    lemma_mod_eq(2int * 3int + 3int * 2int + 3int * 3int, 0int, 21int);
    assert(sq_iter((2, 3), 30) == sq_iter((13, 21), 29));
    lemma_mod_eq(13int * 13int + 21int * 21int, 0int, 610int);
    lemma_mod_eq(13int * 21int + 21int * 13int + 21int * 21int, 0int, 987int);
    assert(sq_iter((13, 21), 29) == sq_iter((610, 987), 28));
    lemma_mod_eq(610int * 610int + 987int * 987int, 0int, 1346269int);
    lemma_mod_eq(610int * 987int + 987int * 610int + 987int * 987int, 0int, 2178309int);
    assert(sq_iter((610, 987), 28) == sq_iter((1346269, 2178309), 27));
    lemma_mod_eq(1346269int * 1346269int + 2178309int * 2178309int, 3053int, 1202745551int);
    lemma_mod_eq(1346269int * 2178309int + 2178309int * 1346269int + 2178309int * 2178309int, 4940int, 1640641543int);
    assert(sq_iter((1346269, 2178309), 27) == sq_iter((1202745551, 1640641543), 26));
    lemma_mod_eq(1202745551int * 1202745551int + 1640641543int * 1640641543int, 1927046820int, 114361910int);
    lemma_mod_eq(1202745551int * 1640641543int + 1640641543int * 1202745551int + 1640641543int * 1640641543int, 3091177581int, 704953328int);
    assert(sq_iter((1202745551, 1640641543), 26) == sq_iter((114361910, 704953328), 25));
    lemma_mod_eq(114361910int * 114361910int + 704953328int * 704953328int, 237504877int, 1676877265int);
    lemma_mod_eq(114361910int * 704953328int + 704953328int * 114361910int + 704953328int * 704953328int, 306497706int, 1282134762int);
    assert(sq_iter((114361910, 704953328), 25) == sq_iter((1676877265, 1282134762), 24));
    lemma_mod_eq(1676877265int * 1676877265int + 1282134762int * 1282134762int, 2074887469int, 759957426int);
    lemma_mod_eq(1676877265int * 1282134762int + 1282134762int * 1676877265int + 1282134762int * 1282134762int, 2767813772int, 745382020int);
    assert(sq_iter((1676877265, 1282134762), 24) == sq_iter((759957426, 745382020), 23));
    lemma_mod_eq(759957426int * 759957426int + 745382020int * 745382020int, 527654609int, 980146853int);
    lemma_mod_eq(759957426int * 745382020int + 745382020int * 759957426int + 745382020int * 745382020int, 786274466int, 562383938int);
    assert(sq_iter((759957426, 745382020), 23) == sq_iter((980146853, 562383938), 22));
    lemma_mod_eq(980146853int * 980146853int + 562383938int * 562383938int, 594632489int, 1063784070int);
    lemma_mod_eq(980146853int * 562383938int + 562383938int * 980146853int + 562383938int * 562383938int, 660639902int, 1636599478int);
    assert(sq_iter((980146853, 562383938), 22) == sq_iter((1063784070, 1636599478), 21));
    lemma_mod_eq(1063784070int * 1063784070int + 1636599478int * 1636599478int, 1774213463int, 895897823int);
    lemma_mod_eq(1063784070int * 1636599478int + 1636599478int * 1063784070int + 1636599478int * 1636599478int, 2868675981int, 984120697int);
    assert(sq_iter((1063784070, 1636599478), 21) == sq_iter((895897823, 984120697), 20));
    lemma_mod_eq(895897823int * 895897823int + 984120697int * 984120697int, 824745025int, 1387798963int);
    lemma_mod_eq(895897823int * 984120697int + 984120697int * 895897823int + 984120697int * 984120697int, 1272110607int, 579107342int);
    assert(sq_iter((895897823, 984120697), 20) == sq_iter((1387798963, 579107342), 19));
    lemma_mod_eq(1387798963int * 1387798963int + 579107342int * 579107342int, 1053023746int, 824498671int);
    lemma_mod_eq(1387798963int * 579107342int + 579107342int * 1387798963int + 579107342int * 579107342int, 904656225int, 1600625081int);
    assert(sq_iter((1387798963, 579107342), 19) == sq_iter((824498671, 1600625081), 18));
    lemma_mod_eq(824498671int * 824498671int + 1600625081int * 1600625081int, 1509580160int, 971379282int);
    lemma_mod_eq(824498671int * 1600625081int + 1600625081int * 824498671int + 1600625081int * 1600625081int, 2422103265int, 1100983808int);
    assert(sq_iter((824498671, 1600625081), 18) == sq_iter((971379282, 1100983808), 17));
    lemma_mod_eq(971379282int * 971379282int + 1100983808int * 1100983808int, 1003846086int, 1187060746int);
    lemma_mod_eq(971379282int * 1100983808int + 1100983808int * 971379282int + 1100983808int * 1100983808int, 1560482694int, 504007558int);
    assert(sq_iter((971379282, 1100983808), 17) == sq_iter((1187060746, 504007558), 16));
    lemma_mod_eq(1187060746int * 1187060746int + 504007558int * 504007558int, 774458439int, 181552847int);
    lemma_mod_eq(1187060746int * 504007558int + 504007558int * 1187060746int + 504007558int * 504007558int, 675487702int, 304750706int);
    assert(sq_iter((1187060746, 504007558), 16) == sq_iter((181552847, 304750706), 15));
    lemma_mod_eq(181552847int * 181552847int + 304750706int * 304750706int, 58596222int, 540322211int);
    lemma_mod_eq(181552847int * 304750706int + 304750706int * 181552847int + 304750706int * 304750706int, 94775906int, 1142009218int);
    assert(sq_iter((181552847, 304750706), 15) == sq_iter((540322211, 1142009218), 14));
    lemma_mod_eq(540322211int * 540322211int + 1142009218int * 1142009218int, 743257415int, 1472907540int);
    lemma_mod_eq(540322211int * 1142009218int + 1142009218int * 540322211int + 1142009218int * 1142009218int, 1181983829int, 1505309157int);
    assert(sq_iter((540322211, 1142009218), 14) == sq_iter((1472907540, 1505309157), 13));
    lemma_mod_eq(1472907540int * 1472907540int + 1505309157int * 1505309157int, 2065399792int, 1699700825int);
    lemma_mod_eq(1472907540int * 1505309157int + 1505309157int * 1472907540int + 1505309157int * 1505309157int, 3120078740int, 1398373429int);
    assert(sq_iter((1472907540, 1505309157), 13) == sq_iter((1699700825, 1398373429), 12));
    lemma_mod_eq(1699700825int * 1699700825int + 1398373429int * 1398373429int, 2255864042int, 1388577492int);
    lemma_mod_eq(1699700825int * 1398373429int + 1398373429int * 1699700825int + 1398373429int * 1398373429int, 3124159384int, 1030382443int);
    assert(sq_iter((1699700825, 1398373429), 12) == sq_iter((1388577492, 1030382443), 11));
    lemma_mod_eq(1388577492int * 1388577492int + 1030382443int * 1030382443int, 1392250615int, 1893465408int);
    lemma_mod_eq(1388577492int * 1030382443int + 1030382443int * 1388577492int + 1030382443int * 1030382443int, 1826891544int, 263613193int);
    assert(sq_iter((1388577492, 1030382443), 11) == sq_iter((1893465408, 263613193), 10));
    lemma_mod_eq(1893465408int * 1893465408int + 263613193int * 263613193int, 1701853782int, 386158759int);
    lemma_mod_eq(1893465408int * 263613193int + 263613193int * 1893465408int + 263613193int * 263613193int, 497222337int, 1968887698int);
    assert(sq_iter((1893465408, 263613193), 10) == sq_iter((386158759, 1968887698), 9));
    lemma_mod_eq(386158759int * 386158759int + 1968887698int * 1968887698int, 1874583473int, 1284193254int);
    lemma_mod_eq(386158759int * 1968887698int + 1968887698int * 386158759int + 1968887698int * 1968887698int, 2513232282int, 768340314int);
    assert(sq_iter((386158759, 1968887698), 9) == sq_iter((1284193254, 768340314), 8));
    lemma_mod_eq(1284193254int * 1284193254int + 768340314int * 768340314int, 1042848058int, 876019586int);
    lemma_mod_eq(1284193254int * 768340314int + 768340314int * 1284193254int + 768340314int * 768340314int, 1193835276int, 1725970536int);
    assert(sq_iter((1284193254, 768340314), 8) == sq_iter((876019586, 1725970536), 7));
    lemma_mod_eq(876019586int * 876019586int + 1725970536int * 1725970536int, 1744546279int, 608539179int);
    lemma_mod_eq(876019586int * 1725970536int + 1725970536int * 876019586int + 1725970536int * 1725970536int, 2795337831int, 17013831int);
    assert(sq_iter((876019586, 1725970536), 7) == sq_iter((608539179, 17013831), 6));
    lemma_mod_eq(608539179int * 608539179int + 17013831int * 17013831int, 172578451int, 1476199805int);
    lemma_mod_eq(608539179int * 17013831int + 17013831int * 608539179int + 17013831int * 17013831int, 9777320int, 1130580019int);
    assert(sq_iter((608539179, 17013831), 6) == sq_iter((1476199805, 1130580019), 5));
    lemma_mod_eq(1476199805int * 1476199805int + 1130580019int * 1130580019int, 1609966645int, 1291124071int);
    lemma_mod_eq(1476199805int * 1130580019int + 1130580019int * 1476199805int + 1130580019int * 1130580019int, 2149555454int, 746772213int);
    assert(sq_iter((1476199805, 1130580019), 5) == sq_iter((1291124071, 746772213), 4));
    lemma_mod_eq(1291124071int * 1291124071int + 746772213int * 746772213int, 1035942745int, 708739395int);
    lemma_mod_eq(1291124071int * 746772213int + 746772213int * 1291124071int + 746772213int * 746772213int, 1157643226int, 730070393int);
    assert(sq_iter((1291124071, 746772213), 4) == sq_iter((708739395, 730070393), 3));
    lemma_mod_eq(708739395int * 708739395int + 730070393int * 730070393int, 482105794int, 21189756int);
    lemma_mod_eq(708739395int * 730070393int + 730070393int * 708739395int + 730070393int * 730070393int, 730092672int, 2105104135int);
    assert(sq_iter((708739395, 730070393), 3) == sq_iter((21189756, 2105104135), 2));
    lemma_mod_eq(21189756int * 21189756int + 2105104135int * 2105104135int, 2063770045int, 2147483646int);
    lemma_mod_eq(21189756int * 2105104135int + 2105104135int * 21189756int + 2105104135int * 2105104135int, 2105104135int, 0int);
    assert(sq_iter((21189756, 2105104135), 2) == sq_iter((2147483646, 0), 1));
    lemma_mod_eq(2147483646int * 2147483646int + 0int * 0int, 2147483645int, 1int);
    lemma_mod_eq(2147483646int * 0int + 0int * 2147483646int + 0int * 0int, 0int, 0int);
    assert(sq_iter((2147483646, 0), 1) == sq_iter((1, 0), 0));
    assert(sq_iter(phi(), 32) == ext_one());
    assert(GROUP_ORDER as nat == 0x1_0000_0000 * 1073741823nat);
    lemma_pow_mul(phi(), 0x1_0000_0000, 1073741823);
    lemma_pow_of_one(1073741823);
}

// ---------------------------------------------------------------- exponentiation

proof fn lemma_select(mask: u32, x: u32, y: u32)
    requires
        mask == 0 || mask == 0xffff_ffff,
    ensures
        mask == 0 ==> (!mask & x) | (mask & y) == x,
        mask == 0xffff_ffff ==> (!mask & x) | (mask & y) == y,
{
    assert(mask == 0u32 ==> (!mask & x) | (mask & y) == x) by (bit_vector);
    assert(mask == 0xffff_ffffu32 ==> (!mask & x) | (mask & y) == y) by (bit_vector);
}

/// base^e by square-and-multiply over the bits of e mod (p^2 - 1), least
/// significant first. Each step computes the product and picks between it and
/// the accumulator with a bit mask rather than a branch.
pub fn exp_gfp2(base: GFp2, e: u64) -> (r: GFp2)
    ensures
        r@ == ext_pow(base@, (e % GROUP_ORDER) as nat),
        is_valid(r@),
{
    let e = e % GROUP_ORDER;
    let mut result = GFp2 { a: 1, b: 0 };
    let mut current = base;
    let mut rest: u64 = e;
    proof {
        lemma_pow_valid(base@, e as nat);
        lemma_mul_one(ext_pow(base@, e as nat));
    }
    while rest != 0
        invariant
            is_valid(result@),
            ext_mul(result@, ext_pow(current@, rest as nat)) == ext_pow(base@, e as nat),
        decreases rest,
    {
        let bit: u32 = (rest & 1) as u32;
        let mask: u32 = 0u32.wrapping_sub(bit);
        proof {
            assert(rest & 1u64 == rest % 2 && rest >> 1u64 == rest / 2) by (bit_vector);
            lemma_square_multiply_step(result@, current@, rest as nat);
            lemma_select(mask, result.a, 0);
        }
        let temp = mul_gfp2(&result, &current);
        proof {
            lemma_select(mask, result.a, temp.a);
            lemma_select(mask, result.b, temp.b);
        }
        result = GFp2 { a: (!mask & result.a) | (mask & temp.a), b: (!mask & result.b) | (mask & temp.b) };
        current = mul_gfp2(&current, &current);
        rest = rest >> 1;
    }
    proof {
        lemma_mul_one(result@);
    }
    result
}

/// base^e for a 32-bit exponent.
pub fn exp_phi(base: GFp2, e: u32) -> (r: GFp2)
    ensures
        r@ == ext_pow(base@, e as nat),
        is_valid(r@),
        e == 0 ==> r@ == ext_one(),
{
    exp_gfp2(base, e as u64)
}

fn negative_exponent(k: u32) -> (r: u64)
    ensures
        r as int == neg_exponent(k as int),
        r < GROUP_ORDER,
{
    let k_reduced: u64 = k as u64 % GROUP_ORDER;
    (GROUP_ORDER - k_reduced) % GROUP_ORDER
}

/// base^(-k), computed as base^((p^2 - 1 - k) mod (p^2 - 1)).
pub fn exp_phi_inverse(base: GFp2, k: u32) -> (r: GFp2)
    ensures
        r@ == ext_pow(base@, neg_exponent(k as int) as nat),
        is_valid(r@),
{
    let e = negative_exponent(k);
    proof {
        lemma_small_mod(e as nat, GROUP_ORDER as nat);
    }
    exp_gfp2(base, e)
}

/// φ^k · φ^(-k) = 1 for every key k.
pub proof fn lemma_inverse_law(k: u32)
    ensures
        ext_mul(ext_pow(phi(), k as nat), ext_pow(phi(), neg_exponent(k as int) as nat))
            == ext_one(),
{
    lemma_phi_order();
    if k == 0 {
        lemma_mul_one(ext_one());
    } else {
        assert(neg_exponent(k as int) == GROUP_ORDER as int - k as int);
        lemma_pow_add(phi(), k as nat, neg_exponent(k as int) as nat);
    }
}

/// φ^0 = 1 and φ^1 = φ.
pub proof fn lemma_exp_identity()
    ensures
        ext_pow(phi(), 0) == ext_one(),
        ext_pow(phi(), 1) == phi(),
{
    lemma_pow_square(phi());
}

// ---------------------------------------------------------------- Euler's criterion

/// r · b^e mod p, by halving the exponent.
pub open spec fn fast_pow(r: int, b: int, e: nat) -> int
    decreases e,
{
    if e == 0 {
        r
    } else {
        fast_pow(
            if e % 2 == 1 {
                (r * b) % p_int()
            } else {
                r
            },
            (b * b) % p_int(),
            e / 2,
        )
    }
}

proof fn lemma_fast_pow(r: int, b: int, e: nat)
    requires
        0 <= r < p_int(),
    ensures
        fast_pow(r, b, e) == (r * pow(b, e)) % p_int(),
    decreases e,
{
    let p = p_int();
    if e == 0 {
        lemma_pow0(b);
        lemma_small_mod(r as nat, p as nat);
    } else {
        let h = e / 2;
        let r2 = if e % 2 == 1 {
            (r * b) % p
        } else {
            r
        };
        lemma_fast_pow(r2, (b * b) % p, h);
        lemma_pow_mod_noop(b * b, h, p);
        lemma_mul_mod_noop_right(r2, pow((b * b) % p, h), p);
        lemma_mul_mod_noop_right(r2, pow(b * b, h), p);
        lemma_square_is_pow2(b);
        lemma_pow_multiplies(b, 2, h);
        assert(pow(b * b, h) == pow(b, 2 * h));
        lemma_pow_adds(b, 2 * h, e % 2);
        assert(e == 2 * h + e % 2);
        if e % 2 == 1 {
            lemma_pow1(b);
            lemma_mul_mod_noop_left(r * b, pow(b, 2 * h), p);
            lemma_mul_is_associative(r, b, pow(b, 2 * h));
            lemma_mul_is_commutative(b, pow(b, 2 * h));
        } else {
            lemma_pow0(b);
        }
    }
}

proof fn lemma_euler_value()
    ensures
        fast_pow(1, 5, 1073741823) == P - 1,
{
    lemma_mod_eq(1int * 5int, 0int, 5int);
    lemma_mod_eq(5int * 5int, 0int, 25int);
    assert(fast_pow(1, 5, 1073741823) == fast_pow(5, 25, 536870911));
    lemma_mod_eq(5int * 25int, 0int, 125int);
    lemma_mod_eq(25int * 25int, 0int, 625int);
    assert(fast_pow(5, 25, 536870911) == fast_pow(125, 625, 268435455));
    lemma_mod_eq(125int * 625int, 0int, 78125int);
    lemma_mod_eq(625int * 625int, 0int, 390625int);
    assert(fast_pow(125, 625, 268435455) == fast_pow(78125, 390625, 134217727));
    lemma_mod_eq(78125int * 390625int, 14int, 452807067int);
    lemma_mod_eq(390625int * 390625int, 71int, 116551688int);
    assert(fast_pow(78125, 390625, 134217727) == fast_pow(452807067, 116551688, 67108863));
    lemma_mod_eq(452807067int * 116551688int, 24575473int, 1612389065int);
    lemma_mod_eq(116551688int * 116551688int, 6325680int, 1619494384int);
    assert(fast_pow(452807067, 116551688, 67108863) == fast_pow(1612389065, 1619494384, 33554431));
    lemma_mod_eq(1612389065int * 1619494384int, 1215960381int, 1993121453int);
    lemma_mod_eq(1619494384int * 1619494384int, 1221318757int, 1375672677int);
    assert(fast_pow(1612389065, 1619494384, 33554431) == fast_pow(1993121453, 1375672677, 16777215));
    lemma_mod_eq(1993121453int * 1375672677int, 1276788639int, 1906753248int);
    lemma_mod_eq(1375672677int * 1375672677int, 881252491int, 943831652int);
    assert(fast_pow(1993121453, 1375672677, 16777215) == fast_pow(1906753248, 943831652, 8388607));
    lemma_mod_eq(1906753248int * 943831652int, 838029230int, 883203886int);
    lemma_mod_eq(943831652int * 943831652int, 414819544int, 121052136int);
    assert(fast_pow(1906753248, 943831652, 8388607) == fast_pow(883203886, 121052136, 4194303));
    lemma_mod_eq(883203886int * 121052136int, 49785579int, 164873883int);
    lemma_mod_eq(121052136int * 121052136int, 6823623int, 824369415int);
    assert(fast_pow(883203886, 121052136, 4194303) == fast_pow(164873883, 824369415, 2097151));
    lemma_mod_eq(164873883int * 824369415int, 63291278int, 1974757579int);
    lemma_mod_eq(824369415int * 824369415int, 316456394int, 1283853307int);
    assert(fast_pow(164873883, 824369415, 2097151) == fast_pow(1974757579, 1283853307, 1048575));
    lemma_mod_eq(1974757579int * 1283853307int, 1180590619int, 218356260int);
    lemma_mod_eq(1283853307int * 1283853307int, 767539867int, 1091781300int);
    assert(fast_pow(1974757579, 1283853307, 1048575) == fast_pow(218356260, 1091781300, 524287));
    lemma_mod_eq(218356260int * 1091781300int, 111012385int, 3969905int);
    lemma_mod_eq(1091781300int * 1091781300int, 555061925int, 19849525int);
    assert(fast_pow(218356260, 1091781300, 524287) == fast_pow(3969905, 19849525, 262143));
    lemma_mod_eq(3969905int * 19849525int, 36694int, 963602107int);
    lemma_mod_eq(19849525int * 19849525int, 183472int, 523043241int);
    assert(fast_pow(3969905, 19849525, 262143) == fast_pow(963602107, 523043241, 131071));
    lemma_mod_eq(963602107int * 523043241int, 234695882int, 466467133int);
    lemma_mod_eq(523043241int * 523043241int, 127392929int, 184852018int);
    assert(fast_pow(963602107, 523043241, 131071) == fast_pow(466467133, 184852018, 65535));
    lemma_mod_eq(466467133int * 184852018int, 40152757int, 1826259615int);
    lemma_mod_eq(184852018int * 184852018int, 15911771int, 541363487int);
    assert(fast_pow(466467133, 184852018, 65535) == fast_pow(1826259615, 541363487, 32767));
    lemma_mod_eq(1826259615int * 541363487int, 460385472int, 907301121int);
    lemma_mod_eq(541363487int * 541363487int, 136473414int, 241538311int);
    assert(fast_pow(1826259615, 541363487, 32767) == fast_pow(907301121, 241538311, 16383));
    lemma_mod_eq(907301121int * 241538311int, 102048730int, 1462628321int);
    lemma_mod_eq(241538311int * 241538311int, 27167031int, 870690664int);
    assert(fast_pow(907301121, 241538311, 16383) == fast_pow(1462628321, 870690664, 8191));
    lemma_mod_eq(1462628321int * 870690664int, 593018170int, 1547829154int);
    lemma_mod_eq(870690664int * 870690664int, 353018861int, 1296694829int);
    assert(fast_pow(1462628321, 870690664, 8191) == fast_pow(1547829154, 1296694829, 4095));
    lemma_mod_eq(1547829154int * 1296694829int, 934611103int, 170112025int);
    lemma_mod_eq(1296694829int * 1296694829int, 782971028int, 850560125int);
    assert(fast_pow(1547829154, 1296694829, 4095) == fast_pow(170112025, 850560125, 2047));
    lemma_mod_eq(170112025int * 850560125int, 67376766int, 2075257523int);
    lemma_mod_eq(850560125int * 850560125int, 336883834int, 1786353027int);
    assert(fast_pow(170112025, 850560125, 2047) == fast_pow(2075257523, 1786353027, 1023));
    lemma_mod_eq(2075257523int * 1786353027int, 1726272776int, 1294278049int);
    lemma_mod_eq(1786353027int * 1786353027int, 1485951775int, 28939304int);
    assert(fast_pow(2075257523, 1786353027, 1023) == fast_pow(1294278049, 28939304, 511));
    lemma_mod_eq(1294278049int * 28939304int, 17441579int, 240179283int);
    lemma_mod_eq(28939304int * 28939304int, 389983int, 1200896415int);
    assert(fast_pow(1294278049, 28939304, 511) == fast_pow(240179283, 1200896415, 255));
    lemma_mod_eq(240179283int * 1200896415int, 134310890int, 22954615int);
    lemma_mod_eq(1200896415int * 1200896415int, 671554450int, 114773075int);
    assert(fast_pow(240179283, 1200896415, 255) == fast_pow(22954615, 114773075, 127));
    lemma_mod_eq(22954615int * 114773075int, 1226818int, 156145879int);
    lemma_mod_eq(114773075int * 114773075int, 6134090int, 780729395int);
    assert(fast_pow(22954615, 114773075, 127) == fast_pow(156145879, 780729395, 63));
    lemma_mod_eq(156145879int * 780729395int, 56767686int, 280382363int);
    lemma_mod_eq(780729395int * 780729395int, 283838430int, 1401911815int);
    assert(fast_pow(156145879, 780729395, 63) == fast_pow(280382363, 1401911815, 31));
    lemma_mod_eq(280382363int * 1401911815int, 183038109int, 1552015322int);
    lemma_mod_eq(1401911815int * 1401911815int, 915190548int, 1317625669int);
    assert(fast_pow(280382363, 1401911815, 31) == fast_pow(1552015322, 1317625669, 15));
    lemma_mod_eq(1552015322int * 1317625669int, 952265797int, 293578759int);
    lemma_mod_eq(1317625669int * 1317625669int, 808451978int, 1467893795int);
    assert(fast_pow(1552015322, 1317625669, 15) == fast_pow(293578759, 1467893795, 7));
    lemma_mod_eq(293578759int * 1467893795int, 200673210int, 1813903535int);
    lemma_mod_eq(1467893795int * 1467893795int, 1003366054int, 479583087int);
    assert(fast_pow(293578759, 1467893795, 7) == fast_pow(1813903535, 479583087, 3));
    lemma_mod_eq(1813903535int * 479583087int, 405086882int, 2126293891int);
    lemma_mod_eq(479583087int * 479583087int, 107102066int, 2041534867int);
    assert(fast_pow(1813903535, 479583087, 3) == fast_pow(2126293891, 2041534867, 1));
    lemma_mod_eq(2126293891int * 2041534867int, 2021390533int, 2147483646int);
    lemma_mod_eq(2041534867int * 2041534867int, 1940813201int, 2147483642int);
    assert(fast_pow(2126293891, 2041534867, 1) == fast_pow(2147483646, 2147483642, 0));
}

/// Euler's criterion on the discriminant 5: x^2 - x - 1 has no root mod p
/// exactly when 5^((p-1)/2) ≡ -1.
pub fn check_irreducible() -> (r: bool)
    ensures
        r == (pow(5, ((P - 1) / 2) as nat) % p_int() == P - 1),
        r,
{
    let e: u32 = (P - 1) >> 1;
    let mut res: u32 = 1;
    let mut base: u32 = 5;
    let mut exp: u32 = e;
    while exp > 0
        invariant
            res < P,
            base < P,
            fast_pow(res as int, base as int, exp as nat) == fast_pow(1, 5, e as nat),
        decreases exp,
    {
        proof {
            assert(exp & 1u32 == exp % 2 && exp >> 1u32 == exp / 2) by (bit_vector);
        }
        if exp & 1 == 1 {
            res = mul_mod(res, base);
        }
        base = mul_mod(base, base);
        exp >>= 1;
    }
    proof {
        assert(e == 1073741823u32) by (bit_vector)
            requires
                e == 2147483646u32 >> 1u32,
        ;
        lemma_euler_value();
        lemma_fast_pow(1, 5, e as nat);
    }
    res == P - 1
}

} // verus!
