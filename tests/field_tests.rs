use fore::{
    add_mod, check_irreducible, exp_gfp2, exp_phi, exp_phi_inverse, modp, mul_gfp2, mul_mod,
    sub_mod, to_gfp2, GFp2, P, PHI_A, PHI_B,
};
use std::time::Instant;

#[test]
fn test_field_arithmetic() {
    assert_eq!(modp(P as u64 + 1), 1);

    let a = GFp2 { a: 1, b: 1 };
    let b = GFp2 { a: 1, b: 0 };
    let c = mul_gfp2(&a, &b);
    assert_eq!(c.a, 1);
    assert_eq!(c.b, 1);
}

#[test]
fn test_phi_exponentiation() {
    let base = GFp2 { a: PHI_A, b: PHI_B };
    let exp = exp_phi(base, 1);
    assert_eq!(exp.a, PHI_A);
    assert_eq!(exp.b, PHI_B);
}

#[test]
fn test_exp_phi_timing() {
    let iterations = 1_000_000;
    let base = GFp2 { a: PHI_A, b: PHI_B };
    let key = 0xDEADBEEF;

    let start = Instant::now();
    for _ in 0..iterations {
        let _ = exp_phi(base, key);
    }
    let duration = start.elapsed();

    println!("\nexp_phi Performance:");
    println!("------------------------");
    println!("Iterations: {}", iterations);
    println!("Total time: {:.2?}", duration);
    println!("Time per operation: {:.2?}", duration / iterations as u32);
    println!("Operations per second: {:.2}", iterations as f64 / duration.as_secs_f64());
    println!("------------------------");
}

#[test]
fn modp_reduces_edge_values() {
    assert_eq!(modp(0), 0);
    assert_eq!(modp(P as u64), 0);
    assert_eq!(modp(P as u64 - 1), P - 1);
    assert_eq!(modp(u64::MAX), (u64::MAX % P as u64) as u32);
    assert_eq!(modp(1u64 << 31), 1);
    let x: u64 = 0x1234_5678_9abc_def0;
    assert_eq!(modp(x), (x % P as u64) as u32);
}

#[test]
fn scalar_operations_match_modular_arithmetic() {
    assert_eq!(mul_mod(P - 1, P - 1), 1);
    assert_eq!(mul_mod(123_456, 789_012), ((123_456u64 * 789_012u64) % P as u64) as u32);
    assert_eq!(add_mod(P - 1, 5), 4);
    assert_eq!(add_mod(3, 4), 7);
    assert_eq!(add_mod(u32::MAX, u32::MAX), ((2 * u32::MAX as u64) % P as u64) as u32);
    assert_eq!(sub_mod(0, 1), P - 1);
    assert_eq!(sub_mod(10, 3), 7);
    assert_eq!(sub_mod(0, 0), 0);
}

#[test]
fn extension_multiplication_uses_x_squared_rule() {
    // x · x = x + 1
    let x = GFp2 { a: 0, b: 1 };
    assert_eq!(mul_gfp2(&x, &x), GFp2 { a: 1, b: 1 });
    // (2 + 3x)(4 + 5x) = 8 + 15 + (10 + 12 + 15)x
    let u = GFp2 { a: 2, b: 3 };
    let v = GFp2 { a: 4, b: 5 };
    assert_eq!(mul_gfp2(&u, &v), GFp2 { a: 23, b: 37 });
    let big = GFp2 { a: P - 1, b: P - 1 };
    let r = mul_gfp2(&big, &big);
    assert!(r.a < P && r.b < P);
    assert_eq!(r, GFp2 { a: 2, b: 3 });
}

#[test]
fn scalar_lift_reduces() {
    assert_eq!(to_gfp2(200), GFp2 { a: 200, b: 0 });
    assert_eq!(to_gfp2(P), GFp2 { a: 0, b: 0 });
    assert_eq!(to_gfp2(u32::MAX), GFp2 { a: 1, b: 0 });
}

#[test]
fn exponent_zero_and_one() {
    let phi = GFp2 { a: PHI_A, b: PHI_B };
    assert_eq!(exp_phi(phi, 0), GFp2 { a: 1, b: 0 });
    assert_eq!(exp_phi(phi, 1), phi);
    // φ^n = F(n-1) + F(n) x
    assert_eq!(exp_phi(phi, 10), GFp2 { a: 34, b: 55 });
    assert_eq!(exp_gfp2(phi, 10), GFp2 { a: 34, b: 55 });
}

#[test]
fn inverse_power_cancels() {
    let phi = GFp2 { a: PHI_A, b: PHI_B };
    for k in [0u32, 1, 2, 7, 1000, 0xDEADBEEF, u32::MAX] {
        let f = exp_phi(phi, k);
        let g = exp_phi_inverse(phi, k);
        assert_eq!(mul_gfp2(&f, &g), GFp2 { a: 1, b: 0 });
    }
}

#[test]
fn phi_order_divides_two_to_the_32() {
    let phi = GFp2 { a: PHI_A, b: PHI_B };
    assert_eq!(exp_gfp2(phi, 1u64 << 32), GFp2 { a: 1, b: 0 });
    assert_eq!(exp_gfp2(phi, 1u64 << 31), GFp2 { a: P - 1, b: 0 });
}

#[test]
fn irreducibility_holds() {
    assert!(check_irreducible());
}
