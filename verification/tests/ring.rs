use rokoblador::modular::{add_mod, multiply_mod, sub_mod};
use rokoblador::r64::{
    add, center, const_elem_neg, dot, mul, phi_for_part, shift_y, uncenter, zero, N, R64,
};
use rokoblador::ring::{multiply, ring_eo, split_all, RingElement};

const MOD_Q: u64 = 1125899906842597;

#[test]
fn shift_y_matches_mul_by_y() {
    let mut y = zero();
    y[1] = 1;
    for _ in 0..8 {
        let a: R64 = std::array::from_fn(|i| ((i as u64) * 97 + 31) % MOD_Q);
        assert_eq!(shift_y(&a, MOD_Q), mul(&y, &a, MOD_Q));
    }
}

#[test]
fn center_uncenter_roundtrip() {
    for v in [0u64, 1, MOD_Q / 2, MOD_Q / 2 + 1, MOD_Q - 1] {
        assert_eq!(uncenter(center(v, MOD_Q), MOD_Q), v);
    }
}

#[test]
fn center_exact_values() {
    assert_eq!(center(0, MOD_Q), 0);
    assert_eq!(center(MOD_Q / 2, MOD_Q), 562949953421298);
    assert_eq!(center(MOD_Q / 2 + 1, MOD_Q), -562949953421298);
    assert_eq!(center(MOD_Q - 1, MOD_Q), -1);
    assert_eq!(uncenter(-1, MOD_Q), MOD_Q - 1);
    assert_eq!(uncenter(7, MOD_Q), 7);
    assert_eq!(center(4, 8), 4);
    assert_eq!(center(5, 8), -3);
}

#[test]
fn modular_arithmetic() {
    assert_eq!(add_mod(MOD_Q - 1, 5, MOD_Q), 4);
    assert_eq!(sub_mod(3, 5, MOD_Q), MOD_Q - 2);
    assert_eq!(multiply_mod(MOD_Q - 1, MOD_Q - 1, MOD_Q), 1);
    assert_eq!(multiply_mod(1 << 49, 4, MOD_Q), 54);
}

#[test]
fn zero_has_no_coefficients() {
    assert_eq!(N, 64);
    assert_eq!(zero(), [0u64; 64]);
}

#[test]
fn add_and_negative_constants() {
    let a: R64 = std::array::from_fn(|i| i as u64);
    let b: R64 = std::array::from_fn(|i| 16 - (i as u64) % 17);
    let s = add(&a, &b, 17);
    for i in 0..64 {
        assert_eq!(s[i], (a[i] + b[i]) % 17);
    }
    let c = const_elem_neg(5, 17);
    assert_eq!(c[0], 12);
    assert_eq!(&c[1..], &[0u64; 63]);
    assert_eq!(const_elem_neg(0, 17), zero());
}

#[test]
fn shift_wraps_with_a_sign() {
    let mut a = zero();
    a[63] = 3;
    a[0] = 9;
    let s = shift_y(&a, 17);
    assert_eq!(s[0], 14);
    assert_eq!(s[1], 9);
    assert_eq!(&s[2..], &[0u64; 62]);
}

#[test]
fn mul_small_products() {
    let mut a = zero();
    let mut b = zero();
    a[0] = 1;
    a[1] = 2;
    b[0] = 3;
    b[1] = 4;
    let p = mul(&a, &b, MOD_Q);
    assert_eq!((p[0], p[1], p[2]), (3, 10, 8));
    assert_eq!(&p[3..], &[0u64; 61]);
    let mut top = zero();
    top[63] = 5;
    let w = mul(&top, &b, MOD_Q);
    assert_eq!(w[63], 15);
    assert_eq!(w[0], MOD_Q - 20);
    assert_eq!(mul(&b, &top, MOD_Q), w);
}

#[test]
fn dot_stops_at_the_shorter_list() {
    let mut one = zero();
    one[0] = 1;
    let mut three = zero();
    three[0] = 3;
    assert_eq!(dot(&[one, three], &[three, three, three], MOD_Q)[0], 12);
    assert_eq!(dot(&[one, three, one], &[three], MOD_Q)[0], 3);
    assert_eq!(dot(&[], &[one], MOD_Q), zero());
}

#[test]
fn phi_for_both_parts() {
    let e: R64 = std::array::from_fn(|i| i as u64 + 1);
    let o: R64 = std::array::from_fn(|i| i as u64 + 100);
    assert_eq!(phi_for_part(&e, &o, 0, MOD_Q), (e, shift_y(&o, MOD_Q)));
    assert_eq!(phi_for_part(&e, &o, 1, MOD_Q), (o, e));
}

fn from_powers(c: &[u64; 128]) -> RingElement {
    let mut v = [0u64; 128];
    for i in 0..128 {
        v[64 * (i % 2) + i / 2] = c[i];
    }
    RingElement { v }
}

fn naive_product(a: &[u64; 128], b: &[u64; 128], q: u64) -> [u64; 128] {
    let mut r = [0u64; 128];
    for i in 0..128 {
        for j in 0..128 {
            let p = (a[i] as u128 * b[j] as u128 % q as u128) as u64;
            let k = (i + j) % 128;
            r[k] = if i + j < 128 { (r[k] + p) % q } else { (r[k] + q - p) % q };
        }
    }
    r
}

#[test]
fn halves_of_an_element() {
    let c: [u64; 128] = std::array::from_fn(|i| i as u64);
    let (e, o) = ring_eo(&from_powers(&c));
    for k in 0..64 {
        assert_eq!(e[k], 2 * k as u64);
        assert_eq!(o[k], 2 * k as u64 + 1);
    }
    let all = split_all(&[from_powers(&c), from_powers(&c)]);
    assert_eq!(all, vec![(e, o), (e, o)]);
}

#[test]
fn product_in_the_large_ring() {
    let a: [u64; 128] = std::array::from_fn(|i| (i as u64 * 7919 + 13) % MOD_Q);
    let b: [u64; 128] = std::array::from_fn(|i| MOD_Q - 1 - (i as u64 * 104729) % MOD_Q);
    let want = ring_eo(&from_powers(&naive_product(&a, &b, MOD_Q)));
    let got = multiply(&ring_eo(&from_powers(&a)), &ring_eo(&from_powers(&b)), MOD_Q);
    assert_eq!(got, want);
}

#[test]
fn the_two_factors_give_both_halves_of_a_product() {
    let a: [u64; 128] = std::array::from_fn(|i| (i as u64 * 31 + 5) % MOD_Q);
    let b: [u64; 128] = std::array::from_fn(|i| (i as u64 * i as u64 + 1) % MOD_Q);
    let (ae, ao) = ring_eo(&from_powers(&a));
    let (be, bo) = ring_eo(&from_powers(&b));
    let want = ring_eo(&from_powers(&naive_product(&a, &b, MOD_Q)));
    for part in 0..2 {
        let (pe, po) = phi_for_part(&ae, &ao, part, MOD_Q);
        let got = dot(&[pe, po], &[be, bo], MOD_Q);
        assert_eq!(got, if part == 0 { want.0 } else { want.1 });
    }
}
