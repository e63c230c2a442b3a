use ring_lwe::trace::{inner_product, trace_mod, trace_vec};
use ring_lwe::zz_p::{ZZ_pContext, ZZ_p};
use ring_lwe::zzx::ZZX;
use rug::Integer;

fn poly(c: &[i64]) -> ZZX {
    ZZX::new_with_vec(c.iter().map(|&x| Integer::from(x)).collect())
}

fn ints(c: &[i64]) -> Vec<Integer> {
    c.iter().map(|&x| Integer::from(x)).collect()
}

#[test]
fn traces_are_the_power_sums_of_the_roots() {
    // x^2 - 3x + 2 has the roots 1 and 2
    assert_eq!(trace_vec(&poly(&[2, -3, 1])), ints(&[2, 3]));
    // x^3 - 6x^2 + 11x - 6 has the roots 1, 2 and 3
    assert_eq!(trace_vec(&poly(&[-6, 11, -6, 1])), ints(&[3, 6, 14]));
    // x^4 + 1
    assert_eq!(trace_vec(&poly(&[1, 0, 0, 0, 1])), ints(&[4, 0, 0, 0]));
    assert_eq!(trace_vec(&poly(&[5, 1])), ints(&[1]));
    assert_eq!(trace_vec(&poly(&[1])), ints(&[]));
}

#[test]
fn inner_product_stops_at_the_shorter_vector() {
    assert_eq!(inner_product(&ints(&[1, 2, 3]), &ints(&[4, 5, 6])), Integer::from(32));
    assert_eq!(inner_product(&ints(&[1, 2, 3]), &ints(&[4, 5])), Integer::from(14));
    assert_eq!(inner_product(&ints(&[]), &ints(&[4, 5])), Integer::from(0));
}

#[test]
fn trace_of_a_residue() {
    // modulo x^3 - 6x^2 + 11x - 6: the trace of 1 + 2x + x^2 is 3 + 12 + 14
    assert_eq!(trace_mod(&poly(&[1, 2, 1]), &poly(&[-6, 11, -6, 1])), Integer::from(29));
    assert_eq!(trace_mod(&ZZX::new(), &poly(&[-6, 11, -6, 1])), Integer::from(0));
}

#[test]
fn modulus_context_keeps_its_modulus() {
    let c = ZZ_pContext::new(Integer::from(17));
    assert_eq!(*c.modulus(), Integer::from(17));
    let _ = ZZ_p::new(Integer::from(5), c);
}
