use blst_from_scratch::batch::fr_batch_inv;
use blst_from_scratch::encoding::{bytes_from_bls_field, bytes_to_bls_field};
use blst_from_scratch::fr::Fr;
use blst_from_scratch::kzg::{compute_powers, vector_lincomb};

fn fr(v: u64) -> Fr {
    Fr::from_u64(v)
}

#[test]
fn add_mul_small_values() {
    assert!(fr(3).add(&fr(4)).equals(&fr(7)));
    assert!(fr(3).mul(&fr(4)).equals(&fr(12)));
    assert!(fr(0).mul(&fr(7)).equals(&fr(0)));
    assert!(fr(1).mul(&fr(7)).equals(&fr(7)));
}

#[test]
fn sub_wraps_to_modulus_minus_one() {
    let minus_one = Fr::zero().sub(&Fr::one());
    // p - 1 plus one is the additive identity again.
    assert!(minus_one.add(&Fr::one()).equals(&Fr::zero()));
    // And p - 1 squared is one.
    assert!(minus_one.mul(&minus_one).equals(&Fr::one()));
}

#[test]
fn pow_small_values() {
    assert!(fr(2).pow(10).equals(&fr(1024)));
    assert!(fr(5).pow(0).equals(&fr(1)));
    assert!(fr(5).pow(1).equals(&fr(5)));
}

#[test]
fn inverse_of_zero_fails() {
    assert!(Fr::zero().eucl_inverse().is_none());
}

#[test]
fn inverse_times_self_is_one() {
    for v in [1u64, 2, 3, 17, 0xffffffff] {
        let x = fr(v);
        let inv = x.eucl_inverse().expect("non-zero element must invert");
        assert!(inv.mul(&x).equals(&Fr::one()));
    }
}

#[test]
fn div_undoes_mul() {
    let a = fr(91);
    let b = fr(13);
    let q = a.div(&b).expect("division by non-zero succeeds");
    assert!(q.equals(&fr(7)));
    assert!(a.div(&Fr::zero()).is_none());
}

#[test]
fn field_bytes_round_trip() {
    let x = fr(123456789);
    let bytes = bytes_from_bls_field(&x);
    assert_eq!(bytes.len(), 32);
    let mut arr = [0u8; 32];
    arr.copy_from_slice(&bytes);
    let back = bytes_to_bls_field(&arr).expect("canonical bytes parse");
    assert!(back.equals(&x));
}

#[test]
fn field_bytes_round_trip_large_value() {
    // p - 1, the largest reduced element.
    let x = Fr::zero().sub(&Fr::one());
    let bytes = bytes_from_bls_field(&x);
    let mut arr = [0u8; 32];
    arr.copy_from_slice(&bytes);
    let back = bytes_to_bls_field(&arr).expect("canonical bytes parse");
    assert!(back.equals(&x));
}

#[test]
fn out_of_range_bytes_rejected() {
    // The little-endian bytes of the modulus itself: one past the largest
    // reduced element.
    let p_bytes: [u8; 32] = [
        0x01, 0x00, 0x00, 0x00, 0xff, 0xff, 0xff, 0xff,
        0xfe, 0x5b, 0xfe, 0xff, 0x02, 0xa4, 0xbd, 0x53,
        0x05, 0xd8, 0xa1, 0x09, 0x08, 0xd8, 0x39, 0x33,
        0x48, 0x7d, 0x9d, 0x29, 0x53, 0xa7, 0xed, 0x73,
    ];
    assert!(bytes_to_bls_field(&p_bytes).is_none());
    let mut p_minus_one = p_bytes;
    p_minus_one[0] = 0x00;
    assert!(bytes_to_bls_field(&p_minus_one).is_some());
    let all_ff = [0xffu8; 32];
    assert!(bytes_to_bls_field(&all_ff).is_none());
}

#[test]
fn batch_inversion_matches_single_inverses() {
    let a: Vec<Fr> = [1u64, 2, 3, 4, 5, 6, 7, 8].iter().map(|&v| fr(v)).collect();
    let out = fr_batch_inv(&a).expect("non-zero vector inverts");
    assert_eq!(out.len(), a.len());
    for i in 0..a.len() {
        assert!(out[i].mul(&a[i]).equals(&Fr::one()));
        let single = a[i].eucl_inverse().unwrap();
        assert!(out[i].equals(&single));
    }
}

#[test]
fn batch_inversion_rejects_zero_entry() {
    let a = vec![fr(1), fr(0), fr(3)];
    assert!(fr_batch_inv(&a).is_none());
}

#[test]
fn compute_powers_small_base() {
    let powers = compute_powers(&fr(3), 5);
    let expected = [1u64, 3, 9, 27, 81];
    assert_eq!(powers.len(), 5);
    for (p, e) in powers.iter().zip(expected.iter()) {
        assert!(p.equals(&fr(*e)));
    }
    assert!(compute_powers(&fr(3), 0).is_empty());
}

#[test]
fn vector_lincomb_two_rows() {
    let vectors = vec![fr(1), fr(2), fr(3), fr(4)];
    let scalars = vec![fr(2), fr(3)];
    let out = vector_lincomb(&vectors, &scalars, 2, 2);
    assert_eq!(out.len(), 2);
    // 2*1 + 3*3 and 2*2 + 3*4.
    assert!(out[0].equals(&fr(11)));
    assert!(out[1].equals(&fr(16)));
}
