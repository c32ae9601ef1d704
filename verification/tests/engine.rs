use blst_from_scratch::fft::{bit_reverse, fft_fr, ifft_fr, reverse_bit_order, FFTSettings};
use blst_from_scratch::fr::Fr;
use blst_from_scratch::kzg::{
    blob_to_kzg_commitment, compute_kzg_proof, compute_kzg_quotient,
    evaluate_polynomial_in_evaluation_form, verify_kzg_proof, KZGSettings,
};
use blst_from_scratch::points::{
    bytes_from_g1, bytes_from_g2, bytes_to_g1, bytes_to_g2, g1_add, g1_equal, g1_generator,
    g1_mul, g2_generator, g2_mul,
};
use blst_from_scratch::poly::Poly;
use blst_from_scratch::setup::{
    hex_decode, load_trusted_setup_from_bytes, parse_trusted_setup, scale_for_length, LoadError,
};
use blst_from_scratch::encoding::bytes_from_bls_field;

const G1_GEN_HEX: &str = "97f1d3a73197d7942695638c4fa9ac0fc3688c4f9774b905a14e3a3f171bac586c55e83ff97a1aeffb3af00adb22c6bb";
const G2_GEN_HEX: &str = "93e02b6052719f607dacd3a088274f65596bd0d09920b61ab5da61bbdc7f5049334cf11213945d57e5ac7d055d042b7e024aa2b2f08f0a91260805272dc51051c6e47ad4fa403b02b4510b647ae3d1770bac0326a805bbefd48056c8c121bdb8";

fn fr(v: u64) -> Fr {
    Fr::from_u64(v)
}

fn hex_to_bytes(s: &str) -> Vec<u8> {
    hex_decode(&s.as_bytes().to_vec()).expect("hex literal decodes")
}

fn g1_gen_bytes() -> [u8; 48] {
    let mut arr = [0u8; 48];
    arr.copy_from_slice(&hex_to_bytes(G1_GEN_HEX));
    arr
}

fn toy_setup_text() -> String {
    let mut text = String::from("4\n2\n");
    for _ in 0..4 {
        text.push_str(G1_GEN_HEX);
        text.push('\n');
    }
    for _ in 0..2 {
        text.push_str(G2_GEN_HEX);
        text.push('\n');
    }
    text
}

fn toy_settings() -> KZGSettings {
    let parsed = parse_trusted_setup(toy_setup_text().as_bytes()).expect("toy setup parses");
    let scale = scale_for_length(parsed.g1_monomial.len());
    assert_eq!(scale, 2);
    KZGSettings {
        secret_g1: parsed.g1_monomial,
        secret_g2: parsed.g2_points,
        fs: FFTSettings::new(scale),
    }
}

#[test]
fn bit_reverse_small_indices() {
    assert_eq!(bit_reverse(0, 3), 0);
    assert_eq!(bit_reverse(1, 3), 4);
    assert_eq!(bit_reverse(3, 3), 6);
    assert_eq!(bit_reverse(5, 3), 5);
}

#[test]
fn reverse_bit_order_four_entries() {
    let v: Vec<u64> = vec![10, 11, 12, 13];
    let r = reverse_bit_order(&v, 2);
    assert_eq!(r, vec![10, 12, 11, 13]);
}

#[test]
fn roots_of_unity_order_four() {
    let fs = FFTSettings::new(2);
    assert_eq!(fs.expanded_roots_of_unity.len(), 4);
    let w = fs.expanded_roots_of_unity[1];
    // The first root is one; the table holds successive powers of a
    // primitive fourth root, whose square is minus one.
    assert!(fs.expanded_roots_of_unity[0].equals(&Fr::one()));
    assert!(w.pow(4).equals(&Fr::one()));
    let minus_one = Fr::zero().sub(&Fr::one());
    assert!(w.mul(&w).equals(&minus_one));
    assert!(fs.expanded_roots_of_unity[2].equals(&minus_one));
    // The bit-reversed table swaps the middle two entries.
    assert!(fs.roots_of_unity[0].equals(&fs.expanded_roots_of_unity[0]));
    assert!(fs.roots_of_unity[1].equals(&fs.expanded_roots_of_unity[2]));
    assert!(fs.roots_of_unity[2].equals(&fs.expanded_roots_of_unity[1]));
    assert!(fs.roots_of_unity[3].equals(&fs.expanded_roots_of_unity[3]));
}

#[test]
fn fft_round_trip_order_four() {
    let fs = FFTSettings::new(2);
    let w = fs.expanded_roots_of_unity[1];
    let v: Vec<Fr> = vec![fr(1), fr(2), fr(3), fr(4)];
    let transformed = fft_fr(&v, &w);
    assert_eq!(transformed.len(), 4);
    // The first output of the forward transform is the plain sum.
    assert!(transformed[0].equals(&fr(10)));
    let back = ifft_fr(&transformed, &w).expect("inverse transform succeeds");
    for i in 0..4 {
        assert!(back[i].equals(&v[i]));
    }
}

#[test]
fn fft_round_trip_order_eight() {
    let fs = FFTSettings::new(3);
    let w = fs.expanded_roots_of_unity[1];
    let v: Vec<Fr> = (0..8).map(|i| fr(100 + i)).collect();
    let transformed = fft_fr(&v, &w);
    let back = ifft_fr(&transformed, &w).expect("inverse transform succeeds");
    for i in 0..8 {
        assert!(back[i].equals(&v[i]));
    }
}

#[test]
fn g1_bytes_round_trip() {
    let arr = g1_gen_bytes();
    let g = bytes_to_g1(&arr).expect("generator decompresses");
    let back = bytes_from_g1(&g);
    assert_eq!(back, arr);
}

#[test]
fn g2_bytes_round_trip() {
    let mut arr = [0u8; 96];
    arr.copy_from_slice(&hex_to_bytes(G2_GEN_HEX));
    let g = bytes_to_g2(&arr).expect("generator decompresses");
    let back = bytes_from_g2(&g);
    assert_eq!(back.to_vec(), arr.to_vec());
}

#[test]
fn g1_infinity_accepted_and_kept() {
    let mut arr = [0u8; 48];
    arr[0] = 0xc0;
    let g = bytes_to_g1(&arr).expect("identity encoding accepted");
    assert_eq!(bytes_from_g1(&g), arr);
}

#[test]
fn g1_garbage_rejected() {
    // Compression bit clear: never a valid compressed encoding.
    let arr = [0u8; 48];
    assert!(bytes_to_g1(&arr).is_none());
}

#[test]
fn g1_equal_compares_bytes() {
    let arr = g1_gen_bytes();
    let a = bytes_to_g1(&arr).unwrap();
    let b = bytes_to_g1(&arr).unwrap();
    assert!(g1_equal(&a, &b));
    let mut inf = [0u8; 48];
    inf[0] = 0xc0;
    let c = bytes_to_g1(&inf).unwrap();
    assert!(!g1_equal(&a, &c));
}

#[test]
fn parse_toy_setup() {
    let text = toy_setup_text();
    let parsed = parse_trusted_setup(text.as_bytes()).expect("well-formed setup parses");
    assert_eq!(parsed.g1_monomial.len(), 4);
    assert_eq!(parsed.g2_points.len(), 2);
    assert_eq!(bytes_from_g1(&parsed.g1_monomial[0]).to_vec(), hex_to_bytes(G1_GEN_HEX));
    assert_eq!(bytes_from_g2(&parsed.g2_points[0]).to_vec(), hex_to_bytes(G2_GEN_HEX));
}

#[test]
fn parse_setup_twice_is_identical() {
    let text = toy_setup_text();
    let a = parse_trusted_setup(text.as_bytes()).unwrap();
    let b = parse_trusted_setup(text.as_bytes()).unwrap();
    assert_eq!(a.g1_monomial.len(), b.g1_monomial.len());
    for i in 0..a.g1_monomial.len() {
        assert_eq!(
            bytes_from_g1(&a.g1_monomial[i]).to_vec(),
            bytes_from_g1(&b.g1_monomial[i]).to_vec(),
        );
    }
    for i in 0..a.g2_points.len() {
        assert_eq!(
            bytes_from_g2(&a.g2_points[i]).to_vec(),
            bytes_from_g2(&b.g2_points[i]).to_vec(),
        );
    }
    let fs1 = FFTSettings::new(2);
    let fs2 = FFTSettings::new(2);
    for i in 0..4 {
        assert!(fs1.expanded_roots_of_unity[i].equals(&fs2.expanded_roots_of_unity[i]));
    }
}

#[test]
fn parse_setup_error_cases() {
    assert_eq!(parse_trusted_setup(b"abc\n2\n").unwrap_err(), LoadError::BadCount);
    assert_eq!(parse_trusted_setup(b"4\n2\n").unwrap_err(), LoadError::Truncated);
    assert_eq!(parse_trusted_setup(b"").unwrap_err(), LoadError::Truncated);
    let bad_hex = "1\n0\nzz\n";
    assert_eq!(parse_trusted_setup(bad_hex.as_bytes()).unwrap_err(), LoadError::BadHex);
    let bad_len = "1\n0\nabcd\n";
    assert_eq!(parse_trusted_setup(bad_len.as_bytes()).unwrap_err(), LoadError::BadLength);
    let bad_point = format!("1\n0\n{}\n", "00".repeat(48));
    assert_eq!(parse_trusted_setup(bad_point.as_bytes()).unwrap_err(), LoadError::BadPoint);
}

#[test]
fn scale_for_length_values() {
    assert_eq!(scale_for_length(1), 0);
    assert_eq!(scale_for_length(2), 1);
    assert_eq!(scale_for_length(4), 2);
    assert_eq!(scale_for_length(5), 3);
}

#[test]
fn evaluate_at_domain_points_is_exact() {
    let s = toy_settings();
    let p = Poly::from_coeffs(vec![fr(1), fr(2), fr(3), fr(4)]);
    for i in 0..4 {
        let x = s.fs.roots_of_unity[i];
        let y = evaluate_polynomial_in_evaluation_form(&p, &x, &s)
            .expect("domain evaluation succeeds");
        assert!(y.equals(&p.get_coeff_at(i)));
    }
}

#[test]
fn evaluate_constant_polynomial_off_domain() {
    // A single-point domain: the polynomial is the constant equal to its one
    // stored evaluation, so any query point returns it; this drives the
    // whole barycentric formula, batched inversion and division included.
    let parsed = parse_trusted_setup(format!("1\n0\n{}\n", G1_GEN_HEX).as_bytes()).unwrap();
    let s = KZGSettings {
        secret_g1: parsed.g1_monomial,
        secret_g2: parsed.g2_points,
        fs: FFTSettings::new(0),
    };
    let p = Poly::from_coeffs(vec![fr(42)]);
    let y = evaluate_polynomial_in_evaluation_form(&p, &fr(5), &s)
        .expect("off-domain evaluation succeeds");
    assert!(y.equals(&fr(42)));
}

#[test]
fn proof_at_domain_point_returns_stored_evaluation() {
    let s = toy_settings();
    let p = Poly::from_coeffs(vec![fr(1), fr(2), fr(3), fr(4)]);
    let z = s.fs.roots_of_unity[0];
    // The first bit-reversed root is one, so this exercises the
    // removable-singularity branch at index zero.
    assert!(z.equals(&Fr::one()));
    let (q, y) = compute_kzg_quotient(&p, &z, &s).expect("quotient computation succeeds");
    assert!(y.equals(&fr(1)));
    assert_eq!(q.len(), 4);
    // Away from the singularity the quotient satisfies
    // q_i * (w_i - z) == p_i - y exactly.
    for i in 1..4 {
        let w = s.fs.roots_of_unity[i];
        let lhs = q.get_coeff_at(i).mul(&w.sub(&z));
        let rhs = p.get_coeff_at(i).sub(&y);
        assert!(lhs.equals(&rhs));
    }
}

#[test]
fn proof_refused_when_polynomial_exceeds_setup() {
    let s = toy_settings();
    let mut short = s;
    short.secret_g1.truncate(2);
    let p = Poly::from_coeffs(vec![fr(1), fr(2), fr(3), fr(4)]);
    assert!(compute_kzg_quotient(&p, &fr(5), &short).is_none());
    assert!(compute_kzg_proof(&p, &fr(5), &short).is_none());
}

#[test]
fn proof_off_domain_satisfies_quotient_relation() {
    let s = toy_settings();
    let p = Poly::from_coeffs(vec![fr(1), fr(2), fr(3), fr(4)]);
    let z = fr(11);
    let (q, y) = compute_kzg_quotient(&p, &z, &s).expect("quotient computation succeeds");
    let ye = evaluate_polynomial_in_evaluation_form(&p, &z, &s).unwrap();
    assert!(y.equals(&ye));
    for i in 0..4 {
        let w = s.fs.roots_of_unity[i];
        let lhs = q.get_coeff_at(i).mul(&w.sub(&z));
        let rhs = p.get_coeff_at(i).sub(&y);
        assert!(lhs.equals(&rhs));
    }
}

#[test]
fn proof_at_interior_domain_point() {
    let s = toy_settings();
    let p = Poly::from_coeffs(vec![fr(5), fr(6), fr(7), fr(8)]);
    // A domain point away from index zero, so the singular slot sits in the
    // middle of the quotient.
    let z = s.fs.roots_of_unity[2];
    let (q, y) = compute_kzg_quotient(&p, &z, &s).expect("quotient computation succeeds");
    assert!(y.equals(&fr(7)));
    for i in 0..4 {
        if i == 2 {
            continue;
        }
        let w = s.fs.roots_of_unity[i];
        let lhs = q.get_coeff_at(i).mul(&w.sub(&z));
        let rhs = p.get_coeff_at(i).sub(&y);
        assert!(lhs.equals(&rhs));
    }
}

#[test]
fn hex_decode_accepts_both_cases() {
    let lower = hex_decode(&b"ab0f".to_vec()).unwrap();
    let upper = hex_decode(&b"AB0F".to_vec()).unwrap();
    assert_eq!(lower, vec![0xab, 0x0f]);
    assert_eq!(upper, vec![0xab, 0x0f]);
    assert!(hex_decode(&b"abc".to_vec()).is_none());
    assert!(hex_decode(&b"zz".to_vec()).is_none());
}


fn to_hex(bytes: &[u8]) -> String {
    let mut out = String::new();
    for b in bytes {
        out.push_str(&format!("{:02x}", b));
    }
    out
}

/// A structured toy setup for a known secret: powers of tau times the
/// generators, written out in the file format and run through the loader.
fn structured_settings() -> KZGSettings {
    let g1 = g1_generator().expect("generator accepted");
    let g2 = g2_generator().expect("generator accepted");
    let tau = fr(7);
    let mut text = String::from("4\n2\n");
    let mut power = Fr::one();
    for _ in 0..4 {
        let point = g1_mul(&g1, &bytes_from_bls_field(&power));
        text.push_str(&to_hex(&bytes_from_g1(&point)));
        text.push('\n');
        power = power.mul(&tau);
    }
    let mut power2 = Fr::one();
    for _ in 0..2 {
        let point = g2_mul(&g2, &bytes_from_bls_field(&power2));
        text.push_str(&to_hex(&bytes_from_g2(&point)));
        text.push('\n');
        power2 = power2.mul(&tau);
    }
    load_trusted_setup_from_bytes(text.as_bytes()).expect("structured setup loads")
}

#[test]
fn commitment_on_repeated_generator_is_scalar_sum() {
    let s = toy_settings();
    let blob = vec![fr(1), fr(2), fr(3), fr(4)];
    let c = blob_to_kzg_commitment(&blob, &s).expect("matching lengths commit");
    // Every setup point is the generator, so the combination is the
    // generator times the scalar sum.
    let g = g1_generator().unwrap();
    let expected = g1_mul(&g, &bytes_from_bls_field(&fr(10)));
    assert!(g1_equal(&c, &expected));
    let short = vec![fr(1), fr(2)];
    assert!(blob_to_kzg_commitment(&short, &s).is_none());
}

#[test]
fn commitment_is_linear_in_the_blob() {
    let s = structured_settings();
    let a = vec![fr(1), fr(2), fr(3), fr(4)];
    let b = vec![fr(10), fr(20), fr(30), fr(40)];
    let sum: Vec<Fr> = a.iter().zip(b.iter()).map(|(x, y)| x.add(y)).collect();
    let ca = blob_to_kzg_commitment(&a, &s).unwrap();
    let cb = blob_to_kzg_commitment(&b, &s).unwrap();
    let csum = blob_to_kzg_commitment(&sum, &s).unwrap();
    assert!(g1_equal(&csum, &g1_add(&ca, &cb)));
}

#[test]
fn proof_verifies_on_structured_setup() {
    let s = structured_settings();
    let blob = vec![fr(1), fr(2), fr(3), fr(4)];
    let c = blob_to_kzg_commitment(&blob, &s).unwrap();
    let p = Poly::from_coeffs(blob);
    // Off the domain.
    let z = fr(11);
    let (proof, y) = compute_kzg_proof(&p, &z, &s).expect("proof computation succeeds");
    assert!(verify_kzg_proof(&c, &z, &y, &proof, &s));
    // On the domain, through the removable-singularity branch; the
    // evaluation is the stored value.
    let z0 = s.fs.roots_of_unity[0];
    let (proof0, y0) = compute_kzg_proof(&p, &z0, &s).expect("proof computation succeeds");
    assert!(y0.equals(&fr(1)));
    assert!(verify_kzg_proof(&c, &z0, &y0, &proof0, &s));
}

#[test]
fn tampered_proof_inputs_fail_verification() {
    let s = structured_settings();
    let blob = vec![fr(1), fr(2), fr(3), fr(4)];
    let c = blob_to_kzg_commitment(&blob, &s).unwrap();
    let p = Poly::from_coeffs(blob);
    let z = fr(11);
    let (proof, y) = compute_kzg_proof(&p, &z, &s).expect("proof computation succeeds");
    assert!(verify_kzg_proof(&c, &z, &y, &proof, &s));
    assert!(!verify_kzg_proof(&c, &z, &y.add(&Fr::one()), &proof, &s));
    assert!(!verify_kzg_proof(&c, &z.add(&Fr::one()), &y, &proof, &s));
    let wrong_point = g1_generator().unwrap();
    assert!(!verify_kzg_proof(&wrong_point, &z, &y, &proof, &s));
    assert!(!verify_kzg_proof(&c, &z, &y, &wrong_point, &s));
}

#[test]
fn loader_rejects_non_power_of_two_setup() {
    let text = format!("3\n0\n{}\n{}\n{}\n", G1_GEN_HEX, G1_GEN_HEX, G1_GEN_HEX);
    assert_eq!(
        load_trusted_setup_from_bytes(text.as_bytes()).unwrap_err(),
        LoadError::BadCount,
    );
}

#[test]
fn loader_is_deterministic() {
    let s1 = structured_settings();
    let s2 = structured_settings();
    assert_eq!(s1.secret_g1.len(), s2.secret_g1.len());
    for i in 0..s1.secret_g1.len() {
        assert!(g1_equal(&s1.secret_g1[i], &s2.secret_g1[i]));
    }
}
