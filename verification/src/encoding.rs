//! The canonical 32-byte little-endian form of scalar-field elements.
use vstd::prelude::*;
use vstd::arithmetic::div_mod::*;
use vstd::arithmetic::power::*;
use vstd::arithmetic::power2::*;
use crate::fr::{Fr, fr_p, lemma_fr_val_injective};

verus! {

/// The natural number a little-endian byte string stands for.
pub open spec fn le_val(s: Seq<u8>) -> nat
    decreases s.len(),
{
    if s.len() == 0 {
        0
    } else {
        (s[0] + 256 * le_val(s.subrange(1, s.len() as int))) as nat
    }
}

/// One more power of 256.
proof fn lemma_pow256_unfold(k: nat)
    ensures
        pow(256, (k + 1) as nat) == 256 * pow(256, k),
{
    lemma_pow1(256);
    lemma_pow_adds(256, 1, k);
}

/// Powers of 256 are powers of two.
proof fn lemma_pow256_pow2(k: nat)
    ensures
        pow(256, k) == pow2(8 * k),
{
    lemma2_to64();
    lemma_pow2(8);
    lemma_pow_multiplies(2, 8, k);
    lemma_pow2(8 * k);
    assert(8 * k == (8 as nat) * k);
}

/// A byte string of length `n` stands for a value below `256^n`.
proof fn lemma_le_val_bound(s: Seq<u8>)
    ensures
        le_val(s) < pow(256, s.len()),
    decreases s.len(),
{
    if s.len() == 0 {
        lemma_pow0(256);
    } else {
        let rest = s.subrange(1, s.len() as int);
        lemma_le_val_bound(rest);
        lemma_pow256_unfold(rest.len());
        assert(pow(256, s.len()) == 256 * pow(256, rest.len()));
        assert(s[0] + 256 * le_val(rest) < 256 * pow(256, rest.len())) by (nonlinear_arith)
            requires
                s[0] < 256,
                le_val(rest) < pow(256, rest.len());
    }
}

/// Concatenation splits the value positionally.
proof fn lemma_le_val_concat(a: Seq<u8>, b: Seq<u8>)
    ensures
        le_val(a + b) == le_val(a) + pow(256, a.len()) * le_val(b),
    decreases a.len(),
{
    if a.len() == 0 {
        assert(a + b =~= b);
        lemma_pow0(256);
    } else {
        let arest = a.subrange(1, a.len() as int);
        lemma_le_val_concat(arest, b);
        assert((a + b).subrange(1, (a + b).len() as int) =~= arest + b);
        assert(le_val(a + b) == a[0] + 256 * (le_val(arest) + pow(256, arest.len()) * le_val(b)));
        lemma_pow256_unfold(arest.len());
        assert(pow(256, a.len()) == 256 * pow(256, arest.len()));
        assert(a[0] + 256 * (le_val(arest) + pow(256, arest.len()) * le_val(b))
            == a[0] + 256 * le_val(arest) + (256 * pow(256, arest.len())) * le_val(b))
            by (nonlinear_arith);
    }
}

/// Appending one byte adds it at the top position.
proof fn lemma_le_val_push(s: Seq<u8>, x: u8)
    ensures
        le_val(s.push(x)) == le_val(s) + pow(256, s.len()) * x,
{
    let single = seq![x];
    assert(s.push(x) =~= s + single);
    lemma_le_val_concat(s, single);
    assert(single.subrange(1, 1) =~= Seq::<u8>::empty());
    assert(le_val(single.subrange(1, 1)) == 0);
    assert(le_val(single) == single[0] + 256 * le_val(single.subrange(1, 1)));
    assert(le_val(single) == x);
}

/// Reads one 64-bit word out of eight little-endian bytes.
fn le_word(b: &[u8; 32], k: usize) -> (w: u64)
    requires
        k < 4,
    ensures
        w as nat == le_val(b@.subrange(8 * k as int, 8 * k as int + 8)),
{
    let mut w: u64 = 0;
    let mut j: usize = 8;
    proof {
        assert(b@.subrange(8 * k as int + 8, 8 * k as int + 8) =~= Seq::<u8>::empty());
    }
    while j > 0
        invariant
            j <= 8,
            k < 4,
            w as nat == le_val(b@.subrange(8 * k as int + j, 8 * k as int + 8)),
        decreases j,
    {
        let ghost sub = b@.subrange(8 * k as int + j - 1, 8 * k as int + 8);
        let ghost tail = b@.subrange(8 * k as int + j, 8 * k as int + 8);
        proof {
            lemma_le_val_bound(tail);
            assert(tail.len() == 8 - j);
            lemma_pow256_pow2((8 - j) as nat);
            lemma2_to64();
            lemma2_to64_rest();
            if (8 * (8 - j) as nat) < 56 {
                lemma_pow2_strictly_increases(8 * (8 - j) as nat, 56);
            }
            assert(pow2(8 * (8 - j) as nat) <= pow2(56));
            assert((w as nat) < pow2(56));
            assert(sub.subrange(1, sub.len() as int) =~= tail);
            assert(le_val(sub) == sub[0] + 256 * le_val(tail));
        }
        w = w * 256 + b[8 * k + j - 1] as u64;
        j = j - 1;
        proof {
            assert(sub[0] == b@[8 * k as int + j]);
            assert(w as nat == le_val(b@.subrange(8 * k as int + j, 8 * k as int + 8)));
        }
    }
    proof {
        assert(b@.subrange(8 * k as int, 8 * k as int + 8)
            =~= b@.subrange(8 * k as int + 0, 8 * k as int + 8));
    }
    w
}

/// Parses the canonical 32-byte little-endian form; rejects values at or
/// above the field's prime.
pub fn bytes_to_bls_field(bytes: &[u8; 32]) -> (r: Option<Fr>)
    ensures
        le_val(bytes@) < fr_p() ==> (r matches Some(x) && x.valid() && x.val() == le_val(bytes@)),
        le_val(bytes@) >= fr_p() ==> r is None,
{
    let w0 = le_word(bytes, 0);
    let w1 = le_word(bytes, 1);
    let w2 = le_word(bytes, 2);
    let w3 = le_word(bytes, 3);
    let x = Fr { l0: w0, l1: w1, l2: w2, l3: w3 };
    proof {
        let s = bytes@;
        let a = s.subrange(0, 8);
        let bpart = s.subrange(8, 16);
        let c = s.subrange(16, 24);
        let d = s.subrange(24, 32);
        assert(s =~= (a + bpart) + (c + d));
        lemma_le_val_concat(a, bpart);
        lemma_le_val_concat(c, d);
        lemma_le_val_concat(a + bpart, c + d);
        lemma_pow256_pow2(8);
        lemma_pow256_pow2(16);
        lemma2_to64();
        lemma_pow2_adds(64, 64);
        assert(pow2(128) == 0x100000000000000000000000000000000nat);
        assert(le_val(s) == le_val(a) + pow2(64) * le_val(bpart)
            + pow2(128) * (le_val(c) + pow2(64) * le_val(d)));
        assert(le_val(s) == (w0 as nat) + (w1 as nat) * 0x10000000000000000
            + (w2 as nat) * 0x100000000000000000000000000000000nat
            + (w3 as nat) * 0x1000000000000000000000000000000000000000000000000nat)
            by (nonlinear_arith)
            requires
                le_val(s) == le_val(a) + pow2(64) * le_val(bpart)
                    + pow2(128) * (le_val(c) + pow2(64) * le_val(d)),
                le_val(a) == w0 as nat,
                le_val(bpart) == w1 as nat,
                le_val(c) == w2 as nat,
                le_val(d) == w3 as nat,
                pow2(64) == 0x10000000000000000,
                pow2(128) == 0x100000000000000000000000000000000nat;
        assert(x.val() == le_val(bytes@));
    }
    let p = crate::fr::p_limbs();
    if crate::fr::ge_limbs(&x, &p) {
        None
    } else {
        Some(x)
    }
}

/// The eight little-endian bytes of one word, by digit position.
#[verifier::opaque]
pub open spec fn word_le8(w: u64) -> Seq<u8> {
    Seq::new(8, |j: int| (((w as nat) / (pow(256, j as nat) as nat)) % 256) as u8)
}

/// The canonical 32-byte little-endian form of an element, limb by limb.
#[verifier::opaque]
pub open spec fn fr_le32(x: Fr) -> Seq<u8> {
    word_le8(x.l0) + word_le8(x.l1) + word_le8(x.l2) + word_le8(x.l3)
}

/// Emits one 64-bit word as eight little-endian bytes.
fn word_bytes(w: u64) -> (r: Vec<u8>)
    ensures
        r@.len() == 8,
        le_val(r@) == w as nat,
        r@ == word_le8(w),
{
    proof {
        reveal(word_le8);
    }
    let mut r: Vec<u8> = Vec::new();
    let mut rem: u64 = w;
    let mut j: usize = 0;
    proof {
        lemma_pow0(256);
        lemma_div_basics(w as int);
    }
    while j < 8
        invariant
            j <= 8,
            r@.len() == j,
            le_val(r@) + rem as nat * pow(256, j as nat) == w as nat,
            rem as nat == (w as nat) / (pow(256, j as nat) as nat),
            forall|t: int| 0 <= t < j
                ==> #[trigger] r@[t] == (((w as nat) / (pow(256, t as nat) as nat)) % 256) as u8,
        decreases 8 - j,
    {
        let byte: u8 = (rem % 256) as u8;
        let ghost oldr = r@;
        let ghost oldrem = rem as nat;
        r.push(byte);
        rem = rem / 256;
        j = j + 1;
        proof {
            lemma_le_val_push(oldr, byte);
            lemma_fundamental_div_mod(oldrem as int, 256);
            lemma_pow256_unfold((j - 1) as nat);
            assert(le_val(r@) == le_val(oldr) + pow(256, (j - 1) as nat) * byte);
            assert(oldrem == 256 * (oldrem / 256) + byte);
            assert(rem as nat == oldrem / 256);
            assert(le_val(oldr) + pow(256, (j - 1) as nat) * byte
                + (oldrem / 256) * pow(256, j as nat)
                == le_val(oldr) + oldrem * pow(256, (j - 1) as nat)) by (nonlinear_arith)
                requires
                    oldrem == 256 * (oldrem / 256) + byte,
                    pow(256, j as nat) == 256 * pow(256, (j - 1) as nat);
            // The new digit and remainder track the positional decomposition.
            lemma_pow_positive(256, (j - 1) as nat);
            assert((w as nat) / (pow(256, j as nat) as nat)
                == ((w as nat) / (pow(256, (j - 1) as nat) as nat)) / 256) by {
                lemma_pow1(256);
                lemma_pow_adds(256, (j - 1) as nat, 1);
                lemma_div_denominator(w as int, pow(256, (j - 1) as nat), 256);
            }
            assert(byte == (((w as nat) / (pow(256, (j - 1) as nat) as nat)) % 256) as u8);
        }
    }
    proof {
        if rem >= 1 {
            lemma_pow256_pow2(8);
            lemma2_to64();
            assert(rem as nat * pow(256, 8) >= pow(256, 8)) by (nonlinear_arith)
                requires rem >= 1, pow(256, 8) > 0;
        }
        assert(rem == 0);
        assert((0 as nat) * pow(256, 8) == 0) by (nonlinear_arith);
    }
    r
}

/// Writes the canonical 32-byte little-endian form of a reduced element.
pub fn bytes_from_bls_field(fr: &Fr) -> (r: Vec<u8>)
    requires
        fr.valid(),
    ensures
        r@.len() == 32,
        le_val(r@) == fr.val(),
        r@ == fr_le32(*fr),
{
    let mut r = word_bytes(fr.l0);
    let mut r1 = word_bytes(fr.l1);
    let mut r2 = word_bytes(fr.l2);
    let mut r3 = word_bytes(fr.l3);
    let ghost s0 = r@;
    let ghost s1 = r1@;
    let ghost s2 = r2@;
    let ghost s3 = r3@;
    r.append(&mut r1);
    r.append(&mut r2);
    r.append(&mut r3);
    proof {
        assert(r@ =~= ((s0 + s1) + s2) + s3);
        lemma_le_val_concat(s0, s1);
        lemma_le_val_concat(s0 + s1, s2);
        lemma_le_val_concat((s0 + s1) + s2, s3);
        lemma_pow256_pow2(8);
        lemma_pow256_pow2(16);
        lemma_pow256_pow2(24);
        lemma2_to64();
        lemma_pow2_adds(64, 64);
        lemma_pow2_adds(128, 64);
        assert(pow2(128) == 0x100000000000000000000000000000000nat);
        assert(pow2(192) == 0x1000000000000000000000000000000000000000000000000nat);
        assert(r@ =~= fr_le32(*fr)) by {
            reveal(fr_le32);
        }
        assert(le_val(r@) == (fr.l0 as nat) + (fr.l1 as nat) * 0x10000000000000000
            + (fr.l2 as nat) * 0x100000000000000000000000000000000nat
            + (fr.l3 as nat) * 0x1000000000000000000000000000000000000000000000000nat)
            by (nonlinear_arith)
            requires
                le_val(r@) == le_val(s0) + pow2(64) * le_val(s1)
                    + pow2(128) * le_val(s2) + pow2(192) * le_val(s3),
                le_val(s0) == fr.l0 as nat,
                le_val(s1) == fr.l1 as nat,
                le_val(s2) == fr.l2 as nat,
                le_val(s3) == fr.l3 as nat,
                pow2(64) == 0x10000000000000000,
                pow2(128) == 0x100000000000000000000000000000000nat,
                pow2(192) == 0x1000000000000000000000000000000000000000000000000nat;
    }
    r
}

/// Parsing undoes writing: the canonical form is a faithful round trip for
/// every reduced element.
pub proof fn lemma_field_bytes_round_trip(x: Fr, b: Seq<u8>, y: Fr)
    requires
        x.valid(),
        b.len() == 32,
        le_val(b) == x.val(),
        y.val() == le_val(b),
    ensures
        y == x,
{
    lemma_fr_val_injective(x, y);
}

} // verus!
