//! The commitment engine's scalar-side helpers and algorithms.
use vstd::prelude::*;
use vstd::arithmetic::div_mod::*;
use vstd::arithmetic::power::*;
use vstd::arithmetic::power2::*;
use crate::fr::{Fr, fr_p, fr_from_val, fr_invertible, lemma_cancel_inverse, lemma_fr_from_val_id};
use crate::fft::FFTSettings;
use crate::points::{G1, G2, g1_add, g1_mul, g2_add, g2_mul, pairing_eq, g1_identity,
    g1_identity_enc, g1_generator, g1_add_of, g1_mul_of, g2_add_of, g2_mul_of,
    pairing_eq_of, g1_encoding_valid, G1_GENERATOR_BYTES};
use crate::poly::Poly;
use crate::encoding::{bytes_from_bls_field, fr_le32};
use crate::batch::{fr_batch_inv, prod_mod};

verus! {

/// Successive powers of a base, reduced at each step.
pub fn compute_powers(base: &Fr, num_powers: usize) -> (r: Vec<Fr>)
    requires
        base.valid(),
    ensures
        r.len() == num_powers,
        forall|i: int| 0 <= i < num_powers
            ==> r[i].valid()
                && r[i].val() as int == pow(base.val() as int, i as nat) % (fr_p() as int),
{
    let mut powers: Vec<Fr> = Vec::new();
    if num_powers == 0 {
        return powers;
    }
    powers.push(Fr::one());
    proof {
        lemma_pow0(base.val() as int);
        lemma_small_mod(1, fr_p());
    }
    let mut i: usize = 1;
    while i < num_powers
        invariant
            1 <= i <= num_powers,
            base.valid(),
            powers.len() == i,
            forall|j: int| 0 <= j < i
                ==> powers[j].valid()
                    && powers[j].val() as int == pow(base.val() as int, j as nat) % (fr_p() as int),
        decreases num_powers - i,
    {
        let t = powers[i - 1].mul(base);
        proof {
            let b: int = base.val() as int;
            let pi: int = fr_p() as int;
            lemma_mul_mod_noop_left(pow(b, (i - 1) as nat), b, pi);
            lemma_pow1(b);
            lemma_pow_adds(b, (i - 1) as nat, 1);
            assert(pow(b, (i - 1) as nat) * pow(b, 1) == pow(b, i as nat));
        }
        powers.push(t);
        i = i + 1;
    }
    powers
}

/// The value at slot `j` of a linear combination of `k` stacked rows: each
/// step adds scalar `i` times entry `i * m + j`, reduced as the loop does it.
pub open spec fn lincomb_val(vectors: Seq<Fr>, scalars: Seq<Fr>, m: int, j: int, k: int) -> nat
    decreases k,
{
    if k <= 0 {
        0
    } else {
        (lincomb_val(vectors, scalars, m, j, k - 1)
            + (scalars[k - 1].val() * vectors[(k - 1) * m + j].val()) % fr_p()) % fr_p()
    }
}

/// Linear combination of `n` stacked rows of length `m` with one scalar for
/// each row.
pub fn vector_lincomb(vectors: &Vec<Fr>, scalars: &Vec<Fr>, n: usize, m: usize) -> (r: Vec<Fr>)
    requires
        vectors.len() >= n * m,
        scalars.len() >= n,
        forall|i: int| 0 <= i < vectors.len() ==> vectors[i].valid(),
        forall|i: int| 0 <= i < scalars.len() ==> scalars[i].valid(),
    ensures
        r.len() == m,
        forall|j: int| 0 <= j < m
            ==> (#[trigger] r[j]).valid()
                && r[j].val() == lincomb_val(vectors@, scalars@, m as int, j, n as int),
{
    let mut out: Vec<Fr> = Vec::new();
    let mut j0: usize = 0;
    while j0 < m
        invariant
            j0 <= m,
            out.len() == j0,
            forall|j: int| 0 <= j < j0 ==> out[j].valid() && out[j].val() == 0,
        decreases m - j0,
    {
        out.push(Fr::zero());
        j0 = j0 + 1;
    }
    let mut i: usize = 0;
    while i < n
        invariant
            i <= n,
            out.len() == m,
            vectors.len() >= n * m,
            scalars.len() >= n,
            forall|t: int| 0 <= t < vectors.len() ==> vectors[t].valid(),
            forall|t: int| 0 <= t < scalars.len() ==> scalars[t].valid(),
            forall|j: int| 0 <= j < m
                ==> (#[trigger] out[j]).valid()
                    && out[j].val() == lincomb_val(vectors@, scalars@, m as int, j, i as int),
        decreases n - i,
    {
        let mut newout: Vec<Fr> = Vec::new();
        let mut j: usize = 0;
        while j < m
            invariant
                j <= m,
                i < n,
                out.len() == m,
                vectors.len() >= n * m,
                scalars.len() >= n,
                forall|t: int| 0 <= t < vectors.len() ==> vectors[t].valid(),
                forall|t: int| 0 <= t < scalars.len() ==> scalars[t].valid(),
                forall|t: int| 0 <= t < m
                    ==> (#[trigger] out[t]).valid()
                        && out[t].val() == lincomb_val(vectors@, scalars@, m as int, t, i as int),
                newout.len() == j,
                forall|t: int| 0 <= t < j
                    ==> (#[trigger] newout[t]).valid()
                        && newout[t].val()
                            == lincomb_val(vectors@, scalars@, m as int, t, i as int + 1),
            decreases m - j,
        {
            proof {
                assert(i * m + j < n * m) by (nonlinear_arith)
                    requires i < n, j < m, 0 <= i, 0 <= j, 0 <= m;
                assert((i as int) * (m as int) + j == (i as int) * (m as int) + (j as int));
            }
            let tmp = scalars[i].mul(&vectors[i * m + j]);
            let v = out[j].add(&tmp);
            proof {
                lemma_mod_bound((out[j as int].val() + tmp.val()) as int, fr_p() as int);
                let ki: int = i as int + 1;
                assert(lincomb_val(vectors@, scalars@, m as int, j as int, ki)
                    == (lincomb_val(vectors@, scalars@, m as int, j as int, ki - 1)
                        + (scalars@[ki - 1].val()
                            * vectors@[(ki - 1) * (m as int) + j].val()) % fr_p()) % fr_p());
                assert(v.val() == lincomb_val(vectors@, scalars@, m as int, j as int, ki));
            }
            newout.push(v);
            j = j + 1;
        }
        out = newout;
        i = i + 1;
    }
    out
}

/// The structured reference string in evaluation basis, with the domain it
/// was sized for; read-only once loaded.
#[derive(Debug)]
pub struct KZGSettings {
    pub secret_g1: Vec<G1>,
    pub secret_g2: Vec<G2>,
    pub fs: FFTSettings,
}

impl KZGSettings {
    /// Every held point is valid and the domain table is complete.
    pub open spec fn wf(&self) -> bool {
        &&& self.fs.wf()
        &&& forall|i: int| 0 <= i < self.secret_g1.len()
            ==> (#[trigger] self.secret_g1[i]).wf()
        &&& forall|i: int| 0 <= i < self.secret_g2.len()
            ==> (#[trigger] self.secret_g2[i]).wf()
    }
}

/// The differences `x - w_i`, reduced and decomposed, whose batched
/// inversion drives the barycentric formula.
pub open spec fn eval_diffs(x: Fr, roots: Seq<Fr>) -> Seq<Fr> {
    Seq::new(roots.len(),
        |j: int| fr_from_val(((x.val() + fr_p() - roots[j].val()) % (fr_p() as int)) as nat))
}

/// The differences `w_i - x`, reduced and decomposed, whose batched
/// inversion drives the quotient away from the domain.
pub open spec fn quot_diffs(x: Fr, roots: Seq<Fr>) -> Seq<Fr> {
    Seq::new(roots.len(),
        |j: int| fr_from_val(((roots[j].val() + fr_p() - x.val()) % (fr_p() as int)) as nat))
}

/// When the query point lands on the domain, the quotient's slot at the
/// first coinciding index is the removable-singularity limit, witnessed by
/// certified inverses of `x * (x - w_i)` over the other indices.
#[verifier::opaque]
pub open spec fn singular_slot_ok(q: Seq<Fr>, y: Fr, x: Fr, roots: Seq<Fr>, coeffs: Seq<Fr>)
    -> bool
{
    (exists|i: int| 0 <= i < roots.len() && (#[trigger] roots[i]).val() == x.val())
        ==> exists|m2: int, invs2: Seq<Fr>|
            {
                &&& 0 <= m2 < roots.len()
                &&& (#[trigger] roots[m2]).val() == x.val()
                &&& forall|j: int| 0 <= j < m2
                    ==> (#[trigger] roots[j]).val() != x.val()
                &&& invs2.len() == roots.len()
                &&& forall|i: int| 0 <= i < invs2.len() && i != m2
                    ==> (#[trigger] invs2[i]).valid()
                        && (invs2[i].val() * sing_denom(x, roots[i])) % fr_p() == 1
                &&& q[m2].val() == #[trigger] sing_sum(coeffs, roots, invs2,
                    y.val(), m2, roots.len() as int)
            }
}

/// Only one domain index can be the first to coincide with the query point.
proof fn lemma_first_hit_unique(s: &KZGSettings, x: Fr, m: int)
    requires
        0 <= m < s.fs.roots_of_unity.len(),
        s.fs.roots_of_unity[m].val() == x.val(),
        forall|j: int| 0 <= j < m ==> (#[trigger] s.fs.roots_of_unity[j]).val() != x.val(),
    ensures
        forall|m2: int| 0 <= m2 < s.fs.roots_of_unity.len()
            && (#[trigger] s.fs.roots_of_unity[m2]).val() == x.val()
            && (forall|j: int| 0 <= j < m2
                ==> (#[trigger] s.fs.roots_of_unity[j]).val() != x.val())
            ==> m2 == m,
{
}

/// A copy of a sequence with the one slot replaced by the unit element.
pub open spec fn with_unit_slot(s: Seq<Fr>, m: int) -> Seq<Fr> {
    Seq::new(s.len(), |j: int| if j == m { fr_from_val(1) } else { s[j] })
}

/// The removable-singularity denominators `x * (x - w_i)`, reduced and
/// decomposed.
pub open spec fn sing_denoms(x: Fr, roots: Seq<Fr>) -> Seq<Fr> {
    Seq::new(roots.len(), |j: int| fr_from_val(sing_denom(x, roots[j])))
}

/// The reduced value of `x^n - 1`.
pub open spec fn xn_minus_one(x: nat, n: nat) -> nat {
    (((pow(x as int, n) % (fr_p() as int)) + fr_p() - 1) % (fr_p() as int)) as nat
}

/// The barycentric accumulator after `k` domain points: each step adds
/// `inv(x - w_i) * w_i * p_i`, reduced as the loop reduces.
pub open spec fn bary_sum(coeffs: Seq<Fr>, roots: Seq<Fr>, invs: Seq<Fr>, k: int) -> nat
    decreases k,
{
    if k <= 0 {
        0
    } else {
        (bary_sum(coeffs, roots, invs, k - 1)
            + ((invs[k - 1].val() * roots[k - 1].val()) % fr_p() * coeffs[k - 1].val()) % fr_p())
            % fr_p()
    }
}

/// Evaluates a polynomial given in evaluation form over the bit-reversed
/// domain at an arbitrary point, by the barycentric formula; at a domain
/// point the stored evaluation is returned exactly.
pub fn evaluate_polynomial_in_evaluation_form(p: &Poly, x: &Fr, s: &KZGSettings)
    -> (r: Option<Fr>)
    requires
        p.wf(),
        x.valid(),
        s.wf(),
        p.coeffs.len() == s.fs.roots_of_unity.len(),
    ensures
        r matches Some(y) ==> y.valid(),
        (exists|i: int| 0 <= i < s.fs.roots_of_unity.len()
            && (#[trigger] s.fs.roots_of_unity[i]).val() == x.val())
            ==> (r matches Some(y) && exists|i: int|
                {
                    &&& 0 <= i < s.fs.roots_of_unity.len()
                    &&& (#[trigger] s.fs.roots_of_unity[i]).val() == x.val()
                    &&& y == p.coeffs[i]
                    &&& forall|j: int| 0 <= j < i
                        ==> (#[trigger] s.fs.roots_of_unity[j]).val() != x.val()
                }),
        (r is Some) == ((exists|i: int| 0 <= i < s.fs.roots_of_unity.len()
            && (#[trigger] s.fs.roots_of_unity[i]).val() == x.val())
            || (fr_invertible(prod_mod(eval_diffs(*x, s.fs.roots_of_unity@),
                    s.fs.roots_of_unity.len() - 1))
                && fr_invertible(p.coeffs.len() as nat))),
        ((forall|i: int| 0 <= i < s.fs.roots_of_unity.len()
            ==> (#[trigger] s.fs.roots_of_unity[i]).val() != x.val()) && r is Some)
            ==> exists|invs: Seq<Fr>|
                #[trigger] invs.len() == s.fs.roots_of_unity.len()
                && (forall|i: int| 0 <= i < invs.len()
                    ==> (#[trigger] invs[i]).valid()
                        && (invs[i].val()
                            * ((x.val() + fr_p() - s.fs.roots_of_unity[i].val()) % (fr_p() as int)))
                            % (fr_p() as int) == 1)
                && (r->Some_0.val() * (p.coeffs.len() as nat)) % fr_p()
                    == (bary_sum(p.coeffs@, s.fs.roots_of_unity@, invs, p.coeffs.len() as int)
                        * xn_minus_one(x.val(), p.coeffs.len() as nat)) % fr_p(),
{
    let n = p.len();
    proof {
        lemma_pow2_pos(s.fs.max_scale as nat);
        crate::fft::lemma_roots_valid(&s.fs);
    }
    let mut i: usize = 0;
    while i < n
        invariant
            i <= n,
            n == p.coeffs.len(),
            p.wf(),
            x.valid(),
            s.wf(),
            n == s.fs.roots_of_unity.len(),
            forall|j: int| 0 <= j < i
                ==> (#[trigger] s.fs.roots_of_unity[j]).val() != x.val(),
        decreases n - i,
    {
        if x.equals(&s.fs.roots_of_unity[i]) {
            return Some(p.get_coeff_at(i));
        }
        i = i + 1;
    }
    let mut inverses_in: Vec<Fr> = Vec::new();
    let mut i2: usize = 0;
    while i2 < n
        invariant
            i2 <= n,
            n == p.coeffs.len(),
            p.wf(),
            x.valid(),
            s.wf(),
            n == s.fs.roots_of_unity.len(),
            forall|j: int| 0 <= j < n ==> (#[trigger] s.fs.roots_of_unity[j]).valid(),
            inverses_in.len() == i2,
            forall|j: int| 0 <= j < i2
                ==> (#[trigger] inverses_in[j]).valid()
                    && inverses_in[j].val()
                        == (x.val() + fr_p() - s.fs.roots_of_unity[j].val()) % (fr_p() as int),
            forall|j: int| 0 <= j < i2
                ==> (#[trigger] inverses_in@[j]) == eval_diffs(*x, s.fs.roots_of_unity@)[j],
        decreases n - i2,
    {
        let d = x.sub(&s.fs.roots_of_unity[i2]);
        proof {
            lemma_fr_from_val_id(d);
        }
        inverses_in.push(d);
        i2 = i2 + 1;
    }
    proof {
        assert(n >= 1);
        assert(inverses_in@ =~= eval_diffs(*x, s.fs.roots_of_unity@));
    }
    let inverses = match fr_batch_inv(&inverses_in) {
        None => {
            return None;
        },
        Some(v) => v,
    };
    let mut out = Fr::zero();
    let mut i3: usize = 0;
    while i3 < n
        invariant
            i3 <= n,
            n == p.coeffs.len(),
            p.wf(),
            x.valid(),
            s.wf(),
            n == s.fs.roots_of_unity.len(),
            forall|j: int| 0 <= j < n ==> (#[trigger] s.fs.roots_of_unity[j]).valid(),
            inverses.len() == n,
            forall|j: int| 0 <= j < n ==> (#[trigger] inverses[j]).valid(),
            out.valid(),
            out.val() == bary_sum(p.coeffs@, s.fs.roots_of_unity@, inverses@, i3 as int),
        decreases n - i3,
    {
        let t1 = inverses[i3].mul(&s.fs.roots_of_unity[i3]);
        let t2 = t1.mul(&p.coeffs[i3]);
        let newout = out.add(&t2);
        proof {
            let k: int = i3 as int + 1;
            assert(bary_sum(p.coeffs@, s.fs.roots_of_unity@, inverses@, k)
                == (bary_sum(p.coeffs@, s.fs.roots_of_unity@, inverses@, k - 1)
                    + ((inverses@[k - 1].val() * s.fs.roots_of_unity@[k - 1].val()) % fr_p()
                        * p.coeffs@[k - 1].val()) % fr_p()) % fr_p());
        }
        out = newout;
        i3 = i3 + 1;
    }
    let nfr = Fr::from_u64(n as u64);
    let t = match out.div(&nfr) {
        None => {
            return None;
        },
        Some(v) => v,
    };
    let xn = x.pow(n as u64);
    let xm = xn.sub(&Fr::one());
    let y = t.mul(&xm);
    proof {
        let pi: int = fr_p() as int;
        let sum: nat = out.val();
        // y * n == sum * (x^n - 1), all modulo the prime.
        lemma_mul_mod_noop_left((t.val() * xm.val()) as int, n as int, pi);
        assert((t.val() * xm.val()) * n == (t.val() * n) * xm.val()) by (nonlinear_arith);
        lemma_mul_mod_noop_left((t.val() * n) as int, xm.val() as int, pi);
        assert(((t.val() * n) % pi * xm.val()) % pi == ((sum * xm.val()) as int) % pi);
        assert(xm.val() == xn_minus_one(x.val(), n as nat));
    }
    Some(y)
}

/// The removable-singularity accumulator after `k` domain points, skipping
/// the singular index `m`: each other step adds
/// `(p_i - y) * w_i * inv(x * (x - w_i))`, reduced as the loop reduces.
pub open spec fn sing_sum(coeffs: Seq<Fr>, roots: Seq<Fr>, invs: Seq<Fr>, y: nat, m: int, k: int)
    -> nat
    decreases k,
{
    if k <= 0 {
        0
    } else if k - 1 == m {
        sing_sum(coeffs, roots, invs, y, m, k - 1)
    } else {
        (sing_sum(coeffs, roots, invs, y, m, k - 1)
            + ((((coeffs[k - 1].val() + fr_p() - y) % (fr_p() as int)) as nat
                * roots[k - 1].val()) % fr_p()
                * invs[k - 1].val()) % fr_p()) % fr_p()
    }
}

/// The reduced denominator `x * (x - w)` of one removable-singularity term.
#[verifier::opaque]
pub open spec fn sing_denom(x: Fr, w: Fr) -> nat {
    (((x.val() + fr_p() - w.val()) % (fr_p() as int)) as nat * x.val()) % fr_p()
}

/// The quotient relation at one index: `q_i * (w_i - x) == p_i - y`, reduced.
pub open spec fn quot_rel(qi: Fr, w: Fr, x: Fr, pi: Fr, y: Fr) -> bool {
    ((qi.val() * ((w.val() + fr_p() - x.val()) % (fr_p() as int))) as int) % (fr_p() as int)
        == (pi.val() + fr_p() - y.val()) % (fr_p() as int)
}

/// The removable-singularity slot: rebuilds the quotient with the limit
/// value at the first domain index that coincides with `x`.
#[verifier::rlimit(100)]
#[verifier::spinoff_prover]
fn singular_quotient(p: &Poly, x: &Fr, s: &KZGSettings, y: &Fr, m: usize, q: &Vec<Fr>,
    dens: &Vec<Fr>) -> (r: Option<Vec<Fr>>)
    requires
        p.wf(),
        x.valid(),
        y.valid(),
        s.wf(),
        p.coeffs.len() == s.fs.roots_of_unity.len(),
        forall|j: int| 0 <= j < p.coeffs.len() ==> (#[trigger] s.fs.roots_of_unity[j]).valid(),
        m < p.coeffs.len(),
        s.fs.roots_of_unity[m as int].val() == x.val(),
        forall|j: int| 0 <= j < m ==> (#[trigger] s.fs.roots_of_unity[j]).val() != x.val(),
        q.len() == p.coeffs.len(),
        forall|j: int| 0 <= j < q.len() ==> (#[trigger] q[j]).valid(),
        dens.len() == p.coeffs.len(),
        forall|j: int| 0 <= j < q.len() && !(j == m)
            ==> (((#[trigger] q[j]).val() * dens[j].val()) as int) % (fr_p() as int)
                == (p.coeffs[j].val() + fr_p() - y.val()) % (fr_p() as int),
        forall|j: int| 0 <= j < dens.len() && !(j == m)
            ==> (#[trigger] dens[j]).val()
                == (s.fs.roots_of_unity[j].val() + fr_p() - x.val()) % (fr_p() as int),
    ensures
        (r is Some) == fr_invertible(prod_mod(
            with_unit_slot(sing_denoms(*x, s.fs.roots_of_unity@), m as int),
            p.coeffs.len() - 1)),
        r matches Some(q2) ==> {
            &&& q2.len() == p.coeffs.len()
            &&& forall|j: int| 0 <= j < q2.len() ==> (#[trigger] q2[j]).valid()
            &&& forall|j: int| 0 <= j < q2.len()
                    && (#[trigger] s.fs.roots_of_unity[j]).val() != x.val()
                ==> quot_rel(q2[j], s.fs.roots_of_unity[j], *x, p.coeffs[j], *y)
            &&& singular_slot_ok(q2@, *y, *x, s.fs.roots_of_unity@, p.coeffs@)
        },
{
    let n = p.len();
    // Denominators x * (x - w_i) for the other indices; a harmless filler at
    // the singular slot keeps the batched inversion total.
    let mut dens2: Vec<Fr> = Vec::new();
    let mut i4: usize = 0;
    while i4 < n
        invariant
            i4 <= n,
            n == p.coeffs.len(),
            x.valid(),
            s.wf(),
            n == s.fs.roots_of_unity.len(),
            forall|j: int| 0 <= j < n ==> (#[trigger] s.fs.roots_of_unity[j]).valid(),
            dens2.len() == i4,
            forall|j: int| 0 <= j < i4 ==> (#[trigger] dens2[j]).valid(),
            forall|j: int| 0 <= j < i4 && j != m
                ==> (#[trigger] dens2[j]).val() == sing_denom(*x, s.fs.roots_of_unity[j]),
            forall|j: int| 0 <= j < i4
                ==> (#[trigger] dens2@[j])
                    == with_unit_slot(sing_denoms(*x, s.fs.roots_of_unity@), m as int)[j],
        decreases n - i4,
    {
        if i4 == m {
            let one = Fr::one();
            proof {
                lemma_fr_from_val_id(one);
            }
            dens2.push(one);
        } else {
            let t = x.sub(&s.fs.roots_of_unity[i4]);
            let d = t.mul(x);
            proof {
                assert(d.val() == sing_denom(*x, s.fs.roots_of_unity[i4 as int])) by {
                    reveal(sing_denom);
                }
                lemma_fr_from_val_id(d);
            }
            dens2.push(d);
        }
        i4 = i4 + 1;
    }
    proof {
        assert(dens2@ =~= with_unit_slot(sing_denoms(*x, s.fs.roots_of_unity@), m as int));
    }
    let invs2 = match fr_batch_inv(&dens2) {
        None => {
            return None;
        },
        Some(v) => v,
    };
    let acc = singular_accumulate(p, x, s, y, m, &invs2);
    let q2 = replace_slot(q, m, &acc);
    proof {
        assert forall|j: int| 0 <= j < n
                && (#[trigger] s.fs.roots_of_unity[j]).val() != x.val()
            implies quot_rel(q2@[j], s.fs.roots_of_unity[j], *x, p.coeffs[j], *y) by {
            assert(j != m as int);
            assert(q2@[j] == q@[j]);
        }
        let roots = s.fs.roots_of_unity;
        let w2 = invs2@;
        assert(q2@[m as int].val()
            == sing_sum(p.coeffs@, roots@, w2, y.val(), m as int, n as int));
        assert forall|i7: int| 0 <= i7 < w2.len() && i7 != m as int
            implies (#[trigger] w2[i7]).valid()
                && (w2[i7].val() * sing_denom(*x, roots[i7])) % fr_p() == 1 by {
            assert((invs2@[i7].val() * dens2@[i7].val()) % fr_p() == 1);
        }
        assert(singular_slot_ok(q2@, *y, *x, roots@, p.coeffs@)) by {
            reveal(singular_slot_ok);
        }
    }
    Some(q2)
}

/// The removable-singularity accumulation: the reduced sum of
/// `(p_i - y) * w_i * inv_i` over every index but the singular one.
fn singular_accumulate(p: &Poly, x: &Fr, s: &KZGSettings, y: &Fr, m: usize, invs2: &Vec<Fr>)
    -> (acc: Fr)
    requires
        p.wf(),
        y.valid(),
        s.wf(),
        p.coeffs.len() == s.fs.roots_of_unity.len(),
        forall|j: int| 0 <= j < p.coeffs.len() ==> (#[trigger] s.fs.roots_of_unity[j]).valid(),
        m < p.coeffs.len(),
        invs2.len() == p.coeffs.len(),
        forall|j: int| 0 <= j < invs2.len() ==> (#[trigger] invs2[j]).valid(),
    ensures
        acc.valid(),
        acc.val() == sing_sum(p.coeffs@, s.fs.roots_of_unity@, invs2@, y.val(), m as int,
            p.coeffs.len() as int),
{
    let n = p.len();
    let mut acc = Fr::zero();
    let mut i5: usize = 0;
    while i5 < n
        invariant
            i5 <= n,
            n == p.coeffs.len(),
            p.wf(),
            y.valid(),
            s.wf(),
            m < n,
            n == s.fs.roots_of_unity.len(),
            forall|j: int| 0 <= j < n ==> (#[trigger] s.fs.roots_of_unity[j]).valid(),
            invs2.len() == n,
            forall|j: int| 0 <= j < n ==> (#[trigger] invs2[j]).valid(),
            acc.valid(),
            acc.val() == sing_sum(p.coeffs@, s.fs.roots_of_unity@, invs2@, y.val(),
                m as int, i5 as int),
        decreases n - i5,
    {
        proof {
            let k: int = i5 as int + 1;
            assert(sing_sum(p.coeffs@, s.fs.roots_of_unity@, invs2@, y.val(), m as int, k)
                == if k - 1 == m as int {
                    sing_sum(p.coeffs@, s.fs.roots_of_unity@, invs2@, y.val(), m as int, k - 1)
                } else {
                    (sing_sum(p.coeffs@, s.fs.roots_of_unity@, invs2@, y.val(), m as int,
                        k - 1)
                        + ((((p.coeffs@[k - 1].val() + fr_p() - y.val()) % (fr_p() as int))
                            as nat
                            * s.fs.roots_of_unity@[k - 1].val()) % fr_p()
                            * invs2@[k - 1].val()) % fr_p()) % fr_p()
                });
        }
        if i5 != m {
            let t1 = p.coeffs[i5].sub(y);
            let t2 = t1.mul(&s.fs.roots_of_unity[i5]);
            let t3 = t2.mul(&invs2[i5]);
            acc = acc.add(&t3);
        }
        i5 = i5 + 1;
    }
    acc
}

/// A copy of a coefficient vector with one slot replaced.
fn replace_slot(q: &Vec<Fr>, m: usize, v: &Fr) -> (r: Vec<Fr>)
    requires
        m < q.len(),
        forall|j: int| 0 <= j < q.len() ==> (#[trigger] q[j]).valid(),
        v.valid(),
    ensures
        r.len() == q.len(),
        forall|j: int| 0 <= j < r.len() ==> (#[trigger] r[j]).valid(),
        forall|j: int| 0 <= j < r.len() && j != m ==> (#[trigger] r@[j]) == q@[j],
        r@[m as int] == *v,
{
    let n = q.len();
    let mut r: Vec<Fr> = Vec::new();
    let mut i: usize = 0;
    while i < n
        invariant
            i <= n,
            n == q.len(),
            m < n,
            forall|j: int| 0 <= j < n ==> (#[trigger] q[j]).valid(),
            v.valid(),
            r.len() == i,
            forall|j: int| 0 <= j < i ==> (#[trigger] r[j]).valid(),
            forall|j: int| 0 <= j < i && j != m ==> (#[trigger] r@[j]) == q@[j],
            forall|j: int| 0 <= j < i && j == m ==> (#[trigger] r@[j]) == *v,
        decreases n - i,
    {
        if i == m {
            r.push(*v);
        } else {
            r.push(q[i]);
        }
        i = i + 1;
    }
    r
}

/// Computes the quotient polynomial of the single-point opening proof at `x`
/// together with the claimed evaluation `y`; the proof itself is the
/// multi-scalar combination of the setup's first-group points with these
/// coefficients, which the caller owning the curve backend performs.
///
/// A polynomial longer than the setup is refused.  When `x` lands on the
/// domain, the quotient at that index is the removable-singularity limit.
#[verifier::rlimit(100)]
#[verifier::spinoff_prover]
pub fn compute_kzg_quotient(p: &Poly, x: &Fr, s: &KZGSettings) -> (r: Option<(Poly, Fr)>)
    requires
        p.wf(),
        x.valid(),
        s.wf(),
        p.coeffs.len() == s.fs.roots_of_unity.len(),
    ensures
        p.coeffs.len() > s.secret_g1.len() ==> r is None,
        ((forall|i: int| 0 <= i < s.fs.roots_of_unity.len()
            ==> (#[trigger] s.fs.roots_of_unity[i]).val() != x.val())
            && p.coeffs.len() <= s.secret_g1.len())
            ==> ((r is Some) == (fr_invertible(prod_mod(eval_diffs(*x, s.fs.roots_of_unity@),
                    s.fs.roots_of_unity.len() - 1))
                && fr_invertible(p.coeffs.len() as nat)
                && fr_invertible(prod_mod(quot_diffs(*x, s.fs.roots_of_unity@),
                    s.fs.roots_of_unity.len() - 1)))),
        ((exists|i: int| 0 <= i < s.fs.roots_of_unity.len()
            && (#[trigger] s.fs.roots_of_unity[i]).val() == x.val())
            && p.coeffs.len() <= s.secret_g1.len())
            ==> ((r is Some) == exists|m2: int|
                {
                    &&& 0 <= m2 < s.fs.roots_of_unity.len()
                    &&& (#[trigger] s.fs.roots_of_unity[m2]).val() == x.val()
                    &&& forall|j: int| 0 <= j < m2
                        ==> (#[trigger] s.fs.roots_of_unity[j]).val() != x.val()
                    &&& fr_invertible(prod_mod(
                        with_unit_slot(quot_diffs(*x, s.fs.roots_of_unity@), m2),
                        s.fs.roots_of_unity.len() - 1))
                    &&& fr_invertible(prod_mod(
                        with_unit_slot(sing_denoms(*x, s.fs.roots_of_unity@), m2),
                        s.fs.roots_of_unity.len() - 1))
                }),
        r matches Some(qy) ==> {
            let q = qy.0;
            let y = qy.1;
            let roots = s.fs.roots_of_unity;
            &&& p.coeffs.len() <= s.secret_g1.len()
            &&& (forall|i: int| 0 <= i < roots.len()
                    ==> (#[trigger] roots[i]).val() != x.val())
                ==> exists|invs: Seq<Fr>|
                    #[trigger] invs.len() == roots.len()
                    && (forall|i: int| 0 <= i < invs.len()
                        ==> (#[trigger] invs[i]).valid()
                            && (invs[i].val()
                                * ((x.val() + fr_p() - roots[i].val()) % (fr_p() as int)))
                                % (fr_p() as int) == 1)
                    && (y.val() * (p.coeffs.len() as nat)) % fr_p()
                        == (bary_sum(p.coeffs@, roots@, invs, p.coeffs.len() as int)
                            * xn_minus_one(x.val(), p.coeffs.len() as nat)) % fr_p()
            &&& q.coeffs.len() == p.coeffs.len()
            &&& q.wf()
            &&& y.valid()
            &&& (exists|i: int| 0 <= i < roots.len()
                    && (#[trigger] roots[i]).val() == x.val())
                ==> exists|i: int|
                    {
                        &&& 0 <= i < roots.len()
                        &&& (#[trigger] roots[i]).val() == x.val()
                        &&& y == p.coeffs[i]
                        &&& forall|j: int| 0 <= j < i
                            ==> (#[trigger] roots[j]).val() != x.val()
                    }
            &&& forall|i: int| 0 <= i < q.coeffs.len()
                    && (#[trigger] roots[i]).val() != x.val()
                ==> quot_rel(q.coeffs[i], roots[i], *x, p.coeffs[i], y)
            &&& singular_slot_ok(q.coeffs@, y, *x, roots@, p.coeffs@)
        },
{
    let n = p.len();
    if n > s.secret_g1.len() {
        return None;
    }
    proof {
        lemma_pow2_pos(s.fs.max_scale as nat);
        crate::fft::lemma_roots_valid(&s.fs);
    }
    let y = match evaluate_polynomial_in_evaluation_form(p, x, s) {
        None => {
            return None;
        },
        Some(v) => v,
    };
    // The first domain index that coincides with `x`, if any.
    let mut m_found: bool = false;
    let mut m: usize = 0;
    let mut i: usize = 0;
    while i < n
        invariant
            i <= n,
            n == p.coeffs.len(),
            x.valid(),
            s.wf(),
            n == s.fs.roots_of_unity.len(),
            forall|j: int| 0 <= j < n ==> (#[trigger] s.fs.roots_of_unity[j]).valid(),
            m_found ==> (m < i && s.fs.roots_of_unity[m as int].val() == x.val()
                && (forall|j: int| 0 <= j < m
                    ==> (#[trigger] s.fs.roots_of_unity[j]).val() != x.val())),
            !m_found ==> (forall|j: int| 0 <= j < i
                ==> (#[trigger] s.fs.roots_of_unity[j]).val() != x.val()),
        decreases n - i,
    {
        if !m_found {
            if x.equals(&s.fs.roots_of_unity[i]) {
                m_found = true;
                m = i;
            }
        }
        i = i + 1;
    }
    // Numerators and denominators of the quotient away from the singularity;
    // the singular slot gets harmless fillers.
    let mut nums: Vec<Fr> = Vec::new();
    let mut dens: Vec<Fr> = Vec::new();
    let mut i2: usize = 0;
    while i2 < n
        invariant
            i2 <= n,
            n == p.coeffs.len(),
            p.wf(),
            x.valid(),
            y.valid(),
            s.wf(),
            n == s.fs.roots_of_unity.len(),
            forall|j: int| 0 <= j < n ==> (#[trigger] s.fs.roots_of_unity[j]).valid(),
            nums.len() == i2,
            dens.len() == i2,
            forall|j: int| 0 <= j < i2 ==> (#[trigger] nums[j]).valid(),
            forall|j: int| 0 <= j < i2 ==> (#[trigger] dens[j]).valid(),
            forall|j: int| 0 <= j < i2 && !(m_found && j == m)
                ==> (#[trigger] nums[j]).val()
                    == (p.coeffs[j].val() + fr_p() - y.val()) % (fr_p() as int),
            forall|j: int| 0 <= j < i2 && !(m_found && j == m)
                ==> (#[trigger] dens[j]).val()
                    == (s.fs.roots_of_unity[j].val() + fr_p() - x.val()) % (fr_p() as int),
            forall|j: int| 0 <= j < i2 && !m_found
                ==> (#[trigger] dens@[j]) == quot_diffs(*x, s.fs.roots_of_unity@)[j],
            forall|j: int| 0 <= j < i2 && m_found
                ==> (#[trigger] dens@[j])
                    == with_unit_slot(quot_diffs(*x, s.fs.roots_of_unity@), m as int)[j],
        decreases n - i2,
    {
        if m_found && i2 == m {
            let one = Fr::one();
            proof {
                lemma_fr_from_val_id(one);
            }
            nums.push(Fr::zero());
            dens.push(one);
        } else {
            let d = s.fs.roots_of_unity[i2].sub(x);
            proof {
                lemma_fr_from_val_id(d);
            }
            nums.push(p.coeffs[i2].sub(&y));
            dens.push(d);
        }
        i2 = i2 + 1;
    }
    proof {
        if !m_found {
            assert(dens@ =~= quot_diffs(*x, s.fs.roots_of_unity@));
        }
    }
    proof {
        if m_found {
            assert(dens@ =~= with_unit_slot(quot_diffs(*x, s.fs.roots_of_unity@), m as int));
        } else {
            assert(dens@ =~= quot_diffs(*x, s.fs.roots_of_unity@));
        }
    }
    let invs = match fr_batch_inv(&dens) {
        None => {
            proof {
                if m_found {
                    lemma_first_hit_unique(s, *x, m as int);
                }
            }
            return None;
        },
        Some(v) => v,
    };
    let mut q: Vec<Fr> = Vec::new();
    let mut i3: usize = 0;
    while i3 < n
        invariant
            i3 <= n,
            n == p.coeffs.len(),
            p.wf(),
            x.valid(),
            y.valid(),
            s.wf(),
            n == s.fs.roots_of_unity.len(),
            forall|j: int| 0 <= j < n ==> (#[trigger] s.fs.roots_of_unity[j]).valid(),
            nums.len() == n,
            dens.len() == n,
            invs.len() == n,
            forall|j: int| 0 <= j < n ==> (#[trigger] nums[j]).valid(),
            forall|j: int| 0 <= j < n
                ==> (#[trigger] invs[j]).valid()
                    && (invs[j].val() * dens[j].val()) % fr_p() == 1,
            forall|j: int| 0 <= j < n && !(m_found && j == m)
                ==> (#[trigger] nums[j]).val()
                    == (p.coeffs[j].val() + fr_p() - y.val()) % (fr_p() as int),
            forall|j: int| 0 <= j < n && !(m_found && j == m)
                ==> (#[trigger] dens[j]).val()
                    == (s.fs.roots_of_unity[j].val() + fr_p() - x.val()) % (fr_p() as int),
            q.len() == i3,
            forall|j: int| 0 <= j < i3 ==> (#[trigger] q[j]).valid(),
            forall|j: int| 0 <= j < i3 && !(m_found && j == m)
                ==> (((#[trigger] q[j]).val() * dens[j].val()) as int) % (fr_p() as int)
                    == (p.coeffs[j].val() + fr_p() - y.val()) % (fr_p() as int),
        decreases n - i3,
    {
        let qi = nums[i3].mul(&invs[i3]);
        proof {
            if !(m_found && i3 == m) {
                lemma_cancel_inverse(nums[i3 as int].val(), dens[i3 as int].val(),
                    invs[i3 as int].val());
                lemma_small_mod(nums[i3 as int].val(), fr_p());
            }
        }
        q.push(qi);
        i3 = i3 + 1;
    }
    if m_found {
        let q2 = match singular_quotient(p, x, s, &y, m, &q, &dens) {
            None => {
                proof {
                    lemma_first_hit_unique(s, *x, m as int);
                }
                return None;
            },
            Some(v) => v,
        };
        let qq = Poly::from_coeffs(q2);
        proof {
            lemma_first_hit_unique(s, *x, m as int);
            assert(qq.coeffs@ == q2@);
        }
        Some((qq, y))
    } else {
        proof {
            assert forall|j: int| 0 <= j < n
                    && (#[trigger] s.fs.roots_of_unity[j]).val() != x.val()
                implies quot_rel(q@[j], s.fs.roots_of_unity[j], *x, p.coeffs[j], y) by {
            }
            assert(singular_slot_ok(q@, y, *x, s.fs.roots_of_unity@, p.coeffs@)) by {
                reveal(singular_slot_ok);
            }
        }
        Some((Poly::from_coeffs(q), y))
    }
}

/// The compressed form of a running multi-scalar combination after `k`
/// terms: each step adds scalar `k-1` times point `k-1` to the accumulator,
/// through the backend's addition and scalar multiplication.
pub open spec fn lincomb_enc(points: Seq<G1>, scalars: Seq<Fr>, k: int) -> Seq<u8>
    decreases k,
{
    if k <= 0 {
        g1_identity_enc()
    } else {
        g1_add_of(lincomb_enc(points, scalars, k - 1),
            g1_mul_of(points[k - 1].enc(), fr_le32(scalars[k - 1])))
    }
}

/// The multi-scalar combination `sum scalars[i] * points[i]` over the first
/// `num_points` entries, as the backend computes it term by term.
pub fn g1_lincomb(points: &Vec<G1>, scalars: &Vec<Fr>, num_points: usize) -> (r: G1)
    requires
        num_points <= points.len(),
        num_points <= scalars.len(),
        forall|i: int| 0 <= i < points.len() ==> (#[trigger] points[i]).wf(),
        forall|i: int| 0 <= i < scalars.len() ==> (#[trigger] scalars[i]).valid(),
    ensures
        r.wf(),
        r.enc() == lincomb_enc(points@, scalars@, num_points as int),
{
    let mut acc = g1_identity();
    let mut i: usize = 0;
    while i < num_points
        invariant
            i <= num_points,
            num_points <= points.len(),
            num_points <= scalars.len(),
            forall|j: int| 0 <= j < points.len() ==> (#[trigger] points[j]).wf(),
            forall|j: int| 0 <= j < scalars.len() ==> (#[trigger] scalars[j]).valid(),
            acc.wf(),
            acc.enc() == lincomb_enc(points@, scalars@, i as int),
        decreases num_points - i,
    {
        let sb = bytes_from_bls_field(&scalars[i]);
        let term = g1_mul(&points[i], &sb);
        let newacc = g1_add(&acc, &term);
        proof {
            assert(lincomb_enc(points@, scalars@, i as int + 1)
                == g1_add_of(lincomb_enc(points@, scalars@, i as int),
                    g1_mul_of(points@[i as int].enc(), fr_le32(scalars@[i as int]))));
        }
        acc = newacc;
        i = i + 1;
    }
    acc
}

/// Commits to a blob: the multi-scalar combination of the setup's
/// evaluation-basis points by the blob's elements; refused unless the blob
/// fills the domain and the setup covers it.
pub fn blob_to_kzg_commitment(blob: &Vec<Fr>, s: &KZGSettings) -> (r: Option<G1>)
    requires
        s.wf(),
        forall|i: int| 0 <= i < blob.len() ==> (#[trigger] blob[i]).valid(),
    ensures
        (r is Some) == (blob.len() == s.fs.roots_of_unity.len()
            && blob.len() <= s.secret_g1.len()),
        r matches Some(c) ==> c.wf()
            && c.enc() == lincomb_enc(s.secret_g1@, blob@, blob.len() as int),
{
    if blob.len() != s.fs.len() || blob.len() > s.secret_g1.len() {
        return None;
    }
    Some(g1_lincomb(&s.secret_g1, blob, blob.len()))
}

/// Computes the single-point opening proof at `x` and the evaluation `y`:
/// the verified quotient combined with the setup's first-group points.
#[verifier::rlimit(100)]
#[verifier::spinoff_prover]
pub fn compute_kzg_proof(p: &Poly, x: &Fr, s: &KZGSettings) -> (r: Option<(G1, Fr)>)
    requires
        p.wf(),
        x.valid(),
        s.wf(),
        p.coeffs.len() == s.fs.roots_of_unity.len(),
    ensures
        p.coeffs.len() > s.secret_g1.len() ==> r is None,
        ((forall|i: int| 0 <= i < s.fs.roots_of_unity.len()
            ==> (#[trigger] s.fs.roots_of_unity[i]).val() != x.val())
            && p.coeffs.len() <= s.secret_g1.len())
            ==> ((r is Some) == (fr_invertible(prod_mod(eval_diffs(*x, s.fs.roots_of_unity@),
                    s.fs.roots_of_unity.len() - 1))
                && fr_invertible(p.coeffs.len() as nat)
                && fr_invertible(prod_mod(quot_diffs(*x, s.fs.roots_of_unity@),
                    s.fs.roots_of_unity.len() - 1)))),
        ((exists|i: int| 0 <= i < s.fs.roots_of_unity.len()
            && (#[trigger] s.fs.roots_of_unity[i]).val() == x.val())
            && p.coeffs.len() <= s.secret_g1.len())
            ==> ((r is Some) == exists|m2: int|
                {
                    &&& 0 <= m2 < s.fs.roots_of_unity.len()
                    &&& (#[trigger] s.fs.roots_of_unity[m2]).val() == x.val()
                    &&& forall|j: int| 0 <= j < m2
                        ==> (#[trigger] s.fs.roots_of_unity[j]).val() != x.val()
                    &&& fr_invertible(prod_mod(
                        with_unit_slot(quot_diffs(*x, s.fs.roots_of_unity@), m2),
                        s.fs.roots_of_unity.len() - 1))
                    &&& fr_invertible(prod_mod(
                        with_unit_slot(sing_denoms(*x, s.fs.roots_of_unity@), m2),
                        s.fs.roots_of_unity.len() - 1))
                }),
        r matches Some(pr) ==> {
            let roots = s.fs.roots_of_unity;
            &&& pr.0.wf()
            &&& pr.1.valid()
            &&& (forall|i: int| 0 <= i < roots.len()
                    ==> (#[trigger] roots[i]).val() != x.val())
                ==> exists|invs: Seq<Fr>|
                    #[trigger] invs.len() == roots.len()
                    && (forall|i: int| 0 <= i < invs.len()
                        ==> (#[trigger] invs[i]).valid()
                            && (invs[i].val()
                                * ((x.val() + fr_p() - roots[i].val()) % (fr_p() as int)))
                                % (fr_p() as int) == 1)
                    && (pr.1.val() * (p.coeffs.len() as nat)) % fr_p()
                        == (bary_sum(p.coeffs@, roots@, invs, p.coeffs.len() as int)
                            * xn_minus_one(x.val(), p.coeffs.len() as nat)) % fr_p()
            &&& (exists|i: int| 0 <= i < roots.len()
                    && (#[trigger] roots[i]).val() == x.val())
                ==> exists|i: int|
                    {
                        &&& 0 <= i < roots.len()
                        &&& (#[trigger] roots[i]).val() == x.val()
                        &&& pr.1 == p.coeffs[i]
                        &&& forall|j: int| 0 <= j < i
                            ==> (#[trigger] roots[j]).val() != x.val()
                    }
            &&& exists|q: Seq<Fr>|
                {
                    &&& q.len() == p.coeffs.len()
                    &&& forall|i: int| 0 <= i < q.len() ==> (#[trigger] q[i]).valid()
                    &&& forall|i: int| 0 <= i < q.len()
                            && (#[trigger] roots[i]).val() != x.val()
                        ==> quot_rel(q[i], roots[i], *x, p.coeffs[i], pr.1)
                    &&& singular_slot_ok(q, pr.1, *x, roots@, p.coeffs@)
                    &&& pr.0.enc() == #[trigger] lincomb_enc(s.secret_g1@, q,
                        p.coeffs.len() as int)
                }
        },
{
    let qy = match compute_kzg_quotient(p, x, s) {
        None => {
            return None;
        },
        Some(v) => v,
    };
    let (q, y) = qy;
    let proof_point = g1_lincomb(&s.secret_g1, &q.coeffs, q.len());
    proof {
        let ghost qs = q.coeffs@;
        let roots = s.fs.roots_of_unity;
        assert(proof_point.enc() == lincomb_enc(s.secret_g1@, qs, p.coeffs.len() as int));
        assert(singular_slot_ok(qs, y, *x, roots@, p.coeffs@));
        assert(exists|q2: Seq<Fr>|
            {
                &&& q2.len() == p.coeffs.len()
                &&& forall|i: int| 0 <= i < q2.len() ==> (#[trigger] q2[i]).valid()
                &&& forall|i: int| 0 <= i < q2.len()
                        && (#[trigger] roots[i]).val() != x.val()
                    ==> quot_rel(q2[i], roots[i], *x, p.coeffs[i], y)
                &&& singular_slot_ok(q2, y, *x, roots@, p.coeffs@)
                &&& proof_point.enc() == #[trigger] lincomb_enc(s.secret_g1@, q2,
                    p.coeffs.len() as int)
            });
    }
    Some((proof_point, y))
}

/// The 32-byte little-endian form of the additive inverse of a reduced
/// value.
pub open spec fn neg_scalar_bytes(v: nat) -> Seq<u8> {
    fr_le32(fr_from_val(((fr_p() - v) as int % (fr_p() as int)) as nat))
}

/// Verifies an opening proof by the backend's pairing check: whether
/// `e(commitment - [y], G2) == e(proof, tau*G2 - [z]*G2)`, over the setup's
/// own second-group points, with the subtractions carried out as additions
/// of negated-scalar multiples.  A total predicate: a short setup or a
/// rejected generator encoding yields `false`, never a failure.
pub fn verify_kzg_proof(commitment: &G1, z: &Fr, y: &Fr, proof: &G1, s: &KZGSettings)
    -> (r: bool)
    requires
        commitment.wf(),
        z.valid(),
        y.valid(),
        proof.wf(),
        s.wf(),
    ensures
        s.secret_g2.len() < 2 ==> r == false,
        (s.secret_g2.len() >= 2 && !g1_encoding_valid(G1_GENERATOR_BYTES@)) ==> r == false,
        (s.secret_g2.len() >= 2 && g1_encoding_valid(G1_GENERATOR_BYTES@))
            ==> r == pairing_eq_of(
                g1_add_of(commitment.enc(),
                    g1_mul_of(G1_GENERATOR_BYTES@, neg_scalar_bytes(y.val()))),
                s.secret_g2[0].enc(),
                proof.enc(),
                g2_add_of(s.secret_g2[1].enc(),
                    g2_mul_of(s.secret_g2[0].enc(), neg_scalar_bytes(z.val())))),
{
    if s.secret_g2.len() < 2 {
        return false;
    }
    let g1g = match g1_generator() {
        None => {
            return false;
        },
        Some(g) => g,
    };
    let neg_y = Fr::zero().sub(y);
    let neg_z = Fr::zero().sub(z);
    let yb = bytes_from_bls_field(&neg_y);
    let zb = bytes_from_bls_field(&neg_z);
    proof {
        lemma_fr_from_val_id(neg_y);
        lemma_fr_from_val_id(neg_z);
    }
    let y_g1 = g1_mul(&g1g, &yb);
    let commit_minus_y = g1_add(commitment, &y_g1);
    let z_g2 = g2_mul(&s.secret_g2[0], &zb);
    let sec_minus_z = g2_add(&s.secret_g2[1], &z_g2);
    pairing_eq(&commit_minus_y, &s.secret_g2[0], proof, &sec_minus_z)
}

} // verus!
