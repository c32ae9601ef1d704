//! Montgomery batch inversion: all pointwise inverses of a vector at the
//! price of a single field inversion.
use vstd::prelude::*;
use vstd::arithmetic::div_mod::*;
use crate::fr::{Fr, fr_p, fr_invertible, lemma_fr_val_injective, lemma_inverse_unique};

verus! {

/// Moves an inverse of a running product one factor down.
proof fn lemma_shift_inverse(prev: nat, ai: nat, cur: nat, inv: nat)
    requires
        cur == (prev * ai) % fr_p(),
        (inv * cur) % fr_p() == 1,
    ensures
        (((prev * inv) % fr_p()) * ai) % fr_p() == 1,
        (((ai * inv) % fr_p()) * prev) % fr_p() == 1,
{
    let pi: int = fr_p() as int;
    lemma_mul_mod_noop_left((prev * inv) as int, ai as int, pi);
    assert((prev * inv) * ai == inv * (prev * ai)) by (nonlinear_arith);
    lemma_mul_mod_noop_right(inv as int, (prev * ai) as int, pi);
    lemma_mul_mod_noop_left((ai * inv) as int, prev as int, pi);
    assert((ai * inv) * prev == inv * (prev * ai)) by (nonlinear_arith);
}

/// If some factor up to `k` is zero, so is the running product at `k`.
proof fn lemma_prod_zero(prods: Seq<Fr>, factors: Seq<Fr>, k: int)
    requires
        0 <= k < prods.len(),
        prods.len() <= factors.len(),
        prods[0] == factors[0],
        forall|j: int| 1 <= j < prods.len()
            ==> prods[j].val() == (prods[j - 1].val() * factors[j].val()) % fr_p(),
        exists|j: int| 0 <= j <= k && factors[j].val() == 0,
    ensures
        prods[k].val() == 0,
    decreases k,
{
    let j = choose|j: int| 0 <= j <= k && factors[j].val() == 0;
    if k == 0 {
    } else {
        if j == k {
            assert(prods[k].val() == (prods[k - 1].val() * 0) % fr_p());
            assert(prods[k - 1].val() * 0 == 0) by (nonlinear_arith);
            lemma_small_mod(0, fr_p());
        } else {
            lemma_prod_zero(prods, factors, k - 1);
            assert(prods[k].val() == (0 * factors[k].val()) % fr_p());
            assert(0 * factors[k].val() == 0) by (nonlinear_arith);
            lemma_small_mod(0, fr_p());
        }
    }
}

/// The reduced running product of the leading elements, as the forward pass
/// accumulates it.
pub open spec fn prod_mod(a: Seq<Fr>, k: int) -> nat
    decreases k,
{
    if k <= 0 {
        a[0].val()
    } else {
        (prod_mod(a, k - 1) * a[k].val()) % fr_p()
    }
}

/// Pointwise multiplicative inverses of a whole vector, computed with one
/// inversion and a pass of multiplications in each direction: it succeeds
/// exactly when the running product of the whole vector is invertible,
/// which in a prime field is whenever no entry is the additive identity.
pub fn fr_batch_inv(a: &Vec<Fr>) -> (r: Option<Vec<Fr>>)
    requires
        a.len() >= 1,
        forall|i: int| 0 <= i < a.len() ==> a[i].valid(),
    ensures
        r matches Some(out) ==> {
            &&& out.len() == a.len()
            &&& forall|i: int| 0 <= i < out.len()
                ==> out[i].valid() && (out[i].val() * a[i].val()) % fr_p() == 1
        },
        (r is Some) == fr_invertible(prod_mod(a@, a.len() - 1)),
        (exists|i: int| 0 <= i < a.len() && a[i].val() == 0) ==> r is None,
{
    let n = a.len();
    let mut prod: Vec<Fr> = Vec::new();
    prod.push(a[0]);
    let mut i: usize = 1;
    while i < n
        invariant
            1 <= i <= n,
            n == a.len(),
            prod.len() == i,
            forall|j: int| 0 <= j < a.len() ==> a[j].valid(),
            forall|j: int| 0 <= j < i ==> prod[j].valid(),
            prod[0] == a[0],
            forall|j: int| 1 <= j < i
                ==> prod[j].val() == (prod[j - 1].val() * a[j].val()) % fr_p(),
            forall|j: int| 0 <= j < i ==> (#[trigger] prod[j]).val() == prod_mod(a@, j),
        decreases n - i,
    {
        let t = prod[i - 1].mul(&a[i]);
        proof {
            assert(prod_mod(a@, i as int)
                == (prod_mod(a@, i as int - 1) * a@[i as int].val()) % fr_p());
        }
        prod.push(t);
        i = i + 1;
    }
    let total_inv = match prod[n - 1].eucl_inverse() {
        None => {
            proof {
                if exists|j: int| 0 <= j < a.len() && a[j].val() == 0 {
                    lemma_prod_zero(prod@, a@, n - 1 as int);
                }
            }
            return None;
        },
        Some(v) => v,
    };
    proof {
        if exists|j: int| 0 <= j < a.len() && a[j].val() == 0 {
            lemma_prod_zero(prod@, a@, n - 1 as int);
            assert((total_inv.val() * 0nat) % fr_p() == 1);
            assert(total_inv.val() * 0nat == 0) by (nonlinear_arith);
            lemma_small_mod(0, fr_p());
            assert(false);
        }
    }
    let mut inv = total_inv;
    let mut out_rev: Vec<Fr> = Vec::new();
    let mut i2: usize = n - 1;
    while i2 > 0
        invariant
            i2 < n,
            n == a.len(),
            prod.len() == n,
            forall|j: int| 0 <= j < a.len() ==> a[j].valid(),
            forall|j: int| 0 <= j < n ==> prod[j].valid(),
            prod[0] == a[0],
            forall|j: int| 1 <= j < n
                ==> prod[j].val() == (prod[j - 1].val() * a[j].val()) % fr_p(),
            inv.valid(),
            (inv.val() * prod[i2 as int].val()) % fr_p() == 1,
            out_rev.len() == n - 1 - i2,
            forall|m: int| 0 <= m < out_rev.len()
                ==> out_rev[m].valid()
                    && (out_rev[m].val() * a[n - 1 - m].val()) % fr_p() == 1,
        decreases i2,
    {
        let o = prod[i2 - 1].mul(&inv);
        let newinv = a[i2].mul(&inv);
        proof {
            lemma_shift_inverse(
                prod[i2 - 1 as int].val(), a@[i2 as int].val(), prod[i2 as int].val(), inv.val());
        }
        out_rev.push(o);
        inv = newinv;
        i2 = i2 - 1;
    }
    let mut out: Vec<Fr> = Vec::new();
    out.push(inv);
    let mut k: usize = 0;
    while k < n - 1
        invariant
            k <= n - 1,
            n == a.len(),
            out_rev.len() == n - 1,
            forall|j: int| 0 <= j < a.len() ==> a[j].valid(),
            forall|m: int| 0 <= m < out_rev.len()
                ==> out_rev[m].valid()
                    && (out_rev[m].val() * a[n - 1 - m].val()) % fr_p() == 1,
            out.len() == k + 1,
            forall|m: int| 0 <= m <= k
                ==> out[m].valid() && (out[m].val() * a[m].val()) % fr_p() == 1,
        decreases n - 1 - k,
    {
        let o = out_rev[n - 2 - k];
        out.push(o);
        k = k + 1;
    }
    Some(out)
}

/// The batch inverse agrees with the single inverse: inverses are unique, so
/// any two witnesses for the same element are one value.
pub proof fn lemma_batch_matches_single(elem: Fr, batch: Fr, single: Fr)
    requires
        batch.valid(),
        single.valid(),
        (batch.val() * elem.val()) % fr_p() == 1,
        (single.val() * elem.val()) % fr_p() == 1,
    ensures
        batch == single,
{
    lemma_inverse_unique(elem.val(), batch.val(), single.val());
    lemma_fr_val_injective(batch, single);
}

} // verus!
