//! Roots of unity and the bit-reversal permutation that orders the
//! evaluation domain.
use vstd::prelude::*;
use vstd::arithmetic::div_mod::*;
use vstd::arithmetic::power::*;
use vstd::arithmetic::power2::*;
use crate::fr::{Fr, fr_p, fr_from_val, fr_invertible, lemma_fr_from_val_id};
use crate::points::{G1, g1_add, g1_mul, g1_add_of, g1_mul_of};
use crate::encoding::{bytes_from_bls_field, fr_le32};
use crate::kzg::compute_powers;

verus! {

/// The index with its lowest `k` bits mirrored.
pub open spec fn bit_rev_spec(x: nat, k: nat) -> nat
    decreases k,
{
    if k == 0 {
        0
    } else {
        (x % 2) * pow2((k - 1) as nat) + bit_rev_spec(x / 2, (k - 1) as nat)
    }
}

/// A mirrored index stays inside the block of `2^k` positions.
pub proof fn lemma_bit_rev_bound(x: nat, k: nat)
    ensures
        bit_rev_spec(x, k) < pow2(k),
    decreases k,
{
    if k == 0 {
        assert(pow2(0) == 1) by {
            lemma2_to64();
        }
    } else {
        lemma_bit_rev_bound(x / 2, (k - 1) as nat);
        lemma_pow2_unfold(k);
        assert((x % 2) * pow2((k - 1) as nat) <= pow2((k - 1) as nat)) by (nonlinear_arith)
            requires x % 2 <= 1, pow2((k - 1) as nat) >= 0;
    }
}

/// A power of two that fits a machine word.
pub fn pow2_exec(k: usize) -> (r: usize)
    requires
        k < 32,
    ensures
        r == pow2(k as nat),
        r >= 1,
{
    let mut r: usize = 1;
    let mut i: usize = 0;
    proof {
        lemma2_to64();
    }
    while i < k
        invariant
            i <= k,
            k < 32,
            r == pow2(i as nat),
            r <= 0x80000000,
        decreases k - i,
    {
        proof {
            lemma2_to64();
            if (i as nat) < 30 {
                lemma_pow2_strictly_increases(i as nat, 30);
            }
            assert(pow2(i as nat) <= pow2(30));
            lemma_pow2_unfold((i + 1) as nat);
        }
        r = r * 2;
        i = i + 1;
    }
    r
}

/// Mirrors the lowest `k` bits of an index.
pub fn bit_reverse(x: usize, k: usize) -> (r: usize)
    requires
        k < 32,
    ensures
        r == bit_rev_spec(x as nat, k as nat),
        r < pow2(k as nat),
    decreases k,
{
    proof {
        lemma_bit_rev_bound(x as nat, k as nat);
    }
    if k == 0 {
        0
    } else {
        let half = pow2_exec(k - 1);
        let lo = bit_reverse(x / 2, k - 1);
        proof {
            assert((x % 2) * pow2((k - 1) as nat) <= pow2((k - 1) as nat)) by (nonlinear_arith)
                requires (x as nat) % 2 <= 1, pow2((k - 1) as nat) >= 0;
            lemma_pow2_unfold(k as nat);
            if ((k as nat)) < 32 {
                lemma_pow2_strictly_increases(k as nat, 32);
            }
            lemma2_to64();
        }
        (x % 2) * half + lo
    }
}

/// A fresh copy of a sequence with every index bit-reversed.
pub fn reverse_bit_order<T: Copy>(values: &Vec<T>, k: usize) -> (r: Vec<T>)
    requires
        k < 32,
        values.len() == pow2(k as nat),
    ensures
        r.len() == values.len(),
        forall|i: int| 0 <= i < r.len()
            ==> r[i] == values[bit_rev_spec(i as nat, k as nat) as int],
{
    let n = values.len();
    let mut r: Vec<T> = Vec::new();
    let mut i: usize = 0;
    while i < n
        invariant
            i <= n,
            k < 32,
            n == values.len(),
            values.len() == pow2(k as nat),
            r.len() == i,
            forall|t: int| 0 <= t < i
                ==> r[t] == values[bit_rev_spec(t as nat, k as nat) as int],
        decreases n - i,
    {
        let idx = bit_reverse(i, k);
        r.push(values[idx]);
        i = i + 1;
    }
    r
}

/// The canonical generator whose powers sweep the scalar field's
/// multiplicative group.
pub open spec fn field_generator() -> nat {
    7
}

/// The canonical primitive root for a domain of `2^scale` points: the
/// generator raised to the group order divided by the domain size.
pub open spec fn domain_root(scale: nat) -> nat {
    (pow(field_generator() as int, (fr_p() - 1) as nat / pow2(scale)) % (fr_p() as int)) as nat
}

/// The table of roots of unity for one domain size, in natural and in
/// bit-reversed order; immutable once built.
#[derive(Debug)]
pub struct FFTSettings {
    pub max_scale: usize,
    pub expanded_roots_of_unity: Vec<Fr>,
    pub roots_of_unity: Vec<Fr>,
}

impl FFTSettings {
    /// The table is complete and holds exactly the successive powers of the
    /// canonical primitive root, with the second vector bit-reversed.
    pub open spec fn wf(&self) -> bool {
        &&& self.max_scale < 32
        &&& self.expanded_roots_of_unity.len() == pow2(self.max_scale as nat)
        &&& self.roots_of_unity.len() == pow2(self.max_scale as nat)
        &&& forall|i: int| 0 <= i < self.expanded_roots_of_unity.len()
            ==> (#[trigger] self.expanded_roots_of_unity[i]).valid()
                && self.expanded_roots_of_unity[i].val() as int
                    == pow(domain_root(self.max_scale as nat) as int, i as nat) % (fr_p() as int)
        &&& forall|i: int| 0 <= i < self.roots_of_unity.len()
            ==> self.roots_of_unity[i]
                == self.expanded_roots_of_unity[
                    bit_rev_spec(i as nat, self.max_scale as nat) as int]
    }

    /// The number of points in the domain.
    pub fn len(&self) -> (r: usize)
        ensures
            r == self.expanded_roots_of_unity.len(),
    {
        self.expanded_roots_of_unity.len()
    }

    /// Builds the table for a domain of `2^max_scale` points.
    pub fn new(max_scale: usize) -> (r: FFTSettings)
        requires
            max_scale < 32,
        ensures
            r.wf(),
            r.max_scale == max_scale,
    {
        // (fr_p() - 1) / 2^32: the group order with its full power of two
        // removed, so halving the order `max_scale` times stays exact.
        let ghost codd: nat = 0x73eda753299d7d483339d80809a1d80553bda402fffe5bfeffffffffnat;
        let mut e = Fr {
            l0: 0xffffffff00000000,
            l1: 0x53bda402fffe5bfe,
            l2: 0x3339d80809a1d805,
            l3: 0x73eda753299d7d48,
        };
        proof {
            lemma2_to64();
            assert(e.val() == codd * pow2(32));
        }
        let mut i: usize = 0;
        while i < max_scale
            invariant
                i <= max_scale,
                max_scale < 32,
                e.val() == codd * pow2((32 - i) as nat),
            decreases max_scale - i,
        {
            let ghost oldv = e.val();
            e = crate::fr::shr1(&e);
            proof {
                lemma_pow2_unfold((32 - i) as nat);
                assert(oldv == 2 * (codd * pow2((31 - i) as nat))) by (nonlinear_arith)
                    requires
                        oldv == codd * pow2((32 - i) as nat),
                        pow2((32 - i) as nat) == 2 * pow2((31 - i) as nat);
                lemma_fundamental_div_mod_converse(
                    oldv as int, 2, (codd * pow2((31 - i) as nat)) as int, 0);
            }
            i = i + 1;
        }
        proof {
            // The exponent now equals the group order divided by the domain
            // size, exactly.
            let s: nat = max_scale as nat;
            lemma_pow2_adds((32 - s) as nat, s);
            assert(codd * pow2((32 - s) as nat) * pow2(s) == codd * pow2(32)) by (nonlinear_arith)
                requires pow2((32 - s) as nat) * pow2(s) == pow2(32);
            lemma_pow2_pos(s);
            lemma_fundamental_div_mod_converse(
                (fr_p() - 1) as int, pow2(s) as int, (codd * pow2((32 - s) as nat)) as int, 0);
            lemma2_to64();
        }
        let seven = Fr::from_u64(7);
        let root = seven.pow_wide(&e);
        let n = pow2_exec(max_scale);
        let expanded = compute_powers(&root, n);
        let brp = reverse_bit_order(&expanded, max_scale);
        let r = FFTSettings {
            max_scale,
            expanded_roots_of_unity: expanded,
            roots_of_unity: brp,
        };
        proof {
            let s: nat = max_scale as nat;
            let dr: int = domain_root(s) as int;
            assert(root.val() == domain_root(s));
            assert forall|i2: int| 0 <= i2 < r.expanded_roots_of_unity.len()
                implies (#[trigger] r.expanded_roots_of_unity[i2]).valid()
                    && r.expanded_roots_of_unity[i2].val() as int
                        == pow(dr, i2 as nat) % (fr_p() as int) by {
                lemma_small_mod(root.val(), fr_p());
                lemma_pow_mod_noop(root.val() as int, i2 as nat, fr_p() as int);
            }
        }
        r
    }
}

/// Every entry of the bit-reversed table is a reduced element: the mirrored
/// index stays inside the natural-order table.
pub proof fn lemma_roots_valid(fs: &FFTSettings)
    requires
        fs.wf(),
    ensures
        forall|i: int| 0 <= i < fs.roots_of_unity.len()
            ==> (#[trigger] fs.roots_of_unity[i]).valid(),
{
    assert forall|i: int| 0 <= i < fs.roots_of_unity.len()
        implies (#[trigger] fs.roots_of_unity[i]).valid() by {
        lemma_bit_rev_bound(i as nat, fs.max_scale as nat);
        assert(fs.roots_of_unity[i]
            == fs.expanded_roots_of_unity[bit_rev_spec(i as nat, fs.max_scale as nat) as int]);
    }
}

/// The values of a sequence of field elements.
pub open spec fn vals_of(s: Seq<Fr>) -> Seq<nat> {
    s.map_values(|f: Fr| f.val())
}

/// The even-index half of a sequence.
pub open spec fn evens(v: Seq<nat>) -> Seq<nat> {
    Seq::new((v.len() / 2) as nat, |i: int| v[2 * i])
}

/// The odd-index half of a sequence.
pub open spec fn odds(v: Seq<nat>) -> Seq<nat> {
    Seq::new((v.len() / 2) as nat, |i: int| v[2 * i + 1])
}

/// The radix-two transform of a sequence of reduced values by the root `w`:
/// the two half-size transforms combined by butterflies.  With a primitive
/// root this is the discrete Fourier transform of the sequence.
pub open spec fn fft_vals(v: Seq<nat>, w: nat) -> Seq<nat>
    decreases v.len(),
{
    if v.len() <= 1 {
        v
    } else {
        let half = v.len() / 2;
        let ev = fft_vals(evens(v), (w * w) % fr_p());
        let od = fft_vals(odds(v), (w * w) % fr_p());
        Seq::new(v.len() as nat,
            |i: int| if i < half {
                (ev[i] + ((pow(w as int, i as nat) % (fr_p() as int)) as nat * od[i]) % fr_p())
                    % fr_p()
            } else {
                ((ev[i - half] + fr_p()
                    - ((pow(w as int, (i - half) as nat) % (fr_p() as int)) as nat
                        * od[i - half]) % fr_p()) % (fr_p() as int)) as nat
            })
    }
}

/// The forward transform over the scalar field, by recursive even/odd
/// splitting.
pub fn fft_fr(vals: &Vec<Fr>, w: &Fr) -> (r: Vec<Fr>)
    requires
        w.valid(),
        forall|i: int| 0 <= i < vals.len() ==> (#[trigger] vals[i]).valid(),
        exists|k: nat| k <= 31 && vals.len() == pow2(k),
    ensures
        r.len() == vals.len(),
        forall|i: int| 0 <= i < r.len() ==> (#[trigger] r[i]).valid(),
        vals_of(r@) == fft_vals(vals_of(vals@), w.val()),
    decreases vals.len(),
{
    let n = vals.len();
    if n <= 1 {
        let mut out: Vec<Fr> = Vec::new();
        if n == 1 {
            out.push(vals[0]);
        }
        proof {
            assert(vals_of(out@) =~= fft_vals(vals_of(vals@), w.val()));
        }
        return out;
    }
    proof {
        let k = choose|k: nat| k <= 31 && vals.len() == pow2(k);
        assert(k >= 1) by {
            lemma2_to64();
            if k == 0 {
            }
        }
        lemma_pow2_unfold(k);
        assert((n / 2) as nat == pow2((k - 1) as nat));
    }
    let half = n / 2;
    let mut even_in: Vec<Fr> = Vec::new();
    let mut odd_in: Vec<Fr> = Vec::new();
    let mut i: usize = 0;
    while i < half
        invariant
            i <= half,
            half == vals.len() / 2,
            n == vals.len(),
            n == 2 * half,
            forall|j: int| 0 <= j < vals.len() ==> (#[trigger] vals[j]).valid(),
            even_in.len() == i,
            odd_in.len() == i,
            forall|j: int| 0 <= j < i ==> (#[trigger] even_in[j]) == vals[2 * j],
            forall|j: int| 0 <= j < i ==> (#[trigger] odd_in[j]) == vals[2 * j + 1],
        decreases half - i,
    {
        even_in.push(vals[2 * i]);
        odd_in.push(vals[2 * i + 1]);
        i = i + 1;
    }
    proof {
        assert(vals_of(even_in@) =~= evens(vals_of(vals@)));
        assert(vals_of(odd_in@) =~= odds(vals_of(vals@)));
    }
    let w2 = w.mul(w);
    let fe = fft_fr(&even_in, &w2);
    let fo = fft_fr(&odd_in, &w2);
    let ghost ev = fft_vals(evens(vals_of(vals@)), (w.val() * w.val()) % fr_p());
    let ghost od = fft_vals(odds(vals_of(vals@)), (w.val() * w.val()) % fr_p());
    proof {
        assert(ev.len() == half && od.len() == half) by {
            lemma_fft_vals_len(evens(vals_of(vals@)), (w.val() * w.val()) % fr_p());
            lemma_fft_vals_len(odds(vals_of(vals@)), (w.val() * w.val()) % fr_p());
        }
    }
    let mut lo: Vec<Fr> = Vec::new();
    let mut hi: Vec<Fr> = Vec::new();
    let mut wpow = Fr::one();
    let mut i2: usize = 0;
    proof {
        lemma_pow0(w.val() as int);
        lemma_small_mod(1, fr_p());
    }
    while i2 < half
        invariant
            i2 <= half,
            n == vals.len(),
            n == 2 * half,
            w.valid(),
            fe.len() == half,
            fo.len() == half,
            forall|j: int| 0 <= j < half ==> (#[trigger] fe[j]).valid(),
            forall|j: int| 0 <= j < half ==> (#[trigger] fo[j]).valid(),
            ev.len() == half,
            od.len() == half,
            vals_of(fe@) == ev,
            vals_of(fo@) == od,
            wpow.valid(),
            wpow.val() as int == pow(w.val() as int, i2 as nat) % (fr_p() as int),
            lo.len() == i2,
            hi.len() == i2,
            forall|j: int| 0 <= j < i2 ==> (#[trigger] lo[j]).valid(),
            forall|j: int| 0 <= j < i2 ==> (#[trigger] hi[j]).valid(),
            forall|j: int| 0 <= j < i2
                ==> (#[trigger] lo[j]).val()
                    == (ev[j] + ((pow(w.val() as int, j as nat) % (fr_p() as int)) as nat
                        * od[j]) % fr_p()) % fr_p(),
            forall|j: int| 0 <= j < i2
                ==> (#[trigger] hi[j]).val()
                    == ((ev[j] + fr_p()
                        - ((pow(w.val() as int, j as nat) % (fr_p() as int)) as nat
                            * od[j]) % fr_p()) % (fr_p() as int)) as nat,
        decreases half - i2,
    {
        let t = wpow.mul(&fo[i2]);
        let l = fe[i2].add(&t);
        let h = fe[i2].sub(&t);
        proof {
            assert(fe@[i2 as int].val() == ev[i2 as int]);
            assert(fo@[i2 as int].val() == od[i2 as int]);
        }
        lo.push(l);
        hi.push(h);
        let neww = wpow.mul(w);
        proof {
            let b: int = w.val() as int;
            let pi: int = fr_p() as int;
            lemma_mul_mod_noop_left(pow(b, i2 as nat), b, pi);
            lemma_pow1(b);
            lemma_pow_adds(b, i2 as nat, 1);
        }
        wpow = neww;
        i2 = i2 + 1;
    }
    let mut out = lo;
    let mut i3: usize = 0;
    let ghost lo_snap = out@;
    while i3 < half
        invariant
            i3 <= half,
            hi.len() == half,
            out@.len() == half + i3,
            out@ =~= lo_snap + hi@.subrange(0, i3 as int),
            lo_snap.len() == half,
        decreases half - i3,
    {
        out.push(hi[i3]);
        proof {
            assert(out@ =~= lo_snap + hi@.subrange(0, i3 as int + 1));
        }
        i3 = i3 + 1;
    }
    proof {
        assert(out@ =~= lo_snap + hi@);
        assert(vals_of(out@) =~= fft_vals(vals_of(vals@), w.val()));
    }
    out
}

/// The transform keeps the length.
pub proof fn lemma_fft_vals_len(v: Seq<nat>, w: nat)
    ensures
        fft_vals(v, w).len() == v.len(),
    decreases v.len(),
{
}

/// The inverse transform: the forward transform by the inverse root, scaled
/// by the inverse of the length; it succeeds exactly when the root and the
/// length are invertible, which in a prime field is always, the root and
/// length being non-zero.
pub fn ifft_fr(vals: &Vec<Fr>, w: &Fr) -> (r: Option<Vec<Fr>>)
    requires
        w.valid(),
        forall|i: int| 0 <= i < vals.len() ==> (#[trigger] vals[i]).valid(),
        vals.len() >= 1,
        vals.len() <= u64::MAX,
        exists|k: nat| k <= 31 && vals.len() == pow2(k),
    ensures
        (r is Some) == (fr_invertible(w.val()) && fr_invertible(vals.len() as nat)),
        r matches Some(out) ==> {
            &&& out.len() == vals.len()
            &&& forall|i: int| 0 <= i < out.len() ==> (#[trigger] out[i]).valid()
            &&& exists|wi: Fr, ni: Fr|
                {
                    &&& wi.valid() && ni.valid()
                    &&& (wi.val() * w.val()) % fr_p() == 1
                    &&& (ni.val() * (vals.len() as nat)) % fr_p() == 1
                    &&& #[trigger] trigger_pair(wi, ni)
                    &&& forall|i: int| 0 <= i < out.len()
                        ==> (#[trigger] out[i]).val()
                            == (fft_vals(vals_of(vals@), wi.val())[i] * ni.val()) % fr_p()
                }
        },
{
    let winv = match w.eucl_inverse() {
        None => {
            return None;
        },
        Some(v) => v,
    };
    let nfr = Fr::from_u64(vals.len() as u64);
    let ninv = match nfr.eucl_inverse() {
        None => {
            return None;
        },
        Some(v) => v,
    };
    let transformed = fft_fr(vals, &winv);
    let mut out: Vec<Fr> = Vec::new();
    let mut i: usize = 0;
    let n = vals.len();
    while i < n
        invariant
            i <= n,
            n == vals.len(),
            transformed.len() == n,
            forall|j: int| 0 <= j < n ==> (#[trigger] transformed[j]).valid(),
            vals_of(transformed@) == fft_vals(vals_of(vals@), winv.val()),
            ninv.valid(),
            out.len() == i,
            forall|j: int| 0 <= j < i ==> (#[trigger] out[j]).valid(),
            forall|j: int| 0 <= j < i
                ==> (#[trigger] out[j]).val()
                    == (fft_vals(vals_of(vals@), winv.val())[j] * ninv.val()) % fr_p(),
        decreases n - i,
    {
        let s = transformed[i].mul(&ninv);
        proof {
            assert(transformed@[i as int].val() == fft_vals(vals_of(vals@), winv.val())[i as int]);
        }
        out.push(s);
        i = i + 1;
    }
    proof {
        assert(trigger_pair(winv, ninv));
    }
    Some(out)
}

/// A marker used to name the witnesses of the inverse transform.
pub open spec fn trigger_pair(a: Fr, b: Fr) -> bool {
    true
}

/// The reduced product of two elements, as a decomposed element.
#[verifier::opaque]
pub open spec fn fr_mul_spec(a: Fr, b: Fr) -> Fr {
    fr_from_val((a.val() * b.val()) % fr_p())
}

/// The reduced power of an element, as a decomposed element.
#[verifier::opaque]
pub open spec fn fr_pow_spec(w: Fr, i: nat) -> Fr {
    fr_from_val((pow(w.val() as int, i) % (fr_p() as int)) as nat)
}

/// The additive inverse of one, as a decomposed element.
#[verifier::opaque]
pub open spec fn fr_minus_one() -> Fr {
    fr_from_val((fr_p() - 1) as nat)
}

/// The even-index half of any sequence.
pub open spec fn seq_evens<T>(v: Seq<T>) -> Seq<T> {
    Seq::new((v.len() / 2) as nat, |i: int| v[2 * i])
}

/// The odd-index half of any sequence.
pub open spec fn seq_odds<T>(v: Seq<T>) -> Seq<T> {
    Seq::new((v.len() / 2) as nat, |i: int| v[2 * i + 1])
}

/// The compressed encodings of a sequence of points.
pub open spec fn encs_of(s: Seq<G1>) -> Seq<Seq<u8>> {
    s.map_values(|g: G1| g.enc())
}

/// The radix-two transform over the first group: the field transform's
/// recursion with the group's addition for the field's addition and scalar
/// multiplication by the root powers for the field's multiplication; the
/// subtraction of a butterfly is the addition of the term negated by the
/// scalar minus-one.
pub open spec fn fft_g1_enc(v: Seq<Seq<u8>>, w: Fr) -> Seq<Seq<u8>>
    decreases v.len(),
{
    if v.len() <= 1 {
        v
    } else {
        let half = v.len() / 2;
        let ev = fft_g1_enc(seq_evens(v), fr_mul_spec(w, w));
        let od = fft_g1_enc(seq_odds(v), fr_mul_spec(w, w));
        Seq::new(v.len() as nat,
            |i: int| if i < half {
                g1_add_of(ev[i], g1_mul_of(od[i], fr_le32(fr_pow_spec(w, i as nat))))
            } else {
                g1_add_of(ev[i - half],
                    g1_mul_of(g1_mul_of(od[i - half],
                        fr_le32(fr_pow_spec(w, (i - half) as nat))),
                        fr_le32(fr_minus_one())))
            })
    }
}

/// The transform over the first group keeps the length.
pub proof fn lemma_fft_g1_enc_len(v: Seq<Seq<u8>>, w: Fr)
    ensures
        fft_g1_enc(v, w).len() == v.len(),
    decreases v.len(),
{
}

/// The forward transform over the first group, by recursive even/odd
/// splitting through the backend's point operations.
#[verifier::rlimit(100)]
pub fn fft_g1(values: &Vec<G1>, w: &Fr) -> (r: Vec<G1>)
    requires
        w.valid(),
        forall|i: int| 0 <= i < values.len() ==> (#[trigger] values[i]).wf(),
        exists|k: nat| k <= 31 && values.len() == pow2(k),
    ensures
        r.len() == values.len(),
        forall|i: int| 0 <= i < r.len() ==> (#[trigger] r[i]).wf(),
        encs_of(r@) == fft_g1_enc(encs_of(values@), *w),
    decreases values.len(),
{
    let n = values.len();
    if n <= 1 {
        let mut out: Vec<G1> = Vec::new();
        if n == 1 {
            out.push(values[0]);
        }
        proof {
            assert(encs_of(out@) =~= fft_g1_enc(encs_of(values@), *w));
        }
        return out;
    }
    proof {
        let k = choose|k: nat| k <= 31 && values.len() == pow2(k);
        assert(k >= 1) by {
            lemma2_to64();
            if k == 0 {
            }
        }
        lemma_pow2_unfold(k);
        assert((n / 2) as nat == pow2((k - 1) as nat));
    }
    let half = n / 2;
    let mut even_in: Vec<G1> = Vec::new();
    let mut odd_in: Vec<G1> = Vec::new();
    let mut i: usize = 0;
    while i < half
        invariant
            i <= half,
            half == values.len() / 2,
            n == values.len(),
            n == 2 * half,
            forall|j: int| 0 <= j < values.len() ==> (#[trigger] values[j]).wf(),
            even_in.len() == i,
            odd_in.len() == i,
            forall|j: int| 0 <= j < i ==> (#[trigger] even_in[j]) == values[2 * j],
            forall|j: int| 0 <= j < i ==> (#[trigger] odd_in[j]) == values[2 * j + 1],
        decreases half - i,
    {
        even_in.push(values[2 * i]);
        odd_in.push(values[2 * i + 1]);
        i = i + 1;
    }
    let w2 = w.mul(w);
    proof {
        reveal(fr_mul_spec);
        lemma_fr_from_val_id(w2);
        assert(w2 == fr_mul_spec(*w, *w));
        assert(encs_of(even_in@) =~= seq_evens(encs_of(values@)));
        assert(encs_of(odd_in@) =~= seq_odds(encs_of(values@)));
    }
    let fe = fft_g1(&even_in, &w2);
    let fo = fft_g1(&odd_in, &w2);
    let ghost ev = fft_g1_enc(seq_evens(encs_of(values@)), fr_mul_spec(*w, *w));
    let ghost od = fft_g1_enc(seq_odds(encs_of(values@)), fr_mul_spec(*w, *w));
    proof {
        lemma_fft_g1_enc_len(seq_evens(encs_of(values@)), fr_mul_spec(*w, *w));
        lemma_fft_g1_enc_len(seq_odds(encs_of(values@)), fr_mul_spec(*w, *w));
    }
    let minus_one = Fr::zero().sub(&Fr::one());
    proof {
        reveal(fr_minus_one);
        lemma_fr_from_val_id(minus_one);
        assert(minus_one == fr_minus_one());
    }
    let mb = bytes_from_bls_field(&minus_one);
    let mut lo: Vec<G1> = Vec::new();
    let mut hi: Vec<G1> = Vec::new();
    let mut wpow = Fr::one();
    let mut i2: usize = 0;
    proof {
        reveal(fr_pow_spec);
        lemma_pow0(w.val() as int);
        lemma_small_mod(1, fr_p());
        lemma_fr_from_val_id(wpow);
        assert(wpow == fr_pow_spec(*w, 0));
    }
    while i2 < half
        invariant
            i2 <= half,
            n == values.len(),
            n == 2 * half,
            w.valid(),
            fe.len() == half,
            fo.len() == half,
            forall|j: int| 0 <= j < half ==> (#[trigger] fe[j]).wf(),
            forall|j: int| 0 <= j < half ==> (#[trigger] fo[j]).wf(),
            ev.len() == half,
            od.len() == half,
            encs_of(fe@) == ev,
            encs_of(fo@) == od,
            mb@ == fr_le32(fr_minus_one()),
            mb@.len() == 32,
            wpow.valid(),
            wpow == fr_pow_spec(*w, i2 as nat),
            wpow.val() as int == pow(w.val() as int, i2 as nat) % (fr_p() as int),
            lo.len() == i2,
            hi.len() == i2,
            forall|j: int| 0 <= j < i2 ==> (#[trigger] lo[j]).wf(),
            forall|j: int| 0 <= j < i2 ==> (#[trigger] hi[j]).wf(),
            forall|j: int| 0 <= j < i2
                ==> (#[trigger] lo[j]).enc()
                    == g1_add_of(ev[j], g1_mul_of(od[j], fr_le32(fr_pow_spec(*w, j as nat)))),
            forall|j: int| 0 <= j < i2
                ==> (#[trigger] hi[j]).enc()
                    == g1_add_of(ev[j],
                        g1_mul_of(g1_mul_of(od[j], fr_le32(fr_pow_spec(*w, j as nat))),
                            fr_le32(fr_minus_one()))),
        decreases half - i2,
    {
        let wb = bytes_from_bls_field(&wpow);
        let t = g1_mul(&fo[i2], &wb);
        let l = g1_add(&fe[i2], &t);
        let neg_t = g1_mul(&t, &mb);
        let h = g1_add(&fe[i2], &neg_t);
        proof {
            assert(fe@[i2 as int].enc() == ev[i2 as int]);
            assert(fo@[i2 as int].enc() == od[i2 as int]);
        }
        lo.push(l);
        hi.push(h);
        let neww = wpow.mul(w);
        proof {
            reveal(fr_pow_spec);
            let b: int = w.val() as int;
            let pi: int = fr_p() as int;
            lemma_mul_mod_noop_left(pow(b, i2 as nat), b, pi);
            lemma_pow1(b);
            lemma_pow_adds(b, i2 as nat, 1);
            lemma_fr_from_val_id(neww);
            assert((neww.val() as int) == pow(b, (i2 + 1) as nat) % pi);
            assert(neww == fr_pow_spec(*w, (i2 + 1) as nat));
        }
        wpow = neww;
        i2 = i2 + 1;
    }
    let mut out = lo;
    let mut i3: usize = 0;
    let ghost lo_snap = out@;
    while i3 < half
        invariant
            i3 <= half,
            hi.len() == half,
            out@.len() == half + i3,
            out@ =~= lo_snap + hi@.subrange(0, i3 as int),
            lo_snap.len() == half,
        decreases half - i3,
    {
        out.push(hi[i3]);
        proof {
            assert(out@ =~= lo_snap + hi@.subrange(0, i3 as int + 1));
        }
        i3 = i3 + 1;
    }
    proof {
        assert(out@ =~= lo_snap + hi@);
        assert(encs_of(out@) =~= fft_g1_enc(encs_of(values@), *w));
    }
    out
}

/// The inverse transform over the first group: the forward transform by the
/// inverse root, each output scaled by the inverse of the length; it
/// succeeds exactly when the root and the length are invertible.
pub fn ifft_g1(values: &Vec<G1>, w: &Fr) -> (r: Option<Vec<G1>>)
    requires
        w.valid(),
        forall|i: int| 0 <= i < values.len() ==> (#[trigger] values[i]).wf(),
        values.len() >= 1,
        values.len() <= u64::MAX,
        exists|k: nat| k <= 31 && values.len() == pow2(k),
    ensures
        (r is Some) == (fr_invertible(w.val()) && fr_invertible(values.len() as nat)),
        r matches Some(out) ==> {
            &&& out.len() == values.len()
            &&& forall|i: int| 0 <= i < out.len() ==> (#[trigger] out[i]).wf()
            &&& exists|wi: Fr, ni: Fr|
                {
                    &&& wi.valid() && ni.valid()
                    &&& (wi.val() * w.val()) % fr_p() == 1
                    &&& (ni.val() * (values.len() as nat)) % fr_p() == 1
                    &&& #[trigger] trigger_pair(wi, ni)
                    &&& forall|i: int| 0 <= i < out.len()
                        ==> (#[trigger] out[i]).enc()
                            == g1_mul_of(fft_g1_enc(encs_of(values@), wi)[i], fr_le32(ni))
                }
        },
{
    let winv = match w.eucl_inverse() {
        None => {
            return None;
        },
        Some(v) => v,
    };
    let nfr = Fr::from_u64(values.len() as u64);
    let ninv = match nfr.eucl_inverse() {
        None => {
            return None;
        },
        Some(v) => v,
    };
    let transformed = fft_g1(values, &winv);
    let nb = bytes_from_bls_field(&ninv);
    let mut out: Vec<G1> = Vec::new();
    let mut i: usize = 0;
    let n = values.len();
    while i < n
        invariant
            i <= n,
            n == values.len(),
            transformed.len() == n,
            forall|j: int| 0 <= j < n ==> (#[trigger] transformed[j]).wf(),
            encs_of(transformed@) == fft_g1_enc(encs_of(values@), winv),
            ninv.valid(),
            nb@ == fr_le32(ninv),
            nb@.len() == 32,
            out.len() == i,
            forall|j: int| 0 <= j < i ==> (#[trigger] out[j]).wf(),
            forall|j: int| 0 <= j < i
                ==> (#[trigger] out[j]).enc()
                    == g1_mul_of(fft_g1_enc(encs_of(values@), winv)[j], fr_le32(ninv)),
        decreases n - i,
    {
        let scaled = g1_mul(&transformed[i], &nb);
        proof {
            assert(transformed@[i as int].enc()
                == fft_g1_enc(encs_of(values@), winv)[i as int]);
        }
        out.push(scaled);
        i = i + 1;
    }
    proof {
        assert(trigger_pair(winv, ninv));
    }
    Some(out)
}

/// Two complete tables for one scale hold the same elements: loading a setup
/// for a given domain size is deterministic.
pub proof fn lemma_settings_deterministic(a: &FFTSettings, b: &FFTSettings)
    requires
        a.wf(),
        b.wf(),
        a.max_scale == b.max_scale,
    ensures
        a.expanded_roots_of_unity@ == b.expanded_roots_of_unity@,
        a.roots_of_unity@ == b.roots_of_unity@,
{
    assert forall|i: int| 0 <= i < a.expanded_roots_of_unity.len()
        implies a.expanded_roots_of_unity@[i] == b.expanded_roots_of_unity@[i] by {
        crate::fr::lemma_fr_val_injective(
            a.expanded_roots_of_unity@[i], b.expanded_roots_of_unity@[i]);
    }
    assert(a.expanded_roots_of_unity@ =~= b.expanded_roots_of_unity@);
    assert forall|i: int| 0 <= i < a.roots_of_unity.len()
        implies a.roots_of_unity@[i] == b.roots_of_unity@[i] by {
        lemma_bit_rev_bound(i as nat, a.max_scale as nat);
    }
    assert(a.roots_of_unity@ =~= b.roots_of_unity@);
}

} // verus!
