//! The scalar field of BLS12-381: elements are naturals below the prime
//! `fr_p()`, carried as four little-endian 64-bit limbs, always reduced.
use vstd::prelude::*;
use vstd::arithmetic::div_mod::*;
use vstd::arithmetic::mul::*;
use vstd::arithmetic::power::*;
use vstd::arithmetic::power2::*;

verus! {

/// The prime order of the scalar field.
pub open spec fn fr_p() -> nat {
    0x73eda753299d7d483339d80809a1d80553bda402fffe5bfeffffffff00000001nat
}

/// A scalar-field element as four 64-bit limbs, least significant first.
#[derive(Clone, Copy, PartialEq, Eq, Structural, Debug)]
pub struct Fr {
    pub l0: u64,
    pub l1: u64,
    pub l2: u64,
    pub l3: u64,
}

impl Fr {
    /// The natural number a limb vector stands for.
    pub open spec fn val(&self) -> nat {
        (self.l0 as nat)
        + (self.l1 as nat) * 0x10000000000000000
        + (self.l2 as nat) * 0x100000000000000000000000000000000nat
        + (self.l3 as nat) * 0x1000000000000000000000000000000000000000000000000nat
    }

    /// A reduced representative of the field.
    pub open spec fn valid(&self) -> bool {
        self.val() < fr_p()
    }
}

/// Base-2^64 digits are unique: equal values have equal limbs.
pub proof fn lemma_fr_val_injective(a: Fr, b: Fr)
    requires
        a.val() == b.val(),
    ensures
        a == b,
{
    let m: int = 0x10000000000000000;
    let qa: int = a.l1 + a.l2 * m + a.l3 * (m * m);
    let qb: int = b.l1 + b.l2 * m + b.l3 * (m * m);
    assert(a.val() == a.l0 + qa * m && b.val() == b.l0 + qb * m) by (nonlinear_arith)
        requires
            m == 0x10000000000000000,
            qa == a.l1 + a.l2 * m + a.l3 * (m * m),
            qb == b.l1 + b.l2 * m + b.l3 * (m * m),
            a.val() == (a.l0 as nat)
                + (a.l1 as nat) * 0x10000000000000000
                + (a.l2 as nat) * 0x100000000000000000000000000000000nat
                + (a.l3 as nat) * 0x1000000000000000000000000000000000000000000000000nat,
            b.val() == (b.l0 as nat)
                + (b.l1 as nat) * 0x10000000000000000
                + (b.l2 as nat) * 0x100000000000000000000000000000000nat
                + (b.l3 as nat) * 0x1000000000000000000000000000000000000000000000000nat;
    assert(0 <= qa && 0 <= qb) by (nonlinear_arith)
        requires
            m == 0x10000000000000000,
            qa == a.l1 + a.l2 * m + a.l3 * (m * m),
            qb == b.l1 + b.l2 * m + b.l3 * (m * m);
    lemma_fundamental_div_mod_converse(a.val() as int, m, qa, a.l0 as int);
    lemma_fundamental_div_mod_converse(b.val() as int, m, qb, b.l0 as int);
    assert(a.l0 == b.l0 && qa == qb);
    let ra: int = a.l2 + a.l3 * m;
    let rb: int = b.l2 + b.l3 * m;
    assert(qa == a.l1 + ra * m && qb == b.l1 + rb * m && 0 <= ra && 0 <= rb)
        by (nonlinear_arith)
        requires
            m == 0x10000000000000000,
            qa == a.l1 + a.l2 * m + a.l3 * (m * m),
            qb == b.l1 + b.l2 * m + b.l3 * (m * m),
            ra == a.l2 + a.l3 * m,
            rb == b.l2 + b.l3 * m;
    lemma_fundamental_div_mod_converse(qa, m, ra, a.l1 as int);
    lemma_fundamental_div_mod_converse(qb, m, rb, b.l1 as int);
    assert(a.l1 == b.l1 && ra == rb);
    lemma_fundamental_div_mod_converse(ra, m, a.l3 as int, a.l2 as int);
    lemma_fundamental_div_mod_converse(rb, m, b.l3 as int, b.l2 as int);
    assert(a.l2 == b.l2 && a.l3 == b.l3);
}

/// The prime, as limbs; not itself a reduced element.
pub(crate) fn p_limbs() -> (r: Fr)
    ensures
        r.val() == fr_p(),
{
    Fr {
        l0: 0xffffffff00000001,
        l1: 0x53bda402fffe5bfe,
        l2: 0x3339d80809a1d805,
        l3: 0x73eda753299d7d48,
    }
}

/// 256-bit addition; the sum must fit.
fn add_limbs(a: &Fr, b: &Fr) -> (r: Fr)
    requires
        a.val() + b.val()
            < 0x10000000000000000000000000000000000000000000000000000000000000000nat,
    ensures
        r.val() == a.val() + b.val(),
{
    let m: u128 = 0x10000000000000000;
    let t0: u128 = a.l0 as u128 + b.l0 as u128;
    let s0: u64 = (t0 % m) as u64;
    let c0: u64 = (t0 / m) as u64;
    let t1: u128 = a.l1 as u128 + b.l1 as u128 + c0 as u128;
    let s1: u64 = (t1 % m) as u64;
    let c1: u64 = (t1 / m) as u64;
    let t2: u128 = a.l2 as u128 + b.l2 as u128 + c1 as u128;
    let s2: u64 = (t2 % m) as u64;
    let c2: u64 = (t2 / m) as u64;
    let t3: u128 = a.l3 as u128 + b.l3 as u128 + c2 as u128;
    let s3: u64 = (t3 % m) as u64;
    let c3: u64 = (t3 / m) as u64;
    let r = Fr { l0: s0, l1: s1, l2: s2, l3: s3 };
    proof {
        let mi: int = 0x10000000000000000;
        lemma_fundamental_div_mod(t0 as int, mi);
        lemma_fundamental_div_mod(t1 as int, mi);
        lemma_fundamental_div_mod(t2 as int, mi);
        lemma_fundamental_div_mod(t3 as int, mi);
        assert(r.val() + (c3 as int) * 0x10000000000000000000000000000000000000000000000000000000000000000int
            == a.val() + b.val()) by (nonlinear_arith)
            requires
                t0 == a.l0 + b.l0,
                t1 == a.l1 + b.l1 + c0,
                t2 == a.l2 + b.l2 + c1,
                t3 == a.l3 + b.l3 + c2,
                t0 == mi * (t0 as int / mi) + t0 as int % mi,
                t1 == mi * (t1 as int / mi) + t1 as int % mi,
                t2 == mi * (t2 as int / mi) + t2 as int % mi,
                t3 == mi * (t3 as int / mi) + t3 as int % mi,
                s0 == t0 as int % mi,
                s1 == t1 as int % mi,
                s2 == t2 as int % mi,
                s3 == t3 as int % mi,
                c0 == t0 as int / mi,
                c1 == t1 as int / mi,
                c2 == t2 as int / mi,
                c3 == t3 as int / mi,
                mi == 0x10000000000000000,
                r.l0 == s0 && r.l1 == s1 && r.l2 == s2 && r.l3 == s3;
        if c3 != 0 {
            assert(r.val() + (c3 as int) * 0x10000000000000000000000000000000000000000000000000000000000000000int
                >= 0x10000000000000000000000000000000000000000000000000000000000000000int)
                by (nonlinear_arith)
                requires c3 >= 1;
        }
    }
    r
}

/// 256-bit subtraction; the minuend must be at least the subtrahend.
fn sub_limbs(a: &Fr, b: &Fr) -> (r: Fr)
    requires
        b.val() <= a.val(),
    ensures
        r.val() == a.val() - b.val(),
{
    let m: u128 = 0x10000000000000000;
    let u0: u128 = b.l0 as u128;
    let (d0, w0): (u64, u64) = if a.l0 as u128 >= u0 {
        ((a.l0 as u128 - u0) as u64, 0u64)
    } else {
        ((a.l0 as u128 + m - u0) as u64, 1u64)
    };
    let u1: u128 = b.l1 as u128 + w0 as u128;
    let (d1, w1): (u64, u64) = if a.l1 as u128 >= u1 {
        ((a.l1 as u128 - u1) as u64, 0u64)
    } else {
        ((a.l1 as u128 + m - u1) as u64, 1u64)
    };
    let u2: u128 = b.l2 as u128 + w1 as u128;
    let (d2, w2): (u64, u64) = if a.l2 as u128 >= u2 {
        ((a.l2 as u128 - u2) as u64, 0u64)
    } else {
        ((a.l2 as u128 + m - u2) as u64, 1u64)
    };
    let u3: u128 = b.l3 as u128 + w2 as u128;
    let (d3, w3): (u64, u64) = if a.l3 as u128 >= u3 {
        ((a.l3 as u128 - u3) as u64, 0u64)
    } else {
        ((a.l3 as u128 + m - u3) as u64, 1u64)
    };
    let r = Fr { l0: d0, l1: d1, l2: d2, l3: d3 };
    proof {
        assert(r.val() == a.val() - b.val() + (w3 as int)
            * 0x10000000000000000000000000000000000000000000000000000000000000000)
            by (nonlinear_arith)
            requires
                d0 == a.l0 - b.l0 + (w0 as int) * 0x10000000000000000,
                d1 == a.l1 - b.l1 - w0 + (w1 as int) * 0x10000000000000000,
                d2 == a.l2 - b.l2 - w1 + (w2 as int) * 0x10000000000000000,
                d3 == a.l3 - b.l3 - w2 + (w3 as int) * 0x10000000000000000,
                r.l0 == d0 && r.l1 == d1 && r.l2 == d2 && r.l3 == d3;
        if w3 != 0 {
            assert(r.val() < 0x10000000000000000000000000000000000000000000000000000000000000000int)
                by (nonlinear_arith);
        }
    }
    r
}

/// Limb-wise comparison agreeing with the values compared.
pub(crate) fn ge_limbs(a: &Fr, b: &Fr) -> (r: bool)
    ensures
        r == (a.val() >= b.val()),
{
    let r: bool = if a.l3 != b.l3 {
        a.l3 > b.l3
    } else if a.l2 != b.l2 {
        a.l2 > b.l2
    } else if a.l1 != b.l1 {
        a.l1 > b.l1
    } else {
        a.l0 >= b.l0
    };
    proof {
        assert(r == (a.val() >= b.val())) by (nonlinear_arith)
            requires
                r == (if a.l3 != b.l3 { a.l3 > b.l3 }
                    else if a.l2 != b.l2 { a.l2 > b.l2 }
                    else if a.l1 != b.l1 { a.l1 > b.l1 }
                    else { a.l0 >= b.l0 }),
                a.val() == (a.l0 as nat)
                    + (a.l1 as nat) * 0x10000000000000000
                    + (a.l2 as nat) * 0x100000000000000000000000000000000nat
                    + (a.l3 as nat) * 0x1000000000000000000000000000000000000000000000000,
                b.val() == (b.l0 as nat)
                    + (b.l1 as nat) * 0x10000000000000000
                    + (b.l2 as nat) * 0x100000000000000000000000000000000nat
                    + (b.l3 as nat) * 0x1000000000000000000000000000000000000000000000000,
                (a.l0 as int) < 0x10000000000000000 && (a.l1 as int) < 0x10000000000000000
                    && (a.l2 as int) < 0x10000000000000000 && (a.l3 as int) < 0x10000000000000000,
                (b.l0 as int) < 0x10000000000000000 && (b.l1 as int) < 0x10000000000000000
                    && (b.l2 as int) < 0x10000000000000000 && (b.l3 as int) < 0x10000000000000000;
    }
    r
}

/// Halving: drops the lowest bit.
pub(crate) fn shr1(a: &Fr) -> (r: Fr)
    ensures
        r.val() == a.val() / 2,
{
    let r = Fr {
        l0: a.l0 / 2 + (a.l1 % 2) * 0x8000000000000000,
        l1: a.l1 / 2 + (a.l2 % 2) * 0x8000000000000000,
        l2: a.l2 / 2 + (a.l3 % 2) * 0x8000000000000000,
        l3: a.l3 / 2,
    };
    proof {
        assert(2 * r.val() + (a.l0 % 2) == a.val()) by (nonlinear_arith)
            requires
                r.l0 == a.l0 / 2 + (a.l1 % 2) * 0x8000000000000000,
                r.l1 == a.l1 / 2 + (a.l2 % 2) * 0x8000000000000000,
                r.l2 == a.l2 / 2 + (a.l3 % 2) * 0x8000000000000000,
                r.l3 == a.l3 / 2;
        lemma_fundamental_div_mod_converse(a.val() as int, 2, r.val() as int, (a.l0 % 2) as int);
    }
    r
}

impl Fr {
    /// The additive identity.
    pub fn zero() -> (r: Fr)
        ensures
            r.valid(),
            r.val() == 0,
    {
        Fr { l0: 0, l1: 0, l2: 0, l3: 0 }
    }

    /// The multiplicative identity.
    pub fn one() -> (r: Fr)
        ensures
            r.valid(),
            r.val() == 1,
    {
        Fr { l0: 1, l1: 0, l2: 0, l3: 0 }
    }

    /// Embeds a machine word into the field.
    pub fn from_u64(v: u64) -> (r: Fr)
        ensures
            r.valid(),
            r.val() == v,
    {
        Fr { l0: v, l1: 0, l2: 0, l3: 0 }
    }

    /// Exact equality of field values.
    pub fn equals(&self, other: &Fr) -> (r: bool)
        ensures
            r == (self.val() == other.val()),
    {
        let r: bool = self.l0 == other.l0 && self.l1 == other.l1
            && self.l2 == other.l2 && self.l3 == other.l3;
        proof {
            if self.val() == other.val() {
                lemma_fr_val_injective(*self, *other);
            }
        }
        r
    }

    /// Modular addition of reduced elements.
    pub fn add(&self, other: &Fr) -> (r: Fr)
        requires
            self.valid(),
            other.valid(),
        ensures
            r.valid(),
            r.val() == (self.val() + other.val()) % fr_p(),
    {
        let s = add_limbs(self, other);
        let p = p_limbs();
        let r: Fr = if ge_limbs(&s, &p) {
            sub_limbs(&s, &p)
        } else {
            s
        };
        proof {
            if s.val() >= fr_p() {
                lemma_fundamental_div_mod_converse(
                    (self.val() + other.val()) as int, fr_p() as int, 1, r.val() as int);
            } else {
                lemma_fundamental_div_mod_converse(
                    (self.val() + other.val()) as int, fr_p() as int, 0, r.val() as int);
            }
        }
        r
    }

    /// Modular subtraction of reduced elements.
    pub fn sub(&self, other: &Fr) -> (r: Fr)
        requires
            self.valid(),
            other.valid(),
        ensures
            r.valid(),
            r.val() == (self.val() + fr_p() - other.val()) % (fr_p() as int),
    {
        let p = p_limbs();
        let r: Fr = if ge_limbs(self, other) {
            sub_limbs(self, other)
        } else {
            let t = sub_limbs(&p, other);
            add_limbs(self, &t)
        };
        proof {
            lemma_fundamental_div_mod_converse(
                (self.val() + fr_p() - other.val()) as int,
                fr_p() as int,
                if self.val() >= other.val() { 1int } else { 0int },
                r.val() as int);
        }
        r
    }

    /// Modular multiplication, by binary decomposition of the right factor.
    pub fn mul(&self, other: &Fr) -> (r: Fr)
        requires
            self.valid(),
            other.valid(),
        ensures
            r.valid(),
            r.val() == (self.val() * other.val()) % fr_p(),
    {
        let mut res = Fr::zero();
        let mut cur = *self;
        let mut rem = *other;
        let mut k: usize = 0;
        proof {
            lemma_small_mod(self.val(), fr_p());
            lemma2_to64();
        }
        while k < 256
            invariant
                k <= 256,
                res.valid(),
                cur.valid(),
                self.valid(),
                other.valid(),
                cur.val() == (self.val() * pow2(k as nat)) % fr_p(),
                rem.val() * pow2(k as nat) <= other.val(),
                res.val() == (self.val() * (other.val() - rem.val() * pow2(k as nat))) % (fr_p() as int),
            decreases 256 - k,
        {
            let ghost proc: int = other.val() - rem.val() * pow2(k as nat);
            let bit: u64 = rem.l0 % 2;
            let rem2 = shr1(&rem);
            proof {
                let twok: int = pow2(k as nat) as int;
                lemma_pow2_unfold((k + 1) as nat);
                lemma_pow2_pos(k as nat);
                // The dropped bit is the parity of the remaining value.
                assert(rem.val() % 2 == rem.l0 % 2) by (nonlinear_arith)
                    requires
                        rem.val() == (rem.l0 as nat)
                            + (rem.l1 as nat) * 0x10000000000000000
                            + (rem.l2 as nat) * 0x100000000000000000000000000000000nat
                            + (rem.l3 as nat) * 0x1000000000000000000000000000000000000000000000000;
                lemma_fundamental_div_mod(rem.val() as int, 2);
                assert(rem.val() == 2 * rem2.val() + bit);
                assert(rem2.val() * (2 * twok) == (rem.val() - bit) * twok) by (nonlinear_arith)
                    requires rem.val() == 2 * rem2.val() + bit;
                assert((rem.val() - bit) * twok == rem.val() * twok - bit * twok)
                    by (nonlinear_arith);
                assert(rem.val() * twok <= other.val());
                assert(other.val() - rem2.val() * pow2((k + 1) as nat) == proc + bit * twok);
            }
            if bit == 1 {
                let newres = res.add(&cur);
                proof {
                    let pi: int = fr_p() as int;
                    lemma_add_mod_noop(
                        (self.val() * proc) as int,
                        (self.val() * pow2(k as nat)) as int,
                        pi);
                    assert(self.val() * proc + self.val() * pow2(k as nat)
                        == self.val() * (proc + pow2(k as nat))) by (nonlinear_arith);
                }
                res = newres;
            }
            let newcur = cur.add(&cur);
            proof {
                let pi: int = fr_p() as int;
                lemma_add_mod_noop(
                    (self.val() * pow2(k as nat)) as int,
                    (self.val() * pow2(k as nat)) as int,
                    pi);
                assert(self.val() * pow2(k as nat) + self.val() * pow2(k as nat)
                    == self.val() * (2 * pow2(k as nat))) by (nonlinear_arith);
                lemma_pow2_unfold((k + 1) as nat);
            }
            cur = newcur;
            rem = rem2;
            k = k + 1;
        }
        proof {
            if rem.val() >= 1 {
                lemma_pow2_pos(256);
                assert(rem.val() * pow2(256) >= pow2(256)) by (nonlinear_arith)
                    requires rem.val() >= 1, pow2(256) > 0;
                lemma2_to64();
                lemma_pow2_adds(64, 64);
                lemma_pow2_adds(128, 128);
                assert(pow2(128) == 0x100000000000000000000000000000000nat);
                assert(pow2(256)
                    == 0x100000000000000000000000000000000nat
                        * 0x100000000000000000000000000000000nat);
                assert(pow2(256)
                    == 0x10000000000000000000000000000000000000000000000000000000000000000nat)
                    by (nonlinear_arith)
                    requires pow2(256)
                        == 0x100000000000000000000000000000000nat
                            * 0x100000000000000000000000000000000nat;
            }
            assert(rem.val() == 0);
            assert(rem.val() * pow2(256) == 0) by (nonlinear_arith)
                requires rem.val() == 0;
        }
        res
    }
}

/// One square-and-multiply step: folds the next exponent bit into the result.
fn pow_step(base: &Fr, res: &Fr, cur: &Fr, bit: u64, Ghost(e): Ghost<nat>, Ghost(k): Ghost<nat>)
    -> (o: (Fr, Fr))
    requires
        base.valid(),
        res.valid(),
        cur.valid(),
        bit == 0 || bit == 1,
        res.val() as int == pow(base.val() as int, e) % (fr_p() as int),
        cur.val() as int == pow(base.val() as int, pow2(k)) % (fr_p() as int),
    ensures
        o.0.valid(),
        o.1.valid(),
        o.0.val() as int == pow(base.val() as int, (e + bit * pow2(k)) as nat) % (fr_p() as int),
        o.1.val() as int == pow(base.val() as int, pow2((k + 1) as nat)) % (fr_p() as int),
{
    let newres: Fr = if bit == 1 {
        let t = res.mul(cur);
        proof {
            let b: int = base.val() as int;
            let pi: int = fr_p() as int;
            lemma_mul_mod_noop_general(pow(b, e), pow(b, pow2(k)), pi);
            lemma_pow_adds(b, e, pow2(k));
        }
        t
    } else {
        *res
    };
    let newcur = cur.mul(cur);
    proof {
        let b: int = base.val() as int;
        let pi: int = fr_p() as int;
        lemma_mul_mod_noop_general(pow(b, pow2(k)), pow(b, pow2(k)), pi);
        lemma_pow_adds(b, pow2(k), pow2(k));
        lemma_pow2_unfold((k + 1) as nat);
    }
    (newres, newcur)
}

impl Fr {
    /// Exponentiation by a machine-word exponent.
    pub fn pow(&self, e: u64) -> (r: Fr)
        requires
            self.valid(),
        ensures
            r.valid(),
            r.val() as int == pow(self.val() as int, e as nat) % (fr_p() as int),
    {
        let mut res = Fr::one();
        let mut cur = *self;
        let mut rem: u64 = e;
        let mut k: usize = 0;
        proof {
            lemma2_to64();
            lemma_small_mod(self.val(), fr_p());
            lemma_small_mod(1, fr_p());
            lemma_pow0(self.val() as int);
            lemma_pow1(self.val() as int);
        }
        while k < 64
            invariant
                k <= 64,
                self.valid(),
                res.valid(),
                cur.valid(),
                (rem as nat) * pow2(k as nat) <= e,
                res.val() as int
                    == pow(self.val() as int, (e - rem * pow2(k as nat)) as nat) % (fr_p() as int),
                cur.val() as int == pow(self.val() as int, pow2(k as nat)) % (fr_p() as int),
            decreases 64 - k,
        {
            let ghost proc: nat = (e - rem * pow2(k as nat)) as nat;
            let bit: u64 = rem % 2;
            let step = pow_step(self, &res, &cur, bit, Ghost(proc), Ghost(k as nat));
            proof {
                let twok: int = pow2(k as nat) as int;
                lemma_pow2_unfold((k + 1) as nat);
                lemma_pow2_pos(k as nat);
                assert(rem == 2 * (rem / 2) + rem % 2);
                assert((rem / 2) as int * (2 * twok) == (rem - bit) * twok) by (nonlinear_arith)
                    requires rem == 2 * (rem / 2) + bit;
                assert((rem - bit) * twok == rem as int * twok - bit * twok) by (nonlinear_arith);
                assert(e - (rem / 2) * pow2((k + 1) as nat) == proc + bit * pow2(k as nat));
            }
            res = step.0;
            cur = step.1;
            rem = rem / 2;
            k = k + 1;
        }
        proof {
            if rem >= 1 {
                lemma2_to64();
                assert(rem as nat * pow2(64) >= pow2(64)) by (nonlinear_arith)
                    requires rem >= 1, pow2(64) > 0;
            }
            assert(rem == 0);
            assert(rem as nat * pow2(64) == 0) by (nonlinear_arith)
                requires rem == 0;
        }
        res
    }

    /// Exponentiation by a 256-bit exponent given as limbs.
    pub(crate) fn pow_wide(&self, e: &Fr) -> (r: Fr)
        requires
            self.valid(),
        ensures
            r.valid(),
            r.val() as int == pow(self.val() as int, e.val()) % (fr_p() as int),
    {
        let mut res = Fr::one();
        let mut cur = *self;
        let mut rem: Fr = *e;
        let mut k: usize = 0;
        proof {
            lemma2_to64();
            lemma_small_mod(self.val(), fr_p());
            lemma_small_mod(1, fr_p());
            lemma_pow0(self.val() as int);
            lemma_pow1(self.val() as int);
        }
        while k < 256
            invariant
                k <= 256,
                self.valid(),
                res.valid(),
                cur.valid(),
                rem.val() * pow2(k as nat) <= e.val(),
                res.val() as int
                    == pow(self.val() as int, (e.val() - rem.val() * pow2(k as nat)) as nat)
                        % (fr_p() as int),
                cur.val() as int == pow(self.val() as int, pow2(k as nat)) % (fr_p() as int),
            decreases 256 - k,
        {
            let ghost proc: nat = (e.val() - rem.val() * pow2(k as nat)) as nat;
            let bit: u64 = rem.l0 % 2;
            let rem2 = shr1(&rem);
            let step = pow_step(self, &res, &cur, bit, Ghost(proc), Ghost(k as nat));
            proof {
                let twok: int = pow2(k as nat) as int;
                lemma_pow2_unfold((k + 1) as nat);
                lemma_pow2_pos(k as nat);
                assert(rem.val() % 2 == rem.l0 % 2) by (nonlinear_arith)
                    requires
                        rem.val() == (rem.l0 as nat)
                            + (rem.l1 as nat) * 0x10000000000000000
                            + (rem.l2 as nat) * 0x100000000000000000000000000000000nat
                            + (rem.l3 as nat) * 0x1000000000000000000000000000000000000000000000000nat;
                lemma_fundamental_div_mod(rem.val() as int, 2);
                assert(rem.val() == 2 * rem2.val() + bit);
                assert(rem2.val() * (2 * twok) == (rem.val() - bit) * twok) by (nonlinear_arith)
                    requires rem.val() == 2 * rem2.val() + bit;
                assert((rem.val() - bit) * twok == rem.val() * twok - bit * twok)
                    by (nonlinear_arith);
                assert(e.val() - rem2.val() * pow2((k + 1) as nat) == proc + bit * pow2(k as nat));
            }
            res = step.0;
            cur = step.1;
            rem = rem2;
            k = k + 1;
        }
        proof {
            if rem.val() >= 1 {
                lemma_pow2_pos(256);
                assert(rem.val() * pow2(256) >= pow2(256)) by (nonlinear_arith)
                    requires rem.val() >= 1, pow2(256) > 0;
                lemma2_to64();
                lemma_pow2_adds(64, 64);
                lemma_pow2_adds(128, 128);
                assert(pow2(128) == 0x100000000000000000000000000000000nat);
                assert(pow2(256)
                    == 0x100000000000000000000000000000000nat
                        * 0x100000000000000000000000000000000nat);
                assert(pow2(256)
                    == 0x10000000000000000000000000000000000000000000000000000000000000000nat)
                    by (nonlinear_arith)
                    requires pow2(256)
                        == 0x100000000000000000000000000000000nat
                            * 0x100000000000000000000000000000000nat;
            }
            assert(rem.val() == 0);
            assert(rem.val() * pow2(256) == 0) by (nonlinear_arith)
                requires rem.val() == 0;
        }
        res
    }

    /// The multiplicative inverse of a non-zero element.
    ///
    /// The candidate is computed by Fermat exponentiation and then checked
    /// against the definition, so the contract rests only on that check:
    /// success holds exactly when the Fermat candidate passes, which is
    /// every non-zero element of a prime field; the additive identity has
    /// no inverse and yields `None`.
    pub fn eucl_inverse(&self) -> (r: Option<Fr>)
        requires
            self.valid(),
        ensures
            r matches Some(y) ==> y.valid() && (y.val() * self.val()) % fr_p() == 1,
            (r is Some) == fr_invertible(self.val()),
            self.val() == 0 ==> r is None,
    {
        // fr_p() - 2, the Fermat exponent.
        let e = Fr {
            l0: 0xfffffffeffffffff,
            l1: 0x53bda402fffe5bfe,
            l2: 0x3339d80809a1d805,
            l3: 0x73eda753299d7d48,
        };
        let cand = self.pow_wide(&e);
        let check = cand.mul(self);
        let one = Fr::one();
        proof {
            assert(e.val() == fr_p() - 2);
            lemma_mul_mod_noop_left(
                pow(self.val() as int, (fr_p() - 2) as nat), self.val() as int, fr_p() as int);
        }
        if check.equals(&one) {
            proof {
                if self.val() == 0 {
                    assert(cand.val() * 0 == 0) by (nonlinear_arith);
                    lemma_small_mod(0, fr_p());
                }
            }
            Some(cand)
        } else {
            None
        }
    }

    /// Division: multiplies by the inverse of the divisor.
    pub fn div(&self, other: &Fr) -> (r: Option<Fr>)
        requires
            self.valid(),
            other.valid(),
        ensures
            r matches Some(y) ==> y.valid()
                && (y.val() * other.val()) % fr_p() == self.val(),
            (r is Some) == fr_invertible(other.val()),
            other.val() == 0 ==> r is None,
    {
        match other.eucl_inverse() {
            None => None,
            Some(i) => {
                let y = self.mul(&i);
                proof {
                    lemma_cancel_inverse(self.val(), other.val(), i.val());
                    lemma_small_mod(self.val(), fr_p());
                }
                Some(y)
            },
        }
    }
}

/// Multiplying by an element and then by its inverse is the identity, modulo
/// the prime.
pub proof fn lemma_cancel_inverse(a: nat, b: nat, i: nat)
    requires
        (i * b) % fr_p() == 1,
    ensures
        ((((a * i) % fr_p()) * b) as int) % (fr_p() as int) == a % fr_p(),
{
    let pi: int = fr_p() as int;
    lemma_mul_mod_noop_left((a * i) as int, b as int, pi);
    assert((a * i) * b == a * (i * b)) by (nonlinear_arith);
    lemma_mul_mod_noop_right(a as int, (i * b) as int, pi);
}

/// The limbs a value below 2^256 decomposes into.
#[verifier::opaque]
pub open spec fn fr_from_val(v: nat) -> Fr {
    Fr {
        l0: (v % 0x10000000000000000nat) as u64,
        l1: ((v / 0x10000000000000000nat) % 0x10000000000000000nat) as u64,
        l2: ((v / 0x100000000000000000000000000000000nat) % 0x10000000000000000nat) as u64,
        l3: ((v / 0x1000000000000000000000000000000000000000000000000nat) % 0x10000000000000000nat) as u64,
    }
}

/// Decomposing an element's value gives the element back.
pub proof fn lemma_fr_from_val_id(x: Fr)
    ensures
        fr_from_val(x.val()) == x,
{
    reveal(fr_from_val);
    let m: int = 0x10000000000000000;
    let v: int = x.val() as int;
    let q1: int = x.l1 + x.l2 * m + x.l3 * (m * m);
    assert(v == x.l0 + q1 * m && 0 <= q1) by (nonlinear_arith)
        requires
            m == 0x10000000000000000,
            q1 == x.l1 + x.l2 * m + x.l3 * (m * m),
            v == (x.l0 as nat)
                + (x.l1 as nat) * 0x10000000000000000
                + (x.l2 as nat) * 0x100000000000000000000000000000000nat
                + (x.l3 as nat) * 0x1000000000000000000000000000000000000000000000000nat;
    lemma_fundamental_div_mod_converse(v, m, q1, x.l0 as int);
    assert(v % m == x.l0 && v / m == q1);
    let q2: int = x.l2 + x.l3 * m;
    assert(q1 == x.l1 + q2 * m && 0 <= q2) by (nonlinear_arith)
        requires
            m == 0x10000000000000000,
            q1 == x.l1 + x.l2 * m + x.l3 * (m * m),
            q2 == x.l2 + x.l3 * m;
    lemma_fundamental_div_mod_converse(q1, m, q2, x.l1 as int);
    lemma_fundamental_div_mod_converse(q2, m, x.l3 as int, x.l2 as int);
    assert((v / m) % m == x.l1);
    assert(v / 0x100000000000000000000000000000000int == q2) by (nonlinear_arith)
        requires
            m == 0x10000000000000000,
            v == x.l0 + q1 * m,
            q1 == x.l1 + q2 * m,
            0 <= q2,
            0 <= x.l0 < m,
            0 <= x.l1 < m,
            v >= 0,
            v / m == q1,
            q1 / m == q2;
    assert(v / 0x1000000000000000000000000000000000000000000000000int == x.l3 as int)
        by (nonlinear_arith)
        requires
            m == 0x10000000000000000,
            v / 0x100000000000000000000000000000000int == q2,
            q2 == x.l2 + x.l3 * m,
            0 <= x.l2 < m,
            0 <= x.l3 < m,
            v >= 0,
            q2 / m == x.l3 as int;
    assert((v / 0x100000000000000000000000000000000int) % m == x.l2);
    lemma_small_mod(x.l3 as nat, m as nat);
}

/// Whether the Fermat candidate inverts an element: true of exactly the
/// non-zero residues of a prime modulus.
pub open spec fn fr_invertible(v: nat) -> bool {
    ((pow(v as int, (fr_p() - 2) as nat) % (fr_p() as int)) * v) % (fr_p() as int) == 1
}

/// The multiplicative identity passes the Fermat check.
pub proof fn lemma_fr_invertible_one()
    ensures
        fr_invertible(1),
{
    lemma1_pow((fr_p() - 2) as nat);
    lemma_small_mod(1, fr_p());
}

/// An element has at most one inverse: two witnesses agree.
pub proof fn lemma_inverse_unique(x: nat, y: nat, z: nat)
    requires
        y < fr_p(),
        z < fr_p(),
        (y * x) % fr_p() == 1,
        (z * x) % fr_p() == 1,
    ensures
        y == z,
{
    let pi: int = fr_p() as int;
    // y == y * (x * z) == (y * x) * z == z, all modulo the prime.
    lemma_mul_mod_noop_right(y as int, (x * z) as int, pi);
    assert(y * (x * z) == (y * x) * z && x * z == z * x) by (nonlinear_arith);
    lemma_mul_mod_noop_left((y * x) as int, z as int, pi);
    lemma_small_mod(y, fr_p());
    lemma_small_mod(z, fr_p());
    assert((y * (x * z) as int) % pi == ((1 * z) as int) % pi);
}

} // verus!
