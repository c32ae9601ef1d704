//! Curve points carried in their canonical compressed form.  The curve
//! arithmetic itself belongs to the backend library; here a point is its
//! validated encoding, which is all the commitment engine's bookkeeping
//! reads.
use vstd::prelude::*;
use blst::MultiPoint;

verus! {


/// The canonical compressed encoding of the first group's generator.
pub const G1_GENERATOR_BYTES: [u8; 48] = [
    0x97, 0xf1, 0xd3, 0xa7, 0x31, 0x97, 0xd7, 0x94,
    0x26, 0x95, 0x63, 0x8c, 0x4f, 0xa9, 0xac, 0x0f,
    0xc3, 0x68, 0x8c, 0x4f, 0x97, 0x74, 0xb9, 0x05,
    0xa1, 0x4e, 0x3a, 0x3f, 0x17, 0x1b, 0xac, 0x58,
    0x6c, 0x55, 0xe8, 0x3f, 0xf9, 0x7a, 0x1a, 0xef,
    0xfb, 0x3a, 0xf0, 0x0a, 0xdb, 0x22, 0xc6, 0xbb,
];

/// The canonical compressed encoding of the second group's generator.
pub const G2_GENERATOR_BYTES: [u8; 96] = [
    0x93, 0xe0, 0x2b, 0x60, 0x52, 0x71, 0x9f, 0x60,
    0x7d, 0xac, 0xd3, 0xa0, 0x88, 0x27, 0x4f, 0x65,
    0x59, 0x6b, 0xd0, 0xd0, 0x99, 0x20, 0xb6, 0x1a,
    0xb5, 0xda, 0x61, 0xbb, 0xdc, 0x7f, 0x50, 0x49,
    0x33, 0x4c, 0xf1, 0x12, 0x13, 0x94, 0x5d, 0x57,
    0xe5, 0xac, 0x7d, 0x05, 0x5d, 0x04, 0x2b, 0x7e,
    0x02, 0x4a, 0xa2, 0xb2, 0xf0, 0x8f, 0x0a, 0x91,
    0x26, 0x08, 0x05, 0x27, 0x2d, 0xc5, 0x10, 0x51,
    0xc6, 0xe4, 0x7a, 0xd4, 0xfa, 0x40, 0x3b, 0x02,
    0xb4, 0x51, 0x0b, 0x64, 0x7a, 0xe3, 0xd1, 0x77,
    0x0b, 0xac, 0x03, 0x26, 0xa8, 0x05, 0xbb, 0xef,
    0xd4, 0x80, 0x56, 0xc8, 0xc1, 0x21, 0xbd, 0xb8,
];

/// Whether 48 bytes are a canonical compressed encoding of a point of the
/// first group, on the curve and in the right subgroup, not the identity.
pub uninterp spec fn g1_encoding_valid(bytes: Seq<u8>) -> bool;

/// Whether 96 bytes are a canonical compressed encoding of a point of the
/// second group, on the curve and in the right subgroup, not the identity.
pub uninterp spec fn g2_encoding_valid(bytes: Seq<u8>) -> bool;

/// The compressed encoding of the first group's identity: a tag byte and
/// zeroes.
pub open spec fn is_g1_infinity(bytes: Seq<u8>) -> bool {
    bytes.len() == 48 && bytes[0] == 0xc0u8 && (forall|i: int| 1 <= i < 48 ==> bytes[i] == 0u8)
}

/// The compressed encoding of the second group's identity.
pub open spec fn is_g2_infinity(bytes: Seq<u8>) -> bool {
    bytes.len() == 96 && bytes[0] == 0xc0u8 && (forall|i: int| 1 <= i < 96 ==> bytes[i] == 0u8)
}

/// Relies on `blst::min_pk::PublicKey::key_validate`: it uncompresses 48
/// bytes and accepts exactly the canonical encodings of points on the curve
/// and in the first group's subgroup, rejecting the identity; the verdict is
/// a function of the bytes alone.
#[verifier::external_body]
fn g1_key_validate(bytes: &[u8; 48]) -> (r: bool)
    ensures
        r == g1_encoding_valid(bytes@),
{
    blst::min_pk::PublicKey::key_validate(bytes.as_slice()).is_ok()
}

/// Relies on `blst::min_sig::PublicKey::key_validate`: the same check for 96
/// compressed bytes against the second group.
#[verifier::external_body]
fn g2_key_validate(bytes: &[u8; 96]) -> (r: bool)
    ensures
        r == g2_encoding_valid(bytes@),
{
    blst::min_sig::PublicKey::key_validate(bytes.as_slice()).is_ok()
}

/// A point of the first group: 48 compressed bytes that passed validation,
/// or the identity's encoding.
#[derive(Clone, Copy, Debug)]
pub struct G1 {
    bytes: [u8; 48],
}

/// A point of the second group: 96 compressed bytes that passed validation,
/// or the identity's encoding.
#[derive(Clone, Copy, Debug)]
pub struct G2 {
    bytes: [u8; 96],
}

impl G1 {
    /// The encoding this point was built from.
    pub closed spec fn enc(&self) -> Seq<u8> {
        self.bytes@
    }

    /// The held bytes are a valid point encoding.
    pub open spec fn wf(&self) -> bool {
        g1_encoding_valid(self.enc()) || is_g1_infinity(self.enc())
    }
}

impl G2 {
    /// The encoding this point was built from.
    pub closed spec fn enc(&self) -> Seq<u8> {
        self.bytes@
    }

    /// The held bytes are a valid point encoding.
    pub open spec fn wf(&self) -> bool {
        g2_encoding_valid(self.enc()) || is_g2_infinity(self.enc())
    }
}

/// Accepts exactly the valid compressed encodings of the first group,
/// identity included, and keeps the bytes as given.
pub fn bytes_to_g1(bytes: &[u8; 48]) -> (r: Option<G1>)
    ensures
        r matches Some(g) ==> g.wf() && g.enc() == bytes@,
        (r is Some) == (g1_encoding_valid(bytes@) || is_g1_infinity(bytes@)),
{
    let mut inf: bool = bytes[0] == 0xc0;
    let mut i: usize = 1;
    while i < 48
        invariant
            1 <= i <= 48,
            inf == (bytes@[0] == 0xc0u8 && (forall|j: int| 1 <= j < i ==> bytes@[j] == 0u8)),
        decreases 48 - i,
    {
        inf = inf && bytes[i] == 0;
        i = i + 1;
    }
    if inf || g1_key_validate(bytes) {
        Some(G1 { bytes: *bytes })
    } else {
        None
    }
}

/// Accepts exactly the valid compressed encodings of the second group,
/// identity included, and keeps the bytes as given.
pub fn bytes_to_g2(bytes: &[u8; 96]) -> (r: Option<G2>)
    ensures
        r matches Some(g) ==> g.wf() && g.enc() == bytes@,
        (r is Some) == (g2_encoding_valid(bytes@) || is_g2_infinity(bytes@)),
{
    let mut inf: bool = bytes[0] == 0xc0;
    let mut i: usize = 1;
    while i < 96
        invariant
            1 <= i <= 96,
            inf == (bytes@[0] == 0xc0u8 && (forall|j: int| 1 <= j < i ==> bytes@[j] == 0u8)),
        decreases 96 - i,
    {
        inf = inf && bytes[i] == 0;
        i = i + 1;
    }
    if inf || g2_key_validate(bytes) {
        Some(G2 { bytes: *bytes })
    } else {
        None
    }
}

/// Hands back the compressed bytes of a point, unchanged from construction.
pub fn bytes_from_g1(g: &G1) -> (r: [u8; 48])
    ensures
        r@ == g.enc(),
{
    g.bytes
}

/// Hands back the compressed bytes of a point, unchanged from construction.
pub fn bytes_from_g2(g: &G2) -> (r: [u8; 96])
    ensures
        r@ == g.enc(),
{
    g.bytes
}

/// Byte equality of two points of the first group; compressed encodings are
/// canonical, so this is point equality.
pub fn g1_equal(a: &G1, b: &G1) -> (r: bool)
    ensures
        r == (a.enc() =~= b.enc()),
{
    let mut i: usize = 0;
    let mut eq: bool = true;
    while i < 48
        invariant
            i <= 48,
            eq == (forall|j: int| 0 <= j < i ==> a.enc()[j] == b.enc()[j]),
        decreases 48 - i,
    {
        let here: bool = a.bytes[i] == b.bytes[i];
        proof {
            if eq && here {
                assert forall|j: int| 0 <= j < i + 1 implies a.enc()[j] == b.enc()[j] by {
                    if j < i {
                    } else {
                        assert(a.enc()[i as int] == b.enc()[i as int]);
                    }
                }
            }
            if !here {
                assert(a.enc()[i as int] != b.enc()[i as int]);
            }
        }
        eq = eq && here;
        i = i + 1;
    }
    eq
}

/// Decompressing the bytes a point was compressed to gives the same point:
/// the encoding held by a constructed point round-trips unchanged.
pub proof fn lemma_g1_bytes_round_trip(b: Seq<u8>, g: G1, c: Seq<u8>)
    requires
        g.enc() == b,
        c == g.enc(),
    ensures
        c == b,
{
}

/// Two points with one encoding are one point: reading the same bytes twice
/// yields a single value.
pub proof fn lemma_g1_deterministic(a: G1, b: G1)
    requires
        a.enc() =~= b.enc(),
    ensures
        a == b,
{
    vstd::array::axiom_array_ext_equal::<u8, 48>(a.bytes, b.bytes);
    assert(a.bytes =~= b.bytes);
}

/// The same, for the second group.
pub proof fn lemma_g2_deterministic(a: G2, b: G2)
    requires
        a.enc() =~= b.enc(),
    ensures
        a == b,
{
    vstd::array::axiom_array_ext_equal::<u8, 96>(a.bytes, b.bytes);
    assert(a.bytes =~= b.bytes);
}

/// The identity's compressed encoding: the tag byte and zeroes.
pub open spec fn g1_identity_enc() -> Seq<u8> {
    Seq::new(48, |i: int| if i == 0 { 0xc0u8 } else { 0u8 })
}

/// The first group's identity element.
pub fn g1_identity() -> (r: G1)
    ensures
        r.wf(),
        r.enc() == g1_identity_enc(),
{
    let mut arr = [0u8; 48];
    arr[0] = 0xc0;
    proof {
        assert(arr@ =~= g1_identity_enc());
        assert(is_g1_infinity(arr@));
    }
    match bytes_to_g1(&arr) {
        Some(g) => g,
        None => {
            proof {
                // The identity encoding is always accepted.
                assert(false);
            }
            G1 { bytes: arr }
        },
    }
}

/// The first group's generator, if the backend accepts its canonical bytes.
pub fn g1_generator() -> (r: Option<G1>)
    ensures
        r matches Some(g) ==> g.wf() && g.enc() == G1_GENERATOR_BYTES@,
        r is None ==> !g1_encoding_valid(G1_GENERATOR_BYTES@),
{
    bytes_to_g1(&G1_GENERATOR_BYTES)
}

/// The second group's generator, if the backend accepts its canonical bytes.
pub fn g2_generator() -> (r: Option<G2>)
    ensures
        r matches Some(g) ==> g.wf() && g.enc() == G2_GENERATOR_BYTES@,
        r is None ==> !g2_encoding_valid(G2_GENERATOR_BYTES@),
{
    bytes_to_g2(&G2_GENERATOR_BYTES)
}

/// What adding two points of the first group yields, as compressed bytes.
pub uninterp spec fn g1_add_of(a: Seq<u8>, b: Seq<u8>) -> Seq<u8>;

/// What multiplying a point of the first group by a 32-byte little-endian
/// scalar yields, as compressed bytes.
pub uninterp spec fn g1_mul_of(p: Seq<u8>, scalar: Seq<u8>) -> Seq<u8>;

/// What adding two points of the second group yields, as compressed bytes.
pub uninterp spec fn g2_add_of(a: Seq<u8>, b: Seq<u8>) -> Seq<u8>;

/// What multiplying a point of the second group by a 32-byte little-endian
/// scalar yields, as compressed bytes.
pub uninterp spec fn g2_mul_of(p: Seq<u8>, scalar: Seq<u8>) -> Seq<u8>;

/// Whether the pairings of the two point pairs agree.
pub uninterp spec fn pairing_eq_of(a1: Seq<u8>, a2: Seq<u8>, b1: Seq<u8>, b2: Seq<u8>) -> bool;

/// Relies on `blst::min_pk::AggregatePublicKey::add_public_key` (point
/// addition in the first group) with `uncompress`/`compress` at the ends;
/// the sum depends on the two encodings alone.
#[verifier::external_body]
pub fn g1_add(a: &G1, b: &G1) -> (r: G1)
    requires
        a.wf(),
        b.wf(),
    ensures
        r.wf(),
        r.enc() == g1_add_of(a.enc(), b.enc()),
{
    let pa = blst::min_pk::PublicKey::uncompress(&a.bytes).expect("validated encoding");
    let pb = blst::min_pk::PublicKey::uncompress(&b.bytes).expect("validated encoding");
    let mut agg = blst::min_pk::AggregatePublicKey::from_public_key(&pa);
    agg.add_public_key(&pb, false).expect("no validation requested");
    G1 { bytes: agg.to_public_key().compress() }
}

/// Relies on `blst::MultiPoint::mult` over one point of the first group
/// (scalar multiplication, low 255 bits); the product depends on the
/// encoding and the scalar bytes alone.
#[verifier::external_body]
pub fn g1_mul(p: &G1, scalar: &Vec<u8>) -> (r: G1)
    requires
        p.wf(),
        scalar@.len() == 32,
    ensures
        r.wf(),
        r.enc() == g1_mul_of(p.enc(), scalar@),
{
    let pk = blst::min_pk::PublicKey::uncompress(&p.bytes).expect("validated encoding");
    let agg = core::slice::from_ref(&pk).mult(scalar.as_slice(), 255);
    G1 { bytes: agg.to_public_key().compress() }
}

/// Relies on `blst::min_sig::AggregatePublicKey::add_public_key`: point
/// addition in the second group.
#[verifier::external_body]
pub fn g2_add(a: &G2, b: &G2) -> (r: G2)
    requires
        a.wf(),
        b.wf(),
    ensures
        r.wf(),
        r.enc() == g2_add_of(a.enc(), b.enc()),
{
    let pa = blst::min_sig::PublicKey::uncompress(&a.bytes).expect("validated encoding");
    let pb = blst::min_sig::PublicKey::uncompress(&b.bytes).expect("validated encoding");
    let mut agg = blst::min_sig::AggregatePublicKey::from_public_key(&pa);
    agg.add_public_key(&pb, false).expect("no validation requested");
    G2 { bytes: agg.to_public_key().compress() }
}

/// Relies on `blst::MultiPoint::mult` over one point of the second group.
#[verifier::external_body]
pub fn g2_mul(p: &G2, scalar: &Vec<u8>) -> (r: G2)
    requires
        p.wf(),
        scalar@.len() == 32,
    ensures
        r.wf(),
        r.enc() == g2_mul_of(p.enc(), scalar@),
{
    let pk = blst::min_sig::PublicKey::uncompress(&p.bytes).expect("validated encoding");
    let agg = core::slice::from_ref(&pk).mult(scalar.as_slice(), 255);
    G2 { bytes: agg.to_public_key().compress() }
}

/// Relies on `blst::blst_fp12::miller_loop` and `blst_fp12::finalverify`:
/// whether the pairing of the first pair equals the pairing of the second;
/// the verdict depends on the four encodings alone.
#[verifier::external_body]
pub fn pairing_eq(a1: &G1, a2: &G2, b1: &G1, b2: &G2) -> (r: bool)
    requires
        a1.wf(),
        a2.wf(),
        b1.wf(),
        b2.wf(),
    ensures
        r == pairing_eq_of(a1.enc(), a2.enc(), b1.enc(), b2.enc()),
{
    let p1 = blst::min_pk::PublicKey::uncompress(&a1.bytes).expect("validated encoding");
    let q1 = blst::min_sig::PublicKey::uncompress(&a2.bytes).expect("validated encoding");
    let p2 = blst::min_pk::PublicKey::uncompress(&b1.bytes).expect("validated encoding");
    let q2 = blst::min_sig::PublicKey::uncompress(&b2.bytes).expect("validated encoding");
    let left = blst::blst_fp12::miller_loop(<&blst::blst_p2_affine>::from(&q1),
        <&blst::blst_p1_affine>::from(&p1));
    let right = blst::blst_fp12::miller_loop(<&blst::blst_p2_affine>::from(&q2),
        <&blst::blst_p1_affine>::from(&p2));
    blst::blst_fp12::finalverify(&left, &right)
}

} // verus!
