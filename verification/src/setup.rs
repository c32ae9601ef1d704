//! The textual trusted-setup format: two decimal headers, then hex-encoded
//! compressed points, one per line.
use vstd::prelude::*;
use vstd::arithmetic::div_mod::lemma_fundamental_div_mod;
use crate::points::{G1, G2, bytes_to_g1, bytes_to_g2, g1_mul_of};
use crate::fr::Fr;
use crate::fft::{FFTSettings, ifft_g1, fft_g1_enc, encs_of, reverse_bit_order, bit_rev_spec};
use crate::encoding::fr_le32;
use crate::kzg::KZGSettings;

verus! {

/// Why a setup file was rejected.
#[derive(Clone, Copy, Debug, PartialEq, Eq, Structural)]
pub enum LoadError {
    /// Fewer lines than the headers announce.
    Truncated,
    /// A header line is not a decimal count.
    BadCount,
    /// A point line holds a character outside the hex alphabet.
    BadHex,
    /// A point line decodes to the wrong number of bytes.
    BadLength,
    /// A point encoding was rejected by the curve check.
    BadPoint,
}

/// A decimal digit's place in the alphabet.
pub open spec fn is_dec_digit(c: u8) -> bool {
    48 <= c <= 57
}

/// The number a string of decimal digits stands for, most significant first.
pub open spec fn dec_val(s: Seq<u8>) -> nat
    decreases s.len(),
{
    if s.len() == 0 {
        0
    } else {
        (dec_val(s.subrange(0, s.len() - 1)) * 10 + (s[s.len() - 1] - 48)) as nat
    }
}

/// A hex digit's place in the alphabet, either case.
pub open spec fn is_hex_digit(c: u8) -> bool {
    (48 <= c <= 57) || (97 <= c <= 102) || (65 <= c <= 70)
}

/// The value of one hex digit.
pub open spec fn hex_val(c: u8) -> nat {
    if 48 <= c <= 57 {
        (c - 48) as nat
    } else if 97 <= c <= 102 {
        (c - 87) as nat
    } else if 65 <= c <= 70 {
        (c - 55) as nat
    } else {
        0
    }
}

/// The bytes a line of hex digit pairs stands for.
pub open spec fn hex_bytes(line: Seq<u8>) -> Seq<u8> {
    Seq::new((line.len() / 2) as nat,
        |i: int| (hex_val(line[2 * i]) * 16 + hex_val(line[2 * i + 1])) as u8)
}

/// The position of the first line break at or after `from`.
pub open spec fn find_nl(s: Seq<u8>, from: int) -> int
    decreases s.len() - from,
{
    if from < 0 || from >= s.len() {
        s.len() as int
    } else if s[from] == 10 {
        from
    } else {
        find_nl(s, from + 1)
    }
}

/// The line-break position is a position in range with no break before it.
pub proof fn lemma_find_nl(s: Seq<u8>, from: int)
    requires
        0 <= from <= s.len(),
    ensures
        from <= find_nl(s, from) <= s.len(),
        find_nl(s, from) < s.len() ==> s[find_nl(s, from)] == 10,
        forall|j: int| from <= j < find_nl(s, from) ==> s[j] != 10,
    decreases s.len() - from,
{
    if from < s.len() && s[from] != 10 {
        lemma_find_nl(s, from + 1);
    }
}

/// The text split at line breaks: a trailing break ends the last line and
/// opens no new one.
pub open spec fn split_lines_spec(s: Seq<u8>, from: int) -> Seq<Seq<u8>>
    decreases s.len() - from,
        via split_lines_spec_dec
{
    if from < 0 || from >= s.len() {
        Seq::empty()
    } else {
        let k = find_nl(s, from);
        if k >= s.len() {
            seq![s.subrange(from, s.len() as int)]
        } else {
            seq![s.subrange(from, k)].add(split_lines_spec(s, k + 1))
        }
    }
}

#[via_fn]
proof fn split_lines_spec_dec(s: Seq<u8>, from: int) {
    if 0 <= from < s.len() {
        lemma_find_nl(s, from);
    }
}

/// A prefix of a digit string stands for at most the whole string's value.
proof fn lemma_dec_val_prefix(s: Seq<u8>, k: int)
    requires
        0 <= k <= s.len(),
        forall|i: int| 0 <= i < s.len() ==> is_dec_digit(#[trigger] s[i]),
    ensures
        dec_val(s.subrange(0, k)) <= dec_val(s),
    decreases s.len() - k,
{
    if k == s.len() {
        assert(s.subrange(0, k) =~= s);
    } else {
        lemma_dec_val_prefix(s, k + 1);
        let longer = s.subrange(0, k + 1);
        assert(longer.subrange(0, longer.len() - 1) =~= s.subrange(0, k));
        assert(is_dec_digit(s[k]));
        assert(dec_val(longer)
            == (dec_val(s.subrange(0, k)) * 10 + (longer[k] - 48)) as nat);
        assert(dec_val(s.subrange(0, k)) * 10 >= dec_val(s.subrange(0, k)))
            by (nonlinear_arith)
            requires dec_val(s.subrange(0, k)) >= 0;
    }
}

/// A well-formed count header: decimal digits for a value a machine word
/// holds.
pub open spec fn header_ok(l: Seq<u8>) -> bool {
    l.len() > 0 && (forall|i: int| 0 <= i < l.len() ==> is_dec_digit(#[trigger] l[i]))
        && dec_val(l) <= usize::MAX
}

/// A well-formed point line of the first group: hex of the right width
/// whose bytes the curve check or the identity pattern accepts.
pub open spec fn g1_line_ok(l: Seq<u8>) -> bool {
    l.len() % 2 == 0 && (forall|i: int| 0 <= i < l.len() ==> is_hex_digit(#[trigger] l[i]))
        && hex_bytes(l).len() == 48
        && (crate::points::g1_encoding_valid(hex_bytes(l))
            || crate::points::is_g1_infinity(hex_bytes(l)))
}

/// A well-formed point line of the second group.
pub open spec fn g2_line_ok(l: Seq<u8>) -> bool {
    l.len() % 2 == 0 && (forall|i: int| 0 <= i < l.len() ==> is_hex_digit(#[trigger] l[i]))
        && hex_bytes(l).len() == 96
        && (crate::points::g2_encoding_valid(hex_bytes(l))
            || crate::points::is_g2_infinity(hex_bytes(l)))
}

/// A whole well-formed setup text: two count headers and exactly the
/// announced well-formed point lines.
pub open spec fn setup_text_ok(data: Seq<u8>) -> bool {
    let lines = split_lines_spec(data, 0);
    &&& lines.len() >= 2
    &&& header_ok(lines[0])
    &&& header_ok(lines[1])
    &&& dec_val(lines[0]) + dec_val(lines[1]) <= lines.len() - 2
    &&& forall|i: int| 0 <= i < dec_val(lines[0])
        ==> g1_line_ok(#[trigger] lines[2 + i])
    &&& forall|i: int| 0 <= i < dec_val(lines[1])
        ==> g2_line_ok(#[trigger] lines[2 + dec_val(lines[0]) + i])
}

/// Splits the input into its lines.
pub fn split_lines(data: &[u8]) -> (r: Vec<Vec<u8>>)
    requires
        data@.len() < usize::MAX,
    ensures
        r@.map_values(|v: Vec<u8>| v@) == split_lines_spec(data@, 0),
{
    let mut out: Vec<Vec<u8>> = Vec::new();
    let n = data.len();
    let mut start: usize = 0;
    while start < n
        invariant
            0 <= start <= n + 1,
            n == data.len(),
            n < usize::MAX,
            out@.map_values(|v: Vec<u8>| v@) + split_lines_spec(data@, start as int)
                =~= split_lines_spec(data@, 0),
        decreases n + 1 - start,
    {
        proof {
            lemma_find_nl(data@, start as int);
        }
        let mut k: usize = start;
        while k < n && data[k] != 10
            invariant
                start <= k <= n,
                n == data.len(),
                forall|j: int| start <= j < k ==> data@[j] != 10,
            decreases n - k,
        {
            k = k + 1;
        }
        proof {
            assert(k == find_nl(data@, start as int)) by {
                lemma_find_nl(data@, start as int);
                let f = find_nl(data@, start as int);
                if f < k {
                    assert(data@[f] == 10);
                }
                if k < f {
                    assert(data@[k as int] == 10);
                }
            }
        }
        let mut line: Vec<u8> = Vec::new();
        let mut j: usize = start;
        while j < k
            invariant
                start <= j <= k,
                k <= n,
                n == data.len(),
                line@ =~= data@.subrange(start as int, j as int),
            decreases k - j,
        {
            line.push(data[j]);
            j = j + 1;
        }
        let ghost oldmap = out@.map_values(|v: Vec<u8>| v@);
        out.push(line);
        proof {
            assert(out@.map_values(|v: Vec<u8>| v@) =~= oldmap.push(line@));
            assert(line@ =~= data@.subrange(start as int, k as int));
            if k < n {
                assert(split_lines_spec(data@, start as int)
                    =~= seq![data@.subrange(start as int, k as int)]
                        .add(split_lines_spec(data@, k + 1)));
            } else {
                assert(split_lines_spec(data@, start as int)
                    =~= seq![data@.subrange(start as int, n as int)]);
                assert(split_lines_spec(data@, k + 1) =~= Seq::<Seq<u8>>::empty());
            }
            assert(oldmap.push(line@) + split_lines_spec(data@, k + 1)
                =~= oldmap + split_lines_spec(data@, start as int));
        }
        start = k + 1;
    }
    proof {
        assert(split_lines_spec(data@, start as int) =~= Seq::<Seq<u8>>::empty());
        assert(out@.map_values(|v: Vec<u8>| v@) =~= out@.map_values(|v: Vec<u8>| v@)
            + split_lines_spec(data@, start as int));
    }
    out
}

/// Parses a decimal count; rejects empty or non-digit text and counts that
/// overflow a machine word.
pub fn parse_decimal(line: &Vec<u8>) -> (r: Option<usize>)
    ensures
        r matches Some(v) ==> v == dec_val(line@),
        (r is Some) == header_ok(line@),
{
    if line.len() == 0 {
        return None;
    }
    let mut v: usize = 0;
    let mut i: usize = 0;
    while i < line.len()
        invariant
            i <= line.len(),
            forall|j: int| 0 <= j < i ==> is_dec_digit(#[trigger] line@[j]),
            v == dec_val(line@.subrange(0, i as int)),
        decreases line.len() - i,
    {
        let c = line[i];
        if c < 48 || c > 57 {
            return None;
        }
        let d: usize = (c - 48) as usize;
        if v > (usize::MAX - d) / 10 {
            // The count would overflow a machine word; so would the whole
            // line's value.
            proof {
                lemma_fundamental_div_mod((usize::MAX - d) as int, 10);
                assert(v * 10 + d > usize::MAX);
                if forall|t: int| 0 <= t < line@.len() ==> is_dec_digit(#[trigger] line@[t]) {
                    lemma_dec_val_prefix(line@, i as int + 1);
                    let sub = line@.subrange(0, i as int + 1);
                    assert(sub.subrange(0, sub.len() - 1) =~= line@.subrange(0, i as int));
                    assert(dec_val(sub)
                        == (dec_val(line@.subrange(0, i as int)) * 10 + (c - 48)) as nat);
                }
            }
            return None;
        }
        proof {
            lemma_fundamental_div_mod((usize::MAX - d) as int, 10);
            assert(v * 10 + d <= usize::MAX);
        }
        proof {
            let sub = line@.subrange(0, i as int + 1);
            assert(sub.subrange(0, sub.len() - 1) =~= line@.subrange(0, i as int));
            assert(dec_val(sub) == dec_val(line@.subrange(0, i as int)) * 10 + (c - 48));
        }
        v = v * 10 + d;
        i = i + 1;
    }
    proof {
        assert(line@.subrange(0, line@.len() as int) =~= line@);
    }
    Some(v)
}

/// Decodes a line of hex digit pairs; rejects odd lengths and characters
/// outside the alphabet.
pub fn hex_decode(line: &Vec<u8>) -> (r: Option<Vec<u8>>)
    ensures
        r matches Some(v) ==> {
            &&& line@.len() % 2 == 0
            &&& forall|i: int| 0 <= i < line@.len() ==> is_hex_digit(#[trigger] line@[i])
            &&& v@ == hex_bytes(line@)
        },
        (r is Some) == (line@.len() % 2 == 0 && forall|i: int| 0 <= i < line@.len()
            ==> is_hex_digit(#[trigger] line@[i])),
{
    if line.len() % 2 != 0 {
        return None;
    }
    let mut out: Vec<u8> = Vec::new();
    let mut i: usize = 0;
    while i < line.len()
        invariant
            i <= line.len(),
            line@.len() % 2 == 0,
            i % 2 == 0,
            forall|j: int| 0 <= j < i ==> is_hex_digit(#[trigger] line@[j]),
            out@.len() == i / 2,
            forall|j: int| 0 <= j < out@.len()
                ==> #[trigger] out@[j] == (hex_val(line@[2 * j]) * 16
                    + hex_val(line@[2 * j + 1])) as u8,
        decreases line.len() - i,
    {
        let hi = line[i];
        let lo = line[i + 1];
        let hv: u8 = if 48 <= hi && hi <= 57 {
            hi - 48
        } else if 97 <= hi && hi <= 102 {
            hi - 87
        } else if 65 <= hi && hi <= 70 {
            hi - 55
        } else {
            return None;
        };
        let lv: u8 = if 48 <= lo && lo <= 57 {
            lo - 48
        } else if 97 <= lo && lo <= 102 {
            lo - 87
        } else if 65 <= lo && lo <= 70 {
            lo - 55
        } else {
            return None;
        };
        out.push(hv * 16 + lv);
        i = i + 2;
    }
    proof {
        assert(out@ =~= hex_bytes(line@));
    }
    Some(out)
}

/// The two point sequences read from a setup file: the first group's points
/// still in monomial order, the second group's as given.
#[derive(Debug)]
pub struct ParsedSetup {
    pub g1_monomial: Vec<G1>,
    pub g2_points: Vec<G2>,
}

/// Copies a decoded 48-byte vector into the fixed-size form.
fn to_array_48(v: &Vec<u8>) -> (r: [u8; 48])
    requires
        v@.len() == 48,
    ensures
        r@ == v@,
{
    let mut out: [u8; 48] = [0; 48];
    let mut i: usize = 0;
    while i < 48
        invariant
            i <= 48,
            v@.len() == 48,
            forall|j: int| 0 <= j < i ==> out@[j] == v@[j],
        decreases 48 - i,
    {
        out[i] = v[i];
        i = i + 1;
    }
    proof {
        assert(out@ =~= v@);
    }
    out
}

/// Copies a decoded 96-byte vector into the fixed-size form.
fn to_array_96(v: &Vec<u8>) -> (r: [u8; 96])
    requires
        v@.len() == 96,
    ensures
        r@ == v@,
{
    let mut out: [u8; 96] = [0; 96];
    let mut i: usize = 0;
    while i < 96
        invariant
            i <= 96,
            v@.len() == 96,
            forall|j: int| 0 <= j < i ==> out@[j] == v@[j],
        decreases 96 - i,
    {
        out[i] = v[i];
        i = i + 1;
    }
    proof {
        assert(out@ =~= v@);
    }
    out
}

/// Parses the whole setup text: two decimal counts, that many hex-encoded
/// points of each group.  Every failure is reported, never papered over; on
/// success each point's encoding is pinned to its line, so equal inputs give
/// equal setups.
pub fn parse_trusted_setup(data: &[u8]) -> (r: Result<ParsedSetup, LoadError>)
    requires
        data@.len() < usize::MAX,
    ensures
        (r is Ok) == setup_text_ok(data@),
        split_lines_spec(data@, 0).len() < 2 ==> r == Err::<ParsedSetup, LoadError>(
            LoadError::Truncated),
        ({
            let lines = split_lines_spec(data@, 0);
            lines.len() >= 2 && (lines[0].len() == 0 || exists|i: int| 0 <= i < lines[0].len()
                && !is_dec_digit(#[trigger] lines[0][i]))
        }) ==> r == Err::<ParsedSetup, LoadError>(LoadError::BadCount),
        r matches Ok(st) ==> {
            let lines = split_lines_spec(data@, 0);
            &&& lines.len() >= 2
            &&& st.g1_monomial.len() == dec_val(lines[0])
            &&& st.g2_points.len() == dec_val(lines[1])
            &&& lines.len() >= 2 + st.g1_monomial.len() + st.g2_points.len()
            &&& forall|i: int| 0 <= i < st.g1_monomial.len()
                ==> (#[trigger] st.g1_monomial[i]).wf()
                    && st.g1_monomial[i].enc() == hex_bytes(lines[2 + i])
            &&& forall|i: int| 0 <= i < st.g2_points.len()
                ==> (#[trigger] st.g2_points[i]).wf()
                    && st.g2_points[i].enc()
                        == hex_bytes(lines[2 + st.g1_monomial.len() + i])
        },
{
    let lines = split_lines(data);
    proof {
        let lspec0 = split_lines_spec(data@, 0);
        assert(lines@.map_values(|v: Vec<u8>| v@).len() == lines@.len());
        assert forall|j: int| 0 <= j < lines@.len()
            implies (#[trigger] lines@[j])@ == lspec0[j] by {
            assert(lines@.map_values(|v: Vec<u8>| v@)[j] == lines@[j]@);
        }
    }
    if lines.len() < 2 {
        return Err(LoadError::Truncated);
    }
    let n1 = match parse_decimal(&lines[0]) {
        None => {
            return Err(LoadError::BadCount);
        },
        Some(v) => v,
    };
    let n2 = match parse_decimal(&lines[1]) {
        None => {
            return Err(LoadError::BadCount);
        },
        Some(v) => v,
    };
    let rem = lines.len() - 2;
    if n1 > rem || n2 > rem - n1 {
        return Err(LoadError::Truncated);
    }
    let ghost lspec = split_lines_spec(data@, 0);
    proof {
        assert(lspec.len() == lines@.len());
    }
    let mut g1_monomial: Vec<G1> = Vec::new();
    let mut i: usize = 0;
    while i < n1
        invariant
            i <= n1,
            lines@.len() >= 2 + n1 + n2,
            lines@.len() <= usize::MAX,
            lspec == split_lines_spec(data@, 0),
            lspec.len() == lines@.len(),
            lspec[0].len() > 0,
            forall|t: int| 0 <= t < lspec[0].len() ==> is_dec_digit(#[trigger] lspec[0][t]),
            n1 == dec_val(lspec[0]),
            n2 == dec_val(lspec[1]),
            forall|j: int| 0 <= j < lines@.len() ==> (#[trigger] lines@[j])@ == lspec[j],
            forall|j: int| 0 <= j < i ==> g1_line_ok(#[trigger] lspec[2 + j]),
            g1_monomial.len() == i,
            forall|j: int| 0 <= j < i
                ==> (#[trigger] g1_monomial[j]).wf()
                    && g1_monomial[j].enc() == hex_bytes(lspec[2 + j]),
        decreases n1 - i,
    {
        let decoded = match hex_decode(&lines[2 + i]) {
            None => {
                return Err(LoadError::BadHex);
            },
            Some(v) => v,
        };
        if decoded.len() != 48 {
            return Err(LoadError::BadLength);
        }
        let arr = to_array_48(&decoded);
        let point = match bytes_to_g1(&arr) {
            None => {
                return Err(LoadError::BadPoint);
            },
            Some(g) => g,
        };
        proof {
            assert(g1_line_ok(lspec[2 + i as int]));
        }
        g1_monomial.push(point);
        i = i + 1;
    }
    let mut g2_points: Vec<G2> = Vec::new();
    let mut i2: usize = 0;
    while i2 < n2
        invariant
            i2 <= n2,
            lines@.len() >= 2 + n1 + n2,
            lines@.len() <= usize::MAX,
            lspec == split_lines_spec(data@, 0),
            lspec.len() == lines@.len(),
            lspec[0].len() > 0,
            forall|t: int| 0 <= t < lspec[0].len() ==> is_dec_digit(#[trigger] lspec[0][t]),
            n1 == dec_val(lspec[0]),
            n2 == dec_val(lspec[1]),
            forall|j: int| 0 <= j < lines@.len() ==> (#[trigger] lines@[j])@ == lspec[j],
            forall|j: int| 0 <= j < n1 ==> g1_line_ok(#[trigger] lspec[2 + j]),
            forall|j: int| 0 <= j < i2 ==> g2_line_ok(#[trigger] lspec[2 + n1 + j]),
            g2_points.len() == i2,
            forall|j: int| 0 <= j < i2
                ==> (#[trigger] g2_points[j]).wf()
                    && g2_points[j].enc() == hex_bytes(lspec[2 + n1 + j]),
        decreases n2 - i2,
    {
        let decoded = match hex_decode(&lines[2 + n1 + i2]) {
            None => {
                proof {
                    assert(!g2_line_ok(lspec[2 + dec_val(lspec[0]) + i2 as int]));
                }
                return Err(LoadError::BadHex);
            },
            Some(v) => v,
        };
        if decoded.len() != 96 {
            proof {
                assert(!g2_line_ok(lspec[2 + dec_val(lspec[0]) + i2 as int]));
            }
            return Err(LoadError::BadLength);
        }
        let arr = to_array_96(&decoded);
        let point = match bytes_to_g2(&arr) {
            None => {
                proof {
                    assert(!g2_line_ok(lspec[2 + dec_val(lspec[0]) + i2 as int]));
                }
                return Err(LoadError::BadPoint);
            },
            Some(g) => g,
        };
        proof {
            assert(g2_line_ok(lspec[2 + n1 + i2 as int]));
        }
        g2_points.push(point);
        i2 = i2 + 1;
    }
    Ok(ParsedSetup { g1_monomial, g2_points })
}

/// A power-of-two length pins the scale the loader chooses for it.
proof fn lemma_scale_matches(length: nat, scale: nat, k: nat)
    requires
        vstd::arithmetic::power2::pow2(scale) >= length,
        scale >= 1 ==> vstd::arithmetic::power2::pow2((scale - 1) as nat) < length,
        length == vstd::arithmetic::power2::pow2(k),
    ensures
        scale == k,
{
    if scale < k {
        vstd::arithmetic::power2::lemma_pow2_strictly_increases(scale, k);
    }
    if scale > k {
        if (scale - 1) as nat > k {
            vstd::arithmetic::power2::lemma_pow2_strictly_increases(k, (scale - 1) as nat);
        }
    }
}

/// When the loader succeeds: a well-formed text whose first count is a
/// power of two no larger than the largest domain, with the domain's root
/// and the count both passing the inversion check — in a prime field,
/// always.
pub open spec fn load_ok_condition(data: Seq<u8>) -> bool {
    let n1 = dec_val(split_lines_spec(data, 0)[0]);
    &&& setup_text_ok(data)
    &&& exists|k: nat| k <= 31 && n1 == vstd::arithmetic::power2::pow2(k)
        && (k >= 1 ==> crate::fr::fr_invertible(crate::fft::domain_root(k)))
    &&& crate::fr::fr_invertible(n1)
}

/// A marker naming the witnesses of the loader's transform pipeline.
pub open spec fn pipeline_witness(monomial: Seq<G1>, wi: Fr, ni: Fr) -> bool {
    true
}

/// Builds the whole key from the setup text: parse and validate the points,
/// carry the first group's sequence into evaluation basis by the inverse
/// group transform, and order it by bit-reversed domain position.  Every
/// failure is a tagged error; on success the held points are pinned to the
/// file's lines through the transform, so equal inputs give equal keys.
pub fn load_trusted_setup_from_bytes(data: &[u8]) -> (r: Result<KZGSettings, LoadError>)
    requires
        data@.len() < usize::MAX,
    ensures
        (r is Ok) == load_ok_condition(data@),
        split_lines_spec(data@, 0).len() < 2 ==> r == Err::<KZGSettings, LoadError>(
            LoadError::Truncated),
        (setup_text_ok(data@) && r is Err) ==> r == Err::<KZGSettings, LoadError>(
            LoadError::BadCount),
        r matches Ok(st) ==> {
            let lines = split_lines_spec(data@, 0);
            let n1 = dec_val(lines[0]) as int;
            &&& st.fs.wf()
            &&& st.secret_g1.len() == st.fs.roots_of_unity.len()
            &&& st.secret_g1.len() == n1
            &&& lines.len() >= 2 + n1 + st.secret_g2.len()
            &&& st.secret_g2.len() == dec_val(lines[1])
            &&& forall|i: int| 0 <= i < st.secret_g1.len()
                ==> (#[trigger] st.secret_g1[i]).wf()
            &&& forall|i: int| 0 <= i < st.secret_g2.len()
                ==> (#[trigger] st.secret_g2[i]).wf()
                    && st.secret_g2[i].enc() == hex_bytes(lines[2 + n1 + i])
            &&& exists|monomial: Seq<G1>, wi: Fr, ni: Fr|
                {
                    &&& monomial.len() == n1
                    &&& forall|i: int| 0 <= i < monomial.len()
                        ==> (#[trigger] monomial[i]).enc() == hex_bytes(lines[2 + i])
                    &&& wi.valid() && ni.valid()
                    &&& (ni.val() * (n1 as nat)) % crate::fr::fr_p() == 1
                    &&& st.secret_g1.len() >= 2
                        ==> (wi.val() * st.fs.expanded_roots_of_unity[1].val())
                            % crate::fr::fr_p() == 1
                    &&& st.secret_g1.len() == 1 ==> wi.val() == 1
                    &&& #[trigger] pipeline_witness(monomial, wi, ni)
                    &&& forall|i: int| 0 <= i < st.secret_g1.len()
                        ==> (#[trigger] st.secret_g1[i]).enc()
                            == g1_mul_of(fft_g1_enc(encs_of(monomial), wi)[
                                bit_rev_spec(i as nat, st.fs.max_scale as nat) as int],
                                fr_le32(ni))
                }
        },
{
    let parsed = match parse_trusted_setup(data) {
        Err(e) => {
            return Err(e);
        },
        Ok(v) => v,
    };
    let length = parsed.g1_monomial.len();
    let ghost n1g: nat = dec_val(split_lines_spec(data@, 0)[0]);
    proof {
        assert(length == n1g);
    }
    if length == 0 || length > 0x80000000 {
        proof {
            if exists|k: nat| k <= 31 && n1g == vstd::arithmetic::power2::pow2(k)
                && (k >= 1 ==> crate::fr::fr_invertible(crate::fft::domain_root(k))) {
                let k = choose|k: nat| k <= 31
                    && n1g == vstd::arithmetic::power2::pow2(k)
                    && (k >= 1 ==> crate::fr::fr_invertible(crate::fft::domain_root(k)));
                vstd::arithmetic::power2::lemma_pow2_pos(k);
                if k < 31 {
                    vstd::arithmetic::power2::lemma_pow2_strictly_increases(k, 31);
                }
                vstd::arithmetic::power2::lemma2_to64();
                assert(false);
            }
        }
        return Err(LoadError::BadCount);
    }
    let max_scale = scale_for_length(length);
    let fs = FFTSettings::new(max_scale);
    if fs.len() != length {
        // The monomial sequence must fill its power-of-two domain exactly.
        proof {
            if exists|k: nat| k <= 31 && n1g == vstd::arithmetic::power2::pow2(k)
                && (k >= 1 ==> crate::fr::fr_invertible(crate::fft::domain_root(k))) {
                let k = choose|k: nat| k <= 31
                    && n1g == vstd::arithmetic::power2::pow2(k)
                    && (k >= 1 ==> crate::fr::fr_invertible(crate::fft::domain_root(k)));
                lemma_scale_matches(length as nat, max_scale as nat, k);
                assert(false);
            }
        }
        return Err(LoadError::BadCount);
    }
    proof {
        assert(fs.expanded_roots_of_unity.len()
            == vstd::arithmetic::power2::pow2(max_scale as nat));
        assert(vstd::arithmetic::power2::pow2(max_scale as nat) == length);
    }
    let root = if length >= 2 {
        fs.expanded_roots_of_unity[1]
    } else {
        Fr::one()
    };
    proof {
        crate::fft::lemma_roots_valid(&fs);
        assert(fs.expanded_roots_of_unity.len() == vstd::arithmetic::power2::pow2(
            max_scale as nat));
        if length >= 2 {
            assert(fs.expanded_roots_of_unity[1].valid());
            let dr: int = crate::fft::domain_root(max_scale as nat) as int;
            vstd::arithmetic::power::lemma_pow1(dr);
            assert(fs.expanded_roots_of_unity[1].val() as int
                == vstd::arithmetic::power::pow(dr, 1) % (crate::fr::fr_p() as int));
            vstd::arithmetic::div_mod::lemma_mod_bound(
                vstd::arithmetic::power::pow(7, (crate::fr::fr_p() - 1) as nat
                    / vstd::arithmetic::power2::pow2(max_scale as nat)),
                crate::fr::fr_p() as int);
            vstd::arithmetic::div_mod::lemma_small_mod(dr as nat, crate::fr::fr_p());
            assert(root.val() == crate::fft::domain_root(max_scale as nat));
        } else {
            assert(root.val() == 1);
        }
        if max_scale == 0 {
            vstd::arithmetic::power2::lemma2_to64();
            assert(length == 1);
        }
    }
    let lagrange = match ifft_g1(&parsed.g1_monomial, &root) {
        None => {
            // Unreachable for a non-empty power-of-two domain; reported, not
            // papered over.
            proof {
                if crate::fr::fr_invertible(n1g) {
                    assert(!crate::fr::fr_invertible(root.val()));
                    if length == 1 {
                        crate::fr::lemma_fr_invertible_one();
                        assert(false);
                    }
                    assert forall|k: nat| k <= 31
                        && n1g == vstd::arithmetic::power2::pow2(k)
                        implies !(k >= 1
                            ==> crate::fr::fr_invertible(crate::fft::domain_root(k))) by {
                        lemma_scale_matches(length as nat, max_scale as nat, k);
                        if max_scale == 0 {
                            vstd::arithmetic::power2::lemma2_to64();
                        }
                    }
                }
            }
            return Err(LoadError::BadCount);
        },
        Some(v) => v,
    };
    let reordered = reverse_bit_order(&lagrange, max_scale);
    proof {
        let mono = parsed.g1_monomial@;
        let nlen: nat = parsed.g1_monomial.len() as nat;
        let (wi, ni) = choose|wi: Fr, ni: Fr|
            {
                &&& wi.valid() && ni.valid()
                &&& (wi.val() * root.val()) % crate::fr::fr_p() == 1
                &&& (ni.val() * nlen) % crate::fr::fr_p() == 1
                &&& #[trigger] crate::fft::trigger_pair(wi, ni)
                &&& forall|i: int| 0 <= i < lagrange.len()
                    ==> (#[trigger] lagrange[i]).enc()
                        == g1_mul_of(fft_g1_enc(encs_of(mono), wi)[i], fr_le32(ni))
            };
        assert forall|i: int| 0 <= i < reordered.len()
            implies (#[trigger] reordered[i]).wf()
                && reordered[i].enc() == g1_mul_of(fft_g1_enc(encs_of(mono), wi)[
                    bit_rev_spec(i as nat, max_scale as nat) as int], fr_le32(ni)) by {
            crate::fft::lemma_bit_rev_bound(i as nat, max_scale as nat);
            assert(reordered@[i] == lagrange@[bit_rev_spec(i as nat, max_scale as nat) as int]);
        }
        assert(pipeline_witness(mono, wi, ni));
        if length == 1 {
            vstd::arithmetic::div_mod::lemma_small_mod(wi.val(), crate::fr::fr_p());
            assert(wi.val() * 1nat == wi.val()) by (nonlinear_arith);
            assert(wi.val() == 1);
        }
        assert(load_ok_condition(data@)) by {
            let k: nat = max_scale as nat;
            if k >= 1 {
                vstd::arithmetic::power2::lemma2_to64();
                vstd::arithmetic::power2::lemma_pow2_strictly_increases(0, k);
                assert(length >= 2);
            }
            assert(k <= 31 && n1g == vstd::arithmetic::power2::pow2(k)
                && (k >= 1 ==> crate::fr::fr_invertible(crate::fft::domain_root(k))));
        }
    }
    Ok(KZGSettings {
        secret_g1: reordered,
        secret_g2: parsed.g2_points,
        fs,
    })
}

/// The smallest scale whose domain holds at least `length` points.
pub fn scale_for_length(length: usize) -> (r: usize)
    requires
        length <= 0x80000000,
    ensures
        r < 32,
        vstd::arithmetic::power2::pow2(r as nat) >= length,
        r > 0 ==> vstd::arithmetic::power2::pow2((r - 1) as nat) < length,
{
    let mut scale: usize = 0;
    let mut cap: usize = 1;
    proof {
        vstd::arithmetic::power2::lemma2_to64();
    }
    while cap < length
        invariant
            length <= 0x80000000,
            cap == vstd::arithmetic::power2::pow2(scale as nat),
            scale < 32,
            scale > 0 ==> vstd::arithmetic::power2::pow2((scale - 1) as nat) < length,
        decreases 32 - scale,
    {
        proof {
            vstd::arithmetic::power2::lemma2_to64();
            vstd::arithmetic::power2::lemma_pow2_unfold((scale + 1) as nat);
            if ((scale as nat)) < 31 {
                vstd::arithmetic::power2::lemma_pow2_strictly_increases(scale as nat, 31);
            }
            assert(vstd::arithmetic::power2::pow2(scale as nat) <= vstd::arithmetic::power2::pow2(31));
        }
        cap = cap * 2;
        scale = scale + 1;
    }
    scale
}

} // verus!
