//! Bus binary codec: fixed-width datapoint encodings.
//!
//! A boolean datapoint occupies exactly one byte, of which only the least
//! significant bit is meaningful.  A temperature datapoint occupies exactly
//! two bytes as a packed sign/exponent/mantissa float (distinct from
//! IEEE-754) with a resolution of one hundredth of a degree at small
//! magnitudes; temperatures are handled throughout as integer hundredths
//! of a degree Celsius.

use vstd::prelude::*;

use crate::errors::DecodeError;

verus! {

/// What decoding a boolean bus telegram yields: the least significant bit
/// of the single byte, or a length error.
pub open spec fn spec_decode_bool(data: Seq<u8>) -> Result<bool, DecodeError> {
    if data.len() == 1 {
        Ok(data[0] % 2 == 1)
    } else {
        Err(DecodeError::LengthMismatch)
    }
}

/// What encoding a boolean yields: one byte, `0x01` for on and `0x00` for
/// off (all bits above the least significant one are zero-filled).
pub open spec fn spec_encode_bool(b: bool) -> Seq<u8> {
    seq![if b { 1u8 } else { 0u8 }]
}

/// Encode a boolean datapoint as a one-byte bus telegram.
pub fn encode_bool(b: bool) -> (r: Vec<u8>)
    ensures
        r@ == spec_encode_bool(b),
{
    let mut v: Vec<u8> = Vec::new();
    v.push(if b { 1u8 } else { 0u8 });
    proof {
        assert(v@ =~= spec_encode_bool(b));
    }
    v
}

/// Decode a one-byte boolean bus telegram; any other payload length is
/// rejected without reading out of bounds.
pub fn decode_bool(data: &[u8]) -> (r: Result<bool, DecodeError>)
    ensures
        r == spec_decode_bool(data@),
{
    if data.len() == 1 {
        Ok(data[0] % 2 == 1)
    } else {
        Err(DecodeError::LengthMismatch)
    }
}

/// Law: every encoded boolean decodes back to itself.
pub proof fn lemma_bool_round_trip(b: bool)
    ensures
        spec_decode_bool(spec_encode_bool(b)) == Ok::<bool, DecodeError>(b),
{
}

/// Powers of two, as a mathematical integer.
pub open spec fn p2(e: nat) -> int {
    vstd::arithmetic::power2::pow2(e) as int
}

/// Lowest representable temperature, in hundredths of a degree:
/// -2048 * 2^15.
pub const TEMP_MIN_CENTI: i32 = -67108864;

/// Highest representable temperature, in hundredths of a degree:
/// 2047 * 2^15.
pub const TEMP_MAX_CENTI: i32 = 67076096;

/// Encoding saturates at the format's minimum and maximum rather than
/// overflowing.
pub open spec fn clamp_centi(t: int) -> int {
    if t < TEMP_MIN_CENTI as int {
        TEMP_MIN_CENTI as int
    } else if t > TEMP_MAX_CENTI as int {
        TEMP_MAX_CENTI as int
    } else {
        t
    }
}

/// The mantissa candidate at scale `e`: `t / 2^e` rounded to the nearest
/// integer, halves upward.
pub open spec fn round_at(t: int, e: nat) -> int {
    (2 * t + p2(e)) / (2 * p2(e))
}

/// Whether the mantissa at scale `e` fits the format's twelve-bit two's
/// complement range.
pub open spec fn fits_at(t: int, e: nat) -> bool {
    -2048 <= round_at(t, e) <= 2047
}

pub open spec fn scale_from(t: int, e: nat) -> nat
    decreases 16 - e,
    when e <= 15
{
    if e >= 15 {
        15
    } else if fits_at(t, e) {
        e
    } else {
        scale_from(t, (e + 1) as nat)
    }
}

/// The scale the encoder chooses: the least exponent at which the
/// mantissa fits.
pub open spec fn scale_of(t: int) -> nat {
    scale_from(t, 0)
}

/// The packed two-byte form of mantissa `m` (twelve-bit two's complement)
/// and exponent `e`: the first byte holds the sign bit, the four exponent
/// bits and the top three mantissa bits; the second byte the low eight
/// mantissa bits.
pub open spec fn pack(m: int, e: nat) -> Seq<u8> {
    let m12 = if m < 0 {
        m + 4096
    } else {
        m
    };
    seq![((m12 / 2048) * 128 + e * 8 + (m12 / 256) % 8) as u8, (m12 % 256) as u8]
}

/// What encoding a temperature yields: the clamped value's nearest
/// mantissa at the least fitting scale, packed.
pub open spec fn spec_encode_temp(t: int) -> Seq<u8> {
    let c = clamp_centi(t);
    let e = scale_of(c);
    pack(round_at(c, e), e)
}

/// The value a two-byte temperature telegram denotes, in hundredths of a
/// degree: its mantissa times two to its exponent.
pub open spec fn spec_temp_value(b0: u8, b1: u8) -> int {
    let e = ((b0 / 8) % 16) as nat;
    let m12 = (b0 / 128) * 2048 + (b0 % 8) * 256 + b1;
    let m: int = if m12 >= 2048 {
        m12 - 4096
    } else {
        m12 as int
    };
    m * p2(e)
}

/// What decoding a temperature telegram yields: its denoted value, or a
/// length error for any width other than two bytes.
pub open spec fn spec_decode_temp(data: Seq<u8>) -> Result<i32, DecodeError> {
    if data.len() == 2 {
        Ok(spec_temp_value(data[0], data[1]) as i32)
    } else {
        Err(DecodeError::LengthMismatch)
    }
}

fn pow2_u64(e: u32) -> (r: u64)
    requires
        e <= 16,
    ensures
        r as int == p2(e as nat),
{
    proof {
        vstd::arithmetic::power2::lemma2_to64();
    }
    let mut r: u64 = 1;
    let mut i: u32 = 0;
    while i < e
        invariant
            i <= e <= 16,
            r as int == p2(i as nat),
            r <= 65536,
        decreases e - i,
    {
        proof {
            vstd::arithmetic::power2::lemma2_to64();
            vstd::arithmetic::power2::lemma_pow2_adds(i as nat, 1);
            if i as nat + 1 < 16 {
                vstd::arithmetic::power2::lemma_pow2_strictly_increases(i as nat + 1, 16);
            }
        }
        r = r * 2;
        i = i + 1;
    }
    r
}

/// The mantissa at scale `e` fits for every clamped input at the widest
/// scale.
proof fn lemma_fits_at_15(t: int)
    requires
        TEMP_MIN_CENTI as int <= t <= TEMP_MAX_CENTI as int,
    ensures
        fits_at(t, 15),
{
    vstd::arithmetic::power2::lemma2_to64();
    assert(p2(15) == 32768);
    vstd::arithmetic::div_mod::lemma_div_is_ordered(-134184960, 2 * t + 32768, 65536);
    vstd::arithmetic::div_mod::lemma_div_is_ordered(2 * t + 32768, 134184960, 65536);
    vstd::arithmetic::div_mod::lemma_fundamental_div_mod_converse(-134184960, 65536, -2048, 32768);
    vstd::arithmetic::div_mod::lemma_fundamental_div_mod_converse(134184960, 65536, 2047, 32768);
}

/// The loop that raises the scale until the mantissa fits lands exactly on
/// `scale_of`.
proof fn lemma_scale_from_finds(t: int, j: nat, e: nat)
    requires
        j <= e <= 15,
        forall|k: nat| k < e ==> !fits_at(t, k),
        fits_at(t, e),
    ensures
        scale_from(t, j) == e,
    decreases 16 - j,
{
    if j < e {
        assert(!fits_at(t, j));
        lemma_scale_from_finds(t, (j + 1) as nat, e);
    }
}

fn round_at_exec(t: i32, e: u32) -> (m: i64)
    requires
        e <= 15,
        TEMP_MIN_CENTI <= t <= TEMP_MAX_CENTI,
    ensures
        m as int == round_at(t as int, e as nat),
{
    let u: u64 = (t - TEMP_MIN_CENTI) as u64;
    let p: u64 = pow2_u64(e);
    proof {
        vstd::arithmetic::power2::lemma2_to64();
        if (e as nat) < 15 {
            vstd::arithmetic::power2::lemma_pow2_strictly_increases(e as nat, 15);
        }
    }
    let num: u64 = 2 * u + p;
    let d: u64 = 2 * p;
    let q: u64 = num / d;
    let shift: i64 = 2048 * (pow2_u64(15 - e) as i64);
    proof {
        let ti = t as int;
        let ei = e as nat;
        let f = (15 - e) as nat;
        vstd::arithmetic::power2::lemma_pow2_adds(f, ei);
        vstd::arithmetic::power2::lemma_pow2_pos(ei);
        vstd::arithmetic::power2::lemma2_to64();
        assert((shift as int) * (d as int) == 134217728) by (nonlinear_arith)
            requires
                p2(f) * p2(ei) == p2(15),
                p2(15) == 32768,
                shift as int == 2048 * p2(f),
                d as int == 2 * p2(ei),
        ;
        assert(num as int == (2 * ti + p2(ei)) + (shift as int) * (d as int));
        vstd::arithmetic::div_mod::lemma_hoist_over_denominator(
            2 * ti + p2(ei),
            shift as int,
            (d as int) as nat,
        );
        assert(q as int == round_at(ti, ei) + shift as int);
    }
    q as i64 - shift
}

/// Encode a temperature, given in hundredths of a degree, as a two-byte
/// bus telegram: the nearest representable value, saturating at the
/// format's minimum and maximum.
pub fn encode_temp(centi: i32) -> (r: Vec<u8>)
    ensures
        r@ == spec_encode_temp(centi as int),
{
    let t: i32 = if centi < TEMP_MIN_CENTI {
        TEMP_MIN_CENTI
    } else if centi > TEMP_MAX_CENTI {
        TEMP_MAX_CENTI
    } else {
        centi
    };
    let mut e: u32 = 0;
    let mut m: i64 = t as i64;
    proof {
        vstd::arithmetic::power2::lemma2_to64();
        assert(p2(0) == 1);
        vstd::arithmetic::div_mod::lemma_fundamental_div_mod_converse(
            2 * (t as int) + 1,
            2,
            t as int,
            1,
        );
        assert(m as int == round_at(t as int, 0));
    }
    while m < -2048 || m > 2047
        invariant
            e <= 15,
            TEMP_MIN_CENTI <= t <= TEMP_MAX_CENTI,
            t as int == clamp_centi(centi as int),
            m as int == round_at(t as int, e as nat),
            forall|k: nat| k < e as nat ==> !fits_at(t as int, k),
        decreases 15 - e,
    {
        proof {
            if e == 15 {
                lemma_fits_at_15(t as int);
                assert(false);
            }
        }
        e = e + 1;
        m = round_at_exec(t, e);
    }
    proof {
        lemma_scale_from_finds(t as int, 0, e as nat);
    }
    let m12: u64 = if m < 0 {
        (m + 4096) as u64
    } else {
        m as u64
    };
    let b0v: u64 = (m12 / 2048) * 128 + (e as u64) * 8 + (m12 / 256) % 8;
    let b1v: u64 = m12 % 256;
    proof {
        assert(m12 < 4096);
        assert(m12 / 2048 <= 1 && m12 / 256 <= 15 && m12 % 256 <= 255) by (bit_vector)
            requires
                m12 < 4096,
        ;
        assert(b0v <= 255);
    }
    let b0 = b0v as u8;
    let b1 = b1v as u8;
    let mut out: Vec<u8> = Vec::new();
    out.push(b0);
    out.push(b1);
    proof {
        assert(out@ =~= pack(m as int, e as nat));
    }
    out
}

/// Decode a two-byte temperature telegram to hundredths of a degree; any
/// other payload length is rejected without reading out of bounds.
pub fn decode_temp(data: &[u8]) -> (r: Result<i32, DecodeError>)
    ensures
        r == spec_decode_temp(data@),
{
    if data.len() != 2 {
        return Err(DecodeError::LengthMismatch);
    }
    let b0 = data[0];
    let b1 = data[1];
    let e: u32 = ((b0 as u32) / 8) % 16;
    let m12: u32 = ((b0 as u32) / 128) * 2048 + ((b0 as u32) % 8) * 256 + (b1 as u32);
    let m: i64 = if m12 >= 2048 {
        (m12 as i64) - 4096
    } else {
        m12 as i64
    };
    let p: u64 = pow2_u64(e);
    proof {
        vstd::arithmetic::power2::lemma2_to64();
        if (e as nat) < 15 {
            vstd::arithmetic::power2::lemma_pow2_strictly_increases(e as nat, 15);
        }
        assert(-2048 <= m as int <= 2047);
        assert(0 < p as int <= 32768);
        assert(-67108864 <= (m as int) * (p as int) <= 67076096) by (nonlinear_arith)
            requires
                -2048 <= m as int <= 2047,
                0 < p as int <= 32768,
        ;
    }
    let v: i64 = m * (p as i64);
    Ok(v as i32)
}

/// The packed form of a fitting mantissa and scale denotes exactly their
/// product.
proof fn lemma_pack_unpack(m: int, e: nat)
    requires
        -2048 <= m <= 2047,
        e <= 15,
    ensures
        pack(m, e).len() == 2,
        spec_temp_value(pack(m, e)[0], pack(m, e)[1]) == m * p2(e),
{
    let m12 = if m < 0 {
        m + 4096
    } else {
        m
    };
    let m12u: u32 = m12 as u32;
    let eu: u32 = e as u32;
    let su: u32 = (m12u / 2048) as u32;
    let hiu: u32 = ((m12u / 256) % 8) as u32;
    let lou: u32 = (m12u % 256) as u32;
    assert(su <= 1 && hiu <= 7 && lou <= 255) by (bit_vector)
        requires
            m12u < 4096,
            su == m12u / 2048,
            hiu == (m12u / 256) % 8,
            lou == m12u % 256,
    ;
    let b0u: u32 = (su * 128 + eu * 8 + hiu) as u32;
    assert((b0u / 8) % 16 == eu && b0u / 128 == su && b0u % 8 == hiu) by (bit_vector)
        requires
            b0u == su * 128 + eu * 8 + hiu,
            su <= 1,
            eu <= 15,
            hiu <= 7,
    ;
    assert(su * 2048 + hiu * 256 + lou == m12u) by (bit_vector)
        requires
            m12u < 4096,
            su == m12u / 2048,
            hiu == (m12u / 256) % 8,
            lou == m12u % 256,
    ;
    let b = pack(m, e);
    assert(b[0] == b0u as u8 && b[1] == lou as u8);
    assert(b0u <= 255);
    assert(spec_temp_value(b[0], b[1]) == m * p2(e));
}

/// Law: decoding an encoded temperature reproduces the input to within
/// the format's resolution at that magnitude: twice the error is at most
/// the mantissa step, two to the chosen scale.
pub proof fn lemma_temp_round_trip(t: int)
    requires
        TEMP_MIN_CENTI as int <= t <= TEMP_MAX_CENTI as int,
    ensures
        spec_encode_temp(t).len() == 2,
        2 * vstd::math::abs(
            spec_temp_value(spec_encode_temp(t)[0], spec_encode_temp(t)[1]) - t,
        ) <= p2(scale_of(t)),
{
    let e = scale_of(t);
    let m = round_at(t, e);
    lemma_scale_of_fits(t);
    lemma_pack_unpack(m, e);
    lemma_round_err(t, e);
}

/// Law: within the mantissa's own range — about twenty degrees either
/// way — the finest scale applies and the codec is exact: encoding loses
/// nothing at all.
pub proof fn lemma_temp_exact_at_fine_scale(t: int)
    requires
        -2048 <= t <= 2047,
    ensures
        spec_encode_temp(t).len() == 2,
        spec_temp_value(spec_encode_temp(t)[0], spec_encode_temp(t)[1]) == t,
{
    vstd::arithmetic::power2::lemma2_to64();
    assert(p2(0) == 1);
    vstd::arithmetic::div_mod::lemma_fundamental_div_mod_converse(2 * t + 1, 2, t, 1);
    assert(round_at(t, 0) == t);
    assert(fits_at(t, 0));
    assert(scale_of(t) == 0);
    assert(clamp_centi(t) == t);
    lemma_pack_unpack(t, 0);
}

/// The scale the encoder chooses does make the mantissa fit, and is at
/// most the format's widest scale.
pub proof fn lemma_scale_of_fits(t: int)
    requires
        TEMP_MIN_CENTI as int <= t <= TEMP_MAX_CENTI as int,
    ensures
        scale_of(t) <= 15,
        fits_at(t, scale_of(t)),
{
    lemma_fits_at_15(t);
    lemma_scale_from_bounded(t, 0);
}

proof fn lemma_scale_from_bounded(t: int, j: nat)
    requires
        j <= 15,
        fits_at(t, 15),
    ensures
        j <= scale_from(t, j) <= 15,
        fits_at(t, scale_from(t, j)),
    decreases 16 - j,
{
    if j < 15 && !fits_at(t, j) {
        lemma_scale_from_bounded(t, (j + 1) as nat);
    }
}

/// Rounding to the nearest multiple of `2^e` is off by at most half a
/// step.
proof fn lemma_round_err(t: int, e: nat)
    ensures
        2 * vstd::math::abs(round_at(t, e) * p2(e) - t) <= p2(e),
{
    vstd::arithmetic::power2::lemma_pow2_pos(e);
    let p = p2(e);
    let d = 2 * p;
    let x = 2 * t + p;
    vstd::arithmetic::div_mod::lemma_fundamental_div_mod(x, d);
    let q = x / d;
    let r = x % d;
    vstd::arithmetic::div_mod::lemma_mod_division_less_than_divisor(x, d);
    assert(0 <= r) by {
        vstd::arithmetic::div_mod::lemma_mod_bound(x, d);
    }
    assert(x == d * q + r);
    assert(d * q == 2 * (q * p)) by {
        vstd::arithmetic::mul::lemma_mul_is_associative(2, p, q);
        vstd::arithmetic::mul::lemma_mul_is_commutative(p, q);
    }
    assert(2 * (q * p - t) == p - r);
}

} // verus!
