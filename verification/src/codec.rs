//! The identifier codec: packing a quantized latitude, longitude, millisecond
//! timestamp and random disambiguator into 128 bits, and unpacking them again.
//!
//! Layout, under absolute big-endian bit numbering 0 (most significant) to
//! 127: bits 48..51 carry the fixed version marker `0111` and bits 64..65 the
//! fixed variant marker `10`; the other 122 bits carry, in order, a 97-bit
//! round-robin interleaving of the 48 timestamp bits, 25 longitude bits and
//! 24 latitude bits (most significant first, each field aligned so its top
//! bit joins the round of the timestamp's top bit), followed by the 25 random
//! bits.

use vstd::prelude::*;
use crate::bits::{
    bit_of, bits_of, bits_val, bits_lsb, bits_to_bytes, bytes_to_bits, id_bit,
    lemma_bits_val_bound, lemma_bits_of_val, lemma_val_of_bits,
};
use crate::quant::{
    spec_quantize, spec_dequantize_plus, quantize, dequantize_plus, lemma_quantize_bounds,
    lemma_quant_round_trip,
};

verus! {

/// Offset added to a latitude in micro-degrees to make it non-negative.
pub const LAT_OFF_MICRO: i64 = 90_000_000;

/// Offset added to a longitude in micro-degrees to make it non-negative.
pub const LON_OFF_MICRO: i64 = 180_000_000;

/// Width of the latitude domain in micro-degrees.
pub const LAT_RANGE_MICRO: u64 = 180_000_000;

/// Width of the longitude domain in micro-degrees.
pub const LON_RANGE_MICRO: u64 = 360_000_000;

/// Largest quantized latitude: 24 bits.
pub const LAT_MAX_Q: u64 = 0xFF_FFFF;

/// Largest quantized longitude: 25 bits.
pub const LON_MAX_Q: u64 = 0x1FF_FFFF;

/// The timestamp field keeps the low 48 bits of the millisecond count.
pub const TS_MOD: u64 = 0x1_0000_0000_0000;

/// The random field keeps 25 bits.
pub const RAND_MOD: u32 = 0x200_0000;

/// Stream position of timestamp bit `n` (most significant first, `n` in
/// `[0, 48)`); `t_pos(48) == 97` is the total interleaved length.
pub open spec fn t_pos(n: int) -> int {
    if n <= 23 {
        3 * n
    } else if n == 24 {
        72
    } else {
        n + 49
    }
}

/// Stream position of longitude bit `n` (most significant first, `n` in `[0, 25)`).
pub open spec fn o_pos(n: int) -> int {
    if n <= 23 {
        3 * n + 1
    } else {
        73
    }
}

/// Stream position of latitude bit `n` (most significant first, `n` in `[0, 24)`).
pub open spec fn l_pos(n: int) -> int {
    3 * n + 2
}

/// Bit `k` of the 122-bit payload stream for the given field values.
pub open spec fn payload_bit(ts: nat, lon_q: nat, lat_q: nat, rnd: nat, k: int) -> bool {
    if k < 72 {
        if k % 3 == 0 {
            bit_of(ts, (47 - k / 3) as nat)
        } else if k % 3 == 1 {
            bit_of(lon_q, (24 - k / 3) as nat)
        } else {
            bit_of(lat_q, (23 - k / 3) as nat)
        }
    } else if k == 72 {
        bit_of(ts, 23)
    } else if k == 73 {
        bit_of(lon_q, 0)
    } else if k < 97 {
        bit_of(ts, (96 - k) as nat)
    } else {
        bit_of(rnd, (121 - k) as nat)
    }
}

/// Whether absolute bit position `q` is one of the 6 reserved marker bits.
pub open spec fn is_reserved(q: int) -> bool {
    (48 <= q < 52) || (64 <= q < 66)
}

/// The constant value of reserved position `q`: version `0111`, variant `10`.
pub open spec fn reserved_val(q: int) -> bool {
    q == 49 || q == 50 || q == 51 || q == 64
}

/// The payload stream position that non-reserved absolute position `q` carries.
pub open spec fn payload_index_of(q: int) -> int {
    if q < 48 {
        q
    } else if q < 64 {
        q - 4
    } else {
        q - 6
    }
}

/// The absolute position that carries payload stream position `k`.
pub open spec fn abs_index_of(k: int) -> int {
    if k < 48 {
        k
    } else if k < 60 {
        k + 4
    } else {
        k + 6
    }
}

/// Bit `q` of the encoded identifier, under absolute numbering.
pub open spec fn abs_bit(ts: nat, lon_q: nat, lat_q: nat, rnd: nat, q: int) -> bool {
    if is_reserved(q) {
        reserved_val(q)
    } else {
        payload_bit(ts, lon_q, lat_q, rnd, payload_index_of(q))
    }
}

/// All 128 bits of the encoded identifier, most significant first.
pub open spec fn spec_uuid_bits(ts: nat, lon_q: nat, lat_q: nat, rnd: nat) -> Seq<bool> {
    Seq::new(128, |q: int| abs_bit(ts, lon_q, lat_q, rnd, q))
}

/// The 16 big-endian bytes of the encoded identifier.
pub open spec fn spec_uuid_bytes(ts: nat, lon_q: nat, lat_q: nat, rnd: nat) -> Seq<u8> {
    Seq::new(
        16,
        |j: int| bits_val(spec_uuid_bits(ts, lon_q, lat_q, rnd).subrange(8 * j, 8 * j + 8)) as u8,
    )
}

/// The quantized form of a latitude in micro-degrees.
pub open spec fn lat_q_of(lat_micro: int) -> int {
    spec_quantize(lat_micro + LAT_OFF_MICRO, LAT_RANGE_MICRO as int, LAT_MAX_Q as int)
}

/// The quantized form of a longitude in micro-degrees.
pub open spec fn lon_q_of(lon_micro: int) -> int {
    spec_quantize(lon_micro + LON_OFF_MICRO, LON_RANGE_MICRO as int, LON_MAX_Q as int)
}

/// The timestamp field: the millisecond count modulo `2^48`.
pub open spec fn ts_field(t: i64) -> u64 {
    (t % (TS_MOD as i64)) as u64
}

/// The random field: the draw modulo `2^25`.
pub open spec fn rnd_field(r: u32) -> u32 {
    r % RAND_MOD
}

/// The bytes that encoding the given coordinate, timestamp and random draw
/// must produce.
pub open spec fn spec_encode_bytes(lat_micro: int, lon_micro: int, ts: u64, rnd: u32) -> Seq<u8> {
    spec_uuid_bytes(ts as nat, lon_q_of(lon_micro) as nat, lat_q_of(lat_micro) as nat, rnd as nat)
}

/// The 122 payload bits of an arbitrary 16-byte identifier.
pub open spec fn extracted_payload(b: Seq<u8>) -> Seq<bool> {
    Seq::new(122, |k: int| id_bit(b, abs_index_of(k)))
}

/// The timestamp bits of an identifier, most significant first.
pub open spec fn ts_bits_of(b: Seq<u8>) -> Seq<bool> {
    Seq::new(48, |n: int| extracted_payload(b)[t_pos(n)])
}

/// The longitude bits of an identifier, most significant first.
pub open spec fn lon_bits_of(b: Seq<u8>) -> Seq<bool> {
    Seq::new(25, |n: int| extracted_payload(b)[o_pos(n)])
}

/// The latitude bits of an identifier, most significant first.
pub open spec fn lat_bits_of(b: Seq<u8>) -> Seq<bool> {
    Seq::new(24, |n: int| extracted_payload(b)[l_pos(n)])
}

/// The timestamp (milliseconds since the epoch) an identifier decodes to.
pub open spec fn decoded_ts(b: Seq<u8>) -> nat {
    bits_val(ts_bits_of(b))
}

/// The quantized longitude an identifier decodes to.
pub open spec fn decoded_lon_q(b: Seq<u8>) -> nat {
    bits_val(lon_bits_of(b))
}

/// The quantized latitude an identifier decodes to.
pub open spec fn decoded_lat_q(b: Seq<u8>) -> nat {
    bits_val(lat_bits_of(b))
}

/// The latitude in micro-degrees an identifier decodes to.
pub open spec fn decoded_lat_micro(b: Seq<u8>) -> int {
    spec_dequantize_plus(decoded_lat_q(b) as int, LAT_RANGE_MICRO as int, LAT_MAX_Q as int)
        - LAT_OFF_MICRO
}

/// The longitude in micro-degrees an identifier decodes to.
pub open spec fn decoded_lon_micro(b: Seq<u8>) -> int {
    spec_dequantize_plus(decoded_lon_q(b) as int, LON_RANGE_MICRO as int, LON_MAX_Q as int)
        - LON_OFF_MICRO
}

/// Whether a coordinate pair lies inside the closed encodable domain.
pub open spec fn coords_in_range(lat_micro: i64, lon_micro: i64) -> bool {
    &&& -LAT_OFF_MICRO <= lat_micro <= LAT_OFF_MICRO
    &&& -LON_OFF_MICRO <= lon_micro <= LON_OFF_MICRO
}

/// The two failure kinds of the codec.
#[derive(Clone, Copy, Debug, PartialEq, Eq)]
pub enum CodecError {
    /// A latitude or longitude outside its closed domain was given to encode.
    OutOfRange,
    /// A textual identifier was not 16 bytes of hex in an accepted grouping.
    MalformedInput,
}

impl CodecError {
    /// A short description of the failure.
    pub fn message(&self) -> (s: String)
        ensures
            *self is OutOfRange ==> s@ == "latitude or longitude out of range"@,
            *self is MalformedInput ==> s@ == "malformed identifier string"@,
    {
        match self {
            CodecError::OutOfRange => "latitude or longitude out of range".to_owned(),
            CodecError::MalformedInput => "malformed identifier string".to_owned(),
        }
    }
}

/// A 128-bit geo-temporal identifier, stored as 16 big-endian bytes.
#[derive(Clone, Copy, Debug, PartialEq, Eq, PartialOrd, Ord)]
pub struct GeoTemporalUuid([u8; 16]);

impl View for GeoTemporalUuid {
    type V = Seq<u8>;

    closed spec fn view(&self) -> Seq<u8> {
        self.0@
    }
}

/// Reduces a millisecond count to the 48-bit timestamp field.
pub fn ts_to_field(t: i64) -> (f: u64)
    ensures
        f == ts_field(t),
        f < TS_MOD,
{
    let p: u64 = 0x1_0000_0000_0000;
    if t >= 0 {
        (t as u64) % p
    } else {
        let a: i64 = -(t + 1);
        let m: u64 = (a as u64) % p;
        let f: u64 = 0xFFFF_FFFF_FFFF - m;
        proof {
            let pi: int = p as int;
            let q = (a as int) / pi;
            let r = (a as int) % pi;
            vstd::arithmetic::div_mod::lemma_fundamental_div_mod(a as int, pi);
            vstd::arithmetic::div_mod::lemma_mod_bound(a as int, pi);
            assert(t as int == (-(q + 1)) * pi + (pi - 1 - r)) by (nonlinear_arith)
                requires
                    a as int == pi * q + r,
                    t as int == -(a as int) - 1,
            ;
            vstd::arithmetic::div_mod::lemma_fundamental_div_mod_converse_mod(
                t as int,
                pi,
                -(q + 1),
                pi - 1 - r,
            );
        }
        f
    }
}

impl GeoTemporalUuid {
    /// Builds the identifier for a coordinate (in micro-degrees), a
    /// millisecond timestamp and a random draw; every input is reduced to its
    /// field width, and only a coordinate outside its closed domain fails.
    pub fn encode_at(lat_micro: i64, lon_micro: i64, ts_ms: i64, rnd: u32) -> (r: Result<
        Self,
        CodecError,
    >)
        ensures
            r is Ok <==> coords_in_range(lat_micro, lon_micro),
            r is Err ==> r->Err_0 == CodecError::OutOfRange,
            r is Ok ==> r->Ok_0@ == spec_encode_bytes(
                lat_micro as int,
                lon_micro as int,
                ts_field(ts_ms),
                rnd_field(rnd),
            ),
    {
        if lat_micro < -90_000_000 || lat_micro > 90_000_000 || lon_micro < -180_000_000
            || lon_micro > 180_000_000 {
            return Err(CodecError::OutOfRange);
        }
        let lat_q: u64 = quantize((lat_micro + 90_000_000) as u64, LAT_RANGE_MICRO, LAT_MAX_Q);
        let lon_q: u64 = quantize((lon_micro + 180_000_000) as u64, LON_RANGE_MICRO, LON_MAX_Q);
        let ts: u64 = ts_to_field(ts_ms);
        let rf: u32 = rnd % RAND_MOD;
        let tb = bits_lsb(ts, 48);
        let ob = bits_lsb(lon_q, 25);
        let lb = bits_lsb(lat_q, 24);
        let rb = bits_lsb(rf as u64, 25);
        let ghost tsn: nat = ts as nat;
        let ghost on: nat = lon_q as nat;
        let ghost ln: nat = lat_q as nat;
        let ghost rn: nat = rf as nat;

        // Interleave timestamp, longitude and latitude, one round per
        // timestamp bit, most significant bits first.
        let mut pl: Vec<bool> = Vec::new();
        let mut n: usize = 0;
        while n < 48
            invariant
                n <= 48,
                pl@.len() == t_pos(n as int),
                tb@.len() == 48,
                ob@.len() == 25,
                lb@.len() == 24,
                forall|j: int| 0 <= j < 48 ==> tb@[j] == bit_of(tsn, j as nat),
                forall|j: int| 0 <= j < 25 ==> ob@[j] == bit_of(on, j as nat),
                forall|j: int| 0 <= j < 24 ==> lb@[j] == bit_of(ln, j as nat),
                forall|k: int|
                    0 <= k < pl@.len() ==> pl@[k] == payload_bit(tsn, on, ln, rn, k),
            decreases 48 - n,
        {
            proof {
                if n <= 23 {
                    vstd::arithmetic::div_mod::lemma_fundamental_div_mod_converse(
                        3 * (n as int),
                        3,
                        n as int,
                        0,
                    );
                    vstd::arithmetic::div_mod::lemma_fundamental_div_mod_converse(
                        3 * (n as int) + 1,
                        3,
                        n as int,
                        1,
                    );
                    vstd::arithmetic::div_mod::lemma_fundamental_div_mod_converse(
                        3 * (n as int) + 2,
                        3,
                        n as int,
                        2,
                    );
                }
            }
            pl.push(tb[47 - n]);
            if n < 25 {
                pl.push(ob[24 - n]);
            }
            if n < 24 {
                pl.push(lb[23 - n]);
            }
            n = n + 1;
        }
        // Append the random field as a contiguous tail.
        let mut m: usize = 0;
        while m < 25
            invariant
                m <= 25,
                pl@.len() == 97 + m,
                rb@.len() == 25,
                forall|j: int| 0 <= j < 25 ==> rb@[j] == bit_of(rn, j as nat),
                forall|k: int|
                    0 <= k < pl@.len() ==> pl@[k] == payload_bit(tsn, on, ln, rn, k),
            decreases 25 - m,
        {
            pl.push(rb[24 - m]);
            m = m + 1;
        }
        // Pack the payload around the reserved marker positions.
        let mut u: Vec<bool> = Vec::new();
        let mut q: usize = 0;
        let mut c: usize = 0;
        while q < 128
            invariant
                q <= 128,
                u@.len() == q,
                pl@.len() == 122,
                forall|k: int|
                    0 <= k < 122 ==> pl@[k] == payload_bit(tsn, on, ln, rn, k),
                c == (if q <= 48 {
                    q as int
                } else if q <= 52 {
                    48
                } else if q <= 64 {
                    q - 4
                } else if q <= 66 {
                    60
                } else {
                    q - 6
                }),
                forall|p: int| 0 <= p < q ==> u@[p] == abs_bit(tsn, on, ln, rn, p),
            decreases 128 - q,
        {
            if (q >= 48 && q < 52) || (q >= 64 && q < 66) {
                u.push(q == 49 || q == 50 || q == 51 || q == 64);
            } else {
                u.push(pl[c]);
                c = c + 1;
            }
            q = q + 1;
        }
        let bytes = bits_to_bytes(&u);
        proof {
            assert(u@ =~= spec_uuid_bits(tsn, on, ln, rn));
            assert forall|j: int| 0 <= j < 16 implies bytes@[j] == spec_uuid_bytes(
                tsn,
                on,
                ln,
                rn,
            )[j] by {
                assert(u@.subrange(8 * j, 8 * j + 8) =~= spec_uuid_bits(
                    tsn,
                    on,
                    ln,
                    rn,
                ).subrange(8 * j, 8 * j + 8));
            }
        }
        let mut arr: [u8; 16] = [0u8; 16];
        let mut j: usize = 0;
        while j < 16
            invariant
                j <= 16,
                bytes@.len() == 16,
                forall|i: int| 0 <= i < j ==> arr@[i] == bytes@[i],
            decreases 16 - j,
        {
            arr[j] = bytes[j];
            j = j + 1;
        }
        proof {
            assert(arr@ =~= spec_encode_bytes(
                lat_micro as int,
                lon_micro as int,
                ts_field(ts_ms),
                rnd_field(rnd),
            ));
        }
        Ok(GeoTemporalUuid(arr))
    }

    /// Builds an identifier for a coordinate in micro-degrees, at the given
    /// millisecond timestamp or, when none is given, at the clock's current
    /// instant, with a freshly drawn random field. Only a coordinate outside
    /// its closed domain fails.
    pub fn new(lat_micro: i64, lon_micro: i64, time_ms: Option<i64>) -> (r: Result<
        Self,
        CodecError,
    >)
        ensures
            r is Ok <==> coords_in_range(lat_micro, lon_micro),
            r is Err ==> r->Err_0 == CodecError::OutOfRange,
            r is Ok && time_ms is Some ==> exists|rv: u32|
                r->Ok_0@ == #[trigger] spec_encode_bytes(
                    lat_micro as int,
                    lon_micro as int,
                    ts_field(time_ms->0),
                    rnd_field(rv),
                ),
            r is Ok && time_ms is None ==> exists|t: i64, rv: u32|
                r->Ok_0@ == #[trigger] spec_encode_bytes(
                    lat_micro as int,
                    lon_micro as int,
                    ts_field(t),
                    rnd_field(rv),
                ),
    {
        let t: i64 = match time_ms {
            Some(t) => t,
            None => crate::sources::now_millis(),
        };
        let rv: u32 = crate::sources::draw_random_field();
        let res = Self::encode_at(lat_micro, lon_micro, t, rv);
        proof {
            if res is Ok {
                assert(res->Ok_0@ == spec_encode_bytes(
                    lat_micro as int,
                    lon_micro as int,
                    ts_field(t),
                    rnd_field(rv),
                ));
            }
        }
        res
    }

    /// Recovers latitude and longitude (micro-degrees) and the millisecond
    /// timestamp from any 16-byte identifier; never fails.
    pub fn decode(&self) -> (r: (i64, i64, i64))
        ensures
            r.0 == decoded_lat_micro(self@),
            r.1 == decoded_lon_micro(self@),
            r.2 == decoded_ts(self@),
            -90_000_000 <= r.0 <= 90_000_000,
            -180_000_000 <= r.1 <= 180_000_000,
            0 <= r.2 < TS_MOD,
    {
        let u = bytes_to_bits(&self.0);
        // Collect the payload bits, skipping the reserved positions.
        let mut pl: Vec<bool> = Vec::new();
        let mut q: usize = 0;
        let mut c: usize = 0;
        while q < 128
            invariant
                q <= 128,
                u@.len() == 128,
                forall|p: int| 0 <= p < 128 ==> u@[p] == id_bit(self@, p),
                c == (if q <= 48 {
                    q as int
                } else if q <= 52 {
                    48
                } else if q <= 64 {
                    q - 4
                } else if q <= 66 {
                    60
                } else {
                    q - 6
                }),
                pl@.len() == c,
                forall|k: int| 0 <= k < c ==> pl@[k] == extracted_payload(self@)[k],
            decreases 128 - q,
        {
            if !((q >= 48 && q < 52) || (q >= 64 && q < 66)) {
                pl.push(u[q]);
                c = c + 1;
            }
            q = q + 1;
        }
        // De-interleave, accumulating each field most significant bit first.
        let ghost b = self@;
        let mut tacc: u64 = 0;
        let mut oacc: u64 = 0;
        let mut lacc: u64 = 0;
        let mut idx: usize = 0;
        let mut n: usize = 0;
        while n < 48
            invariant
                n <= 48,
                idx == t_pos(n as int),
                pl@.len() == 122,
                forall|k: int| 0 <= k < 122 ==> pl@[k] == extracted_payload(b)[k],
                tacc == bits_val(ts_bits_of(b).take(n as int)),
                oacc == bits_val(lon_bits_of(b).take(if n <= 25 { n as int } else { 25 })),
                lacc == bits_val(lat_bits_of(b).take(if n <= 24 { n as int } else { 24 })),
            decreases 48 - n,
        {
            proof {
                lemma_bits_val_bound(ts_bits_of(b).take(n as int));
                lemma_bits_val_bound(lon_bits_of(b).take(if n <= 25 { n as int } else { 25 }));
                lemma_bits_val_bound(lat_bits_of(b).take(if n <= 24 { n as int } else { 24 }));
                vstd::arithmetic::power2::lemma2_to64();
                vstd::arithmetic::power2::lemma2_to64_rest();
                if (n as nat) < 48 {
                    vstd::arithmetic::power2::lemma_pow2_strictly_increases(n as nat, 48);
                }
                if (n as nat) < 25 {
                    vstd::arithmetic::power2::lemma_pow2_strictly_increases(n as nat, 25);
                }
                if (n as nat) < 24 {
                    vstd::arithmetic::power2::lemma_pow2_strictly_increases(n as nat, 24);
                }
                assert(ts_bits_of(b).take(n as int + 1).drop_last() =~= ts_bits_of(b).take(
                    n as int,
                ));
                if n < 25 {
                    assert(lon_bits_of(b).take(n as int + 1).drop_last() =~= lon_bits_of(b).take(
                        n as int,
                    ));
                }
                if n < 24 {
                    assert(lat_bits_of(b).take(n as int + 1).drop_last() =~= lat_bits_of(b).take(
                        n as int,
                    ));
                }
            }
            let tb = pl[idx];
            tacc = 2 * tacc + (if tb {
                1
            } else {
                0
            });
            idx = idx + 1;
            if n < 25 {
                let obv = pl[idx];
                oacc = 2 * oacc + (if obv {
                    1
                } else {
                    0
                });
                idx = idx + 1;
            }
            if n < 24 {
                let lbv = pl[idx];
                lacc = 2 * lacc + (if lbv {
                    1
                } else {
                    0
                });
                idx = idx + 1;
            }
            n = n + 1;
        }
        proof {
            assert(ts_bits_of(b).take(48) =~= ts_bits_of(b));
            assert(lon_bits_of(b).take(25) =~= lon_bits_of(b));
            assert(lat_bits_of(b).take(24) =~= lat_bits_of(b));
            lemma_bits_val_bound(ts_bits_of(b));
            lemma_bits_val_bound(lon_bits_of(b));
            lemma_bits_val_bound(lat_bits_of(b));
            vstd::arithmetic::power2::lemma2_to64();
            vstd::arithmetic::power2::lemma2_to64_rest();
        }
        let lat_plus: u64 = dequantize_plus(lacc, LAT_RANGE_MICRO, LAT_MAX_Q);
        let lon_plus: u64 = dequantize_plus(oacc, LON_RANGE_MICRO, LON_MAX_Q);
        let lat_micro: i64 = (lat_plus as i64) - 90_000_000;
        let lon_micro: i64 = (lon_plus as i64) - 180_000_000;
        (lat_micro, lon_micro, tacc as i64)
    }

    /// The identifier's 16 big-endian bytes.
    pub fn as_bytes(&self) -> (r: &[u8; 16])
        ensures
            r@ == self@,
    {
        &self.0
    }

    /// Builds an identifier from its 16 big-endian bytes.
    pub fn from_bytes(bytes: [u8; 16]) -> (r: Self)
        ensures
            r@ == bytes@,
    {
        GeoTemporalUuid(bytes)
    }
}

/// Strict lexicographic order on two 16-byte identifiers; on big-endian
/// bytes this is the numeric order of the 128-bit values.
pub open spec fn spec_lt(a: Seq<u8>, b: Seq<u8>) -> bool {
    exists|i: int|
        0 <= i < 16 && a[i] < b[i] && (forall|j: int| 0 <= j < i ==> a[j] == b[j])
}

impl GeoTemporalUuid {
    /// Whether this identifier sorts strictly before the other.
    pub fn lt(&self, other: &Self) -> (r: bool)
        ensures
            r == spec_lt(self@, other@),
    {
        let mut i: usize = 0;
        while i < 16
            invariant
                i <= 16,
                forall|j: int| 0 <= j < i ==> self@[j] == other@[j],
            decreases 16 - i,
        {
            let a = self.0[i];
            let b = other.0[i];
            if a < b {
                return true;
            }
            if a > b {
                proof {
                    if spec_lt(self@, other@) {
                        let w = choose|w: int|
                            0 <= w < 16 && self@[w] < other@[w] && (forall|j: int|
                                0 <= j < w ==> self@[j] == other@[j]);
                        assert(w > i ==> self@[i as int] == other@[i as int]);
                        assert(false);
                    }
                }
                return false;
            }
            i = i + 1;
        }
        proof {
            if spec_lt(self@, other@) {
                let w = choose|w: int|
                    0 <= w < 16 && self@[w] < other@[w] && (forall|j: int|
                        0 <= j < w ==> self@[j] == other@[j]);
                assert(false);
            }
        }
        false
    }
}

/// The first position at which two equally long bit sequences differ.
proof fn first_diff_index(s: Seq<bool>, t: Seq<bool>) -> (i: int)
    requires
        s.len() == t.len(),
        exists|j: int| 0 <= j < s.len() && s[j] != t[j],
    ensures
        0 <= i < s.len(),
        s[i] != t[i],
        forall|j: int| 0 <= j < i ==> s[j] == t[j],
    decreases s.len(),
{
    let j0 = choose|j: int| 0 <= j < s.len() && s[j] != t[j];
    if s[0] != t[0] {
        0
    } else {
        let s1 = s.subrange(1, s.len() as int);
        let t1 = t.subrange(1, t.len() as int);
        assert(0 <= j0 - 1 < s1.len() && s1[j0 - 1] != t1[j0 - 1]);
        let i1 = first_diff_index(s1, t1);
        assert forall|j: int| 0 <= j < i1 + 1 implies s[j] == t[j] by {
            if j > 0 {
                assert(s1[j - 1] == t1[j - 1]);
            }
        }
        i1 + 1
    }
}

/// Reading the bits of the encoded bytes gives the absolute layout bits.
pub proof fn lemma_uuid_bytes_bits(ts: nat, lon_q: nat, lat_q: nat, rnd: nat)
    ensures
        forall|q: int|
            0 <= q < 128 ==> #[trigger] id_bit(spec_uuid_bytes(ts, lon_q, lat_q, rnd), q)
                == abs_bit(ts, lon_q, lat_q, rnd, q),
{
    let bits = spec_uuid_bits(ts, lon_q, lat_q, rnd);
    let bytes = spec_uuid_bytes(ts, lon_q, lat_q, rnd);
    assert forall|q: int| 0 <= q < 128 implies id_bit(bytes, q) == abs_bit(
        ts,
        lon_q,
        lat_q,
        rnd,
        q,
    ) by {
        let j = q / 8;
        let i = q % 8;
        vstd::arithmetic::div_mod::lemma_mod_bound(q, 8);
        vstd::arithmetic::div_mod::lemma_fundamental_div_mod(q, 8);
        vstd::arithmetic::div_mod::lemma_div_pos_is_pos(q, 8);
        vstd::arithmetic::div_mod::lemma_multiply_divide_lt(q, 8, 16);
        let chunk = bits.subrange(8 * j, 8 * j + 8);
        lemma_bits_val_bound(chunk);
        vstd::arithmetic::power2::lemma2_to64();
        lemma_bits_of_val(chunk);
        assert(bytes[j] as nat == bits_val(chunk));
        assert(bits_of(bits_val(chunk), 8)[i] == chunk[i]);
        assert(chunk[i] == bits[8 * j + i]);
        assert(8 * j + i == q);
    }
}

/// Extracting the payload of encoded bytes gives back the payload stream.
pub proof fn lemma_extracted_payload(ts: nat, lon_q: nat, lat_q: nat, rnd: nat)
    ensures
        forall|k: int|
            0 <= k < 122 ==> extracted_payload(spec_uuid_bytes(ts, lon_q, lat_q, rnd))[k]
                == payload_bit(ts, lon_q, lat_q, rnd, k),
{
    lemma_uuid_bytes_bits(ts, lon_q, lat_q, rnd);
    let bytes = spec_uuid_bytes(ts, lon_q, lat_q, rnd);
    assert forall|k: int| 0 <= k < 122 implies extracted_payload(bytes)[k] == payload_bit(
        ts,
        lon_q,
        lat_q,
        rnd,
        k,
    ) by {
        let qa = abs_index_of(k);
        assert(0 <= qa < 128);
        assert(!is_reserved(qa));
        assert(payload_index_of(qa) == k);
        assert(id_bit(bytes, qa) == abs_bit(ts, lon_q, lat_q, rnd, qa));
    }
}

/// The field values the encoded bytes decode to are the field values that
/// were encoded.
pub proof fn lemma_fields_recovered(ts: nat, lon_q: nat, lat_q: nat, rnd: nat)
    requires
        ts < TS_MOD,
        lon_q <= LON_MAX_Q,
        lat_q <= LAT_MAX_Q,
        rnd < RAND_MOD,
    ensures
        decoded_ts(spec_uuid_bytes(ts, lon_q, lat_q, rnd)) == ts,
        decoded_lon_q(spec_uuid_bytes(ts, lon_q, lat_q, rnd)) == lon_q,
        decoded_lat_q(spec_uuid_bytes(ts, lon_q, lat_q, rnd)) == lat_q,
{
    lemma_extracted_payload(ts, lon_q, lat_q, rnd);
    let b = spec_uuid_bytes(ts, lon_q, lat_q, rnd);
    assert forall|n: int| 0 <= n < 48 implies ts_bits_of(b)[n] == bits_of(ts, 48)[n] by {
        if n <= 23 {
            vstd::arithmetic::div_mod::lemma_fundamental_div_mod_converse(3 * n, 3, n, 0);
        }
        assert(ts_bits_of(b)[n] == payload_bit(ts, lon_q, lat_q, rnd, t_pos(n)));
    }
    assert forall|n: int| 0 <= n < 25 implies lon_bits_of(b)[n] == bits_of(lon_q, 25)[n] by {
        if n <= 23 {
            vstd::arithmetic::div_mod::lemma_fundamental_div_mod_converse(3 * n + 1, 3, n, 1);
        }
        assert(lon_bits_of(b)[n] == payload_bit(ts, lon_q, lat_q, rnd, o_pos(n)));
    }
    assert forall|n: int| 0 <= n < 24 implies lat_bits_of(b)[n] == bits_of(lat_q, 24)[n] by {
        vstd::arithmetic::div_mod::lemma_fundamental_div_mod_converse(3 * n + 2, 3, n, 2);
        assert(lat_bits_of(b)[n] == payload_bit(ts, lon_q, lat_q, rnd, l_pos(n)));
    }
    assert(ts_bits_of(b) =~= bits_of(ts, 48));
    assert(lon_bits_of(b) =~= bits_of(lon_q, 25));
    assert(lat_bits_of(b) =~= bits_of(lat_q, 24));
    vstd::arithmetic::power2::lemma2_to64();
    vstd::arithmetic::power2::lemma2_to64_rest();
    lemma_val_of_bits(ts, 48);
    lemma_val_of_bits(lon_q, 25);
    lemma_val_of_bits(lat_q, 24);
}

/// Round trip: decoding an encoded identifier returns the exact timestamp
/// field and coordinates within 6 micro-degrees (half a quantization step
/// plus the rounding to whole micro-degrees) of the originals, whatever the
/// random draw.
pub proof fn lemma_round_trip(lat_micro: i64, lon_micro: i64, ts_ms: i64, rnd: u32)
    requires
        coords_in_range(lat_micro, lon_micro),
    ensures
        ({
            let b = spec_encode_bytes(
                lat_micro as int,
                lon_micro as int,
                ts_field(ts_ms),
                rnd_field(rnd),
            );
            &&& decoded_ts(b) == ts_field(ts_ms)
            &&& 0 <= ts_ms < TS_MOD ==> decoded_ts(b) == ts_ms
            &&& -6 <= decoded_lat_micro(b) - lat_micro <= 6
            &&& -6 <= decoded_lon_micro(b) - lon_micro <= 6
        }),
{
    if 0 <= ts_ms < TS_MOD {
        vstd::arithmetic::div_mod::lemma_small_mod(ts_ms as nat, TS_MOD as nat);
    }
    let latp = lat_micro + LAT_OFF_MICRO;
    let lonp = lon_micro + LON_OFF_MICRO;
    lemma_quantize_bounds(latp, LAT_RANGE_MICRO as int, LAT_MAX_Q as int);
    lemma_quantize_bounds(lonp, LON_RANGE_MICRO as int, LON_MAX_Q as int);
    let lq = lat_q_of(lat_micro as int);
    let oq = lon_q_of(lon_micro as int);
    let ts = ts_field(ts_ms);
    let rf = rnd_field(rnd);
    assert(0 <= ts_ms as int % (TS_MOD as int) < TS_MOD as int) by {
        vstd::arithmetic::div_mod::lemma_mod_bound(ts_ms as int, TS_MOD as int);
    }
    lemma_fields_recovered(ts as nat, oq as nat, lq as nat, rf as nat);
    lemma_quant_round_trip(latp, LAT_RANGE_MICRO as int, LAT_MAX_Q as int);
    lemma_quant_round_trip(lonp, LON_RANGE_MICRO as int, LON_MAX_Q as int);
}

/// The reserved marker bits of every encoded identifier hold the fixed
/// version pattern `0111` at absolute positions 48..51 and the fixed variant
/// pattern `10` at positions 64..65, whatever the inputs.
pub proof fn lemma_reserved_bits(lat_micro: i64, lon_micro: i64, ts_ms: i64, rnd: u32)
    ensures
        ({
            let b = spec_encode_bytes(
                lat_micro as int,
                lon_micro as int,
                ts_field(ts_ms),
                rnd_field(rnd),
            );
            &&& !id_bit(b, 48)
            &&& id_bit(b, 49)
            &&& id_bit(b, 50)
            &&& id_bit(b, 51)
            &&& id_bit(b, 64)
            &&& !id_bit(b, 65)
        }),
{
    lemma_uuid_bytes_bits(
        ts_field(ts_ms) as nat,
        lon_q_of(lon_micro as int) as nat,
        lat_q_of(lat_micro as int) as nat,
        rnd_field(rnd) as nat,
    );
}

/// Time dominance: with the coordinate fixed, an identifier encoded from an
/// earlier timestamp field sorts strictly before one encoded from a later
/// timestamp field, whatever the two random draws.
pub proof fn lemma_time_ordering(
    lat_micro: i64,
    lon_micro: i64,
    ts1: u64,
    ts2: u64,
    rnd1: u32,
    rnd2: u32,
)
    requires
        coords_in_range(lat_micro, lon_micro),
        ts1 < ts2 < TS_MOD,
    ensures
        spec_lt(
            spec_encode_bytes(lat_micro as int, lon_micro as int, ts1, rnd1),
            spec_encode_bytes(lat_micro as int, lon_micro as int, ts2, rnd2),
        ),
{
    let lq = lat_q_of(lat_micro as int) as nat;
    let oq = lon_q_of(lon_micro as int) as nat;
    let r1 = rnd1 as nat;
    let r2 = rnd2 as nat;
    let t1 = ts1 as nat;
    let t2 = ts2 as nat;
    let a = spec_encode_bytes(lat_micro as int, lon_micro as int, ts1, rnd1);
    let b = spec_encode_bytes(lat_micro as int, lon_micro as int, ts2, rnd2);
    let bits_a = spec_uuid_bits(t1, oq, lq, r1);
    let bits_b = spec_uuid_bits(t2, oq, lq, r2);
    let tb1 = bits_of(t1, 48);
    let tb2 = bits_of(t2, 48);
    vstd::arithmetic::power2::lemma2_to64();
    vstd::arithmetic::power2::lemma2_to64_rest();
    lemma_val_of_bits(t1, 48);
    lemma_val_of_bits(t2, 48);
    if !(exists|j: int| 0 <= j < 48 && tb1[j] != tb2[j]) {
        assert(tb1 =~= tb2);
        assert(false);
    }
    let nstar = first_diff_index(tb1, tb2);
    if tb1[nstar] && !tb2[nstar] {
        crate::bits::lemma_bits_val_lex_lt(tb2, tb1, nstar);
        assert(false);
    }
    assert(!tb1[nstar] && tb2[nstar]);
    let kstar = t_pos(nstar);
    let qstar = abs_index_of(kstar);
    assert(0 <= kstar < 97);
    assert(!is_reserved(qstar) && payload_index_of(qstar) == kstar && 0 <= qstar < 128);
    lemma_uuid_bytes_bits(t1, oq, lq, r1);
    lemma_uuid_bytes_bits(t2, oq, lq, r2);

    // Every absolute position before the first differing timestamp bit
    // carries a reserved constant, a longitude or latitude bit, or an
    // earlier (hence equal) timestamp bit.
    assert forall|p: int| 0 <= p < qstar implies bits_a[p] == bits_b[p] by {
        if !is_reserved(p) {
            let k = payload_index_of(p);
            assert(0 <= k < kstar);
            if k < 72 && k % 3 == 0 {
                let mm = k / 3;
                vstd::arithmetic::div_mod::lemma_fundamental_div_mod(k, 3);
                vstd::arithmetic::div_mod::lemma_multiply_divide_lt(k, 3, 24);
                vstd::arithmetic::div_mod::lemma_div_pos_is_pos(k, 3);
                if nstar <= 23 {
                    assert(3 * mm == k < 3 * nstar);
                    assert(mm < nstar);
                } else {
                    assert(mm < 24 <= nstar);
                }
                assert(tb1[mm] == tb2[mm]);
            } else if k == 72 {
                assert(t_pos(nstar) > 72);
                assert(nstar >= 25);
                assert(tb1[24] == tb2[24]);
            } else if 74 <= k < 97 {
                assert(nstar >= 25);
                let mm = k - 49;
                assert(mm < nstar);
                assert(tb1[mm] == tb2[mm]);
            }
        }
    }
    // At that position the two identifiers differ, zero against one.
    if nstar <= 23 {
        vstd::arithmetic::div_mod::lemma_fundamental_div_mod_converse(3 * nstar, 3, nstar, 0);
    }
    assert(bits_a[qstar] == tb1[nstar] && bits_b[qstar] == tb2[nstar]);

    // Bytes before the differing one agree, and the differing byte is
    // strictly smaller on the first identifier.
    let jstar = qstar / 8;
    let istar = qstar % 8;
    vstd::arithmetic::div_mod::lemma_mod_bound(qstar, 8);
    vstd::arithmetic::div_mod::lemma_fundamental_div_mod(qstar, 8);
    vstd::arithmetic::div_mod::lemma_div_pos_is_pos(qstar, 8);
    vstd::arithmetic::div_mod::lemma_multiply_divide_lt(qstar, 8, 16);
    assert forall|j: int| 0 <= j < jstar implies a[j] == b[j] by {
        assert(bits_a.subrange(8 * j, 8 * j + 8) =~= bits_b.subrange(8 * j, 8 * j + 8)) by {
            assert forall|p: int| 8 * j <= p < 8 * j + 8 implies bits_a[p] == bits_b[p] by {
                assert(p < qstar);
            }
        }
    }
    let cha = bits_a.subrange(8 * jstar, 8 * jstar + 8);
    let chb = bits_b.subrange(8 * jstar, 8 * jstar + 8);
    assert forall|i: int| 0 <= i < istar implies cha[i] == chb[i] by {
        assert(8 * jstar + i < qstar);
        assert(bits_a[8 * jstar + i] == bits_b[8 * jstar + i]);
    }
    assert(!cha[istar] && chb[istar]);
    crate::bits::lemma_bits_val_lex_lt(cha, chb, istar);
    lemma_bits_val_bound(cha);
    lemma_bits_val_bound(chb);
    assert(a[jstar] < b[jstar]);
    assert(0 <= jstar < 16 && a[jstar] < b[jstar] && (forall|j: int|
        0 <= j < jstar ==> a[j] == b[j]));
}

/// Time dominance for millisecond timestamps inside the representable epoch
/// range: the identifier encoded at the earlier instant sorts strictly
/// before the one encoded at the later instant, whatever the random draws.
pub proof fn lemma_time_ordering_ms(
    lat_micro: i64,
    lon_micro: i64,
    t1: i64,
    t2: i64,
    rnd1: u32,
    rnd2: u32,
)
    requires
        coords_in_range(lat_micro, lon_micro),
        0 <= t1 < t2 < TS_MOD,
    ensures
        spec_lt(
            spec_encode_bytes(lat_micro as int, lon_micro as int, ts_field(t1), rnd_field(rnd1)),
            spec_encode_bytes(lat_micro as int, lon_micro as int, ts_field(t2), rnd_field(rnd2)),
        ),
{
    vstd::arithmetic::div_mod::lemma_small_mod(t1 as nat, TS_MOD as nat);
    vstd::arithmetic::div_mod::lemma_small_mod(t2 as nat, TS_MOD as nat);
    lemma_time_ordering(
        lat_micro,
        lon_micro,
        ts_field(t1),
        ts_field(t2),
        rnd_field(rnd1),
        rnd_field(rnd2),
    );
}

} // verus!

