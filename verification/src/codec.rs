//! Byte layout of embeddings.
//!
//! An embedding is serialized as a sequence of 32-bit components, each laid
//! out as four little-endian bytes in two's complement, with no header; the
//! length is implied by the configured dimensionality.

use vstd::prelude::*;
use crate::AppError;
use crate::embedding::MAX_DIM;

verus! {

/// The two's-complement unsigned representation of a component.
pub open spec fn unsigned_rep(c: i32) -> int {
    if c >= 0 {
        c as int
    } else {
        c as int + 0x1_0000_0000
    }
}

/// Byte `j` (zero is least significant) of a component's little-endian layout.
pub open spec fn le_byte(c: i32, j: int) -> u8 {
    if j == 0 {
        (unsigned_rep(c) % 256) as u8
    } else if j == 1 {
        ((unsigned_rep(c) / 256) % 256) as u8
    } else if j == 2 {
        ((unsigned_rep(c) / 65536) % 256) as u8
    } else {
        ((unsigned_rep(c) / 16777216) % 256) as u8
    }
}

/// The serialized byte sequence of a component vector.
pub open spec fn serialized_bytes(s: Seq<i32>) -> Seq<u8> {
    Seq::new((4 * s.len()) as nat, |k: int| le_byte(s[k / 4], k % 4))
}

/// The component encoded by four little-endian bytes.
pub open spec fn component_of(b0: u8, b1: u8, b2: u8, b3: u8) -> i32 {
    let u = b0 + 256 * (b1 as int) + 65536 * (b2 as int) + 16777216 * (b3 as int);
    if u < 0x8000_0000 {
        u as i32
    } else {
        (u - 0x1_0000_0000) as i32
    }
}

/// The component vector encoded by a byte sequence (whole four-byte groups).
pub open spec fn decoded_components(bytes: Seq<u8>) -> Seq<i32> {
    Seq::new((bytes.len() / 4) as nat, |i: int| component_of(
        bytes[4 * i], bytes[4 * i + 1], bytes[4 * i + 2], bytes[4 * i + 3],
    ))
}

/// Decoding undoes encoding for a single component.
pub proof fn lemma_component_round_trip(c: i32)
    ensures
        component_of(le_byte(c, 0), le_byte(c, 1), le_byte(c, 2), le_byte(c, 3)) == c,
{
    let u = unsigned_rep(c);
    assert(0 <= u < 0x1_0000_0000);
    let uu = u as u32;
    assert((uu % 256) as int + 256 * (((uu / 256) % 256) as int)
        + 65536 * (((uu / 65536) % 256) as int)
        + 16777216 * (((uu / 16777216) % 256) as int) == uu as int) by (bit_vector);
}

/// Decoding undoes encoding: round trip for any component vector.
pub proof fn lemma_codec_round_trip(v: Seq<i32>)
    ensures
        decoded_components(serialized_bytes(v)) == v,
{
    let bytes = serialized_bytes(v);
    assert(decoded_components(bytes).len() == v.len());
    assert forall|i: int| 0 <= i < v.len() implies decoded_components(bytes)[i] == v[i] by {
        assert(bytes[4 * i] == le_byte(v[i], 0));
        assert(bytes[4 * i + 1] == le_byte(v[i], 1));
        assert(bytes[4 * i + 2] == le_byte(v[i], 2));
        assert(bytes[4 * i + 3] == le_byte(v[i], 3));
        lemma_component_round_trip(v[i]);
    }
    assert(decoded_components(serialized_bytes(v)) =~= v);
}

/// Serialize an embedding to little-endian bytes, four per component.
pub fn serialize_embedding(embedding: &Vec<i32>) -> (r: Vec<u8>)
    requires
        embedding@.len() <= MAX_DIM,
    ensures
        r@ == serialized_bytes(embedding@),
{
    let n = embedding.len();
    let mut out: Vec<u8> = Vec::new();
    let mut i: usize = 0;
    while i < n
        invariant
            n == embedding@.len() <= MAX_DIM,
            0 <= i <= n,
            out@.len() == 4 * i,
            forall|k: int| 0 <= k < 4 * i ==> out@[k] == le_byte(embedding@[k / 4], k % 4),
        decreases n - i,
    {
        let c = embedding[i];
        let u: u32 = if c >= 0 {
            c as u32
        } else {
            ((c as i64) + 0x1_0000_0000i64) as u32
        };
        assert(u as int == unsigned_rep(c));
        out.push((u % 256) as u8);
        out.push(((u / 256) % 256) as u8);
        out.push(((u / 65536) % 256) as u8);
        out.push(((u / 16777216) % 256) as u8);
        proof {
            assert forall|k: int| 0 <= k < 4 * (i + 1) implies out@[k] == le_byte(
                embedding@[k / 4],
                k % 4,
            ) by {
                if k >= 4 * i {
                    assert(k / 4 == i as int && (k == 4 * i || k == 4 * i + 1 || k == 4 * i + 2
                        || k == 4 * i + 3));
                }
            }
        }
        i = i + 1;
    }
    assert(out@ =~= serialized_bytes(embedding@));
    out
}

/// Deserialize a component vector from little-endian bytes.
///
/// Fails with `InvalidInput` exactly when the byte string's length is not a
/// whole number of four-byte groups; otherwise returns exactly the decoded
/// components. Whether the result is a well-formed embedding (length and
/// component range) is the caller's check, not the codec's.
pub fn deserialize_embedding(bytes: &Vec<u8>) -> (r: Result<Vec<i32>, AppError>)
    ensures
        bytes@.len() % 4 == 0 ==> (r matches Ok(e) && e@ == decoded_components(bytes@)),
        bytes@.len() % 4 != 0 ==> (r matches Err(e) && e is InvalidInput),
{
    let n = bytes.len();
    if n % 4 != 0 {
        return Err(AppError::InvalidInput);
    }
    let count = n / 4;
    let mut out: Vec<i32> = Vec::new();
    let mut i: usize = 0;
    while i < count
        invariant
            n == bytes@.len(),
            n % 4 == 0,
            count == n / 4,
            0 <= i <= count,
            out@.len() == i,
            out@ == decoded_components(bytes@).take(i as int),
        decreases count - i,
    {
        assert(4 * i + 3 < n);
        let b0 = bytes[4 * i] as u32;
        let b1 = bytes[4 * i + 1] as u32;
        let b2 = bytes[4 * i + 2] as u32;
        let b3 = bytes[4 * i + 3] as u32;
        let u: u32 = b0 + 256 * b1 + 65536 * b2 + 16777216 * b3;
        let c: i32 = if u < 0x8000_0000 {
            u as i32
        } else {
            ((u as i64) - 0x1_0000_0000i64) as i32
        };
        assert(c == decoded_components(bytes@)[i as int]);
        out.push(c);
        assert(out@ =~= decoded_components(bytes@).take(i as int + 1));
        i = i + 1;
    }
    assert(out@ =~= decoded_components(bytes@));
    Ok(out)
}

} // verus!
