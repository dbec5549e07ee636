//! Serialized payload formats.
//!
//! The values stored under MVCC keys — the `Option<bytes>` of a record, the
//! transaction-ID list of a persisted snapshot, and the transaction counter —
//! share bincode's fixed-width little-endian format (the format of bincode's
//! crate-level `serialize` / `deserialize` functions). The spec functions
//! below state those byte layouts exactly. The option and ID-list payloads go
//! through bincode behind the `external_body` wrappers, which are the only
//! places that call it; the counter is a bare integer whose whole layout is
//! the `le64` spec, so its codec is implemented here and verified.

use vstd::prelude::*;

verus! {

/// The 8 bytes of `n` in little-endian order.
pub open spec fn le64(n: u64) -> Seq<u8> {
    seq![
        n as u8,
        (n >> 8) as u8,
        (n >> 16) as u8,
        (n >> 24) as u8,
        (n >> 32) as u8,
        (n >> 40) as u8,
        (n >> 48) as u8,
        (n >> 56) as u8,
    ]
}

/// The value read back from 8 little-endian bytes.
pub open spec fn u64_of_le(s: Seq<u8>) -> u64
    recommends
        s.len() == 8,
{
    (s[0] as u64) | ((s[1] as u64) << 8) | ((s[2] as u64) << 16) | ((s[3] as u64) << 24)
        | ((s[4] as u64) << 32) | ((s[5] as u64) << 40) | ((s[6] as u64) << 48)
        | ((s[7] as u64) << 56)
}

/// Reading back 8 little-endian bytes restores the value.
pub proof fn lemma_u64_le_roundtrip(n: u64)
    ensures
        u64_of_le(le64(n)) == n,
{
    assert((((n as u8) as u64) | ((((n >> 8) as u8) as u64) << 8)
        | ((((n >> 16) as u8) as u64) << 16) | ((((n >> 24) as u8) as u64) << 24)
        | ((((n >> 32) as u8) as u64) << 32) | ((((n >> 40) as u8) as u64) << 40)
        | ((((n >> 48) as u8) as u64) << 48) | ((((n >> 56) as u8) as u64) << 56)) == n)
        by (bit_vector);
}

/// Any 8 bytes are the little-endian encoding of the value they read back
/// to.
pub proof fn lemma_le64_complete(s: Seq<u8>)
    requires
        s.len() == 8,
    ensures
        le64(u64_of_le(s)) == s,
{
    let n = u64_of_le(s);
    let b0 = s[0];
    let b1 = s[1];
    let b2 = s[2];
    let b3 = s[3];
    let b4 = s[4];
    let b5 = s[5];
    let b6 = s[6];
    let b7 = s[7];
    assert({
        let m = (b0 as u64) | ((b1 as u64) << 8) | ((b2 as u64) << 16) | ((b3 as u64) << 24)
            | ((b4 as u64) << 32) | ((b5 as u64) << 40) | ((b6 as u64) << 48)
            | ((b7 as u64) << 56);
        m as u8 == b0 && (m >> 8) as u8 == b1 && (m >> 16) as u8 == b2 && (m >> 24) as u8 == b3
            && (m >> 32) as u8 == b4 && (m >> 40) as u8 == b5 && (m >> 48) as u8 == b6
            && (m >> 56) as u8 == b7
    }) by (bit_vector);
    assert(le64(n) =~= s);
}

/// bincode's encoding of an `Option<Vec<u8>>`: a one-byte tag, then for
/// `Some` a little-endian length and the raw bytes.
pub open spec fn opt_bytes_enc(v: Option<Seq<u8>>) -> Seq<u8> {
    match v {
        None => seq![0u8],
        Some(b) => seq![1u8] + le64(b.len() as u64) + b,
    }
}

/// The bodies of a `u64` list, one little-endian value after another.
pub open spec fn ids_body(ids: Seq<u64>) -> Seq<u8>
    decreases ids.len(),
{
    if ids.len() == 0 {
        seq![]
    } else {
        le64(ids[0]) + ids_body(ids.skip(1))
    }
}

/// bincode's encoding of a `Vec<u64>`: a little-endian length, then the
/// elements.
pub open spec fn ids_enc(ids: Seq<u64>) -> Seq<u8> {
    le64(ids.len() as u64) + ids_body(ids)
}

/// Distinct values have distinct little-endian byte strings.
pub proof fn lemma_le64_injective(x: u64, y: u64)
    requires
        le64(x) == le64(y),
    ensures
        x == y,
{
    assert(le64(x)[0] == le64(y)[0] && le64(x)[1] == le64(y)[1] && le64(x)[2] == le64(y)[2]
        && le64(x)[3] == le64(y)[3] && le64(x)[4] == le64(y)[4] && le64(x)[5] == le64(y)[5]
        && le64(x)[6] == le64(y)[6] && le64(x)[7] == le64(y)[7]);
    assert((x as u8 == y as u8 && (x >> 8) as u8 == (y >> 8) as u8
        && (x >> 16) as u8 == (y >> 16) as u8 && (x >> 24) as u8 == (y >> 24) as u8
        && (x >> 32) as u8 == (y >> 32) as u8 && (x >> 40) as u8 == (y >> 40) as u8
        && (x >> 48) as u8 == (y >> 48) as u8 && (x >> 56) as u8 == (y >> 56) as u8)
        ==> x == y) by (bit_vector);
}

/// Distinct options have distinct encodings.
pub proof fn lemma_opt_bytes_enc_injective(x: Option<Seq<u8>>, y: Option<Seq<u8>>)
    requires
        opt_bytes_enc(x) == opt_bytes_enc(y),
    ensures
        x == y,
{
    match (x, y) {
        (Some(a), Some(b)) => {
            let wa = opt_bytes_enc(x);
            let wb = opt_bytes_enc(y);
            assert(wa.len() == 9 + a.len());
            assert(wb.len() == 9 + b.len());
            assert(a.len() == b.len());
            assert(a =~= b) by {
                assert(forall|i: int| 0 <= i < a.len() ==> #[trigger] a[i] == wa[i + 9]
                    && b[i] == wb[i + 9]);
            }
        }
        (Some(a), None) => {
            assert(opt_bytes_enc(x)[0] == 1 && opt_bytes_enc(y)[0] == 0);
        }
        (None, Some(b)) => {
            assert(opt_bytes_enc(x)[0] == 0 && opt_bytes_enc(y)[0] == 1);
        }
        (None, None) => {}
    }
}

/// Distinct ID lists have distinct encodings.
pub proof fn lemma_ids_enc_injective(x: Seq<u64>, y: Seq<u64>)
    requires
        ids_enc(x) == ids_enc(y),
    ensures
        x == y,
{
    let wx = ids_enc(x);
    let wy = ids_enc(y);
    lemma_ids_body_len(x);
    lemma_ids_body_len(y);
    assert(wx.len() == 8 + 8 * x.len());
    assert(wy.len() == 8 + 8 * y.len());
    assert(x.len() == y.len());
    assert(ids_body(x) =~= wx.skip(8)) by {
        assert(forall|i: int| 0 <= i < ids_body(x).len()
            ==> #[trigger] ids_body(x)[i] == wx[i + 8]);
        lemma_ids_body_len(x);
    }
    assert(ids_body(y) =~= wy.skip(8)) by {
        assert(forall|i: int| 0 <= i < ids_body(y).len()
            ==> #[trigger] ids_body(y)[i] == wy[i + 8]);
        lemma_ids_body_len(y);
    }
    lemma_ids_body_injective(x, y);
}

/// The body of an ID list is 8 bytes per element.
pub proof fn lemma_ids_body_len(ids: Seq<u64>)
    ensures
        ids_body(ids).len() == 8 * ids.len(),
    decreases ids.len(),
{
    if ids.len() > 0 {
        lemma_ids_body_len(ids.skip(1));
    }
}

proof fn lemma_ids_body_injective(x: Seq<u64>, y: Seq<u64>)
    requires
        x.len() == y.len(),
        ids_body(x) == ids_body(y),
    ensures
        x == y,
    decreases x.len(),
{
    if x.len() > 0 {
        let wx = ids_body(x);
        let wy = ids_body(y);
        assert(le64(x[0]) =~= wx.take(8)) by {
            lemma_ids_body_len(x.skip(1));
        }
        assert(le64(y[0]) =~= wy.take(8)) by {
            lemma_ids_body_len(y.skip(1));
        }
        lemma_le64_injective(x[0], y[0]);
        assert(ids_body(x.skip(1)) =~= wx.skip(8)) by {
            assert(forall|i: int| 0 <= i < ids_body(x.skip(1)).len()
                ==> #[trigger] ids_body(x.skip(1))[i] == wx[i + 8]);
            lemma_ids_body_len(x.skip(1));
        }
        assert(ids_body(y.skip(1)) =~= wy.skip(8)) by {
            assert(forall|i: int| 0 <= i < ids_body(y.skip(1)).len()
                ==> #[trigger] ids_body(y.skip(1))[i] == wy[i + 8]);
            lemma_ids_body_len(y.skip(1));
        }
        lemma_ids_body_injective(x.skip(1), y.skip(1));
        assert(x =~= y) by {
            assert(forall|i: int| 1 <= i < x.len()
                ==> #[trigger] x[i] == x.skip(1)[i - 1] && y[i] == y.skip(1)[i - 1]);
        }
    } else {
        assert(x =~= y);
    }
}

/// Serializes the transaction counter: a `u64` as its 8 bytes in
/// little-endian order, byte-identical with the fixed-width layout the other
/// stored payloads use.
pub fn serialize_u64(n: u64) -> (r: Vec<u8>)
    ensures
        r@ == le64(n),
{
    let mut out: Vec<u8> = Vec::new();
    out.push(n as u8);
    out.push((n >> 8) as u8);
    out.push((n >> 16) as u8);
    out.push((n >> 24) as u8);
    out.push((n >> 32) as u8);
    out.push((n >> 40) as u8);
    out.push((n >> 48) as u8);
    out.push((n >> 56) as u8);
    proof {
        assert(out@ =~= le64(n));
    }
    out
}

/// Reads the transaction counter back: a `u64` from the first 8 bytes in
/// little-endian order; fewer than 8 bytes is an error, and trailing bytes
/// are ignored.
pub fn deserialize_u64(b: &[u8]) -> (r: Option<u64>)
    ensures
        match r {
            Some(n) => b@.len() >= 8 && le64(n) == b@.take(8),
            None => b@.len() < 8,
        },
{
    if b.len() < 8 {
        return None;
    }
    let n = (b[0] as u64) | ((b[1] as u64) << 8) | ((b[2] as u64) << 16)
        | ((b[3] as u64) << 24) | ((b[4] as u64) << 32) | ((b[5] as u64) << 40)
        | ((b[6] as u64) << 48) | ((b[7] as u64) << 56);
    proof {
        assert(b@.take(8) =~= seq![b@[0], b@[1], b@[2], b@[3], b@[4], b@[5], b@[6], b@[7]]);
        assert(u64_of_le(b@.take(8)) == n);
        lemma_le64_complete(b@.take(8));
    }
    Some(n)
}

/// Relies on bincode::serialize: an `Option<Vec<u8>>` is a one-byte tag
/// (0 for `None`, 1 for `Some`), then for `Some` the length as a
/// little-endian `u64` followed by the raw bytes. Writing into a `Vec`
/// cannot fail for this type, so the unwrap never panics.
#[verifier::external_body]
pub fn serialize_opt_bytes(v: &Option<Vec<u8>>) -> (r: Vec<u8>)
    ensures
        r@ == opt_bytes_enc(v.deep_view()),
{
    bincode::serialize(v).unwrap()
}

/// Relies on bincode::deserialize: reading back an encoded
/// `Option<Vec<u8>>` restores the value (trailing bytes are ignored, so this
/// is stated only for exact encodings, which is all the store ever holds).
#[verifier::external_body]
pub fn deserialize_opt_bytes(b: &[u8]) -> (r: Option<Option<Vec<u8>>>)
    ensures
        match r {
            Some(v) => forall|x: Option<Seq<u8>>| b@ == opt_bytes_enc(x) ==> v.deep_view() == x,
            None => forall|x: Option<Seq<u8>>| b@ != opt_bytes_enc(x),
        },
{
    bincode::deserialize::<Option<Vec<u8>>>(b).ok()
}

/// Relies on bincode::serialize: a `Vec<u64>` is its length as a
/// little-endian `u64`, then each element as a little-endian `u64`. Writing
/// into a `Vec` cannot fail for this type, so the unwrap never panics.
#[verifier::external_body]
pub fn serialize_ids(v: &Vec<u64>) -> (r: Vec<u8>)
    ensures
        r@ == ids_enc(v@),
{
    bincode::serialize(v).unwrap()
}

/// Relies on bincode::deserialize: reading back an encoded `Vec<u64>`
/// restores the list (stated for exact encodings, which is all the store
/// ever holds).
#[verifier::external_body]
pub fn deserialize_ids(b: &[u8]) -> (r: Option<Vec<u64>>)
    ensures
        match r {
            Some(v) => forall|x: Seq<u64>| b@ == ids_enc(x) ==> v@ == x,
            None => forall|x: Seq<u64>| b@ != ids_enc(x),
        },
{
    bincode::deserialize::<Vec<u64>>(b).ok()
}

} // verus!
