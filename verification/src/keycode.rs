//! The MVCC key space and its order-preserving encoding.
//!
//! Every entity lives in one flat ordered byte space, distinguished by a
//! one-byte tag. All bookkeeping tags sort before the record tag, and records
//! sort by user key first and version second, so that the newest version of a
//! key is found by a reverse scan. Embedded variable-length byte strings are
//! escaped (`0x00` becomes `0x00 0xff`, terminated by `0x00 0x00`) so that no
//! encoded string is a prefix of another and lexicographic order is preserved.

use vstd::prelude::*;
use crate::order::{lex_lt, lemma_lex_asymmetric, lemma_lex_prepend};
use crate::error::{Error, u64_decode_message, u64_decode_error};
use vstd::string::StringExecFns;

verus! {

/// An MVCC key.
#[derive(Debug, PartialEq, Eq)]
pub enum Key {
    /// The next available transaction ID.
    TxnNext,
    /// Marker for an active transaction, holding the transaction's mode.
    TxnActive(u64),
    /// A persisted snapshot: the transaction IDs active when it was taken.
    TxnSnapshot(u64),
    /// Update marker for a transaction ID and an encoded record key, used
    /// for rollback.
    TxnUpdate(u64, Vec<u8>),
    /// A record for a user key and version pair.
    Record(Vec<u8>, u64),
    /// Arbitrary unversioned metadata.
    Metadata(Vec<u8>),
}

/// The mathematical model of a [`Key`].
pub enum KeyModel {
    TxnNext,
    TxnActive(u64),
    TxnSnapshot(u64),
    TxnUpdate(u64, Seq<u8>),
    Record(Seq<u8>, u64),
    Metadata(Seq<u8>),
}

impl View for Key {
    type V = KeyModel;

    open spec fn view(&self) -> KeyModel {
        match self {
            Key::TxnNext => KeyModel::TxnNext,
            Key::TxnActive(id) => KeyModel::TxnActive(*id),
            Key::TxnSnapshot(v) => KeyModel::TxnSnapshot(*v),
            Key::TxnUpdate(id, k) => KeyModel::TxnUpdate(*id, k@),
            Key::Record(k, v) => KeyModel::Record(k@, *v),
            Key::Metadata(k) => KeyModel::Metadata(k@),
        }
    }
}

/// The 8 bytes of `n` in big-endian order.
pub open spec fn be64(n: u64) -> Seq<u8> {
    seq![
        (n >> 56) as u8,
        (n >> 48) as u8,
        (n >> 40) as u8,
        (n >> 32) as u8,
        (n >> 24) as u8,
        (n >> 16) as u8,
        (n >> 8) as u8,
        n as u8,
    ]
}

/// The value read back from 8 big-endian bytes.
pub open spec fn u64_of_be(s: Seq<u8>) -> u64
    recommends
        s.len() == 8,
{
    ((s[0] as u64) << 56) | ((s[1] as u64) << 48) | ((s[2] as u64) << 40)
        | ((s[3] as u64) << 32) | ((s[4] as u64) << 24) | ((s[5] as u64) << 16)
        | ((s[6] as u64) << 8) | (s[7] as u64)
}

/// The escape of a single byte: `0x00` becomes `0x00 0xff`.
pub open spec fn escape_byte(b: u8) -> Seq<u8> {
    if b == 0 {
        seq![0u8, 0xffu8]
    } else {
        seq![b]
    }
}

/// The escaped body of a byte string, without the terminator.
pub open spec fn escaped(b: Seq<u8>) -> Seq<u8>
    decreases b.len(),
{
    if b.len() == 0 {
        seq![]
    } else {
        escape_byte(b[0]) + escaped(b.skip(1))
    }
}

/// The full encoding of an embedded byte string: escaped body plus the
/// `0x00 0x00` terminator.
pub open spec fn spec_encode_bytes(b: Seq<u8>) -> Seq<u8> {
    escaped(b) + seq![0u8, 0u8]
}

/// The tag byte of each key variant. Tags are chosen so that all transaction
/// bookkeeping sorts before all records.
pub open spec fn tag_of(k: KeyModel) -> u8 {
    match k {
        KeyModel::TxnNext => 0x01,
        KeyModel::TxnActive(_) => 0x02,
        KeyModel::TxnSnapshot(_) => 0x03,
        KeyModel::TxnUpdate(_, _) => 0x04,
        KeyModel::Metadata(_) => 0x05,
        KeyModel::Record(_, _) => 0xff,
    }
}

/// The payload of a key, following the tag byte.
pub open spec fn payload_of(k: KeyModel) -> Seq<u8> {
    match k {
        KeyModel::TxnNext => seq![],
        KeyModel::TxnActive(id) => be64(id),
        KeyModel::TxnSnapshot(v) => be64(v),
        KeyModel::TxnUpdate(id, key) => be64(id) + key,
        KeyModel::Metadata(key) => spec_encode_bytes(key),
        KeyModel::Record(key, version) => spec_encode_bytes(key) + be64(version),
    }
}

/// The byte encoding of a key.
pub open spec fn spec_encode(k: KeyModel) -> Seq<u8> {
    seq![tag_of(k)] + payload_of(k)
}

/// Reads a `u64` and leaves the rest.
pub open spec fn spec_decode_u64(b: Seq<u8>) -> Option<(u64, Seq<u8>)> {
    if b.len() >= 8 {
        Some((u64_of_be(b.take(8)), b.skip(8)))
    } else {
        None
    }
}

/// Reads an escaped byte string up to its terminator and leaves the rest.
pub open spec fn spec_decode_bytes(b: Seq<u8>) -> Option<(Seq<u8>, Seq<u8>)>
    decreases b.len(),
{
    if b.len() == 0 {
        None
    } else if b[0] == 0 {
        if b.len() < 2 {
            None
        } else if b[1] == 0 {
            Some((seq![], b.skip(2)))
        } else if b[1] == 0xff {
            match spec_decode_bytes(b.skip(2)) {
                Some((d, rest)) => Some((seq![0u8] + d, rest)),
                None => None,
            }
        } else {
            None
        }
    } else {
        match spec_decode_bytes(b.skip(1)) {
            Some((d, rest)) => Some((seq![b[0]] + d, rest)),
            None => None,
        }
    }
}

/// The key decoded from `b`, if any. Trailing bytes after a complete key are
/// ignored, as the decoder reads only what each variant needs.
pub open spec fn spec_decode(b: Seq<u8>) -> Option<KeyModel> {
    if b.len() == 0 {
        None
    } else if b[0] == 0x01 {
        Some(KeyModel::TxnNext)
    } else if b[0] == 0x02 {
        match spec_decode_u64(b.skip(1)) {
            Some((n, _)) => Some(KeyModel::TxnActive(n)),
            None => None,
        }
    } else if b[0] == 0x03 {
        match spec_decode_u64(b.skip(1)) {
            Some((n, _)) => Some(KeyModel::TxnSnapshot(n)),
            None => None,
        }
    } else if b[0] == 0x04 {
        match spec_decode_u64(b.skip(1)) {
            Some((n, rest)) => Some(KeyModel::TxnUpdate(n, rest)),
            None => None,
        }
    } else if b[0] == 0x05 {
        match spec_decode_bytes(b.skip(1)) {
            Some((d, _)) => Some(KeyModel::Metadata(d)),
            None => None,
        }
    } else if b[0] == 0xff {
        match spec_decode_bytes(b.skip(1)) {
            Some((d, rest)) => match spec_decode_u64(rest) {
                Some((n, _)) => Some(KeyModel::Record(d, n)),
                None => None,
            },
            None => None,
        }
    } else {
        None
    }
}

/// Appends the big-endian bytes of `n`.
fn push_u64_be(out: &mut Vec<u8>, n: u64)
    ensures
        final(out)@ == old(out)@ + be64(n),
{
    out.push((n >> 56) as u8);
    out.push((n >> 48) as u8);
    out.push((n >> 40) as u8);
    out.push((n >> 32) as u8);
    out.push((n >> 24) as u8);
    out.push((n >> 16) as u8);
    out.push((n >> 8) as u8);
    out.push(n as u8);
    proof {
        assert(out@ =~= old(out)@ + be64(n));
    }
}

/// `escaped` grows one byte's escape at a time.
proof fn lemma_escaped_snoc(b: Seq<u8>, i: int)
    requires
        0 <= i < b.len(),
    ensures
        escaped(b.take(i + 1)) == escaped(b.take(i)) + escape_byte(b[i]),
    decreases i,
{
    if i == 0 {
        assert(b.take(1).skip(1) =~= Seq::<u8>::empty());
        assert(b.take(0) =~= Seq::<u8>::empty());
        assert(escaped(b.take(1)) =~= escape_byte(b[0]) + escaped(Seq::<u8>::empty()));
        assert(escaped(b.take(1)) =~= escaped(b.take(0)) + escape_byte(b[0]));
    } else {
        let t = b.skip(1);
        lemma_escaped_snoc(t, i - 1);
        assert(b.take(i + 1).skip(1) =~= t.take(i));
        assert(b.take(i).skip(1) =~= t.take(i - 1));
        assert(t[i - 1] == b[i]);
        assert(escaped(b.take(i + 1)) == escape_byte(b[0]) + escaped(t.take(i)));
        assert(escaped(b.take(i)) == escape_byte(b[0]) + escaped(t.take(i - 1)));
        assert(escape_byte(b[0]) + (escaped(t.take(i - 1)) + escape_byte(t[i - 1]))
            =~= (escape_byte(b[0]) + escaped(t.take(i - 1))) + escape_byte(t[i - 1]));
    }
}

/// Appends the escaped encoding of `b`, terminator included.
fn push_encoded_bytes(out: &mut Vec<u8>, b: &[u8])
    ensures
        final(out)@ == old(out)@ + spec_encode_bytes(b@),
{
    let n: usize = b.len();
    let mut i: usize = 0;
    proof {
        assert(b@.take(0) =~= Seq::<u8>::empty());
        assert(out@ =~= old(out)@ + escaped(b@.take(0)));
    }
    while i < n
        invariant
            0 <= i <= n,
            n == b@.len(),
            out@ == old(out)@ + escaped(b@.take(i as int)),
        decreases n - i,
    {
        let x = b[i];
        out.push(x);
        if x == 0 {
            out.push(0xff);
        }
        proof {
            lemma_escaped_snoc(b@, i as int);
            assert(out@ =~= old(out)@ + escaped(b@.take(i + 1)));
        }
        i = i + 1;
    }
    out.push(0);
    out.push(0);
    proof {
        assert(b@.take(n as int) =~= b@);
        assert(out@ =~= old(out)@ + spec_encode_bytes(b@));
    }
}

impl Key {
    /// Encodes the key into its byte representation.
    pub fn encode(&self) -> (r: Vec<u8>)
        ensures
            r@ == spec_encode(self@),
    {
        let mut out: Vec<u8> = Vec::new();
        match self {
            Key::TxnNext => {
                out.push(0x01);
            }
            Key::TxnActive(id) => {
                out.push(0x02);
                push_u64_be(&mut out, *id);
            }
            Key::TxnSnapshot(v) => {
                out.push(0x03);
                push_u64_be(&mut out, *v);
            }
            Key::TxnUpdate(id, key) => {
                out.push(0x04);
                push_u64_be(&mut out, *id);
                let mut j: usize = 0;
                let m: usize = key.len();
                while j < m
                    invariant
                        0 <= j <= m,
                        m == key@.len(),
                        out@ == seq![0x04u8] + be64(*id) + key@.take(j as int),
                    decreases m - j,
                {
                    let x = key[j];
                    out.push(x);
                    proof {
                        assert(out@ =~= seq![0x04u8] + be64(id@) + key@.take(j + 1));
                    }
                    j = j + 1;
                }
                proof {
                    assert(key@.take(m as int) =~= key@);
                }
            }
            Key::Record(key, version) => {
                out.push(0xff);
                push_encoded_bytes(&mut out, key.as_slice());
                push_u64_be(&mut out, *version);
            }
            Key::Metadata(key) => {
                out.push(0x05);
                push_encoded_bytes(&mut out, key.as_slice());
            }
        }
        proof {
            assert(out@ =~= spec_encode(self@));
        }
        out
    }
}

/// Reads 8 big-endian bytes starting at `pos`.
fn decode_u64_at(b: &[u8], pos: usize) -> (r: Result<(u64, usize), Error>)
    requires
        pos <= b@.len(),
    ensures
        match r {
            Ok((n, end)) => {
                &&& spec_decode_u64(b@.skip(pos as int)) == Some((n, b@.skip(end as int)))
                &&& end == pos + 8
            },
            Err(e) => {
                &&& spec_decode_u64(b@.skip(pos as int)) is None
                &&& (e matches Error::Value(m)
                    && m@ == u64_decode_message((b@.len() - pos) as u64))
            },
        },
{
    if b.len() - pos < 8 {
        return Err(u64_decode_error((b.len() - pos) as u64));
    }
    let n = ((b[pos] as u64) << 56) | ((b[pos + 1] as u64) << 48) | ((b[pos + 2] as u64) << 40)
        | ((b[pos + 3] as u64) << 32) | ((b[pos + 4] as u64) << 24) | ((b[pos + 5] as u64) << 16)
        | ((b[pos + 6] as u64) << 8) | (b[pos + 7] as u64);
    proof {
        let s = b@.skip(pos as int);
        assert(s.take(8) =~= seq![b@[pos as int], b@[pos + 1], b@[pos + 2], b@[pos + 3],
            b@[pos + 4], b@[pos + 5], b@[pos + 6], b@[pos + 7]]);
        assert(u64_of_be(s.take(8)) == n);
        assert(s.skip(8) =~= b@.skip(pos + 8));
    }
    Ok((n, pos + 8))
}

/// Prefixes the decoded part of a byte-string decode result with `p`.
spec fn prepend_decoded(p: Seq<u8>, r: Option<(Seq<u8>, Seq<u8>)>) -> Option<(Seq<u8>, Seq<u8>)> {
    match r {
        Some((d, rest)) => Some((p + d, rest)),
        None => None,
    }
}

proof fn lemma_prepend_decoded_compose(p: Seq<u8>, q: Seq<u8>, r: Option<(Seq<u8>, Seq<u8>)>)
    ensures
        prepend_decoded(p, prepend_decoded(q, r)) == prepend_decoded(p + q, r),
{
    match r {
        Some((d, rest)) => {
            assert(p + (q + d) =~= (p + q) + d);
        }
        None => {}
    }
}

/// Reads an escaped byte string starting at `pos`, up to its terminator.
fn decode_bytes_at(b: &[u8], pos: usize) -> (r: Result<(Vec<u8>, usize), Error>)
    requires
        pos <= b@.len(),
    ensures
        match r {
            Ok((d, end)) => {
                &&& spec_decode_bytes(b@.skip(pos as int)) == Some((d@, b@.skip(end as int)))
                &&& pos <= end <= b@.len()
            },
            Err(e) => {
                &&& spec_decode_bytes(b@.skip(pos as int)) is None
                &&& (e matches Error::Value(m)
                    && (m@ == "Unexpected end of input"@
                        || m@ == "Unexpected 0x00 encoding"@))
            },
        },
{
    let n: usize = b.len();
    let mut out: Vec<u8> = Vec::new();
    let mut i: usize = pos;
    proof {
        assert(prepend_decoded(Seq::<u8>::empty(), spec_decode_bytes(b@.skip(pos as int)))
            == spec_decode_bytes(b@.skip(pos as int))) by {
            match spec_decode_bytes(b@.skip(pos as int)) {
                Some((d, rest)) => {
                    assert(Seq::<u8>::empty() + d =~= d);
                }
                None => {}
            }
        }
    }
    loop
        invariant
            pos <= i <= n,
            n == b@.len(),
            spec_decode_bytes(b@.skip(pos as int))
                == prepend_decoded(out@, spec_decode_bytes(b@.skip(i as int))),
        decreases n - i,
    {
        proof {
            assert(b@.skip(i as int).len() == n - i);
        }
        if i == n {
            return Err(Error::Value(String::from_str("Unexpected end of input")));
        }
        let x = b[i];
        proof {
            assert(b@.skip(i as int)[0] == b@[i as int]);
        }
        if x == 0 {
            if n - i < 2 {
                return Err(Error::Value(String::from_str("Unexpected end of input")));
            }
            let y = b[i + 1];
            proof {
                assert(b@.skip(i as int)[1] == b@[i + 1]);
                assert(b@.skip(i as int).skip(2) =~= b@.skip(i + 2));
            }
            if y == 0 {
                proof {
                    assert(spec_decode_bytes(b@.skip(i as int))
                        == Some((Seq::<u8>::empty(), b@.skip(i + 2))));
                    assert(out@ + Seq::<u8>::empty() =~= out@);
                }
                return Ok((out, i + 2));
            } else if y == 0xff {
                proof {
                    assert(spec_decode_bytes(b@.skip(i as int))
                        == prepend_decoded(seq![0u8], spec_decode_bytes(b@.skip(i + 2))));
                    lemma_prepend_decoded_compose(out@, seq![0u8],
                        spec_decode_bytes(b@.skip(i + 2)));
                }
                out.push(0);
                i = i + 2;
            } else {
                return Err(Error::Value(String::from_str("Unexpected 0x00 encoding")));
            }
        } else {
            proof {
                assert(b@.skip(i as int).skip(1) =~= b@.skip(i + 1));
                assert(spec_decode_bytes(b@.skip(i as int))
                    == prepend_decoded(seq![b@[i as int]], spec_decode_bytes(b@.skip(i + 1))));
                lemma_prepend_decoded_compose(out@, seq![b@[i as int]],
                    spec_decode_bytes(b@.skip(i + 1)));
            }
            out.push(x);
            i = i + 1;
        }
    }
}

/// Is `b` the tag byte of some key variant?
pub open spec fn is_tag(b: u8) -> bool {
    b == 0x01 || b == 0x02 || b == 0x03 || b == 0x04 || b == 0x05 || b == 0xff
}

impl Key {
    /// Decodes a key from its byte representation.
    pub fn decode(key: &[u8]) -> (r: Result<Key, Error>)
        ensures
            match r {
                Ok(k) => spec_decode(key@) == Some(k@),
                Err(e) => {
                    &&& spec_decode(key@) is None
                    &&& (e matches Error::Value(m)
                        && ((key@.len() == 0 || !is_tag(key@[0]))
                            ==> m@ == "Unable to parse MVCC key"@))
                },
            },
    {
        if key.len() == 0 {
            return Err(Error::Value(String::from_str("Unable to parse MVCC key")));
        }
        let tag = key[0];
        if tag == 0x01 {
            Ok(Key::TxnNext)
        } else if tag == 0x02 {
            match decode_u64_at(key, 1) {
                Ok((n, _)) => Ok(Key::TxnActive(n)),
                Err(e) => Err(e),
            }
        } else if tag == 0x03 {
            match decode_u64_at(key, 1) {
                Ok((n, _)) => Ok(Key::TxnSnapshot(n)),
                Err(e) => Err(e),
            }
        } else if tag == 0x04 {
            match decode_u64_at(key, 1) {
                Ok((n, end)) => {
                    let rest = vstd::slice::slice_to_vec(&key[end..key.len()]);
                    Ok(Key::TxnUpdate(n, rest))
                }
                Err(e) => Err(e),
            }
        } else if tag == 0x05 {
            match decode_bytes_at(key, 1) {
                Ok((d, _)) => Ok(Key::Metadata(d)),
                Err(e) => Err(e),
            }
        } else if tag == 0xff {
            match decode_bytes_at(key, 1) {
                Ok((d, end)) => match decode_u64_at(key, end) {
                    Ok((n, _)) => Ok(Key::Record(d, n)),
                    Err(e) => Err(e),
                },
                Err(e) => Err(e),
            }
        } else {
            Err(Error::Value(String::from_str("Unable to parse MVCC key")))
        }
    }
}

/// Reading back 8 big-endian bytes restores the value.
pub proof fn lemma_u64_be_roundtrip(n: u64)
    ensures
        u64_of_be(be64(n)) == n,
{
    assert((((((n >> 56) as u8) as u64) << 56) | ((((n >> 48) as u8) as u64) << 48)
        | ((((n >> 40) as u8) as u64) << 40) | ((((n >> 32) as u8) as u64) << 32)
        | ((((n >> 24) as u8) as u64) << 24) | ((((n >> 16) as u8) as u64) << 16)
        | ((((n >> 8) as u8) as u64) << 8) | ((n as u8) as u64)) == n) by (bit_vector);
}

/// Decoding undoes the escaped byte-string encoding, whatever follows it.
pub proof fn lemma_decode_bytes_roundtrip(b: Seq<u8>, rest: Seq<u8>)
    ensures
        spec_decode_bytes(spec_encode_bytes(b) + rest) == Some((b, rest)),
    decreases b.len(),
{
    let w = spec_encode_bytes(b) + rest;
    if b.len() == 0 {
        assert(w =~= seq![0u8, 0u8] + rest);
        assert(w.skip(2) =~= rest);
        assert(spec_decode_bytes(w) == Some((Seq::<u8>::empty(), rest)));
        assert(Seq::<u8>::empty() =~= b);
    } else if b[0] == 0 {
        lemma_decode_bytes_roundtrip(b.skip(1), rest);
        assert(w =~= seq![0u8, 0xffu8] + (spec_encode_bytes(b.skip(1)) + rest)) by {
            assert(spec_encode_bytes(b) =~= seq![0u8, 0xffu8] + spec_encode_bytes(b.skip(1)));
        }
        assert(w.skip(2) =~= spec_encode_bytes(b.skip(1)) + rest);
        assert(w[0] == 0 && w[1] == 0xff);
        assert(spec_decode_bytes(w) == Some((seq![0u8] + b.skip(1), rest)));
        assert(seq![0u8] + b.skip(1) =~= b);
    } else {
        lemma_decode_bytes_roundtrip(b.skip(1), rest);
        assert(w =~= seq![b[0]] + (spec_encode_bytes(b.skip(1)) + rest)) by {
            assert(spec_encode_bytes(b) =~= seq![b[0]] + spec_encode_bytes(b.skip(1)));
        }
        assert(w.skip(1) =~= spec_encode_bytes(b.skip(1)) + rest);
        assert(w[0] == b[0]);
        assert(spec_decode_bytes(w) == Some((seq![b[0]] + b.skip(1), rest)));
        assert(seq![b[0]] + b.skip(1) =~= b);
    }
}

/// Decoding undoes encoding, for every key variant.
pub proof fn lemma_key_roundtrip(k: KeyModel)
    ensures
        spec_decode(spec_encode(k)) == Some(k),
{
    let w = spec_encode(k);
    assert(w[0] == tag_of(k));
    match k {
        KeyModel::TxnNext => {
        }
        KeyModel::TxnActive(id) => {
            assert(w.skip(1) =~= be64(id));
            assert(be64(id).take(8) =~= be64(id));
            lemma_u64_be_roundtrip(id);
        }
        KeyModel::TxnSnapshot(v) => {
            assert(w.skip(1) =~= be64(v));
            assert(be64(v).take(8) =~= be64(v));
            lemma_u64_be_roundtrip(v);
        }
        KeyModel::TxnUpdate(id, key) => {
            assert(w.skip(1) =~= be64(id) + key);
            assert((be64(id) + key).take(8) =~= be64(id));
            assert((be64(id) + key).skip(8) =~= key);
            lemma_u64_be_roundtrip(id);
        }
        KeyModel::Metadata(key) => {
            assert(w.skip(1) =~= spec_encode_bytes(key) + Seq::<u8>::empty());
            lemma_decode_bytes_roundtrip(key, Seq::<u8>::empty());
        }
        KeyModel::Record(key, version) => {
            assert(w.skip(1) =~= spec_encode_bytes(key) + be64(version));
            lemma_decode_bytes_roundtrip(key, be64(version));
            assert(be64(version).take(8) =~= be64(version));
            lemma_u64_be_roundtrip(version);
        }
    }
}

/// Two distinct keys never share an encoding.
pub proof fn lemma_encode_injective(a: KeyModel, b: KeyModel)
    requires
        spec_encode(a) == spec_encode(b),
    ensures
        a == b,
{
    lemma_key_roundtrip(a);
    lemma_key_roundtrip(b);
}

/// For equal-length distinct prefixes, the prefixes alone decide the order of
/// any extensions.
proof fn lemma_lex_append_ne(a: Seq<u8>, b: Seq<u8>, s: Seq<u8>, t: Seq<u8>)
    requires
        a.len() == b.len(),
        a != b,
    ensures
        lex_lt(a + s, b + t) == lex_lt(a, b),
    decreases a.len(),
{
    assert(a.len() > 0) by {
        if a.len() == 0 {
            assert(a =~= b);
        }
    }
    assert((a + s).len() > 0 && (b + t).len() > 0);
    assert((a + s)[0] == a[0] && (b + t)[0] == b[0]);
    if a[0] == b[0] {
        assert(a.skip(1) != b.skip(1)) by {
            if a.skip(1) == b.skip(1) {
                assert forall|i: int| 0 <= i < a.len() implies a[i] == b[i] by {
                    if i >= 1 {
                        assert(a.skip(1)[i - 1] == b.skip(1)[i - 1]);
                    }
                }
                assert(a =~= b);
            }
        }
        lemma_lex_append_ne(a.skip(1), b.skip(1), s, t);
        assert((a + s).skip(1) =~= a.skip(1) + s);
        assert((b + t).skip(1) =~= b.skip(1) + t);
    }
}

/// Distinct values have distinct big-endian byte strings.
proof fn lemma_be64_injective(x: u64, y: u64)
    requires
        x != y,
    ensures
        be64(x) != be64(y),
{
    lemma_u64_be_roundtrip(x);
    lemma_u64_be_roundtrip(y);
}

/// Big-endian byte strings sort as the values they encode.
pub proof fn lemma_be64_order(x: u64, y: u64)
    ensures
        lex_lt(be64(x), be64(y)) == (x < y),
{
    let a = be64(x);
    let b = be64(y);
    let a1 = a.skip(1);
    let b1 = b.skip(1);
    let a2 = a1.skip(1);
    let b2 = b1.skip(1);
    let a3 = a2.skip(1);
    let b3 = b2.skip(1);
    let a4 = a3.skip(1);
    let b4 = b3.skip(1);
    let a5 = a4.skip(1);
    let b5 = b4.skip(1);
    let a6 = a5.skip(1);
    let b6 = b5.skip(1);
    let a7 = a6.skip(1);
    let b7 = b6.skip(1);
    assert(a1 =~= seq![(x >> 48) as u8, (x >> 40) as u8, (x >> 32) as u8, (x >> 24) as u8,
        (x >> 16) as u8, (x >> 8) as u8, x as u8]);
    assert(b1 =~= seq![(y >> 48) as u8, (y >> 40) as u8, (y >> 32) as u8, (y >> 24) as u8,
        (y >> 16) as u8, (y >> 8) as u8, y as u8]);
    assert(a2 =~= seq![(x >> 40) as u8, (x >> 32) as u8, (x >> 24) as u8, (x >> 16) as u8,
        (x >> 8) as u8, x as u8]);
    assert(b2 =~= seq![(y >> 40) as u8, (y >> 32) as u8, (y >> 24) as u8, (y >> 16) as u8,
        (y >> 8) as u8, y as u8]);
    assert(a3 =~= seq![(x >> 32) as u8, (x >> 24) as u8, (x >> 16) as u8, (x >> 8) as u8,
        x as u8]);
    assert(b3 =~= seq![(y >> 32) as u8, (y >> 24) as u8, (y >> 16) as u8, (y >> 8) as u8,
        y as u8]);
    assert(a4 =~= seq![(x >> 24) as u8, (x >> 16) as u8, (x >> 8) as u8, x as u8]);
    assert(b4 =~= seq![(y >> 24) as u8, (y >> 16) as u8, (y >> 8) as u8, y as u8]);
    assert(a5 =~= seq![(x >> 16) as u8, (x >> 8) as u8, x as u8]);
    assert(b5 =~= seq![(y >> 16) as u8, (y >> 8) as u8, y as u8]);
    assert(a6 =~= seq![(x >> 8) as u8, x as u8]);
    assert(b6 =~= seq![(y >> 8) as u8, y as u8]);
    assert(a7 =~= seq![x as u8]);
    assert(b7 =~= seq![y as u8]);
    assert(a7.skip(1) =~= Seq::<u8>::empty());
    assert(b7.skip(1) =~= Seq::<u8>::empty());
    assert(!lex_lt(a7.skip(1), b7.skip(1)));
    assert(lex_lt(a7, b7) == ((x as u8) < (y as u8)));
    assert(lex_lt(a6, b6) == (((x >> 8) as u8) < ((y >> 8) as u8)
        || (((x >> 8) as u8) == ((y >> 8) as u8) && lex_lt(a7, b7))));
    assert(lex_lt(a5, b5) == (((x >> 16) as u8) < ((y >> 16) as u8)
        || (((x >> 16) as u8) == ((y >> 16) as u8) && lex_lt(a6, b6))));
    assert(lex_lt(a4, b4) == (((x >> 24) as u8) < ((y >> 24) as u8)
        || (((x >> 24) as u8) == ((y >> 24) as u8) && lex_lt(a5, b5))));
    assert(lex_lt(a3, b3) == (((x >> 32) as u8) < ((y >> 32) as u8)
        || (((x >> 32) as u8) == ((y >> 32) as u8) && lex_lt(a4, b4))));
    assert(lex_lt(a2, b2) == (((x >> 40) as u8) < ((y >> 40) as u8)
        || (((x >> 40) as u8) == ((y >> 40) as u8) && lex_lt(a3, b3))));
    assert(lex_lt(a1, b1) == (((x >> 48) as u8) < ((y >> 48) as u8)
        || (((x >> 48) as u8) == ((y >> 48) as u8) && lex_lt(a2, b2))));
    assert(lex_lt(a, b) == (((x >> 56) as u8) < ((y >> 56) as u8)
        || (((x >> 56) as u8) == ((y >> 56) as u8) && lex_lt(a1, b1))));
    assert((((x >> 56) as u8) < ((y >> 56) as u8)
        || (((x >> 56) as u8) == ((y >> 56) as u8) && (((x >> 48) as u8) < ((y >> 48) as u8)
        || (((x >> 48) as u8) == ((y >> 48) as u8) && (((x >> 40) as u8) < ((y >> 40) as u8)
        || (((x >> 40) as u8) == ((y >> 40) as u8) && (((x >> 32) as u8) < ((y >> 32) as u8)
        || (((x >> 32) as u8) == ((y >> 32) as u8) && (((x >> 24) as u8) < ((y >> 24) as u8)
        || (((x >> 24) as u8) == ((y >> 24) as u8) && (((x >> 16) as u8) < ((y >> 16) as u8)
        || (((x >> 16) as u8) == ((y >> 16) as u8) && (((x >> 8) as u8) < ((y >> 8) as u8)
        || (((x >> 8) as u8) == ((y >> 8) as u8) && ((x as u8) < (y as u8)
        ))))))))))))))) == (x < y)) by (bit_vector);
}

/// The order-preservation law of the escaped byte-string encoding: whatever
/// follows the two encodings, their extensions sort as the raw strings do.
pub proof fn lemma_encode_bytes_order(a: Seq<u8>, b: Seq<u8>, s: Seq<u8>, t: Seq<u8>)
    requires
        a != b,
    ensures
        lex_lt(spec_encode_bytes(a) + s, spec_encode_bytes(b) + t) == lex_lt(a, b),
    decreases a.len(),
{
    let wa = spec_encode_bytes(a) + s;
    let wb = spec_encode_bytes(b) + t;
    if a.len() == 0 {
        // wa starts 0x00 0x00; b is nonempty
        assert(b.len() > 0) by {
            if b.len() == 0 {
                assert(a =~= b);
            }
        }
        assert(wa =~= seq![0u8, 0u8] + s);
        if b[0] == 0 {
            assert(wb =~= seq![0u8, 0xffu8] + (spec_encode_bytes(b.skip(1)) + t)) by {
                assert(spec_encode_bytes(b) =~= seq![0u8, 0xffu8] + spec_encode_bytes(b.skip(1)));
            }
            assert(wa[0] == 0 && wb[0] == 0);
            assert(wa.skip(1) =~= seq![0u8] + s);
            assert(wb.skip(1) =~= seq![0xffu8] + (spec_encode_bytes(b.skip(1)) + t));
            assert(wa.skip(1)[0] == 0 && wb.skip(1)[0] == 0xff);
            assert(lex_lt(wa.skip(1), wb.skip(1)));
            assert(lex_lt(wa, wb));
        } else {
            assert(wb =~= seq![b[0]] + (spec_encode_bytes(b.skip(1)) + t)) by {
                assert(spec_encode_bytes(b) =~= seq![b[0]] + spec_encode_bytes(b.skip(1)));
            }
            assert(wa[0] == 0 && wb[0] == b[0] && b[0] > 0);
            assert(lex_lt(wa, wb));
        }
        assert(lex_lt(a, b));
    } else if b.len() == 0 {
        assert(wb =~= seq![0u8, 0u8] + t);
        if a[0] == 0 {
            assert(wa =~= seq![0u8, 0xffu8] + (spec_encode_bytes(a.skip(1)) + s)) by {
                assert(spec_encode_bytes(a) =~= seq![0u8, 0xffu8] + spec_encode_bytes(a.skip(1)));
            }
            assert(wa[0] == 0 && wb[0] == 0);
            assert(wa.skip(1) =~= seq![0xffu8] + (spec_encode_bytes(a.skip(1)) + s));
            assert(wb.skip(1) =~= seq![0u8] + t);
            assert(wa.skip(1)[0] == 0xff && wb.skip(1)[0] == 0);
            assert(!lex_lt(wa.skip(1), wb.skip(1)));
            assert(!lex_lt(wa, wb));
        } else {
            assert(wa =~= seq![a[0]] + (spec_encode_bytes(a.skip(1)) + s)) by {
                assert(spec_encode_bytes(a) =~= seq![a[0]] + spec_encode_bytes(a.skip(1)));
            }
            assert(wa[0] == a[0] && a[0] > 0 && wb[0] == 0);
            assert(!lex_lt(wa, wb));
        }
        assert(!lex_lt(a, b));
    } else if a[0] == b[0] {
        assert(a.skip(1) != b.skip(1)) by {
            if a.skip(1) == b.skip(1) {
                assert forall|i: int| 0 <= i < a.len() implies a[i] == b[i] by {
                    if i >= 1 {
                        assert(a.skip(1)[i - 1] == b.skip(1)[i - 1]);
                    }
                }
                assert(a =~= b);
            }
        }
        lemma_encode_bytes_order(a.skip(1), b.skip(1), s, t);
        let p = escape_byte(a[0]);
        assert(wa =~= p + (spec_encode_bytes(a.skip(1)) + s)) by {
            assert(spec_encode_bytes(a) =~= p + spec_encode_bytes(a.skip(1)));
        }
        assert(wb =~= p + (spec_encode_bytes(b.skip(1)) + t)) by {
            assert(spec_encode_bytes(b) =~= p + spec_encode_bytes(b.skip(1)));
        }
        lemma_lex_prepend(p, spec_encode_bytes(a.skip(1)) + s, spec_encode_bytes(b.skip(1)) + t);
    } else {
        // first bytes differ; escapes keep the first byte, and a zero byte
        // escapes to 0x00 0xff which still sorts below any nonzero byte
        assert(wa =~= escape_byte(a[0]) + (spec_encode_bytes(a.skip(1)) + s)) by {
            assert(spec_encode_bytes(a) =~= escape_byte(a[0]) + spec_encode_bytes(a.skip(1)));
        }
        assert(wb =~= escape_byte(b[0]) + (spec_encode_bytes(b.skip(1)) + t)) by {
            assert(spec_encode_bytes(b) =~= escape_byte(b[0]) + spec_encode_bytes(b.skip(1)));
        }
        assert(wa[0] == a[0] && wb[0] == b[0]);
        assert(lex_lt(wa, wb) == (a[0] < b[0]));
        assert(lex_lt(a, b) == (a[0] < b[0]));
    }
}

/// The natural order on keys: bookkeeping variants in tag order, then
/// payloads in their componentwise order.
pub open spec fn key_lt(a: KeyModel, b: KeyModel) -> bool {
    if tag_of(a) != tag_of(b) {
        tag_of(a) < tag_of(b)
    } else {
        match (a, b) {
            (KeyModel::TxnNext, KeyModel::TxnNext) => false,
            (KeyModel::TxnActive(x), KeyModel::TxnActive(y)) => x < y,
            (KeyModel::TxnSnapshot(x), KeyModel::TxnSnapshot(y)) => x < y,
            (KeyModel::TxnUpdate(x, k1), KeyModel::TxnUpdate(y, k2)) =>
                x < y || (x == y && lex_lt(k1, k2)),
            (KeyModel::Metadata(k1), KeyModel::Metadata(k2)) => lex_lt(k1, k2),
            (KeyModel::Record(k1, v1), KeyModel::Record(k2, v2)) =>
                lex_lt(k1, k2) || (k1 == k2 && v1 < v2),
            _ => false,
        }
    }
}

/// Encoded keys sort exactly as the keys themselves: the encoding is monotone
/// in the natural key order. In particular, for any two records the
/// lexicographic order of the encoded bytes agrees with the lexicographic
/// order of the (user key, version) pairs.
pub proof fn lemma_key_order(a: KeyModel, b: KeyModel)
    ensures
        lex_lt(spec_encode(a), spec_encode(b)) == key_lt(a, b),
{
    let wa = spec_encode(a);
    let wb = spec_encode(b);
    assert(wa[0] == tag_of(a) && wb[0] == tag_of(b));
    if tag_of(a) != tag_of(b) {
        assert(lex_lt(wa, wb) == (tag_of(a) < tag_of(b)));
    } else {
        match (a, b) {
            (KeyModel::TxnNext, KeyModel::TxnNext) => {
                lemma_lex_asymmetric(wa, wb);
                assert(lex_lt(wa, wb) == key_lt(a, b));
            }
            (KeyModel::TxnActive(x), KeyModel::TxnActive(y)) => {
                lemma_lex_prepend(seq![0x02u8], be64(x), be64(y));
                lemma_be64_order(x, y);
                assert(lex_lt(wa, wb) == key_lt(a, b));
            }
            (KeyModel::TxnSnapshot(x), KeyModel::TxnSnapshot(y)) => {
                lemma_lex_prepend(seq![0x03u8], be64(x), be64(y));
                lemma_be64_order(x, y);
                assert(lex_lt(wa, wb) == key_lt(a, b));
            }
            (KeyModel::TxnUpdate(x, k1), KeyModel::TxnUpdate(y, k2)) => {
                if x != y {
                    lemma_be64_injective(x, y);
                    lemma_lex_append_ne(be64(x), be64(y), k1, k2);
                    lemma_be64_order(x, y);
                    lemma_lex_prepend(seq![0x04u8], be64(x) + k1, be64(y) + k2);
                    assert(lex_lt(wa, wb) == key_lt(a, b));
                } else {
                    let p = seq![0x04u8] + be64(x);
                    assert(wa =~= p + k1);
                    assert(wb =~= p + k2);
                    lemma_lex_prepend(p, k1, k2);
                    assert(lex_lt(wa, wb) == key_lt(a, b));
                }
            }
            (KeyModel::Metadata(k1), KeyModel::Metadata(k2)) => {
                if k1 != k2 {
                    lemma_encode_bytes_order(k1, k2, Seq::<u8>::empty(), Seq::<u8>::empty());
                    assert(spec_encode_bytes(k1) + Seq::<u8>::empty() =~= spec_encode_bytes(k1));
                    assert(spec_encode_bytes(k2) + Seq::<u8>::empty() =~= spec_encode_bytes(k2));
                    lemma_lex_prepend(seq![0x05u8], spec_encode_bytes(k1), spec_encode_bytes(k2));
                    assert(lex_lt(wa, wb) == key_lt(a, b));
                } else {
                    lemma_lex_asymmetric(wa, wb);
                    lemma_lex_asymmetric(k1, k2);
                    assert(lex_lt(wa, wb) == key_lt(a, b));
                }
            }
            (KeyModel::Record(k1, v1), KeyModel::Record(k2, v2)) => {
                if k1 != k2 {
                    lemma_encode_bytes_order(k1, k2, be64(v1), be64(v2));
                    lemma_lex_prepend(seq![0xffu8], spec_encode_bytes(k1) + be64(v1),
                        spec_encode_bytes(k2) + be64(v2));
                    assert(lex_lt(wa, wb) == key_lt(a, b));
                } else {
                    let p = seq![0xffu8] + spec_encode_bytes(k1);
                    assert(wa =~= p + be64(v1));
                    assert(wb =~= p + be64(v2));
                    lemma_lex_prepend(p, be64(v1), be64(v2));
                    lemma_be64_order(v1, v2);
                    lemma_lex_asymmetric(k1, k2);
                    assert(lex_lt(wa, wb) == key_lt(a, b));
                }
            }
            _ => {
                assert(false);
            }
        }
    }
}

/// For any two records, comparing the encoded bytes agrees with comparing
/// the (user key, version) pairs lexicographically.
pub proof fn lemma_record_order(k1: Seq<u8>, v1: u64, k2: Seq<u8>, v2: u64)
    ensures
        lex_lt(spec_encode(KeyModel::Record(k1, v1)), spec_encode(KeyModel::Record(k2, v2)))
            == (lex_lt(k1, k2) || (k1 == k2 && v1 < v2)),
{
    lemma_key_order(KeyModel::Record(k1, v1), KeyModel::Record(k2, v2));
}

} // verus!
