//! The on-disk record codec.
//!
//! A record starts with a one-byte tag: [`PUT_TAG`] for a `Put`,
//! [`TOMBSTONE_TAG`] for a `Tombstone`. A `Put` continues with the eight-byte
//! big-endian key length, the eight-byte big-endian value length, the key
//! bytes and the value bytes; a `Tombstone` continues with the key length and
//! the key bytes. Every record is self-delimiting, so positioned reads and
//! streaming replay need no separate index.

use vstd::prelude::*;

use crate::endian::{be_bytes, be_value, lemma_be_round_trip, push_be, read_be};
use crate::KvsError;

verus! {

/// Tag byte of an encoded `Put` record.
pub const PUT_TAG: u8 = 1;

/// Tag byte of an encoded `Tombstone` record.
pub const TOMBSTONE_TAG: u8 = 0;

/// One log record.
#[derive(Debug, Clone, PartialEq, Eq)]
pub enum LogRecord {
    /// Asserts that `key` maps to `value` as of this record's offset.
    Put { key: Vec<u8>, value: Vec<u8> },
    /// Asserts that `key` has no mapping as of this record's offset.
    Tombstone { key: Vec<u8> },
}

/// The mathematical shape of a log record.
pub enum Rec {
    Put { key: Seq<u8>, value: Seq<u8> },
    Tombstone { key: Seq<u8> },
}

impl View for LogRecord {
    type V = Rec;

    open spec fn view(&self) -> Rec {
        match self {
            LogRecord::Put { key, value } => Rec::Put { key: key@, value: value@ },
            LogRecord::Tombstone { key } => Rec::Tombstone { key: key@ },
        }
    }
}

/// The key a record speaks about.
pub open spec fn rec_key(r: Rec) -> Seq<u8> {
    match r {
        Rec::Put { key, .. } => key,
        Rec::Tombstone { key } => key,
    }
}

/// A record the codec can represent: a non-empty key, and lengths that fit
/// the eight-byte framing fields.
pub open spec fn rec_wf(r: Rec) -> bool {
    match r {
        Rec::Put { key, value } => 0 < key.len() <= u64::MAX && value.len() <= u64::MAX,
        Rec::Tombstone { key } => 0 < key.len() <= u64::MAX,
    }
}

/// The encoded length of a `Put` for key `k` and value `v`.
pub open spec fn put_len(k: Seq<u8>, v: Seq<u8>) -> int {
    17 + k.len() as int + v.len() as int
}

/// The encoded length of a `Tombstone` for key `k`.
pub open spec fn tombstone_len(k: Seq<u8>) -> int {
    9 + k.len() as int
}

/// The byte encoding of a record.
pub open spec fn enc(r: Rec) -> Seq<u8> {
    match r {
        Rec::Put { key, value } => seq![PUT_TAG] + be_bytes(key.len() as u64) + be_bytes(
            value.len() as u64,
        ) + key + value,
        Rec::Tombstone { key } => seq![TOMBSTONE_TAG] + be_bytes(key.len() as u64) + key,
    }
}

/// The encoded length equals the framing arithmetic.
pub proof fn lemma_enc_len(r: Rec)
    ensures
        enc(r).len() == match r {
            Rec::Put { key, value } => put_len(key, value),
            Rec::Tombstone { key } => tombstone_len(key),
        },
        enc(r).len() >= 9,
{
    match r {
        Rec::Put { key, value } => {
            lemma_be_round_trip(key.len() as u64);
            lemma_be_round_trip(value.len() as u64);
        },
        Rec::Tombstone { key } => {
            lemma_be_round_trip(key.len() as u64);
        },
    }
}

/// The decoding of `data` at offset `p`: the record found there together with
/// the number of bytes it occupies, or `None` where no well-formed record
/// starts at `p`.
pub open spec fn spec_decode(data: Seq<u8>, p: int) -> Option<(Rec, int)> {
    if 0 <= p < data.len() && data[p] == PUT_TAG {
        if p + 17 <= data.len() {
            let klen = be_value(data.subrange(p + 1, p + 9)) as int;
            let vlen = be_value(data.subrange(p + 9, p + 17)) as int;
            if 0 < klen && p + 17 + klen + vlen <= data.len() {
                Some(
                    (
                        Rec::Put {
                            key: data.subrange(p + 17, p + 17 + klen),
                            value: data.subrange(p + 17 + klen, p + 17 + klen + vlen),
                        },
                        17 + klen + vlen,
                    ),
                )
            } else {
                None
            }
        } else {
            None
        }
    } else if 0 <= p < data.len() && data[p] == TOMBSTONE_TAG {
        if p + 9 <= data.len() {
            let klen = be_value(data.subrange(p + 1, p + 9)) as int;
            if 0 < klen && p + 9 + klen <= data.len() {
                Some((Rec::Tombstone { key: data.subrange(p + 9, p + 9 + klen) }, 9 + klen))
            } else {
                None
            }
        } else {
            None
        }
    } else {
        None
    }
}

/// Wherever the bytes of a well-formed record sit in `data`, decoding at its
/// start yields exactly that record and consumes exactly its length.
pub proof fn lemma_decode_enc(r: Rec, data: Seq<u8>, p: int)
    requires
        rec_wf(r),
        0 <= p,
        p + enc(r).len() <= data.len(),
        data.subrange(p, p + enc(r).len()) == enc(r),
    ensures
        spec_decode(data, p) == Some((r, enc(r).len() as int)),
{
    let e = enc(r);
    let n = e.len() as int;
    lemma_enc_len(r);
    match r {
        Rec::Put { key, value } => {
            let klen = key.len() as int;
            let vlen = value.len() as int;
            lemma_be_round_trip(key.len() as u64);
            lemma_be_round_trip(value.len() as u64);
            assert(data[p] == PUT_TAG) by {
                assert(data.subrange(p, p + n)[0] == e[0]);
            };
            assert(data.subrange(p + 1, p + 9) =~= be_bytes(key.len() as u64)) by {
                assert forall|i: int| 0 <= i < 8 implies #[trigger] data.subrange(p + 1, p + 9)[i]
                    == be_bytes(key.len() as u64)[i] by {
                    assert(data.subrange(p, p + n)[1 + i] == e[1 + i]);
                }
            };
            assert(data.subrange(p + 9, p + 17) =~= be_bytes(value.len() as u64)) by {
                assert forall|i: int| 0 <= i < 8 implies #[trigger] data.subrange(p + 9, p + 17)[i]
                    == be_bytes(value.len() as u64)[i] by {
                    assert(data.subrange(p, p + n)[9 + i] == e[9 + i]);
                }
            };
            assert(data.subrange(p + 17, p + 17 + klen) =~= key) by {
                assert forall|i: int| 0 <= i < klen implies #[trigger] data.subrange(
                    p + 17,
                    p + 17 + klen,
                )[i] == key[i] by {
                    assert(data.subrange(p, p + n)[17 + i] == e[17 + i]);
                }
            };
            assert(data.subrange(p + 17 + klen, p + 17 + klen + vlen) =~= value) by {
                assert forall|i: int| 0 <= i < vlen implies #[trigger] data.subrange(
                    p + 17 + klen,
                    p + 17 + klen + vlen,
                )[i] == value[i] by {
                    assert(data.subrange(p, p + n)[17 + klen + i] == e[17 + klen + i]);
                }
            };
        },
        Rec::Tombstone { key } => {
            let klen = key.len() as int;
            lemma_be_round_trip(key.len() as u64);
            assert(data[p] == TOMBSTONE_TAG) by {
                assert(data.subrange(p, p + n)[0] == e[0]);
            };
            assert(data.subrange(p + 1, p + 9) =~= be_bytes(key.len() as u64)) by {
                assert forall|i: int| 0 <= i < 8 implies #[trigger] data.subrange(p + 1, p + 9)[i]
                    == be_bytes(key.len() as u64)[i] by {
                    assert(data.subrange(p, p + n)[1 + i] == e[1 + i]);
                }
            };
            assert(data.subrange(p + 9, p + 9 + klen) =~= key) by {
                assert forall|i: int| 0 <= i < klen implies #[trigger] data.subrange(
                    p + 9,
                    p + 9 + klen,
                )[i] == key[i] by {
                    assert(data.subrange(p, p + n)[9 + i] == e[9 + i]);
                }
            };
        },
    }
}

/// Whatever decodes was encoded: a successful decode names a well-formed
/// record whose encoding is exactly the bytes consumed.
pub proof fn lemma_enc_decode(data: Seq<u8>, p: int, r: Rec, n: int)
    requires
        spec_decode(data, p) == Some((r, n)),
    ensures
        rec_wf(r),
        enc(r).len() == n,
        p + n <= data.len(),
        data.subrange(p, p + n) == enc(r),
{
    match r {
        Rec::Put { key, value } => {
            let klen = key.len() as int;
            let vlen = value.len() as int;
            crate::endian::lemma_be_bytes_of_value(data.subrange(p + 1, p + 9));
            crate::endian::lemma_be_bytes_of_value(data.subrange(p + 9, p + 17));
            lemma_be_round_trip(key.len() as u64);
            lemma_be_round_trip(value.len() as u64);
            assert(be_bytes(key.len() as u64) == data.subrange(p + 1, p + 9));
            assert(be_bytes(value.len() as u64) == data.subrange(p + 9, p + 17));
            assert(data.subrange(p, p + n) =~= seq![data[p]] + data.subrange(p + 1, p + 9)
                + data.subrange(p + 9, p + 17) + key + value);
        },
        Rec::Tombstone { key } => {
            let klen = key.len() as int;
            crate::endian::lemma_be_bytes_of_value(data.subrange(p + 1, p + 9));
            lemma_be_round_trip(key.len() as u64);
            assert(be_bytes(key.len() as u64) == data.subrange(p + 1, p + 9));
            assert(data.subrange(p, p + n) =~= seq![data[p]] + data.subrange(p + 1, p + 9) + key);
        },
    }
}

/// Encodes a `Put` record.
pub fn encode_put(key: &[u8], value: &[u8]) -> (r: Vec<u8>)
    ensures
        r@ == enc(Rec::Put { key: key@, value: value@ }),
        r@.len() == put_len(key@, value@),
{
    let mut out: Vec<u8> = Vec::new();
    out.push(PUT_TAG);
    push_be(&mut out, key.len() as u64);
    push_be(&mut out, value.len() as u64);
    out.extend_from_slice(key);
    out.extend_from_slice(value);
    proof {
        lemma_enc_len(Rec::Put { key: key@, value: value@ });
        assert(out@ =~= enc(Rec::Put { key: key@, value: value@ }));
    }
    out
}

/// Encodes a `Tombstone` record.
pub fn encode_tombstone(key: &[u8]) -> (r: Vec<u8>)
    ensures
        r@ == enc(Rec::Tombstone { key: key@ }),
        r@.len() == tombstone_len(key@),
{
    let mut out: Vec<u8> = Vec::new();
    out.push(TOMBSTONE_TAG);
    push_be(&mut out, key.len() as u64);
    out.extend_from_slice(key);
    proof {
        lemma_enc_len(Rec::Tombstone { key: key@ });
        assert(out@ =~= enc(Rec::Tombstone { key: key@ }));
    }
    out
}

/// Decodes the record starting at offset `p`, returning it together with the
/// number of bytes it occupies, or [`KvsError::Codec`] where no well-formed
/// record starts there (an unknown tag, a zero key length, or a tail shorter
/// than its framing claims).
pub fn decode(data: &[u8], p: usize) -> (r: Result<(LogRecord, usize), KvsError>)
    requires
        p <= data@.len(),
    ensures
        match r {
            Ok((rec, n)) => {
                &&& spec_decode(data@, p as int) == Some((rec@, n as int))
                &&& rec_wf(rec@)
                &&& n >= 9
                &&& p + n <= data@.len()
            },
            Err(e) => spec_decode(data@, p as int) is None && e == KvsError::Codec,
        },
{
    if p >= data.len() {
        return Err(KvsError::Codec);
    }
    let tag = data[p];
    if tag == PUT_TAG {
        if data.len() - p < 17 {
            return Err(KvsError::Codec);
        }
        let klen = read_be(data, p + 1);
        let vlen = read_be(data, p + 9);
        let avail = (data.len() - p - 17) as u64;
        if klen == 0 || klen > avail || vlen > avail - klen {
            proof {
                let klen_i = be_value(data@.subrange(p + 1, p + 9)) as int;
                let vlen_i = be_value(data@.subrange(p + 9, p + 17)) as int;
                assert(!(0 < klen_i && p + 17 + klen_i + vlen_i <= data@.len()));
            }
            return Err(KvsError::Codec);
        }
        let klen = klen as usize;
        let vlen = vlen as usize;
        let key = vstd::slice::slice_to_vec(vstd::slice::slice_subrange(data, p + 17, p + 17
            + klen));
        let value = vstd::slice::slice_to_vec(vstd::slice::slice_subrange(data, p + 17 + klen, p
            + 17 + klen + vlen));
        Ok((LogRecord::Put { key, value }, 17 + klen + vlen))
    } else if tag == TOMBSTONE_TAG {
        if data.len() - p < 9 {
            return Err(KvsError::Codec);
        }
        let klen = read_be(data, p + 1);
        if klen == 0 || klen > (data.len() - p - 9) as u64 {
            return Err(KvsError::Codec);
        }
        let klen = klen as usize;
        let key = vstd::slice::slice_to_vec(vstd::slice::slice_subrange(data, p + 9, p + 9
            + klen));
        Ok((LogRecord::Tombstone { key }, 9 + klen))
    } else {
        return Err(KvsError::Codec);
    }
}

} // verus!
