//! The wire protocol: length-framed requests and responses over a byte
//! stream.
//!
//! Each message on the wire is an eight-byte big-endian payload length
//! followed by that many payload bytes. A payload encodes one request —
//! `Get`, `Set` or `Remove` — or one response, which carries either an
//! optional value or an error message. The encodings here are byte-exact, so
//! clients and servers built against this crate interoperate.

use vstd::prelude::*;

use crate::endian::{be_bytes, be_value, lemma_be_round_trip, push_be, read_be};
use crate::record::put_len;
use crate::store::{apply_ops, FileOp, KvStore};
use crate::KvsError;

verus! {

/// Payload tag of an encoded `Get` request.
pub const GET_TAG: u8 = 0;

/// Payload tag of an encoded `Put` request.
pub const PUT_REQ_TAG: u8 = 1;

/// Payload tag of an encoded `Remove` request.
pub const REMOVE_TAG: u8 = 2;

/// Payload tag of a response carrying no value.
pub const NONE_TAG: u8 = 0;

/// Payload tag of a response carrying a value.
pub const SOME_TAG: u8 = 1;

/// Payload tag of a response carrying an error message.
pub const ERROR_TAG: u8 = 2;

/// Error message for a `Remove` of an absent key.
pub const ERR_KEY_NOT_FOUND: u8 = 0;

/// Error message for a record that would not fit one generation file.
pub const ERR_VALUE_TOO_LARGE: u8 = 1;

/// Error message for a `Put` with an empty key.
pub const ERR_EMPTY_KEY: u8 = 2;

/// One request sent from a client to the server.
#[derive(Debug, Clone, PartialEq, Eq)]
pub enum Request {
    Put { key: Vec<u8>, value: Vec<u8> },
    Get { key: Vec<u8> },
    Remove { key: Vec<u8> },
}

/// One response sent back: a value (or its absence), or an error message.
#[derive(Debug, Clone, PartialEq, Eq)]
pub enum Response {
    Value(Option<Vec<u8>>),
    Error(Vec<u8>),
}

/// The mathematical shape of a request.
pub enum ReqV {
    Put { key: Seq<u8>, value: Seq<u8> },
    Get { key: Seq<u8> },
    Remove { key: Seq<u8> },
}

/// The mathematical shape of a response.
pub enum RespV {
    Value(Option<Seq<u8>>),
    Error(Seq<u8>),
}

impl View for Request {
    type V = ReqV;

    open spec fn view(&self) -> ReqV {
        match self {
            Request::Put { key, value } => ReqV::Put { key: key@, value: value@ },
            Request::Get { key } => ReqV::Get { key: key@ },
            Request::Remove { key } => ReqV::Remove { key: key@ },
        }
    }
}

impl View for Response {
    type V = RespV;

    open spec fn view(&self) -> RespV {
        match self {
            Response::Value(v) => RespV::Value(
                match v {
                    Some(b) => Some(b@),
                    None => None,
                },
            ),
            Response::Error(m) => RespV::Error(m@),
        }
    }
}

/// The payload encoding of a request.
pub open spec fn enc_request(q: ReqV) -> Seq<u8> {
    match q {
        ReqV::Get { key } => seq![GET_TAG] + be_bytes(key.len() as u64) + key,
        ReqV::Put { key, value } => seq![PUT_REQ_TAG] + be_bytes(key.len() as u64) + be_bytes(
            value.len() as u64,
        ) + key + value,
        ReqV::Remove { key } => seq![REMOVE_TAG] + be_bytes(key.len() as u64) + key,
    }
}

/// The payload encoding of a response.
pub open spec fn enc_response(p: RespV) -> Seq<u8> {
    match p {
        RespV::Value(None) => seq![NONE_TAG],
        RespV::Value(Some(v)) => seq![SOME_TAG] + be_bytes(v.len() as u64) + v,
        RespV::Error(m) => seq![ERROR_TAG] + be_bytes(m.len() as u64) + m,
    }
}

/// The request a whole payload denotes, if any: the payload must decode
/// exactly, with nothing left over.
pub open spec fn spec_parse_request(data: Seq<u8>) -> Option<ReqV> {
    if data.len() < 9 {
        None
    } else if data[0] == GET_TAG {
        let klen = be_value(data.subrange(1, 9)) as int;
        if data.len() == 9 + klen {
            Some(ReqV::Get { key: data.subrange(9, 9 + klen) })
        } else {
            None
        }
    } else if data[0] == PUT_REQ_TAG {
        if data.len() < 17 {
            None
        } else {
            let klen = be_value(data.subrange(1, 9)) as int;
            let vlen = be_value(data.subrange(9, 17)) as int;
            if data.len() == 17 + klen + vlen {
                Some(
                    ReqV::Put {
                        key: data.subrange(17, 17 + klen),
                        value: data.subrange(17 + klen, 17 + klen + vlen),
                    },
                )
            } else {
                None
            }
        }
    } else if data[0] == REMOVE_TAG {
        let klen = be_value(data.subrange(1, 9)) as int;
        if data.len() == 9 + klen {
            Some(ReqV::Remove { key: data.subrange(9, 9 + klen) })
        } else {
            None
        }
    } else {
        None
    }
}

/// The response a whole payload denotes, if any.
pub open spec fn spec_parse_response(data: Seq<u8>) -> Option<RespV> {
    if data.len() < 1 {
        None
    } else if data[0] == NONE_TAG {
        if data.len() == 1 {
            Some(RespV::Value(None))
        } else {
            None
        }
    } else if data[0] == SOME_TAG || data[0] == ERROR_TAG {
        if data.len() < 9 {
            None
        } else {
            let len = be_value(data.subrange(1, 9)) as int;
            if data.len() == 9 + len {
                if data[0] == SOME_TAG {
                    Some(RespV::Value(Some(data.subrange(9, 9 + len))))
                } else {
                    Some(RespV::Error(data.subrange(9, 9 + len)))
                }
            } else {
                None
            }
        }
    } else {
        None
    }
}

/// A request fits the framing fields.
pub open spec fn req_wf(q: ReqV) -> bool {
    match q {
        ReqV::Get { key } => key.len() <= u64::MAX,
        ReqV::Put { key, value } => key.len() <= u64::MAX && value.len() <= u64::MAX,
        ReqV::Remove { key } => key.len() <= u64::MAX,
    }
}

/// A response fits the framing fields.
pub open spec fn resp_wf(p: RespV) -> bool {
    match p {
        RespV::Value(None) => true,
        RespV::Value(Some(v)) => v.len() <= u64::MAX,
        RespV::Error(m) => m.len() <= u64::MAX,
    }
}

/// A request payload parses back to the request it encodes.
pub proof fn lemma_request_round_trip(q: ReqV)
    requires
        req_wf(q),
    ensures
        spec_parse_request(enc_request(q)) == Some(q),
{
    let d = enc_request(q);
    match q {
        ReqV::Get { key } => {
            lemma_be_round_trip(key.len() as u64);
            assert(d.subrange(1, 9) =~= be_bytes(key.len() as u64));
            assert(d.subrange(9, 9 + key.len() as int) =~= key);
        },
        ReqV::Put { key, value } => {
            let klen = key.len() as int;
            let vlen = value.len() as int;
            lemma_be_round_trip(key.len() as u64);
            lemma_be_round_trip(value.len() as u64);
            assert(d.subrange(1, 9) =~= be_bytes(key.len() as u64));
            assert(d.subrange(9, 17) =~= be_bytes(value.len() as u64));
            assert(d.subrange(17, 17 + klen) =~= key);
            assert(d.subrange(17 + klen, 17 + klen + vlen) =~= value);
        },
        ReqV::Remove { key } => {
            lemma_be_round_trip(key.len() as u64);
            assert(d.subrange(1, 9) =~= be_bytes(key.len() as u64));
            assert(d.subrange(9, 9 + key.len() as int) =~= key);
        },
    }
}

/// A response payload parses back to the response it encodes.
pub proof fn lemma_response_round_trip(p: RespV)
    requires
        resp_wf(p),
    ensures
        spec_parse_response(enc_response(p)) == Some(p),
{
    let d = enc_response(p);
    match p {
        RespV::Value(None) => {},
        RespV::Value(Some(v)) => {
            lemma_be_round_trip(v.len() as u64);
            assert(d.subrange(1, 9) =~= be_bytes(v.len() as u64));
            assert(d.subrange(9, 9 + v.len() as int) =~= v);
        },
        RespV::Error(m) => {
            lemma_be_round_trip(m.len() as u64);
            assert(d.subrange(1, 9) =~= be_bytes(m.len() as u64));
            assert(d.subrange(9, 9 + m.len() as int) =~= m);
        },
    }
}

/// Encodes a request payload.
pub fn encode_request(q: &Request) -> (r: Vec<u8>)
    ensures
        r@ == enc_request(q@),
{
    let mut out: Vec<u8> = Vec::new();
    match q {
        Request::Get { key } => {
            out.push(GET_TAG);
            push_be(&mut out, key.len() as u64);
            out.extend_from_slice(key.as_slice());
        },
        Request::Put { key, value } => {
            out.push(PUT_REQ_TAG);
            push_be(&mut out, key.len() as u64);
            push_be(&mut out, value.len() as u64);
            out.extend_from_slice(key.as_slice());
            out.extend_from_slice(value.as_slice());
        },
        Request::Remove { key } => {
            out.push(REMOVE_TAG);
            push_be(&mut out, key.len() as u64);
            out.extend_from_slice(key.as_slice());
        },
    }
    proof {
        assert(out@ =~= enc_request(q@));
    }
    out
}

/// Encodes a response payload.
pub fn encode_response(p: &Response) -> (r: Vec<u8>)
    ensures
        r@ == enc_response(p@),
{
    let mut out: Vec<u8> = Vec::new();
    match p {
        Response::Value(None) => {
            out.push(NONE_TAG);
        },
        Response::Value(Some(v)) => {
            out.push(SOME_TAG);
            push_be(&mut out, v.len() as u64);
            out.extend_from_slice(v.as_slice());
        },
        Response::Error(m) => {
            out.push(ERROR_TAG);
            push_be(&mut out, m.len() as u64);
            out.extend_from_slice(m.as_slice());
        },
    }
    proof {
        assert(out@ =~= enc_response(p@));
    }
    out
}

/// Decodes a whole request payload, or fails with [`KvsError::Codec`] where
/// the payload is not exactly one well-formed request.
pub fn decode_request(data: &[u8]) -> (r: Result<Request, KvsError>)
    ensures
        match r {
            Ok(q) => spec_parse_request(data@) == Some(q@),
            Err(e) => spec_parse_request(data@) is None && e == KvsError::Codec,
        },
{
    if data.len() < 9 {
        return Err(KvsError::Codec);
    }
    let tag = data[0];
    if tag == PUT_REQ_TAG {
        if data.len() < 17 {
            return Err(KvsError::Codec);
        }
        let klen = read_be(data, 1);
        let vlen = read_be(data, 9);
        let rest = (data.len() - 17) as u64;
        if klen > rest || vlen != rest - klen {
            proof {
                let klen_i = be_value(data@.subrange(1, 9)) as int;
                let vlen_i = be_value(data@.subrange(9, 17)) as int;
                assert(data@.len() != 17 + klen_i + vlen_i);
            }
            return Err(KvsError::Codec);
        }
        let klen = klen as usize;
        let vlen = vlen as usize;
        let key = vstd::slice::slice_to_vec(vstd::slice::slice_subrange(data, 17, 17 + klen));
        let value = vstd::slice::slice_to_vec(
            vstd::slice::slice_subrange(data, 17 + klen, 17 + klen + vlen),
        );
        Ok(Request::Put { key, value })
    } else if tag == GET_TAG || tag == REMOVE_TAG {
        let klen = read_be(data, 1);
        if klen != (data.len() - 9) as u64 {
            return Err(KvsError::Codec);
        }
        let klen = klen as usize;
        let key = vstd::slice::slice_to_vec(vstd::slice::slice_subrange(data, 9, 9 + klen));
        if tag == GET_TAG {
            Ok(Request::Get { key })
        } else {
            Ok(Request::Remove { key })
        }
    } else {
        Err(KvsError::Codec)
    }
}

/// Decodes a whole response payload, or fails with [`KvsError::Codec`] where
/// the payload is not exactly one well-formed response.
pub fn decode_response(data: &[u8]) -> (r: Result<Response, KvsError>)
    ensures
        match r {
            Ok(p) => spec_parse_response(data@) == Some(p@),
            Err(e) => spec_parse_response(data@) is None && e == KvsError::Codec,
        },
{
    if data.len() < 1 {
        return Err(KvsError::Codec);
    }
    let tag = data[0];
    if tag == NONE_TAG {
        if data.len() != 1 {
            return Err(KvsError::Codec);
        }
        Ok(Response::Value(None))
    } else if tag == SOME_TAG || tag == ERROR_TAG {
        if data.len() < 9 {
            return Err(KvsError::Codec);
        }
        let len = read_be(data, 1);
        if len != (data.len() - 9) as u64 {
            return Err(KvsError::Codec);
        }
        let len = len as usize;
        let body = vstd::slice::slice_to_vec(vstd::slice::slice_subrange(data, 9, 9 + len));
        if tag == SOME_TAG {
            Ok(Response::Value(Some(body)))
        } else {
            Ok(Response::Error(body))
        }
    } else {
        Err(KvsError::Codec)
    }
}

/// Frames a payload for the wire: its eight-byte big-endian length, then the
/// payload itself.
pub fn frame(payload: &[u8]) -> (r: Vec<u8>)
    ensures
        r@ == be_bytes(payload@.len() as u64) + payload@,
{
    let mut out: Vec<u8> = Vec::new();
    push_be(&mut out, payload.len() as u64);
    out.extend_from_slice(payload);
    proof {
        assert(out@ =~= be_bytes(payload@.len() as u64) + payload@);
    }
    out
}

/// Reads a frame header: the length of the payload that follows. Fails with
/// [`KvsError::Codec`] where the announced length cannot be addressed.
pub fn payload_len(header: &[u8]) -> (r: Result<usize, KvsError>)
    requires
        header@.len() == 8,
    ensures
        match r {
            Ok(n) => n == be_value(header@),
            Err(e) => be_value(header@) > usize::MAX && e == KvsError::Codec,
        },
{
    let n = read_be(header, 0);
    proof {
        assert(header@.subrange(0, 8) =~= header@);
    }
    if n > usize::MAX as u64 {
        Err(KvsError::Codec)
    } else {
        Ok(n as usize)
    }
}

/// Serves one decoded request against the store, returning the response to
/// send back and the file operations the caller must mirror to disk before
/// sending it. A `Get` of an absent key answers with no value, not an error;
/// an empty key on `Put`, a record over the size cap, or a `Remove` of an
/// absent key answer with an error and leave the store unchanged.
pub fn handle_request(store: &mut KvStore, req: Request) -> (r: (Response, Vec<FileOp>))
    requires
        old(store).wf(),
    ensures
        final(store).wf(),
        final(store).cap == old(store).cap,
        final(store).threshold == old(store).threshold,
        apply_ops(old(store).fv(), r.1@) == final(store).fv(),
        match req@ {
            ReqV::Get { key } => {
                &&& *final(store) == *old(store)
                &&& r.1@ == Seq::<FileOp>::empty()
                &&& (r.0@ matches RespV::Value(Some(v)) ==> old(store)@.contains_key(key) && v
                    == old(store)@[key])
                &&& (r.0@ == RespV::Value(None::<Seq<u8>>) <==> !old(store)@.contains_key(key))
                &&& !(r.0@ is Error)
            },
            ReqV::Put { key, value } => {
                &&& (key.len() > 0 && put_len(key, value) <= old(store).cap ==> final(store)@
                    == old(store)@.insert(key, value) && r.0@ == RespV::Value(None::<Seq<u8>>))
                &&& (key.len() == 0 ==> *final(store) == *old(store) && r.0@ == RespV::Error(
                    seq![ERR_EMPTY_KEY],
                ))
                &&& (key.len() > 0 && put_len(key, value) > old(store).cap ==> *final(store)
                    == *old(store) && r.0@ == RespV::Error(seq![ERR_VALUE_TOO_LARGE]))
            },
            ReqV::Remove { key } => {
                &&& (old(store)@.contains_key(key) ==> final(store)@ == old(store)@.remove(key)
                    && r.0@ == RespV::Value(None::<Seq<u8>>))
                &&& (!old(store)@.contains_key(key) ==> *final(store) == *old(store) && r.0@
                    == RespV::Error(seq![ERR_KEY_NOT_FOUND]))
            },
        },
{
    match req {
        Request::Get { key } => {
            let resp = match store.get(key.as_slice()) {
                Ok(v) => Response::Value(v),
                Err(_) => {
                    proof {
                        assert(false);
                    }
                    Response::Error(Vec::new())
                },
            };
            proof {
                assert(apply_ops(store.fv(), Seq::<FileOp>::empty()) == store.fv());
            }
            (resp, Vec::new())
        },
        Request::Put { key, value } => {
            if key.len() == 0 {
                proof {
                    assert(apply_ops(store.fv(), Seq::<FileOp>::empty()) == store.fv());
                }
                let mut msg: Vec<u8> = Vec::new();
                msg.push(ERR_EMPTY_KEY);
                proof {
                    assert(msg@ =~= seq![ERR_EMPTY_KEY]);
                }
                return (Response::Error(msg), Vec::new());
            }
            match store.set(key.as_slice(), value.as_slice()) {
                Ok(ops) => (Response::Value(None), ops),
                Err(_) => {
                    proof {
                        assert(apply_ops(store.fv(), Seq::<FileOp>::empty()) == store.fv());
                    }
                    let mut msg: Vec<u8> = Vec::new();
                    msg.push(ERR_VALUE_TOO_LARGE);
                    proof {
                        assert(msg@ =~= seq![ERR_VALUE_TOO_LARGE]);
                    }
                    (Response::Error(msg), Vec::new())
                },
            }
        },
        Request::Remove { key } => {
            match store.remove(key.as_slice()) {
                Ok(ops) => (Response::Value(None), ops),
                Err(_) => {
                    proof {
                        assert(apply_ops(store.fv(), Seq::<FileOp>::empty()) == store.fv());
                    }
                    let mut msg: Vec<u8> = Vec::new();
                    msg.push(ERR_KEY_NOT_FOUND);
                    proof {
                        assert(msg@ =~= seq![ERR_KEY_NOT_FOUND]);
                    }
                    (Response::Error(msg), Vec::new())
                },
            }
        },
    }
}

} // verus!
