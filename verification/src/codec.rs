//! The wire codec: the MessagePack envelope of request and response
//! records.
//!
//! A request is a map `{req, id[, data]}` and a response a map
//! `{req, id, res[, data]}`, with string keys and compact integer values.
//! The optional `data` member is one self-describing MessagePack value that
//! the transport carries without interpreting.  Encoding is total; decoding
//! rejects malformed, truncated or trailing bytes with a [`DecodeError`].

use vstd::prelude::*;
use crate::msgpack::{
    be16, be32, lemma_be16_bound, lemma_be32_bound, read_i32, read_str, read_uint, spec_read_i32,
    spec_read_str, spec_read_uint, spec_value_end, value_end,
};
use crate::packet::{DecodeError, ResponsePacket};

verus! {

/// Compact MessagePack encoding of an unsigned integer: the smallest of
/// positive fixint, uint8, uint16, uint32 and uint64 that holds the value.
pub open spec fn spec_uint_enc(v: u64) -> Seq<u8> {
    if v < 0x80 {
        seq![v as u8]
    } else if v < 0x100 {
        seq![0xccu8, v as u8]
    } else if v < 0x1_0000 {
        seq![0xcdu8, (v >> 8) as u8, v as u8]
    } else if v < 0x1_0000_0000 {
        seq![0xceu8, (v >> 24) as u8, (v >> 16) as u8, (v >> 8) as u8, v as u8]
    } else {
        seq![
            0xcfu8,
            (v >> 56) as u8,
            (v >> 48) as u8,
            (v >> 40) as u8,
            (v >> 32) as u8,
            (v >> 24) as u8,
            (v >> 16) as u8,
            (v >> 8) as u8,
            v as u8,
        ]
    }
}

/// Compact MessagePack encoding of a signed 32-bit integer: non-negative
/// values use the unsigned forms, negative values the smallest of negative
/// fixint, int8, int16 and int32.
pub open spec fn spec_sint_enc(v: i32) -> Seq<u8> {
    if v >= 0 {
        spec_uint_enc(v as u64)
    } else if v >= -32 {
        seq![v as u8]
    } else if v >= -128 {
        seq![0xd0u8, v as u8]
    } else if v >= -32768 {
        seq![0xd1u8, ((v as u16) >> 8) as u8, v as u8]
    } else {
        seq![0xd2u8, ((v as u32) >> 24) as u8, ((v as u32) >> 16) as u8, ((v as u32) >> 8) as u8, v as u8]
    }
}

/// The bytes of the `req` key: fixstr marker and name.
pub open spec fn req_entry_key() -> Seq<u8> {
    seq![0xa3u8, 0x72u8, 0x65u8, 0x71u8]
}

/// The bytes of the `id` key.
pub open spec fn id_entry_key() -> Seq<u8> {
    seq![0xa2u8, 0x69u8, 0x64u8]
}

/// The bytes of the `res` key.
pub open spec fn res_entry_key() -> Seq<u8> {
    seq![0xa3u8, 0x72u8, 0x65u8, 0x73u8]
}

/// The bytes of the `data` key.
pub open spec fn data_entry_key() -> Seq<u8> {
    seq![0xa4u8, 0x64u8, 0x61u8, 0x74u8, 0x61u8]
}

/// The name `req` without its marker, as a decoded key appears.
pub open spec fn req_name() -> Seq<u8> {
    seq![0x72u8, 0x65u8, 0x71u8]
}

/// The name `id` without its marker.
pub open spec fn id_name() -> Seq<u8> {
    seq![0x69u8, 0x64u8]
}

/// The name `res` without its marker.
pub open spec fn res_name() -> Seq<u8> {
    seq![0x72u8, 0x65u8, 0x73u8]
}

/// The name `data` without its marker.
pub open spec fn data_name() -> Seq<u8> {
    seq![0x64u8, 0x61u8, 0x74u8, 0x61u8]
}

/// An optional payload, viewed as the byte sequence it holds.
pub open spec fn data_view(d: Option<Vec<u8>>) -> Option<Seq<u8>> {
    match d {
        Some(v) => Some(v@),
        None => None,
    }
}

/// `d` holds exactly the bytes of the model payload `m`.
pub open spec fn data_matches(d: Option<Vec<u8>>, m: Option<Seq<u8>>) -> bool {
    match (d, m) {
        (Some(v), Some(sq)) => v@ == sq,
        (None, None) => true,
        _ => false,
    }
}

/// The encoding of a request record: a map of `req`, `id` and, when a
/// payload is present, `data`.
pub open spec fn spec_encode_request(req: u32, id: u64, data: Option<Seq<u8>>) -> Seq<u8> {
    seq![
        (if data is Some {
            0x83u8
        } else {
            0x82u8
        }),
    ] + req_entry_key() + spec_uint_enc(req as u64) + id_entry_key() + spec_uint_enc(id) + (
    match data {
        Some(p) => data_entry_key() + p,
        None => Seq::empty(),
    })
}

/// The encoding of a response record: a map of `req`, `id`, `res` and,
/// when a payload is present, `data`.
pub open spec fn spec_encode_response(req: u32, id: u64, res: i32, data: Option<Seq<u8>>) -> Seq<
    u8,
> {
    seq![
        (if data is Some {
            0x84u8
        } else {
            0x83u8
        }),
    ] + req_entry_key() + spec_uint_enc(req as u64) + id_entry_key() + spec_uint_enc(id)
        + res_entry_key() + spec_sint_enc(res) + (match data {
        Some(p) => data_entry_key() + p,
        None => Seq::empty(),
    })
}

/// Appends the compact unsigned encoding of `v`.
fn push_uint(out: &mut Vec<u8>, v: u64)
    ensures
        final(out)@ == old(out)@ + spec_uint_enc(v),
{
    if v < 0x80 {
        out.push(v as u8);
    } else if v < 0x100 {
        out.push(0xcc);
        out.push(v as u8);
    } else if v < 0x1_0000 {
        out.push(0xcd);
        out.push((v >> 8) as u8);
        out.push(v as u8);
    } else if v < 0x1_0000_0000 {
        out.push(0xce);
        out.push((v >> 24) as u8);
        out.push((v >> 16) as u8);
        out.push((v >> 8) as u8);
        out.push(v as u8);
    } else {
        out.push(0xcf);
        out.push((v >> 56) as u8);
        out.push((v >> 48) as u8);
        out.push((v >> 40) as u8);
        out.push((v >> 32) as u8);
        out.push((v >> 24) as u8);
        out.push((v >> 16) as u8);
        out.push((v >> 8) as u8);
        out.push(v as u8);
    }
    proof {
        assert(out@ =~= old(out)@ + spec_uint_enc(v));
    }
}

/// Appends the compact signed encoding of `v`.
fn push_sint(out: &mut Vec<u8>, v: i32)
    ensures
        final(out)@ == old(out)@ + spec_sint_enc(v),
{
    if v >= 0 {
        push_uint(out, v as u64);
    } else if v >= -32 {
        out.push(v as u8);
    } else if v >= -128 {
        out.push(0xd0);
        out.push(v as u8);
    } else if v >= -32768 {
        out.push(0xd1);
        out.push(((v as u16) >> 8) as u8);
        out.push(v as u8);
    } else {
        out.push(0xd2);
        out.push(((v as u32) >> 24) as u8);
        out.push(((v as u32) >> 16) as u8);
        out.push(((v as u32) >> 8) as u8);
        out.push(v as u8);
    }
    proof {
        assert(out@ =~= old(out)@ + spec_sint_enc(v));
    }
}

/// Appends all of `src`.
fn push_bytes(out: &mut Vec<u8>, src: &Vec<u8>)
    ensures
        final(out)@ == old(out)@ + src@,
{
    let n = src.len();
    let mut j: usize = 0;
    while j < n
        invariant
            j <= n,
            n == src@.len(),
            out@ == old(out)@ + src@.subrange(0, j as int),
        decreases n - j,
    {
        out.push(src[j]);
        proof {
            assert(out@ =~= old(out)@ + src@.subrange(0, j + 1 as int));
        }
        j += 1;
    }
    proof {
        assert(src@.subrange(0, n as int) =~= src@);
    }
}

/// Encodes a request record.  Encoding never fails: every kind, id and
/// payload has exactly the encoding [`spec_encode_request`] describes.
pub fn encode_request(req: u32, id: u64, data: &Option<Vec<u8>>) -> (out: Vec<u8>)
    ensures
        out@ == spec_encode_request(req, id, data_view(*data)),
{
    let mut out = Vec::new();
    match data {
        Some(_) => out.push(0x83),
        None => out.push(0x82),
    }
    out.push(0xa3);
    out.push(0x72);
    out.push(0x65);
    out.push(0x71);
    push_uint(&mut out, req as u64);
    out.push(0xa2);
    out.push(0x69);
    out.push(0x64);
    push_uint(&mut out, id);
    match data {
        Some(p) => {
            out.push(0xa4);
            out.push(0x64);
            out.push(0x61);
            out.push(0x74);
            out.push(0x61);
            push_bytes(&mut out, p);
        },
        None => {},
    }
    proof {
        assert(out@ =~= spec_encode_request(req, id, data_view(*data)));
    }
    out
}

/// Encodes a response record, as the remote device would: used to state
/// and test what the decoder accepts.
pub fn encode_response(req: u32, id: u64, res: i32, data: &Option<Vec<u8>>) -> (out: Vec<u8>)
    ensures
        out@ == spec_encode_response(req, id, res, data_view(*data)),
{
    let mut out = Vec::new();
    match data {
        Some(_) => out.push(0x84),
        None => out.push(0x83),
    }
    out.push(0xa3);
    out.push(0x72);
    out.push(0x65);
    out.push(0x71);
    push_uint(&mut out, req as u64);
    out.push(0xa2);
    out.push(0x69);
    out.push(0x64);
    push_uint(&mut out, id);
    out.push(0xa3);
    out.push(0x72);
    out.push(0x65);
    out.push(0x73);
    push_sint(&mut out, res);
    match data {
        Some(p) => {
            out.push(0xa4);
            out.push(0x64);
            out.push(0x61);
            out.push(0x74);
            out.push(0x61);
            push_bytes(&mut out, p);
        },
        None => {},
    }
    proof {
        assert(out@ =~= spec_encode_response(req, id, res, data_view(*data)));
    }
    out
}

/// The header of the envelope map: the entry count and the position of the
/// first entry.
pub open spec fn spec_header(s: Seq<u8>) -> Result<(int, int), DecodeError> {
    if s.len() == 0 {
        Err(DecodeError::Truncated)
    } else {
        let b = s[0];
        if 0x80 <= b < 0x90 {
            Ok((((b - 0x80) as int), 1))
        } else if b == 0xde {
            if s.len() >= 3 {
                Ok((be16(s, 1) as int, 3))
            } else {
                Err(DecodeError::Truncated)
            }
        } else if b == 0xdf {
            if s.len() >= 5 {
                Ok((be32(s, 1) as int, 5))
            } else {
                Err(DecodeError::Truncated)
            }
        } else {
            Err(DecodeError::UnexpectedType)
        }
    }
}

/// Folds the remaining `n` map entries into the fields collected so far.
/// Each envelope field may appear once, in any order; entries under other
/// keys are skipped.  On success: the collected fields and the position
/// just past the last entry.
pub open spec fn spec_decode_fields(
    s: Seq<u8>,
    pos: int,
    n: int,
    req: Option<u32>,
    id: Option<u64>,
    res: Option<i32>,
    data: Option<Seq<u8>>,
) -> Result<(Option<u32>, Option<u64>, Option<i32>, Option<Seq<u8>>, int), DecodeError>
    decreases n,
{
    if n <= 0 {
        Ok((req, id, res, data, pos))
    } else {
        match spec_read_str(s, pos) {
            Err(e) => Err(e),
            Ok((key, p1)) => {
                if key == req_name() {
                    if req is Some {
                        Err(DecodeError::DuplicateField)
                    } else {
                        match spec_read_uint(s, p1) {
                            Err(e) => Err(e),
                            Ok((v, p2)) => {
                                if v > 0xffff_ffff {
                                    Err(DecodeError::OutOfRange)
                                } else {
                                    spec_decode_fields(s, p2, n - 1, Some(v as u32), id, res, data)
                                }
                            },
                        }
                    }
                } else if key == id_name() {
                    if id is Some {
                        Err(DecodeError::DuplicateField)
                    } else {
                        match spec_read_uint(s, p1) {
                            Err(e) => Err(e),
                            Ok((v, p2)) => spec_decode_fields(s, p2, n - 1, req, Some(v), res, data),
                        }
                    }
                } else if key == res_name() {
                    if res is Some {
                        Err(DecodeError::DuplicateField)
                    } else {
                        match spec_read_i32(s, p1) {
                            Err(e) => Err(e),
                            Ok((v, p2)) => spec_decode_fields(s, p2, n - 1, req, id, Some(v), data),
                        }
                    }
                } else if key == data_name() {
                    if data is Some {
                        Err(DecodeError::DuplicateField)
                    } else {
                        let e2 = spec_value_end(s, p1);
                        if e2 < 0 {
                            Err(DecodeError::Truncated)
                        } else {
                            spec_decode_fields(s, e2, n - 1, req, id, res, Some(s.subrange(p1, e2)))
                        }
                    }
                } else {
                    let e2 = spec_value_end(s, p1);
                    if e2 < 0 {
                        Err(DecodeError::Truncated)
                    } else {
                        spec_decode_fields(s, e2, n - 1, req, id, res, data)
                    }
                }
            },
        }
    }
}

/// What decoding a response datagram yields: the `(req, id, res, data)`
/// fields, or the error the bytes deserve.  `req`, `id` and `res` are
/// required, `data` is optional, no key may repeat, and nothing may follow
/// the envelope.
pub open spec fn spec_decode_response(s: Seq<u8>) -> Result<
    (u32, u64, i32, Option<Seq<u8>>),
    DecodeError,
> {
    match spec_header(s) {
        Err(e) => Err(e),
        Ok((n, pos)) => match spec_decode_fields(s, pos, n, None, None, None, None) {
            Err(e) => Err(e),
            Ok((req, id, res, data, end)) => {
                if end != s.len() {
                    Err(DecodeError::TrailingBytes)
                } else {
                    match (req, id, res) {
                        (Some(r), Some(i), Some(c)) => Ok((r, i, c, data)),
                        _ => Err(DecodeError::MissingField),
                    }
                }
            },
        },
    }
}

/// Is `buf[start..end]` the key name `req`?
fn key_is_req(buf: &Vec<u8>, start: usize, end: usize) -> (r: bool)
    requires
        start <= end <= buf@.len(),
    ensures
        r == (buf@.subrange(start as int, end as int) == req_name()),
{
    proof {
        assert(buf@.subrange(start as int, end as int).len() == end - start);
    }
    if end - start != 3 {
        return false;
    }
    let r = buf[start] == 0x72 && buf[start + 1] == 0x65 && buf[start + 2] == 0x71;
    proof {
        let sub = buf@.subrange(start as int, end as int);
        assert(sub[0] == buf@[start as int]);
        assert(sub[1] == buf@[start as int + 1]);
        assert(sub[2] == buf@[start as int + 2]);
        if r {
            assert(sub =~= req_name());
        }
    }
    r
}

/// Is `buf[start..end]` the key name `id`?
fn key_is_id(buf: &Vec<u8>, start: usize, end: usize) -> (r: bool)
    requires
        start <= end <= buf@.len(),
    ensures
        r == (buf@.subrange(start as int, end as int) == id_name()),
{
    proof {
        assert(buf@.subrange(start as int, end as int).len() == end - start);
    }
    if end - start != 2 {
        return false;
    }
    let r = buf[start] == 0x69 && buf[start + 1] == 0x64;
    proof {
        let sub = buf@.subrange(start as int, end as int);
        assert(sub[0] == buf@[start as int]);
        assert(sub[1] == buf@[start as int + 1]);
        if r {
            assert(sub =~= id_name());
        }
    }
    r
}

/// Is `buf[start..end]` the key name `res`?
fn key_is_res(buf: &Vec<u8>, start: usize, end: usize) -> (r: bool)
    requires
        start <= end <= buf@.len(),
    ensures
        r == (buf@.subrange(start as int, end as int) == res_name()),
{
    proof {
        assert(buf@.subrange(start as int, end as int).len() == end - start);
    }
    if end - start != 3 {
        return false;
    }
    let r = buf[start] == 0x72 && buf[start + 1] == 0x65 && buf[start + 2] == 0x73;
    proof {
        let sub = buf@.subrange(start as int, end as int);
        assert(sub[0] == buf@[start as int]);
        assert(sub[1] == buf@[start as int + 1]);
        assert(sub[2] == buf@[start as int + 2]);
        if r {
            assert(sub =~= res_name());
        }
    }
    r
}

/// Is `buf[start..end]` the key name `data`?
fn key_is_data(buf: &Vec<u8>, start: usize, end: usize) -> (r: bool)
    requires
        start <= end <= buf@.len(),
    ensures
        r == (buf@.subrange(start as int, end as int) == data_name()),
{
    proof {
        assert(buf@.subrange(start as int, end as int).len() == end - start);
    }
    if end - start != 4 {
        return false;
    }
    let r = buf[start] == 0x64 && buf[start + 1] == 0x61 && buf[start + 2] == 0x74 && buf[start
        + 3] == 0x61;
    proof {
        let sub = buf@.subrange(start as int, end as int);
        assert(sub[0] == buf@[start as int]);
        assert(sub[1] == buf@[start as int + 1]);
        assert(sub[2] == buf@[start as int + 2]);
        assert(sub[3] == buf@[start as int + 3]);
        if r {
            assert(sub =~= data_name());
        }
    }
    r
}

/// Decodes a response datagram, yielding exactly what
/// [`spec_decode_response`] ascribes to the bytes.  The receiver treats any
/// error as "drop the datagram and continue".
pub fn decode_response(buf: &Vec<u8>) -> (r: Result<ResponsePacket, DecodeError>)
    ensures
        match r {
            Ok(p) => spec_decode_response(buf@) matches Ok(m) && p.req == m.0 && p.id == m.1
                && p.res == m.2 && data_matches(p.data, m.3),
            Err(e) => spec_decode_response(buf@) == Err::<
                (u32, u64, i32, Option<Seq<u8>>),
                DecodeError,
            >(e),
        },
{
    let len = buf.len();
    if len == 0 {
        return Err(DecodeError::Truncated);
    }
    let b = buf[0];
    let pos0: usize;
    let n0: u64;
    if 0x80 <= b && b < 0x90 {
        pos0 = 1;
        n0 = (b - 0x80) as u64;
    } else if b == 0xde {
        if len < 3 {
            return Err(DecodeError::Truncated);
        }
        n0 = (buf[1] as u64) << 8 | (buf[2] as u64);
        pos0 = 3;
    } else if b == 0xdf {
        if len < 5 {
            return Err(DecodeError::Truncated);
        }
        n0 = (buf[1] as u64) << 24 | (buf[2] as u64) << 16 | (buf[3] as u64) << 8 | (
        buf[4] as u64);
        pos0 = 5;
    } else {
        return Err(DecodeError::UnexpectedType);
    }
    proof {
        assert(spec_header(buf@) == Ok::<(int, int), DecodeError>((n0 as int, pos0 as int)));
    }
    let mut pos = pos0;
    let mut rem = n0;
    let mut req: Option<u32> = None;
    let mut id: Option<u64> = None;
    let mut res: Option<i32> = None;
    let mut data: Option<Vec<u8>> = None;
    while rem > 0
        invariant
            pos <= buf@.len(),
            spec_header(buf@) == Ok::<(int, int), DecodeError>((n0 as int, pos0 as int)),
            spec_decode_fields(buf@, pos as int, rem as int, req, id, res, data_view(data))
                == spec_decode_fields(buf@, pos0 as int, n0 as int, None, None, None, None),
        decreases rem,
    {
        let (ks, ke) = match read_str(buf, pos) {
            Err(e) => {
                return Err(e);
            },
            Ok(t) => t,
        };
        if key_is_req(buf, ks, ke) {
            if req.is_some() {
                return Err(DecodeError::DuplicateField);
            }
            let (v, p2) = match read_uint(buf, ke) {
                Err(e) => {
                    return Err(e);
                },
                Ok(t) => t,
            };
            if v > 0xffff_ffff {
                return Err(DecodeError::OutOfRange);
            }
            req = Some(v as u32);
            pos = p2;
        } else if key_is_id(buf, ks, ke) {
            if id.is_some() {
                return Err(DecodeError::DuplicateField);
            }
            let (v, p2) = match read_uint(buf, ke) {
                Err(e) => {
                    return Err(e);
                },
                Ok(t) => t,
            };
            id = Some(v);
            pos = p2;
        } else if key_is_res(buf, ks, ke) {
            if res.is_some() {
                return Err(DecodeError::DuplicateField);
            }
            let (v, p2) = match read_i32(buf, ke) {
                Err(e) => {
                    return Err(e);
                },
                Ok(t) => t,
            };
            res = Some(v);
            pos = p2;
        } else if key_is_data(buf, ks, ke) {
            if data.is_some() {
                return Err(DecodeError::DuplicateField);
            }
            let e2 = match value_end(buf, ke) {
                None => {
                    return Err(DecodeError::Truncated);
                },
                Some(t) => t,
            };
            let mut seg: Vec<u8> = Vec::new();
            let mut j = ke;
            while j < e2
                invariant
                    ke <= j <= e2 <= buf@.len(),
                    seg@ == buf@.subrange(ke as int, j as int),
                decreases e2 - j,
            {
                seg.push(buf[j]);
                proof {
                    assert(seg@ =~= buf@.subrange(ke as int, j + 1 as int));
                }
                j += 1;
            }
            data = Some(seg);
            pos = e2;
        } else {
            let e2 = match value_end(buf, ke) {
                None => {
                    return Err(DecodeError::Truncated);
                },
                Some(t) => t,
            };
            pos = e2;
        }
        rem = rem - 1;
    }
    if pos != len {
        return Err(DecodeError::TrailingBytes);
    }
    let req_v = match req {
        Some(v) => v,
        None => {
            return Err(DecodeError::MissingField);
        },
    };
    let id_v = match id {
        Some(v) => v,
        None => {
            return Err(DecodeError::MissingField);
        },
    };
    let res_v = match res {
        Some(v) => v,
        None => {
            return Err(DecodeError::MissingField);
        },
    };
    Ok(ResponsePacket { req: req_v, id: id_v, res: res_v, data })
}

/// Reading back the compact unsigned encoding embedded at `pos` yields the
/// encoded value.
proof fn lemma_uint_enc_reads(s: Seq<u8>, pos: int, v: u64)
    requires
        0 <= pos,
        pos + spec_uint_enc(v).len() <= s.len(),
        forall|j: int| 0 <= j < spec_uint_enc(v).len() ==> s[pos + j] == spec_uint_enc(v)[j],
    ensures
        spec_read_uint(s, pos) == Ok::<(u64, int), DecodeError>(
            (v, pos + spec_uint_enc(v).len()),
        ),
{
    assert(s[pos + 0] == spec_uint_enc(v)[0]);
    if v < 0x80 {
    } else if v < 0x100 {
        assert(s[pos + 1] == spec_uint_enc(v)[1]);
        assert((v as u8) as u64 == v) by (bit_vector)
            requires
                v < 0x100,
        ;
    } else if v < 0x1_0000 {
        assert(s[pos + 1] == spec_uint_enc(v)[1]);
        assert(s[pos + 2] == spec_uint_enc(v)[2]);
        assert((((v >> 8) as u8) as u64) << 8 | ((v as u8) as u64) == v) by (bit_vector)
            requires
                v < 0x1_0000,
        ;
    } else if v < 0x1_0000_0000 {
        assert(s[pos + 1] == spec_uint_enc(v)[1]);
        assert(s[pos + 2] == spec_uint_enc(v)[2]);
        assert(s[pos + 3] == spec_uint_enc(v)[3]);
        assert(s[pos + 4] == spec_uint_enc(v)[4]);
        assert((((v >> 24) as u8) as u64) << 24 | (((v >> 16) as u8) as u64) << 16 | (((v
            >> 8) as u8) as u64) << 8 | ((v as u8) as u64) == v) by (bit_vector)
            requires
                v < 0x1_0000_0000,
        ;
    } else {
        assert(s[pos + 1] == spec_uint_enc(v)[1]);
        assert(s[pos + 2] == spec_uint_enc(v)[2]);
        assert(s[pos + 3] == spec_uint_enc(v)[3]);
        assert(s[pos + 4] == spec_uint_enc(v)[4]);
        assert(s[pos + 5] == spec_uint_enc(v)[5]);
        assert(s[pos + 6] == spec_uint_enc(v)[6]);
        assert(s[pos + 7] == spec_uint_enc(v)[7]);
        assert(s[pos + 8] == spec_uint_enc(v)[8]);
        assert((((v >> 56) as u8) as u64) << 56 | (((v >> 48) as u8) as u64) << 48 | (((v
            >> 40) as u8) as u64) << 40 | (((v >> 32) as u8) as u64) << 32 | (((v
            >> 24) as u8) as u64) << 24 | (((v >> 16) as u8) as u64) << 16 | (((v
            >> 8) as u8) as u64) << 8 | ((v as u8) as u64) == v) by (bit_vector);
    }
}

/// Reading back the compact signed encoding embedded at `pos` yields the
/// encoded value.
proof fn lemma_sint_enc_reads(s: Seq<u8>, pos: int, v: i32)
    requires
        0 <= pos,
        pos + spec_sint_enc(v).len() <= s.len(),
        forall|j: int| 0 <= j < spec_sint_enc(v).len() ==> s[pos + j] == spec_sint_enc(v)[j],
    ensures
        spec_read_i32(s, pos) == Ok::<(i32, int), DecodeError>(
            (v, pos + spec_sint_enc(v).len()),
        ),
{
    assert(s[pos + 0] == spec_sint_enc(v)[0]);
    if v >= 0 {
        let u = v as u64;
        assert(spec_sint_enc(v) == spec_uint_enc(u));
        if u < 0x80 {
            assert((u as u8) < 0x80 && ((u as u8) as i32) == v) by (bit_vector)
                requires
                    u == v as u64 && v >= 0 && u < 0x80,
            ;
        } else if u < 0x100 {
            assert(s[pos + 1] == spec_uint_enc(u)[1]);
            assert(((u as u8) as i32) == v) by (bit_vector)
                requires
                    u == v as u64 && v >= 0 && u < 0x100,
            ;
        } else if u < 0x1_0000 {
            assert(s[pos + 1] == spec_uint_enc(u)[1]);
            assert(s[pos + 2] == spec_uint_enc(u)[2]);
            assert({
                let c = (((u >> 8) as u8) as u64) << 8 | ((u as u8) as u64);
                (((u >> 8) as u8) as u64) > 0 && c == u && (c as i32) == v
            }) by (bit_vector)
                requires
                    u == v as u64 && v >= 0 && 0x100 <= u < 0x1_0000,
            ;
        } else {
            assert(s[pos + 1] == spec_uint_enc(u)[1]);
            assert(s[pos + 2] == spec_uint_enc(u)[2]);
            assert(s[pos + 3] == spec_uint_enc(u)[3]);
            assert(s[pos + 4] == spec_uint_enc(u)[4]);
            assert({
                let c = (((u >> 24) as u8) as u64) << 24 | (((u >> 16) as u8) as u64) << 16 | (((u
                    >> 8) as u8) as u64) << 8 | ((u as u8) as u64);
                c == u && c <= 0x7fff_ffff && (c as i32) == v
            }) by (bit_vector)
                requires
                    u == v as u64 && v >= 0 && 0x1_0000 <= u < 0x1_0000_0000,
            ;
        }
    } else if v >= -32 {
        assert({
            let b = v as u8;
            b >= 0xe0 && (b as int) - 256 == v as int
        }) by (bit_vector)
            requires
                -32 <= v < 0,
        ;
    } else if v >= -128 {
        assert(s[pos + 1] == spec_sint_enc(v)[1]);
        assert({
            let b = v as u8;
            b >= 0x80 && (b as int) - 256 == v as int
        }) by (bit_vector)
            requires
                -128 <= v < -32,
        ;
    } else if v >= -32768 {
        assert(s[pos + 1] == spec_sint_enc(v)[1]);
        assert(s[pos + 2] == spec_sint_enc(v)[2]);
        assert({
            let c = ((((v as u16) >> 8) as u8) as u64) << 8 | ((v as u8) as u64);
            c >= 0x8000 && c < 0x1_0000 && (c as int) - 0x1_0000 == v as int
        }) by (bit_vector)
            requires
                -32768 <= v < -128,
        ;
    } else {
        assert(s[pos + 1] == spec_sint_enc(v)[1]);
        assert(s[pos + 2] == spec_sint_enc(v)[2]);
        assert(s[pos + 3] == spec_sint_enc(v)[3]);
        assert(s[pos + 4] == spec_sint_enc(v)[4]);
        assert({
            let c = ((((v as u32) >> 24) as u8) as u64) << 24 | ((((v as u32) >> 16) as u8) as u64)
                << 16 | ((((v as u32) >> 8) as u8) as u64) << 8 | ((v as u8) as u64);
            c >= 0x8000_0000 && c < 0x1_0000_0000 && (c as int) - 0x1_0000_0000 == v as int
        }) by (bit_vector)
            requires
                v < -32768,
        ;
    }
}

/// The codec's round trip: decoding any encoded response yields exactly
/// the record that was encoded, for every kind, id and status, and every
/// payload that is one well-formed MessagePack value.
#[verifier::rlimit(100)]
pub proof fn lemma_response_round_trip(req: u32, id: u64, res: i32, data: Option<Seq<u8>>)
    requires
        data matches Some(p) ==> crate::msgpack::is_msgpack_value(p),
    ensures
        spec_decode_response(spec_encode_response(req, id, res, data)) == Ok::<
            (u32, u64, i32, Option<Seq<u8>>),
            DecodeError,
        >((req, id, res, data)),
{
    let s = spec_encode_response(req, id, res, data);
    let er = spec_uint_enc(req as u64);
    let ei = spec_uint_enc(id);
    let ec = spec_sint_enc(res);
    let tail: Seq<u8> = match data {
        Some(p) => data_entry_key() + p,
        None => Seq::empty(),
    };
    let o2 = 5int;
    let o3 = o2 + er.len();
    let o4 = o3 + 3;
    let o5 = o4 + ei.len();
    let o6 = o5 + 4;
    let o7 = o6 + ec.len();
    let o8 = o7 + 5;
    lemma_response_layout(req, id, res, data);
    // The map header.
    let n0: int = if data is Some {
        4
    } else {
        3
    };
    assert(spec_header(s) == Ok::<(int, int), DecodeError>((n0, 1)));
    // First entry: the `req` field.
    assert(s[1] == 0xa3);
    let k1 = s.subrange(2, 5);
    assert(k1 =~= req_name());
    assert(spec_read_str(s, 1) == Ok::<(Seq<u8>, int), DecodeError>((k1, o2)));
    lemma_uint_enc_reads(s, o2, req as u64);
    assert(spec_decode_fields(s, 1, n0, None, None, None, None) == spec_decode_fields(
        s,
        o3,
        n0 - 1,
        Some(req),
        None,
        None,
        None,
    ));
    // Second entry: the `id` field.
    assert(s[o3] == 0xa2);
    let k2 = s.subrange(o3 + 1, o3 + 3);
    assert(k2 =~= id_name());
    assert(spec_read_str(s, o3) == Ok::<(Seq<u8>, int), DecodeError>((k2, o4)));
    assert(k2 != req_name());
    lemma_uint_enc_reads(s, o4, id);
    assert(spec_decode_fields(s, o3, n0 - 1, Some(req), None, None, None) == spec_decode_fields(
        s,
        o5,
        n0 - 2,
        Some(req),
        Some(id),
        None,
        None,
    ));
    // Third entry: the `res` field.
    assert(s[o5] == 0xa3);
    let k3 = s.subrange(o5 + 1, o5 + 4);
    assert(k3 =~= res_name());
    assert(spec_read_str(s, o5) == Ok::<(Seq<u8>, int), DecodeError>((k3, o6)));
    assert(k3 != req_name()) by {
        assert(k3[2] == 0x73 && req_name()[2] == 0x71);
    }
    assert(k3 != id_name());
    lemma_sint_enc_reads(s, o6, res);
    assert(spec_decode_fields(s, o5, n0 - 2, Some(req), Some(id), None, None)
        == spec_decode_fields(s, o7, n0 - 3, Some(req), Some(id), Some(res), None));
    match data {
        None => {
            assert(spec_decode_fields(s, o7, 0, Some(req), Some(id), Some(res), None) == Ok::<
                (Option<u32>, Option<u64>, Option<i32>, Option<Seq<u8>>, int),
                DecodeError,
            >((Some(req), Some(id), Some(res), None, o7)));
            assert(o7 == s.len());
        },
        Some(p) => {
            // Fourth entry: the `data` payload, skipped as one value.
            assert(s[o7] == 0xa4);
            let k4 = s.subrange(o7 + 1, o7 + 5);
            assert(k4 =~= data_name());
            assert(spec_read_str(s, o7) == Ok::<(Seq<u8>, int), DecodeError>((k4, o8)));
            assert(k4 != req_name());
            assert(k4 != id_name());
            assert(k4 != res_name());
            assert forall|i: int| 0 <= i < p.len() implies s[o8 + i] == p[i] by {
                assert(s[o7 + (i + 5)] == tail[i + 5]);
            }
            crate::msgpack::lemma_value_end_window(p, s, 0, o8);
            assert(spec_value_end(s, o8) == s.len());
            assert(s.subrange(o8, s.len() as int) =~= p);
            assert(spec_decode_fields(s, o7, 1, Some(req), Some(id), Some(res), None)
                == spec_decode_fields(s, s.len() as int, 0, Some(req), Some(id), Some(res), Some(
                s.subrange(o8, s.len() as int),
            )));
            assert(spec_decode_fields(s, 1, n0, None, None, None, None) == Ok::<
                (Option<u32>, Option<u64>, Option<i32>, Option<Seq<u8>>, int),
                DecodeError,
            >((Some(req), Some(id), Some(res), Some(p), s.len() as int)));
        },
    }
}

/// Where each piece of an encoded response lies in its bytes.
#[verifier::rlimit(100)]
proof fn lemma_response_layout(req: u32, id: u64, res: i32, data: Option<Seq<u8>>)
    ensures
        ({
            let s = spec_encode_response(req, id, res, data);
            let er = spec_uint_enc(req as u64);
            let ei = spec_uint_enc(id);
            let ec = spec_sint_enc(res);
            let tail: Seq<u8> = match data {
                Some(p) => data_entry_key() + p,
                None => Seq::empty(),
            };
            let o3 = 5 + er.len();
            let o4 = o3 + 3;
            let o5 = o4 + ei.len();
            let o6 = o5 + 4;
            let o7 = o6 + ec.len();
            &&& s.len() == o7 + tail.len()
            &&& s[0] == (if data is Some {
                0x84u8
            } else {
                0x83u8
            })
            &&& forall|j: int| 0 <= j < 4 ==> s[1 + j] == req_entry_key()[j]
            &&& forall|j: int| 0 <= j < er.len() ==> s[5 + j] == er[j]
            &&& forall|j: int| 0 <= j < 3 ==> s[o3 + j] == id_entry_key()[j]
            &&& forall|j: int| 0 <= j < ei.len() ==> s[o4 + j] == ei[j]
            &&& forall|j: int| 0 <= j < 4 ==> s[o5 + j] == res_entry_key()[j]
            &&& forall|j: int| 0 <= j < ec.len() ==> s[o6 + j] == ec[j]
            &&& forall|j: int| 0 <= j < tail.len() ==> s[o7 + j] == tail[j]
        }),
{
    let s = spec_encode_response(req, id, res, data);
    let er = spec_uint_enc(req as u64);
    let ei = spec_uint_enc(id);
    let ec = spec_sint_enc(res);
    let tail: Seq<u8> = match data {
        Some(p) => data_entry_key() + p,
        None => Seq::empty(),
    };
    let o3 = 5 + er.len();
    let o4 = o3 + 3;
    let o5 = o4 + ei.len();
    let o6 = o5 + 4;
    let o7 = o6 + ec.len();
    assert forall|j: int| 0 <= j < 4 implies s[1 + j] == req_entry_key()[j] by {}
    assert forall|j: int| 0 <= j < er.len() implies s[5 + j] == er[j] by {}
    assert forall|j: int| 0 <= j < 3 implies s[o3 + j] == id_entry_key()[j] by {}
    assert forall|j: int| 0 <= j < ei.len() implies s[o4 + j] == ei[j] by {}
    assert forall|j: int| 0 <= j < 4 implies s[o5 + j] == res_entry_key()[j] by {}
    assert forall|j: int| 0 <= j < ec.len() implies s[o6 + j] == ec[j] by {}
    assert forall|j: int| 0 <= j < tail.len() implies s[o7 + j] == tail[j] by {}
}

/// A compact unsigned encoding embedded at `pos` is one MessagePack value
/// of exactly its own length.
proof fn lemma_uint_enc_is_value(s: Seq<u8>, pos: int, v: u64)
    requires
        0 <= pos,
        pos + spec_uint_enc(v).len() <= s.len(),
        forall|j: int| 0 <= j < spec_uint_enc(v).len() ==> s[pos + j] == spec_uint_enc(v)[j],
    ensures
        spec_value_end(s, pos) == pos + spec_uint_enc(v).len(),
{
    assert(s[pos + 0] == spec_uint_enc(v)[0]);
}

/// Where each piece of an encoded request lies in its bytes.
#[verifier::rlimit(100)]
proof fn lemma_request_layout(req: u32, id: u64, data: Option<Seq<u8>>)
    ensures
        ({
            let s = spec_encode_request(req, id, data);
            let er = spec_uint_enc(req as u64);
            let ei = spec_uint_enc(id);
            let tail: Seq<u8> = match data {
                Some(p) => data_entry_key() + p,
                None => Seq::empty(),
            };
            let o3 = 5 + er.len();
            let o4 = o3 + 3;
            let o5 = o4 + ei.len();
            &&& s.len() == o5 + tail.len()
            &&& s[0] == (if data is Some {
                0x83u8
            } else {
                0x82u8
            })
            &&& forall|j: int| 0 <= j < 4 ==> s[1 + j] == req_entry_key()[j]
            &&& forall|j: int| 0 <= j < er.len() ==> s[5 + j] == er[j]
            &&& forall|j: int| 0 <= j < 3 ==> s[o3 + j] == id_entry_key()[j]
            &&& forall|j: int| 0 <= j < ei.len() ==> s[o4 + j] == ei[j]
            &&& forall|j: int| 0 <= j < tail.len() ==> s[o5 + j] == tail[j]
        }),
{
    let s = spec_encode_request(req, id, data);
    let er = spec_uint_enc(req as u64);
    let ei = spec_uint_enc(id);
    let tail: Seq<u8> = match data {
        Some(p) => data_entry_key() + p,
        None => Seq::empty(),
    };
    let o3 = 5 + er.len();
    let o4 = o3 + 3;
    let o5 = o4 + ei.len();
    assert forall|j: int| 0 <= j < 4 implies s[1 + j] == req_entry_key()[j] by {}
    assert forall|j: int| 0 <= j < er.len() implies s[5 + j] == er[j] by {}
    assert forall|j: int| 0 <= j < 3 implies s[o3 + j] == id_entry_key()[j] by {}
    assert forall|j: int| 0 <= j < ei.len() implies s[o4 + j] == ei[j] by {}
    assert forall|j: int| 0 <= j < tail.len() implies s[o5 + j] == tail[j] by {}
}

/// Every encoded request is one well-formed MessagePack value, whenever
/// its payload is: the device's parser sees exactly one map and nothing
/// else.
#[verifier::rlimit(100)]
pub proof fn lemma_request_is_one_value(req: u32, id: u64, data: Option<Seq<u8>>)
    requires
        data matches Some(p) ==> crate::msgpack::is_msgpack_value(p),
    ensures
        crate::msgpack::is_msgpack_value(spec_encode_request(req, id, data)),
{
    let s = spec_encode_request(req, id, data);
    let er = spec_uint_enc(req as u64);
    let ei = spec_uint_enc(id);
    let o3: int = 5 + er.len() as int;
    let o4: int = o3 + 3;
    let o5: int = o4 + ei.len() as int;
    lemma_request_layout(req, id, data);
    // The four (or six) values after the map header, each one value long.
    assert(s[1] == 0xa3);
    assert(spec_value_end(s, 1) == 5);
    lemma_uint_enc_is_value(s, 5, req as u64);
    assert(s[o3] == 0xa2);
    assert(spec_value_end(s, o3) == o4);
    lemma_uint_enc_is_value(s, o4, id);
    match data {
        None => {
            assert(s.len() == o5);
            assert(crate::msgpack::spec_values_end(s, o5, 0) == o5);
            assert(crate::msgpack::spec_values_end(s, o4, 1) == o5);
            assert(crate::msgpack::spec_values_end(s, o3, 2) == o5);
            assert(crate::msgpack::spec_values_end(s, 5, 3) == o5);
            assert(crate::msgpack::spec_values_end(s, 1, 4) == o5);
            assert(spec_value_end(s, 0) == o5);
        },
        Some(p) => {
            assert(s[o5] == 0xa4);
            assert(spec_value_end(s, o5) == o5 + 5);
            let o6: int = o5 + 5;
            assert forall|i: int| 0 <= i < p.len() implies s[o6 + i] == p[i] by {
                assert(s[o5 + (i + 5)] == (data_entry_key() + p)[i + 5]);
            }
            crate::msgpack::lemma_value_end_window(p, s, 0, o6);
            assert(spec_value_end(s, o6) == s.len());
            let e: int = s.len() as int;
            assert(crate::msgpack::spec_values_end(s, e, 0) == e);
            assert(crate::msgpack::spec_values_end(s, o6, 1) == e);
            assert(crate::msgpack::spec_values_end(s, o5, 2) == e);
            assert(crate::msgpack::spec_values_end(s, o4, 3) == e);
            assert(crate::msgpack::spec_values_end(s, o3, 4) == e);
            assert(crate::msgpack::spec_values_end(s, 5, 5) == e);
            assert(crate::msgpack::spec_values_end(s, 1, 6) == e);
            assert(spec_value_end(s, 0) == e);
        },
    }
}

} // verus!
