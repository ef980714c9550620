//! Byte-level MessagePack primitives.
//!
//! The wire envelope is a MessagePack map, and the payload carried inside it
//! is one self-describing MessagePack value that the transport never
//! interprets.  This module defines where such a value ends
//! ([`spec_value_end`]), an executable skipper proved against it, and the
//! readers for the integer and string fields the envelope uses.

use vstd::prelude::*;
use crate::packet::DecodeError;

verus! {

/// Big-endian recomposition of two bytes.
pub open spec fn be16(s: Seq<u8>, i: int) -> u64 {
    (s[i] as u64) << 8 | (s[i + 1] as u64)
}

/// Big-endian recomposition of four bytes.
pub open spec fn be32(s: Seq<u8>, i: int) -> u64 {
    (s[i] as u64) << 24 | (s[i + 1] as u64) << 16 | (s[i + 2] as u64) << 8 | (s[i + 3] as u64)
}

/// Big-endian recomposition of eight bytes.
pub open spec fn be64(s: Seq<u8>, i: int) -> u64 {
    (s[i] as u64) << 56 | (s[i + 1] as u64) << 48 | (s[i + 2] as u64) << 40 | (s[i + 3] as u64)
        << 32 | (s[i + 4] as u64) << 24 | (s[i + 5] as u64) << 16 | (s[i + 6] as u64) << 8 | (s[i
        + 7] as u64)
}

/// `end` if it lies within `s`, otherwise the failure marker `-1`.
pub open spec fn bounded_end(s: Seq<u8>, end: int) -> int {
    if end <= s.len() {
        end
    } else {
        -1
    }
}

/// The position just past the single MessagePack value starting at `pos`
/// in `s`, or `-1` when no well-formed value starts there (truncated input,
/// or the reserved marker `0xc1`).
pub open spec fn spec_value_end(s: Seq<u8>, pos: int) -> int
    decreases s.len() - pos, 0int,
{
    if pos < 0 || pos >= s.len() {
        -1
    } else {
        let b = s[pos];
        if b < 0x80 {  // positive fixint
            pos + 1
        } else if b < 0x90 {  // fixmap
            spec_values_end(s, pos + 1, 2 * ((b - 0x80) as int))
        } else if b < 0xa0 {  // fixarray
            spec_values_end(s, pos + 1, (b - 0x90) as int)
        } else if b < 0xc0 {  // fixstr
            bounded_end(s, pos + 1 + (b - 0xa0) as int)
        } else if b == 0xc0 || b == 0xc2 || b == 0xc3 {  // nil, booleans
            pos + 1
        } else if b == 0xc1 {  // reserved, never used
            -1
        } else if b == 0xc4 || b == 0xd9 {  // bin8, str8
            if pos + 2 <= s.len() {
                bounded_end(s, pos + 2 + s[pos + 1] as int)
            } else {
                -1
            }
        } else if b == 0xc5 || b == 0xda {  // bin16, str16
            if pos + 3 <= s.len() {
                bounded_end(s, pos + 3 + be16(s, pos + 1) as int)
            } else {
                -1
            }
        } else if b == 0xc6 || b == 0xdb {  // bin32, str32
            if pos + 5 <= s.len() {
                bounded_end(s, pos + 5 + be32(s, pos + 1) as int)
            } else {
                -1
            }
        } else if b == 0xc7 {  // ext8
            if pos + 2 <= s.len() {
                bounded_end(s, pos + 3 + s[pos + 1] as int)
            } else {
                -1
            }
        } else if b == 0xc8 {  // ext16
            if pos + 3 <= s.len() {
                bounded_end(s, pos + 4 + be16(s, pos + 1) as int)
            } else {
                -1
            }
        } else if b == 0xc9 {  // ext32
            if pos + 5 <= s.len() {
                bounded_end(s, pos + 6 + be32(s, pos + 1) as int)
            } else {
                -1
            }
        } else if b == 0xca {  // float32
            bounded_end(s, pos + 5)
        } else if b == 0xcb {  // float64
            bounded_end(s, pos + 9)
        } else if b == 0xcc || b == 0xd0 {  // uint8, int8
            bounded_end(s, pos + 2)
        } else if b == 0xcd || b == 0xd1 {  // uint16, int16
            bounded_end(s, pos + 3)
        } else if b == 0xce || b == 0xd2 {  // uint32, int32
            bounded_end(s, pos + 5)
        } else if b == 0xcf || b == 0xd3 {  // uint64, int64
            bounded_end(s, pos + 9)
        } else if b == 0xd4 {  // fixext1
            bounded_end(s, pos + 3)
        } else if b == 0xd5 {  // fixext2
            bounded_end(s, pos + 4)
        } else if b == 0xd6 {  // fixext4
            bounded_end(s, pos + 6)
        } else if b == 0xd7 {  // fixext8
            bounded_end(s, pos + 10)
        } else if b == 0xd8 {  // fixext16
            bounded_end(s, pos + 18)
        } else if b == 0xdc {  // array16
            if pos + 3 <= s.len() {
                spec_values_end(s, pos + 3, be16(s, pos + 1) as int)
            } else {
                -1
            }
        } else if b == 0xdd {  // array32
            if pos + 5 <= s.len() {
                spec_values_end(s, pos + 5, be32(s, pos + 1) as int)
            } else {
                -1
            }
        } else if b == 0xde {  // map16
            if pos + 3 <= s.len() {
                spec_values_end(s, pos + 3, 2 * (be16(s, pos + 1) as int))
            } else {
                -1
            }
        } else if b == 0xdf {  // map32
            if pos + 5 <= s.len() {
                spec_values_end(s, pos + 5, 2 * (be32(s, pos + 1) as int))
            } else {
                -1
            }
        } else {  // 0xe0..=0xff: negative fixint
            pos + 1
        }
    }
}

/// The position just past `n` consecutive MessagePack values starting at
/// `pos`, or `-1` when one of them is malformed.
pub open spec fn spec_values_end(s: Seq<u8>, pos: int, n: int) -> int
    decreases s.len() - pos, n + 1,
{
    if n <= 0 {
        pos
    } else if pos < 0 || pos > s.len() {
        -1
    } else {
        let e = spec_value_end(s, pos);
        if e <= pos || e > s.len() {
            -1
        } else {
            spec_values_end(s, e, n - 1)
        }
    }
}

/// `s` is exactly one well-formed MessagePack value.
pub open spec fn is_msgpack_value(s: Seq<u8>) -> bool {
    spec_value_end(s, 0) == s.len()
}

/// A successful [`spec_value_end`] lands strictly past `pos` and within `s`.
pub proof fn lemma_value_end_bounds(s: Seq<u8>, pos: int)
    ensures
        spec_value_end(s, pos) == -1 || pos < spec_value_end(s, pos) <= s.len(),
    decreases s.len() - pos, 0int,
{
    if 0 <= pos < s.len() {
        let b = s[pos];
        if b < 0x80 {
        } else if b < 0x90 {
            lemma_values_end_bounds(s, pos + 1, 2 * ((b - 0x80) as int));
        } else if b < 0xa0 {
            lemma_values_end_bounds(s, pos + 1, (b - 0x90) as int);
        } else if b == 0xdc && pos + 3 <= s.len() {
            lemma_values_end_bounds(s, pos + 3, be16(s, pos + 1) as int);
        } else if b == 0xdd && pos + 5 <= s.len() {
            lemma_values_end_bounds(s, pos + 5, be32(s, pos + 1) as int);
        } else if b == 0xde && pos + 3 <= s.len() {
            lemma_values_end_bounds(s, pos + 3, 2 * (be16(s, pos + 1) as int));
        } else if b == 0xdf && pos + 5 <= s.len() {
            lemma_values_end_bounds(s, pos + 5, 2 * (be32(s, pos + 1) as int));
        }
    }
}

pub proof fn lemma_be16_bound(a: u64, b: u64)
    requires
        a <= 0xff,
        b <= 0xff,
    ensures
        a << 8 | b <= 0xffff,
{
    assert(a <= 0xff && b <= 0xff ==> a << 8 | b <= 0xffff) by (bit_vector);
}

pub proof fn lemma_be32_bound(a: u64, b: u64, c: u64, d: u64)
    requires
        a <= 0xff,
        b <= 0xff,
        c <= 0xff,
        d <= 0xff,
    ensures
        a << 24 | b << 16 | c << 8 | d <= 0xffff_ffff,
{
    assert(a <= 0xff && b <= 0xff && c <= 0xff && d <= 0xff ==> a << 24 | b << 16 | c << 8 | d
        <= 0xffff_ffff) by (bit_vector);
}

/// Executable form of [`spec_value_end`]: the end of the single MessagePack
/// value starting at `pos`, or `None` when no well-formed value starts there.
pub fn value_end(buf: &Vec<u8>, pos: usize) -> (r: Option<usize>)
    ensures
        match r {
            Some(e) => spec_value_end(buf@, pos as int) == e as int && pos < e <= buf@.len(),
            None => spec_value_end(buf@, pos as int) == -1,
        },
    decreases buf@.len() - pos,
{
    let len = buf.len();
    if pos >= len {
        return None;
    }
    let b = buf[pos];
    if b < 0x80 || b == 0xc0 || b == 0xc2 || b == 0xc3 || b >= 0xe0 {
        return Some(pos + 1);
    }
    if b == 0xc1 {
        return None;
    }
    if b < 0xa0 || b == 0xdc || b == 0xdd || b == 0xde || b == 0xdf {
        // All container markers: read the header, then skip the elements.
        let mut p: usize;
        let mut rem: u64;
        if b < 0x90 {
            p = pos + 1;
            rem = 2 * ((b - 0x80) as u64);
        } else if b < 0xa0 {
            p = pos + 1;
            rem = (b - 0x90) as u64;
        } else if b == 0xdc || b == 0xde {
            if len - pos < 3 {
                return None;
            }
            let c = (buf[pos + 1] as u64) << 8 | (buf[pos + 2] as u64);
            proof {
                lemma_be16_bound(buf@[pos + 1] as u64, buf@[pos + 2] as u64);
            }
            p = pos + 3;
            rem = if b == 0xde {
                2 * c
            } else {
                c
            };
        } else {
            if len - pos < 5 {
                return None;
            }
            let c = (buf[pos + 1] as u64) << 24 | (buf[pos + 2] as u64) << 16 | (buf[pos
                + 3] as u64) << 8 | (buf[pos + 4] as u64);
            proof {
                lemma_be32_bound(
                    buf@[pos + 1] as u64,
                    buf@[pos + 2] as u64,
                    buf@[pos + 3] as u64,
                    buf@[pos + 4] as u64,
                );
            }
            p = pos + 5;
            rem = if b == 0xdf {
                2 * c
            } else {
                c
            };
        }
        let ghost p0 = p;
        let ghost n0 = rem;
        proof {
            assert(spec_value_end(buf@, pos as int) == spec_values_end(
                buf@,
                p0 as int,
                n0 as int,
            ));
        }
        while rem > 0
            invariant
                pos < p <= buf@.len(),
                spec_values_end(buf@, p as int, rem as int) == spec_values_end(
                    buf@,
                    p0 as int,
                    n0 as int,
                ),
                spec_value_end(buf@, pos as int) == spec_values_end(buf@, p0 as int, n0 as int),
            decreases rem,
        {
            match value_end(buf, p) {
                None => {
                    return None;
                },
                Some(e) => {
                    p = e;
                    rem = rem - 1;
                },
            }
        }
        return Some(p);
    }
    if b < 0xc0 {
        // fixstr
        let l = (b - 0xa0) as usize;
        if l > len - (pos + 1) {
            return None;
        }
        return Some(pos + 1 + l);
    }
    if b == 0xc4 || b == 0xd9 {
        if len - pos < 2 {
            return None;
        }
        let l = buf[pos + 1] as usize;
        if l > len - (pos + 2) {
            return None;
        }
        return Some(pos + 2 + l);
    }
    if b == 0xc5 || b == 0xda {
        if len - pos < 3 {
            return None;
        }
        let l = (buf[pos + 1] as u64) << 8 | (buf[pos + 2] as u64);
        proof {
            lemma_be16_bound(buf@[pos + 1] as u64, buf@[pos + 2] as u64);
        }
        if l > (len - (pos + 3)) as u64 {
            return None;
        }
        return Some(pos + 3 + l as usize);
    }
    if b == 0xc6 || b == 0xdb {
        if len - pos < 5 {
            return None;
        }
        let l = (buf[pos + 1] as u64) << 24 | (buf[pos + 2] as u64) << 16 | (buf[pos + 3] as u64)
            << 8 | (buf[pos + 4] as u64);
        proof {
            lemma_be32_bound(
                buf@[pos + 1] as u64,
                buf@[pos + 2] as u64,
                buf@[pos + 3] as u64,
                buf@[pos + 4] as u64,
            );
        }
        if l > (len - (pos + 5)) as u64 {
            return None;
        }
        return Some(pos + 5 + l as usize);
    }
    if b == 0xc7 {
        if len - pos < 2 {
            return None;
        }
        let l = buf[pos + 1] as u64;
        if l + 1 > (len - (pos + 2)) as u64 {
            return None;
        }
        return Some(pos + 3 + l as usize);
    }
    if b == 0xc8 {
        if len - pos < 3 {
            return None;
        }
        let l = (buf[pos + 1] as u64) << 8 | (buf[pos + 2] as u64);
        proof {
            lemma_be16_bound(buf@[pos + 1] as u64, buf@[pos + 2] as u64);
        }
        if l + 1 > (len - (pos + 3)) as u64 {
            return None;
        }
        return Some(pos + 4 + l as usize);
    }
    if b == 0xc9 {
        if len - pos < 5 {
            return None;
        }
        let l = (buf[pos + 1] as u64) << 24 | (buf[pos + 2] as u64) << 16 | (buf[pos + 3] as u64)
            << 8 | (buf[pos + 4] as u64);
        proof {
            lemma_be32_bound(
                buf@[pos + 1] as u64,
                buf@[pos + 2] as u64,
                buf@[pos + 3] as u64,
                buf@[pos + 4] as u64,
            );
        }
        if l + 1 > (len - (pos + 5)) as u64 {
            return None;
        }
        return Some(pos + 6 + l as usize);
    }
    // Fixed-width scalars and fixext values.
    let w: usize = if b == 0xcc || b == 0xd0 {
        2
    } else if b == 0xcd || b == 0xd1 || b == 0xd4 {
        3
    } else if b == 0xca || b == 0xce || b == 0xd2 {
        5
    } else if b == 0xcb || b == 0xcf || b == 0xd3 {
        9
    } else if b == 0xd5 {
        4
    } else if b == 0xd6 {
        6
    } else if b == 0xd7 {
        10
    } else {
        18  // 0xd8, fixext16
    };
    if w > len - pos {
        return None;
    }
    Some(pos + w)
}

/// A successful [`spec_values_end`] lands at or past `pos` and within `s`.
pub proof fn lemma_values_end_bounds(s: Seq<u8>, pos: int, n: int)
    requires
        0 <= pos <= s.len(),
    ensures
        spec_values_end(s, pos, n) == -1 || pos <= spec_values_end(s, pos, n) <= s.len(),
    decreases s.len() - pos, n + 1,
{
    if n > 0 {
        let e = spec_value_end(s, pos);
        if pos < e <= s.len() {
            lemma_values_end_bounds(s, e, n - 1);
        }
    }
}

/// The unsigned integer starting at `pos`, under any of the MessagePack
/// unsigned encodings (positive fixint, uint8/16/32/64), with the position
/// just past it.
pub open spec fn spec_read_uint(s: Seq<u8>, pos: int) -> Result<(u64, int), DecodeError> {
    if pos < 0 || pos >= s.len() {
        Err(DecodeError::Truncated)
    } else {
        let b = s[pos];
        if b < 0x80 {
            Ok((b as u64, pos + 1))
        } else if b == 0xcc {
            if pos + 2 <= s.len() {
                Ok((s[pos + 1] as u64, pos + 2))
            } else {
                Err(DecodeError::Truncated)
            }
        } else if b == 0xcd {
            if pos + 3 <= s.len() {
                Ok((be16(s, pos + 1), pos + 3))
            } else {
                Err(DecodeError::Truncated)
            }
        } else if b == 0xce {
            if pos + 5 <= s.len() {
                Ok((be32(s, pos + 1), pos + 5))
            } else {
                Err(DecodeError::Truncated)
            }
        } else if b == 0xcf {
            if pos + 9 <= s.len() {
                Ok((be64(s, pos + 1), pos + 9))
            } else {
                Err(DecodeError::Truncated)
            }
        } else {
            Err(DecodeError::UnexpectedType)
        }
    }
}

/// The signed integer starting at `pos`, under any MessagePack integer
/// encoding whose value fits an `i32`, with the position just past it.
pub open spec fn spec_read_i32(s: Seq<u8>, pos: int) -> Result<(i32, int), DecodeError> {
    if pos < 0 || pos >= s.len() {
        Err(DecodeError::Truncated)
    } else {
        let b = s[pos];
        if b < 0x80 {
            Ok((b as i32, pos + 1))
        } else if b >= 0xe0 {
            Ok(((b - 256) as i32, pos + 1))
        } else if b == 0xcc {
            if pos + 2 <= s.len() {
                Ok((s[pos + 1] as i32, pos + 2))
            } else {
                Err(DecodeError::Truncated)
            }
        } else if b == 0xcd {
            if pos + 3 <= s.len() {
                Ok((be16(s, pos + 1) as i32, pos + 3))
            } else {
                Err(DecodeError::Truncated)
            }
        } else if b == 0xce || b == 0xcf {
            let w: int = if b == 0xce {
                5
            } else {
                9
            };
            if pos + w <= s.len() {
                let v: u64 = if b == 0xce {
                    be32(s, pos + 1)
                } else {
                    be64(s, pos + 1)
                };
                if v > 0x7fff_ffff {
                    Err(DecodeError::OutOfRange)
                } else {
                    Ok((v as i32, pos + w))
                }
            } else {
                Err(DecodeError::Truncated)
            }
        } else if b == 0xd0 {
            if pos + 2 <= s.len() {
                let c = s[pos + 1];
                Ok(
                    (
                        if c < 0x80 {
                            c as i32
                        } else {
                            (c - 256) as i32
                        },
                        pos + 2,
                    ),
                )
            } else {
                Err(DecodeError::Truncated)
            }
        } else if b == 0xd1 {
            if pos + 3 <= s.len() {
                let c = be16(s, pos + 1);
                Ok(
                    (
                        if c < 0x8000 {
                            c as i32
                        } else {
                            (c - 0x10000) as i32
                        },
                        pos + 3,
                    ),
                )
            } else {
                Err(DecodeError::Truncated)
            }
        } else if b == 0xd2 {
            if pos + 5 <= s.len() {
                let c = be32(s, pos + 1);
                Ok(
                    (
                        if c < 0x8000_0000 {
                            c as i32
                        } else {
                            (c - 0x1_0000_0000) as i32
                        },
                        pos + 5,
                    ),
                )
            } else {
                Err(DecodeError::Truncated)
            }
        } else if b == 0xd3 {
            if pos + 9 <= s.len() {
                let c = be64(s, pos + 1);
                if c < 0x8000_0000 {
                    Ok((c as i32, pos + 9))
                } else if c >= 0xffff_ffff_8000_0000 {
                    Ok(((c - 0x1_0000_0000_0000_0000) as i32, pos + 9))
                } else {
                    Err(DecodeError::OutOfRange)
                }
            } else {
                Err(DecodeError::Truncated)
            }
        } else {
            Err(DecodeError::UnexpectedType)
        }
    }
}

/// The string starting at `pos` (fixstr or str8/16/32): its content bytes
/// and the position just past them.
pub open spec fn spec_read_str(s: Seq<u8>, pos: int) -> Result<(Seq<u8>, int), DecodeError> {
    if pos < 0 || pos >= s.len() {
        Err(DecodeError::Truncated)
    } else {
        let b = s[pos];
        if 0xa0 <= b < 0xc0 {
            let l = (b - 0xa0) as int;
            if pos + 1 + l <= s.len() {
                Ok((s.subrange(pos + 1, pos + 1 + l), pos + 1 + l))
            } else {
                Err(DecodeError::Truncated)
            }
        } else if b == 0xd9 {
            if pos + 2 <= s.len() && pos + 2 + s[pos + 1] as int <= s.len() {
                Ok((s.subrange(pos + 2, pos + 2 + s[pos + 1] as int), pos + 2 + s[pos + 1] as int))
            } else {
                Err(DecodeError::Truncated)
            }
        } else if b == 0xda {
            if pos + 3 <= s.len() && pos + 3 + be16(s, pos + 1) as int <= s.len() {
                Ok(
                    (
                        s.subrange(pos + 3, pos + 3 + be16(s, pos + 1) as int),
                        pos + 3 + be16(s, pos + 1) as int,
                    ),
                )
            } else {
                Err(DecodeError::Truncated)
            }
        } else if b == 0xdb {
            if pos + 5 <= s.len() && pos + 5 + be32(s, pos + 1) as int <= s.len() {
                Ok(
                    (
                        s.subrange(pos + 5, pos + 5 + be32(s, pos + 1) as int),
                        pos + 5 + be32(s, pos + 1) as int,
                    ),
                )
            } else {
                Err(DecodeError::Truncated)
            }
        } else {
            Err(DecodeError::UnexpectedType)
        }
    }
}

/// Executable form of [`spec_read_uint`].
pub fn read_uint(buf: &Vec<u8>, pos: usize) -> (r: Result<(u64, usize), DecodeError>)
    ensures
        match r {
            Ok((v, e)) => spec_read_uint(buf@, pos as int) == Ok::<(u64, int), DecodeError>(
                (v, e as int),
            ) && pos < e <= buf@.len(),
            Err(err) => spec_read_uint(buf@, pos as int) == Err::<(u64, int), DecodeError>(err),
        },
{
    let len = buf.len();
    if pos >= len {
        return Err(DecodeError::Truncated);
    }
    let b = buf[pos];
    if b < 0x80 {
        Ok(((b as u64), pos + 1))
    } else if b == 0xcc {
        if len - pos < 2 {
            return Err(DecodeError::Truncated);
        }
        Ok((buf[pos + 1] as u64, pos + 2))
    } else if b == 0xcd {
        if len - pos < 3 {
            return Err(DecodeError::Truncated);
        }
        Ok(((buf[pos + 1] as u64) << 8 | (buf[pos + 2] as u64), pos + 3))
    } else if b == 0xce {
        if len - pos < 5 {
            return Err(DecodeError::Truncated);
        }
        Ok(
            (
                (buf[pos + 1] as u64) << 24 | (buf[pos + 2] as u64) << 16 | (buf[pos + 3] as u64)
                    << 8 | (buf[pos + 4] as u64),
                pos + 5,
            ),
        )
    } else if b == 0xcf {
        if len - pos < 9 {
            return Err(DecodeError::Truncated);
        }
        Ok(
            (
                (buf[pos + 1] as u64) << 56 | (buf[pos + 2] as u64) << 48 | (buf[pos + 3] as u64)
                    << 40 | (buf[pos + 4] as u64) << 32 | (buf[pos + 5] as u64) << 24 | (buf[pos
                    + 6] as u64) << 16 | (buf[pos + 7] as u64) << 8 | (buf[pos + 8] as u64),
                pos + 9,
            ),
        )
    } else {
        Err(DecodeError::UnexpectedType)
    }
}

/// Executable form of [`spec_read_i32`].
pub fn read_i32(buf: &Vec<u8>, pos: usize) -> (r: Result<(i32, usize), DecodeError>)
    ensures
        match r {
            Ok((v, e)) => spec_read_i32(buf@, pos as int) == Ok::<(i32, int), DecodeError>(
                (v, e as int),
            ) && pos < e <= buf@.len(),
            Err(err) => spec_read_i32(buf@, pos as int) == Err::<(i32, int), DecodeError>(err),
        },
{
    let len = buf.len();
    if pos >= len {
        return Err(DecodeError::Truncated);
    }
    let b = buf[pos];
    if b < 0x80 {
        Ok((b as i32, pos + 1))
    } else if b >= 0xe0 {
        Ok(((b as i32) - 256, pos + 1))
    } else if b == 0xcc {
        if len - pos < 2 {
            return Err(DecodeError::Truncated);
        }
        Ok((buf[pos + 1] as i32, pos + 2))
    } else if b == 0xcd {
        if len - pos < 3 {
            return Err(DecodeError::Truncated);
        }
        let c = (buf[pos + 1] as u64) << 8 | (buf[pos + 2] as u64);
        proof {
            lemma_be16_bound(buf@[pos + 1] as u64, buf@[pos + 2] as u64);
        }
        Ok((c as i32, pos + 3))
    } else if b == 0xce || b == 0xcf {
        let v: u64;
        let e: usize;
        if b == 0xce {
            if len - pos < 5 {
                return Err(DecodeError::Truncated);
            }
            v = (buf[pos + 1] as u64) << 24 | (buf[pos + 2] as u64) << 16 | (buf[pos + 3] as u64)
                << 8 | (buf[pos + 4] as u64);
            e = pos + 5;
        } else {
            if len - pos < 9 {
                return Err(DecodeError::Truncated);
            }
            v = (buf[pos + 1] as u64) << 56 | (buf[pos + 2] as u64) << 48 | (buf[pos + 3] as u64)
                << 40 | (buf[pos + 4] as u64) << 32 | (buf[pos + 5] as u64) << 24 | (buf[pos
                + 6] as u64) << 16 | (buf[pos + 7] as u64) << 8 | (buf[pos + 8] as u64);
            e = pos + 9;
        }
        if v > 0x7fff_ffff {
            Err(DecodeError::OutOfRange)
        } else {
            Ok((v as i32, e))
        }
    } else if b == 0xd0 {
        if len - pos < 2 {
            return Err(DecodeError::Truncated);
        }
        let c = buf[pos + 1];
        let v: i32 = if c < 0x80 {
            c as i32
        } else {
            (c as i32) - 256
        };
        Ok((v, pos + 2))
    } else if b == 0xd1 {
        if len - pos < 3 {
            return Err(DecodeError::Truncated);
        }
        let c = (buf[pos + 1] as u64) << 8 | (buf[pos + 2] as u64);
        proof {
            lemma_be16_bound(buf@[pos + 1] as u64, buf@[pos + 2] as u64);
        }
        let v: i32 = if c < 0x8000 {
            c as i32
        } else {
            (((c as i64) - 0x1_0000) as i32)
        };
        Ok((v, pos + 3))
    } else if b == 0xd2 {
        if len - pos < 5 {
            return Err(DecodeError::Truncated);
        }
        let c = (buf[pos + 1] as u64) << 24 | (buf[pos + 2] as u64) << 16 | (buf[pos + 3] as u64)
            << 8 | (buf[pos + 4] as u64);
        proof {
            lemma_be32_bound(
                buf@[pos + 1] as u64,
                buf@[pos + 2] as u64,
                buf@[pos + 3] as u64,
                buf@[pos + 4] as u64,
            );
        }
        let v: i32 = if c < 0x8000_0000 {
            c as i32
        } else {
            (((c as i64) - 0x1_0000_0000) as i32)
        };
        Ok((v, pos + 5))
    } else if b == 0xd3 {
        if len - pos < 9 {
            return Err(DecodeError::Truncated);
        }
        let c = (buf[pos + 1] as u64) << 56 | (buf[pos + 2] as u64) << 48 | (buf[pos + 3] as u64)
            << 40 | (buf[pos + 4] as u64) << 32 | (buf[pos + 5] as u64) << 24 | (buf[pos
            + 6] as u64) << 16 | (buf[pos + 7] as u64) << 8 | (buf[pos + 8] as u64);
        if c < 0x8000_0000 {
            Ok((c as i32, pos + 9))
        } else if c >= 0xffff_ffff_8000_0000 {
            let mag = (u64::MAX - c) + 1;
            Ok((-((mag as i64)) as i32, pos + 9))
        } else {
            Err(DecodeError::OutOfRange)
        }
    } else {
        Err(DecodeError::UnexpectedType)
    }
}

/// Executable form of [`spec_read_str`]: on success, the content is
/// `buf[start..end]` and the string's encoding ends at `end`.
pub fn read_str(buf: &Vec<u8>, pos: usize) -> (r: Result<(usize, usize), DecodeError>)
    ensures
        match r {
            Ok((start, end)) => pos < start <= end <= buf@.len() && spec_read_str(
                buf@,
                pos as int,
            ) == Ok::<(Seq<u8>, int), DecodeError>(
                (buf@.subrange(start as int, end as int), end as int),
            ),
            Err(err) => spec_read_str(buf@, pos as int) == Err::<(Seq<u8>, int), DecodeError>(err),
        },
{
    let len = buf.len();
    if pos >= len {
        return Err(DecodeError::Truncated);
    }
    let b = buf[pos];
    if 0xa0 <= b && b < 0xc0 {
        let l = (b - 0xa0) as usize;
        if l > len - (pos + 1) {
            return Err(DecodeError::Truncated);
        }
        Ok((pos + 1, pos + 1 + l))
    } else if b == 0xd9 {
        if len - pos < 2 {
            return Err(DecodeError::Truncated);
        }
        let l = buf[pos + 1] as usize;
        if l > len - (pos + 2) {
            return Err(DecodeError::Truncated);
        }
        Ok((pos + 2, pos + 2 + l))
    } else if b == 0xda {
        if len - pos < 3 {
            return Err(DecodeError::Truncated);
        }
        let l = (buf[pos + 1] as u64) << 8 | (buf[pos + 2] as u64);
        proof {
            lemma_be16_bound(buf@[pos + 1] as u64, buf@[pos + 2] as u64);
        }
        if l > (len - (pos + 3)) as u64 {
            return Err(DecodeError::Truncated);
        }
        Ok((pos + 3, pos + 3 + l as usize))
    } else if b == 0xdb {
        if len - pos < 5 {
            return Err(DecodeError::Truncated);
        }
        let l = (buf[pos + 1] as u64) << 24 | (buf[pos + 2] as u64) << 16 | (buf[pos + 3] as u64)
            << 8 | (buf[pos + 4] as u64);
        proof {
            lemma_be32_bound(
                buf@[pos + 1] as u64,
                buf@[pos + 2] as u64,
                buf@[pos + 3] as u64,
                buf@[pos + 4] as u64,
            );
        }
        if l > (len - (pos + 5)) as u64 {
            return Err(DecodeError::Truncated);
        }
        Ok((pos + 5, pos + 5 + l as usize))
    } else {
        Err(DecodeError::UnexpectedType)
    }
}

/// Where a value ends depends only on its own bytes: if the
/// value starting at `pos` in `s` reappear at `q` in `t`, a value starts at
/// `q` in `t` and ends after the same number of bytes.
pub proof fn lemma_value_end_window(s: Seq<u8>, t: Seq<u8>, pos: int, q: int)
    requires
        0 <= pos,
        0 <= q,
        spec_value_end(s, pos) >= 0,
        q + (spec_value_end(s, pos) - pos) <= t.len(),
        forall|i: int| pos <= i < spec_value_end(s, pos) ==> t[q + i - pos] == s[i],
    ensures
        spec_value_end(t, q) == q + (spec_value_end(s, pos) - pos),
    decreases s.len() - pos, 0int,
{
    let e = spec_value_end(s, pos);
    lemma_value_end_bounds(s, pos);
    assert(t[q + pos - pos] == s[pos]);
    let b = s[pos];
    if b < 0x80 || b == 0xc0 || b == 0xc2 || b == 0xc3 || b >= 0xe0 {
    } else if b < 0x90 {
        let n = 2 * ((b - 0x80) as int);
        lemma_values_end_bounds(s, pos + 1, n);
        assert forall|i: int| pos + 1 <= i < e implies t[(q + 1) + i - (pos + 1)] == s[i] by {
            assert(t[q + i - pos] == s[i]);
        }
        lemma_values_end_window(s, t, pos + 1, q + 1, n);
    } else if b < 0xa0 {
        let n = (b - 0x90) as int;
        lemma_values_end_bounds(s, pos + 1, n);
        assert forall|i: int| pos + 1 <= i < e implies t[(q + 1) + i - (pos + 1)] == s[i] by {
            assert(t[q + i - pos] == s[i]);
        }
        lemma_values_end_window(s, t, pos + 1, q + 1, n);
    } else if b < 0xc0 {
    } else if b == 0xc4 || b == 0xd9 || b == 0xc7 {
        assert(t[q + (pos + 1) - pos] == s[pos + 1]);
    } else if b == 0xc5 || b == 0xda || b == 0xc8 {
        assert(t[q + (pos + 1) - pos] == s[pos + 1]);
        assert(t[q + (pos + 2) - pos] == s[pos + 2]);
        assert(be16(t, q + 1) == be16(s, pos + 1));
    } else if b == 0xc6 || b == 0xdb || b == 0xc9 {
        assert(t[q + (pos + 1) - pos] == s[pos + 1]);
        assert(t[q + (pos + 2) - pos] == s[pos + 2]);
        assert(t[q + (pos + 3) - pos] == s[pos + 3]);
        assert(t[q + (pos + 4) - pos] == s[pos + 4]);
        assert(be32(t, q + 1) == be32(s, pos + 1));
    } else if b == 0xdc || b == 0xde {
        let n: int = if b == 0xde {
            2 * (be16(s, pos + 1) as int)
        } else {
            be16(s, pos + 1) as int
        };
        lemma_values_end_bounds(s, pos + 3, n);
        assert(t[q + (pos + 1) - pos] == s[pos + 1]);
        assert(t[q + (pos + 2) - pos] == s[pos + 2]);
        assert(be16(t, q + 1) == be16(s, pos + 1));
        assert forall|i: int| pos + 3 <= i < e implies t[(q + 3) + i - (pos + 3)] == s[i] by {
            assert(t[q + i - pos] == s[i]);
        }
        lemma_values_end_window(s, t, pos + 3, q + 3, n);
    } else if b == 0xdd || b == 0xdf {
        let n: int = if b == 0xdf {
            2 * (be32(s, pos + 1) as int)
        } else {
            be32(s, pos + 1) as int
        };
        lemma_values_end_bounds(s, pos + 5, n);
        assert(t[q + (pos + 1) - pos] == s[pos + 1]);
        assert(t[q + (pos + 2) - pos] == s[pos + 2]);
        assert(t[q + (pos + 3) - pos] == s[pos + 3]);
        assert(t[q + (pos + 4) - pos] == s[pos + 4]);
        assert(be32(t, q + 1) == be32(s, pos + 1));
        assert forall|i: int| pos + 5 <= i < e implies t[(q + 5) + i - (pos + 5)] == s[i] by {
            assert(t[q + i - pos] == s[i]);
        }
        lemma_values_end_window(s, t, pos + 5, q + 5, n);
    }
}

/// The analogue of [`lemma_value_end_window`] for a run of `n` values.
pub proof fn lemma_values_end_window(s: Seq<u8>, t: Seq<u8>, pos: int, q: int, n: int)
    requires
        0 <= pos <= s.len(),
        0 <= q,
        spec_values_end(s, pos, n) >= 0,
        q + (spec_values_end(s, pos, n) - pos) <= t.len(),
        forall|i: int| pos <= i < spec_values_end(s, pos, n) ==> t[q + i - pos] == s[i],
    ensures
        spec_values_end(t, q, n) == q + (spec_values_end(s, pos, n) - pos),
    decreases s.len() - pos, n + 1,
{
    if n > 0 {
        let e = spec_values_end(s, pos, n);
        let e1 = spec_value_end(s, pos);
        lemma_value_end_bounds(s, pos);
        lemma_values_end_bounds(s, e1, n - 1);
        assert forall|i: int| pos <= i < e1 implies t[q + i - pos] == s[i] by {
            assert(t[q + i - pos] == s[i]);
        }
        lemma_value_end_window(s, t, pos, q);
        let q1 = q + (e1 - pos);
        assert forall|i: int| e1 <= i < e implies t[q1 + i - e1] == s[i] by {
            assert(t[q + i - pos] == s[i]);
        }
        lemma_values_end_window(s, t, e1, q1, n - 1);
    }
}

} // verus!
