//! The binary wire codec: client commands, server messages and stored
//! publications as self-describing, length-delimited binary objects (a
//! fixed CBOR subset). Every value has exactly one encoding: length
//! headers are minimal, so a decoder accepts a frame exactly when it is
//! the encoding of some value, and re-encoding what was decoded yields
//! the original frame byte for byte.
//!
//! Layout: a message is a CBOR array `[tag, field, ...]` with an unsigned
//! tag per variant; an identifier is a 16-byte byte string (big-endian);
//! a payload is a byte string; lists are CBOR arrays; a stored
//! publication is the array `[publication_id, subscription_id, data]`.

use vstd::prelude::*;
use crate::ids::Uid;
use crate::pubsub::{Issue, Publication, PublicationView};
use crate::websocket::{ClientCommand, ClientCommandView};
use crate::{ServerMessage, ServerMessageView};

verus! {

/// `chunk` occurs in `s` at offset `pos`.
pub open spec fn chunk_at(s: Seq<u8>, pos: int, chunk: Seq<u8>) -> bool {
    &&& 0 <= pos
    &&& pos + chunk.len() <= s.len()
    &&& s.subrange(pos, pos + chunk.len()) == chunk
}

pub proof fn lemma_chunk_index(s: Seq<u8>, pos: int, c: Seq<u8>, i: int)
    requires
        chunk_at(s, pos, c),
        0 <= i < c.len(),
    ensures
        s[pos + i] == c[i],
{
    assert(s.subrange(pos, pos + c.len())[i] == s[pos + i]);
}

pub proof fn lemma_chunk_concat(s: Seq<u8>, pos: int, a: Seq<u8>, b: Seq<u8>)
    ensures
        chunk_at(s, pos, a + b) <==> (chunk_at(s, pos, a) && chunk_at(s, pos + a.len(), b)),
{
    if chunk_at(s, pos, a + b) {
        assert(s.subrange(pos, pos + a.len()) =~= a) by {
            assert forall|i: int| 0 <= i < a.len() implies s.subrange(pos, pos + a.len())[i]
                == a[i] by {
                lemma_chunk_index(s, pos, a + b, i);
                assert((a + b)[i] == a[i]);
            }
        }
        assert(s.subrange(pos + a.len(), pos + a.len() + b.len()) =~= b) by {
            assert forall|i: int|
                0 <= i < b.len() implies s.subrange(
                pos + a.len(),
                pos + a.len() + b.len(),
            )[i] == b[i] by {
                lemma_chunk_index(s, pos, a + b, a.len() + i);
                assert((a + b)[a.len() + i] == b[i]);
            }
        }
    }
    if chunk_at(s, pos, a) && chunk_at(s, pos + a.len(), b) {
        assert(s.subrange(pos, pos + (a + b).len()) =~= a + b) by {
            assert forall|i: int| 0 <= i < (a + b).len() implies s.subrange(
                pos,
                pos + (a + b).len(),
            )[i] == (a + b)[i] by {
                if i < a.len() {
                    lemma_chunk_index(s, pos, a, i);
                } else {
                    lemma_chunk_index(s, pos + a.len(), b, i - a.len());
                }
            }
        }
    }
}

/// The header introducing a CBOR item of the given major type and length
/// (or value, for unsigned integers): the shortest form that carries `n`.
#[verifier::opaque]
pub open spec fn hdr(major: u8, n: u64) -> Seq<u8> {
    let m = (major << 5) as u8;
    if n < 24 {
        seq![(m | (n as u8)) as u8]
    } else if n < 256 {
        seq![(m | 24) as u8, n as u8]
    } else if n < 65536 {
        seq![(m | 25) as u8, (((n >> 8) & 0xff) as u8), ((n & 0xff) as u8)]
    } else if n < 4294967296 {
        seq![
            (m | 26) as u8,
            (((n >> 24) & 0xff) as u8),
            (((n >> 16) & 0xff) as u8),
            (((n >> 8) & 0xff) as u8),
            ((n & 0xff) as u8),
        ]
    } else {
        seq![
            (m | 27) as u8,
            (((n >> 56) & 0xff) as u8),
            (((n >> 48) & 0xff) as u8),
            (((n >> 40) & 0xff) as u8),
            (((n >> 32) & 0xff) as u8),
            (((n >> 24) & 0xff) as u8),
            (((n >> 16) & 0xff) as u8),
            (((n >> 8) & 0xff) as u8),
            ((n & 0xff) as u8),
        ]
    }
}

/// A header of the given major type and value occurs at `pos`.
pub open spec fn hdr_at(s: Seq<u8>, pos: int, major: u8, n: u64) -> bool {
    chunk_at(s, pos, hdr(major, n))
}

proof fn lemma_mask_byte(x: u64)
    ensures
        x & 0xff < 256,
        (x >> 8) & 0xff < 256,
        (x >> 16) & 0xff < 256,
        (x >> 24) & 0xff < 256,
        (x >> 32) & 0xff < 256,
        (x >> 40) & 0xff < 256,
        (x >> 48) & 0xff < 256,
        (x >> 56) & 0xff < 256,
{
    assert(x & 0xff < 256 && (x >> 8) & 0xff < 256 && (x >> 16) & 0xff < 256 && (x >> 24) & 0xff
        < 256 && (x >> 32) & 0xff < 256 && (x >> 40) & 0xff < 256 && (x >> 48) & 0xff < 256 && (x
        >> 56) & 0xff < 256) by (bit_vector);
}

proof fn lemma_hdr_first_byte(major: u8, x: u8)
    requires
        major < 8,
        x < 32,
    ensures
        (((major << 5) as u8) | x) >> 5 == major,
        (((major << 5) as u8) | x) & 0x1f == x,
{
    assert(major < 8 && x < 32 ==> ((((major << 5) as u8) | x) >> 5 == major && (((major << 5)
        as u8) | x) & 0x1f == x)) by (bit_vector);
}

proof fn lemma_byte_split(b: u8)
    ensures
        b >> 5 < 8,
        b & 0x1f < 32,
        b == (((b >> 5) << 5) as u8) | (b & 0x1f),
{
    assert(b >> 5 < 8 && b & 0x1f < 32 && b == (((b >> 5) << 5) as u8) | (b & 0x1f))
        by (bit_vector);
}

proof fn lemma_split16(n: u64)
    requires
        n < 65536,
    ensures
        n == (((n >> 8) & 0xff) << 8) | (n & 0xff),
{
    assert(n < 65536 ==> n == (((n >> 8) & 0xff) << 8) | (n & 0xff)) by (bit_vector);
}

proof fn lemma_recomp16(b0: u64, b1: u64)
    requires
        b0 < 256,
        b1 < 256,
    ensures
        (((b0 << 8) | b1) >> 8) & 0xff == b0,
        ((b0 << 8) | b1) & 0xff == b1,
        (b0 << 8) | b1 < 65536,
{
    assert(b0 < 256 && b1 < 256 ==> ((((b0 << 8) | b1) >> 8) & 0xff == b0 && ((b0 << 8) | b1)
        & 0xff == b1 && (b0 << 8) | b1 < 65536)) by (bit_vector);
}

proof fn lemma_split32(n: u64)
    requires
        n < 4294967296,
    ensures
        n == (((n >> 24) & 0xff) << 24) | (((n >> 16) & 0xff) << 16) | (((n >> 8) & 0xff) << 8) | (
        n & 0xff),
{
    assert(n < 4294967296 ==> n == (((n >> 24) & 0xff) << 24) | (((n >> 16) & 0xff) << 16) | (((n
        >> 8) & 0xff) << 8) | (n & 0xff)) by (bit_vector);
}

proof fn lemma_recomp32(b0: u64, b1: u64, b2: u64, b3: u64)
    requires
        b0 < 256,
        b1 < 256,
        b2 < 256,
        b3 < 256,
    ensures
        ((((b0 << 24) | (b1 << 16) | (b2 << 8) | b3) >> 24) & 0xff) == b0,
        ((((b0 << 24) | (b1 << 16) | (b2 << 8) | b3) >> 16) & 0xff) == b1,
        ((((b0 << 24) | (b1 << 16) | (b2 << 8) | b3) >> 8) & 0xff) == b2,
        (((b0 << 24) | (b1 << 16) | (b2 << 8) | b3) & 0xff) == b3,
        (b0 << 24) | (b1 << 16) | (b2 << 8) | b3 < 4294967296,
{
    assert((b0 < 256 && b1 < 256 && b2 < 256 && b3 < 256) ==> (((((b0 << 24) | (b1 << 16) | (b2
        << 8) | b3) >> 24) & 0xff) == b0 && ((((b0 << 24) | (b1 << 16) | (b2 << 8) | b3) >> 16)
        & 0xff) == b1 && ((((b0 << 24) | (b1 << 16) | (b2 << 8) | b3) >> 8) & 0xff) == b2 && (((b0
        << 24) | (b1 << 16) | (b2 << 8) | b3) & 0xff) == b3 && (b0 << 24) | (b1 << 16) | (b2 << 8)
        | b3 < 4294967296)) by (bit_vector);
}

proof fn lemma_split64(n: u64)
    ensures
        n == (((n >> 56) & 0xff) << 56) | (((n >> 48) & 0xff) << 48) | (((n >> 40) & 0xff) << 40)
            | (((n >> 32) & 0xff) << 32) | (((n >> 24) & 0xff) << 24) | (((n >> 16) & 0xff) << 16)
            | (((n >> 8) & 0xff) << 8) | (n & 0xff),
{
    assert(n == (((n >> 56) & 0xff) << 56) | (((n >> 48) & 0xff) << 48) | (((n >> 40) & 0xff)
        << 40) | (((n >> 32) & 0xff) << 32) | (((n >> 24) & 0xff) << 24) | (((n >> 16) & 0xff)
        << 16) | (((n >> 8) & 0xff) << 8) | (n & 0xff)) by (bit_vector);
}

proof fn lemma_recomp64(b0: u64, b1: u64, b2: u64, b3: u64, b4: u64, b5: u64, b6: u64, b7: u64)
    requires
        b0 < 256,
        b1 < 256,
        b2 < 256,
        b3 < 256,
        b4 < 256,
        b5 < 256,
        b6 < 256,
        b7 < 256,
    ensures
        ((((b0 << 56) | (b1 << 48) | (b2 << 40) | (b3 << 32) | (b4 << 24) | (b5 << 16) | (b6 << 8)
            | b7) >> 56) & 0xff) == b0,
        ((((b0 << 56) | (b1 << 48) | (b2 << 40) | (b3 << 32) | (b4 << 24) | (b5 << 16) | (b6 << 8)
            | b7) >> 48) & 0xff) == b1,
        ((((b0 << 56) | (b1 << 48) | (b2 << 40) | (b3 << 32) | (b4 << 24) | (b5 << 16) | (b6 << 8)
            | b7) >> 40) & 0xff) == b2,
        ((((b0 << 56) | (b1 << 48) | (b2 << 40) | (b3 << 32) | (b4 << 24) | (b5 << 16) | (b6 << 8)
            | b7) >> 32) & 0xff) == b3,
        ((((b0 << 56) | (b1 << 48) | (b2 << 40) | (b3 << 32) | (b4 << 24) | (b5 << 16) | (b6 << 8)
            | b7) >> 24) & 0xff) == b4,
        ((((b0 << 56) | (b1 << 48) | (b2 << 40) | (b3 << 32) | (b4 << 24) | (b5 << 16) | (b6 << 8)
            | b7) >> 16) & 0xff) == b5,
        ((((b0 << 56) | (b1 << 48) | (b2 << 40) | (b3 << 32) | (b4 << 24) | (b5 << 16) | (b6 << 8)
            | b7) >> 8) & 0xff) == b6,
        (((b0 << 56) | (b1 << 48) | (b2 << 40) | (b3 << 32) | (b4 << 24) | (b5 << 16) | (b6 << 8)
            | b7) & 0xff) == b7,
{
    assert((b0 < 256 && b1 < 256 && b2 < 256 && b3 < 256 && b4 < 256 && b5 < 256 && b6 < 256 && b7
        < 256) ==> (((((b0 << 56) | (b1 << 48) | (b2 << 40) | (b3 << 32) | (b4 << 24) | (b5 << 16)
        | (b6 << 8) | b7) >> 56) & 0xff) == b0 && ((((b0 << 56) | (b1 << 48) | (b2 << 40) | (b3
        << 32) | (b4 << 24) | (b5 << 16) | (b6 << 8) | b7) >> 48) & 0xff) == b1 && ((((b0 << 56) | (
    b1 << 48) | (b2 << 40) | (b3 << 32) | (b4 << 24) | (b5 << 16) | (b6 << 8) | b7) >> 40) & 0xff)
        == b2 && ((((b0 << 56) | (b1 << 48) | (b2 << 40) | (b3 << 32) | (b4 << 24) | (b5 << 16) | (
    b6 << 8) | b7) >> 32) & 0xff) == b3 && ((((b0 << 56) | (b1 << 48) | (b2 << 40) | (b3 << 32) | (
    b4 << 24) | (b5 << 16) | (b6 << 8) | b7) >> 24) & 0xff) == b4 && ((((b0 << 56) | (b1 << 48) | (
    b2 << 40) | (b3 << 32) | (b4 << 24) | (b5 << 16) | (b6 << 8) | b7) >> 16) & 0xff) == b5 && ((((
    b0 << 56) | (b1 << 48) | (b2 << 40) | (b3 << 32) | (b4 << 24) | (b5 << 16) | (b6 << 8) | b7)
        >> 8) & 0xff) == b6 && (((b0 << 56) | (b1 << 48) | (b2 << 40) | (b3 << 32) | (b4 << 24) | (
    b5 << 16) | (b6 << 8) | b7) & 0xff) == b7)) by (bit_vector);
}

/// Appends the minimal header for `n` under the given major type.
pub fn push_hdr(out: &mut Vec<u8>, major: u8, n: u64)
    requires
        major < 8,
    ensures
        final(out)@ == old(out)@ + hdr(major, n),
{
    let m: u8 = major << 5;
    proof {
        reveal(hdr);
        lemma_mask_byte(n);
    }
    if n < 24 {
        out.push(m | (n as u8));
    } else if n < 256 {
        out.push(m | 24);
        out.push(n as u8);
    } else if n < 65536 {
        out.push(m | 25);
        out.push(((n >> 8) & 0xff) as u8);
        out.push((n & 0xff) as u8);
    } else if n < 4294967296 {
        out.push(m | 26);
        out.push(((n >> 24) & 0xff) as u8);
        out.push(((n >> 16) & 0xff) as u8);
        out.push(((n >> 8) & 0xff) as u8);
        out.push((n & 0xff) as u8);
    } else {
        out.push(m | 27);
        out.push(((n >> 56) & 0xff) as u8);
        out.push(((n >> 48) & 0xff) as u8);
        out.push(((n >> 40) & 0xff) as u8);
        out.push(((n >> 32) & 0xff) as u8);
        out.push(((n >> 24) & 0xff) as u8);
        out.push(((n >> 16) & 0xff) as u8);
        out.push(((n >> 8) & 0xff) as u8);
        out.push((n & 0xff) as u8);
    }
    proof {
        assert(final(out)@ =~= old(out)@ + hdr(major, n));
    }
}

/// Reads a minimal header of the given major type at `pos`. Returns the
/// carried value and the offset after the header; fails exactly when no
/// value's minimal header occurs at `pos`.
pub fn dec_hdr(frame: &Vec<u8>, pos: usize, major: u8) -> (r: Option<(u64, usize)>)
    requires
        major < 8,
        pos <= frame@.len(),
    ensures
        r matches Some((n, q)) ==> pos < q <= frame@.len() && q == pos + hdr(major, n).len()
            && hdr_at(frame@, pos as int, major, n),
        r is None ==> forall|n: u64| !hdr_at(frame@, pos as int, major, n),
{
    proof {
        reveal(hdr);
    }
    let len = frame.len();
    if len - pos < 1 {
        proof {
            assert forall|n: u64| !hdr_at(frame@, pos as int, major, n) by {
                assert(hdr(major, n).len() >= 1);
            }
        }
        return None;
    }
    let ib = frame[pos];
    let majr = ib >> 5;
    let ai = ib & 0x1f;
    proof {
        lemma_byte_split(ib);
    }
    if majr != major {
        proof {
            assert forall|n: u64| !hdr_at(frame@, pos as int, major, n) by {
                if hdr_at(frame@, pos as int, major, n) {
                    lemma_chunk_index(frame@, pos as int, hdr(major, n), 0);
                    let x: u8 = if n < 24 {
                        n as u8
                    } else if n < 256 {
                        24
                    } else if n < 65536 {
                        25
                    } else if n < 4294967296 {
                        26
                    } else {
                        27
                    };
                    assert(hdr(major, n)[0] == (((major << 5) as u8) | x));
                    lemma_hdr_first_byte(major, x);
                }
            }
        }
        return None;
    }
    if ai < 24 {
        let n = ai as u64;
        proof {
            lemma_hdr_first_byte(major, ai);
            assert(hdr(major, n) =~= seq![ib]);
            assert(frame@.subrange(pos as int, pos as int + 1) =~= seq![ib]);
        }
        return Some((n, pos + 1));
    }
    if ai == 24 {
        if len - pos < 2 {
            proof {
                assert forall|n: u64| !hdr_at(frame@, pos as int, major, n) by {
                    if hdr_at(frame@, pos as int, major, n) {
                        lemma_chunk_index(frame@, pos as int, hdr(major, n), 0);
                        if n < 24 {
                            lemma_hdr_first_byte(major, n as u8);
                        } else if n < 256 {
                            assert(hdr(major, n).len() == 2);
                        } else if n < 65536 {
                            assert(hdr(major, n).len() == 3);
                        } else if n < 4294967296 {
                            assert(hdr(major, n).len() == 5);
                        } else {
                            assert(hdr(major, n).len() == 9);
                        }
                    }
                }
            }
            return None;
        }
        let b = frame[pos + 1];
        if b < 24 {
            proof {
                assert forall|n: u64| !hdr_at(frame@, pos as int, major, n) by {
                    if hdr_at(frame@, pos as int, major, n) {
                        lemma_chunk_index(frame@, pos as int, hdr(major, n), 0);
                        if n < 24 {
                            lemma_hdr_first_byte(major, n as u8);
                        } else if n < 256 {
                            lemma_chunk_index(frame@, pos as int, hdr(major, n), 1);
                            assert(hdr(major, n)[1] == n as u8);
                            assert(n as u8 == b);
                        } else if n < 65536 {
                            lemma_hdr_first_byte(major, 25);
                        } else if n < 4294967296 {
                            lemma_hdr_first_byte(major, 26);
                        } else {
                            lemma_hdr_first_byte(major, 27);
                        }
                    }
                }
            }
            return None;
        }
        let n = b as u64;
        proof {
            lemma_hdr_first_byte(major, 24);
            assert(hdr(major, n) =~= seq![ib, b]);
            assert(frame@.subrange(pos as int, pos as int + 2) =~= seq![ib, b]);
        }
        return Some((n, pos + 2));
    }
    if ai == 25 {
        if len - pos < 3 {
            proof {
                assert forall|n: u64| !hdr_at(frame@, pos as int, major, n) by {
                    if hdr_at(frame@, pos as int, major, n) {
                        lemma_chunk_index(frame@, pos as int, hdr(major, n), 0);
                        if n < 24 {
                            lemma_hdr_first_byte(major, n as u8);
                        } else if n < 256 {
                            lemma_hdr_first_byte(major, 24);
                        } else if n < 65536 {
                            assert(hdr(major, n).len() == 3);
                        } else if n < 4294967296 {
                            lemma_hdr_first_byte(major, 26);
                        } else {
                            lemma_hdr_first_byte(major, 27);
                        }
                    }
                }
            }
            return None;
        }
        let b0 = frame[pos + 1];
        let b1 = frame[pos + 2];
        let n: u64 = ((b0 as u64) << 8) | (b1 as u64);
        proof {
            lemma_recomp16(b0 as u64, b1 as u64);
        }
        if n < 256 {
            proof {
                assert forall|m2: u64| !hdr_at(frame@, pos as int, major, m2) by {
                    if hdr_at(frame@, pos as int, major, m2) {
                        lemma_chunk_index(frame@, pos as int, hdr(major, m2), 0);
                        if m2 < 24 {
                            lemma_hdr_first_byte(major, m2 as u8);
                        } else if m2 < 256 {
                            lemma_hdr_first_byte(major, 24);
                        } else if m2 < 65536 {
                            lemma_chunk_index(frame@, pos as int, hdr(major, m2), 1);
                            lemma_chunk_index(frame@, pos as int, hdr(major, m2), 2);
                            lemma_mask_byte(m2);
                            lemma_split16(m2);
                            assert(m2 == n);
                        } else if m2 < 4294967296 {
                            lemma_hdr_first_byte(major, 26);
                        } else {
                            lemma_hdr_first_byte(major, 27);
                        }
                    }
                }
            }
            return None;
        }
        proof {
            lemma_hdr_first_byte(major, 25);
            assert(hdr(major, n) =~= seq![ib, b0, b1]);
            assert(frame@.subrange(pos as int, pos as int + 3) =~= seq![ib, b0, b1]);
        }
        return Some((n, pos + 3));
    }
    if ai == 26 {
        if len - pos < 5 {
            proof {
                assert forall|n: u64| !hdr_at(frame@, pos as int, major, n) by {
                    if hdr_at(frame@, pos as int, major, n) {
                        lemma_chunk_index(frame@, pos as int, hdr(major, n), 0);
                        if n < 24 {
                            lemma_hdr_first_byte(major, n as u8);
                        } else if n < 256 {
                            lemma_hdr_first_byte(major, 24);
                        } else if n < 65536 {
                            lemma_hdr_first_byte(major, 25);
                        } else if n < 4294967296 {
                            assert(hdr(major, n).len() == 5);
                        } else {
                            lemma_hdr_first_byte(major, 27);
                        }
                    }
                }
            }
            return None;
        }
        let b0 = frame[pos + 1];
        let b1 = frame[pos + 2];
        let b2 = frame[pos + 3];
        let b3 = frame[pos + 4];
        let n: u64 = ((b0 as u64) << 24) | ((b1 as u64) << 16) | ((b2 as u64) << 8) | (b3 as u64);
        proof {
            lemma_recomp32(b0 as u64, b1 as u64, b2 as u64, b3 as u64);
        }
        if n < 65536 {
            proof {
                assert forall|m2: u64| !hdr_at(frame@, pos as int, major, m2) by {
                    if hdr_at(frame@, pos as int, major, m2) {
                        lemma_chunk_index(frame@, pos as int, hdr(major, m2), 0);
                        if m2 < 24 {
                            lemma_hdr_first_byte(major, m2 as u8);
                        } else if m2 < 256 {
                            lemma_hdr_first_byte(major, 24);
                        } else if m2 < 65536 {
                            lemma_hdr_first_byte(major, 25);
                        } else if m2 < 4294967296 {
                            lemma_chunk_index(frame@, pos as int, hdr(major, m2), 1);
                            lemma_chunk_index(frame@, pos as int, hdr(major, m2), 2);
                            lemma_chunk_index(frame@, pos as int, hdr(major, m2), 3);
                            lemma_chunk_index(frame@, pos as int, hdr(major, m2), 4);
                            lemma_mask_byte(m2);
                            lemma_split32(m2);
                            assert(m2 == n);
                        } else {
                            lemma_hdr_first_byte(major, 27);
                        }
                    }
                }
            }
            return None;
        }
        proof {
            lemma_hdr_first_byte(major, 26);
            assert(hdr(major, n) =~= seq![ib, b0, b1, b2, b3]);
            assert(frame@.subrange(pos as int, pos as int + 5) =~= seq![ib, b0, b1, b2, b3]);
        }
        return Some((n, pos + 5));
    }
    if ai == 27 {
        if len - pos < 9 {
            proof {
                assert forall|n: u64| !hdr_at(frame@, pos as int, major, n) by {
                    if hdr_at(frame@, pos as int, major, n) {
                        lemma_chunk_index(frame@, pos as int, hdr(major, n), 0);
                        if n < 24 {
                            lemma_hdr_first_byte(major, n as u8);
                        } else if n < 256 {
                            lemma_hdr_first_byte(major, 24);
                        } else if n < 65536 {
                            lemma_hdr_first_byte(major, 25);
                        } else if n < 4294967296 {
                            lemma_hdr_first_byte(major, 26);
                        } else {
                            assert(hdr(major, n).len() == 9);
                        }
                    }
                }
            }
            return None;
        }
        let b0 = frame[pos + 1];
        let b1 = frame[pos + 2];
        let b2 = frame[pos + 3];
        let b3 = frame[pos + 4];
        let b4 = frame[pos + 5];
        let b5 = frame[pos + 6];
        let b6 = frame[pos + 7];
        let b7 = frame[pos + 8];
        let n: u64 = ((b0 as u64) << 56) | ((b1 as u64) << 48) | ((b2 as u64) << 40) | ((b3
            as u64) << 32) | ((b4 as u64) << 24) | ((b5 as u64) << 16) | ((b6 as u64) << 8) | (b7
            as u64);
        proof {
            lemma_recomp64(
                b0 as u64,
                b1 as u64,
                b2 as u64,
                b3 as u64,
                b4 as u64,
                b5 as u64,
                b6 as u64,
                b7 as u64,
            );
        }
        if n < 4294967296 {
            proof {
                assert forall|m2: u64| !hdr_at(frame@, pos as int, major, m2) by {
                    if hdr_at(frame@, pos as int, major, m2) {
                        lemma_chunk_index(frame@, pos as int, hdr(major, m2), 0);
                        if m2 < 24 {
                            lemma_hdr_first_byte(major, m2 as u8);
                        } else if m2 < 256 {
                            lemma_hdr_first_byte(major, 24);
                        } else if m2 < 65536 {
                            lemma_hdr_first_byte(major, 25);
                        } else if m2 < 4294967296 {
                            lemma_hdr_first_byte(major, 26);
                        } else {
                            lemma_chunk_index(frame@, pos as int, hdr(major, m2), 1);
                            lemma_chunk_index(frame@, pos as int, hdr(major, m2), 2);
                            lemma_chunk_index(frame@, pos as int, hdr(major, m2), 3);
                            lemma_chunk_index(frame@, pos as int, hdr(major, m2), 4);
                            lemma_chunk_index(frame@, pos as int, hdr(major, m2), 5);
                            lemma_chunk_index(frame@, pos as int, hdr(major, m2), 6);
                            lemma_chunk_index(frame@, pos as int, hdr(major, m2), 7);
                            lemma_chunk_index(frame@, pos as int, hdr(major, m2), 8);
                            lemma_mask_byte(m2);
                            lemma_split64(m2);
                            assert(m2 == n);
                        }
                    }
                }
            }
            return None;
        }
        proof {
            lemma_hdr_first_byte(major, 27);
            assert(hdr(major, n) =~= seq![ib, b0, b1, b2, b3, b4, b5, b6, b7]);
            assert(frame@.subrange(pos as int, pos as int + 9) =~= seq![
                ib,
                b0,
                b1,
                b2,
                b3,
                b4,
                b5,
                b6,
                b7,
            ]);
        }
        return Some((n, pos + 9));
    }
    proof {
        assert forall|n: u64| !hdr_at(frame@, pos as int, major, n) by {
            if hdr_at(frame@, pos as int, major, n) {
                lemma_chunk_index(frame@, pos as int, hdr(major, n), 0);
                if n < 24 {
                    lemma_hdr_first_byte(major, n as u8);
                } else if n < 256 {
                    lemma_hdr_first_byte(major, 24);
                } else if n < 65536 {
                    lemma_hdr_first_byte(major, 25);
                } else if n < 4294967296 {
                    lemma_hdr_first_byte(major, 26);
                } else {
                    lemma_hdr_first_byte(major, 27);
                }
            }
        }
    }
    None
}

/// Two headers of the same major type at the same offset carry the same
/// value.
pub proof fn lemma_hdr_inj(s: Seq<u8>, pos: int, major: u8, n: u64, m2: u64)
    requires
        major < 8,
        hdr_at(s, pos, major, n),
        hdr_at(s, pos, major, m2),
    ensures
        n == m2,
{
    reveal(hdr);
    lemma_chunk_index(s, pos, hdr(major, n), 0);
    lemma_chunk_index(s, pos, hdr(major, m2), 0);
    let xn: u8 = if n < 24 {
        n as u8
    } else if n < 256 {
        24
    } else if n < 65536 {
        25
    } else if n < 4294967296 {
        26
    } else {
        27
    };
    let xm: u8 = if m2 < 24 {
        m2 as u8
    } else if m2 < 256 {
        24
    } else if m2 < 65536 {
        25
    } else if m2 < 4294967296 {
        26
    } else {
        27
    };
    lemma_hdr_first_byte(major, xn);
    lemma_hdr_first_byte(major, xm);
    assert(xn == xm);
    if n < 24 {
        assert(n == m2);
    } else if n < 256 {
        lemma_chunk_index(s, pos, hdr(major, n), 1);
        lemma_chunk_index(s, pos, hdr(major, m2), 1);
        assert(n as u8 == m2 as u8);
        assert(n == m2) by (bit_vector)
            requires
                24 <= n < 256,
                24 <= m2 < 256,
                n as u8 == m2 as u8,
        ;
    } else if n < 65536 {
        lemma_chunk_index(s, pos, hdr(major, n), 1);
        lemma_chunk_index(s, pos, hdr(major, m2), 1);
        lemma_chunk_index(s, pos, hdr(major, n), 2);
        lemma_chunk_index(s, pos, hdr(major, m2), 2);
        lemma_mask_byte(n);
        lemma_mask_byte(m2);
        lemma_split16(n);
        lemma_split16(m2);
    } else if n < 4294967296 {
        lemma_chunk_index(s, pos, hdr(major, n), 1);
        lemma_chunk_index(s, pos, hdr(major, m2), 1);
        lemma_chunk_index(s, pos, hdr(major, n), 2);
        lemma_chunk_index(s, pos, hdr(major, m2), 2);
        lemma_chunk_index(s, pos, hdr(major, n), 3);
        lemma_chunk_index(s, pos, hdr(major, m2), 3);
        lemma_chunk_index(s, pos, hdr(major, n), 4);
        lemma_chunk_index(s, pos, hdr(major, m2), 4);
        lemma_mask_byte(n);
        lemma_mask_byte(m2);
        lemma_split32(n);
        lemma_split32(m2);
    } else {
        lemma_chunk_index(s, pos, hdr(major, n), 1);
        lemma_chunk_index(s, pos, hdr(major, m2), 1);
        lemma_chunk_index(s, pos, hdr(major, n), 2);
        lemma_chunk_index(s, pos, hdr(major, m2), 2);
        lemma_chunk_index(s, pos, hdr(major, n), 3);
        lemma_chunk_index(s, pos, hdr(major, m2), 3);
        lemma_chunk_index(s, pos, hdr(major, n), 4);
        lemma_chunk_index(s, pos, hdr(major, m2), 4);
        lemma_chunk_index(s, pos, hdr(major, n), 5);
        lemma_chunk_index(s, pos, hdr(major, m2), 5);
        lemma_chunk_index(s, pos, hdr(major, n), 6);
        lemma_chunk_index(s, pos, hdr(major, m2), 6);
        lemma_chunk_index(s, pos, hdr(major, n), 7);
        lemma_chunk_index(s, pos, hdr(major, m2), 7);
        lemma_chunk_index(s, pos, hdr(major, n), 8);
        lemma_chunk_index(s, pos, hdr(major, m2), 8);
        lemma_mask_byte(n);
        lemma_mask_byte(m2);
        lemma_split64(n);
        lemma_split64(m2);
    }
}

/// Big-endian bytes of one 64-bit half of an identifier.
pub open spec fn be8(x: u64) -> Seq<u8> {
    seq![
        (((x >> 56) & 0xff) as u8),
        (((x >> 48) & 0xff) as u8),
        (((x >> 40) & 0xff) as u8),
        (((x >> 32) & 0xff) as u8),
        (((x >> 24) & 0xff) as u8),
        (((x >> 16) & 0xff) as u8),
        (((x >> 8) & 0xff) as u8),
        ((x & 0xff) as u8),
    ]
}

/// An identifier: a byte string of exactly 16 bytes, big-endian.
#[verifier::opaque]
pub open spec fn enc_uid(u: Uid) -> Seq<u8> {
    seq![0x50u8] + be8(u.hi) + be8(u.lo)
}

pub proof fn lemma_enc_uid_len(u: Uid)
    ensures
        enc_uid(u).len() == 17,
{
    reveal(enc_uid);
}

/// Appends the encoding of an identifier.
pub fn push_uid(out: &mut Vec<u8>, u: &Uid)
    ensures
        final(out)@ == old(out)@ + enc_uid(*u),
{
    proof {
        reveal(enc_uid);
        lemma_mask_byte(u.hi);
        lemma_mask_byte(u.lo);
    }
    out.push(0x50);
    out.push(((u.hi >> 56) & 0xff) as u8);
    out.push(((u.hi >> 48) & 0xff) as u8);
    out.push(((u.hi >> 40) & 0xff) as u8);
    out.push(((u.hi >> 32) & 0xff) as u8);
    out.push(((u.hi >> 24) & 0xff) as u8);
    out.push(((u.hi >> 16) & 0xff) as u8);
    out.push(((u.hi >> 8) & 0xff) as u8);
    out.push((u.hi & 0xff) as u8);
    out.push(((u.lo >> 56) & 0xff) as u8);
    out.push(((u.lo >> 48) & 0xff) as u8);
    out.push(((u.lo >> 40) & 0xff) as u8);
    out.push(((u.lo >> 32) & 0xff) as u8);
    out.push(((u.lo >> 24) & 0xff) as u8);
    out.push(((u.lo >> 16) & 0xff) as u8);
    out.push(((u.lo >> 8) & 0xff) as u8);
    out.push((u.lo & 0xff) as u8);
    proof {
        assert(final(out)@ =~= old(out)@ + enc_uid(*u));
    }
}

/// Two identifier encodings at the same offset name the same identifier.
pub proof fn lemma_enc_uid_inj(s: Seq<u8>, pos: int, u1: Uid, u2: Uid)
    requires
        chunk_at(s, pos, enc_uid(u1)),
        chunk_at(s, pos, enc_uid(u2)),
    ensures
        u1 == u2,
{
    reveal(enc_uid);
    let c1 = enc_uid(u1);
    let c2 = enc_uid(u2);
    assert forall|i: int| 0 <= i < 17 implies c1[i] == c2[i] by {
        lemma_chunk_index(s, pos, c1, i);
        lemma_chunk_index(s, pos, c2, i);
    }
    lemma_mask_byte(u1.hi);
    lemma_mask_byte(u2.hi);
    lemma_mask_byte(u1.lo);
    lemma_mask_byte(u2.lo);
    assert(c1[1] == c2[1] && c1[2] == c2[2] && c1[3] == c2[3] && c1[4] == c2[4] && c1[5] == c2[5]
        && c1[6] == c2[6] && c1[7] == c2[7] && c1[8] == c2[8]);
    assert(c1[9] == c2[9] && c1[10] == c2[10] && c1[11] == c2[11] && c1[12] == c2[12] && c1[13]
        == c2[13] && c1[14] == c2[14] && c1[15] == c2[15] && c1[16] == c2[16]);
    assert((u1.hi >> 56) & 0xff == (u2.hi >> 56) & 0xff);
    assert((u1.hi >> 48) & 0xff == (u2.hi >> 48) & 0xff);
    assert((u1.hi >> 40) & 0xff == (u2.hi >> 40) & 0xff);
    assert((u1.hi >> 32) & 0xff == (u2.hi >> 32) & 0xff);
    assert((u1.hi >> 24) & 0xff == (u2.hi >> 24) & 0xff);
    assert((u1.hi >> 16) & 0xff == (u2.hi >> 16) & 0xff);
    assert((u1.hi >> 8) & 0xff == (u2.hi >> 8) & 0xff);
    assert(u1.hi & 0xff == u2.hi & 0xff);
    assert((u1.lo >> 56) & 0xff == (u2.lo >> 56) & 0xff);
    assert((u1.lo >> 48) & 0xff == (u2.lo >> 48) & 0xff);
    assert((u1.lo >> 40) & 0xff == (u2.lo >> 40) & 0xff);
    assert((u1.lo >> 32) & 0xff == (u2.lo >> 32) & 0xff);
    assert((u1.lo >> 24) & 0xff == (u2.lo >> 24) & 0xff);
    assert((u1.lo >> 16) & 0xff == (u2.lo >> 16) & 0xff);
    assert((u1.lo >> 8) & 0xff == (u2.lo >> 8) & 0xff);
    assert(u1.lo & 0xff == u2.lo & 0xff);
    lemma_split64(u1.hi);
    lemma_split64(u2.hi);
    lemma_split64(u1.lo);
    lemma_split64(u2.lo);
    assert(u1.hi == u2.hi);
    assert(u1.lo == u2.lo);
}

/// Reads an identifier at `pos`: succeeds exactly when an identifier
/// encoding occurs there.
pub fn dec_uid(frame: &Vec<u8>, pos: usize) -> (r: Option<(Uid, usize)>)
    requires
        pos <= frame@.len(),
    ensures
        r matches Some((u, q)) ==> q == pos + 17 && q <= frame@.len() && chunk_at(
            frame@,
            pos as int,
            enc_uid(u),
        ),
        r is None ==> forall|u: Uid| !chunk_at(frame@, pos as int, enc_uid(u)),
{
    if frame.len() - pos < 17 {
        proof {
            assert forall|u: Uid| !chunk_at(frame@, pos as int, enc_uid(u)) by {
                lemma_enc_uid_len(u);
            }
        }
        return None;
    }
    if frame[pos] != 0x50 {
        proof {
            reveal(enc_uid);
            assert forall|u: Uid| !chunk_at(frame@, pos as int, enc_uid(u)) by {
                if chunk_at(frame@, pos as int, enc_uid(u)) {
                    lemma_chunk_index(frame@, pos as int, enc_uid(u), 0);
                }
            }
        }
        return None;
    }
    let hi: u64 = ((frame[pos + 1] as u64) << 56) | ((frame[pos + 2] as u64) << 48) | ((frame[pos
        + 3] as u64) << 40) | ((frame[pos + 4] as u64) << 32) | ((frame[pos + 5] as u64) << 24) | (
    (frame[pos + 6] as u64) << 16) | ((frame[pos + 7] as u64) << 8) | (frame[pos + 8] as u64);
    let lo: u64 = ((frame[pos + 9] as u64) << 56) | ((frame[pos + 10] as u64) << 48) | ((frame[pos
        + 11] as u64) << 40) | ((frame[pos + 12] as u64) << 32) | ((frame[pos + 13] as u64) << 24)
        | ((frame[pos + 14] as u64) << 16) | ((frame[pos + 15] as u64) << 8) | (frame[pos + 16]
        as u64);
    let u = Uid { hi, lo };
    proof {
        reveal(enc_uid);
        lemma_recomp64(
            frame@[pos + 1] as u64,
            frame@[pos + 2] as u64,
            frame@[pos + 3] as u64,
            frame@[pos + 4] as u64,
            frame@[pos + 5] as u64,
            frame@[pos + 6] as u64,
            frame@[pos + 7] as u64,
            frame@[pos + 8] as u64,
        );
        lemma_recomp64(
            frame@[pos + 9] as u64,
            frame@[pos + 10] as u64,
            frame@[pos + 11] as u64,
            frame@[pos + 12] as u64,
            frame@[pos + 13] as u64,
            frame@[pos + 14] as u64,
            frame@[pos + 15] as u64,
            frame@[pos + 16] as u64,
        );
        assert(frame@.subrange(pos as int, pos as int + 17) =~= enc_uid(u));
    }
    Some((u, pos + 17))
}

/// A byte-string item: a minimal length header, then the bytes themselves.
pub open spec fn enc_bytes(b: Seq<u8>) -> Seq<u8> {
    hdr(2, b.len() as u64) + b
}

/// Appends the encoding of a byte string.
pub fn push_bytes(out: &mut Vec<u8>, b: &Vec<u8>)
    ensures
        final(out)@ == old(out)@ + enc_bytes(b@),
{
    push_hdr(out, 2, b.len() as u64);
    let mut k: usize = 0;
    while k < b.len()
        invariant
            k <= b@.len(),
            out@ == old(out)@ + hdr(2, b@.len() as u64) + b@.subrange(0, k as int),
        decreases b@.len() - k,
    {
        out.push(b[k]);
        proof {
            assert(out@ =~= old(out)@ + hdr(2, b@.len() as u64) + b@.subrange(0, k as int + 1));
        }
        k += 1;
    }
    proof {
        assert(b@.subrange(0, b@.len() as int) =~= b@);
        assert(old(out)@ + hdr(2, b@.len() as u64) + b@ =~= old(out)@ + enc_bytes(b@));
    }
}

/// Reads a byte string at `pos`: succeeds exactly when a byte-string
/// encoding occurs there, and no two byte strings encode to the same place.
pub fn dec_bytes(frame: &Vec<u8>, pos: usize) -> (r: Option<(Vec<u8>, usize)>)
    requires
        pos <= frame@.len(),
    ensures
        r matches Some((b, q)) ==> pos < q <= frame@.len() && q == pos + enc_bytes(b@).len()
            && chunk_at(frame@, pos as int, enc_bytes(b@)),
        r is None ==> forall|b2: Seq<u8>|
            b2.len() < 0x10000000000000000 ==> !chunk_at(frame@, pos as int, enc_bytes(b2)),
        r matches Some((b, q)) ==> forall|b2: Seq<u8>|
            b2.len() < 0x10000000000000000 && chunk_at(frame@, pos as int, enc_bytes(b2)) ==> b2
                == b@,
    {
    match dec_hdr(frame, pos, 2) {
        None => {
            proof {
                assert forall|b2: Seq<u8>| b2.len() < 0x10000000000000000 implies !chunk_at(
                    frame@,
                    pos as int,
                    enc_bytes(b2),
                ) by {
                    if chunk_at(frame@, pos as int, enc_bytes(b2)) {
                        assert(enc_bytes(b2) == hdr(2, b2.len() as u64) + b2);
                        lemma_chunk_concat(frame@, pos as int, hdr(2, b2.len() as u64), b2);
                        assert(hdr_at(frame@, pos as int, 2, b2.len() as u64));
                    }
                }
            }
            None
        }
        Some((n, q1)) => {
            let rem = frame.len() - q1;
            if (rem as u64) < n {
                proof {
                    assert forall|b2: Seq<u8>| b2.len() < 0x10000000000000000 implies !chunk_at(
                        frame@,
                        pos as int,
                        enc_bytes(b2),
                    ) by {
                        if chunk_at(frame@, pos as int, enc_bytes(b2)) {
                            lemma_chunk_concat(frame@, pos as int, hdr(2, b2.len() as u64), b2);
                            lemma_hdr_inj(frame@, pos as int, 2, n, b2.len() as u64);
                        }
                    }
                }
                return None;
            }
            let m = n as usize;
            let flen = frame.len();
            let mut b: Vec<u8> = Vec::new();
            let mut k: usize = 0;
            proof {
                assert(b@ =~= frame@.subrange(q1 as int, q1 as int));
            }
            while k < m
                invariant
                    k <= m,
                    m as u64 == n,
                    flen == frame@.len(),
                    q1 + m <= flen,
                    b@ == frame@.subrange(q1 as int, q1 as int + k as int),
                decreases m - k,
            {
                b.push(frame[q1 + k]);
                proof {
                    assert(b@ =~= frame@.subrange(q1 as int, q1 as int + k as int + 1));
                }
                k += 1;
            }
            proof {
                assert(b@.len() == n);
                assert(chunk_at(frame@, q1 as int, b@));
                lemma_chunk_concat(frame@, pos as int, hdr(2, n), b@);
                assert(hdr(2, b@.len() as u64) == hdr(2, n));
                assert(chunk_at(frame@, pos as int, enc_bytes(b@)));
                assert forall|b2: Seq<u8>|
                    b2.len() < 0x10000000000000000 && chunk_at(
                        frame@,
                        pos as int,
                        enc_bytes(b2),
                    ) implies b2 == b@ by {
                    lemma_chunk_concat(frame@, pos as int, hdr(2, b2.len() as u64), b2);
                    lemma_hdr_inj(frame@, pos as int, 2, n, b2.len() as u64);
                    assert(b2 =~= b@);
                }
            }
            Some((b, q1 + m))
        }
    }
}

/// The concatenated encodings of a sequence of identifiers.
pub open spec fn enc_uid_seq(ids: Seq<Uid>) -> Seq<u8>
    decreases ids.len(),
{
    if ids.len() == 0 {
        Seq::<u8>::empty()
    } else {
        enc_uid(ids[0]) + enc_uid_seq(ids.drop_first())
    }
}

/// An identifier list: an array header, then the identifiers.
pub open spec fn enc_uid_array(ids: Seq<Uid>) -> Seq<u8> {
    hdr(4, ids.len() as u64) + enc_uid_seq(ids)
}

proof fn lemma_enc_uid_seq_len(ids: Seq<Uid>)
    ensures
        enc_uid_seq(ids).len() == 17 * ids.len(),
    decreases ids.len(),
{
    if ids.len() > 0 {
        lemma_enc_uid_len(ids[0]);
        lemma_enc_uid_seq_len(ids.drop_first());
    }
}

proof fn lemma_enc_uid_seq_snoc(ids: Seq<Uid>, u: Uid)
    ensures
        enc_uid_seq(ids.push(u)) == enc_uid_seq(ids) + enc_uid(u),
    decreases ids.len(),
{
    if ids.len() == 0 {
        assert(ids.push(u)[0] == u);
        assert(ids.push(u).drop_first() =~= Seq::<Uid>::empty());
        assert(enc_uid_seq(Seq::<Uid>::empty()) =~= Seq::<u8>::empty());
        assert(enc_uid(u) + Seq::<u8>::empty() =~= enc_uid(u));
        assert(enc_uid_seq(ids) + enc_uid(u) =~= enc_uid(u));
    } else {
        assert(ids.push(u)[0] == ids[0]);
        assert(ids.push(u).drop_first() =~= ids.drop_first().push(u));
        lemma_enc_uid_seq_snoc(ids.drop_first(), u);
        assert(enc_uid(ids[0]) + (enc_uid_seq(ids.drop_first()) + enc_uid(u)) =~= (enc_uid(ids[0])
            + enc_uid_seq(ids.drop_first())) + enc_uid(u));
    }
}

proof fn lemma_enc_uid_seq_index(s: Seq<u8>, pos: int, ids: Seq<Uid>, k: int)
    requires
        chunk_at(s, pos, enc_uid_seq(ids)),
        0 <= k < ids.len(),
    ensures
        chunk_at(s, pos + 17 * k, enc_uid(ids[k])),
    decreases k,
{
    lemma_enc_uid_len(ids[0]);
    lemma_chunk_concat(s, pos, enc_uid(ids[0]), enc_uid_seq(ids.drop_first()));
    if k == 0 {
    } else {
        lemma_enc_uid_seq_index(s, pos + 17, ids.drop_first(), k - 1);
        assert(ids.drop_first()[k - 1] == ids[k]);
    }
}

/// Appends the encoding of an identifier list.
pub fn push_uid_array(out: &mut Vec<u8>, ids: &Vec<Uid>)
    ensures
        final(out)@ == old(out)@ + enc_uid_array(ids@),
{
    push_hdr(out, 4, ids.len() as u64);
    let mut k: usize = 0;
    proof {
        assert(ids@.take(0) =~= Seq::<Uid>::empty());
        assert(out@ =~= old(out)@ + hdr(4, ids@.len() as u64) + enc_uid_seq(ids@.take(0)));
    }
    while k < ids.len()
        invariant
            k <= ids@.len(),
            out@ == old(out)@ + hdr(4, ids@.len() as u64) + enc_uid_seq(ids@.take(k as int)),
        decreases ids@.len() - k,
    {
        let u = ids[k];
        push_uid(out, &u);
        proof {
            assert(ids@.take(k as int + 1) =~= ids@.take(k as int).push(ids@[k as int]));
            lemma_enc_uid_seq_snoc(ids@.take(k as int), ids@[k as int]);
            assert(out@ =~= old(out)@ + hdr(4, ids@.len() as u64) + enc_uid_seq(
                ids@.take(k as int + 1),
            ));
        }
        k += 1;
    }
    proof {
        assert(ids@.take(ids@.len() as int) =~= ids@);
        assert(old(out)@ + hdr(4, ids@.len() as u64) + enc_uid_seq(ids@) =~= old(out)@
            + enc_uid_array(ids@));
    }
}

/// Reads an identifier list at `pos`: succeeds exactly when a list
/// encoding occurs there, and no two lists encode to the same place.
pub fn dec_uid_array(frame: &Vec<u8>, pos: usize) -> (r: Option<(Vec<Uid>, usize)>)
    requires
        pos <= frame@.len(),
    ensures
        r matches Some((v, q)) ==> pos < q <= frame@.len() && q == pos + enc_uid_array(
            v@,
        ).len() && chunk_at(frame@, pos as int, enc_uid_array(v@)),
        r is None ==> forall|ids: Seq<Uid>|
            ids.len() < 0x10000000000000000 ==> !chunk_at(
                frame@,
                pos as int,
                enc_uid_array(ids),
            ),
        r matches Some((v, q)) ==> forall|ids: Seq<Uid>|
            ids.len() < 0x10000000000000000 && chunk_at(frame@, pos as int, enc_uid_array(ids))
                ==> ids == v@,
{
    match dec_hdr(frame, pos, 4) {
        None => {
            proof {
                assert forall|ids: Seq<Uid>| ids.len() < 0x10000000000000000 implies !chunk_at(
                    frame@,
                    pos as int,
                    enc_uid_array(ids),
                ) by {
                    if chunk_at(frame@, pos as int, enc_uid_array(ids)) {
                        assert(enc_uid_array(ids) == hdr(4, ids.len() as u64) + enc_uid_seq(ids));
                        lemma_chunk_concat(frame@, pos as int, hdr(4, ids.len() as u64),
                            enc_uid_seq(ids));
                        assert(hdr_at(frame@, pos as int, 4, ids.len() as u64));
                    }
                }
            }
            None
        }
        Some((n, q1)) => {
            let flen = frame.len();
            let mut out: Vec<Uid> = Vec::new();
            let mut k: u64 = 0;
            let mut q: usize = q1;
            proof {
                assert(out@.take(0) =~= Seq::<Uid>::empty());
                assert(enc_uid_seq(out@) =~= Seq::<u8>::empty());
                assert(frame@.subrange(q1 as int, q1 as int) =~= Seq::<u8>::empty());
                assert(chunk_at(frame@, q1 as int, enc_uid_seq(out@)));
            }
            while k < n
                invariant
                    k <= n,
                    flen == frame@.len(),
                    pos <= q1 <= q <= flen,
                    q == q1 + 17 * k,
                    out@.len() == k,
                    hdr_at(frame@, pos as int, 4, n),
                    q1 == pos + hdr(4, n).len(),
                    chunk_at(frame@, q1 as int, enc_uid_seq(out@)),
                    forall|ids: Seq<Uid>|
                        ids.len() < 0x10000000000000000 && #[trigger] chunk_at(
                            frame@,
                            pos as int,
                            enc_uid_array(ids),
                        ) ==> ids.take(k as int) == out@,
                decreases n - k,
            {
                match dec_uid(frame, q) {
                    None => {
                        proof {
                            assert forall|ids: Seq<Uid>|
                                ids.len() < 0x10000000000000000 implies !chunk_at(
                                frame@,
                                pos as int,
                                enc_uid_array(ids),
                            ) by {
                                if chunk_at(frame@, pos as int, enc_uid_array(ids)) {
                                    assert(enc_uid_array(ids) == hdr(4, ids.len() as u64)
                                        + enc_uid_seq(ids));
                                    lemma_chunk_concat(
                                        frame@,
                                        pos as int,
                                        hdr(4, ids.len() as u64),
                                        enc_uid_seq(ids),
                                    );
                                    lemma_hdr_inj(frame@, pos as int, 4, n, ids.len() as u64);
                                    lemma_enc_uid_seq_index(
                                        frame@,
                                        q1 as int,
                                        ids,
                                        k as int,
                                    );
                                }
                            }
                        }
                        return None;
                    }
                    Some((u, q2)) => {
                        let ghost pre = out@;
                        out.push(u);
                        proof {
                            assert(out@ == pre.push(u));
                            lemma_enc_uid_seq_snoc(pre, u);
                            lemma_enc_uid_seq_len(pre);
                            lemma_chunk_concat(
                                frame@,
                                q1 as int,
                                enc_uid_seq(pre),
                                enc_uid(u),
                            );
                            assert(chunk_at(frame@, q1 as int, enc_uid_seq(out@)));
                            assert forall|ids: Seq<Uid>|
                                ids.len() < 0x10000000000000000 && #[trigger] chunk_at(
                                    frame@,
                                    pos as int,
                                    enc_uid_array(ids),
                                ) implies ids.take(k as int + 1) == out@ by {
                                assert(enc_uid_array(ids) == hdr(4, ids.len() as u64)
                                    + enc_uid_seq(ids));
                                lemma_chunk_concat(
                                    frame@,
                                    pos as int,
                                    hdr(4, ids.len() as u64),
                                    enc_uid_seq(ids),
                                );
                                lemma_hdr_inj(frame@, pos as int, 4, n, ids.len() as u64);
                                lemma_enc_uid_seq_index(frame@, q1 as int, ids, k as int);
                                lemma_enc_uid_inj(frame@, q as int, ids[k as int], u);
                                assert(ids.take(k as int + 1) =~= ids.take(k as int).push(
                                    ids[k as int],
                                ));
                                assert(ids.take(k as int) == pre);
                            }
                        }
                        q = q2;
                        k = k + 1;
                    }
                }
            }
            proof {
                lemma_enc_uid_seq_len(out@);
                assert(out@.len() as u64 == n);
                assert(enc_uid_array(out@) == hdr(4, n) + enc_uid_seq(out@));
                lemma_chunk_concat(frame@, pos as int, hdr(4, n), enc_uid_seq(out@));
                assert(chunk_at(frame@, pos as int, enc_uid_array(out@)));
                assert forall|ids: Seq<Uid>|
                    ids.len() < 0x10000000000000000 && chunk_at(
                        frame@,
                        pos as int,
                        enc_uid_array(ids),
                    ) implies ids == out@ by {
                    assert(enc_uid_array(ids) == hdr(4, ids.len() as u64) + enc_uid_seq(ids));
                    lemma_chunk_concat(
                        frame@,
                        pos as int,
                        hdr(4, ids.len() as u64),
                        enc_uid_seq(ids),
                    );
                    lemma_hdr_inj(frame@, pos as int, 4, n, ids.len() as u64);
                    assert(ids.take(k as int) == out@);
                    assert(ids.take(ids.len() as int) =~= ids);
                }
            }
            Some((out, q))
        }
    }
}

/// A publication fits the length headers.
pub open spec fn pub_wf(p: PublicationView) -> bool {
    p.data.len() < 0x10000000000000000
}

/// A stored publication: the three-element array
/// `[publication_id, subscription_id, data]`.
pub open spec fn enc_publication(p: PublicationView) -> Seq<u8> {
    seq![0x83u8] + enc_uid(p.publication_id) + enc_uid(p.subscription_id) + enc_bytes(p.data)
}

/// Two byte-string encodings at the same offset hold the same bytes.
pub proof fn lemma_enc_bytes_inj(s: Seq<u8>, pos: int, b1: Seq<u8>, b2: Seq<u8>)
    requires
        b1.len() < 0x10000000000000000,
        b2.len() < 0x10000000000000000,
        chunk_at(s, pos, enc_bytes(b1)),
        chunk_at(s, pos, enc_bytes(b2)),
    ensures
        b1 == b2,
{
    assert(enc_bytes(b1) == hdr(2, b1.len() as u64) + b1);
    assert(enc_bytes(b2) == hdr(2, b2.len() as u64) + b2);
    lemma_chunk_concat(s, pos, hdr(2, b1.len() as u64), b1);
    lemma_chunk_concat(s, pos, hdr(2, b2.len() as u64), b2);
    lemma_hdr_inj(s, pos, 2, b1.len() as u64, b2.len() as u64);
    assert(b1 =~= b2);
}

/// Two publication encodings at the same offset hold the same publication.
pub proof fn lemma_enc_publication_inj(s: Seq<u8>, pos: int, p1: PublicationView,
    p2: PublicationView)
    requires
        pub_wf(p1),
        pub_wf(p2),
        chunk_at(s, pos, enc_publication(p1)),
        chunk_at(s, pos, enc_publication(p2)),
    ensures
        p1 == p2,
{
    lemma_enc_publication_parts(s, pos, p1);
    lemma_enc_publication_parts(s, pos, p2);
    lemma_enc_uid_inj(s, pos + 1, p1.publication_id, p2.publication_id);
    lemma_enc_uid_inj(s, pos + 18, p1.subscription_id, p2.subscription_id);
    lemma_enc_bytes_inj(s, pos + 35, p1.data, p2.data);
}

proof fn lemma_enc_publication_parts(s: Seq<u8>, pos: int, p: PublicationView)
    requires
        chunk_at(s, pos, enc_publication(p)),
    ensures
        chunk_at(s, pos, seq![0x83u8]),
        chunk_at(s, pos + 1, enc_uid(p.publication_id)),
        chunk_at(s, pos + 18, enc_uid(p.subscription_id)),
        chunk_at(s, pos + 35, enc_bytes(p.data)),
{
    lemma_enc_uid_len(p.publication_id);
    lemma_enc_uid_len(p.subscription_id);
    let a = seq![0x83u8] + enc_uid(p.publication_id) + enc_uid(p.subscription_id);
    lemma_chunk_concat(s, pos, a, enc_bytes(p.data));
    let b = seq![0x83u8] + enc_uid(p.publication_id);
    assert(a == b + enc_uid(p.subscription_id));
    lemma_chunk_concat(s, pos, b, enc_uid(p.subscription_id));
    lemma_chunk_concat(s, pos, seq![0x83u8], enc_uid(p.publication_id));
}

proof fn lemma_enc_publication_compose(s: Seq<u8>, pos: int, p: PublicationView)
    requires
        chunk_at(s, pos, seq![0x83u8]),
        chunk_at(s, pos + 1, enc_uid(p.publication_id)),
        chunk_at(s, pos + 18, enc_uid(p.subscription_id)),
        chunk_at(s, pos + 35, enc_bytes(p.data)),
    ensures
        chunk_at(s, pos, enc_publication(p)),
{
    lemma_enc_uid_len(p.publication_id);
    lemma_enc_uid_len(p.subscription_id);
    lemma_chunk_concat(s, pos, seq![0x83u8], enc_uid(p.publication_id));
    let b = seq![0x83u8] + enc_uid(p.publication_id);
    lemma_chunk_concat(s, pos, b, enc_uid(p.subscription_id));
    let a = b + enc_uid(p.subscription_id);
    lemma_chunk_concat(s, pos, a, enc_bytes(p.data));
    assert(a + enc_bytes(p.data) == enc_publication(p));
}

/// Appends the encoding of a publication.
pub fn push_publication(out: &mut Vec<u8>, p: &Publication)
    ensures
        final(out)@ == old(out)@ + enc_publication(p@),
{
    out.push(0x83);
    push_uid(out, &p.publication_id);
    push_uid(out, &p.subscription_id);
    push_bytes(out, &p.data);
    proof {
        assert(final(out)@ =~= old(out)@ + enc_publication(p@));
    }
}

/// Encodes one publication as stored on disk.
pub fn encode_publication(p: &Publication) -> (r: Vec<u8>)
    ensures
        r@ == enc_publication(p@),
{
    let mut out: Vec<u8> = Vec::new();
    push_publication(&mut out, p);
    proof {
        assert(Seq::<u8>::empty() + enc_publication(p@) =~= enc_publication(p@));
    }
    out
}

/// Reads a publication at `pos`: succeeds exactly when a publication
/// encoding occurs there, and no two publications encode to the same place.
#[verifier::rlimit(50)]
pub fn dec_publication(frame: &Vec<u8>, pos: usize) -> (r: Option<(Publication, usize)>)
    requires
        pos <= frame@.len(),
    ensures
        r matches Some((p, q)) ==> pos < q <= frame@.len() && q == pos + enc_publication(
            p@,
        ).len() && chunk_at(frame@, pos as int, enc_publication(p@)) && pub_wf(p@),
        r is None ==> forall|pv: PublicationView|
            pub_wf(pv) ==> !chunk_at(frame@, pos as int, enc_publication(pv)),
        r matches Some((p, q)) ==> forall|pv: PublicationView|
            pub_wf(pv) && chunk_at(frame@, pos as int, enc_publication(pv)) ==> pv == p@,
{
    if frame.len() - pos < 1 {
        proof {
            assert forall|pv: PublicationView| pub_wf(pv) implies !chunk_at(
                frame@,
                pos as int,
                enc_publication(pv),
            ) by {
                if chunk_at(frame@, pos as int, enc_publication(pv)) {
                    lemma_enc_publication_parts(frame@, pos as int, pv);
                }
            }
        }
        return None;
    }
    if frame[pos] != 0x83 {
        proof {
            assert forall|pv: PublicationView| pub_wf(pv) implies !chunk_at(
                frame@,
                pos as int,
                enc_publication(pv),
            ) by {
                if chunk_at(frame@, pos as int, enc_publication(pv)) {
                    lemma_enc_publication_parts(frame@, pos as int, pv);
                    lemma_chunk_index(frame@, pos as int, seq![0x83u8], 0);
                }
            }
        }
        return None;
    }
    let r1 = dec_uid(frame, pos + 1);
    if r1.is_none() {
        proof {
            assert forall|pv: PublicationView| pub_wf(pv) implies !chunk_at(
                frame@,
                pos as int,
                enc_publication(pv),
            ) by {
                if chunk_at(frame@, pos as int, enc_publication(pv)) {
                    lemma_enc_publication_parts(frame@, pos as int, pv);
                }
            }
        }
        return None;
    }
    let (pid, q1) = r1.unwrap();
    let r2 = dec_uid(frame, q1);
    if r2.is_none() {
        proof {
            assert forall|pv: PublicationView| pub_wf(pv) implies !chunk_at(
                frame@,
                pos as int,
                enc_publication(pv),
            ) by {
                if chunk_at(frame@, pos as int, enc_publication(pv)) {
                    lemma_enc_publication_parts(frame@, pos as int, pv);
                }
            }
        }
        return None;
    }
    let (sid, q2) = r2.unwrap();
    let r3 = dec_bytes(frame, q2);
    if r3.is_none() {
        proof {
            assert forall|pv: PublicationView| pub_wf(pv) implies !chunk_at(
                frame@,
                pos as int,
                enc_publication(pv),
            ) by {
                if chunk_at(frame@, pos as int, enc_publication(pv)) {
                    lemma_enc_publication_parts(frame@, pos as int, pv);
                }
            }
        }
        return None;
    }
    let (data, q3) = r3.unwrap();
    let p = Publication { publication_id: pid, subscription_id: sid, data };
    proof {
        assert(chunk_at(frame@, pos as int, seq![0x83u8])) by {
            assert(frame@.subrange(pos as int, pos as int + 1) =~= seq![0x83u8]);
        }
        lemma_enc_publication_compose(frame@, pos as int, p@);
        lemma_enc_uid_len(p@.publication_id);
        lemma_enc_uid_len(p@.subscription_id);
        assert(enc_publication(p@).len() == 35 + enc_bytes(p@.data).len());
        assert forall|pv: PublicationView|
            pub_wf(pv) && chunk_at(frame@, pos as int, enc_publication(pv)) implies pv == p@ by {
            lemma_enc_publication_inj(frame@, pos as int, pv, p@);
        }
    }
    Some((p, q3))
}


/// The concatenated encodings of a sequence of publications.
pub open spec fn enc_pub_seq(ps: Seq<PublicationView>) -> Seq<u8>
    decreases ps.len(),
{
    if ps.len() == 0 {
        Seq::<u8>::empty()
    } else {
        enc_publication(ps[0]) + enc_pub_seq(ps.drop_first())
    }
}

/// Every publication in the list fits the length headers, and so does the
/// list itself.
pub open spec fn pubs_wf(ps: Seq<PublicationView>) -> bool {
    &&& ps.len() < 0x10000000000000000
    &&& forall|i: int| 0 <= i < ps.len() ==> pub_wf(#[trigger] ps[i])
}

/// A publication list: an array header, then the publications.
pub open spec fn enc_pub_array(ps: Seq<PublicationView>) -> Seq<u8> {
    hdr(4, ps.len() as u64) + enc_pub_seq(ps)
}

proof fn lemma_enc_pub_seq_snoc(ps: Seq<PublicationView>, p: PublicationView)
    ensures
        enc_pub_seq(ps.push(p)) == enc_pub_seq(ps) + enc_publication(p),
    decreases ps.len(),
{
    if ps.len() == 0 {
        assert(ps.push(p)[0] == p);
        assert(ps.push(p).drop_first() =~= Seq::<PublicationView>::empty());
        assert(enc_pub_seq(Seq::<PublicationView>::empty()) =~= Seq::<u8>::empty());
        assert(enc_publication(p) + Seq::<u8>::empty() =~= enc_publication(p));
        assert(enc_pub_seq(ps) + enc_publication(p) =~= enc_publication(p));
    } else {
        assert(ps.push(p)[0] == ps[0]);
        assert(ps.push(p).drop_first() =~= ps.drop_first().push(p));
        lemma_enc_pub_seq_snoc(ps.drop_first(), p);
        assert(enc_publication(ps[0]) + (enc_pub_seq(ps.drop_first()) + enc_publication(p)) =~= (
        enc_publication(ps[0]) + enc_pub_seq(ps.drop_first())) + enc_publication(p));
    }
}

proof fn lemma_enc_pub_seq_split(ps: Seq<PublicationView>, k: int)
    requires
        0 <= k <= ps.len(),
    ensures
        enc_pub_seq(ps) == enc_pub_seq(ps.take(k)) + enc_pub_seq(ps.skip(k)),
    decreases k,
{
    if k == 0 {
        assert(ps.take(0) =~= Seq::<PublicationView>::empty());
        assert(enc_pub_seq(Seq::<PublicationView>::empty()) =~= Seq::<u8>::empty());
        assert(ps.skip(0) =~= ps);
        assert(Seq::<u8>::empty() + enc_pub_seq(ps) =~= enc_pub_seq(ps));
    } else {
        lemma_enc_pub_seq_split(ps, k - 1);
        assert(ps.skip(k - 1)[0] == ps[k - 1]);
        assert(ps.skip(k - 1).drop_first() =~= ps.skip(k));
        assert(enc_pub_seq(ps.skip(k - 1)) == enc_publication(ps[k - 1]) + enc_pub_seq(
            ps.skip(k),
        ));
        assert(ps.take(k) =~= ps.take(k - 1).push(ps[k - 1]));
        lemma_enc_pub_seq_snoc(ps.take(k - 1), ps[k - 1]);
        assert((enc_pub_seq(ps.take(k - 1)) + enc_publication(ps[k - 1])) + enc_pub_seq(
            ps.skip(k),
        ) =~= enc_pub_seq(ps.take(k - 1)) + (enc_publication(ps[k - 1]) + enc_pub_seq(
            ps.skip(k),
        )));
    }
}

/// Appends the encoding of a publication list.
pub fn push_pub_array(out: &mut Vec<u8>, pubs: &Vec<Publication>)
    ensures
        final(out)@ == old(out)@ + enc_pub_array(
            pubs@.map_values(|p: Publication| p@),
        ),
{
    let ghost vs = pubs@.map_values(|p: Publication| p@);
    push_hdr(out, 4, pubs.len() as u64);
    let mut k: usize = 0;
    proof {
        assert(vs.take(0) =~= Seq::<PublicationView>::empty());
        assert(enc_pub_seq(vs.take(0)) =~= Seq::<u8>::empty());
        assert(out@ =~= old(out)@ + hdr(4, vs.len() as u64) + enc_pub_seq(vs.take(0)));
    }
    while k < pubs.len()
        invariant
            k <= vs.len(),
            vs == pubs@.map_values(|p: Publication| p@),
            out@ == old(out)@ + hdr(4, vs.len() as u64) + enc_pub_seq(vs.take(k as int)),
        decreases vs.len() - k,
    {
        push_publication(out, &pubs[k]);
        proof {
            assert(vs[k as int] == pubs@[k as int]@);
            assert(vs.take(k as int + 1) =~= vs.take(k as int).push(vs[k as int]));
            lemma_enc_pub_seq_snoc(vs.take(k as int), vs[k as int]);
            assert(out@ =~= old(out)@ + hdr(4, vs.len() as u64) + enc_pub_seq(
                vs.take(k as int + 1),
            ));
        }
        k += 1;
    }
    proof {
        assert(vs.take(vs.len() as int) =~= vs);
        assert(old(out)@ + hdr(4, vs.len() as u64) + enc_pub_seq(vs) =~= old(out)@ + enc_pub_array(
            vs,
        ));
    }
}

/// Reads a publication list at `pos`: succeeds exactly when a list
/// encoding occurs there, and no two lists encode to the same place.
#[verifier::rlimit(50)]
pub fn dec_pub_array(frame: &Vec<u8>, pos: usize) -> (r: Option<(Vec<Publication>, usize)>)
    requires
        pos <= frame@.len(),
    ensures
        r matches Some((v, q)) ==> pos < q <= frame@.len() && q == pos + enc_pub_array(
            v@.map_values(|p: Publication| p@),
        ).len() && chunk_at(
            frame@,
            pos as int,
            enc_pub_array(v@.map_values(|p: Publication| p@)),
        ) && pubs_wf(v@.map_values(|p: Publication| p@)),
        r is None ==> forall|ps: Seq<PublicationView>|
            pubs_wf(ps) ==> !chunk_at(frame@, pos as int, enc_pub_array(ps)),
        r matches Some((v, q)) ==> forall|ps: Seq<PublicationView>|
            pubs_wf(ps) && chunk_at(frame@, pos as int, enc_pub_array(ps)) ==> ps
                == v@.map_values(|p: Publication| p@),
{
    match dec_hdr(frame, pos, 4) {
        None => {
            proof {
                assert forall|ps: Seq<PublicationView>| pubs_wf(ps) implies !chunk_at(
                    frame@,
                    pos as int,
                    enc_pub_array(ps),
                ) by {
                    if chunk_at(frame@, pos as int, enc_pub_array(ps)) {
                        assert(enc_pub_array(ps) == hdr(4, ps.len() as u64) + enc_pub_seq(ps));
                        lemma_chunk_concat(frame@, pos as int, hdr(4, ps.len() as u64),
                            enc_pub_seq(ps));
                        assert(hdr_at(frame@, pos as int, 4, ps.len() as u64));
                    }
                }
            }
            None
        }
        Some((n, q1)) => {
            let flen = frame.len();
            let mut out: Vec<Publication> = Vec::new();
            let mut k: u64 = 0;
            let mut q: usize = q1;
            proof {
                assert(out@.map_values(|p: Publication| p@) =~= Seq::<PublicationView>::empty());
                assert(enc_pub_seq(Seq::<PublicationView>::empty()) =~= Seq::<u8>::empty());
                assert(frame@.subrange(q1 as int, q1 as int) =~= Seq::<u8>::empty());
            }
            while k < n
                invariant
                    k <= n,
                    flen == frame@.len(),
                    pos <= q1 <= q <= flen,
                    out@.len() == k,
                    hdr_at(frame@, pos as int, 4, n),
                    q1 == pos + hdr(4, n).len(),
                    pubs_wf(out@.map_values(|p: Publication| p@)),
                    chunk_at(frame@, q1 as int, enc_pub_seq(out@.map_values(|p: Publication| p@))),
                    q == q1 + enc_pub_seq(out@.map_values(|p: Publication| p@)).len(),
                    forall|ps: Seq<PublicationView>|
                        pubs_wf(ps) && #[trigger] chunk_at(
                            frame@,
                            pos as int,
                            enc_pub_array(ps),
                        ) ==> ps.take(k as int) == out@.map_values(|p: Publication| p@),
                decreases n - k,
            {
                let ghost views = out@.map_values(|p: Publication| p@);
                match dec_publication(frame, q) {
                    None => {
                        proof {
                            assert forall|ps: Seq<PublicationView>|
                                pubs_wf(ps) implies !chunk_at(
                                frame@,
                                pos as int,
                                enc_pub_array(ps),
                            ) by {
                                if chunk_at(frame@, pos as int, enc_pub_array(ps)) {
                                    assert(enc_pub_array(ps) == hdr(4, ps.len() as u64)
                                        + enc_pub_seq(ps));
                                    lemma_chunk_concat(
                                        frame@,
                                        pos as int,
                                        hdr(4, ps.len() as u64),
                                        enc_pub_seq(ps),
                                    );
                                    lemma_hdr_inj(frame@, pos as int, 4, n, ps.len() as u64);
                                    assert(ps.take(k as int) == views);
                                    lemma_enc_pub_seq_split(ps, k as int);
                                    lemma_chunk_concat(
                                        frame@,
                                        q1 as int,
                                        enc_pub_seq(ps.take(k as int)),
                                        enc_pub_seq(ps.skip(k as int)),
                                    );
                                    assert(ps.skip(k as int)[0] == ps[k as int]);
                                    assert(ps.skip(k as int).drop_first() =~= ps.skip(
                                        k as int + 1,
                                    ));
                                    assert(enc_pub_seq(ps.skip(k as int)) == enc_publication(
                                        ps[k as int],
                                    ) + enc_pub_seq(ps.skip(k as int + 1)));
                                    lemma_chunk_concat(
                                        frame@,
                                        q as int,
                                        enc_publication(ps[k as int]),
                                        enc_pub_seq(ps.skip(k as int + 1)),
                                    );
                                }
                            }
                        }
                        return None;
                    }
                    Some((p, q2)) => {
                        let ghost pv = p@;
                        out.push(p);
                        proof {
                            let views2 = out@.map_values(|p: Publication| p@);
                            assert(views2 =~= views.push(pv));
                            lemma_enc_pub_seq_snoc(views, pv);
                            lemma_chunk_concat(
                                frame@,
                                q1 as int,
                                enc_pub_seq(views),
                                enc_publication(pv),
                            );
                            assert(chunk_at(frame@, q1 as int, enc_pub_seq(views2)));
                            assert forall|i: int| 0 <= i < views2.len() implies pub_wf(
                                #[trigger] views2[i],
                            ) by {
                                if i < views.len() {
                                    assert(views2[i] == views[i]);
                                }
                            }
                            assert forall|ps: Seq<PublicationView>|
                                pubs_wf(ps) && #[trigger] chunk_at(
                                    frame@,
                                    pos as int,
                                    enc_pub_array(ps),
                                ) implies ps.take(k as int + 1) == views2 by {
                                assert(enc_pub_array(ps) == hdr(4, ps.len() as u64) + enc_pub_seq(
                                    ps,
                                ));
                                lemma_chunk_concat(
                                    frame@,
                                    pos as int,
                                    hdr(4, ps.len() as u64),
                                    enc_pub_seq(ps),
                                );
                                lemma_hdr_inj(frame@, pos as int, 4, n, ps.len() as u64);
                                assert(ps.take(k as int) == views);
                                lemma_enc_pub_seq_split(ps, k as int);
                                lemma_chunk_concat(
                                    frame@,
                                    q1 as int,
                                    enc_pub_seq(ps.take(k as int)),
                                    enc_pub_seq(ps.skip(k as int)),
                                );
                                assert(ps.skip(k as int)[0] == ps[k as int]);
                                assert(ps.skip(k as int).drop_first() =~= ps.skip(k as int + 1));
                                assert(enc_pub_seq(ps.skip(k as int)) == enc_publication(
                                    ps[k as int],
                                ) + enc_pub_seq(ps.skip(k as int + 1)));
                                lemma_chunk_concat(
                                    frame@,
                                    q as int,
                                    enc_publication(ps[k as int]),
                                    enc_pub_seq(ps.skip(k as int + 1)),
                                );
                                lemma_enc_publication_inj(frame@, q as int, ps[k as int], pv);
                                assert(ps.take(k as int + 1) =~= ps.take(k as int).push(
                                    ps[k as int],
                                ));
                            }
                        }
                        q = q2;
                        k = k + 1;
                    }
                }
            }
            proof {
                let views = out@.map_values(|p: Publication| p@);
                assert(views.len() as u64 == n);
                assert(enc_pub_array(views) == hdr(4, n) + enc_pub_seq(views));
                lemma_chunk_concat(frame@, pos as int, hdr(4, n), enc_pub_seq(views));
                assert(chunk_at(frame@, pos as int, enc_pub_array(views)));
                assert forall|ps: Seq<PublicationView>|
                    pubs_wf(ps) && chunk_at(frame@, pos as int, enc_pub_array(ps)) implies ps
                    == views by {
                    assert(enc_pub_array(ps) == hdr(4, ps.len() as u64) + enc_pub_seq(ps));
                    lemma_chunk_concat(
                        frame@,
                        pos as int,
                        hdr(4, ps.len() as u64),
                        enc_pub_seq(ps),
                    );
                    lemma_hdr_inj(frame@, pos as int, 4, n, ps.len() as u64);
                    assert(ps.take(k as int) == views);
                    assert(ps.take(ps.len() as int) =~= ps);
                }
            }
            Some((out, q))
        }
    }
}

/// A client command fits the length headers.
pub open spec fn client_command_wf(c: ClientCommandView) -> bool {
    match c {
        ClientCommandView::GetLogIndex { .. } => true,
        ClientCommandView::GetLogEntries { entries, .. } => entries.len()
            < 0x10000000000000000,
        ClientCommandView::Subscribe { .. } => true,
        ClientCommandView::Unsubscribe { .. } => true,
        ClientCommandView::SubmitPublication { submission, .. } => submission.len()
            < 0x10000000000000000,
    }
}

/// A client command: the array `[tag, field, ...]` with one unsigned tag
/// per variant.
pub open spec fn enc_client_command(c: ClientCommandView) -> Seq<u8> {
    match c {
        ClientCommandView::GetLogIndex { log_id } => seq![0x82u8, 0x00u8] + enc_uid(log_id),
        ClientCommandView::GetLogEntries { log_id, entries } => seq![0x83u8, 0x01u8] + enc_uid(
            log_id,
        ) + enc_uid_array(entries),
        ClientCommandView::Subscribe { subscription_id } => seq![0x82u8, 0x02u8] + enc_uid(
            subscription_id,
        ),
        ClientCommandView::Unsubscribe { subscription_id } => seq![0x82u8, 0x03u8] + enc_uid(
            subscription_id,
        ),
        ClientCommandView::SubmitPublication { subscription_id, submission } => seq![
            0x83u8,
            0x04u8,
        ] + enc_uid(subscription_id) + enc_bytes(submission),
    }
}

proof fn lemma_cc_parts(s: Seq<u8>, v: ClientCommandView)
    requires
        s == enc_client_command(v),
    ensures
        s.len() >= 19,
        match v {
            ClientCommandView::GetLogIndex { log_id } => s.len() == 19 && s[0] == 0x82 && s[1]
                == 0x00 && chunk_at(s, 2, enc_uid(log_id)),
            ClientCommandView::GetLogEntries { log_id, entries } => s.len() == 19
                + enc_uid_array(entries).len() && s[0] == 0x83 && s[1] == 0x01 && chunk_at(
                s,
                2,
                enc_uid(log_id),
            ) && chunk_at(s, 19, enc_uid_array(entries)),
            ClientCommandView::Subscribe { subscription_id } => s.len() == 19 && s[0] == 0x82
                && s[1] == 0x02 && chunk_at(s, 2, enc_uid(subscription_id)),
            ClientCommandView::Unsubscribe { subscription_id } => s.len() == 19 && s[0] == 0x82
                && s[1] == 0x03 && chunk_at(s, 2, enc_uid(subscription_id)),
            ClientCommandView::SubmitPublication { subscription_id, submission } => s.len() == 19
                + enc_bytes(submission).len() && s[0] == 0x83 && s[1] == 0x04 && chunk_at(
                s,
                2,
                enc_uid(subscription_id),
            ) && chunk_at(s, 19, enc_bytes(submission)),
        },
{
    assert(s.subrange(0, s.len() as int) =~= s);
    match v {
        ClientCommandView::GetLogIndex { log_id } => {
            lemma_enc_uid_len(log_id);
            lemma_chunk_concat(s, 0, seq![0x82u8, 0x00u8], enc_uid(log_id));
            lemma_chunk_index(s, 0, seq![0x82u8, 0x00u8], 0);
            lemma_chunk_index(s, 0, seq![0x82u8, 0x00u8], 1);
        }
        ClientCommandView::GetLogEntries { log_id, entries } => {
            lemma_enc_uid_len(log_id);
            let a = seq![0x83u8, 0x01u8] + enc_uid(log_id);
            lemma_chunk_concat(s, 0, a, enc_uid_array(entries));
            lemma_chunk_concat(s, 0, seq![0x83u8, 0x01u8], enc_uid(log_id));
            lemma_chunk_index(s, 0, seq![0x83u8, 0x01u8], 0);
            lemma_chunk_index(s, 0, seq![0x83u8, 0x01u8], 1);
        }
        ClientCommandView::Subscribe { subscription_id } => {
            lemma_enc_uid_len(subscription_id);
            lemma_chunk_concat(s, 0, seq![0x82u8, 0x02u8], enc_uid(subscription_id));
            lemma_chunk_index(s, 0, seq![0x82u8, 0x02u8], 0);
            lemma_chunk_index(s, 0, seq![0x82u8, 0x02u8], 1);
        }
        ClientCommandView::Unsubscribe { subscription_id } => {
            lemma_enc_uid_len(subscription_id);
            lemma_chunk_concat(s, 0, seq![0x82u8, 0x03u8], enc_uid(subscription_id));
            lemma_chunk_index(s, 0, seq![0x82u8, 0x03u8], 0);
            lemma_chunk_index(s, 0, seq![0x82u8, 0x03u8], 1);
        }
        ClientCommandView::SubmitPublication { subscription_id, submission } => {
            lemma_enc_uid_len(subscription_id);
            let a = seq![0x83u8, 0x04u8] + enc_uid(subscription_id);
            lemma_chunk_concat(s, 0, a, enc_bytes(submission));
            lemma_chunk_concat(s, 0, seq![0x83u8, 0x04u8], enc_uid(subscription_id));
            lemma_chunk_index(s, 0, seq![0x83u8, 0x04u8], 0);
            lemma_chunk_index(s, 0, seq![0x83u8, 0x04u8], 1);
        }
    }
}

/// Encodes a client command as one binary frame.
pub fn encode_client_command(cmd: &ClientCommand) -> (r: Vec<u8>)
    ensures
        r@ == enc_client_command(cmd@),
{
    let mut out: Vec<u8> = Vec::new();
    match cmd {
        ClientCommand::GetLogIndex { log_id } => {
            out.push(0x82);
            out.push(0x00);
            push_uid(&mut out, log_id);
            proof {
                assert(out@ =~= enc_client_command(cmd@));
            }
        }
        ClientCommand::GetLogEntries { log_id, entries } => {
            out.push(0x83);
            out.push(0x01);
            push_uid(&mut out, log_id);
            push_uid_array(&mut out, entries);
            proof {
                assert(out@ =~= enc_client_command(cmd@));
            }
        }
        ClientCommand::Subscribe { subscription_id } => {
            out.push(0x82);
            out.push(0x02);
            push_uid(&mut out, subscription_id);
            proof {
                assert(out@ =~= enc_client_command(cmd@));
            }
        }
        ClientCommand::Unsubscribe { subscription_id } => {
            out.push(0x82);
            out.push(0x03);
            push_uid(&mut out, subscription_id);
            proof {
                assert(out@ =~= enc_client_command(cmd@));
            }
        }
        ClientCommand::SubmitPublication { subscription_id, submission } => {
            out.push(0x83);
            out.push(0x04);
            push_uid(&mut out, subscription_id);
            push_bytes(&mut out, submission);
            proof {
                assert(out@ =~= enc_client_command(cmd@));
            }
        }
    }
    out
}

/// Decodes one binary frame into a client command. Succeeds exactly when
/// the frame is the encoding of a command; what was decoded re-encodes to
/// the original frame byte for byte.
#[verifier::rlimit(50)]
pub fn decode_client_command(frame: &Vec<u8>) -> (r: Option<ClientCommand>)
    ensures
        r matches Some(c) ==> frame@ == enc_client_command(c@) && client_command_wf(c@),
        r is None ==> forall|v: ClientCommandView|
            client_command_wf(v) ==> frame@ != enc_client_command(v),
        r matches Some(c) ==> forall|v: ClientCommandView|
            client_command_wf(v) && frame@ == enc_client_command(v) ==> v == c@,
{
    if frame.len() < 19 {
        proof {
            assert forall|v: ClientCommandView| client_command_wf(v) implies frame@
                != enc_client_command(v) by {
                if frame@ == enc_client_command(v) {
                    lemma_cc_parts(frame@, v);
                }
            }
        }
        return None;
    }
    let first = frame[0];
    let tag = frame[1];
    if tag == 0x00 && first == 0x82 {
        match dec_uid(frame, 2) {
            Some((u, q)) => {
                if q == frame.len() {
                    let c = ClientCommand::GetLogIndex { log_id: u };
                    proof {
                        assert(frame@.subrange(0, 2) =~= seq![0x82u8, 0x00u8]);
                        lemma_chunk_concat(frame@, 0, seq![0x82u8, 0x00u8], enc_uid(u));
                        lemma_enc_uid_len(u);
                        assert(frame@ =~= frame@.subrange(0, frame@.len() as int));
                        assert(frame@ == enc_client_command(c@));
                        assert forall|v: ClientCommandView|
                            client_command_wf(v) && frame@ == enc_client_command(
                                v,
                            ) implies v == c@ by {
                            lemma_cc_parts(frame@, v);
                            match v {
                                ClientCommandView::GetLogIndex { log_id } => {
                                    lemma_enc_uid_inj(frame@, 2, log_id, u);
                                }
                                _ => {}
                            }
                        }
                    }
                    return Some(c);
                }
                proof {
                    assert forall|v: ClientCommandView| client_command_wf(v) implies frame@
                        != enc_client_command(v) by {
                        if frame@ == enc_client_command(v) {
                            lemma_cc_parts(frame@, v);
                            match v {
                                ClientCommandView::GetLogIndex { log_id } => {
                                    lemma_enc_uid_inj(frame@, 2, log_id, u);
                                    lemma_enc_uid_len(u);
                                }
                                _ => {}
                            }
                        }
                    }
                }
                return None;
            }
            None => {
                proof {
                    assert forall|v: ClientCommandView| client_command_wf(v) implies frame@
                        != enc_client_command(v) by {
                        if frame@ == enc_client_command(v) {
                            lemma_cc_parts(frame@, v);
                        }
                    }
                }
                return None;
            }
        }
    }
    if tag == 0x01 && first == 0x83 {
        match dec_uid(frame, 2) {
            Some((u, q)) => {
                match dec_uid_array(frame, q) {
                    Some((entries, q2)) => {
                        if q2 == frame.len() {
                            let n_entries = entries.len();
                            let c = ClientCommand::GetLogEntries { log_id: u, entries };
                            proof {
                                assert(frame@.subrange(0, 2) =~= seq![0x83u8, 0x01u8]);
                                lemma_chunk_concat(frame@, 0, seq![0x83u8, 0x01u8], enc_uid(u));
                                lemma_enc_uid_len(u);
                                lemma_chunk_concat(
                                    frame@,
                                    0,
                                    seq![0x83u8, 0x01u8] + enc_uid(u),
                                    enc_uid_array(c->GetLogEntries_entries@),
                                );
                                assert(frame@ =~= frame@.subrange(0, frame@.len() as int));
                                assert(frame@ == enc_client_command(c@));
                                assert forall|v: ClientCommandView|
                                    client_command_wf(v) && frame@ == enc_client_command(
                                        v,
                                    ) implies v == c@ by {
                                    lemma_cc_parts(frame@, v);
                                    match v {
                                        ClientCommandView::GetLogEntries { log_id, entries: e2 } => {
                                            lemma_enc_uid_inj(frame@, 2, log_id, u);
                                        }
                                        _ => {}
                                    }
                                }
                            }
                            return Some(c);
                        }
                        proof {
                            assert forall|v: ClientCommandView|
                                client_command_wf(v) implies frame@ != enc_client_command(
                                v,
                            ) by {
                                if frame@ == enc_client_command(v) {
                                    lemma_cc_parts(frame@, v);
                                    match v {
                                        ClientCommandView::GetLogEntries { log_id, entries: e2 } => {
                                            lemma_enc_uid_inj(frame@, 2, log_id, u);
                                            lemma_enc_uid_len(u);
                                        }
                                        _ => {}
                                    }
                                }
                            }
                        }
                        return None;
                    }
                    None => {
                        proof {
                            assert forall|v: ClientCommandView|
                                client_command_wf(v) implies frame@ != enc_client_command(
                                v,
                            ) by {
                                if frame@ == enc_client_command(v) {
                                    lemma_cc_parts(frame@, v);
                                    match v {
                                        ClientCommandView::GetLogEntries { log_id, entries: e2 } => {
                                            lemma_enc_uid_inj(frame@, 2, log_id, u);
                                            lemma_enc_uid_len(u);
                                        }
                                        _ => {}
                                    }
                                }
                            }
                        }
                        return None;
                    }
                }
            }
            None => {
                proof {
                    assert forall|v: ClientCommandView| client_command_wf(v) implies frame@
                        != enc_client_command(v) by {
                        if frame@ == enc_client_command(v) {
                            lemma_cc_parts(frame@, v);
                        }
                    }
                }
                return None;
            }
        }
    }
    if tag == 0x02 && first == 0x82 {
        match dec_uid(frame, 2) {
            Some((u, q)) => {
                if q == frame.len() {
                    let c = ClientCommand::Subscribe { subscription_id: u };
                    proof {
                        assert(frame@.subrange(0, 2) =~= seq![0x82u8, 0x02u8]);
                        lemma_chunk_concat(frame@, 0, seq![0x82u8, 0x02u8], enc_uid(u));
                        lemma_enc_uid_len(u);
                        assert(frame@ =~= frame@.subrange(0, frame@.len() as int));
                        assert(frame@ == enc_client_command(c@));
                        assert forall|v: ClientCommandView|
                            client_command_wf(v) && frame@ == enc_client_command(
                                v,
                            ) implies v == c@ by {
                            lemma_cc_parts(frame@, v);
                            match v {
                                ClientCommandView::Subscribe { subscription_id } => {
                                    lemma_enc_uid_inj(frame@, 2, subscription_id, u);
                                }
                                _ => {}
                            }
                        }
                    }
                    return Some(c);
                }
                proof {
                    assert forall|v: ClientCommandView| client_command_wf(v) implies frame@
                        != enc_client_command(v) by {
                        if frame@ == enc_client_command(v) {
                            lemma_cc_parts(frame@, v);
                            match v {
                                ClientCommandView::Subscribe { subscription_id } => {
                                    lemma_enc_uid_inj(frame@, 2, subscription_id, u);
                                    lemma_enc_uid_len(u);
                                }
                                _ => {}
                            }
                        }
                    }
                }
                return None;
            }
            None => {
                proof {
                    assert forall|v: ClientCommandView| client_command_wf(v) implies frame@
                        != enc_client_command(v) by {
                        if frame@ == enc_client_command(v) {
                            lemma_cc_parts(frame@, v);
                        }
                    }
                }
                return None;
            }
        }
    }
    if tag == 0x03 && first == 0x82 {
        match dec_uid(frame, 2) {
            Some((u, q)) => {
                if q == frame.len() {
                    let c = ClientCommand::Unsubscribe { subscription_id: u };
                    proof {
                        assert(frame@.subrange(0, 2) =~= seq![0x82u8, 0x03u8]);
                        lemma_chunk_concat(frame@, 0, seq![0x82u8, 0x03u8], enc_uid(u));
                        lemma_enc_uid_len(u);
                        assert(frame@ =~= frame@.subrange(0, frame@.len() as int));
                        assert(frame@ == enc_client_command(c@));
                        assert forall|v: ClientCommandView|
                            client_command_wf(v) && frame@ == enc_client_command(
                                v,
                            ) implies v == c@ by {
                            lemma_cc_parts(frame@, v);
                            match v {
                                ClientCommandView::Unsubscribe { subscription_id } => {
                                    lemma_enc_uid_inj(frame@, 2, subscription_id, u);
                                }
                                _ => {}
                            }
                        }
                    }
                    return Some(c);
                }
                proof {
                    assert forall|v: ClientCommandView| client_command_wf(v) implies frame@
                        != enc_client_command(v) by {
                        if frame@ == enc_client_command(v) {
                            lemma_cc_parts(frame@, v);
                            match v {
                                ClientCommandView::Unsubscribe { subscription_id } => {
                                    lemma_enc_uid_inj(frame@, 2, subscription_id, u);
                                    lemma_enc_uid_len(u);
                                }
                                _ => {}
                            }
                        }
                    }
                }
                return None;
            }
            None => {
                proof {
                    assert forall|v: ClientCommandView| client_command_wf(v) implies frame@
                        != enc_client_command(v) by {
                        if frame@ == enc_client_command(v) {
                            lemma_cc_parts(frame@, v);
                        }
                    }
                }
                return None;
            }
        }
    }
    if tag == 0x04 && first == 0x83 {
        match dec_uid(frame, 2) {
            Some((u, q)) => {
                match dec_bytes(frame, q) {
                    Some((submission, q2)) => {
                        if q2 == frame.len() {
                            let n_submission = submission.len();
                            let c = ClientCommand::SubmitPublication {
                                subscription_id: u,
                                submission,
                            };
                            proof {
                                assert(frame@.subrange(0, 2) =~= seq![0x83u8, 0x04u8]);
                                lemma_chunk_concat(frame@, 0, seq![0x83u8, 0x04u8], enc_uid(u));
                                lemma_enc_uid_len(u);
                                lemma_chunk_concat(
                                    frame@,
                                    0,
                                    seq![0x83u8, 0x04u8] + enc_uid(u),
                                    enc_bytes(c->SubmitPublication_submission@),
                                );
                                assert(frame@ =~= frame@.subrange(0, frame@.len() as int));
                                assert(frame@ == enc_client_command(c@));
                                assert forall|v: ClientCommandView|
                                    client_command_wf(v) && frame@ == enc_client_command(
                                        v,
                                    ) implies v == c@ by {
                                    lemma_cc_parts(frame@, v);
                                    match v {
                                        ClientCommandView::SubmitPublication { subscription_id, submission: s2 } => {
                                            lemma_enc_uid_inj(frame@, 2, subscription_id, u);
                                            lemma_enc_bytes_inj(
                                                frame@,
                                                19,
                                                s2,
                                                c->SubmitPublication_submission@,
                                            );
                                        }
                                        _ => {}
                                    }
                                }
                            }
                            return Some(c);
                        }
                        proof {
                            assert forall|v: ClientCommandView|
                                client_command_wf(v) implies frame@ != enc_client_command(
                                v,
                            ) by {
                                if frame@ == enc_client_command(v) {
                                    lemma_cc_parts(frame@, v);
                                    match v {
                                        ClientCommandView::SubmitPublication { subscription_id, submission: s2 } => {
                                            lemma_enc_uid_inj(frame@, 2, subscription_id, u);
                                            lemma_enc_uid_len(u);
                                            lemma_enc_bytes_inj(frame@, 19, s2, submission@);
                                        }
                                        _ => {}
                                    }
                                }
                            }
                        }
                        return None;
                    }
                    None => {
                        proof {
                            assert forall|v: ClientCommandView|
                                client_command_wf(v) implies frame@ != enc_client_command(
                                v,
                            ) by {
                                if frame@ == enc_client_command(v) {
                                    lemma_cc_parts(frame@, v);
                                    match v {
                                        ClientCommandView::SubmitPublication { subscription_id, submission: s2 } => {
                                            lemma_enc_uid_inj(frame@, 2, subscription_id, u);
                                            lemma_enc_uid_len(u);
                                        }
                                        _ => {}
                                    }
                                }
                            }
                        }
                        return None;
                    }
                }
            }
            None => {
                proof {
                    assert forall|v: ClientCommandView| client_command_wf(v) implies frame@
                        != enc_client_command(v) by {
                        if frame@ == enc_client_command(v) {
                            lemma_cc_parts(frame@, v);
                        }
                    }
                }
                return None;
            }
        }
    }
    proof {
        assert forall|v: ClientCommandView| client_command_wf(v) implies frame@
            != enc_client_command(v) by {
            if frame@ == enc_client_command(v) {
                lemma_cc_parts(frame@, v);
            }
        }
    }
    None
}

/// A server message fits the length headers.
pub open spec fn server_message_wf(m: ServerMessageView) -> bool {
    match m {
        ServerMessageView::Issue(_) => true,
        ServerMessageView::LogIndex(_, ids) => ids.len() < 0x10000000000000000,
        ServerMessageView::LogEntry(ps) => pubs_wf(ps),
    }
}

/// A server message: the array `[tag, field, ...]` with one unsigned tag
/// per variant.
pub open spec fn enc_server_message(m: ServerMessageView) -> Seq<u8> {
    match m {
        ServerMessageView::Issue(i) => seq![0x83u8, 0x00u8] + enc_uid(i.0) + enc_uid(i.1),
        ServerMessageView::LogIndex(sub, ids) => seq![0x83u8, 0x01u8] + enc_uid(sub)
            + enc_uid_array(ids),
        ServerMessageView::LogEntry(ps) => seq![0x82u8, 0x02u8] + enc_pub_array(ps),
    }
}

proof fn lemma_sm_parts(s: Seq<u8>, v: ServerMessageView)
    requires
        s == enc_server_message(v),
    ensures
        s.len() >= 2,
        match v {
            ServerMessageView::Issue(i) => s.len() == 36 && s[0] == 0x83 && s[1] == 0x00
                && chunk_at(s, 2, enc_uid(i.0)) && chunk_at(s, 19, enc_uid(i.1)),
            ServerMessageView::LogIndex(sub, ids) => s.len() == 19 + enc_uid_array(ids).len()
                && s[0] == 0x83 && s[1] == 0x01 && chunk_at(s, 2, enc_uid(sub)) && chunk_at(
                s,
                19,
                enc_uid_array(ids),
            ),
            ServerMessageView::LogEntry(ps) => s.len() == 2 + enc_pub_array(ps).len() && s[0]
                == 0x82 && s[1] == 0x02 && chunk_at(s, 2, enc_pub_array(ps)),
        },
{
    assert(s.subrange(0, s.len() as int) =~= s);
    match v {
        ServerMessageView::Issue(i) => {
            lemma_enc_uid_len(i.0);
            lemma_enc_uid_len(i.1);
            let a = seq![0x83u8, 0x00u8] + enc_uid(i.0);
            lemma_chunk_concat(s, 0, a, enc_uid(i.1));
            lemma_chunk_concat(s, 0, seq![0x83u8, 0x00u8], enc_uid(i.0));
            lemma_chunk_index(s, 0, seq![0x83u8, 0x00u8], 0);
            lemma_chunk_index(s, 0, seq![0x83u8, 0x00u8], 1);
        }
        ServerMessageView::LogIndex(sub, ids) => {
            lemma_enc_uid_len(sub);
            let a = seq![0x83u8, 0x01u8] + enc_uid(sub);
            lemma_chunk_concat(s, 0, a, enc_uid_array(ids));
            lemma_chunk_concat(s, 0, seq![0x83u8, 0x01u8], enc_uid(sub));
            lemma_chunk_index(s, 0, seq![0x83u8, 0x01u8], 0);
            lemma_chunk_index(s, 0, seq![0x83u8, 0x01u8], 1);
        }
        ServerMessageView::LogEntry(ps) => {
            lemma_chunk_concat(s, 0, seq![0x82u8, 0x02u8], enc_pub_array(ps));
            lemma_chunk_index(s, 0, seq![0x82u8, 0x02u8], 0);
            lemma_chunk_index(s, 0, seq![0x82u8, 0x02u8], 1);
        }
    }
}

/// Encodes a server message as one binary frame.
pub fn encode_server_message(msg: &ServerMessage) -> (r: Vec<u8>)
    ensures
        r@ == enc_server_message(msg@),
{
    let mut out: Vec<u8> = Vec::new();
    match msg {
        ServerMessage::Issue(i) => {
            out.push(0x83);
            out.push(0x00);
            push_uid(&mut out, &i.0);
            push_uid(&mut out, &i.1);
            proof {
                assert(out@ =~= enc_server_message(msg@));
            }
        }
        ServerMessage::LogIndex(sub, ids) => {
            out.push(0x83);
            out.push(0x01);
            push_uid(&mut out, sub);
            push_uid_array(&mut out, ids);
            proof {
                assert(out@ =~= enc_server_message(msg@));
            }
        }
        ServerMessage::LogEntry(entries) => {
            out.push(0x82);
            out.push(0x02);
            push_pub_array(&mut out, entries);
            proof {
                assert(out@ =~= enc_server_message(msg@));
            }
        }
    }
    out
}

/// Decodes one binary frame into a server message. Succeeds exactly when
/// the frame is the encoding of a message; what was decoded re-encodes to
/// the original frame byte for byte.
#[verifier::rlimit(50)]
pub fn decode_server_message(frame: &Vec<u8>) -> (r: Option<ServerMessage>)
    ensures
        r matches Some(m) ==> frame@ == enc_server_message(m@) && server_message_wf(m@),
        r is None ==> forall|v: ServerMessageView|
            server_message_wf(v) ==> frame@ != enc_server_message(v),
        r matches Some(m) ==> forall|v: ServerMessageView|
            server_message_wf(v) && frame@ == enc_server_message(v) ==> v == m@,
{
    if frame.len() < 2 {
        proof {
            assert forall|v: ServerMessageView| server_message_wf(v) implies frame@
                != enc_server_message(v) by {
                if frame@ == enc_server_message(v) {
                    lemma_sm_parts(frame@, v);
                }
            }
        }
        return None;
    }
    let first = frame[0];
    let tag = frame[1];
    if tag == 0x00 && first == 0x83 {
        match dec_uid(frame, 2) {
            Some((sub, q)) => {
                match dec_uid(frame, q) {
                    Some((pid, q2)) => {
                        if q2 == frame.len() {
                            let m = ServerMessage::Issue(Issue(sub, pid));
                            proof {
                                assert(frame@.subrange(0, 2) =~= seq![0x83u8, 0x00u8]);
                                lemma_chunk_concat(frame@, 0, seq![0x83u8, 0x00u8], enc_uid(sub));
                                lemma_enc_uid_len(sub);
                                lemma_enc_uid_len(pid);
                                lemma_chunk_concat(
                                    frame@,
                                    0,
                                    seq![0x83u8, 0x00u8] + enc_uid(sub),
                                    enc_uid(pid),
                                );
                                assert(frame@ =~= frame@.subrange(0, frame@.len() as int));
                                assert(frame@ == enc_server_message(m@));
                                assert forall|v: ServerMessageView|
                                    server_message_wf(v) && frame@ == enc_server_message(
                                        v,
                                    ) implies v == m@ by {
                                    lemma_sm_parts(frame@, v);
                                    match v {
                                        ServerMessageView::Issue(i) => {
                                            lemma_enc_uid_inj(frame@, 2, i.0, sub);
                                            lemma_enc_uid_inj(frame@, 19, i.1, pid);
                                        }
                                        _ => {}
                                    }
                                }
                            }
                            return Some(m);
                        }
                        proof {
                            assert forall|v: ServerMessageView|
                                server_message_wf(v) implies frame@ != enc_server_message(
                                v,
                            ) by {
                                if frame@ == enc_server_message(v) {
                                    lemma_sm_parts(frame@, v);
                                    match v {
                                        ServerMessageView::Issue(i) => {
                                            lemma_enc_uid_inj(frame@, 2, i.0, sub);
                                            lemma_enc_uid_len(sub);
                                        }
                                        _ => {}
                                    }
                                }
                            }
                        }
                        return None;
                    }
                    None => {
                        proof {
                            assert forall|v: ServerMessageView|
                                server_message_wf(v) implies frame@ != enc_server_message(
                                v,
                            ) by {
                                if frame@ == enc_server_message(v) {
                                    lemma_sm_parts(frame@, v);
                                    match v {
                                        ServerMessageView::Issue(i) => {
                                            lemma_enc_uid_inj(frame@, 2, i.0, sub);
                                            lemma_enc_uid_len(sub);
                                        }
                                        _ => {}
                                    }
                                }
                            }
                        }
                        return None;
                    }
                }
            }
            None => {
                proof {
                    assert forall|v: ServerMessageView| server_message_wf(v) implies frame@
                        != enc_server_message(v) by {
                        if frame@ == enc_server_message(v) {
                            lemma_sm_parts(frame@, v);
                        }
                    }
                }
                return None;
            }
        }
    }
    if tag == 0x01 && first == 0x83 {
        match dec_uid(frame, 2) {
            Some((sub, q)) => {
                match dec_uid_array(frame, q) {
                    Some((ids, q2)) => {
                        if q2 == frame.len() {
                            let n_ids = ids.len();
                            let m = ServerMessage::LogIndex(sub, ids);
                            proof {
                                assert(frame@.subrange(0, 2) =~= seq![0x83u8, 0x01u8]);
                                lemma_chunk_concat(frame@, 0, seq![0x83u8, 0x01u8], enc_uid(sub));
                                lemma_enc_uid_len(sub);
                                lemma_chunk_concat(
                                    frame@,
                                    0,
                                    seq![0x83u8, 0x01u8] + enc_uid(sub),
                                    enc_uid_array(m->LogIndex_1@),
                                );
                                assert(frame@ =~= frame@.subrange(0, frame@.len() as int));
                                assert(frame@ == enc_server_message(m@));
                                assert forall|v: ServerMessageView|
                                    server_message_wf(v) && frame@ == enc_server_message(
                                        v,
                                    ) implies v == m@ by {
                                    lemma_sm_parts(frame@, v);
                                    match v {
                                        ServerMessageView::LogIndex(s2, i2) => {
                                            lemma_enc_uid_inj(frame@, 2, s2, sub);
                                        }
                                        _ => {}
                                    }
                                }
                            }
                            return Some(m);
                        }
                        proof {
                            assert forall|v: ServerMessageView|
                                server_message_wf(v) implies frame@ != enc_server_message(
                                v,
                            ) by {
                                if frame@ == enc_server_message(v) {
                                    lemma_sm_parts(frame@, v);
                                    match v {
                                        ServerMessageView::LogIndex(s2, i2) => {
                                            lemma_enc_uid_inj(frame@, 2, s2, sub);
                                            lemma_enc_uid_len(sub);
                                        }
                                        _ => {}
                                    }
                                }
                            }
                        }
                        return None;
                    }
                    None => {
                        proof {
                            assert forall|v: ServerMessageView|
                                server_message_wf(v) implies frame@ != enc_server_message(
                                v,
                            ) by {
                                if frame@ == enc_server_message(v) {
                                    lemma_sm_parts(frame@, v);
                                    match v {
                                        ServerMessageView::LogIndex(s2, i2) => {
                                            lemma_enc_uid_inj(frame@, 2, s2, sub);
                                            lemma_enc_uid_len(sub);
                                        }
                                        _ => {}
                                    }
                                }
                            }
                        }
                        return None;
                    }
                }
            }
            None => {
                proof {
                    assert forall|v: ServerMessageView| server_message_wf(v) implies frame@
                        != enc_server_message(v) by {
                        if frame@ == enc_server_message(v) {
                            lemma_sm_parts(frame@, v);
                        }
                    }
                }
                return None;
            }
        }
    }
    if tag == 0x02 && first == 0x82 {
        match dec_pub_array(frame, 2) {
            Some((entries, q2)) => {
                if q2 == frame.len() {
                    let n_entries = entries.len();
                    let m = ServerMessage::LogEntry(entries);
                    proof {
                        assert(frame@.subrange(0, 2) =~= seq![0x82u8, 0x02u8]);
                        lemma_chunk_concat(
                            frame@,
                            0,
                            seq![0x82u8, 0x02u8],
                            enc_pub_array(m->LogEntry_0@.map_values(|p: Publication| p@)),
                        );
                        assert(frame@ =~= frame@.subrange(0, frame@.len() as int));
                        assert(frame@ == enc_server_message(m@));
                        assert forall|v: ServerMessageView|
                            server_message_wf(v) && frame@ == enc_server_message(
                                v,
                            ) implies v == m@ by {
                            lemma_sm_parts(frame@, v);
                        }
                    }
                    return Some(m);
                }
                proof {
                    assert forall|v: ServerMessageView| server_message_wf(v) implies frame@
                        != enc_server_message(v) by {
                        if frame@ == enc_server_message(v) {
                            lemma_sm_parts(frame@, v);
                        }
                    }
                }
                return None;
            }
            None => {
                proof {
                    assert forall|v: ServerMessageView| server_message_wf(v) implies frame@
                        != enc_server_message(v) by {
                        if frame@ == enc_server_message(v) {
                            lemma_sm_parts(frame@, v);
                        }
                    }
                }
                return None;
            }
        }
    }
    proof {
        assert forall|v: ServerMessageView| server_message_wf(v) implies frame@
            != enc_server_message(v) by {
            if frame@ == enc_server_message(v) {
                lemma_sm_parts(frame@, v);
            }
        }
    }
    None
}

} // verus!
