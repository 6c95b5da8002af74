//! The Simple Paged Results control: its decoded form, the BER layout of its
//! value, the encoder and decoder, and the laws that relate them.

use vstd::prelude::*;

use crate::ber::{
    be_bytes, be_val, lemma_be_bytes_len, lemma_be_val_of_be_bytes, lemma_octet_count_le,
    lemma_subrange_split, lemma_tlv_at_of_tlv, ber_len, octet_count, parse_be_u64, pow256,
    push_be, push_bytes, push_len, read_tlv, tlv, tlv_at,
};
use vstd::slice::{slice_subrange, slice_to_vec};

verus! {

/// The object identifier under which directory servers know this control.
pub const PAGED_RESULTS_OID: &'static str = "1.2.840.113556.1.4.319";

/// The decoded form of the control value: the page size asked for by a client
/// (or, in a response, the server's estimate of the entries that remain) and
/// the opaque continuation cookie, preserved byte for byte.
#[derive(Clone, Debug)]
pub struct PagedResults {
    pub size: i32,
    pub cookie: Vec<u8>,
}

/// The standard LDAP control envelope around one encoded control value: the
/// identifying OID, the criticality flag, and the value octets.
#[derive(Clone, Debug)]
pub struct Control {
    pub oid: &'static str,
    pub criticality: bool,
    pub value: Option<Vec<u8>>,
}

/// The first structural fault found while decoding a control value.
#[derive(Clone, Copy, Debug, PartialEq, Eq, Structural)]
pub enum DecodeError {
    /// No well-formed tag-length-value unit starts the input.
    BadTlv,
    /// The outer unit is primitive where a SEQUENCE was expected.
    NotConstructed,
    /// The sequence holds fewer than two well-formed elements.
    MissingElement,
    /// The first element is not a primitive universal INTEGER.
    NotInteger,
    /// The INTEGER content is empty or longer than eight octets.
    BadInteger,
    /// The second element is constructed where primitive content was expected.
    NotPrimitive,
}

/// The octet count of the shortest two's complement encoding of `v`.
pub open spec fn int_len(v: int) -> nat {
    if -0x80 <= v < 0x80 {
        1
    } else if -0x8000 <= v < 0x8000 {
        2
    } else if -0x80_0000 <= v < 0x80_0000 {
        3
    } else {
        4
    }
}

/// The unsigned value whose octets spell the two's complement encoding of `v`.
pub open spec fn int_urep(v: int) -> nat {
    if v >= 0 {
        v as nat
    } else {
        (v + pow256(int_len(v))) as nat
    }
}

/// The content octets of a BER INTEGER holding `v`: shortest two's
/// complement, big-endian.
pub open spec fn int_content(v: int) -> Seq<u8> {
    be_bytes(int_urep(v), int_len(v))
}

/// The BER encoding of the control value:
/// `SEQUENCE { INTEGER size, OCTET STRING cookie }`.
pub open spec fn spec_encode(size: int, cookie: Seq<u8>) -> Seq<u8> {
    tlv(0x30, tlv(0x02, int_content(size)) + tlv(0x04, cookie))
}

/// The 32-bit signed value that the low 32 bits of `u` spell in two's
/// complement; the narrowing that the decoder applies to the INTEGER.
pub open spec fn as_i32(u: nat) -> int {
    let low = u % 0x1_0000_0000;
    if low < 0x8000_0000 {
        low as int
    } else {
        low - 0x1_0000_0000
    }
}

/// What decoding a control value yields: the size and cookie of the first two
/// elements of the outer SEQUENCE, or the first structural fault found.  The
/// outer unit may carry any constructed tag, octets may trail it, and the
/// second element may carry any primitive tag: directory servers are read
/// permissively.  Elements after the second are not examined.
pub open spec fn spec_decode(s: Seq<u8>) -> Result<(int, Seq<u8>), DecodeError> {
    match tlv_at(s, 0) {
        None => Err(DecodeError::BadTlv),
        Some(outer) => {
            if outer.0 & 0x20 == 0 {
                Err(DecodeError::NotConstructed)
            } else {
                let end = outer.1 + outer.2;
                match tlv_at(s, outer.1) {
                    None => Err(DecodeError::MissingElement),
                    Some(first) => {
                        if first.1 + first.2 > end {
                            Err(DecodeError::MissingElement)
                        } else if first.0 != 0x02 {
                            Err(DecodeError::NotInteger)
                        } else if first.2 == 0 || first.2 > 8 {
                            Err(DecodeError::BadInteger)
                        } else {
                            let u = be_val(
                                s.subrange(first.1 as int, first.1 as int + first.2 as int),
                            );
                            match tlv_at(s, first.1 + first.2) {
                                None => Err(DecodeError::MissingElement),
                                Some(second) => {
                                    if second.1 + second.2 > end {
                                        Err(DecodeError::MissingElement)
                                    } else if second.0 & 0x20 != 0 {
                                        Err(DecodeError::NotPrimitive)
                                    } else {
                                        Ok(
                                            (
                                                as_i32(u),
                                                s.subrange(
                                                    second.1 as int,
                                                    second.1 as int + second.2 as int,
                                                ),
                                            ),
                                        )
                                    }
                                },
                            }
                        }
                    },
                }
            }
        },
    }
}

/// The unsigned representation of `v` fits its octet count, and a
/// non-negative `v` reads back as itself.
proof fn lemma_int_content(v: int)
    requires
        -0x8000_0000 <= v < 0x8000_0000,
    ensures
        int_content(v).len() == int_len(v),
        int_urep(v) < pow256(int_len(v)),
        v >= 0 ==> be_val(int_content(v)) == v,
{
    reveal_with_fuel(pow256, 5);
    lemma_be_bytes_len(int_urep(v), int_len(v));
    if v >= 0 {
        lemma_be_val_of_be_bytes(int_urep(v), int_len(v));
    }
}

/// An encoding of a non-negative size and a cookie that a buffer could hold
/// decodes back to exactly the size and cookie it was built from, whatever
/// octets trail the outer SEQUENCE: the decoder never looks past it.
#[verifier::rlimit(50)]
pub proof fn lemma_decode_of_encoding(size: int, cookie: Seq<u8>, rest: Seq<u8>)
    requires
        0 <= size < 0x8000_0000,
        cookie.len() < 0xffff_ffff_ffff_ffe0,
    ensures
        spec_decode(spec_encode(size, cookie) + rest) == Ok::<(int, Seq<u8>), DecodeError>(
            (size, cookie),
        ),
{
    let ic = int_content(size);
    let itlv = tlv(0x02, ic);
    let ctlv = tlv(0x04, cookie);
    let inner = itlv + ctlv;
    let s = spec_encode(size, cookie) + rest;
    lemma_int_content(size);
    reveal_with_fuel(pow256, 9);
    assert(cookie.len() + 32 < pow256(8));
    assert(0x30u8 & 0x1fu8 != 0x1fu8 && 0x30u8 & 0x20u8 != 0u8 && 0x02u8 & 0x1fu8 != 0x1fu8
        && 0x02u8 & 0x20u8 == 0u8 && 0x04u8 & 0x1fu8 != 0x1fu8 && 0x04u8 & 0x20u8 == 0u8)
        by (bit_vector);
    assert(ber_len(ic.len()).len() == 1);
    if cookie.len() < 128 {
        assert(ber_len(cookie.len()).len() == 1);
    } else {
        lemma_octet_count_le(cookie.len(), 8);
        lemma_be_bytes_len(cookie.len(), octet_count(cookie.len()));
        assert(ber_len(cookie.len()).len() == 1 + octet_count(cookie.len()));
    }
    assert(itlv.len() == 2 + ic.len());
    assert(ctlv.len() == 1 + ber_len(cookie.len()).len() + cookie.len());
    assert(inner.len() < pow256(8));
    assert(s.subrange(0, tlv(0x30, inner).len() as int) =~= tlv(0x30, inner));
    lemma_tlv_at_of_tlv(s, 0, 0x30, inner);
    let hl0 = 1 + ber_len(inner.len()).len();
    let end = hl0 + inner.len();
    lemma_subrange_split(s, hl0, itlv, ctlv);
    lemma_tlv_at_of_tlv(s, hl0, 0x02, ic);
    assert(tlv_at(s, hl0) == Some((0x02u8, hl0 + 2, ic.len())));
    lemma_tlv_at_of_tlv(s, hl0 + itlv.len(), 0x04, cookie);
    assert(be_val(s.subrange(hl0 as int + 2, hl0 as int + 2 + ic.len() as int)) == size);
    assert(as_i32(size as nat) == size);
    assert(spec_decode(s) == Ok::<(int, Seq<u8>), DecodeError>((size, cookie)));
}

/// Round trip: `decode` after `encode` gives back every non-negative size
/// with every cookie a buffer could hold.  (A negative size does not survive
/// the trip: the decoder reads the INTEGER content as unsigned, so a size of
/// -1 comes back as 255.)
pub proof fn lemma_round_trip(size: int, cookie: Seq<u8>)
    requires
        0 <= size < 0x8000_0000,
        cookie.len() < 0xffff_ffff_ffff_ffe0,
    ensures
        spec_decode(spec_encode(size, cookie)) == Ok::<(int, Seq<u8>), DecodeError>(
            (size, cookie),
        ),
{
    lemma_decode_of_encoding(size, cookie, Seq::empty());
    assert(spec_encode(size, cookie) + Seq::<u8>::empty() =~= spec_encode(size, cookie));
}

/// A value that opens with a primitive identifier octet — a bare INTEGER
/// among them — never decodes: the outer unit must be constructed.
pub proof fn lemma_primitive_outer_rejected(s: Seq<u8>)
    requires
        s.len() == 0 || s[0] & 0x20 == 0,
    ensures
        spec_decode(s) is Err,
{
    match tlv_at(s, 0) {
        Some(h) => {
            assert(h.0 == s[0]);
        },
        None => {
        },
    }
}

/// The shortest two's complement representation of `v`: its octet count and
/// the unsigned value its octets spell.
fn int_repr(v: i32) -> (r: (usize, u64))
    ensures
        r.0 == int_len(v as int),
        r.1 == int_urep(v as int),
        r.1 < pow256(r.0 as nat),
{
    proof {
        reveal_with_fuel(pow256, 5);
    }
    if -0x80 <= v && v < 0x80 {
        if v >= 0 {
            (1, v as u64)
        } else {
            (1, (v as i64 + 0x100) as u64)
        }
    } else if -0x8000 <= v && v < 0x8000 {
        if v >= 0 {
            (2, v as u64)
        } else {
            (2, (v as i64 + 0x1_0000) as u64)
        }
    } else if -0x80_0000 <= v && v < 0x80_0000 {
        if v >= 0 {
            (3, v as u64)
        } else {
            (3, (v as i64 + 0x100_0000) as u64)
        }
    } else {
        if v >= 0 {
            (4, v as u64)
        } else {
            (4, (v as i64 + 0x1_0000_0000) as u64)
        }
    }
}

impl PagedResults {
    /// The object identifier of the paged results control; the same for every
    /// instance.
    pub fn oid(&self) -> (r: &'static str)
        ensures
            r@ == PAGED_RESULTS_OID@,
    {
        PAGED_RESULTS_OID
    }

    /// Encodes the control value: a SEQUENCE holding the size INTEGER and the
    /// cookie OCTET STRING, ready to be wrapped in a control envelope.
    pub fn encode_value(&self) -> (r: Vec<u8>)
        ensures
            r@ == spec_encode(self.size as int, self.cookie@),
    {
        let (k, u) = int_repr(self.size);
        let mut inner: Vec<u8> = Vec::new();
        inner.push(0x02);
        inner.push(k as u8);
        push_be(&mut inner, u, k);
        proof {
            lemma_be_bytes_len(int_urep(self.size as int), int_len(self.size as int));
            assert(inner@ =~= tlv(0x02, int_content(self.size as int)));
        }
        let ghost itlv = inner@;
        inner.push(0x04);
        push_len(&mut inner, self.cookie.len());
        push_bytes(&mut inner, self.cookie.as_slice());
        proof {
            assert(inner@ =~= itlv + tlv(0x04, self.cookie@));
        }
        let mut out: Vec<u8> = Vec::new();
        out.push(0x30);
        push_len(&mut out, inner.len());
        push_bytes(&mut out, inner.as_slice());
        proof {
            assert(out@ =~= tlv(0x30, inner@));
        }
        out
    }

    /// Wraps the encoded value in the control envelope, under the paged
    /// results OID and the criticality the caller chose.  The value octets do
    /// not depend on the flag.
    pub fn into_control(&self, critical: bool) -> (r: Control)
        ensures
            r.oid@ == PAGED_RESULTS_OID@,
            r.criticality == critical,
            r.value is Some,
            r.value.unwrap()@ == spec_encode(self.size as int, self.cookie@),
    {
        Control { oid: PAGED_RESULTS_OID, criticality: critical, value: Some(self.encode_value()) }
    }

    /// Decodes raw control-value octets into the size and cookie, exactly as
    /// `spec_decode` describes.  Every structural fault in the peer-supplied
    /// input is reported as an error; nothing panics.
    pub fn parse(val: &[u8]) -> (r: Result<PagedResults, DecodeError>)
        ensures
            match r {
                Ok(pr) => spec_decode(val@) == Ok::<(int, Seq<u8>), DecodeError>(
                    (pr.size as int, pr.cookie@),
                ),
                Err(e) => spec_decode(val@) == Err::<(int, Seq<u8>), DecodeError>(e),
            },
    {
        let outer = match read_tlv(val, 0) {
            Some(h) => h,
            None => {
                return Err(DecodeError::BadTlv);
            },
        };
        if outer.0 & 0x20 == 0 {
            return Err(DecodeError::NotConstructed);
        }
        let end = outer.1 + outer.2;
        let first = match read_tlv(val, outer.1) {
            Some(h) => h,
            None => {
                return Err(DecodeError::MissingElement);
            },
        };
        if first.1 + first.2 > end {
            return Err(DecodeError::MissingElement);
        }
        if first.0 != 0x02 {
            return Err(DecodeError::NotInteger);
        }
        if first.2 == 0 || first.2 > 8 {
            return Err(DecodeError::BadInteger);
        }
        let u = parse_be_u64(val, first.1, first.1 + first.2);
        let low: u64 = u % 0x1_0000_0000;
        let size: i32 = if low < 0x8000_0000 {
            low as i32
        } else {
            (low as i64 - 0x1_0000_0000i64) as i32
        };
        let second = match read_tlv(val, first.1 + first.2) {
            Some(h) => h,
            None => {
                return Err(DecodeError::MissingElement);
            },
        };
        if second.1 + second.2 > end {
            return Err(DecodeError::MissingElement);
        }
        if second.0 & 0x20 != 0 {
            return Err(DecodeError::NotPrimitive);
        }
        let cookie = slice_to_vec(slice_subrange(val, second.1, second.1 + second.2));
        Ok(PagedResults { size, cookie })
    }
}

} // verus!
