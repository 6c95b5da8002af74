//! The BER (Basic Encoding Rules) primitives that the paged results control
//! value is built from: big-endian octet strings, definite length fields, and
//! tag-length-value units, together with the facts that connect writing them
//! to reading them back.

use vstd::prelude::*;

verus! {

/// 256 raised to the power `k`: the number of values that `k` octets can hold.
pub open spec fn pow256(k: nat) -> nat
    decreases k,
{
    if k == 0 {
        1
    } else {
        256 * pow256((k - 1) as nat)
    }
}

/// The `k`-octet big-endian representation of `u` (meaningful when `u < pow256(k)`).
pub open spec fn be_bytes(u: nat, k: nat) -> Seq<u8>
    decreases k,
{
    if k == 0 {
        Seq::empty()
    } else {
        be_bytes(u / 256, (k - 1) as nat).push((u % 256) as u8)
    }
}

/// The value that a big-endian octet string denotes.
pub open spec fn be_val(s: Seq<u8>) -> nat
    decreases s.len(),
{
    if s.len() == 0 {
        0
    } else {
        be_val(s.drop_last()) * 256 + s.last() as nat
    }
}

/// The number of octets in the shortest big-endian representation of `n`.
pub open spec fn octet_count(n: nat) -> nat
    decreases n,
{
    if n == 0 {
        0
    } else {
        1 + octet_count(n / 256)
    }
}

/// The shortest big-endian representation of `n` (empty when `n` is zero).
pub open spec fn be_min(n: nat) -> Seq<u8> {
    be_bytes(n, octet_count(n))
}

/// A BER definite length field: a single octet below 128, otherwise a count
/// octet `0x80 + k` followed by the `k`-octet big-endian length itself.
pub open spec fn ber_len(n: nat) -> Seq<u8> {
    if n < 128 {
        seq![n as u8]
    } else {
        seq![(128 + octet_count(n)) as u8] + be_min(n)
    }
}

/// A BER tag-length-value unit: identifier octet, length field, content.
pub open spec fn tlv(t: u8, body: Seq<u8>) -> Seq<u8> {
    seq![t] + ber_len(body.len()) + body
}

/// Reads the tag-length header at offset `i` of `s`: the identifier octet,
/// the offset of the content, and the content length, or `None` when no
/// well-formed header with in-bounds content starts there.  Multi-octet
/// identifiers, indefinite lengths, and length fields of more than eight
/// octets are not accepted.
pub open spec fn tlv_at(s: Seq<u8>, i: nat) -> Option<(u8, nat, nat)> {
    if i + 2 > s.len() {
        None
    } else {
        let t = s[i as int];
        let l0 = s[i as int + 1];
        if t & 0x1f == 0x1f {
            None
        } else if l0 < 0x80 {
            if i + 2 + l0 <= s.len() {
                Some((t, (i + 2) as nat, l0 as nat))
            } else {
                None
            }
        } else {
            let k = (l0 - 0x80) as nat;
            if k == 0 || k > 8 {
                None
            } else if i + 2 + k > s.len() {
                None
            } else {
                let len = be_val(s.subrange(i as int + 2, i as int + 2 + k as int));
                if i + 2 + k + len <= s.len() {
                    Some((t, (i + 2 + k) as nat, len))
                } else {
                    None
                }
            }
        }
    }
}

pub proof fn lemma_pow256_pos(k: nat)
    ensures
        pow256(k) >= 1,
    decreases k,
{
    if k > 0 {
        lemma_pow256_pos((k - 1) as nat);
    }
}

pub proof fn lemma_pow256_mono(a: nat, b: nat)
    requires
        a <= b,
    ensures
        pow256(a) <= pow256(b),
    decreases b,
{
    if a < b {
        lemma_pow256_mono(a, (b - 1) as nat);
        lemma_pow256_pos((b - 1) as nat);
    }
}

pub proof fn lemma_be_bytes_len(u: nat, k: nat)
    ensures
        be_bytes(u, k).len() == k,
    decreases k,
{
    if k > 0 {
        lemma_be_bytes_len(u / 256, (k - 1) as nat);
    }
}

/// Reading back the `k`-octet representation of `u` yields `u` again.
pub proof fn lemma_be_val_of_be_bytes(u: nat, k: nat)
    requires
        u < pow256(k),
    ensures
        be_val(be_bytes(u, k)) == u,
    decreases k,
{
    if k > 0 {
        lemma_be_bytes_len(u / 256, (k - 1) as nat);
        assert(u / 256 < pow256((k - 1) as nat)) by {
            assert(u == 256 * (u / 256) + u % 256);
        }
        lemma_be_val_of_be_bytes(u / 256, (k - 1) as nat);
        assert(be_bytes(u, k).drop_last() =~= be_bytes(u / 256, (k - 1) as nat));
    }
}

/// `n` fits in `k` octets exactly when its shortest representation has at
/// most `k` octets.
pub proof fn lemma_octet_count_le(n: nat, k: nat)
    requires
        n < pow256(k),
    ensures
        octet_count(n) <= k,
    decreases k,
{
    if n > 0 {
        assert(k >= 1) by {
            if k == 0 {
                assert(pow256(0nat) == 1);
            }
        }
        assert(n / 256 < pow256((k - 1) as nat)) by {
            assert(n == 256 * (n / 256) + n % 256);
        }
        lemma_octet_count_le(n / 256, (k - 1) as nat);
    }
}

/// `n` fits in the number of octets that `octet_count` says it needs.
pub proof fn lemma_octet_count_tight(n: nat)
    ensures
        n < pow256(octet_count(n)),
    decreases n,
{
    if n > 0 {
        lemma_octet_count_tight(n / 256);
        assert(n == 256 * (n / 256) + n % 256);
    }
}

/// Where an encoded unit `tlv(t, body)` sits at offset `i` of `s`, the header
/// reads back exactly as written: tag `t`, and the content `body` just after
/// the length field.
pub proof fn lemma_tlv_at_of_tlv(s: Seq<u8>, i: nat, t: u8, body: Seq<u8>)
    requires
        t & 0x1f != 0x1f,
        body.len() < pow256(8),
        i + tlv(t, body).len() <= s.len(),
        s.subrange(i as int, i as int + tlv(t, body).len() as int) == tlv(t, body),
    ensures
        tlv_at(s, i) == Some((t, i + 1 + ber_len(body.len()).len(), body.len())),
        s.subrange(
            i as int + 1 + ber_len(body.len()).len() as int,
            i as int + 1 + ber_len(body.len()).len() as int + body.len() as int,
        ) == body,
{
    let u = tlv(t, body);
    let n = i as int;
    let hl = 1 + ber_len(body.len()).len() as int;
    assert forall|j: int| 0 <= j < u.len() implies s[n + j] == u[j] by {
        assert(s.subrange(n, n + u.len() as int)[j] == u[j]);
    }
    assert(s[n + 0] == u[0] && s[n + 1] == u[1]);
    assert(s[n] == t);
    if body.len() < 128 {
        assert(ber_len(body.len()) =~= seq![body.len() as u8]);
        assert(s[n + 1] == body.len() as u8);
        assert(tlv_at(s, i) == Some((t, (i + 2) as nat, body.len())));
    } else {
        let k = octet_count(body.len());
        lemma_octet_count_le(body.len(), 8);
        lemma_octet_count_tight(body.len());
        lemma_be_bytes_len(body.len(), k);
        lemma_be_val_of_be_bytes(body.len(), k);
        assert(s[n + 1] == (128 + k) as u8);
        assert((128 + k) as u8 >= 0x80);
        assert(((128 + k) as u8 - 0x80) as nat == k);
        assert(s.subrange(n + 2, n + 2 + k as int) =~= be_min(body.len())) by {
            assert forall|j: int| 0 <= j < k implies s.subrange(n + 2, n + 2 + k as int)[j]
                == be_min(body.len())[j] by {
                assert(u[2 + j] == ber_len(body.len())[1 + j]);
            }
        }
        assert(tlv_at(s, i) == Some((t, (i + 2 + k) as nat, body.len())));
    }
    assert(s.subrange(n + hl, n + hl + body.len() as int) =~= body) by {
        assert forall|j: int| 0 <= j < body.len() implies s.subrange(
            n + hl,
            n + hl + body.len() as int,
        )[j] == body[j] by {
            assert(u[hl + j] == body[j]);
        }
    }
}

/// Where the stretch of `s` at offset `i` is known to be `a + b`, each part
/// is the subrange where it was laid down.
pub proof fn lemma_subrange_split(s: Seq<u8>, i: nat, a: Seq<u8>, b: Seq<u8>)
    requires
        i + a.len() + b.len() <= s.len(),
        s.subrange(i as int, i as int + a.len() as int + b.len() as int) == a + b,
    ensures
        s.subrange(i as int, i as int + a.len() as int) == a,
        s.subrange(i as int + a.len() as int, i as int + a.len() as int + b.len() as int) == b,
{
    let n = i as int;
    let w = a.len() as int;
    assert forall|j: int| 0 <= j < a.len() + b.len() implies s[n + j] == (a + b)[j] by {
        assert(s.subrange(n, n + w + b.len() as int)[j] == (a + b)[j]);
    }
    assert(s.subrange(n, n + w) =~= a) by {
        assert forall|j: int| 0 <= j < a.len() implies s.subrange(n, n + w)[j] == a[j] by {
            assert(s[n + j] == (a + b)[j]);
        }
    }
    assert(s.subrange(n + w, n + w + b.len() as int) =~= b) by {
        assert forall|j: int| 0 <= j < b.len() implies s.subrange(n + w, n + w + b.len() as int)[j]
            == b[j] by {
            assert(s[n + (w + j)] == (a + b)[w + j]);
        }
    }
}

/// Appends the `k`-octet big-endian representation of `u` to `buf`.
pub fn push_be(buf: &mut Vec<u8>, u: u64, k: usize)
    requires
        u < pow256(k as nat),
    ensures
        final(buf)@ == old(buf)@ + be_bytes(u as nat, k as nat),
    decreases k,
{
    if k == 0 {
        assert(final(buf)@ =~= old(buf)@ + be_bytes(u as nat, 0));
    } else {
        proof {
            assert(u / 256 < pow256((k - 1) as nat)) by {
                assert(u == 256 * (u as nat / 256) + u as nat % 256);
            }
        }
        push_be(buf, u / 256, k - 1);
        buf.push((u % 256) as u8);
        assert(final(buf)@ =~= old(buf)@ + be_bytes(u as nat, k as nat));
    }
}

/// The number of octets in the shortest big-endian representation of `n`.
pub fn count_octets(n: usize) -> (r: usize)
    ensures
        r == octet_count(n as nat),
    decreases n,
{
    if n == 0 {
        0
    } else {
        proof {
            assert(n < pow256(8)) by {
                reveal_with_fuel(pow256, 9);
            }
            lemma_octet_count_le(n as nat, 8);
        }
        1 + count_octets(n / 256)
    }
}

/// Appends the BER definite length field for a content of `n` octets to `buf`.
pub fn push_len(buf: &mut Vec<u8>, n: usize)
    ensures
        final(buf)@ == old(buf)@ + ber_len(n as nat),
{
    if n < 128 {
        buf.push(n as u8);
        assert(final(buf)@ =~= old(buf)@ + ber_len(n as nat));
    } else {
        let k = count_octets(n);
        proof {
            assert(n < pow256(8)) by {
                reveal_with_fuel(pow256, 9);
            }
            lemma_octet_count_le(n as nat, 8);
            lemma_octet_count_tight(n as nat);
        }
        buf.push(128 + k as u8);
        push_be(buf, n as u64, k);
        assert(final(buf)@ =~= old(buf)@ + ber_len(n as nat));
    }
}

/// Appends all of `src` to `buf`.
pub fn push_bytes(buf: &mut Vec<u8>, src: &[u8])
    ensures
        final(buf)@ == old(buf)@ + src@,
{
    let mut j: usize = 0;
    while j < src.len()
        invariant
            j <= src@.len(),
            buf@ == old(buf)@ + src@.subrange(0, j as int),
        decreases src@.len() - j,
    {
        buf.push(src[j]);
        j = j + 1;
        proof {
            assert(old(buf)@ + src@.subrange(0, j as int) =~= (old(buf)@ + src@.subrange(
                0,
                j - 1,
            )).push(src@[j - 1]));
        }
    }
    proof {
        assert(src@.subrange(0, src@.len() as int) =~= src@);
    }
}

/// Reads the octets of `s` between `start` and `end` as one big-endian
/// unsigned value.
pub fn parse_be_u64(s: &[u8], start: usize, end: usize) -> (r: u64)
    requires
        start <= end <= s@.len(),
        end - start <= 8,
    ensures
        r == be_val(s@.subrange(start as int, end as int)),
{
    let mut acc: u64 = 0;
    let mut j = start;
    assert(s@.subrange(start as int, start as int) =~= Seq::<u8>::empty());
    while j < end
        invariant
            start <= j <= end <= s@.len(),
            end - start <= 8,
            acc == be_val(s@.subrange(start as int, j as int)),
            acc < pow256((j - start) as nat),
        decreases end - j,
    {
        proof {
            lemma_pow256_mono((j - start) as nat, 7);
            assert(pow256(7) == 0x100_0000_0000_0000 && pow256(8) == 0x1_0000_0000_0000_0000)
                by {
                reveal_with_fuel(pow256, 9);
            }
        }
        let b = s[j];
        acc = acc * 256 + (b as u64);
        j = j + 1;
        proof {
            let pre = s@.subrange(start as int, j - 1);
            let cur = s@.subrange(start as int, j as int);
            assert(cur.drop_last() =~= pre);
            assert(cur.last() == s@[j - 1]);
        }
    }
    acc
}

/// Reads the tag-length header at offset `i` of `s`, exactly as `tlv_at`
/// describes it.
pub fn read_tlv(s: &[u8], i: usize) -> (r: Option<(u8, usize, usize)>)
    requires
        i <= s@.len(),
    ensures
        match r {
            Some(h) => {
                &&& tlv_at(s@, i as nat) == Some((h.0, h.1 as nat, h.2 as nat))
                &&& i < h.1
                &&& h.1 + h.2 <= s@.len()
                &&& h.1 + h.2 <= usize::MAX
            },
            None => tlv_at(s@, i as nat) is None,
        },
{
    if s.len() - i < 2 {
        return None;
    }
    let t = s[i];
    if t & 0x1f == 0x1f {
        return None;
    }
    let l0 = s[i + 1];
    if l0 < 0x80 {
        if (l0 as usize) <= s.len() - (i + 2) {
            Some((t, i + 2, l0 as usize))
        } else {
            None
        }
    } else {
        let k = (l0 - 0x80) as usize;
        if k == 0 || k > 8 {
            return None;
        }
        if k > s.len() - (i + 2) {
            return None;
        }
        let len = parse_be_u64(s, i + 2, i + 2 + k);
        let rem = s.len() - (i + 2 + k);
        if len <= rem as u64 {
            Some((t, i + 2 + k, len as usize))
        } else {
            None
        }
    }
}

} // verus!
