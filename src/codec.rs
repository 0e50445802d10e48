//! Fixed-width primitives of the package format: the marker, little-endian
//! 64-bit integers and 32-byte hashes, and the byte order on hashes.
use vstd::prelude::*;

verus! {

/// A 256-bit content hash in its raw byte form.
pub type Digest = [u8; 32];

/// The marker `MEDIA📦` as bytes.
pub open spec fn magic() -> Seq<u8> {
    seq![0x4Du8, 0x45u8, 0x44u8, 0x49u8, 0x41u8, 0xF0u8, 0x9Fu8, 0x93u8, 0xA6u8]
}

/// The marker as an owned buffer.
pub fn magic_bytes() -> (r: Vec<u8>)
    ensures
        r@ == magic(),
{
    let r: Vec<u8> = vec![0x4Du8, 0x45u8, 0x44u8, 0x49u8, 0x41u8, 0xF0u8, 0x9Fu8, 0x93u8, 0xA6u8];
    assert(r@ =~= magic());
    r
}

/// Little-endian bytes of `v`.
pub open spec fn u64_le(v: u64) -> Seq<u8> {
    seq![
        v as u8,
        (v >> 8u64) as u8,
        (v >> 16u64) as u8,
        (v >> 24u64) as u8,
        (v >> 32u64) as u8,
        (v >> 40u64) as u8,
        (v >> 48u64) as u8,
        (v >> 56u64) as u8,
    ]
}

/// The integer whose little-endian bytes are the first eight of `s`.
pub open spec fn u64_from_le(s: Seq<u8>) -> u64 {
    (s[0] as u64) | ((s[1] as u64) << 8u64) | ((s[2] as u64) << 16u64) | ((s[3] as u64) << 24u64)
        | ((s[4] as u64) << 32u64) | ((s[5] as u64) << 40u64) | ((s[6] as u64) << 48u64) | ((
    s[7] as u64) << 56u64)
}

/// Reading back what was written gives the written integer.
pub proof fn lemma_u64_le_round_trip(v: u64)
    ensures
        u64_from_le(u64_le(v)) == v,
{
    let s = u64_le(v);
    let (b0, b1, b2, b3, b4, b5, b6, b7) = (s[0], s[1], s[2], s[3], s[4], s[5], s[6], s[7]);
    assert(b0 == v as u8 && b1 == (v >> 8u64) as u8 && b2 == (v >> 16u64) as u8 && b3 == (v
        >> 24u64) as u8 && b4 == (v >> 32u64) as u8 && b5 == (v >> 40u64) as u8 && b6 == (v
        >> 48u64) as u8 && b7 == (v >> 56u64) as u8);
    assert(b0 == v as u8 && b1 == (v >> 8u64) as u8 && b2 == (v >> 16u64) as u8 && b3 == (v
        >> 24u64) as u8 && b4 == (v >> 32u64) as u8 && b5 == (v >> 40u64) as u8 && b6 == (v
        >> 48u64) as u8 && b7 == (v >> 56u64) as u8 ==> (b0 as u64) | ((b1 as u64) << 8u64) | ((
    b2 as u64) << 16u64) | ((b3 as u64) << 24u64) | ((b4 as u64) << 32u64) | ((b5 as u64)
        << 40u64) | ((b6 as u64) << 48u64) | ((b7 as u64) << 56u64) == v) by (bit_vector);
}

/// Reads the little-endian integer stored at `pos`.
pub fn read_u64(b: &[u8], pos: usize) -> (r: u64)
    requires
        pos + 8 <= b@.len(),
    ensures
        r == u64_from_le(b@.subrange(pos as int, pos + 8)),
{
    let s = Ghost(b@.subrange(pos as int, pos + 8));
    assert(s@[0] == b@[pos as int] && s@[1] == b@[pos + 1] && s@[2] == b@[pos + 2] && s@[3]
        == b@[pos + 3] && s@[4] == b@[pos + 4] && s@[5] == b@[pos + 5] && s@[6] == b@[pos + 6]
        && s@[7] == b@[pos + 7]);
    (b[pos] as u64) | ((b[pos + 1] as u64) << 8u64) | ((b[pos + 2] as u64) << 16u64) | ((b[pos
        + 3] as u64) << 24u64) | ((b[pos + 4] as u64) << 32u64) | ((b[pos + 5] as u64) << 40u64)
        | ((b[pos + 6] as u64) << 48u64) | ((b[pos + 7] as u64) << 56u64)
}

/// Appends the little-endian bytes of `v`.
pub fn push_u64(out: &mut Vec<u8>, v: u64)
    ensures
        final(out)@ == old(out)@ + u64_le(v),
{
    out.push(v as u8);
    out.push((v >> 8u64) as u8);
    out.push((v >> 16u64) as u8);
    out.push((v >> 24u64) as u8);
    out.push((v >> 32u64) as u8);
    out.push((v >> 40u64) as u8);
    out.push((v >> 48u64) as u8);
    out.push((v >> 56u64) as u8);
    assert(out@ =~= old(out)@ + u64_le(v));
}

/// Appends a run of bytes.
pub fn push_bytes(out: &mut Vec<u8>, b: &[u8])
    ensures
        final(out)@ == old(out)@ + b@,
{
    let n = b.len();
    let mut i: usize = 0;
    while i < n
        invariant
            n == b@.len(),
            i <= n,
            out@ == old(out)@ + b@.take(i as int),
        decreases n - i,
    {
        out.push(b[i]);
        i = i + 1;
        assert(out@ =~= old(out)@ + b@.take(i as int));
    }
    assert(b@.take(n as int) =~= b@);
}

/// A copy of a run of bytes.
pub fn to_vec(b: &[u8]) -> (r: Vec<u8>)
    ensures
        r@ == b@,
{
    let mut r: Vec<u8> = Vec::new();
    push_bytes(&mut r, b);
    r
}

/// Reads the 32-byte hash stored at `pos`.
pub fn read_hash(b: &[u8], pos: usize) -> (r: Digest)
    requires
        pos + 32 <= b@.len(),
    ensures
        r@ == b@.subrange(pos as int, pos + 32),
{
    let n = b.len();
    let mut r: Digest = [0u8; 32];
    let mut i: usize = 0;
    while i < 32
        invariant
            n == b@.len(),
            pos + 32 <= b@.len(),
            i <= 32,
            r@.len() == 32,
            forall|j: int| 0 <= j < i ==> r@[j] == b@[pos + j],
        decreases 32 - i,
    {
        r[i] = b[pos + i];
        i = i + 1;
    }
    assert(r@ =~= b@.subrange(pos as int, pos + 32));
    r
}

/// Appends the bytes of a hash.
pub fn push_hash(out: &mut Vec<u8>, h: &Digest)
    ensures
        final(out)@ == old(out)@ + h@,
{
    let mut i: usize = 0;
    while i < 32
        invariant
            h@.len() == 32,
            i <= 32,
            out@ == old(out)@ + h@.take(i as int),
        decreases 32 - i,
    {
        out.push(h[i]);
        i = i + 1;
        assert(out@ =~= old(out)@ + h@.take(i as int));
    }
    assert(h@.take(32) =~= h@);
}

/// `a` comes strictly before `b` in lexicographic byte order (a proper
/// prefix comes first).
pub open spec fn bytes_lt(a: Seq<u8>, b: Seq<u8>) -> bool
    decreases a.len(),
{
    if a.len() == 0 {
        b.len() > 0
    } else if b.len() == 0 {
        false
    } else if a[0] != b[0] {
        a[0] < b[0]
    } else {
        bytes_lt(a.drop_first(), b.drop_first())
    }
}

/// A sequence of byte strings whose members strictly ascend in byte order.
pub open spec fn strictly_ascending(s: Seq<Seq<u8>>) -> bool {
    forall|i: int, j: int| 0 <= i < j < s.len() ==> bytes_lt(#[trigger] s[i], #[trigger] s[j])
}

/// Nothing comes before itself.
pub proof fn lemma_bytes_lt_irreflexive(a: Seq<u8>)
    ensures
        !bytes_lt(a, a),
    decreases a.len(),
{
    if a.len() > 0 {
        lemma_bytes_lt_irreflexive(a.drop_first());
    }
}

/// Of two byte strings at most one comes before the other.
pub proof fn lemma_bytes_lt_asymmetric(a: Seq<u8>, b: Seq<u8>)
    ensures
        !(bytes_lt(a, b) && bytes_lt(b, a)),
    decreases a.len(),
{
    if a.len() > 0 && b.len() > 0 && a[0] == b[0] {
        lemma_bytes_lt_asymmetric(a.drop_first(), b.drop_first());
    }
}

/// Byte order is transitive.
pub proof fn lemma_bytes_lt_transitive(a: Seq<u8>, b: Seq<u8>, c: Seq<u8>)
    requires
        bytes_lt(a, b),
        bytes_lt(b, c),
    ensures
        bytes_lt(a, c),
    decreases a.len(),
{
    if a.len() > 0 && b.len() > 0 && c.len() > 0 && a[0] == b[0] && b[0] == c[0] {
        lemma_bytes_lt_transitive(a.drop_first(), b.drop_first(), c.drop_first());
    }
}

/// After a common prefix of length `i`, the order is that of the rests.
proof fn lemma_bytes_lt_skip(a: Seq<u8>, b: Seq<u8>, i: int)
    requires
        0 <= i <= a.len(),
        i <= b.len(),
        a.take(i) == b.take(i),
    ensures
        bytes_lt(a, b) == bytes_lt(a.skip(i), b.skip(i)),
    decreases i,
{
    if i > 0 {
        assert(a[0] == a.take(i)[0] && b[0] == b.take(i)[0]);
        assert(a.drop_first().take(i - 1) =~= a.take(i).drop_first());
        assert(b.drop_first().take(i - 1) =~= b.take(i).drop_first());
        lemma_bytes_lt_skip(a.drop_first(), b.drop_first(), i - 1);
        assert(a.drop_first().skip(i - 1) =~= a.skip(i));
        assert(b.drop_first().skip(i - 1) =~= b.skip(i));
    } else {
        assert(a.skip(0) =~= a);
        assert(b.skip(0) =~= b);
    }
}

/// How two byte strings compare in lexicographic byte order.
pub fn compare_bytes(a: &[u8], b: &[u8]) -> (r: core::cmp::Ordering)
    ensures
        r == core::cmp::Ordering::Less <==> bytes_lt(a@, b@),
        r == core::cmp::Ordering::Equal <==> a@ == b@,
        r == core::cmp::Ordering::Greater <==> bytes_lt(b@, a@),
{
    proof {
        lemma_bytes_lt_asymmetric(a@, b@);
        lemma_bytes_lt_irreflexive(a@);
    }
    let n = a.len();
    let m = b.len();
    let mut i: usize = 0;
    while i < n && i < m
        invariant
            n == a@.len(),
            m == b@.len(),
            i <= n,
            i <= m,
            a@.take(i as int) == b@.take(i as int),
        decreases n - i,
    {
        if a[i] != b[i] {
            proof {
                lemma_bytes_lt_skip(a@, b@, i as int);
                lemma_bytes_lt_skip(b@, a@, i as int);
                assert(a@.skip(i as int)[0] == a@[i as int]);
                assert(b@.skip(i as int)[0] == b@[i as int]);
            }
            if a[i] < b[i] {
                return core::cmp::Ordering::Less;
            } else {
                return core::cmp::Ordering::Greater;
            }
        }
        assert(a@.take(i + 1) =~= a@.take(i as int).push(a@[i as int]));
        assert(b@.take(i + 1) =~= b@.take(i as int).push(b@[i as int]));
        i = i + 1;
    }
    proof {
        lemma_bytes_lt_skip(a@, b@, i as int);
        lemma_bytes_lt_skip(b@, a@, i as int);
    }
    if i < m {
        assert(a@ != b@);
        core::cmp::Ordering::Less
    } else if i < n {
        assert(a@ != b@);
        core::cmp::Ordering::Greater
    } else {
        assert(a@ =~= a@.take(i as int));
        assert(b@ =~= b@.take(i as int));
        core::cmp::Ordering::Equal
    }
}

} // verus!
