use vstd::prelude::*;

verus! {

// Width-parameterized word arithmetic for the cipher: data-dependent
// rotations, little-endian packing, and byte-wise XOR, each with the
// algebraic inverse lemmas the block transform proofs rest on.
//
// Every operation is exact at its width: a rotation by `s` moves by
// `s % w` positions and nothing spills past `w` bits.

// ---------------------------------------------------------------------------
// Rotations
// ---------------------------------------------------------------------------

pub open spec fn rotl16(x: u16, s: u16) -> u16 {
    let k: u16 = (s % 16) as u16;
    if k == 0 {
        x
    } else {
        (x << k) | (x >> ((16 - k) as u16))
    }
}

pub open spec fn rotr16(x: u16, s: u16) -> u16 {
    let k: u16 = (s % 16) as u16;
    if k == 0 {
        x
    } else {
        (x >> k) | (x << ((16 - k) as u16))
    }
}

pub open spec fn rotl32(x: u32, s: u32) -> u32 {
    let k: u32 = (s % 32) as u32;
    if k == 0 {
        x
    } else {
        (x << k) | (x >> ((32 - k) as u32))
    }
}

pub open spec fn rotr32(x: u32, s: u32) -> u32 {
    let k: u32 = (s % 32) as u32;
    if k == 0 {
        x
    } else {
        (x >> k) | (x << ((32 - k) as u32))
    }
}

pub open spec fn rotl64(x: u64, s: u64) -> u64 {
    let k: u64 = (s % 64) as u64;
    if k == 0 {
        x
    } else {
        (x << k) | (x >> ((64 - k) as u64))
    }
}

pub open spec fn rotr64(x: u64, s: u64) -> u64 {
    let k: u64 = (s % 64) as u64;
    if k == 0 {
        x
    } else {
        (x >> k) | (x << ((64 - k) as u64))
    }
}

pub fn rotl_u16(x: u16, s: u16) -> (r: u16)
    ensures
        r == rotl16(x, s),
{
    let k: u16 = s % 16;
    if k == 0 {
        x
    } else {
        (x << k) | (x >> (16 - k))
    }
}

pub fn rotr_u16(x: u16, s: u16) -> (r: u16)
    ensures
        r == rotr16(x, s),
{
    let k: u16 = s % 16;
    if k == 0 {
        x
    } else {
        (x >> k) | (x << (16 - k))
    }
}

pub fn rotl_u32(x: u32, s: u32) -> (r: u32)
    ensures
        r == rotl32(x, s),
{
    let k: u32 = s % 32;
    if k == 0 {
        x
    } else {
        (x << k) | (x >> (32 - k))
    }
}

pub fn rotr_u32(x: u32, s: u32) -> (r: u32)
    ensures
        r == rotr32(x, s),
{
    let k: u32 = s % 32;
    if k == 0 {
        x
    } else {
        (x >> k) | (x << (32 - k))
    }
}

pub fn rotl_u64(x: u64, s: u64) -> (r: u64)
    ensures
        r == rotl64(x, s),
{
    let k: u64 = s % 64;
    if k == 0 {
        x
    } else {
        (x << k) | (x >> (64 - k))
    }
}

pub fn rotr_u64(x: u64, s: u64) -> (r: u64)
    ensures
        r == rotr64(x, s),
{
    let k: u64 = s % 64;
    if k == 0 {
        x
    } else {
        (x >> k) | (x << (64 - k))
    }
}

/// Rotating right by `s` undoes rotating left by `s`, and vice versa.
pub proof fn lemma_rot16_inverse(x: u16, s: u16)
    ensures
        rotr16(rotl16(x, s), s) == x,
        rotl16(rotr16(x, s), s) == x,
{
    assert(rotr16(rotl16(x, s), s) == x && rotl16(rotr16(x, s), s) == x) by (bit_vector);
}

pub proof fn lemma_rot32_inverse(x: u32, s: u32)
    ensures
        rotr32(rotl32(x, s), s) == x,
        rotl32(rotr32(x, s), s) == x,
{
    assert(rotr32(rotl32(x, s), s) == x && rotl32(rotr32(x, s), s) == x) by (bit_vector);
}

#[verifier::rlimit(60)]
pub proof fn lemma_rot64_inverse(x: u64, s: u64)
    ensures
        rotr64(rotl64(x, s), s) == x,
        rotl64(rotr64(x, s), s) == x,
{
    assert(rotr64(rotl64(x, s), s) == x && rotl64(rotr64(x, s), s) == x) by (bit_vector);
}

// ---------------------------------------------------------------------------
// XOR cancellation
// ---------------------------------------------------------------------------

pub proof fn lemma_xor16_cancel(x: u16, y: u16)
    ensures
        (x ^ y) ^ y == x,
{
    assert((x ^ y) ^ y == x) by (bit_vector);
}

pub proof fn lemma_xor32_cancel(x: u32, y: u32)
    ensures
        (x ^ y) ^ y == x,
{
    assert((x ^ y) ^ y == x) by (bit_vector);
}

pub proof fn lemma_xor64_cancel(x: u64, y: u64)
    ensures
        (x ^ y) ^ y == x,
{
    assert((x ^ y) ^ y == x) by (bit_vector);
}

pub proof fn lemma_xor8(x: u8, y: u8)
    ensures
        (x ^ y) ^ y == x,
        y ^ (x ^ y) == x,
        x ^ 0 == x,
        0 ^ x == x,
{
    assert(((x ^ y) ^ y == x) && (y ^ (x ^ y) == x) && (x ^ 0 == x) && (0 ^ x == x))
        by (bit_vector);
}

// ---------------------------------------------------------------------------
// Wrapping add / sub cancellation
// ---------------------------------------------------------------------------

pub proof fn lemma_wrap16_cancel(x: u16, y: u16)
    ensures
        x.wrapping_add(y).wrapping_sub(y) == x,
        x.wrapping_sub(y).wrapping_add(y) == x,
{
}

pub proof fn lemma_wrap32_cancel(x: u32, y: u32)
    ensures
        x.wrapping_add(y).wrapping_sub(y) == x,
        x.wrapping_sub(y).wrapping_add(y) == x,
{
}

pub proof fn lemma_wrap64_cancel(x: u64, y: u64)
    ensures
        x.wrapping_add(y).wrapping_sub(y) == x,
        x.wrapping_sub(y).wrapping_add(y) == x,
{
}

// ---------------------------------------------------------------------------
// Little-endian packing
// ---------------------------------------------------------------------------

pub open spec fn le16(b: Seq<u8>) -> u16
    recommends
        b.len() == 2,
{
    (b[0] + b[1] * 256) as u16
}

pub open spec fn bytes16(x: u16) -> Seq<u8> {
    seq![(x % 256) as u8, (x / 256) as u8]
}

pub open spec fn le32(b: Seq<u8>) -> u32
    recommends
        b.len() == 4,
{
    (le16(b.subrange(0, 2)) + le16(b.subrange(2, 4)) * 65536) as u32
}

pub open spec fn bytes32(x: u32) -> Seq<u8> {
    bytes16((x % 65536) as u16) + bytes16((x / 65536) as u16)
}

pub open spec fn le64(b: Seq<u8>) -> u64
    recommends
        b.len() == 8,
{
    (le32(b.subrange(0, 4)) + le32(b.subrange(4, 8)) * 0x1_0000_0000) as u64
}

pub open spec fn bytes64(x: u64) -> Seq<u8> {
    bytes32((x % 0x1_0000_0000) as u32) + bytes32((x / 0x1_0000_0000) as u32)
}

pub proof fn lemma_le_bytes16(x: u16)
    ensures
        le16(bytes16(x)) == x,
        bytes16(x).len() == 2,
{
}

pub proof fn lemma_bytes_le16(b: Seq<u8>)
    requires
        b.len() == 2,
    ensures
        bytes16(le16(b)) =~= b,
{
    let b0: int = b[0] as int;
    let b1: int = b[1] as int;
    assert((b0 + b1 * 256) % 256 == b0) by (nonlinear_arith)
        requires
            0 <= b0 < 256,
            0 <= b1 < 256,
    ;
    assert((b0 + b1 * 256) / 256 == b1) by (nonlinear_arith)
        requires
            0 <= b0 < 256,
            0 <= b1 < 256,
    ;
}

pub proof fn lemma_le_bytes32(x: u32)
    ensures
        le32(bytes32(x)) == x,
        bytes32(x).len() == 4,
{
    let lo: u16 = (x % 65536) as u16;
    let hi: u16 = (x / 65536) as u16;
    lemma_le_bytes16(lo);
    lemma_le_bytes16(hi);
    assert(bytes32(x).subrange(0, 2) =~= bytes16(lo));
    assert(bytes32(x).subrange(2, 4) =~= bytes16(hi));
}

pub proof fn lemma_bytes_le32(b: Seq<u8>)
    requires
        b.len() == 4,
    ensures
        bytes32(le32(b)) =~= b,
{
    let lo: int = le16(b.subrange(0, 2)) as int;
    let hi: int = le16(b.subrange(2, 4)) as int;
    assert((lo + hi * 65536) % 65536 == lo) by (nonlinear_arith)
        requires
            0 <= lo < 65536,
            0 <= hi < 65536,
    ;
    assert((lo + hi * 65536) / 65536 == hi) by (nonlinear_arith)
        requires
            0 <= lo < 65536,
            0 <= hi < 65536,
    ;
    lemma_bytes_le16(b.subrange(0, 2));
    lemma_bytes_le16(b.subrange(2, 4));
}

pub proof fn lemma_le_bytes64(x: u64)
    ensures
        le64(bytes64(x)) == x,
        bytes64(x).len() == 8,
{
    let lo: u32 = (x % 0x1_0000_0000) as u32;
    let hi: u32 = (x / 0x1_0000_0000) as u32;
    lemma_le_bytes32(lo);
    lemma_le_bytes32(hi);
    assert(bytes64(x).subrange(0, 4) =~= bytes32(lo));
    assert(bytes64(x).subrange(4, 8) =~= bytes32(hi));
}

pub proof fn lemma_bytes_le64(b: Seq<u8>)
    requires
        b.len() == 8,
    ensures
        bytes64(le64(b)) =~= b,
{
    let lo: int = le32(b.subrange(0, 4)) as int;
    let hi: int = le32(b.subrange(4, 8)) as int;
    assert((lo + hi * 0x1_0000_0000) % 0x1_0000_0000 == lo) by (nonlinear_arith)
        requires
            0 <= lo < 0x1_0000_0000,
            0 <= hi < 0x1_0000_0000,
    ;
    assert((lo + hi * 0x1_0000_0000) / 0x1_0000_0000 == hi) by (nonlinear_arith)
        requires
            0 <= lo < 0x1_0000_0000,
            0 <= hi < 0x1_0000_0000,
    ;
    lemma_bytes_le32(b.subrange(0, 4));
    lemma_bytes_le32(b.subrange(4, 8));
}

// ---------------------------------------------------------------------------
// Executable load / store
// ---------------------------------------------------------------------------

pub fn load_u16(b: &[u8], off: usize) -> (r: u16)
    requires
        off + 2 <= b@.len(),
    ensures
        r == le16(b@.subrange(off as int, off as int + 2)),
{
    let lo: u16 = b[off] as u16;
    let hi: u16 = b[off + 1] as u16;
    proof {
        assert(b@.subrange(off as int, off as int + 2)[0] == b@[off as int]);
        assert(b@.subrange(off as int, off as int + 2)[1] == b@[off as int + 1]);
    }
    lo + hi * 256
}

pub fn load_u32(b: &[u8], off: usize) -> (r: u32)
    requires
        off + 4 <= b@.len(),
    ensures
        r == le32(b@.subrange(off as int, off as int + 4)),
{
    let n: usize = b.len();
    proof {
        assert(off + 4 <= n);
    }
    let lo: u32 = load_u16(b, off) as u32;
    let hi: u32 = load_u16(b, off + 2) as u32;
    proof {
        let w: Seq<u8> = b@.subrange(off as int, off as int + 4);
        assert(w.subrange(0, 2) =~= b@.subrange(off as int, off as int + 2));
        assert(w.subrange(2, 4) =~= b@.subrange(off as int + 2, off as int + 4));
    }
    lo + hi * 65536
}

pub fn load_u64(b: &[u8], off: usize) -> (r: u64)
    requires
        off + 8 <= b@.len(),
    ensures
        r == le64(b@.subrange(off as int, off as int + 8)),
{
    let n: usize = b.len();
    proof {
        assert(off + 8 <= n);
    }
    let lo: u64 = load_u32(b, off) as u64;
    let hi: u64 = load_u32(b, off + 4) as u64;
    proof {
        let w: Seq<u8> = b@.subrange(off as int, off as int + 8);
        assert(w.subrange(0, 4) =~= b@.subrange(off as int, off as int + 4));
        assert(w.subrange(4, 8) =~= b@.subrange(off as int + 4, off as int + 8));
    }
    lo + hi * 0x1_0000_0000
}

pub fn push_le16(v: &mut Vec<u8>, x: u16)
    ensures
        final(v)@ =~= old(v)@ + bytes16(x),
{
    v.push((x % 256) as u8);
    v.push((x / 256) as u8);
}

pub fn push_le32(v: &mut Vec<u8>, x: u32)
    ensures
        final(v)@ =~= old(v)@ + bytes32(x),
{
    push_le16(v, (x % 65536) as u16);
    push_le16(v, (x / 65536) as u16);
}

pub fn push_le64(v: &mut Vec<u8>, x: u64)
    ensures
        final(v)@ =~= old(v)@ + bytes64(x),
{
    push_le32(v, (x % 0x1_0000_0000) as u32);
    push_le32(v, (x / 0x1_0000_0000) as u32);
}

// ---------------------------------------------------------------------------
// Byte-wise XOR
// ---------------------------------------------------------------------------

pub open spec fn xor_bytes(a: Seq<u8>, b: Seq<u8>) -> Seq<u8>
    recommends
        a.len() == b.len(),
{
    Seq::new(a.len(), |i: int| a[i] ^ b[i])
}

/// XOR of equal-length blocks cancels: applying `b` twice gives `a` back.
pub proof fn lemma_xor_bytes_cancel(a: Seq<u8>, b: Seq<u8>)
    requires
        a.len() == b.len(),
    ensures
        xor_bytes(xor_bytes(a, b), b) =~= a,
        xor_bytes(b, xor_bytes(a, b)) =~= a,
{
    assert forall|i: int| 0 <= i < a.len() implies xor_bytes(xor_bytes(a, b), b)[i] == a[i] by {
        lemma_xor8(a[i], b[i]);
    }
    assert forall|i: int| 0 <= i < a.len() implies xor_bytes(b, xor_bytes(a, b))[i] == a[i] by {
        lemma_xor8(a[i], b[i]);
        assert(b[i] ^ (a[i] ^ b[i]) == a[i]);
    }
}

pub fn xor_block(a: &[u8], b: &[u8]) -> (r: Vec<u8>)
    requires
        a@.len() == b@.len(),
    ensures
        r@ =~= xor_bytes(a@, b@),
{
    let mut out: Vec<u8> = Vec::new();
    let n: usize = a.len();
    for i in 0..n
        invariant
            n == a@.len(),
            a@.len() == b@.len(),
            out@.len() == i,
            forall|j: int| 0 <= j < i ==> out@[j] == (a@[j] ^ b@[j]),
    {
        out.push(a[i] ^ b[i]);
    }
    out
}

// ---------------------------------------------------------------------------
// Executable helpers
// ---------------------------------------------------------------------------

pub fn zero_vec(n: usize) -> (v: Vec<u8>)
    ensures
        v@ =~= crate::cbc::zero_bytes(n as int),
{
    let mut v: Vec<u8> = Vec::new();
    for i in 0..n
        invariant
            v@.len() == i,
            forall|j: int| 0 <= j < i ==> v@[j] == 0u8,
    {
        v.push(0u8);
    }
    v
}

pub fn append_slice(v: &mut Vec<u8>, o: &[u8])
    ensures
        final(v)@ =~= old(v)@ + o@,
{
    let n: usize = o.len();
    proof {
        assert(v@ =~= old(v)@ + o@.take(0));
    }
    for i in 0..n
        invariant
            n == o@.len(),
            v@ =~= old(v)@ + o@.take(i as int),
    {
        v.push(o[i]);
        proof {
            assert(old(v)@ + o@.take(i as int) + seq![o@[i as int]] =~= old(v)@ + o@.take(
                i as int + 1,
            ));
        }
    }
    proof {
        assert(o@.take(n as int) =~= o@);
    }
}

pub fn copy_range(b: &[u8], off: usize, len: usize) -> (v: Vec<u8>)
    requires
        off + len <= b@.len(),
    ensures
        v@ =~= b@.subrange(off as int, off as int + len as int),
{
    let bl: usize = b.len();
    let mut v: Vec<u8> = Vec::new();
    let mut i: usize = 0;
    while i < len
        invariant
            off + len <= bl,
            bl == b@.len(),
            i <= len,
            v@.len() == i,
            forall|j: int| 0 <= j < i ==> v@[j] == b@[off + j],
        decreases len - i,
    {
        v.push(b[off + i]);
        i = i + 1;
    }
    v
}

pub fn xor_range(m: &[u8], off: usize, prev: &[u8]) -> (v: Vec<u8>)
    requires
        off + prev@.len() <= m@.len(),
    ensures
        v@ =~= xor_bytes(m@.subrange(off as int, off as int + prev@.len() as int), prev@),
{
    let ml: usize = m.len();
    let n: usize = prev.len();
    let mut v: Vec<u8> = Vec::new();
    let mut i: usize = 0;
    while i < n
        invariant
            off + n <= ml,
            ml == m@.len(),
            n == prev@.len(),
            i <= n,
            v@.len() == i,
            forall|j: int| 0 <= j < i ==> v@[j] == (m@[off + j] ^ prev@[j]),
        decreases n - i,
    {
        v.push(m[off + i] ^ prev[i]);
        i = i + 1;
    }
    v
}


} // verus!
