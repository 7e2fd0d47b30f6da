use crate::words::{
    bytes16, le16, lemma_bytes_le16, lemma_le_bytes16, lemma_rot16_inverse, lemma_wrap16_cancel,
    lemma_xor16_cancel, load_u16, push_le16, rotl16, rotl_u16, rotr16, rotr_u16,
};
use crate::words::{
    bytes32, le32, lemma_bytes_le32, lemma_le_bytes32, lemma_rot32_inverse, lemma_wrap32_cancel,
    lemma_xor32_cancel, load_u32, push_le32, rotl32, rotl_u32, rotr32, rotr_u32,
};
use crate::words::{
    bytes64, le64, lemma_bytes_le64, lemma_le_bytes64, lemma_rot64_inverse, lemma_wrap64_cancel,
    lemma_xor64_cancel, load_u64, push_le64, rotl64, rotl_u64, rotr64, rotr_u64,
};
use crate::words::{append_slice, copy_range};
use vstd::prelude::*;

verus! {

// The RC5 block cipher core: configuration, key schedule, and the
// single-block (ECB) transform for the three supported word widths.
//
// Two details of the round structure are kept deliberately:
// the block's two words sit on the wire high-half first on encrypt,
// and a configured round count `r` performs `r - 1` data-dependent
// mixing rounds after the initial whitening.
// The byte-to-word packing of the key schedule folds in every key byte,
// from index `b - 1` down to `0`.

/// A byte string produced by the cipher.
pub struct Digest(pub Vec<u8>);

impl Digest {
    /// Lower-case hexadecimal rendering, two digits per byte.
    pub fn to_string(&self) -> (r: String)
        ensures
            r@ == crate::hex::hex_of(self.0@),
    {
        crate::hex::hex_string(self.0.as_slice())
    }
}

/// Why a cipher operation was refused.
#[derive(Clone, Copy, Debug, PartialEq, Eq, Structural)]
pub enum Rc5Error {
    /// The (w, r, b) triple lies outside the supported set.
    InvalidConfiguration,
    /// A key of a length other than the configured `b` was supplied.
    InvalidKeyLength,
    /// A block or ciphertext of unusable length was supplied.
    InvalidInputLength,
    /// The entropy source for the initialization vector failed.
    RandomSourceFailure,
}

/// The cipher's word width: 16, 32 or 64 bits.
#[derive(Clone, Copy, Debug)]
pub enum RC5WordSize {
    Bits16,
    Bits32,
    Bits64,
}

impl RC5WordSize {
    /// Word width in bits.
    pub open spec fn spec_bits(&self) -> int {
        match self {
            RC5WordSize::Bits16 => 16,
            RC5WordSize::Bits32 => 32,
            RC5WordSize::Bits64 => 64,
        }
    }

    pub fn bits(&self) -> (r: usize)
        ensures
            r == self.spec_bits(),
    {
        match self {
            RC5WordSize::Bits16 => 16,
            RC5WordSize::Bits32 => 32,
            RC5WordSize::Bits64 => 64,
        }
    }

    /// Block size in bytes: two words of `w` bits each.
    pub open spec fn spec_block_bytes(&self) -> int {
        self.spec_bits() / 4
    }

    pub fn block_bytes(&self) -> (r: usize)
        ensures
            r == self.spec_block_bytes(),
    {
        match self {
            RC5WordSize::Bits16 => 4,
            RC5WordSize::Bits32 => 8,
            RC5WordSize::Bits64 => 16,
        }
    }
}

/// A round-key table, expanded for one of the three word widths.
pub enum RC5ExpandedKey {
    Bits16(Vec<u16>),
    Bits32(Vec<u32>),
    Bits64(Vec<u64>),
}

/// An RC5 cipher configuration: word width `w`, round count `r`,
/// key length `b` in bytes.
#[derive(Debug)]
pub struct RC5 {
    w: RC5WordSize,
    r: usize,
    b: usize,
}

pub const P16: u16 = 0xb7e1;

pub const Q16: u16 = 0x9e37;

pub const P32: u32 = 0xb7e1_5163;

pub const Q32: u32 = 0x9e37_79b9;

pub const P64: u64 = 0xb7e1_5162_8aed_2a6b;

pub const Q64: u64 = 0x9e37_79b9_7f4a_7c15;

// ---------------------------------------------------------------------------
// Key schedule, width 16
// ---------------------------------------------------------------------------

/// Byte-to-word packing: the `L` array after folding in the key bytes
/// from index `k.len() - 1` down to `i`, little-endian, by rotate-and-add.
pub open spec fn pack16(k: Seq<u8>, c: nat, i: int) -> Seq<u16>
    decreases k.len() - i,
{
    if i >= k.len() {
        Seq::new(c, |j: int| 0u16)
    } else {
        let prev = pack16(k, c, i + 1);
        let idx: int = i / 2;
        prev.update(idx, rotl16(prev[idx], 8).wrapping_add(k[i] as u16))
    }
}

/// The initial round-key table entry at index `i`: `P + i * Q`, wrapping.
pub open spec fn s_init16(i: nat) -> u16
    decreases i,
{
    if i == 0 {
        P16
    } else {
        s_init16((i - 1) as nat).wrapping_add(Q16)
    }
}

pub open spec fn s_init_seq16(t: nat) -> Seq<u16> {
    Seq::new(t, |i: int| s_init16(i as nat))
}

/// The mixing state `(S, L, A, B)` after `n` mixing steps.
pub open spec fn mix16(s0: Seq<u16>, l0: Seq<u16>, n: nat) -> (Seq<u16>, Seq<u16>, u16, u16)
    recommends
        s0.len() > 0,
        l0.len() > 0,
    decreases n,
{
    if n == 0 {
        (s0, l0, 0u16, 0u16)
    } else {
        let prev = mix16(s0, l0, (n - 1) as nat);
        let s = prev.0;
        let l = prev.1;
        let a = prev.2;
        let b = prev.3;
        let i: int = ((n - 1) as int) % (s0.len() as int);
        let j: int = ((n - 1) as int) % (l0.len() as int);
        let a2: u16 = rotl16(s[i].wrapping_add(a).wrapping_add(b), 3);
        let b2: u16 = rotl16(l[j].wrapping_add(a2).wrapping_add(b), a2.wrapping_add(b));
        (s.update(i, a2), l.update(j, b2), a2, b2)
    }
}

pub proof fn lemma_mix16_len(s0: Seq<u16>, l0: Seq<u16>, n: nat)
    requires
        s0.len() > 0,
        l0.len() > 0,
    ensures
        mix16(s0, l0, n).0.len() == s0.len(),
        mix16(s0, l0, n).1.len() == l0.len(),
    decreases n,
{
    if n > 0 {
        lemma_mix16_len(s0, l0, (n - 1) as nat);
    }
}

/// The full expanded round-key table for width 16.
pub open spec fn key_sched16(k: Seq<u8>, r: int) -> Seq<u16> {
    let t: nat = (2 * (r + 1)) as nat;
    let c: nat = (k.len() / 2) as nat;
    mix16(s_init_seq16(t), pack16(k, c, 0), 3 * t).0
}

// ---------------------------------------------------------------------------
// Block transform, width 16
// ---------------------------------------------------------------------------

pub open spec fn enc_step16(a: u16, b: u16, s: Seq<u16>, i: int) -> (u16, u16) {
    let a2: u16 = rotl16(a ^ b, b).wrapping_add(s[2 * i]);
    let b2: u16 = rotl16(b ^ a2, a2).wrapping_add(s[2 * i + 1]);
    (a2, b2)
}

/// The mixing rounds `i .. r - 1` applied in increasing order.
pub open spec fn enc_rounds16(a: u16, b: u16, s: Seq<u16>, i: int, r: int) -> (u16, u16)
    decreases r - i,
{
    if i >= r {
        (a, b)
    } else {
        let st = enc_step16(a, b, s, i);
        enc_rounds16(st.0, st.1, s, i + 1, r)
    }
}

pub open spec fn dec_step16(a: u16, b: u16, s: Seq<u16>, i: int) -> (u16, u16) {
    let b2: u16 = rotr16(b.wrapping_sub(s[2 * i + 1]), a) ^ a;
    let a2: u16 = rotr16(a.wrapping_sub(s[2 * i]), b2) ^ b2;
    (a2, b2)
}

/// The inverse rounds `hi` down to `lo`; the round applied last is `lo`.
pub open spec fn dec_rounds16(a: u16, b: u16, s: Seq<u16>, hi: int, lo: int) -> (u16, u16)
    decreases hi + 1 - lo,
{
    if hi < lo {
        (a, b)
    } else {
        let st = dec_rounds16(a, b, s, hi, lo + 1);
        dec_step16(st.0, st.1, s, lo)
    }
}

/// Encrypt one 4-byte block: parse (high, low) words, whiten, mix.
pub open spec fn enc_block16(pt: Seq<u8>, s: Seq<u16>, r: int) -> Seq<u8>
    recommends
        pt.len() == 4,
{
    let a0: u16 = le16(pt.subrange(2, 4)).wrapping_add(s[0]);
    let b0: u16 = le16(pt.subrange(0, 2)).wrapping_add(s[1]);
    let ab = enc_rounds16(a0, b0, s, 1, r);
    bytes16(ab.0) + bytes16(ab.1)
}

/// Decrypt one 4-byte block: parse (low, high) words, unmix, unwhiten.
pub open spec fn dec_block16(ct: Seq<u8>, s: Seq<u16>, r: int) -> Seq<u8>
    recommends
        ct.len() == 4,
{
    let a0: u16 = le16(ct.subrange(0, 2));
    let b0: u16 = le16(ct.subrange(2, 4));
    let ab = dec_rounds16(a0, b0, s, r - 1, 1);
    bytes16(ab.1.wrapping_sub(s[1])) + bytes16(ab.0.wrapping_sub(s[0]))
}

proof fn lemma_step16_inverse(a: u16, b: u16, s: Seq<u16>, i: int)
    ensures
        dec_step16(enc_step16(a, b, s, i).0, enc_step16(a, b, s, i).1, s, i) == (a, b),
{
    let a2: u16 = rotl16(a ^ b, b).wrapping_add(s[2 * i]);
    let b2: u16 = rotl16(b ^ a2, a2).wrapping_add(s[2 * i + 1]);
    lemma_wrap16_cancel(rotl16(b ^ a2, a2), s[2 * i + 1]);
    lemma_rot16_inverse(b ^ a2, a2);
    lemma_xor16_cancel(b, a2);
    assert(rotr16(b2.wrapping_sub(s[2 * i + 1]), a2) ^ a2 == b);
    lemma_wrap16_cancel(rotl16(a ^ b, b), s[2 * i]);
    lemma_rot16_inverse(a ^ b, b);
    lemma_xor16_cancel(a, b);
    assert(rotr16(a2.wrapping_sub(s[2 * i]), b) ^ b == a);
}

proof fn lemma_step16_inverse_rev(a: u16, b: u16, s: Seq<u16>, i: int)
    ensures
        enc_step16(dec_step16(a, b, s, i).0, dec_step16(a, b, s, i).1, s, i) == (a, b),
{
    let b2: u16 = rotr16(b.wrapping_sub(s[2 * i + 1]), a) ^ a;
    let a2: u16 = rotr16(a.wrapping_sub(s[2 * i]), b2) ^ b2;
    lemma_xor16_cancel(a.wrapping_sub(s[2 * i]), b2);
    assert((rotr16(a.wrapping_sub(s[2 * i]), b2) ^ b2) ^ b2 == rotr16(
        a.wrapping_sub(s[2 * i]),
        b2,
    )) by {
        lemma_xor16_cancel(rotr16(a.wrapping_sub(s[2 * i]), b2), b2);
    }
    lemma_rot16_inverse(a.wrapping_sub(s[2 * i]), b2);
    lemma_wrap16_cancel(a, s[2 * i]);
    assert(rotl16(a2 ^ b2, b2).wrapping_add(s[2 * i]) == a);
    assert((rotr16(b.wrapping_sub(s[2 * i + 1]), a) ^ a) ^ a == rotr16(
        b.wrapping_sub(s[2 * i + 1]),
        a,
    )) by {
        lemma_xor16_cancel(rotr16(b.wrapping_sub(s[2 * i + 1]), a), a);
    }
    lemma_rot16_inverse(b.wrapping_sub(s[2 * i + 1]), a);
    lemma_wrap16_cancel(b, s[2 * i + 1]);
    assert(rotl16(b2 ^ a, a).wrapping_add(s[2 * i + 1]) == b);
}

proof fn lemma_rounds16_inverse(a: u16, b: u16, s: Seq<u16>, i: int, r: int)
    ensures
        dec_rounds16(
            enc_rounds16(a, b, s, i, r).0,
            enc_rounds16(a, b, s, i, r).1,
            s,
            r - 1,
            i,
        ) == (a, b),
    decreases r - i,
{
    if i >= r {
    } else {
        let st = enc_step16(a, b, s, i);
        lemma_rounds16_inverse(st.0, st.1, s, i + 1, r);
        lemma_step16_inverse(a, b, s, i);
    }
}

proof fn lemma_rounds16_inverse_rev(a: u16, b: u16, s: Seq<u16>, hi: int, lo: int)
    ensures
        enc_rounds16(
            dec_rounds16(a, b, s, hi, lo).0,
            dec_rounds16(a, b, s, hi, lo).1,
            s,
            lo,
            hi + 1,
        ) == (a, b),
    decreases hi + 1 - lo,
{
    if hi < lo {
    } else {
        let st = dec_rounds16(a, b, s, hi, lo + 1);
        lemma_rounds16_inverse_rev(a, b, s, hi, lo + 1);
        lemma_step16_inverse_rev(st.0, st.1, s, lo);
    }
}

/// Decrypting an encrypted 4-byte block returns the block.
pub proof fn lemma_block16_round_trip(pt: Seq<u8>, s: Seq<u16>, r: int)
    requires
        pt.len() == 4,
    ensures
        dec_block16(enc_block16(pt, s, r), s, r) =~= pt,
{
    let av: u16 = le16(pt.subrange(2, 4));
    let bv: u16 = le16(pt.subrange(0, 2));
    let a0: u16 = av.wrapping_add(s[0]);
    let b0: u16 = bv.wrapping_add(s[1]);
    let e = enc_rounds16(a0, b0, s, 1, r);
    let c = enc_block16(pt, s, r);
    assert(c.subrange(0, 2) =~= bytes16(e.0));
    assert(c.subrange(2, 4) =~= bytes16(e.1));
    lemma_le_bytes16(e.0);
    lemma_le_bytes16(e.1);
    lemma_rounds16_inverse(a0, b0, s, 1, r);
    lemma_wrap16_cancel(av, s[0]);
    lemma_wrap16_cancel(bv, s[1]);
    lemma_bytes_le16(pt.subrange(0, 2));
    lemma_bytes_le16(pt.subrange(2, 4));
    assert(dec_block16(c, s, r) =~= pt.subrange(0, 2) + pt.subrange(2, 4));
    assert(pt.subrange(0, 2) + pt.subrange(2, 4) =~= pt);
}

/// Encrypting a decrypted 4-byte block returns the block.
pub proof fn lemma_block16_round_trip_rev(ct: Seq<u8>, s: Seq<u16>, r: int)
    requires
        ct.len() == 4,
    ensures
        enc_block16(dec_block16(ct, s, r), s, r) =~= ct,
{
    let a0: u16 = le16(ct.subrange(0, 2));
    let b0: u16 = le16(ct.subrange(2, 4));
    let d = dec_rounds16(a0, b0, s, r - 1, 1);
    let m = dec_block16(ct, s, r);
    assert(m.subrange(0, 2) =~= bytes16(d.1.wrapping_sub(s[1])));
    assert(m.subrange(2, 4) =~= bytes16(d.0.wrapping_sub(s[0])));
    lemma_le_bytes16(d.1.wrapping_sub(s[1]));
    lemma_le_bytes16(d.0.wrapping_sub(s[0]));
    lemma_wrap16_cancel(d.0, s[0]);
    lemma_wrap16_cancel(d.1, s[1]);
    lemma_rounds16_inverse_rev(a0, b0, s, r - 1, 1);
    lemma_bytes_le16(ct.subrange(0, 2));
    lemma_bytes_le16(ct.subrange(2, 4));
    assert(enc_block16(m, s, r) =~= ct.subrange(0, 2) + ct.subrange(2, 4));
    assert(ct.subrange(0, 2) + ct.subrange(2, 4) =~= ct);
}

// ---------------------------------------------------------------------------
// Key schedule, width 32
// ---------------------------------------------------------------------------

/// Byte-to-word packing: the `L` array after folding in the key bytes
/// from index `k.len() - 1` down to `i`, little-endian, by rotate-and-add.
pub open spec fn pack32(k: Seq<u8>, c: nat, i: int) -> Seq<u32>
    decreases k.len() - i,
{
    if i >= k.len() {
        Seq::new(c, |j: int| 0u32)
    } else {
        let prev = pack32(k, c, i + 1);
        let idx: int = i / 4;
        prev.update(idx, rotl32(prev[idx], 8).wrapping_add(k[i] as u32))
    }
}

/// The initial round-key table entry at index `i`: `P + i * Q`, wrapping.
pub open spec fn s_init32(i: nat) -> u32
    decreases i,
{
    if i == 0 {
        P32
    } else {
        s_init32((i - 1) as nat).wrapping_add(Q32)
    }
}

pub open spec fn s_init_seq32(t: nat) -> Seq<u32> {
    Seq::new(t, |i: int| s_init32(i as nat))
}

/// The mixing state `(S, L, A, B)` after `n` mixing steps.
pub open spec fn mix32(s0: Seq<u32>, l0: Seq<u32>, n: nat) -> (Seq<u32>, Seq<u32>, u32, u32)
    recommends
        s0.len() > 0,
        l0.len() > 0,
    decreases n,
{
    if n == 0 {
        (s0, l0, 0u32, 0u32)
    } else {
        let prev = mix32(s0, l0, (n - 1) as nat);
        let s = prev.0;
        let l = prev.1;
        let a = prev.2;
        let b = prev.3;
        let i: int = ((n - 1) as int) % (s0.len() as int);
        let j: int = ((n - 1) as int) % (l0.len() as int);
        let a2: u32 = rotl32(s[i].wrapping_add(a).wrapping_add(b), 3);
        let b2: u32 = rotl32(l[j].wrapping_add(a2).wrapping_add(b), a2.wrapping_add(b));
        (s.update(i, a2), l.update(j, b2), a2, b2)
    }
}

pub proof fn lemma_mix32_len(s0: Seq<u32>, l0: Seq<u32>, n: nat)
    requires
        s0.len() > 0,
        l0.len() > 0,
    ensures
        mix32(s0, l0, n).0.len() == s0.len(),
        mix32(s0, l0, n).1.len() == l0.len(),
    decreases n,
{
    if n > 0 {
        lemma_mix32_len(s0, l0, (n - 1) as nat);
    }
}

/// The full expanded round-key table for width 32.
pub open spec fn key_sched32(k: Seq<u8>, r: int) -> Seq<u32> {
    let t: nat = (2 * (r + 1)) as nat;
    let c: nat = (k.len() / 4) as nat;
    mix32(s_init_seq32(t), pack32(k, c, 0), 3 * t).0
}

// ---------------------------------------------------------------------------
// Block transform, width 32
// ---------------------------------------------------------------------------

pub open spec fn enc_step32(a: u32, b: u32, s: Seq<u32>, i: int) -> (u32, u32) {
    let a2: u32 = rotl32(a ^ b, b).wrapping_add(s[2 * i]);
    let b2: u32 = rotl32(b ^ a2, a2).wrapping_add(s[2 * i + 1]);
    (a2, b2)
}

/// The mixing rounds `i .. r - 1` applied in increasing order.
pub open spec fn enc_rounds32(a: u32, b: u32, s: Seq<u32>, i: int, r: int) -> (u32, u32)
    decreases r - i,
{
    if i >= r {
        (a, b)
    } else {
        let st = enc_step32(a, b, s, i);
        enc_rounds32(st.0, st.1, s, i + 1, r)
    }
}

pub open spec fn dec_step32(a: u32, b: u32, s: Seq<u32>, i: int) -> (u32, u32) {
    let b2: u32 = rotr32(b.wrapping_sub(s[2 * i + 1]), a) ^ a;
    let a2: u32 = rotr32(a.wrapping_sub(s[2 * i]), b2) ^ b2;
    (a2, b2)
}

/// The inverse rounds `hi` down to `lo`; the round applied last is `lo`.
pub open spec fn dec_rounds32(a: u32, b: u32, s: Seq<u32>, hi: int, lo: int) -> (u32, u32)
    decreases hi + 1 - lo,
{
    if hi < lo {
        (a, b)
    } else {
        let st = dec_rounds32(a, b, s, hi, lo + 1);
        dec_step32(st.0, st.1, s, lo)
    }
}

/// Encrypt one 8-byte block: parse (high, low) words, whiten, mix.
pub open spec fn enc_block32(pt: Seq<u8>, s: Seq<u32>, r: int) -> Seq<u8>
    recommends
        pt.len() == 8,
{
    let a0: u32 = le32(pt.subrange(4, 8)).wrapping_add(s[0]);
    let b0: u32 = le32(pt.subrange(0, 4)).wrapping_add(s[1]);
    let ab = enc_rounds32(a0, b0, s, 1, r);
    bytes32(ab.0) + bytes32(ab.1)
}

/// Decrypt one 8-byte block: parse (low, high) words, unmix, unwhiten.
pub open spec fn dec_block32(ct: Seq<u8>, s: Seq<u32>, r: int) -> Seq<u8>
    recommends
        ct.len() == 8,
{
    let a0: u32 = le32(ct.subrange(0, 4));
    let b0: u32 = le32(ct.subrange(4, 8));
    let ab = dec_rounds32(a0, b0, s, r - 1, 1);
    bytes32(ab.1.wrapping_sub(s[1])) + bytes32(ab.0.wrapping_sub(s[0]))
}

proof fn lemma_step32_inverse(a: u32, b: u32, s: Seq<u32>, i: int)
    ensures
        dec_step32(enc_step32(a, b, s, i).0, enc_step32(a, b, s, i).1, s, i) == (a, b),
{
    let a2: u32 = rotl32(a ^ b, b).wrapping_add(s[2 * i]);
    let b2: u32 = rotl32(b ^ a2, a2).wrapping_add(s[2 * i + 1]);
    lemma_wrap32_cancel(rotl32(b ^ a2, a2), s[2 * i + 1]);
    lemma_rot32_inverse(b ^ a2, a2);
    lemma_xor32_cancel(b, a2);
    assert(rotr32(b2.wrapping_sub(s[2 * i + 1]), a2) ^ a2 == b);
    lemma_wrap32_cancel(rotl32(a ^ b, b), s[2 * i]);
    lemma_rot32_inverse(a ^ b, b);
    lemma_xor32_cancel(a, b);
    assert(rotr32(a2.wrapping_sub(s[2 * i]), b) ^ b == a);
}

proof fn lemma_step32_inverse_rev(a: u32, b: u32, s: Seq<u32>, i: int)
    ensures
        enc_step32(dec_step32(a, b, s, i).0, dec_step32(a, b, s, i).1, s, i) == (a, b),
{
    let b2: u32 = rotr32(b.wrapping_sub(s[2 * i + 1]), a) ^ a;
    let a2: u32 = rotr32(a.wrapping_sub(s[2 * i]), b2) ^ b2;
    lemma_xor32_cancel(a.wrapping_sub(s[2 * i]), b2);
    assert((rotr32(a.wrapping_sub(s[2 * i]), b2) ^ b2) ^ b2 == rotr32(
        a.wrapping_sub(s[2 * i]),
        b2,
    )) by {
        lemma_xor32_cancel(rotr32(a.wrapping_sub(s[2 * i]), b2), b2);
    }
    lemma_rot32_inverse(a.wrapping_sub(s[2 * i]), b2);
    lemma_wrap32_cancel(a, s[2 * i]);
    assert(rotl32(a2 ^ b2, b2).wrapping_add(s[2 * i]) == a);
    assert((rotr32(b.wrapping_sub(s[2 * i + 1]), a) ^ a) ^ a == rotr32(
        b.wrapping_sub(s[2 * i + 1]),
        a,
    )) by {
        lemma_xor32_cancel(rotr32(b.wrapping_sub(s[2 * i + 1]), a), a);
    }
    lemma_rot32_inverse(b.wrapping_sub(s[2 * i + 1]), a);
    lemma_wrap32_cancel(b, s[2 * i + 1]);
    assert(rotl32(b2 ^ a, a).wrapping_add(s[2 * i + 1]) == b);
}

proof fn lemma_rounds32_inverse(a: u32, b: u32, s: Seq<u32>, i: int, r: int)
    ensures
        dec_rounds32(
            enc_rounds32(a, b, s, i, r).0,
            enc_rounds32(a, b, s, i, r).1,
            s,
            r - 1,
            i,
        ) == (a, b),
    decreases r - i,
{
    if i >= r {
    } else {
        let st = enc_step32(a, b, s, i);
        lemma_rounds32_inverse(st.0, st.1, s, i + 1, r);
        lemma_step32_inverse(a, b, s, i);
    }
}

proof fn lemma_rounds32_inverse_rev(a: u32, b: u32, s: Seq<u32>, hi: int, lo: int)
    ensures
        enc_rounds32(
            dec_rounds32(a, b, s, hi, lo).0,
            dec_rounds32(a, b, s, hi, lo).1,
            s,
            lo,
            hi + 1,
        ) == (a, b),
    decreases hi + 1 - lo,
{
    if hi < lo {
    } else {
        let st = dec_rounds32(a, b, s, hi, lo + 1);
        lemma_rounds32_inverse_rev(a, b, s, hi, lo + 1);
        lemma_step32_inverse_rev(st.0, st.1, s, lo);
    }
}

/// Decrypting an encrypted 8-byte block returns the block.
pub proof fn lemma_block32_round_trip(pt: Seq<u8>, s: Seq<u32>, r: int)
    requires
        pt.len() == 8,
    ensures
        dec_block32(enc_block32(pt, s, r), s, r) =~= pt,
{
    let av: u32 = le32(pt.subrange(4, 8));
    let bv: u32 = le32(pt.subrange(0, 4));
    let a0: u32 = av.wrapping_add(s[0]);
    let b0: u32 = bv.wrapping_add(s[1]);
    let e = enc_rounds32(a0, b0, s, 1, r);
    let c = enc_block32(pt, s, r);
    assert(c.subrange(0, 4) =~= bytes32(e.0));
    assert(c.subrange(4, 8) =~= bytes32(e.1));
    lemma_le_bytes32(e.0);
    lemma_le_bytes32(e.1);
    lemma_rounds32_inverse(a0, b0, s, 1, r);
    lemma_wrap32_cancel(av, s[0]);
    lemma_wrap32_cancel(bv, s[1]);
    lemma_bytes_le32(pt.subrange(0, 4));
    lemma_bytes_le32(pt.subrange(4, 8));
    assert(dec_block32(c, s, r) =~= pt.subrange(0, 4) + pt.subrange(4, 8));
    assert(pt.subrange(0, 4) + pt.subrange(4, 8) =~= pt);
}

/// Encrypting a decrypted 8-byte block returns the block.
pub proof fn lemma_block32_round_trip_rev(ct: Seq<u8>, s: Seq<u32>, r: int)
    requires
        ct.len() == 8,
    ensures
        enc_block32(dec_block32(ct, s, r), s, r) =~= ct,
{
    let a0: u32 = le32(ct.subrange(0, 4));
    let b0: u32 = le32(ct.subrange(4, 8));
    let d = dec_rounds32(a0, b0, s, r - 1, 1);
    let m = dec_block32(ct, s, r);
    assert(m.subrange(0, 4) =~= bytes32(d.1.wrapping_sub(s[1])));
    assert(m.subrange(4, 8) =~= bytes32(d.0.wrapping_sub(s[0])));
    lemma_le_bytes32(d.1.wrapping_sub(s[1]));
    lemma_le_bytes32(d.0.wrapping_sub(s[0]));
    lemma_wrap32_cancel(d.0, s[0]);
    lemma_wrap32_cancel(d.1, s[1]);
    lemma_rounds32_inverse_rev(a0, b0, s, r - 1, 1);
    lemma_bytes_le32(ct.subrange(0, 4));
    lemma_bytes_le32(ct.subrange(4, 8));
    assert(enc_block32(m, s, r) =~= ct.subrange(0, 4) + ct.subrange(4, 8));
    assert(ct.subrange(0, 4) + ct.subrange(4, 8) =~= ct);
}

// ---------------------------------------------------------------------------
// Key schedule, width 64
// ---------------------------------------------------------------------------

/// Byte-to-word packing: the `L` array after folding in the key bytes
/// from index `k.len() - 1` down to `i`, little-endian, by rotate-and-add.
pub open spec fn pack64(k: Seq<u8>, c: nat, i: int) -> Seq<u64>
    decreases k.len() - i,
{
    if i >= k.len() {
        Seq::new(c, |j: int| 0u64)
    } else {
        let prev = pack64(k, c, i + 1);
        let idx: int = i / 8;
        prev.update(idx, rotl64(prev[idx], 8).wrapping_add(k[i] as u64))
    }
}

/// The initial round-key table entry at index `i`: `P + i * Q`, wrapping.
pub open spec fn s_init64(i: nat) -> u64
    decreases i,
{
    if i == 0 {
        P64
    } else {
        s_init64((i - 1) as nat).wrapping_add(Q64)
    }
}

pub open spec fn s_init_seq64(t: nat) -> Seq<u64> {
    Seq::new(t, |i: int| s_init64(i as nat))
}

/// The mixing state `(S, L, A, B)` after `n` mixing steps.
pub open spec fn mix64(s0: Seq<u64>, l0: Seq<u64>, n: nat) -> (Seq<u64>, Seq<u64>, u64, u64)
    recommends
        s0.len() > 0,
        l0.len() > 0,
    decreases n,
{
    if n == 0 {
        (s0, l0, 0u64, 0u64)
    } else {
        let prev = mix64(s0, l0, (n - 1) as nat);
        let s = prev.0;
        let l = prev.1;
        let a = prev.2;
        let b = prev.3;
        let i: int = ((n - 1) as int) % (s0.len() as int);
        let j: int = ((n - 1) as int) % (l0.len() as int);
        let a2: u64 = rotl64(s[i].wrapping_add(a).wrapping_add(b), 3);
        let b2: u64 = rotl64(l[j].wrapping_add(a2).wrapping_add(b), a2.wrapping_add(b));
        (s.update(i, a2), l.update(j, b2), a2, b2)
    }
}

pub proof fn lemma_mix64_len(s0: Seq<u64>, l0: Seq<u64>, n: nat)
    requires
        s0.len() > 0,
        l0.len() > 0,
    ensures
        mix64(s0, l0, n).0.len() == s0.len(),
        mix64(s0, l0, n).1.len() == l0.len(),
    decreases n,
{
    if n > 0 {
        lemma_mix64_len(s0, l0, (n - 1) as nat);
    }
}

/// The full expanded round-key table for width 64.
pub open spec fn key_sched64(k: Seq<u8>, r: int) -> Seq<u64> {
    let t: nat = (2 * (r + 1)) as nat;
    let c: nat = (k.len() / 8) as nat;
    mix64(s_init_seq64(t), pack64(k, c, 0), 3 * t).0
}

// ---------------------------------------------------------------------------
// Block transform, width 64
// ---------------------------------------------------------------------------

pub open spec fn enc_step64(a: u64, b: u64, s: Seq<u64>, i: int) -> (u64, u64) {
    let a2: u64 = rotl64(a ^ b, b).wrapping_add(s[2 * i]);
    let b2: u64 = rotl64(b ^ a2, a2).wrapping_add(s[2 * i + 1]);
    (a2, b2)
}

/// The mixing rounds `i .. r - 1` applied in increasing order.
pub open spec fn enc_rounds64(a: u64, b: u64, s: Seq<u64>, i: int, r: int) -> (u64, u64)
    decreases r - i,
{
    if i >= r {
        (a, b)
    } else {
        let st = enc_step64(a, b, s, i);
        enc_rounds64(st.0, st.1, s, i + 1, r)
    }
}

pub open spec fn dec_step64(a: u64, b: u64, s: Seq<u64>, i: int) -> (u64, u64) {
    let b2: u64 = rotr64(b.wrapping_sub(s[2 * i + 1]), a) ^ a;
    let a2: u64 = rotr64(a.wrapping_sub(s[2 * i]), b2) ^ b2;
    (a2, b2)
}

/// The inverse rounds `hi` down to `lo`; the round applied last is `lo`.
pub open spec fn dec_rounds64(a: u64, b: u64, s: Seq<u64>, hi: int, lo: int) -> (u64, u64)
    decreases hi + 1 - lo,
{
    if hi < lo {
        (a, b)
    } else {
        let st = dec_rounds64(a, b, s, hi, lo + 1);
        dec_step64(st.0, st.1, s, lo)
    }
}

/// Encrypt one 16-byte block: parse (high, low) words, whiten, mix.
pub open spec fn enc_block64(pt: Seq<u8>, s: Seq<u64>, r: int) -> Seq<u8>
    recommends
        pt.len() == 16,
{
    let a0: u64 = le64(pt.subrange(8, 16)).wrapping_add(s[0]);
    let b0: u64 = le64(pt.subrange(0, 8)).wrapping_add(s[1]);
    let ab = enc_rounds64(a0, b0, s, 1, r);
    bytes64(ab.0) + bytes64(ab.1)
}

/// Decrypt one 16-byte block: parse (low, high) words, unmix, unwhiten.
pub open spec fn dec_block64(ct: Seq<u8>, s: Seq<u64>, r: int) -> Seq<u8>
    recommends
        ct.len() == 16,
{
    let a0: u64 = le64(ct.subrange(0, 8));
    let b0: u64 = le64(ct.subrange(8, 16));
    let ab = dec_rounds64(a0, b0, s, r - 1, 1);
    bytes64(ab.1.wrapping_sub(s[1])) + bytes64(ab.0.wrapping_sub(s[0]))
}

proof fn lemma_step64_inverse(a: u64, b: u64, s: Seq<u64>, i: int)
    ensures
        dec_step64(enc_step64(a, b, s, i).0, enc_step64(a, b, s, i).1, s, i) == (a, b),
{
    let a2: u64 = rotl64(a ^ b, b).wrapping_add(s[2 * i]);
    let b2: u64 = rotl64(b ^ a2, a2).wrapping_add(s[2 * i + 1]);
    lemma_wrap64_cancel(rotl64(b ^ a2, a2), s[2 * i + 1]);
    lemma_rot64_inverse(b ^ a2, a2);
    lemma_xor64_cancel(b, a2);
    assert(rotr64(b2.wrapping_sub(s[2 * i + 1]), a2) ^ a2 == b);
    lemma_wrap64_cancel(rotl64(a ^ b, b), s[2 * i]);
    lemma_rot64_inverse(a ^ b, b);
    lemma_xor64_cancel(a, b);
    assert(rotr64(a2.wrapping_sub(s[2 * i]), b) ^ b == a);
}

proof fn lemma_step64_inverse_rev(a: u64, b: u64, s: Seq<u64>, i: int)
    ensures
        enc_step64(dec_step64(a, b, s, i).0, dec_step64(a, b, s, i).1, s, i) == (a, b),
{
    let b2: u64 = rotr64(b.wrapping_sub(s[2 * i + 1]), a) ^ a;
    let a2: u64 = rotr64(a.wrapping_sub(s[2 * i]), b2) ^ b2;
    lemma_xor64_cancel(a.wrapping_sub(s[2 * i]), b2);
    assert((rotr64(a.wrapping_sub(s[2 * i]), b2) ^ b2) ^ b2 == rotr64(
        a.wrapping_sub(s[2 * i]),
        b2,
    )) by {
        lemma_xor64_cancel(rotr64(a.wrapping_sub(s[2 * i]), b2), b2);
    }
    lemma_rot64_inverse(a.wrapping_sub(s[2 * i]), b2);
    lemma_wrap64_cancel(a, s[2 * i]);
    assert(rotl64(a2 ^ b2, b2).wrapping_add(s[2 * i]) == a);
    assert((rotr64(b.wrapping_sub(s[2 * i + 1]), a) ^ a) ^ a == rotr64(
        b.wrapping_sub(s[2 * i + 1]),
        a,
    )) by {
        lemma_xor64_cancel(rotr64(b.wrapping_sub(s[2 * i + 1]), a), a);
    }
    lemma_rot64_inverse(b.wrapping_sub(s[2 * i + 1]), a);
    lemma_wrap64_cancel(b, s[2 * i + 1]);
    assert(rotl64(b2 ^ a, a).wrapping_add(s[2 * i + 1]) == b);
}

proof fn lemma_rounds64_inverse(a: u64, b: u64, s: Seq<u64>, i: int, r: int)
    ensures
        dec_rounds64(
            enc_rounds64(a, b, s, i, r).0,
            enc_rounds64(a, b, s, i, r).1,
            s,
            r - 1,
            i,
        ) == (a, b),
    decreases r - i,
{
    if i >= r {
    } else {
        let st = enc_step64(a, b, s, i);
        lemma_rounds64_inverse(st.0, st.1, s, i + 1, r);
        lemma_step64_inverse(a, b, s, i);
    }
}

proof fn lemma_rounds64_inverse_rev(a: u64, b: u64, s: Seq<u64>, hi: int, lo: int)
    ensures
        enc_rounds64(
            dec_rounds64(a, b, s, hi, lo).0,
            dec_rounds64(a, b, s, hi, lo).1,
            s,
            lo,
            hi + 1,
        ) == (a, b),
    decreases hi + 1 - lo,
{
    if hi < lo {
    } else {
        let st = dec_rounds64(a, b, s, hi, lo + 1);
        lemma_rounds64_inverse_rev(a, b, s, hi, lo + 1);
        lemma_step64_inverse_rev(st.0, st.1, s, lo);
    }
}

/// Decrypting an encrypted 16-byte block returns the block.
pub proof fn lemma_block64_round_trip(pt: Seq<u8>, s: Seq<u64>, r: int)
    requires
        pt.len() == 16,
    ensures
        dec_block64(enc_block64(pt, s, r), s, r) =~= pt,
{
    let av: u64 = le64(pt.subrange(8, 16));
    let bv: u64 = le64(pt.subrange(0, 8));
    let a0: u64 = av.wrapping_add(s[0]);
    let b0: u64 = bv.wrapping_add(s[1]);
    let e = enc_rounds64(a0, b0, s, 1, r);
    let c = enc_block64(pt, s, r);
    assert(c.subrange(0, 8) =~= bytes64(e.0));
    assert(c.subrange(8, 16) =~= bytes64(e.1));
    lemma_le_bytes64(e.0);
    lemma_le_bytes64(e.1);
    lemma_rounds64_inverse(a0, b0, s, 1, r);
    lemma_wrap64_cancel(av, s[0]);
    lemma_wrap64_cancel(bv, s[1]);
    lemma_bytes_le64(pt.subrange(0, 8));
    lemma_bytes_le64(pt.subrange(8, 16));
    assert(dec_block64(c, s, r) =~= pt.subrange(0, 8) + pt.subrange(8, 16));
    assert(pt.subrange(0, 8) + pt.subrange(8, 16) =~= pt);
}

/// Encrypting a decrypted 16-byte block returns the block.
pub proof fn lemma_block64_round_trip_rev(ct: Seq<u8>, s: Seq<u64>, r: int)
    requires
        ct.len() == 16,
    ensures
        enc_block64(dec_block64(ct, s, r), s, r) =~= ct,
{
    let a0: u64 = le64(ct.subrange(0, 8));
    let b0: u64 = le64(ct.subrange(8, 16));
    let d = dec_rounds64(a0, b0, s, r - 1, 1);
    let m = dec_block64(ct, s, r);
    assert(m.subrange(0, 8) =~= bytes64(d.1.wrapping_sub(s[1])));
    assert(m.subrange(8, 16) =~= bytes64(d.0.wrapping_sub(s[0])));
    lemma_le_bytes64(d.1.wrapping_sub(s[1]));
    lemma_le_bytes64(d.0.wrapping_sub(s[0]));
    lemma_wrap64_cancel(d.0, s[0]);
    lemma_wrap64_cancel(d.1, s[1]);
    lemma_rounds64_inverse_rev(a0, b0, s, r - 1, 1);
    lemma_bytes_le64(ct.subrange(0, 8));
    lemma_bytes_le64(ct.subrange(8, 16));
    assert(enc_block64(m, s, r) =~= ct.subrange(0, 8) + ct.subrange(8, 16));
    assert(ct.subrange(0, 8) + ct.subrange(8, 16) =~= ct);
}

// ---------------------------------------------------------------------------
// The cipher handle
// ---------------------------------------------------------------------------

/// Supported configurations: any of the three widths, 1 to 255 rounds,
/// a key of 8, 16 or 32 bytes.
pub open spec fn valid_params(r: int, b: int) -> bool {
    1 <= r <= 255 && (b == 8 || b == 16 || b == 32)
}

impl RC5 {
    #[verifier::type_invariant]
    pub closed spec fn wf(self) -> bool {
        valid_params(self.r as int, self.b as int)
    }

    pub closed spec fn spec_w(&self) -> RC5WordSize {
        self.w
    }

    pub closed spec fn spec_r(&self) -> int {
        self.r as int
    }

    pub closed spec fn spec_b(&self) -> int {
        self.b as int
    }

    /// Build a cipher configuration, refusing any unsupported triple.
    pub fn new(w: RC5WordSize, r: u8, b: u8) -> (res: Result<RC5, Rc5Error>)
        ensures
            res is Ok <==> (1 <= r && (b == 8 || b == 16 || b == 32)),
            res is Ok ==> {
                let c = res->Ok_0;
                c.spec_w() == w && c.spec_r() == r as int && c.spec_b() == b as int
            },
            res is Err ==> res->Err_0 == Rc5Error::InvalidConfiguration,
    {
        if r >= 1 && (b == 8 || b == 16 || b == 32) {
            Ok(
                RC5 {
                    w,
                    r: r as usize,
                    b: b as usize,
                },
            )
        } else {
            Err(Rc5Error::InvalidConfiguration)
        }
    }

    /// Derive the raw key of the configured length `b` from a
    /// passphrase, through the digest helper: the second half of the
    /// digest for `b = 8`, the digest itself for `b = 16`, and the
    /// digest of the digest followed by the digest for `b = 32`.
    pub fn generate_key(&self, data: &[u8]) -> (key: Vec<u8>)
        ensures
            key@ == spec_generate_key(self.spec_b(), data@),
            key@.len() == self.spec_b(),
    {
        proof {
            use_type_invariant(&*self);
            crate::md5::lemma_spec_md5_len(data@);
        }
        let h: crate::md5::Digest = crate::md5::md5_bytes(data);
        if self.b == 8 {
            let key = copy_range(h.0.as_slice(), 8, 8);
            proof {
                assert(h.0@.subrange(8, 16) =~= crate::md5::spec_md5(data@).skip(8));
            }
            key
        } else if self.b == 16 {
            let key = copy_range(h.0.as_slice(), 0, 16);
            proof {
                assert(h.0@.subrange(0, 16) =~= h.0@);
            }
            key
        } else {
            proof {
                crate::md5::lemma_spec_md5_len(h.0@);
            }
            let h2: crate::md5::Digest = crate::md5::md5_bytes(h.0.as_slice());
            let mut key = copy_range(h2.0.as_slice(), 0, 16);
            append_slice(&mut key, h.0.as_slice());
            proof {
                assert(h2.0@.subrange(0, 16) =~= h2.0@);
            }
            key
        }
    }

    /// The configured word width.
    pub fn word_size(&self) -> (w: RC5WordSize)
        ensures
            w == self.spec_w(),
    {
        self.w
    }

    /// The configured round count, always in `[1, 255]`.
    pub fn rounds(&self) -> (r: usize)
        ensures
            r == self.spec_r(),
            1 <= r <= 255,
    {
        proof {
            use_type_invariant(&*self);
        }
        self.r
    }

    /// The configured key length in bytes, always 8, 16 or 32.
    pub fn key_len(&self) -> (b: usize)
        ensures
            b == self.spec_b(),
            b == 8 || b == 16 || b == 32,
    {
        proof {
            use_type_invariant(&*self);
        }
        self.b
    }

    /// Expand a key of exactly `b` bytes into the width-16 round-key table.
    pub fn expanded_key_16(&self, k: &[u8]) -> (s: Vec<u16>)
        requires
            k@.len() == self.spec_b(),
        ensures
            s@ == key_sched16(k@, self.spec_r()),
            s@.len() == 2 * (self.spec_r() + 1),
    {
        proof {
            use_type_invariant(&*self);
        }
        let r: usize = self.r;
        let b: usize = self.b;
        let c: usize = b / 2;
        let t: usize = 2 * (r + 1);
        let mut s: Vec<u16> = vec![0u16; t];
        let mut l: Vec<u16> = vec![0u16; c];

        let mut i: usize = b;
        while i > 0
            invariant
                i <= b,
                b == k@.len(),
                b == 8 || b == 16 || b == 32,
                c == b / 2,
                l@ == pack16(k@, c as nat, i as int),
                l@.len() == c,
            decreases i,
        {
            i = i - 1;
            let idx: usize = i / 2;
            let cur: u16 = l[idx];
            l.set(idx, rotl_u16(cur, 8).wrapping_add(k[i] as u16));
            proof {
                assert(l@ =~= pack16(k@, c as nat, i as int));
            }
        }

        s.set(0, P16);
        let mut i: usize = 1;
        while i < t
            invariant
                1 <= i <= t,
                s@.len() == t,
                forall|j: int| 0 <= j < i ==> s@[j] == s_init16(j as nat),
            decreases t - i,
        {
            let prev: u16 = s[i - 1];
            s.set(i, prev.wrapping_add(Q16));
            i = i + 1;
        }
        proof {
            assert(s@ =~= s_init_seq16(t as nat));
        }

        let ghost s0: Seq<u16> = s@;
        let ghost l0: Seq<u16> = l@;
        let mut i: usize = 0;
        let mut j: usize = 0;
        let mut ma: u16 = 0;
        let mut mb: u16 = 0;
        let mut n: usize = 0;
        let steps: usize = 3 * t;
        while n < steps
            invariant
                n <= steps,
                steps == 3 * t,
                t == 2 * (r + 1),
                r <= 255,
                s0.len() == t,
                l0.len() == c,
                c >= 1,
                i == n % t,
                j == n % c,
                (s@, l@, ma, mb) == mix16(s0, l0, n as nat),
                s@.len() == t,
                l@.len() == c,
            decreases steps - n,
        {
            let a2: u16 = rotl_u16(s[i].wrapping_add(ma).wrapping_add(mb), 3);
            s.set(i, a2);
            let b2: u16 = rotl_u16(l[j].wrapping_add(a2).wrapping_add(mb), a2.wrapping_add(mb));
            l.set(j, b2);
            ma = a2;
            mb = b2;
            proof {
                assert((s@, l@, ma, mb) == mix16(s0, l0, (n + 1) as nat));
                crate::cipher::lemma_mod_step(n as int, t as int);
                crate::cipher::lemma_mod_step(n as int, c as int);
            }
            i = (i + 1) % t;
            j = (j + 1) % c;
            n = n + 1;
        }
        s
    }
    /// Expand a key of exactly `b` bytes into the width-32 round-key table.
    pub fn expanded_key_32(&self, k: &[u8]) -> (s: Vec<u32>)
        requires
            k@.len() == self.spec_b(),
        ensures
            s@ == key_sched32(k@, self.spec_r()),
            s@.len() == 2 * (self.spec_r() + 1),
    {
        proof {
            use_type_invariant(&*self);
        }
        let r: usize = self.r;
        let b: usize = self.b;
        let c: usize = b / 4;
        let t: usize = 2 * (r + 1);
        let mut s: Vec<u32> = vec![0u32; t];
        let mut l: Vec<u32> = vec![0u32; c];

        let mut i: usize = b;
        while i > 0
            invariant
                i <= b,
                b == k@.len(),
                b == 8 || b == 16 || b == 32,
                c == b / 4,
                l@ == pack32(k@, c as nat, i as int),
                l@.len() == c,
            decreases i,
        {
            i = i - 1;
            let idx: usize = i / 4;
            let cur: u32 = l[idx];
            l.set(idx, rotl_u32(cur, 8).wrapping_add(k[i] as u32));
            proof {
                assert(l@ =~= pack32(k@, c as nat, i as int));
            }
        }

        s.set(0, P32);
        let mut i: usize = 1;
        while i < t
            invariant
                1 <= i <= t,
                s@.len() == t,
                forall|j: int| 0 <= j < i ==> s@[j] == s_init32(j as nat),
            decreases t - i,
        {
            let prev: u32 = s[i - 1];
            s.set(i, prev.wrapping_add(Q32));
            i = i + 1;
        }
        proof {
            assert(s@ =~= s_init_seq32(t as nat));
        }

        let ghost s0: Seq<u32> = s@;
        let ghost l0: Seq<u32> = l@;
        let mut i: usize = 0;
        let mut j: usize = 0;
        let mut ma: u32 = 0;
        let mut mb: u32 = 0;
        let mut n: usize = 0;
        let steps: usize = 3 * t;
        while n < steps
            invariant
                n <= steps,
                steps == 3 * t,
                t == 2 * (r + 1),
                r <= 255,
                s0.len() == t,
                l0.len() == c,
                c >= 1,
                i == n % t,
                j == n % c,
                (s@, l@, ma, mb) == mix32(s0, l0, n as nat),
                s@.len() == t,
                l@.len() == c,
            decreases steps - n,
        {
            let a2: u32 = rotl_u32(s[i].wrapping_add(ma).wrapping_add(mb), 3);
            s.set(i, a2);
            let b2: u32 = rotl_u32(l[j].wrapping_add(a2).wrapping_add(mb), a2.wrapping_add(mb));
            l.set(j, b2);
            ma = a2;
            mb = b2;
            proof {
                assert((s@, l@, ma, mb) == mix32(s0, l0, (n + 1) as nat));
                crate::cipher::lemma_mod_step(n as int, t as int);
                crate::cipher::lemma_mod_step(n as int, c as int);
            }
            i = (i + 1) % t;
            j = (j + 1) % c;
            n = n + 1;
        }
        s
    }

    /// Expand a key of exactly `b` bytes into the width-64 round-key table.
    pub fn expanded_key_64(&self, k: &[u8]) -> (s: Vec<u64>)
        requires
            k@.len() == self.spec_b(),
        ensures
            s@ == key_sched64(k@, self.spec_r()),
            s@.len() == 2 * (self.spec_r() + 1),
    {
        proof {
            use_type_invariant(&*self);
        }
        let r: usize = self.r;
        let b: usize = self.b;
        let c: usize = b / 8;
        let t: usize = 2 * (r + 1);
        let mut s: Vec<u64> = vec![0u64; t];
        let mut l: Vec<u64> = vec![0u64; c];

        let mut i: usize = b;
        while i > 0
            invariant
                i <= b,
                b == k@.len(),
                b == 8 || b == 16 || b == 32,
                c == b / 8,
                l@ == pack64(k@, c as nat, i as int),
                l@.len() == c,
            decreases i,
        {
            i = i - 1;
            let idx: usize = i / 8;
            let cur: u64 = l[idx];
            l.set(idx, rotl_u64(cur, 8).wrapping_add(k[i] as u64));
            proof {
                assert(l@ =~= pack64(k@, c as nat, i as int));
            }
        }

        s.set(0, P64);
        let mut i: usize = 1;
        while i < t
            invariant
                1 <= i <= t,
                s@.len() == t,
                forall|j: int| 0 <= j < i ==> s@[j] == s_init64(j as nat),
            decreases t - i,
        {
            let prev: u64 = s[i - 1];
            s.set(i, prev.wrapping_add(Q64));
            i = i + 1;
        }
        proof {
            assert(s@ =~= s_init_seq64(t as nat));
        }

        let ghost s0: Seq<u64> = s@;
        let ghost l0: Seq<u64> = l@;
        let mut i: usize = 0;
        let mut j: usize = 0;
        let mut ma: u64 = 0;
        let mut mb: u64 = 0;
        let mut n: usize = 0;
        let steps: usize = 3 * t;
        while n < steps
            invariant
                n <= steps,
                steps == 3 * t,
                t == 2 * (r + 1),
                r <= 255,
                s0.len() == t,
                l0.len() == c,
                c >= 1,
                i == n % t,
                j == n % c,
                (s@, l@, ma, mb) == mix64(s0, l0, n as nat),
                s@.len() == t,
                l@.len() == c,
            decreases steps - n,
        {
            let a2: u64 = rotl_u64(s[i].wrapping_add(ma).wrapping_add(mb), 3);
            s.set(i, a2);
            let b2: u64 = rotl_u64(l[j].wrapping_add(a2).wrapping_add(mb), a2.wrapping_add(mb));
            l.set(j, b2);
            ma = a2;
            mb = b2;
            proof {
                assert((s@, l@, ma, mb) == mix64(s0, l0, (n + 1) as nat));
                crate::cipher::lemma_mod_step(n as int, t as int);
                crate::cipher::lemma_mod_step(n as int, c as int);
            }
            i = (i + 1) % t;
            j = (j + 1) % c;
            n = n + 1;
        }
        s
    }
}

impl RC5 {
    /// Encrypt one block under a width-16 round-key table; the first
    /// 4 bytes of `pt` are the block.
    pub fn encrypt_ecb_16(&self, pt: &[u8], s: &[u16]) -> (ct: Vec<u8>)
        requires
            pt@.len() >= 4,
            s@.len() >= 2 * self.spec_r(),
        ensures
            ct@ == enc_block16(pt@.subrange(0, 4), s@, self.spec_r()),
            ct@.len() == 4,
    {
        proof {
            use_type_invariant(&*self);
        }
        let r: usize = self.r;
        let a0: u16 = load_u16(pt, 2).wrapping_add(s[0]);
        let b0: u16 = load_u16(pt, 0).wrapping_add(s[1]);
        proof {
            let blk: Seq<u8> = pt@.subrange(0, 4);
            assert(blk.subrange(2, 4) =~= pt@.subrange(2, 4));
            assert(blk.subrange(0, 2) =~= pt@.subrange(0, 2));
        }
        let mut a: u16 = a0;
        let mut b: u16 = b0;
        let mut i: usize = 1;
        while i < r
            invariant
                1 <= i <= r,
                r <= 255,
                s@.len() >= 2 * r,
                enc_rounds16(a, b, s@, i as int, r as int) == enc_rounds16(
                    a0,
                    b0,
                    s@,
                    1,
                    r as int,
                ),
            decreases r - i,
        {
            let a2: u16 = rotl_u16(a ^ b, b).wrapping_add(s[2 * i]);
            let b2: u16 = rotl_u16(b ^ a2, a2).wrapping_add(s[2 * i + 1]);
            a = a2;
            b = b2;
            i = i + 1;
        }
        let mut out: Vec<u8> = Vec::new();
        push_le16(&mut out, a);
        push_le16(&mut out, b);
        proof {
            assert(out@ =~= bytes16(a) + bytes16(b));
        }
        out
    }

    /// Decrypt one block under a width-16 round-key table; the first
    /// 4 bytes of `ct` are the block.
    pub fn decrypt_ecb_16(&self, ct: &[u8], s: &[u16]) -> (pt: Vec<u8>)
        requires
            ct@.len() >= 4,
            s@.len() >= 2 * self.spec_r(),
        ensures
            pt@ == dec_block16(ct@.subrange(0, 4), s@, self.spec_r()),
            pt@.len() == 4,
    {
        proof {
            use_type_invariant(&*self);
        }
        let r: usize = self.r;
        let a0: u16 = load_u16(ct, 0);
        let b0: u16 = load_u16(ct, 2);
        proof {
            let blk: Seq<u8> = ct@.subrange(0, 4);
            assert(blk.subrange(0, 2) =~= ct@.subrange(0, 2));
            assert(blk.subrange(2, 4) =~= ct@.subrange(2, 4));
        }
        let mut a: u16 = a0;
        let mut b: u16 = b0;
        let mut i: usize = r;
        while i > 1
            invariant
                1 <= i <= r,
                r <= 255,
                s@.len() >= 2 * r,
                (a, b) == dec_rounds16(a0, b0, s@, r as int - 1, i as int),
            decreases i,
        {
            let j: usize = i - 1;
            let b2: u16 = rotr_u16(b.wrapping_sub(s[2 * j + 1]), a) ^ a;
            let a2: u16 = rotr_u16(a.wrapping_sub(s[2 * j]), b2) ^ b2;
            a = a2;
            b = b2;
            i = j;
        }
        let mut out: Vec<u8> = Vec::new();
        push_le16(&mut out, b.wrapping_sub(s[1]));
        push_le16(&mut out, a.wrapping_sub(s[0]));
        proof {
            assert(out@ =~= bytes16(b.wrapping_sub(s[1])) + bytes16(a.wrapping_sub(s[0])));
        }
        out
    }
    /// Encrypt one block under a width-32 round-key table; the first
    /// 8 bytes of `pt` are the block.
    pub fn encrypt_ecb_32(&self, pt: &[u8], s: &[u32]) -> (ct: Vec<u8>)
        requires
            pt@.len() >= 8,
            s@.len() >= 2 * self.spec_r(),
        ensures
            ct@ == enc_block32(pt@.subrange(0, 8), s@, self.spec_r()),
            ct@.len() == 8,
    {
        proof {
            use_type_invariant(&*self);
        }
        let r: usize = self.r;
        let a0: u32 = load_u32(pt, 4).wrapping_add(s[0]);
        let b0: u32 = load_u32(pt, 0).wrapping_add(s[1]);
        proof {
            let blk: Seq<u8> = pt@.subrange(0, 8);
            assert(blk.subrange(4, 8) =~= pt@.subrange(4, 8));
            assert(blk.subrange(0, 4) =~= pt@.subrange(0, 4));
        }
        let mut a: u32 = a0;
        let mut b: u32 = b0;
        let mut i: usize = 1;
        while i < r
            invariant
                1 <= i <= r,
                r <= 255,
                s@.len() >= 2 * r,
                enc_rounds32(a, b, s@, i as int, r as int) == enc_rounds32(
                    a0,
                    b0,
                    s@,
                    1,
                    r as int,
                ),
            decreases r - i,
        {
            let a2: u32 = rotl_u32(a ^ b, b).wrapping_add(s[2 * i]);
            let b2: u32 = rotl_u32(b ^ a2, a2).wrapping_add(s[2 * i + 1]);
            a = a2;
            b = b2;
            i = i + 1;
        }
        let mut out: Vec<u8> = Vec::new();
        push_le32(&mut out, a);
        push_le32(&mut out, b);
        proof {
            assert(out@ =~= bytes32(a) + bytes32(b));
        }
        out
    }

    /// Decrypt one block under a width-32 round-key table; the first
    /// 8 bytes of `ct` are the block.
    pub fn decrypt_ecb_32(&self, ct: &[u8], s: &[u32]) -> (pt: Vec<u8>)
        requires
            ct@.len() >= 8,
            s@.len() >= 2 * self.spec_r(),
        ensures
            pt@ == dec_block32(ct@.subrange(0, 8), s@, self.spec_r()),
            pt@.len() == 8,
    {
        proof {
            use_type_invariant(&*self);
        }
        let r: usize = self.r;
        let a0: u32 = load_u32(ct, 0);
        let b0: u32 = load_u32(ct, 4);
        proof {
            let blk: Seq<u8> = ct@.subrange(0, 8);
            assert(blk.subrange(0, 4) =~= ct@.subrange(0, 4));
            assert(blk.subrange(4, 8) =~= ct@.subrange(4, 8));
        }
        let mut a: u32 = a0;
        let mut b: u32 = b0;
        let mut i: usize = r;
        while i > 1
            invariant
                1 <= i <= r,
                r <= 255,
                s@.len() >= 2 * r,
                (a, b) == dec_rounds32(a0, b0, s@, r as int - 1, i as int),
            decreases i,
        {
            let j: usize = i - 1;
            let b2: u32 = rotr_u32(b.wrapping_sub(s[2 * j + 1]), a) ^ a;
            let a2: u32 = rotr_u32(a.wrapping_sub(s[2 * j]), b2) ^ b2;
            a = a2;
            b = b2;
            i = j;
        }
        let mut out: Vec<u8> = Vec::new();
        push_le32(&mut out, b.wrapping_sub(s[1]));
        push_le32(&mut out, a.wrapping_sub(s[0]));
        proof {
            assert(out@ =~= bytes32(b.wrapping_sub(s[1])) + bytes32(a.wrapping_sub(s[0])));
        }
        out
    }

    /// Encrypt one block under a width-64 round-key table; the first
    /// 16 bytes of `pt` are the block.
    pub fn encrypt_ecb_64(&self, pt: &[u8], s: &[u64]) -> (ct: Vec<u8>)
        requires
            pt@.len() >= 16,
            s@.len() >= 2 * self.spec_r(),
        ensures
            ct@ == enc_block64(pt@.subrange(0, 16), s@, self.spec_r()),
            ct@.len() == 16,
    {
        proof {
            use_type_invariant(&*self);
        }
        let r: usize = self.r;
        let a0: u64 = load_u64(pt, 8).wrapping_add(s[0]);
        let b0: u64 = load_u64(pt, 0).wrapping_add(s[1]);
        proof {
            let blk: Seq<u8> = pt@.subrange(0, 16);
            assert(blk.subrange(8, 16) =~= pt@.subrange(8, 16));
            assert(blk.subrange(0, 8) =~= pt@.subrange(0, 8));
        }
        let mut a: u64 = a0;
        let mut b: u64 = b0;
        let mut i: usize = 1;
        while i < r
            invariant
                1 <= i <= r,
                r <= 255,
                s@.len() >= 2 * r,
                enc_rounds64(a, b, s@, i as int, r as int) == enc_rounds64(
                    a0,
                    b0,
                    s@,
                    1,
                    r as int,
                ),
            decreases r - i,
        {
            let a2: u64 = rotl_u64(a ^ b, b).wrapping_add(s[2 * i]);
            let b2: u64 = rotl_u64(b ^ a2, a2).wrapping_add(s[2 * i + 1]);
            a = a2;
            b = b2;
            i = i + 1;
        }
        let mut out: Vec<u8> = Vec::new();
        push_le64(&mut out, a);
        push_le64(&mut out, b);
        proof {
            assert(out@ =~= bytes64(a) + bytes64(b));
        }
        out
    }

    /// Decrypt one block under a width-64 round-key table; the first
    /// 16 bytes of `ct` are the block.
    pub fn decrypt_ecb_64(&self, ct: &[u8], s: &[u64]) -> (pt: Vec<u8>)
        requires
            ct@.len() >= 16,
            s@.len() >= 2 * self.spec_r(),
        ensures
            pt@ == dec_block64(ct@.subrange(0, 16), s@, self.spec_r()),
            pt@.len() == 16,
    {
        proof {
            use_type_invariant(&*self);
        }
        let r: usize = self.r;
        let a0: u64 = load_u64(ct, 0);
        let b0: u64 = load_u64(ct, 8);
        proof {
            let blk: Seq<u8> = ct@.subrange(0, 16);
            assert(blk.subrange(0, 8) =~= ct@.subrange(0, 8));
            assert(blk.subrange(8, 16) =~= ct@.subrange(8, 16));
        }
        let mut a: u64 = a0;
        let mut b: u64 = b0;
        let mut i: usize = r;
        while i > 1
            invariant
                1 <= i <= r,
                r <= 255,
                s@.len() >= 2 * r,
                (a, b) == dec_rounds64(a0, b0, s@, r as int - 1, i as int),
            decreases i,
        {
            let j: usize = i - 1;
            let b2: u64 = rotr_u64(b.wrapping_sub(s[2 * j + 1]), a) ^ a;
            let a2: u64 = rotr_u64(a.wrapping_sub(s[2 * j]), b2) ^ b2;
            a = a2;
            b = b2;
            i = j;
        }
        let mut out: Vec<u8> = Vec::new();
        push_le64(&mut out, b.wrapping_sub(s[1]));
        push_le64(&mut out, a.wrapping_sub(s[0]));
        proof {
            assert(out@ =~= bytes64(b.wrapping_sub(s[1])) + bytes64(a.wrapping_sub(s[0])));
        }
        out
    }
}

/// Both block transforms of width 16 produce 4 bytes.
pub proof fn lemma_block16_len(blk: Seq<u8>, s: Seq<u16>, r: int)
    ensures
        enc_block16(blk, s, r).len() == 4,
        dec_block16(blk, s, r).len() == 4,
{
}

/// Both block transforms of width 32 produce 8 bytes.
pub proof fn lemma_block32_len(blk: Seq<u8>, s: Seq<u32>, r: int)
    ensures
        enc_block32(blk, s, r).len() == 8,
        dec_block32(blk, s, r).len() == 8,
{
}

/// Both block transforms of width 64 produce 16 bytes.
pub proof fn lemma_block64_len(blk: Seq<u8>, s: Seq<u64>, r: int)
    ensures
        enc_block64(blk, s, r).len() == 16,
        dec_block64(blk, s, r).len() == 16,
{
}

pub proof fn lemma_pack16_len(k: Seq<u8>, c: nat, i: int)
    requires
        i >= 0,
        k.len() <= c * 2,
    ensures
        pack16(k, c, i).len() == c,
    decreases k.len() - i,
{
    if i < k.len() {
        lemma_pack16_len(k, c, i + 1);
        vstd::arithmetic::div_mod::lemma_multiply_divide_lt(i, 2, c as int);
    }
}

/// The expanded table has exactly `2 * (r + 1)` entries.
pub proof fn lemma_key_sched16_len(k: Seq<u8>, r: int)
    requires
        r >= 1,
        k.len() >= 2,
        k.len() as int % 2 == 0,
    ensures
        key_sched16(k, r).len() == 2 * (r + 1),
{
    let t: nat = (2 * (r + 1)) as nat;
    let c: nat = (k.len() / 2) as nat;
    vstd::arithmetic::div_mod::lemma_fundamental_div_mod(k.len() as int, 2);
    assert(k.len() as int % 2 == 0 ==> k.len() <= c * 2);
    lemma_pack16_len(k, c, 0);
    lemma_mix16_len(s_init_seq16(t), pack16(k, c, 0), 3 * t);
}

pub proof fn lemma_pack32_len(k: Seq<u8>, c: nat, i: int)
    requires
        i >= 0,
        k.len() <= c * 4,
    ensures
        pack32(k, c, i).len() == c,
    decreases k.len() - i,
{
    if i < k.len() {
        lemma_pack32_len(k, c, i + 1);
        vstd::arithmetic::div_mod::lemma_multiply_divide_lt(i, 4, c as int);
    }
}

/// The expanded table has exactly `2 * (r + 1)` entries.
pub proof fn lemma_key_sched32_len(k: Seq<u8>, r: int)
    requires
        r >= 1,
        k.len() >= 4,
        k.len() as int % 4 == 0,
    ensures
        key_sched32(k, r).len() == 2 * (r + 1),
{
    let t: nat = (2 * (r + 1)) as nat;
    let c: nat = (k.len() / 4) as nat;
    vstd::arithmetic::div_mod::lemma_fundamental_div_mod(k.len() as int, 4);
    assert(k.len() as int % 4 == 0 ==> k.len() <= c * 4);
    lemma_pack32_len(k, c, 0);
    lemma_mix32_len(s_init_seq32(t), pack32(k, c, 0), 3 * t);
}

pub proof fn lemma_pack64_len(k: Seq<u8>, c: nat, i: int)
    requires
        i >= 0,
        k.len() <= c * 8,
    ensures
        pack64(k, c, i).len() == c,
    decreases k.len() - i,
{
    if i < k.len() {
        lemma_pack64_len(k, c, i + 1);
        vstd::arithmetic::div_mod::lemma_multiply_divide_lt(i, 8, c as int);
    }
}

/// The expanded table has exactly `2 * (r + 1)` entries.
pub proof fn lemma_key_sched64_len(k: Seq<u8>, r: int)
    requires
        r >= 1,
        k.len() >= 8,
        k.len() as int % 8 == 0,
    ensures
        key_sched64(k, r).len() == 2 * (r + 1),
{
    let t: nat = (2 * (r + 1)) as nat;
    let c: nat = (k.len() / 8) as nat;
    vstd::arithmetic::div_mod::lemma_fundamental_div_mod(k.len() as int, 8);
    assert(k.len() as int % 8 == 0 ==> k.len() <= c * 8);
    lemma_pack64_len(k, c, 0);
    lemma_mix64_len(s_init_seq64(t), pack64(k, c, 0), 3 * t);
}

/// The raw key that the digest-based derivation yields for a key
/// length `b`: half of the digest, the digest, or a double digest.
pub open spec fn spec_generate_key(b: int, data: Seq<u8>) -> Seq<u8> {
    let h = crate::md5::spec_md5(data);
    if b == 8 {
        h.skip(8)
    } else if b == 16 {
        h
    } else {
        crate::md5::spec_md5(h) + h
    }
}

/// Stepping a wrapped counter agrees with stepping modulo `t`.
pub proof fn lemma_mod_step(n: int, t: int)
    requires
        n >= 0,
        t > 0,
    ensures
        ((n % t) + 1) % t == (n + 1) % t,
{
    vstd::arithmetic::div_mod::lemma_add_mod_noop(n, 1, t);
    if t == 1 {
    } else {
        assert(1int % t == 1) by {
            vstd::arithmetic::div_mod::lemma_small_mod(1nat, t as nat);
        }
    }
}

} // verus!
