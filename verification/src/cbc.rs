use crate::cipher::{
    dec_block16, dec_block32, dec_block64, enc_block16, enc_block32, enc_block64, key_sched16,
    key_sched32, key_sched64, lemma_block16_round_trip, lemma_block32_round_trip,
    lemma_block64_round_trip, lemma_block16_len, lemma_block32_len, lemma_block64_len, Digest,
    RC5ExpandedKey, RC5WordSize, Rc5Error, RC5,
};
use crate::words::{append_slice, copy_range, lemma_xor_bytes_cancel, xor_block, xor_bytes, xor_range, zero_vec};
use vstd::prelude::*;

verus! {

// The CBC-with-padding driver.
//
// The framed message is IV ‖ plaintext ‖ padding, where the padding is
// `n` copies of the byte `n` and `n = bb - ((|IV| + |plaintext|) mod bb)`,
// so `n` lies in `[1, bb]` and the frame is a whole number of blocks.
// The chaining register starts at zero and the IV itself is encrypted
// as the first block; decryption discards the first recovered block and
// leaves the padding in place for the caller to strip.

/// A round-key table at the specification level.
pub enum KeyTable {
    W16(Seq<u16>),
    W32(Seq<u32>),
    W64(Seq<u64>),
}

pub open spec fn table_of(s: RC5ExpandedKey) -> KeyTable {
    match s {
        RC5ExpandedKey::Bits16(v) => KeyTable::W16(v@),
        RC5ExpandedKey::Bits32(v) => KeyTable::W32(v@),
        RC5ExpandedKey::Bits64(v) => KeyTable::W64(v@),
    }
}

/// The table a key of this width expands to.
pub open spec fn spec_expand(w: RC5WordSize, k: Seq<u8>, r: int) -> KeyTable {
    match w {
        RC5WordSize::Bits16 => KeyTable::W16(key_sched16(k, r)),
        RC5WordSize::Bits32 => KeyTable::W32(key_sched32(k, r)),
        RC5WordSize::Bits64 => KeyTable::W64(key_sched64(k, r)),
    }
}

/// Block size in bytes of the width the table belongs to.
pub open spec fn tbl_bb(t: KeyTable) -> int {
    match t {
        KeyTable::W16(_) => 4,
        KeyTable::W32(_) => 8,
        KeyTable::W64(_) => 16,
    }
}

/// A table of the full length `2 * (r + 1)`.
pub open spec fn tbl_wf(t: KeyTable, r: int) -> bool {
    match t {
        KeyTable::W16(s) => s.len() == 2 * (r + 1),
        KeyTable::W32(s) => s.len() == 2 * (r + 1),
        KeyTable::W64(s) => s.len() == 2 * (r + 1),
    }
}

#[verifier::opaque]
pub open spec fn tbl_enc_block(t: KeyTable, r: int, blk: Seq<u8>) -> Seq<u8> {
    match t {
        KeyTable::W16(s) => enc_block16(blk, s, r),
        KeyTable::W32(s) => enc_block32(blk, s, r),
        KeyTable::W64(s) => enc_block64(blk, s, r),
    }
}

#[verifier::opaque]
pub open spec fn tbl_dec_block(t: KeyTable, r: int, blk: Seq<u8>) -> Seq<u8> {
    match t {
        KeyTable::W16(s) => dec_block16(blk, s, r),
        KeyTable::W32(s) => dec_block32(blk, s, r),
        KeyTable::W64(s) => dec_block64(blk, s, r),
    }
}

pub open spec fn zero_bytes(n: int) -> Seq<u8> {
    Seq::new(n as nat, |i: int| 0u8)
}

/// Decrypting an encrypted block of the table's width returns the block.
#[verifier::rlimit(100)]
#[verifier::spinoff_prover]
pub proof fn lemma_tbl_block_round_trip(t: KeyTable, r: int, blk: Seq<u8>)
    requires
        blk.len() == tbl_bb(t),
    ensures
        tbl_dec_block(t, r, tbl_enc_block(t, r, blk)) =~= blk,
        tbl_enc_block(t, r, blk).len() == tbl_bb(t),
{
    match t {
        KeyTable::W16(s) => {
            assert(tbl_enc_block(t, r, blk) == enc_block16(blk, s, r) && tbl_dec_block(
                t,
                r,
                enc_block16(blk, s, r),
            ) == dec_block16(enc_block16(blk, s, r), s, r)) by {
                reveal(tbl_enc_block);
                reveal(tbl_dec_block);
            }
            lemma_block16_round_trip(blk, s, r);
            lemma_block16_len(blk, s, r);
        }
        KeyTable::W32(s) => {
            assert(tbl_enc_block(t, r, blk) == enc_block32(blk, s, r) && tbl_dec_block(
                t,
                r,
                enc_block32(blk, s, r),
            ) == dec_block32(enc_block32(blk, s, r), s, r)) by {
                reveal(tbl_enc_block);
                reveal(tbl_dec_block);
            }
            lemma_block32_round_trip(blk, s, r);
            lemma_block32_len(blk, s, r);
        }
        KeyTable::W64(s) => {
            assert(tbl_enc_block(t, r, blk) == enc_block64(blk, s, r) && tbl_dec_block(
                t,
                r,
                enc_block64(blk, s, r),
            ) == dec_block64(enc_block64(blk, s, r), s, r)) by {
                reveal(tbl_enc_block);
                reveal(tbl_dec_block);
            }
            lemma_block64_round_trip(blk, s, r);
            lemma_block64_len(blk, s, r);
        }
    }
}

// ---------------------------------------------------------------------------
// Chained encryption and decryption over whole frames
// ---------------------------------------------------------------------------

/// Chain-encrypt `m`, a whole number of blocks, with chaining register `prev`.
pub open spec fn cbc_enc(m: Seq<u8>, t: KeyTable, r: int, prev: Seq<u8>) -> Seq<u8>
    decreases m.len(),
{
    let bb: int = tbl_bb(t);
    if m.len() < bb {
        Seq::empty()
    } else {
        let c = tbl_enc_block(t, r, xor_bytes(m.take(bb), prev));
        c + cbc_enc(m.skip(bb), t, r, c)
    }
}

/// Chain-decrypt `ct`, a whole number of blocks, with chaining register `prev`.
pub open spec fn cbc_dec(ct: Seq<u8>, t: KeyTable, r: int, prev: Seq<u8>) -> Seq<u8>
    decreases ct.len(),
{
    let bb: int = tbl_bb(t);
    if ct.len() < bb {
        Seq::empty()
    } else {
        let blk = ct.take(bb);
        xor_bytes(prev, tbl_dec_block(t, r, blk)) + cbc_dec(ct.skip(bb), t, r, blk)
    }
}

pub proof fn lemma_cbc_enc_len(m: Seq<u8>, t: KeyTable, r: int, prev: Seq<u8>)
    requires
        m.len() as int % tbl_bb(t) == 0,
    ensures
        cbc_enc(m, t, r, prev).len() == m.len(),
    decreases m.len(),
{
    let bb: int = tbl_bb(t);
    if m.len() == 0 {
    } else {
        if m.len() < bb {
            vstd::arithmetic::div_mod::lemma_small_mod(m.len(), bb as nat);
        }
        assert(m.len() >= bb);
        let x = xor_bytes(m.take(bb), prev);
        lemma_tbl_block_round_trip(t, r, x);
        vstd::arithmetic::div_mod::lemma_mod_sub_multiples_vanish(m.len() as int, bb);
        assert(m.skip(bb).len() as int % bb == 0);
        lemma_cbc_enc_len(m.skip(bb), t, r, tbl_enc_block(t, r, x));
    }
}

/// Chain-decrypting a chain-encryption with the same table and the same
/// starting register recovers the frame.
#[verifier::rlimit(100)]
#[verifier::spinoff_prover]
pub proof fn lemma_cbc_round_trip(m: Seq<u8>, t: KeyTable, r: int, prev: Seq<u8>)
    requires
        m.len() as int % tbl_bb(t) == 0,
        prev.len() == tbl_bb(t),
    ensures
        cbc_dec(cbc_enc(m, t, r, prev), t, r, prev) =~= m,
    decreases m.len(),
{
    let bb: int = tbl_bb(t);
    if m.len() == 0 {
    } else {
        if m.len() < bb {
            vstd::arithmetic::div_mod::lemma_small_mod(m.len(), bb as nat);
        }
        assert(m.len() >= bb);
        let x = xor_bytes(m.take(bb), prev);
        let c = tbl_enc_block(t, r, x);
        lemma_tbl_block_round_trip(t, r, x);
        let rest = cbc_enc(m.skip(bb), t, r, c);
        let ct = cbc_enc(m, t, r, prev);
        assert(ct == c + rest);
        assert(ct.take(bb) =~= c);
        assert(ct.skip(bb) =~= rest);
        vstd::arithmetic::div_mod::lemma_mod_sub_multiples_vanish(m.len() as int, bb);
        assert(m.skip(bb).len() as int % bb == 0);
        lemma_cbc_round_trip(m.skip(bb), t, r, c);
        lemma_xor_bytes_cancel(m.take(bb), prev);
        assert(cbc_dec(ct, t, r, prev) =~= m.take(bb) + m.skip(bb));
        assert(m.take(bb) + m.skip(bb) =~= m);
    }
}

// ---------------------------------------------------------------------------
// Framing and padding
// ---------------------------------------------------------------------------

/// The padding length for a plaintext of `p_len` bytes behind a
/// `bb`-byte IV: always in `[1, bb]`.
pub open spec fn pad_count(p_len: int, bb: int) -> int {
    bb - (p_len % bb)
}

pub open spec fn pad_suffix(p_len: int, bb: int) -> Seq<u8> {
    Seq::new(pad_count(p_len, bb) as nat, |i: int| pad_count(p_len, bb) as u8)
}

/// The framed message: IV, plaintext, padding.
pub open spec fn framed(iv: Seq<u8>, p: Seq<u8>, bb: int) -> Seq<u8> {
    iv + p + pad_suffix(p.len() as int, bb)
}

/// Strip a well-formed PKCS#7 suffix; return the input unchanged when the
/// trailing run is not a valid padding.
pub open spec fn strip_pad(m: Seq<u8>, bb: int) -> Seq<u8> {
    if m.len() > 0 {
        let n: int = m.last() as int;
        if 1 <= n && n <= bb && n <= m.len() && (forall|i: int|
            m.len() - n <= i < m.len() ==> m[i] == m.last()) {
            m.take(m.len() - n)
        } else {
            m
        }
    } else {
        m
    }
}

/// What the full encryption of plaintext `p` under key `k` and fresh
/// vector `iv` produces.
pub open spec fn spec_cbc_encrypt(
    w: RC5WordSize,
    r: int,
    k: Seq<u8>,
    p: Seq<u8>,
    iv: Seq<u8>,
) -> Seq<u8> {
    let bb: int = w.spec_block_bytes();
    cbc_enc(framed(iv, p, bb), spec_expand(w, k, r), r, zero_bytes(bb))
}

/// What decryption recovers: the frame behind the leading block, with
/// the padding still in place.
pub open spec fn spec_cbc_decrypt(w: RC5WordSize, r: int, k: Seq<u8>, c: Seq<u8>) -> Seq<u8> {
    let bb: int = w.spec_block_bytes();
    cbc_dec(c, spec_expand(w, k, r), r, zero_bytes(bb)).skip(bb)
}


// ---------------------------------------------------------------------------
// The driver itself
// ---------------------------------------------------------------------------

impl RC5 {
    /// Expand a key into the round-key table of the configured width;
    /// refused when the key is not exactly `b` bytes long.
    pub fn expand_key(&self, k: &[u8]) -> (res: Result<RC5ExpandedKey, Rc5Error>)
        ensures
            res is Ok <==> k@.len() == self.spec_b(),
            res is Ok ==> table_of(res->Ok_0) == spec_expand(self.spec_w(), k@, self.spec_r()),
            res is Ok ==> tbl_wf(table_of(res->Ok_0), self.spec_r()),
            res is Err ==> res->Err_0 == Rc5Error::InvalidKeyLength,
    {
        let b: usize = self.key_len();
        if k.len() != b {
            return Err(Rc5Error::InvalidKeyLength);
        }
        let w: RC5WordSize = self.word_size();
        match w {
            RC5WordSize::Bits16 => Ok(RC5ExpandedKey::Bits16(self.expanded_key_16(k))),
            RC5WordSize::Bits32 => Ok(RC5ExpandedKey::Bits32(self.expanded_key_32(k))),
            RC5WordSize::Bits64 => Ok(RC5ExpandedKey::Bits64(self.expanded_key_64(k))),
        }
    }

    fn enc_one_block(&self, s: &RC5ExpandedKey, blk: &[u8]) -> (out: Vec<u8>)
        requires
            blk@.len() == tbl_bb(table_of(*s)),
            tbl_wf(table_of(*s), self.spec_r()),
        ensures
            out@ == tbl_enc_block(table_of(*s), self.spec_r(), blk@),
            out@.len() == tbl_bb(table_of(*s)),
    {
        proof {
            reveal(tbl_enc_block);
        }
        match s {
            RC5ExpandedKey::Bits16(v) => {
                proof {
                    assert(blk@.subrange(0, 4) =~= blk@);
                }
                self.encrypt_ecb_16(blk, v.as_slice())
            },
            RC5ExpandedKey::Bits32(v) => {
                proof {
                    assert(blk@.subrange(0, 8) =~= blk@);
                }
                self.encrypt_ecb_32(blk, v.as_slice())
            },
            RC5ExpandedKey::Bits64(v) => {
                proof {
                    assert(blk@.subrange(0, 16) =~= blk@);
                }
                self.encrypt_ecb_64(blk, v.as_slice())
            },
        }
    }

    fn dec_one_block(&self, s: &RC5ExpandedKey, blk: &[u8]) -> (out: Vec<u8>)
        requires
            blk@.len() == tbl_bb(table_of(*s)),
            tbl_wf(table_of(*s), self.spec_r()),
        ensures
            out@ == tbl_dec_block(table_of(*s), self.spec_r(), blk@),
            out@.len() == tbl_bb(table_of(*s)),
    {
        proof {
            reveal(tbl_dec_block);
        }
        match s {
            RC5ExpandedKey::Bits16(v) => {
                proof {
                    assert(blk@.subrange(0, 4) =~= blk@);
                }
                self.decrypt_ecb_16(blk, v.as_slice())
            },
            RC5ExpandedKey::Bits32(v) => {
                proof {
                    assert(blk@.subrange(0, 8) =~= blk@);
                }
                self.decrypt_ecb_32(blk, v.as_slice())
            },
            RC5ExpandedKey::Bits64(v) => {
                proof {
                    assert(blk@.subrange(0, 16) =~= blk@);
                }
                self.decrypt_ecb_64(blk, v.as_slice())
            },
        }
    }

    /// Encrypt under a caller-supplied initialization vector of exactly
    /// one block. The ciphertext is pinned down completely by the
    /// configuration, the key, the plaintext and the vector.
    pub fn encrypt_cbc_with_iv(&self, pt: &[u8], k: &[u8], iv: &[u8]) -> (res: Result<
        Digest,
        Rc5Error,
    >)
        ensures
            res is Ok <==> (k@.len() == self.spec_b() && iv@.len()
                == self.spec_w().spec_block_bytes()),
            res is Ok ==> res->Ok_0.0@ == spec_cbc_encrypt(
                self.spec_w(),
                self.spec_r(),
                k@,
                pt@,
                iv@,
            ),
            res is Ok ==> res->Ok_0.0@.len() == self.spec_w().spec_block_bytes() * (
            pt@.len() as int / self.spec_w().spec_block_bytes() + 2),
            res is Err ==> (k@.len() != self.spec_b() <==> res->Err_0
                == Rc5Error::InvalidKeyLength),
            res is Err ==> (res->Err_0 == Rc5Error::InvalidKeyLength || res->Err_0
                == Rc5Error::InvalidInputLength),
    {
        let b: usize = self.key_len();
        if k.len() != b {
            return Err(Rc5Error::InvalidKeyLength);
        }
        let bb: usize = self.word_size().block_bytes();
        if iv.len() != bb {
            return Err(Rc5Error::InvalidInputLength);
        }
        let s: RC5ExpandedKey = match self.expand_key(k) {
            Ok(s) => s,
            Err(_) => {
                proof {
                    assert(false);
                }
                return Err(Rc5Error::InvalidKeyLength);
            },
        };
        let r: usize = self.rounds();
        let ghost tbl: KeyTable = table_of(s);
        proof {
            assert(tbl_bb(tbl) == bb as int);
        }

        let mut m: Vec<u8> = Vec::new();
        append_slice(&mut m, iv);
        append_slice(&mut m, pt);
        let pad: usize = bb - (pt.len() % bb);
        let mut q: usize = 0;
        while q < pad
            invariant
                q <= pad,
                m@ =~= iv@ + pt@ + Seq::new(q as nat, |x: int| pad as u8),
            decreases pad - q,
        {
            m.push(pad as u8);
            q = q + 1;
            proof {
                assert(m@ =~= iv@ + pt@ + Seq::new(q as nat, |x: int| pad as u8));
            }
        }
        let ghost pl: int = pt@.len() as int;
        proof {
            assert(pad as int == pad_count(pl, bb as int));
            assert(m@ =~= framed(iv@, pt@, bb as int));
            vstd::arithmetic::div_mod::lemma_fundamental_div_mod(pl, bb as int);
            vstd::arithmetic::mul::lemma_mul_is_distributive_add(bb as int, pl / (bb as int), 2);
            assert(m@.len() as int == (bb as int) * (pl / (bb as int) + 2));
            vstd::arithmetic::div_mod::lemma_mod_multiples_basic(pl / (bb as int) + 2, bb as int);
            vstd::arithmetic::mul::lemma_mul_is_commutative(pl / (bb as int) + 2, bb as int);
            assert(m@.len() as int % (bb as int) == 0);
        }

        let mut prev: Vec<u8> = zero_vec(bb);
        let mut out: Vec<u8> = Vec::new();
        let mut off: usize = 0;
        let mlen: usize = m.len();
        let ghost total: int = m@.len() as int / (bb as int);
        let ghost mut nb: int = 0;
        proof {
            vstd::arithmetic::div_mod::lemma_fundamental_div_mod(m@.len() as int, bb as int);
            assert(m@.len() as int == total * (bb as int));
            assert(m@.skip(0) =~= m@);
            assert(Seq::<u8>::empty() + cbc_enc(m@, tbl, r as int, prev@) =~= cbc_enc(
                m@,
                tbl,
                r as int,
                prev@,
            ));
        }
        while off < mlen
            invariant
                mlen == m@.len(),
                bb == 4 || bb == 8 || bb == 16,
                off <= mlen,
                off as int == nb * (bb as int),
                mlen as int == total * (bb as int),
                0 <= nb,
                prev@.len() == bb,
                out@.len() == off,
                tbl == table_of(s),
                tbl_bb(tbl) == bb as int,
                tbl_wf(tbl, self.spec_r()),
                r == self.spec_r(),
                cbc_enc(m@, tbl, r as int, zero_bytes(bb as int)) == out@ + cbc_enc(
                    m@.skip(off as int),
                    tbl,
                    r as int,
                    prev@,
                ),
            decreases mlen - off,
        {
            proof {
                if nb >= total {
                    vstd::arithmetic::mul::lemma_mul_inequality(total, nb, bb as int);
                    assert(false);
                }
                vstd::arithmetic::mul::lemma_mul_inequality(nb + 1, total, bb as int);
                vstd::arithmetic::mul::lemma_mul_is_distributive_add(bb as int, nb, 1);
                vstd::arithmetic::mul::lemma_mul_is_commutative(nb + 1, bb as int);
                vstd::arithmetic::mul::lemma_mul_is_commutative(nb, bb as int);
                assert(off + bb <= mlen);
            }
            let x: Vec<u8> = xor_range(m.as_slice(), off, prev.as_slice());
            let cb: Vec<u8> = self.enc_one_block(&s, x.as_slice());
            append_slice(&mut out, cb.as_slice());
            proof {
                let suf: Seq<u8> = m@.skip(off as int);
                assert(suf.take(bb as int) =~= m@.subrange(off as int, off as int + bb as int));
                assert(suf.skip(bb as int) =~= m@.skip(off as int + bb as int));
                assert(x@ == xor_bytes(suf.take(bb as int), prev@));
                assert(cbc_enc(suf, tbl, r as int, prev@) == cb@ + cbc_enc(
                    suf.skip(bb as int),
                    tbl,
                    r as int,
                    cb@,
                ));
                nb = nb + 1;
            }
            prev = cb;
            off = off + bb;
        }
        proof {
            assert(m@.skip(off as int) =~= Seq::<u8>::empty());
            assert(cbc_enc(Seq::<u8>::empty(), tbl, r as int, prev@) =~= Seq::<u8>::empty());
            assert(out@ + Seq::<u8>::empty() =~= out@);
            assert(out@ == spec_cbc_encrypt(self.spec_w(), self.spec_r(), k@, pt@, iv@));
            vstd::arithmetic::mul::lemma_mul_is_commutative(pl / (bb as int) + 2, bb as int);
        }
        Ok(Digest(out))
    }

    /// Encrypt with a fresh, clock-seeded initialization vector. The
    /// result is one valid encryption of the plaintext: a ciphertext
    /// that some one-block vector explains completely.
    pub fn encrypt_cbc_pad(&self, pt: &[u8], k: &[u8]) -> (res: Result<Digest, Rc5Error>)
        ensures
            k@.len() != self.spec_b() <==> (res is Err && res->Err_0
                == Rc5Error::InvalidKeyLength),
            res is Err ==> (res->Err_0 == Rc5Error::InvalidKeyLength || res->Err_0
                == Rc5Error::RandomSourceFailure),
            res is Ok ==> exists|iv: Seq<u8>|
                iv.len() == self.spec_w().spec_block_bytes() && res->Ok_0.0@ == spec_cbc_encrypt(
                    self.spec_w(),
                    self.spec_r(),
                    k@,
                    pt@,
                    iv,
                ),
            res is Ok ==> res->Ok_0.0@.len() == self.spec_w().spec_block_bytes() * (
            pt@.len() as int / self.spec_w().spec_block_bytes() + 2),
    {
        let b: usize = self.key_len();
        if k.len() != b {
            return Err(Rc5Error::InvalidKeyLength);
        }
        let bb: usize = self.word_size().block_bytes();
        let iv: Vec<u8> = match crate::rng::fresh_iv(bb) {
            Ok(v) => v,
            Err(_) => {
                return Err(Rc5Error::RandomSourceFailure);
            },
        };
        let res = self.encrypt_cbc_with_iv(pt, k, iv.as_slice());
        match res {
            Ok(d) => {
                proof {
                    assert(iv@.len() == self.spec_w().spec_block_bytes() && d.0@
                        == spec_cbc_encrypt(self.spec_w(), self.spec_r(), k@, pt@, iv@));
                }
                Ok(d)
            },
            Err(e) => {
                proof {
                    assert(false);
                }
                Err(e)
            },
        }
    }

    /// Decrypt a ciphertext that is a whole number of blocks, at least
    /// two: the recovered bytes are the frame behind the leading block,
    /// padding still in place.
    pub fn decrypt_cbc_pad(&self, ct: &[u8], k: &[u8]) -> (res: Result<Digest, Rc5Error>)
        ensures
            res is Ok <==> (k@.len() == self.spec_b() && ct@.len() as int
                % self.spec_w().spec_block_bytes() == 0 && ct@.len() >= 2
                * self.spec_w().spec_block_bytes()),
            res is Ok ==> res->Ok_0.0@ == spec_cbc_decrypt(
                self.spec_w(),
                self.spec_r(),
                k@,
                ct@,
            ),
            res is Ok ==> res->Ok_0.0@.len() == ct@.len() - self.spec_w().spec_block_bytes(),
            res is Err ==> (k@.len() != self.spec_b() <==> res->Err_0
                == Rc5Error::InvalidKeyLength),
            res is Err ==> (res->Err_0 == Rc5Error::InvalidKeyLength || res->Err_0
                == Rc5Error::InvalidInputLength),
    {
        let b: usize = self.key_len();
        if k.len() != b {
            return Err(Rc5Error::InvalidKeyLength);
        }
        let bb: usize = self.word_size().block_bytes();
        let ctlen: usize = ct.len();
        if ctlen % bb != 0 || ctlen < 2 * bb {
            return Err(Rc5Error::InvalidInputLength);
        }
        let s: RC5ExpandedKey = match self.expand_key(k) {
            Ok(s) => s,
            Err(_) => {
                proof {
                    assert(false);
                }
                return Err(Rc5Error::InvalidKeyLength);
            },
        };
        let r: usize = self.rounds();
        let ghost tbl: KeyTable = table_of(s);
        proof {
            assert(tbl_bb(tbl) == bb as int);
        }
        let mut prev: Vec<u8> = zero_vec(bb);
        let mut out: Vec<u8> = Vec::new();
        let mut off: usize = 0;
        let ghost total: int = ct@.len() as int / (bb as int);
        let ghost mut nb: int = 0;
        proof {
            vstd::arithmetic::div_mod::lemma_fundamental_div_mod(ct@.len() as int, bb as int);
            assert(ct@.len() as int == total * (bb as int));
            assert(ct@.skip(0) =~= ct@);
            assert(Seq::<u8>::empty() + cbc_dec(ct@, tbl, r as int, prev@) =~= cbc_dec(
                ct@,
                tbl,
                r as int,
                prev@,
            ));
        }
        while off < ctlen
            invariant
                ctlen == ct@.len(),
                bb == 4 || bb == 8 || bb == 16,
                off <= ctlen,
                off as int == nb * (bb as int),
                ctlen as int == total * (bb as int),
                0 <= nb,
                prev@.len() == bb,
                out@.len() == off,
                tbl == table_of(s),
                tbl_bb(tbl) == bb as int,
                tbl_wf(tbl, self.spec_r()),
                r == self.spec_r(),
                cbc_dec(ct@, tbl, r as int, zero_bytes(bb as int)) == out@ + cbc_dec(
                    ct@.skip(off as int),
                    tbl,
                    r as int,
                    prev@,
                ),
            decreases ctlen - off,
        {
            proof {
                if nb >= total {
                    vstd::arithmetic::mul::lemma_mul_inequality(total, nb, bb as int);
                    assert(false);
                }
                vstd::arithmetic::mul::lemma_mul_inequality(nb + 1, total, bb as int);
                vstd::arithmetic::mul::lemma_mul_is_distributive_add(bb as int, nb, 1);
                vstd::arithmetic::mul::lemma_mul_is_commutative(nb + 1, bb as int);
                vstd::arithmetic::mul::lemma_mul_is_commutative(nb, bb as int);
                assert(off + bb <= ctlen);
            }
            let blk: Vec<u8> = copy_range(ct, off, bb);
            let d: Vec<u8> = self.dec_one_block(&s, blk.as_slice());
            let piece: Vec<u8> = xor_block(prev.as_slice(), d.as_slice());
            append_slice(&mut out, piece.as_slice());
            proof {
                let suf: Seq<u8> = ct@.skip(off as int);
                assert(suf.take(bb as int) =~= ct@.subrange(off as int, off as int + bb as int));
                assert(suf.skip(bb as int) =~= ct@.skip(off as int + bb as int));
                assert(blk@ == suf.take(bb as int));
                assert(piece@ == xor_bytes(prev@, tbl_dec_block(tbl, r as int, suf.take(
                    bb as int,
                ))));
                assert(cbc_dec(suf, tbl, r as int, prev@) == piece@ + cbc_dec(
                    suf.skip(bb as int),
                    tbl,
                    r as int,
                    blk@,
                ));
                nb = nb + 1;
            }
            prev = blk;
            off = off + bb;
        }
        proof {
            assert(ct@.skip(off as int) =~= Seq::<u8>::empty());
            assert(cbc_dec(Seq::<u8>::empty(), tbl, r as int, prev@) =~= Seq::<u8>::empty());
            assert(out@ + Seq::<u8>::empty() =~= out@);
        }
        let mut head: Vec<u8> = out;
        let tail: Vec<u8> = head.split_off(bb);
        proof {
            assert(tail@ =~= cbc_dec(ct@, tbl, r as int, zero_bytes(bb as int)).skip(bb as int));
        }
        Ok(Digest(tail))
    }
}



/// Strip a well-formed PKCS#7 suffix from recovered bytes; the input
/// comes back unchanged when its trailing run is not a valid padding
/// for block length `bb`.
pub fn strip_padding(data: &[u8], bb: usize) -> (r: Vec<u8>)
    ensures
        r@ == strip_pad(data@, bb as int),
{
    let len: usize = data.len();
    if len == 0 {
        let r: Vec<u8> = Vec::new();
        proof {
            assert(r@ =~= data@);
        }
        return r;
    }
    let n: usize = data[len - 1] as usize;
    if n < 1 || n > bb || n > len {
        let r = copy_range(data, 0, len);
        proof {
            assert(data@.subrange(0, len as int) =~= data@);
        }
        return r;
    }
    let mut i: usize = len - n;
    let mut ok: bool = true;
    while i < len
        invariant
            len == data@.len(),
            1 <= n <= len,
            len - n <= i <= len,
            ok <==> (forall|j: int| len - n <= j < i ==> #[trigger] data@[j] == data@[len - 1]),
        decreases len - i,
    {
        if data[i] != data[len - 1] {
            ok = false;
        }
        i = i + 1;
    }
    if ok {
        let r = copy_range(data, 0, len - n);
        proof {
            assert(data@.subrange(0, len as int - n as int) =~= data@.take(len as int - n));
        }
        r
    } else {
        let r = copy_range(data, 0, len);
        proof {
            assert(data@.subrange(0, len as int) =~= data@);
        }
        r
    }
}

// ---------------------------------------------------------------------------
// Laws
// ---------------------------------------------------------------------------

/// The key schedule is a pure function of the configuration and the
/// key: equal inputs expand to the identical table.
pub proof fn lemma_key_schedule_deterministic(
    w1: RC5WordSize,
    w2: RC5WordSize,
    r1: int,
    r2: int,
    k1: Seq<u8>,
    k2: Seq<u8>,
)
    requires
        w1 == w2,
        r1 == r2,
        k1 == k2,
    ensures
        spec_expand(w1, k1, r1) == spec_expand(w2, k2, r2),
{
}

/// The frame is a whole number of blocks, and its length is
/// `bb * (|p| / bb + 2)`.
proof fn lemma_framed_len(iv: Seq<u8>, p: Seq<u8>, bb: int)
    requires
        bb > 0,
        iv.len() == bb,
    ensures
        framed(iv, p, bb).len() as int == bb * (p.len() as int / bb + 2),
        framed(iv, p, bb).len() as int % bb == 0,
        1 <= pad_count(p.len() as int, bb) <= bb,
{
    let pl: int = p.len() as int;
    vstd::arithmetic::div_mod::lemma_fundamental_div_mod(pl, bb);
    vstd::arithmetic::div_mod::lemma_mod_bound(pl, bb);
    vstd::arithmetic::mul::lemma_mul_is_distributive_add(bb, pl / bb, 2);
    vstd::arithmetic::div_mod::lemma_mod_multiples_basic(pl / bb + 2, bb);
    vstd::arithmetic::mul::lemma_mul_is_commutative(pl / bb + 2, bb);
}

/// Round trip: decrypting an encryption recovers the plaintext followed
/// by its padding suffix, and stripping that suffix returns exactly the
/// plaintext — for every key, every plaintext, and every one-block
/// initialization vector.
pub proof fn lemma_encrypt_decrypt_round_trip(
    w: RC5WordSize,
    r: int,
    k: Seq<u8>,
    p: Seq<u8>,
    iv: Seq<u8>,
)
    requires
        iv.len() == w.spec_block_bytes(),
    ensures
        spec_cbc_decrypt(w, r, k, spec_cbc_encrypt(w, r, k, p, iv)) =~= p + pad_suffix(
            p.len() as int,
            w.spec_block_bytes(),
        ),
        strip_pad(spec_cbc_decrypt(w, r, k, spec_cbc_encrypt(w, r, k, p, iv)), w.spec_block_bytes())
            =~= p,
{
    let bb: int = w.spec_block_bytes();
    let t = spec_expand(w, k, r);
    let m = framed(iv, p, bb);
    lemma_framed_len(iv, p, bb);
    lemma_cbc_round_trip(m, t, r, zero_bytes(bb));
    assert(m.skip(bb) =~= p + pad_suffix(p.len() as int, bb));
    let md = p + pad_suffix(p.len() as int, bb);
    let n: int = pad_count(p.len() as int, bb);
    assert(md.last() == n as u8);
    assert(forall|i: int| md.len() - n <= i < md.len() ==> md[i] == md.last());
    assert(strip_pad(md, bb) =~= p);
}

/// Ciphertext length: `bb * (ceil((|p| + 1) / bb) + 1)` bytes, always a
/// multiple of `bb` and at least two blocks; a full extra block of
/// padding appears when `|p|` is already a multiple of `bb`.
pub proof fn lemma_ciphertext_length(w: RC5WordSize, r: int, k: Seq<u8>, p: Seq<u8>, iv: Seq<u8>)
    requires
        iv.len() == w.spec_block_bytes(),
    ensures
        spec_cbc_encrypt(w, r, k, p, iv).len() as int == w.spec_block_bytes() * ((p.len() as int
            + w.spec_block_bytes()) / w.spec_block_bytes() + 1),
        spec_cbc_encrypt(w, r, k, p, iv).len() as int == w.spec_block_bytes() * (p.len() as int
            / w.spec_block_bytes() + 2),
        spec_cbc_encrypt(w, r, k, p, iv).len() as int % w.spec_block_bytes() == 0,
        spec_cbc_encrypt(w, r, k, p, iv).len() as int >= 2 * w.spec_block_bytes(),
        p.len() as int % w.spec_block_bytes() == 0 ==> pad_count(
            p.len() as int,
            w.spec_block_bytes(),
        ) == w.spec_block_bytes(),
{
    let bb: int = w.spec_block_bytes();
    let pl: int = p.len() as int;
    lemma_framed_len(iv, p, bb);
    lemma_cbc_enc_len(framed(iv, p, bb), spec_expand(w, k, r), r, zero_bytes(bb));
    vstd::arithmetic::div_mod::lemma_div_plus_one(pl, bb);
    vstd::arithmetic::mul::lemma_mul_is_distributive_add(bb, pl / bb, 2);
    vstd::arithmetic::mul::lemma_mul_is_distributive_add(bb, (pl + bb) / bb, 1);
    vstd::arithmetic::div_mod::lemma_div_pos_is_pos(pl, bb);
    vstd::arithmetic::mul::lemma_mul_inequality(0, pl / bb, bb);
    vstd::arithmetic::mul::lemma_mul_is_commutative(pl / bb, bb);
}

proof fn lemma_len_window(pl: int, bb: int)
    requires
        bb > 0,
        pl >= 0,
    ensures
        pl + bb < bb * (pl / bb + 2),
        bb * (pl / bb + 2) <= pl + 2 * bb,
{
    vstd::arithmetic::div_mod::lemma_fundamental_div_mod(pl, bb);
    vstd::arithmetic::div_mod::lemma_mod_bound(pl, bb);
    vstd::arithmetic::mul::lemma_mul_is_distributive_add(bb, pl / bb, 2);
}

/// Parameter independence, length part: with the plaintext fixed,
/// different word widths always give ciphertexts of different lengths.
pub proof fn lemma_width_determines_length(
    w1: RC5WordSize,
    w2: RC5WordSize,
    r1: int,
    r2: int,
    k1: Seq<u8>,
    k2: Seq<u8>,
    p: Seq<u8>,
    iv1: Seq<u8>,
    iv2: Seq<u8>,
)
    requires
        w1 != w2,
        iv1.len() == w1.spec_block_bytes(),
        iv2.len() == w2.spec_block_bytes(),
    ensures
        spec_cbc_encrypt(w1, r1, k1, p, iv1).len() != spec_cbc_encrypt(w2, r2, k2, p, iv2).len(),
{
    let pl: int = p.len() as int;
    lemma_ciphertext_length(w1, r1, k1, p, iv1);
    lemma_ciphertext_length(w2, r2, k2, p, iv2);
    lemma_len_window(pl, 4);
    lemma_len_window(pl, 8);
    lemma_len_window(pl, 16);
}

} // verus!
