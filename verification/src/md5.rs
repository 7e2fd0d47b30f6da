use crate::words::{
    append_slice, bytes32, bytes64, le32, lemma_le_bytes64, load_u32, push_le64, rotl32, rotl_u32,
};
use vstd::prelude::*;
use vstd::string::StringSliceAdditionalSpecFns;

verus! {

// The message digest of RFC 1321 over byte strings, used here only to
// derive raw cipher keys from a passphrase.

/// A 16-byte digest.
#[derive(Debug, Clone, Copy, Eq, Hash, PartialEq)]
pub struct Digest(pub [u8; 16]);

impl Digest {
    /// Lower-case hexadecimal rendering, two digits per byte.
    pub fn to_string(&self) -> (r: String)
        ensures
            r@ == crate::hex::hex_of(self.0@),
    {
        crate::hex::hex_string(self.0.as_slice())
    }
}

pub open spec fn f_spec(x: u32, y: u32, z: u32) -> u32 {
    x & y | !x & z
}

pub open spec fn g_spec(x: u32, y: u32, z: u32) -> u32 {
    x & z | y & !z
}

pub open spec fn h_spec(x: u32, y: u32, z: u32) -> u32 {
    x ^ y ^ z
}

pub open spec fn i_spec(x: u32, y: u32, z: u32) -> u32 {
    y ^ (x | !z)
}

fn f(x: u32, y: u32, z: u32) -> (r: u32)
    ensures
        r == f_spec(x, y, z),
{
    x & y | !x & z
}

fn g(x: u32, y: u32, z: u32) -> (r: u32)
    ensures
        r == g_spec(x, y, z),
{
    x & z | y & !z
}

fn h(x: u32, y: u32, z: u32) -> (r: u32)
    ensures
        r == h_spec(x, y, z),
{
    x ^ y ^ z
}

fn i(x: u32, y: u32, z: u32) -> (r: u32)
    ensures
        r == i_spec(x, y, z),
{
    y ^ (x | !z)
}

/// The table of 32-bit constants `floor(2^32 * |sin(i + 1)|)`.
pub open spec fn t_table() -> Seq<u32> {
    seq![
        0xd76aa478u32, 0xe8c7b756u32, 0x242070dbu32, 0xc1bdceeeu32,
        0xf57c0fafu32, 0x4787c62au32, 0xa8304613u32, 0xfd469501u32,
        0x698098d8u32, 0x8b44f7afu32, 0xffff5bb1u32, 0x895cd7beu32,
        0x6b901122u32, 0xfd987193u32, 0xa679438eu32, 0x49b40821u32,
        0xf61e2562u32, 0xc040b340u32, 0x265e5a51u32, 0xe9b6c7aau32,
        0xd62f105du32, 0x02441453u32, 0xd8a1e681u32, 0xe7d3fbc8u32,
        0x21e1cde6u32, 0xc33707d6u32, 0xf4d50d87u32, 0x455a14edu32,
        0xa9e3e905u32, 0xfcefa3f8u32, 0x676f02d9u32, 0x8d2a4c8au32,
        0xfffa3942u32, 0x8771f681u32, 0x6d9d6122u32, 0xfde5380cu32,
        0xa4beea44u32, 0x4bdecfa9u32, 0xf6bb4b60u32, 0xbebfbc70u32,
        0x289b7ec6u32, 0xeaa127fau32, 0xd4ef3085u32, 0x04881d05u32,
        0xd9d4d039u32, 0xe6db99e5u32, 0x1fa27cf8u32, 0xc4ac5665u32,
        0xf4292244u32, 0x432aff97u32, 0xab9423a7u32, 0xfc93a039u32,
        0x655b59c3u32, 0x8f0ccc92u32, 0xffeff47du32, 0x85845dd1u32,
        0x6fa87e4fu32, 0xfe2ce6e0u32, 0xa3014314u32, 0x4e0811a1u32,
        0xf7537e82u32, 0xbd3af235u32, 0x2ad7d2bbu32, 0xeb86d391u32,
    ]
}

fn sine_table() -> (v: Vec<u32>)
    ensures
        v@ == t_table(),
{
    let v: Vec<u32> = vec![
        0xd76aa478u32, 0xe8c7b756u32, 0x242070dbu32, 0xc1bdceeeu32,
        0xf57c0fafu32, 0x4787c62au32, 0xa8304613u32, 0xfd469501u32,
        0x698098d8u32, 0x8b44f7afu32, 0xffff5bb1u32, 0x895cd7beu32,
        0x6b901122u32, 0xfd987193u32, 0xa679438eu32, 0x49b40821u32,
        0xf61e2562u32, 0xc040b340u32, 0x265e5a51u32, 0xe9b6c7aau32,
        0xd62f105du32, 0x02441453u32, 0xd8a1e681u32, 0xe7d3fbc8u32,
        0x21e1cde6u32, 0xc33707d6u32, 0xf4d50d87u32, 0x455a14edu32,
        0xa9e3e905u32, 0xfcefa3f8u32, 0x676f02d9u32, 0x8d2a4c8au32,
        0xfffa3942u32, 0x8771f681u32, 0x6d9d6122u32, 0xfde5380cu32,
        0xa4beea44u32, 0x4bdecfa9u32, 0xf6bb4b60u32, 0xbebfbc70u32,
        0x289b7ec6u32, 0xeaa127fau32, 0xd4ef3085u32, 0x04881d05u32,
        0xd9d4d039u32, 0xe6db99e5u32, 0x1fa27cf8u32, 0xc4ac5665u32,
        0xf4292244u32, 0x432aff97u32, 0xab9423a7u32, 0xfc93a039u32,
        0x655b59c3u32, 0x8f0ccc92u32, 0xffeff47du32, 0x85845dd1u32,
        0x6fa87e4fu32, 0xfe2ce6e0u32, 0xa3014314u32, 0x4e0811a1u32,
        0xf7537e82u32, 0xbd3af235u32, 0x2ad7d2bbu32, 0xeb86d391u32,
    ];
    proof {
        assert(v@ =~= t_table());
    }
    v
}

/// The message-word index used at step `16 * round + j`.
pub open spec fn k_index(round: int, j: int) -> int {
    if round == 0 {
        j
    } else if round == 1 {
        (5 * j + 1) % 16
    } else if round == 2 {
        (3 * j + 5) % 16
    } else {
        (7 * j) % 16
    }
}

/// The rotation amount used at step `16 * round + j`.
pub open spec fn s_shift(round: int, j: int) -> u32 {
    let col: int = j % 4;
    if round == 0 {
        if col == 0 {
            7
        } else if col == 1 {
            12
        } else if col == 2 {
            17
        } else {
            22
        }
    } else if round == 1 {
        if col == 0 {
            5
        } else if col == 1 {
            9
        } else if col == 2 {
            14
        } else {
            20
        }
    } else if round == 2 {
        if col == 0 {
            4
        } else if col == 1 {
            11
        } else if col == 2 {
            16
        } else {
            23
        }
    } else {
        if col == 0 {
            6
        } else if col == 1 {
            10
        } else if col == 2 {
            15
        } else {
            21
        }
    }
}

pub open spec fn func_val(round: int, x: u32, y: u32, z: u32) -> u32 {
    if round == 0 {
        f_spec(x, y, z)
    } else if round == 1 {
        g_spec(x, y, z)
    } else if round == 2 {
        h_spec(x, y, z)
    } else {
        i_spec(x, y, z)
    }
}

/// One of the 64 steps of the compression function.
pub open spec fn md5_step(st: (u32, u32, u32, u32), x: Seq<u32>, n: int) -> (u32, u32, u32, u32) {
    let round: int = n / 16;
    let j: int = n % 16;
    let sum: u32 = st.0.wrapping_add(func_val(round, st.1, st.2, st.3)).wrapping_add(
        x[k_index(round, j)],
    ).wrapping_add(t_table()[n]);
    let na: u32 = st.1.wrapping_add(rotl32(sum, s_shift(round, j)));
    (st.3, na, st.1, st.2)
}

/// Steps `n .. 63` applied in increasing order.
pub open spec fn md5_steps(st: (u32, u32, u32, u32), x: Seq<u32>, n: int) -> (u32, u32, u32, u32)
    decreases 64 - n,
{
    if n >= 64 {
        st
    } else {
        md5_steps(md5_step(st, x, n), x, n + 1)
    }
}

/// The sixteen little-endian words of the 64-byte chunk at `base`.
pub open spec fn chunk_words(data: Seq<u8>, base: int) -> Seq<u32> {
    Seq::new(16, |j: int| le32(data.subrange(base + 4 * j, base + 4 * j + 4)))
}

/// The compression of one chunk into the running state.
pub open spec fn md5_chunk(st: (u32, u32, u32, u32), x: Seq<u32>) -> (u32, u32, u32, u32) {
    let e = md5_steps(st, x, 0);
    (
        st.0.wrapping_add(e.0),
        st.1.wrapping_add(e.1),
        st.2.wrapping_add(e.2),
        st.3.wrapping_add(e.3),
    )
}

pub open spec fn md5_chunks(st: (u32, u32, u32, u32), data: Seq<u8>) -> (u32, u32, u32, u32)
    decreases data.len(),
{
    if data.len() < 64 {
        st
    } else {
        md5_chunks(md5_chunk(st, chunk_words(data, 0)), data.skip(64))
    }
}

/// The padded message: a 1-bit, zeros to 56 mod 64, then the bit length
/// modulo 2^64, little-endian.
pub open spec fn md5_pad(msg: Seq<u8>) -> Seq<u8> {
    let z: int = (56 - ((msg.len() + 1) as int % 64) + 64) % 64;
    msg + seq![0x80u8] + Seq::new(z as nat, |i: int| 0u8) + bytes64(
        ((msg.len() * 8) % 0x1_0000_0000_0000_0000) as u64,
    )
}

/// The digest of a byte string, as RFC 1321 defines it.
pub open spec fn spec_md5(msg: Seq<u8>) -> Seq<u8> {
    let st = md5_chunks(
        (0x67452301u32, 0xefcdab89u32, 0x98badcfeu32, 0x10325476u32),
        md5_pad(msg),
    );
    bytes32(st.0) + bytes32(st.1) + bytes32(st.2) + bytes32(st.3)
}

pub proof fn lemma_spec_md5_len(msg: Seq<u8>)
    ensures
        spec_md5(msg).len() == 16,
{
}

/// The padded message is a whole number of 64-byte chunks.
proof fn lemma_pad_len(l: int)
    requires
        l >= 0,
    ensures
        (l + 1 + ((56 - ((l + 1) % 64) + 64) % 64) + 8) % 64 == 0,
{
    let lm: int = (l + 1) % 64;
    vstd::arithmetic::div_mod::lemma_fundamental_div_mod(l + 1, 64);
    vstd::arithmetic::div_mod::lemma_mod_bound(l + 1, 64);
    let q: int = (l + 1) / 64;
    let z: int = (56 - lm + 64) % 64;
    if lm <= 56 {
        vstd::arithmetic::div_mod::lemma_mod_sub_multiples_vanish(56 - lm + 64, 64);
        vstd::arithmetic::div_mod::lemma_small_mod((56 - lm) as nat, 64nat);
        assert(z == 56 - lm);
        assert(l + 1 + z + 8 == 64 * q + 64);
        vstd::arithmetic::div_mod::lemma_mod_multiples_vanish(q + 1, 0, 64);
    } else {
        vstd::arithmetic::div_mod::lemma_small_mod((120 - lm) as nat, 64nat);
        assert(z == 120 - lm);
        assert(l + 1 + z + 8 == 64 * q + 128);
        vstd::arithmetic::div_mod::lemma_mod_multiples_vanish(q + 2, 0, 64);
    }
}

/// The digest of a byte string.
pub fn md5_bytes(input: &[u8]) -> (res: Digest)
    ensures
        res.0@ == spec_md5(input@),
{
    let len: usize = input.len();

    // Frame the message.
    let mut data: Vec<u8> = Vec::new();
    append_slice(&mut data, input);
    data.push(0x80u8);
    let rem: usize = len % 64;
    let zeros: usize = (120 - ((rem + 1) % 64)) % 64;
    proof {
        crate::cipher::lemma_mod_step(len as int, 64);
    }
    let mut q: usize = 0;
    while q < zeros
        invariant
            q <= zeros,
            data@ =~= input@ + seq![0x80u8] + Seq::new(q as nat, |i: int| 0u8),
        decreases zeros - q,
    {
        data.push(0u8);
        q = q + 1;
        proof {
            assert(data@ =~= input@ + seq![0x80u8] + Seq::new(q as nat, |i: int| 0u8));
        }
    }
    let bits: u64 = (len as u64).wrapping_mul(8);
    push_le64(&mut data, bits);
    proof {
        assert(data@ =~= md5_pad(input@));
        lemma_pad_len(len as int);
        assert(data@.len() as int % 64 == 0);
    }

    // Compress the chunks.
    let tvec: Vec<u32> = sine_table();
    let mut a: u32 = 0x67452301;
    let mut b: u32 = 0xefcdab89;
    let mut c: u32 = 0x98badcfe;
    let mut d: u32 = 0x10325476;
    let ghost padded: Seq<u8> = data@;
    let ghost init: (u32, u32, u32, u32) = (a, b, c, d);
    let dlen: usize = data.len();
    let mut off: usize = 0;
    proof {
        assert(padded.skip(0) =~= padded);
    }
    while off < dlen
        invariant
            dlen == padded.len(),
            data@ == padded,
            padded.len() as int % 64 == 0,
            off <= dlen,
            off as int % 64 == 0,
            tvec@ == t_table(),
            md5_chunks(init, padded) == md5_chunks((a, b, c, d), padded.skip(off as int)),
        decreases dlen - off,
    {
        proof {
            if dlen - off < 64 {
                vstd::arithmetic::div_mod::lemma_mod_sub_multiples_vanish(
                    dlen as int - off as int,
                    64,
                );
                vstd::arithmetic::div_mod::lemma_small_mod((dlen - off) as nat, 64nat);
                assert(false);
            }
        }
        let mut x: Vec<u32> = Vec::new();
        let mut j: usize = 0;
        while j < 16
            invariant
                j <= 16,
                off + 64 <= dlen,
                dlen == data@.len(),
                x@.len() == j,
                forall|p: int|
                    0 <= p < j ==> x@[p] == le32(
                        data@.subrange(off + 4 * p, off + 4 * p + 4),
                    ),
            decreases 16 - j,
        {
            x.push(load_u32(data.as_slice(), off + 4 * j));
            j = j + 1;
        }
        proof {
            let suf: Seq<u8> = padded.skip(off as int);
            assert forall|p: int| 0 <= p < 16 implies x@[p] == chunk_words(suf, 0)[p] by {
                assert(suf.subrange(4 * p, 4 * p + 4) =~= padded.subrange(
                    off + 4 * p,
                    off + 4 * p + 4,
                ));
            }
            assert(x@ =~= chunk_words(suf, 0));
        }
        let sa: u32 = a;
        let sb: u32 = b;
        let sc: u32 = c;
        let sd: u32 = d;
        let mut n: usize = 0;
        while n < 64
            invariant
                n <= 64,
                tvec@ == t_table(),
                x@.len() == 16,
                md5_steps((sa, sb, sc, sd), x@, 0) == md5_steps((a, b, c, d), x@, n as int),
            decreases 64 - n,
        {
            let round: usize = n / 16;
            let j2: usize = n % 16;
            let fv: u32 = if round == 0 {
                f(b, c, d)
            } else if round == 1 {
                g(b, c, d)
            } else if round == 2 {
                h(b, c, d)
            } else {
                i(b, c, d)
            };
            let kx: usize = if round == 0 {
                j2
            } else if round == 1 {
                (5 * j2 + 1) % 16
            } else if round == 2 {
                (3 * j2 + 5) % 16
            } else {
                (7 * j2) % 16
            };
            let col: usize = j2 % 4;
            let sv: u32 = if round == 0 {
                if col == 0 {
                    7
                } else if col == 1 {
                    12
                } else if col == 2 {
                    17
                } else {
                    22
                }
            } else if round == 1 {
                if col == 0 {
                    5
                } else if col == 1 {
                    9
                } else if col == 2 {
                    14
                } else {
                    20
                }
            } else if round == 2 {
                if col == 0 {
                    4
                } else if col == 1 {
                    11
                } else if col == 2 {
                    16
                } else {
                    23
                }
            } else {
                if col == 0 {
                    6
                } else if col == 1 {
                    10
                } else if col == 2 {
                    15
                } else {
                    21
                }
            };
            let tv: u32 = tvec[n];
            let sum: u32 = a.wrapping_add(fv).wrapping_add(x[kx]).wrapping_add(tv);
            let na: u32 = b.wrapping_add(rotl_u32(sum, sv));
            proof {
                assert(kx as int == k_index(round as int, j2 as int));
                assert(sv == s_shift(round as int, j2 as int));
                assert(fv == func_val(round as int, b, c, d));
                assert((d, na, b, c) == md5_step((a, b, c, d), x@, n as int));
            }
            a = d;
            d = c;
            c = b;
            b = na;
            n = n + 1;
        }
        a = sa.wrapping_add(a);
        b = sb.wrapping_add(b);
        c = sc.wrapping_add(c);
        d = sd.wrapping_add(d);
        proof {
            let suf: Seq<u8> = padded.skip(off as int);
            assert((a, b, c, d) == md5_chunk((sa, sb, sc, sd), chunk_words(suf, 0)));
            assert(suf.skip(64) =~= padded.skip(off as int + 64));
        }
        off = off + 64;
    }

    // Serialize the state.
    let a_lo: u32 = a % 65536;
    let a_hi: u32 = a / 65536;
    let b_lo: u32 = b % 65536;
    let b_hi: u32 = b / 65536;
    let c_lo: u32 = c % 65536;
    let c_hi: u32 = c / 65536;
    let d_lo: u32 = d % 65536;
    let d_hi: u32 = d / 65536;
    let arr: [u8; 16] = [
        (a_lo % 256) as u8,
        (a_lo / 256) as u8,
        (a_hi % 256) as u8,
        (a_hi / 256) as u8,
        (b_lo % 256) as u8,
        (b_lo / 256) as u8,
        (b_hi % 256) as u8,
        (b_hi / 256) as u8,
        (c_lo % 256) as u8,
        (c_lo / 256) as u8,
        (c_hi % 256) as u8,
        (c_hi / 256) as u8,
        (d_lo % 256) as u8,
        (d_lo / 256) as u8,
        (d_hi % 256) as u8,
        (d_hi / 256) as u8,
    ];
    proof {
        assert(padded.skip(dlen as int) =~= Seq::<u8>::empty());
        assert(arr@ =~= bytes32(a) + bytes32(b) + bytes32(c) + bytes32(d));
    }
    Digest(arr)
}

/// The digest of a string: its UTF-8 bytes are hashed.
pub fn md5(input: &str) -> (res: Digest)
    ensures
        res.0@ == spec_md5(input.spec_bytes()),
{
    md5_bytes(input.as_bytes())
}

} // verus!
