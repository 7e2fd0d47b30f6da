use crate::cipher::Rc5Error;
use vstd::prelude::*;

verus! {

// Entropy for initialization vectors: a seed derived from the system
// clock drives an outside pseudo-random source. Nothing is promised
// about the bytes drawn, only how many come back; every function that
// consumes them is verified for all values they may take.

#[verifier::external_type_specification]
#[verifier::external_body]
pub struct ExXorshift(random::Xorshift128Plus);

#[verifier::external_type_specification]
#[verifier::external_body]
pub struct ExSystemTime(std::time::SystemTime);

/// Relies on std's SystemTime::now to read the wall clock.
#[verifier::external_body]
fn clock_now() -> std::time::SystemTime {
    std::time::SystemTime::now()
}

/// Relies on std's SystemTime::duration_since, measured from the Unix
/// epoch; `None` when the clock reads before it.
#[verifier::external_body]
fn since_epoch(t: &std::time::SystemTime) -> Option<core::time::Duration> {
    t.duration_since(std::time::SystemTime::UNIX_EPOCH).ok()
}

/// Relies on std's Duration::as_nanos.
#[verifier::external_body]
fn duration_nanos(d: &core::time::Duration) -> u128 {
    d.as_nanos()
}

/// Relies on random::default, which builds a Xorshift128+ source from
/// the seed; the crate's constructor accepts every seed value.
#[verifier::external_body]
fn rng_new(seed: u64) -> random::Xorshift128Plus {
    random::default(seed)
}

/// Relies on random::Source::read_u64 of the Xorshift128+ source; no
/// promise is made about the value drawn.
#[verifier::external_body]
fn rng_next(src: &mut random::Xorshift128Plus) -> u64 {
    random::Source::read_u64(src)
}

/// A fresh initialization vector of `n` bytes, or the error when the
/// clock could not be read.
pub fn fresh_iv(n: usize) -> (res: Result<Vec<u8>, Rc5Error>)
    requires
        n <= usize::MAX - 8,
    ensures
        res is Ok ==> res->Ok_0@.len() == n,
        res is Err ==> res->Err_0 == Rc5Error::RandomSourceFailure,
{
    let now = clock_now();
    let d = match since_epoch(&now) {
        Some(d) => d,
        None => {
            return Err(Rc5Error::RandomSourceFailure);
        },
    };
    let nanos: u128 = duration_nanos(&d);
    let seed: u64 = (nanos % 0x1_0000_0000_0000_0000) as u64;
    let mut src = rng_new(seed);
    let mut iv: Vec<u8> = Vec::new();
    let reads: usize = (n + 7) / 8;
    for j in 0..reads
        invariant
            iv@.len() == 8 * j,
    {
        let v: u64 = rng_next(&mut src);
        crate::words::push_le64(&mut iv, v);
        proof {
            crate::words::lemma_le_bytes64(v);
        }
    }
    proof {
        assert(8 * reads >= n);
    }
    iv.truncate(n);
    Ok(iv)
}

} // verus!
