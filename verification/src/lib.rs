pub mod cbc;
pub mod cipher;
pub mod hex;
pub mod lcg;
pub mod md5;
pub mod rng;
pub mod words;

pub use cipher::{Digest, RC5ExpandedKey, RC5WordSize, Rc5Error, RC5};
pub use lcg::generate;
