use rc5::{Digest, RC5WordSize, Rc5Error, RC5};

fn strip_pkcs7(data: &[u8], bb: usize) -> Vec<u8> {
    let n_last: usize = data.last().map_or(0, |&l| {
        if data[(data.len() - (l as usize))..].iter().all(|&e| e == l) && l <= (bb as u8) {
            return l;
        }
        0
    }) as usize;
    data[..(data.len() - n_last)].to_vec()
}

#[test]
fn test_rc5_16_ecb() {
    let r: u8 = 16;
    let b: u8 = 8;
    let data = b"abcd";
    let key_phrase = b"HelloWorldKey";

    let rc5 = RC5::new(RC5WordSize::Bits16, r, b).unwrap();
    let key = rc5.generate_key(key_phrase);
    let s = rc5.expanded_key_16(&key);

    let cypher = rc5.encrypt_ecb_16(data, &s);
    let decrypted = rc5.decrypt_ecb_16(&cypher, &s);

    assert_eq!(
        Digest(data.to_vec()).to_string(),
        Digest(decrypted).to_string()
    );
}

#[test]
fn test_rc5_32_ecb() {
    let r: u8 = 16;
    let b: u8 = 8;
    let data = b"abcdefgh";
    let key_phrase = b"HelloWorldKey";

    let rc5 = RC5::new(RC5WordSize::Bits32, r, b).unwrap();
    let key = rc5.generate_key(key_phrase);
    let s = rc5.expanded_key_32(&key);

    let cypher = rc5.encrypt_ecb_32(data, &s);
    let decrypted = rc5.decrypt_ecb_32(&cypher, &s);

    assert_eq!(
        Digest(data.to_vec()).to_string(),
        Digest(decrypted).to_string()
    );
}

#[test]
fn test_rc5_64_ecb() {
    let r: u8 = 16;
    let b: u8 = 8;
    let data = b"abcdefghijklmnop";
    let key_phrase = b"HelloWorldKey";

    let rc5 = RC5::new(RC5WordSize::Bits64, r, b).unwrap();
    let key = rc5.generate_key(key_phrase);
    let s = rc5.expanded_key_64(&key);

    let cypher = rc5.encrypt_ecb_64(data, &s);
    let decrypted = rc5.decrypt_ecb_64(&cypher, &s);

    assert_eq!(
        Digest(data.to_vec()).to_string(),
        Digest(decrypted).to_string()
    );
}

#[test]
fn test_rc5_cbc_pad() {
    let r: u8 = 16;
    let b: u8 = 8;
    let data = b"l";
    let key_phrase = b"HelloWorldKey";

    vec![
        RC5WordSize::Bits16,
        RC5WordSize::Bits32,
        RC5WordSize::Bits64,
    ]
    .iter()
    .map(|w| {
        let bb: usize = 2 * (w.bits() / 8);
        let rc5 = RC5::new(w.clone(), r, b).unwrap();
        let key = rc5.generate_key(key_phrase);

        let cypher = rc5.encrypt_cbc_pad(data, &key).unwrap();
        let decrypted = rc5.decrypt_cbc_pad(cypher.0.as_slice(), &key).unwrap();

        strip_pkcs7(&decrypted.0, bb)
    })
    .all(|d| {
        assert_eq!(Digest(data.to_vec()).to_string(), Digest(d).to_string());

        true
    });
}

#[test]
fn cbc_scenario_w16() {
    let rc5 = RC5::new(RC5WordSize::Bits16, 16, 8).unwrap();
    let key = rc5.generate_key(b"HelloWorldKey");
    let cypher = rc5.encrypt_cbc_pad(b"abcd", &key).unwrap();
    // One block of IV, one of plaintext, one full block of padding.
    assert_eq!(12, cypher.0.len());
    let decrypted = rc5.decrypt_cbc_pad(&cypher.0, &key).unwrap();
    assert_eq!(8, decrypted.0.len());
    // A plaintext already a multiple of the block length gets a full
    // extra pad block: four bytes of value 4.
    assert_eq!(&[4u8, 4, 4, 4], &decrypted.0[4..]);
    assert_eq!(b"abcd".to_vec(), strip_pkcs7(&decrypted.0, 4));
}

#[test]
fn cbc_scenario_w32() {
    let rc5 = RC5::new(RC5WordSize::Bits32, 16, 8).unwrap();
    let key = rc5.generate_key(b"HelloWorldKey");
    let cypher = rc5.encrypt_cbc_pad(b"abcdefgh", &key).unwrap();
    assert_eq!(24, cypher.0.len());
    let decrypted = rc5.decrypt_cbc_pad(&cypher.0, &key).unwrap();
    assert_eq!(b"abcdefgh".to_vec(), strip_pkcs7(&decrypted.0, 8));
}

#[test]
fn cbc_scenario_w64() {
    let rc5 = RC5::new(RC5WordSize::Bits64, 16, 8).unwrap();
    let key = rc5.generate_key(b"HelloWorldKey");
    let cypher = rc5.encrypt_cbc_pad(b"abcdefghijklmnop", &key).unwrap();
    assert_eq!(48, cypher.0.len());
    let decrypted = rc5.decrypt_cbc_pad(&cypher.0, &key).unwrap();
    assert_eq!(b"abcdefghijklmnop".to_vec(), strip_pkcs7(&decrypted.0, 16));
}

#[test]
fn cbc_scenario_large_w64() {
    // One kilobyte of fixed bytes, the wider key, fewer rounds.
    let rc5 = RC5::new(RC5WordSize::Bits64, 12, 16).unwrap();
    let key = rc5.generate_key(b"#seniv #komison #povtorka");
    let data: Vec<u8> = (0..1024).map(|i| (i % 251) as u8).collect();

    let c1 = rc5.encrypt_cbc_pad(&data, &key).unwrap();
    let d1 = rc5.decrypt_cbc_pad(&c1.0, &key).unwrap();
    assert_eq!(data, strip_pkcs7(&d1.0, 16));

    // Repeated calls draw fresh vectors: ciphertexts differ.
    let c2 = rc5.encrypt_cbc_pad(&data, &key).unwrap();
    let d2 = rc5.decrypt_cbc_pad(&c2.0, &key).unwrap();
    assert_eq!(data, strip_pkcs7(&d2.0, 16));
    assert_ne!(c1.0, c2.0);
}

#[test]
fn ecb_block_roundtrip_w32() {
    // The width-32 block transform works on 8-byte blocks; of a longer
    // buffer only the first block is transformed.
    let rc5 = RC5::new(RC5WordSize::Bits32, 16, 8).unwrap();
    let key = rc5.generate_key(b"SomeKeyMaterial");
    let s = rc5.expanded_key_32(&key);

    let block16: Vec<u8> = (1..=16).collect();
    let cypher = rc5.encrypt_ecb_32(&block16, &s);
    assert_eq!(8, cypher.len());
    let decrypted = rc5.decrypt_ecb_32(&cypher, &s);
    assert_eq!(&block16[..8], &decrypted[..]);

    let block8: Vec<u8> = (1..=8).collect();
    let cypher8 = rc5.encrypt_ecb_32(&block8, &s);
    assert_ne!(block8, cypher8);
    assert_eq!(block8, rc5.decrypt_ecb_32(&cypher8, &s));
}

#[test]
fn invalid_configuration_b7() {
    // An unsupported key length is refused at construction; nothing
    // downstream runs.
    let res = RC5::new(RC5WordSize::Bits32, 16, 7);
    assert!(matches!(res, Err(Rc5Error::InvalidConfiguration)));
    let res0 = RC5::new(RC5WordSize::Bits32, 0, 8);
    assert!(matches!(res0, Err(Rc5Error::InvalidConfiguration)));
}

#[test]
fn invalid_key_length_errors() {
    let rc5 = RC5::new(RC5WordSize::Bits16, 16, 8).unwrap();
    let short_key = vec![0u8; 5];
    assert!(matches!(
        rc5.encrypt_cbc_pad(b"abc", &short_key),
        Err(Rc5Error::InvalidKeyLength)
    ));
    assert!(matches!(
        rc5.decrypt_cbc_pad(&[0u8; 8], &short_key),
        Err(Rc5Error::InvalidKeyLength)
    ));
    assert!(matches!(
        rc5.expand_key(&short_key),
        Err(Rc5Error::InvalidKeyLength)
    ));
}

#[test]
fn invalid_input_length_errors() {
    let rc5 = RC5::new(RC5WordSize::Bits16, 16, 8).unwrap();
    let key = rc5.generate_key(b"HelloWorldKey");
    // Not a multiple of the block length.
    assert!(matches!(
        rc5.decrypt_cbc_pad(&[0u8; 9], &key),
        Err(Rc5Error::InvalidInputLength)
    ));
    // Fewer than two blocks.
    assert!(matches!(
        rc5.decrypt_cbc_pad(&[0u8; 4], &key),
        Err(Rc5Error::InvalidInputLength)
    ));
}

#[test]
fn key_schedule_is_deterministic() {
    let rc5 = RC5::new(RC5WordSize::Bits32, 16, 8).unwrap();
    let key = rc5.generate_key(b"HelloWorldKey");
    assert_eq!(rc5.expanded_key_32(&key), rc5.expanded_key_32(&key));
    // The table has 2 * (r + 1) entries.
    assert_eq!(34, rc5.expanded_key_32(&key).len());
}

#[test]
fn generate_key_lengths() {
    let p = b"HelloWorldKey";
    let k8 = RC5::new(RC5WordSize::Bits16, 16, 8).unwrap().generate_key(p);
    let k16 = RC5::new(RC5WordSize::Bits16, 16, 16).unwrap().generate_key(p);
    let k32 = RC5::new(RC5WordSize::Bits16, 16, 32).unwrap().generate_key(p);
    assert_eq!(8, k8.len());
    assert_eq!(16, k16.len());
    assert_eq!(32, k32.len());
    // The 8-byte key is the second half of the digest.
    assert_eq!(k8[..], k16[8..]);
    // The 32-byte key ends with the plain digest.
    assert_eq!(k16[..], k32[16..]);
}

#[test]
fn ciphertext_length_formula() {
    let rc5 = RC5::new(RC5WordSize::Bits32, 16, 8).unwrap();
    let key = rc5.generate_key(b"HelloWorldKey");
    for len in 0..33usize {
        let data = vec![0x5au8; len];
        let c = rc5.encrypt_cbc_pad(&data, &key).unwrap();
        assert_eq!(8 * (len / 8 + 2), c.0.len());
    }
}

#[test]
fn width_changes_ciphertext_length() {
    let data = b"same plaintext for all three widths";
    let mut lens: Vec<usize> = Vec::new();
    for w in [
        RC5WordSize::Bits16,
        RC5WordSize::Bits32,
        RC5WordSize::Bits64,
    ] {
        let rc5 = RC5::new(w, 16, 8).unwrap();
        let key = rc5.generate_key(b"HelloWorldKey");
        lens.push(rc5.encrypt_cbc_pad(data, &key).unwrap().0.len());
    }
    assert_ne!(lens[0], lens[1]);
    assert_ne!(lens[1], lens[2]);
    assert_ne!(lens[0], lens[2]);
}

#[test]
fn rounds_change_ciphertext_content() {
    let rc5_a = RC5::new(RC5WordSize::Bits32, 8, 8).unwrap();
    let rc5_b = RC5::new(RC5WordSize::Bits32, 16, 8).unwrap();
    let key = rc5_a.generate_key(b"HelloWorldKey");
    let iv = vec![0u8; 8];
    let data = b"abcdefgh";
    let ca = rc5_a.encrypt_cbc_with_iv(data, &key, &iv).unwrap();
    let cb = rc5_b.encrypt_cbc_with_iv(data, &key, &iv).unwrap();
    assert_ne!(ca.0, cb.0);
}

#[test]
fn fixed_iv_encryption_is_reproducible() {
    let rc5 = RC5::new(RC5WordSize::Bits16, 16, 8).unwrap();
    let key = rc5.generate_key(b"HelloWorldKey");
    let iv = vec![7u8, 1, 2, 9];
    let c1 = rc5.encrypt_cbc_with_iv(b"hello", &key, &iv).unwrap();
    let c2 = rc5.encrypt_cbc_with_iv(b"hello", &key, &iv).unwrap();
    assert_eq!(c1.0, c2.0);
    let d = rc5.decrypt_cbc_pad(&c1.0, &key).unwrap();
    assert_eq!(b"hello".to_vec(), strip_pkcs7(&d.0, 4));
}

#[test]
fn digest_to_string_is_lower_hex() {
    assert_eq!("00ff10", Digest(vec![0x00, 0xff, 0x10]).to_string());
    assert_eq!("", Digest(Vec::new()).to_string());
}

#[test]
fn lcg_generate_step() {
    assert_eq!(
        (1103515245u64 * 42 + 12345) % 2147483647,
        rc5::generate(2147483647, 1103515245, 12345, 42)
    );
    assert_eq!(0, rc5::generate(7, 2, 1, 3));
}

#[test]
fn strip_padding_through_library() {
    let rc5 = RC5::new(RC5WordSize::Bits32, 16, 8).unwrap();
    let key = rc5.generate_key(b"HelloWorldKey");
    let cypher = rc5.encrypt_cbc_pad(b"abc", &key).unwrap();
    let decrypted = rc5.decrypt_cbc_pad(&cypher.0, &key).unwrap();
    assert_eq!(b"abc".to_vec(), rc5::cbc::strip_padding(&decrypted.0, 8));
}

#[test]
fn strip_padding_rejects_malformed_runs() {
    // A trailing byte outside [1, bb], a run that is too short, and an
    // empty input all come back unchanged.
    assert_eq!(
        vec![1u8, 2, 3, 9],
        rc5::cbc::strip_padding(&[1u8, 2, 3, 9], 8)
    );
    assert_eq!(
        vec![1u8, 2, 3, 0],
        rc5::cbc::strip_padding(&[1u8, 2, 3, 0], 8)
    );
    assert_eq!(
        vec![1u8, 2, 7, 3],
        rc5::cbc::strip_padding(&[1u8, 2, 7, 3], 8)
    );
    assert_eq!(Vec::<u8>::new(), rc5::cbc::strip_padding(&[], 8));
    // A well-formed run goes.
    assert_eq!(
        vec![1u8, 2],
        rc5::cbc::strip_padding(&[1u8, 2, 2, 2], 8)
    );
}
