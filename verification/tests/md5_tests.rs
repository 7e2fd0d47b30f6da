use rc5::md5::md5;

#[test]
fn rfc_md5_test_suite() {
    let test_cases: &[(&str, &str)] = &[
        ("a", "0cc175b9c0f1b6a831c399e269772661"),
        ("", "d41d8cd98f00b204e9800998ecf8427e"),
        ("abc", "900150983cd24fb0d6963f7d28e17f72"),
        ("message digest", "f96b697d7cb7938d525a2f31aaf161d0"),
        (
            "abcdefghijklmnopqrstuvwxyz",
            "c3fcd3d76192e4007dfb496cca67e13b",
        ),
        (
            "ABCDEFGHIJKLMNOPQRSTUVWXYZabcdefghijklmnopqrstuvwxyz0123456789",
            "d174ab98d277d9f5a5611c2c9f419d9f",
        ),
        (
            "12345678901234567890123456789012345678901234567890123456789012345678901234567890",
            "57edf4a22be3c955ac49da2e2107b67a",
        ),
    ];

    for &(input, expected) in test_cases {
        assert_eq!(expected, md5(input).to_string(), "Failed input: {}", input);
    }
}

#[test]
fn md5_empty_string() {
    assert_eq!("d41d8cd98f00b204e9800998ecf8427e", md5("").to_string());
}

#[test]
fn md5_single_letter() {
    assert_eq!("0cc175b9c0f1b6a831c399e269772661", md5("a").to_string());
}

#[test]
fn md5_abc() {
    assert_eq!("900150983cd24fb0d6963f7d28e17f72", md5("abc").to_string());
}

#[test]
fn md5_message_digest() {
    assert_eq!(
        "f96b697d7cb7938d525a2f31aaf161d0",
        md5("message digest").to_string()
    );
}

#[test]
fn md5_block_boundary_lengths() {
    // Padding straddles the 55/56/64-byte boundaries.
    let len55: String = "x".repeat(55);
    let len56: String = "x".repeat(56);
    let len64: String = "x".repeat(64);
    assert_eq!(32, md5(&len55).to_string().len());
    assert_eq!(32, md5(&len56).to_string().len());
    assert_eq!(32, md5(&len64).to_string().len());
    assert_ne!(md5(&len55).to_string(), md5(&len56).to_string());
}
