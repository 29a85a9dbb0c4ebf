use mudup::checksum::{check_digest, normalize_checksum, to_hex_lower, verify_sha256, ChecksumError};

const ABC_SHA256: &str = "ba7816bf8f01cfea414140de5dae2223b00361a396177a9cb410ff61f20015ad";

#[test]
fn sha256_of_known_input_verifies() {
    assert!(verify_sha256(b"abc", ABC_SHA256).is_ok());
    assert!(verify_sha256(b"abc", &format!("  {}\n", ABC_SHA256.to_uppercase())).is_ok());
}

#[test]
fn sha256_mismatch_reports_both_sides() {
    match verify_sha256(b"abcd", &format!(" {} ", ABC_SHA256.to_uppercase())) {
        Err(ChecksumError::Mismatch { expected, actual }) => {
            assert_eq!(expected, ABC_SHA256);
            assert_eq!(
                actual,
                "88d4266fd4e6338d13b845fcf289579d209c897823b9217da3e161936f031589"
            );
        }
        Ok(()) => panic!("mismatch accepted"),
    }
}

#[test]
fn empty_input_digest() {
    assert!(verify_sha256(
        b"",
        "e3b0c44298fc1c149afbf4c8996fb92427ae41e4649b934ca495991b7852b855"
    )
    .is_ok());
}

#[test]
fn hex_is_lowercase_two_digits_per_byte() {
    assert_eq!(to_hex_lower(&[0x00, 0x0f, 0xa0, 0xff]), "000fa0ff");
    assert_eq!(to_hex_lower(&[]), "");
}

#[test]
fn expected_checksum_is_trimmed_and_lowercased() {
    assert_eq!(normalize_checksum(" \tAbC-Z9\n"), "abc-z9");
    assert!(check_digest(&[0xab, 0xcd], "ABCD").is_ok());
    assert!(check_digest(&[0xab, 0xcd], "abce").is_err());
}

#[test]
fn checksum_file_of_own_digest_verifies() {
    let data = b"mududb release archive";
    let digest = match verify_sha256(data, "") {
        Err(ChecksumError::Mismatch { actual, .. }) => actual,
        Ok(()) => panic!("empty checksum accepted"),
    };
    let body = format!("{digest}  mududb-v20260514.1144-x86_64-unknown-linux-gnu.tar.gz\n");
    let expected = mudup::remote::checksum_from_response(&body).unwrap();
    assert_eq!(expected, digest);
    assert!(verify_sha256(data, &expected).is_ok());
}
