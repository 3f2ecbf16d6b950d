use signing_proxy::secret::{
    generate_secret_key_string, key_string_from_indices, secret_from_digest, secret_key_from,
};

const CHARSET: &[u8] = b"ABCDEFGIJKLMNOPQRTUVWXYZabcdefghijklmnopqrstuvwxyz0123456789!@#$%&*()-=[]{},.;?<>";

#[test]
fn key_string_has_size_and_charset() {
    let key = generate_secret_key_string(16, CHARSET);
    assert_eq!(key.chars().count(), 16);
    assert!(key.bytes().all(|b| CHARSET.contains(&b)));
    assert_eq!(generate_secret_key_string(0, b""), "");
}

#[test]
fn key_string_from_chosen_indices() {
    assert_eq!(key_string_from_indices(&[0, 1, 25], CHARSET), "ABb");
}

#[test]
fn secret_is_sha256_in_hex() {
    assert_eq!(
        secret_key_from("abc"),
        "ba7816bf8f01cfea414140de5dae2223b00361a396177a9cb410ff61f20015ad"
    );
    let s = secret_key_from(&generate_secret_key_string(16, CHARSET));
    assert_eq!(s.len(), 64);
    assert!(s.chars().all(|c| c.is_ascii_digit() || ('a'..='f').contains(&c)));
}

#[test]
fn digest_is_written_in_lower_hex() {
    assert_eq!(secret_from_digest(&[0x00, 0x0f, 0xa5, 0xff]), "000fa5ff");
}
