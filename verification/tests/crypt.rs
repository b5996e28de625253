use git_append::age::{
    ciphertext_of, decrypt, decrypt_under, encrypt, encrypt_under, lines_of_plaintext, CryptError,
};

fn plain(text: &str) -> Vec<u8> {
    text.as_bytes().to_vec()
}

#[test]
fn what_was_encrypted_is_read_back_line_by_line() {
    let content = plain("a\nbc\n");
    let sealed = match encrypt(&content, "passphrase".into()) {
        Ok(sealed) => sealed,
        Err(error) => panic!("{:?}", error),
    };
    assert_ne!(content, sealed);
    assert!(!sealed.is_empty());
    assert_eq!(
        Ok(vec![plain("a"), plain("bc"), plain("")]),
        decrypt(sealed, "passphrase".into())
    );
}

#[test]
fn two_encryptions_of_one_content_differ() {
    let content = plain("a\n");
    let one = encrypt_under(&content, "passphrase");
    let other = encrypt_under(&content, "passphrase");
    assert!(one.is_ok());
    assert_ne!(one, other);
}

#[test]
fn another_passphrase_does_not_decrypt() {
    let sealed = match encrypt_under(&plain("a\n"), "passphrase") {
        Ok(sealed) => sealed,
        Err(error) => panic!("{:?}", error),
    };
    assert_eq!(Err(CryptError::Decryption), decrypt_under(&sealed, "other"));
}

#[test]
fn what_is_no_age_file_does_not_decrypt() {
    assert_eq!(
        Err(CryptError::Decryption),
        decrypt(plain("plain text"), "passphrase".into())
    );
}

#[test]
fn encrypted_bytes_that_are_no_text_are_handed_on_as_lines() {
    let sealed = match encrypt_under(&vec![b'a', b'\r', b'\n', 0xff, b'\n'], "passphrase") {
        Ok(sealed) => sealed,
        Err(error) => panic!("{:?}", error),
    };
    assert_eq!(
        Ok(vec![vec![b'a', b'\r'], vec![0xff], Vec::new()]),
        decrypt_under(&sealed, "passphrase")
    );
}

#[test]
fn a_ciphertext_is_handed_on() {
    assert_eq!(Ok(vec![1u8, 2u8]), ciphertext_of(Ok(vec![1u8, 2u8])));
}

#[test]
fn a_failed_encryption_is_reported() {
    assert_eq!(
        Err(CryptError::Encryption),
        ciphertext_of(Err(age::EncryptError::MissingRecipients))
    );
}

#[test]
fn a_plaintext_is_split_at_its_newlines() {
    assert_eq!(
        Ok(vec![plain("a\r"), plain(""), plain("b")]),
        lines_of_plaintext(Ok(plain("a\r\n\nb")))
    );
    assert_eq!(Ok(vec![plain("")]), lines_of_plaintext(Ok(Vec::new())));
    assert_eq!(
        Ok(vec![plain("a"), vec![0xc3]]),
        lines_of_plaintext(Ok(vec![b'a', b'\n', 0xc3]))
    );
}

#[test]
fn a_failed_decryption_is_reported() {
    assert_eq!(
        Err(CryptError::Decryption),
        lines_of_plaintext(Err(age::DecryptError::DecryptionFailed))
    );
    assert_eq!(
        Err(CryptError::Decryption),
        lines_of_plaintext(Err(age::DecryptError::ExcessiveWork {
            required: 30,
            target: 18
        }))
    );
}
