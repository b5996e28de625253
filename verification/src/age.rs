//! Passphrase encryption of the remote fragment, done by the `age` crate.

use vstd::prelude::*;
use ::age::secrecy::SecretString;
use crate::blob::{lines_of, split_lines};
use crate::line::line_views;

verus! {

/// `age::EncryptError`, the reason for which encryption failed. Nothing is
/// read from it.
#[verifier::external_type_specification]
#[verifier::external_body]
pub struct ExEncryptError(::age::EncryptError);

/// `age::DecryptError`, the reason for which decryption failed. Nothing is
/// read from it.
#[verifier::external_type_specification]
#[verifier::external_body]
pub struct ExDecryptError(::age::DecryptError);

/// The plaintext that `age::decrypt` finds in a ciphertext under a
/// passphrase, on whatever machine it finds one. Whether it does is not named:
/// a passphrase-protected file that asks for more work than the machine at
/// hand is willing to do is refused there and read elsewhere.
pub uninterp spec fn age_plaintext(ciphertext: Seq<u8>, passphrase: Seq<char>) -> Seq<u8>;

/// `age::encrypt` to the scrypt recipient of a passphrase. The ciphertext
/// differs from call to call. Believed of it: whatever it is, it is not
/// empty, since it starts with the header of the age format, and decrypting
/// it under the same passphrase finds the plaintext that went in.
#[verifier::external_body]
fn seal(plaintext: &[u8], passphrase: &str) -> (outcome: Result<Vec<u8>, ::age::EncryptError>)
    ensures
        outcome matches Ok(ciphertext) ==> ciphertext@.len() > 0 && age_plaintext(
            ciphertext@,
            passphrase@,
        ) == plaintext@,
{
    ::age::encrypt(&::age::scrypt::Recipient::new(SecretString::from(passphrase)), plaintext)
}

/// `age::decrypt` with the scrypt identity of a passphrase. Believed of it:
/// the plaintext it finds, where it finds one, depends on the ciphertext and
/// the passphrase alone.
#[verifier::external_body]
fn unseal(ciphertext: &[u8], passphrase: &str) -> (outcome: Result<Vec<u8>, ::age::DecryptError>)
    ensures
        outcome matches Ok(plaintext) ==> plaintext@ == age_plaintext(ciphertext@, passphrase@),
{
    ::age::decrypt(&::age::scrypt::Identity::new(SecretString::from(passphrase)), ciphertext)
}

/// Why a fragment could not be encrypted or read.
#[derive(Clone, Copy, Debug, PartialEq, Eq, Structural)]
pub enum CryptError {
    /// The fragment could not be encrypted.
    Encryption,
    /// The fragment could not be decrypted under the passphrase.
    Decryption,
}

/// The ciphertext of an encryption that went well.
pub fn ciphertext_of(sealed: Result<Vec<u8>, ::age::EncryptError>) -> (outcome: Result<
    Vec<u8>,
    CryptError,
>)
    ensures
        match sealed {
            Ok(ciphertext) => outcome == Ok::<Vec<u8>, CryptError>(ciphertext),
            Err(_) => outcome == Err::<Vec<u8>, CryptError>(CryptError::Encryption),
        },
{
    match sealed {
        Ok(ciphertext) => Ok(ciphertext),
        Err(_) => Err(CryptError::Encryption),
    }
}

/// The lines of a decrypted fragment: the segments of its plaintext between
/// newline bytes. What of them is empty or no text is left to the filter.
pub fn lines_of_plaintext(unsealed: Result<Vec<u8>, ::age::DecryptError>) -> (outcome: Result<
    Vec<Vec<u8>>,
    CryptError,
>)
    ensures
        match unsealed {
            Ok(plaintext) => outcome matches Ok(lines) && line_views(lines@) == lines_of(
                plaintext@,
            ),
            Err(_) => outcome == Err::<Vec<Vec<u8>>, CryptError>(CryptError::Decryption),
        },
{
    match unsealed {
        Ok(plaintext) => Ok(split_lines(&plaintext)),
        Err(_) => Err(CryptError::Decryption),
    }
}

/// What encrypting `plaintext` under `passphrase` may give: a ciphertext,
/// which is not empty and holds the plaintext, or the word that encryption
/// failed.
pub open spec fn encrypts(
    plaintext: Seq<u8>,
    passphrase: Seq<char>,
    outcome: Result<Vec<u8>, CryptError>,
) -> bool {
    match outcome {
        Ok(ciphertext) => ciphertext@.len() > 0 && age_plaintext(ciphertext@, passphrase)
            == plaintext,
        Err(error) => error == CryptError::Encryption,
    }
}

/// What decrypting `encrypted` under `passphrase` may give: the lines of the
/// plaintext, or the word that decryption failed.
pub open spec fn decrypts(
    encrypted: Seq<u8>,
    passphrase: Seq<char>,
    outcome: Result<Vec<Vec<u8>>, CryptError>,
) -> bool {
    match outcome {
        Ok(lines) => line_views(lines@) == lines_of(age_plaintext(encrypted, passphrase)),
        Err(error) => error == CryptError::Decryption,
    }
}

/// Encrypts a fragment under a passphrase.
pub fn encrypt(plaintext: &Vec<u8>, passphrase: Box<str>) -> (outcome: Result<Vec<u8>, CryptError>)
    ensures
        encrypts(plaintext@, passphrase@, outcome),
{
    encrypt_under(plaintext, &passphrase)
}

/// Decrypts a fragment under a passphrase and reads it line by line.
pub fn decrypt(encrypted: Vec<u8>, passphrase: Box<str>) -> (outcome: Result<
    Vec<Vec<u8>>,
    CryptError,
>)
    ensures
        decrypts(encrypted@, passphrase@, outcome),
{
    decrypt_under(&encrypted, &passphrase)
}

/// Encrypts a fragment under a passphrase that is borrowed.
pub fn encrypt_under(plaintext: &Vec<u8>, passphrase: &str) -> (outcome: Result<
    Vec<u8>,
    CryptError,
>)
    ensures
        encrypts(plaintext@, passphrase@, outcome),
{
    ciphertext_of(seal(plaintext.as_slice(), passphrase))
}

/// Decrypts a fragment under a passphrase that is borrowed, and reads it line
/// by line.
pub fn decrypt_under(encrypted: &Vec<u8>, passphrase: &str) -> (outcome: Result<
    Vec<Vec<u8>>,
    CryptError,
>)
    ensures
        decrypts(encrypted@, passphrase@, outcome),
{
    lines_of_plaintext(unseal(encrypted.as_slice(), passphrase))
}

} // verus!
