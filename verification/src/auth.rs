use vstd::prelude::*;

use argon2::password_hash::{PasswordHash, PasswordHasher, PasswordVerifier, SaltString};
use argon2::Argon2;
use rand::Rng;

use crate::text::push_char;

verus! {

/// What `verify_password` decides for a password and a PHC-format hash string.
/// The verifier re-derives the digest from the password with the salt and
/// parameters stored in the string and compares: the outcome is a function of
/// the two strings alone.
pub uninterp spec fn password_matches(password: Seq<char>, hash: Seq<char>) -> bool;

/// Relies on argon2's `PasswordHasher::hash_password` with a salt drawn fresh
/// from a secure random source. Whatever salt was drawn, verifying the produced
/// PHC string against the same password re-derives the same digest, so the
/// result always verifies. Hashing fails only for passwords over argon2's byte
/// length cap, which the precondition keeps out (a char is at most four bytes).
#[verifier::external_body]
pub fn hash_password(password: &str) -> (r: String)
    requires
        password@.len() < 0x40000000,
    ensures
        password_matches(password@, r@),
{
    let mut salt_bytes = [0u8; 16];
    rand::rng().fill(&mut salt_bytes);
    let salt = SaltString::encode_b64(&salt_bytes).expect("salt encoding failed");
    let argon2 = Argon2::default();
    argon2
        .hash_password(password.as_bytes(), &salt)
        .expect("Failed to hash password")
        .to_string()
}

/// Relies on `PasswordHash::new` and argon2's `PasswordVerifier::verify_password`:
/// returns false on any malformed hash string or digest mismatch and true on a
/// match, never failing; a deterministic function of the two strings.
#[verifier::external_body]
pub fn verify_password(password: &str, hash: &str) -> (r: bool)
    ensures
        r == password_matches(password@, hash@),
{
    let parsed_hash = match PasswordHash::new(hash) {
        Ok(h) => h,
        Err(_) => return false,
    };
    Argon2::default()
        .verify_password(password.as_bytes(), &parsed_hash)
        .is_ok()
}

/// Relies on rand's `Rng::random_range` over `0..n`: panics on an empty range,
/// otherwise returns a uniformly drawn index below `n`.
#[verifier::external_body]
fn random_index(n: usize) -> (r: usize)
    requires
        n > 0,
    ensures
        r < n,
{
    rand::rng().random_range(0..n)
}

/// A symbol of the 62-character token alphabet: ASCII letters and digits.
pub open spec fn is_token_char(c: char) -> bool {
    let u = c as u32;
    (0x41 <= u && u <= 0x5a) || (0x61 <= u && u <= 0x7a) || (0x30 <= u && u <= 0x39)
}

/// Every character of `s` comes from the token alphabet.
pub open spec fn all_token_chars(s: Seq<char>) -> bool {
    forall|i: int| 0 <= i < s.len() ==> is_token_char(s[i])
}

/// Draws a 64-character opaque identifier uniformly from the 62-symbol
/// alphabet of ASCII letters and digits.
pub fn generate_token() -> (r: String)
    ensures
        r@.len() == 64,
        all_token_chars(r@),
{
    let mut out = String::new();
    let mut i: usize = 0;
    while i < 64
        invariant
            i <= 64,
            out@.len() == i,
            all_token_chars(out@),
        decreases 64 - i,
    {
        let idx = random_index(62);
        let b: u8 = if idx < 26 {
            0x41 + (idx as u8)
        } else if idx < 52 {
            0x61 + (idx as u8 - 26)
        } else {
            0x30 + (idx as u8 - 52)
        };
        let c = b as char;
        push_char(&mut out, c);
        i += 1;
    }
    out
}

/// Session ids use the same alphabet and entropy as API token values.
pub fn generate_session_id() -> (r: String)
    ensures
        r@.len() == 64,
        all_token_chars(r@),
{
    generate_token()
}

} // verus!
