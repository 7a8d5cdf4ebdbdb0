//! The building blocks that other crates and the standard library provide:
//! Argon2, ChaCha20-Poly1305, SHA-256, random numbers, base 64, hexadecimal
//! digits, identifiers and a few operations on text. Each is called by one
//! small function here. The contracts of these functions are not proved:
//! they say what the function that is called does, and the proofs in the
//! other modules rest on them.

use vstd::prelude::*;

verus! {

/// The sixteen digits of lowercase hexadecimal, in order.
pub open spec fn hex_digits() -> Seq<char> {
    seq!['0', '1', '2', '3', '4', '5', '6', '7', '8', '9', 'a', 'b', 'c', 'd', 'e', 'f']
}

/// Two lowercase hexadecimal digits for each byte, the high one first.
pub open spec fn hex_lower(bytes: Seq<u8>) -> Seq<char>
    decreases bytes.len(),
{
    if bytes.len() == 0 {
        Seq::empty()
    } else {
        hex_lower(bytes.drop_last()) + seq![
            hex_digits()[bytes.last() as int / 16],
            hex_digits()[bytes.last() as int % 16],
        ]
    }
}

/// The text form of a sixteen-byte identifier: its hexadecimal digits in
/// groups of 8, 4, 4, 4 and 12 with a hyphen between them.
pub open spec fn hyphenated(id: Seq<u8>) -> Seq<char> {
    hex_lower(id.subrange(0, 4)) + seq!['-'] + hex_lower(id.subrange(4, 6)) + seq!['-']
        + hex_lower(id.subrange(6, 8)) + seq!['-'] + hex_lower(id.subrange(8, 10)) + seq!['-']
        + hex_lower(id.subrange(10, 16))
}

/// Whether Argon2 takes a password and a salt of these lengths.
pub open spec fn argon2_accepts(password: Seq<u8>, salt: Seq<u8>) -> bool {
    password.len() <= 0xFFFF_FFFF && 8 <= salt.len() <= 0xFFFF_FFFF
}

/// The costs of a run of Argon2: the memory in KiB, the number of passes
/// and the number of lanes.
#[derive(Clone, Copy, Debug, PartialEq, Eq)]
pub struct Costs {
    pub memory: u32,
    pub passes: u32,
    pub lanes: u32,
}

/// Whether Argon2 takes these costs: at least one pass, between one lane
/// and 2^24 - 1 lanes, and at least 8 KiB of memory for each lane.
pub open spec fn costs_accepted(costs: Costs) -> bool {
    &&& costs.passes >= 1
    &&& 1 <= costs.lanes <= 0xFF_FFFF
    &&& costs.memory >= 8 * costs.lanes
}

/// Whether the cipher takes a message of this length.
pub open spec fn aead_accepts(len: nat) -> bool {
    len / 64 < 0xFFFF_FFFF
}

/// Length in bytes of the tag that the cipher appends to a message.
pub open spec fn aead_tag_len() -> nat {
    16
}

/// The 32 bytes that Argon2id, version 19, derives from a password and a
/// salt with this much memory in KiB, this many passes and this many
/// lanes.
pub uninterp spec fn argon2id_hash(
    password: Seq<u8>,
    salt: Seq<u8>,
    memory: u32,
    passes: u32,
    lanes: u32,
) -> Seq<u8>;

/// The password hash string that Argon2id makes of a password under a salt
/// given in base 64, if it makes one.
pub uninterp spec fn argon2_phc(password: Seq<u8>, salt: Seq<char>) -> Option<Seq<char>>;

/// Whether a password hash string is one, and if so whether Argon2 finds
/// that the password matches it.
pub uninterp spec fn phc_check(password: Seq<u8>, hash: Seq<char>) -> Option<bool>;

/// The parameters that a password hash string names, in their order: each
/// with its name and, where its value is a decimal number, that number.
/// There are none where the text is no password hash string.
pub uninterp spec fn phc_params_of(hash: Seq<char>) -> Option<Seq<(Seq<char>, Option<u32>)>>;

/// The most lanes that Argon2 takes: 2^24 - 1.
pub const MAX_LANES: u32 = 0xFF_FFFF;

/// The views of a list of parameters, in order.
pub open spec fn param_views(list: Seq<(String, Option<u32>)>) -> Seq<(Seq<char>, Option<u32>)> {
    list.map_values(|p: (String, Option<u32>)| (p.0@, p.1))
}

/// The view of an optional list of parameters.
pub open spec fn opt_params(list: Option<Vec<(String, Option<u32>)>>) -> Option<
    Seq<(Seq<char>, Option<u32>)>,
> {
    match list {
        Some(l) => Some(param_views(l@)),
        None => None,
    }
}

/// The number of lanes that parameters name: the number of the last
/// parameter `p` that has one. A later parameter replaces an earlier one
/// of the same name.
pub open spec fn lanes_named(params: Seq<(Seq<char>, Option<u32>)>) -> Option<u32>
    decreases params.len(),
{
    if params.len() == 0 {
        None
    } else if params.last().0 == seq!['p'] && params.last().1 is Some {
        params.last().1
    } else {
        lanes_named(params.drop_last())
    }
}

/// The number of lanes that a password hash string names, where it is
/// one and names any.
pub open spec fn hash_lanes(hash: Seq<char>) -> Option<u32> {
    match phc_params_of(hash) {
        Some(params) => lanes_named(params),
        None => None,
    }
}

/// Whether a text names no more lanes than Argon2 takes.
pub open spec fn lanes_taken(hash: Seq<char>) -> bool {
    hash_lanes(hash) matches Some(lanes) ==> lanes <= MAX_LANES
}

/// The ciphertext and tag that ChaCha20-Poly1305 makes of a message under a
/// key and a nonce, with no associated data.
pub uninterp spec fn aead_seal(key: Seq<u8>, nonce: Seq<u8>, message: Seq<u8>) -> Seq<u8>;

/// The message that ChaCha20-Poly1305 recovers from a ciphertext with its tag
/// under a key and a nonce, if the tag is the right one.
pub uninterp spec fn aead_open(key: Seq<u8>, nonce: Seq<u8>, sealed: Seq<u8>) -> Option<Seq<u8>>;

/// The SHA-256 digest of a byte string.
pub uninterp spec fn sha256(data: Seq<u8>) -> Seq<u8>;

/// The standard base 64 text of a byte string, with padding.
pub uninterp spec fn base64_text(data: Seq<u8>) -> Seq<char>;

/// The byte string that a text stands for in standard base 64, if it is one.
pub uninterp spec fn base64_bytes(text: Seq<char>) -> Option<Seq<u8>>;

/// A text with each character replaced by its lowercase form.
pub uninterp spec fn lowercase(text: Seq<char>) -> Seq<char>;

/// A text without the white space at its beginning and its end.
pub uninterp spec fn trimmed(text: Seq<char>) -> Seq<char>;

/// A text with each character replaced by its uppercase form.
pub uninterp spec fn uppercase(text: Seq<char>) -> Seq<char>;

/// Whether a text is a regular expression and, if it is one, whether it
/// matches somewhere in `text`.
pub uninterp spec fn regex_found(pattern: Seq<char>, text: Seq<char>) -> Option<bool>;

/// The view of an optional byte string.
pub open spec fn opt_bytes(bytes: Option<Vec<u8>>) -> Option<Seq<u8>> {
    match bytes {
        Some(b) => Some(b@),
        None => None,
    }
}

/// `Params::new` and `Argon2::hash_password_into` of the `argon2` crate,
/// with the crate's default algorithm and version. It fails exactly on the
/// costs and the lengths that the crate refuses; where it succeeds the
/// buffer holds the hash, which depends on the password, the salt and the
/// costs alone.
#[verifier::external_body]
pub(crate) fn argon2_derive(password: &[u8], salt: &[u8], costs: Costs, out: &mut Vec<u8>) -> (ok:
    bool)
    requires
        old(out)@.len() == 32,
        costs.lanes <= 0xFF_FFFF,
    ensures
        ok == (costs_accepted(costs) && argon2_accepts(password@, salt@)),
        final(out)@.len() == 32,
        ok ==> final(out)@ == argon2id_hash(
            password@,
            salt@,
            costs.memory,
            costs.passes,
            costs.lanes,
        ),
{
    match argon2::Params::new(costs.memory, costs.passes, costs.lanes, None) {
        Ok(params) => argon2::Argon2::from(params).hash_password_into(password, salt, out).is_ok(),
        Err(_) => false,
    }
}

/// `SaltString::generate` of the `password-hash` crate: a random salt in
/// base 64. Nothing is claimed of it.
#[verifier::external_body]
pub(crate) fn fresh_salt_text() -> (r: String) {
    argon2::password_hash::SaltString::generate(
        &mut argon2::password_hash::rand_core::OsRng,
    ).as_str().to_string()
}

/// `PasswordHasher::hash_password` of the `argon2` crate, with its default
/// parameters. The string depends on the password and the salt alone, the
/// password verifies against it, and it names the one lane of the default
/// parameters.
#[verifier::external_body]
pub(crate) fn argon2_hash_text(password: &[u8], salt: &str) -> (r: Option<String>)
    ensures
        crate::types::opt_text(r) == argon2_phc(password@, salt@),
        r matches Some(h) ==> phc_check(password@, h@) == Some(true),
        r matches Some(h) ==> hash_lanes(h@) == Some(1u32),
{
    let salt = argon2::password_hash::Salt::from_b64(salt).ok()?;
    let hasher = argon2::Argon2::default();
    let hash = argon2::PasswordHasher::hash_password(&hasher, password, salt).ok()?;
    Some(hash.to_string())
}

/// `PasswordHash::new` of the `password-hash` crate, with
/// `ParamsString::iter` and `Value::decimal` on each parameter: `None`
/// where the text is no password hash string, else its parameters in
/// their order, each with its name and its number where it has one.
#[verifier::external_body]
pub(crate) fn phc_params(hash: &str) -> (r: Option<Vec<(String, Option<u32>)>>)
    ensures
        opt_params(r) == phc_params_of(hash@),
{
    let parsed = argon2::PasswordHash::new(hash).ok()?;
    Some(
        parsed.params.iter().map(
            |(name, value)| (name.as_str().to_string(), value.decimal().ok()),
        ).collect(),
    )
}

/// `PasswordHash::new` and `PasswordVerifier::verify_password` of the
/// `argon2` crate: `None` where the text is no password hash string, else
/// whether the password matches it. A text that names more lanes than
/// Argon2 takes is left out: the crate multiplies the lanes by 8 before it
/// tests them.
#[verifier::external_body]
pub(crate) fn argon2_verify_text(password: &[u8], hash: &str) -> (r: Option<bool>)
    requires
        lanes_taken(hash@),
    ensures
        r == phc_check(password@, hash@),
{
    let parsed = argon2::PasswordHash::new(hash).ok()?;
    let hasher = argon2::Argon2::default();
    Some(argon2::PasswordVerifier::verify_password(&hasher, password, &parsed).is_ok())
}

/// `Aead::encrypt` of the `chacha20poly1305` crate. It fails exactly on a
/// message that is too long; the result is the message's length plus the
/// tag, depends on the three arguments alone, and opens to the message under
/// the same key and nonce.
#[verifier::external_body]
pub(crate) fn chacha_seal(key: &[u8], nonce: &[u8], message: &[u8]) -> (r: Option<Vec<u8>>)
    requires
        key@.len() == 32,
        nonce@.len() == 12,
    ensures
        r is Some <==> aead_accepts(message@.len()),
        r matches Some(sealed) ==> {
            &&& sealed@ == aead_seal(key@, nonce@, message@)
            &&& sealed@.len() == message@.len() + aead_tag_len()
            &&& aead_open(key@, nonce@, sealed@) == Some(message@)
        },
{
    let cipher = <chacha20poly1305::ChaCha20Poly1305 as chacha20poly1305::KeyInit>::new(
        chacha20poly1305::Key::from_slice(key),
    );
    chacha20poly1305::aead::Aead::encrypt(
        &cipher,
        chacha20poly1305::Nonce::from_slice(nonce),
        message,
    ).ok()
}

/// `Aead::decrypt` of the `chacha20poly1305` crate. The result depends on
/// the three arguments alone; there is none where the input is shorter than
/// a tag, and a message that comes out is shorter than the input by the tag.
#[verifier::external_body]
pub(crate) fn chacha_open(key: &[u8], nonce: &[u8], sealed: &[u8]) -> (r: Option<Vec<u8>>)
    requires
        key@.len() == 32,
        nonce@.len() == 12,
    ensures
        opt_bytes(r) == aead_open(key@, nonce@, sealed@),
        sealed@.len() < aead_tag_len() ==> r is None,
        r matches Some(message) ==> message@.len() + aead_tag_len() == sealed@.len(),
{
    let cipher = <chacha20poly1305::ChaCha20Poly1305 as chacha20poly1305::KeyInit>::new(
        chacha20poly1305::Key::from_slice(key),
    );
    chacha20poly1305::aead::Aead::decrypt(
        &cipher,
        chacha20poly1305::Nonce::from_slice(nonce),
        sealed,
    ).ok()
}

/// `AeadCore::generate_nonce` of the `chacha20poly1305` crate on the
/// system's generator: twelve random bytes.
#[verifier::external_body]
pub(crate) fn fresh_nonce() -> (r: Vec<u8>)
    ensures
        r@.len() == 12,
{
    <chacha20poly1305::ChaCha20Poly1305 as chacha20poly1305::AeadCore>::generate_nonce(
        &mut chacha20poly1305::aead::OsRng,
    ).to_vec()
}

/// `RngCore::fill_bytes` of the `rand` crate on the thread's generator: the
/// buffer keeps its length, and nothing is claimed of what it then holds.
#[verifier::external_body]
pub(crate) fn fill_random(buffer: &mut Vec<u8>)
    ensures
        final(buffer)@.len() == old(buffer)@.len(),
{
    rand::RngCore::fill_bytes(&mut rand::thread_rng(), buffer);
}

/// `Rng::gen_range` of the `rand` crate on the thread's generator, over the
/// indices below `bound`.
#[verifier::external_body]
pub(crate) fn random_below(bound: usize) -> (r: usize)
    requires
        bound > 0,
    ensures
        r < bound,
{
    rand::Rng::gen_range(&mut rand::thread_rng(), 0..bound)
}

/// Whether a byte is an ASCII letter or digit.
pub open spec fn is_alphanumeric(b: u8) -> bool {
    (0x30 <= b <= 0x39) || (0x41 <= b <= 0x5a) || (0x61 <= b <= 0x7a)
}

/// `Rng::sample` of the `rand` crate with its `Alphanumeric` distribution:
/// an ASCII letter or digit.
#[verifier::external_body]
pub(crate) fn random_alphanumeric() -> (r: u8)
    ensures
        is_alphanumeric(r),
{
    rand::Rng::sample(&mut rand::thread_rng(), rand::distributions::Alphanumeric)
}

/// `Uuid::new_v4` of the `uuid` crate: sixteen random bytes. Nothing is
/// claimed of them.
#[verifier::external_body]
pub(crate) fn fresh_id() -> (r: [u8; 16]) {
    uuid::Uuid::new_v4().into_bytes()
}

/// The `Display` form of a `Uuid` of the `uuid` crate made from these bytes.
#[verifier::external_body]
pub(crate) fn id_text(id: &[u8; 16]) -> (r: String)
    ensures
        r@ == hyphenated(id@),
{
    uuid::Uuid::from_bytes(*id).to_string()
}

/// `Digest::digest` of the `sha2` crate for SHA-256: 32 bytes that depend on
/// the data alone.
#[verifier::external_body]
pub(crate) fn sha256_digest(data: &[u8]) -> (r: Vec<u8>)
    ensures
        r@ == sha256(data@),
        r@.len() == 32,
{
    <sha2::Sha256 as sha2::Digest>::digest(data).to_vec()
}

/// `hex::encode` of the `hex` crate: two lowercase digits for each byte.
#[verifier::external_body]
pub(crate) fn hex_encode(data: &[u8]) -> (r: String)
    ensures
        r@ == hex_lower(data@),
{
    hex::encode(data)
}

/// `Engine::encode` of the `base64` crate with its standard engine. The
/// text depends on the data alone and decodes to it.
#[verifier::external_body]
pub(crate) fn base64_encode(data: &[u8]) -> (r: String)
    ensures
        r@ == base64_text(data@),
        base64_bytes(r@) == Some(data@),
{
    base64::Engine::encode(&base64::engine::general_purpose::STANDARD, data)
}

/// `Engine::decode` of the `base64` crate with its standard engine.
#[verifier::external_body]
pub(crate) fn base64_decode(text: &str) -> (r: Option<Vec<u8>>)
    ensures
        opt_bytes(r) == base64_bytes(text@),
{
    base64::Engine::decode(&base64::engine::general_purpose::STANDARD, text).ok()
}

/// `Zeroize::zeroize` of the `zeroize` crate on a vector: every byte is
/// overwritten with zero and the vector is then emptied.
#[verifier::external_body]
pub(crate) fn zeroize_bytes(buffer: &mut Vec<u8>)
    ensures
        final(buffer)@.len() == 0,
    opens_invariants none
    no_unwind
{
    zeroize::Zeroize::zeroize(buffer);
}

/// `Regex::new` and `Regex::is_match` of the `regex` crate: `None` where
/// the pattern is no regular expression, else whether it matches somewhere
/// in the text.
#[verifier::external_body]
pub(crate) fn regex_find(pattern: &str, text: &str) -> (r: Option<bool>)
    ensures
        r == regex_found(pattern@, text@),
{
    let regex = regex::Regex::new(pattern).ok()?;
    Some(regex.is_match(text))
}

/// `str::to_lowercase` of std.
#[verifier::external_body]
pub(crate) fn to_lowercase(text: &str) -> (r: String)
    ensures
        r@ == lowercase(text@),
{
    text.to_lowercase()
}

/// `str::to_uppercase` of std.
#[verifier::external_body]
pub(crate) fn to_uppercase(text: &str) -> (r: String)
    ensures
        r@ == uppercase(text@),
{
    text.to_uppercase()
}

/// `str::lines` of std: the lines of the text, each without the line feed
/// that ends it and without a carriage return before that line feed. What
/// stands behind the last line feed is a line where it is not empty, and
/// keeps a carriage return at its end.
#[verifier::external_body]
pub(crate) fn lines(text: &str) -> (r: Vec<String>)
    ensures
        crate::types::texts(r@) == crate::text::lines_of(text@),
{
    text.lines().map(String::from).collect()
}

/// `str::trim` of std.
#[verifier::external_body]
pub(crate) fn trim(text: &str) -> (r: &str)
    ensures
        r@ == trimmed(text@),
{
    text.trim()
}

/// `String::from_iter` of std over the characters of a vector.
#[verifier::external_body]
pub(crate) fn text_of(chars: &Vec<char>) -> (r: String)
    ensures
        r@ == chars@,
{
    String::from_iter(chars)
}

/// `String::from_utf8` of std: the text that the bytes encode, where they
/// are valid UTF-8.
#[verifier::external_body]
pub(crate) fn utf8_text(bytes: Vec<u8>) -> (r: Option<String>)
    ensures
        r is Some <==> vstd::utf8::valid_utf8(bytes@),
        r matches Some(text) ==> text@ == vstd::utf8::decode_utf8(bytes@),
{
    String::from_utf8(bytes).ok()
}

} // verus!
