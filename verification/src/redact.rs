//! Keyed, deterministic identity redaction.
//!
//! A 256-bit subkey is derived once from a domain-separation label and a
//! secret, so the same secret used elsewhere yields an unrelated key. With
//! redaction enabled, name and email are each replaced by the first twelve
//! bytes of a keyed extendable-output hash, hex-encoded; the email is first
//! normalized (trimmed, lower-cased) when it is well-formed text, and hashed
//! as raw bytes otherwise, so redaction never fails. The instant passes
//! through unchanged either way.

use vstd::prelude::*;
use vstd::slice::slice_to_vec;
use vstd::string::StrSliceExecFns;
use vstd::string::StringSliceAdditionalSpecFns;
use vstd::utf8::decode_utf8;
use vstd::utf8::encode_utf8;
use vstd::utf8::valid_utf8;

use crate::data::Identity;
use crate::data::IdentityView;

verus! {

/// The 32-byte key that `blake3::derive_key` returns for this context string
/// and key material; a function of the two alone.
pub uninterp spec fn derived_key_of(context: Seq<char>, material: Seq<u8>) -> Seq<u8>;

/// The first twelve bytes of the keyed BLAKE3 extendable output over `data`;
/// a function of key and data alone.
pub uninterp spec fn keyed_hash12_of(key: Seq<u8>, data: Seq<u8>) -> Seq<u8>;

/// What `str::trim` leaves of a string.
pub uninterp spec fn trim_of(s: Seq<char>) -> Seq<char>;

/// What `str::to_lowercase` makes of a string.
pub uninterp spec fn lower_of(s: Seq<char>) -> Seq<char>;

/// Relies on `blake3::derive_key`: a 32-byte subkey derived one-way from the
/// domain-separation context and the key material, determined by those two
/// arguments alone.
#[verifier::external_body]
fn blake3_derive_key(context: &str, material: &[u8]) -> (r: Vec<u8>)
    ensures
        r@ == derived_key_of(context@, material@),
        r@.len() == 32,
{
    blake3::derive_key(context, material).to_vec()
}

/// Relies on `blake3::Hasher::new_keyed`, `Hasher::update`,
/// `Hasher::finalize_xof` and `OutputReader::fill`: the first twelve bytes of
/// the keyed extendable output, determined by key and data alone.
#[verifier::external_body]
fn blake3_keyed_hash12(key: &Vec<u8>, data: &[u8]) -> (r: Vec<u8>)
    requires
        key@.len() == 32,
    ensures
        r@ == keyed_hash12_of(key@, data@),
        r@.len() == 12,
{
    let mut key_bytes = [0u8; 32];
    key_bytes.copy_from_slice(key);
    let mut hasher = blake3::Hasher::new_keyed(&key_bytes);
    hasher.update(data);
    let mut out = [0u8; 12];
    hasher.finalize_xof().fill(&mut out);
    out.to_vec()
}

/// The lowercase hex digit for a value below sixteen, as a byte.
pub open spec fn hex_digit(n: u8) -> u8
    recommends
        n < 16,
{
    if n < 10 {
        (n + 0x30) as u8
    } else {
        (n + 0x57) as u8
    }
}

/// Lowercase hex encoding: each byte becomes two digit bytes, high nibble
/// first.
pub open spec fn hex_bytes_of(b: Seq<u8>) -> Seq<u8> {
    Seq::new(
        b.len() * 2,
        |i: int|
            if i % 2 == 0 {
                hex_digit(b[i / 2] / 16)
            } else {
                hex_digit(b[i / 2] % 16)
            },
    )
}

/// Relies on `hex::encode`: each byte becomes its two lowercase hex digits,
/// high nibble first.
#[verifier::external_body]
fn hex_lower(b: &Vec<u8>) -> (r: Vec<u8>)
    ensures
        r@ == hex_bytes_of(b@),
{
    hex::encode(b).into_bytes()
}

/// Relies on `str::from_utf8`: decoding succeeds exactly on valid UTF-8, and
/// the characters of the result are the decoding of the bytes.
#[verifier::external_body]
fn utf8_decode<'a>(b: &'a [u8]) -> (r: Option<&'a str>)
    ensures
        r is Some <==> valid_utf8(b@),
        r matches Some(s) ==> s@ == decode_utf8(b@),
{
    std::str::from_utf8(b).ok()
}

/// Relies on `str::trim`: the result is a function of the characters alone.
#[verifier::external_body]
fn trim_ws<'a>(s: &'a str) -> (r: &'a str)
    ensures
        r@ == trim_of(s@),
{
    s.trim()
}

/// Relies on `str::to_lowercase`: the result is a function of the characters
/// alone.
#[verifier::external_body]
fn lowercase(s: &str) -> (r: String)
    ensures
        r@ == lower_of(s@),
{
    s.to_lowercase()
}

/// How an email is normalized before hashing: well-formed text is trimmed
/// and lower-cased (so trivial formatting variants collapse to one
/// pseudonym); anything else is kept as its raw bytes.
pub open spec fn normalized_email(b: Seq<u8>) -> Seq<u8> {
    if valid_utf8(b) {
        encode_utf8(lower_of(trim_of(decode_utf8(b))))
    } else {
        b
    }
}

/// Normalizes an email per [`normalized_email`]; total, with the raw bytes as
/// the fallback for malformed text.
pub fn normalize_email(b: &Vec<u8>) -> (r: Vec<u8>)
    ensures
        r@ == normalized_email(b@),
{
    match utf8_decode(b.as_slice()) {
        Some(s) => {
            let low = lowercase(trim_ws(s));
            low.as_str().as_bytes_vec()
        },
        None => slice_to_vec(b.as_slice()),
    }
}

/// A lowercase hex digit, as a byte.
pub open spec fn is_lower_hex_digit(b: u8) -> bool {
    (0x30 <= b <= 0x39) || (0x61 <= b <= 0x66)
}

/// Hex encoding doubles the length and yields lowercase hex digits only.
pub proof fn lemma_hex_bytes_shape(b: Seq<u8>)
    ensures
        hex_bytes_of(b).len() == 2 * b.len(),
        forall|i: int|
            0 <= i < hex_bytes_of(b).len() ==> is_lower_hex_digit(#[trigger] hex_bytes_of(b)[i]),
{
    assert forall|i: int|
        0 <= i < hex_bytes_of(b).len() implies is_lower_hex_digit(
        #[trigger] hex_bytes_of(b)[i],
    ) by {
        let x = b[i / 2];
        if i % 2 == 0 {
            assert(hex_bytes_of(b)[i] == hex_digit(x / 16));
            assert(x / 16 < 16);
        } else {
            assert(hex_bytes_of(b)[i] == hex_digit(x % 16));
            assert(x % 16 < 16);
        }
    }
}

/// The fixed tag appended to every pseudonymous email: the bytes of
/// `@redacted.invalid`.
pub open spec fn email_suffix() -> Seq<u8> {
    seq![
        0x40u8,
        0x72u8,
        0x65u8,
        0x64u8,
        0x61u8,
        0x63u8,
        0x74u8,
        0x65u8,
        0x64u8,
        0x2eu8,
        0x69u8,
        0x6eu8,
        0x76u8,
        0x61u8,
        0x6cu8,
        0x69u8,
        0x64u8,
    ]
}

/// Builds [`email_suffix`] as a byte vector.
fn email_suffix_bytes() -> (r: Vec<u8>)
    ensures
        r@ == email_suffix(),
{
    let mut r: Vec<u8> = Vec::new();
    r.push(0x40);
    r.push(0x72);
    r.push(0x65);
    r.push(0x64);
    r.push(0x61);
    r.push(0x63);
    r.push(0x74);
    r.push(0x65);
    r.push(0x64);
    r.push(0x2e);
    r.push(0x69);
    r.push(0x6e);
    r.push(0x76);
    r.push(0x61);
    r.push(0x6c);
    r.push(0x69);
    r.push(0x64);
    proof {
        assert(r@ =~= email_suffix());
    }
    r
}

/// The pseudonymous name for a raw name under a key.
pub open spec fn pseudonym_name(key: Seq<u8>, name: Seq<u8>) -> Seq<u8> {
    hex_bytes_of(keyed_hash12_of(key, name))
}

/// The pseudonymous email for a raw email under a key.
pub open spec fn pseudonym_email(key: Seq<u8>, email: Seq<u8>) -> Seq<u8> {
    hex_bytes_of(keyed_hash12_of(key, normalized_email(email))) + email_suffix()
}

/// The redacted counterpart of an identity under a key: pseudonymous name
/// and email, unchanged instant.
pub open spec fn redacted_view(key: Seq<u8>, id: IdentityView) -> IdentityView {
    IdentityView {
        name: pseudonym_name(key, id.name),
        email: pseudonym_email(key, id.email),
        when: id.when,
    }
}

/// What redaction makes of an identity: the identity itself when disabled,
/// its redacted counterpart when enabled.
pub open spec fn redact_spec(enabled: bool, key: Seq<u8>, id: IdentityView) -> IdentityView {
    if enabled {
        redacted_view(key, id)
    } else {
        id
    }
}

/// The redaction settings of one run: the flag and the derived subkey.
pub struct RedactConfig {
    pub enabled: bool,
    pub key: Vec<u8>,
}

/// The key material a secret contributes: the secret's bytes, or the bytes
/// of the fixed default string when none is supplied.
pub open spec fn key_material_of(secret: Option<&str>) -> Seq<u8> {
    match secret {
        Some(s) => encode_utf8(s@),
        None => encode_utf8("default_key"@),
    }
}

impl RedactConfig {
    /// A usable configuration carries a full-length subkey.
    pub open spec fn wf(&self) -> bool {
        self.key@.len() == 32
    }

    /// Builds the configuration for one run, deriving the subkey from the
    /// domain-separation label and the secret (or the fixed default).
    pub fn new(enabled: bool, secret: Option<&str>) -> (r: RedactConfig)
        ensures
            r.enabled == enabled,
            r.key@ == derived_key_of("git-scrubber"@, key_material_of(secret)),
            r.wf(),
    {
        let material: &[u8] = match secret {
            Some(s) => s.as_bytes(),
            None => "default_key".as_bytes(),
        };
        RedactConfig { enabled, key: blake3_derive_key("git-scrubber", material) }
    }
}

/// Appends every byte of `src` to `dst`.
fn push_all(dst: &mut Vec<u8>, src: &[u8])
    ensures
        final(dst)@ == old(dst)@ + src@,
{
    let mut i: usize = 0;
    while i < src.len()
        invariant
            i <= src@.len(),
            dst@ == old(dst)@ + src@.take(i as int),
        decreases src@.len() - i,
    {
        dst.push(src[i]);
        proof {
            assert(old(dst)@ + src@.take(i as int + 1) =~= (old(dst)@ + src@.take(i as int)).push(
                src@[i as int],
            ));
        }
        i = i + 1;
    }
    proof {
        assert(old(dst)@ + src@.take(src@.len() as int) =~= old(dst)@ + src@);
    }
}

/// Redacts one identity: with redaction disabled the result is the identity
/// itself, byte for byte; with it enabled, name and email become their keyed
/// pseudonyms and the instant is kept. Total — a malformed email falls back
/// to raw-byte hashing and never aborts the run.
pub fn redact_identity(config: &RedactConfig, id: &Identity) -> (r: Identity)
    requires
        config.wf(),
    ensures
        r@ == redact_spec(config.enabled, config.key@, id@),
        config.enabled ==> r@.name.len() == 24,
        config.enabled ==> (forall|i: int|
            0 <= i < r@.name.len() ==> is_lower_hex_digit(#[trigger] r@.name[i])),
        config.enabled ==> r@.email.len() == 41,
{
    if config.enabled {
        let name_hash = blake3_keyed_hash12(&config.key, id.name.as_slice());
        let name = hex_lower(&name_hash);
        let normalized = normalize_email(&id.email);
        let email_hash = blake3_keyed_hash12(&config.key, normalized.as_slice());
        let mut email = hex_lower(&email_hash);
        let suffix = email_suffix_bytes();
        push_all(&mut email, suffix.as_slice());
        proof {
            lemma_hex_bytes_shape(name_hash@);
            lemma_hex_bytes_shape(email_hash@);
            assert(email_suffix().len() == 17);
        }
        Identity { name, email, when: id.when }
    } else {
        id.duplicate()
    }
}

/// Law: with redaction disabled, the redacted identity is the original, name,
/// email and instant alike.
pub proof fn lemma_disabled_passes_through(key: Seq<u8>, id: IdentityView)
    ensures
        redact_spec(false, key, id) == id,
{
}

/// Law: redaction is deterministic in the name — under one key, two
/// identities with the same name bytes redact to the same pseudonymous name,
/// within a run and across runs.
pub proof fn lemma_same_name_same_pseudonym(key: Seq<u8>, a: IdentityView, b: IdentityView)
    requires
        a.name == b.name,
    ensures
        redacted_view(key, a).name == redacted_view(key, b).name,
{
}

/// Law: the email pseudonym depends only on the normalized email — two
/// emails that normalize to the same bytes (in particular, well-formed ones
/// differing only in case or surrounding whitespace) redact to the same
/// pseudonym under one key.
pub proof fn lemma_same_normalized_email_same_pseudonym(
    key: Seq<u8>,
    a: IdentityView,
    b: IdentityView,
)
    requires
        normalized_email(a.email) == normalized_email(b.email),
    ensures
        redacted_view(key, a).email == redacted_view(key, b).email,
{
}

/// Law: redaction never touches the instant: enabled or not, the timestamp
/// and offset of the result are those of the input.
pub proof fn lemma_instant_kept(enabled: bool, key: Seq<u8>, id: IdentityView)
    ensures
        redact_spec(enabled, key, id).when == id.when,
{
}

} // verus!
