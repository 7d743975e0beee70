use git_scrubber::data::Identity;
use git_scrubber::data::Timestamp;
use git_scrubber::redact::normalize_email;
use git_scrubber::redact::redact_identity;
use git_scrubber::redact::RedactConfig;

fn ident(name: &[u8], email: &[u8]) -> Identity {
    Identity {
        name: name.to_vec(),
        email: email.to_vec(),
        when: Timestamp { seconds: 1_700_000_000, offset_minutes: 120 },
    }
}

/// The pseudonymous name computed directly with the blake3 and hex crates,
/// the way the library promises to compute it.
fn expected_pseudonym(secret: &str, data: &[u8]) -> Vec<u8> {
    let key = blake3::derive_key("git-scrubber", secret.as_bytes());
    let mut hasher = blake3::Hasher::new_keyed(&key);
    hasher.update(data);
    let mut out = [0u8; 12];
    hasher.finalize_xof().fill(&mut out);
    hex::encode(out).into_bytes()
}

#[test]
fn disabled_passes_identity_through() {
    let config = RedactConfig::new(false, Some("k"));
    let id = ident(b"Alice Example", b" Alice@Example.COM ");
    let r = redact_identity(&config, &id);
    assert_eq!(r.name, id.name);
    assert_eq!(r.email, id.email);
    assert_eq!(r.when, id.when);
}

#[test]
fn enabled_keeps_timestamp_and_offset() {
    let config = RedactConfig::new(true, Some("k"));
    let id = ident(b"Alice", b"alice@example.com");
    let r = redact_identity(&config, &id);
    assert_eq!(r.when, id.when);
    assert_ne!(r.name, id.name);
    assert_ne!(r.email, id.email);
}

#[test]
fn same_name_twice_yields_identical_pseudonyms() {
    let config = RedactConfig::new(true, Some("fixed key"));
    let a = ident(b"carol", b"carol@one.example");
    let b = ident(b"carol", b"carol@two.example");
    let ra = redact_identity(&config, &a);
    let rb = redact_identity(&config, &b);
    assert_eq!(ra.name, rb.name);
    assert_ne!(ra.email, rb.email);
}

#[test]
fn email_case_and_whitespace_collapse() {
    let config = RedactConfig::new(true, Some("fixed key"));
    let a = ident(b"x", b"  Carol@Example.COM ");
    let b = ident(b"y", b"carol@example.com");
    let ra = redact_identity(&config, &a);
    let rb = redact_identity(&config, &b);
    assert_eq!(ra.email, rb.email);
}

#[test]
fn distinct_names_yield_distinct_pseudonyms() {
    let config = RedactConfig::new(true, Some("fixed key"));
    let ra = redact_identity(&config, &ident(b"alice", b"a@e.com"));
    let rb = redact_identity(&config, &ident(b"bob", b"a@e.com"));
    assert_ne!(ra.name, rb.name);
    assert_eq!(ra.email, rb.email);
}

#[test]
fn changing_the_key_changes_the_pseudonym() {
    let c1 = RedactConfig::new(true, Some("key one"));
    let c2 = RedactConfig::new(true, Some("key two"));
    let id = ident(b"alice", b"alice@example.com");
    let r1 = redact_identity(&c1, &id);
    let r2 = redact_identity(&c2, &id);
    assert_ne!(r1.name, r2.name);
    assert_ne!(r1.email, r2.email);
}

#[test]
fn default_key_used_when_no_secret_given() {
    let with_none = RedactConfig::new(true, None);
    let with_default = RedactConfig::new(true, Some("default_key"));
    let id = ident(b"alice", b"alice@example.com");
    let r1 = redact_identity(&with_none, &id);
    let r2 = redact_identity(&with_default, &id);
    assert_eq!(r1.name, r2.name);
    assert_eq!(r1.email, r2.email);
}

#[test]
fn pseudonym_matches_direct_blake3_and_hex() {
    let config = RedactConfig::new(true, Some("k"));
    let id = ident(b"carol", b"carol@example.com");
    let r = redact_identity(&config, &id);
    assert_eq!(r.name, expected_pseudonym("k", b"carol"));
    let mut email = expected_pseudonym("k", b"carol@example.com");
    email.extend_from_slice(b"@redacted.invalid");
    assert_eq!(r.email, email);
}

#[test]
fn derivation_is_domain_separated_from_the_raw_secret() {
    let config = RedactConfig::new(true, Some("k"));
    let id = ident(b"carol", b"c@e.com");
    let r = redact_identity(&config, &id);
    // Hashing with the secret used directly as material of another context
    // must not reproduce the pseudonym.
    let other_key = blake3::derive_key("another-context", b"k");
    let mut hasher = blake3::Hasher::new_keyed(&other_key);
    hasher.update(b"carol");
    let mut out = [0u8; 12];
    hasher.finalize_xof().fill(&mut out);
    assert_ne!(r.name, hex::encode(out).into_bytes());
}

#[test]
fn malformed_email_redacts_from_raw_bytes() {
    let config = RedactConfig::new(true, Some("k"));
    let raw = vec![0xffu8, 0xfe, 0x20, 0x41];
    let id = ident(b"carol", &raw);
    let r = redact_identity(&config, &id);
    let mut email = expected_pseudonym("k", &raw);
    email.extend_from_slice(b"@redacted.invalid");
    assert_eq!(r.email, email);
}

#[test]
fn normalization_trims_and_lowercases_text() {
    assert_eq!(normalize_email(&b"  Carol@Example.COM ".to_vec()), b"carol@example.com".to_vec());
    assert_eq!(normalize_email(&b"carol@example.com".to_vec()), b"carol@example.com".to_vec());
    let raw = vec![0xffu8, 0x41];
    assert_eq!(normalize_email(&raw), raw);
}

#[test]
fn pseudonyms_are_fixed_length_hex() {
    let config = RedactConfig::new(true, Some("k"));
    let r = redact_identity(&config, &ident(b"a name of some length", b"a@b.c"));
    assert_eq!(r.name.len(), 24);
    assert!(r.name.iter().all(|b| b.is_ascii_hexdigit()));
    assert!(r.email.ends_with(b"@redacted.invalid"));
    assert_eq!(r.email.len(), 24 + "@redacted.invalid".len());
}
