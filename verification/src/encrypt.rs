//! Build-time encryption of marked page regions.
//!
//! A page opts in through a `password` in its front matter, which locks its
//! content region; a single region opts in with
//! `#encrypted(password: ..., hint: ...)[...]`. After render, this plugin
//! encrypts each region's contents and replaces them with a lock form plus
//! the ciphertext. The plaintext never reaches the output; a
//! small inline script decrypts it in the browser with WebCrypto
//! (PBKDF2-HMAC-SHA256 + AES-256-GCM).
//!
//! Threat model: a password written in Typst source is public if the
//! repository is public, so this is a speed bump, not secrecy. A real KDF is
//! still used so the rendered ciphertext is not trivially reversible and
//! reusing a password elsewhere is not instantly exposed.
use vstd::prelude::*;
use vstd::string::StringSliceAdditionalSpecFns;
use vstd::utf8::{decode_utf8, encode_utf8, valid_utf8};

use aes_gcm::aead::Aead;
use aes_gcm::KeyInit;
use base64::Engine;

use crate::keyed::{
    insert_sorted, keys_of, lemma_insert_existing, lemma_insert_sorted, lemma_insert_sorted_split,
    lemma_lookup_index, lemma_lookup_some_index, lookup, sorted_by_key,
};
use crate::manifest::{fm_get, fm_str, FrontMatter, MetadataEntry, PageMeta, SiteManifest};
use crate::feed::content_marker;
use crate::markup::{html_escape, push_html_escaped};
use crate::plugin::{lemma_library_paths_are_simple, overlay_add, Plugin, PluginError, RenderOutput, TypstOverlay};
use crate::text::{
    append_chars, append_range, append_str, chars_of, decode_utf8_chars, encode_utf8_chars, find, find_from,
    lemma_encode_decode, lemma_find_from_nonneg, lemma_seq_less_irreflexive, less_chars, matches_at,
    occurs_at, push_decimal, decimal, same_chars, seq_less, string_of,
};

verus! {

broadcast use vstd::seq::group_seq_axioms;

/// Default PBKDF2 iteration count.
pub const DEFAULT_ITERATIONS: u32 = 600_000;

/// The largest plaintext AES-GCM accepts, in bytes.
pub const AES_GCM_P_MAX: u64 = 0x10_0000_0000;

/// Why a page could not be locked or a payload unlocked.
#[derive(Debug)]
pub enum EncryptError {
    /// An encrypted region names a page that was not rendered.
    PageNotRendered(String),
    /// The page holding encrypted regions is not UTF-8.
    NotUtf8(String),
    /// The page holds fewer encrypted regions than passwords.
    MissingRegions { expected: usize, found: usize },
    /// An encrypted region is never closed.
    Unterminated,
    /// The page holds more encrypted regions than passwords.
    ExtraRegions,
    /// The operating system's random number generator failed.
    Rng,
    /// The cipher refused the plaintext (it is longer than AES-GCM allows).
    Cipher,
    /// The password is wrong or the ciphertext is corrupt.
    WrongPassword,
    /// A page with a password has no content region.
    NoContentRegion,
}

/// What an encryption error says.
pub open spec fn encrypt_message(e: EncryptError) -> Seq<char> {
    match e {
        EncryptError::PageNotRendered(route) => "encrypt: page `"@ + route@ + "` was not rendered"@,
        EncryptError::NotUtf8(route) => "encrypt: page `"@ + route@ + "` is not UTF-8"@,
        EncryptError::MissingRegions { expected, found } => "encrypt: expected "@ + decimal(expected as nat)
            + " encrypted region(s), found "@ + decimal(found as nat),
        EncryptError::Unterminated => "encrypt: unterminated encrypted region"@,
        EncryptError::ExtraRegions => "encrypt: more encrypted regions than passwords"@,
        EncryptError::Rng => "encrypt: rng failed"@,
        EncryptError::Cipher => "encrypt: encryption failed"@,
        EncryptError::WrongPassword => "decrypt: wrong password or corrupt ciphertext"@,
        EncryptError::NoContentRegion => "encrypt: page has no content region to lock"@,
    }
}

impl EncryptError {
    /// What the error says.
    pub fn message(&self) -> (r: String)
        ensures
            r@ == encrypt_message(*self),
    {
        let mut v: Vec<char> = Vec::new();
        match self {
            EncryptError::PageNotRendered(route) => {
                append_str(&mut v, "encrypt: page `");
                append_str(&mut v, route.as_str());
                append_str(&mut v, "` was not rendered");
            },
            EncryptError::NotUtf8(route) => {
                append_str(&mut v, "encrypt: page `");
                append_str(&mut v, route.as_str());
                append_str(&mut v, "` is not UTF-8");
            },
            EncryptError::MissingRegions { expected, found } => {
                append_str(&mut v, "encrypt: expected ");
                push_decimal(&mut v, *expected);
                append_str(&mut v, " encrypted region(s), found ");
                push_decimal(&mut v, *found);
            },
            EncryptError::Unterminated => append_str(&mut v, "encrypt: unterminated encrypted region"),
            EncryptError::ExtraRegions => append_str(&mut v, "encrypt: more encrypted regions than passwords"),
            EncryptError::Rng => append_str(&mut v, "encrypt: rng failed"),
            EncryptError::Cipher => append_str(&mut v, "encrypt: encryption failed"),
            EncryptError::WrongPassword => append_str(&mut v, "decrypt: wrong password or corrupt ciphertext"),
            EncryptError::NoContentRegion => append_str(&mut v, "encrypt: page has no content region to lock"),
        }
        string_of(&v)
    }
}

#[verifier::external_type_specification]
#[verifier::external_body]
pub struct ExGetrandomError(getrandom::Error);

#[verifier::external_type_specification]
#[verifier::external_body]
pub struct ExAeadError(aes_gcm::Error);

/// The PBKDF2-HMAC-SHA256 derivation of a 32-byte key.
pub uninterp spec fn pbkdf2_hmac_sha256(password: Seq<u8>, salt: Seq<u8>, rounds: u32) -> Seq<u8>;

/// The AES-256-GCM encryption (ciphertext followed by the tag, no associated
/// data) of `plaintext` under `key` and `nonce`.
pub uninterp spec fn aes256gcm_seal(key: Seq<u8>, nonce: Seq<u8>, plaintext: Seq<u8>) -> Seq<u8>;

/// The AES-256-GCM decryption of `ciphertext` under `key` and `nonce`, when
/// it authenticates.
pub uninterp spec fn aes256gcm_open(key: Seq<u8>, nonce: Seq<u8>, ciphertext: Seq<u8>) -> Option<Seq<u8>>;

/// `getrandom::fill`: on success `dest` holds random bytes; nothing is
/// claimed of their values, only that the buffer keeps its length.
#[verifier::external_body]
fn fill_random<const N: usize>(dest: &mut [u8; N]) -> (r: Result<(), getrandom::Error>)
    ensures
        final(dest)@.len() == N,
{
    getrandom::fill(dest)
}

/// PBKDF2-HMAC-SHA256 -> 32-byte key (`pbkdf2::pbkdf2_hmac` over SHA-256),
/// deterministic in the password bytes, the salt and the round count.
#[verifier::external_body]
fn derive_key(password: &str, salt: &[u8], iterations: u32) -> (key: [u8; 32])
    ensures
        key@ == pbkdf2_hmac_sha256(password.spec_bytes(), salt@, iterations),
{
    let mut key = [0u8; 32];
    pbkdf2::pbkdf2_hmac::<pbkdf2::sha2::Sha256>(password.as_bytes(), salt, iterations, &mut key);
    key
}

/// `Aead::encrypt` of `Aes256Gcm`: the sealed bytes under the key and nonce,
/// the plaintext followed by a 16-byte tag; it fails exactly when the
/// plaintext exceeds AES-GCM's limit. (It sizes its buffer as the
/// plaintext's length plus the tag's, which must not overflow.)
#[verifier::external_body]
fn aes_seal(key: &[u8; 32], nonce: &[u8; 12], plaintext: &[u8]) -> (r: Result<Vec<u8>, aes_gcm::Error>)
    requires
        plaintext@.len() + 16 <= usize::MAX,
    ensures
        r matches Ok(c) ==> c@ == aes256gcm_seal(key@, nonce@, plaintext@) && c@.len()
            == plaintext@.len() + 16,
        r is Err <==> plaintext@.len() > AES_GCM_P_MAX,
{
    aes_gcm::Aes256Gcm::new(&(*key).into()).encrypt(&aes_gcm::Nonce::from(*nonce), plaintext)
}

/// A ciphertext sealed from some plaintext (of a length AES-GCM accepts)
/// under `key` and `nonce` opens to that plaintext.
pub open spec fn opens_what_was_sealed(key: Seq<u8>, nonce: Seq<u8>, ciphertext: Seq<u8>, opened: Option<Seq<u8>>) -> bool {
    forall|p: Seq<u8>|
        p.len() <= AES_GCM_P_MAX && ciphertext == aes256gcm_seal(key, nonce, p) ==> opened == Some(p)
}

/// `Aead::decrypt` of `Aes256Gcm`: the opened plaintext when the ciphertext
/// authenticates; a ciphertext sealed under the same key and nonce opens to
/// its plaintext.
#[verifier::external_body]
fn aes_open(key: &[u8; 32], nonce: &[u8; 12], ciphertext: &[u8]) -> (r: Result<Vec<u8>, aes_gcm::Error>)
    ensures
        r matches Ok(p) ==> aes256gcm_open(key@, nonce@, ciphertext@) == Some(p@),
        r is Err ==> aes256gcm_open(key@, nonce@, ciphertext@) is None,
        opens_what_was_sealed(key@, nonce@, ciphertext@, match r {
            Ok(q) => Some(q@),
            Err(_) => None,
        }),
{
    aes_gcm::Aes256Gcm::new(&(*key).into()).decrypt(&aes_gcm::Nonce::from(*nonce), ciphertext)
}

/// The standard base64 alphabet.
pub open spec fn base64_digit(v: int) -> char {
    if v < 26 {
        (65 + v) as char
    } else if v < 52 {
        (97 + v - 26) as char
    } else if v < 62 {
        (48 + v - 52) as char
    } else if v == 62 {
        '+'
    } else {
        '/'
    }
}

/// Standard base64 (RFC 4648, with `=` padding).
pub open spec fn base64_standard(b: Seq<u8>) -> Seq<char>
    decreases b.len(),
{
    if b.len() == 0 {
        Seq::empty()
    } else {
        let x = b[0] as int;
        if b.len() == 1 {
            seq![base64_digit(x / 4), base64_digit((x % 4) * 16), '=', '=']
        } else {
            let y = b[1] as int;
            if b.len() == 2 {
                seq![
                    base64_digit(x / 4),
                    base64_digit((x % 4) * 16 + y / 16),
                    base64_digit((y % 16) * 4),
                    '=',
                ]
            } else {
                let z = b[2] as int;
                seq![
                    base64_digit(x / 4),
                    base64_digit((x % 4) * 16 + y / 16),
                    base64_digit((y % 16) * 4 + z / 64),
                    base64_digit(z % 64),
                ] + base64_standard(b.skip(3))
            }
        }
    }
}

/// `base64::engine::general_purpose::STANDARD.encode`: the standard, padded
/// base64 text of the bytes. (It panics when the length of the text would
/// overflow, hence the bound.)
#[verifier::external_body]
fn base64_encode(bytes: &[u8]) -> (r: String)
    requires
        bytes@.len() <= usize::MAX / 2,
    ensures
        r@ == base64_standard(bytes@),
{
    base64::engine::general_purpose::STANDARD.encode(bytes)
}

/// One encrypted region's password and optional prompt text.
pub struct RegionLock {
    /// The password the region is locked with.
    pub password: String,
    /// The prompt shown in the lock form.
    pub hint: Option<String>,
}

/// A locked payload.
pub struct Locked {
    /// The PBKDF2 salt.
    pub salt: [u8; 16],
    /// The AES-GCM nonce.
    pub nonce: [u8; 12],
    /// The PBKDF2 round count.
    pub iterations: u32,
    /// The AES-GCM ciphertext, tag included.
    pub ciphertext: Vec<u8>,
}

/// `locked` is `plaintext` sealed under the key derived from `password` with
/// the payload's salt and round count.
pub open spec fn seals(password: Seq<char>, plaintext: Seq<u8>, locked: Locked) -> bool {
    locked.ciphertext@ == aes256gcm_seal(
        pbkdf2_hmac_sha256(encode_utf8(password), locked.salt@, locked.iterations),
        locked.nonce@,
        plaintext,
    )
}

/// Derive a key from `password` with `salt` and `iterations`, and seal
/// `plaintext` under it and `nonce`.
pub fn seal_with(password: &str, plaintext: &[u8], salt: [u8; 16], nonce: [u8; 12], iterations: u32) -> (r: Result<Locked, EncryptError>)
    requires
        plaintext@.len() + 16 <= usize::MAX,
    ensures
        r matches Ok(l) ==> {
            &&& l.salt == salt
            &&& l.nonce == nonce
            &&& l.iterations == iterations
            &&& seals(password@, plaintext@, l)
            &&& l.ciphertext@.len() == plaintext@.len() + 16
        },
        r is Err <==> plaintext@.len() > AES_GCM_P_MAX,
        r matches Err(e) ==> e is Cipher,
{
    let key = derive_key(password, &salt, iterations);
    match aes_seal(&key, &nonce, plaintext) {
        Ok(ciphertext) => Ok(Locked { salt, nonce, iterations, ciphertext }),
        Err(_) => Err(EncryptError::Cipher),
    }
}

/// Derive a key from `password` and encrypt `plaintext` under a fresh
/// random salt and nonce.
pub fn encrypt_bytes(password: &str, plaintext: &[u8], iterations: u32) -> (r: Result<Locked, EncryptError>)
    requires
        plaintext@.len() + 16 <= usize::MAX,
    ensures
        r matches Ok(l) ==> l.iterations == iterations && seals(password@, plaintext@, l)
            && l.ciphertext@.len() == plaintext@.len() + 16,
        r matches Err(e) ==> (e is Rng || (e is Cipher && plaintext@.len() > AES_GCM_P_MAX)),
        plaintext@.len() > AES_GCM_P_MAX ==> r is Err,
{
    let mut salt = [0u8; 16];
    let mut nonce = [0u8; 12];
    match fill_random(&mut salt) {
        Ok(()) => {},
        Err(_) => return Err(EncryptError::Rng),
    }
    match fill_random(&mut nonce) {
        Ok(()) => {},
        Err(_) => return Err(EncryptError::Rng),
    }
    seal_with(password, plaintext, salt, nonce, iterations)
}

/// Derive the key from `password` and decrypt a payload: the reference
/// for the browser shim. A payload that locks a plaintext under `password`
/// decrypts to it.
pub fn decrypt_bytes(password: &str, locked: &Locked) -> (r: Result<Vec<u8>, EncryptError>)
    ensures
        forall|p: Seq<u8>|
            p.len() <= AES_GCM_P_MAX && seals(password@, p, *locked) ==> (r matches Ok(q) && q@ == p),
        r matches Ok(q) ==> aes256gcm_open(
            pbkdf2_hmac_sha256(encode_utf8(password@), locked.salt@, locked.iterations),
            locked.nonce@,
            locked.ciphertext@,
        ) == Some(q@),
        r matches Err(e) ==> e is WrongPassword && aes256gcm_open(
            pbkdf2_hmac_sha256(encode_utf8(password@), locked.salt@, locked.iterations),
            locked.nonce@,
            locked.ciphertext@,
        ) is None,
{
    let key = derive_key(password, &locked.salt, locked.iterations);
    match aes_open(&key, &locked.nonce, locked.ciphertext.as_slice()) {
        Ok(plain) => Ok(plain),
        Err(_) => Err(EncryptError::WrongPassword),
    }
}

/// The prompt shown when a region has no hint.
pub const DEFAULT_HINT: &'static str = "This part is encrypted. Enter the password to read it.";

/// The key-derivation parameters shown to the decrypt shim.
pub open spec fn lock_params(l: Locked) -> Seq<char> {
    "{\"salt\":\""@ + base64_standard(l.salt@) + "\",\"iv\":\""@ + base64_standard(l.nonce@)
        + "\",\"iterations\":"@ + decimal(l.iterations as nat) + "}"@
}

/// The prompt markup for a text hint: the hint, or the default prompt,
/// HTML-escaped.
pub open spec fn prompt_of(hint: Option<Seq<char>>) -> Seq<char> {
    html_escape(
        match hint {
            Some(h) => h,
            None => DEFAULT_HINT@,
        },
    )
}

/// The lock markup that replaces a region's plaintext, with `prompt` (markup)
/// shown above the password field.
pub open spec fn lock_markup_with(l: Locked, prompt: Seq<char>) -> Seq<char> {
    "<div class=\"typost-lock\">"@ + LOCK_STYLE@ + "<form class=\"typost-lock-form\">"@
        + "<p class=\"typost-lock-hint\">"@ + prompt + "</p>"@
        + "<input type=\"password\" class=\"typost-lock-password\" autocomplete=\"current-password\" placeholder=\"Password\" autofocus>"@
        + "<button type=\"submit\">Unlock</button>"@
        + "<p class=\"typost-lock-error\" role=\"alert\" hidden>Wrong password.</p>"@ + "</form>"@
        + "<script type=\"application/json\" class=\"typost-lock-params\">"@ + lock_params(l)
        + "</script>"@ + "<script type=\"text/plain\" class=\"typost-lock-cipher\">"@
        + base64_standard(l.ciphertext@) + "</script>"@ + "<script>"@ + LOCK_SCRIPT@ + "</script>"@
        + "</div>"@
}

/// The class attribute value that marks a lock, with its closing quote.
pub open spec fn lock_marker() -> Seq<char> {
    "typost-lock\""@
}

/// No `"` in `s`.
pub open spec fn quote_free(s: Seq<char>) -> bool {
    forall|j: int| 0 <= j < s.len() ==> #[trigger] s[j] != '"'
}

/// No `"` in `s` follows a `k`.
spec fn no_k_quote(s: Seq<char>) -> bool {
    forall|j: int| 1 <= j < s.len() && #[trigger] s[j] == '"' ==> s[j - 1] != 'k'
}

proof fn lemma_base64_digit(v: int)
    requires
        0 <= v < 64,
    ensures
        base64_digit(v) != '"',
        base64_digit(v) != '-',
{
}

/// Base64 text holds neither `"` nor `-`, and is no shorter than its bytes.
proof fn lemma_base64_chars(b: Seq<u8>)
    ensures
        base64_standard(b).len() >= b.len(),
        forall|j: int| 0 <= j < base64_standard(b).len() ==> #[trigger] base64_standard(b)[j] != '"'
            && base64_standard(b)[j] != '-',
    decreases b.len(),
{
    if b.len() > 0 {
        let x = b[0] as int;
        lemma_base64_digit(x / 4);
        lemma_base64_digit((x % 4) * 16);
        if b.len() >= 2 {
            let y = b[1] as int;
            lemma_base64_digit((x % 4) * 16 + y / 16);
            lemma_base64_digit((y % 16) * 4);
            if b.len() >= 3 {
                let z = b[2] as int;
                lemma_base64_digit((y % 16) * 4 + z / 64);
                lemma_base64_digit(z % 64);
                lemma_base64_chars(b.skip(3));
            }
        }
    }
}

/// Decimal text holds no `"`.
proof fn lemma_decimal_quote_free(n: nat)
    ensures
        quote_free(decimal(n)),
    decreases n,
{
    if n >= 10 {
        lemma_decimal_quote_free(n / 10);
    }
}

/// The lock's style sheet holds no `"`.
#[verifier::spinoff_prover]
#[verifier::rlimit(50)]
proof fn lemma_lock_style_quote_free()
    ensures
        quote_free(LOCK_STYLE@),
{
    reveal_strlit("<style>\
.typost-lock{max-width:26rem;margin:3rem auto;padding:1.5rem;text-align:center;\
background:var(--surface,#32302f);border:1px solid var(--surface-2,#3c3836);\
border-radius:var(--radius,10px);box-shadow:0 12px 32px -24px rgba(0,0,0,.8)}\
.typost-lock-hint{margin:0 0 1rem;color:var(--fg-dim,#a89984);font-size:.95rem}\
.typost-lock form{display:flex;flex-direction:column;gap:.6rem}\
.typost-lock input{width:100%;box-sizing:border-box;padding:.6rem .8rem;\
background:var(--bg-soft,#282828);color:var(--fg,#d4be98);\
border:1px solid var(--border,#504945);border-radius:8px;font:inherit;outline:none}\
.typost-lock input:focus{border-color:var(--accent,#a9b665)}\
.typost-lock button{padding:.6rem 1.2rem;border:0;border-radius:8px;\
cursor:pointer;background:var(--accent,#a9b665);color:var(--bg,#1d2021);\
font:inherit;font-weight:600}\
.typost-lock button:hover{opacity:.9}\
.typost-lock-error{margin:.2rem 0 0;color:var(--red,#ea6962);font-size:.9rem}\
</style>");
}

/// The lock's script holds no `"`.
#[verifier::spinoff_prover]
#[verifier::rlimit(50)]
proof fn lemma_lock_script_quote_free()
    ensures
        quote_free(LOCK_SCRIPT@),
{
    reveal_strlit(r#"
(function () {
  var lock = document.currentScript.closest('.typost-lock');
  if (!lock) return;
  var params = JSON.parse(lock.querySelector('.typost-lock-params').textContent);
  var cipherB64 = lock.querySelector('.typost-lock-cipher').textContent.trim();
  var form = lock.querySelector('form');
  var input = lock.querySelector('.typost-lock-password');
  var error = lock.querySelector('.typost-lock-error');
  function bytes(b64) {
    return Uint8Array.from(atob(b64), function (c) { return c.charCodeAt(0); });
  }
  if (!window.crypto || !window.crypto.subtle) {
    error.hidden = false;
    error.textContent = 'WebCrypto is unavailable; serve this site over http(s).';
    return;
  }
  form.addEventListener('submit', function (event) {
    event.preventDefault();
    error.hidden = true;
    var encoder = new TextEncoder();
    window.crypto.subtle
      .importKey('raw', encoder.encode(input.value), 'PBKDF2', false, ['deriveKey'])
      .then(function (material) {
        return window.crypto.subtle.deriveKey(
          { name: 'PBKDF2', salt: bytes(params.salt), iterations: params.iterations, hash: 'SHA-256' },
          material,
          { name: 'AES-GCM', length: 256 },
          false,
          ['decrypt']
        );
      })
      .then(function (key) {
        return window.crypto.subtle.decrypt(
          { name: 'AES-GCM', iv: bytes(params.iv) },
          key,
          bytes(cipherB64)
        );
      })
      .then(function (plain) {
        var holder = document.createElement('div');
        holder.innerHTML = new TextDecoder().decode(plain);
        var parent = lock.parentNode;
        while (holder.firstChild) parent.insertBefore(holder.firstChild, lock);
        parent.removeChild(lock);
      })
      .catch(function () {
        error.hidden = false;
        error.textContent = 'Wrong password.';
        input.select();
      });
  });
})();
"#);
}

/// The fixed pieces of the lock markup: only the lock's own class ends in
/// `k"`.
#[verifier::spinoff_prover]
#[verifier::rlimit(100)]
proof fn lemma_lock_pieces()
    ensures
        quote_free(LOCK_STYLE@),
        quote_free(LOCK_SCRIPT@),
        no_k_quote("<form class=\"typost-lock-form\">"@ + "<p class=\"typost-lock-hint\">"@),
        no_k_quote("</p>"@ + "<input type=\"password\" class=\"typost-lock-password\" autocomplete=\"current-password\" placeholder=\"Password\" autofocus>"@
            + "<button type=\"submit\">Unlock</button>"@
            + "<p class=\"typost-lock-error\" role=\"alert\" hidden>Wrong password.</p>"@ + "</form>"@
            + "<script type=\"application/json\" class=\"typost-lock-params\">"@ + "{\"salt\":\""@),
        no_k_quote("\",\"iv\":\""@),
        no_k_quote("\",\"iterations\":"@),
        no_k_quote("}"@ + "</script>"@ + "<script type=\"text/plain\" class=\"typost-lock-cipher\">"@),
        ({
            let b = "</p>"@ + "<input type=\"password\" class=\"typost-lock-password\" autocomplete=\"current-password\" placeholder=\"Password\" autofocus>"@
            + "<button type=\"submit\">Unlock</button>"@
            + "<p class=\"typost-lock-error\" role=\"alert\" hidden>Wrong password.</p>"@ + "</form>"@
            + "<script type=\"application/json\" class=\"typost-lock-params\">"@ + "{\"salt\":\""@;
            b.len() > 0 && b[0] != '"'
        }),
        ({
            let e = "}"@ + "</script>"@ + "<script type=\"text/plain\" class=\"typost-lock-cipher\">"@;
            e.len() > 0 && e[0] != '"'
        }),
        ({
            let a3 = "<form class=\"typost-lock-form\">"@ + "<p class=\"typost-lock-hint\">"@;
            a3.len() > 0 && a3[0] != '"'
        }),
        quote_free(("</script>"@ + "<script>"@) + LOCK_SCRIPT@ + ("</script>"@ + "</div>"@)),
        quote_free("</script>"@ + "<script>"@),
        quote_free("</script>"@ + "</div>"@),
{
    lemma_lock_style_quote_free();
    lemma_lock_script_quote_free();
    reveal_strlit("<form class=\"typost-lock-form\">");
    reveal_strlit("<p class=\"typost-lock-hint\">");
    reveal_strlit("</p>");
    reveal_strlit("<input type=\"password\" class=\"typost-lock-password\" autocomplete=\"current-password\" placeholder=\"Password\" autofocus>");
    reveal_strlit("<button type=\"submit\">Unlock</button>");
    reveal_strlit("<p class=\"typost-lock-error\" role=\"alert\" hidden>Wrong password.</p>");
    reveal_strlit("</form>");
    reveal_strlit("<script type=\"application/json\" class=\"typost-lock-params\">");
    reveal_strlit("{\"salt\":\"");
    reveal_strlit("\",\"iv\":\"");
    reveal_strlit("\",\"iterations\":");
    reveal_strlit("}");
    reveal_strlit("</script>");
    reveal_strlit("<script type=\"text/plain\" class=\"typost-lock-cipher\">");
    reveal_strlit("<script>");
    reveal_strlit("</div>");
    let f1 = "</script>"@ + "<script>"@;
    let f3 = "</script>"@ + "</div>"@;
    let f = f1 + LOCK_SCRIPT@ + f3;
    assert forall|j: int| 0 <= j < f.len() implies #[trigger] f[j] != '"' by {
        if j < f1.len() {
            assert(f[j] == f1[j]);
        } else if j < f1.len() + LOCK_SCRIPT@.len() {
            assert(f[j] == LOCK_SCRIPT@[j - f1.len()]);
        } else {
            assert(f[j] == f3[j - f1.len() - LOCK_SCRIPT@.len()]);
        }
    }
}


/// Where a `"` follows a `k` three characters after a `-`, in a text laid
/// out as the lock markup is: only at the end of the lock's class.
proof fn lemma_marker_end(
    m: Seq<char>,
    a: Seq<char>,
    prompt: Seq<char>,
    b: Seq<char>,
    s64: Seq<char>,
    c: Seq<char>,
    n64: Seq<char>,
    d: Seq<char>,
    dec: Seq<char>,
    e: Seq<char>,
    c64: Seq<char>,
    f: Seq<char>,
    q: int,
)
    requires
        m == a + prompt + b + s64 + c + n64 + d + dec + e + c64 + f,
        forall|j: int| 1 <= j < a.len() && #[trigger] a[j] == '"' && a[j - 1] == 'k' ==> j == 23,
        quote_free(prompt),
        b.len() > 0 && b[0] != '"' && no_k_quote(b),
        quote_free(s64) && s64.len() >= 5 && forall|j: int| 0 <= j < s64.len() ==> #[trigger] s64[j] != '-',
        no_k_quote(c),
        quote_free(n64) && n64.len() >= 5 && forall|j: int| 0 <= j < n64.len() ==> #[trigger] n64[j] != '-',
        no_k_quote(d),
        quote_free(dec),
        e.len() > 0 && e[0] != '"' && no_k_quote(e),
        quote_free(c64),
        quote_free(f),
        5 <= q < m.len(),
        m[q] == '"',
        m[q - 1] == 'k',
        m[q - 5] == '-',
    ensures
        q == 23,
{
    let sp = a.len() as int;
    let sb = sp + prompt.len();
    let ss = sb + b.len();
    let sc = ss + s64.len();
    let sn = sc + c.len();
    let sd = sn + n64.len();
    let sdec = sd + d.len();
    let se = sdec + dec.len();
    let sc64 = se + e.len();
    let sf = sc64 + c64.len();
    if q < sp {
        assert(m[q] == a[q] && m[q - 1] == a[q - 1]);
    } else if q < sb {
        assert(m[q] == prompt[q - sp]);
    } else if q < ss {
        assert(m[q] == b[q - sb]);
        if q > sb {
            assert(m[q - 1] == b[q - 1 - sb]);
        }
    } else if q < sc {
        assert(m[q] == s64[q - ss]);
    } else if q < sn {
        assert(m[q] == c[q - sc]);
        if q > sc {
            assert(m[q - 1] == c[q - 1 - sc]);
        } else {
            assert(m[q - 5] == s64[q - 5 - ss]);
        }
    } else if q < sd {
        assert(m[q] == n64[q - sn]);
    } else if q < sdec {
        assert(m[q] == d[q - sd]);
        if q > sd {
            assert(m[q - 1] == d[q - 1 - sd]);
        } else {
            assert(m[q - 5] == n64[q - 5 - sn]);
        }
    } else if q < se {
        assert(m[q] == dec[q - sdec]);
    } else if q < sc64 {
        assert(m[q] == e[q - se]);
        if q > se {
            assert(m[q - 1] == e[q - 1 - se]);
        }
    } else if q < sf {
        assert(m[q] == c64[q - sc64]);
    } else {
        assert(m[q] == f[q - sf]);
    }
}

/// In the head of the lock markup, only the lock's class ends in `k"`.
proof fn lemma_lock_head()
    ensures
        ({
            let a = "<div class=\"typost-lock\">"@ + LOCK_STYLE@ + ("<form class=\"typost-lock-form\">"@
                + "<p class=\"typost-lock-hint\">"@);
            &&& forall|j: int| 1 <= j < a.len() && #[trigger] a[j] == '"' && a[j - 1] == 'k' ==> j == 23
            &&& a.len() >= 24
            &&& a.subrange(12, 24) == lock_marker()
        }),
{
    reveal_strlit("typost-lock\"");
    lemma_lock_pieces();
    reveal_strlit("<div class=\"typost-lock\">");
    let a1 = "<div class=\"typost-lock\">"@;
    let a3 = "<form class=\"typost-lock-form\">"@ + "<p class=\"typost-lock-hint\">"@;
    let a = a1 + LOCK_STYLE@ + a3;
    assert forall|j: int| 1 <= j < a.len() && #[trigger] a[j] == '"' && a[j - 1] == 'k' implies j == 23 by {
        let s3 = a1.len() + LOCK_STYLE@.len();
        if j < a1.len() {
            assert(a[j] == a1[j] && a[j - 1] == a1[j - 1]);
        } else if j < s3 {
            assert(a[j] == LOCK_STYLE@[j - a1.len()]);
        } else {
            assert(a[j] == a3[j - s3]);
            if j > s3 {
                assert(a[j - 1] == a3[j - 1 - s3]);
            }
        }
    }
    assert(a.subrange(12, 24) =~= lock_marker()) by {
        assert forall|k: int| 0 <= k < 12 implies a.subrange(12, 24)[k] == #[trigger] lock_marker()[k] by {
            assert(a[12 + k] == a1[12 + k]);
        }
    }
}

/// The pieces of the lock markup: its fixed head, the prompt, the fixed
/// text up to the salt, the parameters, the ciphertext, and the fixed tail.
pub open spec fn lock_layout(l: Locked, prompt: Seq<char>) -> Seq<Seq<char>> {
    seq![
        "<div class=\"typost-lock\">"@ + LOCK_STYLE@ + ("<form class=\"typost-lock-form\">"@ + "<p class=\"typost-lock-hint\">"@),
        prompt,
        "</p>"@ + "<input type=\"password\" class=\"typost-lock-password\" autocomplete=\"current-password\" placeholder=\"Password\" autofocus>"@
        + "<button type=\"submit\">Unlock</button>"@
        + "<p class=\"typost-lock-error\" role=\"alert\" hidden>Wrong password.</p>"@ + "</form>"@
        + "<script type=\"application/json\" class=\"typost-lock-params\">"@ + "{\"salt\":\""@,
        base64_standard(l.salt@),
        "\",\"iv\":\""@,
        base64_standard(l.nonce@),
        "\",\"iterations\":"@,
        decimal(l.iterations as nat),
        "}"@ + "</script>"@ + "<script type=\"text/plain\" class=\"typost-lock-cipher\">"@,
        base64_standard(l.ciphertext@),
        ("</script>"@ + "<script>"@) + LOCK_SCRIPT@ + ("</script>"@ + "</div>"@),
    ]
}

#[verifier::spinoff_prover]
#[verifier::rlimit(100)]
proof fn lemma_lock_layout(l: Locked, prompt: Seq<char>)
    ensures
        ({
            let p = lock_layout(l, prompt);
            lock_markup_with(l, prompt) == p[0] + p[1] + p[2] + p[3] + p[4] + p[5] + p[6] + p[7] + p[8] + p[9]
                + p[10]
        }),
{
    let p = lock_layout(l, prompt);
    assert(lock_markup_with(l, prompt) =~= p[0] + p[1] + p[2] + p[3] + p[4] + p[5] + p[6] + p[7] + p[8] + p[9]
        + p[10]);
}

/// The lock markup carries the lock marker once, in its opening tag, when
/// its prompt holds no `"` (a text hint's prompt is escaped and never does).
#[verifier::spinoff_prover]
#[verifier::rlimit(100)]
pub proof fn lemma_lock_markup_marked_once(l: Locked, prompt: Seq<char>)
    requires
        quote_free(prompt),
    ensures
        occurs_at(lock_markup_with(l, prompt), lock_marker(), 12),
        forall|i: int| #[trigger] occurs_at(lock_markup_with(l, prompt), lock_marker(), i) ==> i == 12,
{
    let m = lock_markup_with(l, prompt);
    let p = lock_layout(l, prompt);
    lemma_lock_layout(l, prompt);
    lemma_lock_pieces();
    lemma_lock_head();
    lemma_base64_chars(l.salt@);
    lemma_base64_chars(l.nonce@);
    lemma_base64_chars(l.ciphertext@);
    lemma_decimal_quote_free(l.iterations as nat);
    assert(m.subrange(12, 24) =~= p[0].subrange(12, 24));
    reveal_strlit("typost-lock\"");
    assert forall|i: int| #[trigger] occurs_at(m, lock_marker(), i) implies i == 12 by {
        let q = i + 11;
        assert(m[q] == m.subrange(i, i + 12)[11]);
        assert(m[q - 1] == m.subrange(i, i + 12)[10]);
        assert(m[q - 5] == m.subrange(i, i + 12)[6]);
        lemma_marker_end(m, p[0], p[1], p[2], p[3], p[4], p[5], p[6], p[7], p[8], p[9], p[10], q);
    }
}

/// Two payloads drawn with the same salt and nonce at the same round count
/// lock to markup that differs in nothing but the ciphertext; and with the
/// same password and plaintext, not even in that.
pub proof fn lemma_same_draw_differs_only_in_ciphertext(l1: Locked, l2: Locked, prompt: Seq<char>)
    requires
        l1.salt == l2.salt,
        l1.nonce == l2.nonce,
        l1.iterations == l2.iterations,
    ensures
        ({
            let p = lock_layout(l1, prompt);
            let head = p[0] + p[1] + p[2] + p[3] + p[4] + p[5] + p[6] + p[7] + p[8];
            &&& lock_markup_with(l1, prompt) == head + base64_standard(l1.ciphertext@) + p[10]
            &&& lock_markup_with(l2, prompt) == head + base64_standard(l2.ciphertext@) + p[10]
        }),
        forall|password: Seq<char>, plaintext: Seq<u8>|
            #[trigger] seals(password, plaintext, l1) && #[trigger] seals(password, plaintext, l2) ==> lock_markup_with(
                l1,
                prompt,
            ) == lock_markup_with(l2, prompt),
{
    lemma_lock_layout(l1, prompt);
    lemma_lock_layout(l2, prompt);
    assert(lock_layout(l1, prompt).subrange(0, 9) =~= lock_layout(l2, prompt).subrange(0, 9)) by {
        assert(l1.salt@ == l2.salt@);
        assert(l1.nonce@ == l2.nonce@);
    }
    assert(lock_layout(l1, prompt)[10] == lock_layout(l2, prompt)[10]);
    let p = lock_layout(l1, prompt);
    let q = lock_layout(l2, prompt);
    assert(forall|k: int| 0 <= k < 9 ==> p[k] == #[trigger] q[k]) by {
        assert forall|k: int| 0 <= k < 9 implies p[k] == #[trigger] q[k] by {
            assert(p[k] == p.subrange(0, 9)[k]);
            assert(q[k] == q.subrange(0, 9)[k]);
        }
    }
    assert(p[0] == q[0] && p[1] == q[1] && p[2] == q[2] && p[3] == q[3] && p[4] == q[4]);
    assert(p[5] == q[5] && p[6] == q[6] && p[7] == q[7] && p[8] == q[8]);
}

/// The lock markup that replaces a region's plaintext, prompting with the
/// text hint (or the default prompt).
pub open spec fn lock_markup(l: Locked, hint: Option<Seq<char>>) -> Seq<char> {
    lock_markup_with(l, prompt_of(hint))
}

/// The lock markup with `prompt` (markup) shown above the password field.
fn lock_html_with(locked: &Locked, prompt: &[char]) -> (r: Vec<char>)
    requires
        locked.ciphertext@.len() <= usize::MAX / 2,
    ensures
        r@ == lock_markup_with(*locked, prompt@),
{
    let salt = base64_encode(&locked.salt);
    let iv = base64_encode(&locked.nonce);
    let cipher = base64_encode(locked.ciphertext.as_slice());
    let mut params: Vec<char> = Vec::new();
    append_str(&mut params, "{\"salt\":\"");
    append_str(&mut params, salt.as_str());
    append_str(&mut params, "\",\"iv\":\"");
    append_str(&mut params, iv.as_str());
    append_str(&mut params, "\",\"iterations\":");
    push_decimal(&mut params, locked.iterations as usize);
    append_str(&mut params, "}");
    assert(params@ =~= lock_params(*locked));
    let mut html: Vec<char> = Vec::new();
    append_str(&mut html, "<div class=\"typost-lock\">");
    append_str(&mut html, LOCK_STYLE);
    append_str(&mut html, "<form class=\"typost-lock-form\">");
    append_str(&mut html, "<p class=\"typost-lock-hint\">");
    append_chars(&mut html, prompt);
    append_str(&mut html, "</p>");
    append_str(&mut html, "<input type=\"password\" class=\"typost-lock-password\" autocomplete=\"current-password\" placeholder=\"Password\" autofocus>");
    append_str(&mut html, "<button type=\"submit\">Unlock</button>");
    append_str(&mut html, "<p class=\"typost-lock-error\" role=\"alert\" hidden>Wrong password.</p>");
    append_str(&mut html, "</form>");
    append_str(&mut html, "<script type=\"application/json\" class=\"typost-lock-params\">");
    append_chars(&mut html, &params);
    append_str(&mut html, "</script>");
    append_str(&mut html, "<script type=\"text/plain\" class=\"typost-lock-cipher\">");
    append_str(&mut html, cipher.as_str());
    append_str(&mut html, "</script>");
    append_str(&mut html, "<script>");
    append_str(&mut html, LOCK_SCRIPT);
    append_str(&mut html, "</script>");
    append_str(&mut html, "</div>");
    assert(html@ =~= lock_markup_with(*locked, prompt@));
    html
}

/// The prompt markup for a text hint.
fn prompt_chars(hint: Option<&str>) -> (r: Vec<char>)
    ensures
        r@ == prompt_of(match hint {
            Some(h) => Some(h@),
            None => None,
        }),
{
    let text = match hint {
        Some(h) => chars_of(h),
        None => chars_of(DEFAULT_HINT),
    };
    let mut r: Vec<char> = Vec::new();
    push_html_escaped(&mut r, &text);
    assert(r@ =~= prompt_of(match hint {
        Some(h) => Some(h@),
        None => None,
    }));
    r
}

/// Build the lock markup that replaces the plaintext content.
pub fn lock_html(locked: &Locked, hint: Option<&str>) -> (r: String)
    requires
        locked.ciphertext@.len() <= usize::MAX / 2,
    ensures
        r@ == lock_markup(*locked, match hint {
            Some(h) => Some(h@),
            None => None,
        }),
{
    let prompt = prompt_chars(hint);
    string_of(&lock_html_with(locked, &prompt))
}

// ---------------------------------------------------------------------------
// Finding and replacing the encrypted regions of a page.
// ---------------------------------------------------------------------------

/// The opening tag of an encrypted region.
pub open spec fn encrypted_open() -> Seq<char> {
    "<div class=\"typost-encrypted\">"@
}

/// Scanning from `pos` with `depth` divisions open, the index just past the
/// `</div>` that closes the outermost one.
pub open spec fn div_close_from(h: Seq<char>, pos: int, depth: nat) -> Option<int>
    decreases h.len() - pos,
{
    if pos < 0 || pos >= h.len() {
        None
    } else if occurs_at(h, "<div"@, pos) {
        proof {
            reveal_strlit("<div");
        }
        div_close_from(h, pos + 4, depth + 1)
    } else if occurs_at(h, "</div>"@, pos) {
        proof {
            reveal_strlit("</div>");
        }
        if depth <= 1 {
            Some(pos + 6)
        } else {
            div_close_from(h, pos + 6, (depth - 1) as nat)
        }
    } else {
        div_close_from(h, pos + 1, depth)
    }
}

pub proof fn lemma_div_close_bounds(h: Seq<char>, pos: int, depth: nat)
    ensures
        div_close_from(h, pos, depth) matches Some(e) ==> 0 <= pos && pos + 6 <= e <= h.len(),
    decreases h.len() - pos,
{
    reveal_strlit("<div");
    reveal_strlit("</div>");
    if 0 <= pos < h.len() {
        if occurs_at(h, "<div"@, pos) {
            lemma_div_close_bounds(h, pos + 4, depth + 1);
        } else if occurs_at(h, "</div>"@, pos) {
            if depth > 1 {
                lemma_div_close_bounds(h, pos + 6, (depth - 1) as nat);
            }
        } else {
            lemma_div_close_bounds(h, pos + 1, depth);
        }
    }
}

/// Characters other than `<` open and close nothing.
proof fn lemma_div_close_skip(h: Seq<char>, pos: int, bound: int, depth: nat)
    requires
        0 <= pos <= bound <= h.len(),
        forall|q: int| pos <= q < bound ==> h[q] != '<',
    ensures
        div_close_from(h, pos, depth) == div_close_from(h, bound, depth),
    decreases bound - pos,
{
    reveal_strlit("<div");
    reveal_strlit("</div>");
    if pos < bound {
        assert(!occurs_at(h, "<div"@, pos)) by {
            if occurs_at(h, "<div"@, pos) {
                assert(h.subrange(pos, pos + 4)[0] == h[pos]);
            }
        }
        assert(!occurs_at(h, "</div>"@, pos)) by {
            if occurs_at(h, "</div>"@, pos) {
                assert(h.subrange(pos, pos + 6)[0] == h[pos]);
            }
        }
        lemma_div_close_skip(h, pos + 1, bound, depth);
    }
}

/// The region opened at `start` closes after its opening tag.
proof fn lemma_region_after_open(h: Seq<char>, start: int)
    requires
        occurs_at(h, encrypted_open(), start),
    ensures
        div_close_from(h, start, 0) matches Some(e) ==> start + encrypted_open().len() + 6 <= e <= h.len(),
{
    reveal_strlit("<div class=\"typost-encrypted\">");
    reveal_strlit("<div");
    let open = encrypted_open();
    assert(open.len() == 30);
    assert forall|i: int| 0 <= i < 30 implies h[start + i] == open[i] by {
        assert(h.subrange(start, start + 30)[i] == h[start + i]);
    }
    assert(h.subrange(start, start + 4) =~= "<div"@);
    assert(occurs_at(h, "<div"@, start));
    assert forall|q: int| start + 4 <= q < start + 30 implies h[q] != '<' by {
        assert(h[q] == open[q - start]);
    }
    lemma_div_close_skip(h, start + 4, start + 30, 1);
    lemma_div_close_bounds(h, start + 30, 1);
    lemma_div_close_bounds(h, start, 0);
}

/// Find the index just past the `</div>` matching the `<div` at `start`.
fn find_matching_div_close(html: &[char], start: usize) -> (r: Option<usize>)
    ensures
        r matches Some(e) ==> div_close_from(html@, start as int, 0) == Some(e as int),
        r is None ==> div_close_from(html@, start as int, 0) is None,
{
    let open = chars_of("<div");
    let close = chars_of("</div>");
    let n = html.len();
    let mut depth: usize = 0;
    let mut pos = start;
    proof {
        reveal_strlit("<div");
        reveal_strlit("</div>");
    }
    while pos < n
        invariant
            n == html@.len(),
            open@ == "<div"@,
            close@ == "</div>"@,
            "<div"@.len() == 4,
            "</div>"@.len() == 6,
            start <= pos,
            depth <= pos,
            div_close_from(html@, start as int, 0) == div_close_from(html@, pos as int, depth as nat),
        decreases n - pos,
    {
        if matches_at(html, &open, pos) {
            depth = depth + 1;
            pos = pos + 4;
        } else if matches_at(html, &close, pos) {
            if depth <= 1 {
                return Some(pos + 6);
            }
            depth = depth - 1;
            pos = pos + 6;
        } else {
            pos = pos + 1;
        }
    }
    None
}

/// The next region at or after `cursor`: `None` when no region opens,
/// `Some(None)` when it never closes, otherwise its inner span.
pub open spec fn next_region(h: Seq<char>, cursor: int) -> Option<Option<(int, int)>> {
    match find_from(h, encrypted_open(), cursor) {
        None => None,
        Some(start) => match div_close_from(h, start, 0) {
            None => Some(None),
            Some(end) => Some(Some((start + encrypted_open().len(), end - 6))),
        },
    }
}

/// The inner spans of up to `n` successive regions from `cursor`, stopping
/// at the first that is missing or unterminated.
pub open spec fn region_spans(h: Seq<char>, cursor: int, n: nat) -> Seq<(int, int)>
    decreases n,
{
    if n == 0 {
        Seq::empty()
    } else {
        match next_region(h, cursor) {
            Some(Some((s, e))) => seq![(s, e)] + region_spans(h, e, (n - 1) as nat),
            _ => Seq::empty(),
        }
    }
}

/// Where scanning resumes after `k` spans.
pub open spec fn span_cursor(spans: Seq<(int, int)>, k: int) -> int {
    if k <= 0 {
        0
    } else {
        spans[k - 1].1
    }
}

/// Why the regions of a page do not pair with `n` passwords, if they do not.
pub open spec fn region_failure(h: Seq<char>, n: nat) -> Option<EncryptError> {
    let spans = region_spans(h, 0, n);
    let c = span_cursor(spans, spans.len() as int);
    if spans.len() < n {
        match next_region(h, c) {
            None => Some(EncryptError::MissingRegions { expected: n as usize, found: spans.len() as usize }),
            _ => Some(EncryptError::Unterminated),
        }
    } else if find_from(h, encrypted_open(), c) is Some {
        Some(EncryptError::ExtraRegions)
    } else {
        None
    }
}

/// The opening tag of a content hint.
pub open spec fn hint_open() -> Seq<char> {
    "<template class=\"typost-hint\">"@
}

/// The closing tag of a content hint.
pub open spec fn hint_close() -> Seq<char> {
    "</template>"@
}

/// The content hint in `h[from..to]`: the first hint template that opens
/// there and closes before `to`, as the indices of its opening and of its
/// closing tag.
pub open spec fn hint_template(h: Seq<char>, from: int, to: int) -> Option<(int, int)> {
    match find_from(h, hint_open(), from) {
        Some(t) => if t + hint_open().len() <= to {
            match find_from(h, hint_close(), t + hint_open().len()) {
                Some(c) => if c + hint_close().len() <= to {
                    Some((t, c))
                } else {
                    None
                },
                None => None,
            }
        } else {
            None
        },
        None => None,
    }
}

/// `h[from..to]` with its content hint, if any, taken out.
pub open spec fn gap_out(h: Seq<char>, from: int, to: int) -> Seq<char> {
    match hint_template(h, from, to) {
        Some((t, c)) => h.subrange(from, t) + h.subrange(c + hint_close().len(), to),
        None => h.subrange(from, to),
    }
}

/// The prompt markup of a region whose gap is `h[from..to]`: the content of
/// its content hint, else its text hint (or the default prompt), escaped.
pub open spec fn region_prompt(h: Seq<char>, from: int, to: int, hint: Option<Seq<char>>) -> Seq<char> {
    match hint_template(h, from, to) {
        Some((t, c)) => h.subrange(t + hint_open().len(), c),
        None => prompt_of(hint),
    }
}

pub proof fn lemma_hint_template_bounds(h: Seq<char>, from: int, to: int)
    requires
        0 <= from,
        to <= h.len(),
    ensures
        hint_template(h, from, to) matches Some((t, c)) ==> from <= t && t + hint_open().len() <= c
            && c + hint_close().len() <= to,
{
    lemma_find_from_nonneg(h, hint_open(), from);
    if let Some(t) = find_from(h, hint_open(), from) {
        lemma_find_from_nonneg(h, hint_close(), t + hint_open().len());
    }
}

/// The page with the first `k` regions' contents replaced by `marks`, and
/// the content hints before them taken out.
pub open spec fn assemble_upto(h: Seq<char>, spans: Seq<(int, int)>, marks: Seq<Seq<char>>, k: int) -> Seq<char>
    decreases k,
{
    if k <= 0 {
        Seq::empty()
    } else {
        assemble_upto(h, spans, marks, k - 1) + gap_out(h, span_cursor(spans, k - 1), spans[k - 1].0)
            + marks[k - 1]
    }
}

/// The page with every region's contents replaced by its lock markup.
pub open spec fn assemble(h: Seq<char>, spans: Seq<(int, int)>, marks: Seq<Seq<char>>) -> Seq<char> {
    assemble_upto(h, spans, marks, spans.len() as int) + h.subrange(
        span_cursor(spans, spans.len() as int),
        h.len() as int,
    )
}

/// One region's password and text hint.
pub open spec fn lock_spec(l: RegionLock) -> (Seq<char>, Option<Seq<char>>) {
    (l.password@, match l.hint {
        Some(h) => Some(h@),
        None => None,
    })
}

/// The plaintext bytes of the `k`-th region.
pub open spec fn region_plaintext(h: Seq<char>, spans: Seq<(int, int)>, k: int) -> Seq<u8> {
    encode_utf8(h.subrange(spans[k].0, spans[k].1))
}

/// Each payload seals its region under its password.
pub open spec fn regions_locked(
    h: Seq<char>,
    spans: Seq<(int, int)>,
    specs: Seq<(Seq<char>, Option<Seq<char>>)>,
    iterations: u32,
    payloads: Seq<Locked>,
) -> bool {
    &&& payloads.len() == spans.len()
    &&& forall|k: int|
        0 <= k < spans.len() ==> (#[trigger] payloads[k]).iterations == iterations && seals(
            specs[k].0,
            region_plaintext(h, spans, k),
            payloads[k],
        )
}

/// The prompts of the regions: each region's content hint, or its text hint.
pub open spec fn region_prompts(
    h: Seq<char>,
    spans: Seq<(int, int)>,
    specs: Seq<(Seq<char>, Option<Seq<char>>)>,
) -> Seq<Seq<char>> {
    Seq::new(spans.len(), |k: int| region_prompt(h, span_cursor(spans, k), spans[k].0, specs[k].1))
}

/// The lock markups of the payloads, with their prompts.
pub open spec fn lock_markups(payloads: Seq<Locked>, prompts: Seq<Seq<char>>) -> Seq<Seq<char>> {
    Seq::new(payloads.len(), |k: int| lock_markup_with(payloads[k], prompts[k]))
}

/// A plaintext too long to seal, or whose ciphertext is too long to encode.
pub open spec fn too_long_text(p: Seq<u8>) -> bool {
    p.len() > AES_GCM_P_MAX || p.len() + 16 > usize::MAX / 2
}

/// Some region is too long to lock.
pub open spec fn some_region_too_long(h: Seq<char>, spans: Seq<(int, int)>) -> bool {
    exists|k: int| 0 <= k < spans.len() && #[trigger] too_long_text(region_plaintext(h, spans, k))
}

/// Why the regions of a page cannot be locked with `n` passwords, if they
/// cannot; all of it is known before anything is encrypted.
pub open spec fn region_fault(h: Seq<char>, n: nat) -> Option<EncryptError> {
    match region_failure(h, n) {
        Some(f) => Some(f),
        None => if some_region_too_long(h, region_spans(h, 0, n)) {
            Some(EncryptError::Cipher)
        } else {
            None
        },
    }
}

/// `after` is `h` with its regions locked under `specs`: each region's
/// contents are sealed under its password and replaced by its lock markup,
/// the content hint before it, if any, moves into the lock, and the rest of
/// the page is kept as it is.
pub open spec fn page_regions_locked(
    h: Seq<char>,
    specs: Seq<(Seq<char>, Option<Seq<char>>)>,
    iterations: u32,
    after: Seq<char>,
) -> bool {
    let spans = region_spans(h, 0, specs.len());
    &&& region_fault(h, specs.len()) is None
    &&& exists|payloads: Seq<Locked>|
        regions_locked(h, spans, specs, iterations, payloads) && after == assemble(
            h,
            spans,
            lock_markups(payloads, region_prompts(h, spans, specs)),
        )
}

/// The payloads were sealed with the drawn salts and nonces, in order.
pub open spec fn drawn_with(payloads: Seq<Locked>, draws: Seq<([u8; 16], [u8; 12])>) -> bool {
    &&& payloads.len() == draws.len()
    &&& forall|k: int| 0 <= k < draws.len() ==> (#[trigger] payloads[k]).salt == draws[k].0 && payloads[k].nonce == draws[k].1
}

/// `after` is `h` with its regions locked under `specs`, the `k`-th sealed
/// with the `k`-th drawn salt and nonce.
pub open spec fn page_regions_locked_with(
    h: Seq<char>,
    specs: Seq<(Seq<char>, Option<Seq<char>>)>,
    iterations: u32,
    draws: Seq<([u8; 16], [u8; 12])>,
    after: Seq<char>,
) -> bool {
    let spans = region_spans(h, 0, specs.len());
    &&& region_fault(h, specs.len()) is None
    &&& exists|payloads: Seq<Locked>|
        regions_locked(h, spans, specs, iterations, payloads) && drawn_with(payloads, draws) && after == assemble(
            h,
            spans,
            lock_markups(payloads, region_prompts(h, spans, specs)),
        )
}

proof fn lemma_locked_with_is_locked(
    h: Seq<char>,
    specs: Seq<(Seq<char>, Option<Seq<char>>)>,
    iterations: u32,
    draws: Seq<([u8; 16], [u8; 12])>,
    after: Seq<char>,
)
    requires
        page_regions_locked_with(h, specs, iterations, draws, after),
    ensures
        page_regions_locked(h, specs, iterations, after),
{
    let spans = region_spans(h, 0, specs.len());
    let payloads = choose|payloads: Seq<Locked>|
        regions_locked(h, spans, specs, iterations, payloads) && drawn_with(payloads, draws) && after == assemble(
            h,
            spans,
            lock_markups(payloads, region_prompts(h, spans, specs)),
        );
    assert(regions_locked(h, spans, specs, iterations, payloads));
}

/// `a1` and `a2` are the page `h` with its regions locked as `specs` place
/// them, by the payloads `p1` and `p2`, whose lock markups agree outside
/// their ciphertexts.
pub open spec fn locked_apart_only_in_ciphertexts(
    h: Seq<char>,
    specs: Seq<(Seq<char>, Option<Seq<char>>)>,
    p1: Seq<Locked>,
    p2: Seq<Locked>,
    a1: Seq<char>,
    a2: Seq<char>,
) -> bool {
    let spans = region_spans(h, 0, specs.len());
    let prompts = region_prompts(h, spans, specs);
    &&& p1.len() == spans.len()
    &&& p2.len() == spans.len()
    &&& assemble(h, spans, lock_markups(p1, prompts)) == a1
    &&& assemble(h, spans, lock_markups(p2, prompts)) == a2
    &&& forall|k: int|
        0 <= k < spans.len() ==> {
            let l = lock_layout(p1[k], prompts[k]);
            let head = l[0] + l[1] + l[2] + l[3] + l[4] + l[5] + l[6] + l[7] + l[8];
            &&& #[trigger] lock_markups(p1, prompts)[k] == head + base64_standard(p1[k].ciphertext@) + l[10]
            &&& lock_markups(p2, prompts)[k] == head + base64_standard(p2[k].ciphertext@) + l[10]
        }
}

/// Locking a page's regions with the same drawn salts and nonces, under
/// other passwords with the same hints, changes nothing but the
/// ciphertexts: both results assemble the page around lock markups that
/// agree outside their ciphertexts, and no password is written out. Under
/// the same passwords the results are the same.
#[verifier::spinoff_prover]
#[verifier::rlimit(60)]
pub proof fn lemma_same_draws_change_only_ciphertexts(
    h: Seq<char>,
    specs1: Seq<(Seq<char>, Option<Seq<char>>)>,
    specs2: Seq<(Seq<char>, Option<Seq<char>>)>,
    iterations: u32,
    draws: Seq<([u8; 16], [u8; 12])>,
    a1: Seq<char>,
    a2: Seq<char>,
)
    requires
        specs1.len() == specs2.len(),
        forall|k: int| 0 <= k < specs1.len() ==> (#[trigger] specs1[k]).1 == specs2[k].1,
        page_regions_locked_with(h, specs1, iterations, draws, a1),
        page_regions_locked_with(h, specs2, iterations, draws, a2),
    ensures
        specs1 == specs2 ==> a1 == a2,
        exists|p1: Seq<Locked>, p2: Seq<Locked>| #[trigger] locked_apart_only_in_ciphertexts(h, specs1, p1, p2, a1, a2),
{
    let spans = region_spans(h, 0, specs1.len());
    assert(spans == region_spans(h, 0, specs2.len()));
    let prompts = region_prompts(h, spans, specs1);
    lemma_region_spans_bounds(h, 0, specs1.len());
    assert(region_prompts(h, spans, specs2) =~= prompts) by {
        assert forall|k: int| 0 <= k < spans.len() implies #[trigger] region_prompts(h, spans, specs2)[k]
            == prompts[k] by {
            assert(specs1[k].1 == specs2[k].1);
        }
    }
    let p1 = choose|payloads: Seq<Locked>|
        regions_locked(h, spans, specs1, iterations, payloads) && drawn_with(payloads, draws) && a1 == assemble(
            h,
            spans,
            lock_markups(payloads, region_prompts(h, spans, specs1)),
        );
    let p2 = choose|payloads: Seq<Locked>|
        regions_locked(h, spans, specs2, iterations, payloads) && drawn_with(payloads, draws) && a2 == assemble(
            h,
            spans,
            lock_markups(payloads, region_prompts(h, spans, specs2)),
        );
    assert forall|k: int| 0 <= k < spans.len() implies {
        let l = lock_layout(p1[k], prompts[k]);
        let head = l[0] + l[1] + l[2] + l[3] + l[4] + l[5] + l[6] + l[7] + l[8];
        &&& #[trigger] lock_markups(p1, prompts)[k] == head + base64_standard(p1[k].ciphertext@) + l[10]
        &&& lock_markups(p2, prompts)[k] == head + base64_standard(p2[k].ciphertext@) + l[10]
    } by {
        assert(p1[k].salt == draws[k].0 && p2[k].salt == draws[k].0);
        assert(p1[k].nonce == draws[k].1 && p2[k].nonce == draws[k].1);
        assert(p1[k].iterations == iterations && p2[k].iterations == iterations);
        lemma_same_draw_differs_only_in_ciphertext(p1[k], p2[k], prompts[k]);
    }
    if specs1 == specs2 {
        assert forall|k: int| 0 <= k < spans.len() implies lock_markups(p1, prompts)[k] == #[trigger] lock_markups(
            p2,
            prompts,
        )[k] by {
            assert(p1[k].salt == draws[k].0 && p2[k].salt == draws[k].0);
            assert(p1[k].nonce == draws[k].1 && p2[k].nonce == draws[k].1);
            assert(p1[k].iterations == iterations && p2[k].iterations == iterations);
            lemma_same_draw_differs_only_in_ciphertext(p1[k], p2[k], prompts[k]);
            assert(seals(specs1[k].0, region_plaintext(h, spans, k), p1[k]));
            assert(seals(specs1[k].0, region_plaintext(h, spans, k), p2[k]));
        }
        assert(lock_markups(p1, prompts) =~= lock_markups(p2, prompts));
    }
    assert(assemble(h, spans, lock_markups(p1, prompts)) == a1);
    assert(assemble(h, spans, lock_markups(p2, prompts)) == a2);
    assert(locked_apart_only_in_ciphertexts(h, specs1, p1, p2, a1, a2));
}

/// The passwords and text hints of `locks`, in order.
pub open spec fn lock_specs(locks: Seq<RegionLock>) -> Seq<(Seq<char>, Option<Seq<char>>)> {
    Seq::new(locks.len(), |k: int| lock_spec(locks[k]))
}

/// Assembling the first `k` regions reads only the first `k` spans and
/// markups.
proof fn lemma_assemble_upto_agree(
    h: Seq<char>,
    s1: Seq<(int, int)>,
    m1: Seq<Seq<char>>,
    s2: Seq<(int, int)>,
    m2: Seq<Seq<char>>,
    k: int,
)
    requires
        0 <= k <= s1.len(),
        k <= s2.len(),
        k <= m1.len(),
        k <= m2.len(),
        forall|i: int| 0 <= i < k ==> s1[i] == s2[i] && m1[i] == m2[i],
    ensures
        assemble_upto(h, s1, m1, k) == assemble_upto(h, s2, m2, k),
    decreases k,
{
    if k > 0 {
        lemma_assemble_upto_agree(h, s1, m1, s2, m2, k - 1);
    }
}

/// The optional pair as integers.
pub open spec fn pair_view(p: Option<(usize, usize)>) -> Option<(int, int)> {
    match p {
        Some((a, b)) => Some((a as int, b as int)),
        None => None,
    }
}

/// The regions of a page, found before anything is encrypted: each
/// region's inner span with the content hint before it, and its plaintext.
struct RegionPlan {
    spans: Vec<(usize, usize, Option<(usize, usize)>)>,
    texts: Vec<Vec<u8>>,
}

/// The inner spans of a plan.
spec fn plan_spans(plan: RegionPlan) -> Seq<(int, int)> {
    plan.spans@.map_values(|e: (usize, usize, Option<(usize, usize)>)| (e.0 as int, e.1 as int))
}

/// `plan` describes the first `n` regions of `h`.
spec fn plan_fits(h: Seq<char>, n: nat, plan: RegionPlan) -> bool {
    let spans = region_spans(h, 0, n);
    &&& plan_spans(plan) == spans
    &&& plan.texts@.len() == spans.len()
    &&& forall|k: int|
        0 <= k < spans.len() ==> pair_view((#[trigger] plan.spans@[k]).2) == hint_template(
            h,
            span_cursor(spans, k),
            spans[k].0,
        )
    &&& forall|k: int| 0 <= k < spans.len() ==> (#[trigger] plan.texts@[k])@ == region_plaintext(h, spans, k)
}

/// The content hint in `h[from..to]`.
fn find_hint_template(h: &[char], from: usize, to: usize) -> (r: Option<(usize, usize)>)
    requires
        from <= to <= h@.len(),
    ensures
        pair_view(r) == hint_template(h@, from as int, to as int),
{
    let open = chars_of("<template class=\"typost-hint\">");
    let close = chars_of("</template>");
    proof {
        reveal_strlit("<template class=\"typost-hint\">");
        reveal_strlit("</template>");
        lemma_find_from_nonneg(h@, hint_open(), from as int);
    }
    let t = match find(h, &open, from) {
        Some(t) => t,
        None => return None,
    };
    if t > to || 30 > to - t {
        return None;
    }
    proof {
        lemma_find_from_nonneg(h@, hint_close(), t + 30);
    }
    let c = match find(h, &close, t + 30) {
        Some(c) => c,
        None => return None,
    };
    if c > to || 11 > to - c {
        return None;
    }
    Some((t, c))
}

/// Find the regions of a page for `n` passwords, or why they cannot be
/// locked. Nothing is encrypted.
fn scan_regions(html: &[char], n: usize) -> (r: Result<RegionPlan, EncryptError>)
    ensures
        region_fault(html@, n as nat) matches Some(f) ==> r == Err::<RegionPlan, EncryptError>(f),
        region_fault(html@, n as nat) is None ==> (r matches Ok(plan) && plan_fits(html@, n as nat, plan)),
{
    let open = chars_of("<div class=\"typost-encrypted\">");
    let ghost h = html@;
    let ghost mut done: Seq<(int, int)> = Seq::empty();
    let mut spans: Vec<(usize, usize, Option<(usize, usize)>)> = Vec::new();
    let mut texts: Vec<Vec<u8>> = Vec::new();
    let mut too_long = false;
    let mut cursor: usize = 0;
    let mut index: usize = 0;
    proof {
        reveal_strlit("<div class=\"typost-encrypted\">");
        assert(region_spans(h, 0, n as nat) =~= done + region_spans(h, 0, n as nat));
    }
    while index < n
        invariant
            h == html@,
            open@ == encrypted_open(),
            encrypted_open().len() == 30,
            index <= n,
            done.len() == index,
            cursor == span_cursor(done, index as int),
            cursor <= h.len(),
            region_spans(h, 0, n as nat) == done + region_spans(h, cursor as int, (n - index) as nat),
            forall|k: int| 0 <= k < index ==> 0 <= span_cursor(done, k) <= (#[trigger] done[k]).0 <= done[k].1 <= h.len(),
            spans@.map_values(|e: (usize, usize, Option<(usize, usize)>)| (e.0 as int, e.1 as int)) == done,
            texts@.len() == index,
            forall|k: int|
                0 <= k < index ==> pair_view((#[trigger] spans@[k]).2) == hint_template(
                    h,
                    span_cursor(done, k),
                    done[k].0,
                ),
            forall|k: int| 0 <= k < index ==> (#[trigger] texts@[k])@ == region_plaintext(h, done, k),
            too_long == some_region_too_long(h, done),
        decreases n - index,
    {
        proof {
            lemma_find_from_nonneg(h, encrypted_open(), cursor as int);
        }
        let start = match find(html, &open, cursor) {
            Some(start) => start,
            None => {
                proof {
                    assert(region_spans(h, cursor as int, (n - index) as nat) =~= Seq::empty());
                    assert(region_spans(h, 0, n as nat) =~= done);
                }
                return Err(EncryptError::MissingRegions { expected: n, found: index });
            },
        };
        let end = match find_matching_div_close(html, start) {
            Some(end) => end,
            None => {
                proof {
                    assert(region_spans(h, cursor as int, (n - index) as nat) =~= Seq::empty());
                    assert(region_spans(h, 0, n as nat) =~= done);
                }
                return Err(EncryptError::Unterminated);
            },
        };
        proof {
            lemma_region_after_open(h, start as int);
        }
        let inner_start = start + 30;
        let inner_end = end - 6;
        let ghost span = (inner_start as int, inner_end as int);
        let ghost rest = region_spans(h, inner_end as int, (n - index - 1) as nat);
        proof {
            assert(next_region(h, cursor as int) == Some(Some(span)));
            assert(region_spans(h, cursor as int, (n - index) as nat) == seq![span] + rest);
            assert(region_spans(h, 0, n as nat) =~= done.push(span) + rest);
        }
        let template = find_hint_template(html, cursor, inner_start);
        let mut region: Vec<char> = Vec::new();
        append_range(&mut region, html, inner_start, inner_end);
        let plaintext = encode_utf8_chars(&region);
        let long = plaintext.len() > usize::MAX / 2 - 16 || plaintext.len() as u64 > AES_GCM_P_MAX;
        let ghost old_spans = spans@;
        let ghost old_texts = texts@;
        spans.push((inner_start, inner_end, template));
        texts.push(plaintext);
        proof {
            let new_done = done.push(span);
            assert(region_plaintext(h, new_done, index as int) == texts@[index as int]@);
            assert(long == too_long_text(region_plaintext(h, new_done, index as int)));
            assert forall|k: int| 0 <= k < index implies region_plaintext(h, new_done, k) == region_plaintext(h, done, k) && span_cursor(new_done, k) == span_cursor(done, k) by {
                assert(new_done[k] == done[k]);
                if k > 0 {
                    assert(new_done[k - 1] == done[k - 1]);
                }
            }
            if too_long {
                let k = choose|k: int| 0 <= k < done.len() && #[trigger] too_long_text(region_plaintext(h, done, k));
                assert(too_long_text(region_plaintext(h, new_done, k)));
            }
            if long {
                assert(too_long_text(region_plaintext(h, new_done, index as int)));
            }
            if some_region_too_long(h, new_done) {
                let k = choose|k: int| 0 <= k < new_done.len() && #[trigger] too_long_text(region_plaintext(h, new_done, k));
                if k < index {
                    assert(too_long_text(region_plaintext(h, done, k)));
                }
            }
            assert(spans@.map_values(|e: (usize, usize, Option<(usize, usize)>)| (e.0 as int, e.1 as int)) =~= new_done);
            assert forall|k: int|
                0 <= k < index + 1 implies pair_view((#[trigger] spans@[k]).2) == hint_template(
                    h,
                    span_cursor(new_done, k),
                    new_done[k].0,
                ) by {
                if k < index {
                    assert(spans@[k] == old_spans[k]);
                }
            }
            assert forall|k: int| 0 <= k < index + 1 implies (#[trigger] texts@[k])@ == region_plaintext(h, new_done, k) by {
                if k < index {
                    assert(texts@[k] == old_texts[k]);
                }
            }
            assert forall|k: int| 0 <= k < index + 1 implies 0 <= span_cursor(new_done, k) <= (#[trigger] new_done[k]).0 <= new_done[k].1 <= h.len() by {
                if k < index {
                    assert(new_done[k] == done[k]);
                }
            }
            done = new_done;
        }
        too_long = too_long || long;
        cursor = inner_end;
        index = index + 1;
    }
    proof {
        assert(region_spans(h, cursor as int, 0) =~= Seq::empty());
        assert(region_spans(h, 0, n as nat) =~= done);
    }
    if find(html, &open, cursor).is_some() {
        return Err(EncryptError::ExtraRegions);
    }
    if too_long {
        return Err(EncryptError::Cipher);
    }
    let plan = RegionPlan { spans, texts };
    assert(plan_spans(plan) =~= done);
    Ok(plan)
}

/// Seal every region of a plan under its password and put its lock in its
/// place. Only the random number generator can fail.
fn seal_regions_with(
    html: &[char],
    plan: &RegionPlan,
    locks: &[RegionLock],
    iterations: u32,
    draws: &[([u8; 16], [u8; 12])],
) -> (r: Vec<char>)
    requires
        region_fault(html@, locks@.len()) is None,
        plan_fits(html@, locks@.len(), *plan),
        draws@.len() == locks@.len(),
    ensures
        page_regions_locked_with(html@, lock_specs(locks@), iterations, draws@, r@),
{
    let ghost h = html@;
    let ghost n = locks@.len();
    let ghost specs = lock_specs(locks@);
    let ghost spans = region_spans(h, 0, n);
    let ghost prompts = region_prompts(h, spans, specs);
    let ghost mut payloads: Seq<Locked> = Seq::empty();
    proof {
        lemma_region_spans_bounds(h, 0, n);
        assert(spans.len() == n);
        assert forall|k: int| 0 <= k < n implies !too_long_text(region_plaintext(h, spans, k)) by {
            if too_long_text(region_plaintext(h, spans, k)) {
                assert(some_region_too_long(h, spans));
            }
        }
        assert forall|k: int| 0 <= k < n implies (#[trigger] plan.spans@[k]).0 == spans[k].0
            && plan.spans@[k].1 == spans[k].1 by {
            assert(plan_spans(*plan)[k] == spans[k]);
        }
    }
    let mut result: Vec<char> = Vec::new();
    let mut cursor: usize = 0;
    let mut index: usize = 0;
    while index < locks.len()
        invariant
            h == html@,
            n == locks@.len(),
            specs == lock_specs(locks@),
            spans == region_spans(h, 0, n),
            prompts == region_prompts(h, spans, specs),
            spans.len() == n,
            plan_fits(h, n, *plan),
            forall|k: int| 0 <= k < n ==> (#[trigger] plan.spans@[k]).0 == spans[k].0 && plan.spans@[k].1 == spans[k].1,
            forall|k: int| 0 <= k < n ==> !too_long_text(#[trigger] region_plaintext(h, spans, k)),
            forall|k: int|
                0 <= k < spans.len() ==> {
                    &&& (if k == 0 { 0 } else { spans[k - 1].1 }) <= #[trigger] spans[k].0
                    &&& 0 <= spans[k].0 <= spans[k].1 <= h.len()
                },
            index <= n,
            cursor == span_cursor(spans, index as int),
            payloads.len() == index,
            draws@.len() == n,
            forall|k: int|
                0 <= k < index ==> (#[trigger] payloads[k]).iterations == iterations && seals(
                    specs[k].0,
                    region_plaintext(h, spans, k),
                    payloads[k],
                ) && payloads[k].salt == draws@[k].0 && payloads[k].nonce == draws@[k].1,
            result@ == assemble_upto(h, spans, lock_markups(payloads, prompts), index as int),
        decreases n - index,
    {
        let (start, end, template) = plan.spans[index];
        assert(start == spans[index as int].0 && end == spans[index as int].1);
        assert(pair_view(template) == hint_template(h, span_cursor(spans, index as int), spans[index as int].0));
        proof {
            reveal_strlit("<template class=\"typost-hint\">");
            reveal_strlit("</template>");
            lemma_hint_template_bounds(h, cursor as int, start as int);
        }
        let ghost before = result@;
        let lock = &locks[index];
        let prompt = match template {
            Some((t, c)) => {
                append_range(&mut result, html, cursor, t);
                append_range(&mut result, html, c + 11, start);
                let mut p: Vec<char> = Vec::new();
                append_range(&mut p, html, t + 30, c);
                p
            },
            None => {
                append_range(&mut result, html, cursor, start);
                match &lock.hint {
                    Some(text) => prompt_chars(Some(text.as_str())),
                    None => prompt_chars(None),
                }
            },
        };
        proof {
            reveal_strlit("<template class=\"typost-hint\">");
            reveal_strlit("</template>");
            assert(result@ =~= before + gap_out(h, cursor as int, start as int));
            assert(specs[index as int] == lock_spec(locks@[index as int]));
            assert(prompt@ =~= prompts[index as int]);
        }
        let text = &plan.texts[index];
        assert(text@ == region_plaintext(h, spans, index as int));
        let (salt, nonce) = draws[index];
        let locked = match seal_with(lock.password.as_str(), text.as_slice(), salt, nonce, iterations) {
            Ok(locked) => locked,
            Err(e) => {
                proof {
                    assert(!too_long_text(region_plaintext(h, spans, index as int)));
                }
                return Vec::new();
            },
        };
        let markup = lock_html_with(&locked, &prompt);
        append_chars(&mut result, &markup);
        proof {
            let old_marks = lock_markups(payloads, prompts);
            let new_payloads = payloads.push(locked);
            let new_marks = lock_markups(new_payloads, prompts);
            assert(new_marks[index as int] == markup@);
            lemma_assemble_upto_agree(h, spans, old_marks, spans, new_marks, index as int);
            assert(result@ =~= assemble_upto(h, spans, new_marks, index as int + 1));
            assert forall|k: int| 0 <= k < index + 1 implies (#[trigger] new_payloads[k]).iterations
                == iterations && seals(specs[k].0, region_plaintext(h, spans, k), new_payloads[k])
                && new_payloads[k].salt == draws@[k].0 && new_payloads[k].nonce == draws@[k].1 by {
                if k < index {
                    assert(new_payloads[k] == payloads[k]);
                }
            }
            payloads = new_payloads;
        }
        cursor = end;
        index = index + 1;
    }
    append_range(&mut result, html, cursor, html.len());
    proof {
        assert(regions_locked(h, spans, specs, iterations, payloads));
        assert(drawn_with(payloads, draws@));
        assert(result@ =~= assemble(h, spans, lock_markups(payloads, prompts)));
    }
    result
}

/// A fresh random salt and nonce for each of `n` payloads.
fn draw_salts_and_nonces(n: usize) -> (r: Result<Vec<([u8; 16], [u8; 12])>, EncryptError>)
    ensures
        r matches Ok(d) ==> d@.len() == n,
        r matches Err(e) ==> e is Rng && n > 0,
{
    let mut draws: Vec<([u8; 16], [u8; 12])> = Vec::new();
    let mut k: usize = 0;
    while k < n
        invariant
            k <= n,
            draws@.len() == k,
        decreases n - k,
    {
        let mut salt = [0u8; 16];
        let mut nonce = [0u8; 12];
        match fill_random(&mut salt) {
            Ok(()) => {},
            Err(_) => return Err(EncryptError::Rng),
        }
        match fill_random(&mut nonce) {
            Ok(()) => {},
            Err(_) => return Err(EncryptError::Rng),
        }
        draws.push((salt, nonce));
        k = k + 1;
    }
    Ok(draws)
}

/// Seal the regions of a checked page under freshly drawn salts and nonces.
fn seal_regions(html: &[char], plan: &RegionPlan, locks: &[RegionLock], iterations: u32) -> (r: Result<Vec<char>, EncryptError>)
    requires
        region_fault(html@, locks@.len()) is None,
        plan_fits(html@, locks@.len(), *plan),
    ensures
        r is Ok || r == Err::<Vec<char>, EncryptError>(EncryptError::Rng),
        r is Err ==> locks@.len() > 0,
        r matches Ok(out) ==> page_regions_locked(html@, lock_specs(locks@), iterations, out@),
{
    let draws = match draw_salts_and_nonces(locks.len()) {
        Ok(d) => d,
        Err(e) => return Err(e),
    };
    let out = seal_regions_with(html, plan, locks, iterations, draws.as_slice());
    proof {
        lemma_locked_with_is_locked(html@, lock_specs(locks@), iterations, draws@, out@);
    }
    Ok(out)
}

/// Encrypt every marked region of a page, pairing regions with `locks` in
/// document order.
///
/// On success each region's contents are sealed under its password and
/// replaced by its lock markup, and a content hint before the region moves
/// into its lock; the rest of the page is kept as it is. Whether the regions
/// pair with the passwords, and whether each is short enough to seal, is
/// decided before anything is encrypted: such a fault is the error exactly.
/// Otherwise only the random number generator can fail.
pub fn encrypt_regions(html: &[char], locks: &[RegionLock], iterations: u32) -> (r: Result<Vec<char>, EncryptError>)
    ensures
        region_fault(html@, locks@.len()) matches Some(f) ==> r == Err::<Vec<char>, EncryptError>(f),
        region_fault(html@, locks@.len()) is None ==> (r is Ok || r == Err::<Vec<char>, EncryptError>(
            EncryptError::Rng,
        )),
        r == Err::<Vec<char>, EncryptError>(EncryptError::Rng) ==> locks@.len() > 0,
        r matches Ok(out) ==> page_regions_locked(html@, lock_specs(locks@), iterations, out@),
{
    let plan = match scan_regions(html, locks.len()) {
        Ok(plan) => plan,
        Err(e) => return Err(e),
    };
    seal_regions(html, &plan, locks, iterations)
}

/// Encrypt every marked region of a page as `encrypt_regions` does, sealing
/// the `k`-th region with the `k`-th of the given salts and nonces: nothing
/// is drawn, so the result is decided by the arguments alone.
pub fn encrypt_regions_with(
    html: &[char],
    locks: &[RegionLock],
    iterations: u32,
    draws: &[([u8; 16], [u8; 12])],
) -> (r: Result<Vec<char>, EncryptError>)
    requires
        draws@.len() == locks@.len(),
    ensures
        region_fault(html@, locks@.len()) matches Some(f) ==> r == Err::<Vec<char>, EncryptError>(f),
        region_fault(html@, locks@.len()) is None ==> (r matches Ok(out) && page_regions_locked_with(
            html@,
            lock_specs(locks@),
            iterations,
            draws@,
            out@,
        )),
{
    let plan = match scan_regions(html, locks.len()) {
        Ok(plan) => plan,
        Err(e) => return Err(e),
    };
    Ok(seal_regions_with(html, &plan, locks, iterations, draws))
}

// ---------------------------------------------------------------------------
// Grouping the locks of the manifest by page.
// ---------------------------------------------------------------------------

/// A password with its text hint.
pub type LockSpec = (Seq<char>, Option<Seq<char>>);

/// The locks of one page: its regions' locks in document order, and the
/// page's own lock.
pub type PageLocks = (Seq<LockSpec>, Option<LockSpec>);

/// The page route and the password and text hint of an entry that marks an
/// encrypted region with a non-empty password.
pub open spec fn entry_lock(e: MetadataEntry) -> Option<(Seq<char>, LockSpec)> {
    if e.kind@ == "encrypted"@ {
        match (e.route, fm_str(fm_get(e.data, "password"@))) {
            (Some(route), Some(password)) => if password.len() > 0 {
                Some((route@, (password, fm_str(fm_get(e.data, "hint"@)))))
            } else {
                None
            },
            _ => None,
        }
    } else {
        None
    }
}

/// A page's own lock: a non-empty string `password` in its front matter,
/// with its string `hint`.
pub open spec fn page_lock(p: PageMeta) -> Option<LockSpec> {
    match fm_str(fm_get(p.data, "password"@)) {
        Some(password) => if password.len() > 0 {
            Some((password, fm_str(fm_get(p.data, "hint"@))))
        } else {
            None
        },
        None => None,
    }
}

/// `g` with a region lock added to the page `route`.
pub open spec fn with_region(g: Seq<(Seq<char>, PageLocks)>, route: Seq<char>, lock: LockSpec) -> Seq<(Seq<char>, PageLocks)> {
    insert_sorted(
        g,
        route,
        match lookup(g, route) {
            Some(v) => (v.0.push(lock), v.1),
            None => (seq![lock], None),
        },
    )
}

/// `g` with the page `route` locked by `lock`.
pub open spec fn with_page(g: Seq<(Seq<char>, PageLocks)>, route: Seq<char>, lock: LockSpec) -> Seq<(Seq<char>, PageLocks)> {
    insert_sorted(
        g,
        route,
        match lookup(g, route) {
            Some(v) => (v.0, Some(lock)),
            None => (Seq::empty(), Some(lock)),
        },
    )
}

/// The pages that carry a password, by route; a later page of the same route
/// sets the lock again.
pub open spec fn group_pages(pages: Seq<PageMeta>) -> Seq<(Seq<char>, PageLocks)>
    decreases pages.len(),
{
    if pages.len() == 0 {
        Seq::empty()
    } else {
        let g = group_pages(pages.drop_last());
        match page_lock(pages.last()) {
            None => g,
            Some(l) => with_page(g, pages.last().route@, l),
        }
    }
}

/// `base` with the encrypted regions of `entries` added to their pages, in
/// document order.
pub open spec fn group_regions_onto(entries: Seq<MetadataEntry>, base: Seq<(Seq<char>, PageLocks)>) -> Seq<(Seq<char>, PageLocks)>
    decreases entries.len(),
{
    if entries.len() == 0 {
        base
    } else {
        let g = group_regions_onto(entries.drop_last(), base);
        match entry_lock(entries.last()) {
            None => g,
            Some((route, lock)) => with_region(g, route, lock),
        }
    }
}

/// The locks of the site by page, in route order: each page's encrypted
/// regions in document order and its own password.
pub open spec fn group_locks(pages: Seq<PageMeta>, entries: Seq<MetadataEntry>) -> Seq<(Seq<char>, PageLocks)> {
    group_regions_onto(entries, group_pages(pages))
}

proof fn lemma_group_pages_sorted(pages: Seq<PageMeta>)
    ensures
        sorted_by_key(group_pages(pages)),
    decreases pages.len(),
{
    if pages.len() > 0 {
        lemma_group_pages_sorted(pages.drop_last());
        let g = group_pages(pages.drop_last());
        if let Some(l) = page_lock(pages.last()) {
            let r = pages.last().route@;
            lemma_insert_sorted(g, r, match lookup(g, r) {
                Some(v) => (v.0, Some(l)),
                None => (Seq::empty(), Some(l)),
            });
        }
    }
}

proof fn lemma_group_regions_onto_sorted(entries: Seq<MetadataEntry>, base: Seq<(Seq<char>, PageLocks)>)
    requires
        sorted_by_key(base),
    ensures
        sorted_by_key(group_regions_onto(entries, base)),
    decreases entries.len(),
{
    if entries.len() > 0 {
        lemma_group_regions_onto_sorted(entries.drop_last(), base);
        let g = group_regions_onto(entries.drop_last(), base);
        if let Some((r, l)) = entry_lock(entries.last()) {
            lemma_insert_sorted(g, r, match lookup(g, r) {
                Some(v) => (v.0.push(l), v.1),
                None => (seq![l], None),
            });
        }
    }
}

pub proof fn lemma_group_locks_sorted(pages: Seq<PageMeta>, entries: Seq<MetadataEntry>)
    ensures
        sorted_by_key(group_locks(pages, entries)),
{
    lemma_group_pages_sorted(pages);
    lemma_group_regions_onto_sorted(entries, group_pages(pages));
}

/// Adding regions keeps every page lock that was there.
proof fn lemma_regions_keep_page_locks(
    entries: Seq<MetadataEntry>,
    base: Seq<(Seq<char>, PageLocks)>,
    route: Seq<char>,
    lock: LockSpec,
)
    requires
        sorted_by_key(base),
        lookup(base, route) matches Some(v) && v.1 == Some(lock),
    ensures
        lookup(group_regions_onto(entries, base), route) matches Some(v) && v.1 == Some(lock),
    decreases entries.len(),
{
    if entries.len() > 0 {
        lemma_regions_keep_page_locks(entries.drop_last(), base, route, lock);
        lemma_group_regions_onto_sorted(entries.drop_last(), base);
        let g = group_regions_onto(entries.drop_last(), base);
        if let Some((r, l)) = entry_lock(entries.last()) {
            lemma_insert_sorted(g, r, match lookup(g, r) {
                Some(v) => (v.0.push(l), v.1),
                None => (seq![l], None),
            });
        }
    }
}

/// The last page of a route to carry a password sets that route's lock.
proof fn lemma_last_password_sets_lock(pages: Seq<PageMeta>, i: int)
    requires
        0 <= i < pages.len(),
        page_lock(pages[i]) is Some,
        forall|j: int| i < j < pages.len() ==> (#[trigger] pages[j]).route@ != pages[i].route@,
    ensures
        lookup(group_pages(pages), pages[i].route@) matches Some(v) && v.1 == page_lock(pages[i]),
    decreases pages.len(),
{
    let last = pages.len() - 1;
    let g = group_pages(pages.drop_last());
    lemma_group_pages_sorted(pages.drop_last());
    if i < last {
        assert forall|j: int| i < j < pages.drop_last().len() implies (#[trigger] pages.drop_last()[j]).route@
            != pages.drop_last()[i].route@ by {
            assert(pages.drop_last()[j] == pages[j]);
        }
        lemma_last_password_sets_lock(pages.drop_last(), i);
        assert(pages[last].route@ != pages[i].route@);
        if let Some(l) = page_lock(pages.last()) {
            lemma_insert_sorted(g, pages.last().route@, match lookup(g, pages.last().route@) {
                Some(v) => (v.0, Some(l)),
                None => (Seq::empty(), Some(l)),
            });
        }
    } else {
        let l = page_lock(pages.last())->0;
        lemma_insert_sorted(g, pages.last().route@, match lookup(g, pages.last().route@) {
            Some(v) => (v.0, Some(l)),
            None => (Seq::empty(), Some(l)),
        });
    }
}

/// A page that declares a non-empty `password` in its front matter has its
/// content region locked with that password (and its text hint): the last
/// such page of a route sets the route's page lock, whatever encrypted
/// regions the entries add.
pub proof fn lemma_page_password_locks_content(pages: Seq<PageMeta>, entries: Seq<MetadataEntry>, i: int)
    requires
        0 <= i < pages.len(),
        page_lock(pages[i]) is Some,
        forall|j: int| i < j < pages.len() ==> (#[trigger] pages[j]).route@ != pages[i].route@,
    ensures
        lookup(group_locks(pages, entries), pages[i].route@) matches Some(v) && v.1 == page_lock(pages[i]),
{
    lemma_last_password_sets_lock(pages, i);
    lemma_group_pages_sorted(pages);
    lemma_regions_keep_page_locks(entries, group_pages(pages), pages[i].route@, page_lock(pages[i])->0);
}

/// The region locks of the encrypted entries that name `route`, in entry
/// order.
pub open spec fn route_locks(entries: Seq<MetadataEntry>, route: Seq<char>) -> Seq<LockSpec>
    decreases entries.len(),
{
    if entries.len() == 0 {
        Seq::empty()
    } else {
        match entry_lock(entries.last()) {
            Some((r, l)) => if r == route {
                route_locks(entries.drop_last(), route).push(l)
            } else {
                route_locks(entries.drop_last(), route)
            },
            None => route_locks(entries.drop_last(), route),
        }
    }
}

/// Pages grouped from front matter carry no region locks yet.
proof fn lemma_group_pages_no_regions(pages: Seq<PageMeta>, route: Seq<char>)
    ensures
        lookup(group_pages(pages), route) matches Some(v) ==> v.0.len() == 0,
    decreases pages.len(),
{
    if pages.len() > 0 {
        lemma_group_pages_no_regions(pages.drop_last(), route);
        lemma_group_pages_sorted(pages.drop_last());
        let g = group_pages(pages.drop_last());
        if let Some(l) = page_lock(pages.last()) {
            let r = pages.last().route@;
            lemma_group_pages_no_regions(pages.drop_last(), r);
            lemma_insert_sorted(g, r, match lookup(g, r) {
                Some(v) => (v.0, Some(l)),
                None => (Seq::empty(), Some(l)),
            });
        }
    }
}

/// Adding the regions of `entries` to pages without region locks gives
/// each page the locks of its entries, in entry order.
proof fn lemma_group_regions_in_order(entries: Seq<MetadataEntry>, base: Seq<(Seq<char>, PageLocks)>, route: Seq<char>)
    requires
        sorted_by_key(base),
        forall|r: Seq<char>| #[trigger] lookup(base, r) matches Some(v) ==> v.0.len() == 0,
    ensures
        route_locks(entries, route).len() > 0 ==> (lookup(group_regions_onto(entries, base), route) matches Some(v)
            && v.0 == route_locks(entries, route)),
        route_locks(entries, route).len() == 0 ==> lookup(group_regions_onto(entries, base), route) == lookup(
            base,
            route,
        ),
    decreases entries.len(),
{
    if entries.len() > 0 {
        let rest = entries.drop_last();
        lemma_group_regions_in_order(rest, base, route);
        lemma_group_regions_onto_sorted(rest, base);
        let g = group_regions_onto(rest, base);
        if let Some((r, l)) = entry_lock(entries.last()) {
            lemma_insert_sorted(g, r, match lookup(g, r) {
                Some(v) => (v.0.push(l), v.1),
                None => (seq![l], None),
            });
            if r == route {
                if route_locks(rest, route).len() == 0 {
                    assert(lookup(base, route) matches Some(v) ==> v.0.len() == 0);
                    if let Some(v) = lookup(g, route) {
                        assert(v.0 =~= Seq::<LockSpec>::empty());
                        assert(v.0.push(l) =~= Seq::<LockSpec>::empty().push(l));
                    }
                    assert(seq![l] =~= Seq::<LockSpec>::empty().push(l));
                }
            }
        }
    }
}

/// Regions pair with passwords in document order: for every page, its
/// region locks are the locks of the encrypted entries that name it, in
/// the order of the entries, and a page named by any such entry has a group.
pub proof fn lemma_regions_pair_in_entry_order(pages: Seq<PageMeta>, entries: Seq<MetadataEntry>, route: Seq<char>)
    ensures
        route_locks(entries, route).len() > 0 ==> (lookup(group_locks(pages, entries), route) matches Some(v) && v.0
            == route_locks(entries, route)),
        lookup(group_locks(pages, entries), route) matches Some(v) ==> v.0 == route_locks(entries, route),
{
    lemma_group_pages_sorted(pages);
    assert forall|r: Seq<char>| (#[trigger] lookup(group_pages(pages), r) matches Some(v) ==> v.0.len() == 0) by {
        lemma_group_pages_no_regions(pages, r);
    }
    lemma_group_regions_in_order(entries, group_pages(pages), route);
    lemma_group_pages_no_regions(pages, route);
    if route_locks(entries, route).len() == 0 {
        if let Some(v) = lookup(group_pages(pages), route) {
            assert(v.0 =~= route_locks(entries, route));
        }
    }
}

/// The password and text hint of an optional lock.
pub open spec fn opt_lock(l: Option<RegionLock>) -> Option<LockSpec> {
    match l {
        Some(l) => Some(lock_spec(l)),
        None => None,
    }
}

/// The model of grouped locks.
pub open spec fn groups_view(g: Seq<(String, Vec<RegionLock>, Option<RegionLock>)>) -> Seq<(Seq<char>, PageLocks)> {
    g.map_values(|e: (String, Vec<RegionLock>, Option<RegionLock>)| (e.0@, (lock_specs(e.1@), opt_lock(e.2))))
}

/// The route and lock of an encrypted-region entry.
fn region_lock_of(e: &MetadataEntry) -> (r: Option<(String, RegionLock)>)
    ensures
        match entry_lock(*e) {
            None => r is None,
            Some((route, lock)) => r matches Some(p) && p.0@ == route && lock_spec(p.1) == lock,
        },
{
    let kind = chars_of(e.kind.as_str());
    let wanted = chars_of("encrypted");
    if !same_chars(&kind, &wanted) {
        return None;
    }
    let route = match &e.route {
        Some(route) => route,
        None => return None,
    };
    match lock_of_data(&e.data) {
        Some(lock) => Some((route.clone(), lock)),
        None => None,
    }
}

/// The non-empty string `password` and string `hint` of front matter.
fn lock_of_data(data: &FrontMatter) -> (r: Option<RegionLock>)
    ensures
        match fm_str(fm_get(*data, "password"@)) {
            Some(p) => if p.len() > 0 {
                r matches Some(l) && lock_spec(l) == (p, fm_str(fm_get(*data, "hint"@)))
            } else {
                r is None
            },
            None => r is None,
        },
{
    let password = match data.get("password") {
        Some(v) => match v.as_str() {
            Some(p) => p,
            None => return None,
        },
        None => return None,
    };
    if chars_of(password).len() == 0 {
        return None;
    }
    let hint = match data.get("hint") {
        Some(v) => match v.as_str() {
            Some(h) => Some(h.to_owned()),
            None => None,
        },
        None => None,
    };
    Some(RegionLock { password: password.to_owned(), hint })
}

/// Where `route` goes among groups in route order.
fn group_slot(groups: &Vec<(String, Vec<RegionLock>, Option<RegionLock>)>, key: &[char]) -> (i: usize)
    ensures
        i <= groups@.len(),
        forall|j: int| 0 <= j < i ==> seq_less(#[trigger] groups_view(groups@)[j].0, key@),
        i < groups@.len() ==> !seq_less(groups_view(groups@)[i as int].0, key@),
{
    let ghost view = groups_view(groups@);
    let mut i: usize = 0;
    while i < groups.len()
        invariant
            i <= groups@.len(),
            view == groups_view(groups@),
            view.len() == groups@.len(),
            forall|j: int| 0 <= j < i ==> seq_less(#[trigger] view[j].0, key@),
        ensures
            i <= groups@.len(),
            forall|j: int| 0 <= j < i ==> seq_less(#[trigger] view[j].0, key@),
            i < groups@.len() ==> !seq_less(view[i as int].0, key@),
        decreases groups@.len() - i,
    {
        let here = chars_of(groups[i].0.as_str());
        assert(here@ == view[i as int].0);
        if !less_chars(&here, key) {
            break;
        }
        i = i + 1;
    }
    i
}

/// Add a region's lock to the group of its page.
fn add_region(groups: &mut Vec<(String, Vec<RegionLock>, Option<RegionLock>)>, route: String, lock: RegionLock)
    requires
        sorted_by_key(groups_view(old(groups)@)),
    ensures
        groups_view(final(groups)@) == with_region(groups_view(old(groups)@), route@, lock_spec(lock)),
{
    let ghost before = groups_view(groups@);
    let ghost l = lock_spec(lock);
    let key = chars_of(route.as_str());
    let i = group_slot(groups, &key);
    let same = if i < groups.len() {
        let here = chars_of(groups[i].0.as_str());
        same_chars(&here, &key)
    } else {
        false
    };
    if same {
        proof {
            lemma_lookup_index(before, i as int);
        }
        let ghost v = (before[i as int].1.0.push(l), before[i as int].1.1);
        proof {
            lemma_insert_sorted_split(before, route@, v, i as int);
        }
        let mut entry = groups.remove(i);
        let ghost old_locks = entry.1@;
        entry.1.push(lock);
        proof {
            assert(lock_specs(entry.1@) =~= lock_specs(old_locks).push(l));
        }
        groups.insert(i, entry);
        proof {
            assert(groups_view(groups@) =~= before.take(i as int) + seq![(route@, v)] + before.skip(
                i as int + 1,
            ));
        }
    } else {
        let ghost v = (seq![l], None::<LockSpec>);
        proof {
            lemma_insert_sorted_split(before, route@, v, i as int);
            lemma_insert_sorted(before, route@, v);
        }
        let ghost route_view = route@;
        let mut single: Vec<RegionLock> = Vec::new();
        single.push(lock);
        assert(lock_specs(single@) =~= seq![l]);
        groups.insert(i, (route, single, None));
        proof {
            assert(groups_view(groups@) =~= before.take(i as int) + seq![(route_view, v)] + before.skip(
                i as int,
            ));
        }
    }
}

/// Lock the page `route` with its own password.
fn add_page(groups: &mut Vec<(String, Vec<RegionLock>, Option<RegionLock>)>, route: String, lock: RegionLock)
    requires
        sorted_by_key(groups_view(old(groups)@)),
    ensures
        groups_view(final(groups)@) == with_page(groups_view(old(groups)@), route@, lock_spec(lock)),
{
    let ghost before = groups_view(groups@);
    let ghost l = lock_spec(lock);
    let key = chars_of(route.as_str());
    let i = group_slot(groups, &key);
    let same = if i < groups.len() {
        let here = chars_of(groups[i].0.as_str());
        same_chars(&here, &key)
    } else {
        false
    };
    if same {
        proof {
            lemma_lookup_index(before, i as int);
        }
        let ghost v = (before[i as int].1.0, Some(l));
        proof {
            lemma_insert_sorted_split(before, route@, v, i as int);
        }
        let mut entry = groups.remove(i);
        entry.2 = Some(lock);
        groups.insert(i, entry);
        proof {
            assert(groups_view(groups@) =~= before.take(i as int) + seq![(route@, v)] + before.skip(
                i as int + 1,
            ));
        }
    } else {
        let ghost v = (Seq::<LockSpec>::empty(), Some(l));
        proof {
            lemma_insert_sorted_split(before, route@, v, i as int);
            lemma_insert_sorted(before, route@, v);
        }
        let ghost route_view = route@;
        let none: Vec<RegionLock> = Vec::new();
        assert(lock_specs(none@) =~= Seq::<LockSpec>::empty());
        groups.insert(i, (route, none, Some(lock)));
        proof {
            assert(groups_view(groups@) =~= before.take(i as int) + seq![(route_view, v)] + before.skip(
                i as int,
            ));
        }
    }
}

/// Group the locks of the site by page.
fn group_all(pages: &Vec<PageMeta>, entries: &Vec<MetadataEntry>) -> (g: Vec<(String, Vec<RegionLock>, Option<RegionLock>)>)
    ensures
        groups_view(g@) == group_locks(pages@, entries@),
{
    let mut g: Vec<(String, Vec<RegionLock>, Option<RegionLock>)> = Vec::new();
    let mut k: usize = 0;
    proof {
        assert(pages@.take(0) =~= Seq::<PageMeta>::empty());
        assert(groups_view(g@) =~= group_pages(pages@.take(0)));
    }
    while k < pages.len()
        invariant
            k <= pages@.len(),
            groups_view(g@) == group_pages(pages@.take(k as int)),
        decreases pages@.len() - k,
    {
        proof {
            lemma_group_pages_sorted(pages@.take(k as int));
            assert(pages@.take(k as int + 1).drop_last() =~= pages@.take(k as int));
            assert(pages@.take(k as int + 1).last() == pages@[k as int]);
        }
        match lock_of_data(&pages[k].data) {
            Some(lock) => add_page(&mut g, pages[k].route.clone(), lock),
            None => {},
        }
        k = k + 1;
    }
    let ghost base = group_pages(pages@);
    proof {
        assert(pages@.take(pages@.len() as int) =~= pages@);
        assert(entries@.take(0) =~= Seq::<MetadataEntry>::empty());
    }
    let mut k: usize = 0;
    while k < entries.len()
        invariant
            k <= entries@.len(),
            base == group_pages(pages@),
            groups_view(g@) == group_regions_onto(entries@.take(k as int), base),
        decreases entries@.len() - k,
    {
        proof {
            lemma_group_pages_sorted(pages@);
            lemma_group_regions_onto_sorted(entries@.take(k as int), base);
            assert(entries@.take(k as int + 1).drop_last() =~= entries@.take(k as int));
            assert(entries@.take(k as int + 1).last() == entries@[k as int]);
        }
        match region_lock_of(&entries[k]) {
            Some((route, lock)) => add_region(&mut g, route, lock),
            None => {},
        }
        k = k + 1;
    }
    proof {
        assert(entries@.take(entries@.len() as int) =~= entries@);
    }
    g
}

// ---------------------------------------------------------------------------
// Locking the pages.
// ---------------------------------------------------------------------------

/// The content region of a page: what lies between the `>` that ends the
/// tag marked `id="typost-content"` and the next `</main>`.
pub open spec fn content_span(h: Seq<char>) -> Option<(int, int)> {
    match find_from(h, content_marker(), 0) {
        None => None,
        Some(marker) => match find_from(h, ">"@, marker) {
            None => None,
            Some(gt) => match find_from(h, "</main>"@, gt + 1) {
                None => None,
                Some(close) => Some((gt + 1, close)),
            },
        },
    }
}

/// Why the content region of a page cannot be locked, if it cannot.
pub open spec fn content_fault(h: Seq<char>) -> Option<EncryptError> {
    match content_span(h) {
        None => Some(EncryptError::NoContentRegion),
        Some((s, e)) => if too_long_text(encode_utf8(h.subrange(s, e))) {
            Some(EncryptError::Cipher)
        } else {
            None
        },
    }
}

/// `after` is `h` with its content region sealed in `payload` under the
/// lock's password and replaced by its lock markup.
pub open spec fn content_sealed(h: Seq<char>, lock: LockSpec, iterations: u32, payload: Locked, after: Seq<char>) -> bool {
    let (s, e) = content_span(h)->0;
    &&& payload.iterations == iterations
    &&& seals(lock.0, encode_utf8(h.subrange(s, e)), payload)
    &&& after == h.take(s) + lock_markup(payload, lock.1) + h.skip(e)
}

/// `after` is `h` with its content region locked under `lock`.
pub open spec fn content_locked(h: Seq<char>, lock: LockSpec, iterations: u32, after: Seq<char>) -> bool {
    &&& content_fault(h) is None
    &&& exists|payload: Locked| #[trigger] content_sealed(h, lock, iterations, payload, after)
}

/// The content region of a page.
fn find_content_span(h: &[char]) -> (r: Option<(usize, usize)>)
    ensures
        pair_view(r) == content_span(h@),
        r matches Some((s, e)) ==> s <= e <= h@.len(),
{
    let marker_text = chars_of("id=\"typost-content\"");
    let gt_text = chars_of(">");
    let close_text = chars_of("</main>");
    let marker = match find(h, &marker_text, 0) {
        Some(m) => m,
        None => return None,
    };
    proof {
        lemma_find_from_nonneg(h@, content_marker(), 0);
        lemma_find_from_nonneg(h@, ">"@, marker as int);
        reveal_strlit(">");
    }
    let gt = match find(h, &gt_text, marker) {
        Some(g) => g,
        None => return None,
    };
    proof {
        lemma_find_from_nonneg(h@, "</main>"@, gt + 1);
        reveal_strlit("</main>");
    }
    assert(gt < h.len());
    let close = match find(h, &close_text, gt + 1) {
        Some(c) => c,
        None => return None,
    };
    Some((gt + 1, close))
}

/// Lock the content region of a page under `lock`. Whether the page has one,
/// and whether it is short enough to seal, is decided before anything is
/// encrypted: such a fault is the error exactly. Otherwise only the random
/// number generator can fail.
pub fn lock_content(html: &[char], lock: &RegionLock, iterations: u32) -> (r: Result<Vec<char>, EncryptError>)
    ensures
        content_fault(html@) matches Some(f) ==> r == Err::<Vec<char>, EncryptError>(f),
        content_fault(html@) is None ==> (r is Ok || r == Err::<Vec<char>, EncryptError>(EncryptError::Rng)),
        r matches Ok(out) ==> content_locked(html@, lock_spec(*lock), iterations, out@),
{
    let (s, e) = match find_content_span(html) {
        Some(span) => span,
        None => return Err(EncryptError::NoContentRegion),
    };
    let mut region: Vec<char> = Vec::new();
    append_range(&mut region, html, s, e);
    let plaintext = encode_utf8_chars(&region);
    if plaintext.len() > usize::MAX / 2 - 16 || plaintext.len() as u64 > AES_GCM_P_MAX {
        return Err(EncryptError::Cipher);
    }
    let locked = match encrypt_bytes(lock.password.as_str(), plaintext.as_slice(), iterations) {
        Ok(locked) => locked,
        Err(_) => return Err(EncryptError::Rng),
    };
    let prompt = match &lock.hint {
        Some(text) => prompt_chars(Some(text.as_str())),
        None => prompt_chars(None),
    };
    let markup = lock_html_with(&locked, &prompt);
    let mut out: Vec<char> = Vec::new();
    append_range(&mut out, html, 0, s);
    append_chars(&mut out, &markup);
    append_range(&mut out, html, e, html.len());
    proof {
        assert(out@ =~= html@.take(s as int) + lock_markup(locked, lock_spec(*lock).1) + html@.skip(e as int));
        assert(content_sealed(html@, lock_spec(*lock), iterations, locked, out@));
    }
    Ok(out)
}

/// The page `a` is `h0` with its locks applied, passing through `h1`: the
/// regions locked first (when there are any), then the content region
/// (when the page has a password).
pub open spec fn page_done_via(h0: Seq<char>, g: PageLocks, iterations: u32, h1: Seq<char>, a: Seq<char>) -> bool {
    &&& if g.0.len() == 0 {
        h1 == h0
    } else {
        page_regions_locked(h0, g.0, iterations, h1)
    }
    &&& match g.1 {
        None => a == h1,
        Some(l) => content_locked(h1, l, iterations, a),
    }
}

/// The page bytes `after` are the page bytes `before` with the locks `g`
/// applied.
pub open spec fn page_locked(before: Option<Seq<u8>>, g: PageLocks, iterations: u32, after: Option<Seq<u8>>) -> bool {
    match (before, after) {
        (Some(b), Some(a)) => {
            &&& valid_utf8(b)
            &&& valid_utf8(a)
            &&& exists|h1: Seq<char>| #[trigger] page_done_via(decode_utf8(b), g, iterations, h1, decode_utf8(a))
        },
        _ => false,
    }
}

/// Locking the page `route` with `g` fails before anything is drawn.
pub open spec fn page_faults(files: Seq<(Seq<char>, Seq<u8>)>, route: Seq<char>, g: PageLocks) -> bool {
    match lookup(files, route) {
        None => true,
        Some(b) => {
            ||| !valid_utf8(b)
            ||| g.0.len() > 0 && region_fault(decode_utf8(b), g.0.len()) is Some
            ||| g.0.len() == 0 && g.1 is Some && content_fault(decode_utf8(b)) is Some
        },
    }
}

/// The error with which locking the page `route` with `g` fails before
/// anything is drawn.
pub open spec fn page_fault(files: Seq<(Seq<char>, Seq<u8>)>, route: Seq<char>, g: PageLocks, e: EncryptError) -> bool {
    match lookup(files, route) {
        None => e matches EncryptError::PageNotRendered(p) && p@ == route,
        Some(b) => if !valid_utf8(b) {
            e matches EncryptError::NotUtf8(p) && p@ == route
        } else if g.0.len() > 0 {
            region_fault(decode_utf8(b), g.0.len()) == Some(e)
        } else {
            content_fault(decode_utf8(b)) == Some(e)
        },
    }
}

/// The `j`-th page is the first whose locking fails before anything is
/// drawn.
pub open spec fn first_fault(files: Seq<(Seq<char>, Seq<u8>)>, groups: Seq<(Seq<char>, PageLocks)>, j: int) -> bool {
    &&& 0 <= j < groups.len()
    &&& page_faults(files, groups[j].0, groups[j].1)
    &&& forall|k: int| 0 <= k < j ==> !page_faults(files, #[trigger] groups[k].0, groups[k].1)
}

/// An error that can only come once encryption has started: the random
/// number generator, when there is something to lock, or the content region
/// of a page that also has encrypted regions (found only once those are
/// locked).
pub open spec fn late_fault(groups: Seq<(Seq<char>, PageLocks)>, e: EncryptError) -> bool {
    ||| e is Rng && groups.len() > 0
    ||| (e is NoContentRegion || e is Cipher) && exists|j: int|
        0 <= j < groups.len() && (#[trigger] groups[j]).1.0.len() > 0 && groups[j].1.1 is Some
}

/// `after` is `before` with the page of each group locked, and every other
/// file as it was.
pub open spec fn pages_locked(
    before: Seq<(Seq<char>, Seq<u8>)>,
    groups: Seq<(Seq<char>, PageLocks)>,
    iterations: u32,
    after: Seq<(Seq<char>, Seq<u8>)>,
) -> bool {
    &&& keys_of(after) == keys_of(before)
    &&& forall|p: Seq<char>|
        match #[trigger] lookup(groups, p) {
            None => lookup(after, p) == lookup(before, p),
            Some(g) => page_locked(lookup(before, p), g, iterations, lookup(after, p)),
        }
}

/// Entries that mark no encrypted region add nothing to the groups.
proof fn lemma_no_locks_no_groups(entries: Seq<MetadataEntry>, base: Seq<(Seq<char>, PageLocks)>)
    requires
        forall|i: int| 0 <= i < entries.len() ==> entry_lock(#[trigger] entries[i]) is None,
    ensures
        group_regions_onto(entries, base) == base,
    decreases entries.len(),
{
    if entries.len() > 0 {
        let rest = entries.drop_last();
        assert forall|i: int| 0 <= i < rest.len() implies entry_lock(#[trigger] rest[i]) is None by {
            assert(rest[i] == entries[i]);
        }
        lemma_no_locks_no_groups(rest, base);
        assert(entry_lock(entries[entries.len() - 1]) is None);
    }
}

/// Pages without a password lock nothing.
proof fn lemma_no_passwords_no_groups(pages: Seq<PageMeta>)
    requires
        forall|i: int| 0 <= i < pages.len() ==> page_lock(#[trigger] pages[i]) is None,
    ensures
        group_pages(pages) == Seq::<(Seq<char>, PageLocks)>::empty(),
    decreases pages.len(),
{
    if pages.len() > 0 {
        let rest = pages.drop_last();
        assert forall|i: int| 0 <= i < rest.len() implies page_lock(#[trigger] rest[i]) is None by {
            assert(rest[i] == pages[i]);
        }
        lemma_no_passwords_no_groups(rest);
        assert(page_lock(pages[pages.len() - 1]) is None);
    }
}

/// When no page of the manifest carries a password and no entry marks an
/// encrypted region, locking the pages leaves every file as it was.
pub proof fn lemma_no_locks_unchanged(
    pages: Seq<PageMeta>,
    entries: Seq<MetadataEntry>,
    iterations: u32,
    before: Seq<(Seq<char>, Seq<u8>)>,
    after: Seq<(Seq<char>, Seq<u8>)>,
)
    requires
        sorted_by_key(before),
        sorted_by_key(after),
        forall|i: int| 0 <= i < pages.len() ==> page_lock(#[trigger] pages[i]) is None,
        forall|i: int| 0 <= i < entries.len() ==> entry_lock(#[trigger] entries[i]) is None,
        pages_locked(before, group_locks(pages, entries), iterations, after),
    ensures
        after == before,
{
    lemma_no_passwords_no_groups(pages);
    lemma_no_locks_no_groups(entries, group_pages(pages));
    let g = group_locks(pages, entries);
    assert(keys_of(after).len() == keys_of(before).len());
    assert forall|i: int| 0 <= i < after.len() implies after[i] == before[i] by {
        assert(keys_of(after)[i] == keys_of(before)[i]);
        lemma_lookup_index(after, i);
        lemma_lookup_index(before, i);
        assert(lookup(g, after[i].0) is None);
    }
    assert(after =~= before);
}

/// The regions found from `cursor` lie in order within the page, after
/// `cursor`.
proof fn lemma_region_spans_bounds(h: Seq<char>, cursor: int, n: nat)
    requires
        0 <= cursor,
    ensures
        ({
            let spans = region_spans(h, cursor, n);
            &&& spans.len() <= n
            &&& forall|k: int|
                0 <= k < spans.len() ==> {
                    &&& (if k == 0 { cursor } else { spans[k - 1].1 }) <= #[trigger] spans[k].0
                    &&& cursor <= spans[k].0 <= spans[k].1 <= h.len()
                }
        }),
    decreases n,
{
    if n > 0 {
        lemma_find_from_nonneg(h, encrypted_open(), cursor);
        match find_from(h, encrypted_open(), cursor) {
            None => {},
            Some(start) => {
                lemma_region_after_open(h, start);
                reveal_strlit("<div class=\"typost-encrypted\">");
                match div_close_from(h, start, 0) {
                    None => {},
                    Some(end) => {
                        let e = end - 6;
                        lemma_region_spans_bounds(h, e, (n - 1) as nat);
                        let rest = region_spans(h, e, (n - 1) as nat);
                        let spans = region_spans(h, cursor, n);
                        assert(spans == seq![(start + 30, e)] + rest);
                        assert forall|k: int| 0 <= k < spans.len() implies {
                            &&& (if k == 0 { cursor } else { spans[k - 1].1 }) <= #[trigger] spans[k].0
                            &&& cursor <= spans[k].0 <= spans[k].1 <= h.len()
                        } by {
                            if k > 0 {
                                assert(spans[k] == rest[k - 1]);
                                if k > 1 {
                                    assert(spans[k - 1] == rest[k - 2]);
                                }
                            }
                        }
                    },
                }
            },
        }
    }
}

/// Assembling at least one region starts with the page up to the first
/// region, without the content hint there.
proof fn lemma_assemble_upto_prefix(h: Seq<char>, spans: Seq<(int, int)>, marks: Seq<Seq<char>>, k: int)
    requires
        1 <= k <= spans.len(),
    ensures
        assemble_upto(h, spans, marks, k).len() >= gap_out(h, 0, spans[0].0).len(),
        assemble_upto(h, spans, marks, k).take(gap_out(h, 0, spans[0].0).len() as int) == gap_out(
            h,
            0,
            spans[0].0,
        ),
    decreases k,
{
    let g = gap_out(h, 0, spans[0].0);
    if k == 1 {
        assert(assemble_upto(h, spans, marks, 0) =~= Seq::<char>::empty());
        let a = assemble_upto(h, spans, marks, 1);
        assert(a.take(g.len() as int) =~= g);
    } else {
        lemma_assemble_upto_prefix(h, spans, marks, k - 1);
        let prev = assemble_upto(h, spans, marks, k - 1);
        let a = assemble_upto(h, spans, marks, k);
        assert(a.take(g.len() as int) =~= prev.take(g.len() as int));
    }
}

/// Locking a page's regions keeps what lies outside them in place: the
/// page up to the first region (less the content hint there, if any) and
/// after the last one (where the theme's chrome and `<head>` sit) is
/// unchanged, and there is one region per password.
pub proof fn lemma_outside_regions_kept(
    h: Seq<char>,
    specs: Seq<LockSpec>,
    iterations: u32,
    after: Seq<char>,
)
    requires
        page_regions_locked(h, specs, iterations, after),
        specs.len() > 0,
    ensures
        ({
            let spans = region_spans(h, 0, specs.len());
            let head = gap_out(h, 0, spans[0].0);
            let last = spans[spans.len() - 1].1;
            &&& spans.len() == specs.len()
            &&& 0 <= last <= h.len()
            &&& after.len() >= head.len() + (h.len() - last)
            &&& after.take(head.len() as int) == head
            &&& after.skip(after.len() - (h.len() - last)) == h.skip(last)
        }),
{
    let n = specs.len();
    let spans = region_spans(h, 0, n);
    lemma_region_spans_bounds(h, 0, n);
    let payloads = choose|payloads: Seq<Locked>|
        regions_locked(h, spans, specs, iterations, payloads) && after == assemble(
            h,
            spans,
            lock_markups(payloads, region_prompts(h, spans, specs)),
        );
    let marks = lock_markups(payloads, region_prompts(h, spans, specs));
    assert(spans.len() == n);
    let last = spans[n - 1].1;
    let head = gap_out(h, 0, spans[0].0);
    lemma_assemble_upto_prefix(h, spans, marks, n as int);
    let body = assemble_upto(h, spans, marks, n as int);
    let tail = h.subrange(last, h.len() as int);
    assert(after == body + tail);
    assert(after.take(head.len() as int) =~= body.take(head.len() as int));
    assert(after.skip(after.len() - (h.len() - last)) =~= tail);
    assert(tail =~= h.skip(last));
}

/// What locking the pages of `groups` in `before` does: on success each
/// page is locked and nothing else changes; on failure nothing changes; a
/// page whose locking fails before anything is drawn makes the first such
/// page's error the result; otherwise only an error that comes once
/// encryption has started can stop it.
pub open spec fn lock_pages_effect(
    before: Seq<(Seq<char>, Seq<u8>)>,
    groups: Seq<(Seq<char>, PageLocks)>,
    iterations: u32,
    after: Seq<(Seq<char>, Seq<u8>)>,
    r: Result<(), PluginError>,
) -> bool {
    &&& r is Ok ==> pages_locked(before, groups, iterations, after)
    &&& r is Err ==> after == before
    &&& groups.len() == 0 ==> r is Ok && after == before
    &&& forall|j: int|
        #[trigger] first_fault(before, groups, j) ==> (r matches Err(PluginError::Encrypt(e)) && page_fault(
            before,
            groups[j].0,
            groups[j].1,
            e,
        ))
    &&& (forall|j: int| 0 <= j < groups.len() ==> !page_faults(before, #[trigger] groups[j].0, groups[j].1))
        ==> (r is Ok || (r matches Err(PluginError::Encrypt(e)) && late_fault(groups, e)))
}

/// Only the `j`-th page can be the first to fail before anything is drawn.
proof fn lemma_first_fault_unique(files: Seq<(Seq<char>, Seq<u8>)>, groups: Seq<(Seq<char>, PageLocks)>, j: int)
    requires
        0 <= j < groups.len(),
        page_faults(files, groups[j].0, groups[j].1),
        forall|k: int| 0 <= k < j ==> !page_faults(files, #[trigger] groups[k].0, groups[k].1),
    ensures
        first_fault(files, groups, j),
        forall|i: int| #[trigger] first_fault(files, groups, i) ==> i == j,
{
    assert forall|i: int| #[trigger] first_fault(files, groups, i) implies i == j by {
        if i > j {
            assert(!page_faults(files, groups[j].0, groups[j].1));
        }
    }
}

/// A page checked before anything is drawn: its characters and, when it
/// has encrypted regions, their plan.
spec fn prepared_fits(files: Seq<(Seq<char>, Seq<u8>)>, g: (Seq<char>, PageLocks), p: (Vec<char>, Option<RegionPlan>)) -> bool {
    &&& lookup(files, g.0) matches Some(b) && valid_utf8(b) && p.0@ == decode_utf8(b)
    &&& g.1.0.len() > 0 ==> (p.1 matches Some(plan) && plan_fits(p.0@, g.1.0.len(), plan) && region_fault(
        p.0@,
        g.1.0.len(),
    ) is None)
    &&& g.1.0.len() == 0 ==> p.1 is None && (g.1.1 is Some ==> content_fault(p.0@) is None)
}

/// The bytes `b` are the page `html` with the locks `g` applied.
spec fn page_bytes_locked(html: Seq<char>, g: PageLocks, iterations: u32, b: Seq<u8>) -> bool {
    &&& valid_utf8(b)
    &&& exists|h1: Seq<char>| #[trigger] page_done_via(html, g, iterations, h1, decode_utf8(b))
}

/// Why the content region of a page cannot be locked, if it cannot.
fn content_check(html: &[char]) -> (r: Option<EncryptError>)
    ensures
        r == content_fault(html@),
{
    let (s, e) = match find_content_span(html) {
        Some(span) => span,
        None => return Some(EncryptError::NoContentRegion),
    };
    let mut region: Vec<char> = Vec::new();
    append_range(&mut region, html, s, e);
    let plaintext = encode_utf8_chars(&region);
    if plaintext.len() > usize::MAX / 2 - 16 || plaintext.len() as u64 > AES_GCM_P_MAX {
        Some(EncryptError::Cipher)
    } else {
        None
    }
}

/// Lock one checked page: its regions, then its content region when it has
/// a password of its own.
#[verifier::spinoff_prover]
#[verifier::rlimit(40)]
fn lock_page(
    html: &Vec<char>,
    plan: &Option<RegionPlan>,
    locks: &[RegionLock],
    page: &Option<RegionLock>,
    iterations: u32,
) -> (r: Result<Vec<u8>, EncryptError>)
    requires
        locks@.len() > 0 ==> (*plan matches Some(p) && plan_fits(html@, locks@.len(), p) && region_fault(
            html@,
            locks@.len(),
        ) is None),
        locks@.len() == 0 ==> *plan is None && (*page is Some ==> content_fault(html@) is None),
    ensures
        r matches Ok(b) ==> page_bytes_locked(html@, (lock_specs(locks@), opt_lock(*page)), iterations, b@),
        r matches Err(e) ==> e is Rng || (locks@.len() > 0 && *page is Some && (e is NoContentRegion
            || e is Cipher)),
{
    let ghost g = (lock_specs(locks@), opt_lock(*page));
    let h1 = match plan {
        Some(p) => match seal_regions(html.as_slice(), p, locks, iterations) {
            Ok(v) => v,
            Err(_) => return Err(EncryptError::Rng),
        },
        None => {
            let mut v: Vec<char> = Vec::new();
            append_chars(&mut v, html.as_slice());
            v
        },
    };
    assert(g.0.len() == locks@.len());
    let h2 = match page {
        Some(lock) => match lock_content(&h1, lock, iterations) {
            Ok(v) => v,
            Err(e) => return Err(e),
        },
        None => h1,
    };
    let bytes = encode_utf8_chars(&h2);
    proof {
        lemma_encode_decode(h2@);
        assert(page_done_via(html@, g, iterations, h1@, h2@));
        assert(decode_utf8(bytes@) == h2@);
        assert(page_bytes_locked(html@, g, iterations, bytes@));
    }
    Ok(bytes)
}

/// The encryption plugin.
pub struct Encrypt {
    iterations: u32,
}

impl Encrypt {
    /// The PBKDF2 round count the plugin locks with.
    pub closed spec fn spec_iterations(&self) -> u32 {
        self.iterations
    }

    /// Create the plugin with the default KDF cost.
    pub fn new() -> (r: Self)
        ensures
            r.spec_iterations() == DEFAULT_ITERATIONS,
    {
        Encrypt { iterations: DEFAULT_ITERATIONS }
    }

    /// Create the plugin with a custom PBKDF2 iteration count.
    pub fn with_iterations(iterations: u32) -> (r: Self)
        ensures
            r.spec_iterations() == iterations,
    {
        Encrypt { iterations }
    }
}

impl Default for Encrypt {
    fn default() -> (r: Self)
        ensures
            r.spec_iterations() == DEFAULT_ITERATIONS,
    {
        Encrypt::new()
    }
}

impl Plugin for Encrypt {
    open spec fn typst_effect(
        &self,
        before: Seq<(Seq<char>, Seq<char>)>,
        after: Seq<(Seq<char>, Seq<char>)>,
        r: Result<(), PluginError>,
    ) -> bool {
        r is Ok && after == overlay_add(before, "lib/typost/encrypted.typ"@, ENCRYPTED_TYP@)
    }

    open spec fn post_effect(
        &self,
        before: Seq<(Seq<char>, Seq<u8>)>,
        manifest: SiteManifest,
        after: Seq<(Seq<char>, Seq<u8>)>,
        r: Result<(), PluginError>,
    ) -> bool {
        lock_pages_effect(before, group_locks(manifest.pages@, manifest.entries@), self.spec_iterations(), after, r)
    }

    fn prepare(&self, manifest: &mut SiteManifest) -> (r: Result<(), PluginError>) {
        Ok(())
    }

    fn name(&self) -> (r: &str)
        ensures
            r@ == "encrypt"@,
    {
        "encrypt"
    }

    fn typst(&self, overlay: &mut TypstOverlay) -> (r: Result<(), PluginError>)
        ensures
            r is Ok,
            final(overlay)@ == overlay_add(old(overlay)@, "lib/typost/encrypted.typ"@, ENCRYPTED_TYP@),
    {
        proof {
            lemma_library_paths_are_simple();
        }
        overlay.add("lib/typost/encrypted.typ", ENCRYPTED_TYP);
        Ok(())
    }

    /// Lock the pages: each page's encrypted regions, then its content
    /// region when the page has a password. Every page is checked before
    /// anything is encrypted, and the output changes only when every page
    /// was locked.
    fn post(&self, out: &mut RenderOutput, manifest: &SiteManifest) -> (r: Result<(), PluginError>)
        ensures
            lock_pages_effect(
                old(out)@,
                group_locks(manifest.pages@, manifest.entries@),
                self.spec_iterations(),
                final(out)@,
                r,
            ),
    {
        let groups = group_all(&manifest.pages, &manifest.entries);
        let ghost before = out@;
        let ghost gv = group_locks(manifest.pages@, manifest.entries@);
        let ghost it = self.iterations;
        proof {
            lemma_group_locks_sorted(manifest.pages@, manifest.entries@);
        }
        let n = groups.len();
        if n == 0 {
            return Ok(());
        }
        // Check every page before anything is drawn.
        let mut prepared: Vec<(Vec<char>, Option<RegionPlan>)> = Vec::new();
        let mut j: usize = 0;
        while j < n
            invariant
                before == old(out)@,
                out@ == before,
                gv == group_locks(manifest.pages@, manifest.entries@),
                groups_view(groups@) == gv,
                n == groups@.len(),
                gv.len() == n,
                j <= n,
                prepared@.len() == j,
                forall|k: int| 0 <= k < j ==> !page_faults(before, #[trigger] gv[k].0, gv[k].1),
                forall|k: int| 0 <= k < j ==> prepared_fits(before, #[trigger] gv[k], prepared@[k]),
            decreases n - j,
        {
            let route = groups[j].0.as_str();
            let locks = groups[j].1.as_slice();
            let ghost g = gv[j as int];
            assert(route@ == g.0);
            assert(lock_specs(locks@) == g.1.0);
            assert(opt_lock(groups@[j as int].2) == g.1.1);
            let page = match out.get(route) {
                Some(b) => b,
                None => {
                    let e = EncryptError::PageNotRendered(route.to_owned());
                    proof {
                        lemma_first_fault_unique(before, gv, j as int);
                        assert(page_fault(before, g.0, g.1, e));
                    }
                    return Err(PluginError::Encrypt(e));
                },
            };
            let html = match decode_utf8_chars(page) {
                Some(h) => h,
                None => {
                    let e = EncryptError::NotUtf8(route.to_owned());
                    proof {
                        lemma_first_fault_unique(before, gv, j as int);
                        assert(page_fault(before, g.0, g.1, e));
                    }
                    return Err(PluginError::Encrypt(e));
                },
            };
            if locks.len() > 0 {
                match scan_regions(&html, locks.len()) {
                    Ok(plan) => {
                        prepared.push((html, Some(plan)));
                    },
                    Err(e) => {
                        proof {
                            lemma_first_fault_unique(before, gv, j as int);
                            assert(page_fault(before, g.0, g.1, e));
                        }
                        return Err(PluginError::Encrypt(e));
                    },
                }
            } else {
                if groups[j].2.is_some() {
                    match content_check(&html) {
                        Some(e) => {
                            proof {
                                lemma_first_fault_unique(before, gv, j as int);
                                assert(page_fault(before, g.0, g.1, e));
                            }
                            return Err(PluginError::Encrypt(e));
                        },
                        None => {},
                    }
                }
                prepared.push((html, None));
            }
            assert(prepared_fits(before, gv[j as int], prepared@[j as int]));
            j = j + 1;
        }
        // Lock every page; the output is not touched yet.
        let mut pages: Vec<Vec<u8>> = Vec::new();
        let mut j: usize = 0;
        while j < n
            invariant
                before == old(out)@,
                out@ == before,
                gv == group_locks(manifest.pages@, manifest.entries@),
                groups_view(groups@) == gv,
                it == self.iterations,
                n == groups@.len(),
                gv.len() == n,
                prepared@.len() == n,
                j <= n,
                pages@.len() == j,
                forall|k: int| 0 <= k < n ==> !page_faults(before, #[trigger] gv[k].0, gv[k].1),
                forall|k: int| 0 <= k < n ==> prepared_fits(before, #[trigger] gv[k], prepared@[k]),
                forall|k: int|
                    0 <= k < j ==> page_locked(
                        lookup(before, #[trigger] gv[k].0),
                        gv[k].1,
                        it,
                        Some(pages@[k]@),
                    ),
            decreases n - j,
        {
            let ghost g = gv[j as int];
            let locks = groups[j].1.as_slice();
            assert(lock_specs(locks@) == g.1.0);
            assert(opt_lock(groups@[j as int].2) == g.1.1);
            assert(prepared_fits(before, g, prepared@[j as int]));
            let bytes = match lock_page(&prepared[j].0, &prepared[j].1, locks, &groups[j].2, self.iterations) {
                Ok(b) => b,
                Err(e) => {
                    proof {
                        if !(e is Rng) {
                            assert(gv[j as int].1.0.len() > 0 && gv[j as int].1.1 is Some);
                        }
                        assert(late_fault(gv, e));
                    }
                    return Err(PluginError::Encrypt(e));
                },
            };
            let ghost old_pages = pages@;
            pages.push(bytes);
            proof {
                assert forall|k: int|
                    0 <= k < j + 1 implies page_locked(
                        lookup(before, #[trigger] gv[k].0),
                        gv[k].1,
                        it,
                        Some(pages@[k]@),
                    ) by {
                    if k < j {
                        assert(pages@[k] == old_pages[k]);
                    }
                }
            }
            j = j + 1;
        }
        // Put the locked pages in place.
        let _ = out.len();
        let ghost locked = pages@;
        let mut j: usize = n;
        proof {
            assert(pages@.take(n as int) =~= pages@);
        }
        while j > 0
            invariant
                before == old(out)@,
                gv == group_locks(manifest.pages@, manifest.entries@),
                groups_view(groups@) == gv,
                n == groups@.len(),
                gv.len() == n,
                sorted_by_key(gv),
                sorted_by_key(out@),
                keys_of(out@) == keys_of(before),
                locked.len() == n,
                j <= n,
                pages@ == locked.take(j as int),
                forall|k: int| 0 <= k < n ==> lookup(before, #[trigger] gv[k].0) is Some,
                forall|k: int|
                    0 <= k < n ==> page_locked(
                        lookup(before, #[trigger] gv[k].0),
                        gv[k].1,
                        self.iterations,
                        Some(locked[k]@),
                    ),
                forall|k: int| j <= k < n ==> lookup(out@, #[trigger] gv[k].0) == Some(locked[k]@),
                forall|k: int| 0 <= k < j ==> lookup(out@, #[trigger] gv[k].0) == lookup(before, gv[k].0),
                forall|p: Seq<char>| lookup(gv, p) is None ==> #[trigger] lookup(out@, p) == lookup(before, p),
            decreases j,
        {
            let bytes = match pages.pop() {
                Some(b) => b,
                None => {
                    assert(false);
                    Vec::new()
                },
            };
            let route = groups[j - 1].0.as_str();
            let ghost rv = gv[j - 1];
            assert(route@ == rv.0);
            assert(bytes@ == locked[j - 1]@);
            let ghost prev = out@;
            proof {
                lemma_lookup_index(gv, j - 1);
                lemma_insert_existing(prev, rv.0, bytes@);
                assert(pages@ =~= locked.take(j - 1));
            }
            out.insert(route, bytes);
            proof {
                assert forall|k: int| 0 <= k < gv.len() && k != j - 1 implies #[trigger] gv[k].0 != rv.0 by {
                    if k < j - 1 {
                        assert(seq_less(gv[k].0, gv[j - 1].0));
                    } else {
                        assert(seq_less(gv[j - 1].0, gv[k].0));
                    }
                    lemma_seq_less_irreflexive(rv.0);
                }
            }
            j = j - 1;
        }
        proof {
            assert forall|p: Seq<char>| #[trigger] lookup(gv, p) is Some implies page_locked(
                lookup(before, p),
                lookup(gv, p)->0,
                it,
                lookup(out@, p),
            ) by {
                lemma_lookup_some_index(gv, p);
            }
            assert forall|i: int| #[trigger] first_fault(before, gv, i) implies false by {}
        }
        Ok(())
    }
}

pub const ENCRYPTED_TYP: &'static str = r#"
/// Mark a region whose content should be encrypted at build time.
///
/// Use it either as a selectorless show rule (encrypts the rest of the file):
///
/// ```typst
/// #show: encrypted.with(password: "pw", hint: "Ask me for the password.")
/// ...content...
/// ```
///
/// or around a block:
///
/// ```typst
/// #encrypted(password: "pw", hint: "...")[ ...content... ]
/// ```
///
/// The password travels through the manifest (never into the output). The
/// plugin replaces the region's contents with a lock UI and inline ciphertext;
/// the browser decrypts it with WebCrypto.
///
/// The `hint`, a string or content, is rendered by Typst into a
/// `<template class="typost-hint">` just before the region; the plugin lifts
/// it into the lock and removes the template.
#let encrypted(body, password: none, hint: none) = {
  assert(
    password != none and password != "",
    message: "encrypted: a non-empty `password` is required",
  )
  let text-hint = if type(hint) == str { hint } else { none }
  metadata((typost: (kind: "encrypted", password: password, hint: text-hint)))
  if hint != none {
    html.elem("template", hint, attrs: (class: "typost-hint"))
  }
  html.elem("div", body, attrs: (class: "typost-encrypted"))
}
"#;

pub const LOCK_STYLE: &'static str = "<style>\
.typost-lock{max-width:26rem;margin:3rem auto;padding:1.5rem;text-align:center;\
background:var(--surface,#32302f);border:1px solid var(--surface-2,#3c3836);\
border-radius:var(--radius,10px);box-shadow:0 12px 32px -24px rgba(0,0,0,.8)}\
.typost-lock-hint{margin:0 0 1rem;color:var(--fg-dim,#a89984);font-size:.95rem}\
.typost-lock form{display:flex;flex-direction:column;gap:.6rem}\
.typost-lock input{width:100%;box-sizing:border-box;padding:.6rem .8rem;\
background:var(--bg-soft,#282828);color:var(--fg,#d4be98);\
border:1px solid var(--border,#504945);border-radius:8px;font:inherit;outline:none}\
.typost-lock input:focus{border-color:var(--accent,#a9b665)}\
.typost-lock button{padding:.6rem 1.2rem;border:0;border-radius:8px;\
cursor:pointer;background:var(--accent,#a9b665);color:var(--bg,#1d2021);\
font:inherit;font-weight:600}\
.typost-lock button:hover{opacity:.9}\
.typost-lock-error{margin:.2rem 0 0;color:var(--red,#ea6962);font-size:.9rem}\
</style>";

pub const LOCK_SCRIPT: &'static str = r#"
(function () {
  var lock = document.currentScript.closest('.typost-lock');
  if (!lock) return;
  var params = JSON.parse(lock.querySelector('.typost-lock-params').textContent);
  var cipherB64 = lock.querySelector('.typost-lock-cipher').textContent.trim();
  var form = lock.querySelector('form');
  var input = lock.querySelector('.typost-lock-password');
  var error = lock.querySelector('.typost-lock-error');
  function bytes(b64) {
    return Uint8Array.from(atob(b64), function (c) { return c.charCodeAt(0); });
  }
  if (!window.crypto || !window.crypto.subtle) {
    error.hidden = false;
    error.textContent = 'WebCrypto is unavailable; serve this site over http(s).';
    return;
  }
  form.addEventListener('submit', function (event) {
    event.preventDefault();
    error.hidden = true;
    var encoder = new TextEncoder();
    window.crypto.subtle
      .importKey('raw', encoder.encode(input.value), 'PBKDF2', false, ['deriveKey'])
      .then(function (material) {
        return window.crypto.subtle.deriveKey(
          { name: 'PBKDF2', salt: bytes(params.salt), iterations: params.iterations, hash: 'SHA-256' },
          material,
          { name: 'AES-GCM', length: 256 },
          false,
          ['decrypt']
        );
      })
      .then(function (key) {
        return window.crypto.subtle.decrypt(
          { name: 'AES-GCM', iv: bytes(params.iv) },
          key,
          bytes(cipherB64)
        );
      })
      .then(function (plain) {
        var holder = document.createElement('div');
        holder.innerHTML = new TextDecoder().decode(plain);
        var parent = lock.parentNode;
        while (holder.firstChild) parent.insertBefore(holder.firstChild, lock);
        parent.removeChild(lock);
      })
      .catch(function () {
        error.hidden = false;
        error.textContent = 'Wrong password.';
        input.select();
      });
  });
})();
"#;

} // verus!
