//! The X session out of a Chromium-family browser's cookies.
//!
//! Chromium stores cookie values encrypted with AES-128-CBC. The key comes
//! from a per-browser password: the macOS keychain entry "<Browser> Safe
//! Storage", or elsewhere the literal "peanuts" when no keyring is in use.
use vstd::prelude::*;
use cbc::cipher::{block_padding::Pkcs7, BlockDecryptMut, KeyIvInit};
use crate::text::{ascii_lower, chars_of, has_suffix, owned, push_char, push_str, same_ignoring_ascii_case, str_eq};
use crate::x::opt_view;

verus! {

pub const KEY_LEN: usize = 16;

/// Chrome 130+ prepends a SHA-256 of the cookie's domain to the plaintext.
pub const INTEGRITY_PREFIX: usize = 32;

/// The salt Chromium derives cookie keys with: `b"saltysalt"`.
pub open spec fn salt_bytes() -> Seq<u8> {
    seq![0x73u8, 0x61, 0x6c, 0x74, 0x79, 0x73, 0x61, 0x6c, 0x74]
}

pub fn salt() -> (r: Vec<u8>)
    ensures
        r@ == salt_bytes(),
{
    let r: Vec<u8> = vec![0x73u8, 0x61, 0x6c, 0x74, 0x79, 0x73, 0x61, 0x6c, 0x74];
    assert(r@ == salt_bytes());
    r
}

/// The IV Chromium encrypts cookies with: sixteen spaces.
pub open spec fn iv_bytes() -> Seq<u8> {
    Seq::new(16, |i: int| 0x20u8)
}

pub fn iv() -> (r: [u8; 16])
    ensures
        r@ == iv_bytes(),
{
    let r: [u8; 16] = [0x20u8; 16];
    assert(r@ == iv_bytes());
    r
}

// ---------------------------------------------------------------- outside calls

/// The 16-byte key that PBKDF2-HMAC-SHA1 derives from `password` and `salt` in `rounds` rounds.
pub uninterp spec fn pbkdf2_sha1(password: Seq<u8>, salt: Seq<u8>, rounds: u32) -> Seq<u8>;

/// What AES-128-CBC decryption under `key` and `iv`, then PKCS#7 unpadding,
/// makes of `body`; nothing when the padding is malformed or `body` is not a
/// whole number of blocks.
pub uninterp spec fn aes128_cbc_pkcs7(key: Seq<u8>, iv: Seq<u8>, body: Seq<u8>) -> Option<Seq<u8>>;

/// `pbkdf2::pbkdf2::<Hmac<Sha1>>` into a 16-byte buffer. HMAC takes a key of
/// any length, so the call does not fail; the key it derives is named, not
/// stated.
#[verifier::external_body]
fn pbkdf2_key(password: &[u8], salt: &[u8], rounds: u32) -> (r: Option<[u8; 16]>)
    ensures
        r is Some,
        r.unwrap()@ == pbkdf2_sha1(password@, salt@, rounds),
{
    let mut key = [0u8; 16];
    pbkdf2::pbkdf2::<hmac::Hmac<sha1::Sha1>>(password, salt, rounds, &mut key).ok()?;
    Some(key)
}

/// `cbc::Decryptor::<aes::Aes128>::new(key, iv).decrypt_padded_vec_mut::<Pkcs7>(body)`:
/// the plaintext, or nothing when unpadding fails. The plaintext is named,
/// not stated.
#[verifier::external_body]
fn aes_cbc_decrypt(key: &[u8; 16], iv: &[u8; 16], body: &[u8]) -> (r: Option<Vec<u8>>)
    ensures
        match r {
            Some(v) => aes128_cbc_pkcs7(key@, iv@, body@) == Some(v@),
            None => aes128_cbc_pkcs7(key@, iv@, body@) is None,
        },
{
    cbc::Decryptor::<aes::Aes128>::new(key.into(), iv.into()).decrypt_padded_vec_mut::<Pkcs7>(body).ok()
}


// ---------------------------------------------------------------- decryption

/// Why one encrypted cookie value could not be read.
#[derive(Debug, Clone, Copy, PartialEq, Eq, Structural)]
pub enum DecryptError {
    /// Too short to hold the scheme marker.
    Empty,
    /// No password, so no key (keychain access denied?).
    NoKeys,
    /// A scheme other than `v10`/`v11`; its three marker bytes.
    Unsupported(u8, u8, u8),
    /// Every candidate key failed.
    NoKeyWorked,
    /// The ciphertext is not a whole number of AES blocks.
    NotBlocks,
    /// AES-CBC unpadding failed.
    Unpad,
    /// The plaintext is not a printable cookie value.
    NotPrintable,
}

/// Non-empty, and every byte printable ASCII.
pub open spec fn printable(bytes: Seq<u8>) -> bool {
    bytes.len() > 0 && forall|i: int| 0 <= i < bytes.len() ==> 0x20 <= #[trigger] bytes[i] < 0x7f
}

/// ASCII bytes as characters.
pub open spec fn ascii_text(bytes: Seq<u8>) -> Seq<char> {
    bytes.map_values(|b: u8| b as char)
}

pub open spec fn text_view(r: Result<String, DecryptError>) -> Result<Seq<char>, DecryptError> {
    match r {
        Ok(s) => Ok(s@),
        Err(e) => Err(e),
    }
}

/// The value a cookie body decrypts to under one key: the plaintext when it
/// is printable, else what follows the domain hash of newer Chrome.
pub open spec fn decrypted_with(body: Seq<u8>, key: Seq<u8>) -> Result<Seq<char>, DecryptError> {
    if body.len() == 0 || body.len() % 16 != 0 {
        Err(DecryptError::NotBlocks)
    } else {
        match aes128_cbc_pkcs7(key, iv_bytes(), body) {
            None => Err(DecryptError::Unpad),
            Some(plain) => {
                if printable(plain) {
                    Ok(ascii_text(plain))
                } else if plain.len() > INTEGRITY_PREFIX && printable(plain.skip(INTEGRITY_PREFIX as int)) {
                    Ok(ascii_text(plain.skip(INTEGRITY_PREFIX as int)))
                } else {
                    Err(DecryptError::NotPrintable)
                }
            },
        }
    }
}

/// The first key under which `body` decrypts.
pub open spec fn first_decryption(body: Seq<u8>, keys: Seq<Seq<u8>>) -> Result<Seq<char>, DecryptError>
    decreases keys.len(),
{
    if keys.len() == 0 {
        Err(DecryptError::NoKeyWorked)
    } else {
        match decrypted_with(body, keys[0]) {
            Ok(v) => Ok(v),
            Err(_) => first_decryption(body, keys.drop_first()),
        }
    }
}

pub open spec fn key_views(keys: Seq<[u8; 16]>) -> Seq<Seq<u8>> {
    keys.map_values(|k: [u8; 16]| k@)
}

/// `v10` and `v11` mark the AES-CBC scheme.
pub open spec fn known_scheme(enc: Seq<u8>) -> bool {
    enc[0] == 0x76 && enc[1] == 0x31 && (enc[2] == 0x30 || enc[2] == 0x31)
}

/// The value of an encrypted cookie.
pub open spec fn decrypted(enc: Seq<u8>, keys: Seq<Seq<u8>>) -> Result<Seq<char>, DecryptError> {
    if enc.len() < 3 {
        Err(DecryptError::Empty)
    } else if keys.len() == 0 {
        Err(DecryptError::NoKeys)
    } else if !known_scheme(enc) {
        Err(DecryptError::Unsupported(enc[0], enc[1], enc[2]))
    } else {
        first_decryption(enc.skip(3), keys)
    }
}

/// Every byte printable ASCII, and at least one.
pub open spec fn all_printable(bytes: Seq<u8>) -> bool {
    bytes.len() > 0 && forall|i: int| 0 <= i < bytes.len() ==> 0x20 <= #[trigger] bytes[i] <= 0x7e
}

/// `r` spells `bytes` one character per byte.
pub open spec fn spells(r: Seq<char>, bytes: Seq<u8>) -> bool {
    r.len() == bytes.len() && forall|i: int| 0 <= i < bytes.len() ==> #[trigger] r[i] == bytes[i] as char
}

/// A plaintext that is itself a printable value is the cookie's value, whole,
/// whatever its length; only one that is not is read past the 32-byte domain
/// hash, and then only when what follows the hash is printable. A body that
/// is not a whole number of blocks, or that does not unpad, gives no value.
pub proof fn law_a_printable_plaintext_is_returned_whole(body: Seq<u8>, key: Seq<u8>)
    ensures
        (body.len() == 0 || body.len() % 16 != 0) ==> decrypted_with(body, key) == Err::<Seq<char>, DecryptError>(DecryptError::NotBlocks),
        (body.len() > 0 && body.len() % 16 == 0 && aes128_cbc_pkcs7(key, iv_bytes(), body) is None)
            ==> decrypted_with(body, key) == Err::<Seq<char>, DecryptError>(DecryptError::Unpad),
        (body.len() > 0 && body.len() % 16 == 0 && aes128_cbc_pkcs7(key, iv_bytes(), body) matches Some(plain)) ==> {
            let plain = aes128_cbc_pkcs7(key, iv_bytes(), body)->0;
            let rest = plain.subrange(32, plain.len() as int);
            &&& all_printable(plain) ==> (decrypted_with(body, key) matches Ok(r) && spells(r, plain))
            &&& (!all_printable(plain) && plain.len() > 32 && all_printable(rest))
                ==> (decrypted_with(body, key) matches Ok(r) && spells(r, rest))
            &&& (!all_printable(plain) && !(plain.len() > 32 && all_printable(rest)))
                ==> decrypted_with(body, key) == Err::<Seq<char>, DecryptError>(DecryptError::NotPrintable)
        },
{
    if body.len() > 0 && body.len() % 16 == 0 {
        if let Some(plain) = aes128_cbc_pkcs7(key, iv_bytes(), body) {
            let rest = plain.subrange(32, plain.len() as int);
            assert(printable(plain) == all_printable(plain));
            if plain.len() > 32 {
                assert(plain.skip(INTEGRITY_PREFIX as int) == rest);
                assert(printable(rest) == all_printable(rest));
            }
        }
    }
}

proof fn lemma_first_decryption(body: Seq<u8>, keys: Seq<Seq<u8>>)
    ensures
        first_decryption(body, keys) is Ok ==> exists|k: int|
            0 <= k < keys.len() && first_decryption(body, keys) == decrypted_with(body, #[trigger] keys[k])
            && forall|j: int| 0 <= j < k ==> decrypted_with(body, #[trigger] keys[j]) is Err,
        (forall|k: int| 0 <= k < keys.len() ==> decrypted_with(body, #[trigger] keys[k]) is Err)
            ==> first_decryption(body, keys) == Err::<Seq<char>, DecryptError>(DecryptError::NoKeyWorked),
    decreases keys.len(),
{
    if keys.len() > 0 {
        let rest = keys.drop_first();
        lemma_first_decryption(body, rest);
        if decrypted_with(body, keys[0]) is Ok {
            assert(first_decryption(body, keys) == decrypted_with(body, keys[0]));
        } else {
            if first_decryption(body, rest) is Ok {
                let k = choose|k: int| 0 <= k < rest.len() && first_decryption(body, rest) == decrypted_with(body, #[trigger] rest[k])
                    && forall|j: int| 0 <= j < k ==> decrypted_with(body, #[trigger] rest[j]) is Err;
                assert(keys[k + 1] == rest[k]);
                assert forall|j: int| 0 <= j < k + 1 implies decrypted_with(body, #[trigger] keys[j]) is Err by {
                    if j > 0 {
                        assert(keys[j] == rest[j - 1]);
                    }
                }
            }
            if forall|k: int| 0 <= k < keys.len() ==> decrypted_with(body, #[trigger] keys[k]) is Err {
                assert forall|k: int| 0 <= k < rest.len() implies decrypted_with(body, #[trigger] rest[k]) is Err by {
                    assert(rest[k] == keys[k + 1]);
                }
            }
        }
    }
}

/// A cookie value is read under the first key that reads it: with the `v10`
/// or `v11` marker and at least one key, a value comes from some key under
/// which the body after the marker decrypts, every earlier key having failed;
/// when every key fails, no key worked. Too short a value, no keys, or
/// another marker are refused before any key is tried.
pub proof fn law_the_first_key_that_reads_a_cookie_wins(enc: Seq<u8>, keys: Seq<Seq<u8>>)
    ensures
        enc.len() < 3 ==> decrypted(enc, keys) == Err::<Seq<char>, DecryptError>(DecryptError::Empty),
        enc.len() >= 3 && keys.len() == 0 ==> decrypted(enc, keys) == Err::<Seq<char>, DecryptError>(DecryptError::NoKeys),
        enc.len() >= 3 && keys.len() > 0 && !(enc[0] == 0x76 && enc[1] == 0x31 && (enc[2] == 0x30 || enc[2] == 0x31))
            ==> decrypted(enc, keys) == Err::<Seq<char>, DecryptError>(DecryptError::Unsupported(enc[0], enc[1], enc[2])),
        enc.len() >= 3 && keys.len() > 0 && enc[0] == 0x76 && enc[1] == 0x31 && (enc[2] == 0x30 || enc[2] == 0x31) ==> {
            &&& decrypted(enc, keys) is Ok ==> exists|k: int|
                0 <= k < keys.len() && decrypted(enc, keys) == decrypted_with(enc.subrange(3, enc.len() as int), #[trigger] keys[k])
                && forall|j: int| 0 <= j < k ==> decrypted_with(enc.subrange(3, enc.len() as int), #[trigger] keys[j]) is Err
            &&& (forall|k: int| 0 <= k < keys.len() ==> decrypted_with(enc.subrange(3, enc.len() as int), #[trigger] keys[k]) is Err)
                ==> decrypted(enc, keys) == Err::<Seq<char>, DecryptError>(DecryptError::NoKeyWorked)
        },
{
    if enc.len() >= 3 {
        assert(enc.skip(3) == enc.subrange(3, enc.len() as int));
        lemma_first_decryption(enc.skip(3), keys);
    }
}

/// Whether the bytes make a printable cookie value.
pub fn is_printable(bytes: &[u8]) -> (r: bool)
    ensures
        r == printable(bytes@),
{
    if bytes.len() == 0 {
        return false;
    }
    let mut i: usize = 0;
    while i < bytes.len()
        invariant
            i <= bytes.len(),
            forall|k: int| 0 <= k < i ==> 0x20 <= #[trigger] bytes@[k] < 0x7f,
        decreases bytes.len() - i,
    {
        if !(0x20 <= bytes[i] && bytes[i] < 0x7f) {
            return false;
        }
        i = i + 1;
    }
    true
}

/// The text of printable ASCII bytes.
fn ascii_string(bytes: &[u8]) -> (r: String)
    requires
        forall|i: int| 0 <= i < bytes@.len() ==> #[trigger] bytes@[i] < 0x80,
    ensures
        r@ == ascii_text(bytes@),
{
    let mut out = String::new();
    let mut i: usize = 0;
    while i < bytes.len()
        invariant
            i <= bytes.len(),
            out@ == ascii_text(bytes@.take(i as int)),
        decreases bytes.len() - i,
    {
        let b = bytes[i];
        push_char(&mut out, b as char);
        assert(ascii_text(bytes@.take(i + 1)) == ascii_text(bytes@.take(i as int)).push(b as char));
        i = i + 1;
    }
    assert(bytes@.take(bytes.len() as int) == bytes@);
    out
}

/// The bytes of `v` from `n` on.
fn skip_bytes(v: &[u8], n: usize) -> (r: Vec<u8>)
    requires
        n <= v.len(),
    ensures
        r@ == v@.skip(n as int),
{
    let mut out: Vec<u8> = Vec::new();
    let mut i: usize = n;
    while i < v.len()
        invariant
            n <= i <= v.len(),
            out@ == v@.subrange(n as int, i as int),
        decreases v.len() - i,
    {
        out.push(v[i]);
        assert(v@.subrange(n as int, i + 1) == v@.subrange(n as int, i as int).push(v@[i as int]));
        i = i + 1;
    }
    out
}

/// Decrypts a cookie body under one key.
pub fn decrypt_with(body: &[u8], key: &[u8; 16]) -> (r: Result<String, DecryptError>)
    ensures
        text_view(r) == decrypted_with(body@, key@),
{
    if body.len() == 0 || body.len() % 16 != 0 {
        return Err(DecryptError::NotBlocks);
    }
    let iv = iv();
    let plain = match aes_cbc_decrypt(key, &iv, body) {
        Some(p) => p,
        None => return Err(DecryptError::Unpad),
    };
    if is_printable(plain.as_slice()) {
        return Ok(ascii_string(plain.as_slice()));
    }
    if plain.len() > INTEGRITY_PREFIX {
        let rest = skip_bytes(plain.as_slice(), INTEGRITY_PREFIX);
        if is_printable(rest.as_slice()) {
            return Ok(ascii_string(rest.as_slice()));
        }
    }
    Err(DecryptError::NotPrintable)
}

/// The value of an encrypted cookie, under the first of `keys` that reads it.
pub fn decrypt(encrypted: &[u8], keys: &[[u8; 16]]) -> (r: Result<String, DecryptError>)
    ensures
        text_view(r) == decrypted(encrypted@, key_views(keys@)),
{
    if encrypted.len() < 3 {
        return Err(DecryptError::Empty);
    }
    if keys.len() == 0 {
        return Err(DecryptError::NoKeys);
    }
    let (a, b, c) = (encrypted[0], encrypted[1], encrypted[2]);
    if !(a == 0x76 && b == 0x31 && (c == 0x30 || c == 0x31)) {
        return Err(DecryptError::Unsupported(a, b, c));
    }
    let body = skip_bytes(encrypted, 3);
    let ghost kv = key_views(keys@);
    let mut i: usize = 0;
    assert(kv.skip(0) == kv);
    assert(known_scheme(encrypted@));
    assert(decrypted(encrypted@, kv) == first_decryption(body@, kv));
    while i < keys.len()
        invariant
            i <= keys.len(),
            kv == key_views(keys@),
            body@ == encrypted@.skip(3),
            decrypted(encrypted@, kv) == first_decryption(body@, kv),
            first_decryption(body@, kv) == first_decryption(body@, kv.skip(i as int)),
        decreases keys.len() - i,
    {
        assert(kv.skip(i as int).drop_first() == kv.skip(i + 1));
        assert(kv.skip(i as int)[0] == keys@[i as int]@);
        if let Ok(value) = decrypt_with(body.as_slice(), &keys[i]) {
            return Ok(value);
        }
        i = i + 1;
    }
    Err(DecryptError::NoKeyWorked)
}

/// The keys derived from each password the browser might have used.
pub fn candidate_keys(passwords: &Vec<Vec<u8>>, rounds: u32) -> (keys: Vec<[u8; 16]>)
    ensures
        key_views(keys@) == passwords@.map_values(|p: Vec<u8>| pbkdf2_sha1(p@, salt_bytes(), rounds)),
{
    let salt = salt();
    let mut keys: Vec<[u8; 16]> = Vec::new();
    let mut i: usize = 0;
    while i < passwords.len()
        invariant
            i <= passwords.len(),
            salt@ == salt_bytes(),
            key_views(keys@) == passwords@.take(i as int).map_values(|p: Vec<u8>| pbkdf2_sha1(p@, salt_bytes(), rounds)),
        decreases passwords.len() - i,
    {
        let ghost before = keys@;
        if let Some(key) = pbkdf2_key(passwords[i].as_slice(), salt.as_slice(), rounds) {
            keys.push(key);
            assert(key_views(keys@) == key_views(before).push(key@));
        }
        assert(passwords@.take(i + 1) == passwords@.take(i as int).push(passwords@[i as int]));
        i = i + 1;
    }
    assert(passwords@.take(passwords.len() as int) == passwords@);
    keys
}


// ---------------------------------------------------------------- one profile

#[derive(Debug)]
pub struct Session {
    pub auth_token: String,
    pub ct0: String,
}

/// One row of the `cookies` table for the X hosts.
pub struct CookieRow {
    pub host: String,
    pub name: String,
    pub value: String,
    pub encrypted: Vec<u8>,
}

/// Why a profile's cookies gave no session.
#[derive(Debug, Clone, Copy, PartialEq, Eq, Structural)]
pub enum SessionError {
    /// No x.com cookies at all.
    NoCookies,
    /// A needed cookie could not be decrypted; the last such failure.
    Unreadable(DecryptError),
    /// Cookies, but not both `auth_token` and `ct0`.
    Incomplete,
}

/// The hosts the X session is read from: x.com, and the old twitter.com.
pub open spec fn x_host(host: Seq<char>) -> bool {
    host == "x.com"@ || host == ".x.com"@ || host == "twitter.com"@ || host == ".twitter.com"@
}

/// A row that can carry the session: on an X host, for `auth_token` or `ct0`.
pub open spec fn session_cookie(r: CookieRow) -> bool {
    x_host(r.host@) && (r.name@ == "auth_token"@ || r.name@ == "ct0"@)
}

/// The rows that can carry the session, in order.
pub open spec fn session_rows(rows: Seq<CookieRow>) -> Seq<CookieRow>
    decreases rows.len(),
{
    if rows.len() == 0 {
        rows
    } else if session_cookie(rows.last()) {
        session_rows(rows.drop_last()).push(rows.last())
    } else {
        session_rows(rows.drop_last())
    }
}

/// The old twitter.com host can still hold a dead session, so x.com rows come
/// first. Among the X hosts, the x.com ones are those ending in "x.com".
pub open spec fn on_x(r: CookieRow) -> bool {
    has_suffix(r.host@, "x.com"@)
}

/// The rows on x.com, in order.
pub open spec fn x_rows(rows: Seq<CookieRow>) -> Seq<CookieRow>
    decreases rows.len(),
{
    if rows.len() == 0 {
        rows
    } else if on_x(rows.last()) {
        x_rows(rows.drop_last()).push(rows.last())
    } else {
        x_rows(rows.drop_last())
    }
}

/// The other rows, in order.
pub open spec fn other_rows(rows: Seq<CookieRow>) -> Seq<CookieRow>
    decreases rows.len(),
{
    if rows.len() == 0 {
        rows
    } else if !on_x(rows.last()) {
        other_rows(rows.drop_last()).push(rows.last())
    } else {
        other_rows(rows.drop_last())
    }
}

/// What a scan of the rows has found so far.
pub struct Scan {
    pub auth_token: Option<Seq<char>>,
    pub ct0: Option<Seq<char>>,
    pub last_err: Option<DecryptError>,
}

/// The value a row carries: in clear when there is one, else decrypted.
pub open spec fn row_value(row: CookieRow, keys: Seq<Seq<u8>>) -> Result<Seq<char>, DecryptError> {
    if row.value@.len() > 0 {
        Ok(row.value@)
    } else {
        decrypted(row.encrypted@, keys)
    }
}

/// A row fills its cookie's slot unless the slot is taken; one that cannot be
/// read is remembered and skipped, an empty value is skipped.
pub open spec fn scan_row(st: Scan, row: CookieRow, keys: Seq<Seq<u8>>) -> Scan {
    let name = row.name@;
    let slot = if name == "auth_token"@ { Some(st.auth_token) } else if name == "ct0"@ { Some(st.ct0) } else { None };
    match slot {
        None => st,
        Some(Some(_)) => st,
        Some(None) => match row_value(row, keys) {
            Err(e) => Scan { last_err: Some(e), ..st },
            Ok(v) => {
                if v.len() == 0 {
                    st
                } else if name == "auth_token"@ {
                    Scan { auth_token: Some(v), ..st }
                } else {
                    Scan { ct0: Some(v), ..st }
                }
            },
        },
    }
}

pub open spec fn scan_rows(rows: Seq<CookieRow>, keys: Seq<Seq<u8>>) -> Scan
    decreases rows.len(),
{
    if rows.len() == 0 {
        Scan { auth_token: None, ct0: None, last_err: None }
    } else {
        scan_row(scan_rows(rows.drop_last(), keys), rows.last(), keys)
    }
}

/// The session that a profile's session rows hold.
pub open spec fn session_of(rows: Seq<CookieRow>, keys: Seq<Seq<u8>>) -> Result<(Seq<char>, Seq<char>), SessionError> {
    if rows.len() == 0 {
        Err(SessionError::NoCookies)
    } else {
        let st = scan_rows(x_rows(rows) + other_rows(rows), keys);
        match (st.auth_token, st.ct0) {
            (Some(a), Some(c)) => Ok((a, c)),
            _ => match st.last_err {
                Some(e) => Err(SessionError::Unreadable(e)),
                None => Err(SessionError::Incomplete),
            },
        }
    }
}

/// The session a profile's cookie rows hold: only the rows that can carry it count.
pub open spec fn session_in(rows: Seq<CookieRow>, keys: Seq<Seq<u8>>) -> Result<(Seq<char>, Seq<char>), SessionError> {
    session_of(session_rows(rows), keys)
}

pub open spec fn session_view(r: Result<Session, SessionError>) -> Result<(Seq<char>, Seq<char>), SessionError> {
    match r {
        Ok(s) => Ok((s.auth_token@, s.ct0@)),
        Err(e) => Err(e),
    }
}

/// Whether `s` ends with `p`.
fn ends_with(s: &str, p: &str) -> (r: bool)
    ensures
        r == has_suffix(s@, p@),
{
    let x = chars_of(s);
    let y = chars_of(p);
    if y.len() > x.len() {
        return false;
    }
    let off = x.len() - y.len();
    let mut i: usize = 0;
    while i < y.len()
        invariant
            x@ == s@,
            y@ == p@,
            off == x.len() - y.len(),
            i <= y.len(),
            forall|k: int| 0 <= k < i ==> x@[off + k] == y@[k],
        decreases y.len() - i,
    {
        if x[off + i] != y[i] {
            assert(x@.skip(off as int)[i as int] != y@[i as int]);
            return false;
        }
        i = i + 1;
    }
    assert(x@.skip(off as int) == y@);
    true
}

/// What `row` gives for the cookie `name`: its value, when it is that
/// cookie's row and its value reads and is not empty.
pub open spec fn named_value(row: CookieRow, keys: Seq<Seq<u8>>, name: Seq<char>) -> Option<Seq<char>> {
    if row.name@ == name {
        match row_value(row, keys) {
            Ok(v) => if v.len() > 0 { Some(v) } else { None },
            Err(_) => None,
        }
    } else {
        None
    }
}

/// The first value that `rows` give for the cookie `name`.
pub open spec fn first_value(rows: Seq<CookieRow>, keys: Seq<Seq<u8>>, name: Seq<char>) -> Option<Seq<char>>
    decreases rows.len(),
{
    if rows.len() == 0 {
        None
    } else {
        match first_value(rows.drop_last(), keys, name) {
            Some(v) => Some(v),
            None => named_value(rows.last(), keys, name),
        }
    }
}

/// The value a profile's rows give for the cookie `name`: the first from an
/// x.com row, and the first from a twitter.com row only where x.com gives none.
pub open spec fn chosen(rows: Seq<CookieRow>, keys: Seq<Seq<u8>>, name: Seq<char>) -> Option<Seq<char>> {
    let k = session_rows(rows);
    match first_value(x_rows(k), keys, name) {
        Some(v) => Some(v),
        None => first_value(other_rows(k), keys, name),
    }
}

proof fn lemma_scan_is_first_value(rows: Seq<CookieRow>, keys: Seq<Seq<u8>>)
    ensures
        scan_rows(rows, keys).auth_token == first_value(rows, keys, "auth_token"@),
        scan_rows(rows, keys).ct0 == first_value(rows, keys, "ct0"@),
    decreases rows.len(),
{
    reveal_strlit("auth_token");
    reveal_strlit("ct0");
    if rows.len() > 0 {
        lemma_scan_is_first_value(rows.drop_last(), keys);
        assert("auth_token"@ != "ct0"@) by {
            assert("auth_token"@.len() != "ct0"@.len());
        }
    }
}

proof fn lemma_first_value_concat(a: Seq<CookieRow>, b: Seq<CookieRow>, keys: Seq<Seq<u8>>, name: Seq<char>)
    ensures
        first_value(a + b, keys, name) == match first_value(a, keys, name) {
            Some(v) => Some(v),
            None => first_value(b, keys, name),
        },
    decreases b.len(),
{
    if b.len() == 0 {
        assert(a + b == a);
    } else {
        assert((a + b).drop_last() == a + b.drop_last());
        assert((a + b).last() == b.last());
        lemma_first_value_concat(a, b.drop_last(), keys, name);
    }
}

/// Whatever order the rows come in, each cookie's value is the first readable
/// non-empty one on x.com, and one from twitter.com only where x.com has none:
/// a value on x.com is never replaced by one on twitter.com. The session is
/// found exactly when both cookies have a value.
pub proof fn law_an_x_com_value_is_never_replaced(rows: Seq<CookieRow>, keys: Seq<Seq<u8>>)
    ensures
        session_in(rows, keys) is Ok <==> (chosen(rows, keys, "auth_token"@) is Some && chosen(rows, keys, "ct0"@) is Some),
        session_in(rows, keys) matches Ok((a, c)) ==> chosen(rows, keys, "auth_token"@) == Some(a) && chosen(rows, keys, "ct0"@) == Some(c),
{
    let k = session_rows(rows);
    let order = x_rows(k) + other_rows(k);
    lemma_scan_is_first_value(order, keys);
    lemma_first_value_concat(x_rows(k), other_rows(k), keys, "auth_token"@);
    lemma_first_value_concat(x_rows(k), other_rows(k), keys, "ct0"@);
    if k.len() == 0 {
        assert(x_rows(k) == Seq::<CookieRow>::empty());
        assert(other_rows(k) == Seq::<CookieRow>::empty());
    }
}

/// Whether a row can carry the session.
fn is_session_cookie(r: &CookieRow) -> (b: bool)
    ensures
        b == session_cookie(*r),
{
    let h = r.host.as_str();
    let host_ok = str_eq(h, "x.com") || str_eq(h, ".x.com") || str_eq(h, "twitter.com") || str_eq(h, ".twitter.com");
    host_ok && (str_eq(r.name.as_str(), "auth_token") || str_eq(r.name.as_str(), "ct0"))
}

/// Keeps the rows that can carry the session, in order.
fn keep_session_rows(rows: Vec<CookieRow>) -> (r: Vec<CookieRow>)
    ensures
        r@ == session_rows(rows@),
{
    let ghost all = rows@;
    let mut input = rows;
    let mut kept_rev: Vec<CookieRow> = Vec::new();
    while input.len() > 0
        invariant
            input@.len() <= all.len(),
            input@ == all.take(input@.len() as int),
            session_rows(all) == session_rows(input@) + kept_rev@.reverse(),
        decreases input.len(),
    {
        let ghost n: int = input@.len() as int;
        let row = input.pop().unwrap();
        assert(input@ == all.take(n - 1));
        assert(all.take(n).drop_last() == all.take(n - 1));
        assert(all.take(n).last() == row);
        let ghost prev = kept_rev@;
        if is_session_cookie(&row) {
            kept_rev.push(row);
            assert(kept_rev@.reverse() == seq![row] + prev.reverse());
        }
    }
    let mut kept: Vec<CookieRow> = Vec::new();
    while kept_rev.len() > 0
        invariant
            session_rows(all) == kept@ + kept_rev@.reverse(),
        decreases kept_rev.len(),
    {
        let ghost before = kept_rev@;
        let row = kept_rev.pop().unwrap();
        assert(before.reverse() == seq![row] + kept_rev@.reverse());
        kept.push(row);
    }
    kept
}

/// The X session in a profile's cookie rows: `auth_token` and `ct0` on an X
/// host, the first readable non-empty value of each, x.com rows before others.
pub fn session_from_rows(rows: Vec<CookieRow>, keys: &[[u8; 16]]) -> (r: Result<Session, SessionError>)
    ensures
        session_view(r) == session_in(rows@, key_views(keys@)),
{
    let kept = keep_session_rows(rows);
    session_from_kept(kept, keys)
}

/// The session in rows that can all carry it.
fn session_from_kept(rows: Vec<CookieRow>, keys: &[[u8; 16]]) -> (r: Result<Session, SessionError>)
    ensures
        session_view(r) == session_of(rows@, key_views(keys@)),
{
    if rows.len() == 0 {
        return Err(SessionError::NoCookies);
    }
    let ghost all = rows@;
    let ghost kv = key_views(keys@);
    // Stable: x.com rows first, each group in its own order.
    let mut ordered: Vec<CookieRow> = Vec::new();
    let mut input = rows;
    let mut n: usize = input.len();
    proof {
        assert(all.take(n as int) == all);
    }
    // Taken from the back, so each group is built reversed, then turned around.
    let mut xs_rev: Vec<CookieRow> = Vec::new();
    let mut others_rev: Vec<CookieRow> = Vec::new();
    while n > 0
        invariant
            n == input.len(),
            input@ == all.take(n as int),
            n <= all.len(),
            x_rows(all) == x_rows(input@) + xs_rev@.reverse(),
            other_rows(all) == other_rows(input@) + others_rev@.reverse(),
        decreases n,
    {
        let row = input.pop().unwrap();
        assert(input@ == all.take(n - 1));
        let is_x = ends_with(row.host.as_str(), "x.com");
        let ghost prev_xs = xs_rev@;
        let ghost prev_others = others_rev@;
        if is_x {
            xs_rev.push(row);
            assert(xs_rev@.reverse() == seq![row] + prev_xs.reverse());
            assert(others_rev@ == prev_others);
        } else {
            others_rev.push(row);
            assert(others_rev@.reverse() == seq![row] + prev_others.reverse());
        }
        n = n - 1;
    }
    proof {
        assert(x_rows(input@) == Seq::<CookieRow>::empty());
        assert(other_rows(input@) == Seq::<CookieRow>::empty());
    }
    let ghost order = x_rows(all) + other_rows(all);
    while xs_rev.len() > 0
        invariant
            order == x_rows(all) + other_rows(all),
            x_rows(all) == ordered@ + xs_rev@.reverse(),
        decreases xs_rev.len(),
    {
        let ghost before = xs_rev@;
        let row = xs_rev.pop().unwrap();
        assert(before.reverse() == seq![row] + xs_rev@.reverse());
        ordered.push(row);
    }
    while others_rev.len() > 0
        invariant
            order == x_rows(all) + other_rows(all),
            x_rows(all) == ordered@.take(x_rows(all).len() as int),
            ordered@.len() >= x_rows(all).len(),
            other_rows(all) == ordered@.skip(x_rows(all).len() as int) + others_rev@.reverse(),
        decreases others_rev.len(),
    {
        let ghost before = others_rev@;
        let ghost before_ordered = ordered@;
        let row = others_rev.pop().unwrap();
        assert(before.reverse() == seq![row] + others_rev@.reverse());
        ordered.push(row);
        assert(ordered@.take(x_rows(all).len() as int) == before_ordered.take(x_rows(all).len() as int));
        assert(ordered@.skip(x_rows(all).len() as int) == before_ordered.skip(x_rows(all).len() as int).push(row));
    }
    assert(ordered@ == order);
    let mut auth_token: Option<String> = None;
    let mut ct0: Option<String> = None;
    let mut last_err: Option<DecryptError> = None;
    let mut i: usize = 0;
    while i < ordered.len()
        invariant
            i <= ordered.len(),
            ordered@ == order,
            kv == key_views(keys@),
            ({
                let st = scan_rows(order.take(i as int), kv);
                &&& opt_view(auth_token) == st.auth_token
                &&& opt_view(ct0) == st.ct0
                &&& last_err == st.last_err
            }),
        decreases ordered.len() - i,
    {
        assert(order.take(i + 1).drop_last() == order.take(i as int));
        let row = &ordered[i];
        let is_auth = str_eq(row.name.as_str(), "auth_token");
        let is_ct0 = !is_auth && str_eq(row.name.as_str(), "ct0");
        let taken = (is_auth && auth_token.is_some()) || (is_ct0 && ct0.is_some());
        if (is_auth || is_ct0) && !taken {
            let value = if !row.value.as_str().is_empty() {
                Ok(owned(row.value.as_str()))
            } else {
                decrypt(row.encrypted.as_slice(), keys)
            };
            match value {
                Err(e) => {
                    last_err = Some(e);
                },
                Ok(v) => {
                    if !v.as_str().is_empty() {
                        if is_auth {
                            auth_token = Some(v);
                        } else {
                            ct0 = Some(v);
                        }
                    }
                },
            }
        }
        i = i + 1;
    }
    assert(order.take(ordered.len() as int) == order);
    match (auth_token, ct0) {
        (Some(auth_token), Some(ct0)) => Ok(Session { auth_token, ct0 }),
        _ => match last_err {
            Some(e) => Err(SessionError::Unreadable(e)),
            None => Err(SessionError::Incomplete),
        },
    }
}


impl Session {
    /// The `cookie` header that carries the session.
    pub fn cookie_header(&self) -> (r: String)
        ensures
            r@ == "auth_token="@ + self.auth_token@ + "; ct0="@ + self.ct0@,
    {
        let mut h = owned("auth_token=");
        push_str(&mut h, self.auth_token.as_str());
        push_str(&mut h, "; ct0=");
        push_str(&mut h, self.ct0.as_str());
        h
    }
}

// ---------------------------------------------------------------- browsers

/// Where the cookies are kept and how their key is found differs between
/// macOS and the other systems.
#[derive(Debug, Clone, Copy, PartialEq, Eq, Structural)]
pub enum Platform {
    MacOs,
    Other,
}

/// PBKDF2 rounds Chromium derives the cookie key with.
pub fn pbkdf2_rounds(platform: Platform) -> (r: u32)
    ensures
        r == (if platform == Platform::MacOs { 1003u32 } else { 1u32 }),
{
    match platform {
        Platform::MacOs => 1003,
        Platform::Other => 1,
    }
}

pub struct Browser {
    pub label: String,
    /// Profile roots, relative to the platform's browser data directory.
    pub roots: Vec<String>,
    pub keychain_service: String,
    pub keychain_account: String,
}

pub struct BrowserView {
    pub label: Seq<char>,
    pub roots: Seq<Seq<char>>,
    pub keychain_service: Seq<char>,
    pub keychain_account: Seq<char>,
}

pub open spec fn browser_view(b: Browser) -> BrowserView {
    BrowserView {
        label: b.label@,
        roots: b.roots@.map_values(|r: String| r@),
        keychain_service: b.keychain_service@,
        keychain_account: b.keychain_account@,
    }
}

pub open spec fn browser_views(v: Seq<Browser>) -> Seq<BrowserView> {
    v.map_values(|b: Browser| browser_view(b))
}

pub open spec fn entry(label: &str, roots: Seq<&str>, service: &str, account: &str) -> BrowserView {
    BrowserView {
        label: label@,
        roots: roots.map_values(|r: &str| r@),
        keychain_service: service@,
        keychain_account: account@,
    }
}

/// The Chromium-family browsers, in the order they are searched.
pub open spec fn browser_table(platform: Platform) -> Seq<BrowserView> {
    if platform == Platform::MacOs {
        seq![
            entry("chrome", seq!["Google/Chrome", "Google/Chrome Beta", "Google/Chrome Canary"], "Chrome Safe Storage", "Chrome"),
            entry("brave", seq!["BraveSoftware/Brave-Browser"], "Brave Safe Storage", "Brave"),
            entry("chromium", seq!["Chromium"], "Chromium Safe Storage", "Chromium"),
            entry("edge", seq!["Microsoft Edge"], "Microsoft Edge Safe Storage", "Microsoft Edge"),
            entry("vivaldi", seq!["Vivaldi"], "Vivaldi Safe Storage", "Vivaldi"),
            entry("arc", seq!["Arc/User Data"], "Arc Safe Storage", "Arc"),
        ]
    } else {
        seq![
            entry("chrome", seq!["google-chrome", "google-chrome-beta"], "", ""),
            entry("brave", seq!["BraveSoftware/Brave-Browser"], "", ""),
            entry("chromium", seq!["chromium"], "", ""),
            entry("vivaldi", seq!["vivaldi"], "", ""),
        ]
    }
}

fn browser(label: &str, roots: &[&str], service: &str, account: &str) -> (b: Browser)
    ensures
        browser_view(b) == entry(label, roots@, service, account),
{
    let mut owned_roots: Vec<String> = Vec::new();
    let mut i: usize = 0;
    while i < roots.len()
        invariant
            i <= roots.len(),
            owned_roots@.map_values(|r: String| r@) == roots@.take(i as int).map_values(|r: &str| r@),
        decreases roots.len() - i,
    {
        let ghost before = owned_roots@;
        owned_roots.push(owned(roots[i]));
        assert(owned_roots@.map_values(|r: String| r@) == before.map_values(|r: String| r@).push(roots@[i as int]@));
        assert(roots@.take(i + 1) == roots@.take(i as int).push(roots@[i as int]));
        i = i + 1;
    }
    assert(roots@.take(roots.len() as int) == roots@);
    Browser { label: owned(label), roots: owned_roots, keychain_service: owned(service), keychain_account: owned(account) }
}

/// The browsers to search on `platform`, in order.
pub fn browsers(platform: Platform) -> (r: Vec<Browser>)
    ensures
        browser_views(r@) == browser_table(platform),
{
    let mut v: Vec<Browser> = Vec::new();
    if platform == Platform::MacOs {
        let a = ["Google/Chrome", "Google/Chrome Beta", "Google/Chrome Canary"];
        assert(a@ == seq!["Google/Chrome", "Google/Chrome Beta", "Google/Chrome Canary"]);
        v.push(browser("chrome", &a, "Chrome Safe Storage", "Chrome"));
        let a = ["BraveSoftware/Brave-Browser"];
        assert(a@ == seq!["BraveSoftware/Brave-Browser"]);
        v.push(browser("brave", &a, "Brave Safe Storage", "Brave"));
        let a = ["Chromium"];
        assert(a@ == seq!["Chromium"]);
        v.push(browser("chromium", &a, "Chromium Safe Storage", "Chromium"));
        let a = ["Microsoft Edge"];
        assert(a@ == seq!["Microsoft Edge"]);
        v.push(browser("edge", &a, "Microsoft Edge Safe Storage", "Microsoft Edge"));
        let a = ["Vivaldi"];
        assert(a@ == seq!["Vivaldi"]);
        v.push(browser("vivaldi", &a, "Vivaldi Safe Storage", "Vivaldi"));
        let a = ["Arc/User Data"];
        assert(a@ == seq!["Arc/User Data"]);
        v.push(browser("arc", &a, "Arc Safe Storage", "Arc"));
    } else {
        let a = ["google-chrome", "google-chrome-beta"];
        assert(a@ == seq!["google-chrome", "google-chrome-beta"]);
        v.push(browser("chrome", &a, "", ""));
        let a = ["BraveSoftware/Brave-Browser"];
        assert(a@ == seq!["BraveSoftware/Brave-Browser"]);
        v.push(browser("brave", &a, "", ""));
        let a = ["chromium"];
        assert(a@ == seq!["chromium"]);
        v.push(browser("chromium", &a, "", ""));
        let a = ["vivaldi"];
        assert(a@ == seq!["vivaldi"]);
        v.push(browser("vivaldi", &a, "", ""));
    }
    assert(browser_views(v@) =~= browser_table(platform));
    v
}

/// The browsers searched, in order, with their profile roots under the
/// platform's browser data directory and their keychain entries. On macOS:
/// Chrome (and its Beta and Canary), Brave, Chromium, Edge, Vivaldi and Arc,
/// each with its "<Browser> Safe Storage" entry. Elsewhere: Chrome (and its
/// Beta), Brave, Chromium and Vivaldi, under their lower-case configuration
/// directories, with no keychain entry.
pub proof fn law_the_browsers_searched(platform: Platform)
    ensures
        platform == Platform::MacOs ==> {
            let t = browser_table(platform);
            &&& t.len() == 6
        &&& t[0].label == "chrome"@ && t[0].roots == seq!["Google/Chrome"@, "Google/Chrome Beta"@, "Google/Chrome Canary"@]
            && t[0].keychain_service == "Chrome Safe Storage"@ && t[0].keychain_account == "Chrome"@
        &&& t[1].label == "brave"@ && t[1].roots == seq!["BraveSoftware/Brave-Browser"@]
            && t[1].keychain_service == "Brave Safe Storage"@ && t[1].keychain_account == "Brave"@
        &&& t[2].label == "chromium"@ && t[2].roots == seq!["Chromium"@]
            && t[2].keychain_service == "Chromium Safe Storage"@ && t[2].keychain_account == "Chromium"@
        &&& t[3].label == "edge"@ && t[3].roots == seq!["Microsoft Edge"@]
            && t[3].keychain_service == "Microsoft Edge Safe Storage"@ && t[3].keychain_account == "Microsoft Edge"@
        &&& t[4].label == "vivaldi"@ && t[4].roots == seq!["Vivaldi"@]
            && t[4].keychain_service == "Vivaldi Safe Storage"@ && t[4].keychain_account == "Vivaldi"@
        &&& t[5].label == "arc"@ && t[5].roots == seq!["Arc/User Data"@]
            && t[5].keychain_service == "Arc Safe Storage"@ && t[5].keychain_account == "Arc"@
        },
        platform == Platform::Other ==> {
            let t = browser_table(platform);
            &&& t.len() == 4
        &&& t[0].label == "chrome"@ && t[0].roots == seq!["google-chrome"@, "google-chrome-beta"@]
            && t[0].keychain_service == ""@ && t[0].keychain_account == ""@
        &&& t[1].label == "brave"@ && t[1].roots == seq!["BraveSoftware/Brave-Browser"@]
            && t[1].keychain_service == ""@ && t[1].keychain_account == ""@
        &&& t[2].label == "chromium"@ && t[2].roots == seq!["chromium"@]
            && t[2].keychain_service == ""@ && t[2].keychain_account == ""@
        &&& t[3].label == "vivaldi"@ && t[3].roots == seq!["vivaldi"@]
            && t[3].keychain_service == ""@ && t[3].keychain_account == ""@
        },
{
    let t = browser_table(platform);
    if platform == Platform::MacOs {
        assert(t[0].roots =~= seq!["Google/Chrome"@, "Google/Chrome Beta"@, "Google/Chrome Canary"@]);
        assert(t[1].roots =~= seq!["BraveSoftware/Brave-Browser"@]);
        assert(t[2].roots =~= seq!["Chromium"@]);
        assert(t[3].roots =~= seq!["Microsoft Edge"@]);
        assert(t[4].roots =~= seq!["Vivaldi"@]);
        assert(t[5].roots =~= seq!["Arc/User Data"@]);
    } else {
        assert(t[0].roots =~= seq!["google-chrome"@, "google-chrome-beta"@]);
        assert(t[1].roots =~= seq!["BraveSoftware/Brave-Browser"@]);
        assert(t[2].roots =~= seq!["chromium"@]);
        assert(t[3].roots =~= seq!["vivaldi"@]);
    }
}

/// The password Chromium falls back to where no keyring holds one: "peanuts".
/// (On macOS the password is the browser's keychain entry instead.)
pub fn passwords(browser: &Browser) -> (r: Vec<Vec<u8>>)
    ensures
        r@.len() == 1,
        r@[0]@ == seq![0x70u8, 0x65, 0x61, 0x6e, 0x75, 0x74, 0x73],
{
    let pw: Vec<u8> = vec![0x70u8, 0x65, 0x61, 0x6e, 0x75, 0x74, 0x73];
    let mut r: Vec<Vec<u8>> = Vec::new();
    r.push(pw);
    r
}


/// Positions among the first `n` profile names whose being "Default" is `want`, in order.
pub open spec fn positions_where(names: Seq<Seq<char>>, n: nat, want: bool) -> Seq<int>
    decreases n,
{
    if n == 0 {
        Seq::empty()
    } else {
        positions_where(names, (n - 1) as nat, want) + if (names[n - 1] == "Default"@) == want {
            seq![n - 1]
        } else {
            Seq::empty()
        }
    }
}

/// The order in which a browser's profiles are searched: "Default" first, it
/// is the profile people actually use; the others after, each group in the
/// order given.
pub open spec fn profile_order(names: Seq<Seq<char>>) -> Seq<int> {
    positions_where(names, names.len(), true) + positions_where(names, names.len(), false)
}

proof fn lemma_positions_where(names: Seq<Seq<char>>, n: nat, want: bool)
    requires
        n <= names.len(),
    ensures
        ({
            let p = positions_where(names, n, want);
            &&& forall|j: int, k: int| 0 <= j < k < p.len() ==> p[j] < p[k]
            &&& forall|j: int| 0 <= j < p.len() ==> 0 <= #[trigger] p[j] < n && (names[p[j]] == "Default"@) == want
            &&& forall|i: int| 0 <= i < n && (names[i] == "Default"@) == want ==> p.contains(i)
        }),
        positions_where(names, n, true).len() + positions_where(names, n, false).len() == n,
    decreases n,
{
    if n > 0 {
        lemma_positions_where(names, (n - 1) as nat, want);
        let p = positions_where(names, n, want);
        let q = positions_where(names, (n - 1) as nat, want);
        assert forall|j: int| 0 <= j < q.len() implies p[j] == q[j] by {}
        assert forall|i: int| 0 <= i < n && (names[i] == "Default"@) == want implies p.contains(i) by {
            if i < n - 1 {
                let j = choose|j: int| 0 <= j < q.len() && q[j] == i;
                assert(p[j] == i);
            } else {
                assert(p[p.len() - 1] == i);
            }
        }
    }
}

/// Every profile of a browser is searched, and none twice.
pub proof fn law_every_profile_is_searched_once(names: Seq<Seq<char>>)
    ensures
        profile_order(names).len() == names.len(),
        forall|i: int| 0 <= i < names.len() ==> profile_order(names).contains(i),
        forall|j: int| 0 <= j < profile_order(names).len() ==> 0 <= #[trigger] profile_order(names)[j] < names.len(),
        profile_order(names).no_duplicates(),
{
    let n = names.len();
    lemma_positions_where(names, n, true);
    lemma_positions_where(names, n, false);
    let d = positions_where(names, n, true);
    let o = positions_where(names, n, false);
    let p = profile_order(names);
    assert forall|i: int| 0 <= i < n implies p.contains(i) by {
        if names[i] == "Default"@ {
            let j = choose|j: int| 0 <= j < d.len() && d[j] == i;
            assert(p[j] == i);
        } else {
            let j = choose|j: int| 0 <= j < o.len() && o[j] == i;
            assert(p[d.len() + j] == i);
        }
    }
    assert forall|j: int| 0 <= j < p.len() implies 0 <= #[trigger] p[j] < n by {
        if j < d.len() {
            assert(p[j] == d[j]);
        } else {
            assert(p[j] == o[j - d.len()]);
        }
    }
    assert forall|j: int, k: int| 0 <= j < p.len() && 0 <= k < p.len() && j != k implies p[j] != p[k] by {
        if j < d.len() && k < d.len() {
            assert(p[j] == d[j] && p[k] == d[k]);
        } else if j >= d.len() && k >= d.len() {
            assert(p[j] == o[j - d.len()] && p[k] == o[k - d.len()]);
        } else if j < d.len() {
            assert(p[j] == d[j] && p[k] == o[k - d.len()]);
        } else {
            assert(p[k] == d[k] && p[j] == o[j - d.len()]);
        }
    }
}

/// Appends, in order, the positions of `names` whose being "Default" is `want`.
fn push_positions(order: &mut Vec<usize>, names: &Vec<String>, want: bool)
    ensures
        final(order)@.map_values(|i: usize| i as int)
            == old(order)@.map_values(|i: usize| i as int) + positions_where(names@.map_values(|s: String| s@), names@.len(), want),
{
    let ghost nv = names@.map_values(|s: String| s@);
    let ghost start = order@.map_values(|i: usize| i as int);
    let mut i: usize = 0;
    while i < names.len()
        invariant
            i <= names.len(),
            nv == names@.map_values(|s: String| s@),
            order@.map_values(|i: usize| i as int) == start + positions_where(nv, i as nat, want),
        decreases names.len() - i,
    {
        let ghost before = order@.map_values(|i: usize| i as int);
        if str_eq(names[i].as_str(), "Default") == want {
            order.push(i);
            assert(order@.map_values(|i: usize| i as int) == before.push(i as int));
        }
        i = i + 1;
    }
}

/// The positions of a browser's profile directories, by name, in the order
/// they are searched: "Default" first.
pub fn default_profile_first(names: &Vec<String>) -> (order: Vec<usize>)
    ensures
        order@.map_values(|i: usize| i as int) == profile_order(names@.map_values(|s: String| s@)),
{
    let mut order: Vec<usize> = Vec::new();
    push_positions(&mut order, names, true);
    push_positions(&mut order, names, false);
    order
}


// ---------------------------------------------------------------- the search

/// Why one profile gave no session.
#[derive(Debug)]
pub enum ProfileError {
    /// Its cookies hold none.
    Session(SessionError),
    /// Its database could not be copied or read; what went wrong.
    Io(String),
}

/// Why no browser gave a session.
#[derive(Debug)]
pub enum LoadError {
    /// No cookie database at all, among the browsers searched.
    NoDatabase { only: Option<String> },
    /// Every profile failed; how many were tried, and why the last one failed.
    Failed { profiles: usize, cause: ProfileError },
}

/// Whether a browser is searched: all are, unless `only` names one.
pub open spec fn wanted(only: Option<Seq<char>>, label: Seq<char>) -> bool {
    match only {
        None => true,
        Some(w) => same_ignoring_ascii_case(label, w),
    }
}

/// The profile databases tried, in order, as (browser, database) positions:
/// every database of every searched browser among the first `n`.
pub open spec fn candidates(only: Option<Seq<char>>, browsers: Seq<Browser>, dbs: Seq<Vec<String>>, n: nat) -> Seq<(int, int)>
    decreases n,
{
    if n == 0 {
        Seq::empty()
    } else {
        let i = n - 1;
        candidates(only, browsers, dbs, i as nat) + if wanted(only, browsers[i].label@) {
            Seq::new(dbs[i]@.len(), |k: int| (i, k))
        } else {
            Seq::empty()
        }
    }
}

pub proof fn lemma_candidates_in_range(only: Option<Seq<char>>, browsers: Seq<Browser>, dbs: Seq<Vec<String>>, n: nat)
    requires
        n <= browsers.len(),
        browsers.len() == dbs.len(),
    ensures
        forall|j: int| 0 <= j < candidates(only, browsers, dbs, n).len() ==>
            0 <= (#[trigger] candidates(only, browsers, dbs, n)[j]).0 < n
            && 0 <= candidates(only, browsers, dbs, n)[j].1 < dbs[candidates(only, browsers, dbs, n)[j].0]@.len(),
    decreases n,
{
    if n > 0 {
        lemma_candidates_in_range(only, browsers, dbs, (n - 1) as nat);
        let prev = candidates(only, browsers, dbs, (n - 1) as nat);
        let cs = candidates(only, browsers, dbs, n);
        assert forall|j: int| 0 <= j < cs.len() implies
            0 <= (#[trigger] cs[j]).0 < n && 0 <= cs[j].1 < dbs[cs[j].0]@.len() by {
            if j < prev.len() {
                assert(cs[j] == prev[j]);
            }
        }
    }
}

pub open spec fn opt_str_view(o: Option<&str>) -> Option<Seq<char>> {
    match o {
        Some(s) => Some(s@),
        None => None,
    }
}

pub open spec fn opt_string_view(o: Option<String>) -> Option<Seq<char>> {
    match o {
        Some(s) => Some(s@),
        None => None,
    }
}

/// `open` may give `r` for the profile database at position `c`.
pub open spec fn gives<F: Fn(&String, &Browser) -> Result<Session, ProfileError>>(
    open: F,
    browsers: Seq<Browser>,
    dbs: Seq<Vec<String>>,
    c: (int, int),
    r: Result<Session, ProfileError>,
) -> bool {
    call_ensures(open, (&dbs[c.0]@[c.1], &browsers[c.0]), r)
}

/// `open` may fail on the profile database at position `c`.
pub open spec fn failed<F: Fn(&String, &Browser) -> Result<Session, ProfileError>>(
    open: F,
    browsers: Seq<Browser>,
    dbs: Seq<Vec<String>>,
    c: (int, int),
) -> bool {
    exists|e: ProfileError| #[trigger] gives(open, browsers, dbs, c, Err(e))
}

/// `str::eq_ignore_ascii_case`.
pub fn eq_ignore_ascii_case(a: &str, b: &str) -> (r: bool)
    ensures
        r == same_ignoring_ascii_case(a@, b@),
{
    let x = chars_of(a);
    let y = chars_of(b);
    if x.len() != y.len() {
        return false;
    }
    let mut i: usize = 0;
    while i < x.len()
        invariant
            x@ == a@,
            y@ == b@,
            x.len() == y.len(),
            i <= x.len(),
            forall|k: int| 0 <= k < i ==> ascii_lower(#[trigger] x@[k]) == ascii_lower(y@[k]),
        decreases x.len() - i,
    {
        if to_ascii_lower(x[i]) != to_ascii_lower(y[i]) {
            return false;
        }
        i = i + 1;
    }
    true
}

/// An ASCII letter in lower case; anything else unchanged.
fn to_ascii_lower(c: char) -> (r: char)
    ensures
        r == ascii_lower(c),
{
    if 'A' <= c && c <= 'Z' {
        let b = (c as u8) + 32;
        b as char
    } else {
        c
    }
}

/// Finds an X session in the first browser profile that has one. `only`
/// restricts the search to one browser label; `databases[i]` are the cookie
/// databases of `browsers[i]`'s profiles, and `open` reads one of them.
pub fn load<F>(only: Option<&str>, browsers: &Vec<Browser>, databases: &Vec<Vec<String>>, open: F) -> (r: Result<(Session, String), LoadError>)
    where
        F: Fn(&String, &Browser) -> Result<Session, ProfileError>,
    requires
        browsers.len() == databases.len(),
        forall|d: &String, b: &Browser| call_requires(open, (d, b)),
    ensures
        ({
            let cs = candidates(opt_str_view(only), browsers@, databases@, browsers@.len());
            match r {
                Ok((session, label)) => exists|k: int|
                    0 <= k < cs.len()
                    && label@ == browsers@[cs[k].0].label@
                    && #[trigger] gives(open, browsers@, databases@, cs[k], Ok(session))
                    && forall|j: int| 0 <= j < k ==> failed(open, browsers@, databases@, #[trigger] cs[j]),
                Err(LoadError::NoDatabase { only: o }) => cs.len() == 0 && opt_string_view(o) == opt_str_view(only),
                Err(LoadError::Failed { profiles, cause }) => {
                    &&& cs.len() > 0
                    &&& profiles == cs.len()
                    &&& gives(open, browsers@, databases@, cs.last(), Err(cause))
                    &&& forall|j: int| 0 <= j < cs.len() ==> failed(open, browsers@, databases@, #[trigger] cs[j])
                },
            }
        }),
{
    let ghost ov = opt_str_view(only);
    let mut cands: Vec<(usize, usize)> = Vec::new();
    let mut i: usize = 0;
    while i < browsers.len()
        invariant
            i <= browsers.len() == databases.len(),
            ov == opt_str_view(only),
            cands@.len() == candidates(ov, browsers@, databases@, i as nat).len(),
            forall|j: int| 0 <= j < cands@.len() ==> (#[trigger] cands@[j]).0 as int == candidates(ov, browsers@, databases@, i as nat)[j].0
                && cands@[j].1 as int == candidates(ov, browsers@, databases@, i as nat)[j].1,
        decreases browsers.len() - i,
    {
        let ghost prev = candidates(ov, browsers@, databases@, i as nat);
        let want = match only {
            Some(w) => eq_ignore_ascii_case(browsers[i].label.as_str(), w),
            None => true,
        };
        assert(want == wanted(ov, browsers@[i as int].label@));
        if want {
            let mut k: usize = 0;
            let ghost base = cands@;
            while k < databases[i].len()
                invariant
                    i < browsers.len() == databases.len(),
                    k <= databases[i as int]@.len(),
                    cands@.len() == prev.len() + k,
                    base.len() == prev.len(),
                    forall|j: int| 0 <= j < prev.len() ==> #[trigger] cands@[j] == base[j],
                    forall|j: int| 0 <= j < base.len() ==> (#[trigger] base[j]).0 as int == prev[j].0 && base[j].1 as int == prev[j].1,
                    forall|j: int| prev.len() <= j < cands@.len() ==> (#[trigger] cands@[j]).0 == i && cands@[j].1 as int == j - prev.len(),
                decreases databases[i as int]@.len() - k,
            {
                cands.push((i, k));
                k = k + 1;
            }
        }
        proof {
            let next = candidates(ov, browsers@, databases@, (i + 1) as nat);
            let added: Seq<(int, int)> = if want {
                Seq::new(databases@[i as int]@.len(), |k: int| (i as int, k))
            } else {
                Seq::empty()
            };
            assert(next == prev + added);
            assert(cands@.len() == next.len());
            assert forall|j: int| 0 <= j < cands@.len() implies (#[trigger] cands@[j]).0 as int == next[j].0
                && cands@[j].1 as int == next[j].1 by {
                if j >= prev.len() {
                    assert(next[j] == added[j - prev.len()]);
                } else {
                    assert(next[j] == prev[j]);
                }
            }
        }
        i = i + 1;
    }
    let ghost cs = candidates(ov, browsers@, databases@, browsers@.len());
    proof {
        lemma_candidates_in_range(ov, browsers@, databases@, browsers@.len());
    }
    if cands.len() == 0 {
        let o = match only {
            Some(w) => Some(owned(w)),
            None => None,
        };
        return Err(LoadError::NoDatabase { only: o });
    }
    let mut last_err: Option<ProfileError> = None;
    let mut t: usize = 0;
    while t < cands.len()
        invariant
            browsers.len() == databases.len(),
            cs == candidates(opt_str_view(only), browsers@, databases@, browsers@.len()),
            forall|d: &String, b: &Browser| call_requires(open, (d, b)),
            cands@.len() == cs.len(),
            forall|j: int| 0 <= j < cands@.len() ==> (#[trigger] cands@[j]).0 as int == cs[j].0 && cands@[j].1 as int == cs[j].1,
            forall|j: int| 0 <= j < cs.len() ==> 0 <= (#[trigger] cs[j]).0 < browsers.len() && 0 <= cs[j].1 < databases@[cs[j].0]@.len(),
            t <= cands.len(),
            forall|j: int| 0 <= j < t ==> failed(open, browsers@, databases@, #[trigger] cs[j]),
            t > 0 ==> (last_err matches Some(e) && gives(open, browsers@, databases@, cs[t - 1], Err(e))),
        decreases cands.len() - t,
    {
        let (bi, di) = cands[t];
        let attempt = open(&databases[bi][di], &browsers[bi]);
        assert(gives(open, browsers@, databases@, cs[t as int], attempt));
        match attempt {
            Ok(session) => {
                let label = owned(browsers[bi].label.as_str());
                assert(cs[t as int] == (bi as int, di as int));
                assert(0 <= t < cs.len() && label@ == browsers@[cs[t as int].0].label@
                    && gives(open, browsers@, databases@, cs[t as int], Ok(session))
                    && forall|j: int| 0 <= j < t ==> failed(open, browsers@, databases@, #[trigger] cs[j]));
                let ghost sv = session;
                let res: Result<(Session, String), LoadError> = Ok((session, label));
                assert(res matches Ok((s2, l2)) && s2 == sv && l2@ == label@);
                assert(match res {
                    Ok((s2, l2)) => exists|k: int|
                        0 <= k < cs.len()
                        && l2@ == browsers@[cs[k].0].label@
                        && #[trigger] gives(open, browsers@, databases@, cs[k], Ok(s2))
                        && forall|j: int| 0 <= j < k ==> failed(open, browsers@, databases@, #[trigger] cs[j]),
                    _ => false,
                });
                return res;
            },
            Err(e) => {
                last_err = Some(e);
            },
        }
        t = t + 1;
    }
    match last_err {
        Some(cause) => Err(LoadError::Failed { profiles: cands.len(), cause }),
        None => Err(LoadError::NoDatabase { only: None }),
    }
}

} // verus!
