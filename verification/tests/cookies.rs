use aes::cipher::{block_padding::Pkcs7, BlockEncryptMut, KeyIvInit};
use hmac::Hmac;
use sha1::Sha1;
use xummary::cookies::{
    browsers, candidate_keys, decrypt, decrypt_with, default_profile_first, eq_ignore_ascii_case, is_printable, load, passwords, pbkdf2_rounds,
    session_from_rows, Browser, CookieRow, DecryptError, LoadError, Platform, ProfileError, Session, SessionError,
    INTEGRITY_PREFIX, KEY_LEN,
};

type Aes128CbcEnc = cbc::Encryptor<aes::Aes128>;

const IV: [u8; 16] = [0x20; 16];
const SALT: &[u8] = b"saltysalt";
const PBKDF2_ITERS: u32 = 1;

fn encrypt(value: &[u8], key: &[u8; KEY_LEN]) -> Vec<u8> {
    let mut buf = vec![0u8; value.len() + 16];
    buf[..value.len()].copy_from_slice(value);
    let ct = Aes128CbcEnc::new(key.into(), &IV.into())
        .encrypt_padded_mut::<Pkcs7>(&mut buf, value.len())
        .unwrap()
        .to_vec();
    let mut out = b"v10".to_vec();
    out.extend_from_slice(&ct);
    out
}

fn key_for(password: &[u8]) -> [u8; KEY_LEN] {
    let mut key = [0u8; KEY_LEN];
    pbkdf2::pbkdf2::<Hmac<Sha1>>(password, SALT, PBKDF2_ITERS, &mut key).unwrap();
    key
}

#[test]
fn round_trips_a_plain_value() {
    let key = key_for(b"peanuts");
    let blob = encrypt(b"abc123", &key);
    assert_eq!(decrypt(&blob, &[key]).unwrap(), "abc123");
}

#[test]
fn strips_the_domain_hash_prefix() {
    let key = key_for(b"peanuts");
    let mut value = vec![0xABu8; INTEGRITY_PREFIX];
    value.extend_from_slice(b"abc123");
    let blob = encrypt(&value, &key);
    assert_eq!(decrypt(&blob, &[key]).unwrap(), "abc123");
}

#[test]
fn rejects_a_wrong_key() {
    let blob = encrypt(b"abc123", &key_for(b"peanuts"));
    assert!(decrypt(&blob, &[key_for(b"wrong")]).is_err());
}

#[test]
fn the_derived_keys_are_pbkdf2_of_each_password() {
    let pws = vec![b"peanuts".to_vec(), b"other".to_vec()];
    let keys = candidate_keys(&pws, 1);
    assert_eq!(keys, vec![key_for(b"peanuts"), key_for(b"other")]);
    let mut macos_key = [0u8; KEY_LEN];
    pbkdf2::pbkdf2::<Hmac<Sha1>>(b"secret", SALT, 1003, &mut macos_key).unwrap();
    assert_eq!(candidate_keys(&vec![b"secret".to_vec()], pbkdf2_rounds(Platform::MacOs)), vec![macos_key]);
    assert_ne!(key_for(b"peanuts"), [0u8; KEY_LEN]);
}

#[test]
fn the_fallback_password_is_peanuts() {
    let table = browsers(Platform::Other);
    assert_eq!(passwords(&table[0]), vec![b"peanuts".to_vec()]);
    assert_eq!(pbkdf2_rounds(Platform::Other), 1);
    assert_eq!(pbkdf2_rounds(Platform::MacOs), 1003);
}

#[test]
fn decrypt_reports_each_failure() {
    let key = key_for(b"peanuts");
    assert_eq!(decrypt(b"v1", &[key]), Err(DecryptError::Empty));
    assert_eq!(decrypt(&encrypt(b"abc", &key), &[]), Err(DecryptError::NoKeys));
    let mut v12 = encrypt(b"abc", &key);
    v12[2] = b'2';
    assert_eq!(decrypt(&v12, &[key]), Err(DecryptError::Unsupported(b'v', b'1', b'2')));
    assert_eq!(decrypt(&encrypt(b"abc", &key), &[key_for(b"x"), key_for(b"y")]), Err(DecryptError::NoKeyWorked));
    let mut v11 = encrypt(b"abc", &key);
    v11[2] = b'1';
    assert_eq!(decrypt(&v11, &[key_for(b"x"), key]).unwrap(), "abc");
}

#[test]
fn decrypt_with_checks_blocks_padding_and_text() {
    let key = key_for(b"peanuts");
    assert_eq!(decrypt_with(&[], &key), Err(DecryptError::NotBlocks));
    assert_eq!(decrypt_with(&[0u8; 15], &key), Err(DecryptError::NotBlocks));
    let blob = encrypt(&[0x01, 0x02, 0x03], &key);
    assert_eq!(decrypt_with(&blob[3..], &key), Err(DecryptError::NotPrintable));
    let wrong = encrypt(b"abc123", &key_for(b"wrong"));
    assert_eq!(decrypt_with(&wrong[3..], &key), Err(DecryptError::Unpad));
}

#[test]
fn printable_means_visible_ascii() {
    assert!(is_printable(b"abc 123~"));
    assert!(!is_printable(b""));
    assert!(!is_printable(b"tab\there"));
    assert!(!is_printable(&[0x7f]));
}

fn row(host: &str, name: &str, value: &str, encrypted: Vec<u8>) -> CookieRow {
    CookieRow { host: host.into(), name: name.into(), value: value.into(), encrypted }
}

#[test]
fn x_com_rows_win_over_twitter_com() {
    let key = key_for(b"peanuts");
    let rows = vec![
        row(".twitter.com", "auth_token", "dead", vec![]),
        row("x.com", "ct0", "", encrypt(b"csrf", &key)),
        row(".x.com", "auth_token", "live", vec![]),
    ];
    let s = session_from_rows(rows, &[key]).unwrap();
    assert_eq!(s.auth_token, "live");
    assert_eq!(s.ct0, "csrf");
}

#[test]
fn a_session_needs_both_cookies() {
    let key = key_for(b"peanuts");
    assert_eq!(session_from_rows(vec![], &[key]).unwrap_err(), SessionError::NoCookies);
    let only_auth = vec![row("x.com", "auth_token", "a", vec![])];
    assert_eq!(session_from_rows(only_auth, &[key]).unwrap_err(), SessionError::Incomplete);
    let unreadable = vec![row("x.com", "auth_token", "a", vec![]), row("x.com", "ct0", "", b"v20xx".to_vec())];
    assert_eq!(
        session_from_rows(unreadable, &[key]).unwrap_err(),
        SessionError::Unreadable(DecryptError::Unsupported(b'v', b'2', b'0'))
    );
}

#[test]
fn one_unreadable_row_does_not_sink_the_profile() {
    let key = key_for(b"peanuts");
    let rows = vec![
        row("x.com", "ct0", "", b"v20junk".to_vec()),
        row("x.com", "ct0", "c", vec![]),
        row("x.com", "auth_token", "a", vec![]),
        row("x.com", "other", "z", vec![]),
    ];
    let s = session_from_rows(rows, &[key]).unwrap();
    assert_eq!((s.auth_token.as_str(), s.ct0.as_str()), ("a", "c"));
}

#[test]
fn the_session_makes_the_cookie_header() {
    let s = Session { auth_token: "tok".into(), ct0: "csrf".into() };
    assert_eq!(s.cookie_header(), "auth_token=tok; ct0=csrf");
}

#[test]
fn the_browser_tables_per_platform() {
    let mac: Vec<String> = browsers(Platform::MacOs).iter().map(|b| b.label.clone()).collect();
    assert_eq!(mac, vec!["chrome", "brave", "chromium", "edge", "vivaldi", "arc"]);
    let other: Vec<String> = browsers(Platform::Other).iter().map(|b| b.label.clone()).collect();
    assert_eq!(other, vec!["chrome", "brave", "chromium", "vivaldi"]);
    let chrome = &browsers(Platform::MacOs)[0];
    assert_eq!(chrome.roots, vec!["Google/Chrome", "Google/Chrome Beta", "Google/Chrome Canary"]);
    assert_eq!(chrome.keychain_service, "Chrome Safe Storage");
    assert_eq!(chrome.keychain_account, "Chrome");
    assert!(eq_ignore_ascii_case("Chrome", "cHROME"));
    assert!(!eq_ignore_ascii_case("chrome", "chromium"));
}

fn table() -> (Vec<Browser>, Vec<Vec<String>>) {
    let bs = browsers(Platform::Other);
    let dbs = vec![
        vec!["chrome/Default/Cookies".to_string(), "chrome/Profile 1/Cookies".to_string()],
        vec![],
        vec!["chromium/Default/Cookies".to_string()],
        vec![],
    ];
    (bs, dbs)
}

#[test]
fn load_takes_the_first_profile_with_a_session() {
    let (bs, dbs) = table();
    let r = load(None, &bs, &dbs, |db: &String, _b: &Browser| {
        if db.contains("Profile 1") {
            Ok(Session { auth_token: "a".into(), ct0: "c".into() })
        } else {
            Err(ProfileError::Session(SessionError::Incomplete))
        }
    });
    let (s, label) = r.unwrap();
    assert_eq!(label, "chrome");
    assert_eq!(s.auth_token, "a");
}

#[test]
fn load_reports_how_many_profiles_failed() {
    let (bs, dbs) = table();
    let r = load(None, &bs, &dbs, |db: &String, _b: &Browser| Err(ProfileError::Io(format!("copy {db}"))));
    match r {
        Err(LoadError::Failed { profiles, cause: ProfileError::Io(m) }) => {
            assert_eq!(profiles, 3);
            assert_eq!(m, "copy chromium/Default/Cookies");
        }
        other => panic!("unexpected {other:?}"),
    }
}

#[test]
fn load_searches_only_the_named_browser() {
    let (bs, dbs) = table();
    let r = load(Some("Chromium"), &bs, &dbs, |db: &String, b: &Browser| {
        assert_eq!(b.label, "chromium");
        assert_eq!(db, "chromium/Default/Cookies");
        Ok(Session { auth_token: "a".into(), ct0: "c".into() })
    });
    assert_eq!(r.unwrap().1, "chromium");
    let none = load(Some("brave"), &bs, &dbs, |_: &String, _: &Browser| Err(ProfileError::Io("never".into())));
    match none {
        Err(LoadError::NoDatabase { only }) => assert_eq!(only.as_deref(), Some("brave")),
        other => panic!("unexpected {other:?}"),
    }
}

#[test]
fn the_default_profile_is_searched_first() {
    let names: Vec<String> = vec!["Profile 1".into(), "Default".into(), "System Profile".into(), "Profile 2".into()];
    assert_eq!(default_profile_first(&names), vec![1, 0, 2, 3]);
    let none: Vec<String> = vec!["b".into(), "a".into()];
    assert_eq!(default_profile_first(&none), vec![0, 1]);
    assert_eq!(default_profile_first(&Vec::new()), Vec::<usize>::new());
}

#[test]
fn rows_off_the_x_hosts_are_ignored() {
    let rows = vec![
        row("phishx.com", "auth_token", "fake", vec![]),
        row("x.com", "auth_token", "live", vec![]),
        row("x.com.evil", "ct0", "fake", vec![]),
        row(".twitter.com", "ct0", "csrf", vec![]),
        row("x.com", "other", "noise", vec![]),
    ];
    let s = session_from_rows(rows, &[]).unwrap();
    assert_eq!((s.auth_token.as_str(), s.ct0.as_str()), ("live", "csrf"));
    let only_foreign = vec![row("phishx.com", "auth_token", "a", vec![]), row("x.com", "session", "b", vec![])];
    assert_eq!(session_from_rows(only_foreign, &[]).unwrap_err(), SessionError::NoCookies);
}

#[test]
fn a_twitter_com_value_never_replaces_an_x_com_one() {
    for order in [[0usize, 1, 2, 3], [3, 2, 1, 0], [1, 3, 0, 2]] {
        let all = [
            ("twitter.com", "auth_token", "old"),
            ("x.com", "auth_token", "new"),
            (".twitter.com", "ct0", "old-csrf"),
            (".x.com", "ct0", "new-csrf"),
        ];
        let rows: Vec<CookieRow> = order.iter().map(|&i| row(all[i].0, all[i].1, all[i].2, vec![])).collect();
        let s = session_from_rows(rows, &[]).unwrap();
        assert_eq!((s.auth_token.as_str(), s.ct0.as_str()), ("new", "new-csrf"));
    }
}
