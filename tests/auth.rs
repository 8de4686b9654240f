use rdoas::auth::{check_pass, parse_shadow_hash, scheme_from_id, AuthFailure, HashScheme, Password};

#[test]
fn plain_text_is_exact() {
    assert_eq!(check_pass("secret", &Password::Unhashed("secret".to_string())), Ok(()));
    assert_eq!(check_pass("secret", &Password::Unhashed("Secret".to_string())), Err(AuthFailure::Mismatch));
}

#[test]
fn no_password_never_matches() {
    assert_eq!(check_pass("", &Password::NoPass), Err(AuthFailure::NoPassword));
    assert_eq!(check_pass("anything", &Password::NoPass), Err(AuthFailure::NoPassword));
}

#[test]
fn md5_dispatch() {
    assert_eq!(
        parse_shadow_hash("$1$salt$hash"),
        Ok((HashScheme::Md5Crypt, "$1$salt$hash".to_string()))
    );
    assert_eq!(
        check_pass("secret", &Password::Hashed("$1$salt$hash".to_string())),
        Err(AuthFailure::Mismatch)
    );
}

#[test]
fn real_hashes_verify() {
    let md5 = Password::Hashed("$1$5pZSV9va$azfrPr6af3Fc7dLblQXVa0".to_string());
    assert_eq!(check_pass("password", &md5), Ok(()));
    assert_eq!(check_pass("Password", &md5), Err(AuthFailure::Mismatch));
    let sha512 = Password::Hashed(
        "$6$G/gkPn17kHYo0gTF$xhDFU0QYExdMH2ghOWKrrVtu1BuTpNMSJURCXk43.EYekmK8iwV6RNqftUUC8mqDel1J7m3JEbUkbu4YyqSyv/"
            .to_string(),
    );
    assert_eq!(check_pass("test", &sha512), Ok(()));
    assert_eq!(check_pass("tesT", &sha512), Err(AuthFailure::Mismatch));
    let sha256 = Password::Hashed("$5$WH1ABM5sKhxbkgCK$sOnTVjQn1Y3EWibd8gWqqJqjH.KaFrxJE5rijqxcPp7".to_string());
    assert_eq!(check_pass("test", &sha256), Ok(()));
    assert_eq!(check_pass("nope", &sha256), Err(AuthFailure::Mismatch));
    let bcrypt = Password::Hashed("$2y$05$bvIG6Nmid91Mu9RcmmWZfO5HJIMCT8riNW0hEp8f6/FuA2/mHZFpe".to_string());
    assert_eq!(check_pass("password", &bcrypt), Ok(()));
    assert_eq!(check_pass("nope", &bcrypt), Err(AuthFailure::Mismatch));
}

#[test]
fn malformed_and_unsupported_hashes() {
    assert_eq!(parse_shadow_hash("$6$onlysalt"), Err(AuthFailure::MalformedHash));
    assert_eq!(parse_shadow_hash("nodollars"), Err(AuthFailure::MalformedHash));
    assert_eq!(parse_shadow_hash("$6$rounds=5000$salt$hash"), Err(AuthFailure::MalformedHash));
    assert_eq!(parse_shadow_hash("$9$salt$hash"), Err(AuthFailure::UnsupportedScheme));
    assert_eq!(
        check_pass("x", &Password::Hashed("$y$j9T$salt$hash".to_string())),
        Err(AuthFailure::MalformedHash)
    );
    assert_eq!(
        check_pass("x", &Password::Hashed("$y$salt$hash".to_string())),
        Err(AuthFailure::UnsupportedScheme)
    );
}

#[test]
fn scheme_ids() {
    assert_eq!(scheme_from_id("6"), Some(HashScheme::Sha512Crypt));
    assert_eq!(scheme_from_id("5"), Some(HashScheme::Sha256Crypt));
    assert_eq!(scheme_from_id("2a"), Some(HashScheme::Bcrypt));
    assert_eq!(scheme_from_id("2y"), Some(HashScheme::Bcrypt));
    assert_eq!(scheme_from_id("1"), Some(HashScheme::Md5Crypt));
    assert_eq!(scheme_from_id("2b"), None);
    assert_eq!(scheme_from_id(""), None);
}

#[test]
fn unreadable_bcrypt_hash_is_refused() {
    let odd = Password::Hashed("$2y$05$\u{80}vIG6Nmid91Mu9RcmmWZfO5HJIMCT8riNW0hEp8f6/FuA2/mHZFpe".to_string());
    assert_eq!(check_pass("password", &odd), Err(AuthFailure::Mismatch));
    let ctl = Password::Hashed("$2y$05$\tvIG6Nmid91Mu9RcmmWZfO5HJIMCT8riNW0hEp8f6/FuA2/mHZFpe".to_string());
    assert_eq!(check_pass("password", &ctl), Err(AuthFailure::Mismatch));
}

#[test]
fn unreadable_salts_are_refused_for_every_scheme() {
    for id in ["6", "5", "1", "2y"] {
        let h = format!("${}$\u{80}$h", id);
        assert_eq!(check_pass("x", &Password::Hashed(h)), Err(AuthFailure::Mismatch));
        let h = format!("${}$\u{1}$h", id);
        assert_eq!(check_pass("x", &Password::Hashed(h)), Err(AuthFailure::Mismatch));
    }
}

#[test]
fn hash_must_start_with_dollar() {
    assert_eq!(parse_shadow_hash("x$1$salt$hash"), Err(AuthFailure::MalformedHash));
    assert_eq!(
        check_pass("password", &Password::Hashed("junk$1$5pZSV9va$azfrPr6af3Fc7dLblQXVa0".to_string())),
        Err(AuthFailure::MalformedHash)
    );
}
