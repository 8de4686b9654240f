use rdoas::auth::Password;
use rdoas::text::parse_u32_text;
use rdoas::user::User;
use rdoas::userdb::{read_from_shadow, UserDb, UserDbError};

fn db() -> UserDb {
    UserDb {
        passwd: "root:x:0:0:root:/root:/bin/bash\nalice:x:1000:100:Alice:/home/alice:/bin/zsh\nbob:plain:1001:100::/home/bob:/bin/sh\nlocked:*:1002:100::/:/sbin/nologin\nbroken:x:notanumber:1\n".to_string(),
        shadow: "root:!:19000::::::\nalice:$6$salt$hash:19000:0:99999:7:::\n".to_string(),
        group: "root:x:0:\nwheel:x:10:alice,bob\nusers:x:100:alice\n".to_string(),
        gshadow: "wheel:!::alice,bob\n".to_string(),
    }
}

#[test]
fn user_by_name() {
    let u = User::from_name(&db(), "alice").unwrap();
    assert_eq!(u.get_name(), "alice");
    assert_eq!(u.get_uid(), 1000);
    assert_eq!(u.get_primary_gid(), 100);
    assert_eq!(u.get_home(), "/home/alice");
    assert_eq!(u.get_shell(), "/bin/zsh");
    assert_eq!(u.get_uid_info(), "Alice");
    assert_eq!(u.get_password(), &Password::Hashed("$6$salt$hash".to_string()));
    assert_eq!(u.group_names(), vec!["wheel".to_string(), "users".to_string()]);
}

#[test]
fn user_by_uid() {
    let u = User::from_uid(&db(), 1001).unwrap();
    assert_eq!(u.get_name(), "bob");
    assert_eq!(u.get_password(), &Password::Unhashed("plain".to_string()));
    assert_eq!(u.group_names(), vec!["wheel".to_string()]);
    let r = User::from_uid(&db(), 0).unwrap();
    assert_eq!(r.get_password(), &Password::NoPass);
    assert_eq!(User::from_uid(&db(), 4242).unwrap_err(), UserDbError::NotFound);
}

#[test]
fn names_match_exactly() {
    assert_eq!(User::from_name(&db(), "ali").unwrap_err(), UserDbError::NotFound);
    assert_eq!(User::from_name(&db(), "broken").unwrap_err(), UserDbError::Malformed);
    let l = User::from_name(&db(), "locked").unwrap();
    assert_eq!(l.get_password(), &Password::NoPass);
}

#[test]
fn shadow_lookup() {
    assert_eq!(read_from_shadow("a:$1$s$h:1\nb:!!:1", "a"), Ok(Password::Hashed("$1$s$h".to_string())));
    assert_eq!(read_from_shadow("a:$1$s$h:1\nb:!!:1", "b"), Ok(Password::NoPass));
    assert_eq!(read_from_shadow("a:$1$s$h:1\nb", "b"), Err(UserDbError::Malformed));
    assert_eq!(read_from_shadow("", "c"), Err(UserDbError::NotFound));
}

#[test]
fn malformed_group_table() {
    let mut d = db();
    d.group = "wheel:x:ten:alice\n".to_string();
    assert_eq!(User::from_name(&d, "alice").unwrap_err(), UserDbError::Malformed);
}

#[test]
fn decimal_parsing() {
    assert_eq!(parse_u32_text("0"), Some(0));
    assert_eq!(parse_u32_text("+17"), Some(17));
    assert_eq!(parse_u32_text("4294967295"), Some(u32::MAX));
    assert_eq!(parse_u32_text("4294967296"), None);
    assert_eq!(parse_u32_text(""), None);
    assert_eq!(parse_u32_text("+"), None);
    assert_eq!(parse_u32_text("-1"), None);
    assert_eq!(parse_u32_text("12a"), None);
    for s in ["7", "+99", "123456", "99999999999", "x", " 1"] {
        assert_eq!(parse_u32_text(s), s.parse::<u32>().ok(), "text {:?}", s);
    }
}

#[test]
fn test_user_is_plain() {
    let u = User::test_user();
    assert_eq!(u.get_name(), "\u{1F600}test");
    assert_eq!(u.get_password(), &Password::NoPass);
    assert_eq!(u.get_uid(), 0);
    assert_eq!(u.get_primary_gid(), 0);
    assert_eq!(u.get_home(), "");
    assert_eq!(u.get_shell(), "");
    assert!(u.group_names().is_empty());
}
