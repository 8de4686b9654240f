use rdoas::auth::Password;
use rdoas::env::{set_env_vars, Inherited};
use rdoas::env_map::EnvMap;
use rdoas::text::decimal_string;
use rdoas::user::{Group, User};

fn user(name: &str, uid: u32, gid: u32, home: &str, shell: &str) -> User {
    User::new(
        name.to_string(),
        Password::NoPass,
        uid,
        gid,
        vec![Group::new("wheel".to_string(), Password::NoPass, 10)],
        String::new(),
        home.to_string(),
        shell.to_string(),
    )
}

fn get(m: &EnvMap, k: &str) -> Option<String> {
    m.get(&k.to_string()).cloned()
}

#[test]
fn environment_is_built_from_scratch() {
    let me = user("alice", 1000, 100, "/home/alice", "/bin/zsh");
    let root = user("root", 0, 0, "/root", "/bin/sh");
    let inherited = Inherited { lang: Some("C.UTF-8".to_string()), colorterm: None, display: None, term: Some("xterm".to_string()) };
    let mut set_env = EnvMap::new();
    set_env.insert("PATH".to_string(), "/opt/bin".to_string());
    set_env.insert("EXTRA".to_string(), "1".to_string());
    let command = vec!["ls".to_string(), "-l".to_string()];
    let env = set_env_vars(&me, &root, &command, &None, &set_env, &inherited);
    assert_eq!(get(&env, "LANG"), Some("C.UTF-8".to_string()));
    assert_eq!(get(&env, "TERM"), Some("xterm".to_string()));
    assert_eq!(get(&env, "DISPLAY"), None);
    assert_eq!(get(&env, "SUDO_USER"), Some("alice".to_string()));
    assert_eq!(get(&env, "DOAS_USER"), Some("alice".to_string()));
    assert_eq!(get(&env, "SUDO_UID"), Some("1000".to_string()));
    assert_eq!(get(&env, "SUDO_GID"), Some("100".to_string()));
    assert_eq!(get(&env, "SUDO_COMMAND"), Some("ls-l".to_string()));
    assert_eq!(get(&env, "HOME"), Some("/root".to_string()));
    assert_eq!(get(&env, "USER"), Some("root".to_string()));
    assert_eq!(get(&env, "LOGNAME"), Some("root".to_string()));
    assert_eq!(get(&env, "SHELL"), Some("/bin/sh".to_string()));
    assert_eq!(get(&env, "PATH"), Some("/opt/bin".to_string()));
    assert_eq!(get(&env, "EXTRA"), Some("1".to_string()));
    assert_eq!(env.len(), 14);
    let env = set_env_vars(&me, &root, &command, &Some("/bin/bash".to_string()), &EnvMap::new(), &inherited);
    assert_eq!(get(&env, "SHELL"), Some("/bin/bash".to_string()));
    assert_eq!(
        get(&env, "PATH"),
        Some("/usr/local/sbin:/usr/local/bin:/usr/sbin:/usr/bin:/sbin:/bin".to_string())
    );
}

#[test]
fn decimal_text() {
    assert_eq!(decimal_string(0), "0");
    assert_eq!(decimal_string(7), "7");
    assert_eq!(decimal_string(1000), "1000");
    assert_eq!(decimal_string(u32::MAX), "4294967295");
}

#[test]
fn env_map_equality_ignores_order() {
    let mut a = EnvMap::new();
    a.insert("x".to_string(), "1".to_string());
    a.insert("y".to_string(), "2".to_string());
    let mut b = EnvMap::new();
    b.insert("y".to_string(), "2".to_string());
    b.insert("x".to_string(), "0".to_string());
    assert_ne!(a, b);
    b.insert("x".to_string(), "1".to_string());
    assert_eq!(a, b);
    assert_eq!(b.len(), 2);
    let user = user("u", 1, 1, "/", "/bin/sh");
    assert_eq!(user.group_names(), vec!["wheel".to_string()]);
}
