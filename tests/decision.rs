use rdoas::decision::{check_if_allowed_and_get_rule, first_auth_step, AuthStep};
use rdoas::parser::parse_rules;
use rdoas::rules::{Rule, RuleBuilder};

fn strings(xs: &[&str]) -> Vec<String> {
    xs.iter().map(|s| s.to_string()).collect()
}

fn decide(policy: &str, name: &str, groups: &[&str], cmd: &str, args: &[&str], target: &str) -> (bool, Option<Rule>) {
    check_if_allowed_and_get_rule(parse_rules(policy), name, &strings(groups), cmd, &strings(args), target)
}

#[test]
fn last_match_wins() {
    let policy = "permit alice\ndeny alice cmd /bin/rm";
    let (allowed, rule) = decide(policy, "alice", &[], "/bin/rm", &[], "root");
    assert!(!allowed);
    assert_eq!(rule, RuleBuilder::new().deny().identity_name("alice").with_cmd("/bin/rm").build().ok());
    let (allowed, rule) = decide(policy, "alice", &[], "/bin/ls", &[], "root");
    assert!(allowed);
    assert_eq!(rule, RuleBuilder::new().permit().identity_name("alice").build().ok());
}

#[test]
fn later_permit_overrides_deny() {
    let policy = "deny alice\npermit alice cmd /bin/ls";
    assert!(decide(policy, "alice", &[], "/bin/ls", &[], "root").0);
    assert!(!decide(policy, "alice", &[], "/bin/rm", &[], "root").0);
}

#[test]
fn no_match_is_deny() {
    assert_eq!(decide("permit bob", "alice", &[], "/bin/ls", &[], "root"), (false, None));
    assert_eq!(decide("", "alice", &[], "/bin/ls", &[], "root"), (false, None));
    assert_eq!(decide("bogus line\npermit", "alice", &[], "/bin/ls", &[], "root"), (false, None));
}

#[test]
fn group_target_and_args_constraints() {
    let policy = "permit :wheel as root cmd /bin/echo args hi there";
    assert!(decide(policy, "carol", &["users", "wheel"], "/bin/echo", &["hi", "there"], "root").0);
    assert!(decide(policy, "carol", &["wheel"], " /bin/echo ", &[" hi", "there "], " root").0);
    assert!(!decide(policy, "carol", &["users"], "/bin/echo", &["hi", "there"], "root").0);
    assert!(!decide(policy, "carol", &["wheel"], "/bin/echo", &["hi"], "root").0);
    assert!(!decide(policy, "carol", &["wheel"], "/bin/echo", &["there", "hi"], "root").0);
    assert!(!decide(policy, "carol", &["wheel"], "/bin/echo", &["hi", "there"], "bob").0);
    let empty_args = "permit carol cmd /bin/true args";
    assert!(decide(empty_args, "carol", &[], "/bin/true", &[], "root").0);
    assert!(!decide(empty_args, "carol", &[], "/bin/true", &["x"], "root").0);
}

#[test]
fn is_allowed_per_rule() {
    let rule = RuleBuilder::new().deny().identity_name("alice").build().unwrap();
    assert_eq!(rule.is_allowed("alice", &vec![], "/bin/ls", &vec![], "root"), Some(false));
    assert_eq!(rule.is_allowed("bob", &vec![], "/bin/ls", &vec![], "root"), None);
}

#[test]
fn auth_steps() {
    let r = |p: &str| parse_rules(p).remove(0).unwrap();
    assert_eq!(first_auth_step(&r("permit nopass alice")), AuthStep::Granted);
    assert_eq!(first_auth_step(&r("permit persist alice")), AuthStep::CheckSession);
    assert_eq!(first_auth_step(&r("permit alice")), AuthStep::Prompt);
}
