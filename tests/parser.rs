use rdoas::env_map::EnvMap;
use rdoas::lexer::{LexerError, Token};
use rdoas::parser::parse_rules;
use rdoas::parser_err::ParserError;
use rdoas::rules::{escaped_string, RuleBuilder};

#[test]
fn check_parse_line() {
    assert_eq!(
        parse_rules("permit bender as root"),
        vec![RuleBuilder::new()
            .target("root")
            .permit()
            .identity_name("bender")
            .build()]
    )
}

#[test]
fn check_parse_multi_line() {
    assert_eq!(
        parse_rules("permit bender as root\n permit test as user"),
        vec![
            RuleBuilder::new()
                .target("root")
                .permit()
                .identity_name("bender")
                .build(),
            RuleBuilder::new()
                .permit()
                .target("user")
                .identity_name("test")
                .build()
        ]
    )
}

#[test]
fn check_unknown_rule() {
    assert_eq!(
        parse_rules("wiojgroijgioj"),
        vec![Err(ParserError::ExpectedRuleGot(Token::from("wiojgroijgioj")))]
    )
}

#[test]
fn check_unknown_option() {
    assert_eq!(
        parse_rules("permit cmd"),
        vec![Err(ParserError::ExpectedOptionOrIdentityGot(Token::from("cmd")))]
    )
}

#[test]
fn check_unknown_cmd_path() {
    assert_eq!(
        parse_rules("permit john john"),
        vec![Err(ParserError::ExpectedCmdPathGot(Token::from("john")))]
    )
}

#[test]
fn check_parse_full_multi_line() {
    assert_eq!(
        parse_rules(
            "permit bender as root cmd cargo args\n permit test as user cmd echo args \"hi\""
        ),
        vec![
            RuleBuilder::new()
                .target("root")
                .permit()
                .identity_name("bender")
                .with_cmd("cargo")
                .with_cmd_args(vec![])
                .build(),
            RuleBuilder::new()
                .permit()
                .target("user")
                .identity_name("test")
                .with_cmd("echo")
                .with_cmd_args(vec!["\"hi\"".to_string()])
                .build()
        ]
    )
}

#[test]
fn check_parse_deny_full_multi_line() {
    assert_eq!(
        parse_rules(
            "deny bender as root cmd cargo args\n permit test as user cmd echo args \"hi bois\" test"
        ),
        vec![
            RuleBuilder::new()
                .target("root")
                .deny()
                .identity_name("bender")
                .with_cmd("cargo")
                .with_cmd_args(vec![])
                .build(),
            RuleBuilder::new()
                .permit()
                .target("user")
                .identity_name("test")
                .with_cmd("echo")
                .with_cmd_args(vec!["\"hi bois\"".to_string(), "test".to_string()])
                .build()
        ]
    )
}

#[test]
fn check_parse_full_line() {
    assert_eq!(
        parse_rules(
            "permit persist setenv { key value key2=value2 \"key one\" \"value one\" } bender as root cmd cargo args"
        ),
        vec![RuleBuilder::new()
            .target("root")
            .permit()
            .persist()
            .set_env({
                let mut m = EnvMap::new();
                m.insert("key".to_string(), "value".to_string());
                m.insert("key2".to_string(), "value2".to_string());
                m.insert("\"key one\"".to_string(), "\"value one\"".to_string());
                m
            })
            .identity_name("bender")
            .with_cmd("cargo")
            .with_cmd_args(vec![])
            .build(),]
    )
}

#[test]
fn test_escape_string() {
    assert_eq!(escaped_string(r#"\ woah"#), String::from(" woah"));
    assert_eq!(escaped_string("\" woah\""), String::from(" woah"));
    assert_eq!(escaped_string(r#"\" woah\""#), String::from(r#"" woah""#));
    assert_eq!(escaped_string("\\\" woah"), String::from("\" woah"));
}

#[test]
fn malformed_middle_line_gives_one_error() {
    let results = parse_rules("permit alice\npermit bob bogus\ndeny carol");
    assert_eq!(results.len(), 3);
    assert_eq!(results[0], RuleBuilder::new().permit().identity_name("alice").build());
    assert_eq!(results[1], Err(ParserError::ExpectedCmdPathGot(Token::from("bogus"))));
    assert_eq!(results[2], RuleBuilder::new().deny().identity_name("carol").build());
    assert_eq!(results.iter().filter(|r| r.is_err()).count(), 1);
}

#[test]
fn blank_lines_and_comments_give_nothing() {
    assert_eq!(parse_rules("\n\n# a comment\n   \n"), vec![]);
}

#[test]
fn group_identity_and_options() {
    assert_eq!(
        parse_rules("permit nopass keepenv :wheel"),
        vec![RuleBuilder::new().permit().no_pass().keep_env().identity_name(":wheel").build()]
    );
    let rule = parse_rules("permit nopass keepenv :wheel").remove(0).unwrap();
    assert_eq!(rule.get_identity(), &rdoas::rules::UserOrGroup::Group("wheel".to_string()));
    assert!(rule.get_no_pass());
    assert!(!rule.get_persist());
}

#[test]
fn missing_target_after_as() {
    assert_eq!(
        parse_rules("permit alice as\npermit bob"),
        vec![
            Err(ParserError::ExpectedTargetGot(Token::Eol)),
            RuleBuilder::new().permit().identity_name("bob").build()
        ]
    );
}

#[test]
fn missing_command_after_cmd() {
    assert_eq!(
        parse_rules("permit alice cmd\npermit bob"),
        vec![
            Err(ParserError::ExpectedCmdNameGot(Token::Eol)),
            RuleBuilder::new().permit().identity_name("bob").build()
        ]
    );
}

#[test]
fn junk_after_command() {
    assert_eq!(
        parse_rules("permit alice cmd ls nonsense"),
        vec![Err(ParserError::ExpectedArgsGot(Token::from("nonsense")))]
    );
}

#[test]
fn builder_reports_missing_parts() {
    assert_eq!(RuleBuilder::new().permit().build(), Err(ParserError::MissingIdentity));
    assert_eq!(RuleBuilder::new().identity_name("a").build(), Err(ParserError::MissingRuleType));
}

#[test]
fn build_unescapes_once() {
    let rule = RuleBuilder::new()
        .permit()
        .identity_name("a")
        .with_cmd("\"/bin/my prog\"")
        .build()
        .unwrap();
    let other = RuleBuilder::new().permit().identity_name("a").with_cmd("/bin/my\\ prog").build().unwrap();
    assert_eq!(rule, other);
    let rule = RuleBuilder::new()
        .permit()
        .identity_name("a")
        .set_env({
            let mut m = EnvMap::new();
            m.insert("\"K\"".to_string(), "v\\\"".to_string());
            m
        })
        .build()
        .unwrap();
    assert_eq!(rule.get_set_env().get(&"K".to_string()), Some(&"v\"".to_string()));
}

#[test]
fn error_texts() {
    assert_eq!(
        ParserError::ExpectedRuleGot(Token::from("x")).to_text(),
        "Expected a rule (permit | deny) got \"x\"."
    );
    assert_eq!(ParserError::ExpectedCmdPathGot(Token::Eol).to_text(), "Expected cmd path got \"End Of Line\"");
    assert_eq!(ParserError::NoUser("bob".to_string()).to_text(), "Couldn't find a user representing \"bob\"");
    let mut m = EnvMap::new();
    m.insert("A".to_string(), "1".to_string());
    m.insert("B".to_string(), "2".to_string());
    assert_eq!(Token::SetEnv(m).to_text(), "setenv {A=1 B=2}");
    assert_eq!(Token::NoPass.to_text(), "nopass");
}

#[test]
fn one_result_per_line_after_errors() {
    assert_eq!(
        parse_rules("permit alice cmd as foo\npermit bob"),
        vec![
            Err(ParserError::ExpectedCmdNameGot(Token::As)),
            RuleBuilder::new().permit().identity_name("bob").build()
        ]
    );
    assert_eq!(
        parse_rules("permit alice as cmd ls\npermit bob cmd ls junk more\ndeny carol"),
        vec![
            Err(ParserError::ExpectedTargetGot(Token::Cmd)),
            Err(ParserError::ExpectedArgsGot(Token::from("junk"))),
            RuleBuilder::new().deny().identity_name("carol").build()
        ]
    );
    assert_eq!(
        parse_rules("permit keepenv as\nstray\npermit dave"),
        vec![
            Err(ParserError::ExpectedOptionOrIdentityGot(Token::As)),
            Err(ParserError::ExpectedRuleGot(Token::from("stray"))),
            RuleBuilder::new().permit().identity_name("dave").build()
        ]
    );
}

#[test]
fn unreadable_setenv_is_reported_and_parsing_goes_on() {
    assert_eq!(
        parse_rules("permit setenv { A 1 alice\npermit bob"),
        vec![
            Err(ParserError::Lexer(LexerError::NoOrUnmatchedBracket)),
            RuleBuilder::new().permit().identity_name("bob").build()
        ]
    );
    assert_eq!(
        parse_rules("setenv\ndeny bob"),
        vec![
            Err(ParserError::Lexer(LexerError::NoOrUnmatchedBracket)),
            RuleBuilder::new().deny().identity_name("bob").build()
        ]
    );
    assert_eq!(
        ParserError::Lexer(LexerError::NoOrUnmatchedBracket).to_text(),
        "A setenv block lacks its braces."
    );
}
