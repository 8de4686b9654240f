use rdoas::env_map::EnvMap;
use rdoas::lexer::{
    get_next_word, get_tokens, is_unicode_white_space, lex_tokens, parse_set_env, LexerError, Token,
};

fn map_of(pairs: &[(&str, &str)]) -> EnvMap {
    let mut m = EnvMap::new();
    for (k, v) in pairs {
        m.insert(k.to_string(), v.to_string());
    }
    m
}

#[test]
fn test_parse_set_env() {
    assert_eq!(
        parse_set_env("{ key value key2 value2}"),
        Ok((String::new(), {
            let mut m = EnvMap::new();
            m.insert("key".to_string(), "value".to_string());
            m.insert("key2".to_string(), "value2".to_string());
            Token::SetEnv(m)
        }))
    )
}

#[test]
fn test_parse_set_env_with_escapes() {
    assert_eq!(
        parse_set_env(r#"{ key value key2=value2 key\ with\ escapes value key3 value3}"#),
        Ok((String::new(), {
            let mut m = EnvMap::new();
            m.insert("key".to_string(), "value".to_string());
            m.insert("key2".to_string(), "value2".to_string());
            m.insert("key\\ with\\ escapes".to_string(), "value".to_string());
            m.insert("key3".to_string(), "value3".to_string());
            Token::SetEnv(m)
        }))
    );
}

#[test]
fn test_parse_set_env_with_quotes() {
    assert_eq!(
        parse_set_env(
            r#"{ key value key2=value2 "fancy key with quotes" "fancy value" key3 value3}"#
        ),
        Ok((String::new(), {
            let mut m = EnvMap::new();
            m.insert("key".to_string(), "value".to_string());
            m.insert("key2".to_string(), "value2".to_string());
            m.insert("\"fancy key with quotes\"".to_string(), "\"fancy value\"".to_string());
            m.insert("key3".to_string(), "value3".to_string());
            Token::SetEnv(m)
        }))
    );
}

#[test]
fn test_get_next_word() {
    assert_eq!(
        get_next_word(" \t=", " test one two three"),
        Ok((String::from(" one two three"), String::from("test")))
    )
}

#[test]
fn test_full_line() {
    assert_eq!(
        get_tokens("permit setenv {key value key2=value2 \"weird key\" \"weird value\" \\ lol\\ escapes value }bender as root cmd cargo"),
        Ok(vec![
            Token::from("permit"),
            Token::SetEnv({
                let mut m = EnvMap::new();
                m.insert("key".to_string(), "value".to_string());
                m.insert("key2".to_string(), "value2".to_string());
                m.insert("\"weird key\"".to_string(), "\"weird value\"".to_string());
                m.insert("\\ lol\\ escapes".to_string(), "value".to_string());
                m
            }),
            Token::from("bender"),
            Token::from("as"),
            Token::from("root"),
            Token::from("cmd"),
            Token::from("cargo"),
            Token::from("\n"),
        ])
    )
}

#[test]
fn tokens_of_simple_rule() {
    assert_eq!(
        get_tokens("permit bender as root cmd cargo"),
        Ok(vec![
            Token::Permit,
            Token::Ident("bender".to_string()),
            Token::As,
            Token::Ident("root".to_string()),
            Token::Cmd,
            Token::Ident("cargo".to_string()),
            Token::Eol,
        ])
    );
}

#[test]
fn tokens_always_end_in_one_eol() {
    let inputs = [
        "",
        "   \n\n  ",
        "permit a\n",
        "# only a comment",
        "permit a # trailing comment",
        "setenv { unclosed",
        "setenv no brace at all",
        "\"unterminated quote",
        "trailing backslash \\",
        "deny :wheel\n\n\npermit b\n",
    ];
    for input in inputs.iter() {
        let tokens = lex_tokens(input);
        assert_eq!(tokens.last(), Some(&Token::Eol), "input {:?}", input);
        if tokens.len() >= 2 {
            assert_ne!(tokens[tokens.len() - 2], Token::Eol, "input {:?}", input);
        }
    }
}

#[test]
fn quoted_run_is_one_word_with_its_quotes() {
    assert_eq!(
        get_tokens("\"a b\" c"),
        Ok(vec![Token::Ident("\"a b\"".to_string()), Token::Ident("c".to_string()), Token::Eol])
    );
}

#[test]
fn setenv_pairs_and_odd_word_dropped() {
    assert_eq!(
        parse_set_env("setenv { A 1 B=2 }"),
        Ok((String::new(), Token::SetEnv(map_of(&[("A", "1"), ("B", "2")]))))
    );
    assert_eq!(
        parse_set_env("{ A 1 B }rest"),
        Ok((String::from("rest"), Token::SetEnv(map_of(&[("A", "1")]))))
    );
}

#[test]
fn setenv_later_binding_wins() {
    assert_eq!(
        parse_set_env("{ A 1 A 2 }"),
        Ok((String::new(), Token::SetEnv(map_of(&[("A", "2")]))))
    );
}

#[test]
fn setenv_without_braces_is_an_error() {
    assert_eq!(parse_set_env("A 1"), Err(LexerError::NoOrUnmatchedBracket));
    assert_eq!(parse_set_env("{ A 1"), Err(LexerError::NoOrUnmatchedBracket));
}

#[test]
fn no_word_left() {
    assert_eq!(get_next_word(" \t", "  \t "), Err(LexerError::NoWordsLeft));
}

#[test]
fn comments_and_line_ends() {
    assert_eq!(
        get_tokens("permit a # note\ndeny b"),
        Ok(vec![
            Token::Permit,
            Token::Ident("a".to_string()),
            Token::Eol,
            Token::Deny,
            Token::Ident("b".to_string()),
            Token::Eol,
        ])
    );
    assert_eq!(
        get_tokens("permit a \ndeny b"),
        Ok(vec![
            Token::Permit,
            Token::Ident("a".to_string()),
            Token::Eol,
            Token::Deny,
            Token::Ident("b".to_string()),
            Token::Eol,
        ])
    );
}

#[test]
fn escaped_space_stays_in_word() {
    assert_eq!(
        get_tokens("a\\ b c"),
        Ok(vec![Token::Ident("a\\ b".to_string()), Token::Ident("c".to_string()), Token::Eol])
    );
}

#[test]
fn keywords_map_to_tokens() {
    assert_eq!(Token::from("nopass"), Token::NoPass);
    assert_eq!(Token::from("keepenv"), Token::KeepEnv);
    assert_eq!(Token::from("persist"), Token::Persist);
    assert_eq!(Token::from("args"), Token::Args);
    assert_eq!(Token::from("deny"), Token::Deny);
    assert_eq!(Token::from("Permit"), Token::Ident("Permit".to_string()));
}

#[test]
fn white_space_matches_std() {
    for u in 0u32..=0x10FFFF {
        if let Some(c) = char::from_u32(u) {
            assert_eq!(is_unicode_white_space(c), c.is_whitespace(), "char {:?}", c);
        }
    }
}

#[test]
fn setenv_without_braces_fails_the_whole_text() {
    assert_eq!(get_tokens("permit setenv { A 1 alice"), Err(LexerError::NoOrUnmatchedBracket));
    assert_eq!(get_tokens("permit setenv alice\npermit bob"), Err(LexerError::NoOrUnmatchedBracket));
    assert_eq!(
        lex_tokens("permit setenv { A 1 alice\npermit bob"),
        vec![
            Token::Permit,
            Token::Invalid(LexerError::NoOrUnmatchedBracket),
            Token::Eol,
            Token::Permit,
            Token::Ident("bob".to_string()),
            Token::Eol,
        ]
    );
}
