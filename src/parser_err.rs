//! The errors that the parser reports for a line of policy.
use vstd::prelude::*;
use crate::lexer::{token_text, LexerError, SpecToken, Token};
use crate::text::push_text;

verus! {

/// What went wrong on a line of policy. Each carries the token or text that
/// was found, never secret material.
#[derive(Debug, PartialEq, Eq)]
pub enum ParserError {
    /// No user goes by this name.
    NoUser(String),
    /// A line must start with `permit` or `deny`.
    ExpectedRuleGot(Token),
    /// After the rule keyword come options, then the identity.
    ExpectedOptionOrIdentityGot(Token),
    /// `cmd` must be followed by the command.
    ExpectedCmdNameGot(Token),
    /// `as` must be followed by the target identity.
    ExpectedTargetGot(Token),
    /// After the identity only `as`, `cmd` or the end of the line may come.
    ExpectedCmdPathGot(Token),
    /// After the command only `args` or the end of the line may come.
    ExpectedArgsGot(Token),
    /// The rule was built without an identity.
    MissingIdentity,
    /// The rule was built without `permit` or `deny`.
    MissingRuleType,
    /// The line holds text that could not be read.
    Lexer(LexerError),
}

/// A parser error, as the contracts see it.
pub enum SpecParserError {
    NoUser(Seq<char>),
    ExpectedRuleGot(SpecToken),
    ExpectedOptionOrIdentityGot(SpecToken),
    ExpectedCmdNameGot(SpecToken),
    ExpectedTargetGot(SpecToken),
    ExpectedCmdPathGot(SpecToken),
    ExpectedArgsGot(SpecToken),
    MissingIdentity,
    MissingRuleType,
    Lexer(LexerError),
}

impl View for ParserError {
    type V = SpecParserError;

    open spec fn view(&self) -> SpecParserError {
        match self {
            ParserError::NoUser(n) => SpecParserError::NoUser(n@),
            ParserError::ExpectedRuleGot(t) => SpecParserError::ExpectedRuleGot(t@),
            ParserError::ExpectedOptionOrIdentityGot(t) => SpecParserError::ExpectedOptionOrIdentityGot(
                t@,
            ),
            ParserError::ExpectedCmdNameGot(t) => SpecParserError::ExpectedCmdNameGot(t@),
            ParserError::ExpectedTargetGot(t) => SpecParserError::ExpectedTargetGot(t@),
            ParserError::ExpectedCmdPathGot(t) => SpecParserError::ExpectedCmdPathGot(t@),
            ParserError::ExpectedArgsGot(t) => SpecParserError::ExpectedArgsGot(t@),
            ParserError::MissingIdentity => SpecParserError::MissingIdentity,
            ParserError::MissingRuleType => SpecParserError::MissingRuleType,
            ParserError::Lexer(e) => SpecParserError::Lexer(*e),
        }
    }
}

/// How a parser error reads in a diagnostic.
pub open spec fn error_text(e: SpecParserError) -> Seq<char> {
    match e {
        SpecParserError::NoUser(n) => "Couldn't find a user representing \""@ + n + "\""@,
        SpecParserError::ExpectedRuleGot(t) => "Expected a rule (permit | deny) got \""@ + token_text(t)
            + "\"."@,
        SpecParserError::ExpectedOptionOrIdentityGot(t) =>
            "Expected an option to rule (e.g. persist, nopass, keepenv, setenv) or user identity got \""@
            + token_text(t) + "\"."@,
        SpecParserError::ExpectedCmdNameGot(t) => "Expected a command name got \""@ + token_text(t)
            + "\"."@,
        SpecParserError::ExpectedTargetGot(t) => "Expected target user got \""@ + token_text(t) + "\"."@,
        SpecParserError::ExpectedCmdPathGot(t) => "Expected cmd path got \""@ + token_text(t) + "\""@,
        SpecParserError::ExpectedArgsGot(t) => "Expected args got \""@ + token_text(t) + "\""@,
        SpecParserError::MissingIdentity => "Expected a user identity."@,
        SpecParserError::MissingRuleType => "Expected a rule type (permit | deny)."@,
        SpecParserError::Lexer(_) => "A setenv block lacks its braces."@,
    }
}

fn quoted_token(out: &mut String, prefix: &str, t: &Token, suffix: &str)
    ensures
        final(out)@ == old(out)@ + (prefix@ + token_text(t@) + suffix@),
{
    push_text(out, prefix);
    t.write_text(out);
    push_text(out, suffix);
    assert(out@ =~= old(out)@ + (prefix@ + token_text(t@) + suffix@));
}

impl ParserError {
    /// How the error reads in a diagnostic.
    pub fn to_text(&self) -> (r: String)
        ensures
            r@ == error_text(self@),
    {
        let mut out = String::new();
        match self {
            ParserError::NoUser(name) => {
                push_text(&mut out, "Couldn't find a user representing \"");
                push_text(&mut out, name.as_str());
                push_text(&mut out, "\"");
            },
            ParserError::ExpectedRuleGot(t) => quoted_token(
                &mut out,
                "Expected a rule (permit | deny) got \"",
                t,
                "\".",
            ),
            ParserError::ExpectedOptionOrIdentityGot(t) => quoted_token(
                &mut out,
                "Expected an option to rule (e.g. persist, nopass, keepenv, setenv) or user identity got \"",
                t,
                "\".",
            ),
            ParserError::ExpectedCmdNameGot(t) => quoted_token(
                &mut out,
                "Expected a command name got \"",
                t,
                "\".",
            ),
            ParserError::ExpectedTargetGot(t) => quoted_token(
                &mut out,
                "Expected target user got \"",
                t,
                "\".",
            ),
            ParserError::ExpectedCmdPathGot(t) => quoted_token(&mut out, "Expected cmd path got \"", t, "\""),
            ParserError::ExpectedArgsGot(t) => quoted_token(&mut out, "Expected args got \"", t, "\""),
            ParserError::MissingIdentity => push_text(&mut out, "Expected a user identity."),
            ParserError::MissingRuleType => push_text(&mut out, "Expected a rule type (permit | deny)."),
            ParserError::Lexer(_) => push_text(&mut out, "A setenv block lacks its braces."),
        }
        assert(out@ =~= error_text(self@));
        out
    }
}

} // verus!
