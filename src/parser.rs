//! Turns policy text into one result per rule line: a rule, or the error that
//! line ran into. After an error in a rule the parser goes on with the next
//! line; after a line that does not start with `permit` or `deny` it goes on
//! with the next `permit` or `deny`. One bad line never discards the rest of
//! the file.
use vstd::prelude::*;
use crate::lexer::{lex_tokens, tokenize, tokens_view, LexerError, SpecToken, Token};
use crate::parser_err::{ParserError, SpecParserError};
use crate::rules::{
    empty_builder, result_view, spec_build, strings_view, Rule, RuleBuilder, RuleType, SpecBuilder,
    SpecRule,
};

verus! {

/// A parse result, as the contracts see it.
pub type SpecResult = Result<SpecRule, SpecParserError>;

/// Whether a token starts a rule.
pub open spec fn is_rule_start(t: SpecToken) -> bool {
    t is Permit || t is Deny
}

/// The tokens from the next `permit` or `deny` on.
pub open spec fn until_next_rule(ts: Seq<SpecToken>) -> Seq<SpecToken>
    decreases ts.len(),
{
    if ts.len() == 0 || is_rule_start(ts[0]) {
        ts
    } else {
        until_next_rule(ts.drop_first())
    }
}

/// The tokens after the next end of line.
pub open spec fn skip_line(ts: Seq<SpecToken>) -> Seq<SpecToken>
    decreases ts.len(),
{
    if ts.len() == 0 {
        ts
    } else if ts[0] is Eol {
        ts.drop_first()
    } else {
        skip_line(ts.drop_first())
    }
}

/// Where parsing goes on after the token `t` turned out wrong: the line is
/// over if `t` ended it, else the rest of the line is dropped.
pub open spec fn after_error(t: SpecToken, rest: Seq<SpecToken>) -> Seq<SpecToken> {
    if t is Eol {
        rest
    } else {
        skip_line(rest)
    }
}

/// The error for a wrong token `t`: the lexer's, where `t` is text that could
/// not be read, else `e`.
pub open spec fn got(t: SpecToken, e: SpecParserError) -> SpecParserError {
    match t {
        SpecToken::Invalid(le) => SpecParserError::Lexer(le),
        _ => e,
    }
}

/// Options applied to `b` up to the identity, which ends them; with the
/// tokens left after, the rest of the line dropped on an error.
pub open spec fn options_and_identity(ts: Seq<SpecToken>, b: SpecBuilder) -> (
    Result<SpecBuilder, SpecParserError>,
    Seq<SpecToken>,
)
    decreases ts.len(),
{
    if ts.len() == 0 {
        (Err(SpecParserError::ExpectedOptionOrIdentityGot(SpecToken::Eol)), ts)
    } else {
        let rest = ts.drop_first();
        match ts[0] {
            SpecToken::NoPass => options_and_identity(rest, SpecBuilder { no_pass: true, ..b }),
            SpecToken::Persist => options_and_identity(rest, SpecBuilder { persist: true, ..b }),
            SpecToken::KeepEnv => options_and_identity(rest, SpecBuilder { keep_env: true, ..b }),
            SpecToken::SetEnv(m) => options_and_identity(rest, SpecBuilder { set_env: m, ..b }),
            SpecToken::Ident(u) => (Ok(SpecBuilder { identity: Some(u), ..b }), rest),
            t => (
                Err(got(t, SpecParserError::ExpectedOptionOrIdentityGot(t))),
                after_error(t, rest),
            ),
        }
    }
}

/// The words of an argument list up to the end of the line, which is
/// consumed; other tokens on the way are passed over, but text that could not
/// be read is an error, and the rest of its line is dropped.
pub open spec fn collect_args(ts: Seq<SpecToken>) -> (Result<Seq<Seq<char>>, LexerError>, Seq<SpecToken>)
    decreases ts.len(),
{
    if ts.len() == 0 {
        (Ok(Seq::empty()), ts)
    } else {
        match ts[0] {
            SpecToken::Ident(a) => {
                let (xs, r) = collect_args(ts.drop_first());
                (
                    match xs {
                        Ok(xs) => Ok(seq![a] + xs),
                        Err(e) => Err(e),
                    },
                    r,
                )
            },
            SpecToken::Eol => (Ok(Seq::empty()), ts.drop_first()),
            SpecToken::Invalid(e) => (Err(e), skip_line(ts.drop_first())),
            _ => collect_args(ts.drop_first()),
        }
    }
}

/// The rule that ends with `cmd path [args ...]`, read after `cmd`.
pub open spec fn cmd_and_args(ts: Seq<SpecToken>, b: SpecBuilder) -> (SpecResult, Seq<SpecToken>) {
    if ts.len() == 0 {
        (Err(SpecParserError::ExpectedCmdNameGot(SpecToken::Eol)), ts)
    } else {
        match ts[0] {
            SpecToken::Ident(c) => {
                let b1 = SpecBuilder { cmd: Some(c), ..b };
                let r1 = ts.drop_first();
                if r1.len() == 0 {
                    (spec_build(b1), r1)
                } else {
                    match r1[0] {
                        SpecToken::Args => {
                            let (xs, r2) = collect_args(r1.drop_first());
                            match xs {
                                Ok(xs) => (spec_build(SpecBuilder { args: Some(xs), ..b1 }), r2),
                                Err(e) => (Err(SpecParserError::Lexer(e)), r2),
                            }
                        },
                        SpecToken::Eol => (spec_build(b1), r1.drop_first()),
                        t => (
                            Err(got(t, SpecParserError::ExpectedArgsGot(t))),
                            after_error(t, r1.drop_first()),
                        ),
                    }
                }
            },
            t => (Err(got(t, SpecParserError::ExpectedCmdNameGot(t))), after_error(t, ts.drop_first())),
        }
    }
}

/// The results of what follows a rule's identity (`as target`, `cmd ...`, the
/// end of the line), the tokens left after, and whether the tokens ran out so
/// that parsing stops.
pub open spec fn after_identity(ts: Seq<SpecToken>, b: SpecBuilder) -> (
    Seq<SpecResult>,
    Seq<SpecToken>,
    bool,
)
    decreases ts.len(),
{
    if ts.len() == 0 {
        (Seq::empty(), ts, true)
    } else {
        let rest = ts.drop_first();
        match ts[0] {
            SpecToken::As => {
                if rest.len() == 0 {
                    (seq![Err(SpecParserError::ExpectedTargetGot(SpecToken::Eol))], rest, true)
                } else {
                    match rest[0] {
                        SpecToken::Ident(t) => after_identity(
                            rest.drop_first(),
                            SpecBuilder { target: Some(t), ..b },
                        ),
                        t => (
                            seq![Err(got(t, SpecParserError::ExpectedTargetGot(t)))],
                            after_error(t, rest.drop_first()),
                            false,
                        ),
                    }
                }
            },
            SpecToken::Cmd => {
                let (r, k) = cmd_and_args(rest, b);
                (seq![r], k, false)
            },
            SpecToken::Eol => (seq![spec_build(b)], rest, false),
            t => (seq![Err(got(t, SpecParserError::ExpectedCmdPathGot(t)))], after_error(t, rest), false),
        }
    }
}

pub proof fn lemma_until_next_rule(ts: Seq<SpecToken>)
    ensures
        until_next_rule(ts).len() <= ts.len(),
        until_next_rule(ts).len() > 0 ==> is_rule_start(until_next_rule(ts)[0]),
    decreases ts.len(),
{
    if ts.len() > 0 && !is_rule_start(ts[0]) {
        lemma_until_next_rule(ts.drop_first());
    }
}

pub proof fn lemma_skip_line(ts: Seq<SpecToken>)
    ensures
        skip_line(ts).len() <= ts.len(),
    decreases ts.len(),
{
    if ts.len() > 0 && !(ts[0] is Eol) {
        lemma_skip_line(ts.drop_first());
    }
}

pub proof fn lemma_options_and_identity(ts: Seq<SpecToken>, b: SpecBuilder)
    ensures
        options_and_identity(ts, b).1.len() <= ts.len(),
    decreases ts.len(),
{
    if ts.len() > 0 {
        let rest = ts.drop_first();
        lemma_skip_line(rest);
        lemma_options_and_identity(rest, SpecBuilder { no_pass: true, ..b });
        lemma_options_and_identity(rest, SpecBuilder { persist: true, ..b });
        lemma_options_and_identity(rest, SpecBuilder { keep_env: true, ..b });
        if let SpecToken::SetEnv(m) = ts[0] {
            lemma_options_and_identity(rest, SpecBuilder { set_env: m, ..b });
        }
    }
}

pub proof fn lemma_collect_args(ts: Seq<SpecToken>)
    ensures
        collect_args(ts).1.len() <= ts.len(),
    decreases ts.len(),
{
    if ts.len() > 0 {
        lemma_collect_args(ts.drop_first());
        lemma_skip_line(ts.drop_first());
    }
}

pub proof fn lemma_after_identity(ts: Seq<SpecToken>, b: SpecBuilder)
    ensures
        after_identity(ts, b).1.len() <= ts.len(),
    decreases ts.len(),
{
    if ts.len() > 0 {
        let rest = ts.drop_first();
        lemma_skip_line(rest);
        if rest.len() > 0 {
            lemma_skip_line(rest.drop_first());
            if let SpecToken::Ident(t) = rest[0] {
                lemma_after_identity(rest.drop_first(), SpecBuilder { target: Some(t), ..b });
            }
            if rest.len() > 1 {
                lemma_collect_args(rest.drop_first().drop_first());
                lemma_skip_line(rest.drop_first().drop_first());
            }
        }
    }
}

/// The results of a token sequence, one per rule line.
pub open spec fn parse_tokens(ts: Seq<SpecToken>) -> Seq<SpecResult>
    decreases ts.len(), 0nat,
{
    if ts.len() == 0 {
        Seq::empty()
    } else {
        let rest = ts.drop_first();
        proof {
            lemma_until_next_rule(rest);
            lemma_skip_line(rest);
        }
        match ts[0] {
            SpecToken::Permit => parse_rule_body(
                rest,
                SpecBuilder { rule_type: Some(RuleType::Permit), ..empty_builder() },
            ),
            SpecToken::Deny => parse_rule_body(
                rest,
                SpecBuilder { rule_type: Some(RuleType::Deny), ..empty_builder() },
            ),
            SpecToken::Eol => parse_tokens(rest),
            SpecToken::Invalid(e) => seq![Err(SpecParserError::Lexer(e))] + parse_tokens(skip_line(rest)),
            t => seq![Err(SpecParserError::ExpectedRuleGot(t))] + parse_tokens(until_next_rule(rest)),
        }
    }
}

/// The results from a rule's options on, and of the lines after it.
pub open spec fn parse_rule_body(ts: Seq<SpecToken>, b: SpecBuilder) -> Seq<SpecResult>
    decreases ts.len(), 1nat,
{
    let (r, k) = options_and_identity(ts, b);
    proof {
        lemma_options_and_identity(ts, b);
    }
    match r {
        Err(e) => seq![Err(e)] + parse_tokens(k),
        Ok(b2) => {
            let (out, k2, stop) = after_identity(k, b2);
            proof {
                lemma_after_identity(k, b2);
            }
            if stop {
                out
            } else {
                out + parse_tokens(k2)
            }
        },
    }
}

/// The results of a policy text, one per rule line, in order.
pub open spec fn spec_parse_rules(text: Seq<char>) -> Seq<SpecResult> {
    parse_tokens(tokenize(text))
}

/// The rule `kind who` with nothing else set.
pub open spec fn plain_rule(kind: RuleType, who: Seq<char>) -> SpecResult {
    spec_build(SpecBuilder { identity: Some(who), ..SpecBuilder { rule_type: Some(kind), ..empty_builder() } })
}

/// One bad line costs one result and no more: between two well-formed lines,
/// a line whose identity is followed by a stray word yields one error, and
/// the lines around it yield their rules, in order.
pub proof fn lemma_bad_line_recovers(a: Seq<char>, b: Seq<char>, x: Seq<char>, c: Seq<char>)
    ensures
        parse_tokens(
            seq![SpecToken::Permit, SpecToken::Ident(a), SpecToken::Eol]
                + seq![SpecToken::Permit, SpecToken::Ident(b), SpecToken::Ident(x), SpecToken::Eol]
                + seq![SpecToken::Deny, SpecToken::Ident(c), SpecToken::Eol],
        ) == seq![
            plain_rule(RuleType::Permit, a),
            Err::<SpecRule, SpecParserError>(SpecParserError::ExpectedCmdPathGot(SpecToken::Ident(x))),
            plain_rule(RuleType::Deny, c),
        ],
{
    let l3 = seq![SpecToken::Deny, SpecToken::Ident(c), SpecToken::Eol];
    let l2 = seq![SpecToken::Permit, SpecToken::Ident(b), SpecToken::Ident(x), SpecToken::Eol] + l3;
    let all = seq![SpecToken::Permit, SpecToken::Ident(a), SpecToken::Eol] + l2;
    let pb = SpecBuilder { rule_type: Some(RuleType::Permit), ..empty_builder() };
    let db = SpecBuilder { rule_type: Some(RuleType::Deny), ..empty_builder() };
    let e3 = seq![SpecToken::Eol];
    assert(l3.drop_first() =~= seq![SpecToken::Ident(c), SpecToken::Eol]);
    assert(seq![SpecToken::Ident(c), SpecToken::Eol].drop_first() =~= e3);
    assert(e3.drop_first() =~= Seq::<SpecToken>::empty());
    assert(after_identity(e3, SpecBuilder { identity: Some(c), ..db }) == (
        seq![plain_rule(RuleType::Deny, c)],
        Seq::<SpecToken>::empty(),
        false,
    ));
    assert(parse_tokens(Seq::<SpecToken>::empty()) == Seq::<SpecResult>::empty());
    let c3 = seq![SpecToken::Ident(c), SpecToken::Eol];
    assert(options_and_identity(c3, db) == (
        Ok::<SpecBuilder, SpecParserError>(SpecBuilder { identity: Some(c), ..db }),
        e3,
    ));
    assert(parse_rule_body(c3, db) == seq![plain_rule(RuleType::Deny, c)] + parse_tokens(
        Seq::<SpecToken>::empty(),
    ));
    assert(seq![plain_rule(RuleType::Deny, c)] + Seq::<SpecResult>::empty() =~= seq![
        plain_rule(RuleType::Deny, c),
    ]);
    assert(parse_tokens(l3) == seq![plain_rule(RuleType::Deny, c)]);
    let r2 = seq![SpecToken::Ident(x), SpecToken::Eol] + l3;
    assert(l2.drop_first() =~= seq![SpecToken::Ident(b)] + r2);
    assert((seq![SpecToken::Ident(b)] + r2).drop_first() =~= r2);
    assert(r2.drop_first() =~= seq![SpecToken::Eol] + l3);
    assert((seq![SpecToken::Eol] + l3).drop_first() =~= l3);
    assert(skip_line(seq![SpecToken::Eol] + l3) == l3);
    assert(options_and_identity(seq![SpecToken::Ident(b)] + r2, pb) == (
        Ok::<SpecBuilder, SpecParserError>(SpecBuilder { identity: Some(b), ..pb }),
        r2,
    ));
    assert(after_identity(r2, SpecBuilder { identity: Some(b), ..pb }) == (
        seq![Err::<SpecRule, SpecParserError>(SpecParserError::ExpectedCmdPathGot(SpecToken::Ident(x)))],
        l3,
        false,
    ));
    assert(parse_rule_body(seq![SpecToken::Ident(b)] + r2, pb) == seq![
        Err::<SpecRule, SpecParserError>(SpecParserError::ExpectedCmdPathGot(SpecToken::Ident(x))),
    ] + parse_tokens(l3));
    assert(parse_tokens(l2) == seq![
        Err::<SpecRule, SpecParserError>(SpecParserError::ExpectedCmdPathGot(SpecToken::Ident(x))),
    ] + parse_tokens(l3));
    let r1 = seq![SpecToken::Ident(a), SpecToken::Eol] + l2;
    assert(all.drop_first() =~= r1);
    assert(r1.drop_first() =~= seq![SpecToken::Eol] + l2);
    assert((seq![SpecToken::Eol] + l2).drop_first() =~= l2);
    assert(options_and_identity(r1, pb) == (
        Ok::<SpecBuilder, SpecParserError>(SpecBuilder { identity: Some(a), ..pb }),
        seq![SpecToken::Eol] + l2,
    ));
    assert(after_identity(seq![SpecToken::Eol] + l2, SpecBuilder { identity: Some(a), ..pb }) == (
        seq![plain_rule(RuleType::Permit, a)],
        l2,
        false,
    ));
    assert(parse_rule_body(r1, pb) == seq![plain_rule(RuleType::Permit, a)] + parse_tokens(l2));
    assert(parse_tokens(all) == seq![plain_rule(RuleType::Permit, a)] + parse_tokens(l2));
    assert(seq![SpecToken::Permit, SpecToken::Ident(a), SpecToken::Eol] + seq![
        SpecToken::Permit,
        SpecToken::Ident(b),
        SpecToken::Ident(x),
        SpecToken::Eol,
    ] + l3 =~= all);
    assert(parse_tokens(all) =~= seq![
        plain_rule(RuleType::Permit, a),
        Err::<SpecRule, SpecParserError>(SpecParserError::ExpectedCmdPathGot(SpecToken::Ident(x))),
        plain_rule(RuleType::Deny, c),
    ]);
}

/// The tokens still to be read from a stack whose next token is its last
/// element.
pub open spec fn pending(st: Seq<Token>) -> Seq<SpecToken> {
    Seq::new(st.len(), |k: int| st[st.len() - 1 - k]@)
}

/// The results, as the contracts see them.
pub open spec fn results_view(rs: Seq<Result<Rule, ParserError>>) -> Seq<SpecResult> {
    rs.map_values(|r: Result<Rule, ParserError>| result_view(r))
}

/// Takes the next token off the stack.
fn next(tokens: &mut Vec<Token>) -> (r: Option<Token>)
    ensures
        pending(old(tokens)@).len() == 0 ==> r is None && final(tokens)@ == old(tokens)@,
        pending(old(tokens)@).len() > 0 ==> (r matches Some(t) && t@ == pending(old(tokens)@)[0]
            && pending(final(tokens)@) == pending(old(tokens)@).drop_first()),
{
    let r = tokens.pop();
    proof {
        if old(tokens)@.len() > 0 {
            assert(pending(tokens@) =~= pending(old(tokens)@).drop_first());
        }
    }
    r
}

/// Whether the next token starts a rule, or none is left.
fn at_rule_start_or_end(tokens: &Vec<Token>) -> (r: bool)
    ensures
        r == (pending(tokens@).len() == 0 || is_rule_start(pending(tokens@)[0])),
{
    let n = tokens.len();
    if n == 0 {
        return true;
    }
    match &tokens[n - 1] {
        Token::Permit => true,
        Token::Deny => true,
        _ => false,
    }
}

/// Drops tokens up to the next `permit` or `deny`.
pub fn go_until_next_rule(tokens: &mut Vec<Token>)
    ensures
        pending(final(tokens)@) == until_next_rule(pending(old(tokens)@)),
{
    loop
        invariant
            until_next_rule(pending(tokens@)) == until_next_rule(pending(old(tokens)@)),
        ensures
            pending(tokens@) == until_next_rule(pending(old(tokens)@)),
        decreases tokens@.len(),
    {
        if at_rule_start_or_end(tokens) {
            return;
        }
        let ghost before = tokens@.len();
        next(tokens);
        assert(pending(tokens@).len() == tokens@.len());
        assert(tokens@.len() < before);
    }
}

/// Drops the tokens up to and including the next end of line.
pub fn skip_rest_of_line(tokens: &mut Vec<Token>)
    ensures
        pending(final(tokens)@) == skip_line(pending(old(tokens)@)),
{
    loop
        invariant
            skip_line(pending(tokens@)) == skip_line(pending(old(tokens)@)),
        ensures
            pending(tokens@) == skip_line(pending(old(tokens)@)),
        decreases tokens@.len(),
    {
        let ghost before = tokens@.len();
        match next(tokens) {
            Some(Token::Eol) => {
                return;
            },
            Some(_) => {},
            None => {
                return;
            },
        }
        assert(pending(tokens@).len() == tokens@.len());
        assert(tokens@.len() < before);
    }
}

/// What was expected where a wrong token came.
pub enum Expected {
    OptionOrIdentity,
    CmdName,
    Target,
    CmdPath,
    Args,
}

/// The error for the wrong token `t` where `k` was expected.
pub open spec fn expected_error(k: Expected, t: SpecToken) -> SpecParserError {
    got(
        t,
        match k {
            Expected::OptionOrIdentity => SpecParserError::ExpectedOptionOrIdentityGot(t),
            Expected::CmdName => SpecParserError::ExpectedCmdNameGot(t),
            Expected::Target => SpecParserError::ExpectedTargetGot(t),
            Expected::CmdPath => SpecParserError::ExpectedCmdPathGot(t),
            Expected::Args => SpecParserError::ExpectedArgsGot(t),
        },
    )
}

/// The error for the wrong token `t`, just taken off the stack; the rest of
/// its line is dropped.
fn wrong_token(k: Expected, t: Token, tokens: &mut Vec<Token>) -> (r: ParserError)
    ensures
        r@ == expected_error(k, t@),
        pending(final(tokens)@) == after_error(t@, pending(old(tokens)@)),
{
    let ends_line = match &t {
        Token::Eol => true,
        _ => false,
    };
    if !ends_line {
        skip_rest_of_line(tokens);
    }
    match t {
        Token::Invalid(e) => ParserError::Lexer(e),
        t => match k {
            Expected::OptionOrIdentity => ParserError::ExpectedOptionOrIdentityGot(t),
            Expected::CmdName => ParserError::ExpectedCmdNameGot(t),
            Expected::Target => ParserError::ExpectedTargetGot(t),
            Expected::CmdPath => ParserError::ExpectedCmdPathGot(t),
            Expected::Args => ParserError::ExpectedArgsGot(t),
        },
    }
}

/// Applies the options that come before the identity to `builder`, then sets
/// the identity. `tokens` holds the tokens still to read, the next one last.
/// On an error the rest of the line is dropped.
pub fn get_options_and_identity(builder: RuleBuilder, tokens: &mut Vec<Token>) -> (r: Result<
    RuleBuilder,
    ParserError,
>)
    ensures
        ({
            let (sr, rest) = options_and_identity(pending(old(tokens)@), builder@);
            &&& pending(final(tokens)@) == rest
            &&& match r {
                Ok(b) => sr == Ok::<SpecBuilder, SpecParserError>(b@),
                Err(e) => sr == Err::<SpecBuilder, SpecParserError>(e@),
            }
        }),
{
    let ghost b0 = builder@;
    let mut cur = builder;
    loop
        invariant
            b0 == builder@,
            options_and_identity(pending(tokens@), cur@) == options_and_identity(
                pending(old(tokens)@),
                b0,
            ),
        decreases tokens@.len(),
    {
        match next(tokens) {
            Some(Token::NoPass) => cur = cur.no_pass(),
            Some(Token::Persist) => cur = cur.persist(),
            Some(Token::KeepEnv) => cur = cur.keep_env(),
            Some(Token::SetEnv(m)) => cur = cur.set_env(m),
            Some(Token::Ident(user_identity)) => {
                return Ok(cur.identity_name(user_identity.as_str()));
            },
            Some(token) => {
                return Err(wrong_token(Expected::OptionOrIdentity, token, tokens));
            },
            None => {
                return Err(ParserError::ExpectedOptionOrIdentityGot(Token::Eol));
            },
        }
    }
}

/// `a` before the words of `r`, or the error of `r`.
pub open spec fn prepend_args(a: Seq<Seq<char>>, r: Result<Seq<Seq<char>>, LexerError>) -> Result<
    Seq<Seq<char>>,
    LexerError,
> {
    match r {
        Ok(xs) => Ok(a + xs),
        Err(e) => Err(e),
    }
}

/// The words of an argument list, up to and including the end of the line.
fn get_args(tokens: &mut Vec<Token>) -> (r: Result<Vec<String>, LexerError>)
    ensures
        match r {
            Ok(v) => collect_args(pending(old(tokens)@)).0 == Ok::<Seq<Seq<char>>, LexerError>(
                strings_view(v@),
            ),
            Err(e) => collect_args(pending(old(tokens)@)).0 == Err::<Seq<Seq<char>>, LexerError>(e),
        },
        pending(final(tokens)@) == collect_args(pending(old(tokens)@)).1,
{
    let mut args: Vec<String> = Vec::new();
    loop
        invariant
            prepend_args(strings_view(args@), collect_args(pending(tokens@)).0) == collect_args(
                pending(old(tokens)@),
            ).0,
            collect_args(pending(tokens@)).1 == collect_args(pending(old(tokens)@)).1,
        decreases tokens@.len(),
    {
        let ghost before = pending(tokens@);
        match next(tokens) {
            Some(Token::Ident(a)) => {
                let ghost av = a@;
                let ghost sv = strings_view(args@);
                args.push(a);
                assert(strings_view(args@) =~= sv.push(av));
                assert(sv + (seq![av] + Seq::<Seq<char>>::empty()) =~= sv.push(av));
                proof {
                    match collect_args(pending(tokens@)).0 {
                        Ok(xs) => {
                            assert(sv + (seq![av] + xs) =~= sv.push(av) + xs);
                        },
                        Err(_) => {},
                    }
                }
            },
            Some(Token::Eol) => {
                assert(strings_view(args@) =~= strings_view(args@) + Seq::<Seq<char>>::empty());
                return Ok(args);
            },
            Some(Token::Invalid(e)) => {
                skip_rest_of_line(tokens);
                return Err(e);
            },
            Some(_) => {},
            None => {
                assert(strings_view(args@) =~= strings_view(args@) + Seq::<Seq<char>>::empty());
                return Ok(args);
            },
        }
    }
}

/// The rule that ends in `cmd path [args ...]`, read after `cmd`. `tokens`
/// holds the tokens still to read, the next one last. On an error the rest of
/// the line is dropped.
pub fn get_cmd_and_args(builder: RuleBuilder, tokens: &mut Vec<Token>) -> (r: Result<Rule, ParserError>)
    ensures
        ({
            let (sr, rest) = cmd_and_args(pending(old(tokens)@), builder@);
            pending(final(tokens)@) == rest && result_view(r) == sr
        }),
{
    match next(tokens) {
        Some(Token::Ident(cmd_name)) => {
            let builder = builder.with_cmd(cmd_name.as_str());
            match next(tokens) {
                Some(Token::Args) => match get_args(tokens) {
                    Ok(args) => builder.with_cmd_args(args).build(),
                    Err(e) => Err(ParserError::Lexer(e)),
                },
                Some(Token::Eol) => builder.build(),
                Some(token) => Err(wrong_token(Expected::Args, token, tokens)),
                None => builder.build(),
            }
        },
        Some(token) => Err(wrong_token(Expected::CmdName, token, tokens)),
        None => Err(ParserError::ExpectedCmdNameGot(Token::Eol)),
    }
}

/// Reads what follows a rule's identity and appends its results to `rules`;
/// whether the tokens ran out so that parsing stops.
fn rest_of_rule(
    builder: RuleBuilder,
    tokens: &mut Vec<Token>,
    rules: &mut Vec<Result<Rule, ParserError>>,
) -> (stop: bool)
    ensures
        ({
            let (out, rest, st) = after_identity(pending(old(tokens)@), builder@);
            &&& results_view(final(rules)@) == results_view(old(rules)@) + out
            &&& pending(final(tokens)@) == rest
            &&& stop == st
        }),
{
    let ghost b0 = builder@;
    let mut cur = builder;
    loop
        invariant
            b0 == builder@,
            after_identity(pending(tokens@), cur@) == after_identity(pending(old(tokens)@), b0),
            results_view(rules@) == results_view(old(rules)@),
        decreases tokens@.len(),
    {
        let ghost before = results_view(rules@);
        match next(tokens) {
            Some(Token::As) => match next(tokens) {
                Some(Token::Ident(target)) => cur = cur.target(target.as_str()),
                Some(token) => {
                    let e = wrong_token(Expected::Target, token, tokens);
                    let ghost ev = result_view(Err(e));
                    rules.push(Err(e));
                    assert(results_view(rules@) =~= before + seq![ev]);
                    return false;
                },
                None => {
                    rules.push(Err(ParserError::ExpectedTargetGot(Token::Eol)));
                    assert(results_view(rules@) =~= before + seq![
                        Err(SpecParserError::ExpectedTargetGot(SpecToken::Eol)),
                    ]);
                    return true;
                },
            },
            Some(Token::Cmd) => {
                let r = get_cmd_and_args(cur, tokens);
                let ghost rv = result_view(r);
                rules.push(r);
                assert(results_view(rules@) =~= before + seq![rv]);
                return false;
            },
            Some(Token::Eol) => {
                let r = cur.build();
                let ghost rv = result_view(r);
                rules.push(r);
                assert(results_view(rules@) =~= before + seq![rv]);
                return false;
            },
            Some(token) => {
                let e = wrong_token(Expected::CmdPath, token, tokens);
                let ghost ev = result_view(Err(e));
                rules.push(Err(e));
                assert(results_view(rules@) =~= before + seq![ev]);
                return false;
            },
            None => {
                assert(results_view(rules@) =~= before + Seq::<SpecResult>::empty());
                return true;
            },
        }
    }
}

/// The stack whose pending tokens are `ts`, in order.
fn into_stack(ts: Vec<Token>) -> (st: Vec<Token>)
    ensures
        pending(st@) == tokens_view(ts@),
{
    let ghost orig = ts@;
    let n = ts.len();
    let mut ts = ts;
    let mut st: Vec<Token> = Vec::new();
    while ts.len() > 0
        invariant
            n == orig.len(),
            st@.len() + ts@.len() == n,
            forall|k: int| 0 <= k < ts@.len() ==> ts@[k] == orig[k],
            forall|k: int| 0 <= k < st@.len() ==> st@[k] == orig[n - 1 - k],
        decreases ts@.len(),
    {
        let t = ts.pop().unwrap();
        st.push(t);
    }
    assert(pending(st@) =~= tokens_view(orig));
    st
}

/// The rules of a policy text: one result per rule line, in order, each the
/// rule or the error that its line ran into.
pub fn parse_rules(contents: &str) -> (r: Vec<Result<Rule, ParserError>>)
    ensures
        results_view(r@) == spec_parse_rules(contents@),
{
    let tokens = lex_tokens(contents);
    let mut tokens = into_stack(tokens);
    let mut rules: Vec<Result<Rule, ParserError>> = Vec::new();
    loop
        invariant_except_break
            results_view(rules@) + parse_tokens(pending(tokens@)) == spec_parse_rules(contents@),
        ensures
            results_view(rules@) == spec_parse_rules(contents@),
        decreases tokens@.len(),
    {
        let ghost ts = pending(tokens@);
        let ghost before = results_view(rules@);
        proof {
            lemma_until_next_rule(ts.drop_first());
            lemma_skip_line(ts.drop_first());
        }
        let rule = RuleBuilder::new();
        let rule = match next(&mut tokens) {
            Some(Token::Permit) => rule.permit(),
            Some(Token::Deny) => rule.deny(),
            Some(Token::Eol) => {
                continue;
            },
            Some(Token::Invalid(e)) => {
                let ghost ev = result_view(Err(ParserError::Lexer(e)));
                rules.push(Err(ParserError::Lexer(e)));
                skip_rest_of_line(&mut tokens);
                assert(results_view(rules@) =~= before + seq![ev]);
                assert(results_view(rules@) + parse_tokens(pending(tokens@)) =~= before + parse_tokens(
                    ts,
                ));
                continue;
            },
            Some(token) => {
                let e = ParserError::ExpectedRuleGot(token);
                let ghost ev = result_view(Err(e));
                rules.push(Err(e));
                go_until_next_rule(&mut tokens);
                assert(results_view(rules@) =~= before + seq![ev]);
                assert(results_view(rules@) + parse_tokens(pending(tokens@)) =~= before + parse_tokens(
                    ts,
                ));
                continue;
            },
            None => {
                assert(results_view(rules@) =~= results_view(rules@) + parse_tokens(ts));
                break ;
            },
        };
        let ghost b = rule@;
        assert(parse_tokens(ts) == parse_rule_body(pending(tokens@), b));
        proof {
            lemma_options_and_identity(pending(tokens@), b);
        }
        let rule = match get_options_and_identity(rule, &mut tokens) {
            Ok(rule) => rule,
            Err(e) => {
                let ghost ev = result_view(Err(e));
                rules.push(Err(e));
                assert(results_view(rules@) =~= before + seq![ev]);
                assert(results_view(rules@) + parse_tokens(pending(tokens@)) =~= before + parse_tokens(
                    ts,
                ));
                continue;
            },
        };
        proof {
            lemma_after_identity(pending(tokens@), rule@);
        }
        let stop = rest_of_rule(rule, &mut tokens, &mut rules);
        if stop {
            assert(results_view(rules@) =~= results_view(rules@) + Seq::<SpecResult>::empty());
            assert(results_view(rules@) == spec_parse_rules(contents@));
            break ;
        }
        assert(results_view(rules@) + parse_tokens(pending(tokens@)) =~= before + parse_tokens(ts));
    }
    rules
}

} // verus!
