//! The authorization decision: the last rule in file order that matches a
//! request decides it; where none matches, the request is denied.
use vstd::prelude::*;
use crate::parser::{results_view, SpecResult};
use crate::parser_err::{ParserError, SpecParserError};
use crate::rules::{result_view, rule_matches, strings_view, Rule, SpecRule};

verus! {

/// Whether a parse result is a rule that matches the request.
pub open spec fn result_matches(
    r: SpecResult,
    name: Seq<char>,
    groups: Seq<Seq<char>>,
    target: Seq<char>,
    cmd: Seq<char>,
    cmd_args: Seq<Seq<char>>,
) -> bool {
    r matches Ok(rule) && rule_matches(rule.identity(), rule.args(), name, groups, target, cmd, cmd_args)
}

/// The position of the last rule that matches the request, if any; errors
/// never match.
pub open spec fn last_match(
    rs: Seq<SpecResult>,
    name: Seq<char>,
    groups: Seq<Seq<char>>,
    target: Seq<char>,
    cmd: Seq<char>,
    cmd_args: Seq<Seq<char>>,
) -> Option<int>
    decreases rs.len(),
{
    if rs.len() == 0 {
        None
    } else if result_matches(rs.last(), name, groups, target, cmd, cmd_args) {
        Some(rs.len() - 1)
    } else {
        last_match(rs.drop_last(), name, groups, target, cmd, cmd_args)
    }
}

/// The decision on a request: that of the last matching rule, else deny.
pub open spec fn decision(
    rs: Seq<SpecResult>,
    name: Seq<char>,
    groups: Seq<Seq<char>>,
    target: Seq<char>,
    cmd: Seq<char>,
    cmd_args: Seq<Seq<char>>,
) -> bool {
    match last_match(rs, name, groups, target, cmd, cmd_args) {
        Some(i) => rs[i] matches Ok(rule) && rule.is_permit(),
        None => false,
    }
}

pub proof fn lemma_last_match_bounds(
    rs: Seq<SpecResult>,
    name: Seq<char>,
    groups: Seq<Seq<char>>,
    target: Seq<char>,
    cmd: Seq<char>,
    cmd_args: Seq<Seq<char>>,
)
    ensures
        last_match(rs, name, groups, target, cmd, cmd_args) matches Some(i) ==> 0 <= i < rs.len()
            && result_matches(rs[i], name, groups, target, cmd, cmd_args) && forall|j: int|
            i < j < rs.len() ==> !result_matches(#[trigger] rs[j], name, groups, target, cmd, cmd_args),
        last_match(rs, name, groups, target, cmd, cmd_args) is None ==> forall|j: int|
            0 <= j < rs.len() ==> !result_matches(#[trigger] rs[j], name, groups, target, cmd, cmd_args),
    decreases rs.len(),
{
    if rs.len() > 0 {
        let d = rs.drop_last();
        lemma_last_match_bounds(d, name, groups, target, cmd, cmd_args);
        assert forall|j: int| 0 <= j < d.len() implies d[j] == rs[j] by {}
    }
}

/// Last match wins: a rule that matches a request decides it whatever came
/// before, and the rules after it that do not match change nothing.
pub proof fn lemma_last_match_wins(
    before: Seq<SpecResult>,
    rule: SpecRule,
    after: Seq<SpecResult>,
    name: Seq<char>,
    groups: Seq<Seq<char>>,
    target: Seq<char>,
    cmd: Seq<char>,
    cmd_args: Seq<Seq<char>>,
)
    requires
        rule_matches(rule.identity(), rule.args(), name, groups, target, cmd, cmd_args),
        forall|j: int|
            0 <= j < after.len() ==> !result_matches(#[trigger] after[j], name, groups, target, cmd, cmd_args),
    ensures
        last_match(before.push(Ok(rule)) + after, name, groups, target, cmd, cmd_args) == Some(
            before.len() as int,
        ),
        decision(before.push(Ok(rule)) + after, name, groups, target, cmd, cmd_args) == rule.is_permit(),
    decreases after.len(),
{
    let all = before.push(Ok(rule)) + after;
    if after.len() == 0 {
        assert(all =~= before.push(Ok(rule)));
        assert(all.drop_last() =~= before);
    } else {
        let a = after.drop_last();
        lemma_last_match_wins(before, rule, a, name, groups, target, cmd, cmd_args);
        assert(all.drop_last() =~= before.push(Ok(rule)) + a);
        assert(all.last() == after[after.len() - 1]);
    }
}

/// No match, no permission: where no rule matches a request, it is denied.
pub proof fn lemma_no_match_denies(
    rs: Seq<SpecResult>,
    name: Seq<char>,
    groups: Seq<Seq<char>>,
    target: Seq<char>,
    cmd: Seq<char>,
    cmd_args: Seq<Seq<char>>,
)
    requires
        forall|j: int|
            0 <= j < rs.len() ==> !result_matches(#[trigger] rs[j], name, groups, target, cmd, cmd_args),
    ensures
        last_match(rs, name, groups, target, cmd, cmd_args) is None,
        !decision(rs, name, groups, target, cmd, cmd_args),
{
    lemma_last_match_bounds(rs, name, groups, target, cmd, cmd_args);
}

/// Decides a request against the parsed rules: whether it is permitted, and
/// the rule that decided it. Errors are skipped. Where no rule matches, the
/// answer is `(false, None)`: deny.
pub fn check_if_allowed_and_get_rule(
    rules: Vec<Result<Rule, ParserError>>,
    name: &str,
    groups: &Vec<String>,
    cmd: &str,
    cmd_args: &Vec<String>,
    target: &str,
) -> (r: (bool, Option<Rule>))
    ensures
        ({
            let rs = results_view(rules@);
            let (g, c, a) = (strings_view(groups@), cmd@, strings_view(cmd_args@));
            &&& r.0 == decision(rs, name@, g, target@, c, a)
            &&& match last_match(rs, name@, g, target@, c, a) {
                Some(i) => r.1 matches Some(rule) && rs[i] == Ok::<SpecRule, SpecParserError>(rule@),
                None => r.1 is None,
            }
        }),
{
    let ghost rs = results_view(rules@);
    let ghost (g, c, a) = (strings_view(groups@), cmd@, strings_view(cmd_args@));
    let mut list = rules;
    let mut k = list.len();
    assert(rs.take(k as int) =~= rs);
    while k > 0
        invariant
            k <= list@.len(),
            rs == results_view(list@),
            rs == results_view(rules@),
            last_match(rs.take(k as int), name@, g, target@, c, a) == last_match(rs, name@, g, target@, c, a),
            g == strings_view(groups@),
            a == strings_view(cmd_args@),
            c == cmd@,
        decreases k,
    {
        let ghost t = rs.take(k as int);
        assert(t.drop_last() =~= rs.take(k - 1));
        assert(t.last() == rs[k - 1]);
        let found = match &list[k - 1] {
            Ok(rule) => rule.is_allowed(name, groups, cmd, cmd_args, target).is_some(),
            Err(_) => false,
        };
        if found {
            let ghost entry = list@[k - 1];
            assert(rs[k - 1] == result_view(entry));
            assert(result_matches(t.last(), name@, g, target@, c, a));
            let winner = list.remove(k - 1);
            assert(winner == entry);
            match winner {
                Ok(rule) => {
                    assert(t.len() == k);
                    assert(last_match(t, name@, g, target@, c, a) == Some(k - 1));
                    assert(rs[k - 1] == Ok::<SpecRule, SpecParserError>(rule@));
                    let allowed = match &rule {
                        Rule::Permit(_, _) => true,
                        Rule::Deny(_, _) => false,
                    };
                    return (allowed, Some(rule));
                },
                Err(_) => {
                    return (false, None);
                },
            }
        }
        k = k - 1;
    }
    assert(rs.take(0) =~= Seq::<SpecResult>::empty());
    (false, None)
}

/// What authenticating a caller under the winning rule takes first.
#[derive(Debug, PartialEq, Eq, Structural, Clone, Copy)]
pub enum AuthStep {
    /// No password is needed.
    Granted,
    /// Consult the session store; where it asks for a password, prompt.
    CheckSession,
    /// Prompt for the password and check it.
    Prompt,
}

/// The first step of authenticating under `rule`: `nopass` needs nothing,
/// `persist` consults the session store, anything else prompts.
pub fn first_auth_step(rule: &Rule) -> (r: AuthStep)
    ensures
        r == (if rule@.args().no_pass {
            AuthStep::Granted
        } else if rule@.args().persist {
            AuthStep::CheckSession
        } else {
            AuthStep::Prompt
        }),
{
    if rule.get_no_pass() {
        AuthStep::Granted
    } else if rule.get_persist() {
        AuthStep::CheckSession
    } else {
        AuthStep::Prompt
    }
}

} // verus!
