//! Rules of the policy: who they apply to, what they constrain, how a builder
//! assembles them, and whether one matches a request.
use vstd::prelude::*;
use crate::env_map::{EnvMap, insert_all};
use crate::lexer::trimmed;
use crate::parser_err::{ParserError, SpecParserError};
use crate::text::{chars_of, owned, string_of};

verus! {

/// Who a rule applies to: a user by name, or the members of a group.
#[derive(Debug, PartialEq, Eq)]
pub enum UserOrGroup {
    User(String),
    Group(String),
}

/// An identity, as the contracts see it.
pub enum SpecIdentity {
    User(Seq<char>),
    Group(Seq<char>),
}

impl View for UserOrGroup {
    type V = SpecIdentity;

    open spec fn view(&self) -> SpecIdentity {
        match self {
            UserOrGroup::User(n) => SpecIdentity::User(n@),
            UserOrGroup::Group(g) => SpecIdentity::Group(g@),
        }
    }
}

/// The options and constraints of a rule, as the contracts see them. An absent
/// constraint leaves that part of a request free.
pub struct SpecArgs {
    pub persist: bool,
    pub keep_env: bool,
    pub no_pass: bool,
    pub set_env: Seq<(Seq<char>, Seq<char>)>,
    pub target: Option<Seq<char>>,
    pub cmd: Option<Seq<char>>,
    pub args: Option<Seq<Seq<char>>>,
}

/// The options and constraints of a rule.
#[derive(Debug, PartialEq, Eq)]
pub struct ConfigArgs {
    persist: bool,
    keep_env: bool,
    no_pass: bool,
    set_env: EnvMap,
    target: Option<String>,
    cmd: Option<String>,
    args: Option<Vec<String>>,
}

pub open spec fn opt_view(o: Option<String>) -> Option<Seq<char>> {
    match o {
        Some(s) => Some(s@),
        None => None,
    }
}

pub open spec fn strings_view(v: Seq<String>) -> Seq<Seq<char>> {
    v.map_values(|s: String| s@)
}

pub open spec fn opt_strings_view(o: Option<Vec<String>>) -> Option<Seq<Seq<char>>> {
    match o {
        Some(v) => Some(strings_view(v@)),
        None => None,
    }
}

impl View for ConfigArgs {
    type V = SpecArgs;

    closed spec fn view(&self) -> SpecArgs {
        SpecArgs {
            persist: self.persist,
            keep_env: self.keep_env,
            no_pass: self.no_pass,
            set_env: self.set_env.pairs(),
            target: opt_view(self.target),
            cmd: opt_view(self.cmd),
            args: opt_strings_view(self.args),
        }
    }
}

/// A rule: permit or deny, for an identity, under constraints.
#[derive(Debug, PartialEq, Eq)]
pub enum Rule {
    Permit(UserOrGroup, ConfigArgs),
    Deny(UserOrGroup, ConfigArgs),
}

/// A rule, as the contracts see it.
pub enum SpecRule {
    Permit(SpecIdentity, SpecArgs),
    Deny(SpecIdentity, SpecArgs),
}

impl SpecRule {
    pub open spec fn identity(self) -> SpecIdentity {
        match self {
            SpecRule::Permit(who, _) => who,
            SpecRule::Deny(who, _) => who,
        }
    }

    pub open spec fn args(self) -> SpecArgs {
        match self {
            SpecRule::Permit(_, a) => a,
            SpecRule::Deny(_, a) => a,
        }
    }

    pub open spec fn is_permit(self) -> bool {
        self is Permit
    }
}

impl View for Rule {
    type V = SpecRule;

    open spec fn view(&self) -> SpecRule {
        match self {
            Rule::Permit(who, a) => SpecRule::Permit(who@, a@),
            Rule::Deny(who, a) => SpecRule::Deny(who@, a@),
        }
    }
}

/// Whether a rule's identity covers a caller with this name and these groups.
pub open spec fn identity_matches(who: SpecIdentity, name: Seq<char>, groups: Seq<Seq<char>>) -> bool {
    match who {
        SpecIdentity::User(n) => n == name,
        SpecIdentity::Group(g) => groups.contains(g),
    }
}

/// Whether two texts agree once surrounding white space is dropped.
pub open spec fn same_trimmed(a: Seq<char>, b: Seq<char>) -> bool {
    trimmed(a) == trimmed(b)
}

/// Whether a rule's identity and constraints match a request: the caller's
/// name and groups, the target identity, the command and its arguments.
/// Target, command and each argument are compared without surrounding white
/// space; an argument list must match in length and order.
pub open spec fn rule_matches(
    who: SpecIdentity,
    a: SpecArgs,
    name: Seq<char>,
    groups: Seq<Seq<char>>,
    target: Seq<char>,
    cmd: Seq<char>,
    cmd_args: Seq<Seq<char>>,
) -> bool {
    &&& identity_matches(who, name, groups)
    &&& (a.target matches Some(t) ==> same_trimmed(t, target))
    &&& (a.cmd matches Some(c) ==> same_trimmed(c, cmd))
    &&& (a.args matches Some(xs) ==> xs.len() == cmd_args.len() && forall|i: int|
        0 <= i < xs.len() ==> same_trimmed(#[trigger] xs[i], cmd_args[i]))
}

/// `s` with its escapes and quotes resolved, `esc` telling whether a
/// backslash is pending: a backslash is dropped and the character after it
/// kept as it is; a double quote that is not escaped is dropped.
pub open spec fn unescape_from(s: Seq<char>, esc: bool) -> Seq<char>
    decreases s.len(),
{
    if s.len() == 0 {
        Seq::empty()
    } else {
        let c = s[0];
        let rest = s.drop_first();
        if esc {
            seq![c] + unescape_from(rest, false)
        } else if c == '\\' {
            unescape_from(rest, true)
        } else if c == '"' {
            unescape_from(rest, false)
        } else {
            seq![c] + unescape_from(rest, false)
        }
    }
}

/// `s` with its quotes and escapes resolved.
pub open spec fn unescaped(s: Seq<char>) -> Seq<char> {
    unescape_from(s, false)
}

/// Tracks whether the previous character was a pending backslash.
#[derive(Debug, Default)]
struct EscapeString {
    previous_char_is_escape: bool,
}

impl EscapeString {
    fn new() -> (r: Self)
        ensures
            !r.previous_char_is_escape,
    {
        EscapeString { previous_char_is_escape: false }
    }

    /// Whether `c` is kept, given the characters before it.
    fn should_char_be_escaped(&mut self, c: char) -> (r: bool)
        ensures
            old(self).previous_char_is_escape ==> r && !final(self).previous_char_is_escape,
            !old(self).previous_char_is_escape ==> (final(self).previous_char_is_escape
                <==> c == '\\') && (r <==> c != '\\' && c != '"'),
    {
        if self.previous_char_is_escape {
            self.previous_char_is_escape = false;
            true
        } else if c == '\\' {
            self.previous_char_is_escape = true;
            false
        } else {
            c != '"'
        }
    }
}

/// `s` with its quotes and escapes resolved.
pub fn escaped_string(s: &str) -> (r: String)
    ensures
        r@ == unescaped(s@),
{
    let cs = chars_of(s);
    let mut state = EscapeString::new();
    let mut r = String::new();
    let mut k: usize = 0;
    assert(cs@.subrange(0, cs@.len() as int) =~= cs@);
    assert(r@ + unescape_from(cs@, false) =~= unescape_from(cs@, false));
    while k < cs.len()
        invariant
            k <= cs@.len(),
            r@ + unescape_from(cs@.subrange(k as int, cs@.len() as int), state.previous_char_is_escape)
                == unescape_from(cs@, false),
        decreases cs@.len() - k,
    {
        let ghost rest = cs@.subrange(k as int, cs@.len() as int);
        let ghost esc = state.previous_char_is_escape;
        assert(rest.drop_first() =~= cs@.subrange(k + 1, cs@.len() as int));
        let c = cs[k];
        let keep = state.should_char_be_escaped(c);
        if keep {
            let ghost before = r@;
            r.push(c);
            assert(r@ + unescape_from(rest.drop_first(), false) =~= before + (seq![c] + unescape_from(
                rest.drop_first(),
                false,
            )));
        }
        k = k + 1;
    }
    assert(cs@.subrange(k as int, cs@.len() as int) =~= Seq::<char>::empty());
    assert(r@ =~= r@ + Seq::<char>::empty());
    r
}

/// Whether two texts are the same.
pub fn same_text(a: &str, b: &str) -> (r: bool)
    ensures
        r == (a@ == b@),
{
    let x = chars_of(a);
    let y = chars_of(b);
    same_chars(&x, &y)
}

fn same_chars(x: &Vec<char>, y: &Vec<char>) -> (r: bool)
    ensures
        r == (x@ == y@),
{
    if x.len() != y.len() {
        return false;
    }
    let mut k: usize = 0;
    while k < x.len()
        invariant
            x@.len() == y@.len(),
            k <= x@.len(),
            forall|m: int| 0 <= m < k ==> x@[m] == y@[m],
        decreases x@.len() - k,
    {
        if x[k] != y[k] {
            return false;
        }
        k = k + 1;
    }
    assert(x@ =~= y@);
    true
}

/// Whether two texts agree once surrounding white space is dropped.
pub fn trimmed_eq(a: &str, b: &str) -> (r: bool)
    ensures
        r == same_trimmed(a@, b@),
{
    let x = crate::lexer::trim_text(a);
    let y = crate::lexer::trim_text(b);
    same_chars(&x, &y)
}

/// Whether a rule permits or denies.
#[derive(Debug, PartialEq, Eq, Structural, Clone, Copy)]
pub enum RuleType {
    Permit,
    Deny,
}

/// A rule being assembled, as the contracts see it.
pub struct SpecBuilder {
    pub rule_type: Option<RuleType>,
    pub identity: Option<Seq<char>>,
    pub persist: bool,
    pub keep_env: bool,
    pub no_pass: bool,
    pub set_env: Seq<(Seq<char>, Seq<char>)>,
    pub target: Option<Seq<char>>,
    pub cmd: Option<Seq<char>>,
    pub args: Option<Seq<Seq<char>>>,
}

/// A builder with nothing set.
pub open spec fn empty_builder() -> SpecBuilder {
    SpecBuilder {
        rule_type: None,
        identity: None,
        persist: false,
        keep_env: false,
        no_pass: false,
        set_env: Seq::empty(),
        target: None,
        cmd: None,
        args: None,
    }
}

/// The identity that a name in a rule stands for: a leading `:` names a group.
pub open spec fn identity_of(name: Seq<char>) -> SpecIdentity {
    if name.len() > 0 && name[0] == ':' {
        SpecIdentity::Group(name.drop_first())
    } else {
        SpecIdentity::User(name)
    }
}

pub open spec fn opt_unescaped(o: Option<Seq<char>>) -> Option<Seq<char>> {
    match o {
        Some(s) => Some(unescaped(s)),
        None => None,
    }
}

pub open spec fn escape_pairs(ps: Seq<(Seq<char>, Seq<char>)>) -> Seq<(Seq<char>, Seq<char>)> {
    Seq::new(ps.len(), |i: int| (unescaped(ps[i].0), unescaped(ps[i].1)))
}

pub open spec fn escape_all(xs: Seq<Seq<char>>) -> Seq<Seq<char>> {
    Seq::new(xs.len(), |i: int| unescaped(xs[i]))
}

/// The constraints that a builder yields: every text unescaped once, the
/// bindings applied in order.
pub open spec fn built_args(b: SpecBuilder) -> SpecArgs {
    SpecArgs {
        persist: b.persist,
        keep_env: b.keep_env,
        no_pass: b.no_pass,
        set_env: insert_all(Seq::empty(), escape_pairs(b.set_env)),
        target: opt_unescaped(b.target),
        cmd: opt_unescaped(b.cmd),
        args: match b.args {
            Some(xs) => Some(escape_all(xs)),
            None => None,
        },
    }
}

/// What building yields: the rule, or the first missing piece.
pub open spec fn spec_build(b: SpecBuilder) -> Result<SpecRule, SpecParserError> {
    match b.identity {
        None => Err(SpecParserError::MissingIdentity),
        Some(name) => match b.rule_type {
            None => Err(SpecParserError::MissingRuleType),
            Some(RuleType::Permit) => Ok(SpecRule::Permit(identity_of(name), built_args(b))),
            Some(RuleType::Deny) => Ok(SpecRule::Deny(identity_of(name), built_args(b))),
        },
    }
}

/// A rule result, as the contracts see it.
pub open spec fn result_view(r: Result<Rule, ParserError>) -> Result<SpecRule, SpecParserError> {
    match r {
        Ok(rule) => Ok(rule@),
        Err(e) => Err(e@),
    }
}

/// Assembles one rule; each step sets one part.
#[derive(Debug)]
pub struct RuleBuilder {
    rule_type: Option<RuleType>,
    identity_name: Option<String>,
    persist: bool,
    keep_env: bool,
    no_pass: bool,
    set_env: EnvMap,
    target: Option<String>,
    cmd: Option<String>,
    args: Option<Vec<String>>,
}

impl View for RuleBuilder {
    type V = SpecBuilder;

    closed spec fn view(&self) -> SpecBuilder {
        SpecBuilder {
            rule_type: self.rule_type,
            identity: opt_view(self.identity_name),
            persist: self.persist,
            keep_env: self.keep_env,
            no_pass: self.no_pass,
            set_env: self.set_env.pairs(),
            target: opt_view(self.target),
            cmd: opt_view(self.cmd),
            args: opt_strings_view(self.args),
        }
    }
}

impl RuleBuilder {
    pub fn new() -> (r: Self)
        ensures
            r@ == empty_builder(),
    {
        RuleBuilder {
            rule_type: None,
            identity_name: None,
            persist: false,
            keep_env: false,
            no_pass: false,
            set_env: EnvMap::new(),
            target: None,
            cmd: None,
            args: None,
        }
    }

    pub fn permit(self) -> (r: Self)
        ensures
            r@ == (SpecBuilder { rule_type: Some(RuleType::Permit), ..self@ }),
    {
        RuleBuilder { rule_type: Some(RuleType::Permit), ..self }
    }

    pub fn deny(self) -> (r: Self)
        ensures
            r@ == (SpecBuilder { rule_type: Some(RuleType::Deny), ..self@ }),
    {
        RuleBuilder { rule_type: Some(RuleType::Deny), ..self }
    }

    pub fn keep_env(self) -> (r: Self)
        ensures
            r@ == (SpecBuilder { keep_env: true, ..self@ }),
    {
        RuleBuilder { keep_env: true, ..self }
    }

    pub fn set_env(self, m: EnvMap) -> (r: Self)
        ensures
            r@ == (SpecBuilder { set_env: m.pairs(), ..self@ }),
    {
        RuleBuilder { set_env: m, ..self }
    }

    pub fn identity_name(self, name: &str) -> (r: Self)
        ensures
            r@ == (SpecBuilder { identity: Some(name@), ..self@ }),
    {
        RuleBuilder { identity_name: Some(owned(name)), ..self }
    }

    pub fn no_pass(self) -> (r: Self)
        ensures
            r@ == (SpecBuilder { no_pass: true, ..self@ }),
    {
        RuleBuilder { no_pass: true, ..self }
    }

    pub fn target(self, target_user: &str) -> (r: Self)
        ensures
            r@ == (SpecBuilder { target: Some(target_user@), ..self@ }),
    {
        RuleBuilder { target: Some(owned(target_user)), ..self }
    }

    pub fn persist(self) -> (r: Self)
        ensures
            r@ == (SpecBuilder { persist: true, ..self@ }),
    {
        RuleBuilder { persist: true, ..self }
    }

    pub fn with_cmd(self, cmd: &str) -> (r: Self)
        ensures
            r@ == (SpecBuilder { cmd: Some(cmd@), ..self@ }),
    {
        RuleBuilder { cmd: Some(owned(cmd)), ..self }
    }

    pub fn with_cmd_args(self, args: Vec<String>) -> (r: Self)
        ensures
            r@ == (SpecBuilder { args: Some(strings_view(args@)), ..self@ }),
    {
        RuleBuilder { args: Some(args), ..self }
    }

    /// The rule, once a rule type and an identity are set; every text is
    /// unescaped once on the way.
    pub fn build(self) -> (r: Result<Rule, ParserError>)
        ensures
            result_view(r) == spec_build(self@),
    {
        let ghost b = self@;
        let name = match self.identity_name {
            Some(n) => n,
            None => {
                return Err(ParserError::MissingIdentity);
            },
        };
        let rule_type = match self.rule_type {
            Some(t) => t,
            None => {
                return Err(ParserError::MissingRuleType);
            },
        };
        let set_env = escape_env(&self.set_env);
        let target = match self.target {
            Some(t) => Some(escaped_string(t.as_str())),
            None => None,
        };
        let cmd = match self.cmd {
            Some(c) => Some(escaped_string(c.as_str())),
            None => None,
        };
        let args = match self.args {
            Some(xs) => Some(escape_strings(&xs)),
            None => None,
        };
        let conf = ConfigArgs {
            persist: self.persist,
            keep_env: self.keep_env,
            no_pass: self.no_pass,
            set_env,
            target,
            cmd,
            args,
        };
        assert(conf@ == built_args(b));
        let cs = chars_of(name.as_str());
        let identity = if cs.len() > 0 && cs[0] == ':' {
            let g = string_of(&cs, 1, cs.len());
            assert(g@ =~= name@.drop_first());
            UserOrGroup::Group(g)
        } else {
            UserOrGroup::User(name)
        };
        match rule_type {
            RuleType::Permit => Ok(Rule::Permit(identity, conf)),
            RuleType::Deny => Ok(Rule::Deny(identity, conf)),
        }
    }
}

/// The bindings of `m` with keys and values unescaped, applied in order.
fn escape_env(m: &EnvMap) -> (r: EnvMap)
    ensures
        r.pairs() == insert_all(Seq::empty(), escape_pairs(m.pairs())),
{
    let ghost ps = escape_pairs(m.pairs());
    let mut r = EnvMap::new();
    let n = m.len();
    let mut k: usize = 0;
    assert(ps.take(0) =~= Seq::<(Seq<char>, Seq<char>)>::empty());
    while k < n
        invariant
            n == m.pairs().len(),
            ps == escape_pairs(m.pairs()),
            k <= n,
            r.pairs() == insert_all(Seq::empty(), ps.take(k as int)),
        decreases n - k,
    {
        let key = escaped_string(m.key_at(k).as_str());
        let value = escaped_string(m.value_at(k).as_str());
        r.insert(key, value);
        assert(ps.take(k + 1).drop_last() =~= ps.take(k as int));
        k = k + 1;
    }
    assert(ps.take(n as int) =~= ps);
    r
}

/// Each of `xs` unescaped.
fn escape_strings(xs: &Vec<String>) -> (r: Vec<String>)
    ensures
        strings_view(r@) == escape_all(strings_view(xs@)),
{
    let mut r: Vec<String> = Vec::new();
    let mut k: usize = 0;
    while k < xs.len()
        invariant
            k <= xs@.len(),
            strings_view(r@) == escape_all(strings_view(xs@)).take(k as int),
        decreases xs@.len() - k,
    {
        let e = escaped_string(xs[k].as_str());
        assert(strings_view(xs@)[k as int] == xs@[k as int]@);
        let ghost before = strings_view(r@);
        let ghost ev = e@;
        r.push(e);
        assert(strings_view(r@) =~= before.push(ev));
        assert(escape_all(strings_view(xs@)).take(k + 1) =~= escape_all(strings_view(xs@)).take(
            k as int,
        ).push(ev));
        k = k + 1;
    }
    assert(escape_all(strings_view(xs@)).take(k as int) =~= escape_all(strings_view(xs@)));
    r
}

/// Whether `groups` holds `g`.
fn has_group(groups: &Vec<String>, g: &String) -> (r: bool)
    ensures
        r == strings_view(groups@).contains(g@),
{
    let mut k: usize = 0;
    while k < groups.len()
        invariant
            k <= groups@.len(),
            forall|m: int| 0 <= m < k ==> groups@[m]@ != g@,
        decreases groups@.len() - k,
    {
        if same_text(groups[k].as_str(), g.as_str()) {
            assert(strings_view(groups@)[k as int] == g@);
            return true;
        }
        k = k + 1;
    }
    proof {
        if strings_view(groups@).contains(g@) {
            let m = choose|m: int| 0 <= m < groups@.len() && strings_view(groups@)[m] == g@;
            assert(groups@[m]@ == g@);
        }
    }
    false
}

/// Whether a rule with identity `rule_applies_to` and constraints `conf_args`
/// matches the request.
#[verifier::loop_isolation(false)]
pub fn check_if_match(
    rule_applies_to: &UserOrGroup,
    user_attempt_name: &str,
    user_groups: &Vec<String>,
    target: &str,
    cmd: &str,
    cmd_args: &Vec<String>,
    conf_args: &ConfigArgs,
) -> (r: bool)
    ensures
        r == rule_matches(
            rule_applies_to@,
            conf_args@,
            user_attempt_name@,
            strings_view(user_groups@),
            target@,
            cmd@,
            strings_view(cmd_args@),
        ),
{
    match rule_applies_to {
        UserOrGroup::User(s) => {
            if !same_text(s.as_str(), user_attempt_name) {
                return false;
            }
        },
        UserOrGroup::Group(s) => {
            if !has_group(user_groups, s) {
                return false;
            }
        },
    }
    match &conf_args.target {
        Some(rule_target) => {
            if !trimmed_eq(target, rule_target.as_str()) {
                return false;
            }
        },
        None => {},
    }
    match &conf_args.cmd {
        Some(conf_cmd) => {
            if !trimmed_eq(conf_cmd.as_str(), cmd) {
                return false;
            }
        },
        None => {},
    }
    match &conf_args.args {
        Some(conf_cmd_args) => {
            if conf_cmd_args.len() != cmd_args.len() {
                return false;
            }
            let mut k: usize = 0;
            while k < cmd_args.len()
                invariant
                    k <= cmd_args@.len(),
                    conf_cmd_args@.len() == cmd_args@.len(),
                    forall|m: int|
                        0 <= m < k ==> same_trimmed(
                            #[trigger] strings_view(conf_cmd_args@)[m],
                            strings_view(cmd_args@)[m],
                        ),
                decreases cmd_args@.len() - k,
            {
                if !trimmed_eq(conf_cmd_args[k].as_str(), cmd_args[k].as_str()) {
                    assert(!same_trimmed(
                        strings_view(conf_cmd_args@)[k as int],
                        strings_view(cmd_args@)[k as int],
                    ));
                    return false;
                }
                k = k + 1;
            }
        },
        None => {},
    }
    true
}

impl Rule {
    /// `Some(true)` for a matching permit rule, `Some(false)` for a matching
    /// deny rule, `None` where the rule does not match the request.
    pub fn is_allowed(
        &self,
        name: &str,
        groups: &Vec<String>,
        cmd: &str,
        cmd_args: &Vec<String>,
        target: &str,
    ) -> (r: Option<bool>)
        ensures
            r == (if rule_matches(
                self@.identity(),
                self@.args(),
                name@,
                strings_view(groups@),
                target@,
                cmd@,
                strings_view(cmd_args@),
            ) {
                Some(self@.is_permit())
            } else {
                None
            }),
    {
        match self {
            Rule::Permit(user, conf_args) => {
                if check_if_match(user, name, groups, target, cmd, cmd_args, conf_args) {
                    Some(true)
                } else {
                    None
                }
            },
            Rule::Deny(user, conf_args) => {
                if check_if_match(user, name, groups, target, cmd, cmd_args, conf_args) {
                    Some(false)
                } else {
                    None
                }
            },
        }
    }

    pub fn get_identity(&self) -> (r: &UserOrGroup)
        ensures
            r@ == self@.identity(),
    {
        match self {
            Rule::Permit(user, _) => user,
            Rule::Deny(user, _) => user,
        }
    }

    pub fn get_set_env(&self) -> (r: &EnvMap)
        ensures
            r.pairs() == self@.args().set_env,
    {
        match self {
            Rule::Permit(_, args) => &args.set_env,
            Rule::Deny(_, args) => &args.set_env,
        }
    }

    pub fn get_no_pass(&self) -> (r: bool)
        ensures
            r == self@.args().no_pass,
    {
        match self {
            Rule::Permit(_, args) => args.no_pass,
            Rule::Deny(_, args) => args.no_pass,
        }
    }

    pub fn get_persist(&self) -> (r: bool)
        ensures
            r == self@.args().persist,
    {
        match self {
            Rule::Permit(_, args) => args.persist,
            Rule::Deny(_, args) => args.persist,
        }
    }
}

} // verus!
