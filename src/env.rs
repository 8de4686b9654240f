//! The environment a command runs in: built as a fresh map, never taken over
//! from the caller's process beyond a few display variables.
use vstd::prelude::*;
use crate::env_map::EnvMap;
use crate::rules::strings_view;
use crate::text::{decimal, decimal_string, owned, push_text};
use crate::user::User;

verus! {

/// The caller's display variables that carry over when they are set.
pub struct Inherited {
    pub lang: Option<String>,
    pub colorterm: Option<String>,
    pub display: Option<String>,
    pub term: Option<String>,
}

/// The search path that commands run with.
pub const SAFE_PATH: &'static str = "/usr/local/sbin:/usr/local/bin:/usr/sbin:/usr/bin:/sbin:/bin";

/// `m` with `k` bound to `v` where `v` is present.
pub open spec fn bind_opt(m: Map<Seq<char>, Seq<char>>, k: Seq<char>, v: Option<String>) -> Map<
    Seq<char>,
    Seq<char>,
> {
    match v {
        Some(x) => m.insert(k, x@),
        None => m,
    }
}

/// The texts of `xs` one after another.
pub open spec fn concat_all(xs: Seq<Seq<char>>) -> Seq<char>
    decreases xs.len(),
{
    if xs.len() == 0 {
        Seq::empty()
    } else {
        concat_all(xs.drop_last()) + xs.last()
    }
}

/// `m` with the bindings of `ps` applied in order.
pub open spec fn apply_pairs(m: Map<Seq<char>, Seq<char>>, ps: Seq<(Seq<char>, Seq<char>)>) -> Map<
    Seq<char>,
    Seq<char>,
>
    decreases ps.len(),
{
    if ps.len() == 0 {
        m
    } else {
        apply_pairs(m, ps.drop_last()).insert(ps.last().0, ps.last().1)
    }
}

/// The environment of a command: the display variables that are set, who
/// called and with what, the target's home and names, a fixed search path and
/// the shell asked for, else the target's; then the rule's own bindings, which win over all of these.
pub open spec fn spec_env(
    current: &User,
    target: &User,
    command: Seq<Seq<char>>,
    shell: Option<Seq<char>>,
    set_env: Seq<(Seq<char>, Seq<char>)>,
    inherited: &Inherited,
) -> Map<Seq<char>, Seq<char>> {
    let m = bind_opt(Map::empty(), "LANG"@, inherited.lang);
    let m = bind_opt(m, "COLORTERM"@, inherited.colorterm);
    let m = bind_opt(m, "DISPLAY"@, inherited.display);
    let m = bind_opt(m, "TERM"@, inherited.term);
    let m = m.insert("SUDO_USER"@, current.spec_name());
    let m = m.insert("USERNAME"@, current.spec_name());
    let m = m.insert("DOAS_USER"@, current.spec_name());
    let m = m.insert("SUDO_UID"@, decimal(current.spec_uid() as nat));
    let m = m.insert("SUDO_GID"@, decimal(current.spec_primary_gid() as nat));
    let m = m.insert("SUDO_COMMAND"@, concat_all(command));
    let m = m.insert("HOME"@, target.spec_home());
    let m = m.insert("USER"@, target.spec_name());
    let m = m.insert("LOGNAME"@, target.spec_name());
    let m = m.insert("PATH"@, SAFE_PATH@);
    let m = m.insert(
        "SHELL"@,
        match shell {
            Some(s) => s,
            None => target.spec_shell(),
        },
    );
    apply_pairs(m, set_env)
}

fn insert_opt(m: &mut EnvMap, k: &str, v: &Option<String>)
    ensures
        final(m)@ == bind_opt(old(m)@, k@, *v),
{
    match v {
        Some(x) => m.insert(owned(k), x.clone()),
        None => {},
    }
}

/// The command line as one text, the words run together.
fn join_command(command: &Vec<String>) -> (r: String)
    ensures
        r@ == concat_all(strings_view(command@)),
{
    let mut r = String::new();
    let mut k: usize = 0;
    assert(strings_view(command@).take(0) =~= Seq::<Seq<char>>::empty());
    while k < command.len()
        invariant
            k <= command@.len(),
            r@ == concat_all(strings_view(command@).take(k as int)),
        decreases command@.len() - k,
    {
        push_text(&mut r, command[k].as_str());
        assert(strings_view(command@).take(k + 1).drop_last() =~= strings_view(command@).take(
            k as int,
        ));
        k = k + 1;
    }
    assert(strings_view(command@).take(k as int) =~= strings_view(command@));
    r
}

/// The environment for running `command` as `target_user` on behalf of
/// `current_user`, with the winning rule's bindings `set_env` applied last.
pub fn set_env_vars(
    current_user: &User,
    target_user: &User,
    command: &Vec<String>,
    shell: &Option<String>,
    set_env: &EnvMap,
    inherited: &Inherited,
) -> (r: EnvMap)
    ensures
        r@ == spec_env(
            current_user,
            target_user,
            strings_view(command@),
            match shell {
                Some(s) => Some(s@),
                None => None,
            },
            set_env.pairs(),
            inherited,
        ),
{
    let mut m = EnvMap::new();
    insert_opt(&mut m, "LANG", &inherited.lang);
    insert_opt(&mut m, "COLORTERM", &inherited.colorterm);
    insert_opt(&mut m, "DISPLAY", &inherited.display);
    insert_opt(&mut m, "TERM", &inherited.term);
    m.insert(owned("SUDO_USER"), owned(current_user.get_name()));
    m.insert(owned("USERNAME"), owned(current_user.get_name()));
    m.insert(owned("DOAS_USER"), owned(current_user.get_name()));
    m.insert(owned("SUDO_UID"), decimal_string(current_user.get_uid()));
    m.insert(owned("SUDO_GID"), decimal_string(current_user.get_primary_gid()));
    m.insert(owned("SUDO_COMMAND"), join_command(command));
    m.insert(owned("HOME"), owned(target_user.get_home()));
    m.insert(owned("USER"), owned(target_user.get_name()));
    m.insert(owned("LOGNAME"), owned(target_user.get_name()));
    m.insert(owned("PATH"), owned(SAFE_PATH));
    let sh = match shell {
        Some(s) => s.clone(),
        None => owned(target_user.get_shell()),
    };
    m.insert(owned("SHELL"), sh);
    let ghost base = m@;
    let n = set_env.len();
    let mut k: usize = 0;
    assert(set_env.pairs().take(0) =~= Seq::<(Seq<char>, Seq<char>)>::empty());
    while k < n
        invariant
            n == set_env.pairs().len(),
            k <= n,
            m@ == apply_pairs(base, set_env.pairs().take(k as int)),
        decreases n - k,
    {
        m.insert(set_env.key_at(k).clone(), set_env.value_at(k).clone());
        assert(set_env.pairs().take(k + 1).drop_last() =~= set_env.pairs().take(k as int));
        k = k + 1;
    }
    assert(set_env.pairs().take(n as int) =~= set_env.pairs());
    m
}

} // verus!
