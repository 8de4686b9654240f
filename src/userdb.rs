//! Reading identities out of the text of the identity database: the user
//! table (`name:password:uid:gid:info:home:shell`), the shadow table
//! (`name:hash:...`) and the group table (`name:password:gid:members`).
use vstd::prelude::*;
use crate::auth::{Password, SpecPassword};
use crate::lexer::{trim_text, trimmed};
use crate::rules::{same_text, strings_view};
use crate::text::{chars_of, parse_u32, parse_u32_text, split_chars, split_on};
use crate::user::{Group, User};

verus! {

/// The texts of the identity database.
pub struct UserDb {
    pub passwd: String,
    pub shadow: String,
    pub group: String,
    pub gshadow: String,
}

/// Why an identity could not be read.
#[derive(Debug, PartialEq, Eq, Structural, Clone, Copy)]
pub enum UserDbError {
    /// No entry has that name or id.
    NotFound,
    /// An entry lacks a field or holds a number that does not read.
    Malformed,
}

/// The fields of each line of a table.
pub open spec fn table(contents: Seq<char>) -> Seq<Seq<Seq<char>>> {
    split_on(contents, '\n').map_values(|l: Seq<char>| split_on(l, ':'))
}

/// Whether a password field marks an account that has no password.
pub open spec fn is_locked(p: Seq<char>) -> bool {
    p == seq!['!', '!'] || p == seq!['!'] || p == seq!['*'] || p == seq!['*', '*']
}

/// The password that the first shadow entry named `name` holds.
pub open spec fn shadow_lookup(lines: Seq<Seq<Seq<char>>>, name: Seq<char>) -> Result<SpecPassword, UserDbError>
    decreases lines.len(),
{
    if lines.len() == 0 {
        Err(UserDbError::NotFound)
    } else {
        let fs = lines[0];
        if fs.len() > 0 && fs[0] == name {
            if fs.len() < 2 {
                Err(UserDbError::Malformed)
            } else if is_locked(fs[1]) {
                Ok(SpecPassword::NoPass)
            } else {
                Ok(SpecPassword::Hashed(fs[1]))
            }
        } else {
            shadow_lookup(lines.drop_first(), name)
        }
    }
}

/// The password that a user-table field stands for: `x` sends to the shadow
/// table, a lock mark means none, anything else is the password itself.
pub open spec fn password_of(field: Seq<char>, shadow: Seq<char>, name: Seq<char>) -> Result<
    SpecPassword,
    UserDbError,
> {
    if field == seq!['x'] {
        shadow_lookup(table(shadow), name)
    } else if is_locked(field) {
        Ok(SpecPassword::NoPass)
    } else {
        Ok(SpecPassword::Unhashed(field))
    }
}

/// Whether the fields of a user-table line are complete, with numeric ids.
pub open spec fn entry_ok(fs: Seq<Seq<char>>) -> bool {
    fs.len() >= 7 && parse_u32(fs[2]) is Some && parse_u32(fs[3]) is Some
}

/// The first user-table line named `name`.
pub open spec fn find_by_name(lines: Seq<Seq<Seq<char>>>, name: Seq<char>) -> Option<Seq<Seq<char>>>
    decreases lines.len(),
{
    if lines.len() == 0 {
        None
    } else if lines[0].len() > 0 && lines[0][0] == name {
        Some(lines[0])
    } else {
        find_by_name(lines.drop_first(), name)
    }
}

/// The first complete user-table line with id `uid`.
pub open spec fn find_by_uid(lines: Seq<Seq<Seq<char>>>, uid: u32) -> Option<Seq<Seq<char>>>
    decreases lines.len(),
{
    if lines.len() == 0 {
        None
    } else if entry_ok(lines[0]) && parse_u32(lines[0][2]) == Some(uid) {
        Some(lines[0])
    } else {
        find_by_uid(lines.drop_first(), uid)
    }
}

/// The names and ids of the groups whose member lists hold `name`, in table
/// order; every line of the table must be complete.
pub open spec fn groups_of(lines: Seq<Seq<Seq<char>>>, name: Seq<char>) -> Result<
    Seq<Seq<char>>,
    UserDbError,
>
    decreases lines.len(),
{
    if lines.len() == 0 {
        Ok(Seq::empty())
    } else {
        let fs = lines[0];
        if fs.len() < 4 || parse_u32(fs[2]) is None {
            Err(UserDbError::Malformed)
        } else {
            match groups_of(lines.drop_first(), name) {
                Err(e) => Err(e),
                Ok(rest) => if split_on(fs[3], ',').contains(name) {
                    Ok(seq![fs[0]] + rest)
                } else {
                    Ok(rest)
                },
            }
        }
    }
}

/// The user that a complete user-table line describes.
pub open spec fn user_matches(
    u: &User,
    fs: Seq<Seq<char>>,
    password: SpecPassword,
    groups: Seq<Seq<char>>,
) -> bool {
    &&& u.spec_name() == fs[0]
    &&& u.spec_password()@ == password
    &&& Some(u.spec_uid()) == parse_u32(fs[2])
    &&& Some(u.spec_primary_gid()) == parse_u32(fs[3])
    &&& u.spec_uid_info() == fs[4]
    &&& u.spec_home() == fs[5]
    &&& u.spec_shell() == fs[6]
    &&& u.spec_groups() == groups
}

/// What reading the user on user-table line `fs` gives.
pub open spec fn spec_user_of(line: Option<Seq<Seq<char>>>, db: &UserDb) -> Result<
    (Seq<Seq<char>>, SpecPassword, Seq<Seq<char>>),
    UserDbError,
> {
    match line {
        None => Err(UserDbError::NotFound),
        Some(fs) => if !entry_ok(fs) {
            Err(UserDbError::Malformed)
        } else {
            match password_of(fs[1], db.shadow@, fs[0]) {
                Err(e) => Err(e),
                Ok(p) => match groups_of(table(trimmed(db.group@)), fs[0]) {
                    Err(e) => Err(e),
                    Ok(gs) => Ok((fs, p, gs)),
                },
            }
        },
    }
}

/// The fields of each line of `contents`.
fn table_rows(contents: &Vec<char>) -> (r: Vec<Vec<String>>)
    ensures
        r@.len() == table(contents@).len(),
        forall|i: int| 0 <= i < r@.len() ==> strings_view(#[trigger] r@[i]@) == table(contents@)[i],
{
    let lines = split_chars(contents, '\n');
    let mut rows: Vec<Vec<String>> = Vec::new();
    let mut k: usize = 0;
    while k < lines.len()
        invariant
            k <= lines@.len(),
            lines@.map_values(|x: String| x@) == split_on(contents@, '\n'),
            rows@.len() == k,
            forall|i: int| 0 <= i < k ==> strings_view(#[trigger] rows@[i]@) == table(contents@)[i],
        decreases lines@.len() - k,
    {
        let cs = chars_of(lines[k].as_str());
        let fields = split_chars(&cs, ':');
        assert(fields@.map_values(|x: String| x@) == strings_view(fields@));
        rows.push(fields);
        k = k + 1;
    }
    rows
}

fn is_locked_field(p: &String) -> (r: bool)
    ensures
        r == is_locked(p@),
{
    let cs = chars_of(p.as_str());
    let r = (cs.len() == 2 && cs[0] == '!' && cs[1] == '!') || (cs.len() == 1 && cs[0] == '!') || (
    cs.len() == 1 && cs[0] == '*') || (cs.len() == 2 && cs[0] == '*' && cs[1] == '*');
    proof {
        if r {
            assert(cs@ =~= seq!['!', '!'] || cs@ =~= seq!['!'] || cs@ =~= seq!['*'] || cs@ =~= seq![
                '*',
                '*',
            ]);
        } else {
            assert(seq!['!', '!'][0] == '!' && seq!['!', '!'][1] == '!' && seq!['!'][0] == '!');
            assert(seq!['*', '*'][0] == '*' && seq!['*', '*'][1] == '*' && seq!['*'][0] == '*');
        }
    }
    r
}

fn is_x(p: &String) -> (r: bool)
    ensures
        r == (p@ == seq!['x']),
{
    let cs = chars_of(p.as_str());
    let r = cs.len() == 1 && cs[0] == 'x';
    proof {
        if r {
            assert(cs@ =~= seq!['x']);
        } else {
            assert(seq!['x'][0] == 'x');
        }
    }
    r
}

/// The password that the first shadow entry named `name` holds.
pub fn read_from_shadow(shadow: &str, name: &str) -> (r: Result<Password, UserDbError>)
    ensures
        match shadow_lookup(table(shadow@), name@) {
            Ok(p) => r matches Ok(q) && q@ == p,
            Err(e) => r == Err::<Password, UserDbError>(e),
        },
{
    let cs = chars_of(shadow);
    let rows = table_rows(&cs);
    let ghost t = table(shadow@);
    let mut k: usize = 0;
    assert(t.subrange(0, t.len() as int) =~= t);
    while k < rows.len()
        invariant
            k <= rows@.len() == t.len(),
            t == table(shadow@),
            forall|i: int| 0 <= i < rows@.len() ==> strings_view(#[trigger] rows@[i]@) == t[i],
            shadow_lookup(t.subrange(k as int, t.len() as int), name@) == shadow_lookup(t, name@),
        decreases rows@.len() - k,
    {
        let ghost sub = t.subrange(k as int, t.len() as int);
        assert(sub[0] == t[k as int]);
        assert(sub.drop_first() =~= t.subrange(k + 1, t.len() as int));
        let fs = &rows[k];
        assert(strings_view(fs@) == t[k as int]);
        if fs.len() > 0 && same_text(fs[0].as_str(), name) {
            if fs.len() < 2 {
                return Err(UserDbError::Malformed);
            }
            if is_locked_field(&fs[1]) {
                return Ok(Password::NoPass);
            }
            return Ok(Password::Hashed(fs[1].clone()));
        }
        k = k + 1;
    }
    assert(t.subrange(k as int, t.len() as int) =~= Seq::<Seq<Seq<char>>>::empty());
    Err(UserDbError::NotFound)
}

fn password_from_field(field: &String, shadow: &str, name: &String) -> (r: Result<Password, UserDbError>)
    ensures
        match password_of(field@, shadow@, name@) {
            Ok(p) => r matches Ok(q) && q@ == p,
            Err(e) => r == Err::<Password, UserDbError>(e),
        },
{
    if is_x(field) {
        read_from_shadow(shadow, name.as_str())
    } else if is_locked_field(field) {
        Ok(Password::NoPass)
    } else {
        Ok(Password::Unhashed(field.clone()))
    }
}

/// Whether `name` is among the comma-separated `members`.
fn is_member(members: &String, name: &str) -> (r: bool)
    ensures
        r == split_on(members@, ',').contains(name@),
{
    let cs = chars_of(members.as_str());
    let names = split_chars(&cs, ',');
    let ghost v = names@.map_values(|x: String| x@);
    let mut k: usize = 0;
    while k < names.len()
        invariant
            k <= names@.len(),
            v == names@.map_values(|x: String| x@),
            v == split_on(members@, ','),
            forall|i: int| 0 <= i < k ==> v[i] != name@,
        decreases names@.len() - k,
    {
        if same_text(names[k].as_str(), name) {
            assert(v[k as int] == name@);
            return true;
        }
        k = k + 1;
    }
    false
}

impl Group {
    /// The groups whose member lists hold `name`, in table order.
    pub fn from_user_name(db: &UserDb, name: &String) -> (r: Result<Vec<Group>, UserDbError>)
        ensures
            match groups_of(table(trimmed(db.group@)), name@) {
                Ok(gs) => r matches Ok(v) && v@.map_values(|g: Group| g.spec_name()) == gs,
                Err(e) => r matches Err(e2) && e2 == e,
            },
    {
        let cs = trim_text(db.group.as_str());
        let rows = table_rows(&cs);
        let ghost t = table(trimmed(db.group@));
        let mut found: Vec<Group> = Vec::new();
        let mut k: usize = 0;
        assert(t.subrange(0, t.len() as int) =~= t);
        assert(found@.map_values(|g: Group| g.spec_name()) =~= Seq::<Seq<char>>::empty());
        while k < rows.len()
            invariant
                k <= rows@.len() == t.len(),
                t == table(trimmed(db.group@)),
                forall|i: int| 0 <= i < rows@.len() ==> strings_view(#[trigger] rows@[i]@) == t[i],
                match groups_of(t.subrange(k as int, t.len() as int), name@) {
                    Ok(rest) => groups_of(t, name@) == Ok::<Seq<Seq<char>>, UserDbError>(
                        found@.map_values(|g: Group| g.spec_name()) + rest,
                    ),
                    Err(e) => groups_of(t, name@) == Err::<Seq<Seq<char>>, UserDbError>(e),
                },
            decreases rows@.len() - k,
        {
            let ghost sub = t.subrange(k as int, t.len() as int);
            assert(sub[0] == t[k as int]);
            assert(sub.drop_first() =~= t.subrange(k + 1, t.len() as int));
            let fs = &rows[k];
            assert(strings_view(fs@) == t[k as int]);
            if fs.len() < 4 {
                return Err(UserDbError::Malformed);
            }
            let gid = match parse_u32_text(fs[2].as_str()) {
                Some(g) => g,
                None => {
                    return Err(UserDbError::Malformed);
                },
            };
            if is_member(&fs[3], name.as_str()) {
                let passwd = if is_x(&fs[1]) {
                    match read_from_shadow(db.gshadow.as_str(), fs[0].as_str()) {
                        Ok(p) => p,
                        Err(_) => Password::NoPass,
                    }
                } else if is_locked_field(&fs[1]) {
                    Password::NoPass
                } else {
                    Password::Unhashed(fs[1].clone())
                };
                let ghost before = found@.map_values(|g: Group| g.spec_name());
                let g = Group::new(fs[0].clone(), passwd, gid);
                let ghost gn = g.spec_name();
                found.push(g);
                assert(found@.map_values(|g: Group| g.spec_name()) =~= before.push(gn));
                proof {
                    match groups_of(t.subrange(k + 1, t.len() as int), name@) {
                        Ok(rest) => {
                            assert(before + (seq![gn] + rest) =~= before.push(gn) + rest);
                        },
                        Err(e) => {},
                    }
                }
            }
            k = k + 1;
        }
        assert(t.subrange(k as int, t.len() as int) =~= Seq::<Seq<Seq<char>>>::empty());
        assert(found@.map_values(|g: Group| g.spec_name()) + Seq::<Seq<char>>::empty() =~= found@.map_values(
            |g: Group| g.spec_name(),
        ));
        Ok(found)
    }
}

/// The user that user-table fields `fs` describe.
fn user_of_fields(db: &UserDb, fs: &Vec<String>) -> (r: Result<User, UserDbError>)
    ensures
        match spec_user_of(Some(strings_view(fs@)), db) {
            Ok((f, p, gs)) => r matches Ok(u) && user_matches(&u, f, p, gs),
            Err(e) => r matches Err(e2) && e2 == e,
        },
{
    if fs.len() < 7 {
        return Err(UserDbError::Malformed);
    }
    let uid = match parse_u32_text(fs[2].as_str()) {
        Some(u) => u,
        None => {
            return Err(UserDbError::Malformed);
        },
    };
    let gid = match parse_u32_text(fs[3].as_str()) {
        Some(g) => g,
        None => {
            return Err(UserDbError::Malformed);
        },
    };
    let password = match password_from_field(&fs[1], db.shadow.as_str(), &fs[0]) {
        Ok(p) => p,
        Err(e) => {
            return Err(e);
        },
    };
    let groups = match Group::from_user_name(db, &fs[0]) {
        Ok(g) => g,
        Err(e) => {
            return Err(e);
        },
    };
    Ok(
        User::new(
            fs[0].clone(),
            password,
            uid,
            gid,
            groups,
            fs[4].clone(),
            fs[5].clone(),
            fs[6].clone(),
        ),
    )
}

impl User {
    /// The user named `name`, with its password and groups.
    pub fn from_name(db: &UserDb, name: &str) -> (r: Result<User, UserDbError>)
        ensures
            match spec_user_of(find_by_name(table(db.passwd@), name@), db) {
                Ok((f, p, gs)) => r matches Ok(u) && user_matches(&u, f, p, gs),
                Err(e) => r matches Err(e2) && e2 == e,
            },
    {
        let cs = chars_of(db.passwd.as_str());
        let rows = table_rows(&cs);
        let ghost t = table(db.passwd@);
        let mut k: usize = 0;
        assert(t.subrange(0, t.len() as int) =~= t);
        while k < rows.len()
            invariant
                k <= rows@.len() == t.len(),
                t == table(db.passwd@),
                forall|i: int| 0 <= i < rows@.len() ==> strings_view(#[trigger] rows@[i]@) == t[i],
                find_by_name(t.subrange(k as int, t.len() as int), name@) == find_by_name(t, name@),
            decreases rows@.len() - k,
        {
            let ghost sub = t.subrange(k as int, t.len() as int);
            assert(sub[0] == t[k as int]);
            assert(sub.drop_first() =~= t.subrange(k + 1, t.len() as int));
            assert(strings_view(rows@[k as int]@) == t[k as int]);
            if rows[k].len() > 0 && same_text(rows[k][0].as_str(), name) {
                return user_of_fields(db, &rows[k]);
            }
            k = k + 1;
        }
        assert(t.subrange(k as int, t.len() as int) =~= Seq::<Seq<Seq<char>>>::empty());
        Err(UserDbError::NotFound)
    }

    /// The first user with id `uid`, with its password and groups.
    pub fn from_uid(db: &UserDb, uid: u32) -> (r: Result<User, UserDbError>)
        ensures
            match spec_user_of(find_by_uid(table(db.passwd@), uid), db) {
                Ok((f, p, gs)) => r matches Ok(u) && user_matches(&u, f, p, gs),
                Err(e) => r matches Err(e2) && e2 == e,
            },
    {
        let cs = chars_of(db.passwd.as_str());
        let rows = table_rows(&cs);
        let ghost t = table(db.passwd@);
        let mut k: usize = 0;
        assert(t.subrange(0, t.len() as int) =~= t);
        while k < rows.len()
            invariant
                k <= rows@.len() == t.len(),
                t == table(db.passwd@),
                forall|i: int| 0 <= i < rows@.len() ==> strings_view(#[trigger] rows@[i]@) == t[i],
                find_by_uid(t.subrange(k as int, t.len() as int), uid) == find_by_uid(t, uid),
            decreases rows@.len() - k,
        {
            let ghost sub = t.subrange(k as int, t.len() as int);
            assert(sub[0] == t[k as int]);
            assert(sub.drop_first() =~= t.subrange(k + 1, t.len() as int));
            let fs = &rows[k];
            assert(strings_view(fs@) == t[k as int]);
            if fs.len() >= 7 {
                let u = parse_u32_text(fs[2].as_str());
                let g = parse_u32_text(fs[3].as_str());
                if u.is_some() && g.is_some() && u == Some(uid) {
                    return user_of_fields(db, fs);
                }
            }
            k = k + 1;
        }
        assert(t.subrange(k as int, t.len() as int) =~= Seq::<Seq<Seq<char>>>::empty());
        Err(UserDbError::NotFound)
    }
}

} // verus!
