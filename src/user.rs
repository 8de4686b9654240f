//! Identity records as the identity database gives them: users and the
//! groups they belong to.
use vstd::prelude::*;
use crate::auth::Password;
use crate::rules::strings_view;

verus! {

/// A group that a user belongs to.
#[derive(Debug, PartialEq, Eq)]
pub struct Group {
    name: String,
    passwd: Password,
    gid: u32,
}

impl Group {
    pub closed spec fn spec_name(&self) -> Seq<char> {
        self.name@
    }

    pub fn new(name: String, passwd: Password, gid: u32) -> (r: Group)
        ensures
            r.spec_name() == name@,
    {
        Group { name, passwd, gid }
    }

    pub fn get_name(&self) -> (r: &str)
        ensures
            r@ == self.spec_name(),
    {
        self.name.as_str()
    }
}

/// A user: name, password record, numeric ids, groups, home and shell.
#[derive(Debug, PartialEq, Eq)]
pub struct User {
    name: String,
    password: Password,
    uid: u32,
    primary_gid: u32,
    groups: Vec<Group>,
    uid_info: String,
    home: String,
    shell: String,
}

impl User {
    pub closed spec fn spec_name(&self) -> Seq<char> {
        self.name@
    }

    pub closed spec fn spec_password(&self) -> Password {
        self.password
    }

    pub closed spec fn spec_uid(&self) -> u32 {
        self.uid
    }

    pub closed spec fn spec_primary_gid(&self) -> u32 {
        self.primary_gid
    }

    pub closed spec fn spec_groups(&self) -> Seq<Seq<char>> {
        self.groups@.map_values(|g: Group| g.spec_name())
    }

    pub closed spec fn spec_uid_info(&self) -> Seq<char> {
        self.uid_info@
    }

    pub closed spec fn spec_home(&self) -> Seq<char> {
        self.home@
    }

    pub closed spec fn spec_shell(&self) -> Seq<char> {
        self.shell@
    }

    pub fn new(
        name: String,
        password: Password,
        uid: u32,
        primary_gid: u32,
        groups: Vec<Group>,
        uid_info: String,
        home: String,
        shell: String,
    ) -> (r: User)
        ensures
            r.spec_name() == name@,
            r.spec_password() == password,
            r.spec_uid() == uid,
            r.spec_primary_gid() == primary_gid,
            r.spec_groups() == groups@.map_values(|g: Group| g.spec_name()),
            r.spec_uid_info() == uid_info@,
            r.spec_home() == home@,
            r.spec_shell() == shell@,
    {
        User { name, password, uid, primary_gid, groups, uid_info, home, shell }
    }

    /// A user with no password, ids 0 and no groups, for trying things out.
    pub fn test_user() -> (r: User)
        ensures
            r.spec_name() == "\u{1F600}test"@,
            r.spec_password() == Password::NoPass,
            r.spec_uid() == 0,
            r.spec_primary_gid() == 0,
            r.spec_groups() == Seq::<Seq<char>>::empty(),
            r.spec_uid_info() == Seq::<char>::empty(),
            r.spec_home() == Seq::<char>::empty(),
            r.spec_shell() == Seq::<char>::empty(),
    {
        let r = User {
            name: crate::text::owned("\u{1F600}test"),
            password: Password::NoPass,
            uid: 0,
            primary_gid: 0,
            groups: Vec::new(),
            uid_info: String::new(),
            home: String::new(),
            shell: String::new(),
        };
        assert(r.spec_groups() =~= Seq::<Seq<char>>::empty());
        r
    }

    pub fn get_name(&self) -> (r: &str)
        ensures
            r@ == self.spec_name(),
    {
        self.name.as_str()
    }

    pub fn get_password(&self) -> (r: &Password)
        ensures
            *r == self.spec_password(),
    {
        &self.password
    }

    pub fn get_uid(&self) -> (r: u32)
        ensures
            r == self.spec_uid(),
    {
        self.uid
    }

    pub fn get_primary_gid(&self) -> (r: u32)
        ensures
            r == self.spec_primary_gid(),
    {
        self.primary_gid
    }

    pub fn get_uid_info(&self) -> (r: &str)
        ensures
            r@ == self.spec_uid_info(),
    {
        self.uid_info.as_str()
    }

    pub fn get_home(&self) -> (r: &str)
        ensures
            r@ == self.spec_home(),
    {
        self.home.as_str()
    }

    pub fn get_shell(&self) -> (r: &str)
        ensures
            r@ == self.spec_shell(),
    {
        self.shell.as_str()
    }

    pub fn get_groups(&self) -> (r: &Vec<Group>)
        ensures
            r@.map_values(|g: Group| g.spec_name()) == self.spec_groups(),
    {
        &self.groups
    }

    /// The names of the user's groups, in order.
    pub fn group_names(&self) -> (r: Vec<String>)
        ensures
            strings_view(r@) == self.spec_groups(),
    {
        let mut r: Vec<String> = Vec::new();
        let mut k: usize = 0;
        while k < self.groups.len()
            invariant
                k <= self.groups@.len(),
                strings_view(r@) == self.spec_groups().take(k as int),
            decreases self.groups@.len() - k,
        {
            let ghost before = strings_view(r@);
            let name = crate::text::owned(self.groups[k].get_name());
            let ghost nv = name@;
            assert(self.spec_groups()[k as int] == self.groups@[k as int].spec_name());
            r.push(name);
            assert(strings_view(r@) =~= before.push(nv));
            assert(self.spec_groups().take(k + 1) =~= self.spec_groups().take(k as int).push(nv));
            k = k + 1;
        }
        assert(self.spec_groups().take(k as int) =~= self.spec_groups());
        r
    }
}

} // verus!
