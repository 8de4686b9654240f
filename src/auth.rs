//! Checking a password attempt against a stored password record: legacy
//! plain text, or a `$id$salt$hash` string whose scheme id picks the one-way
//! function.
use vstd::prelude::*;
use crate::text::{
    chars_of, find_char_at, lemma_find_char, lemma_split_len, slice_chars, split_from, split_on,
    string_of,
};

verus! {

/// A stored password record.
#[derive(Debug, PartialEq, Eq)]
pub enum Password {
    /// The account has no password.
    NoPass,
    /// A `$id$salt$hash` string.
    Hashed(String),
    /// A legacy plain-text password.
    Unhashed(String),
}

/// A stored password record, as the contracts see it.
pub enum SpecPassword {
    NoPass,
    Hashed(Seq<char>),
    Unhashed(Seq<char>),
}

impl View for Password {
    type V = SpecPassword;

    open spec fn view(&self) -> SpecPassword {
        match self {
            Password::NoPass => SpecPassword::NoPass,
            Password::Hashed(h) => SpecPassword::Hashed(h@),
            Password::Unhashed(p) => SpecPassword::Unhashed(p@),
        }
    }
}

/// Why a password check failed.
#[derive(Debug, PartialEq, Eq, Structural, Clone, Copy)]
pub enum AuthFailure {
    /// The attempt does not match.
    Mismatch,
    /// The account has no password, so none can match.
    NoPassword,
    /// The stored hash does not split into scheme id, salt and hash: the
    /// password database is damaged.
    MalformedHash,
    /// The stored hash names a scheme that is not supported.
    UnsupportedScheme,
}

/// The supported one-way functions.
#[derive(Debug, PartialEq, Eq, Structural, Clone, Copy)]
pub enum HashScheme {
    Sha512Crypt,
    Sha256Crypt,
    Bcrypt,
    Md5Crypt,
}

/// The scheme that an id names: `6`, `5`, `2a` or `2y`, `1`.
pub open spec fn scheme_of(id: Seq<char>) -> Option<HashScheme> {
    if id == seq!['6'] {
        Some(HashScheme::Sha512Crypt)
    } else if id == seq!['5'] {
        Some(HashScheme::Sha256Crypt)
    } else if id == seq!['2', 'a'] || id == seq!['2', 'y'] {
        Some(HashScheme::Bcrypt)
    } else if id == seq!['1'] {
        Some(HashScheme::Md5Crypt)
    } else {
        None
    }
}

/// A stored hash split into its scheme and the `$id$salt$hash` string that
/// the scheme's function checks against. It must start with `$` and hold
/// exactly three pieces after it.
pub open spec fn spec_parse_hash(s: Seq<char>) -> Result<(HashScheme, Seq<char>), AuthFailure> {
    let parts = split_on(s, '$');
    if parts.len() != 4 || parts[0].len() != 0 {
        Err(AuthFailure::MalformedHash)
    } else {
        match scheme_of(parts[1]) {
            None => Err(AuthFailure::UnsupportedScheme),
            Some(scheme) => Ok(
                (
                    scheme,
                    seq!['$'] + parts[1] + seq!['$'] + parts[2] + seq!['$'] + parts[3],
                ),
            ),
        }
    }
}

/// Whether pwhash's SHA-512-crypt accepts `pass` for `hash`.
pub uninterp spec fn sha512_crypt_accepts(pass: Seq<char>, hash: Seq<char>) -> bool;

/// Whether pwhash's SHA-256-crypt accepts `pass` for `hash`.
pub uninterp spec fn sha256_crypt_accepts(pass: Seq<char>, hash: Seq<char>) -> bool;

/// Whether pwhash's bcrypt accepts `pass` for `hash`.
pub uninterp spec fn bcrypt_accepts(pass: Seq<char>, hash: Seq<char>) -> bool;

/// Whether pwhash's MD5-crypt accepts `pass` for `hash`.
pub uninterp spec fn md5_crypt_accepts(pass: Seq<char>, hash: Seq<char>) -> bool;

/// Whether every character of `s` is printable ASCII.
pub open spec fn printable_ascii(s: Seq<char>) -> bool {
    forall|i: int| 0 <= i < s.len() ==> ' ' <= #[trigger] s[i] && s[i] <= '~'
}

/// Whether `scheme` accepts `pass` for `hash`. A crypt string holds
/// printable ASCII alone; any other is refused without being read.
pub open spec fn scheme_accepts(scheme: HashScheme, pass: Seq<char>, hash: Seq<char>) -> bool {
    printable_ascii(hash) && match scheme {
        HashScheme::Sha512Crypt => sha512_crypt_accepts(pass, hash),
        HashScheme::Sha256Crypt => sha256_crypt_accepts(pass, hash),
        HashScheme::Bcrypt => bcrypt_accepts(pass, hash),
        HashScheme::Md5Crypt => md5_crypt_accepts(pass, hash),
    }
}

/// Relies on `pwhash::sha512_crypt::verify`: a function of the password and
/// the hash string alone, `false` where the hash cannot be read.
/// The salt goes through pwhash's bcrypt alphabet decoder, which panics on
/// characters below U+0020 and on U+0080; printable ASCII leaves them out.
#[verifier::external_body]
fn sha512_verify(pass: &str, hash: &str) -> (r: bool)
    requires
        printable_ascii(hash@),
    ensures
        r == sha512_crypt_accepts(pass@, hash@),
{
    pwhash::sha512_crypt::verify(pass, hash)
}

/// Relies on `pwhash::sha256_crypt::verify`: a function of the password and
/// the hash string alone, `false` where the hash cannot be read.
/// The salt goes through pwhash's bcrypt alphabet decoder, which panics on
/// characters below U+0020 and on U+0080; printable ASCII leaves them out.
#[verifier::external_body]
fn sha256_verify(pass: &str, hash: &str) -> (r: bool)
    requires
        printable_ascii(hash@),
    ensures
        r == sha256_crypt_accepts(pass@, hash@),
{
    pwhash::sha256_crypt::verify(pass, hash)
}

/// Relies on `pwhash::bcrypt::verify`: a function of the password and the
/// hash string alone (the salt is read from the hash), `false` where the hash
/// cannot be read. Its salt decoder panics on characters below U+0020 and on
/// U+0080; printable ASCII leaves them out.
#[verifier::external_body]
fn bcrypt_verify(pass: &str, hash: &str) -> (r: bool)
    requires
        printable_ascii(hash@),
    ensures
        r == bcrypt_accepts(pass@, hash@),
{
    pwhash::bcrypt::verify(pass, hash)
}

/// Relies on `pwhash::md5_crypt::verify`: a function of the password and the
/// hash string alone, `false` where the hash cannot be read.
/// The salt goes through pwhash's bcrypt alphabet decoder, which panics on
/// characters below U+0020 and on U+0080; printable ASCII leaves them out.
#[verifier::external_body]
fn md5_verify(pass: &str, hash: &str) -> (r: bool)
    requires
        printable_ascii(hash@),
    ensures
        r == md5_crypt_accepts(pass@, hash@),
{
    pwhash::md5_crypt::verify(pass, hash)
}

/// The scheme that an id names.
pub fn scheme_from_id(id: &str) -> (r: Option<HashScheme>)
    ensures
        r == scheme_of(id@),
{
    let cs = chars_of(id);
    if cs.len() == 1 && cs[0] == '6' {
        assert(id@ =~= seq!['6']);
        Some(HashScheme::Sha512Crypt)
    } else if cs.len() == 1 && cs[0] == '5' {
        assert(id@ =~= seq!['5']);
        Some(HashScheme::Sha256Crypt)
    } else if cs.len() == 2 && cs[0] == '2' && (cs[1] == 'a' || cs[1] == 'y') {
        assert(id@ =~= seq!['2', 'a'] || id@ =~= seq!['2', 'y']);
        Some(HashScheme::Bcrypt)
    } else if cs.len() == 1 && cs[0] == '1' {
        assert(id@ =~= seq!['1']);
        Some(HashScheme::Md5Crypt)
    } else {
        assert(id@ != seq!['6'] && id@ != seq!['5'] && id@ != seq!['1']) by {
            if cs@.len() == 1 {
                assert(seq!['6'][0] == '6' && seq!['5'][0] == '5' && seq!['1'][0] == '1');
            }
        }
        assert(id@ != seq!['2', 'a'] && id@ != seq!['2', 'y']) by {
            if cs@.len() == 2 {
                assert(seq!['2', 'a'][0] == '2' && seq!['2', 'a'][1] == 'a');
                assert(seq!['2', 'y'][0] == '2' && seq!['2', 'y'][1] == 'y');
            }
        }
        None
    }
}

/// Splits a stored hash into its scheme and the `$id$salt$hash` string to
/// check against.
pub fn parse_shadow_hash(s: &str) -> (r: Result<(HashScheme, String), AuthFailure>)
    ensures
        match spec_parse_hash(s@) {
            Ok((scheme, full)) => r matches Ok((sc, f)) && sc == scheme && f@ == full,
            Err(e) => r == Err::<(HashScheme, String), AuthFailure>(e),
        },
{
    let cs = chars_of(s);
    let n = cs.len();
    let ghost v = cs@;
    let p0 = find_char_at(&cs, 0, '$');
    proof {
        lemma_find_char(v, 0, '$');
    }
    if p0 >= n {
        return Err(AuthFailure::MalformedHash);
    }
    if p0 != 0 {
        proof {
            lemma_split_len(v, (p0 + 1) as nat);
        }
        assert(split_on(v, '$')[0] == v.subrange(0, p0 as int));
        return Err(AuthFailure::MalformedHash);
    }
    let p1 = find_char_at(&cs, p0 + 1, '$');
    proof {
        lemma_find_char(v, (p0 + 1) as nat, '$');
    }
    if p1 >= n {
        assert(split_from(v, (p0 + 1) as nat, '$').len() == 1);
        return Err(AuthFailure::MalformedHash);
    }
    let p2 = find_char_at(&cs, p1 + 1, '$');
    proof {
        lemma_find_char(v, (p1 + 1) as nat, '$');
    }
    if p2 >= n {
        assert(split_from(v, (p1 + 1) as nat, '$').len() == 1);
        assert(split_from(v, (p0 + 1) as nat, '$').len() == 2);
        return Err(AuthFailure::MalformedHash);
    }
    let p3 = find_char_at(&cs, p2 + 1, '$');
    proof {
        lemma_find_char(v, (p2 + 1) as nat, '$');
        if p3 < n {
            lemma_split_len(v, (p3 + 1) as nat);
            assert(split_from(v, (p2 + 1) as nat, '$').len() >= 2);
            assert(split_from(v, (p1 + 1) as nat, '$').len() >= 3);
            assert(split_from(v, (p0 + 1) as nat, '$').len() >= 4);
        }
    }
    if p3 < n {
        return Err(AuthFailure::MalformedHash);
    }
    let ghost parts = split_on(v, '$');
    let ghost x0 = v.subrange(0, p0 as int);
    let ghost x1 = v.subrange(p0 + 1, p1 as int);
    let ghost x2 = v.subrange(p1 + 1, p2 as int);
    let ghost x3 = v.subrange(p2 + 1, n as int);
    assert(split_from(v, (p2 + 1) as nat, '$') == seq![x3]);
    assert(split_from(v, (p1 + 1) as nat, '$') =~= seq![x2, x3]);
    assert(split_from(v, (p0 + 1) as nat, '$') =~= seq![x1, x2, x3]);
    assert(parts =~= seq![x0, x1, x2, x3]);
    let id = slice_chars(&cs, p0 + 1, p1);
    let id_text = string_of(&id, 0, id.len());
    assert(id@.subrange(0, id@.len() as int) =~= id@);
    let full = string_of(&cs, p0, n);
    assert(full@ =~= seq!['$'] + parts[1] + seq!['$'] + parts[2] + seq!['$'] + parts[3]);
    match scheme_from_id(id_text.as_str()) {
        Some(scheme) => Ok((scheme, full)),
        None => Err(AuthFailure::UnsupportedScheme),
    }
}

fn is_printable_ascii(s: &str) -> (r: bool)
    ensures
        r == printable_ascii(s@),
{
    let cs = chars_of(s);
    let mut k: usize = 0;
    while k < cs.len()
        invariant
            k <= cs@.len(),
            cs@ == s@,
            forall|i: int| 0 <= i < k ==> ' ' <= #[trigger] cs@[i] && cs@[i] <= '~',
        decreases cs@.len() - k,
    {
        let c = cs[k];
        if !(' ' <= c && c <= '~') {
            return false;
        }
        k = k + 1;
    }
    true
}

/// Whether `scheme` accepts `pass` for `hash`.
pub fn scheme_verifies(scheme: HashScheme, pass: &str, hash: &str) -> (r: bool)
    ensures
        r == scheme_accepts(scheme, pass@, hash@),
{
    if !is_printable_ascii(hash) {
        return false;
    }
    match scheme {
        HashScheme::Sha512Crypt => sha512_verify(pass, hash),
        HashScheme::Sha256Crypt => sha256_verify(pass, hash),
        HashScheme::Bcrypt => bcrypt_verify(pass, hash),
        HashScheme::Md5Crypt => md5_verify(pass, hash),
    }
}

/// What checking `attempt` against `stored` gives: no password never
/// matches; plain text must be equal; a hash goes to its scheme's function.
pub open spec fn spec_check_pass(attempt: Seq<char>, stored: Password) -> Result<(), AuthFailure> {
    match stored {
        Password::NoPass => Err(AuthFailure::NoPassword),
        Password::Unhashed(s) => if attempt == s@ {
            Ok(())
        } else {
            Err(AuthFailure::Mismatch)
        },
        Password::Hashed(h) => match spec_parse_hash(h@) {
            Err(e) => Err(e),
            Ok((scheme, full)) => if scheme_accepts(scheme, attempt, full) {
                Ok(())
            } else {
                Err(AuthFailure::Mismatch)
            },
        },
    }
}

/// Checks a password attempt against the stored record.
pub fn check_pass(unhashed: &str, maybe_hashed_pass: &Password) -> (r: Result<(), AuthFailure>)
    ensures
        r == spec_check_pass(unhashed@, *maybe_hashed_pass),
{
    match maybe_hashed_pass {
        Password::NoPass => Err(AuthFailure::NoPassword),
        Password::Unhashed(val) => {
            if crate::rules::same_text(val.as_str(), unhashed) {
                Ok(())
            } else {
                Err(AuthFailure::Mismatch)
            }
        },
        Password::Hashed(val) => match parse_shadow_hash(val.as_str()) {
            Err(e) => Err(e),
            Ok((scheme, full)) => {
                if scheme_verifies(scheme, unhashed, full.as_str()) {
                    Ok(())
                } else {
                    Err(AuthFailure::Mismatch)
                }
            },
        },
    }
}

} // verus!
