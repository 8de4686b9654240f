//! The persistent session store: per caller id, when the grace window for
//! skipping the password prompt ends. Every check slides the window; the
//! stored form keeps only windows that are still open.
use vstd::prelude::*;
use crate::lexer::{trim_chars, trimmed};
use crate::text::{
    chars_of, decimal, decimal_string, find_char_at, lemma_find_char, owned, push_text, slice_chars,
    split_from, split_on, string_of,
};

verus! {

/// An instant: whole seconds since the Unix epoch and the nanoseconds after
/// them.
#[derive(Debug, Clone, Copy, PartialEq, Eq, Structural)]
pub struct Timestamp {
    pub secs: i64,
    pub nanos: u32,
}

/// Whether `a` comes before `b`.
pub open spec fn earlier(a: Timestamp, b: Timestamp) -> bool {
    a.secs < b.secs || (a.secs == b.secs && a.nanos < b.nanos)
}

/// Whether `a` comes before `b`.
pub fn is_earlier(a: Timestamp, b: Timestamp) -> (r: bool)
    ensures
        r == earlier(a, b),
{
    a.secs < b.secs || (a.secs == b.secs && a.nanos < b.nanos)
}

/// The length of the grace window, in seconds.
pub const GRACE_SECS: i64 = 300;

/// Whether the end of a grace window that starts at `now` can be written.
pub open spec fn grace_fits(now: Timestamp) -> bool {
    now.secs + GRACE_SECS <= i64::MAX
}

/// The end of the grace window that starts at `now`.
pub open spec fn grace_end(now: Timestamp) -> Timestamp {
    Timestamp { secs: (now.secs + GRACE_SECS) as i64, nanos: now.nanos }
}

/// The expiry recorded for `k`: its last binding in `ps`.
pub open spec fn lookup(ps: Seq<(Seq<char>, Timestamp)>, k: Seq<char>) -> Option<Timestamp>
    decreases ps.len(),
{
    if ps.len() == 0 {
        None
    } else if ps.last().0 == k {
        Some(ps.last().1)
    } else {
        lookup(ps.drop_last(), k)
    }
}

/// `ps` without the bindings of `k`.
pub open spec fn without(ps: Seq<(Seq<char>, Timestamp)>, k: Seq<char>) -> Seq<(Seq<char>, Timestamp)>
    decreases ps.len(),
{
    if ps.len() == 0 {
        ps
    } else if ps.last().0 == k {
        without(ps.drop_last(), k)
    } else {
        without(ps.drop_last(), k).push(ps.last())
    }
}

/// `ps` with `k` bound to `t` alone.
pub open spec fn bind(ps: Seq<(Seq<char>, Timestamp)>, k: Seq<char>, t: Timestamp) -> Seq<
    (Seq<char>, Timestamp),
> {
    without(ps, k).push((k, t))
}

pub proof fn lemma_without(ps: Seq<(Seq<char>, Timestamp)>, k: Seq<char>, j: Seq<char>)
    ensures
        lookup(without(ps, k), j) == (if j == k {
            None
        } else {
            lookup(ps, j)
        }),
    decreases ps.len(),
{
    if ps.len() > 0 {
        lemma_without(ps.drop_last(), k, j);
        if ps.last().0 != k {
            assert(without(ps, k).drop_last() =~= without(ps.drop_last(), k));
        }
    }
}

/// Binding `k` records `t` for it and leaves the other ids as they were.
pub proof fn lemma_bind(ps: Seq<(Seq<char>, Timestamp)>, k: Seq<char>, t: Timestamp, j: Seq<char>)
    ensures
        lookup(bind(ps, k, t), j) == (if j == k {
            Some(t)
        } else {
            lookup(ps, j)
        }),
{
    assert(bind(ps, k, t).drop_last() =~= without(ps, k));
    lemma_without(ps, k, j);
}

/// A first check on an empty store asks for the password and records a
/// window that ends five minutes later, which the stored form keeps; a
/// second check before that window ends does not ask.
pub proof fn lemma_first_then_second_check(id: Seq<char>, now: Timestamp, later: Timestamp)
    requires
        grace_fits(now),
        earlier(later, grace_end(now)),
    ensures
        spec_need_password(lookup(Seq::empty(), id), now),
        lookup(bind(Seq::empty(), id, grace_end(now)), id) == Some(grace_end(now)),
        grace_end(now).secs == now.secs + 300 && grace_end(now).nanos == now.nanos,
        !spec_need_password(lookup(bind(Seq::empty(), id, grace_end(now)), id), later),
        rfc3339_text(grace_end(now).secs, grace_end(now).nanos) matches Some(text) ==> serialized(
            bind(Seq::empty(), id, grace_end(now)),
            now,
        ) == entry_line(id, text),
{
    let ps = bind(Seq::<(Seq<char>, Timestamp)>::empty(), id, grace_end(now));
    lemma_bind(Seq::empty(), id, grace_end(now), id);
    assert(ps.drop_last() =~= Seq::<(Seq<char>, Timestamp)>::empty());
    assert(serialized(ps.drop_last(), now) == Seq::<char>::empty());
    if let Some(text) = rfc3339_text(grace_end(now).secs, grace_end(now).nanos) {
        assert(Seq::<char>::empty() + entry_line(id, text) =~= entry_line(id, text));
    }
}

/// Whether a caller whose recorded expiry is `stored` must give a password at
/// `now`: unless a window is recorded that is still open.
pub open spec fn spec_need_password(stored: Option<Timestamp>, now: Timestamp) -> bool {
    !(stored matches Some(e) && earlier(now, e))
}

/// Relies on `chrono::DateTime::parse_from_rfc3339`: the instant of an RFC 3339
/// text, `None` where the text is not one; a function of the text alone.
pub uninterp spec fn rfc3339_instant(s: Seq<char>) -> Option<Timestamp>;

/// Relies on `chrono::DateTime::<Utc>::from_timestamp` and `to_rfc3339`: the
/// RFC 3339 text of an instant in UTC, `None` out of chrono's range; a
/// function of the instant alone.
pub uninterp spec fn rfc3339_text(secs: i64, nanos: u32) -> Option<Seq<char>>;

/// Relies on `chrono::DateTime::parse_from_rfc3339` for the instant that an
/// RFC 3339 text names, offset applied.
#[verifier::external_body]
fn parse_rfc3339(s: &str) -> (r: Option<Timestamp>)
    ensures
        r == rfc3339_instant(s@),
{
    match chrono::DateTime::parse_from_rfc3339(s) {
        Ok(d) => Some(Timestamp { secs: d.timestamp(), nanos: d.timestamp_subsec_nanos() }),
        Err(_) => None,
    }
}

/// Relies on `chrono::DateTime::<Utc>::from_timestamp`, which gives `None`
/// out of range, and `to_rfc3339` for the text of the instant.
#[verifier::external_body]
fn format_rfc3339(t: Timestamp) -> (r: Option<String>)
    ensures
        match r {
            Some(s) => rfc3339_text(t.secs, t.nanos) == Some(s@),
            None => rfc3339_text(t.secs, t.nanos) is None,
        },
{
    match chrono::DateTime::<chrono::Utc>::from_timestamp(t.secs, t.nanos) {
        Some(d) => Some(d.to_rfc3339()),
        None => None,
    }
}

/// Why a stored session file could not be read.
#[derive(Debug, PartialEq, Eq, Structural, Clone, Copy)]
pub enum SessionFileError {
    /// A line that is not blank holds no `=`.
    MissingSeparator,
    /// The text after the last `=` of a line is not an RFC 3339 instant.
    BadTimestamp,
}

/// What one line of the stored form holds.
pub enum SpecLine {
    Blank,
    Entry(Seq<char>, Timestamp),
    Bad(SessionFileError),
}

/// The position of the last `c` in `s`, or -1.
pub open spec fn last_index_of(s: Seq<char>, c: char) -> int
    decreases s.len(),
{
    if s.len() == 0 {
        -1
    } else if s.last() == c {
        s.len() - 1
    } else {
        last_index_of(s.drop_last(), c)
    }
}

/// A line `id=instant`, split at its last `=`; blank lines hold nothing.
pub open spec fn parse_line(l: Seq<char>) -> SpecLine {
    if trimmed(l).len() == 0 {
        SpecLine::Blank
    } else {
        let p = last_index_of(l, '=');
        if p < 0 {
            SpecLine::Bad(SessionFileError::MissingSeparator)
        } else {
            match rfc3339_instant(l.subrange(p + 1, l.len() as int)) {
                None => SpecLine::Bad(SessionFileError::BadTimestamp),
                Some(t) => SpecLine::Entry(l.subrange(0, p), t),
            }
        }
    }
}

/// The record that lines give when bound in order into `acc`; the first bad
/// line is the error.
pub open spec fn parse_lines(ls: Seq<Seq<char>>, acc: Seq<(Seq<char>, Timestamp)>) -> Result<
    Seq<(Seq<char>, Timestamp)>,
    SessionFileError,
>
    decreases ls.len(),
{
    if ls.len() == 0 {
        Ok(acc)
    } else {
        match parse_line(ls[0]) {
            SpecLine::Blank => parse_lines(ls.drop_first(), acc),
            SpecLine::Bad(e) => Err(e),
            SpecLine::Entry(k, t) => parse_lines(ls.drop_first(), bind(acc, k, t)),
        }
    }
}

/// The record that a stored text holds, one `id=instant` per line.
pub open spec fn spec_parse_sessions(text: Seq<char>) -> Result<Seq<(Seq<char>, Timestamp)>, SessionFileError> {
    parse_lines(split_on(text, '\n'), Seq::empty())
}

/// The stored line for an id and the text of its expiry.
pub open spec fn entry_line(k: Seq<char>, text: Seq<char>) -> Seq<char> {
    k + seq!['='] + text + seq!['\n']
}

/// The stored form of a record at `now`: a line for each window still open,
/// in order.
pub open spec fn serialized(ps: Seq<(Seq<char>, Timestamp)>, now: Timestamp) -> Seq<char>
    decreases ps.len(),
{
    if ps.len() == 0 {
        Seq::empty()
    } else {
        let (k, t) = ps.last();
        let line = if earlier(now, t) && rfc3339_text(t.secs, t.nanos) is Some {
            entry_line(k, rfc3339_text(t.secs, t.nanos)->0)
        } else {
            Seq::empty()
        };
        serialized(ps.drop_last(), now) + line
    }
}

/// The expiry of each caller id's grace window.
#[derive(Debug)]
pub struct SessionRecord {
    entries: Vec<(String, Timestamp)>,
}

impl SessionRecord {
    /// The bindings, in order.
    pub closed spec fn pairs(&self) -> Seq<(Seq<char>, Timestamp)> {
        self.entries@.map_values(|e: (String, Timestamp)| (e.0@, e.1))
    }

    /// An empty record.
    pub fn new() -> (r: Self)
        ensures
            r.pairs() == Seq::<(Seq<char>, Timestamp)>::empty(),
    {
        let r = SessionRecord { entries: Vec::new() };
        assert(r.pairs() =~= Seq::<(Seq<char>, Timestamp)>::empty());
        r
    }

    /// The recorded expiry for `id`.
    pub fn get(&self, id: &str) -> (r: Option<Timestamp>)
        ensures
            r == lookup(self.pairs(), id@),
    {
        let ghost ps = self.pairs();
        let mut k = self.entries.len();
        assert(ps.take(k as int) =~= ps);
        while k > 0
            invariant
                k <= ps.len(),
                ps == self.pairs(),
                ps.len() == self.entries@.len(),
                lookup(ps.take(k as int), id@) == lookup(ps, id@),
            decreases k,
        {
            let ghost t = ps.take(k as int);
            assert(t.drop_last() =~= ps.take(k - 1));
            assert(t.last() == ps[k - 1]);
            assert(ps[k - 1].0 == self.entries@[k - 1].0@);
            if crate::rules::same_text(self.entries[k - 1].0.as_str(), id) {
                return Some(self.entries[k - 1].1);
            }
            k = k - 1;
        }
        assert(ps.take(0) =~= Seq::<(Seq<char>, Timestamp)>::empty());
        None
    }

    /// Records `t` as the expiry for `id`, replacing what was recorded.
    pub fn set(&mut self, id: &str, t: Timestamp)
        ensures
            final(self).pairs() == bind(old(self).pairs(), id@, t),
    {
        let ghost ps = self.pairs();
        let mut kept: Vec<(String, Timestamp)> = Vec::new();
        let mut k: usize = 0;
        assert(ps.take(0) =~= Seq::<(Seq<char>, Timestamp)>::empty());
        while k < self.entries.len()
            invariant
                k <= ps.len(),
                ps == self.pairs(),
                ps.len() == self.entries@.len(),
                kept@.map_values(|e: (String, Timestamp)| (e.0@, e.1)) == without(ps.take(k as int), id@),
            decreases ps.len() - k,
        {
            let ghost before = kept@.map_values(|e: (String, Timestamp)| (e.0@, e.1));
            assert(ps.take(k + 1).drop_last() =~= ps.take(k as int));
            assert(ps[k as int] == (self.entries@[k as int].0@, self.entries@[k as int].1));
            if !crate::rules::same_text(self.entries[k].0.as_str(), id) {
                let key = self.entries[k].0.clone();
                kept.push((key, self.entries[k].1));
                assert(kept@.map_values(|e: (String, Timestamp)| (e.0@, e.1)) =~= before.push(ps[k as int]));
            }
            k = k + 1;
        }
        assert(ps.take(k as int) =~= ps);
        let ghost before = kept@.map_values(|e: (String, Timestamp)| (e.0@, e.1));
        kept.push((owned(id), t));
        assert(kept@.map_values(|e: (String, Timestamp)| (e.0@, e.1)) =~= before.push((id@, t)));
        self.entries = kept;
    }

    /// Whether `id` must give a password at `now`; either way its grace
    /// window now ends five minutes after `now`.
    pub fn need_password(&mut self, id: &str, now: Timestamp) -> (r: bool)
        requires
            grace_fits(now),
        ensures
            r == spec_need_password(lookup(old(self).pairs(), id@), now),
            final(self).pairs() == bind(old(self).pairs(), id@, grace_end(now)),
    {
        let stored = self.get(id);
        let next_timeout = Timestamp { secs: now.secs + GRACE_SECS, nanos: now.nanos };
        self.set(id, next_timeout);
        match stored {
            Some(expiry) => !is_earlier(now, expiry),
            None => true,
        }
    }

    /// The stored form at `now`: `id=instant` for each window still open.
    pub fn serialize(&self, now: Timestamp) -> (r: String)
        ensures
            r@ == serialized(self.pairs(), now),
    {
        let ghost ps = self.pairs();
        let mut out = String::new();
        let mut k: usize = 0;
        assert(ps.take(0) =~= Seq::<(Seq<char>, Timestamp)>::empty());
        while k < self.entries.len()
            invariant
                k <= ps.len(),
                ps == self.pairs(),
                ps.len() == self.entries@.len(),
                out@ == serialized(ps.take(k as int), now),
            decreases ps.len() - k,
        {
            assert(ps.take(k + 1).drop_last() =~= ps.take(k as int));
            assert(ps[k as int] == (self.entries@[k as int].0@, self.entries@[k as int].1));
            let t = self.entries[k].1;
            let ghost before = out@;
            if is_earlier(now, t) {
                match format_rfc3339(t) {
                    Some(text) => {
                        push_text(&mut out, self.entries[k].0.as_str());
                        out.push('=');
                        push_text(&mut out, text.as_str());
                        out.push('\n');
                        assert(out@ =~= before + entry_line(ps[k as int].0, text@));
                    },
                    None => {
                        assert(out@ =~= before + Seq::<char>::empty());
                    },
                }
            } else {
                assert(out@ =~= before + Seq::<char>::empty());
            }
            k = k + 1;
        }
        assert(ps.take(k as int) =~= ps);
        out
    }
}

/// Whether the caller with numeric id `uid` must give a password at `now`;
/// the record slides that caller's window either way.
pub fn need_pass(record: &mut SessionRecord, uid: u32, now: Timestamp) -> (r: bool)
    requires
        grace_fits(now),
    ensures
        r == spec_need_password(lookup(old(record).pairs(), decimal(uid as nat)), now),
        final(record).pairs() == bind(old(record).pairs(), decimal(uid as nat), grace_end(now)),
{
    let id = decimal_string(uid);
    record.need_password(id.as_str(), now)
}

/// The position of the last `c` in `cs`.
fn last_index(cs: &Vec<char>, c: char) -> (r: Option<usize>)
    ensures
        match r {
            Some(p) => p < cs@.len() && p == last_index_of(cs@, c),
            None => last_index_of(cs@, c) == -1,
        },
{
    let mut k = cs.len();
    assert(cs@.take(k as int) =~= cs@);
    while k > 0
        invariant
            k <= cs@.len(),
            last_index_of(cs@.take(k as int), c) == last_index_of(cs@, c),
        decreases k,
    {
        let ghost t = cs@.take(k as int);
        assert(t.drop_last() =~= cs@.take(k - 1));
        if cs[k - 1] == c {
            return Some(k - 1);
        }
        k = k - 1;
    }
    assert(cs@.take(0) =~= Seq::<char>::empty());
    None
}

/// What one stored line holds.
fn read_line(line: &Vec<char>) -> (r: Result<Option<(String, Timestamp)>, SessionFileError>)
    ensures
        match parse_line(line@) {
            SpecLine::Blank => r == Ok::<Option<(String, Timestamp)>, SessionFileError>(None),
            SpecLine::Bad(e) => r == Err::<Option<(String, Timestamp)>, SessionFileError>(e),
            SpecLine::Entry(k, t) => r matches Ok(Some((key, time))) && key@ == k && time == t,
        },
{
    let tr = trim_chars(line);
    if tr.len() == 0 {
        return Ok(None);
    }
    match last_index(line, '=') {
        None => Err(SessionFileError::MissingSeparator),
        Some(p) => {
            let len = line.len();
            let value = string_of(line, p + 1, len);
            match parse_rfc3339(value.as_str()) {
                None => Err(SessionFileError::BadTimestamp),
                Some(t) => Ok(Some((string_of(line, 0, p), t))),
            }
        },
    }
}

/// The record that a stored text holds, one `id=instant` per line; later
/// lines for an id win. The first line that cannot be read is the error.
pub fn parse_sessions(contents: &str) -> (r: Result<SessionRecord, SessionFileError>)
    ensures
        match spec_parse_sessions(contents@) {
            Ok(ps) => r matches Ok(rec) && rec.pairs() == ps,
            Err(e) => r matches Err(e2) && e2 == e,
        },
{
    let cs = chars_of(contents);
    let ghost v = cs@;
    let n = cs.len();
    let mut rec = SessionRecord::new();
    let mut i: usize = 0;
    loop
        invariant
            i <= n == v.len(),
            v == cs@,
            v == contents@,
            parse_lines(split_from(v, i as nat, '\n'), rec.pairs()) == spec_parse_sessions(contents@),
        decreases n - i,
    {
        let p = find_char_at(&cs, i, '\n');
        proof {
            lemma_find_char(v, i as nat, '\n');
        }
        let line = slice_chars(&cs, i, p);
        let ghost ls = split_from(v, i as nat, '\n');
        assert(ls[0] == line@);
        assert(ls.len() > 0);
        let ghost acc = rec.pairs();
        match read_line(&line) {
            Err(e) => {
                return Err(e);
            },
            Ok(None) => {},
            Ok(Some((key, t))) => {
                rec.set(key.as_str(), t);
            },
        }
        assert(parse_lines(ls, acc) == parse_lines(ls.drop_first(), rec.pairs()));
        if p >= n {
            assert(ls.drop_first() =~= Seq::<Seq<char>>::empty());
            return Ok(rec);
        }
        assert(ls.drop_first() =~= split_from(v, (p + 1) as nat, '\n'));
        i = p + 1;
    }
}

} // verus!
