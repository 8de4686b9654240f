//! Turns policy text into a flat sequence of tokens. The lexer knows words,
//! line ends, comments, quoting, escaping and `setenv { .. }` blocks, and
//! nothing of the rule grammar.
use vstd::prelude::*;
use crate::env_map::{EnvMap, insert_all};
use crate::text::{
    chars_of, find_char, find_char_at, lemma_find_char, push_text, slice_chars, string_of,
};

verus! {

/// A lexer token, as the contracts see it.
pub enum SpecToken {
    Permit,
    Deny,
    Persist,
    NoPass,
    KeepEnv,
    As,
    Cmd,
    Args,
    Eol,
    Ident(Seq<char>),
    SetEnv(Seq<(Seq<char>, Seq<char>)>),
    Invalid(LexerError),
}

/// The characters with Unicode's White_Space property.
pub open spec fn is_white(c: char) -> bool {
    ||| c == '\t' || c == '\n' || c == '\u{0B}' || c == '\u{0C}' || c == '\r' || c == ' '
    ||| c == '\u{85}' || c == '\u{A0}' || c == '\u{1680}'
    ||| c == '\u{2000}' || c == '\u{2001}' || c == '\u{2002}' || c == '\u{2003}'
    ||| c == '\u{2004}' || c == '\u{2005}' || c == '\u{2006}' || c == '\u{2007}'
    ||| c == '\u{2008}' || c == '\u{2009}' || c == '\u{200A}'
    ||| c == '\u{2028}' || c == '\u{2029}' || c == '\u{202F}' || c == '\u{205F}'
    ||| c == '\u{3000}'
}

/// The first position at or after `i` that is not white space.
pub open spec fn trim_lo(s: Seq<char>, i: nat) -> nat
    decreases s.len() - i,
{
    if i < s.len() && is_white(s[i as int]) {
        trim_lo(s, i + 1)
    } else {
        i
    }
}

/// The end of `s[..j]` once trailing white space is dropped.
pub open spec fn trim_hi(s: Seq<char>, j: nat) -> nat
    decreases j,
{
    if j > 0 && j <= s.len() && is_white(s[j - 1]) {
        trim_hi(s, (j - 1) as nat)
    } else {
        j
    }
}

/// `s` without leading and trailing white space.
pub open spec fn trimmed(s: Seq<char>) -> Seq<char> {
    let lo = trim_lo(s, 0);
    if lo >= s.len() {
        Seq::empty()
    } else {
        s.subrange(lo as int, trim_hi(s, s.len()) as int)
    }
}

/// The separators between words of a line.
pub open spec fn line_seps() -> Seq<char> {
    seq![' ', '\t', '\n']
}

/// The separators between words inside `setenv { .. }`.
pub open spec fn brace_seps() -> Seq<char> {
    seq![' ', '\t', '=']
}

/// The first position at or after `i` that holds no separator.
pub open spec fn skip_seps(s: Seq<char>, i: nat, sep: Seq<char>) -> nat
    decreases s.len() - i,
{
    if i < s.len() && sep.contains(s[i as int]) {
        skip_seps(s, i + 1, sep)
    } else {
        i
    }
}

/// Where the word that is being read at `i` ends. `esc` holds after a
/// backslash, `quoted` inside double quotes. A double quote that is not
/// escaped opens or closes a quoted run, and inside one nothing separates;
/// a backslash takes the next character into the word whatever it is. The
/// word ends at the first separator outside both, or at the end.
pub open spec fn word_scan(s: Seq<char>, i: nat, sep: Seq<char>, esc: bool, quoted: bool) -> nat
    decreases s.len() - i,
{
    if i >= s.len() {
        s.len()
    } else {
        let c = s[i as int];
        let q = if c == '"' && !esc {
            !quoted
        } else {
            quoted
        };
        if q {
            word_scan(s, i + 1, sep, esc, q)
        } else if esc {
            word_scan(s, i + 1, sep, false, q)
        } else if c == '\\' {
            word_scan(s, i + 1, sep, true, q)
        } else if sep.contains(c) {
            i
        } else {
            word_scan(s, i + 1, sep, false, q)
        }
    }
}

/// The end of the word that starts at `i`.
pub open spec fn word_end(s: Seq<char>, i: nat, sep: Seq<char>) -> nat {
    word_scan(s, i, sep, false, false)
}

pub proof fn lemma_skip_seps(s: Seq<char>, i: nat, sep: Seq<char>)
    requires
        i <= s.len(),
    ensures
        i <= skip_seps(s, i, sep) <= s.len(),
        skip_seps(s, i, sep) < s.len() ==> !sep.contains(s[skip_seps(s, i, sep) as int]),
        forall|k: int| i <= k < skip_seps(s, i, sep) ==> sep.contains(#[trigger] s[k]),
    decreases s.len() - i,
{
    if i < s.len() && sep.contains(s[i as int]) {
        lemma_skip_seps(s, i + 1, sep);
    }
}

pub proof fn lemma_word_scan(s: Seq<char>, i: nat, sep: Seq<char>, esc: bool, quoted: bool)
    requires
        i <= s.len(),
    ensures
        i <= word_scan(s, i, sep, esc, quoted) <= s.len(),
    decreases s.len() - i,
{
    if i < s.len() {
        let c = s[i as int];
        let q = if c == '"' && !esc {
            !quoted
        } else {
            quoted
        };
        lemma_word_scan(s, i + 1, sep, esc, q);
        lemma_word_scan(s, i + 1, sep, false, q);
        lemma_word_scan(s, i + 1, sep, true, q);
    }
}

/// A word that starts on a character other than a separator is not empty.
pub proof fn lemma_word_end(s: Seq<char>, i: nat, sep: Seq<char>)
    requires
        i < s.len(),
        !sep.contains(s[i as int]),
    ensures
        i < word_end(s, i, sep) <= s.len(),
{
    let c = s[i as int];
    let q = c == '"';
    lemma_word_scan(s, i + 1, sep, false, q);
    lemma_word_scan(s, i + 1, sep, true, q);
}

/// The words of `s` from `i` on, separated by `sep`.
pub open spec fn words_from(s: Seq<char>, i: nat, sep: Seq<char>) -> Seq<Seq<char>>
    decreases s.len() - i,
{
    if i > s.len() {
        Seq::empty()
    } else {
        let j = skip_seps(s, i, sep);
        if j >= s.len() {
            Seq::empty()
        } else {
            let e = word_end(s, j, sep);
            proof {
                lemma_skip_seps(s, i, sep);
                lemma_word_end(s, j, sep);
            }
            seq![s.subrange(j as int, e as int)].add(words_from(s, e, sep))
        }
    }
}

/// Consecutive words taken two by two; an unpaired last word is dropped.
pub open spec fn pairs_of(ws: Seq<Seq<char>>) -> Seq<(Seq<char>, Seq<char>)> {
    Seq::new(ws.len() / 2, |k: int| (ws[2 * k], ws[2 * k + 1]))
}

/// The bindings of a `setenv` block whose words are `ws`: later bindings of a
/// key win.
pub open spec fn bindings_of(ws: Seq<Seq<char>>) -> Seq<(Seq<char>, Seq<char>)> {
    insert_all(Seq::empty(), pairs_of(ws))
}

/// An unpaired last word of a `setenv` block is dropped without error: the
/// bindings are those of the words before it.
pub proof fn lemma_unpaired_word_dropped(ws: Seq<Seq<char>>, w: Seq<char>)
    requires
        ws.len() % 2 == 0,
    ensures
        bindings_of(ws.push(w)) == bindings_of(ws),
{
    assert(pairs_of(ws.push(w)) =~= pairs_of(ws));
}

/// The errors of the lexer.
#[derive(Debug, PartialEq, Eq, Structural, Clone, Copy)]
pub enum LexerError {
    /// A `setenv` without its `{` or its `}`.
    NoOrUnmatchedBracket,
    /// Another word was expected and none is left.
    NoWordsLeft,
    /// A token could not be read.
    CouldntGetNextToken,
}

/// The `setenv` block that follows position `i`: skip to `{`, take the words up
/// to the next `}`, and go on after it.
pub open spec fn spec_set_env(s: Seq<char>, i: nat) -> Result<(SpecToken, nat), LexerError> {
    let o = find_char(s, i, '{');
    if i > s.len() || o >= s.len() {
        Err(LexerError::NoOrUnmatchedBracket)
    } else {
        let c = find_char(s, o + 1, '}');
        if c >= s.len() {
            Err(LexerError::NoOrUnmatchedBracket)
        } else {
            let ws = words_from(s.subrange((o + 1) as int, c as int), 0, brace_seps());
            Ok((SpecToken::SetEnv(bindings_of(ws)), c + 1))
        }
    }
}

/// The token that a word stands for.
pub open spec fn word_token(w: Seq<char>) -> SpecToken {
    if w == "permit"@ {
        SpecToken::Permit
    } else if w == "deny"@ {
        SpecToken::Deny
    } else if w == "\n"@ {
        SpecToken::Eol
    } else if w == "nopass"@ {
        SpecToken::NoPass
    } else if w == "keepenv"@ {
        SpecToken::KeepEnv
    } else if w == "persist"@ {
        SpecToken::Persist
    } else if w == "as"@ {
        SpecToken::As
    } else if w == "cmd"@ {
        SpecToken::Cmd
    } else if w == "args"@ {
        SpecToken::Args
    } else {
        SpecToken::Ident(w)
    }
}

/// Whether `c` separates words within a line.
pub open spec fn is_blank(c: char) -> bool {
    c == ' ' || c == '\t'
}

/// The token at position `i` and the position after it. Spaces and tabs are
/// skipped; a line feed is an end of line; a `#` word comments out the rest
/// of the line, whose end is then the token; `setenv` reads a block.
pub open spec fn spec_next_token(s: Seq<char>, i: nat) -> Result<(SpecToken, nat), LexerError> {
    let j = skip_seps(s, i, seq![' ', '\t']);
    if i > s.len() || j >= s.len() {
        Err(LexerError::NoWordsLeft)
    } else if s[j as int] == '\n' {
        Ok((SpecToken::Eol, j + 1))
    } else {
        let e = word_end(s, j, line_seps());
        let w = s.subrange(j as int, e as int);
        if w == "#"@ {
            let n = find_char(s, e, '\n');
            if n >= s.len() {
                Err(LexerError::NoWordsLeft)
            } else {
                Ok((SpecToken::Eol, n + 1))
            }
        } else if w == "setenv"@ {
            spec_set_env(s, e)
        } else {
            Ok((word_token(w), e))
        }
    }
}

/// Where lexing goes on after a `setenv` block at `i` that could not be
/// read: at the end of the line of its `setenv` word.
pub open spec fn resume_after(s: Seq<char>, i: nat) -> nat {
    find_char(s, word_end(s, skip_seps(s, i, seq![' ', '\t']), line_seps()), '\n')
}

/// Each token step moves forward, and so does going on after a `setenv`
/// block that could not be read.
pub proof fn lemma_next_token_advances(s: Seq<char>, i: nat)
    ensures
        spec_next_token(s, i) matches Ok((_, n)) ==> i < n <= s.len(),
        spec_next_token(s, i) == Err::<(SpecToken, nat), LexerError>(LexerError::NoOrUnmatchedBracket)
            ==> i < resume_after(s, i) <= s.len(),
{
    let sp = seq![' ', '\t'];
    if i <= s.len() {
        lemma_skip_seps(s, i, sp);
        let j = skip_seps(s, i, sp);
        if j < s.len() && s[j as int] != '\n' {
            assert(!line_seps().contains(s[j as int])) by {
                if line_seps().contains(s[j as int]) {
                    let k = choose|k: int| 0 <= k < 3 && line_seps()[k] == s[j as int];
                    assert(sp[0] == ' ' && sp[1] == '\t');
                    assert(k != 0 && k != 1);
                }
            }
            lemma_word_end(s, j, line_seps());
            let e = word_end(s, j, line_seps());
            lemma_find_char(s, e, '\n');
            lemma_find_char(s, e, '{');
            let o = find_char(s, e, '{');
            if o < s.len() {
                lemma_find_char(s, o + 1, '}');
            }
        }
    }
}

/// The tokens of `s` from position `i` on, until no word is left. A
/// `setenv` block that cannot be read is an `Invalid` token, and lexing goes
/// on at the end of its line.
pub open spec fn lex_from(s: Seq<char>, i: nat) -> Seq<SpecToken>
    decreases s.len() - i,
{
    proof {
        lemma_next_token_advances(s, i);
    }
    match spec_next_token(s, i) {
        Ok((t, n)) => seq![t].add(lex_from(s, n)),
        Err(LexerError::NoOrUnmatchedBracket) => seq![SpecToken::Invalid(LexerError::NoOrUnmatchedBracket)].add(
            lex_from(s, resume_after(s, i)),
        ),
        Err(_) => Seq::empty(),
    }
}

/// Whether some token of `ts` stands for text that could not be read.
pub open spec fn has_invalid(ts: Seq<SpecToken>) -> bool {
    exists|k: int| 0 <= k < ts.len() && #[trigger] ts[k] is Invalid
}

/// The tokens of a policy text: those of the text without surrounding white
/// space, then one end of line.
pub open spec fn tokenize(text: Seq<char>) -> Seq<SpecToken> {
    lex_from(trimmed(text), 0).push(SpecToken::Eol)
}

/// A lexer token.
#[derive(Debug, PartialEq, Eq)]
pub enum Token {
    Permit,
    Deny,
    Persist,
    NoPass,
    KeepEnv,
    As,
    Cmd,
    Args,
    Eol,
    Ident(String),
    SetEnv(EnvMap),
    /// Text that could not be read: a `setenv` block without its braces.
    Invalid(LexerError),
}

impl View for Token {
    type V = SpecToken;

    open spec fn view(&self) -> SpecToken {
        match self {
            Token::Permit => SpecToken::Permit,
            Token::Deny => SpecToken::Deny,
            Token::Persist => SpecToken::Persist,
            Token::NoPass => SpecToken::NoPass,
            Token::KeepEnv => SpecToken::KeepEnv,
            Token::As => SpecToken::As,
            Token::Cmd => SpecToken::Cmd,
            Token::Args => SpecToken::Args,
            Token::Eol => SpecToken::Eol,
            Token::Ident(w) => SpecToken::Ident(w@),
            Token::SetEnv(m) => SpecToken::SetEnv(m.pairs()),
            Token::Invalid(e) => SpecToken::Invalid(*e),
        }
    }
}

/// The tokens of `ts`, as the contracts see them.
pub open spec fn tokens_view(ts: Seq<Token>) -> Seq<SpecToken> {
    ts.map_values(|t: Token| t@)
}

/// A token step, as the contracts see it.
pub open spec fn step_view(r: Result<(Token, usize), LexerError>) -> Result<(SpecToken, nat), LexerError> {
    match r {
        Ok((t, n)) => Ok((t@, n as nat)),
        Err(e) => Err(e),
    }
}

/// Whether `c` has Unicode's White_Space property.
pub fn is_unicode_white_space(c: char) -> (r: bool)
    ensures
        r == is_white(c),
{
    c == '\t' || c == '\n' || c == '\u{0B}' || c == '\u{0C}' || c == '\r' || c == ' ' || c == '\u{85}'
        || c == '\u{A0}' || c == '\u{1680}' || c == '\u{2000}' || c == '\u{2001}' || c == '\u{2002}'
        || c == '\u{2003}' || c == '\u{2004}' || c == '\u{2005}' || c == '\u{2006}' || c == '\u{2007}'
        || c == '\u{2008}' || c == '\u{2009}' || c == '\u{200A}' || c == '\u{2028}' || c == '\u{2029}'
        || c == '\u{202F}' || c == '\u{205F}' || c == '\u{3000}'
}

proof fn lemma_trim_hi(s: Seq<char>, lo: nat, j: nat)
    requires
        lo < j <= s.len(),
        !is_white(s[lo as int]),
    ensures
        lo < trim_hi(s, j) <= j,
    decreases j,
{
    if j > 0 && is_white(s[j - 1]) {
        lemma_trim_hi(s, lo, (j - 1) as nat);
    }
}

proof fn lemma_trim_lo(s: Seq<char>, i: nat)
    requires
        i <= s.len(),
    ensures
        i <= trim_lo(s, i) <= s.len(),
        trim_lo(s, i) < s.len() ==> !is_white(s[trim_lo(s, i) as int]),
    decreases s.len() - i,
{
    if i < s.len() && is_white(s[i as int]) {
        lemma_trim_lo(s, i + 1);
    }
}

/// `s` without leading and trailing white space.
pub fn trim_chars(s: &Vec<char>) -> (r: Vec<char>)
    ensures
        r@ == trimmed(s@),
{
    let n = s.len();
    let mut lo: usize = 0;
    while lo < n && is_unicode_white_space(s[lo])
        invariant
            lo <= n == s@.len(),
            trim_lo(s@, lo as nat) == trim_lo(s@, 0),
        decreases n - lo,
    {
        lo = lo + 1;
    }
    if lo >= n {
        return Vec::new();
    }
    let mut hi: usize = n;
    while hi > 0 && is_unicode_white_space(s[hi - 1])
        invariant
            hi <= n == s@.len(),
            trim_hi(s@, hi as nat) == trim_hi(s@, n as nat),
        decreases hi,
    {
        hi = hi - 1;
    }
    proof {
        lemma_trim_hi(s@, lo as nat, n as nat);
    }
    slice_chars(s, lo, hi)
}

/// The characters of `s` without leading and trailing white space.
pub fn trim_text(s: &str) -> (r: Vec<char>)
    ensures
        r@ == trimmed(s@),
{
    let cs = chars_of(s);
    trim_chars(&cs)
}

fn contains_char(sep: &Vec<char>, c: char) -> (r: bool)
    ensures
        r == sep@.contains(c),
{
    let mut k: usize = 0;
    while k < sep.len()
        invariant
            k <= sep@.len(),
            forall|m: int| 0 <= m < k ==> sep@[m] != c,
        decreases sep@.len() - k,
    {
        if sep[k] == c {
            return true;
        }
        k = k + 1;
    }
    false
}

fn skip_seps_at(s: &Vec<char>, i: usize, sep: &Vec<char>) -> (r: usize)
    requires
        i <= s@.len(),
    ensures
        r == skip_seps(s@, i as nat, sep@),
        i <= r <= s@.len(),
{
    let mut k = i;
    while k < s.len() && contains_char(sep, s[k])
        invariant
            i <= k <= s@.len(),
            skip_seps(s@, k as nat, sep@) == skip_seps(s@, i as nat, sep@),
        decreases s@.len() - k,
    {
        k = k + 1;
    }
    k
}

fn word_end_at(s: &Vec<char>, i: usize, sep: &Vec<char>) -> (r: usize)
    requires
        i <= s@.len(),
    ensures
        r == word_end(s@, i as nat, sep@),
        i <= r <= s@.len(),
{
    proof {
        lemma_word_scan(s@, i as nat, sep@, false, false);
    }
    let mut k = i;
    let mut esc = false;
    let mut quoted = false;
    while k < s.len()
        invariant
            i <= k <= s@.len(),
            word_scan(s@, k as nat, sep@, esc, quoted) == word_end(s@, i as nat, sep@),
        decreases s@.len() - k,
    {
        let c = s[k];
        if c == '"' && !esc {
            quoted = !quoted;
        }
        if quoted {
        } else if esc {
            esc = false;
        } else if c == '\\' {
            esc = true;
        } else if contains_char(sep, c) {
            return k;
        }
        k = k + 1;
    }
    k
}

/// Whether `s[from..to]` spells `lit`.
fn spells(s: &Vec<char>, from: usize, to: usize, lit: &str) -> (r: bool)
    requires
        from <= to <= s@.len(),
    ensures
        r == (s@.subrange(from as int, to as int) == lit@),
{
    let n = lit.unicode_len();
    if to - from != n {
        return false;
    }
    let mut k: usize = 0;
    while k < n
        invariant
            n == lit@.len(),
            to - from == n,
            from <= to <= s@.len(),
            k <= n,
            forall|m: int| 0 <= m < k ==> s@[from + m] == lit@[m],
        decreases n - k,
    {
        if s[from + k] != lit.get_char(k) {
            assert(s@.subrange(from as int, to as int)[k as int] != lit@[k as int]);
            return false;
        }
        k = k + 1;
    }
    assert(s@.subrange(from as int, to as int) =~= lit@);
    true
}

/// The token that the word `s[from..to]` stands for.
fn word_token_at(s: &Vec<char>, from: usize, to: usize) -> (t: Token)
    requires
        from <= to <= s@.len(),
    ensures
        t@ == word_token(s@.subrange(from as int, to as int)),
{
    if spells(s, from, to, "permit") {
        Token::Permit
    } else if spells(s, from, to, "deny") {
        Token::Deny
    } else if spells(s, from, to, "\n") {
        Token::Eol
    } else if spells(s, from, to, "nopass") {
        Token::NoPass
    } else if spells(s, from, to, "keepenv") {
        Token::KeepEnv
    } else if spells(s, from, to, "persist") {
        Token::Persist
    } else if spells(s, from, to, "as") {
        Token::As
    } else if spells(s, from, to, "cmd") {
        Token::Cmd
    } else if spells(s, from, to, "args") {
        Token::Args
    } else {
        Token::Ident(string_of(s, from, to))
    }
}

/// The words of `s` separated by `sep`.
fn words_of(s: &Vec<char>, sep: &Vec<char>) -> (ws: Vec<String>)
    ensures
        ws@.map_values(|w: String| w@) == words_from(s@, 0, sep@),
{
    let mut ws: Vec<String> = Vec::new();
    let mut i: usize = 0;
    while i < s.len()
        invariant
            i <= s@.len(),
            ws@.map_values(|w: String| w@) + words_from(s@, i as nat, sep@) == words_from(s@, 0, sep@),
        decreases s@.len() - i,
    {
        let j = skip_seps_at(s, i, sep);
        if j >= s.len() {
            assert(words_from(s@, i as nat, sep@) == Seq::<Seq<char>>::empty());
            assert(ws@.map_values(|w: String| w@) =~= ws@.map_values(|w: String| w@) + Seq::<
                Seq<char>,
            >::empty());
            return ws;
        }
        proof {
            lemma_skip_seps(s@, i as nat, sep@);
            lemma_word_end(s@, j as nat, sep@);
        }
        let e = word_end_at(s, j, sep);
        let w = string_of(s, j, e);
        let ghost before = ws@.map_values(|w: String| w@);
        ws.push(w);
        assert(ws@.map_values(|w: String| w@) =~= before.push(s@.subrange(j as int, e as int)));
        assert(words_from(s@, i as nat, sep@) == seq![s@.subrange(j as int, e as int)].add(
            words_from(s@, e as nat, sep@),
        ));
        assert(ws@.map_values(|w: String| w@) + words_from(s@, e as nat, sep@) =~= before
            + words_from(s@, i as nat, sep@));
        i = e;
    }
    assert(words_from(s@, i as nat, sep@) == Seq::<Seq<char>>::empty());
    assert(ws@.map_values(|w: String| w@) =~= ws@.map_values(|w: String| w@) + Seq::<
        Seq<char>,
    >::empty());
    ws
}

/// The bindings that the words `ws` make, two by two.
fn bind_words(ws: &Vec<String>) -> (m: EnvMap)
    ensures
        m.pairs() == bindings_of(ws@.map_values(|w: String| w@)),
{
    let ghost wv = ws@.map_values(|w: String| w@);
    let ghost ps = pairs_of(wv);
    let mut m = EnvMap::new();
    let n = ws.len() / 2;
    let mut k: usize = 0;
    assert(ps.take(0) =~= Seq::<(Seq<char>, Seq<char>)>::empty());
    while k < n
        invariant
            n == ps.len(),
            n == ws@.len() / 2,
            ws@.len() <= usize::MAX,
            wv == ws@.map_values(|w: String| w@),
            ps == pairs_of(wv),
            k <= n,
            m.pairs() == insert_all(Seq::empty(), ps.take(k as int)),
        decreases n - k,
    {
        assert(2 * k + 1 < ws@.len());
        let key = ws[2 * k].clone();
        let value = ws[2 * k + 1].clone();
        m.insert(key, value);
        assert(ps.take(k + 1).drop_last() =~= ps.take(k as int));
        assert(ps.take(k + 1).last() == ps[k as int]);
        k = k + 1;
    }
    assert(ps.take(n as int) =~= ps);
    m
}

/// The `setenv` block after position `i`.
fn set_env_at(s: &Vec<char>, i: usize) -> (r: Result<(Token, usize), LexerError>)
    requires
        i <= s@.len(),
    ensures
        step_view(r) == spec_set_env(s@, i as nat),
{
    let o = find_char_at(s, i, '{');
    if o >= s.len() {
        return Err(LexerError::NoOrUnmatchedBracket);
    }
    let c = find_char_at(s, o + 1, '}');
    if c >= s.len() {
        return Err(LexerError::NoOrUnmatchedBracket);
    }
    let inner = slice_chars(s, o + 1, c);
    let seps = vec![' ', '\t', '='];
    assert(seps@ == brace_seps());
    let ws = words_of(&inner, &seps);
    let m = bind_words(&ws);
    Ok((Token::SetEnv(m), c + 1))
}

/// The token at position `i` of `s`, and the position after it.
pub fn get_next_token(s: &Vec<char>, i: usize) -> (r: Result<(Token, usize), LexerError>)
    requires
        i <= s@.len(),
    ensures
        step_view(r) == spec_next_token(s@, i as nat),
{
    let blanks = vec![' ', '\t'];
    assert(blanks@ == seq![' ', '\t']);
    let j = skip_seps_at(s, i, &blanks);
    if j >= s.len() {
        return Err(LexerError::NoWordsLeft);
    }
    if s[j] == '\n' {
        return Ok((Token::Eol, j + 1));
    }
    let seps = vec![' ', '\t', '\n'];
    assert(seps@ == line_seps());
    let e = word_end_at(s, j, &seps);
    if spells(s, j, e, "#") {
        let nl = find_char_at(s, e, '\n');
        if nl >= s.len() {
            Err(LexerError::NoWordsLeft)
        } else {
            Ok((Token::Eol, nl + 1))
        }
    } else if spells(s, j, e, "setenv") {
        set_env_at(s, e)
    } else {
        Ok((word_token_at(s, j, e), e))
    }
}

fn resume_at(s: &Vec<char>, i: usize) -> (r: usize)
    requires
        i <= s@.len(),
    ensures
        r == resume_after(s@, i as nat),
{
    let blanks = vec![' ', '\t'];
    assert(blanks@ == seq![' ', '\t']);
    let j = skip_seps_at(s, i, &blanks);
    let seps = vec![' ', '\t', '\n'];
    assert(seps@ == line_seps());
    let e = word_end_at(s, j, &seps);
    find_char_at(s, e, '\n')
}

/// The tokens of a policy text, with an `Invalid` token for each `setenv`
/// block that cannot be read; the last is always an end of line.
pub fn lex_tokens(data: &str) -> (r: Vec<Token>)
    ensures
        tokens_view(r@) == tokenize(data@),
        r@.len() > 0 && r@[r@.len() - 1] is Eol,
{
    let all = chars_of(data);
    let s = trim_chars(&all);
    let mut tokens: Vec<Token> = Vec::new();
    let mut i: usize = 0;
    loop
        invariant
            i <= s@.len(),
            tokens_view(tokens@) + lex_from(s@, i as nat) == lex_from(s@, 0),
        ensures
            tokens_view(tokens@) == lex_from(s@, 0),
        decreases s@.len() - i,
    {
        proof {
            lemma_next_token_advances(s@, i as nat);
        }
        let ghost before = tokens_view(tokens@);
        match get_next_token(&s, i) {
            Ok((tok, n)) => {
                let ghost t = tok@;
                tokens.push(tok);
                assert(tokens_view(tokens@) =~= before.push(t));
                assert(lex_from(s@, i as nat) == seq![t].add(lex_from(s@, n as nat)));
                assert(tokens_view(tokens@) + lex_from(s@, n as nat) =~= before + lex_from(
                    s@,
                    i as nat,
                ));
                i = n;
            },
            Err(LexerError::NoOrUnmatchedBracket) => {
                let n = resume_at(&s, i);
                let ghost t = SpecToken::Invalid(LexerError::NoOrUnmatchedBracket);
                tokens.push(Token::Invalid(LexerError::NoOrUnmatchedBracket));
                assert(tokens_view(tokens@) =~= before.push(t));
                assert(lex_from(s@, i as nat) == seq![t].add(lex_from(s@, n as nat)));
                assert(tokens_view(tokens@) + lex_from(s@, n as nat) =~= before + lex_from(
                    s@,
                    i as nat,
                ));
                i = n;
            },
            Err(_) => {
                assert(lex_from(s@, i as nat) == Seq::<SpecToken>::empty());
                assert(tokens_view(tokens@) =~= tokens_view(tokens@) + lex_from(s@, i as nat));
                break ;
            },
        }
    }
    let ghost before = tokens_view(tokens@);
    tokens.push(Token::Eol);
    assert(tokens_view(tokens@) =~= before.push(SpecToken::Eol));
    tokens
}

/// The tokens of a policy text; the last is always an end of line. A
/// `setenv` without its `{` or `}` is the error `NoOrUnmatchedBracket`.
pub fn get_tokens(data: &str) -> (r: Result<Vec<Token>, LexerError>)
    ensures
        has_invalid(tokenize(data@)) ==> r == Err::<Vec<Token>, LexerError>(
            LexerError::NoOrUnmatchedBracket,
        ),
        !has_invalid(tokenize(data@)) ==> (r matches Ok(ts) && tokens_view(ts@) == tokenize(data@)),
        r matches Ok(ts) ==> ts@.len() > 0 && ts@[ts@.len() - 1] is Eol,
{
    let tokens = lex_tokens(data);
    let mut k: usize = 0;
    while k < tokens.len()
        invariant
            k <= tokens@.len(),
            tokens_view(tokens@) == tokenize(data@),
            forall|m: int| 0 <= m < k ==> !(#[trigger] tokens_view(tokens@)[m] is Invalid),
        decreases tokens@.len() - k,
    {
        if let Token::Invalid(_) = &tokens[k] {
            assert(tokens_view(tokens@)[k as int] is Invalid);
            return Err(LexerError::NoOrUnmatchedBracket);
        }
        k = k + 1;
    }
    Ok(tokens)
}

/// The next word of `contents` after any separators in `seperator`, with what
/// follows it: `Ok((remaining, word))`.
pub fn get_next_word(seperator: &str, contents: &str) -> (r: Result<(String, String), LexerError>)
    ensures
        ({
            let s = contents@;
            let j = skip_seps(s, 0, seperator@);
            let e = word_end(s, j, seperator@);
            if j >= s.len() {
                r == Err::<(String, String), LexerError>(LexerError::NoWordsLeft)
            } else {
                r matches Ok((rest, w)) && w@ == s.subrange(j as int, e as int) && rest@ == s.subrange(
                    e as int,
                    s.len() as int,
                )
            }
        }),
{
    let s = chars_of(contents);
    let sep = chars_of(seperator);
    let j = skip_seps_at(&s, 0, &sep);
    if j >= s.len() {
        return Err(LexerError::NoWordsLeft);
    }
    let e = word_end_at(&s, j, &sep);
    Ok((string_of(&s, e, s.len()), string_of(&s, j, e)))
}

/// The `setenv` block at the start of `data`, with what follows it:
/// `Ok((remaining, Token::SetEnv(..)))`.
pub fn parse_set_env(data: &str) -> (r: Result<(String, Token), LexerError>)
    ensures
        match spec_set_env(data@, 0) {
            Ok((t, n)) => r matches Ok((rest, tok)) && tok@ == t && rest@ == data@.subrange(
                n as int,
                data@.len() as int,
            ),
            Err(e) => r == Err::<(String, Token), LexerError>(e),
        },
{
    let s = chars_of(data);
    match set_env_at(&s, 0) {
        Ok((tok, n)) => {
            proof {
                lemma_find_char(s@, 0, '{');
                lemma_find_char(s@, find_char(s@, 0, '{') + 1, '}');
            }
            Ok((string_of(&s, n, s.len()), tok))
        },
        Err(e) => Err(e),
    }
}

impl Token {
    /// The token that the word `w` stands for.
    pub fn from_word(w: &str) -> (t: Token)
        ensures
            t@ == word_token(w@),
    {
        let s = chars_of(w);
        assert(s@.subrange(0, s@.len() as int) =~= w@);
        word_token_at(&s, 0, s.len())
    }
}

impl<'a> From<&'a str> for Token {
    fn from(w: &'a str) -> Token {
        Token::from_word(w)
    }
}

impl<'a> vstd::std_specs::convert::FromSpecImpl<&'a str> for Token {
    open spec fn obeys_from_spec() -> bool {
        false
    }

    open spec fn from_spec(w: &'a str) -> Token {
        Token::Eol
    }
}

/// The bindings of a `setenv` token as text: `k=v` for each, space-separated.
pub open spec fn pairs_text(ps: Seq<(Seq<char>, Seq<char>)>) -> Seq<char>
    decreases ps.len(),
{
    if ps.len() == 0 {
        Seq::empty()
    } else {
        let before = pairs_text(ps.drop_last());
        let sep = if ps.len() > 1 {
            seq![' ']
        } else {
            Seq::empty()
        };
        before + sep + ps.last().0 + seq!['='] + ps.last().1
    }
}

/// How a token reads in a diagnostic.
pub open spec fn token_text(t: SpecToken) -> Seq<char> {
    match t {
        SpecToken::Permit => "permit"@,
        SpecToken::Deny => "deny"@,
        SpecToken::Persist => "persist"@,
        SpecToken::NoPass => "nopass"@,
        SpecToken::KeepEnv => "keepenv"@,
        SpecToken::As => "as"@,
        SpecToken::Cmd => "cmd"@,
        SpecToken::Args => "args"@,
        SpecToken::Eol => "End Of Line"@,
        SpecToken::Ident(w) => w,
        SpecToken::SetEnv(ps) => "setenv {"@ + pairs_text(ps) + "}"@,
        SpecToken::Invalid(_) => "setenv without its braces"@,
    }
}

impl Token {
    /// Appends how the token reads in a diagnostic to `out`.
    pub fn write_text(&self, out: &mut String)
        ensures
            final(out)@ == old(out)@ + token_text(self@),
    {
        match self {
            Token::Permit => push_text(out, "permit"),
            Token::Deny => push_text(out, "deny"),
            Token::Persist => push_text(out, "persist"),
            Token::NoPass => push_text(out, "nopass"),
            Token::KeepEnv => push_text(out, "keepenv"),
            Token::As => push_text(out, "as"),
            Token::Cmd => push_text(out, "cmd"),
            Token::Args => push_text(out, "args"),
            Token::Eol => push_text(out, "End Of Line"),
            Token::Invalid(_) => push_text(out, "setenv without its braces"),
            Token::Ident(w) => push_text(out, w.as_str()),
            Token::SetEnv(m) => {
                let ghost start = out@;
                push_text(out, "setenv {");
                let ghost ps = m.pairs();
                let n = m.len();
                let mut k: usize = 0;
                assert(ps.take(0) =~= Seq::<(Seq<char>, Seq<char>)>::empty());
                assert(out@ =~= start + "setenv {"@ + pairs_text(ps.take(0)));
                while k < n
                    invariant
                        n == ps.len(),
                        ps == m.pairs(),
                        k <= n,
                        out@ == start + "setenv {"@ + pairs_text(ps.take(k as int)),
                    decreases n - k,
                {
                    let ghost before = out@;
                    if k > 0 {
                        out.push(' ');
                    }
                    push_text(out, m.key_at(k).as_str());
                    out.push('=');
                    push_text(out, m.value_at(k).as_str());
                    let ghost t = ps.take(k + 1);
                    assert(t.drop_last() =~= ps.take(k as int));
                    assert(t.last() == ps[k as int]);
                    let ghost sep = if t.len() > 1 {
                        seq![' ']
                    } else {
                        Seq::<char>::empty()
                    };
                    assert(out@ =~= before + sep + ps[k as int].0 + seq!['='] + ps[k as int].1);
                    assert(pairs_text(t) == pairs_text(ps.take(k as int)) + sep + ps[k as int].0 + seq!['=']
                        + ps[k as int].1);
                    assert(out@ =~= start + "setenv {"@ + pairs_text(t));
                    k = k + 1;
                }
                assert(ps.take(n as int) =~= ps);
                let ghost mid = out@;
                push_text(out, "}");
                assert(out@ =~= start + ("setenv {"@ + pairs_text(ps) + "}"@));
            },
        }
    }

    /// How the token reads in a diagnostic.
    pub fn to_text(&self) -> (r: String)
        ensures
            r@ == token_text(self@),
    {
        let mut r = String::new();
        self.write_text(&mut r);
        assert(r@ =~= token_text(self@));
        r
    }
}

} // verus!
