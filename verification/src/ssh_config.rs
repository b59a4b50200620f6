//! Parser for the user's ssh configuration file.
//!
//! The format is a sequence of `Host <alias>` blocks; inside a block each
//! line is a keyword followed by a whitespace-separated value.  `#` starts
//! a comment that runs to the end of the line.  The grammar is stated by
//! spec functions over character sequences and the parser is proved to
//! follow them exactly.

use vstd::prelude::*;

verus! {

/// One parsed `Host` block.
#[derive(Debug, Clone, PartialEq, Eq)]
pub struct Host {
    pub name: String,
    pub host_name: String,
    pub user: String,
    pub identity_file: String,
    pub port: u16,
}

/// All host blocks of a configuration file, in file order.
#[derive(Debug, PartialEq, Eq)]
pub struct Hosts(pub Vec<Host>);

/// Why a configuration text was rejected.
#[derive(Debug)]
pub enum ParserError {
    TrailingCharacters,
    Eof,
    ExpectedInteger,
    UnexpectedToken,
    Message(String),
}

/// The port used when a `Host` block has no `Port` line.
pub fn default_port() -> (r: u16)
    ensures
        r == 22u16,
{
    22
}

// ------------------------------------------------------------------
// Character classes
// ------------------------------------------------------------------

/// The characters Unicode gives the `White_Space` property, which is what
/// `char::is_whitespace` tests.
pub open spec fn is_ws(c: char) -> bool {
    let u = c as u32;
    u == 0x20 || (9 <= u && u <= 13) || u == 0x85 || u == 0xA0 || u == 0x1680 || (0x2000 <= u
        && u <= 0x200A) || u == 0x2028 || u == 0x2029 || u == 0x202F || u == 0x205F || u == 0x3000
}

pub open spec fn is_digit(c: char) -> bool {
    48 <= c as u32 && c as u32 <= 57
}

/// The numeric value of a decimal digit character.
pub open spec fn digit_val(c: char) -> nat {
    (c as u32 - 48) as nat
}

fn ws_char(c: char) -> (r: bool)
    ensures
        r == is_ws(c),
{
    let u = c as u32;
    u == 0x20 || (9 <= u && u <= 13) || u == 0x85 || u == 0xA0 || u == 0x1680 || (0x2000 <= u
        && u <= 0x200A) || u == 0x2028 || u == 0x2029 || u == 0x202F || u == 0x205F || u == 0x3000
}

fn digit_char(c: char) -> (r: bool)
    ensures
        r == is_digit(c),
{
    let u = c as u32;
    48 <= u && u <= 57
}

// ------------------------------------------------------------------
// Scanning, at the specification level
// ------------------------------------------------------------------

/// How many whitespace characters the text starts with.
pub open spec fn ws_len(s: Seq<char>) -> nat
    decreases s.len(),
{
    if s.len() > 0 && is_ws(s[0]) {
        1 + ws_len(s.drop_first())
    } else {
        0
    }
}

/// How many characters the text holds before its first newline.
pub open spec fn line_len(s: Seq<char>) -> nat
    decreases s.len(),
{
    if s.len() > 0 && s[0] != '\n' {
        1 + line_len(s.drop_first())
    } else {
        0
    }
}

/// How many non-whitespace characters the text starts with.
pub open spec fn token_len(s: Seq<char>) -> nat
    decreases s.len(),
{
    if s.len() > 0 && !is_ws(s[0]) {
        1 + token_len(s.drop_first())
    } else {
        0
    }
}

pub proof fn lemma_ws_len_le(s: Seq<char>)
    ensures
        ws_len(s) <= s.len(),
    decreases s.len(),
{
    if s.len() > 0 && is_ws(s[0]) {
        lemma_ws_len_le(s.drop_first());
    }
}

pub proof fn lemma_line_len_le(s: Seq<char>)
    ensures
        line_len(s) <= s.len(),
    decreases s.len(),
{
    if s.len() > 0 && s[0] != '\n' {
        lemma_line_len_le(s.drop_first());
    }
}

pub proof fn lemma_token_len_le(s: Seq<char>)
    ensures
        token_len(s) <= s.len(),
    decreases s.len(),
{
    if s.len() > 0 && !is_ws(s[0]) {
        lemma_token_len_le(s.drop_first());
    }
}

/// The whitespace prefix that `ws_len` counts is maximal.
pub proof fn lemma_ws_len_maximal(s: Seq<char>)
    ensures
        ws_len(s) < s.len() ==> !is_ws(s[ws_len(s) as int]),
    decreases s.len(),
{
    if s.len() > 0 && is_ws(s[0]) {
        lemma_ws_len_maximal(s.drop_first());
    }
}

/// What remains of a comment's line once the line and its newline are gone.
pub open spec fn comment_rest(s: Seq<char>) -> Seq<char> {
    let u = s.skip(line_len(s) as int);
    if u.len() > 0 {
        u.drop_first()
    } else {
        u
    }
}

/// The text with leading whitespace and whole comment lines removed:
/// what `skip_whitespace` leaves in the input.
pub open spec fn after_skip(s: Seq<char>) -> Seq<char>
    decreases s.len(),
    via after_skip_dec
{
    let t = s.skip(ws_len(s) as int);
    if t.len() > 0 && t[0] == '#' {
        after_skip(comment_rest(t))
    } else {
        t
    }
}

#[via_fn]
proof fn after_skip_dec(s: Seq<char>) {
    lemma_ws_len_le(s);
    let t = s.skip(ws_len(s) as int);
    if t.len() > 0 && t[0] == '#' {
        lemma_line_len_le(t);
        assert(line_len(t) >= 1);
    }
}

/// Skipping one leading whitespace character does not change the result.
proof fn lemma_after_skip_ws(s: Seq<char>)
    requires
        s.len() > 0,
        is_ws(s[0]),
    ensures
        after_skip(s) == after_skip(s.drop_first()),
{
    let d = s.drop_first();
    assert(ws_len(s) == 1 + ws_len(d));
    lemma_ws_len_le(d);
    assert(s.skip(ws_len(s) as int) =~= d.skip(ws_len(d) as int));
}

/// At a comment marker, the result is that of the rest of the line's tail.
proof fn lemma_after_skip_comment(s: Seq<char>)
    requires
        s.len() > 0,
        s[0] == '#',
    ensures
        after_skip(s) == after_skip(comment_rest(s)),
{
    assert(!is_ws(s[0]));
    assert(ws_len(s) == 0);
    assert(s.skip(0) =~= s);
}

/// At a character that neither is whitespace nor starts a comment, nothing
/// is skipped; the same holds of an empty text.
proof fn lemma_after_skip_none(s: Seq<char>)
    requires
        s.len() == 0 || (!is_ws(s[0]) && s[0] != '#'),
    ensures
        after_skip(s) == s,
{
    assert(ws_len(s) == 0);
    assert(s.skip(0) =~= s);
}

/// Skipping is idempotent.
proof fn lemma_after_skip_idempotent(s: Seq<char>)
    ensures
        after_skip(after_skip(s)) == after_skip(s),
    decreases s.len(),
{
    lemma_ws_len_le(s);
    let t = s.skip(ws_len(s) as int);
    if t.len() > 0 && t[0] == '#' {
        lemma_line_len_le(t);
        lemma_after_skip_comment(t);
        lemma_after_skip_idempotent(comment_rest(t));
    } else {
        lemma_ws_len_maximal(s);
        lemma_after_skip_none(t);
    }
}

/// The result of skipping never starts with whitespace or a comment mark,
/// and is never longer than the text.
proof fn lemma_after_skip_clean(s: Seq<char>)
    ensures
        after_skip(s).len() <= s.len(),
        after_skip(s).len() > 0 ==> !is_ws(after_skip(s)[0]) && after_skip(s)[0] != '#',
    decreases s.len(),
{
    lemma_ws_len_le(s);
    lemma_ws_len_maximal(s);
    let t = s.skip(ws_len(s) as int);
    if t.len() > 0 && t[0] == '#' {
        lemma_line_len_le(t);
        lemma_after_skip_clean(comment_rest(t));
    }
}

// ------------------------------------------------------------------
// Tokens, keywords and numbers, at the specification level
// ------------------------------------------------------------------

/// The whitespace-delimited token the text starts with.
pub open spec fn token_of(s: Seq<char>) -> Seq<char> {
    s.take(token_len(s) as int)
}

/// The text after its leading token.
pub open spec fn token_rest(s: Seq<char>) -> Seq<char> {
    s.skip(token_len(s) as int)
}

/// The word that peeking finds: whitespace (but not comments) skipped,
/// then the next token.
pub open spec fn peek_word(s: Seq<char>) -> Seq<char> {
    token_of(s.skip(ws_len(s) as int))
}

/// The keywords the format knows.
#[derive(Clone, Copy, Debug)]
pub enum Identifier {
    Host,
    HostName,
    Port,
    User,
    IdentityFile,
}

/// Which keyword a word is, if any.
pub open spec fn spec_ident(w: Seq<char>) -> Option<Identifier> {
    if w == "Host"@ {
        Some(Identifier::Host)
    } else if w == "HostName"@ {
        Some(Identifier::HostName)
    } else if w == "Port"@ {
        Some(Identifier::Port)
    } else if w == "User"@ {
        Some(Identifier::User)
    } else if w == "IdentityFile"@ {
        Some(Identifier::IdentityFile)
    } else {
        None
    }
}

/// How many decimal digits the text starts with.
pub open spec fn digits_len(s: Seq<char>) -> nat
    decreases s.len(),
{
    if s.len() > 0 && is_digit(s[0]) {
        1 + digits_len(s.drop_first())
    } else {
        0
    }
}

pub proof fn lemma_digits_len_le(s: Seq<char>)
    ensures
        digits_len(s) <= s.len(),
    decreases s.len(),
{
    if s.len() > 0 && is_digit(s[0]) {
        lemma_digits_len_le(s.drop_first());
    }
}

/// The value a run of digits denotes, reduced the way a sixteen-bit
/// accumulator reduces it: every step is taken modulo 2^16.
pub open spec fn digits_val(ds: Seq<char>) -> nat
    decreases ds.len(),
{
    if ds.len() == 0 {
        0
    } else {
        (digits_val(ds.drop_last()) * 10 + digit_val(ds.last())) % 0x10000
    }
}

pub proof fn lemma_digits_val_bound(ds: Seq<char>)
    ensures
        digits_val(ds) < 0x10000,
    decreases ds.len(),
{
    if ds.len() > 0 {
        lemma_digits_val_bound(ds.drop_last());
    }
}

// ------------------------------------------------------------------
// The deserializer and its basic steps
// ------------------------------------------------------------------

/// A cursor over the configuration text.
pub struct Deserializer<'de> {
    input: &'de str,
    pos: usize,
    len: usize,
}

impl<'de> Deserializer<'de> {
    /// The cursor is inside its text and knows the text's length.
    pub closed spec fn wf(self) -> bool {
        self.pos <= self.len && self.len == self.input@.len()
    }

    /// The whole text under the cursor.
    pub closed spec fn text(self) -> Seq<char> {
        self.input@
    }

    /// The text still to be consumed.
    pub closed spec fn remaining(self) -> Seq<char> {
        self.input@.skip(self.pos as int)
    }

    pub fn from_str(input: &'de str) -> (r: Self)
        ensures
            r.wf(),
            r.remaining() == input@,
    {
        let len = input.unicode_len();
        let r = Deserializer { input, pos: 0, len };
        proof {
            assert(r.remaining() =~= input@);
        }
        r
    }

    /// The next character, without consuming it.
    pub fn peek_char(&self) -> (r: Result<char, ParserError>)
        requires
            self.wf(),
        ensures
            self.remaining().len() > 0 ==> (r matches Ok(c) && c == self.remaining()[0]),
            self.remaining().len() == 0 ==> (r matches Err(e) && e is Eof),
    {
        if self.pos < self.len {
            Ok(self.input.get_char(self.pos))
        } else {
            Err(ParserError::Eof)
        }
    }

    /// Consume and return the next character.
    pub fn advance(&mut self) -> (r: Result<char, ParserError>)
        requires
            old(self).wf(),
        ensures
            final(self).wf(),
            final(self).text() == old(self).text(),
            old(self).remaining().len() > 0 ==> (r matches Ok(c) && c == old(self).remaining()[0]
                && final(self).remaining() == old(self).remaining().drop_first()),
            old(self).remaining().len() == 0 ==> (r matches Err(e) && e is Eof) && *final(self)
                == *old(self),
    {
        if self.pos < self.len {
            let c = self.input.get_char(self.pos);
            self.pos = self.pos + 1;
            proof {
                assert(final(self).remaining() =~= old(self).remaining().drop_first());
            }
            Ok(c)
        } else {
            Err(ParserError::Eof)
        }
    }

    /// Drop leading whitespace and whole comment lines.
    pub fn skip_whitespace(&mut self)
        requires
            old(self).wf(),
        ensures
            final(self).wf(),
            final(self).text() == old(self).text(),
            final(self).remaining() == after_skip(old(self).remaining()),
    {
        loop
            invariant
                self.wf(),
                self.input == old(self).input,
                after_skip(self.remaining()) == after_skip(old(self).remaining()),
            ensures
                self.wf(),
                self.input == old(self).input,
                self.remaining() == after_skip(old(self).remaining()),
            decreases self.len - self.pos,
        {
            let ghost pos_iter = self.pos as int;
            while self.pos < self.len && ws_char(self.input.get_char(self.pos))
                invariant
                    self.wf(),
                    self.input == old(self).input,
                    pos_iter <= self.pos as int,
                    after_skip(self.remaining()) == after_skip(old(self).remaining()),
                decreases self.len - self.pos,
            {
                proof {
                    lemma_after_skip_ws(self.remaining());
                    let next = Deserializer { pos: (self.pos + 1) as usize, ..*self };
                    assert(next.remaining() =~= self.remaining().drop_first());
                }
                self.pos = self.pos + 1;
            }
            if self.pos < self.len && self.input.get_char(self.pos) == '#' {
                let ghost rem_c = self.remaining();
                let ghost pos_c = self.pos as int;
                proof {
                    lemma_after_skip_comment(rem_c);
                }
                while self.pos < self.len && self.input.get_char(self.pos) != '\n'
                    invariant
                        self.wf(),
                        self.input == old(self).input,
                        0 <= pos_c <= self.pos as int,
                        rem_c == self.input@.skip(pos_c),
                        line_len(rem_c) == self.pos - pos_c + line_len(self.remaining()),
                    decreases self.len - self.pos,
                {
                    proof {
                        let next = Deserializer { pos: (self.pos + 1) as usize, ..*self };
                        assert(next.remaining() =~= self.remaining().drop_first());
                        assert(self.remaining()[0] == self.input@[self.pos as int]);
                        assert(self.input@.skip(pos_c)[self.pos - pos_c] == self.input@[
                            self.pos - pos_c + pos_c]);
                        assert(rem_c[self.pos - pos_c] == self.input@[self.pos as int]);
                    }
                    self.pos = self.pos + 1;
                }
                proof {
                    assert(line_len(self.remaining()) == 0) by {
                        if self.pos < self.len {
                            assert(self.remaining()[0] == '\n');
                        }
                    }
                    assert(self.remaining() =~= rem_c.skip(line_len(rem_c) as int));
                }
                if self.pos < self.len {
                    proof {
                        let next = Deserializer { pos: (self.pos + 1) as usize, ..*self };
                        assert(next.remaining() =~= self.remaining().drop_first());
                        assert(comment_rest(rem_c) == self.remaining().drop_first());
                    }
                    self.pos = self.pos + 1;
                } else {
                    proof {
                        assert(comment_rest(rem_c) =~= self.remaining());
                    }
                }
                proof {
                    assert(rem_c[0] != '\n');
                    assert(line_len(rem_c) >= 1);
                    assert(self.pos as int > pos_iter);
                }
            } else {
                proof {
                    lemma_after_skip_none(self.remaining());
                }
                break;
            }
        }
    }
}

/// Character-for-character equality of two strings.
fn str_eq(a: &str, b: &str) -> (r: bool)
    ensures
        r == (a@ == b@),
{
    let n = a.unicode_len();
    if n != b.unicode_len() {
        return false;
    }
    let mut i: usize = 0;
    while i < n
        invariant
            i <= n,
            n == a@.len() == b@.len(),
            forall|j: int| 0 <= j < i ==> a@[j] == b@[j],
        decreases n - i,
    {
        if a.get_char(i) != b.get_char(i) {
            return false;
        }
        i = i + 1;
    }
    proof {
        assert(a@ =~= b@);
    }
    true
}

/// Which keyword a word is; `None` for anything else.
fn ident_of(w: &str) -> (r: Option<Identifier>)
    ensures
        r == spec_ident(w@),
{
    if str_eq(w, "Host") {
        Some(Identifier::Host)
    } else if str_eq(w, "HostName") {
        Some(Identifier::HostName)
    } else if str_eq(w, "Port") {
        Some(Identifier::Port)
    } else if str_eq(w, "User") {
        Some(Identifier::User)
    } else if str_eq(w, "IdentityFile") {
        Some(Identifier::IdentityFile)
    } else {
        None
    }
}

impl<'de> Deserializer<'de> {
    /// Skip whitespace and comments, then collect the next token.  The
    /// token may be empty when the input is exhausted.
    pub fn parse_string(&mut self) -> (r: Result<String, ParserError>)
        requires
            old(self).wf(),
        ensures
            final(self).wf(),
            final(self).text() == old(self).text(),
            r matches Ok(tok) && tok@ == token_of(after_skip(old(self).remaining())),
            final(self).remaining() == token_rest(after_skip(old(self).remaining())),
    {
        self.skip_whitespace();
        let ghost t = self.remaining();
        let start = self.pos;
        while self.pos < self.len && !ws_char(self.input.get_char(self.pos))
            invariant
                self.wf(),
                self.input@ == old(self).text(),
                0 <= start as int <= self.pos as int,
                t == self.input@.skip(start as int),
                token_len(t) == self.pos - start + token_len(self.remaining()),
            decreases self.len - self.pos,
        {
            proof {
                let next = Deserializer { pos: (self.pos + 1) as usize, ..*self };
                assert(next.remaining() =~= self.remaining().drop_first());
                assert(self.input@.skip(start as int)[self.pos - start] == self.input@[self.pos
                    - start + start]);
                assert(self.remaining()[0] == self.input@[self.pos as int]);
            }
            self.pos = self.pos + 1;
        }
        proof {
            assert(token_len(self.remaining()) == 0) by {
                if self.pos < self.len {
                    assert(self.remaining()[0] == self.input@[self.pos as int]);
                }
            }
            assert(token_len(t) == self.pos - start);
            lemma_token_len_le(t);
        }
        let tok = self.input.substring_char(start, self.pos).to_owned();
        proof {
            assert(tok@ =~= token_of(t));
            assert(self.remaining() =~= token_rest(t));
        }
        Ok(tok)
    }

    /// Collect the next token and require it to be a keyword.
    pub fn parse_identifier(&mut self) -> (r: Result<Identifier, ParserError>)
        requires
            old(self).wf(),
        ensures
            final(self).wf(),
            final(self).text() == old(self).text(),
            r == match spec_ident(token_of(after_skip(old(self).remaining()))) {
                Some(id) => Ok::<Identifier, ParserError>(id),
                None => Err(ParserError::UnexpectedToken),
            },
            final(self).remaining() == token_rest(after_skip(old(self).remaining())),
    {
        let tok = match self.parse_string() {
            Ok(tok) => tok,
            Err(e) => { return Err(e); },
        };
        match ident_of(tok.as_str()) {
            Some(id) => Ok(id),
            None => Err(ParserError::UnexpectedToken),
        }
    }

    /// Look at the word that follows any plain whitespace, consuming
    /// nothing; comments are not skipped here.
    pub fn peek_identifier(&self) -> (r: Result<Identifier, ParserError>)
        requires
            self.wf(),
        ensures
            r == match spec_ident(peek_word(self.remaining())) {
                Some(id) => Ok::<Identifier, ParserError>(id),
                None => Err(ParserError::UnexpectedToken),
            },
    {
        let ghost rem = self.remaining();
        let mut i: usize = self.pos;
        while i < self.len && ws_char(self.input.get_char(i))
            invariant
                self.wf(),
                self.pos as int <= i as int <= self.len as int,
                rem == self.input@.skip(self.pos as int),
                ws_len(rem) == i - self.pos + ws_len(self.input@.skip(i as int)),
            decreases self.len - i,
        {
            proof {
                assert(self.input@.skip(i as int).drop_first() =~= self.input@.skip(i + 1));
                assert(self.input@.skip(i as int)[0] == self.input@[i as int]);
            }
            i = i + 1;
        }
        proof {
            assert(ws_len(self.input@.skip(i as int)) == 0) by {
                if i < self.len {
                    assert(self.input@.skip(i as int)[0] == self.input@[i as int]);
                }
            }
            lemma_ws_len_le(rem);
        }
        let ghost w_start = i as int;
        let start = i;
        let mut j: usize = i;
        while j < self.len && !ws_char(self.input.get_char(j))
            invariant
                self.wf(),
                w_start == start as int,
                0 <= start as int <= j as int <= self.len as int,
                token_len(self.input@.skip(w_start)) == j - start + token_len(
                    self.input@.skip(j as int)),
            decreases self.len - j,
        {
            proof {
                assert(self.input@.skip(j as int).drop_first() =~= self.input@.skip(j + 1));
                assert(self.input@.skip(j as int)[0] == self.input@[j as int]);
                assert(self.input@.skip(w_start)[j - w_start] == self.input@[j as int]);
            }
            j = j + 1;
        }
        proof {
            assert(token_len(self.input@.skip(j as int)) == 0) by {
                if j < self.len {
                    assert(self.input@.skip(j as int)[0] == self.input@[j as int]);
                }
            }
            lemma_token_len_le(self.input@.skip(w_start));
        }
        let word = self.input.substring_char(start, j);
        proof {
            assert(rem.skip(ws_len(rem) as int) =~= self.input@.skip(w_start));
            assert(word@ =~= peek_word(rem));
        }
        match ident_of(word) {
            Some(id) => Ok(id),
            None => Err(ParserError::UnexpectedToken),
        }
    }

    /// Parse a decimal number into sixteen bits, each step reduced modulo
    /// 2^16, as a sixteen-bit accumulator wraps.
    pub fn parse_unsigned(&mut self) -> (r: Result<u16, ParserError>)
        requires
            old(self).wf(),
        ensures
            final(self).wf(),
            final(self).text() == old(self).text(),
            ({
                let t = after_skip(old(self).remaining());
                if t.len() == 0 {
                    r matches Err(e) && e is Eof
                } else if !is_digit(t[0]) {
                    r matches Err(e) && e is ExpectedInteger
                } else {
                    r matches Ok(n) && n == digits_val(t.take(digits_len(t) as int))
                        && final(self).remaining() == t.skip(digits_len(t) as int)
                }
            }),
    {
        self.skip_whitespace();
        let ghost t = self.remaining();
        let ghost start = self.pos as int;
        let c = match self.advance() {
            Ok(c) => c,
            Err(_) => { return Err(ParserError::Eof); },
        };
        if !digit_char(c) {
            return Err(ParserError::ExpectedInteger);
        }
        proof {
            assert(self.remaining().len() == t.len() - 1);
            assert(self.pos as int == start + 1);
        }
        let mut acc: u32 = c as u32 - 48;
        proof {
            assert(t.len() > 0);
            assert(t.take(1).len() == 1);
            assert(t.take(1).drop_last() =~= Seq::<char>::empty());
            assert(t.take(1).last() == t[0]);
            assert(digits_val(Seq::<char>::empty()) == 0);
            assert(digits_val(t.take(1)) == (digits_val(t.take(1).drop_last()) * 10 + digit_val(
                t.take(1).last(),
            )) % 0x10000);
            assert(c == t[0]);
            assert(is_digit(c));
            assert(digit_val(c) < 10);
            assert(digits_val(t.take(1)) == digit_val(t[0]) % 0x10000);
            assert(acc as nat == digits_val(t.take(1)));
        }
        while self.pos < self.len && digit_char(self.input.get_char(self.pos))
            invariant
                self.wf(),
                self.input@ == old(self).text(),
                0 <= start && start < self.pos as int,
                t == self.input@.skip(start),
                t.len() > 0 && is_digit(t[0]),
                digits_len(t) == self.pos - start + digits_len(self.remaining()),
                acc < 0x10000,
                acc as nat == digits_val(t.take(self.pos - start)),
            decreases self.len - self.pos,
        {
            let d = self.input.get_char(self.pos);
            proof {
                let k = self.pos - start;
                let next = Deserializer { pos: (self.pos + 1) as usize, ..*self };
                assert(next.remaining() =~= self.remaining().drop_first());
                assert(self.input@.skip(start)[k] == self.input@[k + start]);
                assert(self.remaining()[0] == self.input@[self.pos as int]);
                assert(t[k] == d);
                assert(t.take(k + 1).drop_last() =~= t.take(k));
                assert(t.take(k + 1).last() == t[k]);
            }
            acc = (acc * 10 + (d as u32 - 48)) % 0x10000;
            self.pos = self.pos + 1;
        }
        proof {
            assert(digits_len(self.remaining()) == 0) by {
                if self.pos < self.len {
                    assert(self.remaining()[0] == self.input@[self.pos as int]);
                }
            }
            assert(digits_len(t) == self.pos - start);
            lemma_digits_len_le(t);
            assert(self.remaining() =~= t.skip(digits_len(t) as int));
        }
        Ok(acc as u16)
    }
}

// ------------------------------------------------------------------
// The host-block grammar, at the specification level
// ------------------------------------------------------------------

/// A parse error, stated over character sequences.
pub enum SpecErr {
    TrailingCharacters,
    Eof,
    ExpectedInteger,
    UnexpectedToken,
    Message(Seq<char>),
}

/// Whether an executable error is the stated one.
pub open spec fn err_matches(e: ParserError, se: SpecErr) -> bool {
    match (e, se) {
        (ParserError::TrailingCharacters, SpecErr::TrailingCharacters) => true,
        (ParserError::Eof, SpecErr::Eof) => true,
        (ParserError::ExpectedInteger, SpecErr::ExpectedInteger) => true,
        (ParserError::UnexpectedToken, SpecErr::UnexpectedToken) => true,
        (ParserError::Message(m), SpecErr::Message(v)) => m@ == v,
        _ => false,
    }
}

/// A host block, stated over character sequences.
pub struct HostV {
    pub name: Seq<char>,
    pub host_name: Seq<char>,
    pub user: Seq<char>,
    pub identity_file: Seq<char>,
    pub port: u16,
}

/// What a parsed host states.
pub open spec fn host_view(h: Host) -> HostV {
    HostV {
        name: h.name@,
        host_name: h.host_name@,
        user: h.user@,
        identity_file: h.identity_file@,
        port: h.port,
    }
}

/// The fields a host block has named so far.
pub struct HostAcc {
    pub name: Option<Seq<char>>,
    pub host_name: Option<Seq<char>>,
    pub user: Option<Seq<char>>,
    pub identity_file: Option<Seq<char>>,
    pub port: Option<u16>,
}

/// What parsing a decimal number yields.
pub open spec fn spec_parse_u16(s: Seq<char>) -> Result<(u16, Seq<char>), SpecErr> {
    let t = after_skip(s);
    if t.len() == 0 {
        Err(SpecErr::Eof)
    } else if !is_digit(t[0]) {
        Err(SpecErr::ExpectedInteger)
    } else {
        Ok((digits_val(t.take(digits_len(t) as int)) as u16, t.skip(digits_len(t) as int)))
    }
}

/// One step of a host block's field lines: stop at the end of the input or
/// at the next `Host` keyword; otherwise read a keyword and its value and
/// carry on.  An unknown keyword or a repeated field rejects the text.
pub open spec fn spec_host_loop(s: Seq<char>, acc: HostAcc) -> Result<(HostAcc, Seq<char>), SpecErr>
    decreases s.len(),
    via spec_host_loop_dec
{
    let t = after_skip(s);
    if t.len() == 0 {
        Ok((acc, t))
    } else if spec_ident(peek_word(t)) == Some(Identifier::Host) {
        Ok((acc, t))
    } else {
        let key = token_of(t);
        let r1 = token_rest(t);
        if key == "HostName"@ {
            if acc.host_name is Some {
                Err(SpecErr::Message("duplicate field `HostName`"@))
            } else {
                let u = after_skip(r1);
                spec_host_loop(token_rest(u), HostAcc { host_name: Some(token_of(u)), ..acc })
            }
        } else if key == "User"@ {
            if acc.user is Some {
                Err(SpecErr::Message("duplicate field `User`"@))
            } else {
                let u = after_skip(r1);
                spec_host_loop(token_rest(u), HostAcc { user: Some(token_of(u)), ..acc })
            }
        } else if key == "IdentityFile"@ {
            if acc.identity_file is Some {
                Err(SpecErr::Message("duplicate field `IdentityFile`"@))
            } else {
                let u = after_skip(r1);
                spec_host_loop(token_rest(u), HostAcc { identity_file: Some(token_of(u)), ..acc })
            }
        } else if key == "Port"@ {
            if acc.port is Some {
                Err(SpecErr::Message("duplicate field `Port`"@))
            } else {
                match spec_parse_u16(r1) {
                    Err(e) => Err(e),
                    Ok((n, r2)) => spec_host_loop(r2, HostAcc { port: Some(n), ..acc }),
                }
            }
        } else {
            Err(SpecErr::UnexpectedToken)
        }
    }
}

#[via_fn]
proof fn spec_host_loop_dec(s: Seq<char>, acc: HostAcc) {
    lemma_after_skip_clean(s);
    let t = after_skip(s);
    if t.len() > 0 {
        assert(!is_ws(t[0]));
        assert(token_len(t) >= 1);
        lemma_token_len_le(t);
        let r1 = token_rest(t);
        assert(r1.len() < t.len());
        lemma_after_skip_clean(r1);
        let u = after_skip(r1);
        lemma_token_len_le(u);
        lemma_digits_len_le(u);
    }
}

/// The loop's result is unchanged by skipping first: the loop skips anyway.
proof fn lemma_host_loop_skip(s: Seq<char>, acc: HostAcc)
    ensures
        spec_host_loop(s, acc) == spec_host_loop(after_skip(s), acc),
{
    lemma_after_skip_idempotent(s);
}

/// The missing-field checks made once a block's lines are read:
/// `HostName`, `User` and `IdentityFile` are owed, `Port` defaults to 22.
pub open spec fn finish_host(
    lr: Result<(HostAcc, Seq<char>), SpecErr>,
    name: Seq<char>,
) -> Result<(HostV, Seq<char>), SpecErr> {
    match lr {
        Err(e) => Err(e),
        Ok((acc, rest)) => if acc.host_name is None {
            Err(SpecErr::Message("missing field `HostName`"@))
        } else if acc.user is None {
            Err(SpecErr::Message("missing field `User`"@))
        } else if acc.identity_file is None {
            Err(SpecErr::Message("missing field `IdentityFile`"@))
        } else {
            Ok(
                (
                    HostV {
                        name,
                        host_name: acc.host_name.unwrap(),
                        user: acc.user.unwrap(),
                        identity_file: acc.identity_file.unwrap(),
                        port: if acc.port is Some {
                            acc.port.unwrap()
                        } else {
                            22u16
                        },
                    },
                    rest,
                ),
            )
        },
    }
}

/// What parsing one `Host` block yields: the block's alias after the
/// `Host` keyword, then keyword and value lines up to the next block or
/// the end of the text.
pub open spec fn spec_parse_host(s: Seq<char>) -> Result<(HostV, Seq<char>), SpecErr> {
    let t0 = s.skip(ws_len(s) as int);
    if spec_ident(peek_word(t0)) == Some(Identifier::Host) {
        let r1 = token_rest(t0);
        let u = after_skip(r1);
        let name = token_of(u);
        let r2 = token_rest(u);
        let acc0 = HostAcc {
            name: Some(name),
            host_name: None,
            user: None,
            identity_file: None,
            port: None,
        };
        finish_host(spec_host_loop(r2, acc0), name)
    } else {
        Err(SpecErr::UnexpectedToken)
    }
}

/// Only whitespace, which a trailing-text check forgives.
pub open spec fn all_ws(s: Seq<char>) -> bool {
    forall|i: int| 0 <= i < s.len() ==> is_ws(s[i])
}

/// What parsing a whole text as one host block yields: the block, and no
/// text but whitespace after it.
pub open spec fn spec_host_from_str(s: Seq<char>) -> Result<HostV, SpecErr> {
    match spec_parse_host(s) {
        Err(e) => Err(e),
        Ok((hv, rest)) => if all_ws(rest) {
            Ok(hv)
        } else {
            Err(SpecErr::TrailingCharacters)
        },
    }
}

/// Whether an optional parsed string is the stated optional token.
pub open spec fn opt_str_match(o: Option<String>, g: Option<Seq<char>>) -> bool {
    match (o, g) {
        (Some(x), Some(v)) => x@ == v,
        (None, None) => true,
        _ => false,
    }
}

impl<'de> Deserializer<'de> {
    /// Drop leading whitespace, leaving comments alone.
    fn skip_ws_only(&mut self)
        requires
            old(self).wf(),
        ensures
            final(self).wf(),
            final(self).text() == old(self).text(),
            final(self).remaining() == old(self).remaining().skip(
                ws_len(old(self).remaining()) as int,
            ),
    {
        while self.pos < self.len && ws_char(self.input.get_char(self.pos))
            invariant
                self.wf(),
                self.input@ == old(self).text(),
                old(self).pos as int <= self.pos as int,
                ws_len(old(self).remaining()) == self.pos - old(self).pos + ws_len(
                    self.remaining(),
                ),
            decreases self.len - self.pos,
        {
            proof {
                let next = Deserializer { pos: (self.pos + 1) as usize, ..*self };
                assert(next.remaining() =~= self.remaining().drop_first());
                assert(self.remaining()[0] == self.input@[self.pos as int]);
            }
            self.pos = self.pos + 1;
        }
        proof {
            assert(ws_len(self.remaining()) == 0) by {
                if self.pos < self.len {
                    assert(self.remaining()[0] == self.input@[self.pos as int]);
                }
            }
            lemma_ws_len_le(old(self).remaining());
            assert(self.remaining() =~= old(self).remaining().skip(
                ws_len(old(self).remaining()) as int,
            ));
        }
    }

    /// Parse one `Host` block: the alias after the `Host` keyword, then
    /// keyword/value lines until the next block or the end of the text.
    pub fn parse_host(&mut self) -> (r: Result<Host, ParserError>)
        requires
            old(self).wf(),
        ensures
            final(self).wf(),
            final(self).text() == old(self).text(),
            match spec_parse_host(old(self).remaining()) {
                Ok((hv, rest)) => r matches Ok(h) && host_view(h) == hv && final(self).remaining()
                    == rest,
                Err(se) => r matches Err(e) && err_matches(e, se),
            },
    {
        let ghost orem = old(self).remaining();
        self.skip_ws_only();
        let ghost t0 = self.remaining();
        proof {
            lemma_ws_len_le(orem);
            lemma_ws_len_maximal(orem);
            if t0.len() > 0 {
                assert(orem.skip(ws_len(orem) as int)[0] == orem[ws_len(orem) as int + 0]);
                assert(!is_ws(t0[0]));
            }
            assert(ws_len(t0) == 0);
            assert(t0.skip(0) =~= t0);
            assert(peek_word(t0) == token_of(t0));
        }
        match self.peek_identifier() {
            Ok(Identifier::Host) => {}
            _ => { return Err(ParserError::UnexpectedToken); },
        }
        proof {
            // the word is "Host", so the text begins with an 'H'
            reveal_strlit("Host");
            assert(token_of(t0).len() == 4);
            lemma_token_len_le(t0);
            assert(t0.len() > 0);
            assert(t0.take(token_len(t0) as int)[0] == t0[0]);
            assert(t0[0] == 'H');
            lemma_after_skip_none(t0);
        }
        let _ = self.parse_identifier();
        let ghost r1 = self.remaining();
        let name = match self.parse_string() {
            Ok(x) => x,
            Err(e) => { return Err(e); },
        };
        let ghost u = after_skip(r1);
        let ghost r2 = self.remaining();
        let ghost acc0 = HostAcc {
            name: Some(name@),
            host_name: None,
            user: None,
            identity_file: None,
            port: None,
        };
        let ghost mut acc = acc0;
        proof {
            assert(spec_parse_host(orem) == finish_host(spec_host_loop(r2, acc0), name@));
        }
        let mut host_name: Option<String> = None;
        let mut user: Option<String> = None;
        let mut identity_file: Option<String> = None;
        let mut port: Option<u16> = None;
        loop
            invariant
                self.wf(),
                self.input@ == old(self).text(),
                spec_parse_host(old(self).remaining()) == finish_host(
                    spec_host_loop(self.remaining(), acc),
                    name@,
                ),
                opt_str_match(host_name, acc.host_name),
                opt_str_match(user, acc.user),
                opt_str_match(identity_file, acc.identity_file),
                port == acc.port,
            ensures
                self.wf(),
                self.input@ == old(self).text(),
                opt_str_match(host_name, acc.host_name),
                opt_str_match(user, acc.user),
                opt_str_match(identity_file, acc.identity_file),
                port == acc.port,
                spec_parse_host(old(self).remaining()) == finish_host(
                    Ok::<_, SpecErr>((acc, self.remaining())),
                    name@,
                ),
            decreases self.len - self.pos,
        {
            let ghost pos_iter = self.pos as int;
            let ghost rem_iter = self.remaining();
            self.skip_whitespace();
            let ghost t = self.remaining();
            proof {
                lemma_host_loop_skip(rem_iter, acc);
                lemma_after_skip_clean(rem_iter);
            }
            if self.pos == self.len {
                proof {
                    assert(t.len() == 0);
                }
                break;
            }
            let pk = self.peek_identifier();
            proof {
                assert(t.len() > 0);
                lemma_after_skip_none(t);
                assert(ws_len(t) == 0);
                assert(t.skip(0) =~= t);
                assert(peek_word(t) == token_of(t));
            }
            if let Ok(Identifier::Host) = pk {
                break;
            }
            proof {
                assert(spec_ident(peek_word(t)) != Some(Identifier::Host));
            }
            let key = match self.parse_string() {
                Ok(x) => x,
                Err(e) => { return Err(e); },
            };
            let ghost r1k = self.remaining();
            proof {
                assert(key@ == token_of(t));
            }
            if str_eq(key.as_str(), "HostName") {
                if host_name.is_some() {
                    proof {
                        assert(spec_host_loop(t, acc) == Err::<(HostAcc, Seq<char>), _>(
                            SpecErr::Message("duplicate field `HostName`"@),
                        ));
                    }
                    return Err(
                        ParserError::Message("duplicate field `HostName`".to_owned()),
                    );
                }
                let v = match self.parse_string() {
                    Ok(x) => x,
                    Err(e) => { return Err(e); },
                };
                host_name = Some(v);
                proof {
                    acc = HostAcc { host_name: Some(host_name.unwrap()@), ..acc };
                }
            } else if str_eq(key.as_str(), "User") {
                if user.is_some() {
                    proof {
                        assert(spec_host_loop(t, acc) == Err::<(HostAcc, Seq<char>), _>(
                            SpecErr::Message("duplicate field `User`"@),
                        ));
                    }
                    return Err(ParserError::Message("duplicate field `User`".to_owned()));
                }
                let v = match self.parse_string() {
                    Ok(x) => x,
                    Err(e) => { return Err(e); },
                };
                user = Some(v);
                proof {
                    acc = HostAcc { user: Some(user.unwrap()@), ..acc };
                }
            } else if str_eq(key.as_str(), "IdentityFile") {
                if identity_file.is_some() {
                    proof {
                        assert(spec_host_loop(t, acc) == Err::<(HostAcc, Seq<char>), _>(
                            SpecErr::Message("duplicate field `IdentityFile`"@),
                        ));
                    }
                    return Err(
                        ParserError::Message("duplicate field `IdentityFile`".to_owned()),
                    );
                }
                let v = match self.parse_string() {
                    Ok(x) => x,
                    Err(e) => { return Err(e); },
                };
                identity_file = Some(v);
                proof {
                    acc = HostAcc { identity_file: Some(identity_file.unwrap()@), ..acc };
                }
            } else if str_eq(key.as_str(), "Port") {
                if port.is_some() {
                    proof {
                        assert(spec_host_loop(t, acc) == Err::<(HostAcc, Seq<char>), _>(
                            SpecErr::Message("duplicate field `Port`"@),
                        ));
                    }
                    return Err(ParserError::Message("duplicate field `Port`".to_owned()));
                }
                let n = match self.parse_unsigned() {
                    Ok(x) => x,
                    Err(e) => {
                        proof {
                            assert(spec_parse_u16(r1k) is Err);
                            assert(spec_host_loop(t, acc) == Err::<(HostAcc, Seq<char>), _>(
                                spec_parse_u16(r1k)->Err_0,
                            ));
                        }
                        return Err(e);
                    },
                };
                port = Some(n);
                proof {
                    lemma_digits_val_bound(
                        after_skip(r1k).take(digits_len(after_skip(r1k)) as int),
                    );
                    assert(spec_parse_u16(r1k) matches Ok((m, _)) && m == n);
                    acc = HostAcc { port: Some(n), ..acc };
                }
            } else {
                proof {
                    assert(spec_host_loop(t, acc) == Err::<(HostAcc, Seq<char>), _>(
                        SpecErr::UnexpectedToken,
                    ));
                }
                return Err(ParserError::UnexpectedToken);
            }
            proof {
                assert(token_len(t) >= 1);
                lemma_token_len_le(t);
                lemma_after_skip_clean(r1k);
                let u2 = after_skip(r1k);
                lemma_token_len_le(u2);
                lemma_digits_len_le(u2);
                assert(self.pos as int > pos_iter);
            }
        }
        let hn = match host_name {
            Some(x) => x,
            None => {
                return Err(ParserError::Message("missing field `HostName`".to_owned()));
            },
        };
        let us = match user {
            Some(x) => x,
            None => { return Err(ParserError::Message("missing field `User`".to_owned())); },
        };
        let idf = match identity_file {
            Some(x) => x,
            None => {
                return Err(ParserError::Message("missing field `IdentityFile`".to_owned()));
            },
        };
        let pt = match port {
            Some(x) => x,
            None => 22,
        };
        Ok(Host { name, host_name: hn, user: us, identity_file: idf, port: pt })
    }
}

/// Parse a whole text as one `Host` block; text after the block, other
/// than whitespace, is rejected as trailing.
pub fn host_from_str(s: &str) -> (r: Result<Host, ParserError>)
    ensures
        match spec_host_from_str(s@) {
            Ok(hv) => r matches Ok(h) && host_view(h) == hv,
            Err(se) => r matches Err(e) && err_matches(e, se),
        },
{
    let mut de = Deserializer::from_str(s);
    let host = match de.parse_host() {
        Ok(h) => h,
        Err(e) => { return Err(e); },
    };
    let ghost rest = de.remaining();
    let mut i: usize = de.pos;
    while i < de.len
        invariant
            de.wf(),
            de.pos as int <= i as int <= de.len as int,
            rest == de.remaining(),
            spec_parse_host(s@) == Ok::<_, SpecErr>((host_view(host), rest)),
            forall|j: int| 0 <= j < i - de.pos ==> is_ws(rest[j]),
        decreases de.len - i,
    {
        if !ws_char(de.input.get_char(i)) {
            proof {
                assert(de.input@.skip(de.pos as int)[i - de.pos] == de.input@[i - de.pos
                    + de.pos]);
                assert(!is_ws(rest[i - de.pos]));
                assert(!all_ws(rest));
            }
            return Err(ParserError::TrailingCharacters);
        }
        proof {
            assert(de.input@.skip(de.pos as int)[i - de.pos] == de.input@[i - de.pos + de.pos]);
        }
        i = i + 1;
    }
    proof {
        assert(all_ws(rest));
    }
    Ok(host)
}

/// What the parsed hosts state.
pub open spec fn hosts_views(s: Seq<Host>) -> Seq<HostV> {
    s.map_values(|h: Host| host_view(h))
}

/// A parsed block ends strictly inside the text it began in.
proof fn lemma_host_loop_rest_len(s: Seq<char>, acc: HostAcc)
    ensures
        spec_host_loop(s, acc) matches Ok((a, rest)) ==> rest.len() <= s.len(),
    decreases s.len(),
{
    lemma_after_skip_clean(s);
    let t = after_skip(s);
    if t.len() > 0 && spec_ident(peek_word(t)) != Some(Identifier::Host) {
        assert(!is_ws(t[0]));
        assert(token_len(t) >= 1);
        lemma_token_len_le(t);
        let r1 = token_rest(t);
        lemma_after_skip_clean(r1);
        let u = after_skip(r1);
        lemma_token_len_le(u);
        lemma_digits_len_le(u);
        let key = token_of(t);
        if key == "HostName"@ {
            if !(acc.host_name is Some) {
                lemma_host_loop_rest_len(token_rest(u), HostAcc { host_name: Some(token_of(u)), ..acc });
            }
        } else if key == "User"@ {
            if !(acc.user is Some) {
                lemma_host_loop_rest_len(token_rest(u), HostAcc { user: Some(token_of(u)), ..acc });
            }
        } else if key == "IdentityFile"@ {
            if !(acc.identity_file is Some) {
                lemma_host_loop_rest_len(token_rest(u), HostAcc { identity_file: Some(token_of(u)), ..acc });
            }
        } else if key == "Port"@ {
            if !(acc.port is Some) {
                match spec_parse_u16(r1) {
                    Ok((n, r2)) => {
                        lemma_host_loop_rest_len(r2, HostAcc { port: Some(n), ..acc });
                    },
                    Err(_) => {},
                }
            }
        }
    }
}

/// Parsing a block consumes at least its `Host` keyword.
proof fn lemma_parse_host_consumes(t: Seq<char>)
    ensures
        spec_parse_host(t) matches Ok((h, r)) ==> r.len() < t.len(),
{
    lemma_ws_len_le(t);
    lemma_ws_len_maximal(t);
    let t0 = t.skip(ws_len(t) as int);
    if spec_ident(peek_word(t0)) == Some(Identifier::Host) {
        reveal_strlit("Host");
        assert(peek_word(t0).len() == 4);
        assert(t0.len() > 0) by {
            if t0.len() == 0 {
                lemma_ws_len_le(t0);
                lemma_token_len_le(t0.skip(ws_len(t0) as int));
            }
        }
        assert(t.skip(ws_len(t) as int)[0] == t[ws_len(t) as int + 0]);
        assert(!is_ws(t0[0]));
        assert(ws_len(t0) == 0);
        assert(t0.skip(0) =~= t0);
        assert(peek_word(t0) == token_of(t0));
        lemma_token_len_le(t0);
        assert(token_len(t0) == 4);
        let r1 = token_rest(t0);
        assert(r1.len() == t0.len() - 4);
        lemma_after_skip_clean(r1);
        let u = after_skip(r1);
        lemma_token_len_le(u);
        let r2 = token_rest(u);
        let acc0 = HostAcc {
            name: Some(token_of(u)),
            host_name: None,
            user: None,
            identity_file: None,
            port: None,
        };
        lemma_host_loop_rest_len(r2, acc0);
    }
}

/// What parsing a sequence of `Host` blocks yields: blocks until the end
/// of the text, in file order.
pub open spec fn spec_parse_hosts(s: Seq<char>) -> Result<(Seq<HostV>, Seq<char>), SpecErr>
    decreases s.len(),
    via spec_parse_hosts_dec
{
    let t = after_skip(s);
    if t.len() == 0 {
        Ok((Seq::empty(), t))
    } else if spec_ident(peek_word(t)) == Some(Identifier::Host) {
        match spec_parse_host(t) {
            Err(e) => Err(e),
            Ok((h, r)) => match spec_parse_hosts(r) {
                Err(e) => Err(e),
                Ok((hs, rest)) => Ok((seq![h] + hs, rest)),
            },
        }
    } else {
        Err(SpecErr::UnexpectedToken)
    }
}

#[via_fn]
proof fn spec_parse_hosts_dec(s: Seq<char>) {
    lemma_after_skip_clean(s);
    lemma_parse_host_consumes(after_skip(s));
}

/// The blocks' result is unchanged by skipping first: the loop skips anyway.
proof fn lemma_hosts_skip(s: Seq<char>)
    ensures
        spec_parse_hosts(s) == spec_parse_hosts(after_skip(s)),
{
    lemma_after_skip_idempotent(s);
}

/// What parsing a whole text as a sequence of blocks yields.
pub open spec fn spec_hosts_from_str(s: Seq<char>) -> Result<Seq<HostV>, SpecErr> {
    match spec_parse_hosts(s) {
        Err(e) => Err(e),
        Ok((hs, rest)) => if all_ws(rest) {
            Ok(hs)
        } else {
            Err(SpecErr::TrailingCharacters)
        },
    }
}

impl<'de> Deserializer<'de> {
    /// Parse `Host` blocks until the end of the text.
    pub fn parse_hosts(&mut self) -> (r: Result<Vec<Host>, ParserError>)
        requires
            old(self).wf(),
        ensures
            final(self).wf(),
            final(self).text() == old(self).text(),
            match spec_parse_hosts(old(self).remaining()) {
                Ok((hs, rest)) => r matches Ok(v) && hosts_views(v@) == hs && final(self).remaining()
                    == rest,
                Err(se) => r matches Err(e) && err_matches(e, se),
            },
    {
        let mut hosts: Vec<Host> = Vec::new();
        proof {
            assert(hosts_views(hosts@) =~= Seq::<HostV>::empty());
        }
        loop
            invariant
                self.wf(),
                self.input@ == old(self).text(),
                match spec_parse_hosts(self.remaining()) {
                    Ok((hs, rest)) => spec_parse_hosts(old(self).remaining()) == Ok::<_, SpecErr>(
                        (hosts_views(hosts@) + hs, rest),
                    ),
                    Err(se) => spec_parse_hosts(old(self).remaining()) == Err::<(
                        Seq<HostV>,
                        Seq<char>,
                    ), _>(se),
                },
            ensures
                self.wf(),
                self.input@ == old(self).text(),
                spec_parse_hosts(old(self).remaining()) == Ok::<_, SpecErr>(
                    (hosts_views(hosts@), self.remaining()),
                ),
            decreases self.len - self.pos,
        {
            let ghost rem_iter = self.remaining();
            self.skip_whitespace();
            let ghost t = self.remaining();
            proof {
                lemma_hosts_skip(rem_iter);
                lemma_after_skip_clean(rem_iter);
            }
            if self.pos == self.len {
                proof {
                    assert(t.len() == 0);
                    assert(hosts_views(hosts@) + Seq::<HostV>::empty() =~= hosts_views(hosts@));
                }
                break;
            }
            proof {
                assert(t.len() > 0);
                lemma_after_skip_none(t);
                assert(ws_len(t) == 0);
                assert(t.skip(0) =~= t);
                assert(peek_word(t) == token_of(t));
            }
            match self.peek_identifier() {
                Ok(Identifier::Host) => {}
                _ => { return Err(ParserError::UnexpectedToken); },
            }
            let h = match self.parse_host() {
                Ok(h) => h,
                Err(e) => { return Err(e); },
            };
            proof {
                lemma_parse_host_consumes(t);
                assert(hosts_views(hosts@.push(h)) =~= hosts_views(hosts@) + seq![host_view(h)]);
                assert(match spec_parse_hosts(self.remaining()) {
                    Ok((hs2, rest)) => {
                        &&& spec_parse_hosts(t) == Ok::<_, SpecErr>(
                            (seq![host_view(h)] + hs2, rest),
                        )
                        &&& hosts_views(hosts@.push(h)) + hs2 =~= hosts_views(hosts@) + (seq![
                            host_view(h),
                        ] + hs2)
                    },
                    Err(se) => spec_parse_hosts(t) == Err::<(Seq<HostV>, Seq<char>), _>(se),
                });
            }
            hosts.push(h);
        }
        Ok(hosts)
    }
}

/// Parse a whole text as a sequence of `Host` blocks.
pub fn hosts_from_str(s: &str) -> (r: Result<Hosts, ParserError>)
    ensures
        match spec_hosts_from_str(s@) {
            Ok(vs) => r matches Ok(hs) && hosts_views(hs.0@) == vs,
            Err(se) => r matches Err(e) && err_matches(e, se),
        },
{
    let mut de = Deserializer::from_str(s);
    let hosts = match de.parse_hosts() {
        Ok(v) => v,
        Err(e) => { return Err(e); },
    };
    let ghost rest = de.remaining();
    let mut i: usize = de.pos;
    while i < de.len
        invariant
            de.wf(),
            de.pos as int <= i as int <= de.len as int,
            rest == de.remaining(),
            spec_parse_hosts(s@) == Ok::<_, SpecErr>((hosts_views(hosts@), rest)),
            forall|j: int| 0 <= j < i - de.pos ==> is_ws(rest[j]),
        decreases de.len - i,
    {
        if !ws_char(de.input.get_char(i)) {
            proof {
                assert(de.input@.skip(de.pos as int)[i - de.pos] == de.input@[i - de.pos
                    + de.pos]);
                assert(!is_ws(rest[i - de.pos]));
                assert(!all_ws(rest));
            }
            return Err(ParserError::TrailingCharacters);
        }
        proof {
            assert(de.input@.skip(de.pos as int)[i - de.pos] == de.input@[i - de.pos + de.pos]);
        }
        i = i + 1;
    }
    proof {
        assert(all_ws(rest));
    }
    Ok(Hosts(hosts))
}

/// Collects the text of the user's ssh configuration, read elsewhere and
/// handed in piece by piece.
pub struct SSHConfigReader {
    buf: String,
}

impl SSHConfigReader {
    /// The text collected so far.
    pub closed spec fn contents(self) -> Seq<char> {
        self.buf@
    }

    pub fn new() -> (r: Self)
        ensures
            r.contents() == Seq::<char>::empty(),
    {
        SSHConfigReader { buf: String::new() }
    }

    /// Append one piece of configuration text.
    pub fn feed(&mut self, part: &str)
        ensures
            final(self).contents() == old(self).contents() + part@,
    {
        self.buf.append(part);
    }

    /// Hand the collected text over.
    pub fn finalize(self) -> (r: String)
        ensures
            r@ == self.contents(),
    {
        self.buf
    }
}

} // verus!
