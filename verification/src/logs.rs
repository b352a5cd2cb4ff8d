//! Structured log lines, and how they are shown.

use vstd::prelude::*;
use vstd::string::*;
use crate::env::{Env, OptionalBool};
use crate::error::{debug_str, quoted};
use crate::text::{
    all_digits, chars_eq, dec_i64, decimal_int, find_chars, first_occurrence, from_chars, is_digit, join,
    law_first_occurrence, lemma_decimal_chars, lemma_first_occurrence, lemma_join_cons, lemma_join_split,
    lemma_split_around, lemma_split_len, lemma_split_pieces, lemma_split_single, parse_i32, parsed_within,
    split, str_eq, to_chars,
};

verus! {

/// Where a character first occurs in a text, or its length.
pub open spec fn index_or_len(s: Seq<char>, a: char, b: char) -> int
    decreases s.len(),
{
    if s.len() == 0 || s[0] == a || s[0] == b {
        0
    } else {
        1 + index_or_len(s.skip(1), a, b)
    }
}

/// Where one of two characters first occurs in a text, or its length.
fn find_either(s: &[char], a: char, b: char) -> (r: usize)
    ensures
        r == index_or_len(s@, a, b),
        r <= s.len(),
        forall|i: int| 0 <= i < r ==> s@[i] != a && s@[i] != b,
        r < s.len() ==> s@[r as int] == a || s@[r as int] == b,
{
    let mut i: usize = 0;
    assert(s@.skip(0) =~= s@);
    while i < s.len() && s[i] != a && s[i] != b
        invariant
            i <= s.len(),
            index_or_len(s@, a, b) == i + index_or_len(s@.skip(i as int), a, b),
            forall|k: int| 0 <= k < i ==> s@[k] != a && s@[k] != b,
        decreases s.len() - i,
    {
        assert(s@.skip(i as int).skip(1) =~= s@.skip(i + 1));
        i = i + 1;
    }
    i
}

/// A character in lower case, as far as it is one of the letters from A to Z.
pub open spec fn lower(c: char) -> char {
    if 'A' <= c <= 'Z' {
        (c as u32 + 32) as char
    } else {
        c
    }
}

/// Whether a text is the given one but for the case of letters.
pub open spec fn same_letters(s: Seq<char>, word: Seq<char>) -> bool {
    s.len() == word.len() && forall|i: int| 0 <= i < s.len() ==> lower(#[trigger] s[i]) == word[i]
}

/// A text without a sign at its beginning.
pub open spec fn unsigned(s: Seq<char>) -> Seq<char> {
    if s.len() > 0 && (s[0] == '+' || s[0] == '-') {
        s.skip(1)
    } else {
        s
    }
}

/// Whether a text is a number with an optional decimal point: at least one digit before or behind it.
pub open spec fn is_mantissa(s: Seq<char>) -> bool {
    let d = index_or_len(s, '.', '.');
    if d == s.len() {
        all_digits(s)
    } else {
        let whole = s.take(d);
        let frac = s.skip(d + 1);
        &&& whole.len() == 0 || all_digits(whole)
        &&& frac.len() == 0 || all_digits(frac)
        &&& whole.len() > 0 || frac.len() > 0
    }
}

/// Whether a text is a number with an optional decimal point and an optional exponent.
pub open spec fn is_number(s: Seq<char>) -> bool {
    let e = index_or_len(s, 'e', 'E');
    &&& is_mantissa(s.take(e))
    &&& e == s.len() || all_digits(unsigned(s.skip(e + 1)))
}

/// Whether a text is a decimal number, the way a timestamp is written.
pub open spec fn is_decimal(s: Seq<char>) -> bool {
    let body = unsigned(s);
    same_letters(body, "inf"@) || same_letters(body, "infinity"@) || same_letters(body, "nan"@) || is_number(body)
}

fn digits_only(s: &[char]) -> (r: bool)
    ensures
        r == (s@.len() == 0 || all_digits(s@)),
{
    let mut i: usize = 0;
    while i < s.len()
        invariant
            i <= s.len(),
            forall|k: int| 0 <= k < i ==> is_digit(#[trigger] s@[k]),
        decreases s.len() - i,
    {
        if !(s[i] >= '0' && s[i] <= '9') {
            assert(!is_digit(s@[i as int]));
            return false;
        }
        i = i + 1;
    }
    true
}

fn without_sign(s: &[char]) -> (r: &[char])
    ensures
        r@ == unsigned(s@),
{
    if s.len() > 0 && (s[0] == '+' || s[0] == '-') {
        let r = vstd::slice::slice_subrange(s, 1, s.len());
        assert(r@ =~= s@.skip(1));
        r
    } else {
        s
    }
}

fn is_word(s: &[char], word: &str) -> (r: bool)
    ensures
        r == same_letters(s@, word@),
{
    let w = to_chars(word);
    if s.len() != w.len() {
        return false;
    }
    let mut i: usize = 0;
    while i < s.len()
        invariant
            i <= s.len(),
            s.len() == w.len(),
            w@ == word@,
            forall|k: int| 0 <= k < i ==> lower(#[trigger] s@[k]) == w@[k],
        decreases s.len() - i,
    {
        let c = s[i];
        let l = if c >= 'A' && c <= 'Z' {
            ((c as u8) + 32) as char
        } else {
            c
        };
        assert(l == lower(c));
        if l != w[i] {
            return false;
        }
        i = i + 1;
    }
    true
}

fn mantissa_ok(s: &[char]) -> (r: bool)
    ensures
        r == is_mantissa(s@),
{
    let d: usize = find_either(s, '.', '.');
    if d == s.len() {
        return s.len() > 0 && digits_only(s);
    }
    let whole = vstd::slice::slice_subrange(s, 0, d);
    let frac = vstd::slice::slice_subrange(s, d + 1, s.len());
    assert(whole@ =~= s@.take(d as int));
    assert(frac@ =~= s@.skip(d + 1));
    digits_only(whole) && digits_only(frac) && (whole.len() > 0 || frac.len() > 0)
}

/// Whether a text is a decimal number, the way a timestamp is written.
fn decimal_ok(s: &[char]) -> (r: bool)
    ensures
        r == is_decimal(s@),
{
    let body = without_sign(s);
    if is_word(body, "inf") || is_word(body, "infinity") || is_word(body, "nan") {
        return true;
    }
    let e: usize = find_either(body, 'e', 'E');
    let m = vstd::slice::slice_subrange(body, 0, e);
    assert(m@ =~= body@.take(e as int));
    if !mantissa_ok(m) {
        return false;
    }
    if e == body.len() {
        return true;
    }
    let x = vstd::slice::slice_subrange(body, e + 1, body.len());
    assert(x@ =~= body@.skip(e + 1));
    let digits = without_sign(x);
    digits.len() > 0 && digits_only(digits)
}

/// What a structured log-line says.
pub struct MetaView {
    pub kind: Seq<char>,
    pub pid: int,
    pub timestamp: Seq<char>,
    pub text: Seq<char>,
}

/// A structured log-line.
#[derive(Clone, Debug, PartialEq, Eq)]
pub struct Meta {
    kind: String,
    pid: i32,
    timestamp: String,
    text: String,
}

impl View for Meta {
    type V = MetaView;

    closed spec fn view(&self) -> MetaView {
        MetaView { kind: self.kind@, pid: self.pid as int, timestamp: self.timestamp@, text: self.text@ }
    }
}

/// The error type returned from [`Meta::parse`].
#[derive(Debug)]
pub struct MetaParseError {
    msg: String,
}

impl MetaParseError {
    /// The text of the error.
    pub closed spec fn text(&self) -> Seq<char> {
        self.msg@
    }

    fn new(msg: String) -> (r: MetaParseError)
        ensures
            r.text() == msg@,
    {
        MetaParseError { msg }
    }

    /// The text of the error.
    pub fn message(&self) -> (r: &str)
        ensures
            r@ == self.text(),
    {
        self.msg.as_str()
    }
}

/// A line that starts like a structured one, without the beginning that marks it as such.
pub open spec fn meta_body(s: Seq<char>) -> Seq<char> {
    s.skip(7)
}

/// The structured log-line that a text stands for, or what is wrong with it.
pub open spec fn parsed_meta(s: Seq<char>) -> Result<MetaView, Seq<char>> {
    let q = quoted(s);
    if s.len() < 7 || s.take(7) != "@@REDO:"@ {
        Err(q + " does not begin with "@ + quoted("@@REDO:"@))
    } else if s.contains('\n') {
        Err(q + " contains a newline"@)
    } else {
        match first_occurrence(meta_body(s), "@@ "@) {
            None => Err(q + " has unterminated metadata"@),
            Some(end) => {
                let meta = meta_body(s).take(end);
                let text = meta_body(s).skip(end + 3);
                let words = split(meta, ':');
                if meta.contains('@') {
                    Err(q + " contains @ inside metadata"@)
                } else if words.len() < 2 {
                    Err(q + " is missing a pid"@)
                } else {
                    match parsed_within(words[1], i32::MIN as int, i32::MAX as int) {
                        None => Err("cannot parse pid in "@ + q),
                        Some(pid) => if words.len() < 3 {
                            Err(q + " is missing a timestamp"@)
                        } else if !is_decimal(words[2]) {
                            Err("cannot parse timestamp in "@ + q)
                        } else {
                            Ok(MetaView { kind: words[0], pid, timestamp: words[2], text })
                        },
                    }
                }
            },
        }
    }
}

/// The text of a structured log-line.
pub open spec fn meta_line(m: MetaView) -> Seq<char> {
    "@@REDO:"@ + m.kind + ":"@ + decimal_int(m.pid) + ":"@ + m.timestamp + "@@ "@ + m.text
}

/// The exit code and the target in the text of a line of kind `done`.
pub open spec fn parsed_done(text: Seq<char>) -> Option<(int, Seq<char>)> {
    let i = index_or_len(text, ' ', ' ');
    if i == text.len() {
        None
    } else {
        match parsed_within(text.take(i), i32::MIN as int, i32::MAX as int) {
            Some(rv) => Some((rv, text.skip(i + 1))),
            None => None,
        }
    }
}

/// Appends to the quoted form of a line.
fn complaint(s: &str, rest: &str) -> (r: MetaParseError)
    ensures
        r.text() == quoted(s@) + rest@,
{
    let mut msg = debug_str(s);
    msg.append(rest);
    MetaParseError::new(msg)
}

/// Puts something before the quoted form of a line.
fn complaint_about(what: &str, s: &str) -> (r: MetaParseError)
    ensures
        r.text() == what@ + quoted(s@),
{
    let mut msg = what.to_owned();
    msg.append(debug_str(s).as_str());
    MetaParseError::new(msg)
}

fn has_char(s: &[char], c: char) -> (r: bool)
    ensures
        r == s@.contains(c),
{
    let i: usize = find_either(s, c, c);
    assert(i < s.len() ==> s@.contains(s@[i as int]));
    i < s.len()
}

/// The end of the word that starts at `from` and goes up to the next colon.
fn word_end(s: &[char], from: usize) -> (end: usize)
    requires
        from <= s.len(),
    ensures
        from <= end <= s.len(),
        ({
            let rest = s@.skip(from as int);
            let word = s@.subrange(from as int, end as int);
            &&& end < s.len() ==> split(rest, ':') == seq![word] + split(s@.skip(end + 1), ':')
            &&& end == s.len() ==> split(rest, ':') == seq![word]
        }),
{
    let tail = vstd::slice::slice_subrange(s, from, s.len());
    let n: usize = find_either(tail, ':', ':');
    let end: usize = from + n;
    proof {
        let rest = s@.skip(from as int);
        let word = s@.subrange(from as int, end as int);
        assert(tail@ =~= rest);
        assert forall|i: int| 0 <= i < word.len() implies word[i] != ':' by {
            assert(word[i] == tail@[i]);
        }
        assert(!word.contains(':'));
        lemma_split_single(word, ':');
        if end < s.len() {
            assert(s@[end as int] == tail@[n as int]);
            assert(rest =~= word.push(':') + s@.skip(end + 1));
            lemma_split_around(word, s@.skip(end + 1), ':');
        } else {
            assert(rest =~= word);
        }
    }
    end
}

impl Meta {
    /// A structured log-line. The timestamp is a decimal number of seconds since the beginning of 1970.
    pub fn new(kind: &str, pid: i32, timestamp: &str, text: &str) -> (r: Meta)
        ensures
            r@ == (MetaView { kind: kind@, pid: pid as int, timestamp: timestamp@, text: text@ }),
    {
        Meta { kind: kind.to_owned(), pid, timestamp: timestamp.to_owned(), text: text.to_owned() }
    }

    /// Parses a log-line.
    pub fn parse(s: &str) -> (r: Result<Meta, MetaParseError>)
        ensures
            (match r {
                Ok(m) => Ok(m@),
                Err(e) => Err(e.text()),
            }) == parsed_meta(s@),
    {
        let c = to_chars(s);
        let prefix = to_chars("@@REDO:");
        let sep = to_chars("@@ ");
        proof {
            reveal_strlit("@@REDO:");
            reveal_strlit("@@ ");
        }
        if c.len() < 7 || !chars_eq(vstd::slice::slice_subrange(c.as_slice(), 0, 7), prefix.as_slice()) {
            assert(c@.len() >= 7 ==> c@.take(7) =~= c@.subrange(0, 7));
            let mut msg = debug_str(s);
            msg.append(" does not begin with ");
            msg.append(debug_str("@@REDO:").as_str());
            return Err(MetaParseError::new(msg));
        }
        assert(c@.take(7) =~= c@.subrange(0, 7));
        if has_char(c.as_slice(), '\n') {
            return Err(complaint(s, " contains a newline"));
        }
        let body = vstd::slice::slice_subrange(c.as_slice(), 7, c.len());
        assert(body@ =~= meta_body(s@));
        let end: usize = match find_chars(body, sep.as_slice()) {
            None => return Err(complaint(s, " has unterminated metadata")),
            Some(i) => i,
        };
        let meta = vstd::slice::slice_subrange(body, 0, end);
        let text = vstd::slice::slice_subrange(body, end + 3, body.len());
        assert(meta@ =~= body@.take(end as int));
        assert(text@ =~= body@.skip(end + 3));
        if has_char(meta, '@') {
            return Err(complaint(s, " contains @ inside metadata"));
        }
        Meta::from_words(s, meta, text)
    }

    fn from_words(s: &str, meta: &[char], text: &[char]) -> (r: Result<Meta, MetaParseError>)
        ensures
            ({
                let q = quoted(s@);
                let words = split(meta@, ':');
                (match r {
                    Ok(m) => Ok(m@),
                    Err(e) => Err(e.text()),
                }) == if words.len() < 2 {
                    Err(q + " is missing a pid"@)
                } else {
                    match parsed_within(words[1], i32::MIN as int, i32::MAX as int) {
                        None => Err("cannot parse pid in "@ + q),
                        Some(pid) => if words.len() < 3 {
                            Err(q + " is missing a timestamp"@)
                        } else if !is_decimal(words[2]) {
                            Err("cannot parse timestamp in "@ + q)
                        } else {
                            Ok(MetaView { kind: words[0], pid, timestamp: words[2], text: text@ })
                        },
                    }
                }
            }),
    {
        let ghost words = split(meta@, ':');
        assert(meta@.skip(0) =~= meta@);
        let a: usize = word_end(meta, 0);
        if a == meta.len() {
            return Err(complaint(s, " is missing a pid"));
        }
        let b: usize = word_end(meta, a + 1);
        let kind = vstd::slice::slice_subrange(meta, 0, a);
        let pid_text = vstd::slice::slice_subrange(meta, a + 1, b);
        proof {
            lemma_split_len(meta@.skip(a + 1), ':');
            assert(words[0] == kind@);
            assert(words[1] == pid_text@);
        }
        let pid: i32 = match parse_i32(pid_text) {
            None => return Err(complaint_about("cannot parse pid in ", s)),
            Some(p) => p,
        };
        if b == meta.len() {
            assert(words.len() == 2);
            return Err(complaint(s, " is missing a timestamp"));
        }
        let c: usize = word_end(meta, b + 1);
        let timestamp = vstd::slice::slice_subrange(meta, b + 1, c);
        proof {
            lemma_split_len(meta@.skip(b + 1), ':');
            assert(words =~= seq![kind@, pid_text@] + split(meta@.skip(b + 1), ':'));
            assert(words[2] == timestamp@);
        }
        if !decimal_ok(timestamp) {
            return Err(complaint_about("cannot parse timestamp in ", s));
        }
        Ok(Meta { kind: from_chars(kind), pid, timestamp: from_chars(timestamp), text: from_chars(text) })
    }

    /// The kind of the line.
    pub fn kind(&self) -> (r: &str)
        ensures
            r@ == self@.kind,
    {
        self.kind.as_str()
    }

    /// The process that wrote the line.
    pub fn pid(&self) -> (r: i32)
        ensures
            r == self@.pid,
    {
        self.pid
    }

    /// When the line was written, as a decimal number of seconds since the beginning of 1970.
    pub fn timestamp(&self) -> (r: &str)
        ensures
            r@ == self@.timestamp,
    {
        self.timestamp.as_str()
    }

    /// What the line says.
    pub fn text(&self) -> (r: &str)
        ensures
            r@ == self@.text,
    {
        self.text.as_str()
    }

    /// Parses a `"done"`-kind line into its exit code and the target name.
    /// Returns `None` if `kind != "done"` or the text is not of the right format.
    pub fn done_text(&self) -> (r: Option<(i32, String)>)
        ensures
            (match r {
                Some((rv, name)) => Some((rv as int, name@)),
                None => None,
            }) == if self@.kind == "done"@ {
                parsed_done(self@.text)
            } else {
                None
            },
    {
        if str_eq(self.kind.as_str(), "done") {
            Meta::parse_done_text(self.text.as_str())
        } else {
            None
        }
    }

    /// The exit code and the target name in the text of a line of kind `done`.
    pub fn parse_done_text(text: &str) -> (r: Option<(i32, String)>)
        ensures
            (match r {
                Some((rv, name)) => Some((rv as int, name@)),
                None => None,
            }) == parsed_done(text@),
    {
        let c = to_chars(text);
        let i: usize = find_either(c.as_slice(), ' ', ' ');
        if i == c.len() {
            return None;
        }
        let rv_text = vstd::slice::slice_subrange(c.as_slice(), 0, i);
        let name = vstd::slice::slice_subrange(c.as_slice(), i + 1, c.len());
        assert(rv_text@ =~= text@.take(i as int));
        assert(name@ =~= text@.skip(i + 1));
        match parse_i32(rv_text) {
            Some(rv) => Some((rv, from_chars(name))),
            None => None,
        }
    }

    /// The text of the line.
    pub fn to_line(&self) -> (r: String)
        ensures
            r@ == meta_line(self@),
    {
        let mut s = "@@REDO:".to_owned();
        s.append(self.kind.as_str());
        s.append(":");
        s.append(dec_i64(self.pid as i64).as_str());
        s.append(":");
        s.append(self.timestamp.as_str());
        s.append("@@ ");
        s.append(self.text.as_str());
        s
    }
}

/// Whether a character can separate the parts of a structured log-line, or ends it.
spec fn is_mark(c: char) -> bool {
    c == ':' || c == '@' || c == '\n'
}

proof fn lemma_index_or_len(s: Seq<char>, a: char, b: char)
    ensures
        0 <= index_or_len(s, a, b) <= s.len(),
        index_or_len(s, a, b) < s.len() ==> s[index_or_len(s, a, b)] == a || s[index_or_len(s, a, b)] == b,
    decreases s.len(),
{
    if s.len() > 0 && s[0] != a && s[0] != b {
        lemma_index_or_len(s.skip(1), a, b);
    }
}

proof fn lemma_word_marks(s: Seq<char>, word: Seq<char>)
    requires
        same_letters(s, word),
        forall|i: int| 0 <= i < word.len() ==> 'a' <= #[trigger] word[i] <= 'z',
    ensures
        forall|i: int| 0 <= i < s.len() ==> !is_mark(#[trigger] s[i]),
{
    assert forall|i: int| 0 <= i < s.len() implies !is_mark(#[trigger] s[i]) by {
        assert(lower(s[i]) == word[i]);
        assert('a' <= word[i] <= 'z');
    }
}

/// A number holds none of the characters that separate the parts of a structured log-line.
proof fn lemma_decimal_marks(s: Seq<char>)
    requires
        is_decimal(s),
    ensures
        forall|i: int| 0 <= i < s.len() ==> !is_mark(#[trigger] s[i]),
{
    reveal_strlit("inf");
    reveal_strlit("infinity");
    reveal_strlit("nan");
    let body = unsigned(s);
    if same_letters(body, "inf"@) {
        lemma_word_marks(body, "inf"@);
    } else if same_letters(body, "infinity"@) {
        lemma_word_marks(body, "infinity"@);
    } else if same_letters(body, "nan"@) {
        lemma_word_marks(body, "nan"@);
    } else {
        lemma_index_or_len(body, 'e', 'E');
        let e = index_or_len(body, 'e', 'E');
        let m = body.take(e);
        lemma_index_or_len(m, '.', '.');
        let d = index_or_len(m, '.', '.');
        assert forall|i: int| 0 <= i < e implies !is_mark(#[trigger] body[i]) by {
            assert(m[i] == body[i]);
            if d == m.len() {
                assert(is_digit(m[i]));
            } else if i < d {
                assert(m.take(d)[i] == m[i]);
                assert(is_digit(m.take(d)[i]));
            } else if i > d {
                assert(m.skip(d + 1)[i - d - 1] == m[i]);
                assert(is_digit(m.skip(d + 1)[i - d - 1]));
            }
        }
        if e < body.len() {
            let x = body.skip(e + 1);
            let u = unsigned(x);
            assert forall|i: int| e < i < body.len() implies !is_mark(#[trigger] body[i]) by {
                assert(x[i - e - 1] == body[i]);
                if u.len() == x.len() {
                    assert(u[i - e - 1] == body[i]);
                    assert(is_digit(u[i - e - 1]));
                } else if i - e - 1 > 0 {
                    assert(u[i - e - 2] == body[i]);
                    assert(is_digit(u[i - e - 2]));
                }
            }
        }
    }
    assert forall|i: int| 0 <= i < s.len() implies !is_mark(#[trigger] s[i]) by {
        if body.len() == s.len() {
            assert(body[i] == s[i]);
        } else if i > 0 {
            assert(body[i - 1] == s[i]);
        }
    }
}

/// A structured log-line that was written is read back as it was, as long as its parts hold
/// nothing that separates them.
pub proof fn law_meta_round_trip(m: MetaView)
    requires
        !m.kind.contains(':'),
        !m.kind.contains('@'),
        !m.kind.contains('\n'),
        i32::MIN <= m.pid <= i32::MAX,
        is_decimal(m.timestamp),
        !m.text.contains('\n'),
    ensures
        parsed_meta(meta_line(m)) == Ok::<MetaView, Seq<char>>(m),
{
    reveal_strlit("@@REDO:");
    reveal_strlit("@@ ");
    reveal_strlit(":");
    let p = decimal_int(m.pid);
    lemma_decimal_chars(m.pid);
    lemma_decimal_marks(m.timestamp);
    let s = meta_line(m);
    let head = "@@REDO:"@;
    let sep = "@@ "@;
    let colon = ":"@;
    let meta = m.kind + colon + p + colon + m.timestamp;
    let body = meta + sep + m.text;
    assert(s =~= head + body);
    assert(s.take(7) =~= head);
    assert(meta_body(s) =~= body);
    let n1 = m.kind.len() as int;
    let n2 = p.len() as int;
    assert forall|i: int| 0 <= i < meta.len() implies meta[i] != '@' && meta[i] != '\n' by {
        if i < n1 {
            assert(meta[i] == m.kind[i]);
            assert(m.kind.contains(m.kind[i]));
        } else if i == n1 {
        } else if i < n1 + 1 + n2 {
            assert(meta[i] == p[i - n1 - 1]);
        } else if i > n1 + 1 + n2 {
            assert(meta[i] == m.timestamp[i - n1 - n2 - 2]);
        }
    }
    assert(!s.contains('\n')) by {
        assert forall|i: int| 0 <= i < s.len() implies s[i] != '\n' by {
            if i < 7 {
                assert(s[i] == head[i]);
            } else if i < 7 + meta.len() {
                assert(s[i] == meta[i - 7]);
            } else if i < 10 + meta.len() {
                assert(s[i] == sep[i - 7 - meta.len()]);
            } else {
                assert(s[i] == m.text[i - 10 - meta.len()]);
                assert(m.text.contains(m.text[i - 10 - meta.len()]));
            }
        }
    }
    let end = meta.len() as int;
    assert(body.subrange(end, end + 3) =~= sep);
    assert forall|j: int| 0 <= j < end implies #[trigger] body.subrange(j, j + sep.len()) != sep by {
        assert(body.subrange(j, j + sep.len())[0] == meta[j]);
    }
    lemma_first_occurrence(body, sep, end);
    assert(body.take(end) =~= meta);
    assert(body.skip(end + 3) =~= m.text);
    // The words of the metadata.
    let rest = p + colon + m.timestamp;
    assert(colon =~= seq![':']);
    assert(meta =~= m.kind.push(':') + rest);
    assert(rest =~= p.push(':') + m.timestamp);
    assert(!p.contains(':'));
    assert(!m.timestamp.contains(':')) by {
        assert forall|i: int| 0 <= i < m.timestamp.len() implies m.timestamp[i] != ':' by {
            assert(!is_mark(m.timestamp[i]));
        }
    }
    lemma_split_around(m.kind, rest, ':');
    lemma_split_around(p, m.timestamp, ':');
    lemma_split_single(m.kind, ':');
    lemma_split_single(p, ':');
    lemma_split_single(m.timestamp, ':');
    assert(split(meta, ':') =~= seq![m.kind, p, m.timestamp]);
    crate::text::law_decimal_round_trip(m.pid);
}

/// The text of a line of kind `done`.
pub open spec fn done_line(rv: int, name: Seq<char>) -> Seq<char> {
    decimal_int(rv) + " "@ + name
}

/// An exit code and a target that were written as the text of a `done` line are read back.
pub proof fn law_done_round_trip(rv: i32, name: Seq<char>)
    ensures
        parsed_done(done_line(rv as int, name)) == Some((rv as int, name)),
{
    reveal_strlit(" ");
    let d = decimal_int(rv as int);
    let s = done_line(rv as int, name);
    lemma_decimal_chars(rv as int);
    lemma_index_at(s, ' ', d.len() as int);
    assert(s.take(d.len() as int) =~= d);
    assert(s.skip(d.len() as int + 1) =~= name);
    crate::text::law_decimal_round_trip(rv as int);
}

proof fn lemma_index_at(s: Seq<char>, c: char, k: int)
    requires
        0 <= k < s.len(),
        s[k] == c,
        forall|i: int| 0 <= i < k ==> s[i] != c,
    ensures
        index_or_len(s, c, c) == k,
    decreases k,
{
    if k > 0 {
        lemma_index_at(s.skip(1), c, k - 1);
    }
}

/// Terminal escapes for colours.
#[derive(Clone, Copy, Debug)]
pub struct ColorEscapes {
    pub red: &'static str,
    pub green: &'static str,
    pub yellow: &'static str,
    pub bold: &'static str,
    pub plain: &'static str,
}

/// What terminal escapes are.
pub struct EscapesView {
    pub red: Seq<char>,
    pub green: Seq<char>,
    pub yellow: Seq<char>,
    pub bold: Seq<char>,
    pub plain: Seq<char>,
}

impl View for ColorEscapes {
    type V = EscapesView;

    open spec fn view(&self) -> EscapesView {
        EscapesView {
            red: self.red@,
            green: self.green@,
            yellow: self.yellow@,
            bold: self.bold@,
            plain: self.plain@,
        }
    }
}

/// No escapes at all.
pub open spec fn no_escapes() -> EscapesView {
    EscapesView { red: ""@, green: ""@, yellow: ""@, bold: ""@, plain: ""@ }
}

/// The escapes of a terminal that can show colours.
pub open spec fn ansi_escapes() -> EscapesView {
    EscapesView {
        red: "\x1b[31m"@,
        green: "\x1b[32m"@,
        yellow: "\x1b[33m"@,
        bold: "\x1b[1m"@,
        plain: "\x1b[m"@,
    }
}

impl Default for ColorEscapes {
    /// Returns an empty set of color escapes.
    fn default() -> (r: ColorEscapes)
        ensures
            r@ == no_escapes(),
    {
        ColorEscapes { red: "", green: "", yellow: "", bold: "", plain: "" }
    }
}

/// Whether a terminal of the given type can show colours.
pub open spec fn has_colors(term: Option<Seq<char>>) -> bool {
    term matches Some(t) && t != "dumb"@ && t != ""@
}

/// The contents of an optional text.
pub open spec fn opt_view(t: Option<&str>) -> Option<Seq<char>> {
    match t {
        Some(s) => Some(s@),
        None => None,
    }
}

/// The escapes to use, given what the user wants, whether the log goes to a terminal, and the
/// value of `TERM`.
pub open spec fn chosen_escapes(color: OptionalBool, is_tty: bool, term: Option<Seq<char>>) -> EscapesView {
    if color.resolved(is_tty && has_colors(term)) {
        ansi_escapes()
    } else {
        no_escapes()
    }
}

/// The escapes to use, given what the user wants, whether the log goes to a terminal, and the
/// value of `TERM`.
pub fn check_tty(color: OptionalBool, is_tty: bool, term: Option<&str>) -> (r: ColorEscapes)
    ensures
        r@ == chosen_escapes(color, is_tty, opt_view(term)),
{
    let auto = is_tty && match term {
        None => false,
        Some(t) => !str_eq(t, "dumb") && !str_eq(t, ""),
    };
    if color.unwrap_or(auto) {
        ColorEscapes {
            red: "\x1b[31m",
            green: "\x1b[32m",
            yellow: "\x1b[33m",
            bold: "\x1b[1m",
            plain: "\x1b[m",
        }
    } else {
        ColorEscapes::default()
    }
}

/// What is shown in a log.
#[derive(Clone, Copy, Debug)]
pub struct PrettyLogConfig {
    pub debug: i32,
    pub debug_locks: bool,
    pub debug_pids: bool,
    pub verbose: i32,
    pub xtrace: i32,
    pub log: OptionalBool,
}

impl PrettyLogConfig {
    /// What the settings ask for.
    pub fn from_env(e: &Env) -> (r: PrettyLogConfig)
        ensures
            r == (PrettyLogConfig {
                debug: e.debug,
                debug_locks: e.debug_locks,
                debug_pids: e.debug_pids,
                verbose: e.verbose,
                xtrace: e.xtrace,
                log: e.log,
            }),
    {
        PrettyLogConfig {
            debug: e.debug,
            debug_locks: e.debug_locks,
            debug_pids: e.debug_pids,
            verbose: e.verbose,
            xtrace: e.xtrace,
            log: e.log,
        }
    }
}

/// That many spaces.
pub open spec fn spaces(n: int) -> Seq<char> {
    Seq::new(n as nat, |i: int| ' ')
}

/// A text with spaces behind it, so that it takes at least the given width.
pub open spec fn padded_to(s: Seq<char>, width: int) -> Seq<char> {
    if s.len() < width {
        s + spaces(width - s.len())
    } else {
        s
    }
}

/// A printer for human-readable logs.
#[derive(Clone, Copy, Debug)]
pub struct PrettyLog {
    pub escapes: ColorEscapes,
    pub config: PrettyLogConfig,
}

/// How a human-readable log looks.
pub struct LogStyle {
    pub escapes: EscapesView,
    pub config: PrettyLogConfig,
}

impl View for PrettyLog {
    type V = LogStyle;

    open spec fn view(&self) -> LogStyle {
        LogStyle { escapes: self.escapes@, config: self.config }
    }
}

/// One line of a human-readable log.
pub open spec fn pretty_line(log: LogStyle, depth: int, pid: int, color: Seq<char>, s: Seq<char>) -> Seq<char> {
    color + (if log.config.debug_pids {
        padded_to(decimal_int(pid), 6) + " redo  "@
    } else {
        "redo  "@
    }) + spaces(depth) + (if color.len() > 0 {
        log.escapes.bold
    } else {
        seq![]
    }) + s + log.escapes.plain + seq!['\n']
}

/// A message that is not about a target.
pub open spec fn notice(log: LogStyle, color: Seq<char>, s: Seq<char>) -> Seq<char> {
    color + "redo: "@ + log.escapes.bold + s + log.escapes.plain + seq!['\n']
}

/// What is shown of a line of kind `done`.
pub open spec fn shown_done(log: LogStyle, depth: int, m: MetaView) -> Seq<char> {
    let c = log.config;
    match parsed_done(m.text) {
        None => pretty_line(log, depth, m.pid, seq![], m.text),
        Some((rv, name)) => if rv != 0 {
            pretty_line(log, depth, m.pid, log.escapes.red, name + " (exit "@ + decimal_int(rv) + ")"@)
        } else if c.verbose > 0 || c.xtrace > 0 || c.debug > 0 {
            pretty_line(log, depth, m.pid, log.escapes.green, name + " (done)"@) + seq!['\n']
        } else {
            seq![]
        },
    }
}

/// What is shown of a structured log-line.
pub open spec fn shown_meta(log: LogStyle, depth: int, m: MetaView) -> Seq<char> {
    let c = log.config;
    let e = log.escapes;
    if m.kind == "unchanged"@ {
        if c.log.resolved(true) || c.debug != 0 {
            pretty_line(log, depth, m.pid, seq![], m.text + " (unchanged)"@)
        } else {
            seq![]
        }
    } else if m.kind == "check"@ {
        pretty_line(log, depth, m.pid, e.green, "("@ + m.text + ")"@)
    } else if m.kind == "do"@ {
        pretty_line(log, depth, m.pid, e.green, m.text)
    } else if m.kind == "done"@ {
        shown_done(log, depth, m)
    } else if m.kind == "resumed"@ {
        pretty_line(log, depth, m.pid, e.green, m.text + " (resumed)"@)
    } else if m.kind == "locked"@ {
        if c.debug_locks {
            pretty_line(log, depth, m.pid, e.green, m.text + " (locked...)"@)
        } else {
            seq![]
        }
    } else if m.kind == "waiting"@ {
        if c.debug_locks {
            pretty_line(log, depth, m.pid, e.green, m.text + " (WAITING)"@)
        } else {
            seq![]
        }
    } else if m.kind == "unlocked"@ {
        if c.debug_locks {
            pretty_line(log, depth, m.pid, e.green, m.text + " (...unlocked!)"@)
        } else {
            seq![]
        }
    } else if m.kind == "error"@ {
        notice(log, e.red, m.text)
    } else if m.kind == "warning"@ {
        notice(log, e.yellow, m.text)
    } else {
        pretty_line(log, depth, m.pid, seq![], m.text)
    }
}

/// The structured part of a line, and where it starts.
pub open spec fn meta_in(line: Seq<char>) -> Option<(int, MetaView)> {
    match first_occurrence(line, "@@REDO:"@) {
        None => None,
        Some(start) => match parsed_meta(line.skip(start)) {
            Ok(m) => Some((start, m)),
            Err(_) => None,
        },
    }
}

/// What is shown of a line: what stands before a structured log-line, and that in a readable form.
pub open spec fn shown_line(log: LogStyle, depth: int, line: Seq<char>) -> Seq<char> {
    match meta_in(line) {
        None => line.push('\n'),
        Some((start, m)) => line.take(start) + shown_meta(log, depth, m),
    }
}

/// Appends spaces.
pub fn push_spaces(s: &mut String, n: usize)
    ensures
        final(s)@ == old(s)@ + spaces(n as int),
{
    let ghost before = s@;
    let mut i: usize = 0;
    assert(before + spaces(0) =~= before);
    while i < n
        invariant
            i <= n,
            s@ == before + spaces(i as int),
        decreases n - i,
    {
        s.push(' ');
        i = i + 1;
        assert(s@ =~= before + spaces(i as int));
    }
}

impl PrettyLog {
    fn pretty(&self, depth: usize, pid: i32, color: &str, s: &str) -> (r: String)
        ensures
            r@ == pretty_line(self@, depth as int, pid as int, color@, s@),
    {
        let mut out = color.to_owned();
        if self.config.debug_pids {
            let p = dec_i64(pid as i64);
            let n: usize = p.as_str().unicode_len();
            let ghost before = out@;
            out.append(p.as_str());
            if n < 6 {
                push_spaces(&mut out, 6 - n);
            }
            out.append(" redo  ");
            assert(out@ =~= before + (padded_to(decimal_int(pid as int), 6) + " redo  "@));
        } else {
            out.append("redo  ");
        }
        push_spaces(&mut out, depth);
        let ghost before = out@;
        if color.unicode_len() > 0 {
            out.append(self.escapes.bold);
        } else {
            assert(before + seq![] =~= before);
        }
        out.append(s);
        out.append(self.escapes.plain);
        out.push('\n');
        assert(out@ =~= pretty_line(self@, depth as int, pid as int, color@, s@));
        out
    }

    fn pretty_with(&self, depth: usize, pid: i32, color: &str, before: &str, s: &str, after: &str) -> (r: String)
        ensures
            r@ == pretty_line(self@, depth as int, pid as int, color@, before@ + s@ + after@),
    {
        let mut t = before.to_owned();
        t.append(s);
        t.append(after);
        self.pretty(depth, pid, color, t.as_str())
    }

    fn pretty_after(&self, depth: usize, pid: i32, color: &str, s: &str, after: &str) -> (r: String)
        ensures
            r@ == pretty_line(self@, depth as int, pid as int, color@, s@ + after@),
    {
        let mut t = s.to_owned();
        t.append(after);
        self.pretty(depth, pid, color, t.as_str())
    }

    fn notice(&self, color: &str, s: &str) -> (r: String)
        ensures
            r@ == notice(self@, color@, s@),
    {
        let mut out = color.to_owned();
        out.append("redo: ");
        out.append(self.escapes.bold);
        out.append(s);
        out.append(self.escapes.plain);
        out.push('\n');
        assert(out@ =~= notice(self@, color@, s@));
        out
    }

    fn show_done(&self, depth: usize, pid: i32, text: &str, Ghost(m): Ghost<MetaView>) -> (r: String)
        requires
            m.pid == pid,
            m.text == text@,
        ensures
            r@ == shown_done(self@, depth as int, m),
    {
        let none = String::new();
        assert(none@ =~= seq![]);
        match Meta::parse_done_text(text) {
            None => {
                // Could not parse. Pass text through.
                self.pretty(depth, pid, none.as_str(), text)
            },
            Some((rv, name)) => {
                if rv != 0 {
                    let mut t = name.clone();
                    t.append(" (exit ");
                    t.append(dec_i64(rv as i64).as_str());
                    t.append(")");
                    self.pretty(depth, pid, self.escapes.red, t.as_str())
                } else if self.config.verbose > 0 || self.config.xtrace > 0 || self.config.debug > 0 {
                    let mut out = self.pretty_after(depth, pid, self.escapes.green, name.as_str(), " (done)");
                    let ghost before = out@;
                    out.push('\n');
                    assert(out@ =~= before + seq!['\n']);
                    out
                } else {
                    none
                }
            },
        }
    }

    /// What is shown of a structured log-line.
    pub fn show_meta(&self, depth: usize, m: &Meta) -> (r: String)
        ensures
            r@ == shown_meta(self@, depth as int, m@),
    {
        let none = String::new();
        assert(none@ =~= seq![]);
        let e = self.escapes;
        let kind = m.kind();
        let text = m.text();
        let pid: i32 = m.pid();
        if str_eq(kind, "unchanged") {
            if self.config.log.unwrap_or(true) || self.config.debug != 0 {
                self.pretty_after(depth, pid, none.as_str(), text, " (unchanged)")
            } else {
                none
            }
        } else if str_eq(kind, "check") {
            self.pretty_with(depth, pid, e.green, "(", text, ")")
        } else if str_eq(kind, "do") {
            self.pretty(depth, pid, e.green, text)
        } else if str_eq(kind, "done") {
            self.show_done(depth, pid, text, Ghost(m@))
        } else if str_eq(kind, "resumed") {
            self.pretty_after(depth, pid, e.green, text, " (resumed)")
        } else if str_eq(kind, "locked") {
            if self.config.debug_locks {
                self.pretty_after(depth, pid, e.green, text, " (locked...)")
            } else {
                none
            }
        } else if str_eq(kind, "waiting") {
            if self.config.debug_locks {
                self.pretty_after(depth, pid, e.green, text, " (WAITING)")
            } else {
                none
            }
        } else if str_eq(kind, "unlocked") {
            if self.config.debug_locks {
                self.pretty_after(depth, pid, e.green, text, " (...unlocked!)")
            } else {
                none
            }
        } else if str_eq(kind, "error") {
            self.notice(e.red, text)
        } else if str_eq(kind, "warning") {
            self.notice(e.yellow, text)
        } else {
            // Debugging messages, and any unknown kind: pass it through.
            self.pretty(depth, pid, none.as_str(), text)
        }
    }

    /// What is shown of a line, at the given depth.
    pub fn write_line(&self, depth: usize, line: &str) -> (r: String)
        ensures
            r@ == shown_line(self@, depth as int, line@),
    {
        let c = to_chars(line);
        let prefix = to_chars("@@REDO:");
        match find_chars(c.as_slice(), prefix.as_slice()) {
            None => {},
            Some(start) => {
                let tail = vstd::slice::slice_subrange(c.as_slice(), start, c.len());
                assert(tail@ =~= line@.skip(start as int));
                match Meta::parse(from_chars(tail).as_str()) {
                    Err(_) => {},
                    Ok(m) => {
                        let before = vstd::slice::slice_subrange(c.as_slice(), 0, start);
                        assert(before@ =~= line@.take(start as int));
                        let mut out = from_chars(before);
                        out.append(self.show_meta(depth, &m).as_str());
                        return out;
                    },
                }
            },
        }
        let mut out = line.to_owned();
        out.push('\n');
        out
    }
}

/// A log printer for machine-readable logs, suitable for redo-log.
#[derive(Clone, Copy, Debug)]
pub struct RawLog {}

impl RawLog {
    /// A printer for machine-readable logs.
    pub fn new() -> (r: RawLog)
        ensures
            r == (RawLog {  }),
    {
        RawLog {  }
    }

    /// What is written of a line: all of it.
    pub fn write_line(&self, line: &str) -> (r: String)
        ensures
            r@ == line@.push('\n'),
    {
        let mut s = line.to_owned();
        s.push('\n');
        s
    }
}

/// A builder used for setting up logs.
#[derive(Clone, Copy, Debug)]
pub struct LogBuilder {
    parent_logs: bool,
    pretty: bool,
    color: OptionalBool,
}

/// What a [`LogBuilder`] has been told.
pub struct LogBuilderView {
    /// Whether the parent process logs.
    pub parent_logs: bool,
    /// Whether logs should be pretty-printed.
    pub pretty: bool,
    /// Terminal color behavior.
    pub color: OptionalBool,
}

impl View for LogBuilder {
    type V = LogBuilderView;

    closed spec fn view(&self) -> LogBuilderView {
        LogBuilderView { parent_logs: self.parent_logs, pretty: self.pretty, color: self.color }
    }
}

impl LogBuilder {
    /// Pretty-printed logs, with colors where they can be shown.
    pub fn new() -> (r: LogBuilder)
        ensures
            r@ == (LogBuilderView { parent_logs: false, pretty: true, color: OptionalBool::Auto }),
    {
        LogBuilder { parent_logs: false, pretty: true, color: OptionalBool::Auto }
    }

    /// The logs that the settings ask for.
    pub fn from_env(e: &Env) -> (r: LogBuilder)
        ensures
            r@ == (LogBuilderView {
                parent_logs: e.log.resolved(true),
                pretty: e.pretty.resolved(true),
                color: e.color,
            }),
    {
        LogBuilder { parent_logs: e.log.unwrap_or(true), pretty: e.pretty.unwrap_or(true), color: e.color }
    }

    /// Signal whether the parent process logs.
    pub fn parent_logs(&mut self, val: bool) -> (r: &mut LogBuilder)
        ensures
            r@ == (LogBuilderView { parent_logs: val, ..old(self)@ }),
            *final(self) == *final(r),
    {
        self.parent_logs = val;
        self
    }

    /// Set whether logs should be pretty-printed.
    pub fn pretty(&mut self, val: bool) -> (r: &mut LogBuilder)
        ensures
            r@ == (LogBuilderView { pretty: val, ..old(self)@ }),
            *final(self) == *final(r),
    {
        self.pretty = val;
        self
    }

    /// Sets terminal color behavior.
    pub fn color(&mut self, val: OptionalBool) -> (r: &mut LogBuilder)
        ensures
            r@ == (LogBuilderView { color: val, ..old(self)@ }),
            *final(self) == *final(r),
    {
        self.color = val;
        self
    }

    /// Force logs to display without terminal colors.
    pub fn disable_color(&mut self) -> (r: &mut LogBuilder)
        ensures
            r@ == (LogBuilderView { color: OptionalBool::Off, ..old(self)@ }),
            *final(self) == *final(r),
    {
        self.color = OptionalBool::Off;
        self
    }

    /// Force logs to display with terminal colors.
    pub fn force_color(&mut self) -> (r: &mut LogBuilder)
        ensures
            r@ == (LogBuilderView { color: OptionalBool::On, ..old(self)@ }),
            *final(self) == *final(r),
    {
        self.color = OptionalBool::On;
        self
    }

    /// Sets up the process-wide logger with the builder's settings. `tty` says whether what the log goes to is a
    /// terminal, if it has a file descriptor at all; the value of `TERM` says of which type it is.
    pub fn setup(&self, logs: &mut Logs, env: &Env, tty: Option<bool>, term: Option<&str>)
        ensures
            final(logs).level() == env.debug,
            final(logs).indent() == env.depth@.len(),
            match final(logs).printer() {
                Some(Logger::Pretty(p)) => {
                    &&& self@.pretty && !self@.parent_logs
                    &&& p.escapes@ == match tty {
                        None => no_escapes(),
                        Some(is_tty) => chosen_escapes(self@.color, is_tty, opt_view(term)),
                    }
                    &&& p.config == (PrettyLogConfig {
                        debug: env.debug,
                        debug_locks: env.debug_locks,
                        debug_pids: env.debug_pids,
                        verbose: env.verbose,
                        xtrace: env.xtrace,
                        log: env.log,
                    })
                },
                Some(Logger::Raw(_)) => !self@.pretty || self@.parent_logs,
                None => false,
            },
    {
        let logger = if self.pretty && !self.parent_logs {
            Logger::Pretty(
                PrettyLog {
                    escapes: match tty {
                        None => ColorEscapes::default(),
                        Some(is_tty) => check_tty(self.color, is_tty, term),
                    },
                    config: PrettyLogConfig::from_env(env),
                },
            )
        } else {
            Logger::Raw(RawLog::new())
        };
        logs.debug_level = env.debug;
        set_depth(logs, env.depth.len());
        logs.logger = Some(logger);
    }
}

impl Default for LogBuilder {
    fn default() -> (r: LogBuilder)
        ensures
            r@ == (LogBuilderView { parent_logs: false, pretty: true, color: OptionalBool::Auto }),
    {
        LogBuilder::new()
    }
}

/// How log lines are printed.
#[derive(Clone, Copy, Debug)]
pub enum Logger {
    Raw(RawLog),
    Pretty(PrettyLog),
}

/// The process-wide log.
#[derive(Debug)]
pub struct Logs {
    debug_level: i32,
    depth: usize,
    logger: Option<Logger>,
}

impl Logs {
    /// The debug level.
    pub closed spec fn level(&self) -> i32 {
        self.debug_level
    }

    /// How far lines are indented.
    pub closed spec fn indent(&self) -> nat {
        self.depth as nat
    }

    /// How lines are printed, once that has been set up.
    pub closed spec fn printer(&self) -> Option<Logger> {
        self.logger
    }

    /// A log that has not been set up.
    ///
    /// The debug level is 3 before set up to help debug early startup.
    pub fn new() -> (r: Logs)
        ensures
            r.level() == 3,
            r.indent() == 0,
            r.printer() is None,
    {
        Logs { debug_level: 3, depth: 0, logger: None }
    }
}

/// Return the currently configured debug level.
pub fn debug_level(logs: &Logs) -> (r: i32)
    ensures
        r == logs.level(),
{
    logs.debug_level
}

/// Reduces the depth of subsequent entries written to the logger by 2.
/// It returns the previous depth value.
pub fn reduce_depth(logs: &mut Logs) -> (r: usize)
    ensures
        r == old(logs).indent(),
        final(logs).indent() == if old(logs).indent() > 2 { old(logs).indent() - 2 } else { 0 },
        final(logs).level() == old(logs).level(),
        final(logs).printer() == old(logs).printer(),
{
    let old_depth: usize = logs.depth;
    // Avoid wrapping.
    logs.depth = if old_depth > 2 {
        old_depth - 2
    } else {
        0
    };
    old_depth
}

/// Sets the depth of subsequent entries written to the logger.
pub fn set_depth(logs: &mut Logs, depth: usize)
    ensures
        final(logs).indent() == depth,
        final(logs).level() == old(logs).level(),
        final(logs).printer() == old(logs).printer(),
{
    logs.depth = depth;
}

/// How the log looks before it has been set up: everything is shown, without colours.
pub open spec fn early_style() -> LogStyle {
    LogStyle {
        escapes: no_escapes(),
        config: PrettyLogConfig {
            debug: 3,
            debug_locks: true,
            debug_pids: true,
            verbose: 0,
            xtrace: 0,
            log: OptionalBool::Auto,
        },
    }
}

/// What the process-wide logger writes of a line.
///
/// If this is called before the logger has been set up, everything is shown.
pub fn write(logs: &Logs, line: &str) -> (r: String)
    requires
        !line@.contains('\n'),
    ensures
        match logs.printer() {
            Some(Logger::Raw(_)) => r@ == line@.push('\n'),
            Some(Logger::Pretty(p)) => r@ == shown_line(p@, logs.indent() as int, line@),
            None => r@ == shown_line(early_style(), logs.indent() as int, line@),
        },
{
    match &logs.logger {
        Some(Logger::Raw(l)) => l.write_line(line),
        Some(Logger::Pretty(p)) => p.write_line(logs.depth, line),
        None => {
            // Fallback, showing everything.
            // This is helpful for debugging early startup.
            let p = PrettyLog {
                escapes: ColorEscapes::default(),
                config: PrettyLogConfig {
                    debug: 3,
                    debug_locks: true,
                    debug_pids: true,
                    verbose: 0,
                    xtrace: 0,
                    log: OptionalBool::Auto,
                },
            };
            p.write_line(logs.depth, line)
        },
    }
}

/// The text of a structured log-line.
pub fn meta(kind: &str, s: &str, pid: i32, timestamp: &str) -> (r: String)
    ensures
        r@ == meta_line(MetaView { kind: kind@, pid: pid as int, timestamp: timestamp@, text: s@ }),
{
    Meta::new(kind, pid, timestamp, s).to_line()
}

/// Whether the parts of a structured log-line hold nothing that separates them.
pub open spec fn is_writable(m: MetaView) -> bool {
    &&& !m.kind.contains(':') && !m.kind.contains('@') && !m.kind.contains('\n')
    &&& i32::MIN <= m.pid <= i32::MAX
    &&& is_decimal(m.timestamp)
    &&& !m.text.contains('\n')
}

proof fn lemma_shown_meta_line(log: LogStyle, depth: int, before: Seq<char>, m: MetaView)
    requires
        is_writable(m),
        !before.contains('@'),
    ensures
        shown_line(log, depth, before + meta_line(m)) == before + shown_meta(log, depth, m),
        meta_in(before + meta_line(m)) == Some((before.len() as int, m)),
{
    reveal_strlit("@@REDO:");
    let line = before + meta_line(m);
    let head = "@@REDO:"@;
    let k = before.len() as int;
    assert(line.subrange(k, k + head.len()) =~= head);
    assert forall|j: int| 0 <= j < k implies #[trigger] line.subrange(j, j + head.len()) != head by {
        assert(line.subrange(j, j + head.len())[0] == before[j]);
        assert(before.contains(before[j]));
    }
    lemma_first_occurrence(line, head, k);
    assert(line.skip(k) =~= meta_line(m));
    law_meta_round_trip(m);
    assert(line.take(k) =~= before);
}

/// A line that is not a structured one is shown as it is.
pub proof fn law_other_lines_are_shown(log: LogStyle, depth: int, line: Seq<char>)
    requires
        forall|j: int| 0 <= j && j + 7 <= line.len() ==> #[trigger] line.subrange(j, j + 7) != "@@REDO:"@,
    ensures
        shown_line(log, depth, line) == line + seq!['\n'],
{
    reveal_strlit("@@REDO:");
    law_first_occurrence(line, "@@REDO:"@, 0);
    if let Some(i) = first_occurrence(line, "@@REDO:"@) {
        assert(line.subrange(i, i + 7) == "@@REDO:"@);
    }
    assert(line.push('\n') =~= line + seq!['\n']);
}

/// A line about a target is indented by its depth, and ends with a line feed. It is shown in the given color, if any, and then in
/// bold from where its own text begins. With process ids, it begins with that of its process.
pub proof fn law_lines_about_targets(log: LogStyle, depth: int, pid: int, color: Seq<char>, s: Seq<char>)
    requires
        depth >= 0,
    ensures
        ({
            let line = pretty_line(log, depth, pid, color, s);
            let indent = Seq::new(depth as nat, |i: int| ' ');
            let id = decimal_int(pid);
            let blanks = Seq::new((6 - id.len()) as nat, |i: int| ' ');
            let e = log.escapes;
            &&& !log.config.debug_pids && color.len() == 0 ==> line == "redo  "@ + indent + s + e.plain + seq!['\n']
            &&& !log.config.debug_pids && color.len() > 0 ==> line == color + "redo  "@ + indent + e.bold + s + e.plain
                + seq!['\n']
            &&& log.config.debug_pids && color.len() == 0 && id.len() < 6 ==> line == id + blanks + " redo  "@ + indent + s
                + e.plain + seq!['\n']
            &&& log.config.debug_pids && color.len() > 0 && id.len() < 6 ==> line == color + id + blanks + " redo  "@ + indent
                + e.bold + s + e.plain + seq!['\n']
            &&& log.config.debug_pids && color.len() == 0 && id.len() >= 6 ==> line == id + " redo  "@ + indent + s + e.plain
                + seq!['\n']
            &&& log.config.debug_pids && color.len() > 0 && id.len() >= 6 ==> line == color + id + " redo  "@ + indent
                + e.bold + s + e.plain + seq!['\n']
        }),
{
    let line = pretty_line(log, depth, pid, color, s);
    let indent = Seq::new(depth as nat, |i: int| ' ');
    let id = decimal_int(pid);
    let e = log.escapes;
    assert(spaces(depth) =~= indent);
    if id.len() < 6 {
        let blanks = Seq::new((6 - id.len()) as nat, |i: int| ' ');
        assert(spaces(6 - id.len()) =~= blanks);
        assert(color + (id + blanks + " redo  "@) =~= color + id + blanks + " redo  "@);
    } else {
        assert(color + (id + " redo  "@) =~= color + id + " redo  "@);
    }
    if color.len() == 0 {
        assert(color + "redo  "@ =~= "redo  "@);
        if id.len() < 6 {
            let blanks = Seq::new((6 - id.len()) as nat, |i: int| ' ');
            assert(color + (id + blanks + " redo  "@) =~= id + blanks + " redo  "@);
        } else {
            assert(color + (id + " redo  "@) =~= id + " redo  "@);
        }
        let head = color + (if log.config.debug_pids {
            padded_to(id, 6) + " redo  "@
        } else {
            "redo  "@
        }) + spaces(depth);
        assert(head + seq![] =~= head);
    }
}

/// The line of a job that begins names its target, in green. The line of one that has failed says how it ended, in red; that of one that
/// has succeeded is shown only if the user wants to know more.
pub proof fn law_jobs_are_shown(
    log: LogStyle,
    depth: int,
    before: Seq<char>,
    pid: i32,
    time: Seq<char>,
    name: Seq<char>,
    rv: i32,
)
    requires
        !before.contains('@'),
        is_decimal(time),
        !name.contains('\n'),
    ensures
        ({
            let mid = ":"@ + decimal_int(pid as int) + ":"@ + time + "@@ "@;
            let c = log.config;
            let started = shown_line(log, depth, before + ("@@REDO:"@ + "do"@ + mid + name));
            let checked = shown_line(log, depth, before + ("@@REDO:"@ + "check"@ + mid + name));
            let ended = shown_line(log, depth, before + ("@@REDO:"@ + "done"@ + mid + (decimal_int(rv as int) + " "@ + name)));
            &&& started == before + pretty_line(log, depth, pid as int, log.escapes.green, name)
            &&& checked == before + pretty_line(log, depth, pid as int, log.escapes.green, "("@ + name + ")"@)
            &&& rv != 0 ==> ended == before + pretty_line(
                log,
                depth,
                pid as int,
                log.escapes.red,
                name + " (exit "@ + decimal_int(rv as int) + ")"@,
            )
            &&& rv == 0 && c.verbose <= 0 && c.xtrace <= 0 && c.debug <= 0 ==> ended == before
            &&& rv == 0 && (c.verbose > 0 || c.xtrace > 0 || c.debug > 0) ==> ended == before + (pretty_line(
                log,
                depth,
                pid as int,
                log.escapes.green,
                name + " (done)"@,
            ) + seq!['\n'])
        }),
{
    reveal_strlit("do");
    reveal_strlit("check");
    reveal_strlit("done");
    reveal_strlit("unchanged");
    reveal_strlit(" ");
    let m = MetaView { kind: "do"@, pid: pid as int, timestamp: time, text: name };
    let mid = ":"@ + decimal_int(pid as int) + ":"@ + time + "@@ "@;
    lemma_meta_line(m, mid);
    lemma_shown_meta_line(log, depth, before, m);
    let n = MetaView { kind: "check"@, ..m };
    lemma_meta_line(n, mid);
    lemma_shown_meta_line(log, depth, before, n);
    let text = decimal_int(rv as int) + " "@ + name;
    let d = MetaView { kind: "done"@, text, ..m };
    lemma_decimal_chars(rv as int);
    assert(!text.contains('\n')) by {
        assert forall|i: int| 0 <= i < text.len() implies text[i] != '\n' by {
            let k = decimal_int(rv as int).len();
            if i < k {
                assert(text[i] == decimal_int(rv as int)[i]);
            } else if i > k {
                assert(text[i] == name[i - k - 1]);
                assert(name.contains(name[i - k - 1]));
            }
        }
    }
    lemma_meta_line(d, mid);
    lemma_shown_meta_line(log, depth, before, d);
    law_done_round_trip(rv, name);
    assert("do"@.len() == 2 && "check"@.len() == 5 && "done"@.len() == 4 && "unchanged"@.len() == 9);
    assert(before + seq![] =~= before);
}

proof fn lemma_meta_line(m: MetaView, mid: Seq<char>)
    requires
        mid == ":"@ + decimal_int(m.pid) + ":"@ + m.timestamp + "@@ "@,
    ensures
        meta_line(m) == "@@REDO:"@ + m.kind + mid + m.text,
{
    assert(meta_line(m) =~= "@@REDO:"@ + m.kind + mid + m.text);
}

/// Lines about locks are shown only if the user wants to see them. A target that has not changed is shown unless logs are off, and always
/// for debugging.
pub proof fn law_locks_are_shown(log: LogStyle, depth: int, before: Seq<char>, pid: i32, time: Seq<char>, name: Seq<char>)
    requires
        !before.contains('@'),
        is_decimal(time),
        !name.contains('\n'),
    ensures
        ({
            let mid = ":"@ + decimal_int(pid as int) + ":"@ + time + "@@ "@;
            let c = log.config;
            let e = log.escapes;
            let locked = shown_line(log, depth, before + ("@@REDO:"@ + "locked"@ + mid + name));
            let waiting = shown_line(log, depth, before + ("@@REDO:"@ + "waiting"@ + mid + name));
            let unlocked = shown_line(log, depth, before + ("@@REDO:"@ + "unlocked"@ + mid + name));
            let resumed = shown_line(log, depth, before + ("@@REDO:"@ + "resumed"@ + mid + name));
            let unchanged = shown_line(log, depth, before + ("@@REDO:"@ + "unchanged"@ + mid + name));
            &&& !c.debug_locks ==> locked == before && waiting == before && unlocked == before
            &&& c.debug_locks ==> {
                &&& locked == before + pretty_line(log, depth, pid as int, e.green, name + " (locked...)"@)
                &&& waiting == before + pretty_line(log, depth, pid as int, e.green, name + " (WAITING)"@)
                &&& unlocked == before + pretty_line(log, depth, pid as int, e.green, name + " (...unlocked!)"@)
            }
            &&& resumed == before + pretty_line(log, depth, pid as int, e.green, name + " (resumed)"@)
            &&& c.log is Off && c.debug == 0 ==> unchanged == before
            &&& !(c.log is Off) || c.debug != 0 ==> unchanged == before + pretty_line(
                log,
                depth,
                pid as int,
                seq![],
                name + " (unchanged)"@,
            )
        }),
{
    reveal_strlit("do");
    reveal_strlit("check");
    reveal_strlit("done");
    reveal_strlit("unchanged");
    reveal_strlit("resumed");
    reveal_strlit("locked");
    reveal_strlit("waiting");
    reveal_strlit("unlocked");
    let mid = ":"@ + decimal_int(pid as int) + ":"@ + time + "@@ "@;
    let m = MetaView { kind: "locked"@, pid: pid as int, timestamp: time, text: name };
    lemma_meta_line(m, mid);
    lemma_shown_meta_line(log, depth, before, m);
    let w = MetaView { kind: "waiting"@, ..m };
    lemma_meta_line(w, mid);
    lemma_shown_meta_line(log, depth, before, w);
    let u = MetaView { kind: "unlocked"@, ..m };
    lemma_meta_line(u, mid);
    lemma_shown_meta_line(log, depth, before, u);
    let r = MetaView { kind: "resumed"@, ..m };
    lemma_meta_line(r, mid);
    lemma_shown_meta_line(log, depth, before, r);
    let n = MetaView { kind: "unchanged"@, ..m };
    lemma_meta_line(n, mid);
    lemma_shown_meta_line(log, depth, before, n);
    assert("locked"@.len() == 6 && "waiting"@.len() == 7 && "unlocked"@.len() == 8 && "resumed"@.len() == 7);
    assert("waiting"@[0] == 'w' && "resumed"@[0] == 'r');
    assert("do"@.len() == 2 && "check"@.len() == 5 && "done"@.len() == 4 && "unchanged"@.len() == 9);
    assert(before + seq![] =~= before);
}

/// Errors are shown in red and warnings in yellow, neither of them indented. A line of any other kind is shown as it is, without color.
pub proof fn law_messages_are_shown(
    log: LogStyle,
    depth: int,
    before: Seq<char>,
    pid: i32,
    time: Seq<char>,
    text: Seq<char>,
    kind: Seq<char>,
)
    requires
        !before.contains('@'),
        is_decimal(time),
        !text.contains('\n'),
        !kind.contains(':') && !kind.contains('@') && !kind.contains('\n'),
    ensures
        ({
            let mid = ":"@ + decimal_int(pid as int) + ":"@ + time + "@@ "@;
            let e = log.escapes;
            let error = shown_line(log, depth, before + ("@@REDO:"@ + "error"@ + mid + text));
            let warning = shown_line(log, depth, before + ("@@REDO:"@ + "warning"@ + mid + text));
            let other = shown_line(log, depth, before + ("@@REDO:"@ + kind + mid + text));
            &&& error == before + (e.red + "redo: "@ + e.bold + text + e.plain + seq!['\n'])
            &&& warning == before + (e.yellow + "redo: "@ + e.bold + text + e.plain + seq!['\n'])
            &&& kind != "unchanged"@ && kind != "check"@ && kind != "do"@ && kind != "done"@ && kind != "resumed"@ && kind
                != "locked"@ && kind != "waiting"@ && kind != "unlocked"@ && kind != "error"@ && kind != "warning"@ ==> other
                == before + pretty_line(log, depth, pid as int, seq![], text)
        }),
{
    reveal_strlit("do");
    reveal_strlit("check");
    reveal_strlit("done");
    reveal_strlit("unchanged");
    reveal_strlit("resumed");
    reveal_strlit("locked");
    reveal_strlit("waiting");
    reveal_strlit("unlocked");
    reveal_strlit("error");
    reveal_strlit("warning");
    let mid = ":"@ + decimal_int(pid as int) + ":"@ + time + "@@ "@;
    let m = MetaView { kind: "error"@, pid: pid as int, timestamp: time, text };
    lemma_meta_line(m, mid);
    lemma_shown_meta_line(log, depth, before, m);
    let w = MetaView { kind: "warning"@, ..m };
    lemma_meta_line(w, mid);
    lemma_shown_meta_line(log, depth, before, w);
    let k = MetaView { kind, ..m };
    lemma_meta_line(k, mid);
    lemma_shown_meta_line(log, depth, before, k);
    assert("locked"@.len() == 6 && "waiting"@.len() == 7 && "unlocked"@.len() == 8 && "resumed"@.len() == 7);
    assert("do"@.len() == 2 && "check"@.len() == 5 && "done"@.len() == 4 && "unchanged"@.len() == 9);
    assert("error"@.len() == 5 && "warning"@.len() == 7);
    assert("error"@[0] == 'e' && "check"@[0] == 'c' && "warning"@[1] == 'a' && "waiting"@[2] == 'i' && "warning"@[2] == 'r');
    assert("resumed"@[0] == 'r' && "warning"@[0] == 'w');
}

/// There are colors if the user wants them, and none if not. If that is to be found out, there are colors on a terminal whose type is
/// known, unless it is a dumb one.
pub proof fn law_when_there_are_colors(color: OptionalBool, is_tty: bool, term: Option<Seq<char>>)
    ensures
        ({
            let e = chosen_escapes(color, is_tty, term);
            let good = is_tty && term is Some && term->0.len() > 0 && term->0 != "dumb"@;
            let yes = color is On || color is Auto && good;
            &&& yes ==> {
                &&& e.red == "\x1b[31m"@ && e.green == "\x1b[32m"@ && e.yellow == "\x1b[33m"@
                &&& e.bold == "\x1b[1m"@ && e.plain == "\x1b[m"@
            }
            &&& !yes ==> {
                &&& e.red.len() == 0 && e.green.len() == 0 && e.yellow.len() == 0
                &&& e.bold.len() == 0 && e.plain.len() == 0
            }
        }),
{
    reveal_strlit("");
    if term is Some && term->0.len() == 0 {
        assert(term->0 =~= ""@);
    }
}

/// A line is refused if it does not begin as a structured one does, holds a line feed, or has no end to what describes it.
pub proof fn law_broken_lines_are_refused(s: Seq<char>)
    ensures
        s.len() < 7 || s.take(7) != "@@REDO:"@ ==> parsed_meta(s) is Err,
        s.contains('\n') ==> parsed_meta(s) is Err,
        (forall|j: int| 7 <= j && j + 3 <= s.len() ==> #[trigger] s.subrange(j, j + 3) != "@@ "@) ==> parsed_meta(s) is Err,
{
    reveal_strlit("@@ ");
    if s.len() >= 7 && (forall|j: int| 7 <= j && j + 3 <= s.len() ==> #[trigger] s.subrange(j, j + 3) != "@@ "@) {
        let b = meta_body(s);
        law_first_occurrence(b, "@@ "@, 0);
        if let Some(i) = first_occurrence(b, "@@ "@) {
            assert(b.subrange(i, i + 3) =~= s.subrange(i + 7, i + 7 + 3));
            assert(s.subrange(i + 7, i + 7 + 3) == "@@ "@);
        }
    }
}

/// What is read from a line is what stands in it: its kind behind the beginning, up to the first colon; a process id that fits and a
/// number for the time, both behind further colons; and the text behind the first end mark, to the end of the line.
pub proof fn law_parts_of_a_line(s: Seq<char>)
    ensures
        parsed_meta(s) matches Ok(m) ==> {
            &&& i32::MIN <= m.pid <= i32::MAX
            &&& is_decimal(m.timestamp)
            &&& !m.kind.contains(':') && !m.kind.contains('@')
            &&& "@@REDO:"@ + m.kind + ":"@ == s.take(8 + m.kind.len() as int)
            &&& s.len() >= 10 + m.text.len() && "@@ "@ + m.text == s.skip(s.len() - m.text.len() - 3)
            &&& forall|j: int|
                7 <= j < s.len() - m.text.len() - 3 ==> #[trigger] s.subrange(j, j + 3) != "@@ "@
        },
{
    if let Ok(m) = parsed_meta(s) {
        reveal_strlit("@@ ");
        reveal_strlit(":");
        reveal_strlit("@@REDO:");
        let b = meta_body(s);
        law_first_occurrence(b, "@@ "@, 0);
        let end = first_occurrence(b, "@@ "@)->0;
        let meta = b.take(end);
        let words = split(meta, ':');
        lemma_split_pieces(meta, ':');
        lemma_join_split(meta, ':');
        lemma_join_cons(words[0], words.skip(1), ':');
        assert(seq![words[0]] + words.skip(1) =~= words);
        let rest = join(words.skip(1), ':');
        assert(meta == words[0].push(':') + rest);
        assert(!m.kind.contains('@')) by {
            if m.kind.contains('@') {
                let i = choose|i: int| 0 <= i < m.kind.len() && m.kind[i] == '@';
                assert(meta[i] == '@');
            }
        }
        let n = m.kind.len() as int;
        assert(s.take(7) == "@@REDO:"@);
        assert("@@REDO:"@ + m.kind + ":"@ =~= s.take(8 + n)) by {
            assert forall|i: int| 0 <= i < 8 + n implies ("@@REDO:"@ + m.kind + ":"@)[i] == s.take(8 + n)[i] by {
                if i < 7 {
                    assert(s.take(7)[i] == s[i]);
                } else {
                    assert(meta[i - 7] == b[i - 7]);
                    assert(b[i - 7] == s[i]);
                }
            }
        }
        assert(m.text == b.skip(end + 3));
        assert("@@ "@ + m.text =~= s.skip(s.len() - m.text.len() - 3)) by {
            assert(b.subrange(end, end + 3) == "@@ "@);
            assert forall|i: int| 0 <= i < 3 + m.text.len() implies ("@@ "@ + m.text)[i] == s.skip(
                s.len() - m.text.len() - 3,
            )[i] by {
                if i < 3 {
                    assert(b.subrange(end, end + 3)[i] == b[end + i]);
                }
            }
        }
        assert forall|j: int| 7 <= j < s.len() - m.text.len() - 3 implies #[trigger] s.subrange(j, j + 3) != "@@ "@ by {
            law_first_occurrence(b, "@@ "@, j - 7);
            assert(b.subrange(j - 7, j - 7 + 3) =~= s.subrange(j, j + 3));
        }
    }
}

/// What counts as a number: digits, with a point before, among or behind them, with a sign, with an exponent; infinity and no number
/// at all, by their names. A point alone is none, nor is nothing.
pub proof fn law_what_is_a_number(whole: Seq<char>, frac: Seq<char>, exp: Seq<char>)
    requires
        whole.len() > 0 && forall|i: int| 0 <= i < whole.len() ==> '0' <= #[trigger] whole[i] <= '9',
        frac.len() > 0 && forall|i: int| 0 <= i < frac.len() ==> '0' <= #[trigger] frac[i] <= '9',
        exp.len() > 0 && forall|i: int| 0 <= i < exp.len() ==> '0' <= #[trigger] exp[i] <= '9',
    ensures
        is_decimal(whole),
        is_decimal(whole + seq!['.'] + frac),
        is_decimal(whole + seq!['.']),
        is_decimal(seq!['.'] + frac),
        is_decimal(seq!['-'] + whole),
        is_decimal(seq!['+'] + whole),
        is_decimal(whole + seq!['e'] + exp),
        is_decimal(whole + seq!['E', '-'] + exp),
        is_decimal("inf"@) && is_decimal("infinity"@) && is_decimal("nan"@),
        !is_decimal(seq![]),
        !is_decimal(seq!['.']),
        !is_decimal(whole + seq!['e']),
        !is_decimal(whole + seq!['.'] + frac + seq!['.']),
{
    reveal_strlit("inf");
    reveal_strlit("infinity");
    reveal_strlit("nan");
    lemma_number_parts(whole, seq![]);
    assert(whole + seq![] =~= whole);
    assert(whole.take(whole.len() as int) =~= whole);
    // A point.
    let a = whole + seq!['.'] + frac;
    lemma_index_at(a, '.', whole.len() as int);
    lemma_no_exponent(a);
    assert(a.take(a.len() as int) =~= a);
    assert(a.take(whole.len() as int) =~= whole);
    assert(a.skip(whole.len() as int + 1) =~= frac);
    assert(unsigned(a) == a);
    let b = whole + seq!['.'];
    lemma_index_at(b, '.', whole.len() as int);
    lemma_no_exponent(b);
    assert(b.take(b.len() as int) =~= b);
    assert(b.take(whole.len() as int) =~= whole);
    assert(b.skip(whole.len() as int + 1) =~= seq![]);
    let c = seq!['.'] + frac;
    lemma_index_at(c, '.', 0);
    lemma_no_exponent(c);
    assert(c.take(c.len() as int) =~= c);
    assert(c.take(0) =~= seq![]);
    assert(c.skip(1) =~= frac);
    // A sign.
    assert((seq!['-'] + whole).skip(1) =~= whole);
    assert((seq!['+'] + whole).skip(1) =~= whole);
    // An exponent.
    let e = whole + seq!['e'] + exp;
    lemma_number_parts(whole, seq!['e'] + exp);
    assert(e =~= whole + (seq!['e'] + exp));
    assert(e.take(whole.len() as int) =~= whole);
    assert(e.skip(whole.len() as int + 1) =~= exp);
    assert(unsigned(exp) == exp);
    let f = whole + seq!['E', '-'] + exp;
    lemma_number_parts(whole, seq!['E', '-'] + exp);
    assert(f =~= whole + (seq!['E', '-'] + exp));
    assert(f.take(whole.len() as int) =~= whole);
    assert(f.skip(whole.len() as int + 1) =~= seq!['-'] + exp);
    assert((seq!['-'] + exp).skip(1) =~= exp);
    // What is none.
    let none = Seq::<char>::empty();
    assert(none.take(0) =~= none);
    let dot = seq!['.'];
    lemma_no_exponent(dot);
    lemma_index_at(dot, '.', 0);
    assert(dot.take(1) =~= dot);
    assert(dot.take(0).len() == 0 && dot.skip(1).len() == 0);
    assert(lower('.') == '.');
    lemma_number_parts(whole, seq!['e']);
    let g = whole + seq!['e'];
    assert(g.skip(whole.len() as int + 1) =~= seq![]);
    assert(lower(g[0]) == whole[0]);
    let h = a + seq!['.'];
    assert(h[0] == whole[0] && lower(h[0]) == whole[0]);
    lemma_index_at(h, '.', whole.len() as int);
    lemma_no_exponent(h);
    assert(h.take(h.len() as int) =~= h);
    let t = h.skip(whole.len() as int + 1);
    assert(t[frac.len() as int] == '.');
    assert(!is_digit(t[frac.len() as int]));
    assert(unsigned(h) == h);
}

proof fn lemma_no_exponent(s: Seq<char>)
    requires
        forall|i: int| 0 <= i < s.len() ==> #[trigger] s[i] != 'e' && s[i] != 'E',
    ensures
        index_or_len(s, 'e', 'E') == s.len(),
    decreases s.len(),
{
    if s.len() > 0 {
        assert(s[0] != 'e' && s[0] != 'E');
        assert forall|i: int| 0 <= i < s.skip(1).len() implies #[trigger] s.skip(1)[i] != 'e' && s.skip(1)[i] != 'E' by {
            assert(s.skip(1)[i] == s[i + 1]);
        }
        lemma_no_exponent(s.skip(1));
    }
}

proof fn lemma_number_parts(whole: Seq<char>, tail: Seq<char>)
    requires
        forall|i: int| 0 <= i < whole.len() ==> is_digit(#[trigger] whole[i]),
        tail.len() > 0 ==> tail[0] == 'e' || tail[0] == 'E',
    ensures
        index_or_len(whole + tail, 'e', 'E') == whole.len(),
        index_or_len(whole, '.', '.') == whole.len(),
    decreases whole.len(),
{
    let all = whole + tail;
    if whole.len() > 0 {
        assert(is_digit(whole[0]));
        assert(all[0] == whole[0]);
        assert(all.skip(1) =~= whole.skip(1) + tail);
        assert forall|i: int| 0 <= i < whole.skip(1).len() implies is_digit(#[trigger] whole.skip(1)[i]) by {
            assert(whole.skip(1)[i] == whole[i + 1]);
        }
        lemma_number_parts(whole.skip(1), tail);
    }
}

/// A character that does not occur in a text is found nowhere in it.
pub proof fn lemma_index_without(s: Seq<char>, c: char)
    requires
        !s.contains(c),
    ensures
        index_or_len(s, c, c) == s.len(),
    decreases s.len(),
{
    if s.len() > 0 {
        assert(s.contains(s[0]));
        assert(!s.skip(1).contains(c)) by {
            if s.skip(1).contains(c) {
                let i = choose|i: int| 0 <= i < s.skip(1).len() && s.skip(1)[i] == c;
                assert(s[i + 1] == c);
            }
        }
        lemma_index_without(s.skip(1), c);
    }
}

} // verus!
