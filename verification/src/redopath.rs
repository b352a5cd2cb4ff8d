//! Paths that redo can use as targets.

use std::borrow::Cow;
use vstd::prelude::*;
use vstd::string::*;
use vstd::utf8::*;
use crate::error::{debug_str, generic, quoted, wrapped, ErrorView, KindView, RedoError, RedoErrorKind};
use crate::helpers::{names, normalized, normpath, only_names, resolve, resolved, step};
use crate::pathname::{
    component, file_name, file_name_of, is_rooted, join_path, lemma_piece_bounds, lemma_ranges, parent,
    parent_of, piece_len, pushed, ranges, ranges_from,
};
use crate::text::{copy_bytes, join, lemma_split_around, lemma_split_single, split, DOT, SEP};

verus! {

/// Whether bytes can stand in a path that redo uses: UTF-8 text without nul or newline.
pub open spec fn is_redo_path(b: Seq<u8>) -> bool {
    valid_utf8(b) && !b.contains(0u8) && !b.contains(0x0au8)
}

/// What [`String::from_utf8_lossy`] makes of bytes, as UTF-8 bytes again.
pub uninterp spec fn lossy_utf8(b: Seq<u8>) -> Seq<u8>;

/// `String::from_utf8_lossy` gives UTF-8 text. Bytes that are UTF-8 already come out as they are;
/// in others, whatever is not UTF-8 is replaced. The result is a function of the bytes alone.
#[verifier::external_body]
pub(crate) fn to_lossy(b: &[u8]) -> (r: Vec<u8>)
    ensures
        r@ == lossy_utf8(b@),
        valid_utf8(r@),
        valid_utf8(b@) ==> r@ == b@,
{
    String::from_utf8_lossy(b).into_owned().into_bytes()
}

/// What the error of `std::str::from_utf8` says about bytes that are not UTF-8.
pub uninterp spec fn utf8_error(b: Seq<u8>) -> Seq<char>;

/// `std::str::from_utf8` gives the text that bytes encode, and fails exactly if they are not UTF-8. The text of
/// its error is a function of the bytes alone.
#[verifier::external_body]
pub(crate) fn utf8_text(b: &[u8]) -> (r: Result<String, String>)
    ensures
        match r {
            Ok(s) => valid_utf8(b@) && s@ == decode_utf8(b@),
            Err(e) => !valid_utf8(b@) && e@ == utf8_error(b@),
        },
{
    match std::str::from_utf8(b) {
        Ok(s) => Ok(s.to_owned()),
        Err(e) => Err(e.to_string()),
    }
}

/// Bytes as text for a message.
pub open spec fn shown(b: Seq<u8>) -> Seq<char> {
    decode_utf8(lossy_utf8(b))
}

/// Bytes as text for a message; what is not UTF-8 is replaced.
pub fn show_bytes(b: &[u8]) -> (r: String)
    ensures
        r@ == shown(b@),
{
    utf8_text(to_lossy(b).as_slice()).unwrap()
}

/// A path. It contains no nul bytes or newline bytes and is valid UTF-8.
#[derive(Debug, Eq, PartialEq, Hash, Ord, PartialOrd)]
pub struct RedoPath {
    bytes: Vec<u8>,
}

/// An owned path. It contains no nul bytes or newline bytes and is valid UTF-8.
#[derive(Debug, Eq, PartialEq, Hash, Ord, PartialOrd)]
pub struct RedoPathBuf {
    path: RedoPath,
}

/// A path that cannot be used, with the bytes that it was made of.
#[derive(Debug)]
pub struct RedoPathError {
    input: Vec<u8>,
}

impl Clone for RedoPath {
    fn clone(&self) -> (r: RedoPath)
        ensures
            r@ == self@,
    {
        proof {
            use_type_invariant(self);
        }
        RedoPath { bytes: copy_vec(&self.bytes) }
    }
}

impl Clone for RedoPathBuf {
    fn clone(&self) -> (r: RedoPathBuf)
        ensures
            r@ == self@,
    {
        RedoPathBuf { path: self.path.clone() }
    }
}

impl Clone for RedoPathError {
    fn clone(&self) -> (r: RedoPathError)
        ensures
            r@ == self@,
    {
        RedoPathError { input: copy_vec(&self.input) }
    }
}

impl View for RedoPath {
    type V = Seq<u8>;

    closed spec fn view(&self) -> Seq<u8> {
        self.bytes@
    }
}

impl View for RedoPathBuf {
    type V = Seq<u8>;

    closed spec fn view(&self) -> Seq<u8> {
        self.path@
    }
}

impl View for RedoPathError {
    type V = Seq<u8>;

    closed spec fn view(&self) -> Seq<u8> {
        self.input@
    }
}

/// The error for a path that cannot be used.
pub open spec fn bad_path(input: Seq<u8>) -> ErrorView {
    let msg = bad_path_text(input);
    ErrorView { kind: KindView::InvalidTarget(input), ..wrapped(generic(msg), msg) }
}

/// The text of the error for a path that cannot be used.
pub open spec fn bad_path_text(input: Seq<u8>) -> Seq<char> {
    "could not use "@ + quoted(shown(input)) + " as redo path"@
}

impl RedoPathError {
    /// The bytes that could not be used.
    pub fn input(&self) -> (r: &[u8])
        ensures
            r@ == self@,
    {
        self.input.as_slice()
    }

    /// The text of the error.
    pub fn text(&self) -> (r: String)
        ensures
            r@ == bad_path_text(self@),
    {
        let mut s = "could not use ".to_owned();
        s.append(debug_str(show_bytes(self.input.as_slice()).as_str()).as_str());
        s.append(" as redo path");
        s
    }

    /// The error as one of the library's.
    pub fn into_error(self) -> (r: RedoError)
        ensures
            r@ == bad_path(self@),
    {
        let cause = RedoError::new(self.text().as_str());
        let e = RedoError::wrap(cause, self.text().as_str());
        e.with_kind(RedoErrorKind::InvalidTarget(self.input))
    }
}

fn copy_vec(v: &Vec<u8>) -> (r: Vec<u8>)
    ensures
        r@ == v@,
{
    copy_bytes(v.as_slice())
}

impl RedoPath {
    #[verifier::type_invariant]
    spec fn inv(self) -> bool {
        is_redo_path(self.bytes@)
    }

    /// Takes UTF-8 text as a `RedoPath`, unless it contains a nul or a newline.
    pub fn from_str(s: &str) -> (r: Result<RedoPath, RedoPathError>)
        ensures
            match r {
                Ok(p) => is_redo_path(s.spec_bytes()) && p@ == s.spec_bytes(),
                Err(e) => !is_redo_path(s.spec_bytes()) && e@ == s.spec_bytes(),
            },
    {
        proof {
            encode_utf8_valid_utf8(s@);
        }
        let b = s.as_bytes();
        if RedoPath::validate(b) {
            Ok(RedoPath { bytes: copy_bytes(b) })
        } else {
            Err(RedoPathError { input: copy_bytes(b) })
        }
    }

    /// Whether bytes are free of nul and newline.
    fn validate(b: &[u8]) -> (r: bool)
        ensures
            r == (!b@.contains(0u8) && !b@.contains(0x0au8)),
    {
        let mut i: usize = 0;
        while i < b.len()
            invariant
                i <= b.len(),
                forall|j: int| 0 <= j < i ==> b@[j] != 0 && b@[j] != 0x0a,
            decreases b.len() - i,
        {
            if b[i] == 0 || b[i] == 0x0a {
                assert(b@.contains(b@[i as int]));
                return false;
            }
            i = i + 1;
        }
        true
    }

    /// Takes the bytes of a file name as a `RedoPath`, unless they contain a nul or a newline or
    /// are not valid UTF-8.
    pub fn from_os_str(s: &[u8]) -> (r: Result<RedoPath, RedoPathError>)
        ensures
            match r {
                Ok(p) => is_redo_path(s@) && p@ == s@,
                Err(e) => !is_redo_path(s@) && e@ == s@,
            },
    {
        match utf8_text(s) {
            Ok(_) => if RedoPath::validate(s) {
                Ok(RedoPath { bytes: copy_bytes(s) })
            } else {
                Err(RedoPathError { input: copy_bytes(s) })
            },
            Err(_) => Err(RedoPathError { input: copy_bytes(s) }),
        }
    }

    /// Takes text that is known to be free of nul and newline as a `RedoPath`.
    pub fn from_str_unchecked(s: &str) -> (r: RedoPath)
        requires
            is_redo_path(s.spec_bytes()),
        ensures
            r@ == s.spec_bytes(),
    {
        RedoPath { bytes: copy_bytes(s.as_bytes()) }
    }

    /// Takes bytes that are known to be good as a `RedoPath`.
    pub fn from_os_str_unchecked(s: &[u8]) -> (r: RedoPath)
        requires
            is_redo_path(s@),
        ensures
            r@ == s@,
    {
        RedoPath { bytes: copy_bytes(s) }
    }

    /// Reports whether the `RedoPath` is empty.
    pub fn is_empty(&self) -> (r: bool)
        ensures
            r == (self@.len() == 0),
    {
        self.bytes.len() == 0
    }

    /// Yields the underlying bytes.
    pub fn as_os_str(&self) -> (r: &[u8])
        ensures
            r@ == self@,
            is_redo_path(r@),
    {
        proof {
            use_type_invariant(self);
        }
        self.bytes.as_slice()
    }

    /// Yields the underlying bytes as a path.
    pub fn as_path(&self) -> (r: &[u8])
        ensures
            r@ == self@,
            is_redo_path(r@),
    {
        self.as_os_str()
    }

    /// Yields the path as text.
    pub fn as_str(&self) -> (r: String)
        ensures
            r@ == decode_utf8(self@),
            r@ == decode_utf8(self@) && encode_utf8(r@) == self@,
    {
        proof {
            use_type_invariant(self);
            decode_utf8_encode_utf8(self@);
        }
        utf8_text(self.bytes.as_slice()).unwrap()
    }

    /// Creates a C-compatible string: the bytes of the path, which hold no nul, and one nul.
    pub fn to_c_string(&self) -> (r: Vec<u8>)
        ensures
            r@ == self@.push(0u8),
            !self@.contains(0u8),
    {
        proof {
            use_type_invariant(self);
        }
        let mut v = copy_vec(&self.bytes);
        v.push(0);
        v
    }

    /// Copies the path into an owned `RedoPathBuf`.
    pub fn to_redo_path_buf(&self) -> (r: RedoPathBuf)
        ensures
            r@ == self@,
    {
        proof {
            use_type_invariant(self);
        }
        RedoPathBuf { path: RedoPath { bytes: copy_vec(&self.bytes) } }
    }

    /// Creates an owned [`RedoPathBuf`] with `path` adjoined to `self`.
    pub fn join(&self, path: &RedoPath) -> (r: RedoPathBuf)
        ensures
            r@ == pushed(self@, path@),
    {
        proof {
            use_type_invariant(self);
            use_type_invariant(path);
            lemma_redo_path_pushed(self@, path@);
        }
        RedoPathBuf { path: RedoPath { bytes: join_path(self.bytes.as_slice(), path.bytes.as_slice()) } }
    }

    /// Returns the `RedoPath` without its final component, if there is one.
    pub fn parent(&self) -> (r: Option<RedoPathBuf>)
        ensures
            (match r {
                Some(d) => Some(d@),
                None => None,
            }) == parent_of(self@),
    {
        proof {
            use_type_invariant(self);
            lemma_redo_path_parts(self@);
        }
        match parent(self.bytes.as_slice()) {
            Some(d) => Some(RedoPathBuf { path: RedoPath { bytes: copy_bytes(d) } }),
            None => None,
        }
    }

    /// Returns the final component of the `RedoPath`, if there is one.
    pub fn file_name(&self) -> (r: Option<RedoPathBuf>)
        ensures
            (match r {
                Some(d) => Some(d@),
                None => None,
            }) == file_name_of(self@),
    {
        proof {
            use_type_invariant(self);
            lemma_redo_path_parts(self@);
        }
        match file_name(self.bytes.as_slice()) {
            Some(d) => Some(RedoPathBuf { path: RedoPath { bytes: copy_bytes(d) } }),
            None => None,
        }
    }

    /// Return the shortest path name equivalent to path by purely lexical
    /// processing.
    ///
    /// See [`normpath`] for details.
    pub fn normpath(&self) -> (r: RedoPathBuf)
        ensures
            r@ == normalized(self@),
    {
        proof {
            use_type_invariant(self);
            law_redo_path_normalized(self@);
        }
        let bytes = match normpath(self.bytes.as_slice()) {
            Cow::Borrowed(b) => copy_bytes(b),
            Cow::Owned(v) => v,
        };
        RedoPathBuf { path: RedoPath { bytes } }
    }
}

impl RedoPathBuf {
    /// Constructs a new empty `RedoPathBuf`.
    pub fn new() -> (r: RedoPathBuf)
        ensures
            r@ == Seq::<u8>::empty(),
    {
        RedoPathBuf { path: RedoPath { bytes: Vec::new() } }
    }

    /// Takes text that is known to be free of nul and newline as a `RedoPathBuf`.
    pub fn from_string_unchecked(s: String) -> (r: RedoPathBuf)
        requires
            is_redo_path(encode_utf8(s@)),
        ensures
            r@ == encode_utf8(s@),
    {
        RedoPathBuf { path: RedoPath { bytes: copy_bytes(s.as_str().as_bytes()) } }
    }

    /// Takes bytes that are known to be good as a `RedoPathBuf`, without copying them.
    pub fn from_os_string_unchecked(s: Vec<u8>) -> (r: RedoPathBuf)
        requires
            is_redo_path(s@),
        ensures
            r@ == s@,
    {
        RedoPathBuf { path: RedoPath { bytes: s } }
    }

    /// Takes bytes as a `RedoPathBuf`, unless they contain a nul or a newline or are not
    /// valid UTF-8.
    pub fn try_from(s: Vec<u8>) -> (r: Result<RedoPathBuf, RedoPathError>)
        ensures
            match r {
                Ok(p) => is_redo_path(s@) && p@ == s@,
                Err(e) => !is_redo_path(s@) && e@ == s@,
            },
    {
        match utf8_text(s.as_slice()) {
            Ok(_) => if RedoPath::validate(s.as_slice()) {
                Ok(RedoPathBuf { path: RedoPath { bytes: s } })
            } else {
                Err(RedoPathError { input: s })
            },
            Err(_) => Err(RedoPathError { input: s }),
        }
    }

    /// Coerces to a [`RedoPath`].
    pub fn as_redo_path(&self) -> (r: &RedoPath)
        ensures
            r@ == self@,
    {
        &self.path
    }

    /// Converts the `RedoPathBuf` into its bytes.
    pub fn into_os_string(self) -> (r: Vec<u8>)
        ensures
            r@ == self@,
            is_redo_path(r@),
    {
        proof {
            use_type_invariant(&self.path);
        }
        copy_vec(&self.path.bytes)
    }

    /// Converts the `RedoPathBuf` into the bytes of a path.
    pub fn into_path_buf(self) -> (r: Vec<u8>)
        ensures
            r@ == self@,
            is_redo_path(r@),
    {
        self.into_os_string()
    }

    /// Converts the `RedoPathBuf` into a [`String`].
    pub fn into_string(self) -> (r: String)
        ensures
            r@ == decode_utf8(self@) && encode_utf8(r@) == self@,
    {
        self.path.as_str()
    }
}

impl Default for RedoPathBuf {
    fn default() -> (r: RedoPathBuf)
        ensures
            r@ == Seq::<u8>::empty(),
    {
        RedoPathBuf::new()
    }
}

proof fn lemma_contains_concat(a: Seq<u8>, b: Seq<u8>, x: u8)
    ensures
        (a + b).contains(x) <==> a.contains(x) || b.contains(x),
{
    if a.contains(x) {
        let i = choose|i: int| 0 <= i < a.len() && a[i] == x;
        assert((a + b)[i] == x);
    }
    if b.contains(x) {
        let i = choose|i: int| 0 <= i < b.len() && b[i] == x;
        assert((a + b)[a.len() + i] == x);
    }
}

/// Two usable paths put one behind the other are usable.
proof fn lemma_redo_path_concat(a: Seq<u8>, b: Seq<u8>)
    requires
        is_redo_path(a),
        is_redo_path(b),
    ensures
        is_redo_path(a + b),
{
    valid_utf8_concat(a, b);
    lemma_contains_concat(a, b, 0);
    lemma_contains_concat(a, b, 0x0a);
}

proof fn lemma_redo_path_ascii(c: u8)
    requires
        c == SEP || c == DOT,
    ensures
        is_redo_path(seq![c]),
{
    let s = seq![c];
    utf8_byte_ranges_bitwise(c);
    assert(c & 0x80 == 0);
    assert(is_leading_byte_width_1(s[0]));
    assert(valid_first_scalar(s));
    assert(pop_first_scalar(s) =~= seq![]);
    assert(valid_utf8(pop_first_scalar(s)));
    assert(valid_utf8(s));
}

proof fn lemma_redo_path_pushed(base: Seq<u8>, path: Seq<u8>)
    requires
        is_redo_path(base),
        is_redo_path(path),
    ensures
        is_redo_path(pushed(base, path)),
{
    lemma_redo_path_ascii(SEP);
    lemma_redo_path_concat(base, seq![SEP]);
    assert(base + seq![SEP] =~= base.push(SEP));
    lemma_redo_path_concat(base.push(SEP), path);
    lemma_redo_path_concat(base, path);
}

/// What stands before a separator, and what stands behind it, is usable on its own.
proof fn lemma_redo_path_cut(p: Seq<u8>, i: int)
    requires
        is_redo_path(p),
        0 <= i < p.len(),
        p[i] == SEP,
    ensures
        is_redo_path(p.take(i)),
        is_redo_path(p.skip(i)),
        is_redo_path(p.skip(i + 1)),
{
    utf8_byte_ranges_bitwise(p[i]);
    assert(p[i] & 0x80 == 0);
    assert(p[i] & 0xc0 != 0x80);
    assert(!is_continuation_byte(p[i]));
    is_char_boundary_iff_not_is_continuation_byte(p, i);
    valid_utf8_split(p, i);
    assert(p.take(i) =~= p.subrange(0, i));
    assert(p.skip(i) =~= p.subrange(i, p.len() as int));
    let s = p.skip(i);
    assert(s[0] == SEP);
    assert(is_leading_byte_width_1(s[0]));
    assert(length_of_first_scalar(s) == 1);
    assert(pop_first_scalar(s) =~= p.skip(i + 1));
    lemma_contains_part(p, 0, i);
    lemma_contains_part(p, i, p.len() as int);
    lemma_contains_part(p, i + 1, p.len() as int);
    assert(p.skip(i + 1) =~= p.subrange(i + 1, p.len() as int));
}

proof fn lemma_contains_part(p: Seq<u8>, from: int, to: int)
    requires
        0 <= from <= to <= p.len(),
    ensures
        forall|x: u8| p.subrange(from, to).contains(x) ==> p.contains(x),
{
    let q = p.subrange(from, to);
    assert forall|x: u8| q.contains(x) implies p.contains(x) by {
        let j = choose|j: int| 0 <= j < q.len() && q[j] == x;
        assert(p[from + j] == x);
    }
}

/// The pieces of a usable path are usable.
proof fn lemma_redo_path_split(p: Seq<u8>)
    requires
        is_redo_path(p),
    ensures
        forall|i: int| 0 <= i < split(p, SEP).len() ==> is_redo_path(#[trigger] split(p, SEP)[i]),
    decreases p.len(),
{
    lemma_piece_bounds(p, 0);
    let n = piece_len(p, 0);
    let a = p.take(n);
    assert(!a.contains(SEP));
    lemma_split_single(a, SEP);
    if n == p.len() {
        assert(p =~= a);
    } else {
        let b = p.skip(n + 1);
        lemma_redo_path_cut(p, n);
        assert(p =~= a.push(SEP) + b);
        lemma_split_around(a, b, SEP);
        lemma_redo_path_split(b);
        assert forall|i: int| 0 <= i < split(p, SEP).len() implies is_redo_path(
            #[trigger] split(p, SEP)[i],
        ) by {
            if i > 0 {
                assert(split(p, SEP)[i] == split(b, SEP)[i - 1]);
            }
        }
    }
}

proof fn lemma_redo_path_filter(es: Seq<Seq<u8>>)
    requires
        forall|i: int| 0 <= i < es.len() ==> is_redo_path(#[trigger] es[i]),
    ensures
        forall|i: int| 0 <= i < only_names(es).len() ==> is_redo_path(#[trigger] only_names(es)[i]),
    decreases es.len(),
{
    reveal(Seq::filter);
    if es.len() > 0 {
        let init = es.drop_last();
        assert forall|i: int| 0 <= i < init.len() implies is_redo_path(#[trigger] init[i]) by {
            assert(init[i] == es[i]);
        }
        lemma_redo_path_filter(init);
        assert(is_redo_path(es[es.len() - 1]));
        assert(only_names(es) == only_names(init) || only_names(es) == only_names(init).push(es.last()));
    }
}

proof fn lemma_redo_path_resolve(rooted: bool, dir: Seq<Seq<u8>>, es: Seq<Seq<u8>>)
    requires
        forall|i: int| 0 <= i < dir.len() ==> is_redo_path(#[trigger] dir[i]),
        forall|i: int| 0 <= i < es.len() ==> is_redo_path(#[trigger] es[i]),
    ensures
        forall|i: int|
            0 <= i < resolve(rooted, dir, es).len() ==> is_redo_path(#[trigger] resolve(rooted, dir, es)[i]),
    decreases es.len(),
{
    if es.len() > 0 {
        let next = step(rooted, dir, es[0]);
        let rest = es.skip(1);
        assert forall|i: int| 0 <= i < next.len() implies is_redo_path(#[trigger] next[i]) by {
            if i < dir.len() {
                assert(next[i] == dir[i]);
            } else {
                assert(next[i] == es[0]);
            }
        }
        assert forall|i: int| 0 <= i < rest.len() implies is_redo_path(#[trigger] rest[i]) by {
            assert(rest[i] == es[i + 1]);
        }
        lemma_redo_path_resolve(rooted, next, rest);
        assert(resolve(rooted, dir, es) == resolve(rooted, next, rest));
    }
}

proof fn lemma_redo_path_join(dir: Seq<Seq<u8>>)
    requires
        forall|i: int| 0 <= i < dir.len() ==> is_redo_path(#[trigger] dir[i]),
    ensures
        is_redo_path(join(dir, SEP)),
    decreases dir.len(),
{
    if dir.len() == 0 {
        assert(valid_utf8(Seq::<u8>::empty()));
    } else if dir.len() == 1 {
        assert(is_redo_path(dir[0]));
    } else {
        let init = dir.drop_last();
        assert forall|i: int| 0 <= i < init.len() implies is_redo_path(#[trigger] init[i]) by {
            assert(init[i] == dir[i]);
        }
        lemma_redo_path_join(init);
        lemma_redo_path_ascii(SEP);
        let j = join(init, SEP);
        lemma_redo_path_concat(j, seq![SEP]);
        assert(j + seq![SEP] =~= j.push(SEP));
        assert(is_redo_path(dir[dir.len() - 1]));
        lemma_redo_path_concat(j.push(SEP), dir.last());
    }
}

/// Normalizing a usable path gives a usable path.
pub proof fn law_redo_path_normalized(p: Seq<u8>)
    requires
        is_redo_path(p),
    ensures
        is_redo_path(normalized(p)),
{
    lemma_redo_path_split(p);
    lemma_redo_path_filter(split(p, SEP));
    lemma_redo_path_resolve(is_rooted(p), seq![], names(p));
    lemma_redo_path_join(resolved(p));
    lemma_redo_path_ascii(SEP);
    lemma_redo_path_ascii(DOT);
    let body = join(resolved(p), SEP);
    lemma_redo_path_concat(seq![SEP], body);
    assert(seq![] + body =~= body);
}

/// The beginning of a usable path, up to a separator, is usable.
proof fn lemma_redo_path_take(p: Seq<u8>, i: int)
    requires
        is_redo_path(p),
        0 <= i <= p.len(),
        i < p.len() ==> p[i] == SEP,
    ensures
        is_redo_path(p.take(i)),
{
    if i < p.len() {
        lemma_redo_path_cut(p, i);
    } else {
        assert(p.take(i) =~= p);
    }
}

/// Every component but the root starts behind a separator or at the beginning, and ends before a
/// separator or at the end.
proof fn lemma_ranges_from_edges(p: Seq<u8>, at: int)
    requires
        0 <= at,
        at == 0 || at >= p.len() || p[at - 1] == SEP || p[at] == SEP,
    ensures
        forall|i: int| #![trigger ranges_from(p, at)[i]]
            0 <= i < ranges_from(p, at).len() ==> {
                let r = ranges_from(p, at)[i];
                &&& 0 <= r.0 < r.1 <= p.len()
                &&& r.0 > 0 ==> p[r.0 - 1] == SEP
                &&& r.1 < p.len() ==> p[r.1] == SEP
            },
    decreases p.len() - at,
{
    if at < p.len() {
        if p[at] == SEP {
            lemma_ranges_from_edges(p, at + 1);
            assert(ranges_from(p, at) == ranges_from(p, at + 1));
        } else {
            lemma_piece_bounds(p, at);
            let end = at + piece_len(p, at);
            lemma_ranges_from_edges(p, end);
            let rs = ranges_from(p, at);
            let rest = ranges_from(p, end);
            assert(rs == rest || rs == seq![(at, end)] + rest);
            assert forall|i: int| #![trigger rs[i]] 0 <= i < rs.len() implies {
                let r = rs[i];
                &&& 0 <= r.0 < r.1 <= p.len()
                &&& r.0 > 0 ==> p[r.0 - 1] == SEP
                &&& r.1 < p.len() ==> p[r.1] == SEP
            } by {
                if rs == seq![(at, end)] + rest && i > 0 {
                    assert(rs[i] == rest[i - 1]);
                } else if rs == rest {
                    assert(rs[i] == rest[i]);
                }
            }
        }
    }
}

proof fn lemma_redo_path_parts(p: Seq<u8>)
    requires
        is_redo_path(p),
    ensures
        parent_of(p) matches Some(d) ==> is_redo_path(d),
        file_name_of(p) matches Some(d) ==> is_redo_path(d),
{
    let rs = ranges(p);
    let n = rs.len() as int;
    lemma_ranges(p);
    let start: int = if is_rooted(p) {
        1
    } else {
        0
    };
    lemma_ranges_from_edges(p, start);
    assert(valid_utf8(Seq::<u8>::empty()));
    if n > start {
        let r = rs[n - 1];
        assert(r == ranges_from(p, start)[n - 1 - start]);
        lemma_redo_path_take(p, r.1);
        let q = p.take(r.1);
        if r.0 > 0 {
            lemma_redo_path_cut(q, r.0 - 1);
            assert(q.skip(r.0) =~= component(p, n - 1));
        } else {
            assert(q =~= component(p, n - 1));
        }
        if n > 1 {
            let e = rs[n - 2];
            if n - 2 < start {
                assert(e == (0int, 1int));
                lemma_redo_path_ascii(SEP);
                assert(p.take(1) =~= seq![SEP]);
            } else {
                assert(e == ranges_from(p, start)[n - 2 - start]);
                lemma_redo_path_take(p, e.1);
            }
        }
    }
}

/// Text can be a path unless it holds a nul or a line feed; bytes that are no text cannot.
pub proof fn law_what_can_be_a_path(bytes: Seq<u8>, i: int)
    ensures
        !valid_utf8(bytes) ==> !is_redo_path(bytes),
        0 <= i < bytes.len() && (bytes[i] == 0 || bytes[i] == 0x0a) ==> !is_redo_path(bytes),
        valid_utf8(bytes) && (forall|j: int| 0 <= j < bytes.len() ==> #[trigger] bytes[j] != 0 && bytes[j] != 0x0a)
            ==> is_redo_path(bytes),
        bad_path(bytes).first_kind() == KindView::InvalidTarget(bytes),
{
    if 0 <= i < bytes.len() {
        assert(bytes.contains(bytes[i]));
    }
}

} // verus!
