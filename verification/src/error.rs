//! The error type of the library.

use vstd::prelude::*;
use vstd::string::*;
use crate::redopath::RedoPathBuf;

verus! {

/// What `{:?}` makes of a string: the string in double quotes, with escapes where they are needed.
pub uninterp spec fn quoted(s: Seq<char>) -> Seq<char>;

/// Formats a string with `{:?}`, that is with `str`'s implementation of `Debug`. The result is
/// a function of the string alone.
#[verifier::external_body]
pub(crate) fn debug_str(s: &str) -> (r: String)
    ensures
        r@ == quoted(s@),
{
    format!("{:?}", s)
}

/// What a kind of error says.
pub enum KindView {
    Generic,
    FailedInAnotherThread { target: Seq<u8> },
    InvalidTarget(Seq<u8>),
    CyclicDependency,
    FileNotFound,
    ImmediateExit(i32),
}

/// What an error says, and what the error says that it wraps.
pub struct ErrorView {
    pub kind: KindView,
    pub msg: Seq<char>,
    pub cause: Option<Box<ErrorView>>,
}

impl ErrorView {
    /// The first kind along the chain of causes that says more than that there was an error.
    pub open spec fn first_kind(self) -> KindView
        decreases self,
    {
        if !(self.kind is Generic) {
            self.kind
        } else {
            match self.cause {
                Some(c) => c.first_kind(),
                None => KindView::Generic,
            }
        }
    }

    /// The texts of the error and its causes, with a colon between.
    pub open spec fn chain(self) -> Seq<char>
        decreases self,
    {
        match self.cause {
            None => self.msg,
            Some(c) => self.msg + ": "@ + c.chain(),
        }
    }
}

/// An error of the given kind that wraps none.
pub open spec fn plain(kind: KindView, msg: Seq<char>) -> ErrorView {
    ErrorView { kind, msg, cause: None }
}

/// An error of no particular kind that wraps none.
pub open spec fn generic(msg: Seq<char>) -> ErrorView {
    plain(KindView::Generic, msg)
}

/// An error of no particular kind that wraps another.
pub open spec fn wrapped(cause: ErrorView, msg: Seq<char>) -> ErrorView {
    ErrorView { kind: KindView::Generic, msg, cause: Some(Box::new(cause)) }
}

/// An error that takes another one's text as its own.
pub open spec fn opaque(text: Seq<char>) -> ErrorView {
    generic("redo: "@ + text)
}

/// The text of a kind of error.
pub open spec fn kind_text(kind: KindView) -> Seq<char> {
    match kind {
        KindView::Generic => "error"@,
        KindView::FailedInAnotherThread { target } => quoted(vstd::utf8::decode_utf8(target))
            + ": failed in another thread"@,
        KindView::InvalidTarget(target) => "invalid target "@ + quoted(crate::redopath::shown(target)),
        KindView::CyclicDependency => "cyclic dependency detected"@,
        KindView::FileNotFound => "file not found"@,
        KindView::ImmediateExit(code) => "exit with code "@ + crate::text::decimal_int(code as int),
    }
}

/// An error that says no more than its kind.
pub open spec fn of_kind(kind: KindView) -> ErrorView {
    plain(kind, kind_text(kind))
}

/// Classification of a [`RedoError`].
#[derive(Clone, Debug)]
#[non_exhaustive]
pub enum RedoErrorKind {
    Generic,
    FailedInAnotherThread { target: RedoPathBuf },
    InvalidTarget(Vec<u8>),
    CyclicDependency,
    FileNotFound,
    ImmediateExit(i32),
}

impl View for RedoErrorKind {
    type V = KindView;

    open spec fn view(&self) -> KindView {
        match self {
            RedoErrorKind::Generic => KindView::Generic,
            RedoErrorKind::FailedInAnotherThread { target } => KindView::FailedInAnotherThread {
                target: target@,
            },
            RedoErrorKind::InvalidTarget(t) => KindView::InvalidTarget(t@),
            RedoErrorKind::CyclicDependency => KindView::CyclicDependency,
            RedoErrorKind::FileNotFound => KindView::FileNotFound,
            RedoErrorKind::ImmediateExit(code) => KindView::ImmediateExit(*code),
        }
    }
}

/// The primary error type for the `redo` crate.
#[derive(Debug)]
pub struct RedoError {
    pub(crate) kind: RedoErrorKind,
    pub(crate) msg: String,
    pub(crate) cause: Option<Box<RedoError>>,
}

impl View for RedoError {
    type V = ErrorView;

    closed spec fn view(&self) -> ErrorView {
        error_view(*self)
    }
}

/// What an error and its causes say.
spec fn error_view(e: RedoError) -> ErrorView
    decreases e,
{
    ErrorView {
        kind: e.kind@,
        msg: e.msg@,
        cause: match e.cause {
            Some(c) => Some(Box::new(error_view(*c))),
            None => None,
        },
    }
}

impl RedoError {
    /// The texts of the error and its causes, with a colon between.
    pub fn chain_text(&self) -> (r: String)
        ensures
            r@ == self@.chain(),
        decreases self,
    {
        let mut s = self.msg.clone();
        match &self.cause {
            None => {},
            Some(c) => {
                s.append(": ");
                s.append((**c).chain_text().as_str());
            },
        }
        s
    }

    /// Returns a generic error with the given message.
    pub fn new(msg: &str) -> (r: RedoError)
        ensures
            r@ == generic(msg@),
    {
        RedoError { kind: RedoErrorKind::Generic, msg: msg.to_owned(), cause: None }
    }

    /// Returns an error that makes the process end at once with the given exit code.
    pub fn immediate_exit(code: i32, msg: &str) -> (r: RedoError)
        ensures
            r@ == plain(KindView::ImmediateExit(code), msg@),
    {
        RedoError { kind: RedoErrorKind::ImmediateExit(code), msg: msg.to_owned(), cause: None }
    }

    /// Returns a generic error that contains the text of another error as its message.
    /// The error is not presented on the source chain.
    pub fn opaque_error(text: &str) -> (r: RedoError)
        ensures
            r@ == opaque(text@),
    {
        let mut msg = "redo: ".to_owned();
        msg.append(text);
        RedoError { kind: RedoErrorKind::Generic, msg, cause: None }
    }

    /// Returns a `RedoError` that wraps an underlying error.
    pub fn wrap(cause: RedoError, msg: &str) -> (r: RedoError)
        ensures
            r@ == wrapped(cause@, msg@),
    {
        RedoError { kind: RedoErrorKind::Generic, msg: msg.to_owned(), cause: Some(Box::new(cause)) }
    }

    /// How the error is classified.
    pub fn kind(&self) -> (r: &RedoErrorKind)
        ensures
            r@ == self@.kind,
    {
        &self.kind
    }

    /// The text of the error.
    pub fn message(&self) -> (r: &str)
        ensures
            r@ == self@.msg,
    {
        self.msg.as_str()
    }

    /// The error that this one wraps, if any.
    pub fn cause(&self) -> (r: Option<&RedoError>)
        ensures
            match r {
                Some(c) => self@.cause == Some(Box::new(c@)),
                None => self@.cause is None,
            },
    {
        match &self.cause {
            Some(c) => Some(&**c),
            None => None,
        }
    }

    /// The same error under another kind.
    pub fn with_kind(self, kind: RedoErrorKind) -> (r: RedoError)
        ensures
            r@ == (ErrorView { kind: kind@, ..self@ }),
    {
        RedoError { kind, msg: self.msg, cause: self.cause }
    }

    /// An error that says no more than its kind.
    pub fn from_kind(kind: RedoErrorKind) -> (r: RedoError)
        ensures
            r@ == of_kind(kind@),
    {
        let msg = kind.text();
        RedoError { kind, msg, cause: None }
    }
}

impl RedoErrorKind {
    /// Returns the first non-[`RedoErrorKind::Generic`] error kind in the error chain or
    /// [`RedoErrorKind::Generic`]
    pub fn of(e: &RedoError) -> (r: &RedoErrorKind)
        ensures
            r@ == e@.first_kind(),
        decreases e,
    {
        match &e.kind {
            RedoErrorKind::Generic => match &e.cause {
                Some(c) => RedoErrorKind::of(&**c),
                None => &e.kind,
            },
            _ => &e.kind,
        }
    }

    /// The text of the kind.
    pub fn text(&self) -> (r: String)
        ensures
            r@ == kind_text(self@),
    {
        match self {
            RedoErrorKind::Generic => "error".to_owned(),
            RedoErrorKind::FailedInAnotherThread { target } => {
                let mut s = debug_str(target.as_redo_path().as_str().as_str());
                s.append(": failed in another thread");
                s
            },
            RedoErrorKind::InvalidTarget(t) => {
                let mut s = "invalid target ".to_owned();
                s.append(debug_str(crate::redopath::show_bytes(t.as_slice()).as_str()).as_str());
                s
            },
            RedoErrorKind::CyclicDependency => "cyclic dependency detected".to_owned(),
            RedoErrorKind::FileNotFound => "file not found".to_owned(),
            RedoErrorKind::ImmediateExit(code) => {
                let mut s = "exit with code ".to_owned();
                s.append(crate::text::dec_i64(*code as i64).as_str());
                s
            },
        }
    }
}

impl Default for RedoErrorKind {
    fn default() -> (r: RedoErrorKind)
        ensures
            r@ == KindView::Generic,
    {
        RedoErrorKind::Generic
    }
}

/// The kind of an error is found along its causes: an error of no particular kind passes on
/// the kind of what it wraps, any other keeps its own.
pub proof fn law_kind_of_chain(e: ErrorView)
    ensures
        !(e.kind is Generic) ==> e.first_kind() == e.kind,
        e.kind is Generic && e.cause is None ==> e.first_kind() is Generic,
        e.kind is Generic && e.cause is Some ==> e.first_kind() == e.cause.unwrap().first_kind(),
{
}

/// What an error says in full is what it says itself, followed by what its cause says in full.
pub proof fn law_chain_of_texts(e: ErrorView)
    ensures
        e.cause is None ==> e.chain() == e.msg,
        e.cause is Some ==> e.chain() == e.msg + ": "@ + e.cause.unwrap().chain(),
{
}

/// An error that wraps another says what it says itself and then what the other says, and is of the other's kind. One that stands for an
/// error from outside says where it comes from. None of them is of any particular kind by itself.
pub proof fn law_wrapped_errors(e: ErrorView, msg: Seq<char>)
    ensures
        wrapped(e, msg).chain() == msg + ": "@ + e.chain(),
        wrapped(e, msg).first_kind() == e.first_kind(),
        generic(msg).chain() == msg,
        generic(msg).first_kind() is Generic,
        opaque(msg).chain() == "redo: "@ + msg,
        opaque(msg).first_kind() is Generic,
        !(e.kind is Generic) ==> plain(e.kind, msg).first_kind() == e.kind && plain(e.kind, msg).chain() == msg,
{
}

/// What an error says that says no more than its kind.
pub proof fn law_texts_of_kinds(target: Seq<u8>, code: i32)
    ensures
        of_kind(KindView::Generic).chain() == "error"@,
        of_kind(KindView::CyclicDependency).chain() == "cyclic dependency detected"@,
        of_kind(KindView::FileNotFound).chain() == "file not found"@,
        of_kind(KindView::InvalidTarget(target)).chain() == "invalid target "@ + quoted(crate::redopath::shown(target)),
        of_kind(KindView::FailedInAnotherThread { target }).chain() == quoted(vstd::utf8::decode_utf8(target))
            + ": failed in another thread"@,
        of_kind(KindView::ImmediateExit(code)).chain() == "exit with code "@ + crate::text::decimal_int(code as int),
        of_kind(KindView::CyclicDependency).first_kind() is CyclicDependency,
        of_kind(KindView::FileNotFound).first_kind() is FileNotFound,
        of_kind(KindView::InvalidTarget(target)).first_kind() == KindView::InvalidTarget(target),
{
}

} // verus!
