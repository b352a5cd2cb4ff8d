//! Settings that a process takes from its environment variables.

use vstd::prelude::*;
use vstd::string::*;
use vstd::utf8::*;
use crate::redopath::utf8_text;
use crate::text::{
    bytes_eq, copy_bytes, decimal_int, law_decimal_round_trip, parse_i32, parsed_within, to_chars,
};

verus! {

/// A setting that can be on, off, or left to be found out.
#[derive(Clone, Copy, Debug, Eq, PartialEq, Structural)]
pub enum OptionalBool {
    Off,
    Auto,
    On,
}

impl OptionalBool {
    /// The setting that a number stands for.
    pub open spec fn of_code(code: int) -> OptionalBool {
        if code == 0 {
            OptionalBool::Off
        } else if code == 1 {
            OptionalBool::Auto
        } else {
            OptionalBool::On
        }
    }

    /// Whether the setting is on, given what it is when it was left to be found out.
    pub open spec fn resolved(self, default: bool) -> bool {
        match self {
            OptionalBool::Off => false,
            OptionalBool::Auto => default,
            OptionalBool::On => true,
        }
    }

    /// The setting that a number stands for.
    pub fn from_code(code: i32) -> (r: OptionalBool)
        ensures
            r == OptionalBool::of_code(code as int),
    {
        if code == 0 {
            OptionalBool::Off
        } else if code == 1 {
            OptionalBool::Auto
        } else {
            OptionalBool::On
        }
    }

    /// The number that stands for the setting.
    pub fn code(self) -> (r: i32)
        ensures
            OptionalBool::of_code(r as int) == self,
            0 <= r <= 2,
    {
        match self {
            OptionalBool::Off => 0,
            OptionalBool::Auto => 1,
            OptionalBool::On => 2,
        }
    }

    /// Whether the setting is on, given what it is when it was left to be found out.
    pub fn unwrap_or(self, default: bool) -> (r: bool)
        ensures
            r == self.resolved(default),
    {
        match self {
            OptionalBool::Off => false,
            OptionalBool::Auto => default,
            OptionalBool::On => true,
        }
    }
}

/// An environment variable: its name and its value.
pub type Var = (Vec<u8>, Vec<u8>);

/// The contents of variables.
pub open spec fn var_views(vars: Seq<Var>) -> Seq<(Seq<u8>, Seq<u8>)> {
    vars.map_values(|v: Var| (v.0@, v.1@))
}

/// The value of a variable: that of the first entry with its name.
pub open spec fn lookup(vars: Seq<(Seq<u8>, Seq<u8>)>, key: Seq<u8>) -> Option<Seq<u8>>
    decreases vars.len(),
{
    if vars.len() == 0 {
        None
    } else if vars[0].0 == key {
        Some(vars[0].1)
    } else {
        lookup(vars.skip(1), key)
    }
}

/// The value of a variable, empty if it is not set.
pub open spec fn value_or_empty(vars: Seq<(Seq<u8>, Seq<u8>)>, key: Seq<u8>) -> Seq<u8> {
    match lookup(vars, key) {
        Some(v) => v,
        None => seq![],
    }
}

/// The number in a variable, or `default` if it is not set or holds no 32-bit number.
pub open spec fn int_value(vars: Seq<(Seq<u8>, Seq<u8>)>, key: Seq<u8>, default: int) -> int {
    match lookup(vars, key) {
        Some(v) if valid_utf8(v) => match parsed_within(decode_utf8(v), i32::MIN as int, i32::MAX as int) {
            Some(n) => n,
            None => default,
        },
        _ => default,
    }
}

/// Whether a variable is set and not empty.
pub open spec fn bool_value(vars: Seq<(Seq<u8>, Seq<u8>)>, key: Seq<u8>) -> bool {
    value_or_empty(vars, key).len() > 0
}

/// The value of a variable.
fn get_os<'a>(vars: &'a Vec<Var>, key: &str) -> (r: Option<&'a [u8]>)
    ensures
        (match r {
            Some(v) => Some(v@),
            None => None,
        }) == lookup(var_views(vars@), key.spec_bytes()),
{
    let k = key.as_bytes();
    let ghost all = var_views(vars@);
    let mut i: usize = 0;
    assert(all.skip(0) =~= all);
    while i < vars.len()
        invariant
            i <= vars.len(),
            all == var_views(vars@),
            k@ == key.spec_bytes(),
            lookup(all, k@) == lookup(all.skip(i as int), k@),
        decreases vars.len() - i,
    {
        assert(all.skip(i as int)[0] == (vars@[i as int].0@, vars@[i as int].1@));
        assert(all.skip(i as int).skip(1) =~= all.skip(i + 1));
        if bytes_eq(vars[i].0.as_slice(), k) {
            return Some(vars[i].1.as_slice());
        }
        i = i + 1;
    }
    None
}

/// A copy of the value of a variable.
pub fn get_os_copy(vars: &Vec<Var>, key: &str) -> (r: Option<Vec<u8>>)
    ensures
        (match r {
            Some(v) => Some(v@),
            None => None,
        }) == lookup(var_views(vars@), key.spec_bytes()),
{
    match get_os(vars, key) {
        Some(v) => Some(copy_bytes(v)),
        None => None,
    }
}

fn get_bytes(vars: &Vec<Var>, key: &str) -> (r: Vec<u8>)
    ensures
        r@ == value_or_empty(var_views(vars@), key.spec_bytes()),
{
    match get_os(vars, key) {
        Some(v) => copy_bytes(v),
        None => {
            let v: Vec<u8> = Vec::new();
            assert(v@ =~= seq![]);
            v
        },
    }
}

/// The number in a variable.
pub fn get_int(vars: &Vec<Var>, key: &str, default: i32) -> (r: i32)
    ensures
        r == int_value(var_views(vars@), key.spec_bytes(), default as int),
{
    match get_os(vars, key) {
        None => default,
        Some(v) => match utf8_text(v) {
            Err(_) => default,
            Ok(s) => {
                let c = to_chars(s.as_str());
                match parse_i32(c.as_slice()) {
                    Some(n) => n,
                    None => default,
                }
            },
        },
    }
}

/// Whether a variable is set and not empty.
pub fn get_bool(vars: &Vec<Var>, key: &str) -> (r: bool)
    ensures
        r == bool_value(var_views(vars@), key.spec_bytes()),
{
    match get_os(vars, key) {
        None => false,
        Some(v) => v.len() > 0,
    }
}

/// The settings of a process.
#[derive(Clone, Debug)]
#[non_exhaustive]
pub struct Env {
    pub is_toplevel: bool,
    pub base: Vec<u8>,
    pub pwd: Vec<u8>,
    pub target: Vec<u8>,
    pub depth: Vec<u8>,
    pub debug: i32,
    pub debug_locks: bool,
    pub debug_pids: bool,
    pub locks_broken: bool,
    pub verbose: i32,
    pub xtrace: i32,
    pub keep_going: bool,
    pub log: OptionalBool,
    pub log_inode: Vec<u8>,
    pub color: OptionalBool,
    pub pretty: OptionalBool,
    pub shuffle: bool,
    pub startdir: Vec<u8>,
    pub runid: Option<i64>,
    pub unlocked: bool,
    pub no_oob: bool,
}

/// The run that a number stands for: zero stands for none.
pub open spec fn run_of(code: int) -> Option<i64> {
    if code == 0 {
        None
    } else {
        Some(code as i64)
    }
}

impl Env {
    /// Whether these are the settings that the given variables ask for.
    pub open spec fn reads(&self, vars: Seq<(Seq<u8>, Seq<u8>)>) -> bool {
        &&& self.base@ == value_or_empty(vars, "REDO_BASE".spec_bytes())
        &&& self.pwd@ == value_or_empty(vars, "REDO_PWD".spec_bytes())
        &&& self.target@ == value_or_empty(vars, "REDO_TARGET".spec_bytes())
        &&& self.depth@ == value_or_empty(vars, "REDO_DEPTH".spec_bytes())
        &&& self.debug == int_value(vars, "REDO_DEBUG".spec_bytes(), 0)
        &&& self.debug_locks == bool_value(vars, "REDO_DEBUG_LOCKS".spec_bytes())
        &&& self.debug_pids == bool_value(vars, "REDO_DEBUG_PIDS".spec_bytes())
        &&& self.locks_broken == bool_value(vars, "REDO_LOCKS_BROKEN".spec_bytes())
        &&& self.verbose == int_value(vars, "REDO_VERBOSE".spec_bytes(), 0)
        &&& self.xtrace == int_value(vars, "REDO_XTRACE".spec_bytes(), 0)
        &&& self.keep_going == bool_value(vars, "REDO_KEEP_GOING".spec_bytes())
        &&& self.log == OptionalBool::of_code(int_value(vars, "REDO_LOG".spec_bytes(), 1))
        &&& self.log_inode@ == value_or_empty(vars, "REDO_LOG_INODE".spec_bytes())
        &&& self.color == OptionalBool::of_code(int_value(vars, "REDO_COLOR".spec_bytes(), 0))
        &&& self.pretty == OptionalBool::of_code(int_value(vars, "REDO_PRETTY".spec_bytes(), 0))
        &&& self.shuffle == bool_value(vars, "REDO_SHUFFLE".spec_bytes())
        &&& self.startdir@ == value_or_empty(vars, "REDO_STARTDIR".spec_bytes())
        &&& self.runid == run_of(int_value(vars, "REDO_RUNID".spec_bytes(), 0))
        &&& self.unlocked == bool_value(vars, "REDO_UNLOCKED".spec_bytes())
        &&& self.no_oob == bool_value(vars, "REDO_NO_OOB".spec_bytes())
    }

    /// Read environment (which must already be set) to get runtime settings.
    ///
    /// `REDO_UNLOCKED` and `REDO_NO_OOB` are not inheritable by subprocesses: see
    /// [`not_inherited`].
    pub fn inherit(vars: &Vec<Var>) -> (r: Env)
        ensures
            r.reads(var_views(vars@)),
            !r.is_toplevel,
    {
        Env {
            is_toplevel: false,
            base: get_bytes(vars, "REDO_BASE"),
            pwd: get_bytes(vars, "REDO_PWD"),
            target: get_bytes(vars, "REDO_TARGET"),
            depth: get_bytes(vars, "REDO_DEPTH"),
            debug: get_int(vars, "REDO_DEBUG", 0),
            debug_locks: get_bool(vars, "REDO_DEBUG_LOCKS"),
            debug_pids: get_bool(vars, "REDO_DEBUG_PIDS"),
            locks_broken: get_bool(vars, "REDO_LOCKS_BROKEN"),
            verbose: get_int(vars, "REDO_VERBOSE", 0),
            xtrace: get_int(vars, "REDO_XTRACE", 0),
            keep_going: get_bool(vars, "REDO_KEEP_GOING"),
            log: OptionalBool::from_code(get_int(vars, "REDO_LOG", 1)),
            log_inode: get_bytes(vars, "REDO_LOG_INODE"),
            color: OptionalBool::from_code(get_int(vars, "REDO_COLOR", 0)),
            pretty: OptionalBool::from_code(get_int(vars, "REDO_PRETTY", 0)),
            shuffle: get_bool(vars, "REDO_SHUFFLE"),
            startdir: get_bytes(vars, "REDO_STARTDIR"),
            runid: match get_int(vars, "REDO_RUNID", 0) {
                0 => None,
                x => Some(x as i64),
            },
            unlocked: get_bool(vars, "REDO_UNLOCKED"),
            no_oob: get_bool(vars, "REDO_NO_OOB"),
        }
    }

    /// Notes that file locks cannot be relied on.
    pub fn mark_locks_broken(&mut self)
        ensures
            *final(self) == (Env { locks_broken: true, ..*old(self) }),
    {
        self.locks_broken = true;
    }

    /// Sets the current run.
    pub fn fill_runid(&mut self, runid: i64)
        ensures
            *final(self) == (Env { runid: Some(runid), ..*old(self) }),
    {
        self.runid = Some(runid);
    }

    /// Sets the depth of messages, as that many spaces.
    pub fn set_depth(&mut self, n: usize)
        ensures
            final(self).depth@ == Seq::new(n as nat, |i: int| 0x20u8),
            *final(self) == (Env { depth: final(self).depth, ..*old(self) }),
    {
        let mut d: Vec<u8> = Vec::new();
        let mut i: usize = 0;
        while i < n
            invariant
                i <= n,
                d@ == Seq::new(i as nat, |i: int| 0x20u8),
            decreases n - i,
        {
            d.push(0x20);
            i = i + 1;
            assert(d@ =~= Seq::new(i as nat, |i: int| 0x20u8));
        }
        self.depth = d;
    }
}

/// The value of a variable that nobody has set.
pub const NOT_DEFINED: &'static str = "NOT_DEFINED";

/// Variables that subprocesses must not inherit, and which are made empty for them.
pub fn not_inherited() -> (r: Vec<String>)
    ensures
        r@.len() == 2,
        r@[0]@ == "REDO_UNLOCKED"@,
        r@[1]@ == "REDO_NO_OOB"@,
{
    let mut v: Vec<String> = Vec::new();
    v.push("REDO_UNLOCKED".to_owned());
    v.push("REDO_NO_OOB".to_owned());
    v
}

/// Adds a variable before all others.
fn with_var(vars: &Vec<Var>, key: &str, value: &str) -> (r: Vec<Var>)
    ensures
        var_views(r@) == seq![(key.spec_bytes(), value.spec_bytes())] + var_views(vars@),
{
    let mut r: Vec<Var> = Vec::new();
    r.push((copy_bytes(key.as_bytes()), copy_bytes(value.as_bytes())));
    let mut i: usize = 0;
    let ghost first = (key.spec_bytes(), value.spec_bytes());
    assert(var_views(r@) =~= seq![first] + var_views(vars@.take(0)));
    while i < vars.len()
        invariant
            i <= vars.len(),
            var_views(r@) == seq![first] + var_views(vars@.take(i as int)),
        decreases vars.len() - i,
    {
        let ghost before = r@;
        r.push((copy_bytes(vars[i].0.as_slice()), copy_bytes(vars[i].1.as_slice())));
        assert(var_views(r@) =~= var_views(before).push((vars@[i as int].0@, vars@[i as int].1@)));
        assert(var_views(vars@.take(i + 1)) =~= var_views(vars@.take(i as int)).push(
            (vars@[i as int].0@, vars@[i as int].1@),
        ));
        i = i + 1;
        assert(var_views(r@) =~= seq![first] + var_views(vars@.take(i as int)));
    }
    assert(vars@.take(i as int) =~= vars@);
    r
}

/// The environment once what a session sets has been set.
pub open spec fn session_vars(vars: Seq<(Seq<u8>, Seq<u8>)>) -> Seq<(Seq<u8>, Seq<u8>)> {
    let one = if bool_value(vars, "REDO".spec_bytes()) {
        vars
    } else {
        seq![("REDO".spec_bytes(), "NOT_DEFINED".spec_bytes())] + vars
    };
    if bool_value(one, "REDO_BASE".spec_bytes()) {
        one
    } else {
        seq![("REDO_BASE".spec_bytes(), "NOT_DEFINED".spec_bytes())] + one
    }
}

/// Start a session (if needed) for a command that needs no state db: gives the settings and the
/// variables to read them from, what the session sets before all others.
pub fn init_no_state(vars: &Vec<Var>) -> (r: (Env, Vec<Var>))
    ensures
        var_views(r.1@) == session_vars(var_views(vars@)),
        r.0.reads(session_vars(var_views(vars@))),
        r.0.is_toplevel == !bool_value(var_views(vars@), "REDO".spec_bytes()),
{
    let is_toplevel = !get_bool(vars, "REDO");
    let one = if is_toplevel {
        with_var(vars, "REDO", NOT_DEFINED)
    } else {
        copy_vars(vars)
    };
    let two = if !get_bool(&one, "REDO_BASE") {
        with_var(&one, "REDO_BASE", NOT_DEFINED)
    } else {
        one
    };
    let mut env = Env::inherit(&two);
    env.is_toplevel = is_toplevel;
    (env, two)
}

/// Start a session (if needed) for a command that does need the state db.
pub fn init(vars: &Vec<Var>) -> (r: Env)
    ensures
        r.reads(var_views(vars@)),
        r.is_toplevel == !bool_value(var_views(vars@), "REDO".spec_bytes()),
{
    let mut env = Env::inherit(vars);
    env.is_toplevel = !get_bool(vars, "REDO");
    env
}

fn copy_vars(vars: &Vec<Var>) -> (r: Vec<Var>)
    ensures
        var_views(r@) == var_views(vars@),
{
    let mut r: Vec<Var> = Vec::new();
    let mut i: usize = 0;
    while i < vars.len()
        invariant
            i <= vars.len(),
            r.len() == i,
            forall|k: int| 0 <= k < i ==> (#[trigger] r@[k]).0@ == vars@[k].0@ && r@[k].1@ == vars@[k].1@,
        decreases vars.len() - i,
    {
        r.push((copy_bytes(vars[i].0.as_slice()), copy_bytes(vars[i].1.as_slice())));
        i = i + 1;
    }
    assert(var_views(r@) =~= var_views(vars@));
    r
}

/// Whether a variable has the given value: that of the first entry with its name.
pub open spec fn is_set_to(vars: Seq<(Seq<u8>, Seq<u8>)>, key: Seq<u8>, value: Seq<u8>) -> bool {
    exists|i: int|
        0 <= i < vars.len() && #[trigger] vars[i] == (key, value) && forall|j: int| 0 <= j < i ==> (#[trigger] vars[j]).0 != key
}

/// Whether a variable is not set.
pub open spec fn is_unset(vars: Seq<(Seq<u8>, Seq<u8>)>, key: Seq<u8>) -> bool {
    forall|i: int| 0 <= i < vars.len() ==> (#[trigger] vars[i]).0 != key
}

/// A variable has the value of its first entry, and none if it has no entry.
pub proof fn law_first_entry_counts(vars: Seq<(Seq<u8>, Seq<u8>)>, key: Seq<u8>, value: Seq<u8>)
    ensures
        is_set_to(vars, key, value) ==> lookup(vars, key) == Some(value),
        is_unset(vars, key) ==> lookup(vars, key) is None,
    decreases vars.len(),
{
    if vars.len() > 0 {
        let rest = vars.skip(1);
        law_first_entry_counts(rest, key, value);
        if is_set_to(vars, key, value) {
            let i = choose|i: int|
                0 <= i < vars.len() && #[trigger] vars[i] == (key, value) && forall|j: int|
                    0 <= j < i ==> (#[trigger] vars[j]).0 != key;
            if i > 0 {
                assert(vars[0].0 != key);
                assert(rest[i - 1] == (key, value));
                assert forall|j: int| 0 <= j < i - 1 implies (#[trigger] rest[j]).0 != key by {
                    assert(rest[j] == vars[j + 1]);
                }
            }
        }
        if is_unset(vars, key) {
            assert(vars[0].0 != key);
            assert forall|j: int| 0 <= j < rest.len() implies (#[trigger] rest[j]).0 != key by {
                assert(rest[j] == vars[j + 1]);
            }
        }
    }
}

/// A number that is written in a variable is read back; what is no number, or not there, stands for the default.
pub proof fn law_numbers_are_read(vars: Seq<(Seq<u8>, Seq<u8>)>, key: Seq<u8>, n: i32, value: Seq<u8>, default: int)
    ensures
        is_set_to(vars, key, encode_utf8(decimal_int(n as int))) ==> int_value(vars, key, default) == n,
        is_set_to(vars, key, value) && !valid_utf8(value) ==> int_value(vars, key, default) == default,
        is_set_to(vars, key, seq![]) ==> int_value(vars, key, default) == default,
        is_unset(vars, key) ==> int_value(vars, key, default) == default,
{
    let text = decimal_int(n as int);
    law_first_entry_counts(vars, key, encode_utf8(text));
    law_first_entry_counts(vars, key, value);
    law_first_entry_counts(vars, key, seq![]);
    encode_utf8_valid_utf8(text);
    encode_utf8_decode_utf8(text);
    law_decimal_round_trip(n as int);
    let none = Seq::<char>::empty();
    encode_utf8_valid_utf8(none);
    encode_utf8_decode_utf8(none);
    assert(encode_utf8(none) =~= seq![]);
    assert(parsed_within(none, i32::MIN as int, i32::MAX as int) is None);
}

/// A switch is on just if its variable is there and not empty.
pub proof fn law_switches_are_read(vars: Seq<(Seq<u8>, Seq<u8>)>, key: Seq<u8>, value: Seq<u8>)
    ensures
        is_set_to(vars, key, value) ==> (bool_value(vars, key) <==> value.len() > 0),
        is_unset(vars, key) ==> !bool_value(vars, key),
{
    law_first_entry_counts(vars, key, value);
}

/// Every setting that is a path or a text is the value of its own variable, and empty without one.
pub proof fn law_text_settings(env: Env, vars: Seq<(Seq<u8>, Seq<u8>)>, value: Seq<u8>)
    requires
        env.reads(vars),
    ensures
        is_set_to(vars, "REDO_BASE".spec_bytes(), value) ==> env.base@ == value,
        is_unset(vars, "REDO_BASE".spec_bytes()) ==> env.base@.len() == 0,
        is_set_to(vars, "REDO_PWD".spec_bytes(), value) ==> env.pwd@ == value,
        is_unset(vars, "REDO_PWD".spec_bytes()) ==> env.pwd@.len() == 0,
        is_set_to(vars, "REDO_TARGET".spec_bytes(), value) ==> env.target@ == value,
        is_unset(vars, "REDO_TARGET".spec_bytes()) ==> env.target@.len() == 0,
        is_set_to(vars, "REDO_DEPTH".spec_bytes(), value) ==> env.depth@ == value,
        is_unset(vars, "REDO_DEPTH".spec_bytes()) ==> env.depth@.len() == 0,
        is_set_to(vars, "REDO_LOG_INODE".spec_bytes(), value) ==> env.log_inode@ == value,
        is_unset(vars, "REDO_LOG_INODE".spec_bytes()) ==> env.log_inode@.len() == 0,
        is_set_to(vars, "REDO_STARTDIR".spec_bytes(), value) ==> env.startdir@ == value,
        is_unset(vars, "REDO_STARTDIR".spec_bytes()) ==> env.startdir@.len() == 0,
{
    law_first_entry_counts(vars, "REDO_BASE".spec_bytes(), value);
    law_first_entry_counts(vars, "REDO_PWD".spec_bytes(), value);
    law_first_entry_counts(vars, "REDO_TARGET".spec_bytes(), value);
    law_first_entry_counts(vars, "REDO_DEPTH".spec_bytes(), value);
    law_first_entry_counts(vars, "REDO_LOG_INODE".spec_bytes(), value);
    law_first_entry_counts(vars, "REDO_STARTDIR".spec_bytes(), value);
}

/// Every switch is on just if its own variable is there and not empty.
pub proof fn law_switch_settings(env: Env, vars: Seq<(Seq<u8>, Seq<u8>)>, value: Seq<u8>)
    requires
        env.reads(vars),
    ensures
        is_set_to(vars, "REDO_DEBUG_LOCKS".spec_bytes(), value) ==> (env.debug_locks <==> value.len() > 0),
        is_unset(vars, "REDO_DEBUG_LOCKS".spec_bytes()) ==> !env.debug_locks,
        is_set_to(vars, "REDO_DEBUG_PIDS".spec_bytes(), value) ==> (env.debug_pids <==> value.len() > 0),
        is_unset(vars, "REDO_DEBUG_PIDS".spec_bytes()) ==> !env.debug_pids,
        is_set_to(vars, "REDO_LOCKS_BROKEN".spec_bytes(), value) ==> (env.locks_broken <==> value.len() > 0),
        is_unset(vars, "REDO_LOCKS_BROKEN".spec_bytes()) ==> !env.locks_broken,
        is_set_to(vars, "REDO_KEEP_GOING".spec_bytes(), value) ==> (env.keep_going <==> value.len() > 0),
        is_unset(vars, "REDO_KEEP_GOING".spec_bytes()) ==> !env.keep_going,
        is_set_to(vars, "REDO_SHUFFLE".spec_bytes(), value) ==> (env.shuffle <==> value.len() > 0),
        is_unset(vars, "REDO_SHUFFLE".spec_bytes()) ==> !env.shuffle,
        is_set_to(vars, "REDO_UNLOCKED".spec_bytes(), value) ==> (env.unlocked <==> value.len() > 0),
        is_unset(vars, "REDO_UNLOCKED".spec_bytes()) ==> !env.unlocked,
        is_set_to(vars, "REDO_NO_OOB".spec_bytes(), value) ==> (env.no_oob <==> value.len() > 0),
        is_unset(vars, "REDO_NO_OOB".spec_bytes()) ==> !env.no_oob,
{
    law_first_entry_counts(vars, "REDO_DEBUG_LOCKS".spec_bytes(), value);
    law_first_entry_counts(vars, "REDO_DEBUG_PIDS".spec_bytes(), value);
    law_first_entry_counts(vars, "REDO_LOCKS_BROKEN".spec_bytes(), value);
    law_first_entry_counts(vars, "REDO_KEEP_GOING".spec_bytes(), value);
    law_first_entry_counts(vars, "REDO_SHUFFLE".spec_bytes(), value);
    law_first_entry_counts(vars, "REDO_UNLOCKED".spec_bytes(), value);
    law_first_entry_counts(vars, "REDO_NO_OOB".spec_bytes(), value);
}

/// Every level is the number in its own variable, and zero without one.
pub proof fn law_level_settings(env: Env, vars: Seq<(Seq<u8>, Seq<u8>)>, n: i32)
    requires
        env.reads(vars),
    ensures
        is_set_to(vars, "REDO_DEBUG".spec_bytes(), encode_utf8(decimal_int(n as int))) ==> env.debug == n,
        is_unset(vars, "REDO_DEBUG".spec_bytes()) ==> env.debug == 0,
        is_set_to(vars, "REDO_VERBOSE".spec_bytes(), encode_utf8(decimal_int(n as int))) ==> env.verbose == n,
        is_unset(vars, "REDO_VERBOSE".spec_bytes()) ==> env.verbose == 0,
        is_set_to(vars, "REDO_XTRACE".spec_bytes(), encode_utf8(decimal_int(n as int))) ==> env.xtrace == n,
        is_unset(vars, "REDO_XTRACE".spec_bytes()) ==> env.xtrace == 0,
        is_set_to(vars, "REDO_RUNID".spec_bytes(), encode_utf8(decimal_int(n as int))) && n != 0 ==> env.runid == Some(n as i64),
        is_set_to(vars, "REDO_RUNID".spec_bytes(), encode_utf8(decimal_int(0))) ==> env.runid is None,
        is_unset(vars, "REDO_RUNID".spec_bytes()) ==> env.runid is None,
{
    law_numbers_are_read(vars, "REDO_DEBUG".spec_bytes(), n, seq![], 0);
    law_numbers_are_read(vars, "REDO_VERBOSE".spec_bytes(), n, seq![], 0);
    law_numbers_are_read(vars, "REDO_XTRACE".spec_bytes(), n, seq![], 0);
    law_numbers_are_read(vars, "REDO_RUNID".spec_bytes(), n, seq![], 0);
    law_numbers_are_read(vars, "REDO_RUNID".spec_bytes(), 0, seq![], 0);
}

/// A setting that can be left to be found out is off at 0, left open at 1, and on at any other number. Without its variable, logs are
/// left open, and color and pretty messages are off.
pub proof fn law_open_settings(env: Env, vars: Seq<(Seq<u8>, Seq<u8>)>, n: i32)
    requires
        env.reads(vars),
    ensures
        ({
            let s = if n == 0 {
                OptionalBool::Off
            } else if n == 1 {
                OptionalBool::Auto
            } else {
                OptionalBool::On
            };
            let text = encode_utf8(decimal_int(n as int));
            &&& is_set_to(vars, "REDO_LOG".spec_bytes(), text) ==> env.log == s
            &&& is_set_to(vars, "REDO_COLOR".spec_bytes(), text) ==> env.color == s
            &&& is_set_to(vars, "REDO_PRETTY".spec_bytes(), text) ==> env.pretty == s
        }),
        is_unset(vars, "REDO_LOG".spec_bytes()) ==> env.log is Auto,
        is_unset(vars, "REDO_COLOR".spec_bytes()) ==> env.color is Off,
        is_unset(vars, "REDO_PRETTY".spec_bytes()) ==> env.pretty is Off,
{
    law_numbers_are_read(vars, "REDO_LOG".spec_bytes(), n, seq![], 1);
    law_numbers_are_read(vars, "REDO_COLOR".spec_bytes(), n, seq![], 0);
    law_numbers_are_read(vars, "REDO_PRETTY".spec_bytes(), n, seq![], 0);
}

/// A session that needs no state leaves every variable as it is, but for `REDO` and `REDO_BASE`: if one of these is not there, or
/// empty, it is said not to be defined.
pub proof fn law_session_defines(vars: Seq<(Seq<u8>, Seq<u8>)>, key: Seq<u8>, value: Seq<u8>)
    requires
        is_set_to(vars, key, value) || is_unset(vars, key) && value.len() == 0,
    ensures
        key != "REDO".spec_bytes() && key != "REDO_BASE".spec_bytes() || value.len() > 0 ==> lookup(session_vars(vars), key)
            == lookup(vars, key),
        (key == "REDO".spec_bytes() || key == "REDO_BASE".spec_bytes()) && value.len() == 0 ==> lookup(session_vars(vars), key)
            == Some("NOT_DEFINED".spec_bytes()),
{
    law_first_entry_counts(vars, key, value);
    reveal_strlit("REDO");
    reveal_strlit("REDO_BASE");
    assert(is_ascii("REDO"));
    assert(is_ascii("REDO_BASE"));
    is_ascii_spec_bytes("REDO");
    is_ascii_spec_bytes("REDO_BASE");
    assert("REDO".spec_bytes().len() != "REDO_BASE".spec_bytes().len());
    let undefined = "NOT_DEFINED".spec_bytes();
    lemma_var_before(vars, "REDO".spec_bytes(), undefined, key);
    lemma_var_before(vars, "REDO".spec_bytes(), undefined, "REDO_BASE".spec_bytes());
    lemma_var_before(vars, "REDO_BASE".spec_bytes(), undefined, key);
    lemma_var_before(
        seq![("REDO".spec_bytes(), undefined)] + vars,
        "REDO_BASE".spec_bytes(),
        undefined,
        key,
    );
}

proof fn lemma_var_before(vars: Seq<(Seq<u8>, Seq<u8>)>, name: Seq<u8>, value: Seq<u8>, key: Seq<u8>)
    ensures
        lookup(seq![(name, value)] + vars, key) == if key == name {
            Some(value)
        } else {
            lookup(vars, key)
        },
{
    let all = seq![(name, value)] + vars;
    assert(all[0] == (name, value));
    assert(all.skip(1) =~= vars);
}

/// A setting that was left to be found out is what was found out. One that is on or off stays so.
pub proof fn law_settings_are_kept(found: bool)
    ensures
        OptionalBool::On.resolved(found),
        !OptionalBool::Off.resolved(found),
        OptionalBool::Auto.resolved(found) == found,
{
}

} // verus!
