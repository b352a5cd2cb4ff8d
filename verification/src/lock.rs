//! Locks on targets.
//!
//! The operating system keeps the locks; what it answers is passed in.

use vstd::prelude::*;
use vstd::string::*;
use crate::cycles;
use crate::error::{of_kind, opaque, KindView, RedoError, RedoErrorKind};
use crate::exits::{EXIT_FAILURE, EXIT_SUCCESS};
use crate::text::{dec_i64, decimal_int};

verus! {

/// Types of locks.
#[derive(Copy, Clone, Debug, Eq, PartialEq, Structural, Hash)]
pub enum LockType {
    Exclusive,
    Shared,
}

impl Default for LockType {
    fn default() -> (r: LockType)
        ensures
            r == LockType::Exclusive,
    {
        LockType::Exclusive
    }
}

/// What the operating system answers when a lock is asked for without waiting.
#[derive(Debug)]
pub enum LockAnswer {
    Granted,
    /// Somebody else holds it.
    Busy,
    Failed(String),
}

/// The locks that this process uses.
#[derive(Debug)]
pub struct LockManager {
    locks: Vec<i64>,
}

impl LockManager {
    /// The files that there are locks for.
    pub closed spec fn in_use(&self) -> Set<i64> {
        self.locks@.to_set()
    }

    /// No locks are used yet.
    pub fn new() -> (r: LockManager)
        ensures
            r.in_use() == Set::<i64>::empty(),
    {
        let r = LockManager { locks: Vec::new() };
        assert(r.locks@.to_set() =~= Set::<i64>::empty());
        r
    }

    /// Whether there is a lock for a file.
    pub fn uses(&self, fid: i64) -> (r: bool)
        ensures
            r == self.in_use().contains(fid),
    {
        let mut i: usize = 0;
        while i < self.locks.len()
            invariant
                i <= self.locks.len(),
                forall|k: int| 0 <= k < i ==> self.locks@[k] != fid,
            decreases self.locks.len() - i,
        {
            if self.locks[i] == fid {
                assert(self.locks@.contains(fid));
                return true;
            }
            i = i + 1;
        }
        assert(!self.locks@.contains(fid));
        false
    }

    /// A lock for a file that there is none for yet. We do not hold it.
    pub fn new_lock(&mut self, fid: i64) -> (r: Lock)
        requires
            !old(self).in_use().contains(fid),
        ensures
            final(self).in_use() == old(self).in_use().insert(fid),
            r.file() == fid,
            !r.held(),
    {
        let ghost before = self.locks@;
        self.locks.push(fid);
        proof {
            before.lemma_push_to_set_commute(fid);
        }
        Lock { fid, owned: false }
    }

    /// Gives up the use of a lock. Reports whether it has to be unlocked.
    pub fn discard(&mut self, lock: Lock) -> (r: bool)
        ensures
            final(self).in_use() == old(self).in_use().remove(lock.file()),
            r == lock.held(),
    {
        let ghost before = self.locks@;
        let mut kept: Vec<i64> = Vec::new();
        let mut i: usize = 0;
        while i < self.locks.len()
            invariant
                i <= self.locks.len(),
                self.locks@ == before,
                forall|x: i64|
                    kept@.contains(x) <==> x != lock.fid && exists|k: int| 0 <= k < i && #[trigger] before[k] == x,
            decreases self.locks.len() - i,
        {
            let x: i64 = self.locks[i];
            let ghost old_kept = kept@;
            if x != lock.fid {
                kept.push(x);
            }
            proof {
                assert forall|y: i64|
                    kept@.contains(y) <==> y != lock.fid && exists|k: int|
                        0 <= k < i + 1 && #[trigger] before[k] == y by {
                    if kept@.contains(y) {
                        let j = choose|j: int| 0 <= j < kept@.len() && kept@[j] == y;
                        if j < old_kept.len() {
                            assert(old_kept[j] == y);
                            assert(old_kept.contains(y));
                            let k = choose|k: int| 0 <= k < i && #[trigger] before[k] == y;
                            assert(0 <= k < i + 1 && before[k] == y);
                        } else {
                            assert(before[i as int] == y);
                        }
                    }
                    if y != lock.fid && exists|k: int| 0 <= k < i + 1 && #[trigger] before[k] == y {
                        let k = choose|k: int| 0 <= k < i + 1 && #[trigger] before[k] == y;
                        if k < i {
                            assert(old_kept.contains(y));
                            let j = choose|j: int| 0 <= j < old_kept.len() && old_kept[j] == y;
                            assert(kept@[j] == y);
                        } else {
                            assert(kept@[old_kept.len() as int] == y);
                        }
                    }
                }
            }
            i = i + 1;
        }
        proof {
            assert forall|x: i64| kept@.to_set().contains(x) <==> before.to_set().remove(lock.fid).contains(x) by {
                if before.contains(x) {
                    let k = choose|k: int| 0 <= k < before.len() && before[k] == x;
                    assert(before[k] == x);
                }
            }
            assert(kept@.to_set() =~= before.to_set().remove(lock.fid));
        }
        self.locks = kept;
        lock.owned
    }
}

/// An object representing a lock on a redo target file.
#[derive(Debug)]
pub struct Lock {
    owned: bool,
    fid: i64,
}

/// Whether a target is being built further up, so that waiting for its lock would never end.
pub open spec fn held_above(cycles_var: Option<&str>, fid: i64) -> bool {
    cycles::held(cycles::opt_str(cycles_var)).contains(decimal_int(fid as int))
}

impl Lock {
    /// The file that the lock is for.
    pub closed spec fn file(&self) -> i64 {
        self.fid
    }

    /// Whether we hold the lock.
    pub closed spec fn held(&self) -> bool {
        self.owned
    }

    /// The file that the lock is for.
    pub fn file_id(&self) -> (r: i64)
        ensures
            r == self.file(),
    {
        self.fid
    }

    /// Check that this lock is in a sane state: it is not that of a target that is being built further up.
    pub fn check(&self, cycles_var: Option<&str>) -> (r: Result<(), RedoError>)
        requires
            !self.held(),
        ensures
            match r {
                Ok(_) => !held_above(cycles_var, self.file()),
                Err(e) => held_above(cycles_var, self.file()) && e@ == of_kind(KindView::CyclicDependency),
            },
    {
        match cycles::check(cycles_var, dec_i64(self.fid).as_str()) {
            Ok(_) => Ok(()),
            Err(_) => Err(RedoError::from_kind(RedoErrorKind::CyclicDependency)),
        }
    }

    /// Whether we hold the lock.
    pub fn is_owned(&self) -> (r: bool)
        ensures
            r == self.held(),
    {
        self.owned
    }

    /// Takes note that somebody holds the lock for us.
    pub fn force_owned(&mut self)
        ensures
            final(self).held(),
            final(self).file() == old(self).file(),
    {
        self.owned = true;
    }

    /// Non-blocking try to acquire our lock; returns true if it worked. The operating system is asked
    /// only if the lock is in a sane state.
    pub fn try_lock(&mut self, cycles_var: Option<&str>, answer: LockAnswer) -> (r: Result<bool, RedoError>)
        requires
            !old(self).held(),
        ensures
            final(self).file() == old(self).file(),
            if held_above(cycles_var, old(self).file()) {
                r matches Err(e) && e@ == of_kind(KindView::CyclicDependency) && !final(self).held()
            } else {
                match answer {
                    LockAnswer::Granted => r == Ok::<bool, RedoError>(true) && final(self).held(),
                    LockAnswer::Busy => r == Ok::<bool, RedoError>(false) && !final(self).held(),
                    LockAnswer::Failed(text) => r matches Err(e) && e@ == opaque(text@) && !final(self).held(),
                }
            },
    {
        match self.check(cycles_var) {
            Err(e) => return Err(e),
            Ok(_) => {},
        }
        match answer {
            LockAnswer::Granted => {
                self.owned = true;
                Ok(true)
            },
            LockAnswer::Busy => Ok(false),
            LockAnswer::Failed(text) => Err(RedoError::opaque_error(text.as_str())),
        }
    }

    /// Try to acquire our lock, and wait if it's currently locked. The operating system is asked
    /// only if the lock is in a sane state.
    pub fn wait_lock(&mut self, cycles_var: Option<&str>, answer: Result<(), String>) -> (r: Result<(), RedoError>)
        requires
            !old(self).held(),
        ensures
            final(self).file() == old(self).file(),
            if held_above(cycles_var, old(self).file()) {
                r matches Err(e) && e@ == of_kind(KindView::CyclicDependency) && !final(self).held()
            } else {
                match answer {
                    Ok(_) => r is Ok && final(self).held(),
                    Err(text) => r matches Err(e) && e@ == opaque(text@) && !final(self).held(),
                }
            },
    {
        match self.check(cycles_var) {
            Err(e) => return Err(e),
            Ok(_) => {},
        }
        match answer {
            Ok(_) => {
                self.owned = true;
                Ok(())
            },
            Err(text) => Err(RedoError::opaque_error(text.as_str())),
        }
    }

    /// Release the lock, which we must currently own.
    pub fn unlock(&mut self, answer: Result<(), String>) -> (r: Result<(), RedoError>)
        requires
            old(self).held(),
        ensures
            final(self).file() == old(self).file(),
            match answer {
                Ok(_) => r is Ok && !final(self).held(),
                Err(text) => r matches Err(e) && e@ == opaque(text@) && final(self).held(),
            },
    {
        match answer {
            Ok(_) => {
                self.owned = false;
                Ok(())
            },
            Err(text) => Err(RedoError::opaque_error(text.as_str())),
        }
    }
}

/// The exit code of a process that tries to take a lock that its parent holds: failure if it
/// got the lock, or does not know.
pub fn lock_probe_exit(got: &Result<bool, RedoError>) -> (r: i32)
    ensures
        r == match got {
            Ok(false) => EXIT_SUCCESS,
            _ => EXIT_FAILURE,
        },
{
    match got {
        // Failed to get the lock? Good, the parent owns it.
        Ok(false) => EXIT_SUCCESS,
        // Got the lock? Yikes, the locking system is broken!
        // Or some other error occurred. Stay safe and report failure.
        _ => EXIT_FAILURE,
    }
}

/// Whether locks are broken, given the exit code of such a process, if it has one.
///
/// Symptom: locking a file always returns success, even if other processes
/// also think they have it locked.
pub fn detect_broken_locks(status: Option<i32>) -> (r: bool)
    ensures
        r == (status != Some(EXIT_SUCCESS)),
{
    match status {
        Some(code) => code != EXIT_SUCCESS,
        None => true,
    }
}

} // verus!
