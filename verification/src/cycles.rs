//! Code for detecting and aborting on cyclic dependency loops.
//!
//! The targets that are being built further up are listed in the environment variable
//! `REDO_CYCLES`, separated by colons. The functions here take its value.

use vstd::prelude::*;
use vstd::string::*;
use crate::builder::{uncaused, BuildError, BuildErrorKind, BuildErrorView};
use crate::text::{
    chars_eq, decimal_int, join, law_decimal_round_trip, lemma_decimal_chars, lemma_split_around,
    lemma_split_join, lemma_split_single, split, split_chars, strings, to_chars,
};

verus! {

/// The name of the variable.
pub const CYCLES_VAR: &'static str = "REDO_CYCLES";

/// The items that the variable lists, in order.
pub open spec fn listed(var: Option<Seq<char>>) -> Seq<Seq<char>> {
    match var {
        None => seq![],
        Some(v) => split(v, ':'),
    }
}

/// The set of held cycle items.
pub open spec fn held(var: Option<Seq<char>>) -> Set<Seq<char>> {
    listed(var).to_set()
}

/// The contents of an optional string.
pub open spec fn opt_str(v: Option<&str>) -> Option<Seq<char>> {
    match v {
        Some(s) => Some(s@),
        None => None,
    }
}

/// Get the held cycle items.
pub fn get(var: Option<&str>) -> (r: Vec<String>)
    ensures
        strings(r@) == listed(opt_str(var)),
        strings(r@).to_set() == held(opt_str(var)),
{
    match var {
        None => {
            let items: Vec<String> = Vec::new();
            assert(strings(items@) =~= seq![]);
            items
        },
        Some(v) => {
            let c = to_chars(v);
            split_chars(c.as_slice(), ':')
        },
    }
}

fn contains(items: &Vec<String>, fid: &[char]) -> (r: bool)
    ensures
        r == strings(items@).contains(fid@),
{
    let mut i: usize = 0;
    while i < items.len()
        invariant
            i <= items.len(),
            forall|k: int| 0 <= k < i ==> strings(items@)[k] != fid@,
        decreases items.len() - i,
    {
        let c = to_chars(items[i].as_str());
        assert(strings(items@)[i as int] == c@);
        if chars_eq(c.as_slice(), fid) {
            return true;
        }
        i = i + 1;
    }
    false
}

/// Add a lock to the list of held cycle items. Gives the new value of the variable, or nothing
/// if it can stay as it is.
pub fn add(var: Option<&str>, fid: &str) -> (r: Option<String>)
    ensures
        match r {
            None => held(opt_str(var)).contains(fid@),
            Some(v) => {
                &&& !held(opt_str(var)).contains(fid@)
                &&& listed(Some(v@)) == listed(opt_str(var)) + split(fid@, ':')
            },
        },
{
    let items = get(var);
    let f = to_chars(fid);
    proof {
        assert(held(opt_str(var)).contains(fid@) <==> strings(items@).contains(fid@));
    }
    if contains(&items, f.as_slice()) {
        return None;
    }
    match var {
        None => {
            assert(listed(opt_str(var)) + split(fid@, ':') =~= split(fid@, ':'));
            Some(fid.to_owned())
        },
        Some(v) => {
            let mut s = v.to_owned();
            s.push(':');
            s.append(fid);
            proof {
                lemma_split_around(v@, fid@, ':');
                assert(s@ =~= v@.push(':') + fid@);
            }
            Some(s)
        },
    }
}

/// Fails if the item is held already, that is, if its target is being built further up.
pub fn check(var: Option<&str>, fid: &str) -> (r: Result<(), BuildError>)
    ensures
        match r {
            Ok(_) => !held(opt_str(var)).contains(fid@),
            Err(e) => held(opt_str(var)).contains(fid@) && e@ == uncaused(BuildErrorView::CyclicDependency),
        },
{
    let items = get(var);
    let f = to_chars(fid);
    proof {
        assert(held(opt_str(var)).contains(fid@) <==> strings(items@).contains(fid@));
    }
    if contains(&items, f.as_slice()) {
        // Lock already held by parent: cyclic dependency
        Err(BuildError::from_kind(BuildErrorKind::CyclicDependency))
    } else {
        Ok(())
    }
}

/// Adding an item holds it and everything that was held before, and nothing else.
pub proof fn law_add_holds(var: Option<Seq<char>>, fid: Seq<char>, new: Seq<char>)
    requires
        !fid.contains(':'),
        listed(Some(new)) == listed(var) + split(fid, ':'),
    ensures
        held(Some(new)) == held(var).insert(fid),
{
    lemma_split_single(fid, ':');
    let l = listed(var);
    assert(listed(Some(new)) =~= l.push(fid));
    l.lemma_push_to_set_commute(fid);
}

/// A target is found to be built further up just if its id is among those that are listed.
pub proof fn law_listed_ids_are_held(ids: Seq<i64>, text: Seq<char>, fid: i64)
    requires
        text == join(ids.map_values(|n: i64| decimal_int(n as int)), ':'),
    ensures
        ids.len() > 0 ==> (held(Some(text)).contains(decimal_int(fid as int)) <==> ids.contains(fid)),
        held(None).is_empty(),
{
    let words = ids.map_values(|n: i64| decimal_int(n as int));
    assert(held(None) =~= Set::empty());
    if ids.len() > 0 {
        assert forall|i: int| 0 <= i < words.len() implies !(#[trigger] words[i]).contains(':') by {
            lemma_decimal_chars(ids[i] as int);
        }
        lemma_split_join(words, ':');
        assert(listed(Some(text)) == words);
        if ids.contains(fid) {
            let i = choose|i: int| 0 <= i < ids.len() && ids[i] == fid;
            assert(words[i] == decimal_int(fid as int));
            assert(words.contains(decimal_int(fid as int)));
        }
        if words.contains(decimal_int(fid as int)) {
            let i = choose|i: int| 0 <= i < words.len() && words[i] == decimal_int(fid as int);
            law_decimal_round_trip(fid as int);
            law_decimal_round_trip(ids[i] as int);
            assert(ids[i] == fid);
        }
    }
}

} // verus!
