//! The source of note identifiers. Identifiers come from a generator that
//! orders them by time; the source hands one out only if it comes after the
//! one it handed out before, so that the identifiers of one source strictly
//! ascend in the order in which they were made.

use crate::engine::{fresh_id, is_note_id};
use crate::error::NoteError;
use crate::order::{id_lt, str_lt};
use vstd::prelude::*;
use vstd::string::*;

verus! {

/// Whether `id` may follow what was handed out last: anything may come
/// first, and later only what comes after its predecessor.
pub open spec fn may_follow(latest: Option<Seq<char>>, id: Seq<char>) -> bool {
    match latest {
        None => true,
        Some(before) => id_lt(before, id),
    }
}

/// Whether `id` is among what a source with this latest identifier can have
/// handed out: nothing before it handed out anything, and later nothing that
/// comes after the latest.
pub open spec fn not_after(latest: Option<Seq<char>>, id: Seq<char>) -> bool {
    match latest {
        None => false,
        Some(last) => !id_lt(last, id),
    }
}

/// A source of identifiers that strictly ascend.
pub struct IdSource {
    last: Option<String>,
}

impl IdSource {
    /// The identifier handed out last, if any was.
    pub closed spec fn latest(&self) -> Option<Seq<char>> {
        match self.last {
            Some(id) => Some(id@),
            None => None,
        }
    }

    /// A source that has handed out nothing yet.
    pub fn new() -> (source: IdSource)
        ensures
            source.latest() is None,
    {
        IdSource { last: None }
    }

    /// Hands out `candidate` if it may follow the latest identifier, and
    /// remembers it; refuses it with `DocumentError` otherwise, and stays as
    /// it was.
    pub fn accept(&mut self, candidate: String) -> (r: Result<String, NoteError>)
        ensures
            if may_follow(old(self).latest(), candidate@) {
                &&& r matches Ok(id)
                &&& id@ == candidate@
                &&& final(self).latest() == Some(candidate@)
            } else {
                &&& r matches Err(NoteError::DocumentError(_))
                &&& final(self).latest() == old(self).latest()
            },
    {
        let follows = match &self.last {
            Some(before) => str_lt(before.as_str(), candidate.as_str()),
            None => true,
        };
        if follows {
            self.last = Some(candidate.clone());
            Ok(candidate)
        } else {
            Err(NoteError::DocumentError(String::from_str("identifier out of order")))
        }
    }

    /// Hands out a fresh identifier: well formed, and after every identifier
    /// that this source handed out before. Fails with `DocumentError`, and
    /// stays as it was, where the generator gives one that does not come
    /// after the latest; a source that has handed out nothing cannot fail.
    pub fn next(&mut self) -> (r: Result<String, NoteError>)
        ensures
            match r {
                Ok(id) => {
                    &&& is_note_id(id@)
                    &&& may_follow(old(self).latest(), id@)
                    &&& final(self).latest() == Some(id@)
                },
                Err(e) => {
                    &&& e is DocumentError
                    &&& old(self).latest() is Some
                    &&& final(self).latest() == old(self).latest()
                },
            },
    {
        let candidate = fresh_id();
        self.accept(candidate)
    }
}

} // verus!
