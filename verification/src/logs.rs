//! The in-memory replicated log: an index-addressed sequence of entries
//! with slicing, indexed access, and a bulk replace.

use vstd::prelude::*;

use crate::types::{clone_entries, Log, LogV, RaftError};

verus! {

/// The ordered sequence of log entries, indexed from 0.
#[derive(Debug)]
pub struct Logs(pub Vec<Log>);

impl View for Logs {
    type V = Seq<LogV>;

    open spec fn view(&self) -> Seq<LogV> {
        self.0.deep_view()
    }
}

/// The term of the last entry of a log, or 0 if the log is empty.
pub open spec fn last_term_of(log: Seq<LogV>) -> u64 {
    if log.len() == 0 {
        0
    } else {
        log.last().term
    }
}

impl Logs {
    /// An empty log.
    pub fn new() -> (r: Self)
        ensures
            r@ =~= Seq::<LogV>::empty(),
    {
        Logs(Vec::new())
    }

    pub fn len(&self) -> (r: u64)
        ensures
            r == self@.len(),
    {
        self.0.len() as u64
    }

    pub fn is_empty(&self) -> (r: bool)
        ensures
            r == (self@.len() == 0),
    {
        self.0.len() == 0
    }

    /// The entry at `index`; `Err(Logic)` exactly when `index` is out of
    /// bounds.
    pub fn get(&self, index: u64) -> (r: Result<Log, RaftError>)
        ensures
            index < self@.len() ==> (r matches Ok(e) && e@ == self@[index as int]),
            index >= self@.len() ==> (r matches Err(e) && e == RaftError::Logic),
    {
        if index < self.0.len() as u64 {
            Ok(self.0[index as usize].clone())
        } else {
            Err(RaftError::Logic)
        }
    }

    /// The term of the last entry, or 0 for an empty log.
    pub fn last_term(&self) -> (r: u64)
        ensures
            r == last_term_of(self@),
    {
        if self.0.len() == 0 {
            0
        } else {
            self.0[self.0.len() - 1].term
        }
    }

    /// Appends one entry at the end.
    pub fn push(&mut self, entry: &Log)
        ensures
            final(self)@ =~~= old(self)@.push(entry@),
    {
        self.0.push(entry.clone());
    }

    /// The suffix starting at index `start`: empty when `start` equals the
    /// length, absent when `start` exceeds it.
    pub fn slice_from(&self, start: u64) -> (r: Option<Logs>)
        ensures
            start <= self@.len() ==> (r matches Some(s) && s@ =~~= self@.skip(start as int)),
            start > self@.len() ==> (r is None),
    {
        if start <= self.0.len() as u64 {
            let mut out: Vec<Log> = Vec::new();
            let mut i: usize = start as usize;
            while i < self.0.len()
                invariant
                    start <= i <= self.0.len(),
                    out@.len() == i - start,
                    forall|j: int| 0 <= j < i - start ==> out@[j]@ == self.0@[start + j]@,
                decreases self.0.len() - i,
            {
                out.push(self.0[i].clone());
                i = i + 1;
            }
            let r = Logs(out);
            proof {
                assert forall|j: int| 0 <= j < r@.len() implies r@[j]
                    == self@.skip(start as int)[j] by {
                    assert(r@[j] == r.0@[j]@);
                    assert(self@[start + j] == self.0@[start + j]@);
                }
                assert(r@ =~~= self@.skip(start as int));
            }
            Some(r)
        } else {
            None
        }
    }

    /// The prefix of length `end`; absent when `end` exceeds the length.
    pub fn slice_to(&self, end: u64) -> (r: Option<Logs>)
        ensures
            end <= self@.len() ==> (r matches Some(s) && s@ =~~= self@.take(end as int)),
            end > self@.len() ==> (r is None),
    {
        if end <= self.0.len() as u64 {
            let mut out: Vec<Log> = Vec::new();
            let end_us: usize = end as usize;
            let mut i: usize = 0;
            while i < end_us
                invariant
                    end_us == end,
                    end <= self.0@.len(),
                    i <= end_us,
                    out@.len() == i,
                    forall|j: int| 0 <= j < i ==> out@[j]@ == self.0@[j]@,
                decreases end_us - i,
            {
                out.push(self.0[i].clone());
                i = i + 1;
            }
            let r = Logs(out);
            proof {
                assert forall|j: int| 0 <= j < r@.len() implies r@[j]
                    == self@.take(end as int)[j] by {
                    assert(r@[j] == r.0@[j]@);
                    assert(self@[j] == self.0@[j]@);
                }
                assert(r@ =~~= self@.take(end as int));
            }
            Some(r)
        } else {
            None
        }
    }

    /// Replaces the whole log with `entries`.
    pub fn replace_all(&mut self, entries: &Logs)
        ensures
            final(self)@ == entries@,
    {
        self.0 = clone_entries(&entries.0);
    }

    /// A copy of the entries as a plain vector.
    pub fn to_vec(&self) -> (r: Vec<Log>)
        ensures
            r.deep_view() == self@,
    {
        clone_entries(&self.0)
    }
}

impl Clone for Logs {
    fn clone(&self) -> (r: Self)
        ensures
            r@ == self@,
    {
        Logs(clone_entries(&self.0))
    }
}

} // verus!
