//! The retention sweeper: deletes the entries of a project that have aged
//! out of its refresh period. The day that counts as today is given by the
//! caller, so that a cleanup can be repeated with the same outcome.

use crate::date::Date;
use crate::error::Error;
use crate::model::lemma_kept_entries_early_cutoff;
use crate::period::parse;
use crate::store::Store;
use vstd::prelude::*;

verus! {

impl Store {
    /// Cleans `project` up as of `today`, and says how many entries went.
    ///
    /// The refresh period is read anew from what the project has stored. All
    /// blocks of the project share the one cutoff, `today` less the period:
    /// entries dated before it are deleted, entries of that day or later stay.
    pub fn cleanup(&mut self, project: &str, today: Date) -> (r: Result<usize, Error>)
        requires
            old(self).wf(),
        ensures
            final(self).wf(),
            match old(self)@.cleanup(project@, today@) {
                Ok(next) => final(self)@ == next && r == Ok::<usize, Error>(
                    (old(self)@.entries.len() - next.entries.len()) as usize,
                ),
                Err(e) => final(self)@ == old(self)@ && r == Err::<usize, Error>(e),
            },
    {
        let found = self.find_project(project);
        if found.is_none() {
            return Err(Error::ProjectNotFound);
        }
        let i = found.unwrap();
        let rows = self.projects();
        proof {
            self@.lemma_refresh_of(i as int);
            assert(rows@[i as int]@ == self@.projects[i as int]);
        }
        let parsed = parse(rows[i].refresh.as_str());
        if parsed.is_err() {
            return Err(Error::InvalidPeriodFormat);
        }
        let days = parsed.unwrap().days;
        let cutoff = today.minus_days(days);
        let removed = self.delete_entries_before(project, cutoff);
        proof {
            let before = old(self)@;
            assert forall|k: int| 0 <= k < before.entries.len() implies (
            #[trigger] before.entries[k]).date >= 1 by {}
            lemma_kept_entries_early_cutoff(before.entries, project@, today@ - days);
        }
        Ok(removed)
    }
}

} // verus!
