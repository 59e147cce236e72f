//! What a store holds, as mathematics: three tables of rows, the integrity
//! rules between them, and each operation as a function from one state of
//! the tables to the next.

use crate::date::LAST_DAY;
use crate::error::Error;
use crate::period::period_days;
use vstd::prelude::*;

verus! {

/// A project: a name and the refresh period it was created with, as written.
pub struct ProjectView {
    pub name: Seq<char>,
    pub refresh: Seq<char>,
}

/// A block: a named activity of one project, with a goal in minutes.
pub struct BlockView {
    pub project: Seq<char>,
    pub name: Seq<char>,
    pub target_minutes: int,
}

/// An entry: minutes logged against one block on one day (the day's number).
pub struct EntryView {
    pub project: Seq<char>,
    pub block: Seq<char>,
    pub minutes: int,
    pub date: int,
}

/// The three tables, each in the order in which its rows were added.
pub struct StoreView {
    pub projects: Seq<ProjectView>,
    pub blocks: Seq<BlockView>,
    pub entries: Seq<EntryView>,
}

/// Whether the sweeper removes entry `e` when it cleans `project` up to `cutoff`:
/// the entry belongs to the project and is dated before the cutoff.
pub open spec fn expired(e: EntryView, project: Seq<char>, cutoff: int) -> bool {
    e.project == project && e.date < cutoff
}

/// The test that an entry passes if a cleanup of `project` up to `cutoff` keeps it.
pub open spec fn keeps(project: Seq<char>, cutoff: int) -> spec_fn(EntryView) -> bool {
    |e: EntryView| !expired(e, project, cutoff)
}

/// The entries that a cleanup of `project` up to `cutoff` leaves, in their order.
pub open spec fn kept_entries(entries: Seq<EntryView>, project: Seq<char>, cutoff: int) -> Seq<
    EntryView,
> {
    entries.filter(keeps(project, cutoff))
}

/// A cleanup looks at each entry by itself: what it leaves of a table with one
/// more entry is what it leaves of the table, and that entry if it is kept.
pub proof fn lemma_kept_entries_push(
    entries: Seq<EntryView>,
    e: EntryView,
    project: Seq<char>,
    cutoff: int,
)
    ensures
        kept_entries(entries.push(e), project, cutoff) == if expired(e, project, cutoff) {
            kept_entries(entries, project, cutoff)
        } else {
            kept_entries(entries, project, cutoff).push(e)
        },
{
    entries.lemma_filter_push(e, keeps(project, cutoff));
}

/// What a cleanup leaves was there before, and is not expired.
pub proof fn lemma_kept_entries_were_there(
    entries: Seq<EntryView>,
    project: Seq<char>,
    cutoff: int,
    i: int,
)
    requires
        0 <= i < kept_entries(entries, project, cutoff).len(),
    ensures
        entries.contains(kept_entries(entries, project, cutoff)[i]),
        !expired(kept_entries(entries, project, cutoff)[i], project, cutoff),
{
    let kept = kept_entries(entries, project, cutoff);
    assert(kept.contains(kept[i]));
    entries.lemma_filter_contains_rev(keeps(project, cutoff), kept[i]);
    entries.lemma_filter_pred(keeps(project, cutoff), i);
}

/// The goal of the block `name` of `project` in a table of blocks.
pub open spec fn target_in(blocks: Seq<BlockView>, project: Seq<char>, name: Seq<char>) -> int {
    let i = choose|i: int|
        0 <= i < blocks.len() && (#[trigger] blocks[i]).project == project && blocks[i].name
            == name;
    blocks[i].target_minutes
}

/// No entry is dated before day 1, so a cutoff before day 1 deletes what a
/// cutoff of day 1 deletes: nothing.
pub proof fn lemma_kept_entries_early_cutoff(
    entries: Seq<EntryView>,
    project: Seq<char>,
    cutoff: int,
)
    requires
        forall|i: int| 0 <= i < entries.len() ==> (#[trigger] entries[i]).date >= 1,
    ensures
        kept_entries(entries, project, cutoff) == kept_entries(
            entries,
            project,
            if cutoff >= 1 {
                cutoff
            } else {
                1
            },
        ),
    decreases entries.len(),
{
    let floor = if cutoff >= 1 {
        cutoff
    } else {
        1
    };
    if entries.len() == 0 {
        entries.lemma_filter_len(keeps(project, cutoff));
        entries.lemma_filter_len(keeps(project, floor));
        assert(kept_entries(entries, project, cutoff) =~= kept_entries(entries, project, floor));
    } else {
        let fewer = entries.drop_last();
        let last = entries.last();
        assert(entries =~= fewer.push(last));
        assert forall|i: int| 0 <= i < fewer.len() implies (#[trigger] fewer[i]).date >= 1 by {
            assert(fewer[i] == entries[i]);
        }
        lemma_kept_entries_early_cutoff(fewer, project, cutoff);
        lemma_kept_entries_push(fewer, last, project, cutoff);
        lemma_kept_entries_push(fewer, last, project, floor);
    }
}

impl StoreView {
    /// The store with no rows.
    pub open spec fn empty() -> StoreView {
        StoreView { projects: Seq::empty(), blocks: Seq::empty(), entries: Seq::empty() }
    }

    /// Whether a project is called `name`.
    pub open spec fn has_project(self, name: Seq<char>) -> bool {
        exists|i: int| 0 <= i < self.projects.len() && (#[trigger] self.projects[i]).name == name
    }

    /// The refresh period of the project called `name`, as it was written.
    pub open spec fn refresh_of(self, name: Seq<char>) -> Seq<char>
        recommends
            self.has_project(name),
    {
        let i = choose|i: int|
            0 <= i < self.projects.len() && (#[trigger] self.projects[i]).name == name;
        self.projects[i].refresh
    }

    /// Whether `project` has a block called `name`.
    pub open spec fn has_block(self, project: Seq<char>, name: Seq<char>) -> bool {
        exists|i: int|
            0 <= i < self.blocks.len() && (#[trigger] self.blocks[i]).project == project
                && self.blocks[i].name == name
    }

    /// The goal of the block `name` of `project`.
    pub open spec fn target_of(self, project: Seq<char>, name: Seq<char>) -> int
        recommends
            self.has_block(project, name),
    {
        target_in(self.blocks, project, name)
    }

    /// No two projects share a name.
    pub open spec fn projects_distinct(self) -> bool {
        forall|i: int, j: int|
            0 <= i < j < self.projects.len() ==> (#[trigger] self.projects[i]).name != (
            #[trigger] self.projects[j]).name
    }

    /// No two blocks of one project share a name.
    pub open spec fn blocks_distinct(self) -> bool {
        forall|i: int, j: int|
            0 <= i < j < self.blocks.len() ==> !((#[trigger] self.blocks[i]).project == (
            #[trigger] self.blocks[j]).project && self.blocks[i].name == self.blocks[j].name)
    }

    /// Every block belongs to a project and has a goal that is not negative.
    pub open spec fn blocks_sound(self) -> bool {
        forall|i: int|
            0 <= i < self.blocks.len() ==> self.has_project((#[trigger] self.blocks[i]).project)
                && self.blocks[i].target_minutes >= 0
    }

    /// Every entry belongs to a block, logs a positive number of minutes and
    /// is dated within the calendar.
    pub open spec fn entries_sound(self) -> bool {
        forall|i: int|
            0 <= i < self.entries.len() ==> self.has_block(
                (#[trigger] self.entries[i]).project,
                self.entries[i].block,
            ) && self.entries[i].minutes > 0 && 1 <= self.entries[i].date <= LAST_DAY
    }

    /// The integrity rules of the store.
    pub open spec fn wf(self) -> bool {
        &&& self.projects_distinct()
        &&& self.blocks_distinct()
        &&& self.blocks_sound()
        &&& self.entries_sound()
    }

    /// The stored refresh period of a project is that of its one row.
    pub proof fn lemma_refresh_of(self, i: int)
        requires
            self.projects_distinct(),
            0 <= i < self.projects.len(),
        ensures
            self.has_project(self.projects[i].name),
            self.refresh_of(self.projects[i].name) == self.projects[i].refresh,
    {
        let name = self.projects[i].name;
        let k = choose|k: int| 0 <= k < self.projects.len() && (#[trigger] self.projects[k]).name == name;
        if k < i {
            assert(self.projects[k].name != self.projects[i].name);
        } else if i < k {
            assert(self.projects[i].name != self.projects[k].name);
        }
    }

    /// The goal of a block is that of its one row.
    pub proof fn lemma_target_of(self, i: int)
        requires
            self.blocks_distinct(),
            0 <= i < self.blocks.len(),
        ensures
            self.has_block(self.blocks[i].project, self.blocks[i].name),
            self.target_of(self.blocks[i].project, self.blocks[i].name)
                == self.blocks[i].target_minutes,
    {
        let project = self.blocks[i].project;
        let name = self.blocks[i].name;
        let k = choose|k: int|
            0 <= k < self.blocks.len() && (#[trigger] self.blocks[k]).project == project
                && self.blocks[k].name == name;
        if k < i {
            assert(!(self.blocks[k].project == self.blocks[i].project && self.blocks[k].name
                == self.blocks[i].name));
        } else if i < k {
            assert(!(self.blocks[i].project == self.blocks[k].project && self.blocks[i].name
                == self.blocks[k].name));
        }
    }

    /// A project that is there is still there once rows are added after it.
    pub proof fn lemma_has_project_stays(self, later: StoreView, name: Seq<char>)
        requires
            self.has_project(name),
            self.projects.is_prefix_of(later.projects),
        ensures
            later.has_project(name),
    {
        let k = choose|k: int| 0 <= k < self.projects.len() && (#[trigger] self.projects[k]).name == name;
        assert(later.projects[k].name == name);
    }

    /// A block that is there is still there once rows are added after it.
    pub proof fn lemma_has_block_stays(self, later: StoreView, project: Seq<char>, name: Seq<char>)
        requires
            self.has_block(project, name),
            self.blocks.is_prefix_of(later.blocks),
        ensures
            later.has_block(project, name),
    {
        let k = choose|k: int|
            0 <= k < self.blocks.len() && (#[trigger] self.blocks[k]).project == project
                && self.blocks[k].name == name;
        assert(later.blocks[k].project == project);
    }

    /// A store with one more project keeps the rules if the name is new.
    pub proof fn lemma_create_project_wf(self, name: Seq<char>, refresh: Seq<char>)
        requires
            self.wf(),
            self.create_project(name, refresh) is Ok,
        ensures
            self.create_project(name, refresh)->Ok_0.wf(),
    {
        let next = self.create_project(name, refresh)->Ok_0;
        assert forall|i: int| 0 <= i < next.blocks.len() implies next.has_project(
            (#[trigger] next.blocks[i]).project,
        ) by {
            self.lemma_has_project_stays(next, self.blocks[i].project);
        }
        assert forall|i: int| 0 <= i < next.entries.len() implies next.has_block(
            (#[trigger] next.entries[i]).project,
            next.entries[i].block,
        ) by {
            self.lemma_has_block_stays(next, self.entries[i].project, self.entries[i].block);
        }
    }

    /// A store with one more block keeps the rules if the project exists, the
    /// name is new in it and the goal is not negative.
    pub proof fn lemma_add_block_wf(self, project: Seq<char>, name: Seq<char>, target_minutes: int)
        requires
            self.wf(),
            self.add_block(project, name, target_minutes) is Ok,
        ensures
            self.add_block(project, name, target_minutes)->Ok_0.wf(),
    {
        let next = self.add_block(project, name, target_minutes)->Ok_0;
        assert forall|i: int| 0 <= i < next.blocks.len() implies next.has_project(
            (#[trigger] next.blocks[i]).project,
        ) && next.blocks[i].target_minutes >= 0 by {
            self.lemma_has_project_stays(next, next.blocks[i].project);
        }
        assert forall|i: int, j: int| 0 <= i < j < next.blocks.len() implies !((
        #[trigger] next.blocks[i]).project == (#[trigger] next.blocks[j]).project
            && next.blocks[i].name == next.blocks[j].name) by {
            if j < self.blocks.len() {
                assert(!(self.blocks[i].project == self.blocks[j].project && self.blocks[i].name
                    == self.blocks[j].name));
            } else {
                assert(self.blocks[i] == next.blocks[i]);
            }
        }
        assert forall|i: int| 0 <= i < next.entries.len() implies next.has_block(
            (#[trigger] next.entries[i]).project,
            next.entries[i].block,
        ) by {
            self.lemma_has_block_stays(next, self.entries[i].project, self.entries[i].block);
        }
    }

    /// A store with one more entry keeps the rules if the block exists, the
    /// minutes are positive and the day lies in the calendar.
    pub proof fn lemma_add_entry_wf(
        self,
        project: Seq<char>,
        block: Seq<char>,
        minutes: int,
        date: int,
    )
        requires
            self.wf(),
            1 <= date <= LAST_DAY,
            self.add_entry(project, block, minutes, date) is Ok,
        ensures
            self.add_entry(project, block, minutes, date)->Ok_0.wf(),
    {
        let next = self.add_entry(project, block, minutes, date)->Ok_0;
        assert forall|i: int| 0 <= i < next.blocks.len() implies next.has_project(
            (#[trigger] next.blocks[i]).project,
        ) by {
            self.lemma_has_project_stays(next, self.blocks[i].project);
        }
        assert forall|i: int| 0 <= i < next.entries.len() implies next.has_block(
            (#[trigger] next.entries[i]).project,
            next.entries[i].block,
        ) && next.entries[i].minutes > 0 && 1 <= next.entries[i].date <= LAST_DAY by {
            self.lemma_has_block_stays(next, next.entries[i].project, next.entries[i].block);
        }
    }

    /// A store keeps the rules when entries are deleted.
    pub proof fn lemma_delete_entries_wf(self, project: Seq<char>, cutoff: int)
        requires
            self.wf(),
        ensures
            self.delete_entries_before(project, cutoff).wf(),
    {
        let next = self.delete_entries_before(project, cutoff);
        assert forall|i: int| 0 <= i < next.blocks.len() implies next.has_project(
            (#[trigger] next.blocks[i]).project,
        ) by {
            self.lemma_has_project_stays(next, self.blocks[i].project);
        }
        assert forall|i: int| 0 <= i < next.entries.len() implies next.has_block(
            (#[trigger] next.entries[i]).project,
            next.entries[i].block,
        ) && next.entries[i].minutes > 0 && 1 <= next.entries[i].date <= LAST_DAY by {
            lemma_kept_entries_were_there(self.entries, project, cutoff, i);
            let k = choose|k: int| 0 <= k < self.entries.len() && self.entries[k] == next.entries[i];
            self.lemma_has_block_stays(next, self.entries[k].project, self.entries[k].block);
        }
    }

    /// Creating a project: refused if the name is taken, then if `refresh` is
    /// no period; else the project is added after the others.
    pub open spec fn create_project(self, name: Seq<char>, refresh: Seq<char>) -> Result<
        StoreView,
        Error,
    > {
        if self.has_project(name) {
            Err(Error::DuplicateProject)
        } else if period_days(refresh) is None {
            Err(Error::InvalidPeriodFormat)
        } else {
            Ok(
                StoreView {
                    projects: self.projects.push(ProjectView { name, refresh }),
                    ..self
                },
            )
        }
    }

    /// Adding a block: refused if the project is missing, then if it has a
    /// block of that name, then if the goal is negative; else the block is
    /// added after the others.
    pub open spec fn add_block(self, project: Seq<char>, name: Seq<char>, target_minutes: int)
        -> Result<StoreView, Error> {
        if !self.has_project(project) {
            Err(Error::ProjectNotFound)
        } else if self.has_block(project, name) {
            Err(Error::DuplicateBlock)
        } else if target_minutes < 0 {
            Err(Error::InvalidDuration)
        } else {
            Ok(
                StoreView {
                    blocks: self.blocks.push(BlockView { project, name, target_minutes }),
                    ..self
                },
            )
        }
    }

    /// Logging an entry: refused if the minutes are not positive, then if the
    /// project is missing, then if the block is; else the entry is added
    /// after the others, whatever they hold.
    pub open spec fn add_entry(self, project: Seq<char>, block: Seq<char>, minutes: int, date: int)
        -> Result<StoreView, Error> {
        if minutes <= 0 {
            Err(Error::InvalidDuration)
        } else if !self.has_project(project) {
            Err(Error::ProjectNotFound)
        } else if !self.has_block(project, block) {
            Err(Error::BlockNotFound)
        } else {
            Ok(
                StoreView {
                    entries: self.entries.push(EntryView { project, block, minutes, date }),
                    ..self
                },
            )
        }
    }

    /// Deleting every entry of `project` dated before `cutoff`.
    pub open spec fn delete_entries_before(self, project: Seq<char>, cutoff: int) -> StoreView {
        StoreView { entries: kept_entries(self.entries, project, cutoff), ..self }
    }

    /// Cleaning a project up on the day `today`: refused if the project is
    /// missing, then if its stored refresh period is no period; else every
    /// entry of the project dated more than that many days before `today`
    /// is deleted.
    pub open spec fn cleanup(self, project: Seq<char>, today: int) -> Result<StoreView, Error> {
        if !self.has_project(project) {
            Err(Error::ProjectNotFound)
        } else {
            match period_days(self.refresh_of(project)) {
                None => Err(Error::InvalidPeriodFormat),
                Some(days) => Ok(self.delete_entries_before(project, today - days)),
            }
        }
    }
}

} // verus!
