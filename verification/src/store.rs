//! The storage layer: the three tables, and the operations that write them
//! while keeping the integrity rules.

use crate::date::{Date, LAST_DAY};
use crate::error::Error;
use crate::model::{
    kept_entries, lemma_kept_entries_push, BlockView, EntryView, ProjectView, StoreView,
};
use crate::period::parse;
use crate::text::same;
use vstd::prelude::*;

verus! {

/// A row of the project table.
#[derive(Clone, PartialEq, Eq, Debug)]
pub struct Project {
    pub name: String,
    pub refresh: String,
}

/// A row of the block table.
#[derive(Clone, PartialEq, Eq, Debug)]
pub struct Block {
    pub project: String,
    pub name: String,
    pub target_minutes: i32,
}

/// A row of the entry table.
#[derive(Clone, PartialEq, Eq, Debug)]
pub struct Entry {
    pub project: String,
    pub block: String,
    pub minutes: i32,
    pub date: Date,
}

impl View for Project {
    type V = ProjectView;

    open spec fn view(&self) -> ProjectView {
        ProjectView { name: self.name@, refresh: self.refresh@ }
    }
}

impl View for Block {
    type V = BlockView;

    open spec fn view(&self) -> BlockView {
        BlockView {
            project: self.project@,
            name: self.name@,
            target_minutes: self.target_minutes as int,
        }
    }
}

impl View for Entry {
    type V = EntryView;

    open spec fn view(&self) -> EntryView {
        EntryView {
            project: self.project@,
            block: self.block@,
            minutes: self.minutes as int,
            date: self.date@,
        }
    }
}

/// The project table that `rows` stand for.
pub open spec fn project_views(rows: Seq<Project>) -> Seq<ProjectView> {
    rows.map_values(|p: Project| p@)
}

/// The block table that `rows` stand for.
pub open spec fn block_views(rows: Seq<Block>) -> Seq<BlockView> {
    rows.map_values(|b: Block| b@)
}

/// The entry table that `rows` stand for.
pub open spec fn entry_views(rows: Seq<Entry>) -> Seq<EntryView> {
    rows.map_values(|e: Entry| e@)
}

/// The store that three tables of rows stand for.
pub open spec fn tables_view(projects: Seq<Project>, blocks: Seq<Block>, entries: Seq<Entry>)
    -> StoreView {
    StoreView {
        projects: project_views(projects),
        blocks: block_views(blocks),
        entries: entry_views(entries),
    }
}

/// The tables of projects, blocks and entries.
#[derive(Debug)]
pub struct Store {
    projects: Vec<Project>,
    blocks: Vec<Block>,
    entries: Vec<Entry>,
}

impl View for Store {
    type V = StoreView;

    closed spec fn view(&self) -> StoreView {
        StoreView {
            projects: project_views(self.projects@),
            blocks: block_views(self.blocks@),
            entries: entry_views(self.entries@),
        }
    }
}

impl Store {
    /// Whether the tables keep the integrity rules. Every operation keeps them.
    pub open spec fn wf(&self) -> bool {
        self@.wf()
    }

    /// A store with no rows.
    pub fn new() -> (s: Store)
        ensures
            s.wf(),
            s@ == StoreView::empty(),
    {
        let s = Store { projects: Vec::new(), blocks: Vec::new(), entries: Vec::new() };
        assert(s@.projects =~= Seq::empty());
        assert(s@.blocks =~= Seq::empty());
        assert(s@.entries =~= Seq::empty());
        s
    }

    /// A store over three tables of rows, if the rows keep the integrity
    /// rules; rows that break a rule are refused as a whole.
    pub fn from_tables(projects: Vec<Project>, blocks: Vec<Block>, entries: Vec<Entry>) -> (r:
        Result<Store, Error>)
        ensures
            match r {
                Ok(store) => store.wf() && store@ == tables_view(projects@, blocks@, entries@),
                Err(e) => e == Error::PersistenceFailure && !tables_view(
                    projects@,
                    blocks@,
                    entries@,
                ).wf(),
            },
    {
        let store = Store { projects, blocks, entries };
        if store.projects_distinct() && store.blocks_sound() && store.blocks_distinct()
            && store.entries_sound() {
            Ok(store)
        } else {
            Err(Error::PersistenceFailure)
        }
    }

    fn projects_distinct(&self) -> (ok: bool)
        ensures
            ok == self@.projects_distinct(),
    {
        let mut i: usize = 0;
        while i < self.projects.len()
            invariant
                0 <= i <= self.projects.len(),
                forall|a: int, b: int|
                    0 <= a < b < i ==> (#[trigger] self@.projects[a]).name != (
                    #[trigger] self@.projects[b]).name,
            decreases self.projects.len() - i,
        {
            let mut j: usize = 0;
            while j < i
                invariant
                    0 <= j <= i < self.projects.len(),
                    forall|a: int|
                        0 <= a < j ==> (#[trigger] self@.projects[a]).name
                            != self@.projects[i as int].name,
                decreases i - j,
            {
                if same(self.projects[j].name.as_str(), self.projects[i].name.as_str()) {
                    assert(self@.projects[j as int].name == self@.projects[i as int].name);
                    return false;
                }
                j += 1;
            }
            i += 1;
        }
        true
    }

    fn blocks_distinct(&self) -> (ok: bool)
        ensures
            ok == self@.blocks_distinct(),
    {
        let mut i: usize = 0;
        while i < self.blocks.len()
            invariant
                0 <= i <= self.blocks.len(),
                forall|a: int, b: int|
                    0 <= a < b < i ==> !((#[trigger] self@.blocks[a]).project == (
                    #[trigger] self@.blocks[b]).project && self@.blocks[a].name
                        == self@.blocks[b].name),
            decreases self.blocks.len() - i,
        {
            let mut j: usize = 0;
            while j < i
                invariant
                    0 <= j <= i < self.blocks.len(),
                    forall|a: int|
                        0 <= a < j ==> !((#[trigger] self@.blocks[a]).project
                            == self@.blocks[i as int].project && self@.blocks[a].name
                            == self@.blocks[i as int].name),
                decreases i - j,
            {
                if same(self.blocks[j].project.as_str(), self.blocks[i].project.as_str()) && same(
                    self.blocks[j].name.as_str(),
                    self.blocks[i].name.as_str(),
                ) {
                    assert(self@.blocks[j as int].project == self@.blocks[i as int].project
                        && self@.blocks[j as int].name == self@.blocks[i as int].name);
                    return false;
                }
                j += 1;
            }
            i += 1;
        }
        true
    }

    fn blocks_sound(&self) -> (ok: bool)
        ensures
            ok == self@.blocks_sound(),
    {
        let mut i: usize = 0;
        while i < self.blocks.len()
            invariant
                0 <= i <= self.blocks.len(),
                forall|a: int|
                    0 <= a < i ==> self@.has_project((#[trigger] self@.blocks[a]).project)
                        && self@.blocks[a].target_minutes >= 0,
            decreases self.blocks.len() - i,
        {
            if self.blocks[i].target_minutes < 0 || !self.has_project(
                self.blocks[i].project.as_str(),
            ) {
                assert(!(self@.has_project(self@.blocks[i as int].project)
                    && self@.blocks[i as int].target_minutes >= 0));
                return false;
            }
            i += 1;
        }
        true
    }

    fn entries_sound(&self) -> (ok: bool)
        ensures
            ok == self@.entries_sound(),
    {
        let mut i: usize = 0;
        while i < self.entries.len()
            invariant
                0 <= i <= self.entries.len(),
                forall|a: int|
                    0 <= a < i ==> self@.has_block(
                        (#[trigger] self@.entries[a]).project,
                        self@.entries[a].block,
                    ) && self@.entries[a].minutes > 0 && 1 <= self@.entries[a].date <= LAST_DAY,
            decreases self.entries.len() - i,
        {
            let e = &self.entries[i];
            let day = e.date.day_number();
            if e.minutes <= 0 || day < 1 || day > LAST_DAY || !self.has_block(
                e.project.as_str(),
                e.block.as_str(),
            ) {
                assert(!(self@.has_block(
                    self@.entries[i as int].project,
                    self@.entries[i as int].block,
                ) && self@.entries[i as int].minutes > 0 && 1 <= self@.entries[i as int].date
                    <= LAST_DAY));
                return false;
            }
            i += 1;
        }
        true
    }

    /// The project table.
    pub fn projects(&self) -> (rows: &Vec<Project>)
        ensures
            project_views(rows@) == self@.projects,
    {
        &self.projects
    }

    /// The block table.
    pub fn blocks(&self) -> (rows: &Vec<Block>)
        ensures
            block_views(rows@) == self@.blocks,
    {
        &self.blocks
    }

    /// The entry table.
    pub fn entries(&self) -> (rows: &Vec<Entry>)
        ensures
            entry_views(rows@) == self@.entries,
    {
        &self.entries
    }

    /// Where the project called `name` stands in the project table.
    pub fn find_project(&self, name: &str) -> (r: Option<usize>)
        ensures
            match r {
                Some(i) => i < self@.projects.len() && self@.projects[i as int].name == name@,
                None => !self@.has_project(name@),
            },
    {
        let mut i: usize = 0;
        while i < self.projects.len()
            invariant
                0 <= i <= self.projects.len(),
                forall|j: int| 0 <= j < i ==> (#[trigger] self@.projects[j]).name != name@,
            decreases self.projects.len() - i,
        {
            if same(self.projects[i].name.as_str(), name) {
                return Some(i);
            }
            i += 1;
        }
        None
    }

    /// Where the block `name` of `project` stands in the block table.
    pub fn find_block(&self, project: &str, name: &str) -> (r: Option<usize>)
        ensures
            match r {
                Some(i) => i < self@.blocks.len() && self@.blocks[i as int].project == project@
                    && self@.blocks[i as int].name == name@,
                None => !self@.has_block(project@, name@),
            },
    {
        let mut i: usize = 0;
        while i < self.blocks.len()
            invariant
                0 <= i <= self.blocks.len(),
                forall|j: int|
                    0 <= j < i ==> !((#[trigger] self@.blocks[j]).project == project@
                        && self@.blocks[j].name == name@),
            decreases self.blocks.len() - i,
        {
            if same(self.blocks[i].project.as_str(), project) && same(
                self.blocks[i].name.as_str(),
                name,
            ) {
                return Some(i);
            }
            i += 1;
        }
        None
    }

    /// Whether a project is called `name`.
    pub fn has_project(&self, name: &str) -> (r: bool)
        ensures
            r == self@.has_project(name@),
    {
        self.find_project(name).is_some()
    }

    /// Whether `project` has a block called `name`.
    pub fn has_block(&self, project: &str, name: &str) -> (r: bool)
        ensures
            r == self@.has_block(project@, name@),
    {
        self.find_block(project, name).is_some()
    }

    /// Creates a project with its refresh period.
    pub fn create_project(&mut self, name: &str, refresh: &str) -> (r: Result<(), Error>)
        requires
            old(self).wf(),
        ensures
            final(self).wf(),
            match old(self)@.create_project(name@, refresh@) {
                Ok(next) => r == Ok::<(), Error>(()) && final(self)@ == next,
                Err(e) => r == Err::<(), Error>(e) && final(self)@ == old(self)@,
            },
    {
        if self.has_project(name) {
            return Err(Error::DuplicateProject);
        }
        if parse(refresh).is_err() {
            return Err(Error::InvalidPeriodFormat);
        }
        let row = Project { name: name.to_owned(), refresh: refresh.to_owned() };
        self.projects.push(row);
        proof {
            let next = old(self)@.create_project(name@, refresh@)->Ok_0;
            assert(self@.projects =~= next.projects);
            old(self)@.lemma_create_project_wf(name@, refresh@);
        }
        Ok(())
    }

    /// Adds a block to a project.
    pub fn add_block(&mut self, project: &str, name: &str, target_minutes: i32) -> (r: Result<
        (),
        Error,
    >)
        requires
            old(self).wf(),
        ensures
            final(self).wf(),
            match old(self)@.add_block(project@, name@, target_minutes as int) {
                Ok(next) => r == Ok::<(), Error>(()) && final(self)@ == next,
                Err(e) => r == Err::<(), Error>(e) && final(self)@ == old(self)@,
            },
    {
        if !self.has_project(project) {
            return Err(Error::ProjectNotFound);
        }
        if self.has_block(project, name) {
            return Err(Error::DuplicateBlock);
        }
        if target_minutes < 0 {
            return Err(Error::InvalidDuration);
        }
        let row = Block { project: project.to_owned(), name: name.to_owned(), target_minutes };
        self.blocks.push(row);
        proof {
            let next = old(self)@.add_block(project@, name@, target_minutes as int)->Ok_0;
            assert(self@.blocks =~= next.blocks);
            old(self)@.lemma_add_block_wf(project@, name@, target_minutes as int);
        }
        Ok(())
    }

    /// Logs minutes against a block on a day. Entries are never merged: each
    /// call that succeeds adds a row.
    pub fn add_entry(&mut self, project: &str, block: &str, minutes: i32, date: Date) -> (r:
        Result<(), Error>)
        requires
            old(self).wf(),
        ensures
            final(self).wf(),
            match old(self)@.add_entry(project@, block@, minutes as int, date@) {
                Ok(next) => r == Ok::<(), Error>(()) && final(self)@ == next,
                Err(e) => r == Err::<(), Error>(e) && final(self)@ == old(self)@,
            },
    {
        if minutes <= 0 {
            return Err(Error::InvalidDuration);
        }
        if !self.has_project(project) {
            return Err(Error::ProjectNotFound);
        }
        if !self.has_block(project, block) {
            return Err(Error::BlockNotFound);
        }
        let row = Entry { project: project.to_owned(), block: block.to_owned(), minutes, date };
        self.entries.push(row);
        proof {
            use_type_invariant(&date);
            let next = old(self)@.add_entry(project@, block@, minutes as int, date@)->Ok_0;
            assert(self@.entries =~= next.entries);
            old(self)@.lemma_add_entry_wf(project@, block@, minutes as int, date@);
        }
        Ok(())
    }

    /// Deletes every entry of `project` that is dated before `cutoff`, all of
    /// them in one step, and says how many there were.
    pub fn delete_entries_before(&mut self, project: &str, cutoff: Date) -> (removed: usize)
        requires
            old(self).wf(),
        ensures
            final(self).wf(),
            final(self)@ == old(self)@.delete_entries_before(project@, cutoff@),
            removed == old(self)@.entries.len() - final(self)@.entries.len(),
    {
        let mut rows: Vec<Entry> = Vec::new();
        core::mem::swap(&mut self.entries, &mut rows);
        let ghost all = entry_views(rows@);
        let total = rows.len();
        let mut kept: Vec<Entry> = Vec::new();
        let mut removed: usize = 0;
        for e in it: rows
            invariant
                all == entry_views(it.seq()),
                all.len() == total,
                entry_views(kept@) == kept_entries(all.take(it.index()), project@, cutoff@),
                removed + kept.len() == it.index(),
        {
            proof {
                let i = it.index();
                assert(all.take(i + 1) =~= all.take(i).push(e@));
                lemma_kept_entries_push(all.take(i), e@, project@, cutoff@);
            }
            if same(e.project.as_str(), project) && e.date.is_before(&cutoff) {
                removed += 1;
            } else {
                proof {
                    assert(entry_views(kept@.push(e)) =~= entry_views(kept@).push(e@));
                }
                kept.push(e);
            }
        }
        self.entries = kept;
        proof {
            assert(all.take(all.len() as int) =~= all);
            old(self)@.lemma_delete_entries_wf(project@, cutoff@);
        }
        removed
    }
}

} // verus!
