//! The engine facade: the one handle to a store, and the six operations that
//! callers see. Each operation runs the matching operation of the store and
//! reduces its outcome to a success flag; a refused operation changes nothing.

use crate::codec::{parse_store, store_bytes};
use crate::date::Date;
use crate::error::Error;
use crate::model::StoreView;
use crate::report::{block_info_views, daily_stat_views, BlockInfo, DailyStat};
use crate::store::Store;
use vstd::prelude::*;
use vstd::utf8::encode_utf8;

verus! {

/// A store behind the boundary operations.
#[derive(Debug)]
pub struct Engine {
    store: Store,
}

impl View for Engine {
    type V = StoreView;

    /// What the engine's store holds.
    closed spec fn view(&self) -> StoreView {
        self.store@
    }
}

impl Engine {
    /// Whether the engine's store keeps the integrity rules.
    pub open spec fn wf(&self) -> bool {
        self@.wf()
    }

    /// An engine over an empty store.
    pub fn new() -> (engine: Engine)
        ensures
            engine.wf(),
            engine@ == StoreView::empty(),
    {
        Engine { store: Store::new() }
    }

    /// An engine over `store`.
    pub fn with_store(store: Store) -> (engine: Engine)
        requires
            store.wf(),
        ensures
            engine.wf(),
            engine@ == store@,
    {
        Engine { store }
    }

    /// An engine over the store that `text` is the stored form of. Text that
    /// is not a stored form, or whose rows break the integrity rules, is
    /// refused.
    pub fn load(text: &str) -> (r: Result<Engine, Error>)
        ensures
            match r {
                Ok(engine) => engine.wf() && parse_store(encode_utf8(text@)) == Some(engine@),
                Err(e) => e == Error::PersistenceFailure && match parse_store(
                    encode_utf8(text@),
                ) {
                    Some(tables) => !tables.wf(),
                    None => true,
                },
            },
    {
        match Store::decode(text) {
            Ok(store) => Ok(Engine { store }),
            Err(e) => Err(e),
        }
    }

    /// The stored form of the engine's store, to keep until the next run.
    pub fn save(&self) -> (out: Vec<u8>)
        requires
            self.wf(),
        ensures
            out@ == store_bytes(self@),
    {
        self.store.encode()
    }

    /// The engine's store, to read.
    pub fn store(&self) -> (store: &Store)
        ensures
            store@ == self@,
    {
        &self.store
    }

    /// Gives the store back and ends the engine.
    pub fn into_store(self) -> (store: Store)
        ensures
            store@ == self@,
    {
        self.store
    }

    /// Creates a project. False if the name is taken or `refresh` is no period.
    pub fn create_project(&mut self, name: &str, refresh: &str) -> (ok: bool)
        requires
            old(self).wf(),
        ensures
            final(self).wf(),
            match old(self)@.create_project(name@, refresh@) {
                Ok(next) => ok && final(self)@ == next,
                Err(_) => !ok && final(self)@ == old(self)@,
            },
    {
        self.store.create_project(name, refresh).is_ok()
    }

    /// Adds a block to a project. False if the project is missing, has such
    /// a block already, or the goal is negative.
    pub fn add_block(&mut self, project: &str, block: &str, target_minutes: i32) -> (ok: bool)
        requires
            old(self).wf(),
        ensures
            final(self).wf(),
            match old(self)@.add_block(project@, block@, target_minutes as int) {
                Ok(next) => ok && final(self)@ == next,
                Err(_) => !ok && final(self)@ == old(self)@,
            },
    {
        self.store.add_block(project, block, target_minutes).is_ok()
    }

    /// Logs minutes against a block on a day. False if the minutes are not
    /// positive or the project or block is missing.
    pub fn log_entry(&mut self, project: &str, block: &str, minutes: i32, date: Date) -> (ok: bool)
        requires
            old(self).wf(),
        ensures
            final(self).wf(),
            match old(self)@.add_entry(project@, block@, minutes as int, date@) {
                Ok(next) => ok && final(self)@ == next,
                Err(_) => !ok && final(self)@ == old(self)@,
            },
    {
        self.store.add_entry(project, block, minutes, date).is_ok()
    }

    /// The blocks of a project with their totals; empty if there are none.
    pub fn get_blocks(&self, project: &str) -> (rows: Vec<BlockInfo>)
        requires
            self.wf(),
        ensures
            block_info_views(rows@) == self@.block_infos(project@),
    {
        self.store.list_blocks(project)
    }

    /// The daily report of a project; empty if it has no entries.
    pub fn get_report(&self, project: &str) -> (rows: Vec<DailyStat>)
        requires
            self.wf(),
        ensures
            self@.is_daily_stats(project@, daily_stat_views(rows@)),
    {
        self.store.daily_stats(project)
    }

    /// Deletes the entries of a project that are older, as of `today`, than
    /// its refresh period. False if the project is missing or its stored
    /// period cannot be read; nothing is deleted then.
    pub fn cleanup(&mut self, project: &str, today: Date) -> (ok: bool)
        requires
            old(self).wf(),
        ensures
            final(self).wf(),
            match old(self)@.cleanup(project@, today@) {
                Ok(next) => ok && final(self)@ == next,
                Err(_) => !ok && final(self)@ == old(self)@,
            },
    {
        self.store.cleanup(project, today).is_ok()
    }
}

} // verus!
