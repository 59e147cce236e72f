//! What holds of every store, proved from the operations' definitions.

use crate::error::Error;
use crate::model::{
    expired, keeps, kept_entries, lemma_kept_entries_were_there, BlockView, EntryView, StoreView,
};
use crate::period::period_days;
use crate::report::{
    any_selected, block_info, block_infos_of, lemma_report_unique, selected, BlockInfoView,
    DailyStatView,
};
use vstd::prelude::*;

verus! {

/// Once a project is created, creating one of the same name is refused as a
/// duplicate, whatever refresh period the second attempt gives.
pub proof fn lemma_second_project_is_duplicate(
    s: StoreView,
    name: Seq<char>,
    refresh: Seq<char>,
    again: Seq<char>,
)
    requires
        s.create_project(name, refresh) is Ok,
    ensures
        s.create_project(name, refresh)->Ok_0.create_project(name, again) == Err::<
            StoreView,
            Error,
        >(Error::DuplicateProject),
{
    let next = s.create_project(name, refresh)->Ok_0;
    assert(next.projects[s.projects.len() as int].name == name);
}

/// Once a block is added, adding one of the same name to the same project is
/// refused as a duplicate, whatever goal the second attempt gives.
pub proof fn lemma_second_block_is_duplicate(
    s: StoreView,
    project: Seq<char>,
    name: Seq<char>,
    target_minutes: int,
    again: int,
)
    requires
        s.add_block(project, name, target_minutes) is Ok,
    ensures
        s.add_block(project, name, target_minutes)->Ok_0.add_block(project, name, again) == Err::<
            StoreView,
            Error,
        >(Error::DuplicateBlock),
{
    let next = s.add_block(project, name, target_minutes)->Ok_0;
    s.lemma_has_project_stays(next, project);
    assert(next.blocks[s.blocks.len() as int].project == project);
}

/// A block cannot be added to a project that does not exist.
pub proof fn lemma_block_needs_project(
    s: StoreView,
    project: Seq<char>,
    name: Seq<char>,
    target_minutes: int,
)
    requires
        !s.has_project(project),
    ensures
        s.add_block(project, name, target_minutes) == Err::<StoreView, Error>(
            Error::ProjectNotFound,
        ),
{
}

/// Logging minutes that are zero or negative is refused as an invalid
/// duration, whatever else is given; the store then stays as it is.
pub proof fn lemma_minutes_must_be_positive(
    s: StoreView,
    project: Seq<char>,
    block: Seq<char>,
    minutes: int,
    date: int,
)
    requires
        minutes <= 0,
    ensures
        s.add_entry(project, block, minutes, date) == Err::<StoreView, Error>(
            Error::InvalidDuration,
        ),
{
}

/// Reading twice gives the same: a store has one list of blocks and one daily
/// report for each project name, so two reads of either with no write between
/// them agree.
pub proof fn lemma_reads_repeat(
    s: StoreView,
    project: Seq<char>,
    blocks1: Seq<BlockInfoView>,
    blocks2: Seq<BlockInfoView>,
    report1: Seq<DailyStatView>,
    report2: Seq<DailyStatView>,
)
    requires
        blocks1 == s.block_infos(project),
        blocks2 == s.block_infos(project),
        s.is_daily_stats(project, report1),
        s.is_daily_stats(project, report2),
    ensures
        blocks1 == blocks2,
        report1 == report2,
{
    lemma_report_unique(s.blocks, s.entries, project, report1, report2);
}

/// Every block of a project has its row in the project's list of blocks.
pub proof fn lemma_block_is_listed(
    blocks: Seq<BlockView>,
    entries: Seq<EntryView>,
    project: Seq<char>,
    i: int,
)
    requires
        0 <= i < blocks.len(),
        blocks[i].project == project,
    ensures
        block_infos_of(blocks, entries, project).contains(block_info(entries, blocks[i])),
    decreases blocks.len(),
{
    let rows = block_infos_of(blocks, entries, project);
    let fewer = block_infos_of(blocks.drop_last(), entries, project);
    if i == blocks.len() - 1 {
        assert(rows[rows.len() - 1] == block_info(entries, blocks[i]));
    } else {
        lemma_block_is_listed(blocks.drop_last(), entries, project, i);
        let k = choose|k: int| 0 <= k < fewer.len() && fewer[k] == block_info(entries, blocks[i]);
        assert(rows[k] == fewer[k]);
    }
}

/// A block is listed whether or not it has entries, and its row says which:
/// `has_data` is false while nothing is logged against the block, and true
/// from the first entry on.
pub proof fn lemma_has_data(
    s: StoreView,
    project: Seq<char>,
    block: Seq<char>,
    minutes: int,
    date: int,
)
    requires
        s.has_block(project, block),
    ensures
        exists|i: int|
            0 <= i < s.block_infos(project).len() && (#[trigger] s.block_infos(project)[i]).name
                == block && s.block_infos(project)[i].has_data == any_selected(
                s.entries,
                project,
                block,
                None,
            ),
        s.add_entry(project, block, minutes, date) is Ok ==> exists|i: int|
            0 <= i < s.add_entry(project, block, minutes, date)->Ok_0.block_infos(project).len()
                && (#[trigger] s.add_entry(project, block, minutes, date)->Ok_0.block_infos(
                project,
            )[i]).name == block && s.add_entry(project, block, minutes, date)->Ok_0.block_infos(
                project,
            )[i].has_data,
{
    let b = choose|b: int|
        0 <= b < s.blocks.len() && (#[trigger] s.blocks[b]).project == project && s.blocks[b].name
            == block;
    lemma_block_is_listed(s.blocks, s.entries, project, b);
    let rows = s.block_infos(project);
    let i = choose|i: int| 0 <= i < rows.len() && rows[i] == block_info(s.entries, s.blocks[b]);
    assert(rows[i].name == block);
    if s.add_entry(project, block, minutes, date) is Ok {
        let next = s.add_entry(project, block, minutes, date)->Ok_0;
        lemma_block_is_listed(next.blocks, next.entries, project, b);
        let after = next.block_infos(project);
        let j = choose|j: int|
            0 <= j < after.len() && after[j] == block_info(next.entries, next.blocks[b]);
        assert(selected(next.entries[s.entries.len() as int], project, block, None));
        assert(after[j].name == block && after[j].has_data);
    }
}

/// A project without blocks has an empty list of blocks, and a project
/// without entries an empty daily report; so has a project that does not
/// exist.
pub proof fn lemma_nothing_to_report(
    s: StoreView,
    project: Seq<char>,
    report: Seq<DailyStatView>,
)
    requires
        s.is_daily_stats(project, report),
    ensures
        (forall|i: int| 0 <= i < s.blocks.len() ==> (#[trigger] s.blocks[i]).project != project)
            ==> s.block_infos(project).len() == 0,
        (forall|k: int| 0 <= k < s.entries.len() ==> (#[trigger] s.entries[k]).project != project)
            ==> report.len() == 0,
        s.wf() && !s.has_project(project) ==> s.block_infos(project).len() == 0 && report.len()
            == 0,
{
    if forall|i: int| 0 <= i < s.blocks.len() ==> (#[trigger] s.blocks[i]).project != project {
        lemma_no_blocks_listed(s.blocks, s.entries, project);
    }
    if forall|k: int| 0 <= k < s.entries.len() ==> (#[trigger] s.entries[k]).project != project {
        if report.len() > 0 {
            let r = report[0];
            let k = choose|k: int|
                0 <= k < s.entries.len() && selected(
                    #[trigger] s.entries[k],
                    project,
                    r.block_name,
                    Some(r.date),
                );
            assert(s.entries[k].project == project);
        }
    }
    if s.wf() && !s.has_project(project) {
        assert forall|i: int| 0 <= i < s.blocks.len() implies (#[trigger] s.blocks[i]).project
            != project by {
            assert(s.has_project(s.blocks[i].project));
        }
        assert forall|k: int| 0 <= k < s.entries.len() implies (#[trigger] s.entries[k]).project
            != project by {
            assert(s.has_block(s.entries[k].project, s.entries[k].block));
            let b = choose|b: int|
                0 <= b < s.blocks.len() && (#[trigger] s.blocks[b]).project
                    == s.entries[k].project && s.blocks[b].name == s.entries[k].block;
            assert(s.has_project(s.blocks[b].project));
        }
    }
}

/// Where no block belongs to a project, its list of blocks is empty.
pub proof fn lemma_no_blocks_listed(
    blocks: Seq<BlockView>,
    entries: Seq<EntryView>,
    project: Seq<char>,
)
    requires
        forall|i: int| 0 <= i < blocks.len() ==> (#[trigger] blocks[i]).project != project,
    ensures
        block_infos_of(blocks, entries, project).len() == 0,
    decreases blocks.len(),
{
    if blocks.len() > 0 {
        let fewer = blocks.drop_last();
        assert forall|i: int| 0 <= i < fewer.len() implies (#[trigger] fewer[i]).project
            != project by {
            assert(fewer[i] == blocks[i]);
        }
        lemma_no_blocks_listed(fewer, entries, project);
        assert(blocks[blocks.len() - 1].project != project);
    }
}

/// A cleanup deletes exactly what has aged out: it leaves projects and blocks
/// as they are; every entry it leaves was there before and either belongs to
/// another project or is dated no earlier than today less the period; and
/// every such entry is left.
pub proof fn lemma_cleanup_is_exact(s: StoreView, project: Seq<char>, today: int)
    requires
        s.cleanup(project, today) is Ok,
    ensures
        ({
            let next = s.cleanup(project, today)->Ok_0;
            let cutoff = today - period_days(s.refresh_of(project))->Some_0;
            &&& next.projects == s.projects
            &&& next.blocks == s.blocks
            &&& next.entries.len() <= s.entries.len()
            &&& forall|i: int|
                0 <= i < next.entries.len() ==> s.entries.contains(#[trigger] next.entries[i])
                    && (next.entries[i].project != project || next.entries[i].date >= cutoff)
            &&& forall|k: int|
                0 <= k < s.entries.len() && ((#[trigger] s.entries[k]).project != project
                    || s.entries[k].date >= cutoff) ==> next.entries.contains(s.entries[k])
        }),
{
    let next = s.cleanup(project, today)->Ok_0;
    let cutoff = today - period_days(s.refresh_of(project))->Some_0;
    assert(next.entries == kept_entries(s.entries, project, cutoff));
    s.entries.lemma_filter_len(keeps(project, cutoff));
    assert forall|i: int| 0 <= i < next.entries.len() implies s.entries.contains(
        #[trigger] next.entries[i],
    ) && (next.entries[i].project != project || next.entries[i].date >= cutoff) by {
        lemma_kept_entries_were_there(s.entries, project, cutoff, i);
    }
    assert forall|k: int|
        0 <= k < s.entries.len() && ((#[trigger] s.entries[k]).project != project
            || s.entries[k].date >= cutoff) implies next.entries.contains(s.entries[k]) by {
        assert(!expired(s.entries[k], project, cutoff));
        s.entries.lemma_filter_contains(keeps(project, cutoff), k);
    }
}

} // verus!
