//! The aggregation engine: totals per block, and totals per day and block,
//! computed from the entries each time they are asked for.

use crate::date::Date;
use crate::model::{target_in, BlockView, EntryView, StoreView};
use crate::store::{block_views, entry_views, Entry, Store};
use crate::text::{less, lemma_name_order, name_less, same};
use vstd::pervasive::VecAdditionalExecFns;
use vstd::prelude::*;

verus! {

/// The minutes logged against one block on one day, beside the block's goal.
#[derive(Clone, PartialEq, Eq, Debug)]
pub struct DailyStat {
    pub date: Date,
    pub block_name: String,
    pub total_minutes: u128,
    pub target_minutes: i32,
}

/// One block with its goal, the minutes logged against it on all days, and
/// whether anything was logged at all.
#[derive(Clone, PartialEq, Eq, Debug)]
pub struct BlockInfo {
    pub name: String,
    pub target_minutes: i32,
    pub total_minutes: u128,
    pub has_data: bool,
}

/// A [`DailyStat`] as mathematics; the date is the day's number.
pub struct DailyStatView {
    pub date: int,
    pub block_name: Seq<char>,
    pub total_minutes: int,
    pub target_minutes: int,
}

/// A [`BlockInfo`] as mathematics.
pub struct BlockInfoView {
    pub name: Seq<char>,
    pub target_minutes: int,
    pub total_minutes: int,
    pub has_data: bool,
}

impl View for DailyStat {
    type V = DailyStatView;

    open spec fn view(&self) -> DailyStatView {
        DailyStatView {
            date: self.date@,
            block_name: self.block_name@,
            total_minutes: self.total_minutes as int,
            target_minutes: self.target_minutes as int,
        }
    }
}

impl View for BlockInfo {
    type V = BlockInfoView;

    open spec fn view(&self) -> BlockInfoView {
        BlockInfoView {
            name: self.name@,
            target_minutes: self.target_minutes as int,
            total_minutes: self.total_minutes as int,
            has_data: self.has_data,
        }
    }
}

/// The rows that `rows` stand for.
pub open spec fn daily_stat_views(rows: Seq<DailyStat>) -> Seq<DailyStatView> {
    rows.map_values(|r: DailyStat| r@)
}

/// The rows that `rows` stand for.
pub open spec fn block_info_views(rows: Seq<BlockInfo>) -> Seq<BlockInfoView> {
    rows.map_values(|r: BlockInfo| r@)
}

/// Whether entry `e` was logged against `block` of `project`, on the day
/// `date` if one is given, on any day if none is.
pub open spec fn selected(e: EntryView, project: Seq<char>, block: Seq<char>, date: Option<int>)
    -> bool {
    e.project == project && e.block == block && (date is None || date == Some(e.date))
}

/// The sum of the minutes of the selected entries.
pub open spec fn sum_minutes(
    entries: Seq<EntryView>,
    project: Seq<char>,
    block: Seq<char>,
    date: Option<int>,
) -> int
    decreases entries.len(),
{
    if entries.len() == 0 {
        0
    } else {
        sum_minutes(entries.drop_last(), project, block, date) + if selected(
            entries.last(),
            project,
            block,
            date,
        ) {
            entries.last().minutes
        } else {
            0
        }
    }
}

/// Whether any entry is selected.
pub open spec fn any_selected(
    entries: Seq<EntryView>,
    project: Seq<char>,
    block: Seq<char>,
    date: Option<int>,
) -> bool {
    exists|i: int| 0 <= i < entries.len() && selected(#[trigger] entries[i], project, block, date)
}

/// The order of report rows: by day, and within a day by block name.
pub open spec fn key_before(d1: int, n1: Seq<char>, d2: int, n2: Seq<char>) -> bool {
    d1 < d2 || (d1 == d2 && name_less(n1, n2))
}

/// Row `a` stands before row `b` in a report.
pub open spec fn row_before(a: DailyStatView, b: DailyStatView) -> bool {
    key_before(a.date, a.block_name, b.date, b.block_name)
}

/// What is known of one block from the entries.
pub open spec fn block_info(entries: Seq<EntryView>, b: BlockView) -> BlockInfoView {
    BlockInfoView {
        name: b.name,
        target_minutes: b.target_minutes,
        total_minutes: sum_minutes(entries, b.project, b.name, None),
        has_data: any_selected(entries, b.project, b.name, None),
    }
}

/// One row for each of the `blocks` that belong to `project`, in their order.
pub open spec fn block_infos_of(blocks: Seq<BlockView>, entries: Seq<EntryView>, project: Seq<char>)
    -> Seq<BlockInfoView>
    decreases blocks.len(),
{
    if blocks.len() == 0 {
        Seq::empty()
    } else {
        let before = block_infos_of(blocks.drop_last(), entries, project);
        if blocks.last().project == project {
            before.push(block_info(entries, blocks.last()))
        } else {
            before
        }
    }
}

/// Whether `rows` is the daily report of `project` over the given tables: one
/// row for each day and block with an entry and no others, each with the sum
/// of that day's minutes for the block and with the block's goal, ordered by
/// day and then by block name.
pub open spec fn is_report(
    blocks: Seq<BlockView>,
    entries: Seq<EntryView>,
    project: Seq<char>,
    rows: Seq<DailyStatView>,
) -> bool {
    &&& forall|i: int, j: int|
        0 <= i < j < rows.len() ==> row_before(#[trigger] rows[i], #[trigger] rows[j])
    &&& forall|i: int|
        0 <= i < rows.len() ==> {
            let r = #[trigger] rows[i];
            &&& any_selected(entries, project, r.block_name, Some(r.date))
            &&& r.total_minutes == sum_minutes(entries, project, r.block_name, Some(r.date))
            &&& r.target_minutes == target_in(blocks, project, r.block_name)
        }
    &&& forall|k: int|
        0 <= k < entries.len() && (#[trigger] entries[k]).project == project ==> exists|i: int|
            0 <= i < rows.len() && (#[trigger] rows[i]).date == entries[k].date
                && rows[i].block_name == entries[k].block
}

impl StoreView {
    /// The blocks of `project` in the order of their creation, each with its
    /// goal, its total over all entries, and whether it has an entry.
    pub open spec fn block_infos(self, project: Seq<char>) -> Seq<BlockInfoView> {
        block_infos_of(self.blocks, self.entries, project)
    }

    /// Whether `rows` is the daily report of `project`.
    pub open spec fn is_daily_stats(self, project: Seq<char>, rows: Seq<DailyStatView>) -> bool {
        is_report(self.blocks, self.entries, project, rows)
    }
}

/// The order of report rows is a strict total order on (day, block name).
pub proof fn lemma_key_order(
    d1: int,
    n1: Seq<char>,
    d2: int,
    n2: Seq<char>,
    d3: int,
    n3: Seq<char>,
)
    ensures
        !key_before(d1, n1, d1, n1),
        key_before(d1, n1, d2, n2) && key_before(d2, n2, d3, n3) ==> key_before(d1, n1, d3, n3),
        key_before(d1, n1, d2, n2) || key_before(d2, n2, d1, n1) || (d1 == d2 && n1 == n2),
{
    lemma_name_order(n1, n2, n3);
    lemma_name_order(n1, n1, n1);
}

/// One more entry adds its minutes to the sums that select it, and to no other.
pub proof fn lemma_sum_minutes_push(
    entries: Seq<EntryView>,
    k: int,
    project: Seq<char>,
    block: Seq<char>,
    date: Option<int>,
)
    requires
        0 <= k < entries.len(),
    ensures
        sum_minutes(entries.take(k + 1), project, block, date) == sum_minutes(
            entries.take(k),
            project,
            block,
            date,
        ) + if selected(entries[k], project, block, date) {
            entries[k].minutes
        } else {
            0
        },
        any_selected(entries.take(k + 1), project, block, date) == (any_selected(
            entries.take(k),
            project,
            block,
            date,
        ) || selected(entries[k], project, block, date)),
{
    let more = entries.take(k + 1);
    let fewer = entries.take(k);
    assert(more.drop_last() =~= fewer);
    assert(more.last() == entries[k]);
    if any_selected(fewer, project, block, date) {
        let i = choose|i: int|
            0 <= i < fewer.len() && selected(#[trigger] fewer[i], project, block, date);
        assert(selected(more[i], project, block, date));
    }
    if selected(entries[k], project, block, date) {
        assert(selected(more[k], project, block, date));
    }
    if any_selected(more, project, block, date) {
        let i = choose|i: int|
            0 <= i < more.len() && selected(#[trigger] more[i], project, block, date);
        if i < k {
            assert(selected(fewer[i], project, block, date));
        }
    }
}

/// A sum of minutes that are not negative is not negative, and at most the
/// largest entry times the number of entries.
pub proof fn lemma_sum_minutes_bounds(
    entries: Seq<EntryView>,
    project: Seq<char>,
    block: Seq<char>,
    date: Option<int>,
    most: int,
)
    requires
        forall|i: int| 0 <= i < entries.len() ==> 0 <= (#[trigger] entries[i]).minutes <= most,
    ensures
        0 <= sum_minutes(entries, project, block, date) <= entries.len() * most,
    decreases entries.len(),
{
    if entries.len() > 0 {
        let fewer = entries.drop_last();
        assert forall|i: int| 0 <= i < fewer.len() implies 0 <= (#[trigger] fewer[i]).minutes
            <= most by {
            assert(fewer[i] == entries[i]);
        }
        lemma_sum_minutes_bounds(fewer, project, block, date, most);
        assert(0 <= entries[entries.len() - 1].minutes <= most);
        assert((entries.len() - 1) * most + most == entries.len() * most) by (nonlinear_arith);
    }
}

/// An entry of another project leaves the report of `project` as it is.
pub proof fn lemma_report_skip(
    blocks: Seq<BlockView>,
    entries: Seq<EntryView>,
    k: int,
    project: Seq<char>,
    rows: Seq<DailyStatView>,
)
    requires
        0 <= k < entries.len(),
        is_report(blocks, entries.take(k), project, rows),
        entries[k].project != project,
    ensures
        is_report(blocks, entries.take(k + 1), project, rows),
{
    let more = entries.take(k + 1);
    let fewer = entries.take(k);
    assert forall|i: int| 0 <= i < rows.len() implies {
        let r = #[trigger] rows[i];
        &&& any_selected(more, project, r.block_name, Some(r.date))
        &&& r.total_minutes == sum_minutes(more, project, r.block_name, Some(r.date))
    } by {
        lemma_sum_minutes_push(entries, k, project, rows[i].block_name, Some(rows[i].date));
    }
    assert forall|j: int| 0 <= j < more.len() && (#[trigger] more[j]).project == project implies (
    exists|i: int|
        0 <= i < rows.len() && (#[trigger] rows[i]).date == more[j].date && rows[i].block_name
            == more[j].block) by {
        assert(fewer[j] == more[j]);
    }
}

/// An entry for a day and block that has a row adds its minutes to that row.
pub proof fn lemma_report_add(
    blocks: Seq<BlockView>,
    entries: Seq<EntryView>,
    k: int,
    project: Seq<char>,
    rows: Seq<DailyStatView>,
    pos: int,
)
    requires
        0 <= k < entries.len(),
        is_report(blocks, entries.take(k), project, rows),
        entries[k].project == project,
        0 <= pos < rows.len(),
        rows[pos].date == entries[k].date,
        rows[pos].block_name == entries[k].block,
    ensures
        is_report(
            blocks,
            entries.take(k + 1),
            project,
            rows.update(
                pos,
                DailyStatView {
                    total_minutes: rows[pos].total_minutes + entries[k].minutes,
                    ..rows[pos]
                },
            ),
        ),
{
    let more = entries.take(k + 1);
    let fewer = entries.take(k);
    let e = entries[k];
    let next = rows.update(
        pos,
        DailyStatView { total_minutes: rows[pos].total_minutes + e.minutes, ..rows[pos] },
    );
    assert forall|i: int, j: int| 0 <= i < j < next.len() implies row_before(
        #[trigger] next[i],
        #[trigger] next[j],
    ) by {
        assert(row_before(rows[i], rows[j]));
    }
    assert forall|i: int| 0 <= i < next.len() implies {
        let r = #[trigger] next[i];
        &&& any_selected(more, project, r.block_name, Some(r.date))
        &&& r.total_minutes == sum_minutes(more, project, r.block_name, Some(r.date))
        &&& r.target_minutes == target_in(blocks, project, r.block_name)
    } by {
        let r = rows[i];
        lemma_sum_minutes_push(entries, k, project, r.block_name, Some(r.date));
        if i != pos {
            lemma_key_order(r.date, r.block_name, e.date, e.block, e.date, e.block);
            if i < pos {
                assert(row_before(rows[i], rows[pos]));
            } else {
                assert(row_before(rows[pos], rows[i]));
            }
        }
    }
    assert forall|j: int| 0 <= j < more.len() && (#[trigger] more[j]).project == project implies (
    exists|i: int|
        0 <= i < next.len() && (#[trigger] next[i]).date == more[j].date && next[i].block_name
            == more[j].block) by {
        if j < k {
            assert(fewer[j] == more[j]);
            let i = choose|i: int|
                0 <= i < rows.len() && (#[trigger] rows[i]).date == fewer[j].date
                    && rows[i].block_name == fewer[j].block;
            assert(next[i].date == more[j].date && next[i].block_name == more[j].block);
        } else {
            assert(next[pos].date == more[j].date && next[pos].block_name == more[j].block);
        }
    }
}

/// An entry for a day and block that has no row yet gets one, at its place in
/// the order, with its own minutes.
pub proof fn lemma_report_insert(
    blocks: Seq<BlockView>,
    entries: Seq<EntryView>,
    k: int,
    project: Seq<char>,
    rows: Seq<DailyStatView>,
    pos: int,
)
    requires
        0 <= k < entries.len(),
        is_report(blocks, entries.take(k), project, rows),
        entries[k].project == project,
        0 <= pos <= rows.len(),
        forall|j: int|
            0 <= j < pos ==> key_before(
                (#[trigger] rows[j]).date,
                rows[j].block_name,
                entries[k].date,
                entries[k].block,
            ),
        pos < rows.len() ==> key_before(
            entries[k].date,
            entries[k].block,
            rows[pos].date,
            rows[pos].block_name,
        ),
    ensures
        is_report(
            blocks,
            entries.take(k + 1),
            project,
            rows.insert(
                pos,
                DailyStatView {
                    date: entries[k].date,
                    block_name: entries[k].block,
                    total_minutes: entries[k].minutes,
                    target_minutes: target_in(blocks, project, entries[k].block),
                },
            ),
        ),
{
    let more = entries.take(k + 1);
    let fewer = entries.take(k);
    let e = entries[k];
    let fresh = DailyStatView {
        date: e.date,
        block_name: e.block,
        total_minutes: e.minutes,
        target_minutes: target_in(blocks, project, e.block),
    };
    let next = rows.insert(pos, fresh);
    // Every old row stands on one side of the new one.
    assert forall|i: int| 0 <= i < rows.len() implies (if i < pos {
        row_before(#[trigger] rows[i], fresh)
    } else {
        row_before(fresh, rows[i])
    }) by {
        if i > pos {
            assert(row_before(rows[pos], rows[i]));
            lemma_key_order(
                e.date,
                e.block,
                rows[pos].date,
                rows[pos].block_name,
                rows[i].date,
                rows[i].block_name,
            );
        }
    }
    assert forall|i: int, j: int| 0 <= i < j < next.len() implies row_before(
        #[trigger] next[i],
        #[trigger] next[j],
    ) by {
        let a = if i < pos { i } else { i - 1 };
        let b = if j < pos { j } else { j - 1 };
        if i != pos && j != pos {
            assert(row_before(rows[a], rows[b]));
        } else if i == pos {
            assert(row_before(fresh, rows[b]));
        } else {
            assert(row_before(rows[a], fresh));
        }
    }
    // No earlier entry is for the new row's day and block.
    if any_selected(fewer, project, e.block, Some(e.date)) {
        let j = choose|j: int|
            0 <= j < fewer.len() && selected(#[trigger] fewer[j], project, e.block, Some(e.date));
        let i = choose|i: int|
            0 <= i < rows.len() && (#[trigger] rows[i]).date == fewer[j].date
                && rows[i].block_name == fewer[j].block;
        lemma_key_order(e.date, e.block, e.date, e.block, e.date, e.block);
        assert(if i < pos { row_before(rows[i], fresh) } else { row_before(fresh, rows[i]) });
        assert(false);
    }
    assert forall|i: int| 0 <= i < next.len() implies {
        let r = #[trigger] next[i];
        &&& any_selected(more, project, r.block_name, Some(r.date))
        &&& r.total_minutes == sum_minutes(more, project, r.block_name, Some(r.date))
        &&& r.target_minutes == target_in(blocks, project, r.block_name)
    } by {
        let r = next[i];
        lemma_sum_minutes_push(entries, k, project, r.block_name, Some(r.date));
        if i == pos {
            lemma_sum_zero(fewer, project, e.block, Some(e.date));
        } else {
            let a = if i < pos { i } else { i - 1 };
            assert(r == rows[a]);
            lemma_key_order(r.date, r.block_name, e.date, e.block, e.date, e.block);
            assert(if a < pos { row_before(rows[a], fresh) } else { row_before(fresh, rows[a]) });
        }
    }
    assert forall|j: int| 0 <= j < more.len() && (#[trigger] more[j]).project == project implies (
    exists|i: int|
        0 <= i < next.len() && (#[trigger] next[i]).date == more[j].date && next[i].block_name
            == more[j].block) by {
        if j < k {
            assert(fewer[j] == more[j]);
            let i = choose|i: int|
                0 <= i < rows.len() && (#[trigger] rows[i]).date == fewer[j].date
                    && rows[i].block_name == fewer[j].block;
            let b = if i < pos { i } else { i + 1 };
            assert(next[b] == rows[i]);
        } else {
            assert(next[pos].date == more[j].date && next[pos].block_name == more[j].block);
        }
    }
}

/// A sum over entries of which none is selected is zero.
pub proof fn lemma_sum_zero(
    entries: Seq<EntryView>,
    project: Seq<char>,
    block: Seq<char>,
    date: Option<int>,
)
    requires
        !any_selected(entries, project, block, date),
    ensures
        sum_minutes(entries, project, block, date) == 0,
    decreases entries.len(),
{
    if entries.len() > 0 {
        let fewer = entries.drop_last();
        assert(!selected(entries[entries.len() - 1], project, block, date));
        if any_selected(fewer, project, block, date) {
            let i = choose|i: int|
                0 <= i < fewer.len() && selected(#[trigger] fewer[i], project, block, date);
            assert(selected(entries[i], project, block, date));
        }
        lemma_sum_zero(fewer, project, block, date);
    }
}

/// A report is determined by the tables: two reports of one project over the
/// same tables agree row by row, as far as both reach.
proof fn lemma_report_rows_agree(
    blocks: Seq<BlockView>,
    entries: Seq<EntryView>,
    project: Seq<char>,
    r1: Seq<DailyStatView>,
    r2: Seq<DailyStatView>,
    i: int,
)
    requires
        is_report(blocks, entries, project, r1),
        is_report(blocks, entries, project, r2),
        0 <= i < r1.len(),
        i < r2.len(),
    ensures
        r1[i] == r2[i],
    decreases i,
{
    assert forall|j: int| 0 <= j < i implies r1[j] == r2[j] by {
        lemma_report_rows_agree(blocks, entries, project, r1, r2, j);
    }
    let a = r1[i];
    let b = r2[i];
    // The row of r2 that has the key of r1[i], and the other way round.
    let ka = choose|k: int|
        0 <= k < entries.len() && selected(#[trigger] entries[k], project, a.block_name, Some(a.date));
    let m = choose|m: int|
        0 <= m < r2.len() && (#[trigger] r2[m]).date == entries[ka].date && r2[m].block_name
            == entries[ka].block;
    let kb = choose|k: int|
        0 <= k < entries.len() && selected(#[trigger] entries[k], project, b.block_name, Some(b.date));
    let n = choose|n: int|
        0 <= n < r1.len() && (#[trigger] r1[n]).date == entries[kb].date && r1[n].block_name
            == entries[kb].block;
    lemma_key_order(a.date, a.block_name, b.date, b.block_name, a.date, a.block_name);
    if m < i {
        assert(r1[m] == r2[m]);
        assert(row_before(r1[m], r1[i]));
    } else if n < i {
        assert(r1[n] == r2[n]);
        assert(row_before(r2[n], r2[i]));
    } else if m > i && n > i {
        assert(row_before(r2[i], r2[m]));
        assert(row_before(r1[i], r1[n]));
    }
}

/// A store has one daily report for each project: any two are the same.
pub proof fn lemma_report_unique(
    blocks: Seq<BlockView>,
    entries: Seq<EntryView>,
    project: Seq<char>,
    r1: Seq<DailyStatView>,
    r2: Seq<DailyStatView>,
)
    requires
        is_report(blocks, entries, project, r1),
        is_report(blocks, entries, project, r2),
    ensures
        r1 == r2,
{
    assert forall|i: int| 0 <= i < r1.len() && i < r2.len() implies r1[i] == r2[i] by {
        lemma_report_rows_agree(blocks, entries, project, r1, r2, i);
    }
    lemma_report_not_longer(blocks, entries, project, r1, r2);
    lemma_report_not_longer(blocks, entries, project, r2, r1);
    assert(r1 =~= r2);
}

proof fn lemma_report_not_longer(
    blocks: Seq<BlockView>,
    entries: Seq<EntryView>,
    project: Seq<char>,
    r1: Seq<DailyStatView>,
    r2: Seq<DailyStatView>,
)
    requires
        is_report(blocks, entries, project, r1),
        is_report(blocks, entries, project, r2),
    ensures
        r2.len() <= r1.len(),
{
    if r1.len() < r2.len() {
        let b = r2[r1.len() as int];
        let kb = choose|k: int|
            0 <= k < entries.len() && selected(
                #[trigger] entries[k],
                project,
                b.block_name,
                Some(b.date),
            );
        let n = choose|n: int|
            0 <= n < r1.len() && (#[trigger] r1[n]).date == entries[kb].date && r1[n].block_name
                == entries[kb].block;
        lemma_report_rows_agree(blocks, entries, project, r1, r2, n);
        assert(row_before(r2[n], r2[r1.len() as int]));
        lemma_key_order(b.date, b.block_name, b.date, b.block_name, b.date, b.block_name);
    }
}

fn stat_before(row: &DailyStat, date: &Date, block: &str) -> (r: bool)
    ensures
        r == key_before(row.date@, row.block_name@, date@, block@),
{
    if row.date.is_before(date) {
        true
    } else if row.date.is_same(date) {
        less(row.block_name.as_str(), block)
    } else {
        false
    }
}

/// The minutes logged against `block` of `project`, and whether there are any.
fn tally(entries: &Vec<Entry>, project: &str, block: &str) -> (r: (u128, bool))
    requires
        forall|i: int| 0 <= i < entries.len() ==> (#[trigger] entries[i]).minutes >= 0,
    ensures
        r.0 == sum_minutes(entry_views(entries@), project@, block@, None),
        r.1 == any_selected(entry_views(entries@), project@, block@, None),
{
    let ghost all = entry_views(entries@);
    let mut total: u128 = 0;
    let mut found = false;
    let mut k: usize = 0;
    assert(all.take(0) =~= Seq::<EntryView>::empty());
    while k < entries.len()
        invariant
            all == entry_views(entries@),
            forall|i: int| 0 <= i < entries.len() ==> (#[trigger] entries[i]).minutes >= 0,
            0 <= k <= entries.len(),
            total == sum_minutes(all.take(k as int), project@, block@, None),
            found == any_selected(all.take(k as int), project@, block@, None),
        decreases entries.len() - k,
    {
        let e = &entries[k];
        proof {
            let fewer = all.take(k as int);
            assert forall|i: int| 0 <= i < fewer.len() implies 0 <= (#[trigger] fewer[i]).minutes
                <= i32::MAX by {
                assert(fewer[i] == entries[i]@);
            }
            lemma_sum_minutes_bounds(fewer, project@, block@, None, i32::MAX as int);
            lemma_sum_minutes_push(all, k as int, project@, block@, None);
            assert(all[k as int] == e@);
        }
        if same(e.project.as_str(), project) && same(e.block.as_str(), block) {
            total = total + e.minutes as u128;
            found = true;
        }
        k += 1;
    }
    assert(all.take(k as int) =~= all);
    (total, found)
}

impl Store {
    /// The daily report of `project`: for each day and block with an entry,
    /// the sum of that day's minutes beside the block's goal, ordered by day
    /// and then by block name. It is empty where the project has no entries
    /// or does not exist.
    pub fn daily_stats(&self, project: &str) -> (rows: Vec<DailyStat>)
        requires
            self.wf(),
        ensures
            self@.is_daily_stats(project@, daily_stat_views(rows@)),
    {
        let entries = self.entries();
        let blocks = self.blocks();
        let mut rows: Vec<DailyStat> = Vec::new();
        let mut k: usize = 0;
        while k < entries.len()
            invariant
                self.wf(),
                entry_views(entries@) == self@.entries,
                block_views(blocks@) == self@.blocks,
                0 <= k <= entries.len(),
                is_report(
                    self@.blocks,
                    self@.entries.take(k as int),
                    project@,
                    daily_stat_views(rows@),
                ),
            decreases entries.len() - k,
        {
            let e = &entries[k];
            let ghost before = daily_stat_views(rows@);
            proof {
                assert(self@.entries[k as int] == e@);
            }
            if same(e.project.as_str(), project) {
                let mut pos: usize = 0;
                while pos < rows.len() && stat_before(&rows[pos], &e.date, e.block.as_str())
                    invariant
                        0 <= pos <= rows.len(),
                        before == daily_stat_views(rows@),
                        forall|j: int|
                            0 <= j < pos ==> key_before(
                                (#[trigger] before[j]).date,
                                before[j].block_name,
                                e.date@,
                                e.block@,
                            ),
                    decreases rows.len() - pos,
                {
                    pos += 1;
                }
                if pos < rows.len() && rows[pos].date.is_same(&e.date) && same(
                    rows[pos].block_name.as_str(),
                    e.block.as_str(),
                ) {
                    proof {
                        let fewer = self@.entries.take(k as int);
                        assert forall|i: int| 0 <= i < fewer.len() implies 0 <= (
                        #[trigger] fewer[i]).minutes <= i32::MAX by {
                            assert(fewer[i] == entries[i]@);
                            assert(self@.entries[i].minutes > 0);
                        }
                        lemma_sum_minutes_bounds(
                            fewer,
                            project@,
                            e.block@,
                            Some(e.date@),
                            i32::MAX as int,
                        );
                        assert(before[pos as int] == rows[pos as int]@);
                        assert(self@.entries[k as int].minutes > 0);
                        lemma_report_add(
                            self@.blocks,
                            self@.entries,
                            k as int,
                            project@,
                            before,
                            pos as int,
                        );
                    }
                    let row = DailyStat {
                        date: rows[pos].date,
                        block_name: rows[pos].block_name.clone(),
                        total_minutes: rows[pos].total_minutes + e.minutes as u128,
                        target_minutes: rows[pos].target_minutes,
                    };
                    proof {
                        assert(daily_stat_views(rows@.update(pos as int, row)) =~= before.update(
                            pos as int,
                            row@,
                        ));
                    }
                    rows.set(pos, row);
                } else {
                    let found = self.find_block(project, e.block.as_str());
                    proof {
                        assert(self@.has_block(self@.entries[k as int].project, e.block@));
                        self@.lemma_target_of(found.unwrap() as int);
                        assert(self@.entries[k as int].minutes > 0);
                        if pos < rows.len() {
                            assert(before[pos as int] == rows[pos as int]@);
                            lemma_key_order(
                                before[pos as int].date,
                                before[pos as int].block_name,
                                e.date@,
                                e.block@,
                                e.date@,
                                e.block@,
                            );
                        }
                        lemma_report_insert(
                            self@.blocks,
                            self@.entries,
                            k as int,
                            project@,
                            before,
                            pos as int,
                        );
                    }
                    let row = DailyStat {
                        date: e.date,
                        block_name: e.block.clone(),
                        total_minutes: e.minutes as u128,
                        target_minutes: blocks[found.unwrap()].target_minutes,
                    };
                    proof {
                        assert(daily_stat_views(rows@.insert(pos as int, row)) =~= before.insert(
                            pos as int,
                            row@,
                        ));
                    }
                    rows.insert(pos, row);
                }
            } else {
                proof {
                    lemma_report_skip(self@.blocks, self@.entries, k as int, project@, before);
                }
            }
            k += 1;
        }
        proof {
            assert(self@.entries.take(k as int) =~= self@.entries);
        }
        rows
    }

    /// The blocks of `project`, in the order of their creation, each with its
    /// goal, the minutes logged against it, and whether it has any entry. A
    /// block without entries is listed too. The list is empty where the
    /// project has no blocks or does not exist.
    pub fn block_infos(&self, project: &str) -> (rows: Vec<BlockInfo>)
        requires
            self.wf(),
        ensures
            block_info_views(rows@) == self@.block_infos(project@),
    {
        let entries = self.entries();
        let blocks = self.blocks();
        let mut rows: Vec<BlockInfo> = Vec::new();
        let mut i: usize = 0;
        proof {
            assert forall|j: int| 0 <= j < entries.len() implies (#[trigger] entries[j]).minutes
                >= 0 by {
                assert(self@.entries[j] == entries[j]@);
                assert(self@.entries[j].minutes > 0);
            }
            assert(self@.blocks.take(0) =~= Seq::<BlockView>::empty());
            assert(block_info_views(rows@) =~= Seq::<BlockInfoView>::empty());
        }
        while i < blocks.len()
            invariant
                entry_views(entries@) == self@.entries,
                block_views(blocks@) == self@.blocks,
                forall|j: int| 0 <= j < entries.len() ==> (#[trigger] entries[j]).minutes >= 0,
                0 <= i <= blocks.len(),
                block_info_views(rows@) == block_infos_of(
                    self@.blocks.take(i as int),
                    self@.entries,
                    project@,
                ),
            decreases blocks.len() - i,
        {
            let b = &blocks[i];
            proof {
                assert(self@.blocks.take(i as int + 1).drop_last() =~= self@.blocks.take(i as int));
                assert(self@.blocks.take(i as int + 1).last() == b@);
            }
            if same(b.project.as_str(), project) {
                let (total, found) = tally(entries, project, b.name.as_str());
                let row = BlockInfo {
                    name: b.name.clone(),
                    target_minutes: b.target_minutes,
                    total_minutes: total,
                    has_data: found,
                };
                proof {
                    assert(block_info_views(rows@.push(row)) =~= block_info_views(rows@).push(
                        row@,
                    ));
                }
                rows.push(row);
            }
            i += 1;
        }
        proof {
            assert(self@.blocks.take(i as int) =~= self@.blocks);
        }
        rows
    }

    /// The blocks of `project` as the storage layer lists them: every block,
    /// with or without entries, as [`Store::block_infos`] reports it.
    pub fn list_blocks(&self, project: &str) -> (rows: Vec<BlockInfo>)
        requires
            self.wf(),
        ensures
            block_info_views(rows@) == self@.block_infos(project@),
    {
        self.block_infos(project)
    }
}

} // verus!
