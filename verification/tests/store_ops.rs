use tracker::date::Date;
use tracker::error::Error;
use tracker::report::{BlockInfo, DailyStat};
use tracker::store::Store;

fn day(y: i32, m: u32, d: u32) -> Date {
    Date::new(y, m, d).unwrap()
}

fn stat(date: Date, block: &str, total: u128, target: i32) -> DailyStat {
    DailyStat { date, block_name: block.to_string(), total_minutes: total, target_minutes: target }
}

fn info(name: &str, target: i32, total: u128, has_data: bool) -> BlockInfo {
    BlockInfo { name: name.to_string(), target_minutes: target, total_minutes: total, has_data }
}

#[test]
fn create_project_twice_is_duplicate() {
    let mut s = Store::new();
    assert_eq!(s.create_project("work", "7d"), Ok(()));
    assert_eq!(s.create_project("work", "7d"), Err(Error::DuplicateProject));
    assert_eq!(s.create_project("work", "30d"), Err(Error::DuplicateProject));
    assert_eq!(s.create_project("work", "nonsense"), Err(Error::DuplicateProject));
    assert_eq!(s.projects().len(), 1);
}

#[test]
fn create_project_checks_the_period() {
    let mut s = Store::new();
    assert_eq!(s.create_project("work", ""), Err(Error::InvalidPeriodFormat));
    assert_eq!(s.create_project("work", "10x"), Err(Error::InvalidPeriodFormat));
    assert_eq!(s.create_project("work", "-5d"), Err(Error::InvalidPeriodFormat));
    assert!(s.projects().is_empty());
    assert!(!s.has_project("work"));
    assert_eq!(s.create_project("work", "1w"), Ok(()));
    assert!(s.has_project("work"));
    assert_eq!(s.projects()[0].name, "work");
    assert_eq!(s.projects()[0].refresh, "1w");
}

#[test]
fn project_names_are_exact() {
    let mut s = Store::new();
    assert_eq!(s.create_project("Work", "7d"), Ok(()));
    assert_eq!(s.create_project("work", "7d"), Ok(()));
    assert_eq!(s.create_project("work ", "7d"), Ok(()));
    assert_eq!(s.create_project("", "7d"), Ok(()));
    assert_eq!(s.create_project("", "7d"), Err(Error::DuplicateProject));
    assert_eq!(s.find_project("work"), Some(1));
    assert_eq!(s.find_project("WORK"), None);
}

#[test]
fn add_block_twice_is_duplicate() {
    let mut s = Store::new();
    s.create_project("work", "7d").unwrap();
    assert_eq!(s.add_block("work", "rust", 60), Ok(()));
    assert_eq!(s.add_block("work", "rust", 60), Err(Error::DuplicateBlock));
    assert_eq!(s.add_block("work", "rust", 5), Err(Error::DuplicateBlock));
    assert_eq!(s.add_block("work", "rust", -1), Err(Error::DuplicateBlock));
    assert_eq!(s.blocks().len(), 1);
}

#[test]
fn add_block_needs_the_project() {
    let mut s = Store::new();
    assert_eq!(s.add_block("work", "rust", 60), Err(Error::ProjectNotFound));
    assert_eq!(s.add_block("work", "rust", -60), Err(Error::ProjectNotFound));
    s.create_project("work", "7d").unwrap();
    assert_eq!(s.add_block("play", "rust", 60), Err(Error::ProjectNotFound));
    assert!(s.blocks().is_empty());
}

#[test]
fn block_names_are_unique_within_a_project_only() {
    let mut s = Store::new();
    s.create_project("work", "7d").unwrap();
    s.create_project("play", "7d").unwrap();
    assert_eq!(s.add_block("work", "rust", 60), Ok(()));
    assert_eq!(s.add_block("play", "rust", 30), Ok(()));
    assert_eq!(s.add_block("work", "Rust", 10), Ok(()));
    assert!(s.has_block("work", "rust"));
    assert!(s.has_block("play", "rust"));
    assert!(!s.has_block("rust", "work"));
    assert_eq!(s.find_block("play", "rust"), Some(1));
}

#[test]
fn add_block_rejects_a_negative_target() {
    let mut s = Store::new();
    s.create_project("work", "7d").unwrap();
    assert_eq!(s.add_block("work", "rust", -1), Err(Error::InvalidDuration));
    assert_eq!(s.add_block("work", "rust", i32::MIN), Err(Error::InvalidDuration));
    assert!(!s.has_block("work", "rust"));
    assert_eq!(s.add_block("work", "rust", 0), Ok(()));
    assert_eq!(s.add_block("work", "go", i32::MAX), Ok(()));
}

#[test]
fn add_entry_rejects_minutes_that_are_not_positive() {
    let mut s = Store::new();
    s.create_project("work", "7d").unwrap();
    s.add_block("work", "rust", 60).unwrap();
    let d = day(2024, 1, 1);
    assert_eq!(s.add_entry("work", "rust", 0, d), Err(Error::InvalidDuration));
    assert_eq!(s.add_entry("work", "rust", -1, d), Err(Error::InvalidDuration));
    assert_eq!(s.add_entry("work", "rust", i32::MIN, d), Err(Error::InvalidDuration));
    assert_eq!(s.add_entry("nowhere", "rust", 0, d), Err(Error::InvalidDuration));
    assert_eq!(s.add_entry("work", "nothing", -5, d), Err(Error::InvalidDuration));
    assert!(s.entries().is_empty());
    assert_eq!(s.block_infos("work"), vec![info("rust", 60, 0, false)]);
    assert_eq!(s.daily_stats("work"), vec![]);
}

#[test]
fn add_entry_needs_project_and_block() {
    let mut s = Store::new();
    let d = day(2024, 1, 1);
    assert_eq!(s.add_entry("work", "rust", 10, d), Err(Error::ProjectNotFound));
    s.create_project("work", "7d").unwrap();
    assert_eq!(s.add_entry("work", "rust", 10, d), Err(Error::BlockNotFound));
    s.create_project("play", "7d").unwrap();
    s.add_block("play", "rust", 60).unwrap();
    assert_eq!(s.add_entry("work", "rust", 10, d), Err(Error::BlockNotFound));
    assert!(s.entries().is_empty());
    assert_eq!(s.add_entry("play", "rust", 10, d), Ok(()));
    assert_eq!(s.entries().len(), 1);
}

#[test]
fn add_entry_never_merges() {
    let mut s = Store::new();
    s.create_project("work", "7d").unwrap();
    s.add_block("work", "rust", 60).unwrap();
    let d = day(2024, 1, 1);
    s.add_entry("work", "rust", 10, d).unwrap();
    s.add_entry("work", "rust", 10, d).unwrap();
    assert_eq!(s.entries().len(), 2);
    assert_eq!(s.entries()[0], s.entries()[1]);
    assert_eq!(s.entries()[0].minutes, 10);
    assert_eq!(s.entries()[0].date, d);
    assert_eq!(s.daily_stats("work"), vec![stat(d, "rust", 20, 60)]);
}

#[test]
fn daily_stats_sum_per_day() {
    let mut s = Store::new();
    s.create_project("P", "7d").unwrap();
    s.add_block("P", "B", 60).unwrap();
    s.add_entry("P", "B", 10, day(2024, 1, 1)).unwrap();
    s.add_entry("P", "B", 15, day(2024, 1, 1)).unwrap();
    s.add_entry("P", "B", 5, day(2024, 1, 2)).unwrap();
    assert_eq!(
        s.daily_stats("P"),
        vec![stat(day(2024, 1, 1), "B", 25, 60), stat(day(2024, 1, 2), "B", 5, 60)]
    );
}

#[test]
fn daily_stats_order_by_day_then_block() {
    let mut s = Store::new();
    s.create_project("P", "7d").unwrap();
    s.add_block("P", "zeta", 10).unwrap();
    s.add_block("P", "alpha", 20).unwrap();
    s.add_block("P", "Mid", 30).unwrap();
    s.add_entry("P", "zeta", 1, day(2024, 1, 2)).unwrap();
    s.add_entry("P", "alpha", 2, day(2024, 1, 2)).unwrap();
    s.add_entry("P", "zeta", 3, day(2024, 1, 1)).unwrap();
    s.add_entry("P", "Mid", 4, day(2024, 1, 2)).unwrap();
    s.add_entry("P", "alpha", 5, day(2023, 12, 31)).unwrap();
    s.add_entry("P", "alpha", 6, day(2024, 1, 2)).unwrap();
    s.add_entry("P", "zeta", 7, day(2024, 1, 1)).unwrap();
    assert_eq!(
        s.daily_stats("P"),
        vec![
            stat(day(2023, 12, 31), "alpha", 5, 20),
            stat(day(2024, 1, 1), "zeta", 10, 10),
            stat(day(2024, 1, 2), "Mid", 4, 30),
            stat(day(2024, 1, 2), "alpha", 8, 20),
            stat(day(2024, 1, 2), "zeta", 1, 10),
        ]
    );
}

#[test]
fn daily_stats_keep_projects_apart() {
    let mut s = Store::new();
    s.create_project("work", "7d").unwrap();
    s.create_project("play", "7d").unwrap();
    s.add_block("work", "rust", 60).unwrap();
    s.add_block("play", "rust", 30).unwrap();
    let d = day(2024, 1, 1);
    s.add_entry("work", "rust", 10, d).unwrap();
    s.add_entry("play", "rust", 100, d).unwrap();
    s.add_entry("work", "rust", 1, d).unwrap();
    assert_eq!(s.daily_stats("work"), vec![stat(d, "rust", 11, 60)]);
    assert_eq!(s.daily_stats("play"), vec![stat(d, "rust", 100, 30)]);
    assert_eq!(s.daily_stats("rest"), vec![]);
}

#[test]
fn daily_stats_are_empty_without_entries() {
    let mut s = Store::new();
    assert_eq!(s.daily_stats("work"), vec![]);
    s.create_project("work", "7d").unwrap();
    assert_eq!(s.daily_stats("work"), vec![]);
    s.add_block("work", "rust", 60).unwrap();
    assert_eq!(s.daily_stats("work"), vec![]);
}

#[test]
fn daily_stats_hold_large_sums() {
    let mut s = Store::new();
    s.create_project("P", "7d").unwrap();
    s.add_block("P", "B", 0).unwrap();
    let d = day(2024, 1, 1);
    for _ in 0..5 {
        s.add_entry("P", "B", i32::MAX, d).unwrap();
    }
    assert_eq!(s.daily_stats("P"), vec![stat(d, "B", 5 * 2_147_483_647, 0)]);
    assert_eq!(s.block_infos("P"), vec![info("B", 0, 10_737_418_235, true)]);
}

#[test]
fn block_infos_list_every_block_in_creation_order() {
    let mut s = Store::new();
    s.create_project("work", "7d").unwrap();
    s.create_project("play", "7d").unwrap();
    s.add_block("work", "zeta", 10).unwrap();
    s.add_block("play", "chess", 15).unwrap();
    s.add_block("work", "alpha", 20).unwrap();
    s.add_block("work", "mid", 0).unwrap();
    s.add_entry("work", "alpha", 7, day(2024, 1, 1)).unwrap();
    s.add_entry("work", "alpha", 8, day(2024, 1, 5)).unwrap();
    s.add_entry("play", "chess", 50, day(2024, 1, 5)).unwrap();
    s.add_entry("work", "zeta", 1, day(2024, 1, 5)).unwrap();
    assert_eq!(
        s.block_infos("work"),
        vec![info("zeta", 10, 1, true), info("alpha", 20, 15, true), info("mid", 0, 0, false)]
    );
    assert_eq!(s.block_infos("play"), vec![info("chess", 15, 50, true)]);
    assert_eq!(s.list_blocks("work"), s.block_infos("work"));
}

#[test]
fn block_infos_are_empty_without_blocks() {
    let mut s = Store::new();
    assert_eq!(s.block_infos("work"), vec![]);
    assert_eq!(s.list_blocks("work"), vec![]);
    s.create_project("work", "7d").unwrap();
    assert_eq!(s.block_infos("work"), vec![]);
}

#[test]
fn has_data_turns_true_with_the_first_entry() {
    let mut s = Store::new();
    s.create_project("work", "7d").unwrap();
    s.add_block("work", "rust", 60).unwrap();
    assert_eq!(s.list_blocks("work"), vec![info("rust", 60, 0, false)]);
    s.add_entry("work", "rust", 45, day(2024, 1, 1)).unwrap();
    assert_eq!(s.list_blocks("work"), vec![info("rust", 60, 45, true)]);
}

#[test]
fn reads_repeat_without_writes() {
    let mut s = Store::new();
    s.create_project("P", "7d").unwrap();
    s.add_block("P", "b", 60).unwrap();
    s.add_block("P", "a", 30).unwrap();
    s.add_entry("P", "b", 10, day(2024, 1, 2)).unwrap();
    s.add_entry("P", "a", 15, day(2024, 1, 1)).unwrap();
    let blocks = s.block_infos("P");
    let report = s.daily_stats("P");
    assert_eq!(s.block_infos("P"), blocks);
    assert_eq!(s.daily_stats("P"), report);
    assert_eq!(s.block_infos("P"), blocks);
    assert_eq!(s.daily_stats("P"), report);
    assert_eq!(report.len(), 2);
    assert_eq!(blocks.len(), 2);
}

#[test]
fn delete_entries_before_removes_older_entries_of_one_project() {
    let mut s = Store::new();
    s.create_project("work", "7d").unwrap();
    s.create_project("play", "7d").unwrap();
    s.add_block("work", "rust", 60).unwrap();
    s.add_block("play", "chess", 60).unwrap();
    s.add_entry("work", "rust", 1, day(2024, 1, 1)).unwrap();
    s.add_entry("play", "chess", 2, day(2024, 1, 1)).unwrap();
    s.add_entry("work", "rust", 3, day(2024, 1, 10)).unwrap();
    s.add_entry("work", "rust", 4, day(2024, 1, 9)).unwrap();
    s.add_entry("work", "rust", 5, day(2024, 1, 11)).unwrap();
    assert_eq!(s.delete_entries_before("work", day(2024, 1, 10)), 2);
    let left: Vec<i32> = s.entries().iter().map(|e| e.minutes).collect();
    assert_eq!(left, vec![2, 3, 5]);
    assert_eq!(s.delete_entries_before("work", day(2024, 1, 10)), 0);
    assert_eq!(s.delete_entries_before("nowhere", day(9999, 1, 1)), 0);
    assert_eq!(s.entries().len(), 3);
    assert_eq!(s.delete_entries_before("play", day(9999, 1, 1)), 1);
    assert_eq!(s.entries().len(), 2);
    assert_eq!(s.blocks().len(), 2);
    assert_eq!(s.projects().len(), 2);
}

#[test]
fn cleanup_removes_what_is_older_than_the_period() {
    let mut s = Store::new();
    s.create_project("work", "7d").unwrap();
    s.add_block("work", "rust", 60).unwrap();
    s.add_entry("work", "rust", 10, day(2024, 1, 20)).unwrap();
    s.add_entry("work", "rust", 20, day(2024, 1, 30)).unwrap();
    assert_eq!(s.cleanup("work", day(2024, 2, 1)), Ok(1));
    assert_eq!(s.entries().len(), 1);
    assert_eq!(s.entries()[0].date, day(2024, 1, 30));
    assert_eq!(s.entries()[0].minutes, 20);
    assert_eq!(s.cleanup("work", day(2024, 2, 1)), Ok(0));
}

#[test]
fn cleanup_keeps_the_day_of_the_cutoff() {
    let mut s = Store::new();
    s.create_project("work", "1w").unwrap();
    s.add_block("work", "rust", 60).unwrap();
    s.add_entry("work", "rust", 1, day(2024, 1, 24)).unwrap();
    s.add_entry("work", "rust", 2, day(2024, 1, 25)).unwrap();
    s.add_entry("work", "rust", 3, day(2024, 1, 26)).unwrap();
    s.add_entry("work", "rust", 4, day(2024, 2, 5)).unwrap();
    assert_eq!(s.cleanup("work", day(2024, 2, 1)), Ok(1));
    let left: Vec<i32> = s.entries().iter().map(|e| e.minutes).collect();
    assert_eq!(left, vec![2, 3, 4]);
}

#[test]
fn cleanup_with_zero_days_keeps_today() {
    let mut s = Store::new();
    s.create_project("work", "0d").unwrap();
    s.add_block("work", "rust", 60).unwrap();
    s.add_entry("work", "rust", 1, day(2024, 1, 31)).unwrap();
    s.add_entry("work", "rust", 2, day(2024, 2, 1)).unwrap();
    assert_eq!(s.cleanup("work", day(2024, 2, 1)), Ok(1));
    assert_eq!(s.entries()[0].minutes, 2);
}

#[test]
fn cleanup_uses_one_cutoff_for_all_blocks_of_the_project() {
    let mut s = Store::new();
    s.create_project("work", "7d").unwrap();
    s.create_project("play", "30d").unwrap();
    s.add_block("work", "rust", 60).unwrap();
    s.add_block("work", "go", 60).unwrap();
    s.add_block("play", "chess", 60).unwrap();
    s.add_entry("work", "rust", 1, day(2024, 1, 20)).unwrap();
    s.add_entry("work", "go", 2, day(2024, 1, 20)).unwrap();
    s.add_entry("play", "chess", 3, day(2024, 1, 20)).unwrap();
    s.add_entry("work", "go", 4, day(2024, 1, 31)).unwrap();
    assert_eq!(s.cleanup("work", day(2024, 2, 1)), Ok(2));
    let left: Vec<i32> = s.entries().iter().map(|e| e.minutes).collect();
    assert_eq!(left, vec![3, 4]);
    assert_eq!(s.cleanup("play", day(2024, 2, 1)), Ok(0));
    assert_eq!(s.cleanup("play", day(2024, 2, 20)), Ok(1));
}

#[test]
fn cleanup_with_a_period_longer_than_the_calendar_removes_nothing() {
    let mut s = Store::new();
    s.create_project("work", "18446744073709551615d").unwrap();
    s.add_block("work", "rust", 60).unwrap();
    s.add_entry("work", "rust", 1, day(1, 1, 1)).unwrap();
    s.add_entry("work", "rust", 2, day(2024, 1, 1)).unwrap();
    assert_eq!(s.cleanup("work", day(9999, 12, 31)), Ok(0));
    assert_eq!(s.entries().len(), 2);
}

#[test]
fn cleanup_needs_the_project() {
    let mut s = Store::new();
    assert_eq!(s.cleanup("work", day(2024, 2, 1)), Err(Error::ProjectNotFound));
}
