use tracker::date::Date;
use tracker::engine::Engine;
use tracker::error::Error;
use tracker::store::{Block, Entry, Project, Store};

fn day(y: i32, m: u32, d: u32) -> Date {
    Date::new(y, m, d).unwrap()
}

fn sample() -> Store {
    let mut s = Store::new();
    s.create_project("thesis", "7d").unwrap();
    s.add_block("thesis", "write", 60).unwrap();
    s.add_entry("thesis", "write", 45, day(2024, 2, 1)).unwrap();
    s
}

fn text(bytes: Vec<u8>) -> String {
    String::from_utf8(bytes).unwrap()
}

#[test]
fn encode_writes_one_line_per_row() {
    assert_eq!(
        text(sample().encode()),
        "P6:thesis,2:7d,\nB6:thesis,5:write,60,\nE6:thesis,5:write,45,738917,\n"
    );
    assert_eq!(text(Store::new().encode()), "");
}

#[test]
fn encode_writes_tables_in_order() {
    let mut s = Store::new();
    s.create_project("a", "1d").unwrap();
    s.add_block("a", "x", 0).unwrap();
    s.add_entry("a", "x", 1, day(1, 1, 1)).unwrap();
    s.create_project("b", "2w").unwrap();
    s.add_block("b", "y", 2147483647).unwrap();
    s.add_entry("b", "y", 2147483647, day(9999, 12, 31)).unwrap();
    assert_eq!(
        text(s.encode()),
        "P1:a,2:1d,\nP1:b,2:2w,\nB1:a,1:x,0,\nB1:b,1:y,2147483647,\nE1:a,1:x,1,1,\nE1:b,1:y,2147483647,3652059,\n"
    );
}

#[test]
fn encode_counts_name_lengths_in_bytes() {
    let mut s = Store::new();
    s.create_project("çalışma", "7d").unwrap();
    s.create_project("", "7d").unwrap();
    s.create_project("a,b:c\nd", "7d").unwrap();
    s.create_project("0123456789", "7d").unwrap();
    assert_eq!(
        text(s.encode()),
        "P10:çalışma,2:7d,\nP0:,2:7d,\nP7:a,b:c\nd,2:7d,\nP10:0123456789,2:7d,\n"
    );
}

#[test]
fn decode_reads_back_what_encode_wrote() {
    let mut s = Store::new();
    s.create_project("çalışma", "7d").unwrap();
    s.create_project("a,b:c\nd", "2w").unwrap();
    s.create_project("", "0d").unwrap();
    s.add_block("çalışma", "日本語", 90).unwrap();
    s.add_block("a,b:c\nd", "P1:x,", 0).unwrap();
    s.add_block("", "", 1).unwrap();
    s.add_entry("çalışma", "日本語", 25, day(2024, 1, 1)).unwrap();
    s.add_entry("", "", 2147483647, day(9999, 12, 31)).unwrap();
    s.add_entry("a,b:c\nd", "P1:x,", 1, day(1, 1, 1)).unwrap();
    s.add_entry("çalışma", "日本語", 25, day(2024, 1, 1)).unwrap();
    let bytes = s.encode();
    let back = Store::decode(&text(bytes.clone())).unwrap();
    assert_eq!(back.projects(), s.projects());
    assert_eq!(back.blocks(), s.blocks());
    assert_eq!(back.entries(), s.entries());
    assert_eq!(back.encode(), bytes);
    assert_eq!(back.daily_stats("çalışma"), s.daily_stats("çalışma"));
    assert_eq!(back.block_infos(""), s.block_infos(""));
}

#[test]
fn decode_reads_an_empty_text_as_an_empty_store() {
    let s = Store::decode("").unwrap();
    assert!(s.projects().is_empty());
    assert!(s.blocks().is_empty());
    assert!(s.entries().is_empty());
}

#[test]
fn decode_reads_rows_in_any_order_into_their_tables() {
    let s = Store::decode("E1:p,1:b,5,10,\nB1:p,1:b,60,\nP1:p,2:7d,\nE1:p,1:b,6,9,\n").unwrap();
    assert_eq!(s.projects(), &vec![Project { name: "p".into(), refresh: "7d".into() }]);
    assert_eq!(
        s.blocks(),
        &vec![Block { project: "p".into(), name: "b".into(), target_minutes: 60 }]
    );
    assert_eq!(
        s.entries(),
        &vec![
            Entry {
                project: "p".into(),
                block: "b".into(),
                minutes: 5,
                date: Date::from_day_number(10).unwrap()
            },
            Entry {
                project: "p".into(),
                block: "b".into(),
                minutes: 6,
                date: Date::from_day_number(9).unwrap()
            },
        ]
    );
}

#[test]
fn decode_accepts_leading_zeros() {
    let s = Store::decode("P001:p,02:7d,\nB1:p,1:b,0060,\n").unwrap();
    assert_eq!(s.blocks()[0].target_minutes, 60);
    assert_eq!(s.projects()[0].name, "p");
}

#[test]
fn decode_rejects_text_that_is_not_rows() {
    let bad = [
        "x",
        "P",
        "\n",
        " ",
        "P1:p,2:7d,",
        "P1:p,2:7d,\n\n",
        "P1:p,2:7d\n",
        "P1:p2:7d,\n",
        "P2:p,2:7d,\n",
        "P0:p,2:7d,\n",
        "P:p,2:7d,\n",
        "P-1:p,2:7d,\n",
        "P1:p,2:7d,extra\n",
        "P1:p,\n",
        "P 1:p,2:7d,\n",
        "p1:p,2:7d,\n",
        "Q1:p,2:7d,\n",
        "P1:p,2:7d,\r\n",
        "P1:p,99999999999999999999999999:7d,\n",
        "P1:p,2:7d,\nB1:p,1:b,\n",
        "P1:p,2:7d,\nB1:p,1:b,x,\n",
        "P1:p,2:7d,\nB1:p,1:b,-1,\n",
        "P1:p,2:7d,\nB1:p,1:b,2147483648,\n",
        "P1:p,2:7d,\nB1:p,1:b,60,\nE1:p,1:b,5,\n",
        "P1:p,2:7d,\nB1:p,1:b,60,\nE1:p,1:b,5,0,\n",
        "P1:p,2:7d,\nB1:p,1:b,60,\nE1:p,1:b,5,3652060,\n",
        "P1:p,2:7d,\nB1:p,1:b,60,\nE1:p,1:b,2147483648,10,\n",
        "P1:p,2:7d,\nB1:p,1:b,60,\nE1:p,1:b,5,2024-01-01,\n",
        "P1:ç,2:7d,\n",
        "P2:çx,2:7d,\n",
        "P4:çx,2:7d,\n",
    ];
    for t in bad {
        assert_eq!(Store::decode(t).unwrap_err(), Error::PersistenceFailure, "{:?}", t);
    }
    assert!(Store::decode("P2:ç,2:7d,\n").is_ok());
    assert!(Store::decode("P3:çx,2:7d,\n").is_ok());
    assert!(Store::decode("P3:xç,2:7d,\n").is_ok());
}

#[test]
fn decode_rejects_rows_that_break_the_rules() {
    let bad = [
        "P1:p,2:7d,\nP1:p,2:1w,\n",
        "B1:p,1:b,60,\n",
        "P1:p,2:7d,\nB1:q,1:b,60,\n",
        "P1:p,2:7d,\nB1:p,1:b,60,\nB1:p,1:b,30,\n",
        "P1:p,2:7d,\nE1:p,1:b,5,10,\n",
        "P1:p,2:7d,\nB1:p,1:b,60,\nE1:p,1:c,5,10,\n",
        "P1:p,2:7d,\nP1:q,2:7d,\nB1:p,1:b,60,\nE1:q,1:b,5,10,\n",
        "P1:p,2:7d,\nB1:p,1:b,60,\nE1:p,1:b,0,10,\n",
        "E1:p,1:b,5,10,\n",
    ];
    for t in bad {
        assert_eq!(Store::decode(t).unwrap_err(), Error::PersistenceFailure, "{:?}", t);
    }
}

#[test]
fn a_stored_period_that_is_no_period_fails_at_cleanup() {
    let mut s = Store::decode("P1:p,4:soon,\nB1:p,1:b,60,\nE1:p,1:b,5,10,\n").unwrap();
    assert_eq!(s.projects()[0].refresh, "soon");
    assert_eq!(s.cleanup("p", day(2024, 2, 1)), Err(Error::InvalidPeriodFormat));
    assert_eq!(s.entries().len(), 1);
    assert_eq!(s.add_entry("p", "b", 5, day(2024, 2, 1)), Ok(()));
    assert_eq!(s.daily_stats("p").len(), 2);
}

#[test]
fn from_tables_checks_the_rules() {
    let p = |n: &str| Project { name: n.into(), refresh: "7d".into() };
    let b = |p: &str, n: &str, t: i32| Block { project: p.into(), name: n.into(), target_minutes: t };
    let e = |p: &str, n: &str, m: i32| Entry {
        project: p.into(),
        block: n.into(),
        minutes: m,
        date: day(2024, 1, 1),
    };
    assert!(Store::from_tables(vec![], vec![], vec![]).is_ok());
    let ok = Store::from_tables(
        vec![p("a"), p("b")],
        vec![b("a", "x", 0), b("b", "x", 5)],
        vec![e("b", "x", 1), e("a", "x", 2), e("b", "x", 3)],
    )
    .unwrap();
    assert_eq!(ok.projects().len(), 2);
    assert_eq!(ok.blocks().len(), 2);
    assert_eq!(ok.entries().len(), 3);
    assert_eq!(ok.block_infos("b")[0].total_minutes, 4);
    let bad = [
        Store::from_tables(vec![p("a"), p("a")], vec![], vec![]),
        Store::from_tables(vec![p("a")], vec![b("b", "x", 0)], vec![]),
        Store::from_tables(vec![p("a")], vec![b("a", "x", -1)], vec![]),
        Store::from_tables(vec![p("a")], vec![b("a", "x", 0), b("a", "x", 1)], vec![]),
        Store::from_tables(vec![p("a")], vec![b("a", "x", 0)], vec![e("a", "y", 1)]),
        Store::from_tables(vec![p("a")], vec![b("a", "x", 0)], vec![e("a", "x", 0)]),
        Store::from_tables(vec![p("a")], vec![b("a", "x", 0)], vec![e("a", "x", -3)]),
        Store::from_tables(vec![p("a"), p("b")], vec![b("a", "x", 0)], vec![e("b", "x", 1)]),
    ];
    for r in bad {
        assert_eq!(r.unwrap_err(), Error::PersistenceFailure);
    }
}

#[test]
fn engine_reduces_outcomes_to_flags() {
    let mut e = Engine::new();
    assert!(e.create_project("work", "7d"));
    assert!(!e.create_project("work", "7d"));
    assert!(!e.create_project("play", "soon"));
    assert!(e.add_block("work", "rust", 60));
    assert!(!e.add_block("work", "rust", 60));
    assert!(!e.add_block("play", "rust", 60));
    assert!(!e.add_block("work", "go", -1));
    assert!(e.log_entry("work", "rust", 45, day(2024, 1, 20)));
    assert!(e.log_entry("work", "rust", 15, day(2024, 1, 30)));
    assert!(!e.log_entry("work", "rust", 0, day(2024, 1, 30)));
    assert!(!e.log_entry("work", "rust", -5, day(2024, 1, 30)));
    assert!(!e.log_entry("work", "go", 5, day(2024, 1, 30)));
    assert!(!e.log_entry("play", "rust", 5, day(2024, 1, 30)));
    assert_eq!(e.get_blocks("work").len(), 1);
    assert_eq!(e.get_blocks("work")[0].total_minutes, 60);
    assert!(e.get_blocks("work")[0].has_data);
    assert_eq!(e.get_report("work").len(), 2);
    assert!(e.get_blocks("play").is_empty());
    assert!(e.get_report("play").is_empty());
    assert!(!e.cleanup("play", day(2024, 2, 1)));
    assert!(e.cleanup("work", day(2024, 2, 1)));
    assert_eq!(e.get_report("work").len(), 1);
    assert_eq!(e.get_report("work")[0].total_minutes, 15);
    assert_eq!(e.store().entries().len(), 1);
}

#[test]
fn engine_survives_a_restart() {
    let mut e = Engine::new();
    assert!(e.create_project("work", "7d"));
    assert!(e.add_block("work", "rust", 60));
    assert!(e.log_entry("work", "rust", 45, day(2024, 1, 20)));
    let saved = text(e.save());
    let mut again = Engine::load(&saved).unwrap();
    assert_eq!(again.get_blocks("work"), e.get_blocks("work"));
    assert_eq!(again.get_report("work"), e.get_report("work"));
    assert!(!again.create_project("work", "7d"));
    assert!(again.log_entry("work", "rust", 5, day(2024, 1, 20)));
    assert_eq!(again.get_report("work")[0].total_minutes, 50);
    assert_eq!(text(again.save()), format!("{}E4:work,4:rust,5,738905,\n", saved));
    assert_eq!(Engine::load("nonsense").unwrap_err(), Error::PersistenceFailure);
    let store = again.into_store();
    assert_eq!(Engine::with_store(store).get_blocks("work").len(), 1);
}
