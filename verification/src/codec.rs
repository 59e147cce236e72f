//! The stored form of a store: one line for each row, fields in a fixed
//! order, every field closed by a comma.
//!
//! ```text
//! P<name>,<refresh>,
//! B<project>,<name>,<target minutes>,
//! E<project>,<block>,<minutes>,<day number>,
//! ```
//!
//! A number is written in decimal digits. A name is written as the number of
//! bytes of its UTF-8 form, a colon, and those bytes, so that it may hold any
//! character: the project `thesis` with period `7d` is the line
//! `P6:thesis,2:7d,`.

use crate::date::LAST_DAY;
use crate::model::{BlockView, EntryView, ProjectView, StoreView};
use vstd::prelude::*;
use vstd::utf8::{
    decode_utf8, encode_utf8, encode_utf8_decode_utf8, encode_utf8_valid_utf8, valid_utf8,
};

verus! {

/// The byte that closes a field.
pub const COMMA: u8 = 0x2c;

/// The byte between the length of a name and its bytes.
pub const COLON: u8 = 0x3a;

/// The byte that closes a row.
pub const NEWLINE: u8 = 0x0a;

/// The byte that opens the row of a project, `P`.
pub const TAG_PROJECT: u8 = 0x50;

/// The byte that opens the row of a block, `B`.
pub const TAG_BLOCK: u8 = 0x42;

/// The byte that opens the row of an entry, `E`.
pub const TAG_ENTRY: u8 = 0x45;

/// The largest number of minutes that a row can hold.
pub const MOST_MINUTES: u32 = 0x7fff_ffff;

/// A row of one of the three tables.
pub enum RecordView {
    Project(ProjectView),
    Block(BlockView),
    Entry(EntryView),
}

/// Whether `b` is one of the digits `0` to `9`.
pub open spec fn is_digit_byte(b: u8) -> bool {
    0x30 <= b <= 0x39
}

/// The number that the digits `s` write in base ten.
pub open spec fn digits_value(s: Seq<u8>) -> nat
    decreases s.len(),
{
    if s.len() == 0 {
        0
    } else {
        digits_value(s.drop_last()) * 10 + if is_digit_byte(s.last()) {
            (s.last() - 0x30) as nat
        } else {
            0
        }
    }
}

/// How many digits `s` starts with.
pub open spec fn digit_run(s: Seq<u8>) -> nat
    decreases s.len(),
{
    if s.len() > 0 && is_digit_byte(s[0]) {
        1 + digit_run(s.drop_first())
    } else {
        0
    }
}

/// The digits of `n` in base ten, without leading zeros.
pub open spec fn number_bytes(n: nat) -> Seq<u8>
    decreases n,
{
    if n < 10 {
        seq![(0x30 + n) as u8]
    } else {
        number_bytes(n / 10).push((0x30 + n % 10) as u8)
    }
}

/// A number as a field.
pub open spec fn number_field(n: nat) -> Seq<u8> {
    number_bytes(n).push(COMMA)
}

/// Reads a number field of at most `most` from the front of `s`: the number,
/// and what follows the field.
#[verifier::opaque]
pub open spec fn parse_number(s: Seq<u8>, most: nat) -> Option<(nat, Seq<u8>)> {
    let k = digit_run(s) as int;
    if k > 0 && k < s.len() && s[k] == COMMA && digits_value(s.take(k)) <= most {
        Some((digits_value(s.take(k)), s.skip(k + 1)))
    } else {
        None
    }
}

/// A name as a field.
pub open spec fn name_field(name: Seq<char>) -> Seq<u8> {
    number_bytes(encode_utf8(name).len()) + seq![COLON] + encode_utf8(name) + seq![COMMA]
}

/// Reads a name field from the front of `s`: the name, and what follows the field.
#[verifier::opaque]
pub open spec fn parse_name(s: Seq<u8>) -> Option<(Seq<char>, Seq<u8>)> {
    let k = digit_run(s) as int;
    if k > 0 && k < s.len() && s[k] == COLON {
        let n = digits_value(s.take(k)) as int;
        let body = s.skip(k + 1);
        if n < body.len() && body[n] == COMMA && valid_utf8(body.take(n)) {
            Some((decode_utf8(body.take(n)), body.skip(n + 1)))
        } else {
            None
        }
    } else {
        None
    }
}

/// A text that starts with `k` digits and goes on with something else has a
/// run of `k` digits.
pub proof fn lemma_digit_run(s: Seq<u8>, k: int)
    requires
        0 <= k <= s.len(),
        forall|j: int| 0 <= j < k ==> is_digit_byte(#[trigger] s[j]),
        k == s.len() || !is_digit_byte(s[k]),
    ensures
        digit_run(s) == k,
    decreases k,
{
    if k > 0 {
        let rest = s.drop_first();
        assert forall|j: int| 0 <= j < k - 1 implies is_digit_byte(#[trigger] rest[j]) by {
            assert(rest[j] == s[j + 1]);
        }
        lemma_digit_run(rest, k - 1);
    }
}

/// The digits of a number are digits, and write that number.
pub proof fn lemma_number_bytes(n: nat)
    ensures
        number_bytes(n).len() >= 1,
        forall|j: int| 0 <= j < number_bytes(n).len() ==> is_digit_byte(#[trigger] number_bytes(n)[j]),
        digits_value(number_bytes(n)) == n,
    decreases n,
{
    if n < 10 {
        let s = number_bytes(n);
        assert(s.drop_last() =~= Seq::<u8>::empty());
        assert(digits_value(s.drop_last()) == 0);
    } else {
        lemma_number_bytes(n / 10);
        let s = number_bytes(n);
        assert(s.drop_last() =~= number_bytes(n / 10));
    }
}

/// A number field is read back as the number it was written from.
pub proof fn lemma_parse_number_field(n: nat, most: nat, rest: Seq<u8>)
    requires
        n <= most,
    ensures
        parse_number(number_field(n) + rest, most) == Some((n, rest)),
{
    reveal(parse_number);
    let digits = number_bytes(n);
    let k = digits.len() as int;
    let s = number_field(n) + rest;
    lemma_number_bytes(n);
    assert forall|j: int| 0 <= j < k implies is_digit_byte(#[trigger] s[j]) by {
        assert(s[j] == digits[j]);
    }
    assert(s[k] == COMMA);
    lemma_digit_run(s, k);
    assert(s.take(k) =~= digits);
    assert(s.skip(k + 1) =~= rest);
}

/// A name field is read back as the name it was written from.
pub proof fn lemma_parse_name_field(name: Seq<char>, rest: Seq<u8>)
    ensures
        parse_name(name_field(name) + rest) == Some((name, rest)),
{
    reveal(parse_name);
    let bytes = encode_utf8(name);
    let digits = number_bytes(bytes.len());
    let k = digits.len() as int;
    let s = name_field(name) + rest;
    lemma_number_bytes(bytes.len());
    assert forall|j: int| 0 <= j < k implies is_digit_byte(#[trigger] s[j]) by {
        assert(s[j] == digits[j]);
    }
    assert(s[k] == COLON);
    lemma_digit_run(s, k);
    assert(s.take(k) =~= digits);
    let body = s.skip(k + 1);
    assert(body =~= bytes + seq![COMMA] + rest);
    assert(body.take(bytes.len() as int) =~= bytes);
    assert(body.skip(bytes.len() as int + 1) =~= rest);
    encode_utf8_valid_utf8(name);
    encode_utf8_decode_utf8(name);
}

/// Whether the numbers of row `r` are such as a row can hold.
pub open spec fn writable(r: RecordView) -> bool {
    match r {
        RecordView::Project(_) => true,
        RecordView::Block(b) => 0 <= b.target_minutes <= MOST_MINUTES,
        RecordView::Entry(e) => 0 <= e.minutes <= MOST_MINUTES && 1 <= e.date <= LAST_DAY,
    }
}

/// The line that row `r` is written as.
pub open spec fn record_bytes(r: RecordView) -> Seq<u8> {
    match r {
        RecordView::Project(p) => seq![TAG_PROJECT] + name_field(p.name) + name_field(p.refresh)
            + seq![NEWLINE],
        RecordView::Block(b) => seq![TAG_BLOCK] + name_field(b.project) + name_field(b.name)
            + number_field(b.target_minutes as nat) + seq![NEWLINE],
        RecordView::Entry(e) => seq![TAG_ENTRY] + name_field(e.project) + name_field(e.block)
            + number_field(e.minutes as nat) + number_field(e.date as nat) + seq![NEWLINE],
    }
}

/// Reads the end of a row from the front of `s`: what follows it.
pub open spec fn parse_end(s: Seq<u8>) -> Option<Seq<u8>> {
    if s.len() > 0 && s[0] == NEWLINE {
        Some(s.skip(1))
    } else {
        None
    }
}

/// Reads the fields of a project row.
pub open spec fn parse_project(s: Seq<u8>) -> Option<(RecordView, Seq<u8>)> {
    match parse_name(s) {
        None => None,
        Some((name, s1)) => match parse_name(s1) {
            None => None,
            Some((refresh, s2)) => match parse_end(s2) {
                None => None,
                Some(rest) => Some((RecordView::Project(ProjectView { name, refresh }), rest)),
            },
        },
    }
}

/// Reads the fields of a block row.
pub open spec fn parse_block(s: Seq<u8>) -> Option<(RecordView, Seq<u8>)> {
    match parse_name(s) {
        None => None,
        Some((project, s1)) => match parse_name(s1) {
            None => None,
            Some((name, s2)) => match parse_number(s2, MOST_MINUTES as nat) {
                None => None,
                Some((target, s3)) => match parse_end(s3) {
                    None => None,
                    Some(rest) => Some(
                        (
                            RecordView::Block(
                                BlockView { project, name, target_minutes: target as int },
                            ),
                            rest,
                        ),
                    ),
                },
            },
        },
    }
}

/// Reads the fields of an entry row.
pub open spec fn parse_entry(s: Seq<u8>) -> Option<(RecordView, Seq<u8>)> {
    match parse_name(s) {
        None => None,
        Some((project, s1)) => match parse_name(s1) {
            None => None,
            Some((block, s2)) => match parse_number(s2, MOST_MINUTES as nat) {
                None => None,
                Some((minutes, s3)) => match parse_number(s3, LAST_DAY as nat) {
                    None => None,
                    Some((date, s4)) => match parse_end(s4) {
                        None => None,
                        Some(rest) => if date >= 1 {
                            Some(
                                (
                                    RecordView::Entry(
                                        EntryView {
                                            project,
                                            block,
                                            minutes: minutes as int,
                                            date: date as int,
                                        },
                                    ),
                                    rest,
                                ),
                            )
                        } else {
                            None
                        },
                    },
                },
            },
        },
    }
}

/// Reads one row from the front of `s`: the row, and what follows it.
#[verifier::opaque]
pub open spec fn parse_record(s: Seq<u8>) -> Option<(RecordView, Seq<u8>)> {
    if s.len() == 0 {
        None
    } else if s[0] == TAG_PROJECT {
        parse_project(s.skip(1))
    } else if s[0] == TAG_BLOCK {
        parse_block(s.skip(1))
    } else if s[0] == TAG_ENTRY {
        parse_entry(s.skip(1))
    } else {
        None
    }
}

/// Reads rows to the end of `s`.
pub open spec fn parse_records(s: Seq<u8>) -> Option<Seq<RecordView>>
    decreases s.len(),
{
    if s.len() == 0 {
        Some(Seq::empty())
    } else {
        match parse_record(s) {
            None => None,
            Some((r, rest)) => if rest.len() < s.len() {
                match parse_records(rest) {
                    None => None,
                    Some(rs) => Some(seq![r] + rs),
                }
            } else {
                None
            },
        }
    }
}

/// The store with row `r` added after the rows of its table.
pub open spec fn with_record(s: StoreView, r: RecordView) -> StoreView {
    match r {
        RecordView::Project(p) => StoreView { projects: s.projects.push(p), ..s },
        RecordView::Block(b) => StoreView { blocks: s.blocks.push(b), ..s },
        RecordView::Entry(e) => StoreView { entries: s.entries.push(e), ..s },
    }
}

/// The tables that the rows `rs` fill, each row going to the end of its table.
pub open spec fn tables_of(rs: Seq<RecordView>) -> StoreView
    decreases rs.len(),
{
    if rs.len() == 0 {
        StoreView::empty()
    } else {
        with_record(tables_of(rs.drop_last()), rs.last())
    }
}

/// The tables that `s` holds, if `s` is rows from end to end.
pub open spec fn parse_store(s: Seq<u8>) -> Option<StoreView> {
    match parse_records(s) {
        None => None,
        Some(rs) => Some(tables_of(rs)),
    }
}

/// Projects as rows.
pub open spec fn project_records(ps: Seq<ProjectView>) -> Seq<RecordView> {
    Seq::new(ps.len(), |i: int| RecordView::Project(ps[i]))
}

/// Blocks as rows.
pub open spec fn block_records(bs: Seq<BlockView>) -> Seq<RecordView> {
    Seq::new(bs.len(), |i: int| RecordView::Block(bs[i]))
}

/// Entries as rows.
pub open spec fn entry_records(es: Seq<EntryView>) -> Seq<RecordView> {
    Seq::new(es.len(), |i: int| RecordView::Entry(es[i]))
}

/// The rows of a store in the order in which they are written: the
/// projects, then the blocks, then the entries.
pub open spec fn store_records(s: StoreView) -> Seq<RecordView> {
    project_records(s.projects) + block_records(s.blocks) + entry_records(s.entries)
}

/// The lines of the rows `rs`, one after the other.
pub open spec fn records_bytes(rs: Seq<RecordView>) -> Seq<u8>
    decreases rs.len(),
{
    if rs.len() == 0 {
        Seq::empty()
    } else {
        record_bytes(rs[0]) + records_bytes(rs.drop_first())
    }
}

/// The stored form of a store.
pub open spec fn store_bytes(s: StoreView) -> Seq<u8> {
    records_bytes(store_records(s))
}

/// Whether every number in the store is such as a row can hold.
pub open spec fn storable(s: StoreView) -> bool {
    &&& forall|i: int|
        0 <= i < s.blocks.len() ==> 0 <= (#[trigger] s.blocks[i]).target_minutes <= MOST_MINUTES
    &&& forall|i: int|
        0 <= i < s.entries.len() ==> 0 <= (#[trigger] s.entries[i]).minutes <= MOST_MINUTES && 1
            <= s.entries[i].date <= LAST_DAY
}

/// The lines of rows with one more row are the lines of the rows, then its line.
pub proof fn lemma_records_bytes_push(rs: Seq<RecordView>, r: RecordView)
    ensures
        records_bytes(rs.push(r)) == records_bytes(rs) + record_bytes(r),
    decreases rs.len(),
{
    let more = rs.push(r);
    assert(more[0] == if rs.len() == 0 { r } else { rs[0] });
    if rs.len() == 0 {
        assert(more.drop_first() =~= Seq::<RecordView>::empty());
        assert(records_bytes(more.drop_first()) =~= Seq::<u8>::empty());
        assert(records_bytes(rs) =~= Seq::<u8>::empty());
        assert(records_bytes(more) =~= records_bytes(rs) + record_bytes(r));
    } else {
        assert(more.drop_first() =~= rs.drop_first().push(r));
        lemma_records_bytes_push(rs.drop_first(), r);
        let head = record_bytes(rs[0]);
        let tail = records_bytes(rs.drop_first());
        assert(records_bytes(more) == head + (tail + record_bytes(r)));
        assert(records_bytes(rs) == head + tail);
        assert(head + (tail + record_bytes(r)) =~= (head + tail) + record_bytes(r));
    }
}

/// A project row is read back as it was written.
pub proof fn lemma_parse_project_bytes(p: ProjectView, rest: Seq<u8>)
    ensures
        parse_project(name_field(p.name) + name_field(p.refresh) + seq![NEWLINE] + rest) == Some(
            (RecordView::Project(p), rest),
        ),
{
    let s2 = seq![NEWLINE] + rest;
    let s1 = name_field(p.refresh) + s2;
    let s = name_field(p.name) + name_field(p.refresh) + seq![NEWLINE] + rest;
    assert(s =~= name_field(p.name) + s1);
    assert(s2.skip(1) =~= rest);
    lemma_parse_name_field(p.name, s1);
    lemma_parse_name_field(p.refresh, s2);
}

/// A block row is read back as it was written.
pub proof fn lemma_parse_block_bytes(b: BlockView, rest: Seq<u8>)
    requires
        0 <= b.target_minutes <= MOST_MINUTES,
    ensures
        parse_block(
            name_field(b.project) + name_field(b.name) + number_field(b.target_minutes as nat)
                + seq![NEWLINE] + rest,
        ) == Some((RecordView::Block(b), rest)),
{
    let s3 = seq![NEWLINE] + rest;
    let s2 = number_field(b.target_minutes as nat) + s3;
    let s1 = name_field(b.name) + s2;
    let s = name_field(b.project) + name_field(b.name) + number_field(b.target_minutes as nat)
        + seq![NEWLINE] + rest;
    assert(s =~= name_field(b.project) + s1);
    assert(s3.skip(1) =~= rest);
    lemma_parse_name_field(b.project, s1);
    lemma_parse_name_field(b.name, s2);
    lemma_parse_number_field(b.target_minutes as nat, MOST_MINUTES as nat, s3);
}

/// An entry row is read back as it was written.
pub proof fn lemma_parse_entry_bytes(e: EntryView, rest: Seq<u8>)
    requires
        0 <= e.minutes <= MOST_MINUTES,
        1 <= e.date <= LAST_DAY,
    ensures
        parse_entry(
            name_field(e.project) + name_field(e.block) + number_field(e.minutes as nat)
                + number_field(e.date as nat) + seq![NEWLINE] + rest,
        ) == Some((RecordView::Entry(e), rest)),
{
    let s4 = seq![NEWLINE] + rest;
    let s3 = number_field(e.date as nat) + s4;
    let s2 = number_field(e.minutes as nat) + s3;
    let s1 = name_field(e.block) + s2;
    let s = name_field(e.project) + name_field(e.block) + number_field(e.minutes as nat)
        + number_field(e.date as nat) + seq![NEWLINE] + rest;
    assert(s =~= name_field(e.project) + s1);
    assert(s4.skip(1) =~= rest);
    lemma_parse_name_field(e.project, s1);
    lemma_parse_name_field(e.block, s2);
    lemma_parse_number_field(e.minutes as nat, MOST_MINUTES as nat, s3);
    lemma_parse_number_field(e.date as nat, LAST_DAY as nat, s4);
}

/// A row is read back as it was written.
pub proof fn lemma_parse_record_bytes(r: RecordView, rest: Seq<u8>)
    requires
        writable(r),
    ensures
        parse_record(record_bytes(r) + rest) == Some((r, rest)),
        record_bytes(r).len() > 0,
{
    reveal(parse_record);
    let s = record_bytes(r) + rest;
    match r {
        RecordView::Project(p) => {
            assert(s.skip(1) =~= name_field(p.name) + name_field(p.refresh) + seq![NEWLINE]
                + rest);
            lemma_parse_project_bytes(p, rest);
        },
        RecordView::Block(b) => {
            assert(s.skip(1) =~= name_field(b.project) + name_field(b.name) + number_field(
                b.target_minutes as nat,
            ) + seq![NEWLINE] + rest);
            lemma_parse_block_bytes(b, rest);
        },
        RecordView::Entry(e) => {
            assert(s.skip(1) =~= name_field(e.project) + name_field(e.block) + number_field(
                e.minutes as nat,
            ) + number_field(e.date as nat) + seq![NEWLINE] + rest);
            lemma_parse_entry_bytes(e, rest);
        },
    }
}

/// Rows are read back as they were written.
pub proof fn lemma_parse_records_bytes(rs: Seq<RecordView>)
    requires
        forall|i: int| 0 <= i < rs.len() ==> writable(#[trigger] rs[i]),
    ensures
        parse_records(records_bytes(rs)) == Some(rs),
    decreases rs.len(),
{
    if rs.len() > 0 {
        let rest = records_bytes(rs.drop_first());
        lemma_parse_record_bytes(rs[0], rest);
        assert forall|i: int| 0 <= i < rs.drop_first().len() implies writable(
            #[trigger] rs.drop_first()[i],
        ) by {
            assert(rs.drop_first()[i] == rs[i + 1]);
        }
        lemma_parse_records_bytes(rs.drop_first());
        assert(seq![rs[0]] + rs.drop_first() =~= rs);
    }
}

/// Rows put one after the other fill the tables one after the other.
pub proof fn lemma_tables_of_add(a: Seq<RecordView>, b: Seq<RecordView>)
    ensures
        tables_of(a + b) == (StoreView {
            projects: tables_of(a).projects + tables_of(b).projects,
            blocks: tables_of(a).blocks + tables_of(b).blocks,
            entries: tables_of(a).entries + tables_of(b).entries,
        }),
    decreases b.len(),
{
    let ta = tables_of(a);
    if b.len() == 0 {
        assert(a + b =~= a);
        assert(ta.projects + tables_of(b).projects =~= ta.projects);
        assert(ta.blocks + tables_of(b).blocks =~= ta.blocks);
        assert(ta.entries + tables_of(b).entries =~= ta.entries);
    } else {
        let fewer = b.drop_last();
        let tf = tables_of(fewer);
        assert((a + b).drop_last() =~= a + fewer);
        assert((a + b).last() == b.last());
        lemma_tables_of_add(a, fewer);
        match b.last() {
            RecordView::Project(p) => {
                assert((ta.projects + tf.projects).push(p) =~= ta.projects + tf.projects.push(p));
            },
            RecordView::Block(x) => {
                assert((ta.blocks + tf.blocks).push(x) =~= ta.blocks + tf.blocks.push(x));
            },
            RecordView::Entry(e) => {
                assert((ta.entries + tf.entries).push(e) =~= ta.entries + tf.entries.push(e));
            },
        }
    }
}

/// The rows of projects fill the project table and no other.
pub proof fn lemma_tables_of_projects(ps: Seq<ProjectView>)
    ensures
        tables_of(project_records(ps)) == (StoreView {
            projects: ps,
            blocks: Seq::empty(),
            entries: Seq::empty(),
        }),
    decreases ps.len(),
{
    if ps.len() > 0 {
        lemma_tables_of_projects(ps.drop_last());
        assert(project_records(ps).drop_last() =~= project_records(ps.drop_last()));
        assert(ps.drop_last().push(ps.last()) =~= ps);
    } else {
        assert(ps =~= Seq::empty());
    }
}

/// The rows of blocks fill the block table and no other.
pub proof fn lemma_tables_of_blocks(bs: Seq<BlockView>)
    ensures
        tables_of(block_records(bs)) == (StoreView {
            projects: Seq::empty(),
            blocks: bs,
            entries: Seq::empty(),
        }),
    decreases bs.len(),
{
    if bs.len() > 0 {
        lemma_tables_of_blocks(bs.drop_last());
        assert(block_records(bs).drop_last() =~= block_records(bs.drop_last()));
        assert(bs.drop_last().push(bs.last()) =~= bs);
    } else {
        assert(bs =~= Seq::empty());
    }
}

/// The rows of entries fill the entry table and no other.
pub proof fn lemma_tables_of_entries(es: Seq<EntryView>)
    ensures
        tables_of(entry_records(es)) == (StoreView {
            projects: Seq::empty(),
            blocks: Seq::empty(),
            entries: es,
        }),
    decreases es.len(),
{
    if es.len() > 0 {
        lemma_tables_of_entries(es.drop_last());
        assert(entry_records(es).drop_last() =~= entry_records(es.drop_last()));
        assert(es.drop_last().push(es.last()) =~= es);
    } else {
        assert(es =~= Seq::empty());
    }
}

/// The rows of a store fill its tables.
pub proof fn lemma_tables_of_store(s: StoreView)
    ensures
        tables_of(store_records(s)) == s,
{
    let p = project_records(s.projects);
    let b = block_records(s.blocks);
    let e = entry_records(s.entries);
    lemma_tables_of_projects(s.projects);
    lemma_tables_of_blocks(s.blocks);
    lemma_tables_of_entries(s.entries);
    lemma_tables_of_add(p, b);
    lemma_tables_of_add(p + b, e);
    let t = tables_of(store_records(s));
    assert(t.projects =~= s.projects);
    assert(t.blocks =~= s.blocks);
    assert(t.entries =~= s.entries);
}

/// What is written can be read: the stored form of a store, read back, gives
/// the same tables, row for row.
pub proof fn lemma_round_trip(s: StoreView)
    requires
        storable(s),
    ensures
        parse_store(store_bytes(s)) == Some(s),
{
    let rs = store_records(s);
    assert forall|i: int| 0 <= i < rs.len() implies writable(#[trigger] rs[i]) by {
        let np = s.projects.len();
        let nb = s.blocks.len();
        if i < np {
        } else if i < np + nb {
            assert(rs[i] == RecordView::Block(s.blocks[i - np]));
        } else {
            assert(rs[i] == RecordView::Entry(s.entries[i - np - nb]));
        }
    }
    lemma_parse_records_bytes(rs);
    lemma_tables_of_store(s);
}

} // verus!
