//! Writing a store to its stored form and reading it back.
//!
//! Writing gives the bytes to keep; reading takes them as text, since the
//! names in them are text, and checks the integrity rules before it hands a
//! store out.

use crate::codec::{
    digit_run, digits_value, is_digit_byte, lemma_digit_run, lemma_records_bytes_push,
    block_records, entry_records, name_field, number_bytes, number_field, parse_block,
    parse_end, parse_entry, parse_name, parse_number, parse_project, parse_record,
    parse_records, parse_store, project_records, record_bytes, records_bytes, store_bytes,
    tables_of, RecordView, COLON, COMMA, MOST_MINUTES, NEWLINE, TAG_BLOCK,
    TAG_ENTRY, TAG_PROJECT,
};
use crate::date::{Date, LAST_DAY};
use crate::error::Error;
use crate::store::{
    block_views, entry_views, project_views, tables_view, Block, Entry, Project, Store,
};
use vstd::prelude::*;
use vstd::utf8::{
    encode_utf8, encode_utf8_decode_utf8, encode_utf8_valid_utf8, is_char_boundary,
    is_char_boundary_iff_is_leading_byte, valid_utf8,
};

verus! {

fn put_number(out: &mut Vec<u8>, n: u64)
    ensures
        final(out)@ == old(out)@ + number_bytes(n as nat),
    decreases n,
{
    if n >= 10 {
        put_number(out, n / 10);
    }
    let d: u8 = (n % 10) as u8;
    out.push(0x30 + d);
    proof {
        if n >= 10 {
            assert(out@ =~= old(out)@ + number_bytes((n / 10) as nat).push((0x30 + d) as u8));
        } else {
            assert(out@ =~= old(out)@ + seq![(0x30 + d) as u8]);
        }
    }
}

fn put_bytes(out: &mut Vec<u8>, bytes: &[u8])
    ensures
        final(out)@ == old(out)@ + bytes@,
{
    let mut i: usize = 0;
    while i < bytes.len()
        invariant
            0 <= i <= bytes.len(),
            out@ == old(out)@ + bytes@.take(i as int),
        decreases bytes.len() - i,
    {
        out.push(bytes[i]);
        proof {
            assert(bytes@.take(i as int + 1) =~= bytes@.take(i as int).push(bytes@[i as int]));
        }
        i += 1;
    }
    proof {
        assert(bytes@.take(i as int) =~= bytes@);
    }
}

fn put_number_field(out: &mut Vec<u8>, n: u64)
    ensures
        final(out)@ == old(out)@ + number_field(n as nat),
{
    put_number(out, n);
    out.push(COMMA);
    proof {
        assert(out@ =~= old(out)@ + number_field(n as nat));
    }
}

fn put_name_field(out: &mut Vec<u8>, name: &str)
    ensures
        final(out)@ == old(out)@ + name_field(name@),
{
    let bytes = name.as_bytes();
    put_number(out, bytes.len() as u64);
    out.push(COLON);
    put_bytes(out, bytes);
    out.push(COMMA);
    proof {
        assert(out@ =~= old(out)@ + name_field(name@));
    }
}

fn put_project(out: &mut Vec<u8>, p: &Project)
    ensures
        final(out)@ == old(out)@ + record_bytes(RecordView::Project(p@)),
{
    out.push(TAG_PROJECT);
    put_name_field(out, p.name.as_str());
    put_name_field(out, p.refresh.as_str());
    out.push(NEWLINE);
    proof {
        assert(out@ =~= old(out)@ + record_bytes(RecordView::Project(p@)));
    }
}

fn put_block(out: &mut Vec<u8>, b: &Block)
    requires
        b.target_minutes >= 0,
    ensures
        final(out)@ == old(out)@ + record_bytes(RecordView::Block(b@)),
{
    out.push(TAG_BLOCK);
    put_name_field(out, b.project.as_str());
    put_name_field(out, b.name.as_str());
    put_number_field(out, b.target_minutes as u64);
    out.push(NEWLINE);
    proof {
        assert(out@ =~= old(out)@ + record_bytes(RecordView::Block(b@)));
    }
}

fn put_entry(out: &mut Vec<u8>, e: &Entry)
    requires
        e.minutes >= 0,
    ensures
        final(out)@ == old(out)@ + record_bytes(RecordView::Entry(e@)),
{
    out.push(TAG_ENTRY);
    put_name_field(out, e.project.as_str());
    put_name_field(out, e.block.as_str());
    put_number_field(out, e.minutes as u64);
    put_number_field(out, e.date.day_number() as u64);
    out.push(NEWLINE);
    proof {
        assert(out@ =~= old(out)@ + record_bytes(RecordView::Entry(e@)));
    }
}

/// Counts the digits at the front of `bytes` and reads their number, as far
/// as it stays within `most`.
fn scan_digits(bytes: &[u8], most: u64) -> (r: (usize, u64, bool))
    ensures
        r.0 == digit_run(bytes@),
        r.0 <= bytes@.len(),
        r.2 == (digits_value(bytes@.take(r.0 as int)) <= most),
        r.2 ==> r.1 == digits_value(bytes@.take(r.0 as int)),
{
    let mut k: usize = 0;
    let mut value: u64 = 0;
    let mut within = true;
    proof {
        assert(bytes@.take(0) =~= Seq::<u8>::empty());
    }
    while k < bytes.len() && bytes[k] >= 0x30 && bytes[k] <= 0x39
        invariant
            0 <= k <= bytes.len(),
            forall|j: int| 0 <= j < k ==> is_digit_byte(#[trigger] bytes@[j]),
            within ==> value == digits_value(bytes@.take(k as int)) && value <= most,
            !within ==> digits_value(bytes@.take(k as int)) > most,
        decreases bytes.len() - k,
    {
        let d: u64 = (bytes[k] - 0x30) as u64;
        proof {
            let more = bytes@.take(k as int + 1);
            assert(more.drop_last() =~= bytes@.take(k as int));
            assert(more.last() == bytes@[k as int]);
            assert(digits_value(more) == digits_value(bytes@.take(k as int)) * 10 + d);
        }
        if within && d <= most && value <= (most - d) / 10 {
            value = value * 10 + d;
        } else {
            within = false;
        }
        k += 1;
    }
    proof {
        lemma_digit_run(bytes@, k as int);
    }
    (k, value, within)
}

/// The text before byte `k` of `s`, where that byte is a plain one.
fn text_before<'a>(s: &'a str, k: usize) -> (r: &'a str)
    requires
        k < encode_utf8(s@).len(),
        encode_utf8(s@)[k as int] < 0x80,
    ensures
        encode_utf8(r@) == encode_utf8(s@).take(k as int),
{
    proof {
        encode_utf8_valid_utf8(s@);
        is_char_boundary_iff_is_leading_byte(encode_utf8(s@), k as int);
    }
    let (head, _) = s.split_at(k);
    head
}

/// The text after byte `k` of `s`, where that byte is a plain one.
fn text_after<'a>(s: &'a str, k: usize) -> (r: &'a str)
    requires
        k < encode_utf8(s@).len(),
        encode_utf8(s@)[k as int] < 0x80,
    ensures
        encode_utf8(r@) == encode_utf8(s@).skip(k as int + 1),
{
    proof {
        encode_utf8_valid_utf8(s@);
        is_char_boundary_iff_is_leading_byte(encode_utf8(s@), k as int);
    }
    let (_, tail) = s.split_at(k);
    proof {
        let t = encode_utf8(tail@);
        encode_utf8_valid_utf8(tail@);
        assert(t[0] == encode_utf8(s@)[k as int]);
        reveal_with_fuel(is_char_boundary, 2);
        reveal_with_fuel(valid_utf8, 2);
        assert(is_char_boundary(t, 1));
    }
    let (_, rest) = tail.split_at(1);
    proof {
        assert(encode_utf8(rest@) =~= encode_utf8(s@).skip(k as int + 1));
    }
    rest
}

fn read_number<'a>(s: &'a str, most: u64) -> (r: Option<(u64, &'a str)>)
    ensures
        match r {
            Some((n, rest)) => parse_number(encode_utf8(s@), most as nat) == Some(
                (n as nat, encode_utf8(rest@)),
            ) && n <= most && encode_utf8(rest@).len() < encode_utf8(s@).len(),
            None => parse_number(encode_utf8(s@), most as nat) is None,
        },
{
    proof {
        reveal(parse_number);
    }
    let bytes = s.as_bytes();
    let (k, value, within) = scan_digits(bytes, most);
    if k == 0 || k >= bytes.len() || bytes[k] != COMMA || !within {
        return None;
    }
    let rest = text_after(s, k);
    Some((value, rest))
}

fn read_name<'a>(s: &'a str) -> (r: Option<(&'a str, &'a str)>)
    ensures
        match r {
            Some((name, rest)) => parse_name(encode_utf8(s@)) == Some(
                (name@, encode_utf8(rest@)),
            ) && encode_utf8(rest@).len() < encode_utf8(s@).len(),
            None => parse_name(encode_utf8(s@)) is None,
        },
{
    proof {
        reveal(parse_name);
    }
    let bytes = s.as_bytes();
    let (k, length, within) = scan_digits(bytes, bytes.len() as u64);
    if k == 0 || k >= bytes.len() || bytes[k] != COLON || !within {
        return None;
    }
    let body = text_after(s, k);
    let inner = body.as_bytes();
    let n: usize = length as usize;
    if n >= inner.len() || inner[n] != COMMA {
        return None;
    }
    let name = text_before(body, n);
    let rest = text_after(body, n);
    proof {
        encode_utf8_valid_utf8(name@);
        encode_utf8_decode_utf8(name@);
    }
    Some((name, rest))
}

fn read_end<'a>(s: &'a str) -> (r: Option<&'a str>)
    ensures
        match r {
            Some(rest) => parse_end(encode_utf8(s@)) == Some(encode_utf8(rest@)) && encode_utf8(
                rest@,
            ).len() < encode_utf8(s@).len(),
            None => parse_end(encode_utf8(s@)) is None,
        },
{
    let bytes = s.as_bytes();
    if bytes.len() == 0 || bytes[0] != NEWLINE {
        return None;
    }
    Some(text_after(s, 0))
}

/// A row as it is read.
enum Record {
    Project(Project),
    Block(Block),
    Entry(Entry),
}

impl View for Record {
    type V = RecordView;

    closed spec fn view(&self) -> RecordView {
        match self {
            Record::Project(p) => RecordView::Project(p@),
            Record::Block(b) => RecordView::Block(b@),
            Record::Entry(e) => RecordView::Entry(e@),
        }
    }
}

fn read_project<'a>(s: &'a str) -> (r: Option<(Record, &'a str)>)
    ensures
        match r {
            Some((row, rest)) => parse_project(encode_utf8(s@)) == Some(
                (row@, encode_utf8(rest@)),
            ) && encode_utf8(rest@).len() < encode_utf8(s@).len(),
            None => parse_project(encode_utf8(s@)) is None,
        },
{
    let (name, s1) = match read_name(s) {
        Some(x) => x,
        None => { return None; },
    };
    let (refresh, s2) = match read_name(s1) {
        Some(x) => x,
        None => { return None; },
    };
    let rest = match read_end(s2) {
        Some(x) => x,
        None => { return None; },
    };
    Some((Record::Project(Project { name: name.to_owned(), refresh: refresh.to_owned() }), rest))
}

fn read_block<'a>(s: &'a str) -> (r: Option<(Record, &'a str)>)
    ensures
        match r {
            Some((row, rest)) => parse_block(encode_utf8(s@)) == Some((row@, encode_utf8(rest@)))
                && encode_utf8(rest@).len() < encode_utf8(s@).len(),
            None => parse_block(encode_utf8(s@)) is None,
        },
{
    let (project, s1) = match read_name(s) {
        Some(x) => x,
        None => { return None; },
    };
    let (name, s2) = match read_name(s1) {
        Some(x) => x,
        None => { return None; },
    };
    let (target, s3) = match read_number(s2, MOST_MINUTES as u64) {
        Some(x) => x,
        None => { return None; },
    };
    let rest = match read_end(s3) {
        Some(x) => x,
        None => { return None; },
    };
    Some(
        (
            Record::Block(
                Block {
                    project: project.to_owned(),
                    name: name.to_owned(),
                    target_minutes: target as i32,
                },
            ),
            rest,
        ),
    )
}

fn read_entry<'a>(s: &'a str) -> (r: Option<(Record, &'a str)>)
    ensures
        match r {
            Some((row, rest)) => parse_entry(encode_utf8(s@)) == Some((row@, encode_utf8(rest@)))
                && encode_utf8(rest@).len() < encode_utf8(s@).len(),
            None => parse_entry(encode_utf8(s@)) is None,
        },
{
    let (project, s1) = match read_name(s) {
        Some(x) => x,
        None => { return None; },
    };
    let (block, s2) = match read_name(s1) {
        Some(x) => x,
        None => { return None; },
    };
    let (minutes, s3) = match read_number(s2, MOST_MINUTES as u64) {
        Some(x) => x,
        None => { return None; },
    };
    let (day, s4) = match read_number(s3, LAST_DAY as u64) {
        Some(x) => x,
        None => { return None; },
    };
    let rest = match read_end(s4) {
        Some(x) => x,
        None => { return None; },
    };
    let date = match Date::from_day_number(day as u32) {
        Some(x) => x,
        None => { return None; },
    };
    Some(
        (
            Record::Entry(
                Entry {
                    project: project.to_owned(),
                    block: block.to_owned(),
                    minutes: minutes as i32,
                    date,
                },
            ),
            rest,
        ),
    )
}

fn read_record<'a>(s: &'a str) -> (r: Option<(Record, &'a str)>)
    ensures
        match r {
            Some((row, rest)) => parse_record(encode_utf8(s@)) == Some((row@, encode_utf8(rest@)))
                && encode_utf8(rest@).len() < encode_utf8(s@).len(),
            None => parse_record(encode_utf8(s@)) is None,
        },
{
    proof {
        reveal(parse_record);
    }
    let bytes = s.as_bytes();
    if bytes.len() == 0 {
        return None;
    }
    let tag = bytes[0];
    if tag == TAG_PROJECT {
        read_project(text_after(s, 0))
    } else if tag == TAG_BLOCK {
        read_block(text_after(s, 0))
    } else if tag == TAG_ENTRY {
        read_entry(text_after(s, 0))
    } else {
        None
    }
}

impl Store {
    /// Reads a store from its stored form.
    ///
    /// The text must be rows from end to end, and the rows must keep the
    /// integrity rules; else nothing is handed out. A refresh period is taken
    /// as it stands, so that one that is no period shows when it is used.
    pub fn decode(text: &str) -> (r: Result<Store, Error>)
        ensures
            match r {
                Ok(store) => store.wf() && parse_store(encode_utf8(text@)) == Some(store@),
                Err(e) => e == Error::PersistenceFailure && match parse_store(
                    encode_utf8(text@),
                ) {
                    Some(tables) => !tables.wf(),
                    None => true,
                },
            },
    {
        let mut projects: Vec<Project> = Vec::new();
        let mut blocks: Vec<Block> = Vec::new();
        let mut entries: Vec<Entry> = Vec::new();
        let mut rest: &str = text;
        let ghost done: Seq<RecordView> = Seq::empty();
        proof {
            assert(done + parse_records(encode_utf8(text@)).unwrap() =~= parse_records(
                encode_utf8(text@),
            ).unwrap());
            assert(tables_view(projects@, blocks@, entries@).projects =~= tables_of(done).projects);
            assert(tables_view(projects@, blocks@, entries@).blocks =~= tables_of(done).blocks);
            assert(tables_view(projects@, blocks@, entries@).entries =~= tables_of(done).entries);
        }
        while rest.as_bytes().len() > 0
            invariant
                tables_view(projects@, blocks@, entries@) == tables_of(done),
                parse_records(encode_utf8(text@)) == match parse_records(encode_utf8(rest@)) {
                    Some(rs) => Some(done + rs),
                    None => None,
                },
            decreases encode_utf8(rest@).len(),
        {
            let ghost before = tables_of(done);
            match read_record(rest) {
                None => {
                    return Err(Error::PersistenceFailure);
                },
                Some((row, next)) => {
                    proof {
                        let tail = parse_records(encode_utf8(next@));
                        if tail is Some {
                            assert(done + (seq![row@] + tail.unwrap()) =~= done.push(row@)
                                + tail.unwrap());
                        }
                        assert(done.push(row@).drop_last() =~= done);
                    }
                    match row {
                        Record::Project(p) => {
                            proof {
                                assert(project_views(projects@.push(p)) =~= project_views(
                                    projects@,
                                ).push(p@));
                            }
                            projects.push(p);
                        },
                        Record::Block(b) => {
                            proof {
                                assert(block_views(blocks@.push(b)) =~= block_views(blocks@).push(
                                    b@,
                                ));
                            }
                            blocks.push(b);
                        },
                        Record::Entry(e) => {
                            proof {
                                assert(entry_views(entries@.push(e)) =~= entry_views(
                                    entries@,
                                ).push(e@));
                            }
                            entries.push(e);
                        },
                    }
                    proof {
                        done = done.push(row@);
                    }
                    rest = next;
                },
            }
        }
        proof {
            assert(done + Seq::<RecordView>::empty() =~= done);
        }
        Store::from_tables(projects, blocks, entries)
    }
}

impl Store {
    /// The stored form of the store: its rows as lines, the projects first,
    /// then the blocks, then the entries, each table in its order.
    pub fn encode(&self) -> (out: Vec<u8>)
        requires
            self.wf(),
        ensures
            out@ == store_bytes(self@),
    {
        let projects = self.projects();
        let blocks = self.blocks();
        let entries = self.entries();
        let ghost ps = self@.projects;
        let ghost bs = self@.blocks;
        let ghost es = self@.entries;
        let mut out: Vec<u8> = Vec::new();
        let mut i: usize = 0;
        proof {
            assert(project_records(ps.take(0)) =~= Seq::<RecordView>::empty());
            assert(out@ =~= records_bytes(Seq::<RecordView>::empty()));
        }
        while i < projects.len()
            invariant
                ps == project_views(projects@),
                0 <= i <= projects.len(),
                out@ == records_bytes(project_records(ps.take(i as int))),
            decreases projects.len() - i,
        {
            put_project(&mut out, &projects[i]);
            proof {
                let done = project_records(ps.take(i as int));
                let row = RecordView::Project(ps[i as int]);
                assert(project_records(ps.take(i as int + 1)) =~= done.push(row));
                lemma_records_bytes_push(done, row);
            }
            i += 1;
        }
        let ghost head = project_records(ps);
        let mut j: usize = 0;
        proof {
            assert(ps.take(i as int) =~= ps);
            assert(head + block_records(bs.take(0)) =~= head);
        }
        while j < blocks.len()
            invariant
                self.wf(),
                bs == self@.blocks,
                bs == block_views(blocks@),
                0 <= j <= blocks.len(),
                out@ == records_bytes(head + block_records(bs.take(j as int))),
            decreases blocks.len() - j,
        {
            proof {
                assert(bs[j as int] == blocks[j as int]@);
                assert(self@.blocks[j as int].target_minutes >= 0);
            }
            put_block(&mut out, &blocks[j]);
            proof {
                let done = head + block_records(bs.take(j as int));
                let row = RecordView::Block(bs[j as int]);
                assert(head + block_records(bs.take(j as int + 1)) =~= done.push(row));
                lemma_records_bytes_push(done, row);
            }
            j += 1;
        }
        let ghost head = head + block_records(bs);
        let mut k: usize = 0;
        proof {
            assert(bs.take(j as int) =~= bs);
            assert(head + entry_records(es.take(0)) =~= head);
        }
        while k < entries.len()
            invariant
                self.wf(),
                es == self@.entries,
                es == entry_views(entries@),
                0 <= k <= entries.len(),
                out@ == records_bytes(head + entry_records(es.take(k as int))),
            decreases entries.len() - k,
        {
            proof {
                assert(es[k as int] == entries[k as int]@);
                assert(self@.entries[k as int].minutes > 0);
                assert(self@.entries[k as int].date >= 1);
            }
            put_entry(&mut out, &entries[k]);
            proof {
                let done = head + entry_records(es.take(k as int));
                let row = RecordView::Entry(es[k as int]);
                assert(head + entry_records(es.take(k as int + 1)) =~= done.push(row));
                lemma_records_bytes_push(done, row);
            }
            k += 1;
        }
        proof {
            assert(es.take(k as int) =~= es);
        }
        out
    }
}

} // verus!
