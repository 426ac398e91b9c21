//! The write-ahead journal: entries kept one per line of a file, each
//! line a JSON document.
//!
//! Reading and writing the file, and turning entries into JSON and back,
//! happen outside this library; here stand the framing of the lines and
//! what a replay makes of the parsed lines.

use crate::checkpoint::ScanStateError;
use std::path::PathBuf;
use vstd::prelude::*;

verus! {

/// The byte that ends a journal line.
pub const NEWLINE: u8 = 10;

/// Append-only journal entry for crash recovery.
#[derive(Debug, Clone, PartialEq, Eq)]
pub struct Entry {
    /// Scanner-defined stable target identifier.
    pub target_id: String,
    /// Generic status label such as `completed`, `skipped`, or `failed`.
    pub status: String,
    /// UNIX timestamp in seconds.
    pub timestamp: u64,
    /// Findings emitted while processing this target.
    pub findings_count: usize,
}

/// Newline-delimited write-ahead journal bound to a file.
#[derive(Debug, Clone)]
pub struct WriteAheadJournal {
    path: PathBuf,
}

/// ASCII whitespace as `u8::is_ascii_whitespace` defines it: space,
/// tab, line feed, form feed and carriage return.
pub open spec fn is_ascii_ws(b: u8) -> bool {
    b == 0x20 || b == 0x09 || b == 0x0a || b == 0x0c || b == 0x0d
}

/// Whether a byte is ASCII whitespace.
fn is_ascii_whitespace(b: u8) -> (r: bool)
    ensures
        r == is_ascii_ws(b),
{
    b == 0x20 || b == 0x09 || b == 0x0a || b == 0x0c || b == 0x0d
}

/// A line of nothing but ASCII whitespace; such lines hold no entry.
pub open spec fn is_blank(line: Seq<u8>) -> bool {
    forall|k: int| 0 <= k < line.len() ==> is_ascii_ws(#[trigger] line[k])
}

/// Length of the first line of `b`: up to and including its first newline,
/// or all of `b` when it holds none.
pub open spec fn line_len(b: Seq<u8>) -> nat
    decreases b.len(),
{
    if b.len() == 0 {
        0
    } else if b[0] == NEWLINE {
        1
    } else {
        1 + line_len(b.drop_first())
    }
}

/// The first line of a non-empty `b` is not empty and lies within `b`.
pub proof fn lemma_line_len_bounds(b: Seq<u8>)
    ensures
        line_len(b) <= b.len(),
        b.len() > 0 ==> line_len(b) > 0,
    decreases b.len(),
{
    if b.len() > 0 && b[0] != NEWLINE {
        lemma_line_len_bounds(b.drop_first());
    }
}

/// The records of a journal file: its lines, each with its newline, in
/// file order, leaving out the blank ones.
pub open spec fn records(b: Seq<u8>) -> Seq<Seq<u8>>
    decreases b.len(),
{
    if b.len() == 0 {
        seq![]
    } else {
        let n = line_len(b) as int;
        proof {
            lemma_line_len_bounds(b);
        }
        let rest = records(b.skip(n));
        if is_blank(b.take(n)) {
            rest
        } else {
            seq![b.take(n)] + rest
        }
    }
}

/// The file that a journal holds after the given lines were appended to an
/// empty one, each followed by a newline.
pub open spec fn appended(lines: Seq<Seq<u8>>) -> Seq<u8>
    decreases lines.len(),
{
    if lines.len() == 0 {
        seq![]
    } else {
        lines[0].push(NEWLINE) + appended(lines.drop_first())
    }
}

/// The bytes of each vector of a sequence.
pub open spec fn byte_views(v: Seq<Vec<u8>>) -> Seq<Seq<u8>> {
    v.map_values(|x: Vec<u8>| x@)
}

/// A newline within `b` from `start` on ends the first line there.
proof fn lemma_line_len_at(b: Seq<u8>, start: int, i: int)
    requires
        0 <= start <= i <= b.len(),
        forall|k: int| start <= k < i ==> b[k] != NEWLINE,
        i == b.len() || b[i] == NEWLINE,
    ensures
        line_len(b.skip(start)) == if i == b.len() {
            b.len() - start
        } else {
            i - start + 1
        },
    decreases i - start,
{
    if start < i {
        assert(b.skip(start).drop_first() =~= b.skip(start + 1));
        lemma_line_len_at(b, start + 1, i);
    }
}

/// The entries of the lines that parsed, in file order.
pub open spec fn parsed_entries(p: Seq<Result<Entry, serde_json::Error>>) -> Seq<Entry>
    decreases p.len(),
{
    if p.len() == 0 {
        seq![]
    } else {
        let rest = parsed_entries(p.drop_last());
        match p.last() {
            Ok(e) => rest.push(e),
            Err(_) => rest,
        }
    }
}

/// The number of lines that did not parse.
pub open spec fn failed_lines(p: Seq<Result<Entry, serde_json::Error>>) -> nat
    decreases p.len(),
{
    if p.len() == 0 {
        0
    } else {
        failed_lines(p.drop_last()) + if p.last() is Err {
            1nat
        } else {
            0nat
        }
    }
}

/// The error of the first line that did not parse, if any.
pub open spec fn first_failure(p: Seq<Result<Entry, serde_json::Error>>) -> Option<serde_json::Error>
    decreases p.len(),
{
    if p.len() == 0 {
        None
    } else {
        match first_failure(p.drop_last()) {
            Some(e) => Some(e),
            None => match p.last() {
                Err(e) => Some(e),
                Ok(_) => None,
            },
        }
    }
}

/// A failure in a prefix is the first failure of the whole.
proof fn lemma_first_failure_extends(p: Seq<Result<Entry, serde_json::Error>>, i: int)
    requires
        0 <= i <= p.len(),
        first_failure(p.take(i)) is Some,
    ensures
        first_failure(p) == first_failure(p.take(i)),
    decreases p.len() - i,
{
    if i < p.len() {
        assert(p.take(i + 1).drop_last() =~= p.take(i));
        lemma_first_failure_extends(p, i + 1);
    } else {
        assert(p.take(i) =~= p);
    }
}

/// The record parsed as an entry.
pub open spec fn is_parsed(r: Result<Entry, serde_json::Error>) -> bool {
    r is Ok
}

/// The entry of a record parsed as one.
pub open spec fn entry_of(r: Result<Entry, serde_json::Error>) -> Entry {
    r->Ok_0
}

/// Replay keeps file order: a record that parses adds its entry after all
/// earlier ones, and a record that does not parse adds nothing.
pub proof fn replay_appends_in_file_order(
    p: Seq<Result<Entry, serde_json::Error>>,
    e: Entry,
    x: serde_json::Error,
)
    ensures
        parsed_entries(Seq::<Result<Entry, serde_json::Error>>::empty()) == Seq::<Entry>::empty(),
        parsed_entries(p.push(Ok(e))) == parsed_entries(p).push(e),
        parsed_entries(p.push(Err(x))) == parsed_entries(p),
        failed_lines(p.push(Ok(e))) == failed_lines(p),
        failed_lines(p.push(Err(x))) == failed_lines(p) + 1,
{
    assert(p.push(Ok(e)).drop_last() =~= p);
    assert(p.push(Err(x)).drop_last() =~= p);
}

/// The replayed entries are exactly the entries of the records that
/// parsed, in file order, and the corrupt count is the number of records
/// that did not.
pub proof fn replay_keeps_exactly_the_parsed_entries(p: Seq<Result<Entry, serde_json::Error>>)
    ensures
        parsed_entries(p) == p.filter(|r: Result<Entry, serde_json::Error>| is_parsed(r)).map_values(
            |r: Result<Entry, serde_json::Error>| entry_of(r),
        ),
        failed_lines(p) == p.filter(|r: Result<Entry, serde_json::Error>| !is_parsed(r)).len(),
    decreases p.len(),
{
    reveal(Seq::filter);
    if p.len() > 0 {
        replay_keeps_exactly_the_parsed_entries(p.drop_last());
        let ok = |r: Result<Entry, serde_json::Error>| is_parsed(r);
        let bad = |r: Result<Entry, serde_json::Error>| !is_parsed(r);
        let f = |r: Result<Entry, serde_json::Error>| entry_of(r);
        let sub = p.drop_last().filter(ok);
        if p.last() is Ok {
            assert(p.filter(ok) == sub.push(p.last()));
            assert(sub.push(p.last()).map_values(f) =~= sub.map_values(f).push(entry_of(p.last())));
        } else {
            assert(p.filter(ok) == sub);
        }
    }
}

/// A strict replay that meets no corrupt record yields one entry per
/// record, the entry of that record, in file order.
pub proof fn strict_replay_yields_every_entry_in_order(p: Seq<Result<Entry, serde_json::Error>>)
    requires
        first_failure(p) is None,
    ensures
        parsed_entries(p).len() == p.len(),
        forall|i: int| 0 <= i < p.len() ==> (#[trigger] p[i]) == Ok::<Entry, serde_json::Error>(parsed_entries(p)[i]),
    decreases p.len(),
{
    if p.len() > 0 {
        let q = p.drop_last();
        assert(first_failure(q) is None);
        strict_replay_yields_every_entry_in_order(q);
        assert forall|i: int| 0 <= i < p.len() implies (#[trigger] p[i]) == Ok::<Entry, serde_json::Error>(parsed_entries(p)[i]) by {
            if i < p.len() - 1 {
                assert(p[i] == q[i]);
            }
        }
    }
}

/// Lines appended to an empty journal, none holding a newline and none
/// blank, are read back as its records, each with its newline, in the
/// order in which they were appended. Compact JSON documents are such
/// lines; that they are is a fact of the JSON writer, not stated here.
pub proof fn appended_lines_replay_in_order(lines: Seq<Seq<u8>>)
    requires
        forall|i: int| 0 <= i < lines.len() ==> !(#[trigger] lines[i]).contains(NEWLINE),
        forall|i: int| 0 <= i < lines.len() ==> !is_blank(#[trigger] lines[i]),
    ensures
        records(appended(lines)) == lines.map_values(|l: Seq<u8>| l.push(NEWLINE)),
    decreases lines.len(),
{
    if lines.len() == 0 {
        assert(lines.map_values(|l: Seq<u8>| l.push(NEWLINE)) =~= Seq::<Seq<u8>>::empty());
    } else {
        let l0 = lines[0];
        let tail = lines.drop_first();
        let b = appended(lines);
        let rest = appended(tail);
        assert(b == l0.push(NEWLINE) + rest);
        assert forall|k: int| 0 <= k < l0.len() implies b[k] != NEWLINE by {
            assert(b[k] == l0[k]);
            if l0[k] == NEWLINE {
                assert(l0.contains(NEWLINE));
            }
        }
        assert(b[l0.len() as int] == NEWLINE);
        assert(b.skip(0) =~= b);
        lemma_line_len_at(b, 0, l0.len() as int);
        assert(b.take(l0.len() + 1int) =~= l0.push(NEWLINE));
        assert(b.skip(l0.len() + 1int) =~= rest);
        assert(!is_blank(l0.push(NEWLINE))) by {
            assert(!is_blank(l0));
            let k = choose|k: int| 0 <= k < l0.len() && !is_ascii_ws(#[trigger] l0[k]);
            assert(l0.push(NEWLINE)[k] == l0[k]);
        }
        assert forall|i: int| 0 <= i < tail.len() implies !(#[trigger] tail[i]).contains(NEWLINE) && !is_blank(tail[i]) by {
            assert(tail[i] == lines[i + 1]);
        }
        appended_lines_replay_in_order(tail);
        assert(lines.map_values(|l: Seq<u8>| l.push(NEWLINE)) =~= seq![l0.push(NEWLINE)]
            + tail.map_values(|l: Seq<u8>| l.push(NEWLINE)));
    }
}

/// An emptied journal has no records.
pub proof fn empty_journal_has_no_records()
    ensures
        records(Seq::<u8>::empty()) == Seq::<Seq<u8>>::empty(),
{
}

/// A lenient replay accounts for every record: each one either yields an
/// entry or counts as corrupt.
pub proof fn lenient_replay_accounts_for_every_record(p: Seq<Result<Entry, serde_json::Error>>)
    ensures
        parsed_entries(p).len() + failed_lines(p) == p.len(),
    decreases p.len(),
{
    if p.len() > 0 {
        lenient_replay_accounts_for_every_record(p.drop_last());
    }
}

/// A strict replay succeeds exactly when a lenient one counts no corrupt
/// record; both then yield the same entries.
pub proof fn strict_and_lenient_replay_agree(p: Seq<Result<Entry, serde_json::Error>>)
    ensures
        first_failure(p) is None <==> failed_lines(p) == 0,
    decreases p.len(),
{
    if p.len() > 0 {
        strict_and_lenient_replay_agree(p.drop_last());
    }
}

impl WriteAheadJournal {
    /// The file the journal is bound to.
    pub closed spec fn location(&self) -> PathBuf {
        self.path
    }

    /// Create a journal bound to a file path.
    pub fn new(path: PathBuf) -> (j: Self)
        ensures
            j.location() == path,
    {
        WriteAheadJournal { path }
    }

    /// File path used by this journal.
    pub fn path(&self) -> (p: &PathBuf)
        ensures
            *p == self.location(),
    {
        &self.path
    }

    /// The bytes appended to the file for one entry: its JSON document and
    /// a newline.
    pub fn frame_record(line: &[u8]) -> (r: Vec<u8>)
        ensures
            r@ == line@.push(NEWLINE),
    {
        let mut r: Vec<u8> = Vec::new();
        let n = line.len();
        let mut i: usize = 0;
        while i < n
            invariant
                n == line@.len(),
                i <= n,
                r@ == line@.take(i as int),
            decreases n - i,
        {
            r.push(line[i]);
            assert(line@.take(i + 1) =~= line@.take(i as int).push(line@[i as int]));
            i = i + 1;
        }
        r.push(NEWLINE);
        assert(line@.take(n as int) =~= line@);
        r
    }

    /// What a strict replay makes of the parsed records of a journal: all
    /// their entries in order, or the error of the first record that did
    /// not parse.
    pub fn replay_records(parsed: Vec<Result<Entry, serde_json::Error>>) -> (r: Result<
        Vec<Entry>,
        ScanStateError,
    >)
        ensures
            first_failure(parsed@) is None ==> (r matches Ok(v) && v@ == parsed_entries(parsed@)),
            first_failure(parsed@) is None ==> (r matches Ok(v) && v@.len() == parsed@.len() && forall|i: int|
                0 <= i < parsed@.len() ==> (#[trigger] parsed@[i]) == Ok::<Entry, serde_json::Error>(v@[i])),
            first_failure(parsed@) matches Some(e) ==> (r matches Err(ScanStateError::Serde(f)) && f == e),
    {
        let ghost p = parsed@;
        let mut entries: Vec<Entry> = Vec::new();
        for item in it: parsed.into_iter()
            invariant
                it.seq() == p,
                entries@ == parsed_entries(p.take(it.index() as int)),
                first_failure(p.take(it.index() as int)) is None,
        {
            let ghost idx = it.index() as int;
            proof {
                assert(p.take(idx + 1).drop_last() =~= p.take(idx));
            }
            match item {
                Ok(e) => {
                    entries.push(e);
                },
                Err(e) => {
                    proof {
                        lemma_first_failure_extends(p, idx + 1);
                    }
                    return Err(ScanStateError::Serde(e));
                },
            }
        }
        proof {
            assert(p.take(p.len() as int) =~= p);
            strict_replay_yields_every_entry_in_order(p);
        }
        Ok(entries)
    }

    /// What a lenient replay makes of the parsed records of a journal: the
    /// entries of those that parsed, in order, and the number of those that
    /// did not.
    pub fn replay_records_lenient(parsed: Vec<Result<Entry, serde_json::Error>>) -> (r: (
        Vec<Entry>,
        usize,
    ))
        ensures
            r.0@ == parsed_entries(parsed@),
            r.1 == failed_lines(parsed@),
            r.0@ == parsed@.filter(|x: Result<Entry, serde_json::Error>| is_parsed(x)).map_values(
                |x: Result<Entry, serde_json::Error>| entry_of(x),
            ),
            r.1 == parsed@.filter(|x: Result<Entry, serde_json::Error>| !is_parsed(x)).len(),
    {
        let ghost p = parsed@;
        let n = parsed.len();
        let mut entries: Vec<Entry> = Vec::new();
        let mut failed: usize = 0;
        for item in it: parsed.into_iter()
            invariant
                it.seq() == p,
                p.len() == n,
                entries@ == parsed_entries(p.take(it.index() as int)),
                failed == failed_lines(p.take(it.index() as int)),
                failed <= it.index(),
        {
            let ghost idx = it.index() as int;
            proof {
                assert(p.take(idx + 1).drop_last() =~= p.take(idx));
            }
            match item {
                Ok(e) => {
                    entries.push(e);
                },
                Err(_) => {
                    failed = failed + 1;
                },
            }
        }
        proof {
            assert(p.take(p.len() as int) =~= p);
            replay_keeps_exactly_the_parsed_entries(p);
        }
        (entries, failed)
    }

    /// Splits the contents of a journal file into its records.
    pub fn split_records(bytes: &[u8]) -> (r: Vec<Vec<u8>>)
        ensures
            byte_views(r@) == records(bytes@),
    {
        let n = bytes.len();
        let mut out: Vec<Vec<u8>> = Vec::new();
        let mut start: usize = 0;
        assert(bytes@.skip(0) =~= bytes@);
        while start < n
            invariant
                n == bytes@.len(),
                start <= n,
                records(bytes@) == byte_views(out@) + records(bytes@.skip(start as int)),
            decreases n - start,
        {
            let mut i: usize = start;
            let mut blank = true;
            while i < n && bytes[i] != NEWLINE
                invariant
                    n == bytes@.len(),
                    start <= i <= n,
                    forall|k: int| start <= k < i ==> bytes@[k] != NEWLINE,
                    blank == (forall|k: int| start <= k < i ==> is_ascii_ws(#[trigger] bytes@[k])),
                decreases n - i,
            {
                blank = blank && is_ascii_whitespace(bytes[i]);
                i = i + 1;
            }
            let end = if i < n {
                i + 1
            } else {
                i
            };
            let mut line: Vec<u8> = Vec::new();
            let mut k: usize = start;
            while k < end
                invariant
                    n == bytes@.len(),
                    start <= k <= end <= n,
                    line@ == bytes@.subrange(start as int, k as int),
                decreases end - k,
            {
                line.push(bytes[k]);
                assert(bytes@.subrange(start as int, k + 1) =~= bytes@.subrange(
                    start as int,
                    k as int,
                ).push(bytes@[k as int]));
                k = k + 1;
            }
            proof {
                let rest = bytes@.skip(start as int);
                lemma_line_len_at(bytes@, start as int, i as int);
                assert(line_len(rest) == end - start);
                assert(rest.take(end - start) =~= line@);
                assert(rest.skip(end - start) =~= bytes@.skip(end as int));
                assert(is_blank(line@) == blank) by {
                    if blank {
                        assert forall|q: int| 0 <= q < line@.len() implies is_ascii_ws(#[trigger] line@[q]) by {
                            assert(line@[q] == bytes@[start + q]);
                        }
                    } else {
                        if is_blank(line@) {
                            assert forall|q: int| start <= q < i implies is_ascii_ws(#[trigger] bytes@[q]) by {
                                assert(line@[q - start] == bytes@[q]);
                            }
                            if i < n {
                                assert(line@[i - start] == bytes@[i as int]);
                            }
                        }
                    }
                }
            }
            if !blank {
                let ghost before = byte_views(out@);
                out.push(line);
                proof {
                    assert(byte_views(out@) =~= before.push(bytes@.subrange(start as int, end as int)));
                }
            }
            start = end;
        }
        proof {
            assert(byte_views(out@) + records(bytes@.skip(n as int)) =~= byte_views(out@));
        }
        out
    }
}

} // verus!
