//! The pass over a buffer: lines, the record in each line, and the fold of
//! all records into a table.

use crate::hash::fold_words;
use crate::local::{by_name, observe, Bucket, LocalTable};
use crate::parse::{parse_at, word_value};
use crate::record::Stats;
use crate::table::Table;
use crate::word::word_at;
use vstd::prelude::*;
use vstd::slice::slice_subrange;

verus! {

/// The byte that ends a line.
pub const NEWLINE: u8 = 0x0a;

/// The byte between key and value.
pub const SEPARATOR: u8 = 0x3b;

/// The index of the first `byte` in `s` at or after `from`; the length of `s` if there is none.
pub open spec fn first_from(s: Seq<u8>, byte: u8, from: int) -> int
    decreases s.len() - from,
{
    if from < 0 || from >= s.len() {
        s.len() as int
    } else if s[from] == byte {
        from
    } else {
        first_from(s, byte, from + 1)
    }
}

/// `first_from` finds the first `byte` and nothing before it.
pub proof fn lemma_first_from(s: Seq<u8>, byte: u8, from: int)
    requires
        0 <= from <= s.len(),
    ensures
        from <= first_from(s, byte, from) <= s.len(),
        first_from(s, byte, from) < s.len() ==> s[first_from(s, byte, from)] == byte,
        forall|j: int| from <= j < first_from(s, byte, from) ==> s[j] != byte,
    decreases s.len() - from,
{
    if from < s.len() && s[from] != byte {
        lemma_first_from(s, byte, from + 1);
    }
}

/// The lines of `buf` from `start` on: the pieces between newlines, the last
/// one running to the end of `buf`.
pub open spec fn lines_from(buf: Seq<u8>, start: int) -> Seq<Seq<u8>>
    decreases buf.len() - start,
    via lines_from_ends
{
    let end = first_from(buf, NEWLINE, start);
    if start < 0 || start > buf.len() {
        Seq::empty()
    } else if end >= buf.len() {
        seq![buf.subrange(start, buf.len() as int)]
    } else {
        seq![buf.subrange(start, end)] + lines_from(buf, end + 1)
    }
}

#[via_fn]
proof fn lines_from_ends(buf: Seq<u8>, start: int) {
    if 0 <= start <= buf.len() {
        lemma_first_from(buf, NEWLINE, start);
    }
}

/// The lines of `buf`.
pub open spec fn split_lines(buf: Seq<u8>) -> Seq<Seq<u8>> {
    lines_from(buf, 0)
}

/// The key and the value of `line`, if it has a separator: the key is what
/// stands before the first separator, the value what the decoder makes of
/// the eight bytes after it.
pub open spec fn line_record(line: Seq<u8>) -> Option<(Seq<u8>, int)> {
    let sep = first_from(line, SEPARATOR, 0);
    if sep >= line.len() {
        None
    } else {
        Some((line.take(sep), word_value(word_at(line, sep + 1))))
    }
}

/// `table` after `line`: a line without a separator changes nothing.
pub open spec fn line_folded(table: Map<u64, Bucket>, line: Seq<u8>) -> Map<u64, Bucket> {
    match line_record(line) {
        Some((key, value)) => observe(table, key, value),
        None => table,
    }
}

/// `table` after each of `lines` in turn.
pub open spec fn lines_folded(table: Map<u64, Bucket>, lines: Seq<Seq<u8>>) -> Map<u64, Bucket>
    decreases lines.len(),
{
    if lines.len() == 0 {
        table
    } else {
        lines_folded(line_folded(table, lines[0]), lines.skip(1))
    }
}

/// The statistics of each key of `buf`, as one pass over its lines gives them.
pub open spec fn aggregated(buf: Seq<u8>) -> Map<Seq<u8>, Stats> {
    by_name(lines_folded(Map::empty(), split_lines(buf)))
}

/// The index of the first `byte` in `buf` at or after `from`, or the length of `buf`.
pub fn find_byte(buf: &[u8], from: usize, byte: u8) -> (at: usize)
    requires
        from <= buf.len(),
    ensures
        at == first_from(buf@, byte, from as int),
        from <= at <= buf.len(),
{
    let mut at = from;
    while at < buf.len() && buf[at] != byte
        invariant
            from <= at <= buf.len(),
            first_from(buf@, byte, from as int) == first_from(buf@, byte, at as int),
        decreases buf.len() - at,
    {
        at += 1;
    }
    at
}

/// Folds one line into `table`. A line without a separator is passed over.
pub fn fold_line(table: &mut LocalTable, line: &[u8])
    requires
        old(table).wf(),
        line_record(line@) is Some ==> old(table).records < u64::MAX,
    ensures
        final(table).wf(),
        final(table)@ == line_folded(old(table)@, line@),
        final(table).records == old(table).records + if line_record(line@) is Some {
            1int
        } else {
            0int
        },
{
    let sep = find_byte(line, 0, SEPARATOR);
    if sep < line.len() {
        let key = slice_subrange(line, 0, sep);
        let hash = fold_words(line, sep);
        let value = parse_at(line, sep + 1);
        assert(key@ == line@.take(sep as int));
        table.observe(hash, key, value);
    }
}

/// Folds every line of `buf` into a new table.
pub fn fold_buffer(buf: &[u8]) -> (table: LocalTable)
    ensures
        table.wf(),
        table@ == lines_folded(Map::empty(), split_lines(buf@)),
{
    let mut table = LocalTable::new();
    let mut start: usize = 0;
    loop
        invariant_except_break
            start <= buf.len(),
            table.wf(),
            table.records <= start,
            lines_folded(table@, lines_from(buf@, start as int)) == lines_folded(
                Map::empty(),
                split_lines(buf@),
            ),
        ensures
            table.wf(),
            table@ == lines_folded(Map::empty(), split_lines(buf@)),
        decreases buf.len() - start,
    {
        let end = find_byte(buf, start, NEWLINE);
        let line = slice_subrange(buf, start, end);
        let ghost before = table@;
        proof {
            lemma_record_takes_room(line@);
        }
        fold_line(&mut table, line);
        proof {
            let rest = lines_from(buf@, start as int);
            assert(rest[0] == line@);
            if end < buf.len() {
                assert(rest.skip(1) == lines_from(buf@, end + 1));
            } else {
                assert(rest.skip(1) == Seq::<Seq<u8>>::empty());
            }
            assert(lines_folded(before, rest) == lines_folded(table@, rest.skip(1)));
        }
        if end >= buf.len() {
            break ;
        }
        start = end + 1;
    }
    table
}

/// A line with a record has at least one byte.
pub proof fn lemma_record_takes_room(line: Seq<u8>)
    ensures
        line_record(line) is Some ==> line.len() >= 1,
{
}

/// The table of the statistics of each key of `buf`, in the order of the keys.
pub fn aggregate(buf: &[u8]) -> (table: Table)
    ensures
        table.wf(),
        table@ == aggregated(buf@),
{
    fold_buffer(buf).into_table()
}

} // verus!
