//! What holds of merging and of folding: merging does not depend on order
//! or grouping, and a pass over chunks of lines, merged, is the pass over all
//! lines, as long as no two keys share a checksum.

use crate::hash::key_hash;
use crate::local::{by_name, keyed, names, observe, Bucket};
use crate::pipeline::{
    aggregated, first_from, lemma_first_from, line_folded, line_record, lines_folded, lines_from,
    split_lines, NEWLINE, SEPARATOR,
};
use crate::parse::word_value;
use crate::record::{single, Stats};
use crate::word::word_at;
use crate::table::{merge_maps, note};
use vstd::prelude::*;

verus! {

/// Merging two tables does not depend on which is left and which is right.
pub proof fn lemma_merge_commutative(l: Map<Seq<u8>, Stats>, r: Map<Seq<u8>, Stats>)
    ensures
        merge_maps(l, r) == merge_maps(r, l),
{
    assert(merge_maps(l, r) =~= merge_maps(r, l));
}

/// Merging three tables does not depend on which two are merged first.
pub proof fn lemma_merge_associative(
    a: Map<Seq<u8>, Stats>,
    b: Map<Seq<u8>, Stats>,
    c: Map<Seq<u8>, Stats>,
)
    ensures
        merge_maps(merge_maps(a, b), c) == merge_maps(a, merge_maps(b, c)),
{
    assert(merge_maps(merge_maps(a, b), c) =~= merge_maps(a, merge_maps(b, c)));
}

/// Merging with the empty table changes nothing.
pub proof fn lemma_merge_empty(a: Map<Seq<u8>, Stats>)
    ensures
        merge_maps(a, Map::empty()) == a,
        merge_maps(Map::empty(), a) == a,
{
    assert(merge_maps(a, Map::empty()) =~= a);
    assert(merge_maps(Map::empty(), a) =~= a);
}

/// `table`, kept by name, after `line`.
pub open spec fn line_tallied(table: Map<Seq<u8>, Stats>, line: Seq<u8>) -> Map<Seq<u8>, Stats> {
    match line_record(line) {
        Some((key, value)) => note(table, key, single(value)),
        None => table,
    }
}

/// `table`, kept by name, after each of `lines` in turn.
pub open spec fn lines_tallied(table: Map<Seq<u8>, Stats>, lines: Seq<Seq<u8>>) -> Map<
    Seq<u8>,
    Stats,
>
    decreases lines.len(),
{
    if lines.len() == 0 {
        table
    } else {
        lines_tallied(line_tallied(table, lines[0]), lines.skip(1))
    }
}

/// Folding `a` and then `b` is folding `a + b`.
pub proof fn lemma_folded_append(table: Map<u64, Bucket>, a: Seq<Seq<u8>>, b: Seq<Seq<u8>>)
    ensures
        lines_folded(table, a + b) == lines_folded(lines_folded(table, a), b),
    decreases a.len(),
{
    if a.len() == 0 {
        assert(a + b == b);
    } else {
        assert((a + b)[0] == a[0]);
        assert((a + b).skip(1) == a.skip(1) + b);
        lemma_folded_append(line_folded(table, a[0]), a.skip(1), b);
    }
}

/// Tallying `a` and then `b` is tallying `a + b`.
pub proof fn lemma_tallied_append(table: Map<Seq<u8>, Stats>, a: Seq<Seq<u8>>, b: Seq<Seq<u8>>)
    ensures
        lines_tallied(table, a + b) == lines_tallied(lines_tallied(table, a), b),
    decreases a.len(),
{
    if a.len() == 0 {
        assert(a + b == b);
    } else {
        assert((a + b)[0] == a[0]);
        assert((a + b).skip(1) == a.skip(1) + b);
        lemma_tallied_append(line_tallied(table, a[0]), a.skip(1), b);
    }
}

/// Tallying lines into a table is merging the table with the tally of the lines.
pub proof fn lemma_tallied_merge(table: Map<Seq<u8>, Stats>, lines: Seq<Seq<u8>>)
    ensures
        lines_tallied(table, lines) == merge_maps(table, lines_tallied(Map::empty(), lines)),
    decreases lines.len(),
{
    let empty = Map::<Seq<u8>, Stats>::empty();
    if lines.len() == 0 {
        lemma_merge_empty(table);
    } else {
        let first = line_tallied(empty, lines[0]);
        let rest = lines_tallied(empty, lines.skip(1));
        lemma_tallied_merge(line_tallied(table, lines[0]), lines.skip(1));
        lemma_tallied_merge(first, lines.skip(1));
        assert(line_tallied(table, lines[0]) =~= merge_maps(table, first));
        lemma_merge_associative(table, first, rest);
    }
}

/// The tally of `a + b` is the tally of `a` merged with the tally of `b`.
pub proof fn lemma_tally_of_chunks(a: Seq<Seq<u8>>, b: Seq<Seq<u8>>)
    ensures
        lines_tallied(Map::empty(), a + b) == merge_maps(
            lines_tallied(Map::empty(), a),
            lines_tallied(Map::empty(), b),
        ),
{
    lemma_tallied_append(Map::empty(), a, b);
    lemma_tallied_merge(lines_tallied(Map::empty(), a), b);
}

/// The key of a line that has a record.
pub open spec fn key_of(line: Seq<u8>) -> Seq<u8> {
    line.take(first_from(line, SEPARATOR, 0))
}

/// The value of a line that has a record.
pub open spec fn value_of(line: Seq<u8>) -> int {
    word_value(word_at(line, first_from(line, SEPARATOR, 0) + 1))
}

/// No two keys of `lines` that differ have the same checksum.
pub open spec fn collision_free(lines: Seq<Seq<u8>>) -> bool {
    forall|i: int, j: int|
        0 <= i < lines.len() && 0 <= j < lines.len() && line_record(#[trigger] lines[i]) is Some
            && line_record(#[trigger] lines[j]) is Some && key_hash(key_of(lines[i])) == key_hash(
            key_of(lines[j]),
        ) ==> key_of(lines[i]) == key_of(lines[j])
}

/// No key of `lines` has the checksum of a bucket of `table` under another name.
pub open spec fn fits(table: Map<u64, Bucket>, lines: Seq<Seq<u8>>) -> bool {
    forall|i: int|
        0 <= i < lines.len() && line_record(#[trigger] lines[i]) is Some && table.contains_key(
            key_hash(key_of(lines[i])),
        ) ==> table[key_hash(key_of(lines[i]))].name == key_of(lines[i])
}

/// In a table whose buckets stand under the checksums of their names, a name
/// belongs to one bucket only.
pub proof fn lemma_by_name(table: Map<u64, Bucket>, hash: u64)
    requires
        keyed(table),
        table.contains_key(hash),
    ensures
        names(table, table[hash].name),
        by_name(table).contains_key(table[hash].name),
        by_name(table)[table[hash].name] == table[hash].stats,
{
    let name = table[hash].name;
    let found = choose|h: u64| #[trigger] table.contains_key(h) && table[h].name == name;
    assert(key_hash(table[found].name) == found);
}

/// A name of a keyed table stands under its own checksum.
pub proof fn lemma_named(table: Map<u64, Bucket>, name: Seq<u8>)
    requires
        keyed(table),
        names(table, name),
    ensures
        table.contains_key(key_hash(name)),
        table[key_hash(name)].name == name,
{
    let found = choose|h: u64| #[trigger] table.contains_key(h) && table[h].name == name;
    assert(key_hash(table[found].name) == found);
}

/// Where the checksum of `key` is free or stands for `key` itself, taking a
/// value of `key` in by checksum is taking it in by name.
pub proof fn lemma_observe_by_name(table: Map<u64, Bucket>, key: Seq<u8>, value: int)
    requires
        keyed(table),
        table.contains_key(key_hash(key)) ==> table[key_hash(key)].name == key,
    ensures
        keyed(observe(table, key, value)),
        by_name(observe(table, key, value)) == note(by_name(table), key, single(value)),
{
    let hash = key_hash(key);
    let after = observe(table, key, value);
    let goal = note(by_name(table), key, single(value));
    assert(after.contains_key(hash) && after[hash].name == key);
    assert(keyed(after));
    lemma_by_name(after, hash);
    if table.contains_key(hash) {
        lemma_by_name(table, hash);
    } else if names(table, key) {
        lemma_named(table, key);
    }
    assert forall|name: Seq<u8>| by_name(after).contains_key(name) <==> goal.contains_key(
        name,
    ) by {
        if names(after, name) {
            lemma_named(after, name);
            if name != key {
                assert(table.contains_key(key_hash(name)) && table[key_hash(name)].name == name);
            }
        }
        if names(table, name) {
            lemma_named(table, name);
            let h = key_hash(name);
            assert(after.contains_key(h) && after[h].name == name);
        }
    }
    assert forall|name: Seq<u8>| by_name(after).contains_key(name) implies by_name(after)[name]
        == goal[name] by {
        lemma_named(after, name);
        let h = key_hash(name);
        lemma_by_name(after, h);
        if name != key {
            assert(h != hash);
            lemma_by_name(table, h);
        }
    }
    assert(by_name(after) =~= goal);
}

/// As long as no checksum stands for two keys, folding by checksum gives,
/// under the names, what tallying by name gives.
pub proof fn lemma_fold_is_tally(table: Map<u64, Bucket>, lines: Seq<Seq<u8>>)
    requires
        keyed(table),
        collision_free(lines),
        fits(table, lines),
    ensures
        keyed(lines_folded(table, lines)),
        by_name(lines_folded(table, lines)) == lines_tallied(by_name(table), lines),
    decreases lines.len(),
{
    if lines.len() > 0 {
        let line = lines[0];
        let rest = lines.skip(1);
        let next = line_folded(table, line);
        assert forall|i: int, j: int|
            0 <= i < rest.len() && 0 <= j < rest.len() && line_record(#[trigger] rest[i]) is Some
                && line_record(#[trigger] rest[j]) is Some && key_hash(key_of(rest[i]))
                == key_hash(key_of(rest[j])) implies key_of(rest[i]) == key_of(rest[j]) by {
            assert(rest[i] == lines[i + 1] && rest[j] == lines[j + 1]);
        }
        if line_record(line) is Some {
            let key = key_of(line);
            lemma_observe_by_name(table, key, value_of(line));
        }
        assert forall|i: int|
            0 <= i < rest.len() && line_record(#[trigger] rest[i]) is Some && next.contains_key(
                key_hash(key_of(rest[i])),
            ) implies next[key_hash(key_of(rest[i]))].name == key_of(rest[i]) by {
            assert(rest[i] == lines[i + 1]);
        }
        lemma_fold_is_tally(next, rest);
    }
}

/// A part of lines without collisions has none.
pub proof fn lemma_collision_free_parts(a: Seq<Seq<u8>>, b: Seq<Seq<u8>>)
    requires
        collision_free(a + b),
    ensures
        collision_free(a),
        collision_free(b),
{
    let all = a + b;
    assert forall|i: int, j: int|
        0 <= i < a.len() && 0 <= j < a.len() && line_record(#[trigger] a[i]) is Some
            && line_record(#[trigger] a[j]) is Some && key_hash(key_of(a[i])) == key_hash(
            key_of(a[j]),
        ) implies key_of(a[i]) == key_of(a[j]) by {
        assert(all[i] == a[i] && all[j] == a[j]);
    }
    assert forall|i: int, j: int|
        0 <= i < b.len() && 0 <= j < b.len() && line_record(#[trigger] b[i]) is Some
            && line_record(#[trigger] b[j]) is Some && key_hash(key_of(b[i])) == key_hash(
            key_of(b[j]),
        ) implies key_of(b[i]) == key_of(b[j]) by {
        assert(all[a.len() + i] == b[i] && all[a.len() + j] == b[j]);
    }
}

/// The statistics that a pass over `lines` gives, under the names.
pub open spec fn passed(lines: Seq<Seq<u8>>) -> Map<Seq<u8>, Stats> {
    by_name(lines_folded(Map::empty(), lines))
}

/// A pass over lines without collisions gives the tally of the lines.
pub proof fn lemma_pass_is_tally(lines: Seq<Seq<u8>>)
    requires
        collision_free(lines),
    ensures
        passed(lines) == lines_tallied(Map::empty(), lines),
{
    let empty = Map::<u64, Bucket>::empty();
    lemma_fold_is_tally(empty, lines);
    assert(by_name(empty) =~= Map::<Seq<u8>, Stats>::empty());
}

/// Lines cut in two, each part passed over by itself, and the two tables
/// merged: that is the pass over all lines, if no two keys share a checksum.
pub proof fn lemma_two_chunks(a: Seq<Seq<u8>>, b: Seq<Seq<u8>>)
    requires
        collision_free(a + b),
    ensures
        passed(a + b) == merge_maps(passed(a), passed(b)),
{
    lemma_collision_free_parts(a, b);
    lemma_pass_is_tally(a + b);
    lemma_pass_is_tally(a);
    lemma_pass_is_tally(b);
    lemma_tally_of_chunks(a, b);
}

/// The lines of all `chunks`, one chunk after the other.
pub open spec fn joined(chunks: Seq<Seq<Seq<u8>>>) -> Seq<Seq<u8>>
    decreases chunks.len(),
{
    if chunks.len() == 0 {
        Seq::empty()
    } else {
        joined(chunks.drop_last()) + chunks.last()
    }
}

/// The tables `tables` merged, from the first to the last.
pub open spec fn merged(tables: Seq<Map<Seq<u8>, Stats>>) -> Map<Seq<u8>, Stats>
    decreases tables.len(),
{
    if tables.len() == 0 {
        Map::empty()
    } else {
        merge_maps(merged(tables.drop_last()), tables.last())
    }
}

/// The table of each chunk, passed over by itself.
pub open spec fn each_passed(chunks: Seq<Seq<Seq<u8>>>) -> Seq<Map<Seq<u8>, Stats>> {
    Seq::new(chunks.len(), |i: int| passed(chunks[i]))
}

/// Lines cut into any number of chunks, each passed over by itself, and the
/// tables merged: that is the pass over all lines, if no two keys share a
/// checksum.
pub proof fn lemma_chunks(chunks: Seq<Seq<Seq<u8>>>)
    requires
        collision_free(joined(chunks)),
    ensures
        merged(each_passed(chunks)) == passed(joined(chunks)),
    decreases chunks.len(),
{
    if chunks.len() == 0 {
        assert(passed(Seq::empty()) =~= Map::<Seq<u8>, Stats>::empty());
    } else {
        let front = chunks.drop_last();
        lemma_collision_free_parts(joined(front), chunks.last());
        lemma_chunks(front);
        lemma_two_chunks(joined(front), chunks.last());
        assert(each_passed(chunks).drop_last() == each_passed(front));
    }
}

/// Tables may be merged in any grouping: all at once, or a first part and
/// the rest each by itself and then the two results.
pub proof fn lemma_merged_split(tables: Seq<Map<Seq<u8>, Stats>>, k: int)
    requires
        0 <= k <= tables.len(),
    ensures
        merged(tables) == merge_maps(merged(tables.take(k)), merged(tables.skip(k))),
    decreases tables.len(),
{
    if k == tables.len() {
        assert(tables.take(k) == tables);
        lemma_merge_empty(merged(tables));
    } else {
        let front = tables.drop_last();
        lemma_merged_split(front, k);
        assert(front.take(k) == tables.take(k));
        assert(front.skip(k) == tables.skip(k).drop_last());
        assert(tables.skip(k).last() == tables.last());
        lemma_merge_associative(merged(tables.take(k)), merged(front.skip(k)), tables.last());
    }
}

/// Tables may be merged in any order: two neighbours may change places.
pub proof fn lemma_merged_swap(tables: Seq<Map<Seq<u8>, Stats>>, i: int)
    requires
        0 <= i,
        i + 1 < tables.len(),
    ensures
        merged(tables) == merged(tables.update(i, tables[i + 1]).update(i + 1, tables[i])),
    decreases tables.len(),
{
    let swapped = tables.update(i, tables[i + 1]).update(i + 1, tables[i]);
    if i + 2 == tables.len() {
        let front = tables.drop_last().drop_last();
        assert(swapped.drop_last().drop_last() == front);
        assert(tables.drop_last().last() == tables[i]);
        assert(swapped.drop_last().last() == tables[i + 1]);
        assert(swapped.last() == tables[i]);
        assert(tables.last() == tables[i + 1]);
        assert(merged(tables.drop_last()) == merge_maps(merged(front), tables[i]));
        assert(merged(swapped.drop_last()) == merge_maps(merged(front), tables[i + 1]));
        lemma_merge_associative(merged(front), tables[i], tables[i + 1]);
        lemma_merge_associative(merged(front), tables[i + 1], tables[i]);
        lemma_merge_commutative(tables[i], tables[i + 1]);
    } else {
        lemma_merged_swap(tables.drop_last(), i);
        assert(swapped.last() == tables.last());
        assert(swapped.drop_last() == tables.drop_last().update(i, tables[i + 1]).update(
            i + 1,
            tables[i],
        ));
    }
}

/// A line without a separator, wherever it stands, changes nothing.
pub proof fn lemma_line_without_separator(
    table: Map<u64, Bucket>,
    a: Seq<Seq<u8>>,
    line: Seq<u8>,
    b: Seq<Seq<u8>>,
)
    requires
        line_record(line) is None,
    ensures
        lines_folded(table, a + seq![line] + b) == lines_folded(table, a + b),
{
    let middle = seq![line];
    lemma_folded_append(table, a + middle, b);
    lemma_folded_append(table, a, middle);
    lemma_folded_append(table, a, b);
    let at = lines_folded(table, a);
    assert(middle.skip(1).len() == 0);
    assert(lines_folded(at, middle) == lines_folded(line_folded(at, middle[0]), middle.skip(1)));
}

/// The empty buffer gives the empty table.
pub proof fn lemma_empty_buffer()
    ensures
        aggregated(Seq::empty()) == Map::<Seq<u8>, Stats>::empty(),
{
    let buf = Seq::<u8>::empty();
    let lines = split_lines(buf);
    assert(lines.len() == 1);
    assert(lines[0].len() == 0);
    assert(line_record(lines[0]) is None);
    assert(lines.skip(1).len() == 0);
    let empty = Map::<u64, Bucket>::empty();
    assert(lines_folded(empty, lines) == lines_folded(line_folded(empty, lines[0]), lines.skip(1)));
    assert(by_name(empty) =~= Map::<Seq<u8>, Stats>::empty());
}

/// The lines of two buffers with a newline between them are the lines of
/// the first and then the lines of the second.
pub proof fn lemma_lines_of_parts(a: Seq<u8>, b: Seq<u8>)
    ensures
        split_lines(a + seq![NEWLINE] + b) == split_lines(a) + split_lines(b),
{
    lemma_lines_shift(a, b, 0);
    lemma_lines_tail(a + seq![NEWLINE], b, 0);
    assert(a + seq![NEWLINE] + b == (a + seq![NEWLINE]) + b);
}

/// The lines of `head + b` from the end of `head` on are the lines of `b`.
proof fn lemma_lines_tail(head: Seq<u8>, b: Seq<u8>, start: int)
    requires
        0 <= start <= b.len(),
    ensures
        lines_from(head + b, head.len() + start) == lines_from(b, start),
    decreases b.len() - start,
{
    let buf = head + b;
    lemma_first_from(b, NEWLINE, start);
    lemma_first_shift(head, b, start);
    let end = first_from(b, NEWLINE, start);
    if end >= b.len() {
        assert(buf.subrange(head.len() + start, buf.len() as int) == b.subrange(
            start,
            b.len() as int,
        ));
    } else {
        assert(buf.subrange(head.len() + start, head.len() + end) == b.subrange(start, end));
        lemma_lines_tail(head, b, end + 1);
    }
}

/// The first newline of `head + b` at or after a place in `b` is the one of `b`.
proof fn lemma_first_shift(head: Seq<u8>, b: Seq<u8>, start: int)
    requires
        0 <= start <= b.len(),
    ensures
        first_from(head + b, NEWLINE, head.len() + start) == head.len() + first_from(
            b,
            NEWLINE,
            start,
        ),
    decreases b.len() - start,
{
    if start < b.len() {
        assert((head + b)[head.len() + start] == b[start]);
        if b[start] != NEWLINE {
            lemma_first_shift(head, b, start + 1);
        }
    }
}

/// The first newline of `a + [newline] + b` at or after a place in `a` is
/// the one of `a`, or else the newline after `a`.
proof fn lemma_first_in_head(a: Seq<u8>, b: Seq<u8>, start: int)
    requires
        0 <= start <= a.len(),
    ensures
        first_from(a + seq![NEWLINE] + b, NEWLINE, start) == first_from(a, NEWLINE, start),
    decreases a.len() - start,
{
    let buf = a + seq![NEWLINE] + b;
    if start < a.len() {
        assert(buf[start] == a[start]);
        if a[start] != NEWLINE {
            lemma_first_in_head(a, b, start + 1);
        }
    } else {
        assert(buf[start] == NEWLINE);
    }
}

/// The lines of `a + [newline] + b` from a place in `a` on are the lines
/// of `a` from there on, and then the lines of `b`.
proof fn lemma_lines_shift(a: Seq<u8>, b: Seq<u8>, start: int)
    requires
        0 <= start <= a.len(),
    ensures
        lines_from(a + seq![NEWLINE] + b, start) == lines_from(a, start) + lines_from(
            a + seq![NEWLINE] + b,
            a.len() as int + 1,
        ),
    decreases a.len() - start,
{
    let buf = a + seq![NEWLINE] + b;
    lemma_first_from(a, NEWLINE, start);
    lemma_first_in_head(a, b, start);
    let end = first_from(a, NEWLINE, start);
    if end >= a.len() {
        assert(buf.subrange(start, a.len() as int) == a.subrange(start, a.len() as int));
        assert(lines_from(a, start) == seq![a.subrange(start, a.len() as int)]);
        assert(lines_from(buf, start) == seq![buf.subrange(start, end)] + lines_from(
            buf,
            end + 1,
        ));
    } else {
        assert(buf.subrange(start, end) == a.subrange(start, end));
        lemma_lines_shift(a, b, end + 1);
        assert(lines_from(buf, start) == seq![buf.subrange(start, end)] + lines_from(
            buf,
            end + 1,
        ));
        assert(lines_from(a, start) == seq![a.subrange(start, end)] + lines_from(a, end + 1));
        assert(seq![a.subrange(start, end)] + (lines_from(a, end + 1) + lines_from(
            buf,
            a.len() as int + 1,
        )) == (seq![a.subrange(start, end)] + lines_from(a, end + 1)) + lines_from(
            buf,
            a.len() as int + 1,
        ));
    }
}

/// A buffer cut at a newline, each part passed over by itself, and the two
/// tables merged: that is the pass over the whole buffer, if no two keys
/// share a checksum.
pub proof fn lemma_buffer_cut(a: Seq<u8>, b: Seq<u8>)
    requires
        collision_free(split_lines(a + seq![NEWLINE] + b)),
    ensures
        aggregated(a + seq![NEWLINE] + b) == merge_maps(aggregated(a), aggregated(b)),
{
    lemma_lines_of_parts(a, b);
    lemma_two_chunks(split_lines(a), split_lines(b));
}

} // verus!
