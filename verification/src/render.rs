//! The text of a table: `{key=min/mean/max, ...}`, each number with one
//! digit after the point.

use crate::parse::{MINUS, POINT};
use crate::record::{mean_tenths, City, Stats};
use crate::table::{contents, lemma_sorted_unique, sorted, Table};
use vstd::prelude::*;

verus! {

/// The decimal digits of `n`, the highest first.
pub open spec fn digits(n: nat) -> Seq<u8>
    decreases n,
{
    if n < 10 {
        seq![(0x30 + n) as u8]
    } else {
        digits(n / 10).push((0x30 + n % 10) as u8)
    }
}

/// The text of `tenths` tenths: a minus sign if it is below zero, the whole
/// part, a point, and one digit.
pub open spec fn tenths_text(tenths: int) -> Seq<u8> {
    let size = if tenths < 0 { -tenths } else { tenths };
    let sign = if tenths < 0 { seq![MINUS] } else { Seq::<u8>::empty() };
    sign + digits((size / 10) as nat) + seq![POINT, (0x30 + size % 10) as u8]
}

/// The text of one record: `name=min/mean/max`.
pub open spec fn city_text(name: Seq<u8>, stats: Stats) -> Seq<u8> {
    name + seq![0x3du8] + tenths_text(stats.min) + seq![0x2fu8] + tenths_text(
        mean_tenths(stats.sum, stats.count),
    ) + seq![0x2fu8] + tenths_text(stats.max)
}

/// The texts of `cities`, with a comma and a space between two of them.
pub open spec fn rows_text(cities: Seq<City>) -> Seq<u8>
    decreases cities.len(),
{
    if cities.len() == 0 {
        Seq::empty()
    } else if cities.len() == 1 {
        city_text(cities[0].name@, cities[0].stats())
    } else {
        rows_text(cities.drop_last()) + seq![0x2cu8, 0x20u8] + city_text(
            cities.last().name@,
            cities.last().stats(),
        )
    }
}

/// The text of a table: its rows between braces.
pub open spec fn table_text(cities: Seq<City>) -> Seq<u8> {
    seq![0x7bu8] + rows_text(cities) + seq![0x7du8]
}

/// Appends the decimal digits of `n` to `out`.
pub fn push_digits(out: &mut Vec<u8>, n: u64)
    ensures
        final(out)@ == old(out)@ + digits(n as nat),
    decreases n,
{
    if n >= 10 {
        push_digits(out, n / 10);
    }
    out.push(0x30 + (n % 10) as u8);
    assert(out@ =~= old(out)@ + digits(n as nat));
}

/// Appends the text of `tenths` tenths to `out`.
pub fn push_tenths(out: &mut Vec<u8>, tenths: i64)
    ensures
        final(out)@ == old(out)@ + tenths_text(tenths as int),
{
    let size: u64 = if tenths < 0 {
        out.push(MINUS);
        (-(tenths as i128)) as u64
    } else {
        tenths as u64
    };
    push_digits(out, size / 10);
    out.push(POINT);
    out.push(0x30 + (size % 10) as u8);
    assert(out@ =~= old(out)@ + tenths_text(tenths as int));
}

impl City {
    /// Appends the text of the record to `out`.
    pub fn render_into(&self, out: &mut Vec<u8>)
        requires
            self.wf(),
        ensures
            final(out)@ == old(out)@ + city_text(self.name@, self.stats()),
    {
        let mut i: usize = 0;
        while i < self.name.len()
            invariant
                i <= self.name.len(),
                out@ == old(out)@ + self.name@.take(i as int),
            decreases self.name.len() - i,
        {
            out.push(self.name[i]);
            i += 1;
            assert(out@ =~= old(out)@ + self.name@.take(i as int));
        }
        assert(self.name@.take(i as int) == self.name@);
        out.push(0x3d);
        push_tenths(out, self.min);
        out.push(0x2f);
        push_tenths(out, self.mean());
        out.push(0x2f);
        push_tenths(out, self.max);
        assert(out@ =~= old(out)@ + city_text(self.name@, self.stats()));
    }

    /// The text of the record: `name=min/mean/max`.
    pub fn to_bytes(&self) -> (out: Vec<u8>)
        requires
            self.wf(),
        ensures
            out@ == city_text(self.name@, self.stats()),
    {
        let mut out: Vec<u8> = Vec::new();
        self.render_into(&mut out);
        assert(out@ =~= city_text(self.name@, self.stats()));
        out
    }
}

/// The text of `table`: the records in the order of their names, between braces.
pub fn render_table(table: &Table) -> (out: Vec<u8>)
    requires
        table.wf(),
    ensures
        out@ == table_text(table.cities@),
{
    let mut out: Vec<u8> = Vec::new();
    out.push(0x7b);
    let mut i: usize = 0;
    while i < table.cities.len()
        invariant
            i <= table.cities.len(),
            table.wf(),
            out@ == seq![0x7bu8] + rows_text(table.cities@.take(i as int)),
        decreases table.cities.len() - i,
    {
        if i > 0 {
            out.push(0x2c);
            out.push(0x20);
        }
        table.cities[i].render_into(&mut out);
        proof {
            let done = table.cities@.take(i + 1);
            assert(done.drop_last() == table.cities@.take(i as int));
            assert(done.last() == table.cities@[i as int]);
            assert(out@ =~= seq![0x7bu8] + rows_text(done));
        }
        i += 1;
    }
    assert(table.cities@.take(i as int) == table.cities@);
    out.push(0x7d);
    assert(out@ =~= table_text(table.cities@));
    out
}

/// Records with the same names and statistics have the same text.
pub proof fn lemma_rows_text(a: Seq<City>, b: Seq<City>)
    requires
        a.len() == b.len(),
        forall|i: int|
            0 <= i < a.len() ==> (#[trigger] a[i]).name@ == b[i].name@ && a[i].stats()
                == b[i].stats(),
    ensures
        rows_text(a) == rows_text(b),
    decreases a.len(),
{
    if a.len() > 1 {
        assert forall|i: int| 0 <= i < a.drop_last().len() implies (#[trigger] a.drop_last()[
            i
        ]).name@ == b.drop_last()[i].name@ && a.drop_last()[i].stats() == b.drop_last()[
            i
        ].stats() by {
            assert(a.drop_last()[i] == a[i] && b.drop_last()[i] == b[i]);
        }
        lemma_rows_text(a.drop_last(), b.drop_last());
    }
    if a.len() > 0 {
        assert(a.last() == a[a.len() - 1] && b.last() == b[b.len() - 1]);
        assert(a[0].name@ == b[0].name@ && a[0].stats() == b[0].stats());
    }
}

/// The text of a table is given by its contents.
pub proof fn lemma_text_by_contents(a: Seq<City>, b: Seq<City>)
    requires
        sorted(a),
        sorted(b),
        contents(a) == contents(b),
    ensures
        table_text(a) == table_text(b),
{
    lemma_sorted_unique(a, b);
    lemma_rows_text(a, b);
}

} // verus!
