//! The final table: one record for each key, in the order of the keys.

use crate::order::{
    compare_names, lemma_name_lt_asymmetric, lemma_name_lt_irreflexive, lemma_name_lt_transitive,
    name_lt, Rank,
};
use crate::record::{combine, City, Stats};
use vstd::prelude::*;

verus! {

/// The names of `cities` rise strictly.
pub open spec fn sorted(cities: Seq<City>) -> bool {
    forall|i: int, j: int|
        0 <= i < j < cities.len() ==> name_lt(
            (#[trigger] cities[i]).name@,
            (#[trigger] cities[j]).name@,
        )
}

/// Some record of `cities` has the name `name`.
pub open spec fn holds(cities: Seq<City>, name: Seq<u8>) -> bool {
    exists|i: int| 0 <= i < cities.len() && (#[trigger] cities[i]).name@ == name
}

/// The index of a record of `cities` with the name `name`, if there is one.
pub open spec fn place(cities: Seq<City>, name: Seq<u8>) -> int {
    choose|i: int| 0 <= i < cities.len() && (#[trigger] cities[i]).name@ == name
}

/// The statistics that `cities` holds for each name.
pub open spec fn contents(cities: Seq<City>) -> Map<Seq<u8>, Stats> {
    Map::new(|name: Seq<u8>| holds(cities, name), |name: Seq<u8>| cities[place(cities, name)].stats())
}

/// `table` with `stats` taken in under `name`: combined with what the name has, if it has any.
pub open spec fn note(table: Map<Seq<u8>, Stats>, name: Seq<u8>, stats: Stats) -> Map<
    Seq<u8>,
    Stats,
> {
    if table.contains_key(name) {
        table.insert(name, combine(table[name], stats))
    } else {
        table.insert(name, stats)
    }
}

/// A table with the statistics of `l` and of `r`: combined where a name has both.
pub open spec fn merge_maps(l: Map<Seq<u8>, Stats>, r: Map<Seq<u8>, Stats>) -> Map<
    Seq<u8>,
    Stats,
> {
    Map::new(
        |name: Seq<u8>| l.contains_key(name) || r.contains_key(name),
        |name: Seq<u8>|
            if l.contains_key(name) && r.contains_key(name) {
                combine(l[name], r[name])
            } else if l.contains_key(name) {
                l[name]
            } else {
                r[name]
            },
    )
}

/// No two records of `cities` have the same name.
pub open spec fn distinct(cities: Seq<City>) -> bool {
    forall|i: int, j: int|
        0 <= i < j < cities.len() ==> (#[trigger] cities[i]).name@ != (#[trigger] cities[j]).name@
}

/// The number of values that the records of `cities` count together.
pub open spec fn total(cities: Seq<City>) -> int
    decreases cities.len(),
{
    if cities.len() == 0 {
        0
    } else {
        total(cities.drop_last()) + cities.last().count
    }
}

/// No record counts more than all together.
pub proof fn lemma_total_bounds(cities: Seq<City>, i: int)
    requires
        0 <= i < cities.len(),
    ensures
        0 <= cities[i].count <= total(cities),
        total(cities.take(i)) + cities[i].count == total(cities.take(i + 1)),
        total(cities.take(i + 1)) <= total(cities),
    decreases cities.len(),
{
    lemma_total_nonnegative(cities.take(i));
    assert(cities.take(i + 1).drop_last() == cities.take(i));
    if i == cities.len() - 1 {
        assert(cities.take(i + 1) == cities);
    } else {
        lemma_total_bounds(cities.drop_last(), i);
        assert(cities.drop_last().take(i + 1) == cities.take(i + 1));
        assert(cities.drop_last().take(i) == cities.take(i));
    }
}

/// A total is never negative.
pub proof fn lemma_total_nonnegative(cities: Seq<City>)
    ensures
        0 <= total(cities),
    decreases cities.len(),
{
    if cities.len() > 0 {
        lemma_total_nonnegative(cities.drop_last());
    }
}

/// A record put in adds its count to the total.
pub proof fn lemma_total_insert(cities: Seq<City>, at: int, city: City)
    requires
        0 <= at <= cities.len(),
    ensures
        total(cities.insert(at, city)) == total(cities) + city.count,
    decreases cities.len(),
{
    let after = cities.insert(at, city);
    if at == cities.len() {
        assert(after.drop_last() == cities);
    } else {
        lemma_total_insert(cities.drop_last(), at, city);
        assert(after.drop_last() == cities.drop_last().insert(at, city));
    }
}

/// A record replaced changes the total by the difference of the counts.
pub proof fn lemma_total_update(cities: Seq<City>, at: int, city: City)
    requires
        0 <= at < cities.len(),
    ensures
        total(cities.update(at, city)) == total(cities) - cities[at].count + city.count,
    decreases cities.len(),
{
    let after = cities.update(at, city);
    if at == cities.len() - 1 {
        assert(after.drop_last() == cities.drop_last());
    } else {
        lemma_total_update(cities.drop_last(), at, city);
        assert(after.drop_last() == cities.drop_last().update(at, city));
    }
}

/// Names that rise strictly are distinct.
pub proof fn lemma_sorted_distinct(cities: Seq<City>)
    requires
        sorted(cities),
    ensures
        distinct(cities),
{
    assert forall|i: int, j: int| 0 <= i < j < cities.len() implies (#[trigger] cities[i]).name@
        != (#[trigger] cities[j]).name@ by {
        lemma_name_lt_irreflexive(cities[i].name@);
    }
}

/// Among distinct names a name stands at one index only.
pub proof fn lemma_place(cities: Seq<City>, i: int)
    requires
        distinct(cities),
        0 <= i < cities.len(),
    ensures
        holds(cities, cities[i].name@),
        place(cities, cities[i].name@) == i,
        contents(cities).contains_key(cities[i].name@),
        contents(cities)[cities[i].name@] == cities[i].stats(),
{
    let p = place(cities, cities[i].name@);
    if p < i {
        assert(cities[p].name@ != cities[i].name@);
    } else if i < p {
        assert(cities[i].name@ != cities[p].name@);
    }
}

/// Records in the order of their names, none of them twice.
pub struct Table {
    pub cities: Vec<City>,
    pub records: u64,
}

impl Table {
    /// The statistics of each key.
    pub open spec fn view(&self) -> Map<Seq<u8>, Stats> {
        contents(self.cities@)
    }

    /// The names rise strictly, each record is well formed, and `records`
    /// is the number of values that they count together.
    pub open spec fn wf(&self) -> bool {
        &&& sorted(self.cities@)
        &&& forall|i: int| 0 <= i < self.cities.len() ==> (#[trigger] self.cities[i]).wf()
        &&& self.records == total(self.cities@)
    }

    /// The empty table.
    pub fn new() -> (table: Table)
        ensures
            table.wf(),
            table@ == Map::<Seq<u8>, Stats>::empty(),
            table.records == 0,
            table.cities@.len() == 0,
    {
        let table = Table { cities: Vec::new(), records: 0 };
        assert(table@ =~= Map::<Seq<u8>, Stats>::empty());
        table
    }

    /// Takes `city` in: merged into the record of its name if the table has
    /// one, else as a new record at its place.
    pub fn absorb(&mut self, city: City)
        requires
            old(self).wf(),
            city.wf(),
            old(self).records + city.count <= u64::MAX,
        ensures
            final(self).wf(),
            final(self)@ == note(old(self)@, city.name@, city.stats()),
            final(self).records == old(self).records + city.count,
    {
        let ghost before = self.cities@;
        let mut lo: usize = 0;
        let mut hi: usize = self.cities.len();
        while lo < hi
            invariant
                lo <= hi <= self.cities.len(),
                self.cities@ == before,
                before == old(self).cities@,
                self.records == old(self).records,
                self.records + city.count <= u64::MAX,
                city.wf(),
                sorted(before),
                forall|i: int| 0 <= i < before.len() ==> (#[trigger] before[i]).wf(),
                self.records == total(before),
                forall|j: int| 0 <= j < lo ==> name_lt((#[trigger] before[j]).name@, city.name@),
                forall|j: int|
                    hi <= j < before.len() ==> name_lt(city.name@, (#[trigger] before[j]).name@),
            decreases hi - lo,
        {
            let mid = lo + (hi - lo) / 2;
            match compare_names(self.cities[mid].name.as_slice(), city.name.as_slice()) {
                Rank::Before => {
                    assert forall|j: int| 0 <= j < mid + 1 implies name_lt(
                        (#[trigger] before[j]).name@,
                        city.name@,
                    ) by {
                        if j < mid {
                            assert(name_lt(before[j].name@, before[mid as int].name@));
                            lemma_name_lt_transitive(
                                before[j].name@,
                                before[mid as int].name@,
                                city.name@,
                            );
                        }
                    }
                    lo = mid + 1;
                },
                Rank::After => {
                    assert forall|j: int| mid <= j < before.len() implies name_lt(
                        city.name@,
                        (#[trigger] before[j]).name@,
                    ) by {
                        if mid < j {
                            assert(name_lt(before[mid as int].name@, before[j].name@));
                            lemma_name_lt_transitive(
                                city.name@,
                                before[mid as int].name@,
                                before[j].name@,
                            );
                        }
                    }
                    hi = mid;
                },
                Rank::Same => {
                    proof {
                        lemma_total_bounds(before, mid as int);
                    }
                    self.cities[mid].merge(&city);
                    self.records += city.count;
                    proof {
                        let after = self.cities@;
                        lemma_sorted_distinct(before);
                        lemma_place(before, mid as int);
                        lemma_same_names(before, after, mid as int);
                        assert(after == before.update(mid as int, after[mid as int]));
                        lemma_total_update(before, mid as int, after[mid as int]);
                    }
                    return ;
                },
            }
        }
        proof {
            lemma_sorted_distinct(before);
            lemma_inserted(before, lo as int, city);
            lemma_contents_insert(before, lo as int, city);
            lemma_total_insert(before, lo as int, city);
        }
        self.records += city.count;
        self.cities.insert(lo, city);
    }

    /// Takes every record of `cities` in.
    pub fn absorb_all(&mut self, cities: Vec<City>)
        requires
            old(self).wf(),
            distinct(cities@),
            forall|i: int| 0 <= i < cities.len() ==> (#[trigger] cities[i]).wf(),
            old(self).records + total(cities@) <= u64::MAX,
        ensures
            final(self).wf(),
            final(self)@ == merge_maps(old(self)@, contents(cities@)),
            final(self).records == old(self).records + total(cities@),
    {
        let mut cities = cities;
        let ghost all = cities@;
        proof {
            assert(all.take(all.len() as int) == all);
            assert(contents(all.skip(all.len() as int)) =~= Map::<Seq<u8>, Stats>::empty());
            assert(merge_maps(self@, Map::<Seq<u8>, Stats>::empty()) =~= self@);
        }
        while cities.len() > 0
            invariant
                cities.len() <= all.len(),
                cities@ == all.take(cities.len() as int),
                distinct(all),
                forall|i: int| 0 <= i < all.len() ==> (#[trigger] all[i]).wf(),
                self.wf(),
                self.records == old(self).records + total(all) - total(cities@),
                old(self).records + total(all) <= u64::MAX,
                self@ == merge_maps(old(self)@, contents(all.skip(cities.len() as int))),
            decreases cities.len(),
        {
            let ghost n = cities.len() as int;
            let ghost rest = all.skip(n);
            let city = cities.pop().unwrap();
            proof {
                assert(city == all[n - 1]);
                assert(cities@ == all.take(n - 1));
                lemma_total_bounds(all, n - 1);
                lemma_total_nonnegative(all.take(n - 1));
                assert forall|i: int, j: int| 0 <= i < j < rest.len() implies (
                #[trigger] rest[i]).name@ != (#[trigger] rest[j]).name@ by {
                    assert(all[n + i].name@ != all[n + j].name@);
                }
                if holds(rest, city.name@) {
                    let p = place(rest, city.name@);
                    assert(all[n - 1].name@ != all[n + p].name@);
                }
                lemma_contents_insert(rest, 0, city);
                assert(rest.insert(0, city) == all.skip(n - 1));
                lemma_merge_note(old(self)@, contents(rest), city.name@, city.stats());
            }
            self.absorb(city);
        }
        proof {
            assert(all.skip(0) == all);
            assert(total(cities@) == 0);
        }
    }
}

/// The table of the statistics of `l` and `r` together.
pub fn merge_tables(l: Table, r: Table) -> (table: Table)
    requires
        l.wf(),
        r.wf(),
        l.records + r.records <= u64::MAX,
    ensures
        table.wf(),
        table@ == merge_maps(l@, r@),
        table.records == l.records + r.records,
{
    let mut table = l;
    proof {
        lemma_sorted_distinct(r.cities@);
    }
    table.absorb_all(r.cities);
    table
}

/// Taking a new name into the right side of a merge is taking it into the merge.
pub proof fn lemma_merge_note(
    l: Map<Seq<u8>, Stats>,
    r: Map<Seq<u8>, Stats>,
    name: Seq<u8>,
    stats: Stats,
)
    requires
        !r.contains_key(name),
    ensures
        note(merge_maps(l, r), name, stats) == merge_maps(l, r.insert(name, stats)),
{
    assert(note(merge_maps(l, r), name, stats) =~= merge_maps(l, r.insert(name, stats)));
}

/// Replacing the statistics of the record at `at` changes the contents at its name only.
pub proof fn lemma_same_names(before: Seq<City>, after: Seq<City>, at: int)
    requires
        distinct(before),
        0 <= at < before.len(),
        after.len() == before.len(),
        forall|i: int| 0 <= i < before.len() ==> (#[trigger] after[i]).name@ == before[i].name@,
        forall|i: int| 0 <= i < before.len() && i != at ==> (#[trigger] after[i]) == before[i],
    ensures
        distinct(after),
        sorted(before) ==> sorted(after),
        contents(after) == contents(before).insert(before[at].name@, after[at].stats()),
{
    assert forall|i: int, j: int| 0 <= i < j < after.len() implies (#[trigger] after[i]).name@
        != (#[trigger] after[j]).name@ by {
        assert(before[i].name@ != before[j].name@);
    }
    if sorted(before) {
        assert forall|i: int, j: int| 0 <= i < j < after.len() implies name_lt(
            (#[trigger] after[i]).name@,
            (#[trigger] after[j]).name@,
        ) by {
            assert(name_lt(before[i].name@, before[j].name@));
        }
    }
    let goal = contents(before).insert(before[at].name@, after[at].stats());
    assert forall|name: Seq<u8>| contents(after).contains_key(name) <==> goal.contains_key(
        name,
    ) by {
        if holds(after, name) {
            let i = place(after, name);
            assert(before[i].name@ == name);
        }
        if holds(before, name) {
            let i = place(before, name);
            assert(after[i].name@ == name);
        }
        lemma_place(before, at);
        assert(after[at].name@ == before[at].name@);
    }
    assert forall|name: Seq<u8>| contents(after).contains_key(name) implies contents(after)[name]
        == goal[name] by {
        let i = place(after, name);
        lemma_place(after, i);
        lemma_place(before, i);
    }
    assert(contents(after) =~= goal);
}

/// A record put between the names before it and the names after it keeps the order.
pub proof fn lemma_inserted(before: Seq<City>, at: int, city: City)
    requires
        sorted(before),
        0 <= at <= before.len(),
        forall|j: int| 0 <= j < at ==> name_lt((#[trigger] before[j]).name@, city.name@),
        forall|j: int| at <= j < before.len() ==> name_lt(city.name@, (#[trigger] before[j]).name@),
    ensures
        sorted(before.insert(at, city)),
        !holds(before, city.name@),
{
    let after = before.insert(at, city);
    lemma_name_lt_irreflexive(city.name@);
    assert forall|i: int, j: int| 0 <= i < j < after.len() implies name_lt(
        (#[trigger] after[i]).name@,
        (#[trigger] after[j]).name@,
    ) by {
        let bi = if i < at { i } else { i - 1 };
        let bj = if j < at { j } else { j - 1 };
        if i != at && j != at {
            assert(name_lt(before[bi].name@, before[bj].name@));
        } else if i == at {
            assert(name_lt(city.name@, before[bj].name@));
        } else {
            assert(name_lt(before[bi].name@, city.name@));
        }
    }
    if holds(before, city.name@) {
        let p = place(before, city.name@);
        assert(name_lt(before[p].name@, city.name@) || name_lt(city.name@, before[p].name@));
    }
}

/// A record with a new name adds its name and statistics to the contents.
pub proof fn lemma_contents_insert(before: Seq<City>, at: int, city: City)
    requires
        distinct(before),
        0 <= at <= before.len(),
        !holds(before, city.name@),
    ensures
        distinct(before.insert(at, city)),
        contents(before.insert(at, city)) == contents(before).insert(city.name@, city.stats()),
{
    let after = before.insert(at, city);
    assert forall|i: int, j: int| 0 <= i < j < after.len() implies (#[trigger] after[i]).name@
        != (#[trigger] after[j]).name@ by {
        let bi = if i < at { i } else { i - 1 };
        let bj = if j < at { j } else { j - 1 };
        if i != at && j != at {
            assert(before[bi].name@ != before[bj].name@);
        } else if i == at {
            assert(before[bj].name@ != city.name@);
        } else {
            assert(before[bi].name@ != city.name@);
        }
    }
    let goal = contents(before).insert(city.name@, city.stats());
    assert forall|name: Seq<u8>| contents(after).contains_key(name) <==> goal.contains_key(
        name,
    ) by {
        if holds(after, name) {
            let i = place(after, name);
            if i != at {
                let bi = if i < at { i } else { i - 1 };
                assert(before[bi].name@ == name);
            }
        }
        if holds(before, name) {
            let i = place(before, name);
            let ai = if i < at { i } else { i + 1 };
            assert(after[ai].name@ == name);
        }
        assert(after[at].name@ == city.name@);
    }
    assert forall|name: Seq<u8>| contents(after).contains_key(name) implies contents(after)[name]
        == goal[name] by {
        let i = place(after, name);
        lemma_place(after, i);
        if i != at {
            let bi = if i < at { i } else { i - 1 };
            lemma_place(before, bi);
        }
    }
    assert(contents(after) =~= goal);
}

/// The contents of a sequence of distinct names without its last record.
pub proof fn lemma_contents_drop_last(cities: Seq<City>)
    requires
        distinct(cities),
        cities.len() > 0,
    ensures
        distinct(cities.drop_last()),
        !holds(cities.drop_last(), cities.last().name@),
        contents(cities.drop_last()) == contents(cities).remove(cities.last().name@),
{
    let front = cities.drop_last();
    let last = cities.last();
    assert forall|i: int, j: int| 0 <= i < j < front.len() implies (#[trigger] front[i]).name@
        != (#[trigger] front[j]).name@ by {
        assert(cities[i].name@ != cities[j].name@);
    }
    if holds(front, last.name@) {
        let p = place(front, last.name@);
        assert(cities[p].name@ != cities[cities.len() - 1].name@);
    }
    lemma_contents_insert(front, front.len() as int, last);
    assert(front.insert(front.len() as int, last) == cities);
    assert(contents(front) =~= contents(cities).remove(last.name@));
}

/// A table is given by its contents: two sorted sequences with the same
/// contents have the same names and statistics at each index.
pub proof fn lemma_sorted_unique(a: Seq<City>, b: Seq<City>)
    requires
        sorted(a),
        sorted(b),
        contents(a) == contents(b),
    ensures
        a.len() == b.len(),
        forall|i: int|
            0 <= i < a.len() ==> (#[trigger] a[i]).name@ == b[i].name@ && a[i].stats()
                == b[i].stats(),
    decreases a.len(),
{
    lemma_sorted_distinct(a);
    lemma_sorted_distinct(b);
    if a.len() == 0 {
        if b.len() > 0 {
            lemma_place(b, 0);
            assert(contents(a).contains_key(b[0].name@));
            let p = place(a, b[0].name@);
        }
    } else {
        let la = a.len() - 1;
        lemma_place(a, la);
        assert(contents(b).contains_key(a[la].name@));
        let j = place(b, a[la].name@);
        let lb = b.len() - 1;
        lemma_place(b, lb);
        assert(contents(a).contains_key(b[lb].name@));
        let k = place(a, b[lb].name@);
        lemma_name_lt_irreflexive(a[la].name@);
        if j < lb {
            assert(name_lt(b[j].name@, b[lb].name@));
            if k < la {
                assert(name_lt(a[k].name@, a[la].name@));
                lemma_name_lt_asymmetric(a[k].name@, a[la].name@);
            }
        }
        lemma_place(b, j);
        lemma_contents_drop_last(a);
        lemma_contents_drop_last(b);
        assert forall|i: int, j: int| 0 <= i < j < a.drop_last().len() implies name_lt(
            (#[trigger] a.drop_last()[i]).name@,
            (#[trigger] a.drop_last()[j]).name@,
        ) by {
            assert(name_lt(a[i].name@, a[j].name@));
        }
        assert forall|i: int, j: int| 0 <= i < j < b.drop_last().len() implies name_lt(
            (#[trigger] b.drop_last()[i]).name@,
            (#[trigger] b.drop_last()[j]).name@,
        ) by {
            assert(name_lt(b[i].name@, b[j].name@));
        }
        lemma_sorted_unique(a.drop_last(), b.drop_last());
        assert forall|i: int| 0 <= i < a.len() implies (#[trigger] a[i]).name@ == b[i].name@
            && a[i].stats() == b[i].stats() by {
            if i < la {
                assert(a.drop_last()[i] == a[i] && b.drop_last()[i] == b[i]);
            }
        }
    }
}

} // verus!
