//! The table that a fold fills: one record for each checksum of a key.
//!
//! Keys with the same checksum share a record, under the name of the key
//! that came first.

use crate::hash::key_hash;
use crate::record::{combine, single, City, Stats, HIGHEST, LOWEST};
use crate::table::{
    contents, distinct, holds, lemma_place, lemma_total_bounds, lemma_total_insert,
    lemma_total_update, place, total, Table,
};
use std::collections::HashMap;
use vstd::prelude::*;
use vstd::slice::slice_to_vec;

verus! {

broadcast use vstd::std_specs::hash::group_hash_axioms;

/// The number of records that a new table has room for.
pub const HASH_TABLE_SIZE: usize = 131072;

/// What a table holds under one checksum: the name of the first key and the
/// statistics of all values.
pub struct Bucket {
    pub name: Seq<u8>,
    pub stats: Stats,
}

/// `table` after one more `value` of `key`.
pub open spec fn observe(table: Map<u64, Bucket>, key: Seq<u8>, value: int) -> Map<u64, Bucket> {
    let hash = key_hash(key);
    if table.contains_key(hash) {
        table.insert(
            hash,
            Bucket { name: table[hash].name, stats: combine(table[hash].stats, single(value)) },
        )
    } else {
        table.insert(hash, Bucket { name: key, stats: single(value) })
    }
}

/// Some bucket of `table` has the name `name`.
pub open spec fn names(table: Map<u64, Bucket>, name: Seq<u8>) -> bool {
    exists|hash: u64| #[trigger] table.contains_key(hash) && table[hash].name == name
}

/// The statistics of `table` under the names of its buckets.
pub open spec fn by_name(table: Map<u64, Bucket>) -> Map<Seq<u8>, Stats> {
    Map::new(
        |name: Seq<u8>| names(table, name),
        |name: Seq<u8>|
            table[choose|hash: u64| #[trigger] table.contains_key(hash) && table[hash].name == name].stats,
    )
}

/// Each bucket stands under the checksum of its name.
pub open spec fn keyed(table: Map<u64, Bucket>) -> bool {
    forall|hash: u64| #[trigger] table.contains_key(hash) ==> key_hash(table[hash].name) == hash
}

/// Records found by the checksum of their key.
pub struct LocalTable {
    pub index: HashMap<u64, usize>,
    pub cities: Vec<City>,
    pub records: u64,
}

impl LocalTable {
    /// The bucket of each checksum.
    pub open spec fn view(&self) -> Map<u64, Bucket> {
        Map::new(
            |hash: u64| self.index@.contains_key(hash),
            |hash: u64|
                Bucket {
                    name: self.cities[self.index@[hash] as int].name@,
                    stats: self.cities[self.index@[hash] as int].stats(),
                },
        )
    }

    /// The index leads from the checksum of each record's name to the record
    /// and to nothing else, each record is well formed, and `records` is the
    /// number of values that they count together.
    pub open spec fn wf(&self) -> bool {
        &&& forall|hash: u64| #[trigger]
            self.index@.contains_key(hash) ==> self.index@[hash] < self.cities.len() && key_hash(
                self.cities[self.index@[hash] as int].name@,
            ) == hash
        &&& forall|i: int|
            0 <= i < self.cities.len() ==> self.index@.contains_key(
                key_hash((#[trigger] self.cities[i]).name@),
            ) && self.index@[key_hash(self.cities[i].name@)] == i
        &&& forall|i: int| 0 <= i < self.cities.len() ==> (#[trigger] self.cities[i]).wf()
        &&& self.records == total(self.cities@)
    }

    /// The empty table.
    pub fn new() -> (table: LocalTable)
        ensures
            table.wf(),
            table@ == Map::<u64, Bucket>::empty(),
            table.records == 0,
    {
        let table = LocalTable {
            index: HashMap::with_capacity(HASH_TABLE_SIZE),
            cities: Vec::new(),
            records: 0,
        };
        assert(table@ =~= Map::<u64, Bucket>::empty());
        table
    }

    /// Takes in one more `value` of `key`, whose checksum is `hash`.
    pub fn observe(&mut self, hash: u64, key: &[u8], value: i64)
        requires
            old(self).wf(),
            hash == key_hash(key@),
            LOWEST <= value <= HIGHEST,
            old(self).records < u64::MAX,
        ensures
            final(self).wf(),
            final(self)@ == observe(old(self)@, key@, value as int),
            final(self).records == old(self).records + 1,
    {
        let ghost before = self.cities@;
        let found = match self.index.get(&hash) {
            Some(at) => Some(*at),
            None => None,
        };
        match found {
            Some(at) => {
                proof {
                    lemma_total_bounds(before, at as int);
                }
                self.cities[at].observe(value);
                self.records += 1;
                proof {
                    let after = self.cities@;
                    assert(after == before.update(at as int, after[at as int]));
                    lemma_total_update(before, at as int, after[at as int]);
                    assert(self@ =~= observe(old(self)@, key@, value as int));
                }
            },
            None => {
                let name = slice_to_vec(key);
                let city = City::new(name, value);
                proof {
                    lemma_total_insert(before, before.len() as int, city);
                    assert(before.insert(before.len() as int, city) == before.push(city));
                }
                self.index.insert(hash, self.cities.len());
                self.cities.push(city);
                self.records += 1;
                proof {
                    assert(self@ =~= observe(old(self)@, key@, value as int));
                }
            },
        }
    }

    /// The records in the order of their names.
    pub fn into_table(self) -> (table: Table)
        requires
            self.wf(),
        ensures
            table.wf(),
            table@ == by_name(self@),
            table.records == self.records,
    {
        let mut table = Table::new();
        proof {
            lemma_local_contents(self);
            assert(crate::table::merge_maps(table@, contents(self.cities@)) =~= contents(
                self.cities@,
            ));
        }
        table.absorb_all(self.cities);
        table
    }
}

/// The records of a well-formed table have distinct names, and hold under
/// each name what the buckets hold.
pub proof fn lemma_local_contents(local: LocalTable)
    requires
        local.wf(),
    ensures
        distinct(local.cities@),
        keyed(local@),
        contents(local.cities@) == by_name(local@),
{
    let cities = local.cities@;
    let table = local@;
    assert forall|i: int, j: int| 0 <= i < j < cities.len() implies (#[trigger] cities[i]).name@
        != (#[trigger] cities[j]).name@ by {
        if cities[i].name@ == cities[j].name@ {
            assert(local.index@[key_hash(cities[i].name@)] == i);
            assert(local.index@[key_hash(cities[j].name@)] == j);
        }
    }
    assert forall|name: Seq<u8>| holds(cities, name) <==> names(table, name) by {
        if holds(cities, name) {
            let i = place(cities, name);
            let hash = key_hash(cities[i].name@);
            assert(table.contains_key(hash) && table[hash].name == name);
        }
        if names(table, name) {
            let hash = choose|hash: u64| #[trigger]
                table.contains_key(hash) && table[hash].name == name;
            assert(cities[local.index@[hash] as int].name@ == name);
        }
    }
    assert forall|name: Seq<u8>| holds(cities, name) implies contents(cities)[name] == by_name(
        table,
    )[name] by {
        let hash = choose|hash: u64| #[trigger]
            table.contains_key(hash) && table[hash].name == name;
        let i = local.index@[hash] as int;
        lemma_place(cities, i);
    }
    assert(contents(cities) =~= by_name(table));
}

} // verus!
