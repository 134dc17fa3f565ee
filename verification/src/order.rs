//! The order of keys: byte by byte, a proper prefix before its extensions.

use vstd::prelude::*;

verus! {

/// `a` and `b` agree on their first `k` bytes, and at `k` either `a` ends
/// while `b` goes on, or `a` holds the smaller byte.
pub open spec fn parts_at(a: Seq<u8>, b: Seq<u8>, k: int) -> bool {
    &&& 0 <= k <= a.len()
    &&& k < b.len()
    &&& forall|j: int| 0 <= j < k ==> a[j] == b[j]
    &&& k < a.len() ==> a[k] < b[k]
}

/// `a` comes before `b`.
pub open spec fn name_lt(a: Seq<u8>, b: Seq<u8>) -> bool {
    exists|k: int| parts_at(a, b, k)
}

/// No key comes before itself.
pub proof fn lemma_name_lt_irreflexive(a: Seq<u8>)
    ensures
        !name_lt(a, a),
{
}

/// If `a` comes before `b` and `b` before `c`, then `a` comes before `c`.
pub proof fn lemma_name_lt_transitive(a: Seq<u8>, b: Seq<u8>, c: Seq<u8>)
    requires
        name_lt(a, b),
        name_lt(b, c),
    ensures
        name_lt(a, c),
{
    let k1 = choose|k: int| parts_at(a, b, k);
    let k2 = choose|k: int| parts_at(b, c, k);
    let k = if k1 <= k2 { k1 } else { k2 };
    assert(parts_at(a, c, k));
}

/// Of two keys at most one comes before the other.
pub proof fn lemma_name_lt_asymmetric(a: Seq<u8>, b: Seq<u8>)
    requires
        name_lt(a, b),
    ensures
        !name_lt(b, a),
{
    if name_lt(b, a) {
        lemma_name_lt_transitive(a, b, a);
        lemma_name_lt_irreflexive(a);
    }
}

/// Of two different keys one comes before the other.
pub proof fn lemma_name_lt_total(a: Seq<u8>, b: Seq<u8>)
    ensures
        a == b || name_lt(a, b) || name_lt(b, a),
{
    lemma_total_from(a, b, 0);
}

proof fn lemma_total_from(a: Seq<u8>, b: Seq<u8>, k: int)
    requires
        0 <= k <= a.len(),
        k <= b.len(),
        forall|j: int| 0 <= j < k ==> a[j] == b[j],
    ensures
        a == b || name_lt(a, b) || name_lt(b, a),
    decreases a.len() - k,
{
    if k == a.len() {
        if k == b.len() {
            assert(a =~= b);
        } else {
            assert(parts_at(a, b, k));
        }
    } else if k == b.len() {
        assert(parts_at(b, a, k));
    } else if a[k] < b[k] {
        assert(parts_at(a, b, k));
    } else if b[k] < a[k] {
        assert(parts_at(b, a, k));
    } else {
        lemma_total_from(a, b, k + 1);
    }
}

/// Where one key stands relative to another.
pub enum Rank {
    Before,
    Same,
    After,
}

/// Whether `a` comes before `b`, is `b`, or comes after it.
pub fn compare_names(a: &[u8], b: &[u8]) -> (rank: Rank)
    ensures
        rank is Before <==> name_lt(a@, b@),
        rank is Same <==> a@ == b@,
        rank is After <==> name_lt(b@, a@),
{
    proof {
        lemma_name_lt_irreflexive(a@);
        if name_lt(a@, b@) {
            lemma_name_lt_asymmetric(a@, b@);
        }
    }
    let mut i: usize = 0;
    while i < a.len() && i < b.len()
        invariant
            i <= a.len(),
            i <= b.len(),
            forall|j: int| 0 <= j < i ==> a@[j] == b@[j],
        decreases a.len() - i,
    {
        if a[i] < b[i] {
            assert(parts_at(a@, b@, i as int));
            return Rank::Before;
        }
        if a[i] > b[i] {
            assert(parts_at(b@, a@, i as int));
            return Rank::After;
        }
        i += 1;
    }
    if i < b.len() {
        assert(parts_at(a@, b@, i as int));
        Rank::Before
    } else if i < a.len() {
        assert(parts_at(b@, a@, i as int));
        Rank::After
    } else {
        assert(a@ =~= b@);
        Rank::Same
    }
}

} // verus!
