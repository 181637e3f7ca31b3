//! Header tables: name/value pairs with unique names, where a later insertion
//! under an existing name overwrites its value in place.

use vstd::prelude::*;

verus! {

/// A header table as pairs of character sequences.
pub open spec fn pairs_view(v: Seq<(String, String)>) -> Seq<(Seq<char>, Seq<char>)> {
    v.map_values(|p: (String, String)| (p.0@, p.1@))
}

/// Index of the entry named `k`, or `hs.len()` when there is none.
pub open spec fn key_index(hs: Seq<(Seq<char>, Seq<char>)>, k: Seq<char>, from: int) -> int
    decreases hs.len() - from,
{
    if from < 0 || from >= hs.len() {
        hs.len() as int
    } else if hs[from].0 == k {
        from
    } else {
        key_index(hs, k, from + 1)
    }
}

/// The table after setting `k` to `v`.
pub open spec fn upsert(hs: Seq<(Seq<char>, Seq<char>)>, k: Seq<char>, v: Seq<char>) -> Seq<
    (Seq<char>, Seq<char>),
> {
    let i = key_index(hs, k, 0);
    if i < hs.len() {
        hs.update(i, (k, v))
    } else {
        hs.push((k, v))
    }
}

/// No two entries share a name.
pub open spec fn keys_unique(hs: Seq<(Seq<char>, Seq<char>)>) -> bool {
    forall|i: int, j: int| 0 <= i < hs.len() && 0 <= j < hs.len() && i != j ==> hs[i].0 != hs[j].0
}

/// Whether the table holds `k` set to `v`.
pub open spec fn has_entry(hs: Seq<(Seq<char>, Seq<char>)>, k: Seq<char>, v: Seq<char>) -> bool {
    exists|i: int| 0 <= i < hs.len() && hs[i] == (k, v)
}

/// Lemma: `key_index` lands in `[from, hs.len()]`, on an entry named `k` if below the end.
pub proof fn lemma_key_index(hs: Seq<(Seq<char>, Seq<char>)>, k: Seq<char>, from: int)
    requires
        0 <= from <= hs.len(),
    ensures
        from <= key_index(hs, k, from) <= hs.len(),
        key_index(hs, k, from) < hs.len() ==> hs[key_index(hs, k, from)].0 == k,
        forall|j: int| from <= j < key_index(hs, k, from) ==> hs[j].0 != k,
    decreases hs.len() - from,
{
    if from < hs.len() && hs[from].0 != k {
        lemma_key_index(hs, k, from + 1);
    }
}

/// Setting a name keeps the names unique, and the table then maps it to the new value.
pub proof fn lemma_upsert(hs: Seq<(Seq<char>, Seq<char>)>, k: Seq<char>, v: Seq<char>)
    requires
        keys_unique(hs),
    ensures
        keys_unique(upsert(hs, k, v)),
        has_entry(upsert(hs, k, v), k, v),
        key_index(upsert(hs, k, v), k, 0) < upsert(hs, k, v).len(),
        upsert(hs, k, v)[key_index(upsert(hs, k, v), k, 0)] == (k, v),
{
    lemma_key_index(hs, k, 0);
    let i = key_index(hs, k, 0);
    let r = upsert(hs, k, v);
    lemma_key_index(r, k, 0);
    if i < hs.len() {
        assert(r[i] == (k, v));
    } else {
        assert(r[hs.len() as int] == (k, v));
    }
    let j = key_index(r, k, 0);
    if j < r.len() && r[j] != (k, v) {
        assert(r[j].0 == k);
        if i < hs.len() {
            assert(j != i);
        }
    }
}

/// Sets header `k` to `v`: an entry of that name is overwritten in place,
/// else the pair is appended.
pub fn insert_header(hs: &mut Vec<(String, String)>, k: String, v: String)
    ensures
        pairs_view(final(hs)@) == upsert(pairs_view(old(hs)@), k@, v@),
{
    let ghost start = pairs_view(hs@);
    let mut i: usize = 0;
    while i < hs.len()
        invariant
            hs@ == old(hs)@,
            start == pairs_view(hs@),
            0 <= i <= hs@.len(),
            key_index(start, k@, i as int) == key_index(start, k@, 0),
        decreases hs@.len() - i,
    {
        if hs[i].0 == k {
            hs.set(i, (k, v));
            proof {
                assert(pairs_view(hs@) =~= start.update(i as int, (k@, v@)));
            }
            return;
        }
        i = i + 1;
    }
    hs.push((k, v));
    proof {
        assert(pairs_view(hs@) =~= start.push((k@, v@)));
    }
}

} // verus!
