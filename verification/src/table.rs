//! The concrete table: a vector of entries with pairwise distinct keys,
//! abstracted as a map from key to recorded successors.

use vstd::prelude::*;

verus! {

use crate::State;

/// One table entry: a history window and the successors recorded for it.
pub(crate) struct Entry {
    pub key: Vec<State>,
    pub successors: Vec<State>,
}

/// Well-formed entry lists: keys are pairwise distinct and every entry holds
/// at least one successor.
pub(crate) open spec fn entries_wf(entries: Seq<Entry>) -> bool {
    &&& forall|i: int, j: int|
        #![trigger entries[i], entries[j]]
        0 <= i < entries.len() && 0 <= j < entries.len() && i != j ==> entries[i].key@
            != entries[j].key@
    &&& forall|i: int| 0 <= i < entries.len() ==> (#[trigger] entries[i]).successors@.len() > 0
}

pub(crate) open spec fn entries_have_key(entries: Seq<Entry>, key: Seq<State>) -> bool {
    exists|i: int| 0 <= i < entries.len() && (#[trigger] entries[i]).key@ == key
}

pub(crate) open spec fn entry_index(entries: Seq<Entry>, key: Seq<State>) -> int {
    choose|i: int| 0 <= i < entries.len() && (#[trigger] entries[i]).key@ == key
}

/// The map that a list of entries stands for.
pub(crate) open spec fn entries_table(entries: Seq<Entry>) -> Map<Seq<State>, Seq<State>> {
    Map::new(
        |key: Seq<State>| entries_have_key(entries, key),
        |key: Seq<State>| entries[entry_index(entries, key)].successors@,
    )
}

pub(crate) proof fn lemma_entries_table_at(entries: Seq<Entry>, i: int)
    requires
        entries_wf(entries),
        0 <= i < entries.len(),
    ensures
        entries_table(entries).contains_key(entries[i].key@),
        entries_table(entries)[entries[i].key@] == entries[i].successors@,
{
    let key = entries[i].key@;
    assert(entries_have_key(entries, key));
    let i2: int = entry_index(entries, key);
    assert(0 <= i2 < entries.len() && entries[i2].key@ == key);
    assert(i2 == i);
}

pub(crate) proof fn lemma_entries_table_absent(entries: Seq<Entry>, key: Seq<State>)
    requires
        forall|i: int| 0 <= i < entries.len() ==> (#[trigger] entries[i]).key@ != key,
    ensures
        !entries_table(entries).contains_key(key),
{
}

pub(crate) proof fn lemma_entries_table_empty()
    ensures
        entries_table(Seq::<Entry>::empty()) == Map::<Seq<State>, Seq<State>>::empty(),
{
    assert(entries_table(Seq::<Entry>::empty()) =~= Map::<Seq<State>, Seq<State>>::empty());
}

/// Appending an entry with a fresh key inserts its successors into the map.
pub(crate) proof fn lemma_entries_push(entries: Seq<Entry>, e: Entry)
    requires
        entries_wf(entries),
        forall|i: int| 0 <= i < entries.len() ==> (#[trigger] entries[i]).key@ != e.key@,
        e.successors@.len() > 0,
    ensures
        entries_wf(entries.push(e)),
        entries_table(entries.push(e)) == entries_table(entries).insert(e.key@, e.successors@),
{
    let entries2 = entries.push(e);
    let n: int = entries.len() as int;
    assert(entries2[n] == e);
    assert(forall|i: int| 0 <= i < n ==> entries2[i] == entries[i]);
    assert(entries_wf(entries2));
    assert forall|k: Seq<State>| #[trigger]
        entries_have_key(entries2, k) implies entries_have_key(entries, k) || k == e.key@ by {
        let i: int = choose|i: int|
            0 <= i < entries2.len() && (#[trigger] entries2[i]).key@ == k;
        if i < n {
            assert(entries[i].key@ == k);
        }
    }
    assert forall|k: Seq<State>| #[trigger]
        entries_have_key(entries, k) implies entries_have_key(entries2, k) by {
        let i: int = choose|i: int| 0 <= i < entries.len() && (#[trigger] entries[i]).key@ == k;
        assert(entries2[i].key@ == k);
    }
    assert(entries_have_key(entries2, e.key@));
    assert forall|k: Seq<State>| #[trigger]
        entries_table(entries2).contains_key(k) implies entries_table(entries2)[k]
        == entries_table(entries).insert(e.key@, e.successors@)[k] by {
        if k == e.key@ {
            lemma_entries_table_at(entries2, n);
        } else {
            let i: int = choose|i: int|
                0 <= i < entries.len() && (#[trigger] entries[i]).key@ == k;
            lemma_entries_table_at(entries, i);
            lemma_entries_table_at(entries2, i);
        }
    }
    assert(entries_table(entries2) =~= entries_table(entries).insert(e.key@, e.successors@));
}

/// Replacing the entry at `i` by one with the same key re-binds that key in
/// the map, wherever in the list the replacement lands.
pub(crate) proof fn lemma_entries_update(entries: Seq<Entry>, i: int, e: Entry)
    requires
        entries_wf(entries),
        0 <= i < entries.len(),
        e.key@ == entries[i].key@,
        e.successors@.len() > 0,
    ensures
        entries_wf(entries.remove(i).push(e)),
        entries_table(entries.remove(i).push(e)) == entries_table(entries).insert(
            e.key@,
            e.successors@,
        ),
{
    let removed = entries.remove(i);
    let entries2 = removed.push(e);
    let n: int = entries.len() as int;
    assert(removed.len() == n - 1);
    assert(forall|j: int| 0 <= j < i ==> removed[j] == entries[j]);
    assert(forall|j: int| i <= j < n - 1 ==> removed[j] == entries[j + 1]);
    assert(entries2[n - 1] == e);
    assert(forall|j: int| 0 <= j < n - 1 ==> entries2[j] == removed[j]);
    assert forall|p: int, q: int|
        0 <= p < entries2.len() && 0 <= q < entries2.len() && p != q implies entries2[p].key@
        != entries2[q].key@ by {
        if p < n - 1 && q < n - 1 {
            let p0: int = if p < i { p } else { p + 1 };
            let q0: int = if q < i { q } else { q + 1 };
            assert(entries2[p].key@ == entries[p0].key@);
            assert(entries2[q].key@ == entries[q0].key@);
        } else if p == n - 1 {
            let q0: int = if q < i { q } else { q + 1 };
            assert(entries2[q].key@ == entries[q0].key@);
            assert(q0 != i);
        } else {
            let p0: int = if p < i { p } else { p + 1 };
            assert(entries2[p].key@ == entries[p0].key@);
            assert(p0 != i);
        }
    }
    assert(entries_wf(entries2));
    assert forall|k: Seq<State>| #[trigger]
        entries_have_key(entries2, k) implies entries_have_key(entries, k) by {
        let j: int = choose|j: int|
            0 <= j < entries2.len() && (#[trigger] entries2[j]).key@ == k;
        if j == n - 1 {
            assert(entries[i].key@ == k);
        } else {
            let j0: int = if j < i { j } else { j + 1 };
            assert(entries[j0].key@ == k);
        }
    }
    assert forall|k: Seq<State>| #[trigger]
        entries_have_key(entries, k) implies entries_have_key(entries2, k) by {
        let j: int = choose|j: int| 0 <= j < entries.len() && (#[trigger] entries[j]).key@ == k;
        if j == i {
            assert(entries2[n - 1].key@ == k);
        } else {
            let j2: int = if j < i { j } else { j - 1 };
            assert(entries2[j2].key@ == k);
        }
    }
    assert forall|k: Seq<State>| #[trigger]
        entries_table(entries2).contains_key(k) implies entries_table(entries2)[k]
        == entries_table(entries).insert(e.key@, e.successors@)[k] by {
        if k == e.key@ {
            lemma_entries_table_at(entries2, n - 1);
        } else {
            let j: int = choose|j: int|
                0 <= j < entries.len() && (#[trigger] entries[j]).key@ == k;
            assert(j != i);
            let j2: int = if j < i { j } else { j - 1 };
            assert(entries2[j2] == entries[j]);
            lemma_entries_table_at(entries, j);
            lemma_entries_table_at(entries2, j2);
        }
    }
    assert(entries_table(entries2) =~= entries_table(entries).insert(e.key@, e.successors@));
}

/// Entry lists whose keys and successors agree element-wise stand for the
/// same map.
pub(crate) proof fn lemma_entries_same_views(a: Seq<Entry>, b: Seq<Entry>)
    requires
        entries_wf(b),
        a.len() == b.len(),
        forall|k: int|
            0 <= k < a.len() ==> (#[trigger] a[k]).key@ == b[k].key@ && a[k].successors@
                == b[k].successors@,
    ensures
        entries_wf(a),
        entries_table(a) == entries_table(b),
{
    assert forall|i: int, j: int|
        #![trigger a[i], a[j]]
        0 <= i < a.len() && 0 <= j < a.len() && i != j implies a[i].key@ != a[j].key@ by {
        assert(b[i].key@ != b[j].key@);
    }
    assert(entries_wf(a));
    assert forall|k: Seq<State>| #[trigger]
        entries_have_key(a, k) implies entries_have_key(b, k) by {
        let i: int = choose|i: int| 0 <= i < a.len() && (#[trigger] a[i]).key@ == k;
        assert(b[i].key@ == k);
    }
    assert forall|k: Seq<State>| #[trigger]
        entries_have_key(b, k) implies entries_have_key(a, k) by {
        let i: int = choose|i: int| 0 <= i < b.len() && (#[trigger] b[i]).key@ == k;
        assert(a[i].key@ == k);
    }
    assert forall|k: Seq<State>| #[trigger]
        entries_table(a).contains_key(k) implies entries_table(a)[k] == entries_table(b)[k] by {
        let i: int = choose|i: int| 0 <= i < a.len() && (#[trigger] a[i]).key@ == k;
        lemma_entries_table_at(a, i);
        lemma_entries_table_at(b, i);
    }
    assert(entries_table(a) =~= entries_table(b));
}

/// Element-wise equality of two key vectors.
pub(crate) fn keys_equal(a: &Vec<State>, b: &Vec<State>) -> (r: bool)
    ensures
        r <==> a@ == b@,
{
    if a.len() != b.len() {
        return false;
    }
    let n: usize = a.len();
    let mut i: usize = 0;
    while i < n
        invariant
            n == a@.len(),
            a@.len() == b@.len(),
            i <= n,
            forall|j: int| 0 <= j < i ==> a@[j] == b@[j],
        decreases n - i,
    {
        if a[i] != b[i] {
            return false;
        }
        i += 1;
    }
    proof {
        assert(a@ =~= b@);
    }
    true
}

/// The index of the entry whose key equals `key`, if there is one.
pub(crate) fn find_key(entries: &Vec<Entry>, key: &Vec<State>) -> (r: Option<usize>)
    ensures
        match r {
            Some(i) => i < entries@.len() && entries@[i as int].key@ == key@,
            None => forall|i: int|
                0 <= i < entries@.len() ==> (#[trigger] entries@[i]).key@ != key@,
        },
{
    let n: usize = entries.len();
    let mut i: usize = 0;
    while i < n
        invariant
            n == entries@.len(),
            i <= n,
            forall|j: int| 0 <= j < i ==> (#[trigger] entries@[j]).key@ != key@,
        decreases n - i,
    {
        if keys_equal(&entries[i].key, key) {
            return Some(i);
        }
        i += 1;
    }
    None
}

/// A copy of `v[from..to]` as a fresh vector.
pub(crate) fn copy_slice(v: &Vec<State>, from: usize, to: usize) -> (r: Vec<State>)
    requires
        from <= to,
        to <= v@.len(),
    ensures
        r@ == v@.subrange(from as int, to as int),
{
    let mut r: Vec<State> = Vec::new();
    proof {
        assert(r@ =~= v@.subrange(from as int, from as int));
    }
    let mut i: usize = from;
    while i < to
        invariant
            from <= i <= to,
            to <= v@.len(),
            r@ == v@.subrange(from as int, i as int),
        decreases to - i,
    {
        r.push(v[i]);
        proof {
            assert(r@ =~= v@.subrange(from as int, i + 1));
        }
        i += 1;
    }
    r
}

} // verus!
