//! Small association lists keyed by character sequences (SSA names), with a
//! map view. Keys are unique within a list; the map view is what contracts
//! speak of.

use vstd::prelude::*;

verus! {

/// The key stored at position `i`.
pub open spec fn key_at<T>(e: Seq<(Vec<char>, T)>, i: int) -> Seq<char> {
    e[i].0@
}

/// Some entry carries key `k`.
pub open spec fn has_key<T>(e: Seq<(Vec<char>, T)>, k: Seq<char>) -> bool {
    exists|i: int| 0 <= i < e.len() && #[trigger] key_at(e, i) == k
}

/// No key occurs twice.
pub open spec fn keys_unique<T>(e: Seq<(Vec<char>, T)>) -> bool {
    forall|i: int, j: int|
        0 <= i < e.len() && 0 <= j < e.len() && i != j ==> #[trigger] key_at(e, i) != #[trigger] key_at(
            e,
            j,
        )
}

/// The position of key `k` (meaningful when `has_key(e, k)`).
pub open spec fn index_of<T>(e: Seq<(Vec<char>, T)>, k: Seq<char>) -> int {
    choose|i: int| 0 <= i < e.len() && #[trigger] key_at(e, i) == k
}

/// The association list as a map from key to value.
pub open spec fn entries_map<T>(e: Seq<(Vec<char>, T)>) -> Map<Seq<char>, T> {
    Map::new(|k: Seq<char>| has_key(e, k), |k: Seq<char>| e[index_of(e, k)].1)
}

/// With unique keys, the position of the key at `i` is `i`.
pub proof fn lemma_index_of<T>(e: Seq<(Vec<char>, T)>, i: int)
    requires
        keys_unique(e),
        0 <= i < e.len(),
    ensures
        has_key(e, key_at(e, i)),
        index_of(e, key_at(e, i)) == i,
        entries_map(e).contains_key(key_at(e, i)),
        entries_map(e)[key_at(e, i)] == e[i].1,
{
    let k = key_at(e, i);
    assert(has_key(e, k));
    let j = index_of(e, k);
    if j != i {
        assert(key_at(e, i) != key_at(e, j));
    }
}

/// Overwriting the value at an existing key's position updates the map.
pub proof fn lemma_update_value<T>(e: Seq<(Vec<char>, T)>, j: int, entry: (Vec<char>, T))
    requires
        keys_unique(e),
        0 <= j < e.len(),
        entry.0@ == key_at(e, j),
    ensures
        keys_unique(e.update(j, entry)),
        entries_map(e.update(j, entry)) == entries_map(e).insert(entry.0@, entry.1),
{
    let e2 = e.update(j, entry);
    assert forall|a: int, b: int|
        0 <= a < e2.len() && 0 <= b < e2.len() && a != b implies #[trigger] key_at(e2, a)
        != #[trigger] key_at(e2, b) by {
        assert(key_at(e2, a) == key_at(e, a));
        assert(key_at(e2, b) == key_at(e, b));
    }
    let m1 = entries_map(e2);
    let m2 = entries_map(e).insert(entry.0@, entry.1);
    assert forall|k: Seq<char>| #[trigger] m1.contains_key(k) <==> m2.contains_key(k) by {
        if has_key(e2, k) {
            let i = choose|i: int| 0 <= i < e2.len() && #[trigger] key_at(e2, i) == k;
            assert(key_at(e, i) == k);
        }
        if has_key(e, k) {
            let i = choose|i: int| 0 <= i < e.len() && #[trigger] key_at(e, i) == k;
            assert(key_at(e2, i) == k);
        }
        if k == entry.0@ {
            assert(key_at(e2, j) == k);
        }
    }
    assert forall|k: Seq<char>| #[trigger] m1.contains_key(k) implies m1[k] == m2[k] by {
        let i = choose|i: int| 0 <= i < e2.len() && #[trigger] key_at(e2, i) == k;
        lemma_index_of(e2, i);
        if i != j {
            lemma_index_of(e, i);
        }
    }
    assert(m1 =~= m2);
}

/// Appending an entry with a fresh key inserts it into the map.
pub proof fn lemma_push_fresh<T>(e: Seq<(Vec<char>, T)>, entry: (Vec<char>, T))
    requires
        keys_unique(e),
        !has_key(e, entry.0@),
    ensures
        keys_unique(e.push(entry)),
        entries_map(e.push(entry)) == entries_map(e).insert(entry.0@, entry.1),
{
    let e2 = e.push(entry);
    let n = e.len() as int;
    assert forall|a: int, b: int|
        0 <= a < e2.len() && 0 <= b < e2.len() && a != b implies #[trigger] key_at(e2, a)
        != #[trigger] key_at(e2, b) by {
        if a < n && b < n {
            assert(key_at(e2, a) == key_at(e, a));
            assert(key_at(e2, b) == key_at(e, b));
        } else if a < n {
            assert(key_at(e2, a) == key_at(e, a));
        } else if b < n {
            assert(key_at(e2, b) == key_at(e, b));
        }
    }
    let m1 = entries_map(e2);
    let m2 = entries_map(e).insert(entry.0@, entry.1);
    assert forall|k: Seq<char>| #[trigger] m1.contains_key(k) <==> m2.contains_key(k) by {
        if has_key(e2, k) {
            let i = choose|i: int| 0 <= i < e2.len() && #[trigger] key_at(e2, i) == k;
            if i < n {
                assert(key_at(e, i) == k);
            }
        }
        if has_key(e, k) {
            let i = choose|i: int| 0 <= i < e.len() && #[trigger] key_at(e, i) == k;
            assert(key_at(e2, i) == k);
        }
        if k == entry.0@ {
            assert(key_at(e2, n) == k);
        }
    }
    assert forall|k: Seq<char>| #[trigger] m1.contains_key(k) implies m1[k] == m2[k] by {
        let i = choose|i: int| 0 <= i < e2.len() && #[trigger] key_at(e2, i) == k;
        lemma_index_of(e2, i);
        if i < n {
            assert(key_at(e, i) == k);
            lemma_index_of(e, i);
        }
    }
    assert(m1 =~= m2);
}

/// Removing the entry at `j` removes its key from the map.
pub proof fn lemma_remove_at<T>(e: Seq<(Vec<char>, T)>, j: int)
    requires
        keys_unique(e),
        0 <= j < e.len(),
    ensures
        keys_unique(e.remove(j)),
        entries_map(e.remove(j)) == entries_map(e).remove(key_at(e, j)),
{
    let e2 = e.remove(j);
    let kj = key_at(e, j);
    assert forall|a: int| 0 <= a < e2.len() implies #[trigger] key_at(e2, a) == key_at(
        e,
        if a < j {
            a
        } else {
            a + 1
        },
    ) by {}
    assert forall|a: int, b: int|
        0 <= a < e2.len() && 0 <= b < e2.len() && a != b implies #[trigger] key_at(e2, a)
        != #[trigger] key_at(e2, b) by {
        let a1 = if a < j {
            a
        } else {
            a + 1
        };
        let b1 = if b < j {
            b
        } else {
            b + 1
        };
        assert(key_at(e, a1) != key_at(e, b1));
    }
    let m1 = entries_map(e2);
    let m2 = entries_map(e).remove(kj);
    assert forall|k: Seq<char>| #[trigger] m1.contains_key(k) <==> m2.contains_key(k) by {
        if has_key(e2, k) {
            let i = choose|i: int| 0 <= i < e2.len() && #[trigger] key_at(e2, i) == k;
            let i1 = if i < j {
                i
            } else {
                i + 1
            };
            assert(key_at(e, i1) == k);
            assert(i1 != j);
        }
        if has_key(e, k) && k != kj {
            let i = choose|i: int| 0 <= i < e.len() && #[trigger] key_at(e, i) == k;
            assert(i != j);
            let i2 = if i < j {
                i
            } else {
                i - 1
            };
            assert(key_at(e2, i2) == k);
        }
    }
    assert forall|k: Seq<char>| #[trigger] m1.contains_key(k) implies m1[k] == m2[k] by {
        let i = choose|i: int| 0 <= i < e2.len() && #[trigger] key_at(e2, i) == k;
        lemma_index_of(e2, i);
        let i1 = if i < j {
            i
        } else {
            i + 1
        };
        assert(key_at(e, i1) == k);
        lemma_index_of(e, i1);
    }
    assert(m1 =~= m2);
}

/// The empty list is the empty map.
pub proof fn lemma_empty<T>(e: Seq<(Vec<char>, T)>)
    requires
        e.len() == 0,
    ensures
        keys_unique(e),
        entries_map(e) == Map::<Seq<char>, T>::empty(),
{
    assert(entries_map(e) =~= Map::<Seq<char>, T>::empty());
}

/// Position of `key` in `entries`, if present.
pub fn find_key<T>(entries: &Vec<(Vec<char>, T)>, key: &Vec<char>) -> (r: Option<usize>)
    ensures
        r matches Some(i) ==> i < entries@.len() && key_at(entries@, i as int) == key@,
        r is None ==> !has_key(entries@, key@),
{
    let mut i: usize = 0;
    while i < entries.len()
        invariant
            0 <= i <= entries@.len(),
            forall|j: int| 0 <= j < i ==> #[trigger] key_at(entries@, j) != key@,
        decreases entries@.len() - i,
    {
        if crate::text::chars_eq(&entries[i].0, key) {
            return Some(i);
        }
        i = i + 1;
    }
    None
}

} // verus!
