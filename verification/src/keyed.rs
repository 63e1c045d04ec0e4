use vstd::prelude::*;

use crate::text::str_eq;

verus! {

/// Position of the first entry of `e` with key `k`, or -1 when there is none.
pub open spec fn key_index<V>(e: Seq<(String, V)>, k: Seq<char>) -> int
    decreases e.len(),
{
    if e.len() == 0 {
        -1
    } else if e[0].0@ == k {
        0
    } else {
        let r = key_index(e.drop_first(), k);
        if r < 0 {
            -1
        } else {
            r + 1
        }
    }
}

/// The value of the first entry of `e` with key `k`.
pub open spec fn lookup<V>(e: Seq<(String, V)>, k: Seq<char>) -> Option<V> {
    if key_index(e, k) >= 0 {
        Some(e[key_index(e, k)].1)
    } else {
        None
    }
}

/// What `key_index` is, without recursion.
pub proof fn lemma_key_index<V>(e: Seq<(String, V)>, k: Seq<char>)
    ensures
        -1 <= key_index(e, k) < e.len(),
        key_index(e, k) >= 0 ==> e[key_index(e, k)].0@ == k,
        forall|j: int| 0 <= j < e.len() && (key_index(e, k) < 0 || j < key_index(e, k)) ==> #[trigger] e[j].0@ != k,
    decreases e.len(),
{
    if e.len() > 0 && e[0].0@ != k {
        lemma_key_index(e.drop_first(), k);
        assert forall|j: int| 0 <= j < e.len() && (key_index(e, k) < 0 || j < key_index(e, k)) implies #[trigger] e[j].0@
            != k by {
            if j > 0 {
                assert(e[j] == e.drop_first()[j - 1]);
            }
        }
    }
}

/// An entry with key `k` at `i`, none before: `i` is where `k` is found.
pub proof fn lemma_key_index_at<V>(e: Seq<(String, V)>, k: Seq<char>, i: int)
    requires
        0 <= i < e.len(),
        e[i].0@ == k,
        forall|j: int| 0 <= j < i ==> #[trigger] e[j].0@ != k,
    ensures
        key_index(e, k) == i,
{
    lemma_key_index(e, k);
    if key_index(e, k) < 0 || key_index(e, k) > i {
        assert(e[i].0@ != k);
    }
}

/// No entry with key `k`: it is not found.
pub proof fn lemma_key_index_none<V>(e: Seq<(String, V)>, k: Seq<char>)
    requires
        forall|j: int| 0 <= j < e.len() ==> #[trigger] e[j].0@ != k,
    ensures
        key_index(e, k) == -1,
{
    lemma_key_index(e, k);
    if key_index(e, k) >= 0 {
        assert(e[key_index(e, k)].0@ == k);
    }
}

/// Entries with the same keys find every key at the same place.
pub proof fn lemma_key_index_same_keys<V>(a: Seq<(String, V)>, b: Seq<(String, V)>, k: Seq<char>)
    requires
        a.len() == b.len(),
        forall|j: int| 0 <= j < a.len() ==> #[trigger] a[j].0@ == b[j].0@,
    ensures
        key_index(a, k) == key_index(b, k),
{
    lemma_key_index(a, k);
    lemma_key_index(b, k);
    if key_index(a, k) >= 0 {
        assert(b[key_index(a, k)].0@ == k);
        assert forall|j: int| 0 <= j < key_index(a, k) implies #[trigger] b[j].0@ != k by {
            assert(a[j].0@ != k);
        }
        lemma_key_index_at(b, k, key_index(a, k));
    } else {
        assert forall|j: int| 0 <= j < b.len() implies #[trigger] b[j].0@ != k by {
            assert(a[j].0@ != k);
        }
        lemma_key_index_none(b, k);
    }
}

/// Changing the value at `i`, key kept: `k` finds the new value if it was found at `i`,
/// the old value otherwise.
pub proof fn lemma_lookup_set<V>(e: Seq<(String, V)>, i: int, p: (String, V), k: Seq<char>)
    requires
        0 <= i < e.len(),
        p.0@ == e[i].0@,
    ensures
        lookup(e.update(i, p), k) == if key_index(e, k) == i {
            Some(p.1)
        } else {
            lookup(e, k)
        },
        key_index(e.update(i, p), k) == key_index(e, k),
{
    let e2 = e.update(i, p);
    assert forall|j: int| 0 <= j < e.len() implies #[trigger] e[j].0@ == e2[j].0@ by {
        if j != i {
            assert(e2[j] == e[j]);
        }
    }
    lemma_key_index_same_keys(e, e2, k);
    lemma_key_index(e, k);
    if key_index(e, k) >= 0 && key_index(e, k) != i {
        assert(e2[key_index(e, k)] == e[key_index(e, k)]);
    }
}

/// Appending an entry whose key is new: it is found there, every other key as before.
pub proof fn lemma_lookup_push<V>(e: Seq<(String, V)>, p: (String, V), k: Seq<char>)
    requires
        key_index(e, p.0@) < 0,
    ensures
        lookup(e.push(p), k) == if k == p.0@ {
            Some(p.1)
        } else {
            lookup(e, k)
        },
{
    let e2 = e.push(p);
    lemma_key_index(e, k);
    lemma_key_index(e, p.0@);
    if key_index(e, k) >= 0 {
        assert(e2[key_index(e, k)] == e[key_index(e, k)]);
        assert forall|j: int| 0 <= j < key_index(e, k) implies #[trigger] e2[j].0@ != k by {
            assert(e2[j] == e[j]);
        }
        lemma_key_index_at(e2, k, key_index(e, k));
    } else if k == p.0@ {
        assert forall|j: int| 0 <= j < e.len() implies #[trigger] e2[j].0@ != k by {
            assert(e2[j] == e[j]);
        }
        lemma_key_index_at(e2, k, e.len() as int);
    } else {
        assert forall|j: int| 0 <= j < e2.len() implies #[trigger] e2[j].0@ != k by {
            if j < e.len() {
                assert(e2[j] == e[j]);
            }
        }
        lemma_key_index_none(e2, k);
    }
}

/// Appending any entry: keys found before stay found where they were; the new key is
/// found at the end only if it was nowhere before.
pub proof fn lemma_lookup_push_any<V>(e: Seq<(String, V)>, p: (String, V), k: Seq<char>)
    ensures
        lookup(e.push(p), k) == if key_index(e, k) >= 0 {
            lookup(e, k)
        } else if k == p.0@ {
            Some(p.1)
        } else {
            None::<V>
        },
        key_index(e, k) >= 0 ==> key_index(e.push(p), k) == key_index(e, k),
{
    let e2 = e.push(p);
    lemma_key_index(e, k);
    if key_index(e, k) >= 0 {
        assert(e2[key_index(e, k)] == e[key_index(e, k)]);
        assert forall|j: int| 0 <= j < key_index(e, k) implies #[trigger] e2[j].0@ != k by {
            assert(e2[j] == e[j]);
        }
        lemma_key_index_at(e2, k, key_index(e, k));
    } else if k == p.0@ {
        lemma_lookup_push(e, p, k);
    } else {
        assert forall|j: int| 0 <= j < e2.len() implies #[trigger] e2[j].0@ != k by {
            if j < e.len() {
                assert(e2[j] == e[j]);
            }
        }
        lemma_key_index_none(e2, k);
    }
}

/// Where key `k` is first found in `e`, if anywhere.
pub fn find_key<V>(e: &Vec<(String, V)>, k: &str) -> (r: Option<usize>)
    ensures
        match r {
            Some(i) => i == key_index(e@, k@) && i < e@.len() && e@[i as int].0@ == k@,
            None => key_index(e@, k@) < 0,
        },
{
    let mut i: usize = 0;
    while i < e.len()
        invariant
            i <= e.len(),
            forall|j: int| 0 <= j < i ==> #[trigger] e@[j].0@ != k@,
        decreases e.len() - i,
    {
        if str_eq(e[i].0.as_str(), k) {
            proof {
                lemma_key_index_at(e@, k@, i as int);
            }
            return Some(i);
        }
        i = i + 1;
    }
    proof {
        lemma_key_index_none(e@, k@);
    }
    None
}

} // verus!
