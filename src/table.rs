//! Tables keyed by name: a `Vec` of `(name, value)` pairs whose names are
//! unique, read as a map from the name's characters to the value.
use vstd::prelude::*;

verus! {

/// The characters of the name at position `i`.
pub open spec fn key_at<V>(s: Seq<(String, V)>, i: int) -> Seq<char> {
    s[i].0@
}

/// Whether some entry of `s` is named `k`.
pub open spec fn has_key<V>(s: Seq<(String, V)>, k: Seq<char>) -> bool {
    exists|i: int| 0 <= i < s.len() && #[trigger] key_at(s, i) == k
}

/// No two entries share a name.
pub open spec fn keys_unique<V>(s: Seq<(String, V)>) -> bool {
    forall|i: int, j: int|
        0 <= i < s.len() && 0 <= j < s.len() && i != j ==> #[trigger] key_at(s, i) != #[trigger] key_at(
            s,
            j,
        )
}

/// The position of the entry named `k`.
pub open spec fn index_of<V>(s: Seq<(String, V)>, k: Seq<char>) -> int {
    choose|i: int| 0 <= i < s.len() && #[trigger] key_at(s, i) == k
}

/// The value stored under `k`.
pub open spec fn value_of<V>(s: Seq<(String, V)>, k: Seq<char>) -> V {
    s[index_of(s, k)].1
}

pub proof fn lemma_index_of<V>(s: Seq<(String, V)>, i: int)
    requires
        keys_unique(s),
        0 <= i < s.len(),
    ensures
        has_key(s, key_at(s, i)),
        index_of(s, key_at(s, i)) == i,
        value_of(s, key_at(s, i)) == s[i].1,
{
    let k = key_at(s, i);
    assert(has_key(s, k));
    let j = index_of(s, k);
    assert(0 <= j < s.len() && key_at(s, j) == k);
}

pub proof fn lemma_has_key<V>(s: Seq<(String, V)>, k: Seq<char>)
    requires
        has_key(s, k),
    ensures
        0 <= index_of(s, k) < s.len(),
        key_at(s, index_of(s, k)) == k,
{
}

/// Appending an entry with a new name keeps names unique and adds that name.
pub proof fn lemma_push<V>(s: Seq<(String, V)>, x: (String, V))
    requires
        keys_unique(s),
        !has_key(s, x.0@),
    ensures
        keys_unique(s.push(x)),
        forall|k: Seq<char>| #[trigger] has_key(s.push(x), k) == (has_key(s, k) || k == x.0@),
        value_of(s.push(x), x.0@) == x.1,
        forall|k: Seq<char>|
            has_key(s, k) ==> #[trigger] value_of(s.push(x), k) == value_of(s, k),
{
    let t = s.push(x);
    assert forall|i: int, j: int|
        0 <= i < t.len() && 0 <= j < t.len() && i != j implies #[trigger] key_at(t, i)
        != #[trigger] key_at(t, j) by {
        if i < s.len() && j < s.len() {
            assert(key_at(s, i) != key_at(s, j));
        } else if i < s.len() {
            assert(key_at(s, i) == key_at(t, i));
        } else if j < s.len() {
            assert(key_at(s, j) == key_at(t, j));
        }
    }
    assert forall|k: Seq<char>| #[trigger] has_key(t, k) == (has_key(s, k) || k == x.0@) by {
        if has_key(t, k) {
            let i = index_of(t, k);
            if i < s.len() {
                assert(key_at(s, i) == k);
            }
        }
        if has_key(s, k) {
            let i = index_of(s, k);
            assert(key_at(t, i) == k);
        }
        if k == x.0@ {
            assert(key_at(t, s.len() as int) == k);
        }
    }
    lemma_index_of(t, s.len() as int);
    assert forall|k: Seq<char>| has_key(s, k) implies #[trigger] value_of(t, k) == value_of(s, k) by {
        let i = index_of(s, k);
        assert(key_at(t, i) == k);
        lemma_index_of(t, i);
    }
}

/// Replacing an entry by one of the same name keeps the names and changes that one value.
pub proof fn lemma_update<V>(s: Seq<(String, V)>, i: int, x: (String, V))
    requires
        keys_unique(s),
        0 <= i < s.len(),
        key_at(s, i) == x.0@,
    ensures
        keys_unique(s.update(i, x)),
        forall|k: Seq<char>| #[trigger] has_key(s.update(i, x), k) == has_key(s, k),
        value_of(s.update(i, x), x.0@) == x.1,
        forall|k: Seq<char>|
            has_key(s, k) && k != x.0@ ==> #[trigger] value_of(s.update(i, x), k) == value_of(s, k),
{
    let t = s.update(i, x);
    assert forall|a: int, b: int|
        0 <= a < t.len() && 0 <= b < t.len() && a != b implies #[trigger] key_at(t, a)
        != #[trigger] key_at(t, b) by {
        assert(key_at(t, a) == key_at(s, a));
        assert(key_at(t, b) == key_at(s, b));
    }
    assert forall|k: Seq<char>| #[trigger] has_key(t, k) == has_key(s, k) by {
        if has_key(t, k) {
            let j = index_of(t, k);
            assert(key_at(s, j) == k);
        }
        if has_key(s, k) {
            let j = index_of(s, k);
            assert(key_at(t, j) == k);
        }
    }
    lemma_index_of(t, i);
    assert forall|k: Seq<char>| has_key(s, k) && k != x.0@ implies #[trigger] value_of(t, k)
        == value_of(s, k) by {
        let j = index_of(s, k);
        assert(key_at(t, j) == k);
        lemma_index_of(t, j);
    }
}

/// A prefix of a table with unique names has unique names, and lacks the name that follows it.
pub proof fn lemma_prefix<V>(s: Seq<(String, V)>, j: int)
    requires
        keys_unique(s),
        0 <= j < s.len(),
    ensures
        keys_unique(s.take(j)),
        !has_key(s.take(j), key_at(s, j)),
        s.take(j + 1) == s.take(j).push(s[j]),
{
    let p = s.take(j);
    assert forall|a: int, b: int|
        0 <= a < p.len() && 0 <= b < p.len() && a != b implies #[trigger] key_at(p, a)
        != #[trigger] key_at(p, b) by {
        assert(key_at(p, a) == key_at(s, a));
        assert(key_at(p, b) == key_at(s, b));
    }
    if has_key(p, key_at(s, j)) {
        let a = index_of(p, key_at(s, j));
        assert(key_at(s, a) == key_at(s, j));
    }
    assert(s.take(j + 1) =~= s.take(j).push(s[j]));
}

/// Finds the entry named `k`.
pub fn find_key<V>(s: &Vec<(String, V)>, k: &String) -> (r: Option<usize>)
    ensures
        match r {
            Some(i) => i < s@.len() && key_at(s@, i as int) == k@,
            None => !has_key(s@, k@),
        },
{
    let mut i: usize = 0;
    while i < s.len()
        invariant
            i <= s@.len(),
            forall|a: int| 0 <= a < i ==> #[trigger] key_at(s@, a) != k@,
        decreases s@.len() - i,
    {
        if s[i].0 == *k {
            return Some(i);
        }
        i = i + 1;
    }
    proof {
        if has_key(s@, k@) {
            let a = index_of(s@, k@);
            assert(key_at(s@, a) == k@);
        }
    }
    None
}

} // verus!
