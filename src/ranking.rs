//! Ranking names by words per question, most talkative first, ties broken by
//! ascending name.
use vstd::prelude::*;
use crate::counts::{site_map, sites_wf, tag_map, tags_wf, SiteData, SiteView, TagData};
use crate::report::ResultData;
use crate::table::{
    has_key, index_of, key_at, keys_unique, lemma_has_key, lemma_index_of, value_of,
};

verus! {

/// How many names a ranking keeps.
pub const CHATTY_TAGS_MAX: usize = 10;

/// How many sites the ranking of sites keeps.
pub const CHATTY_SITES_MAX: usize = 10;

/// Lexicographic order of names by code point.
pub open spec fn name_lt(a: Seq<char>, b: Seq<char>) -> bool
    decreases a.len(),
{
    if a.len() == 0 {
        b.len() > 0
    } else if b.len() == 0 {
        false
    } else if a[0] != b[0] {
        (a[0] as int) < (b[0] as int)
    } else {
        name_lt(a.drop_first(), b.drop_first())
    }
}

pub proof fn lemma_name_lt_irreflexive(a: Seq<char>)
    ensures
        !name_lt(a, a),
    decreases a.len(),
{
    if a.len() > 0 {
        lemma_name_lt_irreflexive(a.drop_first());
    }
}

pub proof fn lemma_name_lt_total(a: Seq<char>, b: Seq<char>)
    requires
        a != b,
    ensures
        name_lt(a, b) || name_lt(b, a),
        !(name_lt(a, b) && name_lt(b, a)),
    decreases a.len(),
{
    if a.len() > 0 && b.len() > 0 {
        if a[0] == b[0] {
            if a.drop_first() == b.drop_first() {
                assert(a =~= seq![a[0]] + a.drop_first());
                assert(b =~= seq![b[0]] + b.drop_first());
            }
            lemma_name_lt_total(a.drop_first(), b.drop_first());
        } else {
            assert((a[0] as int) != (b[0] as int));
        }
    } else if a.len() == 0 && b.len() == 0 {
        assert(a =~= b);
    }
}

pub proof fn lemma_name_lt_transitive(a: Seq<char>, b: Seq<char>, c: Seq<char>)
    requires
        name_lt(a, b),
        name_lt(b, c),
    ensures
        name_lt(a, c),
    decreases a.len(),
{
    if a.len() > 0 && b.len() > 0 && c.len() > 0 {
        if a[0] == b[0] && b[0] == c[0] {
            lemma_name_lt_transitive(a.drop_first(), b.drop_first(), c.drop_first());
        } else {
            assert((a[0] as int) != (c[0] as int) || a[0] == c[0]);
            if a[0] == c[0] {
                assert((a[0] as int) == (c[0] as int));
            }
        }
    }
}

/// Relies on the order of `String` (`Ord for str`): strings compare
/// lexicographically by their UTF-8 bytes, which orders them as their
/// sequences of code points.
#[verifier::external_body]
fn name_less(a: &String, b: &String) -> (r: bool)
    ensures
        r == name_lt(a@, b@),
{
    a < b
}

/// Whether `a` ranks before `b` under the coefficients `m`: a higher
/// coefficient first, and on equal coefficients the smaller name.
pub open spec fn ranks_before(m: Map<Seq<char>, u32>, a: Seq<char>, b: Seq<char>) -> bool {
    m[a] > m[b] || (m[a] == m[b] && name_lt(a, b))
}

/// The names of a list of strings.
pub open spec fn names_of(v: Seq<String>) -> Seq<Seq<char>> {
    v.map_values(|s: String| s@)
}

/// `r` is the ranking of the `n` names of `m`, cut to its first `k`: it holds
/// `min(k, n)` names of `m`, each ranked before the next, and before every
/// name of `m` that it leaves out.
pub open spec fn is_top_k(m: Map<Seq<char>, u32>, n: nat, k: nat, r: Seq<Seq<char>>) -> bool {
    &&& r.len() == if n < k {
        n
    } else {
        k
    }
    &&& forall|i: int| 0 <= i < r.len() ==> m.contains_key(#[trigger] r[i])
    &&& forall|i: int, j: int| 0 <= i < j < r.len() ==> ranks_before(m, #[trigger] r[i], #[trigger] r[j])
    &&& forall|x: Seq<char>, i: int|
        m.contains_key(x) && !r.contains(x) && 0 <= i < r.len() ==> #[trigger] ranks_before(m, r[i], x)
}

/// A table of coefficients read as a map from name to coefficient.
pub open spec fn coef_map(s: Seq<(String, u32)>) -> Map<Seq<char>, u32> {
    Map::new(|k: Seq<char>| has_key(s, k), |k: Seq<char>| value_of(s, k))
}

pub proof fn lemma_ranks_before_transitive(m: Map<Seq<char>, u32>, a: Seq<char>, b: Seq<char>, c: Seq<char>)
    requires
        ranks_before(m, a, b),
        ranks_before(m, b, c),
    ensures
        ranks_before(m, a, c),
{
    if m[a] == m[b] && m[b] == m[c] {
        lemma_name_lt_transitive(a, b, c);
    }
}

pub proof fn lemma_ranks_before_strict(m: Map<Seq<char>, u32>, a: Seq<char>, b: Seq<char>)
    ensures
        ranks_before(m, a, b) ==> a != b,
        a != b ==> (ranks_before(m, a, b) || ranks_before(m, b, a)),
        !(ranks_before(m, a, b) && ranks_before(m, b, a)),
{
    lemma_name_lt_irreflexive(a);
    if a != b {
        lemma_name_lt_total(a, b);
    }
}

pub proof fn lemma_remove_entry(s: Seq<(String, u32)>, b: int)
    requires
        keys_unique(s),
        0 <= b < s.len(),
    ensures
        keys_unique(s.remove(b)),
        forall|x: Seq<char>| #[trigger] has_key(s.remove(b), x) == (has_key(s, x) && x != key_at(s, b)),
        forall|x: Seq<char>| has_key(s.remove(b), x) ==> #[trigger] value_of(s.remove(b), x) == value_of(s, x),
{
    let t = s.remove(b);
    assert forall|i: int, j: int|
        0 <= i < t.len() && 0 <= j < t.len() && i != j implies #[trigger] key_at(t, i)
        != #[trigger] key_at(t, j) by {
        let si = if i < b { i } else { i + 1 };
        let sj = if j < b { j } else { j + 1 };
        assert(key_at(t, i) == key_at(s, si));
        assert(key_at(t, j) == key_at(s, sj));
    }
    assert forall|x: Seq<char>| #[trigger] has_key(t, x) == (has_key(s, x) && x != key_at(s, b)) by {
        if has_key(t, x) {
            let i = index_of(t, x);
            let si = if i < b { i } else { i + 1 };
            assert(key_at(s, si) == x);
            assert(si != b);
        }
        if has_key(s, x) && x != key_at(s, b) {
            let si = index_of(s, x);
            assert(key_at(s, si) == x);
            let i = if si < b { si } else { si - 1 };
            assert(key_at(t, i) == x);
        }
    }
    assert forall|x: Seq<char>| has_key(t, x) implies #[trigger] value_of(t, x) == value_of(s, x) by {
        let i = index_of(t, x);
        let si = if i < b { i } else { i + 1 };
        assert(key_at(s, si) == x);
        lemma_index_of(s, si);
        lemma_index_of(t, i);
    }
}

/// The position in `work` of the entry that ranks first.
fn best_entry(work: &Vec<(String, u32)>, Ghost(m): Ghost<Map<Seq<char>, u32>>) -> (b: usize)
    requires
        work@.len() > 0,
        keys_unique(work@),
        forall|x: Seq<char>| #[trigger] has_key(work@, x) ==> m.contains_key(x) && value_of(work@, x) == m[x],
    ensures
        b < work@.len(),
        forall|t: int|
            0 <= t < work@.len() && t != b ==> ranks_before(m, key_at(work@, b as int), #[trigger] key_at(work@, t)),
{
    let mut b: usize = 0;
    let mut t: usize = 1;
    while t < work.len()
        invariant
            0 <= b < t <= work@.len(),
            keys_unique(work@),
            forall|x: Seq<char>| #[trigger] has_key(work@, x) ==> m.contains_key(x) && value_of(work@, x) == m[x],
            forall|u: int|
                0 <= u < t && u != b ==> ranks_before(m, key_at(work@, b as int), #[trigger] key_at(work@, u)),
        decreases work@.len() - t,
    {
        proof {
            lemma_index_of(work@, t as int);
            lemma_index_of(work@, b as int);
            lemma_ranks_before_strict(m, key_at(work@, t as int), key_at(work@, b as int));
        }
        let better = work[t].1 > work[b].1 || (work[t].1 == work[b].1 && name_less(&work[t].0, &work[b].0));
        if better {
            proof {
                assert(ranks_before(m, key_at(work@, t as int), key_at(work@, b as int)));
                assert forall|u: int|
                    0 <= u < t + 1 && u != t implies ranks_before(m, key_at(work@, t as int), #[trigger] key_at(work@, u)) by {
                    if u != b {
                        lemma_ranks_before_transitive(m, key_at(work@, t as int), key_at(work@, b as int), key_at(work@, u));
                    }
                }
            }
            b = t;
        } else {
            proof {
                assert(key_at(work@, t as int) != key_at(work@, b as int));
                assert(ranks_before(m, key_at(work@, b as int), key_at(work@, t as int)));
            }
        }
        t = t + 1;
    }
    b
}

/// The names of the table ranked by coefficient, highest first, ties broken
/// by ascending name, cut to the first `k`.
pub fn rank(entries: &Vec<(String, u32)>, k: usize) -> (r: Vec<String>)
    requires
        keys_unique(entries@),
    ensures
        is_top_k(coef_map(entries@), entries@.len(), k as nat, names_of(r@)),
{
    let ghost e = entries@;
    let ghost m = coef_map(e);
    let mut work: Vec<(String, u32)> = Vec::new();
    let mut i: usize = 0;
    while i < entries.len()
        invariant
            i <= e.len(),
            e == entries@,
            keys_unique(e),
            work@.len() == i,
            forall|t: int| 0 <= t < i ==> #[trigger] key_at(work@, t) == key_at(e, t) && work@[t].1 == e[t].1,
        decreases e.len() - i,
    {
        let ghost before = work@;
        let name = entries[i].0.clone();
        let coef = entries[i].1;
        assert(name@ == key_at(e, i as int));
        work.push((name, coef));
        assert(key_at(work@, i as int) == key_at(e, i as int));
        proof {
            assert forall|t: int| 0 <= t < i + 1 implies #[trigger] key_at(work@, t) == key_at(e, t)
                && work@[t].1 == e[t].1 by {
                if t < i {
                    assert(work@[t] == before[t]);
                    assert(key_at(before, t) == key_at(e, t));
                }
            }
        }
        i = i + 1;
    }
    proof {
        assert forall|a: int, b: int|
            0 <= a < work@.len() && 0 <= b < work@.len() && a != b implies #[trigger] key_at(work@, a)
            != #[trigger] key_at(work@, b) by {
            assert(key_at(e, a) != key_at(e, b));
        }
        assert forall|x: Seq<char>| #[trigger] has_key(work@, x) implies m.contains_key(x) && value_of(work@, x) == m[x] by {
            let t = index_of(work@, x);
            assert(key_at(e, t) == x);
            lemma_index_of(e, t);
            lemma_index_of(work@, t);
        }
        assert forall|x: Seq<char>| has_key(e, x) implies #[trigger] has_key(work@, x) by {
            let t = index_of(e, x);
            assert(key_at(work@, t) == x);
        }
    }
    let mut r: Vec<String> = Vec::new();
    proof {
        assert(names_of(r@) =~= Seq::<Seq<char>>::empty());
    }
    while r.len() < k && work.len() > 0
        invariant
            keys_unique(work@),
            forall|x: Seq<char>| #[trigger] has_key(work@, x) ==> m.contains_key(x) && value_of(work@, x) == m[x],
            forall|x: Seq<char>| has_key(e, x) ==> #[trigger] has_key(work@, x) || names_of(r@).contains(x),
            r@.len() + work@.len() == e.len(),
            r@.len() <= k,
            forall|a: int| 0 <= a < r@.len() ==> m.contains_key(#[trigger] names_of(r@)[a]),
            forall|a: int, b: int| 0 <= a < b < r@.len() ==> ranks_before(m, #[trigger] names_of(r@)[a], #[trigger] names_of(r@)[b]),
            forall|x: Seq<char>, a: int| has_key(work@, x) && 0 <= a < r@.len() ==> #[trigger] ranks_before(m, names_of(r@)[a], x),
            m == coef_map(e),
        decreases work@.len(),
    {
        let b = best_entry(&work, Ghost(m));
        let ghost w0 = work@;
        let ghost r0 = names_of(r@);
        let ghost best = key_at(w0, b as int);
        proof {
            lemma_index_of(w0, b as int);
            lemma_remove_entry(w0, b as int);
        }
        let (name, _) = work.remove(b);
        r.push(name);
        proof {
            assert(names_of(r@) =~= r0.push(best));
            assert forall|x: Seq<char>| has_key(work@, x) implies ranks_before(m, best, x) by {
                lemma_has_key(w0, x);
            }
            assert forall|x: Seq<char>| has_key(e, x) implies #[trigger] has_key(work@, x) || names_of(r@).contains(x) by {
                if has_key(w0, x) && x == best {
                    assert(names_of(r@)[r0.len() as int] == x);
                } else if r0.contains(x) {
                    let a = choose|a: int| 0 <= a < r0.len() && r0[a] == x;
                    assert(names_of(r@)[a] == x);
                }
            }
            assert forall|x: Seq<char>, a: int| has_key(work@, x) && 0 <= a < r@.len() implies #[trigger] ranks_before(m, names_of(r@)[a], x) by {
                if a < r0.len() {
                    assert(names_of(r@)[a] == r0[a]);
                }
            }
        }
    }
    proof {
        let nr = names_of(r@);
        assert forall|x: Seq<char>, a: int| m.contains_key(x) && !nr.contains(x) && 0 <= a < nr.len() implies #[trigger] ranks_before(m, nr[a], x) by {
            assert(has_key(e, x));
            assert(has_key(work@, x));
        }
    }
    r
}

/// Words per question of each tag.
pub open spec fn tag_coefs(m: Map<Seq<char>, TagData>) -> Map<Seq<char>, u32> {
    Map::new(|k: Seq<char>| m.contains_key(k), |k: Seq<char>| (m[k].words / m[k].questions) as u32)
}

/// Words per question of each site, from the site's own counts.
pub open spec fn site_coefs(m: Map<Seq<char>, SiteView>) -> Map<Seq<char>, u32> {
    Map::new(|k: Seq<char>| m.contains_key(k), |k: Seq<char>| (m[k].words / m[k].questions) as u32)
}

/// The site's ranked tags are the ranking of its tag table.
pub open spec fn site_ranked(s: SiteData) -> bool {
    is_top_k(tag_coefs(tag_map(s.tags@)), s.tags@.len(), CHATTY_TAGS_MAX as nat, names_of(s.chatty_tags@))
}

/// The most talkative tags of the table: at most ten names, by words per
/// question, highest first, ties broken by ascending name.
pub fn process_tags(tags_data: &Vec<(String, TagData)>) -> (r: Vec<String>)
    requires
        tags_wf(tags_data@),
    ensures
        is_top_k(tag_coefs(tag_map(tags_data@)), tags_data@.len(), CHATTY_TAGS_MAX as nat, names_of(r@)),
{
    let ghost s = tags_data@;
    let mut entries: Vec<(String, u32)> = Vec::new();
    let mut i: usize = 0;
    while i < tags_data.len()
        invariant
            i <= s.len(),
            s == tags_data@,
            tags_wf(s),
            entries@.len() == i,
            forall|t: int| 0 <= t < i ==> #[trigger] key_at(entries@, t) == key_at(s, t)
                && entries@[t].1 == s[t].1.words / s[t].1.questions,
        decreases s.len() - i,
    {
        let ghost before = entries@;
        let name = tags_data[i].0.clone();
        assert(s[i as int].1.questions >= 1);
        let coef = tags_data[i].1.get_coef();
        assert(name@ == key_at(s, i as int));
        entries.push((name, coef));
        proof {
            assert(key_at(entries@, i as int) == key_at(s, i as int));
            assert forall|t: int| 0 <= t < i + 1 implies #[trigger] key_at(entries@, t) == key_at(s, t)
                && entries@[t].1 == s[t].1.words / s[t].1.questions by {
                if t < i {
                    assert(entries@[t] == before[t]);
                    assert(key_at(before, t) == key_at(s, t));
                }
            }
        }
        i = i + 1;
    }
    proof {
        assert forall|a: int, b: int|
            0 <= a < entries@.len() && 0 <= b < entries@.len() && a != b implies #[trigger] key_at(entries@, a)
            != #[trigger] key_at(entries@, b) by {
            assert(key_at(s, a) != key_at(s, b));
        }
        assert forall|x: Seq<char>| #[trigger] has_key(entries@, x) == has_key(s, x) by {
            if has_key(entries@, x) {
                let t = index_of(entries@, x);
                assert(key_at(s, t) == x);
            }
            if has_key(s, x) {
                let t = index_of(s, x);
                assert(key_at(entries@, t) == x);
            }
        }
        assert forall|x: Seq<char>| has_key(s, x) implies #[trigger] value_of(entries@, x) == value_of(s, x).words / value_of(s, x).questions by {
            let t = index_of(s, x);
            assert(key_at(entries@, t) == x);
            lemma_index_of(s, t);
            lemma_index_of(entries@, t);
        }
        assert(coef_map(entries@) =~= tag_coefs(tag_map(s)));
    }
    rank(&entries, CHATTY_TAGS_MAX)
}

/// Ranks the tags of every site, storing each site's ranking in it, and
/// returns the most talkative sites: at most ten names, by the site's own
/// words per question, highest first, ties broken by ascending name.
pub fn process_sites(sites_data: &mut Vec<(String, SiteData)>) -> (r: Vec<String>)
    requires
        sites_wf(old(sites_data)@),
    ensures
        sites_wf(final(sites_data)@),
        final(sites_data)@.len() == old(sites_data)@.len(),
        forall|i: int| 0 <= i < final(sites_data)@.len() ==> {
            &&& (#[trigger] final(sites_data)@[i]).0 == old(sites_data)@[i].0
            &&& final(sites_data)@[i].1@ == old(sites_data)@[i].1@
            &&& final(sites_data)@[i].1.tags == old(sites_data)@[i].1.tags
            &&& site_ranked(final(sites_data)@[i].1)
        },
        site_map(final(sites_data)@) == site_map(old(sites_data)@),
        is_top_k(site_coefs(site_map(old(sites_data)@)), old(sites_data)@.len(), CHATTY_SITES_MAX as nat, names_of(r@)),
{
    let ghost s = sites_data@;
    let mut entries: Vec<(String, u32)> = Vec::new();
    let mut i: usize = 0;
    while i < sites_data.len()
        invariant
            i <= s.len(),
            sites_data@.len() == s.len(),
            sites_wf(s),
            entries@.len() == i,
            forall|t: int| 0 <= t < s.len() ==> {
                &&& (#[trigger] sites_data@[t]).0 == s[t].0
                &&& sites_data@[t].1@ == s[t].1@
                &&& sites_data@[t].1.tags == s[t].1.tags
                &&& sites_data@[t].1.questions == s[t].1.questions
                &&& t < i ==> site_ranked(sites_data@[t].1)
            },
            forall|t: int| 0 <= t < i ==> #[trigger] key_at(entries@, t) == key_at(s, t)
                && entries@[t].1 == s[t].1.words / s[t].1.questions,
        decreases s.len() - i,
    {
        let ghost before = entries@;
        let ghost cur = sites_data@;
        assert(s[i as int].1.wf());
        assert(cur[i as int] == (cur[i as int].0, cur[i as int].1));
        let chatty = process_tags(&sites_data[i].1.tags);
        let coef = sites_data[i].1.get_coef();
        let name = sites_data[i].0.clone();
        let (key, mut site) = sites_data.remove(i);
        site.load_chatty_tags(chatty);
        sites_data.insert(i, (key, site));
        proof {
            assert(sites_data@ =~= cur.update(i as int, (key, site)));
            assert(name@ == key_at(s, i as int));
        }
        entries.push((name, coef));
        proof {
            assert(key_at(entries@, i as int) == key_at(s, i as int));
            assert forall|t: int| 0 <= t < i + 1 implies #[trigger] key_at(entries@, t) == key_at(s, t)
                && entries@[t].1 == s[t].1.words / s[t].1.questions by {
                if t < i {
                    assert(entries@[t] == before[t]);
                    assert(key_at(before, t) == key_at(s, t));
                }
            }
            assert forall|t: int| 0 <= t < s.len() implies {
                &&& (#[trigger] sites_data@[t]).0 == s[t].0
                &&& sites_data@[t].1@ == s[t].1@
                &&& sites_data@[t].1.tags == s[t].1.tags
                &&& sites_data@[t].1.questions == s[t].1.questions
                &&& t < i + 1 ==> site_ranked(sites_data@[t].1)
            } by {
                if t != i {
                    assert(sites_data@[t] == cur[t]);
                }
            }
        }
        i = i + 1;
    }
    proof {
        let f = sites_data@;
        assert forall|a: int, b: int|
            0 <= a < entries@.len() && 0 <= b < entries@.len() && a != b implies #[trigger] key_at(entries@, a)
            != #[trigger] key_at(entries@, b) by {
            assert(key_at(s, a) != key_at(s, b));
        }
        assert forall|x: Seq<char>| #[trigger] has_key(entries@, x) == has_key(s, x) by {
            if has_key(entries@, x) {
                let t = index_of(entries@, x);
                assert(key_at(s, t) == x);
            }
            if has_key(s, x) {
                let t = index_of(s, x);
                assert(key_at(entries@, t) == x);
            }
        }
        assert forall|x: Seq<char>| has_key(s, x) implies #[trigger] value_of(entries@, x) == value_of(s, x).words / value_of(s, x).questions by {
            let t = index_of(s, x);
            assert(key_at(entries@, t) == x);
            lemma_index_of(s, t);
            lemma_index_of(entries@, t);
        }
        assert(coef_map(entries@) =~= site_coefs(site_map(s)));
        assert forall|a: int, b: int|
            0 <= a < f.len() && 0 <= b < f.len() && a != b implies #[trigger] key_at(f, a)
            != #[trigger] key_at(f, b) by {
            assert(f[a] == (s[a].0, f[a].1));
            assert(f[b] == (s[b].0, f[b].1));
            assert(key_at(s, a) != key_at(s, b));
        }
        assert forall|t: int| 0 <= t < f.len() implies (#[trigger] f[t]).1.wf() by {
            assert(s[t].1.wf());
        }
        assert forall|x: Seq<char>| #[trigger] has_key(f, x) == has_key(s, x) by {
            if has_key(f, x) {
                let t = index_of(f, x);
                assert(f[t].0 == s[t].0);
                assert(key_at(s, t) == x);
            }
            if has_key(s, x) {
                let t = index_of(s, x);
                assert(f[t].0 == s[t].0);
                assert(key_at(f, t) == x);
            }
        }
        assert forall|x: Seq<char>| has_key(s, x) implies #[trigger] value_of(f, x)@ == value_of(s, x)@ by {
            let t = index_of(s, x);
            assert(f[t].0 == s[t].0);
            assert(key_at(f, t) == x);
            lemma_index_of(s, t);
            lemma_index_of(f, t);
        }
        assert(site_map(f) =~= site_map(s));
    }
    rank(&entries, CHATTY_SITES_MAX)
}

/// Computes all rankings of the report: those of each site's tags, of the
/// sites, and of the global tags. The counts are left as they are.
pub fn process_totals(result_data: &mut ResultData)
    requires
        old(result_data).wf(),
    ensures
        final(result_data).wf(),
        final(result_data)@ == old(result_data)@,
        final(result_data).sites@.len() == old(result_data).sites@.len(),
        forall|i: int| 0 <= i < final(result_data).sites@.len() ==> {
            &&& (#[trigger] final(result_data).sites@[i]).0 == old(result_data).sites@[i].0
            &&& final(result_data).sites@[i].1.tags == old(result_data).sites@[i].1.tags
            &&& site_ranked(final(result_data).sites@[i].1)
        },
        is_top_k(site_coefs(old(result_data)@.sites), old(result_data).sites@.len(), CHATTY_SITES_MAX as nat, names_of(final(result_data).totals.chatty_sites@)),
        is_top_k(tag_coefs(old(result_data)@.tags), old(result_data).tags@.len(), CHATTY_TAGS_MAX as nat, names_of(final(result_data).totals.chatty_tags@)),
{
    let chatty_sites = process_sites(&mut result_data.sites);
    let chatty_tags = process_tags(&result_data.tags);
    result_data.totals.chatty_sites = chatty_sites;
    result_data.totals.chatty_tags = chatty_tags;
}

} // verus!
