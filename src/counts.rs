//! Counts of questions and words, per tag and per site, and how two sets of
//! counts merge into one.
use vstd::prelude::*;
use crate::table::{
    find_key, has_key, index_of, key_at, keys_unique, lemma_index_of, lemma_prefix, lemma_push,
    lemma_update, value_of,
};

verus! {

/// Counts for one tag: how many records carried it, and how many words those records held.
#[derive(Clone, Copy, Debug)]
pub struct TagData {
    pub questions: u32,
    pub words: u32,
}

/// The counts of `a` and `b` added field by field.
pub open spec fn sum_counts(a: TagData, b: TagData) -> TagData {
    TagData {
        questions: (a.questions + b.questions) as u32,
        words: (a.words + b.words) as u32,
    }
}

/// Adding `a` and `b` overflows neither field.
pub open spec fn counts_fit(a: TagData, b: TagData) -> bool {
    a.questions + b.questions <= u32::MAX && a.words + b.words <= u32::MAX
}

impl TagData {
    pub fn new(questions: u32, words: u32) -> (r: TagData)
        ensures
            r.questions == questions,
            r.words == words,
    {
        TagData { questions, words }
    }

    /// Words per question, rounded down.
    pub fn get_coef(&self) -> (r: u32)
        requires
            self.questions > 0,
        ensures
            r == self.words / self.questions,
    {
        self.words / self.questions
    }

    /// Adds the counts of `other` to these.
    pub fn combine(&mut self, other: TagData)
        requires
            counts_fit(*old(self), other),
        ensures
            *final(self) == sum_counts(*old(self), other),
    {
        self.questions = self.questions + other.questions;
        self.words = self.words + other.words;
    }
}

/// A tag table read as a map from tag name to its counts.
pub open spec fn tag_map(s: Seq<(String, TagData)>) -> Map<Seq<char>, TagData> {
    Map::new(|k: Seq<char>| has_key(s, k), |k: Seq<char>| value_of(s, k))
}

/// Tag names are unique and every tag has been seen at least once.
pub open spec fn tags_wf(s: Seq<(String, TagData)>) -> bool {
    &&& keys_unique(s)
    &&& forall|i: int| 0 <= i < s.len() ==> (#[trigger] s[i]).1.questions >= 1
}

/// Key-wise union of two tag maps; a tag present in both gets the sum of its counts.
pub open spec fn merge_tags(a: Map<Seq<char>, TagData>, b: Map<Seq<char>, TagData>) -> Map<
    Seq<char>,
    TagData,
> {
    Map::new(
        |k: Seq<char>| a.contains_key(k) || b.contains_key(k),
        |k: Seq<char>|
            if a.contains_key(k) && b.contains_key(k) {
                sum_counts(a[k], b[k])
            } else if a.contains_key(k) {
                a[k]
            } else {
                b[k]
            },
    )
}

/// Merging the two tag maps overflows no counter.
pub open spec fn tags_fit(a: Map<Seq<char>, TagData>, b: Map<Seq<char>, TagData>) -> bool {
    forall|k: Seq<char>|
        #![trigger a.contains_key(k), b.contains_key(k)]
        a.contains_key(k) && b.contains_key(k) ==> counts_fit(a[k], b[k])
}

pub proof fn lemma_tag_map_push(s: Seq<(String, TagData)>, x: (String, TagData))
    requires
        keys_unique(s),
        !has_key(s, x.0@),
    ensures
        keys_unique(s.push(x)),
        tag_map(s.push(x)) == tag_map(s).insert(x.0@, x.1),
{
    lemma_push(s, x);
    assert(tag_map(s.push(x)) =~= tag_map(s).insert(x.0@, x.1));
}

pub proof fn lemma_tag_map_update(s: Seq<(String, TagData)>, i: int, x: (String, TagData))
    requires
        keys_unique(s),
        0 <= i < s.len(),
        key_at(s, i) == x.0@,
    ensures
        keys_unique(s.update(i, x)),
        tag_map(s.update(i, x)) == tag_map(s).insert(x.0@, x.1),
{
    lemma_update(s, i, x);
    assert(tag_map(s.update(i, x)) =~= tag_map(s).insert(x.0@, x.1));
}

pub proof fn lemma_tag_map_empty(s: Seq<(String, TagData)>)
    requires
        s.len() == 0,
    ensures
        tag_map(s) == Map::<Seq<char>, TagData>::empty(),
{
    assert(tag_map(s) =~= Map::<Seq<char>, TagData>::empty());
}

/// Merges the tag table `origen` into `destino`: a tag already there gets the
/// counts added, a new tag is copied through.
pub fn reduce(destino: &mut Vec<(String, TagData)>, origen: Vec<(String, TagData)>)
    requires
        tags_wf(old(destino)@),
        tags_wf(origen@),
        tags_fit(tag_map(old(destino)@), tag_map(origen@)),
    ensures
        tags_wf(final(destino)@),
        tag_map(final(destino)@) == merge_tags(tag_map(old(destino)@), tag_map(origen@)),
{
    let ghost d0 = destino@;
    proof {
        lemma_tag_map_empty(origen@.take(0));
        assert(merge_tags(tag_map(d0), tag_map(origen@.take(0))) =~= tag_map(d0));
    }
    let mut j: usize = 0;
    while j < origen.len()
        invariant
            j <= origen@.len(),
            tags_wf(origen@),
            tags_fit(tag_map(d0), tag_map(origen@)),
            tags_wf(destino@),
            tag_map(destino@) == merge_tags(tag_map(d0), tag_map(origen@.take(j as int))),
        decreases origen@.len() - j,
    {
        let key = origen[j].0.clone();
        let val = origen[j].1;
        let ghost x = origen@[j as int];
        let ghost k = key@;
        let ghost a = tag_map(d0);
        let ghost b = tag_map(origen@.take(j as int));
        proof {
            lemma_prefix(origen@, j as int);
            lemma_index_of(origen@, j as int);
            lemma_tag_map_push(origen@.take(j as int), x);
            assert(!b.contains_key(k));
            assert(tag_map(origen@).contains_key(k) && tag_map(origen@)[k] == val);
        }
        let ghost before = destino@;
        match find_key(destino, &key) {
            Some(i) => {
                let mut cur = destino[i].1;
                proof {
                    lemma_index_of(before, i as int);
                    assert(key_at(before, i as int) == k);
                    assert(tag_map(before).contains_key(k));
                    assert(tag_map(before)[k] == before[i as int].1);
                    assert(merge_tags(a, b).contains_key(k));
                    assert(a.contains_key(k));
                    assert(cur == a[k]);
                }
                cur.combine(val);
                destino.set(i, (key, cur));
                proof {
                    lemma_tag_map_update(before, i as int, (key, cur));
                    assert forall|t: int| 0 <= t < destino@.len() implies (
                    #[trigger] destino@[t]).1.questions >= 1 by {
                        assert(t != i ==> destino@[t] == before[t]);
                    }
                }
            },
            None => {
                proof {
                    assert(!tag_map(before).contains_key(k));
                    assert(!merge_tags(a, b).contains_key(k));
                    assert(!a.contains_key(k));
                }
                destino.push((key, val));
                proof {
                    lemma_tag_map_push(before, (key, val));
                    assert forall|t: int| 0 <= t < destino@.len() implies (
                    #[trigger] destino@[t]).1.questions >= 1 by {
                        assert(t < before.len() ==> destino@[t] == before[t]);
                    }
                }
            },
        }
        proof {
            assert(tag_map(destino@) =~= merge_tags(a, b.insert(k, val)));
        }
        j = j + 1;
    }
    proof {
        assert(origen@.take(origen@.len() as int) =~= origen@);
    }
}

/// Counts for one site, with its own tag table and, once ranked, its most talkative tags.
#[derive(Clone, Debug)]
pub struct SiteData {
    pub questions: u32,
    pub words: u32,
    pub tags: Vec<(String, TagData)>,
    pub chatty_tags: Vec<String>,
}

/// What a site's counts are, leaving out the ranking that is derived from them.
pub ghost struct SiteView {
    pub questions: u32,
    pub words: u32,
    pub tags: Map<Seq<char>, TagData>,
}

impl View for SiteData {
    type V = SiteView;

    open spec fn view(&self) -> SiteView {
        SiteView { questions: self.questions, words: self.words, tags: tag_map(self.tags@) }
    }
}

/// Two site views merged: counts added, tag maps merged key-wise.
pub open spec fn merge_site(a: SiteView, b: SiteView) -> SiteView {
    SiteView {
        questions: (a.questions + b.questions) as u32,
        words: (a.words + b.words) as u32,
        tags: merge_tags(a.tags, b.tags),
    }
}

/// Merging the two site views overflows no counter.
pub open spec fn site_fit(a: SiteView, b: SiteView) -> bool {
    &&& a.questions + b.questions <= u32::MAX
    &&& a.words + b.words <= u32::MAX
    &&& tags_fit(a.tags, b.tags)
}

impl SiteData {
    /// A site with the given counts; its ranking is not computed yet.
    pub fn new(questions: u32, words: u32, tags: Vec<(String, TagData)>) -> (r: SiteData)
        ensures
            r.questions == questions,
            r.words == words,
            r.tags == tags,
            r.chatty_tags@.len() == 0,
    {
        SiteData { questions, words, tags, chatty_tags: Vec::new() }
    }

    /// Tag names are unique, and the site and each of its tags have been seen at least once.
    pub open spec fn wf(&self) -> bool {
        &&& self.questions >= 1
        &&& tags_wf(self.tags@)
    }

    /// Words per question, rounded down.
    pub fn get_coef(&self) -> (r: u32)
        requires
            self.questions > 0,
        ensures
            r == self.words / self.questions,
    {
        self.words / self.questions
    }

    /// Stores the ranking of this site's tags.
    pub fn load_chatty_tags(&mut self, chatty_tags: Vec<String>)
        ensures
            final(self).questions == old(self).questions,
            final(self).words == old(self).words,
            final(self).tags == old(self).tags,
            final(self).chatty_tags == chatty_tags,
    {
        self.chatty_tags = chatty_tags;
    }

    /// Adds the counts of `other` to this site and merges its tags into this site's tags.
    pub fn combine(&mut self, other: SiteData)
        requires
            old(self).wf(),
            other.wf(),
            site_fit(old(self)@, other@),
        ensures
            final(self).wf(),
            final(self)@ == merge_site(old(self)@, other@),
            final(self).chatty_tags == old(self).chatty_tags,
    {
        self.questions = self.questions + other.questions;
        self.words = self.words + other.words;
        reduce(&mut self.tags, other.tags);
    }
}

/// A site table read as a map from site name to the site's view.
pub open spec fn site_map(s: Seq<(String, SiteData)>) -> Map<Seq<char>, SiteView> {
    Map::new(|k: Seq<char>| has_key(s, k), |k: Seq<char>| value_of(s, k)@)
}

/// Site names are unique and every site is well formed.
pub open spec fn sites_wf(s: Seq<(String, SiteData)>) -> bool {
    &&& keys_unique(s)
    &&& forall|i: int| 0 <= i < s.len() ==> (#[trigger] s[i]).1.wf()
}

/// Key-wise union of two site maps; a site present in both gets its views merged.
pub open spec fn merge_sites(a: Map<Seq<char>, SiteView>, b: Map<Seq<char>, SiteView>) -> Map<
    Seq<char>,
    SiteView,
> {
    Map::new(
        |k: Seq<char>| a.contains_key(k) || b.contains_key(k),
        |k: Seq<char>|
            if a.contains_key(k) && b.contains_key(k) {
                merge_site(a[k], b[k])
            } else if a.contains_key(k) {
                a[k]
            } else {
                b[k]
            },
    )
}

/// Merging the two site maps overflows no counter.
pub open spec fn sites_fit(a: Map<Seq<char>, SiteView>, b: Map<Seq<char>, SiteView>) -> bool {
    forall|k: Seq<char>|
        #![trigger a.contains_key(k), b.contains_key(k)]
        a.contains_key(k) && b.contains_key(k) ==> site_fit(a[k], b[k])
}

pub proof fn lemma_site_map_push(s: Seq<(String, SiteData)>, x: (String, SiteData))
    requires
        keys_unique(s),
        !has_key(s, x.0@),
    ensures
        keys_unique(s.push(x)),
        site_map(s.push(x)) == site_map(s).insert(x.0@, x.1@),
{
    lemma_push(s, x);
    assert(site_map(s.push(x)) =~= site_map(s).insert(x.0@, x.1@));
}

pub proof fn lemma_site_map_update(s: Seq<(String, SiteData)>, i: int, x: (String, SiteData))
    requires
        keys_unique(s),
        0 <= i < s.len(),
        key_at(s, i) == x.0@,
    ensures
        keys_unique(s.update(i, x)),
        site_map(s.update(i, x)) == site_map(s).insert(x.0@, x.1@),
{
    lemma_update(s, i, x);
    assert(site_map(s.update(i, x)) =~= site_map(s).insert(x.0@, x.1@));
}

/// Words of tag `t` in a tag map, zero where the tag is absent.
pub open spec fn words_in(m: Map<Seq<char>, TagData>, t: Seq<char>) -> int {
    if m.contains_key(t) {
        m[t].words as int
    } else {
        0
    }
}

/// Questions of tag `t` in a tag map, zero where the tag is absent.
pub open spec fn questions_in(m: Map<Seq<char>, TagData>, t: Seq<char>) -> int {
    if m.contains_key(t) {
        m[t].questions as int
    } else {
        0
    }
}

/// Words of tag `t` summed over the local tag maps of all sites.
pub open spec fn site_words_sum(s: Seq<(String, SiteData)>, t: Seq<char>) -> int
    decreases s.len(),
{
    if s.len() == 0 {
        0
    } else {
        site_words_sum(s.drop_last(), t) + words_in(s.last().1@.tags, t)
    }
}

/// Questions of tag `t` summed over the local tag maps of all sites.
pub open spec fn site_questions_sum(s: Seq<(String, SiteData)>, t: Seq<char>) -> int
    decreases s.len(),
{
    if s.len() == 0 {
        0
    } else {
        site_questions_sum(s.drop_last(), t) + questions_in(s.last().1@.tags, t)
    }
}

pub proof fn lemma_merge_tags_sums(a: Map<Seq<char>, TagData>, b: Map<Seq<char>, TagData>, t: Seq<char>)
    requires
        tags_fit(a, b),
    ensures
        words_in(merge_tags(a, b), t) == words_in(a, t) + words_in(b, t),
        questions_in(merge_tags(a, b), t) == questions_in(a, t) + questions_in(b, t),
{
    if a.contains_key(t) && b.contains_key(t) {
        assert(counts_fit(a[t], b[t]));
    }
}

pub proof fn lemma_site_sums_update(s: Seq<(String, SiteData)>, i: int, x: (String, SiteData), t: Seq<char>)
    requires
        0 <= i < s.len(),
    ensures
        site_words_sum(s.update(i, x), t) == site_words_sum(s, t) - words_in(s[i].1@.tags, t)
            + words_in(x.1@.tags, t),
        site_questions_sum(s.update(i, x), t) == site_questions_sum(s, t) - questions_in(
            s[i].1@.tags,
            t,
        ) + questions_in(x.1@.tags, t),
    decreases s.len(),
{
    let u = s.update(i, x);
    if i == s.len() - 1 {
        assert(u.drop_last() =~= s.drop_last());
    } else {
        lemma_site_sums_update(s.drop_last(), i, x, t);
        assert(u.drop_last() =~= s.drop_last().update(i, x));
    }
}

pub proof fn lemma_site_sums_push(s: Seq<(String, SiteData)>, x: (String, SiteData), t: Seq<char>)
    ensures
        site_words_sum(s.push(x), t) == site_words_sum(s, t) + words_in(x.1@.tags, t),
        site_questions_sum(s.push(x), t) == site_questions_sum(s, t) + questions_in(x.1@.tags, t),
{
    assert(s.push(x).drop_last() =~= s);
}

/// Merges the site table `origen` into `destino`: a site already there is
/// combined with the new one, a new site is moved in.
pub fn reduce_sites(destino: &mut Vec<(String, SiteData)>, origen: Vec<(String, SiteData)>)
    requires
        sites_wf(old(destino)@),
        sites_wf(origen@),
        sites_fit(site_map(old(destino)@), site_map(origen@)),
    ensures
        sites_wf(final(destino)@),
        site_map(final(destino)@) == merge_sites(site_map(old(destino)@), site_map(origen@)),
        forall|t: Seq<char>|
            #![trigger site_words_sum(final(destino)@, t)]
            #![trigger site_questions_sum(final(destino)@, t)]
            site_words_sum(final(destino)@, t) == site_words_sum(old(destino)@, t) + site_words_sum(
                origen@,
                t,
            ) && site_questions_sum(final(destino)@, t) == site_questions_sum(old(destino)@, t)
                + site_questions_sum(origen@, t),
{
    let ghost d0 = destino@;
    let ghost o0 = origen@;
    let mut rest = origen;
    let total = rest.len();
    proof {
        assert(site_map(o0.take(0)) =~= Map::<Seq<char>, SiteView>::empty());
        assert(merge_sites(site_map(d0), site_map(o0.take(0))) =~= site_map(d0));
        assert(rest@ =~= o0.skip(0));
        assert forall|t: Seq<char>|
            site_words_sum(o0.take(0), t) == 0 && site_questions_sum(o0.take(0), t) == 0 by {}
    }
    let mut j: usize = 0;
    while rest.len() > 0
        invariant
            j <= o0.len() == total,
            rest@ == o0.skip(j as int),
            sites_wf(o0),
            sites_fit(site_map(d0), site_map(o0)),
            sites_wf(destino@),
            site_map(destino@) == merge_sites(site_map(d0), site_map(o0.take(j as int))),
            forall|t: Seq<char>|
                #![trigger site_words_sum(destino@, t)]
                #![trigger site_questions_sum(destino@, t)]
                site_words_sum(destino@, t) == site_words_sum(d0, t) + site_words_sum(
                    o0.take(j as int),
                    t,
                ) && site_questions_sum(destino@, t) == site_questions_sum(d0, t)
                    + site_questions_sum(o0.take(j as int), t),
        decreases rest@.len(),
    {
        let ghost x = o0[j as int];
        let ghost k = x.0@;
        let ghost a = site_map(d0);
        let ghost b = site_map(o0.take(j as int));
        assert(rest@.len() == o0.len() - j);
        assert(rest@[0] == x);
        let (key, site) = rest.remove(0);
        proof {
            assert(rest@ =~= o0.skip(j + 1));
            lemma_prefix(o0, j as int);
            lemma_index_of(o0, j as int);
            lemma_site_map_push(o0.take(j as int), x);
            assert(!b.contains_key(k));
            assert(site_map(o0).contains_key(k) && site_map(o0)[k] == site@);
            assert(site.wf());
        }
        let ghost before = destino@;
        match find_key(destino, &key) {
            Some(i) => {
                let (old_key, mut cur) = destino.remove(i);
                proof {
                    lemma_index_of(before, i as int);
                    assert(key_at(before, i as int) == k);
                    assert(site_map(before).contains_key(k));
                    assert(site_map(before)[k] == cur@);
                    assert(merge_sites(a, b).contains_key(k));
                    assert(a.contains_key(k));
                    assert(cur.wf());
                }
                let ghost cur0 = cur;
                cur.combine(site);
                destino.insert(i, (old_key, cur));
                proof {
                    assert forall|t: Seq<char>|
                        #![trigger site_words_sum(destino@, t)]
                        #![trigger site_questions_sum(destino@, t)]
                        site_words_sum(destino@, t) == site_words_sum(before, t) + words_in(site@.tags, t)
                        && site_questions_sum(destino@, t) == site_questions_sum(before, t)
                            + questions_in(site@.tags, t) by {
                        assert(destino@ =~= before.update(i as int, (old_key, cur)));
                        lemma_site_sums_update(before, i as int, (old_key, cur), t);
                        lemma_merge_tags_sums(cur0@.tags, site@.tags, t);
                    }
                    assert(destino@ =~= before.update(i as int, (old_key, cur)));
                    lemma_site_map_update(before, i as int, (old_key, cur));
                    assert forall|t: int| 0 <= t < destino@.len() implies (
                    #[trigger] destino@[t]).1.wf() by {
                        assert(t != i ==> destino@[t] == before[t]);
                    }
                }
            },
            None => {
                proof {
                    assert(!site_map(before).contains_key(k));
                    assert(!merge_sites(a, b).contains_key(k));
                    assert(!a.contains_key(k));
                }
                destino.push((key, site));
                proof {
                    assert forall|t: Seq<char>|
                        #![trigger site_words_sum(destino@, t)]
                        #![trigger site_questions_sum(destino@, t)]
                        site_words_sum(destino@, t) == site_words_sum(before, t) + words_in(site@.tags, t)
                        && site_questions_sum(destino@, t) == site_questions_sum(before, t)
                            + questions_in(site@.tags, t) by {
                        lemma_site_sums_push(before, (key, site), t);
                    }
                    lemma_site_map_push(before, (key, site));
                    assert forall|t: int| 0 <= t < destino@.len() implies (
                    #[trigger] destino@[t]).1.wf() by {
                        assert(t < before.len() ==> destino@[t] == before[t]);
                    }
                }
            },
        }
        proof {
            assert(site_map(destino@) =~= merge_sites(a, b.insert(k, site@)));
            assert forall|t: Seq<char>|
                #![trigger site_words_sum(destino@, t)]
                #![trigger site_questions_sum(destino@, t)]
                site_words_sum(destino@, t) == site_words_sum(d0, t) + site_words_sum(
                    o0.take(j + 1),
                    t,
                ) && site_questions_sum(destino@, t) == site_questions_sum(d0, t)
                    + site_questions_sum(o0.take(j + 1), t) by {
                lemma_site_sums_push(o0.take(j as int), x, t);
            }
        }
        j = j + 1;
    }
    proof {
        assert(o0.take(o0.len() as int) =~= o0);
    }
}

/// Whether adding `b` to `a` overflows neither field.
pub fn counts_can_merge(a: TagData, b: TagData) -> (r: bool)
    ensures
        r == counts_fit(a, b),
{
    a.questions <= u32::MAX - b.questions && a.words <= u32::MAX - b.words
}

/// Whether merging the tag table `b` into `a` overflows no counter.
pub fn tags_can_merge(a: &Vec<(String, TagData)>, b: &Vec<(String, TagData)>) -> (r: bool)
    requires
        tags_wf(a@),
        tags_wf(b@),
    ensures
        r == tags_fit(tag_map(a@), tag_map(b@)),
{
    let mut j: usize = 0;
    while j < b.len()
        invariant
            j <= b@.len(),
            tags_wf(a@),
            tags_wf(b@),
            forall|t: int|
                0 <= t < j && tag_map(a@).contains_key(#[trigger] key_at(b@, t)) && tag_map(b@).contains_key(
                    key_at(b@, t),
                ) ==> counts_fit(
                    tag_map(a@)[key_at(b@, t)],
                    tag_map(b@)[key_at(b@, t)],
                ),
        decreases b@.len() - j,
    {
        proof {
            lemma_index_of(b@, j as int);
        }
        match find_key(a, &b[j].0) {
            Some(i) => {
                proof {
                    lemma_index_of(a@, i as int);
                    let k = key_at(b@, j as int);
                    assert(key_at(a@, i as int) == k);
                    assert(tag_map(a@).contains_key(k) && tag_map(a@)[k] == a@[i as int].1);
                    assert(tag_map(b@).contains_key(k) && tag_map(b@)[k] == b@[j as int].1);
                }
                if !counts_can_merge(a[i].1, b[j].1) {
                    return false;
                }
            },
            None => {},
        }
        j = j + 1;
    }
    proof {
        assert forall|k: Seq<char>|
            #![trigger tag_map(a@).contains_key(k), tag_map(b@).contains_key(k)]
            tag_map(a@).contains_key(k) && tag_map(b@).contains_key(k) implies counts_fit(tag_map(a@)[k], tag_map(b@)[k]) by {
            let t = index_of(b@, k);
            assert(key_at(b@, t) == k);
        }
    }
    true
}

/// Whether merging the site table `b` into `a` overflows no counter.
pub fn sites_can_merge(a: &Vec<(String, SiteData)>, b: &Vec<(String, SiteData)>) -> (r: bool)
    requires
        sites_wf(a@),
        sites_wf(b@),
    ensures
        r == sites_fit(site_map(a@), site_map(b@)),
{
    let mut j: usize = 0;
    while j < b.len()
        invariant
            j <= b@.len(),
            sites_wf(a@),
            sites_wf(b@),
            forall|t: int|
                0 <= t < j && site_map(a@).contains_key(#[trigger] key_at(b@, t)) && site_map(b@).contains_key(
                    key_at(b@, t),
                ) ==> site_fit(
                    site_map(a@)[key_at(b@, t)],
                    site_map(b@)[key_at(b@, t)],
                ),
        decreases b@.len() - j,
    {
        proof {
            lemma_index_of(b@, j as int);
        }
        match find_key(a, &b[j].0) {
            Some(i) => {
                proof {
                    lemma_index_of(a@, i as int);
                    assert(a@[i as int].1.wf());
                    assert(b@[j as int].1.wf());
                    let k = key_at(b@, j as int);
                    assert(key_at(a@, i as int) == k);
                    assert(site_map(a@).contains_key(k) && site_map(a@)[k] == a@[i as int].1@);
                    assert(site_map(b@).contains_key(k) && site_map(b@)[k] == b@[j as int].1@);
                }
                let x = &a[i].1;
                let y = &b[j].1;
                if !(x.questions <= u32::MAX - y.questions && x.words <= u32::MAX - y.words
                    && tags_can_merge(&x.tags, &y.tags)) {
                    return false;
                }
            },
            None => {},
        }
        j = j + 1;
    }
    proof {
        assert forall|k: Seq<char>|
            #![trigger site_map(a@).contains_key(k), site_map(b@).contains_key(k)]
            site_map(a@).contains_key(k) && site_map(b@).contains_key(k) implies site_fit(site_map(a@)[k], site_map(b@)[k]) by {
            let t = index_of(b@, k);
            assert(key_at(b@, t) == k);
        }
    }
    true
}

} // verus!
