//! The whole-corpus report, how two reports merge, and the laws of that merge.
use vstd::prelude::*;
use crate::counts::{
    lemma_merge_tags_sums, questions_in, site_questions_sum, site_words_sum, words_in,
    merge_sites, merge_tags, reduce, reduce_sites, site_map, sites_fit,
    sites_can_merge, sites_wf, sum_counts, tag_map, tags_can_merge, tags_fit, tags_wf, SiteData,
    SiteView, TagData,
};

verus! {

/// The ranked lists of the whole corpus: most talkative sites and tags.
#[derive(Debug)]
pub struct TotalsData {
    pub chatty_sites: Vec<String>,
    pub chatty_tags: Vec<String>,
}

/// The report: per-site counts, global per-tag counts, and the derived rankings.
#[derive(Debug)]
pub struct ResultData {
    pub padron: u32,
    pub sites: Vec<(String, SiteData)>,
    pub tags: Vec<(String, TagData)>,
    pub totals: TotalsData,
}

/// What a report's counts are, leaving out the rankings derived from them.
pub ghost struct ReportView {
    pub padron: u32,
    pub sites: Map<Seq<char>, SiteView>,
    pub tags: Map<Seq<char>, TagData>,
}

impl View for ResultData {
    type V = ReportView;

    open spec fn view(&self) -> ReportView {
        ReportView { padron: self.padron, sites: site_map(self.sites@), tags: tag_map(self.tags@) }
    }
}

/// Two report views merged: sites and tags merged key-wise, the identifier of the first kept.
pub open spec fn merge_reports(a: ReportView, b: ReportView) -> ReportView {
    ReportView {
        padron: a.padron,
        sites: merge_sites(a.sites, b.sites),
        tags: merge_tags(a.tags, b.tags),
    }
}

/// Merging the two report views overflows no counter.
pub open spec fn reports_fit(a: ReportView, b: ReportView) -> bool {
    &&& sites_fit(a.sites, b.sites)
    &&& tags_fit(a.tags, b.tags)
}

/// The report with no contribution, under the identifier `padron`.
pub open spec fn empty_report(padron: u32) -> ReportView {
    ReportView { padron, sites: Map::empty(), tags: Map::empty() }
}

impl ResultData {
    /// A report with the given tables and no rankings yet.
    pub fn new(padron: u32, sites: Vec<(String, SiteData)>, tags: Vec<(String, TagData)>) -> (r:
        ResultData)
        ensures
            r.padron == padron,
            r.sites == sites,
            r.tags == tags,
            r.totals.chatty_sites@.len() == 0,
            r.totals.chatty_tags@.len() == 0,
    {
        ResultData {
            padron,
            sites,
            tags,
            totals: TotalsData { chatty_sites: Vec::new(), chatty_tags: Vec::new() },
        }
    }

    /// Site and tag names are unique and every count has been seen at least once.
    pub open spec fn wf(&self) -> bool {
        &&& sites_wf(self.sites@)
        &&& tags_wf(self.tags@)
    }

    /// For every tag, its global counts are the sums of its counts in the
    /// local tag maps of all sites.
    pub open spec fn tags_add_up(&self) -> bool {
        forall|t: Seq<char>|
            #![trigger words_in(tag_map(self.tags@), t)]
            #![trigger questions_in(tag_map(self.tags@), t)]
            words_in(tag_map(self.tags@), t) == site_words_sum(self.sites@, t) && questions_in(
                tag_map(self.tags@),
                t,
            ) == site_questions_sum(self.sites@, t)
    }

    /// Whether merging `other` into this report overflows no counter.
    pub fn can_add(&self, other: &ResultData) -> (r: bool)
        requires
            self.wf(),
            other.wf(),
        ensures
            r == reports_fit(self@, other@),
    {
        sites_can_merge(&self.sites, &other.sites) && tags_can_merge(&self.tags, &other.tags)
    }

    /// Merges `other` into this report. The identifier and rankings of `self` are
    /// kept; rankings are recomputed once all contributions are merged.
    pub fn add(self, other: ResultData) -> (r: ResultData)
        requires
            self.wf(),
            other.wf(),
            reports_fit(self@, other@),
        ensures
            r.wf(),
            r@ == merge_reports(self@, other@),
            r.totals == self.totals,
            self.tags_add_up() && other.tags_add_up() ==> r.tags_add_up(),
    {
        let mut sites = self.sites;
        let mut tags = self.tags;
        reduce_sites(&mut sites, other.sites);
        reduce(&mut tags, other.tags);
        let r = ResultData { padron: self.padron, sites, tags, totals: self.totals };
        proof {
            if self.tags_add_up() && other.tags_add_up() {
                assert forall|t: Seq<char>|
                    #![trigger words_in(tag_map(r.tags@), t)]
                    #![trigger questions_in(tag_map(r.tags@), t)]
                    words_in(tag_map(r.tags@), t) == site_words_sum(r.sites@, t) && questions_in(
                        tag_map(r.tags@),
                        t,
                    ) == site_questions_sum(r.sites@, t) by {
                    lemma_merge_tags_sums(tag_map(self.tags@), tag_map(other.tags@), t);
                    assert(words_in(tag_map(self.tags@), t) == site_words_sum(self.sites@, t));
                    assert(words_in(tag_map(other.tags@), t) == site_words_sum(other.sites@, t));
                    assert(questions_in(tag_map(self.tags@), t) == site_questions_sum(self.sites@, t));
                    assert(questions_in(tag_map(other.tags@), t) == site_questions_sum(other.sites@, t));
                }
            }
        }
        r
    }
}

pub proof fn lemma_merge_tags_assoc(
    a: Map<Seq<char>, TagData>,
    b: Map<Seq<char>, TagData>,
    c: Map<Seq<char>, TagData>,
)
    requires
        tags_fit(a, b),
        tags_fit(merge_tags(a, b), c),
    ensures
        merge_tags(merge_tags(a, b), c) == merge_tags(a, merge_tags(b, c)),
{
    let ab = merge_tags(a, b);
    let bc = merge_tags(b, c);
    assert forall|k: Seq<char>| b.contains_key(k) && c.contains_key(k) implies sum_counts(
        b[k],
        c[k],
    ).questions == b[k].questions + c[k].questions && sum_counts(b[k], c[k]).words == b[k].words
        + c[k].words by {
        assert(ab.contains_key(k));
    }
    assert(merge_tags(ab, c) =~= merge_tags(a, bc));
}

pub proof fn lemma_merge_tags_comm(a: Map<Seq<char>, TagData>, b: Map<Seq<char>, TagData>)
    ensures
        merge_tags(a, b) == merge_tags(b, a),
{
    assert(merge_tags(a, b) =~= merge_tags(b, a));
}

pub proof fn lemma_merge_sites_assoc(
    a: Map<Seq<char>, SiteView>,
    b: Map<Seq<char>, SiteView>,
    c: Map<Seq<char>, SiteView>,
)
    requires
        sites_fit(a, b),
        sites_fit(merge_sites(a, b), c),
    ensures
        merge_sites(merge_sites(a, b), c) == merge_sites(a, merge_sites(b, c)),
{
    let ab = merge_sites(a, b);
    let bc = merge_sites(b, c);
    assert forall|k: Seq<char>| #[trigger] merge_sites(ab, c).contains_key(k) implies merge_sites(
        ab,
        c,
    )[k] == merge_sites(a, bc)[k] by {
        if a.contains_key(k) && b.contains_key(k) && c.contains_key(k) {
            assert(ab.contains_key(k));
            lemma_merge_tags_assoc(a[k].tags, b[k].tags, c[k].tags);
        } else if b.contains_key(k) && c.contains_key(k) {
            assert(ab.contains_key(k));
        } else if a.contains_key(k) && c.contains_key(k) {
            assert(ab.contains_key(k));
        }
    }
    assert(merge_sites(ab, c) =~= merge_sites(a, bc));
}

pub proof fn lemma_merge_sites_comm(a: Map<Seq<char>, SiteView>, b: Map<Seq<char>, SiteView>)
    ensures
        merge_sites(a, b) == merge_sites(b, a),
{
    assert forall|k: Seq<char>| #[trigger] merge_sites(a, b).contains_key(k) implies merge_sites(
        a,
        b,
    )[k] == merge_sites(b, a)[k] by {
        if a.contains_key(k) && b.contains_key(k) {
            lemma_merge_tags_comm(a[k].tags, b[k].tags);
        }
    }
    assert(merge_sites(a, b) =~= merge_sites(b, a));
}

/// Merging is associative: grouping three contributions either way gives the same counts.
pub proof fn lemma_merge_associative(a: ReportView, b: ReportView, c: ReportView)
    requires
        reports_fit(a, b),
        reports_fit(merge_reports(a, b), c),
    ensures
        merge_reports(merge_reports(a, b), c) == merge_reports(a, merge_reports(b, c)),
{
    lemma_merge_sites_assoc(a.sites, b.sites, c.sites);
    lemma_merge_tags_assoc(a.tags, b.tags, c.tags);
}

/// Merging is commutative: contributions of one run (same identifier) merge to the
/// same counts in either order.
pub proof fn lemma_merge_commutative(a: ReportView, b: ReportView)
    requires
        a.padron == b.padron,
    ensures
        merge_reports(a, b) == merge_reports(b, a),
{
    lemma_merge_sites_comm(a.sites, b.sites);
    lemma_merge_tags_comm(a.tags, b.tags);
}

/// The empty report is the identity of merging, on either side.
pub proof fn lemma_merge_identity(a: ReportView)
    ensures
        merge_reports(a, empty_report(a.padron)) == a,
        merge_reports(empty_report(a.padron), a) == a,
{
    assert(merge_sites(a.sites, Map::empty()) =~= a.sites);
    assert(merge_sites(Map::empty(), a.sites) =~= a.sites);
    assert(merge_tags(a.tags, Map::empty()) =~= a.tags);
    assert(merge_tags(Map::empty(), a.tags) =~= a.tags);
}

} // verus!
