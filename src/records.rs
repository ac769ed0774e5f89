//! From input records to contributions, and the fold of a site's records and of
//! all sites into one report.
use vstd::prelude::*;
use crate::counts::{
    questions_in, site_questions_sum, site_words_sum, words_in,
    counts_can_merge, counts_fit, lemma_site_map_push, lemma_tag_map_push, lemma_tag_map_update, merge_tags,
    site_map, tag_map, tags_fit, tags_wf, SiteData, SiteView, TagData,
};
use crate::report::{
    empty_report, lemma_merge_associative, lemma_merge_identity, lemma_merge_sites_comm,
    lemma_merge_tags_comm, merge_reports, reports_fit, ReportView, ResultData,
};
use crate::table::{find_key, has_key, key_at, lemma_index_of};
use crate::words::{count_all_words, total_words};

verus! {

/// The registry identifier that every report of a run carries.
pub const PADRON: u32 = 107587;

/// One input record: its free-text entries and its tags.
#[derive(Debug)]
pub struct LineJsonStructure {
    pub texts: Vec<String>,
    pub tags: Vec<String>,
}

/// A record together with the site it belongs to.
#[derive(Debug)]
pub struct JsonStructure {
    pub site: String,
    pub texts: Vec<String>,
    pub tags: Vec<String>,
}

impl JsonStructure {
    /// A record of `site` with no texts and no tags yet.
    pub fn new(site: String) -> (r: JsonStructure)
        ensures
            r.site == site,
            r.texts@.len() == 0,
            r.tags@.len() == 0,
    {
        JsonStructure { site, texts: Vec::new(), tags: Vec::new() }
    }

    /// Takes the texts and tags of `other`, keeping the site.
    pub fn load_info(&mut self, other: LineJsonStructure)
        ensures
            final(self).site == old(self).site,
            final(self).texts == other.texts,
            final(self).tags == other.tags,
    {
        self.texts = other.texts;
        self.tags = other.tags;
    }
}

/// The counts that one tag entry of a record with `w` words contributes.
pub open spec fn one_tag(w: u32) -> TagData {
    TagData { questions: 1, words: w }
}

/// The tag map of a record with `w` words: one contribution per entry of
/// `tags`, so that a tag listed twice is counted twice.
pub open spec fn line_tag_map(tags: Seq<String>, w: u32) -> Map<Seq<char>, TagData>
    decreases tags.len(),
{
    if tags.len() == 0 {
        Map::empty()
    } else {
        merge_tags(line_tag_map(tags.drop_last(), w), map![tags.last()@ => one_tag(w)])
    }
}

/// Counting the tag entries of a record with `w` words overflows no counter.
pub open spec fn line_tags_fit(tags: Seq<String>, w: u32) -> bool
    decreases tags.len(),
{
    if tags.len() == 0 {
        true
    } else {
        line_tags_fit(tags.drop_last(), w) && tags_fit(
            line_tag_map(tags.drop_last(), w),
            map![tags.last()@ => one_tag(w)],
        )
    }
}

/// The record's counts fit in `u32`.
pub open spec fn line_ok(line: LineJsonStructure) -> bool {
    &&& total_words(line.texts@) <= u32::MAX
    &&& line_tags_fit(line.tags@, total_words(line.texts@) as u32)
}

/// The contribution of one record of `site`: one question and its words, for
/// the site once and for each tag entry, locally and globally.
pub open spec fn line_view(site: Seq<char>, line: LineJsonStructure) -> ReportView {
    let w = total_words(line.texts@) as u32;
    let tags = line_tag_map(line.tags@, w);
    ReportView {
        padron: PADRON,
        sites: map![site => SiteView { questions: 1, words: w, tags }],
        tags,
    }
}

pub proof fn lemma_line_tags_fit_prefix(tags: Seq<String>, w: u32, n: int)
    requires
        0 <= n <= tags.len(),
        line_tags_fit(tags, w),
    ensures
        line_tags_fit(tags.take(n), w),
    decreases tags.len() - n,
{
    if n < tags.len() {
        lemma_line_tags_fit_prefix(tags, w, n + 1);
        assert(tags.take(n + 1).drop_last() =~= tags.take(n));
    } else {
        assert(tags.take(n) =~= tags);
    }
}

/// The tag table of a record with `w` words, or `None` where a count overflows.
pub fn line_tags(tags: &Vec<String>, w: u32) -> (r: Option<Vec<(String, TagData)>>)
    ensures
        match r {
            Some(t) => line_tags_fit(tags@, w) && tags_wf(t@) && tag_map(t@) == line_tag_map(
                tags@,
                w,
            ),
            None => !line_tags_fit(tags@, w),
        },
{
    let mut table: Vec<(String, TagData)> = Vec::new();
    let one = TagData { questions: 1, words: w };
    let mut i: usize = 0;
    proof {
        assert(tags@.take(0) =~= Seq::<String>::empty());
        assert(tag_map(table@) =~= Map::<Seq<char>, TagData>::empty());
    }
    while i < tags.len()
        invariant
            i <= tags@.len(),
            one == one_tag(w),
            tags_wf(table@),
            tag_map(table@) == line_tag_map(tags@.take(i as int), w),
            line_tags_fit(tags@.take(i as int), w),
        decreases tags@.len() - i,
    {
        let key = tags[i].clone();
        let ghost k = key@;
        let ghost m = tag_map(table@);
        let ghost before = table@;
        proof {
            assert(tags@.take(i + 1).drop_last() =~= tags@.take(i as int));
            assert(tags@.take(i + 1).last() == tags@[i as int]);
        }
        match find_key(&table, &key) {
            Some(idx) => {
                let mut cur = table[idx].1;
                proof {
                    lemma_index_of(before, idx as int);
                    assert(key_at(before, idx as int) == k);
                    assert(m.contains_key(k) && m[k] == cur);
                }
                if !counts_can_merge(cur, one) {
                    proof {
                        let single = map![k => one];
                        assert(single.contains_key(k) && single[k] == one);
                        assert(!counts_fit(m[k], single[k]));
                        assert(!tags_fit(m, single));
                        assert(!line_tags_fit(tags@.take(i + 1), w));
                        if line_tags_fit(tags@, w) {
                            lemma_line_tags_fit_prefix(tags@, w, i + 1);
                        }
                    }
                    return None;
                }
                cur.combine(one);
                table.set(idx, (key, cur));
                proof {
                    lemma_tag_map_update(before, idx as int, (key, cur));
                    assert forall|t: int| 0 <= t < table@.len() implies (
                    #[trigger] table@[t]).1.questions >= 1 by {
                        assert(t != idx ==> table@[t] == before[t]);
                    }
                    assert(tags_fit(m, map![k => one]));
                    assert(tag_map(table@) =~= merge_tags(m, map![k => one]));
                }
            },
            None => {
                proof {
                    assert(!m.contains_key(k));
                }
                table.push((key, one));
                proof {
                    lemma_tag_map_push(before, (key, one));
                    assert forall|t: int| 0 <= t < table@.len() implies (
                    #[trigger] table@[t]).1.questions >= 1 by {
                        assert(t < before.len() ==> table@[t] == before[t]);
                    }
                    assert(tags_fit(m, map![k => one]));
                    assert(tag_map(table@) =~= merge_tags(m, map![k => one]));
                }
            },
        }
        i = i + 1;
    }
    proof {
        assert(tags@.take(i as int) =~= tags@);
    }
    Some(table)
}

/// Whether the record's counts fit in `u32`.
pub fn check_line(line: &LineJsonStructure) -> (r: bool)
    ensures
        r == line_ok(*line),
{
    match count_all_words(line.texts.as_slice()) {
        Some(w) => match line_tags(&line.tags, w) {
            Some(_) => true,
            None => false,
        },
        None => false,
    }
}

/// The contribution of one record to the report: the record's site with one
/// question and the record's words, and one count per tag entry, both in the
/// site's tag table and in the global one.
pub fn generate_result_data_from_line(line_struct: LineJsonStructure, json_struct: JsonStructure) -> (r:
    ResultData)
    requires
        line_ok(line_struct),
    ensures
        r.wf(),
        r@ == line_view(json_struct.site@, line_struct),
        r.tags_add_up(),
        r.totals.chatty_sites@.len() == 0,
        r.totals.chatty_tags@.len() == 0,
{
    let mut json_struct = json_struct;
    json_struct.load_info(line_struct);
    let words = match count_all_words(json_struct.texts.as_slice()) {
        Some(n) => n,
        None => 0,
    };
    let site_tags = match line_tags(&json_struct.tags, words) {
        Some(t) => t,
        None => Vec::new(),
    };
    let global_tags = match line_tags(&json_struct.tags, words) {
        Some(t) => t,
        None => Vec::new(),
    };
    let site_data = SiteData::new(1, words, site_tags);
    let mut sites: Vec<(String, SiteData)> = Vec::new();
    let ghost site_name = json_struct.site@;
    proof {
        assert(!has_key(sites@, site_name));
        lemma_site_map_push(sites@, (json_struct.site, site_data));
        assert(site_map(sites@) =~= Map::<Seq<char>, SiteView>::empty());
    }
    sites.push((json_struct.site, site_data));
    proof {
        assert(sites@[0].1.wf());
        assert(site_map(sites@) =~= map![site_name => site_data@]);
        assert(sites@.drop_last() =~= Seq::<(String, SiteData)>::empty());
        assert forall|t: Seq<char>|
            site_words_sum(sites@, t) == words_in(tag_map(global_tags@), t)
            && site_questions_sum(sites@, t) == questions_in(tag_map(global_tags@), t) by {
            assert(sites@.last().1 == site_data);
            assert(tag_map(site_data.tags@) == tag_map(global_tags@));
            assert(site_words_sum(sites@.drop_last(), t) == 0);
            assert(site_questions_sum(sites@.drop_last(), t) == 0);
        }
    }
    ResultData::new(PADRON, sites, global_tags)
}

/// What a record, or a line that did not parse (`None`), contributes.
pub open spec fn contribution(site: Seq<char>, line: Option<LineJsonStructure>) -> ReportView {
    match line {
        Some(l) => line_view(site, l),
        None => empty_report(PADRON),
    }
}

/// The record's counts fit in `u32`; a line that did not parse always does.
pub open spec fn contribution_ok(line: Option<LineJsonStructure>) -> bool {
    match line {
        Some(l) => line_ok(l),
        None => true,
    }
}

/// The counts of a site's lines: the merge of their contributions in order.
pub open spec fn file_view(site: Seq<char>, lines: Seq<Option<LineJsonStructure>>) -> ReportView
    decreases lines.len(),
{
    if lines.len() == 0 {
        empty_report(PADRON)
    } else {
        merge_reports(file_view(site, lines.drop_last()), contribution(site, lines.last()))
    }
}

/// No count overflows while the site's lines are merged.
pub open spec fn file_fits(site: Seq<char>, lines: Seq<Option<LineJsonStructure>>) -> bool
    decreases lines.len(),
{
    if lines.len() == 0 {
        true
    } else {
        &&& file_fits(site, lines.drop_last())
        &&& contribution_ok(lines.last())
        &&& reports_fit(file_view(site, lines.drop_last()), contribution(site, lines.last()))
    }
}

pub proof fn lemma_file_fits_prefix(site: Seq<char>, lines: Seq<Option<LineJsonStructure>>, n: int)
    requires
        0 <= n <= lines.len(),
        file_fits(site, lines),
    ensures
        file_fits(site, lines.take(n)),
    decreases lines.len() - n,
{
    if n < lines.len() {
        lemma_file_fits_prefix(site, lines, n + 1);
        assert(lines.take(n + 1).drop_last() =~= lines.take(n));
    } else {
        assert(lines.take(n) =~= lines);
    }
}

/// Merges the contributions of a site's lines, in order. A line that did not
/// parse (`None`) contributes nothing. `None` is returned where a count would
/// overflow.
pub fn process_file(site_name: &String, lines: Vec<Option<LineJsonStructure>>) -> (r: Option<
    ResultData,
>)
    ensures
        r is Some <==> file_fits(site_name@, lines@),
        r matches Some(rep) ==> {
            &&& rep.wf()
            &&& rep@ == file_view(site_name@, lines@)
            &&& rep.tags_add_up()
            &&& rep.totals.chatty_sites@.len() == 0
            &&& rep.totals.chatty_tags@.len() == 0
        },
{
    let ghost l0 = lines@;
    let mut rest = lines;
    let total = rest.len();
    let mut acc = ResultData::new(PADRON, Vec::new(), Vec::new());
    proof {
        assert(rest@ =~= l0.skip(0));
        assert(l0.take(0) =~= Seq::<Option<LineJsonStructure>>::empty());
        assert(site_map(acc.sites@) =~= Map::<Seq<char>, SiteView>::empty());
        assert(tag_map(acc.tags@) =~= Map::<Seq<char>, TagData>::empty());
        assert forall|t: Seq<char>|
            words_in(tag_map(acc.tags@), t) == site_words_sum(acc.sites@, t) && questions_in(
                tag_map(acc.tags@),
                t,
            ) == site_questions_sum(acc.sites@, t) by {}
    }
    let mut j: usize = 0;
    while rest.len() > 0
        invariant
            j <= l0.len() == total,
            l0 == lines@,
            rest@ == l0.skip(j as int),
            acc.wf(),
            acc.tags_add_up(),
            acc@ == file_view(site_name@, l0.take(j as int)),
            file_fits(site_name@, l0.take(j as int)),
            acc.totals.chatty_sites@.len() == 0,
            acc.totals.chatty_tags@.len() == 0,
        decreases rest@.len(),
    {
        assert(rest@.len() == l0.len() - j);
        assert(rest@[0] == l0[j as int]);
        let line = rest.remove(0);
        proof {
            assert(rest@ =~= l0.skip(j + 1));
            assert(l0.take(j + 1).drop_last() =~= l0.take(j as int));
            assert(l0.take(j + 1).last() == l0[j as int]);
        }
        match line {
            Some(record) => {
                if !check_line(&record) {
                    proof {
                        assert(!contribution_ok(l0.take(j + 1).last()));
                        assert(!file_fits(site_name@, l0.take(j + 1)));
                        if file_fits(site_name@, l0) {
                            lemma_file_fits_prefix(site_name@, l0, j + 1);
                        }
                    }
                    return None;
                }
                let c = generate_result_data_from_line(record, JsonStructure::new(site_name.clone()));
                proof {
                    assert(c@ == contribution(site_name@, l0.take(j + 1).last()));
                }
                if !acc.can_add(&c) {
                    proof {
                        assert(!file_fits(site_name@, l0.take(j + 1)));
                        if file_fits(site_name@, l0) {
                            lemma_file_fits_prefix(site_name@, l0, j + 1);
                        }
                    }
                    return None;
                }
                acc = acc.add(c);
            },
            None => {
                proof {
                    lemma_merge_identity(acc@);
                    assert(reports_fit(acc@, empty_report(PADRON)));
                }
            },
        }
        j = j + 1;
    }
    proof {
        assert(l0.take(j as int) =~= l0);
    }
    Some(acc)
}

/// Dropping a line that did not parse changes neither the counts of a site's
/// lines nor whether they overflow.
pub proof fn lemma_malformed_line_ignored(
    site: Seq<char>,
    lines: Seq<Option<LineJsonStructure>>,
    i: int,
)
    requires
        0 <= i < lines.len(),
        lines[i] is None,
    ensures
        file_view(site, lines) == file_view(site, lines.remove(i)),
        file_fits(site, lines) == file_fits(site, lines.remove(i)),
    decreases lines.len(),
{
    let prefix = lines.drop_last();
    if i == lines.len() - 1 {
        assert(lines.remove(i) =~= prefix);
        lemma_merge_identity(file_view(site, prefix));
        assert(reports_fit(file_view(site, prefix), empty_report(PADRON)));
    } else {
        lemma_malformed_line_ignored(site, prefix, i);
        assert(lines.remove(i).drop_last() =~= prefix.remove(i));
        assert(lines.remove(i).last() == lines.last());
    }
}

/// The counts of several reports: the merge of all of them in order.
pub open spec fn files_view(results: Seq<ResultData>) -> ReportView
    decreases results.len(),
{
    if results.len() == 0 {
        empty_report(PADRON)
    } else {
        merge_reports(files_view(results.drop_last()), results.last()@)
    }
}

/// No count overflows while the reports are merged in order.
pub open spec fn files_fit(results: Seq<ResultData>) -> bool
    decreases results.len(),
{
    if results.len() == 0 {
        true
    } else {
        files_fit(results.drop_last()) && reports_fit(
            files_view(results.drop_last()),
            results.last()@,
        )
    }
}

pub proof fn lemma_files_fit_prefix(results: Seq<ResultData>, n: int)
    requires
        0 <= n <= results.len(),
        files_fit(results),
    ensures
        files_fit(results.take(n)),
    decreases results.len() - n,
{
    if n < results.len() {
        lemma_files_fit_prefix(results, n + 1);
        assert(results.take(n + 1).drop_last() =~= results.take(n));
    } else {
        assert(results.take(n) =~= results);
    }
}

/// Merges the reports of all sites into one, or `None` where a count would overflow.
pub fn process_files(results: Vec<ResultData>) -> (r: Option<ResultData>)
    requires
        forall|i: int| 0 <= i < results@.len() ==> (#[trigger] results@[i]).wf(),
        forall|i: int| 0 <= i < results@.len() ==> (#[trigger] results@[i]).tags_add_up(),
    ensures
        r is Some <==> files_fit(results@),
        r matches Some(rep) ==> {
            &&& rep.wf()
            &&& rep@ == files_view(results@)
            &&& rep.tags_add_up()
            &&& rep.totals.chatty_sites@.len() == 0
            &&& rep.totals.chatty_tags@.len() == 0
        },
{
    let ghost l0 = results@;
    let mut rest = results;
    let total = rest.len();
    let mut acc = ResultData::new(PADRON, Vec::new(), Vec::new());
    proof {
        assert(rest@ =~= l0.skip(0));
        assert(l0.take(0) =~= Seq::<ResultData>::empty());
        assert(site_map(acc.sites@) =~= Map::<Seq<char>, SiteView>::empty());
        assert(tag_map(acc.tags@) =~= Map::<Seq<char>, TagData>::empty());
        assert forall|t: Seq<char>|
            words_in(tag_map(acc.tags@), t) == site_words_sum(acc.sites@, t) && questions_in(
                tag_map(acc.tags@),
                t,
            ) == site_questions_sum(acc.sites@, t) by {}
    }
    let mut j: usize = 0;
    while rest.len() > 0
        invariant
            j <= l0.len() == total,
            l0 == results@,
            forall|i: int| 0 <= i < l0.len() ==> (#[trigger] l0[i]).wf(),
            forall|i: int| 0 <= i < l0.len() ==> (#[trigger] l0[i]).tags_add_up(),
            rest@ == l0.skip(j as int),
            acc.wf(),
            acc.tags_add_up(),
            acc@ == files_view(l0.take(j as int)),
            files_fit(l0.take(j as int)),
            acc.totals.chatty_sites@.len() == 0,
            acc.totals.chatty_tags@.len() == 0,
        decreases rest@.len(),
    {
        assert(rest@.len() == l0.len() - j);
        assert(rest@[0] == l0[j as int]);
        let next = rest.remove(0);
        proof {
            assert(rest@ =~= l0.skip(j + 1));
            assert(l0.take(j + 1).drop_last() =~= l0.take(j as int));
            assert(l0.take(j + 1).last() == l0[j as int]);
        }
        if !acc.can_add(&next) {
            proof {
                assert(!files_fit(l0.take(j + 1)));
                if files_fit(l0) {
                    lemma_files_fit_prefix(l0, j + 1);
                }
            }
            return None;
        }
        acc = acc.add(next);
        j = j + 1;
    }
    proof {
        assert(l0.take(j as int) =~= l0);
    }
    Some(acc)
}

/// `s` with the reports at `i` and `i + 1` exchanged.
pub open spec fn swap_next(s: Seq<ResultData>, i: int) -> Seq<ResultData> {
    s.update(i, s[i + 1]).update(i + 1, s[i])
}

/// Exchanging two neighbouring reports leaves the merged counts as they are.
/// Every reordering is a series of such exchanges, and grouping is free by
/// associativity, so the counts do not depend on the order or grouping of
/// the merges (where neither order overflows).
pub proof fn lemma_files_swap(s: Seq<ResultData>, i: int)
    requires
        0 <= i,
        i + 1 < s.len(),
        files_fit(s),
        files_fit(swap_next(s, i)),
    ensures
        files_view(s) == files_view(swap_next(s, i)),
    decreases s.len(),
{
    let t = swap_next(s, i);
    if s.len() == i + 2 {
        let p = s.take(i);
        let a = s[i];
        let b = s[i + 1];
        assert(s.drop_last() =~= p.push(a));
        assert(s.drop_last().drop_last() =~= p);
        assert(t.drop_last() =~= p.push(b));
        assert(t.drop_last().drop_last() =~= p);
        let f = files_view(p);
        assert(files_fit(s.drop_last()));
        assert(files_fit(t.drop_last()));
        assert(s.drop_last().last() == a);
        assert(t.drop_last().last() == b);
        assert(reports_fit(f, a@));
        assert(reports_fit(f, b@));
        lemma_merge_associative(f, a@, b@);
        lemma_merge_associative(f, b@, a@);
        lemma_merge_sites_comm(a@.sites, b@.sites);
        lemma_merge_tags_comm(a@.tags, b@.tags);
        assert(merge_reports(f, merge_reports(a@, b@)) == merge_reports(f, merge_reports(b@, a@)));
    } else {
        assert(t.drop_last() =~= swap_next(s.drop_last(), i));
        lemma_files_swap(s.drop_last(), i);
    }
}

} // verus!
