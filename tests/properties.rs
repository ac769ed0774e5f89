use tagstats::counts::{tags_can_merge, SiteData, TagData};
use tagstats::records::{
    check_line, generate_result_data_from_line, process_file, process_files, JsonStructure,
    LineJsonStructure, PADRON,
};
use tagstats::ranking::{process_sites, process_tags, process_totals};
use tagstats::report::ResultData;
use tagstats::words::{count_words, word_counter};

fn record(texts: &[&str], tags: &[&str]) -> LineJsonStructure {
    LineJsonStructure {
        texts: texts.iter().map(|t| t.to_string()).collect(),
        tags: tags.iter().map(|t| t.to_string()).collect(),
    }
}

fn strings(v: &[&str]) -> Vec<String> {
    v.iter().map(|s| s.to_string()).collect()
}

fn table(entries: &[(&str, u32, u32)]) -> Vec<(String, TagData)> {
    entries.iter().map(|(n, q, w)| (n.to_string(), TagData::new(*q, *w))).collect()
}

fn sorted_counts(tags: &[(String, TagData)]) -> Vec<(String, u32, u32)> {
    let mut v: Vec<(String, u32, u32)> =
        tags.iter().map(|(n, t)| (n.clone(), t.questions, t.words)).collect();
    v.sort();
    v
}

fn sorted_sites(r: &ResultData) -> Vec<(String, u32, u32, Vec<(String, u32, u32)>)> {
    let mut v: Vec<_> = r
        .sites
        .iter()
        .map(|(n, s)| (n.clone(), s.questions, s.words, sorted_counts(&s.tags)))
        .collect();
    v.sort();
    v
}

fn same_counts(a: &ResultData, b: &ResultData) -> bool {
    a.padron == b.padron && sorted_sites(a) == sorted_sites(b) && sorted_counts(&a.tags) == sorted_counts(&b.tags)
}

fn contribution(site: &str, texts: &[&str], tags: &[&str]) -> ResultData {
    generate_result_data_from_line(record(texts, tags), JsonStructure::new(site.to_string()))
}

#[test]
fn coefficient_is_floor_of_words_per_question() {
    assert_eq!(TagData::new(2, 7).get_coef(), 3);
    assert_eq!(TagData::new(3, 2).get_coef(), 0);
    assert_eq!(SiteData::new(4, 10, Vec::new()).get_coef(), 2);
}

#[test]
fn ties_break_by_ascending_name() {
    let tags = table(&[("b", 1, 5), ("a", 1, 5), ("c", 1, 3)]);
    assert_eq!(process_tags(&tags), strings(&["a", "b", "c"]));
}

#[test]
fn names_order_by_code_point() {
    let tags = table(&[("b", 1, 1), ("ab", 1, 1), ("a", 1, 1), ("B", 1, 1)]);
    assert_eq!(process_tags(&tags), strings(&["B", "a", "ab", "b"]));
}

#[test]
fn ranking_keeps_the_ten_best() {
    let names: Vec<String> = (0..15).map(|i| format!("t{:02}", i)).collect();
    let tags: Vec<(String, TagData)> = names
        .iter()
        .enumerate()
        .map(|(i, n)| (n.clone(), TagData::new(1, (i % 5) as u32)))
        .collect();
    let r = process_tags(&tags);
    assert_eq!(r.len(), 10);
    assert_eq!(
        r,
        strings(&["t04", "t09", "t14", "t03", "t08", "t13", "t02", "t07", "t12", "t01"])
    );
}

#[test]
fn ranking_of_few_names_is_not_padded() {
    assert_eq!(process_tags(&table(&[("x", 2, 9)])), strings(&["x"]));
    assert!(process_tags(&Vec::new()).is_empty());
}

#[test]
fn malformed_line_changes_nothing() {
    let valid = vec![
        Some(record(&["a b"], &["x"])),
        Some(record(&["c"], &["y", "x"])),
    ];
    let with_bad = vec![
        Some(record(&["a b"], &["x"])),
        None,
        Some(record(&["c"], &["y", "x"])),
    ];
    let site = "s".to_string();
    let a = process_file(&site, valid).unwrap();
    let b = process_file(&site, with_bad).unwrap();
    assert!(same_counts(&a, &b));
}

#[test]
fn end_to_end_two_sites() {
    let lines = || {
        vec![
            Some(record(&["1", "2"], &["1", "tag repetido"])),
            Some(record(&["3", "4 5 6 7"], &["2", "tag repetido"])),
        ]
    };
    let s1 = process_file(&"site1".to_string(), lines()).unwrap();
    let site1 = &s1.sites[0].1;
    assert_eq!(site1.words, 7);
    assert_eq!(site1.questions, 2);
    let rep = site1.tags.iter().find(|(n, _)| n == "tag repetido").unwrap().1;
    assert_eq!((rep.questions, rep.words), (2, 7));
    let s2 = process_file(&"site2".to_string(), lines()).unwrap();
    let all = process_files(vec![s1, s2]).unwrap();
    let rep = all.tags.iter().find(|(n, _)| n == "tag repetido").unwrap().1;
    assert_eq!(rep.questions, 4);
    assert_eq!(rep.words, 14);
}

#[test]
fn merge_order_does_not_matter() {
    let a = || contribution("s1", &["a b c"], &["x", "y"]);
    let b = || contribution("s2", &["d"], &["y"]);
    let c = || contribution("s1", &["e f"], &["z", "x"]);
    let left = a().add(b()).add(c());
    let right = a().add(b().add(c()));
    let swapped = c().add(a()).add(b());
    assert!(same_counts(&left, &right));
    assert!(same_counts(&left, &swapped));
    let x = left.tags.iter().find(|(n, _)| n == "x").unwrap().1;
    assert_eq!((x.questions, x.words), (2, 5));
}

#[test]
fn global_tag_counts_are_sums_over_sites() {
    let r = contribution("s1", &["a b"], &["x"])
        .add(contribution("s2", &["c d e"], &["x", "y"]))
        .add(contribution("s1", &["f"], &["x"]));
    let global = r.tags.iter().find(|(n, _)| n == "x").unwrap().1;
    let mut words = 0;
    let mut questions = 0;
    for (_, s) in &r.sites {
        if let Some((_, t)) = s.tags.iter().find(|(n, _)| n == "x") {
            words += t.words;
            questions += t.questions;
        }
    }
    assert_eq!((global.questions, global.words), (questions, words));
    assert_eq!((global.questions, global.words), (3, 6));
}

#[test]
fn repeated_tag_in_one_record_counts_twice() {
    let r = contribution("s", &["a b c"], &["x", "x"]);
    let x = r.tags.iter().find(|(n, _)| n == "x").unwrap().1;
    assert_eq!((x.questions, x.words), (2, 6));
    assert_eq!(r.tags.len(), 1);
    assert_eq!(r.sites[0].1.questions, 1);
    assert_eq!(r.sites[0].1.words, 3);
}

#[test]
fn record_without_tags_counts_for_its_site() {
    let r = contribution("s", &["a b"], &[]);
    assert!(r.tags.is_empty());
    assert_eq!(r.sites.len(), 1);
    assert_eq!(r.sites[0].0, "s");
    assert_eq!((r.sites[0].1.questions, r.sites[0].1.words), (1, 2));
    assert_eq!(r.padron, PADRON);
}

#[test]
fn words_are_whitespace_separated() {
    assert_eq!(word_counter(&strings(&["  a  b\tc\n", "", "d\u{3000}e"])), 5);
    assert_eq!(word_counter(&[]), 0);
    assert_eq!(count_words("one"), Some(1));
    assert_eq!(count_words(" \u{a0} "), Some(0));
    assert_eq!(count_words("a\u{2028}b\u{85}c"), Some(3));
}

#[test]
fn lines_within_limits_are_accepted() {
    assert!(check_line(&record(&["a b"], &["x", "x", "y"])));
}

#[test]
fn overflowing_merge_is_refused() {
    let big = table(&[("x", 1, u32::MAX)]);
    let one = table(&[("x", 1, 1)]);
    let other = table(&[("y", 1, 1)]);
    assert!(!tags_can_merge(&big, &one));
    assert!(tags_can_merge(&big, &other));
    let a = ResultData::new(PADRON, Vec::new(), big);
    let b = ResultData::new(PADRON, Vec::new(), one);
    assert!(!a.can_add(&b));
    assert!(process_files(vec![a, b]).is_none());
}

#[test]
fn empty_inputs_give_empty_reports() {
    let r = process_file(&"s".to_string(), vec![None, None]).unwrap();
    assert!(r.sites.is_empty() && r.tags.is_empty());
    let all = process_files(Vec::new()).unwrap();
    assert!(all.sites.is_empty() && all.tags.is_empty());
}

#[test]
fn rankings_are_filled_in() {
    let mut r = contribution("quiet", &["a"], &["t1"])
        .add(contribution("loud", &["a b c d"], &["t2", "t1"]));
    process_totals(&mut r);
    assert_eq!(r.totals.chatty_sites, strings(&["loud", "quiet"]));
    assert_eq!(r.totals.chatty_tags, strings(&["t2", "t1"]));
    let loud = &r.sites.iter().find(|(n, _)| n == "loud").unwrap().1;
    assert_eq!(loud.chatty_tags, strings(&["t1", "t2"]));
}

#[test]
fn site_ranking_uses_site_counts() {
    let mut sites = vec![
        ("a".to_string(), SiteData::new(2, 2, table(&[("x", 1, 100)]))),
        ("b".to_string(), SiteData::new(1, 5, table(&[("x", 1, 1)]))),
    ];
    assert_eq!(process_sites(&mut sites), strings(&["b", "a"]));
    assert_eq!(sites[0].1.chatty_tags, strings(&["x"]));
}

#[test]
fn record_takes_texts_and_tags() {
    let mut j = JsonStructure::new("s".to_string());
    assert!(j.texts.is_empty() && j.tags.is_empty());
    j.load_info(record(&["a"], &["t"]));
    assert_eq!(j.site, "s");
    assert_eq!(j.texts, strings(&["a"]));
    assert_eq!(j.tags, strings(&["t"]));
}
