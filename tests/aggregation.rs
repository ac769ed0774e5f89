use tagstats::counts::{SiteData, TagData};
use tagstats::records::{process_file, process_files, LineJsonStructure};
use tagstats::ranking::process_totals;
use tagstats::report::ResultData;

fn record(texts: &[&str], tags: &[&str]) -> LineJsonStructure {
    LineJsonStructure {
        texts: texts.iter().map(|t| t.to_string()).collect(),
        tags: tags.iter().map(|t| t.to_string()).collect(),
    }
}

fn site1_lines() -> Vec<Option<LineJsonStructure>> {
    vec![
        Some(record(&["1", "2"], &["1", "tag repetido"])),
        Some(record(&["3", "4 5 6 7"], &["2", "tag repetido"])),
    ]
}

fn site2_lines() -> Vec<Option<LineJsonStructure>> {
    vec![
        Some(record(&["8", "9"], &["3", "tag repetido"])),
        Some(record(&["10", "11 12 13 14"], &["4", "tag repetido"])),
    ]
}

fn sample_report() -> ResultData {
    let site1 = process_file(&"site1".to_string(), site1_lines()).unwrap();
    let site2 = process_file(&"site2".to_string(), site2_lines()).unwrap();
    process_files(vec![site1, site2]).unwrap()
}

fn site<'a>(r: &'a ResultData, name: &str) -> Option<&'a SiteData> {
    r.sites.iter().find(|(n, _)| n == name).map(|(_, s)| s)
}

fn tag_in<'a>(tags: &'a [(String, TagData)], name: &str) -> Option<&'a TagData> {
    tags.iter().find(|(n, _)| n == name).map(|(_, t)| t)
}

fn assert_same_elements(expected: &[String], actual: &[String]) {
    for elem in expected {
        assert!(actual.contains(elem), "Missing element: {:?}", elem);
    }
    for elem in actual {
        assert!(expected.contains(elem), "Extra element: {:?}", elem);
    }
}

fn strings(v: &[&str]) -> Vec<String> {
    v.iter().map(|s| s.to_string()).collect()
}

#[test]
fn site_words_count_test() {
    let result_data = sample_report();
    assert_eq!(site(&result_data, "site1").unwrap().words, 7);
    assert_eq!(site(&result_data, "site2").unwrap().words, 7);
}

#[test]
fn site_questions_count_test() {
    let result_data = sample_report();
    assert_eq!(site(&result_data, "site1").unwrap().questions, 2);
    assert_eq!(site(&result_data, "site2").unwrap().questions, 2);
}

#[test]
fn tag_site_words_count_test() {
    let result_data = sample_report();
    let expected_data = vec![
        ("site1", "1", 2),
        ("site1", "2", 5),
        ("site1", "tag repetido", 7),
        ("site2", "3", 2),
        ("site2", "4", 5),
        ("site2", "tag repetido", 7),
    ];
    for (s, tag, expected_words) in expected_data {
        let actual_words = site(&result_data, s)
            .and_then(|d| tag_in(&d.tags, tag).map(|t| t.words))
            .unwrap_or(0);
        assert_eq!(actual_words, expected_words, "Site: {}, Tag: {}", s, tag);
    }
}

#[test]
fn tag_site_questions_count_test() {
    let result_data = sample_report();
    let expected_data = vec![
        ("site1", "1", 1),
        ("site1", "2", 1),
        ("site1", "tag repetido", 2),
        ("site2", "3", 1),
        ("site2", "4", 1),
        ("site2", "tag repetido", 2),
    ];
    for (s, tag, expected_questions) in expected_data {
        let actual = site(&result_data, s)
            .and_then(|d| tag_in(&d.tags, tag).map(|t| t.questions))
            .unwrap_or(0);
        assert_eq!(actual, expected_questions, "Site: {}, Tag: {}", s, tag);
    }
}

#[test]
fn tag_total_questions_count_test() {
    let result_data = sample_report();
    let expected_data = vec![("1", 1), ("2", 1), ("3", 1), ("4", 1), ("tag repetido", 4)];
    for (tag, expected_questions) in expected_data {
        let actual = tag_in(&result_data.tags, tag).map(|t| t.questions).unwrap_or(0);
        assert_eq!(actual, expected_questions, "Tag: {}", tag);
    }
}

#[test]
fn tag_total_words_count_test() {
    let result_data = sample_report();
    let expected_data = vec![("1", 2), ("2", 5), ("3", 2), ("4", 5), ("tag repetido", 14)];
    for (tag, expected_words) in expected_data {
        let actual = tag_in(&result_data.tags, tag).map(|t| t.words).unwrap_or(0);
        assert_eq!(actual, expected_words, "Tag: {}", tag);
    }
}

#[test]
fn site_chatty_tags_test() {
    let expected_site1 = strings(&["1", "2", "tag repetido"]);
    let expected_site2 = strings(&["3", "4", "tag repetido"]);
    let mut result_data = sample_report();
    process_totals(&mut result_data);
    assert_same_elements(&expected_site1, &site(&result_data, "site1").unwrap().chatty_tags);
    assert_same_elements(&expected_site2, &site(&result_data, "site2").unwrap().chatty_tags);
}

#[test]
fn total_chatty_tags_test() {
    let expected = strings(&["1", "2", "3", "4", "tag repetido"]);
    let mut result_data = sample_report();
    process_totals(&mut result_data);
    assert_same_elements(&expected, &result_data.totals.chatty_tags);
}

#[test]
fn total_chatty_sites_test() {
    let expected = strings(&["site1", "site2"]);
    let mut result_data = sample_report();
    process_totals(&mut result_data);
    assert_same_elements(&expected, &result_data.totals.chatty_sites);
}
