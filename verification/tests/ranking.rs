use fuzzy_matcher::skim::SkimMatcherV2;
use fuzzy_matcher::FuzzyMatcher;
use system_index::matcher::MATCH_LIMIT;
use system_index::ranking::{match_score, rank, rank_scores, score_all};
use system_index::IndexEntry;

fn entries_named(names: &[&str]) -> Vec<IndexEntry> {
    let mut entries: Vec<IndexEntry> = Vec::new();
    for name in names {
        entries.push(IndexEntry::new(format!("/data/{}", name), name.to_string()));
    }
    entries
}

fn names_of(entries: &[IndexEntry]) -> Vec<String> {
    let mut names: Vec<String> = Vec::new();
    for entry in entries {
        names.push(entry.name().to_string());
    }
    names
}

#[test]
fn empty_query_scores_zero_for_every_name() {
    assert_eq!(match_score("alpha.txt", ""), Some(0));
    assert_eq!(match_score("", ""), Some(0));
    assert_eq!(match_score("日本語.txt", ""), Some(0));
}

#[test]
fn empty_query_scores_zero_even_for_an_overlong_name() {
    let name: String = "a".repeat(MATCH_LIMIT + 1);
    assert_eq!(match_score(&name, ""), Some(0));
}

#[test]
fn query_without_match_has_no_score() {
    assert_eq!(match_score("alpha.txt", "zzz_no_such_token"), None);
    assert_eq!(match_score("", "a"), None);
    assert_eq!(match_score("abc", "abx"), None);
    assert_eq!(match_score("other.pdf", "rep"), None);
}

#[test]
fn score_is_the_skim_score() {
    let pairs: [(&str, &str); 6] = [
        ("report.pdf", "rep"),
        ("rep.txt", "rep"),
        ("axbycz", "abc"),
        ("CamelCase", "CC"),
        ("Hello, 世界", "H世"),
        ("src/main.rs", "smr"),
    ];
    for (name, query) in pairs {
        let expected: Option<i64> = SkimMatcherV2::default().fuzzy_match(name, query);
        assert!(expected.is_some());
        assert_eq!(match_score(name, query), expected);
    }
}

#[test]
fn score_of_a_prefix_match_is_exact() {
    assert_eq!(match_score("rep.txt", "rep"), Some(71));
    assert_eq!(match_score("report.pdf", "rep"), Some(71));
    assert_eq!(match_score("aab", "a"), Some(31));
}

#[test]
fn score_does_not_echo_an_argument() {
    let score: Option<i64> = match_score("ab", "ab");
    assert!(score.is_some());
    assert!(score.unwrap() > 0);
    assert_ne!(match_score("ab", "ab"), match_score("a_b", "ab"));
}

#[test]
fn tight_match_scores_above_loose_match() {
    let tight: i64 = match_score("abc", "abc").unwrap();
    let loose: i64 = match_score("a_x_b_x_c", "abc").unwrap();
    assert!(tight > loose);
}

#[test]
fn match_at_the_start_scores_above_match_further_in() {
    let start: i64 = match_score("report", "rep").unwrap();
    let inner: i64 = match_score("xxreport", "rep").unwrap();
    assert!(start > inner);
}

#[test]
fn score_is_the_same_on_every_call() {
    let first: Option<i64> = match_score("aab", "a");
    let _ = match_score("a_very_long_name_of_another_kind.txt", "avl");
    let _ = match_score("aaaaaaaaaaaaaaaaaaaaaaaa", "aaaa");
    let second: Option<i64> = match_score("aab", "a");
    assert_eq!(first, second);
    let third: Option<i64> = match_score("aab", "a");
    assert_eq!(first, third);
}

#[test]
fn score_does_not_depend_on_earlier_calls() {
    assert_eq!(match_score("aaAa//", "aaa"), Some(71));
    let _ = match_score("bA//bba", "ab");
    let _ = match_score("AAa.A//a", "aaa");
    assert_eq!(match_score("aaAa//", "aaa"), Some(71));
    assert_eq!(match_score("AAAb", "aaa"), Some(65));
    let _ = match_score("/aa//bbb", "bbb");
    assert_eq!(match_score("babbA/ab", "bbb"), Some(63));
}

#[test]
fn names_outside_ascii_are_scored() {
    assert!(match_score("résumé.pdf", "sum").is_some());
    assert!(match_score("日本語のファイル.txt", "本のtxt").is_some());
    assert_eq!(match_score("日本語.txt", "中"), None);
    assert!(match_score("🦀.rs", "🦀").is_some());
}

#[test]
fn name_at_the_limit_is_scored() {
    let name: String = "a".repeat(MATCH_LIMIT);
    assert!(match_score(&name, "a").is_some());
}

#[test]
fn name_beyond_the_limit_matches_nothing() {
    let name: String = "a".repeat(MATCH_LIMIT + 1);
    assert_eq!(match_score(&name, "a"), None);
}

#[test]
fn query_beyond_the_limit_matches_nothing() {
    let query: String = "a".repeat(MATCH_LIMIT + 1);
    let name: String = "a".repeat(MATCH_LIMIT);
    assert_eq!(match_score(&name, &query), None);
    assert_eq!(match_score("a", &query), None);
}

#[test]
fn limit_counts_characters_not_bytes() {
    let name: String = "é".repeat(MATCH_LIMIT);
    assert!(name.len() > MATCH_LIMIT);
    assert!(match_score(&name, "é").is_some());
}

#[test]
fn match_limit_is_as_documented() {
    assert_eq!(MATCH_LIMIT, 65_536);
}

#[test]
fn score_all_scores_by_position() {
    let entries: Vec<IndexEntry> = entries_named(&["report.pdf", "other.pdf", "rep.txt"]);
    let scores: Vec<Option<i64>> = score_all(&entries, "rep");
    assert_eq!(scores.len(), 3);
    assert_eq!(scores[0], match_score("report.pdf", "rep"));
    assert_eq!(scores[1], None);
    assert_eq!(scores[2], match_score("rep.txt", "rep"));
}

#[test]
fn score_all_reads_the_name_not_the_path() {
    let mut entries: Vec<IndexEntry> = Vec::new();
    entries.push(IndexEntry::new("/rep/rep/rep".to_string(), "other.pdf".to_string()));
    let scores: Vec<Option<i64>> = score_all(&entries, "rep");
    assert_eq!(scores, vec![None]);
}

#[test]
fn rank_scores_puts_the_higher_score_first() {
    let scores: Vec<Option<i64>> = vec![Some(3), None, Some(5), Some(4)];
    assert_eq!(rank_scores(&scores), vec![2, 3, 0]);
}

#[test]
fn rank_scores_keeps_equal_scores_in_place() {
    let scores: Vec<Option<i64>> = vec![Some(3), None, Some(5), Some(3), Some(5), Some(3)];
    assert_eq!(rank_scores(&scores), vec![2, 4, 0, 3, 5]);
}

#[test]
fn rank_scores_of_nothing_is_empty() {
    let scores: Vec<Option<i64>> = Vec::new();
    assert_eq!(rank_scores(&scores), Vec::<usize>::new());
}

#[test]
fn rank_scores_without_a_score_is_empty() {
    let scores: Vec<Option<i64>> = vec![None, None, None];
    assert_eq!(rank_scores(&scores), Vec::<usize>::new());
}

#[test]
fn rank_scores_of_one_score() {
    assert_eq!(rank_scores(&vec![Some(7)]), vec![0]);
    assert_eq!(rank_scores(&vec![None, Some(7)]), vec![1]);
}

#[test]
fn rank_scores_orders_the_ends_of_the_range() {
    let scores: Vec<Option<i64>> =
        vec![Some(i64::MIN), Some(0), Some(i64::MAX), Some(-1), Some(i64::MIN)];
    assert_eq!(rank_scores(&scores), vec![2, 1, 3, 0, 4]);
}

#[test]
fn rank_scores_reverses_a_rising_run() {
    let mut scores: Vec<Option<i64>> = Vec::new();
    let mut s: i64 = 0;
    while s < 1000 {
        scores.push(Some(s));
        s += 1;
    }
    let order: Vec<usize> = rank_scores(&scores);
    assert_eq!(order.len(), 1000);
    let mut k: usize = 0;
    while k < 1000 {
        assert_eq!(order[k], 999 - k);
        k += 1;
    }
}

#[test]
fn rank_scores_agrees_with_a_stable_sort() {
    let mut scores: Vec<Option<i64>> = Vec::new();
    let mut seed: u64 = 12345;
    let mut n: usize = 0;
    while n < 5000 {
        seed = seed.wrapping_mul(6364136223846793005).wrapping_add(1442695040888963407);
        let draw: u64 = (seed >> 33) % 40;
        if draw < 10 {
            scores.push(None);
        } else {
            scores.push(Some(draw as i64 - 20));
        }
        n += 1;
    }
    let mut expected: Vec<(i64, usize)> = Vec::new();
    for (at, score) in scores.iter().enumerate() {
        if let Some(value) = score {
            expected.push((*value, at));
        }
    }
    expected.sort_by(|a, b| b.0.cmp(&a.0));
    let expected_order: Vec<usize> = expected.iter().map(|pair| pair.1).collect();
    assert_eq!(rank_scores(&scores), expected_order);
}

#[test]
fn ranking_filter_on_two_entries() {
    let entries: Vec<IndexEntry> = entries_named(&["alpha.txt", "beta.log"]);
    let none: Vec<IndexEntry> = rank(&entries, "zzz_no_such_token");
    assert!(none.is_empty());
    let all: Vec<IndexEntry> = rank(&entries, "");
    assert_eq!(names_of(&all), vec!["alpha.txt".to_string(), "beta.log".to_string()]);
}

#[test]
fn ranking_order_for_rep() {
    let entries: Vec<IndexEntry> = entries_named(&["report.pdf", "rep.txt", "other.pdf"]);
    let found: Vec<IndexEntry> = rank(&entries, "rep");
    let names: Vec<String> = names_of(&found);
    assert_eq!(names.len(), 2);
    assert!(names.contains(&"report.pdf".to_string()));
    assert!(names.contains(&"rep.txt".to_string()));
    assert!(!names.contains(&"other.pdf".to_string()));
    let exact: i64 = match_score("rep.txt", "rep").unwrap();
    let looser: i64 = match_score("report.pdf", "rep").unwrap();
    assert!(exact >= looser);
}

#[test]
fn rank_puts_the_better_match_first() {
    let entries: Vec<IndexEntry> = entries_named(&["a_x_b_x_c", "zzz", "abc", "xxabc"]);
    let found: Vec<IndexEntry> = rank(&entries, "abc");
    let names: Vec<String> = names_of(&found);
    assert_eq!(names.len(), 3);
    assert_eq!(names[0], "abc");
    let mut k: usize = 1;
    while k < names.len() {
        let above: i64 = match_score(&names[k - 1], "abc").unwrap();
        let below: i64 = match_score(&names[k], "abc").unwrap();
        assert!(above >= below);
        k += 1;
    }
}

#[test]
fn rank_keeps_equal_matches_in_discovery_order() {
    let mut entries: Vec<IndexEntry> = Vec::new();
    entries.push(IndexEntry::new("/first/notes.txt".to_string(), "notes.txt".to_string()));
    entries.push(IndexEntry::new("/second/notes.txt".to_string(), "notes.txt".to_string()));
    entries.push(IndexEntry::new("/third/notes.txt".to_string(), "notes.txt".to_string()));
    let found: Vec<IndexEntry> = rank(&entries, "notes");
    assert_eq!(found.len(), 3);
    assert_eq!(found[0].path(), "/first/notes.txt");
    assert_eq!(found[1].path(), "/second/notes.txt");
    assert_eq!(found[2].path(), "/third/notes.txt");
}

#[test]
fn rank_returns_all_matches_without_a_cap() {
    let mut entries: Vec<IndexEntry> = Vec::new();
    let mut n: usize = 0;
    while n < 3000 {
        entries.push(IndexEntry::new(format!("/data/file{}.txt", n), format!("file{}.txt", n)));
        n += 1;
    }
    let found: Vec<IndexEntry> = rank(&entries, "file");
    assert_eq!(found.len(), 3000);
}

#[test]
fn rank_leaves_its_input_as_it_was() {
    let entries: Vec<IndexEntry> = entries_named(&["b.txt", "a.txt"]);
    let _ = rank(&entries, "a");
    assert_eq!(names_of(&entries), vec!["b.txt".to_string(), "a.txt".to_string()]);
}

#[test]
fn rank_of_nothing_is_empty() {
    let entries: Vec<IndexEntry> = Vec::new();
    assert!(rank(&entries, "").is_empty());
    assert!(rank(&entries, "a").is_empty());
}

#[test]
fn rank_copies_path_name_and_metadata() {
    let entries: Vec<IndexEntry> = entries_named(&["alpha.txt"]);
    let found: Vec<IndexEntry> = rank(&entries, "alp");
    assert_eq!(found.len(), 1);
    assert_eq!(found[0].path(), "/data/alpha.txt");
    assert_eq!(found[0].name(), "alpha.txt");
    assert!(found[0].metadata().is_empty());
}
