use deleted_user_analyzer::analysis::{aggregate, analyze, analyze_author, AuthorAnalysis};
use deleted_user_analyzer::frequency::{most_common_words, word_frequency};
use deleted_user_analyzer::grouping::{dedup_by_content, group_by_author};
use deleted_user_analyzer::message::{
    filter_relevant, holds_deleted_phrase, mentions_deleted_user, Message,
};

fn msg(id: &str, content: &str, author: &str, name: Option<&str>, nick: Option<&str>) -> Message {
    Message {
        message_id: id.to_string(),
        content: content.to_string(),
        timestamp: "2021-01-01T00:00:00".to_string(),
        author_name: format!("{} name", author),
        author_nickname: format!("{} nick", author),
        author_id: author.to_string(),
        mentioned_user_name: name.map(|s| s.to_string()),
        mentioned_user_nickname: nick.map(|s| s.to_string()),
    }
}

fn pairs(v: &[(&str, usize)]) -> Vec<(String, usize)> {
    v.iter().map(|(w, c)| (w.to_string(), *c)).collect()
}

#[test]
fn relevance_matches_name_ignoring_case() {
    assert!(mentions_deleted_user(&msg("1", "x", "a", Some("Deleted User#0001"), None)));
    assert!(mentions_deleted_user(&msg("1", "x", "a", Some("xxDELETED USERxx"), None)));
}

#[test]
fn relevance_matches_nickname() {
    assert!(mentions_deleted_user(&msg("1", "x", "a", Some("alice"), Some("deleted user"))));
}

#[test]
fn relevance_rejects_absent_and_other_names() {
    assert!(!mentions_deleted_user(&msg("1", "x", "a", None, None)));
    assert!(!mentions_deleted_user(&msg("1", "x", "a", Some("deleted_user"), Some("Deleted"))));
    assert!(!mentions_deleted_user(&msg("1", "x", "a", Some("user deleted"), None)));
}

#[test]
fn filter_keeps_order_of_relevant_messages() {
    let msgs = vec![
        msg("1", "a", "x", Some("Deleted User"), None),
        msg("2", "b", "x", Some("bob"), None),
        msg("3", "c", "y", None, Some("deleted user 2")),
    ];
    let kept = filter_relevant(msgs);
    let ids: Vec<&str> = kept.iter().map(|m| m.message_id.as_str()).collect();
    assert_eq!(ids, vec!["1", "3"]);
}

#[test]
fn grouping_by_author_in_first_appearance_order() {
    let msgs = vec![
        msg("1", "a", "x", None, None),
        msg("2", "b", "y", None, None),
        msg("3", "c", "x", None, None),
    ];
    let groups = group_by_author(msgs);
    assert_eq!(groups.len(), 2);
    assert_eq!(groups[0].0, "x");
    let xs: Vec<&str> = groups[0].1.iter().map(|m| m.message_id.as_str()).collect();
    assert_eq!(xs, vec!["1", "3"]);
    assert_eq!(groups[1].0, "y");
    assert_eq!(groups[1].1.len(), 1);
}

#[test]
fn dedup_leaves_distinct_sorted_contents_and_is_idempotent() {
    let msgs = vec![
        msg("1", "zeta", "x", None, None),
        msg("2", "alpha", "x", None, None),
        msg("3", "zeta", "x", None, None),
        msg("4", "beta", "x", None, None),
    ];
    let once = dedup_by_content(msgs);
    let contents: Vec<&str> = once.iter().map(|m| m.content.as_str()).collect();
    assert_eq!(contents, vec!["alpha", "beta", "zeta"]);
    let twice = dedup_by_content(once.clone());
    let ids1: Vec<&str> = once.iter().map(|m| m.message_id.as_str()).collect();
    let ids2: Vec<&str> = twice.iter().map(|m| m.message_id.as_str()).collect();
    assert_eq!(ids1, ids2);
}

#[test]
fn dedup_of_nothing_is_nothing() {
    assert!(dedup_by_content(Vec::new()).is_empty());
}

#[test]
fn word_frequency_counts_every_occurrence() {
    let msgs = vec![
        msg("1", "apple banana apple", "x", None, None),
        msg("2", "Banana cherry", "x", None, None),
    ];
    let table = word_frequency(&msgs, 3);
    assert_eq!(table, pairs(&[("apple", 2), ("banana", 2), ("cherry", 1)]));
}

#[test]
fn most_common_words_orders_by_count_then_word() {
    let table = pairs(&[("apple", 2), ("banana", 3), ("cherry", 2), ("date", 1)]);
    let top = most_common_words(&table);
    assert_eq!(top, pairs(&[("banana", 3), ("apple", 2), ("cherry", 2), ("date", 1)]));
}

#[test]
fn most_common_words_keeps_ten() {
    let words = ["aa", "bb", "cc", "dd", "ee", "ff", "gg", "hh", "ii", "jj", "kk", "ll"];
    let table: Vec<(String, usize)> = words.iter().map(|w| (w.to_string(), 1)).collect();
    let top = most_common_words(&table);
    assert_eq!(top.len(), 10);
    assert_eq!(top[0].0, "aa");
    assert_eq!(top[9].0, "jj");
    assert!(most_common_words(&Vec::new()).is_empty());
}

#[test]
fn analyze_author_counts_and_names() {
    let msgs = vec![msg("1", "hello hello world", "x", None, None)];
    let a = analyze_author("x".to_string(), msgs, 3);
    assert_eq!(a.author_id, "x");
    assert_eq!(a.author_name, "x name");
    assert_eq!(a.author_nickname, "x nick");
    assert_eq!(a.total_messages_to_deleted_user, 1);
    assert_eq!(a.unique_message_count, 1);
    assert_eq!(a.word_frequency, pairs(&[("hello", 2), ("world", 1)]));
    assert_eq!(a.most_common_words, pairs(&[("hello", 2), ("world", 1)]));
}

fn author(id: &str, n: usize, table: &[(&str, usize)]) -> AuthorAnalysis {
    AuthorAnalysis {
        author_id: id.to_string(),
        author_name: id.to_string(),
        author_nickname: id.to_string(),
        total_messages_to_deleted_user: n,
        unique_message_count: n,
        word_frequency: pairs(table),
        most_common_words: Vec::new(),
    }
}

#[test]
fn aggregate_sums_over_authors() {
    let a = author("a", 2, &[("apple", 2), ("pear", 1)]);
    let b = author("b", 3, &[("apple", 5), ("zebra", 4)]);
    let r = aggregate(vec![a, b]).unwrap();
    assert_eq!(r.total_messages, 5);
    assert_eq!(r.messages_to_deleted_users, 5);
    assert_eq!(r.unique_authors, 2);
    assert_eq!(r.authors_analysis.len(), 2);
    assert_eq!(r.global_word_frequency, pairs(&[("apple", 7), ("pear", 1), ("zebra", 4)]));
}

#[test]
fn aggregate_reports_overflow() {
    let a = author("a", 1, &[("apple", usize::MAX)]);
    let b = author("b", 1, &[("apple", 1)]);
    assert!(aggregate(vec![a, b]).is_none());
    let c = author("c", usize::MAX, &[]);
    let d = author("d", 1, &[]);
    assert!(aggregate(vec![c, d]).is_none());
}

#[test]
fn end_to_end_duplicates_count_once() {
    let msgs = vec![
        msg("m1", "Where did you go?", "A1", Some("Deleted User#0001"), None),
        msg("m2", "Where did you go?", "A1", Some("Deleted User#0001"), None),
        msg("m3", "Hi there friend", "A1", Some("alive_user"), None),
    ];
    let r = analyze(msgs, 3).unwrap();
    assert_eq!(r.unique_authors, 1);
    assert_eq!(r.authors_analysis[0].author_id, "A1");
    assert_eq!(r.authors_analysis[0].total_messages_to_deleted_user, 1);
    assert_eq!(r.authors_analysis[0].unique_message_count, 1);
    assert_eq!(r.total_messages, 1);
    assert_eq!(r.messages_to_deleted_users, 1);
    assert_eq!(r.global_word_frequency, pairs(&[("did", 1), ("where", 1), ("you", 1)]));
}

#[test]
fn empty_input_gives_empty_result() {
    let r = analyze(Vec::new(), 3).unwrap();
    assert_eq!(r.total_messages, 0);
    assert_eq!(r.messages_to_deleted_users, 0);
    assert_eq!(r.unique_authors, 0);
    assert!(r.authors_analysis.is_empty());
    assert!(r.global_word_frequency.is_empty());
}

#[test]
fn global_frequency_is_sum_of_author_tables() {
    let msgs = vec![
        msg("1", "red blue red", "a", Some("deleted user"), None),
        msg("2", "blue green", "b", None, Some("Deleted User")),
        msg("3", "red", "b", None, Some("Deleted User")),
    ];
    let r = analyze(msgs, 3).unwrap();
    assert_eq!(r.unique_authors, 2);
    let words = ["red", "blue", "green", "pink"];
    for w in words {
        let global = r
            .global_word_frequency
            .iter()
            .find(|(k, _)| k == w)
            .map_or(0, |(_, c)| *c);
        let sum: usize = r
            .authors_analysis
            .iter()
            .map(|a| a.word_frequency.iter().find(|(k, _)| k == w).map_or(0, |(_, c)| *c))
            .sum();
        assert_eq!(global, sum);
    }
    assert_eq!(r.global_word_frequency, pairs(&[("blue", 2), ("green", 1), ("red", 3)]));
    let total: usize = r.authors_analysis.iter().map(|a| a.total_messages_to_deleted_user).sum();
    assert_eq!(r.total_messages, total);
}

#[test]
fn phrase_test_on_lowered_names() {
    assert!(holds_deleted_phrase("xdeleted user#1"));
    assert!(!holds_deleted_phrase("Deleted User"));
    assert!(!holds_deleted_phrase("deleted"));
    assert!(!holds_deleted_phrase(""));
}
