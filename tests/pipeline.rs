use pii_redactor::entity::PiiEntity;
use pii_redactor::names::{detect_names, locate_name, locate_words, select_payload};
use pii_redactor::pipeline::redact;
use pii_redactor::reconcile::{reconcile, sort_entities};
use pii_redactor::rewrite::rewrite;

fn ent(kind: &str, start: usize, end: usize) -> PiiEntity {
    PiiEntity::new(kind.to_string(), start, end, String::new())
}

fn names(list: &[&str]) -> Result<Vec<String>, String> {
    Ok(list.iter().map(|s| s.to_string()).collect())
}

#[test]
fn empty_text_is_unchanged() {
    assert_eq!(redact("", names(&[])).unwrap(), "");
    assert_eq!(redact("", Err("down".to_string())).unwrap(), "");
}

#[test]
fn text_without_pii_is_unchanged() {
    let text = "Nothing to see here, move along.";
    assert_eq!(redact(text, names(&[])).unwrap(), text);
}

#[test]
fn email_is_replaced() {
    let out = redact("write to bob@example.org today", names(&[])).unwrap();
    assert_eq!(out, "write to [REDACTED-email] today");
    assert!(!out.contains("bob@example.org"));
}

#[test]
fn unreachable_name_service_still_redacts_patterns() {
    let text = "bob@example.org keeps /home/bob/notes.txt";
    let out = redact(text, Err("connection refused".to_string())).unwrap();
    assert_eq!(out, "[REDACTED-email] keeps [REDACTED-file]");
}

#[test]
fn names_are_replaced_with_placeholders() {
    let text = "Alice met Bob and Alice again";
    let out = redact(text, names(&["Alice", "Bob"])).unwrap();
    assert_eq!(out, "[REDACTED-name] met [REDACTED-name] and [REDACTED-name] again");
}

#[test]
fn full_name_falls_back_to_words() {
    let text = r#"{"firstName": "Dasia", "lastName": "Turner"}"#;
    let found = locate_name(text, "Dasia Turner");
    assert_eq!(found.len(), 2);
    assert_eq!(found[0].original, "Dasia");
    assert_eq!(found[0].entity_type, "name");
    assert_eq!(&text[found[0].start..found[0].end], "Dasia");
    assert_eq!(found[1].original, "Turner");
    assert_eq!(&text[found[1].start..found[1].end], "Turner");
    let out = redact(text, names(&["Dasia Turner"])).unwrap();
    assert_eq!(out, r#"{"firstName": "[REDACTED-name]", "lastName": "[REDACTED-name]"}"#);
}

#[test]
fn full_name_found_needs_no_fallback() {
    let text = "Dasia Turner and Turner";
    let found = locate_name(text, "Dasia Turner");
    assert_eq!(found.len(), 1);
    assert_eq!(found[0].start, 0);
    assert_eq!(found[0].end, 12);
}

#[test]
fn single_word_name_not_found_gives_nothing() {
    assert_eq!(locate_name("nobody here", "Zed").len(), 0);
    assert_eq!(locate_name("nobody here", "").len(), 0);
}

#[test]
fn occurrences_do_not_overlap() {
    let found = locate_words("aaaa", &vec!["aa".to_string()]);
    assert_eq!(found.len(), 2);
    assert_eq!((found[0].start, found[0].end), (0, 2));
    assert_eq!((found[1].start, found[1].end), (2, 4));
}

#[test]
fn names_are_located_in_order_of_names() {
    let found = detect_names("Bo and Al", &vec!["Al".to_string(), "Bo".to_string()]);
    assert_eq!(found.len(), 2);
    assert_eq!(found[0].start, 7);
    assert_eq!(found[1].start, 0);
}

#[test]
fn reconcile_sorts_and_keeps_leftmost() {
    let kept = reconcile(vec![ent("name", 5, 9), ent("email", 0, 6), ent("file", 9, 12)]);
    assert_eq!(kept.len(), 2);
    assert_eq!(kept[0].entity_type, "email");
    assert_eq!(kept[1].entity_type, "file");
    for w in kept.windows(2) {
        assert!(w[0].end <= w[1].start);
    }
}

#[test]
fn equal_starts_keep_given_order() {
    let sorted = sort_entities(vec![ent("b", 3, 4), ent("x", 1, 2), ent("a", 3, 5)]);
    let kinds: Vec<&str> = sorted.iter().map(|e| e.entity_type.as_str()).collect();
    assert_eq!(kinds, vec!["x", "b", "a"]);
    let kept = reconcile(vec![ent("email", 2, 8), ent("name", 2, 4)]);
    assert_eq!(kept.len(), 1);
    assert_eq!(kept[0].entity_type, "email");
}

#[test]
fn rewrite_replaces_spans() {
    let out = rewrite("hello world", &vec![ent("name", 0, 5), ent("file", 6, 11)]).unwrap();
    assert_eq!(out, "[REDACTED-name] [REDACTED-file]");
    assert_eq!(rewrite("abc", &vec![]).unwrap(), "abc");
}

#[test]
fn rewrite_rejects_spans_that_do_not_fit() {
    assert!(rewrite("abc", &vec![ent("name", 1, 9)]).is_err());
    assert!(rewrite("€", &vec![ent("name", 1, 3)]).is_err());
    assert!(rewrite("abcdef", &vec![ent("name", 2, 5), ent("name", 3, 4)]).is_err());
}

#[test]
fn placeholders_have_the_expected_shape() {
    let out = redact("x@y.org and /a/b by Ann", names(&["Ann"])).unwrap();
    assert_eq!(out, "[REDACTED-email] and [REDACTED-file] by [REDACTED-name]");
    assert_eq!(ent("email", 0, 1).placeholder_text(), "[REDACTED-email]");
}

#[test]
fn payload_prefers_primary_field() {
    assert_eq!(select_payload("{\"names\":[]}".to_string(), Some("t".to_string())), "{\"names\":[]}");
    assert_eq!(select_payload(String::new(), Some("t".to_string())), "t");
    assert_eq!(select_payload(String::new(), None), "");
}
