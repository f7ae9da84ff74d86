use pii_redactor::detect::{detect_emails, detect_files, entities_from_spans};

#[test]
fn test_detect_unc_path() {
    let text = r"Open \\server\share\docs\report.docx please";
    let entities = detect_files(text);
    assert_eq!(entities.len(), 1);
    assert_eq!(entities[0].original, r"\\server\share\docs\report.docx");
    assert_eq!(entities[0].entity_type, "file");
}

#[test]
fn test_detect_windows_drive_path() {
    let text = r"See C:\Users\Bob\Documents\secrets.docx for details";
    let entities = detect_files(text);
    assert_eq!(entities.len(), 1);
    assert_eq!(entities[0].original, r"C:\Users\Bob\Documents\secrets.docx");
}

#[test]
fn test_detect_home_relative_path() {
    let text = "Config is at ~/documents/report.pdf here";
    let entities = detect_files(text);
    assert_eq!(entities.len(), 1);
    assert_eq!(entities[0].original, "~/documents/report.pdf");
}

#[test]
fn test_detect_relative_dot_path() {
    let text = "Run ./config.yml and ../data/file.csv";
    let entities = detect_files(text);
    assert_eq!(entities.len(), 2);
    assert_eq!(entities[0].original, "./config.yml");
    assert_eq!(entities[1].original, "../data/file.csv");
}

#[test]
fn test_detect_unix_absolute_path() {
    let text = "The file /home/alice/Documents/report.pdf is ready";
    let entities = detect_files(text);
    assert_eq!(entities.len(), 1);
    assert_eq!(entities[0].original, "/home/alice/Documents/report.pdf");
}

#[test]
fn test_no_match_plain_text() {
    let text = "This is just regular text with no file paths and/or other things.";
    let entities = detect_files(text);
    assert_eq!(entities.len(), 0);
}

#[test]
fn test_no_match_single_segment() {
    let text = "Check /etc for config";
    let entities = detect_files(text);
    assert_eq!(entities.len(), 0);
}

#[test]
fn test_byte_offset_correctness() {
    let text = "path: /home/user/file.txt end";
    let entities = detect_files(text);
    assert_eq!(entities.len(), 1);
    assert_eq!(entities[0].start, 6);
    assert_eq!(entities[0].end, 25);
    assert_eq!(&text[entities[0].start..entities[0].end], "/home/user/file.txt");
}

#[test]
fn test_multiple_paths_in_text() {
    let text = r"Copy /home/alice/doc.txt to C:\Users\Bob\doc.txt";
    let entities = detect_files(text);
    assert_eq!(entities.len(), 2);
    assert_eq!(entities[0].original, "/home/alice/doc.txt");
    assert_eq!(entities[1].original, r"C:\Users\Bob\doc.txt");
}

#[test]
fn multiple_paths_are_files_in_order() {
    let text = r"Copy /home/alice/doc.txt to C:\Users\Bob\doc.txt";
    let entities = detect_files(text);
    assert_eq!(entities.len(), 2);
    assert_eq!(entities[0].entity_type, "file");
    assert_eq!(entities[1].entity_type, "file");
    assert!(entities[0].start < entities[1].start);
}

#[test]
fn email_offsets_and_text() {
    let text = "mail alice.b@example.com now";
    let entities = detect_emails(text);
    assert_eq!(entities.len(), 1);
    assert_eq!(entities[0].entity_type, "email");
    assert_eq!(entities[0].start, 5);
    assert_eq!(entities[0].end, 24);
    assert_eq!(entities[0].original, "alice.b@example.com");
}

#[test]
fn email_offsets_are_bytes_after_multibyte_text() {
    let text = "héllo x@y.org";
    let entities = detect_emails(text);
    assert_eq!(entities.len(), 1);
    assert_eq!(entities[0].start, 7);
    assert_eq!(entities[0].end, 14);
    assert_eq!(&text[7..14], "x@y.org");
}

#[test]
fn email_needs_two_letter_domain() {
    assert_eq!(detect_emails("a@b.c").len(), 0);
    assert_eq!(detect_emails("").len(), 0);
}

#[test]
fn two_emails_in_order() {
    let entities = detect_emails("a@b.io, c@d.net");
    assert_eq!(entities.len(), 2);
    assert_eq!(entities[0].original, "a@b.io");
    assert_eq!(entities[1].original, "c@d.net");
}

#[test]
fn spans_become_entities_with_their_text() {
    let text = "ab€cd";
    let spans = vec![(0usize, 2usize), (2, 5)];
    let entities = entities_from_spans(text, &spans, "file");
    assert_eq!(entities.len(), 2);
    assert_eq!(entities[0].original, "ab");
    assert_eq!(entities[1].original, "€");
    assert_eq!(entities[1].entity_type, "file");
    assert_eq!(entities[1].start, 2);
    assert_eq!(entities[1].end, 5);
}
