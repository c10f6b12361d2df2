use unsubscan::scan::{is_message_file, scan_message, strip_label};
use unsubscan::text::domain_of;

fn message(from: &str, subject: &str, unsub: &str) -> String {
    format!(
        "Return-Path: <bounce@x.example>\nFrom: {}\nSubject: {}\nList-Unsubscribe: {}\nContent-Type: text/plain\n\nHello there\n",
        from, subject, unsub
    )
}

#[test]
fn scan_full_message() {
    let content = message(
        "Shop News <news@shop.example>",
        "Big Sale!!!",
        "<https://shop.example/unsub>",
    );
    let rec = scan_message(&content, "mail1.eml").expect("record expected");
    assert_eq!(rec.sender_email, "news@shop.example");
    assert_eq!(rec.unsubscribe_url, "https://shop.example/unsub");
    assert_eq!(rec.subject, "Big Sale!!!");
    assert_eq!(rec.source_file, "mail1.eml");
}

#[test]
fn missing_from_yields_none() {
    let content = "Subject: hi\nList-Unsubscribe: <https://a.example/u>\n";
    assert!(scan_message(content, "a.eml").is_none());
}

#[test]
fn missing_subject_yields_none() {
    let content = "From: a@b.example\nList-Unsubscribe: <https://a.example/u>\n";
    assert!(scan_message(content, "a.eml").is_none());
}

#[test]
fn missing_unsubscribe_yields_none() {
    let content = "From: a@b.example\nSubject: hi\n";
    assert!(scan_message(content, "a.eml").is_none());
}

#[test]
fn from_without_email_yields_none() {
    let content = message("no address here", "hi", "<https://a.example/u>");
    assert!(scan_message(&content, "a.eml").is_none());
}

#[test]
fn unsubscribe_without_url_yields_none() {
    let content = message("a@b.example", "hi", "call us instead");
    assert!(scan_message(&content, "a.eml").is_none());
}

#[test]
fn subject_strips_label_and_whitespace() {
    let content = "From: a@b.example\nSubject:   Big Sale!!!\nList-Unsubscribe: <https://b.example/u>\n";
    let rec = scan_message(content, "a.eml").expect("record expected");
    assert_eq!(rec.subject, "Big Sale!!!");
}

#[test]
fn strip_label_exact() {
    assert_eq!(strip_label("Subject:   Big Sale!!!", "Subject: "), "Big Sale!!!");
    assert_eq!(strip_label("no label  ", "Subject: "), "no label");
    assert_eq!(strip_label("Subject: \t trimmed \t", "Subject: "), "trimmed");
}

#[test]
fn first_header_occurrence_wins() {
    let content = "From: first@one.example\nFrom: second@two.example\nSubject: a\nSubject: b\nList-Unsubscribe: <https://one.example/u>\n";
    let rec = scan_message(content, "a.eml").expect("record expected");
    assert_eq!(rec.sender_email, "first@one.example");
    assert_eq!(rec.subject, "a");
}

#[test]
fn header_match_is_case_sensitive() {
    let content = "from: a@b.example\nsubject: hi\nlist-unsubscribe: <https://b.example/u>\n";
    assert!(scan_message(content, "a.eml").is_none());
}

#[test]
fn detector_picks_address_not_whole_line() {
    let content = message("John Doe <john@a.example> (marketing)", "x", "text <https://a.example/u> more");
    let rec = scan_message(&content, "a.eml").expect("record expected");
    assert_eq!(rec.sender_email, "john@a.example");
    assert_eq!(rec.unsubscribe_url, "https://a.example/u");
}

#[test]
fn first_of_several_links_is_kept() {
    let content = message(
        "one@a.example or two@b.example",
        "x",
        "<https://a.example/u1> <https://b.example/u2>",
    );
    let rec = scan_message(&content, "a.eml").expect("record expected");
    assert_eq!(rec.sender_email, "one@a.example");
    assert_eq!(rec.unsubscribe_url, "https://a.example/u1");
}

#[test]
fn carriage_returns_are_handled() {
    let content = "From: a@b.example\r\nSubject: Hello\r\nList-Unsubscribe: <https://b.example/u>\r\n";
    let rec = scan_message(content, "a.eml").expect("record expected");
    assert_eq!(rec.sender_email, "a@b.example");
    assert_eq!(rec.unsubscribe_url, "https://b.example/u");
    assert_eq!(rec.subject, "Hello");
}

#[test]
fn message_file_names() {
    assert!(is_message_file("a.eml"));
    assert!(is_message_file(".eml"));
    assert!(is_message_file("dir.stuff.eml"));
    assert!(!is_message_file("a.txt"));
    assert!(!is_message_file("eml"));
    assert!(!is_message_file("a.EML"));
    assert!(!is_message_file(""));
}

#[test]
fn domain_after_last_at() {
    assert_eq!(domain_of("a@b.example"), Some("b.example".to_string()));
    assert_eq!(domain_of("a@b@c.example"), Some("c.example".to_string()));
    assert_eq!(domain_of("no-at-here"), None);
    assert_eq!(domain_of("trailing@"), Some("".to_string()));
}
