use unsubscan::aggregate::aggregate;
use unsubscan::html::render_html;
use unsubscan::json::render_json;
use unsubscan::render::{dec_str, html_escape, json_escape};
use unsubscan::scan::{is_message_file, scan_message, UnsubscribeRecord};

fn record(sender: &str, url: &str, subject: &str, file: &str) -> UnsubscribeRecord {
    UnsubscribeRecord {
        sender_email: sender.to_string(),
        unsubscribe_url: url.to_string(),
        subject: subject.to_string(),
        source_file: file.to_string(),
    }
}

#[test]
fn decimal_rendering() {
    assert_eq!(dec_str(0), "0");
    assert_eq!(dec_str(7), "7");
    assert_eq!(dec_str(10), "10");
    assert_eq!(dec_str(9876), "9876");
}

#[test]
fn json_escaping() {
    assert_eq!(json_escape("plain"), "plain");
    assert_eq!(json_escape("a\"b"), "a\\\"b");
    assert_eq!(json_escape("a\\b"), "a\\\\b");
    assert_eq!(json_escape("a\nb\tc\rd"), "a\\nb\\tc\\rd");
    assert_eq!(json_escape("a\u{1}b"), "a\\u0001b");
    assert_eq!(json_escape(""), "");
}

#[test]
fn html_escaping() {
    assert_eq!(html_escape("plain"), "plain");
    assert_eq!(html_escape("a&b<c>d\"e'f"), "a&amp;b&lt;c&gt;d&quot;e&#39;f");
}

#[test]
fn json_exact_document() {
    let records = vec![record("x@a.com", "https://a.com/u", "Sale", "m.eml")];
    let groups = aggregate(&records);
    let out = render_json(&groups);
    let expected = "[\n  {\n    \"domain\": \"a.com\",\n    \"count\": 1,\n    \"records\": [\n      {\n        \"senderEmail\": \"x@a.com\",\n        \"unsubscribeUrl\": \"https://a.com/u\",\n        \"subject\": \"Sale\",\n        \"sourceFile\": \"m.eml\"\n      }\n    ]\n  }\n]";
    assert_eq!(out, expected);
}

#[test]
fn json_empty_document() {
    let groups = aggregate(&Vec::new());
    assert_eq!(render_json(&groups), "[]");
}

#[test]
fn json_round_trips_through_a_parser() {
    let records = vec![
        record("x@a.com", "https://a.com/1", "s \"quoted\"", "f1.eml"),
        record("y@a.com", "https://a.com/2", "s2", "f2.eml"),
        record("z@b.com", "https://b.com/1", "s3", "f3.eml"),
    ];
    let groups = aggregate(&records);
    let out = render_json(&groups);
    let parsed: serde_json::Value = serde_json::from_str(&out).expect("valid JSON");
    let arr = parsed.as_array().expect("top-level array");
    assert_eq!(arr.len(), groups.len());
    for (entry, group) in arr.iter().zip(groups.iter()) {
        assert_eq!(entry["domain"].as_str().unwrap(), group.domain);
        assert_eq!(entry["count"].as_u64().unwrap() as usize, group.count);
        let recs = entry["records"].as_array().unwrap();
        assert_eq!(recs.len(), group.records.len());
        for (jr, gr) in recs.iter().zip(group.records.iter()) {
            assert_eq!(jr["senderEmail"].as_str().unwrap(), gr.sender_email);
            assert_eq!(jr["unsubscribeUrl"].as_str().unwrap(), gr.unsubscribe_url);
            assert_eq!(jr["subject"].as_str().unwrap(), gr.subject);
            assert_eq!(jr["sourceFile"].as_str().unwrap(), gr.source_file);
        }
    }
}

#[test]
fn scan_twice_is_identical() {
    let messages = [
        ("From: a@one.example\nSubject: s1\nList-Unsubscribe: <https://one.example/u>\n", "1.eml"),
        ("From: b@two.example\nSubject: s2\nList-Unsubscribe: <https://two.example/u>\n", "2.eml"),
        ("From: c@one.example\nSubject: s3\nList-Unsubscribe: <https://one.example/v>\n", "3.eml"),
    ];
    let run = || {
        let mut records = Vec::new();
        for (content, name) in messages.iter() {
            if let Some(rec) = scan_message(content, name) {
                records.push(rec);
            }
        }
        render_json(&aggregate(&records))
    };
    let first = run();
    let second = run();
    assert_eq!(first, second);
}

#[test]
fn end_to_end_scenario() {
    let files = [
        ("one.eml", "From: news@shop.example\nSubject: Deal 1\nList-Unsubscribe: <https://shop.example/u1>\n"),
        ("two.eml", "From: news@shop.example\nSubject: Deal 2\nList-Unsubscribe: <https://shop.example/u2>\n"),
        ("three.eml", "From: x@other.example\nSubject: Hello\n"),
        ("notes.txt", "From: spam@bad.example\nSubject: s\nList-Unsubscribe: <https://bad.example/u>\n"),
    ];
    let mut records = Vec::new();
    for (name, content) in files.iter() {
        if !is_message_file(name) {
            continue;
        }
        if let Some(rec) = scan_message(content, name) {
            records.push(rec);
        }
    }
    let groups = aggregate(&records);
    assert_eq!(groups.len(), 1);
    assert_eq!(groups[0].domain, "shop.example");
    assert_eq!(groups[0].count, 2);
    let out = render_json(&groups);
    let parsed: serde_json::Value = serde_json::from_str(&out).unwrap();
    let arr = parsed.as_array().unwrap();
    assert_eq!(arr.len(), 1);
    assert_eq!(arr[0]["domain"].as_str().unwrap(), "shop.example");
    assert_eq!(arr[0]["count"].as_u64().unwrap(), 2);
    assert_eq!(arr[0]["records"].as_array().unwrap().len(), 2);
}

#[test]
fn html_lists_domains_in_ranked_order() {
    let records = vec![
        record("x@a.com", "https://a.com/u", "s", "1.eml"),
        record("x@b.com", "https://b.com/u", "s", "2.eml"),
        record("y@b.com", "https://b.com/v", "s", "3.eml"),
    ];
    let groups = aggregate(&records);
    let out = render_html(&groups);
    let b_pos = out.find("<b>b.com</b>").expect("b.com shown");
    let a_pos = out.find("<b>a.com</b>").expect("a.com shown");
    assert!(b_pos < a_pos);
    assert!(out.contains("<a href=\"https://b.com/u\">2.eml</a>"));
    assert!(out.contains("<a href=\"https://a.com/u\">1.eml</a>"));
    assert!(out.contains("2 emails"));
    assert!(out.starts_with("<!DOCTYPE html>"));
    assert!(out.contains("</html>"));
}

#[test]
fn html_escapes_interpolated_values() {
    let records = vec![record("x@a<b>.com", "https://a.com/u?x=1&y=2", "s", "1.eml")];
    let groups = aggregate(&records);
    let out = render_html(&groups);
    assert!(out.contains("https://a.com/u?x=1&amp;y=2"));
    assert!(!out.contains("<b>.com"));
}
