use unsubscan::aggregate::aggregate;
use unsubscan::scan::UnsubscribeRecord;

fn record(sender: &str, url: &str, subject: &str, file: &str) -> UnsubscribeRecord {
    UnsubscribeRecord {
        sender_email: sender.to_string(),
        unsubscribe_url: url.to_string(),
        subject: subject.to_string(),
        source_file: file.to_string(),
    }
}

#[test]
fn grouping_is_exact() {
    let records = vec![
        record("x@a.com", "https://a.com/1", "s1", "f1.eml"),
        record("y@a.com", "https://a.com/2", "s2", "f2.eml"),
        record("z@b.com", "https://b.com/1", "s3", "f3.eml"),
    ];
    let groups = aggregate(&records);
    assert_eq!(groups.len(), 2);
    assert_eq!(groups[0].domain, "a.com");
    assert_eq!(groups[0].count, 2);
    assert_eq!(groups[0].records.len(), 2);
    assert_eq!(groups[0].records[0].sender_email, "x@a.com");
    assert_eq!(groups[0].records[1].sender_email, "y@a.com");
    assert_eq!(groups[1].domain, "b.com");
    assert_eq!(groups[1].count, 1);
    assert_eq!(groups[1].records[0].sender_email, "z@b.com");
}

#[test]
fn ranking_is_descending_by_count() {
    let mut records = Vec::new();
    for i in 0..2 {
        records.push(record("x@a.com", "https://a.com/u", "s", &format!("a{}.eml", i)));
    }
    for i in 0..5 {
        records.push(record("x@b.com", "https://b.com/u", "s", &format!("b{}.eml", i)));
    }
    records.push(record("x@c.com", "https://c.com/u", "s", "c0.eml"));
    let groups = aggregate(&records);
    let order: Vec<&str> = groups.iter().map(|g| g.domain.as_str()).collect();
    assert_eq!(order, vec!["b.com", "a.com", "c.com"]);
    assert_eq!(groups[0].count, 5);
    assert_eq!(groups[1].count, 2);
    assert_eq!(groups[2].count, 1);
}

#[test]
fn ties_keep_first_seen_order() {
    let records = vec![
        record("x@one.com", "https://one.com/u", "s", "1.eml"),
        record("x@two.com", "https://two.com/u", "s", "2.eml"),
        record("x@three.com", "https://three.com/u", "s", "3.eml"),
    ];
    let groups = aggregate(&records);
    let order: Vec<&str> = groups.iter().map(|g| g.domain.as_str()).collect();
    assert_eq!(order, vec!["one.com", "two.com", "three.com"]);
}

#[test]
fn record_without_at_is_excluded() {
    let records = vec![
        record("not-an-address", "https://a.com/u", "s", "1.eml"),
        record("x@a.com", "https://a.com/u", "s", "2.eml"),
    ];
    let groups = aggregate(&records);
    assert_eq!(groups.len(), 1);
    assert_eq!(groups[0].domain, "a.com");
    assert_eq!(groups[0].count, 1);
}

#[test]
fn domain_case_is_not_folded() {
    let records = vec![
        record("x@Example.com", "https://a.com/u", "s", "1.eml"),
        record("x@example.com", "https://a.com/u", "s", "2.eml"),
    ];
    let groups = aggregate(&records);
    assert_eq!(groups.len(), 2);
}

#[test]
fn multiple_ats_group_by_last() {
    let records = vec![
        record("x@y@c.com", "https://c.com/u", "s", "1.eml"),
        record("z@c.com", "https://c.com/u", "s", "2.eml"),
    ];
    let groups = aggregate(&records);
    assert_eq!(groups.len(), 1);
    assert_eq!(groups[0].domain, "c.com");
    assert_eq!(groups[0].count, 2);
}

#[test]
fn empty_input_gives_empty_output() {
    let records: Vec<UnsubscribeRecord> = Vec::new();
    let groups = aggregate(&records);
    assert!(groups.is_empty());
}
