//! The structured export: the ranked groups as a pretty-printed JSON array.

use vstd::prelude::*;
use vstd::string::*;

use crate::aggregate::{
    lemma_aggregate_exact, lemma_matching_members, spec_aggregate, spec_matching, DomainGroup,
    GroupView,
};
use crate::text::{lemma_last_at_bounds, spec_domain, spec_last_at};
use crate::render::{
    dec_str, json_escape, json_text, lemma_dec_round_trip, lemma_json_escape_concat, spec_dec,
    spec_json_escape, spec_json_escape_char, spec_parse_dec,
};
use crate::scan::{RecordView, UnsubscribeRecord};

verus! {

/// One record as a JSON object, indented for its place in the document.
pub open spec fn spec_json_record(r: RecordView) -> Seq<char> {
    "      {\n        \"senderEmail\": \""@ + spec_json_escape(r.sender_email)
        + "\",\n        \"unsubscribeUrl\": \""@ + spec_json_escape(r.unsubscribe_url)
        + "\",\n        \"subject\": \""@ + spec_json_escape(r.subject)
        + "\",\n        \"sourceFile\": \""@ + spec_json_escape(r.source_file) + "\"\n      }"@
}

/// The first `i` records, joined with commas.
pub open spec fn spec_json_records(rs: Seq<RecordView>, i: int) -> Seq<char>
    decreases i,
{
    if i <= 0 {
        Seq::empty()
    } else if i == 1 {
        spec_json_record(rs[0])
    } else {
        spec_json_records(rs, i - 1) + ",\n"@ + spec_json_record(rs[i - 1])
    }
}

/// A group's record list as a JSON array.
pub open spec fn spec_json_records_block(rs: Seq<RecordView>) -> Seq<char> {
    if rs.len() == 0 {
        "[]"@
    } else {
        "[\n"@ + spec_json_records(rs, rs.len() as int) + "\n    ]"@
    }
}

/// One group as a JSON object.
pub open spec fn spec_json_group(g: GroupView) -> Seq<char> {
    "  {\n    \"domain\": \""@ + spec_json_escape(g.domain) + "\",\n    \"count\": "@ + spec_dec(
        g.count,
    ) + ",\n    \"records\": "@ + spec_json_records_block(g.records) + "\n  }"@
}

/// The first `i` groups, joined with commas.
pub open spec fn spec_json_groups(gs: Seq<GroupView>, i: int) -> Seq<char>
    decreases i,
{
    if i <= 0 {
        Seq::empty()
    } else if i == 1 {
        spec_json_group(gs[0])
    } else {
        spec_json_groups(gs, i - 1) + ",\n"@ + spec_json_group(gs[i - 1])
    }
}

/// The whole export: the ranked groups as a JSON array, in order.
pub open spec fn spec_render_json(gs: Seq<GroupView>) -> Seq<char> {
    if gs.len() == 0 {
        "[]"@
    } else {
        "[\n"@ + spec_json_groups(gs, gs.len() as int) + "\n]"@
    }
}

fn json_record(rec: &UnsubscribeRecord) -> (r: String)
    ensures
        r@ == spec_json_record(rec.deep_view()),
{
    let mut out = String::from_str("      {\n        \"senderEmail\": \"");
    out.append(json_escape(rec.sender_email.as_str()).as_str());
    out.append("\",\n        \"unsubscribeUrl\": \"");
    out.append(json_escape(rec.unsubscribe_url.as_str()).as_str());
    out.append("\",\n        \"subject\": \"");
    out.append(json_escape(rec.subject.as_str()).as_str());
    out.append("\",\n        \"sourceFile\": \"");
    out.append(json_escape(rec.source_file.as_str()).as_str());
    out.append("\"\n      }");
    out
}

fn json_records_block(records: &Vec<UnsubscribeRecord>) -> (r: String)
    ensures
        r@ == spec_json_records_block(records.deep_view()),
{
    let ghost rsv = records.deep_view();
    if records.len() == 0 {
        return String::from_str("[]");
    }
    let mut out = String::from_str("[\n");
    let mut i: usize = 0;
    while i < records.len()
        invariant
            0 <= i <= records.len(),
            records.len() > 0,
            rsv == records.deep_view(),
            rsv.len() == records.len(),
            i == 0 ==> out@ == "[\n"@,
            i > 0 ==> out@ == "[\n"@ + spec_json_records(rsv, i as int),
        decreases records.len() - i,
    {
        if i > 0 {
            out.append(",\n");
        }
        let piece = json_record(&records[i]);
        out.append(piece.as_str());
        proof {
            if i > 0 {
                assert(out@ =~= "[\n"@ + spec_json_records(rsv, i + 1));
            }
        }
        i = i + 1;
    }
    out.append("\n    ]");
    out
}

fn json_group(g: &DomainGroup) -> (r: String)
    ensures
        r@ == spec_json_group(g.deep_view()),
{
    let mut out = String::from_str("  {\n    \"domain\": \"");
    out.append(json_escape(g.domain.as_str()).as_str());
    out.append("\",\n    \"count\": ");
    out.append(dec_str(g.count).as_str());
    out.append(",\n    \"records\": ");
    out.append(json_records_block(&g.records).as_str());
    out.append("\n  }");
    out
}

/// Renders the ranked groups as a pretty-printed JSON array: one object per
/// group with its domain, count, and records, in ranked order.
pub fn render_json(groups: &Vec<DomainGroup>) -> (r: String)
    ensures
        r@ == spec_render_json(groups.deep_view()),
{
    let ghost gsv = groups.deep_view();
    if groups.len() == 0 {
        return String::from_str("[]");
    }
    let mut out = String::from_str("[\n");
    let mut i: usize = 0;
    while i < groups.len()
        invariant
            0 <= i <= groups.len(),
            groups.len() > 0,
            gsv == groups.deep_view(),
            gsv.len() == groups.len(),
            i == 0 ==> out@ == "[\n"@,
            i > 0 ==> out@ == "[\n"@ + spec_json_groups(gsv, i as int),
        decreases groups.len() - i,
    {
        if i > 0 {
            out.append(",\n");
        }
        let piece = json_group(&groups[i]);
        out.append(piece.as_str());
        proof {
            if i > 0 {
                assert(out@ =~= "[\n"@ + spec_json_groups(gsv, i + 1));
            }
        }
        i = i + 1;
    }
    out.append("\n]");
    out
}


/// Drops `lit` off the front of `s`, or fails when it does not stand there.
pub open spec fn spec_expect(s: Seq<char>, lit: Seq<char>) -> Option<Seq<char>> {
    if lit.len() <= s.len() && s.take(lit.len() as int) == lit {
        Some(s.skip(lit.len() as int))
    } else {
        None
    }
}

/// Reads a JSON string body up to and including its closing quote, undoing
/// the short escape forms; yields the text and what follows the quote.
pub open spec fn spec_take_string(s: Seq<char>) -> Option<(Seq<char>, Seq<char>)>
    decreases s.len(),
{
    if s.len() == 0 {
        None
    } else if s[0] == '"' {
        Some((Seq::empty(), s.skip(1)))
    } else if s[0] == '\\' {
        if s.len() >= 2 {
            let c = if s[1] == '"' {
                Some('"')
            } else if s[1] == '\\' {
                Some('\\')
            } else if s[1] == 'n' {
                Some('\n')
            } else if s[1] == 'r' {
                Some('\r')
            } else if s[1] == 't' {
                Some('\t')
            } else {
                None
            };
            match c {
                None => None,
                Some(c0) => match spec_take_string(s.skip(2)) {
                    None => None,
                    Some((v, rest)) => Some((seq![c0] + v, rest)),
                },
            }
        } else {
            None
        }
    } else {
        match spec_take_string(s.skip(1)) {
            None => None,
            Some((v, rest)) => Some((seq![s[0]] + v, rest)),
        }
    }
}

proof fn lemma_expect(lit: Seq<char>, t: Seq<char>)
    ensures
        spec_expect(lit + t, lit) == Some(t),
{
    assert((lit + t).take(lit.len() as int) =~= lit);
    assert((lit + t).skip(lit.len() as int) =~= t);
}

/// A rendered string literal reads back as the text it was made from.
proof fn lemma_take_string(x: Seq<char>, t: Seq<char>)
    requires
        json_text(x),
    ensures
        spec_take_string(spec_json_escape(x) + seq!['"'] + t) == Some((x, t)),
    decreases x.len(),
{
    let whole = spec_json_escape(x) + seq!['"'] + t;
    if x.len() == 0 {
        assert(spec_json_escape(x) == Seq::<char>::empty());
        assert(whole[0] == '"');
        assert(whole.skip(1) =~= t);
    } else {
        let c = x[0];
        let rest = x.skip(1);
        assert(forall|k: int| 0 <= k < rest.len() ==> rest[k] == x[k + 1]);
        lemma_take_string(rest, t);
        assert(seq![c] + rest =~= x);
        lemma_json_escape_concat(seq![c], rest);
        assert(seq![c].drop_last() =~= Seq::<char>::empty());
        assert(spec_json_escape(Seq::<char>::empty()) == Seq::<char>::empty());
        assert(Seq::<char>::empty() + spec_json_escape_char(c) =~= spec_json_escape_char(c));
        assert(spec_json_escape(seq![c]) =~= spec_json_escape_char(c));
        let sub = spec_json_escape(rest) + seq!['"'] + t;
        if c == '"' || c == '\\' || c == '\n' || c == '\r' || c == '\t' {
            assert(whole[0] == '\\');
            assert(whole.len() >= 2);
            assert(whole.skip(2) =~= sub);
            assert(seq![c] + rest == x);
        } else {
            assert(spec_json_escape_char(c) =~= seq![c]);
            assert(whole[0] == c);
            assert(whole[0] != '\\' && whole[0] != '"');
            assert(whole.skip(1) =~= sub);
            assert(seq![whole[0]] + rest == x);
        }
    }
}

/// A record whose four fields the short JSON escape forms can carry.
pub open spec fn record_text(r: RecordView) -> bool {
    json_text(r.sender_email) && json_text(r.unsubscribe_url) && json_text(r.subject)
        && json_text(r.source_file)
}

/// Reads one rendered record object back; yields the record and the rest.
pub open spec fn spec_parse_record(s: Seq<char>) -> Option<(RecordView, Seq<char>)> {
    match spec_expect(s, "      {\n        \"senderEmail\": \""@) {
        None => None,
        Some(s1) => match spec_take_string(s1) {
            None => None,
            Some((sender, s2)) => match spec_expect(s2, ",\n        \"unsubscribeUrl\": \""@) {
                None => None,
                Some(s3) => match spec_take_string(s3) {
                    None => None,
                    Some((url, s4)) => match spec_expect(s4, ",\n        \"subject\": \""@) {
                        None => None,
                        Some(s5) => match spec_take_string(s5) {
                            None => None,
                            Some((subj, s6)) => match spec_expect(
                                s6,
                                ",\n        \"sourceFile\": \""@,
                            ) {
                                None => None,
                                Some(s7) => match spec_take_string(s7) {
                                    None => None,
                                    Some((file, s8)) => match spec_expect(s8, "\n      }"@) {
                                        None => None,
                                        Some(s9) => Some(
                                            (
                                                RecordView {
                                                    sender_email: sender,
                                                    unsubscribe_url: url,
                                                    subject: subj,
                                                    source_file: file,
                                                },
                                                s9,
                                            ),
                                        ),
                                    },
                                },
                            },
                        },
                    },
                },
            },
        },
    }
}

#[verifier::rlimit(60)]
proof fn lemma_parse_record(r: RecordView, t: Seq<char>)
    requires
        record_text(r),
    ensures
        spec_parse_record(spec_json_record(r) + t) == Some((r, t)),
{
    reveal_strlit("      {\n        \"senderEmail\": \"");
    reveal_strlit("\",\n        \"unsubscribeUrl\": \"");
    reveal_strlit(",\n        \"unsubscribeUrl\": \"");
    reveal_strlit("\",\n        \"subject\": \"");
    reveal_strlit(",\n        \"subject\": \"");
    reveal_strlit("\",\n        \"sourceFile\": \"");
    reveal_strlit(",\n        \"sourceFile\": \"");
    reveal_strlit("\"\n      }");
    reveal_strlit("\n      }");
    let e1 = spec_json_escape(r.sender_email);
    let e2 = spec_json_escape(r.unsubscribe_url);
    let e3 = spec_json_escape(r.subject);
    let e4 = spec_json_escape(r.source_file);
    let t5 = "\n      }"@ + t;
    let t4 = ",\n        \"sourceFile\": \""@ + ((e4 + seq!['"']) + t5);
    let t3 = ",\n        \"subject\": \""@ + ((e3 + seq!['"']) + t4);
    let t2 = ",\n        \"unsubscribeUrl\": \""@ + ((e2 + seq!['"']) + t3);
    let a1 = (e1 + seq!['"']) + t2;
    let whole = spec_json_record(r) + t;
    assert(whole =~= "      {\n        \"senderEmail\": \""@ + a1);
    lemma_expect("      {\n        \"senderEmail\": \""@, a1);
    lemma_take_string(r.sender_email, t2);
    lemma_expect(",\n        \"unsubscribeUrl\": \""@, (e2 + seq!['"']) + t3);
    lemma_take_string(r.unsubscribe_url, t3);
    lemma_expect(",\n        \"subject\": \""@, (e3 + seq!['"']) + t4);
    lemma_take_string(r.subject, t4);
    lemma_expect(",\n        \"sourceFile\": \""@, (e4 + seq!['"']) + t5);
    lemma_take_string(r.source_file, t5);

    lemma_expect("\n      }"@, t);
    assert(RecordView {
        sender_email: r.sender_email,
        unsubscribe_url: r.unsubscribe_url,
        subject: r.subject,
        source_file: r.source_file,
    } =~= r);
}

/// A decimal digit character.
pub open spec fn is_digit(c: char) -> bool {
    c == '0' || c == '1' || c == '2' || c == '3' || c == '4' || c == '5' || c == '6' || c == '7'
        || c == '8' || c == '9'
}

/// Splits off the longest run of digit characters.
pub open spec fn spec_take_digits(s: Seq<char>) -> (Seq<char>, Seq<char>)
    decreases s.len(),
{
    if s.len() == 0 || !is_digit(s[0]) {
        (Seq::empty(), s)
    } else {
        let (d, rest) = spec_take_digits(s.skip(1));
        (seq![s[0]] + d, rest)
    }
}

proof fn lemma_dec_all_digits(n: int)
    ensures
        forall|k: int| 0 <= k < spec_dec(n).len() ==> is_digit(#[trigger] spec_dec(n)[k]),
    decreases n,
{
    if n >= 10 {
        lemma_dec_all_digits(n / 10);
        assert forall|k: int| 0 <= k < spec_dec(n).len() implies is_digit(
            #[trigger] spec_dec(n)[k],
        ) by {
            if k < spec_dec(n / 10).len() {
                assert(spec_dec(n)[k] == spec_dec(n / 10)[k]);
            }
        }
    }
}

proof fn lemma_take_digits(p: Seq<char>, t: Seq<char>)
    requires
        forall|k: int| 0 <= k < p.len() ==> is_digit(#[trigger] p[k]),
        t.len() == 0 || !is_digit(t[0]),
    ensures
        spec_take_digits(p + t) == (p, t),
    decreases p.len(),
{
    if p.len() == 0 {
        assert(p + t =~= t);
        assert(p =~= Seq::<char>::empty());
    } else {
        assert((p + t)[0] == p[0]);
        assert((p + t).skip(1) =~= p.skip(1) + t);
        assert(forall|k: int| 0 <= k < p.skip(1).len() ==> p.skip(1)[k] == p[k + 1]);
        lemma_take_digits(p.skip(1), t);
        assert(seq![p[0]] + p.skip(1) =~= p);
    }
}

/// The records starting at index `k`, rendered with their leading separators.
spec fn spec_json_records_mid(rs: Seq<RecordView>, k: int, i: int) -> Seq<char>
    decreases i - k,
{
    if k >= i {
        Seq::empty()
    } else {
        ",\n"@ + spec_json_record(rs[k]) + spec_json_records_mid(rs, k + 1, i)
    }
}

proof fn lemma_records_mid_snoc(rs: Seq<RecordView>, k: int, i: int)
    requires
        0 <= k <= i - 1,
    ensures
        spec_json_records_mid(rs, k, i) == spec_json_records_mid(rs, k, i - 1) + (",\n"@
            + spec_json_record(rs[i - 1])),
    decreases i - k,
{
    if k == i - 1 {
        assert(spec_json_records_mid(rs, k + 1, i) =~= Seq::<char>::empty());
        assert(spec_json_records_mid(rs, k, i - 1) =~= Seq::<char>::empty());
        assert((",\n"@ + spec_json_record(rs[k])) + Seq::<char>::empty() =~= Seq::<
            char,
        >::empty() + (",\n"@ + spec_json_record(rs[k])));
    } else {
        lemma_records_mid_snoc(rs, k + 1, i);
        assert((",\n"@ + spec_json_record(rs[k])) + (spec_json_records_mid(rs, k + 1, i - 1)
            + (",\n"@ + spec_json_record(rs[i - 1]))) =~= ((",\n"@ + spec_json_record(rs[k]))
            + spec_json_records_mid(rs, k + 1, i - 1)) + (",\n"@ + spec_json_record(rs[i - 1])));
    }
}

proof fn lemma_records_flip(rs: Seq<RecordView>, i: int)
    requires
        1 <= i <= rs.len(),
    ensures
        spec_json_records(rs, i) == spec_json_record(rs[0]) + spec_json_records_mid(rs, 1, i),
    decreases i,
{
    if i == 1 {
        assert(spec_json_record(rs[0]) + spec_json_records_mid(rs, 1, 1) =~= spec_json_record(
            rs[0],
        ));
    } else {
        lemma_records_flip(rs, i - 1);
        lemma_records_mid_snoc(rs, 1, i);
        assert(((spec_json_record(rs[0]) + spec_json_records_mid(rs, 1, i - 1)) + ",\n"@)
            + spec_json_record(rs[i - 1]) =~= spec_json_record(rs[0]) + (spec_json_records_mid(
            rs,
            1,
            i - 1,
        ) + (",\n"@ + spec_json_record(rs[i - 1]))));
    }
}

/// Reads the rest of a record array: zero or more comma-led records, then
/// the array's closing line.
pub open spec fn spec_parse_more_records(s: Seq<char>, acc: Seq<RecordView>) -> Option<
    (Seq<RecordView>, Seq<char>),
>
    decreases s.len(),
{
    match spec_expect(s, "\n    ]"@) {
        Some(rest) => Some((acc, rest)),
        None => match spec_expect(s, ",\n"@) {
            None => None,
            Some(s1) => match spec_parse_record(s1) {
                None => None,
                Some((r, s2)) => if s2.len() < s.len() {
                    spec_parse_more_records(s2, acc.push(r))
                } else {
                    None
                },
            },
        },
    }
}

/// Reads a whole record array.
pub open spec fn spec_parse_records_block(s: Seq<char>) -> Option<(Seq<RecordView>, Seq<char>)> {
    match spec_expect(s, "[]"@) {
        Some(rest) => Some((Seq::empty(), rest)),
        None => match spec_expect(s, "[\n"@) {
            None => None,
            Some(s1) => match spec_parse_record(s1) {
                None => None,
                Some((r, s2)) => spec_parse_more_records(s2, seq![r]),
            },
        },
    }
}

proof fn lemma_parse_more_records(rs: Seq<RecordView>, k: int, acc: Seq<RecordView>, t: Seq<char>)
    requires
        0 <= k <= rs.len(),
        forall|j: int| 0 <= j < rs.len() ==> record_text(#[trigger] rs[j]),
    ensures
        spec_parse_more_records(spec_json_records_mid(rs, k, rs.len() as int) + ("\n    ]"@ + t), acc)
            == Some((acc + rs.skip(k), t)),
    decreases rs.len() - k,
{
    reveal_strlit(",\n");
    reveal_strlit("\n    ]");
    let s = spec_json_records_mid(rs, k, rs.len() as int) + ("\n    ]"@ + t);
    if k == rs.len() {
        assert(s =~= "\n    ]"@ + t);
        lemma_expect("\n    ]"@, t);
        assert(acc + rs.skip(k) =~= acc);
    } else {
        let tail = spec_json_records_mid(rs, k + 1, rs.len() as int) + ("\n    ]"@ + t);
        assert(s =~= ",\n"@ + (spec_json_record(rs[k]) + tail));
        assert(s[0] == ',');
        if "\n    ]"@.len() <= s.len() {
            assert(s.take("\n    ]"@.len() as int)[0] == s[0]);
        }
        assert(spec_expect(s, "\n    ]"@) is None);
        lemma_expect(",\n"@, spec_json_record(rs[k]) + tail);
        lemma_parse_record(rs[k], tail);
        assert(tail.len() < s.len());
        lemma_parse_more_records(rs, k + 1, acc.push(rs[k]), t);
        assert(acc.push(rs[k]) + rs.skip(k + 1) =~= acc + rs.skip(k));
    }
}

proof fn lemma_parse_records_block(rs: Seq<RecordView>, t: Seq<char>)
    requires
        forall|j: int| 0 <= j < rs.len() ==> record_text(#[trigger] rs[j]),
    ensures
        spec_parse_records_block(spec_json_records_block(rs) + t) == Some((rs, t)),
{
    reveal_strlit("[]");
    reveal_strlit("[\n");
    let whole = spec_json_records_block(rs) + t;
    if rs.len() == 0 {
        assert(whole =~= "[]"@ + t);
        lemma_expect("[]"@, t);
        assert(Seq::<RecordView>::empty() =~= rs);
    } else {
        lemma_records_flip(rs, rs.len() as int);
        let tail = spec_json_records_mid(rs, 1, rs.len() as int) + ("\n    ]"@ + t);
        assert(whole =~= "[\n"@ + (spec_json_record(rs[0]) + tail));
        assert(whole[1] == '\n');
        if "[]"@.len() <= whole.len() {
            assert(whole.take("[]"@.len() as int)[1] == whole[1]);
        }
        assert(spec_expect(whole, "[]"@) is None);
        lemma_expect("[\n"@, spec_json_record(rs[0]) + tail);
        lemma_parse_record(rs[0], tail);
        lemma_parse_more_records(rs, 1, seq![rs[0]], t);
        assert(seq![rs[0]] + rs.skip(1) =~= rs);
    }
}

/// A group whose domain and records the short JSON escape forms can carry,
/// with a representable count.
pub open spec fn group_text(g: GroupView) -> bool {
    json_text(g.domain) && g.count >= 0 && forall|j: int|
        0 <= j < g.records.len() ==> record_text(#[trigger] g.records[j])
}

/// Reads one rendered group object back; yields the group and the rest.
pub open spec fn spec_parse_group(s: Seq<char>) -> Option<(GroupView, Seq<char>)> {
    match spec_expect(s, "  {\n    \"domain\": \""@) {
        None => None,
        Some(s1) => match spec_take_string(s1) {
            None => None,
            Some((domain, s2)) => match spec_expect(s2, ",\n    \"count\": "@) {
                None => None,
                Some(s3) => {
                    let (ds, s4) = spec_take_digits(s3);
                    if ds.len() == 0 {
                        None
                    } else {
                        match spec_expect(s4, ",\n    \"records\": "@) {
                            None => None,
                            Some(s5) => match spec_parse_records_block(s5) {
                                None => None,
                                Some((records, s6)) => match spec_expect(s6, "\n  }"@) {
                                    None => None,
                                    Some(s7) => Some(
                                        (
                                            GroupView {
                                                domain: domain,
                                                count: spec_parse_dec(ds),
                                                records: records,
                                            },
                                            s7,
                                        ),
                                    ),
                                },
                            },
                        }
                    }
                },
            },
        },
    }
}

#[verifier::rlimit(60)]
proof fn lemma_parse_group(g: GroupView, t: Seq<char>)
    requires
        group_text(g),
    ensures
        spec_parse_group(spec_json_group(g) + t) == Some((g, t)),
{
    reveal_strlit("  {\n    \"domain\": \"");
    reveal_strlit("\",\n    \"count\": ");
    reveal_strlit(",\n    \"count\": ");
    reveal_strlit(",\n    \"records\": ");
    reveal_strlit("\n  }");
    let e1 = spec_json_escape(g.domain);
    let dec = spec_dec(g.count);
    let blk = spec_json_records_block(g.records);
    let t4 = "\n  }"@ + t;
    let t3 = ",\n    \"records\": "@ + (blk + t4);
    let t2 = ",\n    \"count\": "@ + (dec + t3);
    let a1 = (e1 + seq!['"']) + t2;
    let whole = spec_json_group(g) + t;
    assert(whole =~= "  {\n    \"domain\": \""@ + a1);
    lemma_expect("  {\n    \"domain\": \""@, a1);
    lemma_take_string(g.domain, t2);
    lemma_expect(",\n    \"count\": "@, dec + t3);
    lemma_dec_all_digits(g.count);
    assert(t3[0] == ',');
    assert(!is_digit(t3[0]));
    lemma_take_digits(dec, t3);
    assert(dec.len() >= 1);
    lemma_dec_round_trip(g.count);
    lemma_expect(",\n    \"records\": "@, blk + t4);
    lemma_parse_records_block(g.records, t4);
    lemma_expect("\n  }"@, t);
    assert(GroupView { domain: g.domain, count: g.count, records: g.records } =~= g);
}

/// The groups starting at index `k`, rendered with their leading separators.
spec fn spec_json_groups_mid(gs: Seq<GroupView>, k: int, i: int) -> Seq<char>
    decreases i - k,
{
    if k >= i {
        Seq::empty()
    } else {
        ",\n"@ + spec_json_group(gs[k]) + spec_json_groups_mid(gs, k + 1, i)
    }
}

proof fn lemma_groups_mid_snoc(gs: Seq<GroupView>, k: int, i: int)
    requires
        0 <= k <= i - 1,
    ensures
        spec_json_groups_mid(gs, k, i) == spec_json_groups_mid(gs, k, i - 1) + (",\n"@
            + spec_json_group(gs[i - 1])),
    decreases i - k,
{
    if k == i - 1 {
        assert(spec_json_groups_mid(gs, k + 1, i) =~= Seq::<char>::empty());
        assert(spec_json_groups_mid(gs, k, i - 1) =~= Seq::<char>::empty());
        assert((",\n"@ + spec_json_group(gs[k])) + Seq::<char>::empty() =~= Seq::<
            char,
        >::empty() + (",\n"@ + spec_json_group(gs[k])));
    } else {
        lemma_groups_mid_snoc(gs, k + 1, i);
        assert((",\n"@ + spec_json_group(gs[k])) + (spec_json_groups_mid(gs, k + 1, i - 1) + (",\n"@
            + spec_json_group(gs[i - 1]))) =~= ((",\n"@ + spec_json_group(gs[k]))
            + spec_json_groups_mid(gs, k + 1, i - 1)) + (",\n"@ + spec_json_group(gs[i - 1])));
    }
}

proof fn lemma_groups_flip(gs: Seq<GroupView>, i: int)
    requires
        1 <= i <= gs.len(),
    ensures
        spec_json_groups(gs, i) == spec_json_group(gs[0]) + spec_json_groups_mid(gs, 1, i),
    decreases i,
{
    if i == 1 {
        assert(spec_json_group(gs[0]) + spec_json_groups_mid(gs, 1, 1) =~= spec_json_group(gs[0]));
    } else {
        lemma_groups_flip(gs, i - 1);
        lemma_groups_mid_snoc(gs, 1, i);
        assert(((spec_json_group(gs[0]) + spec_json_groups_mid(gs, 1, i - 1)) + ",\n"@)
            + spec_json_group(gs[i - 1]) =~= spec_json_group(gs[0]) + (spec_json_groups_mid(
            gs,
            1,
            i - 1,
        ) + (",\n"@ + spec_json_group(gs[i - 1]))));
    }
}

/// Reads the rest of the group array: zero or more comma-led groups, then
/// the document's closing line.
pub open spec fn spec_parse_more_groups(s: Seq<char>, acc: Seq<GroupView>) -> Option<
    (Seq<GroupView>, Seq<char>),
>
    decreases s.len(),
{
    match spec_expect(s, "\n]"@) {
        Some(rest) => Some((acc, rest)),
        None => match spec_expect(s, ",\n"@) {
            None => None,
            Some(s1) => match spec_parse_group(s1) {
                None => None,
                Some((g, s2)) => if s2.len() < s.len() {
                    spec_parse_more_groups(s2, acc.push(g))
                } else {
                    None
                },
            },
        },
    }
}

/// Reads a whole structured export back into its groups.
pub open spec fn spec_parse_report(s: Seq<char>) -> Option<Seq<GroupView>> {
    match spec_expect(s, "[]"@) {
        Some(rest) => if rest.len() == 0 {
            Some(Seq::empty())
        } else {
            None
        },
        None => match spec_expect(s, "[\n"@) {
            None => None,
            Some(s1) => match spec_parse_group(s1) {
                None => None,
                Some((g, s2)) => match spec_parse_more_groups(s2, seq![g]) {
                    None => None,
                    Some((gs, rest)) => if rest.len() == 0 {
                        Some(gs)
                    } else {
                        None
                    },
                },
            },
        },
    }
}

proof fn lemma_parse_more_groups(gs: Seq<GroupView>, k: int, acc: Seq<GroupView>, t: Seq<char>)
    requires
        0 <= k <= gs.len(),
        forall|j: int| 0 <= j < gs.len() ==> group_text(#[trigger] gs[j]),
    ensures
        spec_parse_more_groups(spec_json_groups_mid(gs, k, gs.len() as int) + ("\n]"@ + t), acc)
            == Some((acc + gs.skip(k), t)),
    decreases gs.len() - k,
{
    reveal_strlit(",\n");
    reveal_strlit("\n]");
    let s = spec_json_groups_mid(gs, k, gs.len() as int) + ("\n]"@ + t);
    if k == gs.len() {
        assert(s =~= "\n]"@ + t);
        lemma_expect("\n]"@, t);
        assert(acc + gs.skip(k) =~= acc);
    } else {
        let tail = spec_json_groups_mid(gs, k + 1, gs.len() as int) + ("\n]"@ + t);
        assert(s =~= ",\n"@ + (spec_json_group(gs[k]) + tail));
        assert(s[0] == ',');
        if "\n]"@.len() <= s.len() {
            assert(s.take("\n]"@.len() as int)[0] == s[0]);
        }
        assert(spec_expect(s, "\n]"@) is None);
        lemma_expect(",\n"@, spec_json_group(gs[k]) + tail);
        lemma_parse_group(gs[k], tail);
        assert(tail.len() < s.len());
        lemma_parse_more_groups(gs, k + 1, acc.push(gs[k]), t);
        assert(acc.push(gs[k]) + gs.skip(k + 1) =~= acc + gs.skip(k));
    }
}

/// The structured export round-trips: reading the rendered JSON document
/// back recovers exactly the groups that were rendered, in their order.
pub proof fn lemma_render_json_round_trip(gs: Seq<GroupView>)
    requires
        forall|j: int| 0 <= j < gs.len() ==> group_text(#[trigger] gs[j]),
    ensures
        spec_parse_report(spec_render_json(gs)) == Some(gs),
{
    reveal_strlit("[]");
    reveal_strlit("[\n");
    let whole = spec_render_json(gs);
    if gs.len() == 0 {
        assert(whole =~= "[]"@ + Seq::<char>::empty());
        lemma_expect("[]"@, Seq::<char>::empty());
    } else {
        lemma_groups_flip(gs, gs.len() as int);
        let tail = spec_json_groups_mid(gs, 1, gs.len() as int) + ("\n]"@ + Seq::<char>::empty());
        assert(whole =~= "[\n"@ + (spec_json_group(gs[0]) + tail));
        assert(whole[1] == '\n');
        if "[]"@.len() <= whole.len() {
            assert(whole.take("[]"@.len() as int)[1] == whole[1]);
        }
        assert(spec_expect(whole, "[]"@) is None);
        lemma_expect("[\n"@, spec_json_group(gs[0]) + tail);
        lemma_parse_group(gs[0], tail);
        lemma_parse_more_groups(gs, 1, seq![gs[0]], Seq::<char>::empty());
        assert(seq![gs[0]] + gs.skip(1) =~= gs);
    }
}

/// What the aggregator builds from renderable records is itself renderable:
/// every group of the aggregation meets the round trip's premise.
pub proof fn lemma_aggregate_renders(rs: Seq<RecordView>)
    requires
        forall|j: int| 0 <= j < rs.len() ==> record_text(#[trigger] rs[j]),
    ensures
        forall|k: int|
            0 <= k < spec_aggregate(rs).len() ==> group_text(#[trigger] spec_aggregate(rs)[k]),
{
    lemma_aggregate_exact(rs);
    let agg = spec_aggregate(rs);
    assert forall|k: int| 0 <= k < agg.len() implies group_text(#[trigger] agg[k]) by {
        let d = agg[k].domain;
        lemma_matching_members(rs, d);
        let m = spec_matching(rs, d);
        assert(agg[k].records == m);
        assert(m.len() >= 1);
        assert forall|i: int| 0 <= i < m.len() implies record_text(#[trigger] m[i]) by {
            let j = choose|j: int| 0 <= j < rs.len() && m[i] == rs[j];
        }
        let r0 = m[0];
        assert(record_text(r0));
        assert(spec_domain(r0.sender_email) == Some(d));
        lemma_last_at_bounds(r0.sender_email);
        let at = spec_last_at(r0.sender_email)->Some_0;
        assert forall|k2: int|
            0 <= k2 < d.len() implies ((#[trigger] d[k2]) as u32 >= 32 || d[k2] == '\t' || d[k2]
            == '\n' || d[k2] == '\r') by {
            assert(d[k2] == r0.sender_email[at + 1 + k2]);
        }
        assert(json_text(d));
    }
}
} // verus!
