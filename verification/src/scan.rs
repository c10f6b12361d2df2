//! Per-message scanning: header extraction and the unsubscribe record.

use vstd::prelude::*;
use vstd::string::*;

use crate::links::{emails_in, find_emails, find_urls, urls_in};
use crate::text::{
    find_eol, find_str, spec_eol, spec_find_from, spec_trim, trim,
};

verus! {

/// One finding per qualifying message: the sender's address, the advertised
/// unsubscribe URL, the trimmed subject, and the name of the source file.
pub struct UnsubscribeRecord {
    pub sender_email: String,
    pub unsubscribe_url: String,
    pub subject: String,
    pub source_file: String,
}

/// The mathematical content of an `UnsubscribeRecord`.
#[verifier::ext_equal]
pub ghost struct RecordView {
    pub sender_email: Seq<char>,
    pub unsubscribe_url: Seq<char>,
    pub subject: Seq<char>,
    pub source_file: Seq<char>,
}

impl View for UnsubscribeRecord {
    type V = RecordView;

    open spec fn view(&self) -> RecordView {
        RecordView {
            sender_email: self.sender_email@,
            unsubscribe_url: self.unsubscribe_url@,
            subject: self.subject@,
            source_file: self.source_file@,
        }
    }
}

impl DeepView for UnsubscribeRecord {
    type V = RecordView;

    open spec fn deep_view(&self) -> RecordView {
        self.view()
    }
}

impl Clone for UnsubscribeRecord {
    fn clone(&self) -> (r: Self)
        ensures
            r@ == self@,
    {
        UnsubscribeRecord {
            sender_email: self.sender_email.clone(),
            unsubscribe_url: self.unsubscribe_url.clone(),
            subject: self.subject.clone(),
            source_file: self.source_file.clone(),
        }
    }
}

/// The first full line of `content` that begins with `label`, where a line
/// runs to the next `'\n'` or to the end of the text; the match may start
/// anywhere, and the label itself is part of the line returned.
pub open spec fn spec_header_line(content: Seq<char>, label: Seq<char>) -> Option<Seq<char>> {
    match spec_find_from(content, label, 0) {
        None => None,
        Some(i) => Some(content.subrange(i, spec_eol(content, i))),
    }
}

/// The line with `label` stripped off the front, if present, and surrounding
/// whitespace removed.
pub open spec fn spec_strip_label(line: Seq<char>, label: Seq<char>) -> Seq<char> {
    if label.len() <= line.len() && line.take(label.len() as int) == label {
        spec_trim(line.skip(label.len() as int))
    } else {
        spec_trim(line)
    }
}

/// What scanning one message yields: `None` unless all three target headers
/// are present, the `From` line holds a recognizable email address, and the
/// `List-Unsubscribe` line holds a recognizable URL.
pub open spec fn spec_scan(content: Seq<char>, source_file: Seq<char>) -> Option<RecordView> {
    let from = spec_header_line(content, "From: "@);
    let subj = spec_header_line(content, "Subject: "@);
    let unsub = spec_header_line(content, "List-Unsubscribe: "@);
    if from is None || subj is None || unsub is None {
        None
    } else {
        let emails = emails_in(from->Some_0);
        let urls = urls_in(unsub->Some_0);
        if emails.len() == 0 || urls.len() == 0 {
            None
        } else {
            Some(
                RecordView {
                    sender_email: emails[0],
                    unsubscribe_url: urls[0],
                    subject: spec_strip_label(subj->Some_0, "Subject: "@),
                    source_file: source_file,
                },
            )
        }
    }
}

/// Whether a file name marks a message file: it ends in `.eml`.
pub open spec fn spec_is_message_file(name: Seq<char>) -> bool {
    name.len() >= 4 && name.subrange(name.len() - 4, name.len() as int) == ".eml"@
}

pub proof fn lemma_find_from_bounds(hay: Seq<char>, needle: Seq<char>, from: int)
    ensures
        match spec_find_from(hay, needle, from) {
            None => true,
            Some(i) => from <= i && 0 <= i && i + needle.len() <= hay.len(),
        },
    decreases hay.len() - from,
{
    if !(from < 0 || from + needle.len() > hay.len()) && needle.len() != 0
        && hay.subrange(from, from + needle.len() as int) != needle {
        lemma_find_from_bounds(hay, needle, from + 1);
    }
}

/// Finds the first line of `content` that begins with `label`.
pub fn find_header_line(content: &str, label: &str) -> (r: Option<String>)
    ensures
        match r {
            Some(line) => spec_header_line(content@, label@) == Some(line@),
            None => spec_header_line(content@, label@) is None,
        },
{
    match find_str(content, label) {
        None => None,
        Some(i) => {
            proof {
                lemma_find_from_bounds(content@, label@, 0);
            }
            let e = find_eol(content, i);
            let line = content.substring_char(i, e);
            Some(line.to_owned())
        },
    }
}

/// Strips `label` off the front of `line`, if it stands there, and trims
/// surrounding whitespace.
pub fn strip_label(line: &str, label: &str) -> (r: String)
    ensures
        r@ == spec_strip_label(line@, label@),
{
    let n: usize = line.unicode_len();
    let m: usize = label.unicode_len();
    if m <= n {
        let mut j: usize = 0;
        let mut ok: bool = true;
        while j < m
            invariant
                0 <= j <= m,
                m <= n,
                n == line@.len(),
                m == label@.len(),
                ok ==> forall|k: int| 0 <= k < j ==> line@[k] == label@[k],
                !ok ==> line@.take(m as int) != label@,
            decreases m - j,
        {
            if ok {
                if line.get_char(j) != label.get_char(j) {
                    proof {
                        assert(line@.take(m as int)[j as int] == line@[j as int]);
                    }
                    ok = false;
                }
            }
            j = j + 1;
        }
        if ok {
            proof {
                assert(line@.take(m as int) =~= label@);
                assert(line@.skip(m as int) =~= line@.subrange(m as int, n as int));
            }
            let rest = line.substring_char(m, n);
            trim(rest)
        } else {
            trim(line)
        }
    } else {
        trim(line)
    }
}

/// Scans one message's text. Yields a record exactly when the three target
/// headers are present, an email address is recognized in the `From` line,
/// and a URL is recognized in the `List-Unsubscribe` line; the first address
/// and the first URL are the ones kept.
pub fn scan_message(content: &str, source_file: &str) -> (r: Option<UnsubscribeRecord>)
    ensures
        match r {
            Some(u) => spec_scan(content@, source_file@) == Some(u@),
            None => spec_scan(content@, source_file@) is None,
        },
{
    let from_line = find_header_line(content, "From: ");
    let subject_line = find_header_line(content, "Subject: ");
    let unsub_line = find_header_line(content, "List-Unsubscribe: ");
    match (from_line, subject_line, unsub_line) {
        (Some(from_line), Some(subject_line), Some(unsub_line)) => {
            let emails = find_emails(from_line.as_str());
            let urls = find_urls(unsub_line.as_str());
            if emails.len() > 0 && urls.len() > 0 {
                let record = UnsubscribeRecord {
                    sender_email: emails[0].clone(),
                    unsubscribe_url: urls[0].clone(),
                    subject: strip_label(subject_line.as_str(), "Subject: "),
                    source_file: source_file.to_owned(),
                };
                proof {
                    assert(emails.deep_view()[0] == emails@[0].deep_view());
                    assert(urls.deep_view()[0] == urls@[0].deep_view());
                }
                Some(record)
            } else {
                None
            }
        },
        _ => None,
    }
}

/// Whether a file name marks a message file (its name ends in `.eml`).
pub fn is_message_file(name: &str) -> (r: bool)
    ensures
        r == spec_is_message_file(name@),
{
    let n: usize = name.unicode_len();
    if n < 4 {
        return false;
    }
    let r = name.get_char(n - 4) == '.' && name.get_char(n - 3) == 'e' && name.get_char(n - 2)
        == 'm' && name.get_char(n - 1) == 'l';
    proof {
        reveal_strlit(".eml");
        assert(name@.subrange(n - 4, n as int)[0] == name@[n - 4]);
        assert(name@.subrange(n - 4, n as int)[1] == name@[n - 3]);
        assert(name@.subrange(n - 4, n as int)[2] == name@[n - 2]);
        assert(name@.subrange(n - 4, n as int)[3] == name@[n - 1]);
        if r {
            assert(name@.subrange(n - 4, n as int) =~= ".eml"@);
        }
    }
    r
}

} // verus!
