//! Laws of the scanning pipeline, stated and proved over the library's
//! specification functions.

use vstd::prelude::*;

use crate::aggregate::spec_aggregate;
use crate::links::{emails_in, urls_in};
use crate::scan::{spec_header_line, spec_scan, spec_strip_label, RecordView};
use crate::text::spec_trim;

verus! {

/// A message missing any of the three target headers yields no record.
pub proof fn lemma_missing_header_no_record(content: Seq<char>, source_file: Seq<char>)
    requires
        spec_header_line(content, "From: "@) is None || spec_header_line(content, "Subject: "@)
            is None || spec_header_line(content, "List-Unsubscribe: "@) is None,
    ensures
        spec_scan(content, source_file) is None,
{
}

/// A message whose `From` line holds no recognizable email address yields no
/// record, whatever the other headers hold.
pub proof fn lemma_no_email_no_record(content: Seq<char>, source_file: Seq<char>)
    requires
        spec_header_line(content, "From: "@) matches Some(line) && emails_in(line).len() == 0,
    ensures
        spec_scan(content, source_file) is None,
{
}

/// A message whose `List-Unsubscribe` line holds no recognizable URL yields
/// no record, whatever the other headers hold.
pub proof fn lemma_no_url_no_record(content: Seq<char>, source_file: Seq<char>)
    requires
        spec_header_line(content, "List-Unsubscribe: "@) matches Some(line) && urls_in(
            line,
        ).len() == 0,
    ensures
        spec_scan(content, source_file) is None,
{
}

/// Subject extraction strips exactly the leading label and the surrounding
/// whitespace: applied to the label followed by any remainder, it returns
/// the trimmed remainder.
pub proof fn lemma_subject_strip(value: Seq<char>)
    ensures
        spec_strip_label("Subject: "@ + value, "Subject: "@) == spec_trim(value),
{
    assert(("Subject: "@ + value).take("Subject: "@.len() as int) =~= "Subject: "@);
    assert(("Subject: "@ + value).skip("Subject: "@.len() as int) =~= value);
}

/// The records that scanning a fixed run of messages produces, in order.
pub open spec fn spec_scan_results(contents: Seq<Seq<char>>, names: Seq<Seq<char>>) -> Seq<
    RecordView,
>
    decreases contents.len(),
{
    if contents.len() == 0 || contents.len() != names.len() {
        Seq::empty()
    } else {
        let prev = spec_scan_results(contents.drop_last(), names.drop_last());
        match spec_scan(contents.last(), names.last()) {
            None => prev,
            Some(r) => prev.push(r),
        }
    }
}

/// Scanning an unchanged run of messages twice yields identical grouped,
/// ranked results: the outcome is a function of the message texts and file
/// names alone.
pub proof fn lemma_scan_deterministic(
    contents: Seq<Seq<char>>,
    names: Seq<Seq<char>>,
    rs1: Seq<RecordView>,
    rs2: Seq<RecordView>,
)
    requires
        rs1 == spec_scan_results(contents, names),
        rs2 == spec_scan_results(contents, names),
    ensures
        spec_aggregate(rs1) == spec_aggregate(rs2),
{
}

} // verus!
