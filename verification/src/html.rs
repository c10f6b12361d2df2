//! The interactive report: a single self-contained HTML document that lists
//! each domain with its count and a toggleable panel of unsubscribe links.

use vstd::prelude::*;
use vstd::string::*;

use crate::aggregate::{DomainGroup, GroupView};
use crate::render::{dec_str, html_escape, spec_dec, spec_html_escape};
use crate::scan::{RecordView, UnsubscribeRecord};

verus! {

/// One domain's summary box: the domain in bold, and the count as a link
/// that toggles the domain's detail panel.
pub open spec fn spec_html_summary(g: GroupView) -> Seq<char> {
    "<div class=\"box\"><p><b>"@ + spec_html_escape(g.domain)
        + "</b></p><p><a onclick=\"toggleVisibility('"@ + spec_html_escape(g.domain) + "')\">"@
        + spec_dec(g.count) + " emails</a></p></div>\n"@
}

/// The first `i` summary boxes, in ranked order.
pub open spec fn spec_html_summaries(gs: Seq<GroupView>, i: int) -> Seq<char>
    decreases i,
{
    if i <= 0 {
        Seq::empty()
    } else {
        spec_html_summaries(gs, i - 1) + spec_html_summary(gs[i - 1])
    }
}

/// One record inside a detail panel: the source file name as a link to the
/// unsubscribe URL.
pub open spec fn spec_html_record(r: RecordView) -> Seq<char> {
    "<p><a href=\""@ + spec_html_escape(r.unsubscribe_url) + "\">"@ + spec_html_escape(
        r.source_file,
    ) + "</a></p>\n"@
}

/// The first `i` record lines of a panel.
pub open spec fn spec_html_records(rs: Seq<RecordView>, i: int) -> Seq<char>
    decreases i,
{
    if i <= 0 {
        Seq::empty()
    } else {
        spec_html_records(rs, i - 1) + spec_html_record(rs[i - 1])
    }
}

/// One domain's detail panel, hidden by default, with one line per record.
pub open spec fn spec_html_detail(g: GroupView) -> Seq<char> {
    "<div class=\"box\" style=\"display: none\" id=\""@ + spec_html_escape(g.domain)
        + "\"><p><b>"@ + spec_html_escape(g.domain) + "</b></p>\n"@ + spec_html_records(
        g.records,
        g.records.len() as int,
    ) + "</div>\n"@
}

/// The first `i` detail panels, in ranked order.
pub open spec fn spec_html_details(gs: Seq<GroupView>, i: int) -> Seq<char>
    decreases i,
{
    if i <= 0 {
        Seq::empty()
    } else {
        spec_html_details(gs, i - 1) + spec_html_detail(gs[i - 1])
    }
}

/// The whole document: a fixed head with an external stylesheet reference and
/// the inline toggle script, then the summary column and the detail column,
/// both in ranked order.
pub open spec fn spec_render_html(gs: Seq<GroupView>) -> Seq<char> {
    "<!DOCTYPE html>\n<html lang=\"en\">\n<head>\n<meta charset=\"utf-8\">\n<meta name=\"viewport\" content=\"width=device-width, initial-scale=1\">\n<link rel=\"stylesheet\" href=\"https://cdn.jsdelivr.net/npm/bulma@0.9.4/css/bulma.min.css\">\n<title>unsubscan - Your Unsubscribe Links</title>\n<script>\nfunction toggleVisibility(domain) {\n  var x = document.getElementById(domain);\n  if (x.style.display === 'none') {\n    x.style.display = 'block';\n  } else {\n    x.style.display = 'none';\n  }\n}\n</script>\n</head>\n<body>\n<section class=\"section\">\n<div class=\"container\">\n<div class=\"column box\">\n<div class=\"content has-text-centered\">\n<h1>unsubscan - Your Unsubscribe Links</h1>\n<ul>\n<li>These are all the unsubscribe links that were found in your emails</li>\n<li>Domains are sorted by the number of links found</li>\n<li>Click under a domain to toggle the full list of its unsubscribe links</li>\n</ul>\n</div>\n</div>\n<div id=\"results\" class=\"columns is-mobile\">\n<div class=\"column is-narrow\">\n"@
        + spec_html_summaries(gs, gs.len() as int) + "</div>\n<div class=\"column\">\n"@
        + spec_html_details(gs, gs.len() as int)
        + "</div>\n</div>\n</div>\n</section>\n</body>\n</html>\n"@
}

fn html_summary(g: &DomainGroup) -> (r: String)
    ensures
        r@ == spec_html_summary(g.deep_view()),
{
    let mut out = String::from_str("<div class=\"box\"><p><b>");
    out.append(html_escape(g.domain.as_str()).as_str());
    out.append("</b></p><p><a onclick=\"toggleVisibility('");
    out.append(html_escape(g.domain.as_str()).as_str());
    out.append("')\">");
    out.append(dec_str(g.count).as_str());
    out.append(" emails</a></p></div>\n");
    out
}

fn html_detail(g: &DomainGroup) -> (r: String)
    ensures
        r@ == spec_html_detail(g.deep_view()),
{
    let ghost rsv = g.records.deep_view();
    let mut out = String::from_str("<div class=\"box\" style=\"display: none\" id=\"");
    out.append(html_escape(g.domain.as_str()).as_str());
    out.append("\"><p><b>");
    out.append(html_escape(g.domain.as_str()).as_str());
    out.append("</b></p>\n");
    let ghost pre = out@;
    proof {
        assert(pre + spec_html_records(rsv, 0) =~= pre);
    }
    let mut i: usize = 0;
    while i < g.records.len()
        invariant
            0 <= i <= g.records.len(),
            rsv == g.records.deep_view(),
            rsv.len() == g.records.len(),
            out@ == pre + spec_html_records(rsv, i as int),
        decreases g.records.len() - i,
    {
        let rec = &g.records[i];
        let mut piece = String::from_str("<p><a href=\"");
        piece.append(html_escape(rec.unsubscribe_url.as_str()).as_str());
        piece.append("\">");
        piece.append(html_escape(rec.source_file.as_str()).as_str());
        piece.append("</a></p>\n");
        out.append(piece.as_str());
        proof {
            assert(piece@ == spec_html_record(rsv[i as int]));
            assert(out@ =~= pre + spec_html_records(rsv, i + 1));
        }
        i = i + 1;
    }
    out.append("</div>\n");
    out
}

/// Renders the ranked groups as the interactive document.
pub fn render_html(groups: &Vec<DomainGroup>) -> (r: String)
    ensures
        r@ == spec_render_html(groups.deep_view()),
{
    let ghost gsv = groups.deep_view();
    let mut out = String::from_str(
        "<!DOCTYPE html>\n<html lang=\"en\">\n<head>\n<meta charset=\"utf-8\">\n<meta name=\"viewport\" content=\"width=device-width, initial-scale=1\">\n<link rel=\"stylesheet\" href=\"https://cdn.jsdelivr.net/npm/bulma@0.9.4/css/bulma.min.css\">\n<title>unsubscan - Your Unsubscribe Links</title>\n<script>\nfunction toggleVisibility(domain) {\n  var x = document.getElementById(domain);\n  if (x.style.display === 'none') {\n    x.style.display = 'block';\n  } else {\n    x.style.display = 'none';\n  }\n}\n</script>\n</head>\n<body>\n<section class=\"section\">\n<div class=\"container\">\n<div class=\"column box\">\n<div class=\"content has-text-centered\">\n<h1>unsubscan - Your Unsubscribe Links</h1>\n<ul>\n<li>These are all the unsubscribe links that were found in your emails</li>\n<li>Domains are sorted by the number of links found</li>\n<li>Click under a domain to toggle the full list of its unsubscribe links</li>\n</ul>\n</div>\n</div>\n<div id=\"results\" class=\"columns is-mobile\">\n<div class=\"column is-narrow\">\n",
    );
    let ghost head = out@;
    proof {
        assert(head + spec_html_summaries(gsv, 0) =~= head);
    }
    let mut i: usize = 0;
    while i < groups.len()
        invariant
            0 <= i <= groups.len(),
            gsv == groups.deep_view(),
            gsv.len() == groups.len(),
            out@ == head + spec_html_summaries(gsv, i as int),
        decreases groups.len() - i,
    {
        let piece = html_summary(&groups[i]);
        out.append(piece.as_str());
        proof {
            assert(out@ =~= head + spec_html_summaries(gsv, i + 1));
        }
        i = i + 1;
    }
    out.append("</div>\n<div class=\"column\">\n");
    let ghost mid = out@;
    proof {
        assert(mid + spec_html_details(gsv, 0) =~= mid);
    }
    let mut j: usize = 0;
    while j < groups.len()
        invariant
            0 <= j <= groups.len(),
            gsv == groups.deep_view(),
            gsv.len() == groups.len(),
            out@ == mid + spec_html_details(gsv, j as int),
        decreases groups.len() - j,
    {
        let piece = html_detail(&groups[j]);
        out.append(piece.as_str());
        proof {
            assert(out@ =~= mid + spec_html_details(gsv, j + 1));
        }
        j = j + 1;
    }
    out.append("</div>\n</div>\n</div>\n</section>\n</body>\n</html>\n");
    out
}

} // verus!
