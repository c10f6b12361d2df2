//! Shared rendering helpers: string escaping for the two output formats and
//! decimal formatting of counts.

use vstd::prelude::*;
use vstd::string::*;

verus! {

/// The digit character for a value below sixteen.
pub open spec fn spec_digit(n: int) -> char {
    if n == 0 { '0' } else if n == 1 { '1' } else if n == 2 { '2' } else if n == 3 { '3' }
    else if n == 4 { '4' } else if n == 5 { '5' } else if n == 6 { '6' } else if n == 7 { '7' }
    else if n == 8 { '8' } else if n == 9 { '9' } else if n == 10 { 'a' } else if n == 11 { 'b' }
    else if n == 12 { 'c' } else if n == 13 { 'd' } else if n == 14 { 'e' } else { 'f' }
}

/// The decimal rendering of a non-negative number.
pub open spec fn spec_dec(n: int) -> Seq<char>
    decreases n,
{
    if n < 10 {
        seq![spec_digit(if n < 0 { 0 } else { n })]
    } else {
        spec_dec(n / 10) + seq![spec_digit(n % 10)]
    }
}

/// How one character is written inside a JSON string literal.
pub open spec fn spec_json_escape_char(c: char) -> Seq<char> {
    if c == '"' {
        seq!['\\', '"']
    } else if c == '\\' {
        seq!['\\', '\\']
    } else if c == '\n' {
        seq!['\\', 'n']
    } else if c == '\r' {
        seq!['\\', 'r']
    } else if c == '\t' {
        seq!['\\', 't']
    } else if (c as u32) < 32 {
        seq!['\\', 'u', '0', '0', spec_digit((c as u32 / 16) as int), spec_digit((c as u32 % 16) as int)]
    } else {
        seq![c]
    }
}

/// A character that JSON writes as itself.
pub open spec fn json_plain(c: char) -> bool {
    c != '"' && c != '\\' && (c as u32) >= 32
}

/// The JSON escaping of a whole string.
pub open spec fn spec_json_escape(s: Seq<char>) -> Seq<char>
    decreases s.len(),
{
    if s.len() == 0 {
        Seq::empty()
    } else {
        spec_json_escape(s.drop_last()) + spec_json_escape_char(s.last())
    }
}

/// How one character is written inside HTML text or an attribute value.
pub open spec fn spec_html_escape_char(c: char) -> Seq<char> {
    if c == '&' {
        seq!['&', 'a', 'm', 'p', ';']
    } else if c == '<' {
        seq!['&', 'l', 't', ';']
    } else if c == '>' {
        seq!['&', 'g', 't', ';']
    } else if c == '"' {
        seq!['&', 'q', 'u', 'o', 't', ';']
    } else if c == '\'' {
        seq!['&', '#', '3', '9', ';']
    } else {
        seq![c]
    }
}

/// A character that HTML writes as itself.
pub open spec fn html_plain(c: char) -> bool {
    c != '&' && c != '<' && c != '>' && c != '"' && c != '\''
}

/// The HTML escaping of a whole string.
pub open spec fn spec_html_escape(s: Seq<char>) -> Seq<char>
    decreases s.len(),
{
    if s.len() == 0 {
        Seq::empty()
    } else {
        spec_html_escape(s.drop_last()) + spec_html_escape_char(s.last())
    }
}

/// Escaping distributes over concatenation.
pub proof fn lemma_json_escape_concat(a: Seq<char>, b: Seq<char>)
    ensures
        spec_json_escape(a + b) == spec_json_escape(a) + spec_json_escape(b),
    decreases b.len(),
{
    if b.len() == 0 {
        assert(a + b =~= a);
        assert(spec_json_escape(a) + spec_json_escape(b) =~= spec_json_escape(a));
    } else {
        lemma_json_escape_concat(a, b.drop_last());
        assert((a + b).drop_last() =~= a + b.drop_last());
        assert((a + b).last() == b.last());
        assert((spec_json_escape(a) + spec_json_escape(b.drop_last()))
            + spec_json_escape_char(b.last()) =~= spec_json_escape(a) + (spec_json_escape(
            b.drop_last(),
        ) + spec_json_escape_char(b.last())));
    }
}

/// A run of plain characters is written as itself.
pub proof fn lemma_json_escape_plain(s: Seq<char>)
    requires
        forall|k: int| 0 <= k < s.len() ==> json_plain(#[trigger] s[k]),
    ensures
        spec_json_escape(s) == s,
    decreases s.len(),
{
    if s.len() > 0 {
        lemma_json_escape_plain(s.drop_last());
        assert(s.drop_last() + spec_json_escape_char(s.last()) =~= s);
    }
}

/// Escaping distributes over concatenation.
pub proof fn lemma_html_escape_concat(a: Seq<char>, b: Seq<char>)
    ensures
        spec_html_escape(a + b) == spec_html_escape(a) + spec_html_escape(b),
    decreases b.len(),
{
    if b.len() == 0 {
        assert(a + b =~= a);
        assert(spec_html_escape(a) + spec_html_escape(b) =~= spec_html_escape(a));
    } else {
        lemma_html_escape_concat(a, b.drop_last());
        assert((a + b).drop_last() =~= a + b.drop_last());
        assert((a + b).last() == b.last());
        assert((spec_html_escape(a) + spec_html_escape(b.drop_last()))
            + spec_html_escape_char(b.last()) =~= spec_html_escape(a) + (spec_html_escape(
            b.drop_last(),
        ) + spec_html_escape_char(b.last())));
    }
}

/// A run of plain characters is written as itself.
pub proof fn lemma_html_escape_plain(s: Seq<char>)
    requires
        forall|k: int| 0 <= k < s.len() ==> html_plain(#[trigger] s[k]),
    ensures
        spec_html_escape(s) == s,
    decreases s.len(),
{
    if s.len() > 0 {
        lemma_html_escape_plain(s.drop_last());
        assert(s.drop_last() + spec_html_escape_char(s.last()) =~= s);
    }
}

/// The one-character string for a digit value.
pub fn digit_str(d: u32) -> (r: &'static str)
    requires
        d < 16,
    ensures
        r@ == seq![spec_digit(d as int)],
{
    proof {
        reveal_strlit("0");
        reveal_strlit("1");
        reveal_strlit("2");
        reveal_strlit("3");
        reveal_strlit("4");
        reveal_strlit("5");
        reveal_strlit("6");
        reveal_strlit("7");
        reveal_strlit("8");
        reveal_strlit("9");
        reveal_strlit("a");
        reveal_strlit("b");
        reveal_strlit("c");
        reveal_strlit("d");
        reveal_strlit("e");
        reveal_strlit("f");
    }
    let r = if d == 0 { "0" } else if d == 1 { "1" } else if d == 2 { "2" } else if d == 3 { "3" }
    else if d == 4 { "4" } else if d == 5 { "5" } else if d == 6 { "6" } else if d == 7 { "7" }
    else if d == 8 { "8" } else if d == 9 { "9" } else if d == 10 { "a" } else if d == 11 { "b" }
    else if d == 12 { "c" } else if d == 13 { "d" } else if d == 14 { "e" } else { "f" };
    proof {
        assert(r@ =~= seq![spec_digit(d as int)]);
    }
    r
}

/// Renders a number in decimal.
pub fn dec_str(n: usize) -> (r: String)
    ensures
        r@ == spec_dec(n as int),
    decreases n,
{
    if n < 10 {
        let d = digit_str(n as u32);
        d.to_owned()
    } else {
        let mut s = dec_str(n / 10);
        s.append(digit_str((n % 10) as u32));
        s
    }
}

/// Escapes a string for a JSON string literal.
pub fn json_escape(s: &str) -> (r: String)
    ensures
        r@ == spec_json_escape(s@),
{
    let n: usize = s.unicode_len();
    let mut out = String::new();
    proof {
        assert(s@.take(0) =~= Seq::<char>::empty());
    }
    let mut start: usize = 0;
    let mut i: usize = 0;
    while i < n
        invariant
            0 <= start <= i <= n,
            n == s@.len(),
            out@ == spec_json_escape(s@.take(start as int)),
            forall|k: int| start <= k < i ==> json_plain(#[trigger] s@[k]),
        decreases n - i,
    {
        let c = s.get_char(i);
        if c == '"' || c == '\\' || (c as u32) < 32 {
            let run = s.substring_char(start, i);
            out.append(run);
            proof {
                lemma_json_escape_plain(s@.subrange(start as int, i as int));
                lemma_json_escape_concat(s@.take(start as int), s@.subrange(start as int, i as int));
                assert(s@.take(start as int) + s@.subrange(start as int, i as int) =~= s@.take(
                    i as int,
                ));
            }
            if c == '"' {
                out.append("\\\"");
                proof {
                    reveal_strlit("\\\"");
                    assert("\\\""@ =~= spec_json_escape_char(c));
                }
            } else if c == '\\' {
                out.append("\\\\");
                proof {
                    reveal_strlit("\\\\");
                    assert("\\\\"@ =~= spec_json_escape_char(c));
                }
            } else if c == '\n' {
                out.append("\\n");
                proof {
                    reveal_strlit("\\n");
                    assert("\\n"@ =~= spec_json_escape_char(c));
                }
            } else if c == '\r' {
                out.append("\\r");
                proof {
                    reveal_strlit("\\r");
                    assert("\\r"@ =~= spec_json_escape_char(c));
                }
            } else if c == '\t' {
                out.append("\\t");
                proof {
                    reveal_strlit("\\t");
                    assert("\\t"@ =~= spec_json_escape_char(c));
                }
            } else {
                out.append("\\u00");
                out.append(digit_str((c as u32) / 16));
                out.append(digit_str((c as u32) % 16));
                proof {
                    reveal_strlit("\\u00");
                    assert(("\\u00"@ + seq![spec_digit((c as u32 / 16) as int)]) + seq![
                        spec_digit((c as u32 % 16) as int),
                    ] =~= spec_json_escape_char(c));
                }
            }
            proof {
                lemma_json_escape_concat(s@.take(i as int), seq![c]);
                assert(s@.take(i as int) + seq![c] =~= s@.take(i + 1));
                assert(seq![c].drop_last() =~= Seq::<char>::empty());
                assert(seq![c].last() == c);
                assert(spec_json_escape(Seq::<char>::empty()) == Seq::<char>::empty());
                assert(Seq::<char>::empty() + spec_json_escape_char(c)
                    =~= spec_json_escape_char(c));
                assert(spec_json_escape(seq![c]) =~= spec_json_escape_char(c));
            }
            i = i + 1;
            start = i;
        } else {
            i = i + 1;
        }
    }
    let run = s.substring_char(start, n);
    out.append(run);
    proof {
        lemma_json_escape_plain(s@.subrange(start as int, n as int));
        lemma_json_escape_concat(s@.take(start as int), s@.subrange(start as int, n as int));
        assert(s@.take(start as int) + s@.subrange(start as int, n as int) =~= s@.take(n as int));
        assert(s@.take(n as int) =~= s@);
    }
    out
}

/// Escapes a string for HTML text and attribute values.
pub fn html_escape(s: &str) -> (r: String)
    ensures
        r@ == spec_html_escape(s@),
{
    let n: usize = s.unicode_len();
    let mut out = String::new();
    proof {
        assert(s@.take(0) =~= Seq::<char>::empty());
    }
    let mut start: usize = 0;
    let mut i: usize = 0;
    while i < n
        invariant
            0 <= start <= i <= n,
            n == s@.len(),
            out@ == spec_html_escape(s@.take(start as int)),
            forall|k: int| start <= k < i ==> html_plain(#[trigger] s@[k]),
        decreases n - i,
    {
        let c = s.get_char(i);
        if c == '&' || c == '<' || c == '>' || c == '"' || c == '\'' {
            let run = s.substring_char(start, i);
            out.append(run);
            proof {
                lemma_html_escape_plain(s@.subrange(start as int, i as int));
                lemma_html_escape_concat(s@.take(start as int), s@.subrange(start as int, i as int));
                assert(s@.take(start as int) + s@.subrange(start as int, i as int) =~= s@.take(
                    i as int,
                ));
            }
            if c == '&' {
                out.append("&amp;");
                proof {
                    reveal_strlit("&amp;");
                    assert("&amp;"@ =~= spec_html_escape_char(c));
                }
            } else if c == '<' {
                out.append("&lt;");
                proof {
                    reveal_strlit("&lt;");
                    assert("&lt;"@ =~= spec_html_escape_char(c));
                }
            } else if c == '>' {
                out.append("&gt;");
                proof {
                    reveal_strlit("&gt;");
                    assert("&gt;"@ =~= spec_html_escape_char(c));
                }
            } else if c == '"' {
                out.append("&quot;");
                proof {
                    reveal_strlit("&quot;");
                    assert("&quot;"@ =~= spec_html_escape_char(c));
                }
            } else {
                out.append("&#39;");
                proof {
                    reveal_strlit("&#39;");
                    assert("&#39;"@ =~= spec_html_escape_char(c));
                }
            }
            proof {
                lemma_html_escape_concat(s@.take(i as int), seq![c]);
                assert(s@.take(i as int) + seq![c] =~= s@.take(i + 1));
                assert(seq![c].drop_last() =~= Seq::<char>::empty());
                assert(seq![c].last() == c);
                assert(spec_html_escape(Seq::<char>::empty()) == Seq::<char>::empty());
                assert(Seq::<char>::empty() + spec_html_escape_char(c)
                    =~= spec_html_escape_char(c));
                assert(spec_html_escape(seq![c]) =~= spec_html_escape_char(c));
            }
            i = i + 1;
            start = i;
        } else {
            i = i + 1;
        }
    }
    let run = s.substring_char(start, n);
    out.append(run);
    proof {
        lemma_html_escape_plain(s@.subrange(start as int, n as int));
        lemma_html_escape_concat(s@.take(start as int), s@.subrange(start as int, n as int));
        assert(s@.take(start as int) + s@.subrange(start as int, n as int) =~= s@.take(n as int));
        assert(s@.take(n as int) =~= s@);
    }
    out
}


/// Text whose control characters are among tab, newline and carriage
/// return: what the short JSON escape forms can carry.
pub open spec fn json_text(s: Seq<char>) -> bool {
    forall|k: int|
        0 <= k < s.len() ==> ((#[trigger] s[k]) as u32 >= 32 || s[k] == '\t' || s[k] == '\n'
            || s[k] == '\r')
}

/// The numeric value of one decimal digit character.
pub open spec fn spec_digit_val(c: char) -> int {
    if c == '0' { 0 } else if c == '1' { 1 } else if c == '2' { 2 } else if c == '3' { 3 }
    else if c == '4' { 4 } else if c == '5' { 5 } else if c == '6' { 6 } else if c == '7' { 7 }
    else if c == '8' { 8 } else if c == '9' { 9 } else { 0 }
}

/// The numeric value of a decimal digit string.
pub open spec fn spec_parse_dec(s: Seq<char>) -> int
    decreases s.len(),
{
    if s.len() == 0 {
        0
    } else {
        spec_parse_dec(s.drop_last()) * 10 + spec_digit_val(s.last())
    }
}

/// Counts round-trip: parsing the decimal rendering of a non-negative number
/// returns the number.
pub proof fn lemma_dec_round_trip(n: int)
    requires
        n >= 0,
    ensures
        spec_parse_dec(spec_dec(n)) == n,
    decreases n,
{
    if n < 10 {
        assert(seq![spec_digit(n)].drop_last() =~= Seq::<char>::empty());
        assert(seq![spec_digit(n)].last() == spec_digit(n));
        assert(spec_parse_dec(Seq::<char>::empty()) == 0);
    } else {
        lemma_dec_round_trip(n / 10);
        vstd::arithmetic::div_mod::lemma_fundamental_div_mod(n, 10);
        let pre = spec_dec(n / 10);
        assert((pre + seq![spec_digit(n % 10)]).drop_last() =~= pre);
        assert((pre + seq![spec_digit(n % 10)]).last() == spec_digit(n % 10));
        assert(spec_digit_val(spec_digit(n % 10)) == n % 10);
    }
}
} // verus!
