//! Line-oriented text scanning: substring search, end-of-line detection,
//! whitespace trimming, and the domain part of an email address.

use vstd::prelude::*;
use vstd::string::*;

verus! {

/// First index `i >= from` at which `needle` occurs in `hay`, if any.
pub open spec fn spec_find_from(hay: Seq<char>, needle: Seq<char>, from: int) -> Option<int>
    decreases hay.len() - from,
{
    if from < 0 || from + needle.len() > hay.len() {
        None
    } else if needle.len() == 0 {
        Some(from)
    } else if hay.subrange(from, from + needle.len() as int) == needle {
        Some(from)
    } else {
        spec_find_from(hay, needle, from + 1)
    }
}

/// Index of the first `'\n'` at or after `i`, or the length of `s` if none.
pub open spec fn spec_eol(s: Seq<char>, i: int) -> int
    decreases s.len() - i,
{
    if i < 0 || i >= s.len() {
        s.len() as int
    } else if s[i] == '\n' {
        i
    } else {
        spec_eol(s, i + 1)
    }
}

/// The characters this library treats as whitespace when trimming.
pub open spec fn is_space(c: char) -> bool {
    c == ' ' || c == '\t' || c == '\r' || c == '\n' || c == '\u{b}' || c == '\u{c}'
}

pub open spec fn spec_trim_start(s: Seq<char>) -> Seq<char>
    decreases s.len(),
{
    if s.len() > 0 && is_space(s[0]) {
        spec_trim_start(s.drop_first())
    } else {
        s
    }
}

pub open spec fn spec_trim_end(s: Seq<char>) -> Seq<char>
    decreases s.len(),
{
    if s.len() > 0 && is_space(s.last()) {
        spec_trim_end(s.drop_last())
    } else {
        s
    }
}

/// `s` with leading and trailing whitespace removed.
pub open spec fn spec_trim(s: Seq<char>) -> Seq<char> {
    spec_trim_end(spec_trim_start(s))
}

/// Index of the last `'@'` in `s`, if any.
pub open spec fn spec_last_at(s: Seq<char>) -> Option<int>
    decreases s.len(),
{
    if s.len() == 0 {
        None
    } else if s.last() == '@' {
        Some(s.len() - 1)
    } else {
        spec_last_at(s.drop_last())
    }
}

/// The domain of an email address: everything after the last `'@'`.
/// `None` when the address holds no `'@'` at all.
pub open spec fn spec_domain(email: Seq<char>) -> Option<Seq<char>> {
    match spec_last_at(email) {
        None => None,
        Some(i) => Some(email.subrange(i + 1, email.len() as int)),
    }
}

/// Where `spec_last_at` points, an `'@'` stands, inside the string.
pub proof fn lemma_last_at_bounds(s: Seq<char>)
    ensures
        match spec_last_at(s) {
            None => true,
            Some(i) => 0 <= i < s.len() && s[i] == '@',
        },
    decreases s.len(),
{
    if s.len() > 0 && s.last() != '@' {
        lemma_last_at_bounds(s.drop_last());
    }
}

/// Finds the first occurrence of `needle` in `hay`, by character index.
pub fn find_str(hay: &str, needle: &str) -> (r: Option<usize>)
    ensures
        match r {
            Some(i) => spec_find_from(hay@, needle@, 0) == Some(i as int),
            None => spec_find_from(hay@, needle@, 0) is None,
        },
{
    let n: usize = hay.unicode_len();
    let m: usize = needle.unicode_len();
    if m > n {
        return None;
    }
    let mut i: usize = 0;
    while i <= n - m
        invariant
            0 <= i,
            m <= n,
            i + m <= n + 1,
            n == hay@.len(),
            m == needle@.len(),
            spec_find_from(hay@, needle@, 0) == spec_find_from(hay@, needle@, i as int),
        decreases n - i,
    {
        let mut j: usize = 0;
        let mut ok: bool = true;
        while j < m
            invariant
                0 <= j <= m,
                i + m <= n,
                n == hay@.len(),
                m == needle@.len(),
                ok ==> forall|k: int| 0 <= k < j ==> hay@[i + k] == needle@[k],
                !ok ==> m >= 1 && hay@.subrange(i as int, i + m) != needle@,
            decreases m - j,
        {
            if ok {
                let hc = hay.get_char(i + j);
                let nc = needle.get_char(j);
                if hc != nc {
                    proof {
                        assert(hay@.subrange(i as int, i + m)[j as int] == hay@[i + j]);
                    }
                    ok = false;
                }
            }
            j = j + 1;
        }
        if ok {
            proof {
                assert(hay@.subrange(i as int, i + m) =~= needle@);
            }
            return Some(i);
        }
        proof {
            reveal_with_fuel(spec_find_from, 2);
        }
        i = i + 1;
    }
    proof {
        reveal_with_fuel(spec_find_from, 2);
    }
    None
}

/// Finds the end of the line beginning at character index `i`.
pub fn find_eol(s: &str, i: usize) -> (r: usize)
    requires
        i <= s@.len(),
    ensures
        r == spec_eol(s@, i as int),
        i <= r <= s@.len(),
{
    let n: usize = s.unicode_len();
    let mut j: usize = i;
    while j < n
        invariant
            i <= j <= n,
            n == s@.len(),
            spec_eol(s@, i as int) == spec_eol(s@, j as int),
        decreases n - j,
    {
        if s.get_char(j) == '\n' {
            return j;
        }
        j = j + 1;
    }
    j
}

/// Removes leading and trailing whitespace.
pub fn trim(s: &str) -> (r: String)
    ensures
        r@ == spec_trim(s@),
{
    let n: usize = s.unicode_len();
    proof {
        assert(s@.skip(0) =~= s@);
    }
    let mut start: usize = 0;
    while start < n && is_space_exec(s.get_char(start))
        invariant
            0 <= start <= n,
            n == s@.len(),
            spec_trim_start(s@) == spec_trim_start(s@.skip(start as int)),
        decreases n - start,
    {
        proof {
            assert(s@.skip(start as int).drop_first() =~= s@.skip(start + 1));
        }
        start = start + 1;
    }
    proof {
        if start < n {
            assert(s@.skip(start as int)[0] == s@[start as int]);
        }
        assert(spec_trim_start(s@) == s@.skip(start as int));
        assert(s@.skip(start as int) =~= s@.subrange(start as int, n as int));
    }
    let mut end: usize = n;
    while end > start && is_space_exec(s.get_char(end - 1))
        invariant
            start <= end <= n,
            n == s@.len(),
            spec_trim_end(s@.skip(start as int)) == spec_trim_end(s@.subrange(start as int, end as int)),
        decreases end,
    {
        proof {
            assert(s@.subrange(start as int, end as int).last() == s@[end - 1]);
            assert(s@.subrange(start as int, end as int).drop_last() =~= s@.subrange(
                start as int,
                end - 1,
            ));
        }
        end = end - 1;
    }
    proof {
        if end > start {
            assert(s@.subrange(start as int, end as int).last() == s@[end - 1]);
        }
        assert(spec_trim_end(s@.subrange(start as int, end as int)) == s@.subrange(
            start as int,
            end as int,
        ));
        assert(spec_trim(s@) == s@.subrange(start as int, end as int));
    }
    let piece = s.substring_char(start, end);
    piece.to_owned()
}

/// Whether `c` counts as whitespace for trimming.
pub fn is_space_exec(c: char) -> (r: bool)
    ensures
        r == is_space(c),
{
    c == ' ' || c == '\t' || c == '\r' || c == '\n' || c == '\u{b}' || c == '\u{c}'
}

/// The domain of an email address, or `None` when it holds no `'@'`.
pub fn domain_of(email: &str) -> (r: Option<String>)
    ensures
        match r {
            Some(d) => spec_domain(email@) == Some(d@),
            None => spec_domain(email@) is None,
        },
{
    let n: usize = email.unicode_len();
    proof {
        assert(email@.take(n as int) =~= email@);
    }
    let mut i: usize = n;
    while i > 0
        invariant
            0 <= i <= n,
            n == email@.len(),
            spec_last_at(email@) == spec_last_at(email@.take(i as int)),
        decreases i,
    {
        proof {
            assert(email@.take(i as int).last() == email@[i - 1]);
            assert(email@.take(i as int).drop_last() =~= email@.take(i - 1));
        }
        if email.get_char(i - 1) == '@' {
            let d = email.substring_char(i, n);
            return Some(d.to_owned());
        }
        i = i - 1;
    }
    proof {
        assert(email@.take(0) =~= Seq::<char>::empty());
    }
    None
}

} // verus!
