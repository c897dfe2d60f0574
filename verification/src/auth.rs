//! Reading the bearer token out of an `Authorization` header value.

use vstd::prelude::*;
use vstd::string::StrSliceExecFns;
use vstd::string::StringExecFns;

verus! {

/// The scheme prefix in front of a bearer token.
pub open spec fn bearer_prefix() -> Seq<char> {
    seq!['B', 'e', 'a', 'r', 'e', 'r', ' ']
}

/// `s` with every leading copy of the prefix `"Bearer "` removed.
pub open spec fn strip_bearer(s: Seq<char>) -> Seq<char>
    decreases s.len(),
{
    if s.len() >= 7 && s.subrange(0, 7) == bearer_prefix() {
        strip_bearer(s.subrange(7, s.len() as int))
    } else {
        s
    }
}

/// The characters with the Unicode `White_Space` property.
pub open spec fn is_white_space(c: char) -> bool {
    ||| '\u{9}' <= c <= '\u{d}'
    ||| c == ' '
    ||| c == '\u{85}'
    ||| c == '\u{a0}'
    ||| c == '\u{1680}'
    ||| '\u{2000}' <= c <= '\u{200a}'
    ||| c == '\u{2028}'
    ||| c == '\u{2029}'
    ||| c == '\u{202f}'
    ||| c == '\u{205f}'
    ||| c == '\u{3000}'
}

/// `s` without its leading white space.
pub open spec fn trim_start(s: Seq<char>) -> Seq<char>
    decreases s.len(),
{
    if s.len() > 0 && is_white_space(s[0]) {
        trim_start(s.drop_first())
    } else {
        s
    }
}

/// `s` without its trailing white space.
pub open spec fn trim_end(s: Seq<char>) -> Seq<char>
    decreases s.len(),
{
    if s.len() > 0 && is_white_space(s.last()) {
        trim_end(s.drop_last())
    } else {
        s
    }
}

/// The token a header value carries: the value without its leading
/// `"Bearer "` prefixes, trimmed of white space at both ends.
pub open spec fn header_token(header: Seq<char>) -> Seq<char> {
    trim_end(trim_start(strip_bearer(header)))
}

fn is_white_space_char(c: char) -> (b: bool)
    ensures
        b == is_white_space(c),
{
    ('\u{9}' <= c && c <= '\u{d}') || c == ' ' || c == '\u{85}' || c == '\u{a0}' || c == '\u{1680}' || ('\u{2000}' <= c
        && c <= '\u{200a}') || c == '\u{2028}' || c == '\u{2029}' || c == '\u{202f}' || c == '\u{205f}' || c == '\u{3000}'
}

fn prefix_at(s: &str, i: usize) -> (b: bool)
    requires
        i + 7 <= s@.len() <= usize::MAX,
    ensures
        b == (s@.subrange(i as int, i + 7) == bearer_prefix()),
{
    let b = s.get_char(i) == 'B' && s.get_char(i + 1) == 'e' && s.get_char(i + 2) == 'a' && s.get_char(i + 3) == 'r'
        && s.get_char(i + 4) == 'e' && s.get_char(i + 5) == 'r' && s.get_char(i + 6) == ' ';
    proof {
        let w = s@.subrange(i as int, i + 7);
        if b {
            assert(w =~= bearer_prefix());
        } else {
            if w == bearer_prefix() {
                assert(w[0] == 'B' && w[1] == 'e' && w[2] == 'a' && w[3] == 'r' && w[4] == 'e' && w[5] == 'r' && w[6] == ' ');
            }
        }
    }
    b
}

/// The bearer token of an `Authorization` header value: the value without
/// its leading `"Bearer "` prefixes (each one removed), trimmed of white
/// space; `None` when nothing is left.
pub fn bearer_token(header: &str) -> (token: Option<String>)
    ensures
        header_token(header@).len() == 0 ==> token is None,
        header_token(header@).len() > 0 ==> (token matches Some(t) && t@ == header_token(header@)),
{
    let n = header.unicode_len();
    let mut start: usize = 0;
    assert(header@.subrange(0, n as int) =~= header@);
    while n - start >= 7 && prefix_at(header, start)
        invariant
            n == header@.len(),
            start <= n,
            strip_bearer(header@) == strip_bearer(header@.subrange(start as int, n as int)),
        decreases n - start,
    {
        proof {
            let w = header@.subrange(start as int, n as int);
            assert(w.subrange(0, 7) =~= header@.subrange(start as int, start + 7));
            assert(w.subrange(7, w.len() as int) =~= header@.subrange(start + 7, n as int));
        }
        start = start + 7;
    }
    proof {
        let w = header@.subrange(start as int, n as int);
        if w.len() >= 7 {
            assert(w.subrange(0, 7) =~= header@.subrange(start as int, start + 7));
        }
    }
    while start < n && is_white_space_char(header.get_char(start))
        invariant
            n == header@.len(),
            start <= n,
            trim_start(strip_bearer(header@)) == trim_start(header@.subrange(start as int, n as int)),
        decreases n - start,
    {
        proof {
            let w = header@.subrange(start as int, n as int);
            assert(w.drop_first() =~= header@.subrange(start + 1, n as int));
        }
        start = start + 1;
    }
    proof {
        let w = header@.subrange(start as int, n as int);
        assert(trim_start(w) == w);
    }
    let mut end: usize = n;
    while end > start && is_white_space_char(header.get_char(end - 1))
        invariant
            n == header@.len(),
            start <= end <= n,
            header_token(header@) == trim_end(header@.subrange(start as int, end as int)),
            trim_start(strip_bearer(header@)) == trim_start(header@.subrange(start as int, n as int)),
        decreases end - start,
    {
        proof {
            let w = header@.subrange(start as int, end as int);
            assert(w.drop_last() =~= header@.subrange(start as int, end - 1));
        }
        end = end - 1;
    }
    proof {
        let w = header@.subrange(start as int, end as int);
        assert(trim_end(w) == w);
    }
    if start == end {
        None
    } else {
        let t = String::from_str(header.substring_char(start, end));
        Some(t)
    }
}

} // verus!
