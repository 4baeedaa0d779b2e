//! The executable scanner: character classes, token runs, the quoted-value
//! scanner with escape handling, and the scan of one `key = value` pair. Each
//! function is proved against the model in [`crate::grammar`].

use vstd::prelude::*;

use crate::grammar::ErrorKind;
use crate::grammar::is_key_char;
use crate::grammar::is_plain;
use crate::grammar::is_ws;
use crate::grammar::key_end;
use crate::grammar::lemma_key_end_is;
use crate::grammar::lemma_nonws_end_is;
use crate::grammar::lemma_plain_end;
use crate::grammar::lemma_plain_end_is;
use crate::grammar::lemma_spec_quoted_bounds;
use crate::grammar::lemma_spec_quoted_cases;
use crate::grammar::lemma_ws_end_is;
use crate::grammar::nonws_end;
use crate::grammar::plain_end;
use crate::grammar::quoted_no_escape;
use crate::grammar::spec_header;
use crate::grammar::spec_pair;
use crate::grammar::spec_quoted;
use crate::grammar::spec_value;
use crate::grammar::value_borrowable;
use crate::grammar::ws_end;

verus! {

/// A scan failure: what went wrong and the character position at which the
/// scanner stopped.
#[derive(Clone, Copy, Debug, PartialEq, Eq, Structural)]
pub struct ParseError {
    pub kind: ErrorKind,
    pub offset: usize,
}

/// A value scanned out of the input: a sub-slice of the input buffer wherever
/// possible, a fresh allocation only where an escape forced a rewrite.
#[derive(Debug)]
pub enum StringOrStr<'a> {
    /// Freshly allocated text, independent of the input buffer.
    Owned(String),
    /// A sub-range of the input buffer; no copy was made.
    Borrowed(&'a str),
}

impl<'a> View for StringOrStr<'a> {
    type V = Seq<char>;

    open spec fn view(&self) -> Seq<char> {
        match self {
            StringOrStr::Owned(t) => t@,
            StringOrStr::Borrowed(t) => t@,
        }
    }
}

impl<'a> StringOrStr<'a> {
    /// The text of the value, whichever way it is held.
    pub fn as_str(&self) -> (r: &str)
        ensures
            r@ == self@,
    {
        match self {
            StringOrStr::Owned(t) => t.as_str(),
            StringOrStr::Borrowed(t) => t,
        }
    }

    /// Whether the value is a sub-slice of the input buffer.
    pub fn is_borrowed(&self) -> (r: bool)
        ensures
            r == (self is Borrowed),
    {
        match self {
            StringOrStr::Owned(_) => false,
            StringOrStr::Borrowed(_) => true,
        }
    }
}

impl<'a> From<&'a str> for StringOrStr<'a> {
    fn from(value: &'a str) -> (r: Self) {
        StringOrStr::Borrowed(value)
    }
}

impl<'a> vstd::std_specs::convert::FromSpecImpl<&'a str> for StringOrStr<'a> {
    open spec fn obeys_from_spec() -> bool {
        true
    }

    open spec fn from_spec(value: &'a str) -> Self {
        StringOrStr::Borrowed(value)
    }
}

impl<'a> From<String> for StringOrStr<'a> {
    fn from(value: String) -> (r: Self) {
        StringOrStr::Owned(value)
    }
}

impl<'a> vstd::std_specs::convert::FromSpecImpl<String> for StringOrStr<'a> {
    open spec fn obeys_from_spec() -> bool {
        true
    }

    open spec fn from_spec(value: String) -> Self {
        StringOrStr::Owned(value)
    }
}

fn is_ws_char(c: char) -> (r: bool)
    ensures
        r == is_ws(c),
{
    c == ' ' || c == '\t' || c == '\n' || c == '\r'
}

fn is_key_char_at(c: char) -> (r: bool)
    ensures
        r == is_key_char(c),
{
    let u = c as u32;
    ('a' as u32 <= u && u <= 'z' as u32) || ('A' as u32 <= u && u <= 'Z' as u32) || ('0' as u32
        <= u && u <= '9' as u32) || c == '-' || c == '_'
}

fn is_plain_char(c: char) -> (r: bool)
    ensures
        r == is_plain(c),
{
    c != '"' && c != '\\'
}

/// The position of the first non-whitespace character at or after `start`.
pub(crate) fn skip_ws(s: &str, start: usize) -> (r: usize)
    requires
        start <= s@.len(),
    ensures
        r == ws_end(s@, start as int),
        start <= r <= s@.len(),
{
    let n = s.unicode_len();
    let mut i = start;
    loop
        invariant
            start <= i <= n,
            n == s@.len(),
            forall|j: int| start <= j < i ==> is_ws(s@[j]),
        ensures
            start <= i <= n,
            forall|j: int| start <= j < i ==> is_ws(s@[j]),
            i == n || !is_ws(s@[i as int]),
        decreases n - i,
    {
        if i == n {
            break ;
        }
        if !is_ws_char(s.get_char(i)) {
            break ;
        }
        i = i + 1;
    }
    proof {
        lemma_ws_end_is(s@, start as int, i as int);
    }
    i
}

/// The position of the first non-key character at or after `start`.
fn skip_key(s: &str, start: usize) -> (r: usize)
    requires
        start <= s@.len(),
    ensures
        r == key_end(s@, start as int),
        start <= r <= s@.len(),
{
    let n = s.unicode_len();
    let mut i = start;
    loop
        invariant
            start <= i <= n,
            n == s@.len(),
            forall|j: int| start <= j < i ==> is_key_char(s@[j]),
        ensures
            start <= i <= n,
            forall|j: int| start <= j < i ==> is_key_char(s@[j]),
            i == n || !is_key_char(s@[i as int]),
        decreases n - i,
    {
        if i == n {
            break ;
        }
        if !is_key_char_at(s.get_char(i)) {
            break ;
        }
        i = i + 1;
    }
    proof {
        lemma_key_end_is(s@, start as int, i as int);
    }
    i
}

/// The position of the first whitespace character at or after `start`.
fn skip_nonws(s: &str, start: usize) -> (r: usize)
    requires
        start <= s@.len(),
    ensures
        r == nonws_end(s@, start as int),
        start <= r <= s@.len(),
{
    let n = s.unicode_len();
    let mut i = start;
    loop
        invariant
            start <= i <= n,
            n == s@.len(),
            forall|j: int| start <= j < i ==> !is_ws(s@[j]),
        ensures
            start <= i <= n,
            forall|j: int| start <= j < i ==> !is_ws(s@[j]),
            i == n || is_ws(s@[i as int]),
        decreases n - i,
    {
        if i == n {
            break ;
        }
        if is_ws_char(s.get_char(i)) {
            break ;
        }
        i = i + 1;
    }
    proof {
        lemma_nonws_end_is(s@, start as int, i as int);
    }
    i
}

/// The position of the first quote or backslash at or after `start`.
fn skip_plain(s: &str, start: usize) -> (r: usize)
    requires
        start <= s@.len(),
    ensures
        r == plain_end(s@, start as int),
        start <= r <= s@.len(),
{
    let n = s.unicode_len();
    let mut i = start;
    loop
        invariant
            start <= i <= n,
            n == s@.len(),
            forall|j: int| start <= j < i ==> is_plain(s@[j]),
        ensures
            start <= i <= n,
            forall|j: int| start <= j < i ==> is_plain(s@[j]),
            i == n || !is_plain(s@[i as int]),
        decreases n - i,
    {
        if i == n {
            break ;
        }
        if !is_plain_char(s.get_char(i)) {
            break ;
        }
        i = i + 1;
    }
    proof {
        lemma_plain_end_is(s@, start as int, i as int);
    }
    i
}

/// Character-for-character equality of two string slices.
pub fn str_eq(a: &str, b: &str) -> (r: bool)
    ensures
        r == (a@ == b@),
{
    let na = a.unicode_len();
    let nb = b.unicode_len();
    if na != nb {
        return false;
    }
    let mut i: usize = 0;
    loop
        invariant
            i <= na,
            na == a@.len(),
            nb == b@.len(),
            na == nb,
            forall|j: int| 0 <= j < i ==> a@[j] == b@[j],
        ensures
            i == na,
            forall|j: int| 0 <= j < i ==> a@[j] == b@[j],
        decreases na - i,
    {
        if i == na {
            break ;
        }
        if a.get_char(i) != b.get_char(i) {
            return false;
        }
        i = i + 1;
    }
    proof {
        assert(a@ =~= b@);
    }
    true
}

/// Scan the inside of a quoted value, `start` being the position just after
/// the opening quote. The decoded content is a borrowed sub-slice exactly when
/// no escape occurs before the closing quote; an escape switches to a fresh
/// accumulator. `None` means the closing quote is missing.
fn scan_quoted<'a>(s: &'a str, start: usize) -> (r: Option<(StringOrStr<'a>, usize)>)
    requires
        start <= s@.len(),
    ensures
        match r {
            Some((v, n)) => {
                &&& spec_quoted(s@, start as int) == Some((v@, n as int))
                &&& start < n <= s@.len()
                &&& (v is Borrowed <==> quoted_no_escape(s@, start as int))
            },
            None => spec_quoted(s@, start as int) is None,
        },
{
    let n = s.unicode_len();
    let r = skip_plain(s, start);
    proof {
        lemma_plain_end(s@, start as int);
        lemma_spec_quoted_cases(s@, start as int);
    }
    if r == n {
        return None;
    }
    if s.get_char(r) == '"' {
        return Some((StringOrStr::Borrowed(s.substring_char(start, r)), r + 1));
    }
    // A backslash: from here on the result must be owned.
    if r + 1 == n {
        return None;
    }
    let mut acc = String::from_str(s.substring_char(start, r));
    acc.append(s.substring_char(r + 1, r + 2));
    proof {
        assert(acc@ =~= s@.subrange(start as int, r as int).push(s@[r as int + 1]));
    }
    let mut i = r + 2;
    loop
        invariant
            i <= n,
            n == s@.len(),
            start < i,
            !quoted_no_escape(s@, start as int),
            spec_quoted(s@, i as int) is None ==> spec_quoted(s@, start as int) is None,
            spec_quoted(s@, i as int) matches Some((tail, m)) ==> spec_quoted(s@, start as int)
                == Some((acc@ + tail, m)),
        decreases n - i,
    {
        let r2 = skip_plain(s, i);
        proof {
            lemma_plain_end(s@, i as int);
            lemma_spec_quoted_cases(s@, i as int);
        }
        if r2 == n {
            return None;
        }
        let ghost acc_pre = acc@;
        acc.append(s.substring_char(i, r2));
        if s.get_char(r2) == '"' {
            proof {
                assert(spec_quoted(s@, i as int) == Some(
                    (s@.subrange(i as int, r2 as int), r2 as int + 1),
                ));
            }
            return Some((StringOrStr::Owned(acc), r2 + 1));
        }
        if r2 + 1 == n {
            return None;
        }
        acc.append(s.substring_char(r2 + 1, r2 + 2));
        proof {
            match spec_quoted(s@, r2 as int + 2) {
                None => {},
                Some((tail, m)) => {
                    assert(acc_pre + (s@.subrange(i as int, r2 as int).push(s@[r2 as int + 1])
                        + tail) =~= acc@ + tail);
                },
            }
        }
        i = r2 + 2;
    }
}


/// Advance past the inside of a quoted value without retaining its content,
/// `start` being the position just after the opening quote. This is proved
/// against the very same scan as the capturing reader, so the two cannot
/// diverge on any input.
fn skip_quoted(s: &str, start: usize) -> (r: Option<usize>)
    requires
        start <= s@.len(),
    ensures
        match r {
            Some(n) => spec_quoted(s@, start as int) matches Some((c, m)) && m == n as int && start
                < n <= s@.len(),
            None => spec_quoted(s@, start as int) is None,
        },
{
    let n = s.unicode_len();
    let mut i = start;
    proof {
        lemma_spec_quoted_bounds(s@, start as int);
    }
    loop
        invariant
            start <= i <= n,
            n == s@.len(),
            spec_quoted(s@, i as int) is None ==> spec_quoted(s@, start as int) is None,
            spec_quoted(s@, i as int) matches Some((tail, m)) ==> (spec_quoted(s@, start as int)
                matches Some((c0, m0)) && m0 == m && i < m <= s@.len()),
        decreases n - i,
    {
        let r = skip_plain(s, i);
        proof {
            lemma_plain_end(s@, i as int);
            lemma_spec_quoted_cases(s@, i as int);
            lemma_spec_quoted_bounds(s@, i as int);
        }
        if r == n {
            return None;
        }
        if s.get_char(r) == '"' {
            return Some(r + 1);
        }
        if r + 1 == n {
            return None;
        }
        proof {
            lemma_spec_quoted_bounds(s@, r as int + 2);
        }
        i = r + 2;
    }
}

/// Read one value starting at `start`: quoted when a quote stands there,
/// otherwise the (possibly empty) run of non-whitespace characters. On success
/// the result is the value and the position just after it; the value is
/// borrowed from the input exactly when no escape forced a rewrite.
pub fn parse_value<'a>(s: &'a str, start: usize) -> (r: Result<(StringOrStr<'a>, usize), ParseError>)
    requires
        start <= s@.len(),
    ensures
        match r {
            Ok((v, e)) => {
                &&& spec_value(s@, start as int) == Ok::<_, (ErrorKind, int)>((v@, e as int))
                &&& start <= e <= s@.len()
                &&& (v is Borrowed <==> value_borrowable(s@, start as int))
            },
            Err(e) => spec_value(s@, start as int) == Err::<(Seq<char>, int), _>(
                (e.kind, e.offset as int),
            ),
        },
{
    let n = s.unicode_len();
    if start < n && s.get_char(start) == '"' {
        match scan_quoted(s, start + 1) {
            Some((v, e)) => Ok((v, e)),
            None => Err(ParseError { kind: ErrorKind::UnterminatedQuotedValue, offset: start }),
        }
    } else {
        let e = skip_nonws(s, start);
        Ok((StringOrStr::Borrowed(s.substring_char(start, e)), e))
    }
}

/// Advance past one value without retaining it, proved against the same scan
/// as the capturing reader.
pub(crate) fn skip_value(s: &str, start: usize) -> (r: Result<usize, ParseError>)
    requires
        start <= s@.len(),
    ensures
        match r {
            Ok(e) => spec_value(s@, start as int) matches Ok((c, m)) && m == e as int && start <= e
                <= s@.len(),
            Err(e) => spec_value(s@, start as int) == Err::<(Seq<char>, int), _>(
                (e.kind, e.offset as int),
            ),
        },
{
    let n = s.unicode_len();
    if start < n && s.get_char(start) == '"' {
        match skip_quoted(s, start + 1) {
            Some(e) => Ok(e),
            None => Err(ParseError { kind: ErrorKind::UnterminatedQuotedValue, offset: start }),
        }
    } else {
        Ok(skip_nonws(s, start))
    }
}

/// Scan `key ws* '='` starting at `start` and skip the whitespace after the
/// `=`. On success the result is the key as a sub-slice of the input and the
/// position where the value starts.
pub(crate) fn scan_header<'a>(s: &'a str, start: usize) -> (r: Result<(&'a str, usize), ParseError>)
    requires
        start <= s@.len(),
    ensures
        match r {
            Ok((k, w)) => spec_header(s@, start as int) matches Ok((kk, ww)) && kk == k@ && ww == w
                as int && start < w <= s@.len(),
            Err(e) => spec_header(s@, start as int) == Err::<(Seq<char>, int), _>(
                (e.kind, e.offset as int),
            ),
        },
{
    let n = s.unicode_len();
    let k = skip_key(s, start);
    if k == start {
        return Err(ParseError { kind: ErrorKind::MalformedKey, offset: start });
    }
    let m = skip_ws(s, k);
    if m == n {
        return Err(ParseError { kind: ErrorKind::MissingDelimiter, offset: m });
    }
    if s.get_char(m) != '=' {
        return Err(ParseError { kind: ErrorKind::MissingDelimiter, offset: m });
    }
    let w = skip_ws(s, m + 1);
    Ok((s.substring_char(start, k), w))
}

/// Scan one whole `key = value` pair starting at `start` and skip the
/// whitespace after the value. On success the result is the key, the value,
/// and the position where the next pair would start.
pub(crate) fn parse_pair<'a>(s: &'a str, start: usize) -> (r: Result<
    (&'a str, StringOrStr<'a>, usize),
    ParseError,
>)
    requires
        start <= s@.len(),
    ensures
        match r {
            Ok((k, v, e)) => spec_pair(s@, start as int) == Ok::<_, (ErrorKind, int)>(
                (k@, v@, e as int),
            ) && start < e <= s@.len(),
            Err(e) => spec_pair(s@, start as int) == Err::<(Seq<char>, Seq<char>, int), _>(
                (e.kind, e.offset as int),
            ),
        },
{
    let (k, w) = match scan_header(s, start) {
        Ok(kw) => kw,
        Err(e) => {
            return Err(e);
        },
    };
    let (v, vend) = match parse_value(s, w) {
        Ok(ve) => ve,
        Err(e) => {
            return Err(e);
        },
    };
    let e = skip_ws(s, vend);
    Ok((k, v, e))
}

} // verus!
