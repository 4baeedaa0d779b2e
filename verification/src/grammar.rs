//! The mathematical model of the key/value grammar.
//!
//! Everything here is specification: character classes, the positions where
//! token runs end, the quoted-value scan with backslash escapes, one
//! `key = value` pair, a whole document, the table a document denotes, and the
//! targeted single-key lookup. The executable scanner is proved against these
//! functions.

use vstd::prelude::*;

verus! {

/// The ways a scan can fail. `KeyNotFound` is raised only by the targeted
/// lookup; the other three describe malformed input.
#[derive(Clone, Copy, Debug, PartialEq, Eq, Structural)]
pub enum ErrorKind {
    /// The scanner expected a key and found no key character.
    MalformedKey,
    /// The `=` between a key and its value is missing.
    MissingDelimiter,
    /// A quoted value reaches the end of the input before its closing quote.
    UnterminatedQuotedValue,
    /// The targeted lookup reached the end of the input without its key.
    KeyNotFound,
}

/// Whitespace that separates pairs and surrounds `=`.
pub open spec fn is_ws(c: char) -> bool {
    c == ' ' || c == '\t' || c == '\n' || c == '\r'
}

/// The key alphabet: ASCII letters, digits, `-` and `_`.
pub open spec fn is_key_char(c: char) -> bool {
    ||| 'a' as u32 <= c as u32 <= 'z' as u32
    ||| 'A' as u32 <= c as u32 <= 'Z' as u32
    ||| '0' as u32 <= c as u32 <= '9' as u32
    ||| c == '-'
    ||| c == '_'
}

/// A character that a quoted-value run can include as it stands: neither the
/// closing quote nor the start of an escape.
pub open spec fn is_plain(c: char) -> bool {
    c != '"' && c != '\\'
}

/// The first position at or after `i` holding a non-whitespace character, or
/// the end of the input.
pub open spec fn ws_end(s: Seq<char>, i: int) -> int
    decreases s.len() - i
        when 0 <= i <= s.len()
{
    if i < s.len() && is_ws(s[i]) {
        ws_end(s, i + 1)
    } else {
        i
    }
}

/// The first position at or after `i` holding a non-key character, or the end
/// of the input.
pub open spec fn key_end(s: Seq<char>, i: int) -> int
    decreases s.len() - i
        when 0 <= i <= s.len()
{
    if i < s.len() && is_key_char(s[i]) {
        key_end(s, i + 1)
    } else {
        i
    }
}

/// The first position at or after `i` holding a whitespace character, or the
/// end of the input.
pub open spec fn nonws_end(s: Seq<char>, i: int) -> int
    decreases s.len() - i
        when 0 <= i <= s.len()
{
    if i < s.len() && !is_ws(s[i]) {
        nonws_end(s, i + 1)
    } else {
        i
    }
}

/// The first position at or after `i` holding a quote or a backslash, or the
/// end of the input.
pub open spec fn plain_end(s: Seq<char>, i: int) -> int
    decreases s.len() - i
        when 0 <= i <= s.len()
{
    if i < s.len() && is_plain(s[i]) {
        plain_end(s, i + 1)
    } else {
        i
    }
}

pub proof fn lemma_ws_end(s: Seq<char>, i: int)
    requires
        0 <= i <= s.len(),
    ensures
        i <= ws_end(s, i) <= s.len(),
        forall|j: int| i <= j < ws_end(s, i) ==> is_ws(s[j]),
        ws_end(s, i) < s.len() ==> !is_ws(s[ws_end(s, i)]),
    decreases s.len() - i,
{
    if i < s.len() && is_ws(s[i]) {
        lemma_ws_end(s, i + 1);
    }
}

pub proof fn lemma_ws_end_is(s: Seq<char>, i: int, k: int)
    requires
        0 <= i <= k <= s.len(),
        forall|j: int| i <= j < k ==> is_ws(s[j]),
        k < s.len() ==> !is_ws(s[k]),
    ensures
        ws_end(s, i) == k,
    decreases k - i,
{
    if i < k {
        lemma_ws_end_is(s, i + 1, k);
    }
}

pub proof fn lemma_key_end(s: Seq<char>, i: int)
    requires
        0 <= i <= s.len(),
    ensures
        i <= key_end(s, i) <= s.len(),
        forall|j: int| i <= j < key_end(s, i) ==> is_key_char(s[j]),
        key_end(s, i) < s.len() ==> !is_key_char(s[key_end(s, i)]),
    decreases s.len() - i,
{
    if i < s.len() && is_key_char(s[i]) {
        lemma_key_end(s, i + 1);
    }
}

pub proof fn lemma_key_end_is(s: Seq<char>, i: int, k: int)
    requires
        0 <= i <= k <= s.len(),
        forall|j: int| i <= j < k ==> is_key_char(s[j]),
        k < s.len() ==> !is_key_char(s[k]),
    ensures
        key_end(s, i) == k,
    decreases k - i,
{
    if i < k {
        lemma_key_end_is(s, i + 1, k);
    }
}

pub proof fn lemma_nonws_end(s: Seq<char>, i: int)
    requires
        0 <= i <= s.len(),
    ensures
        i <= nonws_end(s, i) <= s.len(),
        forall|j: int| i <= j < nonws_end(s, i) ==> !is_ws(s[j]),
        nonws_end(s, i) < s.len() ==> is_ws(s[nonws_end(s, i)]),
    decreases s.len() - i,
{
    if i < s.len() && !is_ws(s[i]) {
        lemma_nonws_end(s, i + 1);
    }
}

pub proof fn lemma_nonws_end_is(s: Seq<char>, i: int, k: int)
    requires
        0 <= i <= k <= s.len(),
        forall|j: int| i <= j < k ==> !is_ws(s[j]),
        k < s.len() ==> is_ws(s[k]),
    ensures
        nonws_end(s, i) == k,
    decreases k - i,
{
    if i < k {
        lemma_nonws_end_is(s, i + 1, k);
    }
}

pub proof fn lemma_plain_end(s: Seq<char>, i: int)
    requires
        0 <= i <= s.len(),
    ensures
        i <= plain_end(s, i) <= s.len(),
        forall|j: int| i <= j < plain_end(s, i) ==> is_plain(s[j]),
        plain_end(s, i) < s.len() ==> !is_plain(s[plain_end(s, i)]),
    decreases s.len() - i,
{
    if i < s.len() && is_plain(s[i]) {
        lemma_plain_end(s, i + 1);
    }
}

pub proof fn lemma_plain_end_is(s: Seq<char>, i: int, k: int)
    requires
        0 <= i <= k <= s.len(),
        forall|j: int| i <= j < k ==> is_plain(s[j]),
        k < s.len() ==> !is_plain(s[k]),
    ensures
        plain_end(s, i) == k,
    decreases k - i,
{
    if i < k {
        lemma_plain_end_is(s, i + 1, k);
    }
}

/// Scan the inside of a quoted value starting at `i`, the position just after
/// the opening quote. On success the result is the decoded content — each
/// `\X` contributes the literal `X` — together with the position just after
/// the closing quote. `None` means the input ends before a closing quote.
pub open spec fn spec_quoted(s: Seq<char>, i: int) -> Option<(Seq<char>, int)>
    decreases s.len() - i
        when 0 <= i <= s.len()
{
    if i == s.len() {
        None
    } else if s[i] == '"' {
        Some((Seq::empty(), i + 1))
    } else if s[i] == '\\' {
        if i + 1 == s.len() {
            None
        } else {
            match spec_quoted(s, i + 2) {
                None => None,
                Some((tail, n)) => Some((seq![s[i + 1]] + tail, n)),
            }
        }
    } else {
        match spec_quoted(s, i + 1) {
            None => None,
            Some((tail, n)) => Some((seq![s[i]] + tail, n)),
        }
    }
}

pub proof fn lemma_spec_quoted_bounds(s: Seq<char>, i: int)
    requires
        0 <= i <= s.len(),
    ensures
        spec_quoted(s, i) matches Some((c, n)) ==> i < n <= s.len(),
    decreases s.len() - i,
{
    if i < s.len() && s[i] == '\\' && i + 1 < s.len() {
        lemma_spec_quoted_bounds(s, i + 2);
    } else if i < s.len() && s[i] != '"' && s[i] != '\\' {
        lemma_spec_quoted_bounds(s, i + 1);
    }
}

/// How the scan behaves over a whole run of plain characters: it reaches the
/// first quote or backslash at `plain_end` with the run contributed verbatim.
pub proof fn lemma_spec_quoted_cases(s: Seq<char>, i: int)
    requires
        0 <= i <= s.len(),
    ensures
        ({
            let r = plain_end(s, i);
            &&& (r == s.len() ==> spec_quoted(s, i) is None)
            &&& (r < s.len() && s[r] == '"' ==> spec_quoted(s, i) == Some(
                (s.subrange(i, r), r + 1),
            ))
            &&& (r < s.len() && s[r] == '\\' && r + 1 == s.len() ==> spec_quoted(s, i) is None)
            &&& (r < s.len() && s[r] == '\\' && r + 1 < s.len() && spec_quoted(s, r + 2) is None
                ==> spec_quoted(s, i) is None)
            &&& (r < s.len() && s[r] == '\\' && r + 1 < s.len() ==> (spec_quoted(s, r + 2)
                matches Some((tail, n)) ==> spec_quoted(s, i) == Some(
                (s.subrange(i, r).push(s[r + 1]) + tail, n),
            )))
        }),
    decreases s.len() - i,
{
    lemma_plain_end(s, i);
    let r = plain_end(s, i);
    if i < s.len() && is_plain(s[i]) {
        lemma_spec_quoted_cases(s, i + 1);
        assert(plain_end(s, i + 1) == r);
        if r < s.len() && s[r] == '"' {
            assert(seq![s[i]] + s.subrange(i + 1, r) =~= s.subrange(i, r));
            assert(spec_quoted(s, i + 1) == Some((s.subrange(i + 1, r), r + 1)));
        } else if r < s.len() && s[r] == '\\' && r + 1 < s.len() {
            match spec_quoted(s, r + 2) {
                None => {},
                Some((tail, n)) => {
                    assert(seq![s[i]] + (s.subrange(i + 1, r).push(s[r + 1]) + tail) =~= s.subrange(
                        i,
                        r,
                    ).push(s[r + 1]) + tail);
                },
            }
        }
    } else if i < s.len() {
        if s[i] == '"' {
            assert(s.subrange(i, i) =~= Seq::<char>::empty());
        } else if i + 1 < s.len() {
            match spec_quoted(s, i + 2) {
                None => {},
                Some((tail, n)) => {
                    assert(s.subrange(i, i).push(s[i + 1]) + tail =~= seq![s[i + 1]] + tail);
                },
            }
        }
    }
}

/// A quoted value whose content starts at `i` (just after the opening quote)
/// holds no escape: its first quote or backslash is the closing quote itself.
/// Exactly these quoted values can be returned as borrowed sub-slices.
pub open spec fn quoted_no_escape(s: Seq<char>, i: int) -> bool {
    plain_end(s, i) < s.len() && s[plain_end(s, i)] == '"'
}

/// A value starting at `w` needs no allocation: every unquoted value, and a
/// quoted one only when no escape occurs in it.
pub open spec fn value_borrowable(s: Seq<char>, w: int) -> bool {
    w < s.len() && s[w] == '"' ==> quoted_no_escape(s, w + 1)
}

/// Scan `key ws* '='` starting at `i` and skip the whitespace after the `=`.
/// On success the result is the key and the position where the value starts.
/// Errors carry the position at which the scan failed.
pub open spec fn spec_header(s: Seq<char>, i: int) -> Result<(Seq<char>, int), (ErrorKind, int)> {
    let k = key_end(s, i);
    if k == i {
        Err((ErrorKind::MalformedKey, i))
    } else {
        let m = ws_end(s, k);
        if m == s.len() || s[m] != '=' {
            Err((ErrorKind::MissingDelimiter, m))
        } else {
            Ok((s.subrange(i, k), ws_end(s, m + 1)))
        }
    }
}

/// Scan one value starting at `w`: quoted when a quote stands there, otherwise
/// the run of non-whitespace characters (possibly empty). On success the
/// result is the value's content and the position just after the value.
pub open spec fn spec_value(s: Seq<char>, w: int) -> Result<(Seq<char>, int), (ErrorKind, int)> {
    if w < s.len() && s[w] == '"' {
        match spec_quoted(s, w + 1) {
            None => Err((ErrorKind::UnterminatedQuotedValue, w)),
            Some((content, n)) => Ok((content, n)),
        }
    } else {
        Ok((s.subrange(w, nonws_end(s, w)), nonws_end(s, w)))
    }
}

/// Scan one `key = value` pair starting at `i` (a non-whitespace position) and
/// skip the whitespace after the value. On success the result is the key, the
/// value's content, and the position where the next pair would start.
pub open spec fn spec_pair(s: Seq<char>, i: int) -> Result<
    (Seq<char>, Seq<char>, int),
    (ErrorKind, int),
> {
    match spec_header(s, i) {
        Err(e) => Err(e),
        Ok((key, w)) => match spec_value(s, w) {
            Err(e) => Err(e),
            Ok((val, vend)) => Ok((key, val, ws_end(s, vend))),
        },
    }
}

pub proof fn lemma_spec_header_progress(s: Seq<char>, i: int)
    requires
        0 <= i <= s.len(),
    ensures
        spec_header(s, i) matches Ok((key, w)) ==> i < w <= s.len() && key.len() > 0,
{
    lemma_key_end(s, i);
    let k = key_end(s, i);
    if k != i {
        lemma_ws_end(s, k);
        let m = ws_end(s, k);
        if !(m == s.len() || s[m] != '=') {
            lemma_ws_end(s, m + 1);
        }
    }
}

pub proof fn lemma_spec_value_progress(s: Seq<char>, w: int)
    requires
        0 <= w <= s.len(),
    ensures
        spec_value(s, w) matches Ok((v, e)) ==> w <= e <= s.len(),
{
    if w < s.len() && s[w] == '"' {
        lemma_spec_quoted_bounds(s, w + 1);
    } else {
        lemma_nonws_end(s, w);
    }
}

pub proof fn lemma_spec_pair_progress(s: Seq<char>, i: int)
    requires
        0 <= i <= s.len(),
    ensures
        spec_pair(s, i) matches Ok((key, val, n)) ==> i < n <= s.len(),
{
    lemma_spec_header_progress(s, i);
    match spec_header(s, i) {
        Err(_) => {},
        Ok((key, w)) => {
            lemma_spec_value_progress(s, w);
            match spec_value(s, w) {
                Err(_) => {},
                Ok((val, vend)) => {
                    lemma_ws_end(s, vend);
                },
            }
        },
    }
}

/// Scan a whole document starting at `i`: the sequence of its pairs in order,
/// or the first error.
pub open spec fn spec_pairs_from(s: Seq<char>, i: int) -> Result<
    Seq<(Seq<char>, Seq<char>)>,
    (ErrorKind, int),
>
    decreases s.len() - i
        when 0 <= i <= s.len()
{
    let j = ws_end(s, i);
    if j == s.len() {
        Ok(Seq::empty())
    } else {
        match spec_pair(s, j) {
            Err(e) => Err(e),
            Ok((key, val, n)) => {
                proof {
                    lemma_ws_end(s, i);
                    lemma_spec_pair_progress(s, j);
                }
                match spec_pairs_from(s, n) {
                    Err(e) => Err(e),
                    Ok(rest) => Ok(seq![(key, val)] + rest),
                }
            },
        }
    }
}

/// The pairs of a whole document, or the first error.
pub open spec fn spec_pairs(s: Seq<char>) -> Result<
    Seq<(Seq<char>, Seq<char>)>,
    (ErrorKind, int),
> {
    spec_pairs_from(s, 0)
}

/// The targeted lookup starting at `i`: scan pairs in order; at the first pair
/// whose key equals `key`, return that pair's value and stop. A malformed pair
/// reached before such a key fails the whole scan, and the end of the input
/// yields `KeyNotFound`.
pub open spec fn spec_lookup_from(s: Seq<char>, i: int, key: Seq<char>) -> Result<
    Seq<char>,
    (ErrorKind, int),
>
    decreases s.len() - i
        when 0 <= i <= s.len()
{
    let j = ws_end(s, i);
    if j == s.len() {
        Err((ErrorKind::KeyNotFound, j))
    } else {
        match spec_pair(s, j) {
            Err(e) => Err(e),
            Ok((k, v, n)) => {
                if k == key {
                    Ok(v)
                } else {
                    proof {
                        lemma_ws_end(s, i);
                        lemma_spec_pair_progress(s, j);
                    }
                    spec_lookup_from(s, n, key)
                }
            },
        }
    }
}

/// The targeted lookup over a whole document.
pub open spec fn spec_lookup(s: Seq<char>, key: Seq<char>) -> Result<Seq<char>, (ErrorKind, int)> {
    spec_lookup_from(s, 0, key)
}

/// The table a pair sequence denotes: pairs inserted in order, so a later
/// occurrence of a key overwrites an earlier one.
pub open spec fn table_of(ps: Seq<(Seq<char>, Seq<char>)>) -> Map<Seq<char>, Seq<char>>
    decreases ps.len(),
{
    if ps.len() == 0 {
        Map::empty()
    } else {
        table_of(ps.drop_last()).insert(ps.last().0, ps.last().1)
    }
}

/// The value of the last pair whose key is `key`, if the key occurs at all.
pub open spec fn lookup_last(ps: Seq<(Seq<char>, Seq<char>)>, key: Seq<char>) -> Option<Seq<char>>
    decreases ps.len(),
{
    if ps.len() == 0 {
        None
    } else if ps.last().0 == key {
        Some(ps.last().1)
    } else {
        lookup_last(ps.drop_last(), key)
    }
}

/// The value of the first pair whose key is `key`, if the key occurs at all.
pub open spec fn lookup_first(ps: Seq<(Seq<char>, Seq<char>)>, key: Seq<char>) -> Option<Seq<char>>
    decreases ps.len(),
{
    if ps.len() == 0 {
        None
    } else if ps.first().0 == key {
        Some(ps.first().1)
    } else {
        lookup_first(ps.drop_first(), key)
    }
}

/// No two pairs share a key.
pub open spec fn keys_distinct(ps: Seq<(Seq<char>, Seq<char>)>) -> bool {
    forall|a: int, b: int|
        0 <= a < b < ps.len() ==> (#[trigger] ps[a]).0 != (#[trigger] ps[b]).0
}

/// `key` heads at most one pair.
pub open spec fn key_at_most_once(ps: Seq<(Seq<char>, Seq<char>)>, key: Seq<char>) -> bool {
    forall|a: int, b: int|
        0 <= a < ps.len() && 0 <= b < ps.len() && (#[trigger] ps[a]).0 == key && (
        #[trigger] ps[b]).0 == key ==> a == b
}

/// Law: the table a document denotes maps each key to the value of the key's
/// last occurrence among the document's pairs, and holds no key that never
/// occurs.
pub proof fn lemma_table_last_occurrence(ps: Seq<(Seq<char>, Seq<char>)>, key: Seq<char>)
    ensures
        match lookup_last(ps, key) {
            Some(v) => table_of(ps).contains_key(key) && table_of(ps)[key] == v,
            None => !table_of(ps).contains_key(key),
        },
    decreases ps.len(),
{
    if ps.len() > 0 {
        lemma_table_last_occurrence(ps.drop_last(), key);
    }
}

/// A key stands in the table exactly when some pair carries it.
pub proof fn lemma_table_contains(ps: Seq<(Seq<char>, Seq<char>)>, key: Seq<char>)
    ensures
        table_of(ps).contains_key(key) <==> exists|a: int|
            0 <= a < ps.len() && (#[trigger] ps[a]).0 == key,
    decreases ps.len(),
{
    if ps.len() > 0 {
        lemma_table_contains(ps.drop_last(), key);
        if ps.last().0 == key {
            assert((#[trigger] ps[ps.len() - 1]).0 == key);
        } else if exists|a: int| 0 <= a < ps.len() - 1 && (#[trigger] ps[a]).0 == key {
            let a = choose|a: int| 0 <= a < ps.len() - 1 && (#[trigger] ps[a]).0 == key;
            assert(ps.drop_last()[a].0 == key);
        } else if exists|a: int| 0 <= a < ps.len() && (#[trigger] ps[a]).0 == key {
            let a = choose|a: int| 0 <= a < ps.len() && (#[trigger] ps[a]).0 == key;
            assert(a < ps.len() - 1 ==> ps.drop_last()[a].0 == key);
        }
    }
}

/// With distinct keys the table is exactly as large as the pair sequence.
pub proof fn lemma_table_size(ps: Seq<(Seq<char>, Seq<char>)>)
    requires
        keys_distinct(ps),
    ensures
        table_of(ps).dom().finite(),
        table_of(ps).dom().len() == ps.len(),
    decreases ps.len(),
{
    if ps.len() > 0 {
        assert(keys_distinct(ps.drop_last()));
        lemma_table_size(ps.drop_last());
        lemma_table_contains(ps.drop_last(), ps.last().0);
        assert(forall|a: int|
            0 <= a < ps.len() - 1 ==> (#[trigger] ps.drop_last()[a]).0 == ps[a].0);
        assert(!table_of(ps.drop_last()).contains_key(ps.last().0));
    }
}

/// With distinct keys, the pair at any index is exactly what the table holds
/// for that pair's key.
pub proof fn lemma_table_at_index(ps: Seq<(Seq<char>, Seq<char>)>, idx: int)
    requires
        keys_distinct(ps),
        0 <= idx < ps.len(),
    ensures
        table_of(ps).contains_key(ps[idx].0),
        table_of(ps)[ps[idx].0] == ps[idx].1,
    decreases ps.len(),
{
    if idx < ps.len() - 1 {
        assert(keys_distinct(ps.drop_last()));
        lemma_table_at_index(ps.drop_last(), idx);
        assert(ps.drop_last()[idx] == ps[idx]);
        assert(ps[idx].0 != ps.last().0);
    }
}

/// Replacing the value at an index whose key is `k` changes the table the same
/// way as inserting `k` anew.
pub proof fn lemma_table_update(ps: Seq<(Seq<char>, Seq<char>)>, idx: int, v: Seq<char>)
    requires
        keys_distinct(ps),
        0 <= idx < ps.len(),
    ensures
        table_of(ps.update(idx, (ps[idx].0, v))) == table_of(ps).insert(ps[idx].0, v),
        keys_distinct(ps.update(idx, (ps[idx].0, v))),
    decreases ps.len(),
{
    let k = ps[idx].0;
    let qs = ps.update(idx, (k, v));
    assert(keys_distinct(qs));
    if idx == ps.len() - 1 {
        assert(qs.drop_last() =~= ps.drop_last());
        assert(table_of(qs) =~= table_of(ps).insert(k, v));
    } else {
        assert(keys_distinct(ps.drop_last()));
        lemma_table_update(ps.drop_last(), idx, v);
        assert(qs.drop_last() =~= ps.drop_last().update(idx, (k, v)));
        assert(qs.last() == ps.last());
        assert(k != ps.last().0);
        assert(table_of(qs) =~= table_of(ps).insert(k, v));
    }
}

} // verus!
