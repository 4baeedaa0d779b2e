//! The targeted lookup: scan for one key without building a table.
//!
//! Pairs are scanned strictly in order. The first pair whose key matches has
//! its value read in full and returned at once; later input is never
//! inspected. A non-matching pair's value is still traversed structurally —
//! through the same verified scan as value capture, so escaped quotes advance
//! the position identically — and a malformed pair reached before the match
//! fails the whole call.

use vstd::prelude::*;

use crate::grammar::spec_lookup;
use crate::grammar::spec_lookup_from;
use crate::grammar::ErrorKind;
use crate::scan::parse_value;
use crate::scan::skip_value;
use crate::scan::skip_ws;
use crate::scan::str_eq;
use crate::scan::scan_header;
use crate::scan::ParseError;
use crate::scan::StringOrStr;

verus! {

/// Scan `input` for the first pair whose key is `search_key` and return that
/// pair's value, without building a table and without reading past the match.
/// The end of the input yields `KeyNotFound`; a malformed pair reached before
/// the match yields that pair's error.
pub fn parse<'a>(input: &'a str, search_key: &str) -> (r: Result<StringOrStr<'a>, ParseError>)
    ensures
        match r {
            Ok(v) => spec_lookup(input@, search_key@) == Ok::<_, (ErrorKind, int)>(v@),
            Err(e) => spec_lookup(input@, search_key@) == Err::<Seq<char>, _>(
                (e.kind, e.offset as int),
            ),
        },
{
    let n = input.unicode_len();
    let mut i: usize = 0;
    loop
        invariant
            i <= n,
            n == input@.len(),
            spec_lookup_from(input@, i as int, search_key@) == spec_lookup(input@, search_key@),
        decreases n - i,
    {
        let j = skip_ws(input, i);
        if j == n {
            return Err(ParseError { kind: ErrorKind::KeyNotFound, offset: j });
        }
        let (k, w) = match scan_header(input, j) {
            Ok(kw) => kw,
            Err(e) => {
                return Err(e);
            },
        };
        if str_eq(k, search_key) {
            match parse_value(input, w) {
                Ok((v, _)) => {
                    return Ok(v);
                },
                Err(e) => {
                    return Err(e);
                },
            }
        } else {
            let vend = match skip_value(input, w) {
                Ok(vend) => vend,
                Err(e) => {
                    return Err(e);
                },
            };
            i = skip_ws(input, vend);
        }
    }
}

} // verus!
