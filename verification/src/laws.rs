//! Relations between the two drivers: the table built from a whole document
//! and the targeted single-key lookup.
//!
//! The targeted lookup returns the value of a key's *first* occurrence, the
//! table keeps the *last*; on documents where the key occurs at most once the
//! two agree, and on documents without the key the lookup fails with
//! `KeyNotFound`, exactly.

use vstd::prelude::*;

use crate::grammar::key_at_most_once;
use crate::grammar::lemma_spec_pair_progress;
use crate::grammar::lemma_table_contains;
use crate::grammar::lemma_table_last_occurrence;
use crate::grammar::lemma_ws_end;
use crate::grammar::lookup_first;
use crate::grammar::lookup_last;
use crate::grammar::spec_lookup;
use crate::grammar::spec_lookup_from;
use crate::grammar::spec_pair;
use crate::grammar::spec_pairs;
use crate::grammar::spec_pairs_from;
use crate::grammar::table_of;
use crate::grammar::ws_end;
use crate::grammar::ErrorKind;

verus! {

/// `lookup_first` finds a value exactly when some pair carries the key.
proof fn lemma_lookup_first_exists(ps: Seq<(Seq<char>, Seq<char>)>, key: Seq<char>)
    ensures
        lookup_first(ps, key) is Some <==> exists|a: int|
            0 <= a < ps.len() && (#[trigger] ps[a]).0 == key,
    decreases ps.len(),
{
    if ps.len() > 0 {
        lemma_lookup_first_exists(ps.drop_first(), key);
        if ps.first().0 == key {
            assert((#[trigger] ps[0]).0 == key);
        } else {
            if exists|a: int| 0 <= a < ps.len() - 1 && (#[trigger] ps.drop_first()[a]).0 == key {
                let a = choose|a: int|
                    0 <= a < ps.len() - 1 && (#[trigger] ps.drop_first()[a]).0 == key;
                assert(ps[a + 1].0 == key);
            }
            if exists|a: int| 0 <= a < ps.len() && (#[trigger] ps[a]).0 == key {
                let a = choose|a: int| 0 <= a < ps.len() && (#[trigger] ps[a]).0 == key;
                assert(ps.drop_first()[a - 1].0 == key);
            }
        }
    }
}

/// Appending one pair changes `lookup_first` only when no earlier pair
/// already carried the key.
proof fn lemma_lookup_first_push(
    ps: Seq<(Seq<char>, Seq<char>)>,
    p: (Seq<char>, Seq<char>),
    key: Seq<char>,
)
    ensures
        lookup_first(ps.push(p), key) == (if lookup_first(ps, key) is Some {
            lookup_first(ps, key)
        } else if p.0 == key {
            Some(p.1)
        } else {
            None::<Seq<char>>
        }),
    decreases ps.len(),
{
    if ps.len() == 0 {
        assert(ps.push(p).first() == p);
        assert(ps.push(p).drop_first() =~= ps);
    } else {
        assert(ps.push(p).first() == ps.first());
        assert(ps.push(p).drop_first() =~= ps.drop_first().push(p));
        lemma_lookup_first_push(ps.drop_first(), p, key);
    }
}

/// Where a key heads at most one pair, its first and its last occurrence are
/// the same occurrence.
proof fn lemma_lookup_first_last_unique(ps: Seq<(Seq<char>, Seq<char>)>, key: Seq<char>)
    requires
        key_at_most_once(ps, key),
    ensures
        lookup_first(ps, key) == lookup_last(ps, key),
    decreases ps.len(),
{
    if ps.len() > 0 {
        let dl = ps.drop_last();
        let last = ps.last();
        assert(forall|a: int| 0 <= a < dl.len() ==> (#[trigger] dl[a]) == ps[a]);
        assert(key_at_most_once(dl, key));
        lemma_lookup_first_last_unique(dl, key);
        assert(dl.push(last) =~= ps);
        lemma_lookup_first_push(dl, last, key);
        if last.0 == key {
            lemma_lookup_first_exists(dl, key);
            if exists|a: int| 0 <= a < dl.len() && (#[trigger] dl[a]).0 == key {
                let a = choose|a: int| 0 <= a < dl.len() && (#[trigger] dl[a]).0 == key;
                assert((#[trigger] ps[a]).0 == key);
                assert((#[trigger] ps[ps.len() - 1]).0 == key);
            }
        }
    }
}

/// Law: on a document that scans without error, the targeted lookup started
/// at `i` returns the value of the key's first pair among the pairs from `i`
/// on, and `KeyNotFound` at the end of the input when no pair from `i` on
/// carries the key.
pub proof fn lemma_lookup_agrees_from(s: Seq<char>, i: int, key: Seq<char>)
    requires
        0 <= i <= s.len(),
        spec_pairs_from(s, i) is Ok,
    ensures
        spec_lookup_from(s, i, key) == (match lookup_first(spec_pairs_from(s, i)->Ok_0, key) {
            Some(v) => Ok::<_, (ErrorKind, int)>(v),
            None => Err::<Seq<char>, _>((ErrorKind::KeyNotFound, s.len() as int)),
        }),
    decreases s.len() - i,
{
    lemma_ws_end(s, i);
    let j = ws_end(s, i);
    if j == s.len() {
        assert(spec_pairs_from(s, i)->Ok_0 =~= Seq::<(Seq<char>, Seq<char>)>::empty());
    } else {
        lemma_spec_pair_progress(s, j);
        match spec_pair(s, j) {
            Err(_) => {},
            Ok((k, v, nx)) => {
                lemma_lookup_agrees_from(s, nx, key);
                let rest = spec_pairs_from(s, nx)->Ok_0;
                let ps = spec_pairs_from(s, i)->Ok_0;
                assert(ps == seq![(k, v)] + rest);
                assert(ps.first() == (k, v));
                assert(ps.drop_first() =~= rest);
            },
        }
    }
}

/// Law: on a document that scans without error and in which `key` heads at
/// most one pair, the targeted lookup returns exactly the value that the built
/// table holds for `key`.
pub proof fn lemma_lookup_matches_build(s: Seq<char>, key: Seq<char>)
    requires
        spec_pairs(s) is Ok,
        key_at_most_once(spec_pairs(s)->Ok_0, key),
        table_of(spec_pairs(s)->Ok_0).contains_key(key),
    ensures
        spec_lookup(s, key) == Ok::<_, (ErrorKind, int)>(table_of(spec_pairs(s)->Ok_0)[key]),
{
    let ps = spec_pairs(s)->Ok_0;
    lemma_lookup_agrees_from(s, 0, key);
    lemma_lookup_first_last_unique(ps, key);
    lemma_table_last_occurrence(ps, key);
}

/// Law: on a document that scans without error and whose table holds no entry
/// for `key`, the targeted lookup fails with `KeyNotFound` at the end of the
/// input.
pub proof fn lemma_lookup_key_not_found(s: Seq<char>, key: Seq<char>)
    requires
        spec_pairs(s) is Ok,
        !table_of(spec_pairs(s)->Ok_0).contains_key(key),
    ensures
        spec_lookup(s, key) == Err::<Seq<char>, _>((ErrorKind::KeyNotFound, s.len() as int)),
{
    let ps = spec_pairs(s)->Ok_0;
    lemma_lookup_agrees_from(s, 0, key);
    lemma_lookup_first_exists(ps, key);
    lemma_table_contains(ps, key);
}

} // verus!
