//! The key/value table built from a whole document.
//!
//! [`Parser::new`] drives the pair scanner over the input and inserts each
//! pair, a later occurrence of a key overwriting an earlier one; any scan
//! error aborts the whole construction. The table is read-only afterwards.

use vstd::prelude::*;

use crate::grammar::keys_distinct;
use crate::grammar::lemma_table_at_index;
use crate::grammar::lemma_table_contains;
use crate::grammar::lemma_table_size;
use crate::grammar::lemma_table_update;
use crate::grammar::spec_pairs;
use crate::grammar::spec_pairs_from;
use crate::grammar::table_of;
use crate::grammar::ErrorKind;
use crate::scan::parse_pair;
use crate::scan::skip_ws;
use crate::scan::str_eq;
use crate::scan::ParseError;
use crate::scan::StringOrStr;

verus! {

/// The views of a pair list's keys and values.
pub open spec fn entries_of<'a>(ps: Seq<(&'a str, StringOrStr<'a>)>) -> Seq<
    (Seq<char>, Seq<char>),
> {
    Seq::new(ps.len(), |i: int| (ps[i].0@, ps[i].1@))
}

/// A table of key/value pairs read out of one input buffer. Keys are borrowed
/// from the buffer; each value is borrowed wherever the scan allowed it.
#[derive(Debug)]
pub struct Parser<'a> {
    pairs: Vec<(&'a str, StringOrStr<'a>)>,
}

impl<'a> View for Parser<'a> {
    type V = Map<Seq<char>, Seq<char>>;

    closed spec fn view(&self) -> Map<Seq<char>, Seq<char>> {
        table_of(entries_of(self.pairs@))
    }
}

impl<'a> Parser<'a> {
    /// The table's pairs, in first-insertion order.
    pub closed spec fn entries(&self) -> Seq<(Seq<char>, Seq<char>)> {
        entries_of(self.pairs@)
    }

    /// Well-formedness: no key is stored twice, so the table is exactly as
    /// large as its pair list and lookups are unambiguous.
    pub open spec fn wf(&self) -> bool {
        &&& keys_distinct(self.entries())
        &&& self@ == table_of(self.entries())
        &&& self@.dom().finite()
        &&& self@.dom().len() == self.entries().len()
    }

    /// Build the table of a whole document. Succeeds exactly when the document
    /// scans as a sequence of pairs, and then holds, for each key, the value
    /// of the key's last occurrence; the first scan error aborts the whole
    /// construction.
    pub fn new(input: &'a str) -> (r: Result<Self, ParseError>)
        ensures
            match r {
                Ok(p) => {
                    &&& p.wf()
                    &&& spec_pairs(input@) matches Ok(ps) && p@ == table_of(ps)
                },
                Err(e) => spec_pairs(input@) == Err::<Seq<(Seq<char>, Seq<char>)>, _>(
                    (e.kind, e.offset as int),
                ),
            },
    {
        let n = input.unicode_len();
        let mut pairs: Vec<(&'a str, StringOrStr<'a>)> = Vec::new();
        let ghost mut done: Seq<(Seq<char>, Seq<char>)> = Seq::empty();
        let mut i: usize = 0;
        proof {
            assert(entries_of(pairs@) =~= done);
        }
        loop
            invariant
                i <= n,
                n == input@.len(),
                keys_distinct(entries_of(pairs@)),
                table_of(entries_of(pairs@)) == table_of(done),
                spec_pairs_from(input@, i as int) matches Err(e) ==> spec_pairs(input@) == Err::<
                    Seq<(Seq<char>, Seq<char>)>,
                    _,
                >(e),
                spec_pairs_from(input@, i as int) matches Ok(rest) ==> spec_pairs(input@) == Ok::<
                    _,
                    (ErrorKind, int),
                >(done + rest),
            ensures
                keys_distinct(entries_of(pairs@)),
                table_of(entries_of(pairs@)) == table_of(done),
                spec_pairs(input@) == Ok::<_, (ErrorKind, int)>(done),
            decreases n - i,
        {
            let j = skip_ws(input, i);
            if j == n {
                proof {
                    assert(spec_pairs_from(input@, i as int) == Ok::<_, (ErrorKind, int)>(
                        Seq::<(Seq<char>, Seq<char>)>::empty(),
                    ));
                    assert(done + Seq::<(Seq<char>, Seq<char>)>::empty() =~= done);
                }
                break ;
            }
            match parse_pair(input, j) {
                Err(e) => {
                    return Err(e);
                },
                Ok((k, v, nx)) => {
                    proof {
                        let kv = (k@, v@);
                        match spec_pairs_from(input@, nx as int) {
                            Err(_) => {},
                            Ok(rest) => {
                                assert(done + (seq![kv] + rest) =~= done.push(kv) + rest);
                            },
                        }
                        assert(table_of(done.push(kv)) == table_of(done).insert(k@, v@)) by {
                            assert(done.push(kv).drop_last() =~= done);
                        }
                    }
                    insert_pair(&mut pairs, k, v);
                    proof {
                        done = done.push((k@, v@));
                    }
                    i = nx;
                },
            }
        }
        proof {
            lemma_table_size(entries_of(pairs@));
        }
        Ok(Parser { pairs })
    }

    /// The value stored for `key`, or nothing when the table has no such key.
    pub fn get(&self, key: &str) -> (r: Option<&str>)
        requires
            self.wf(),
        ensures
            match r {
                Some(v) => self@.contains_key(key@) && v@ == self@[key@],
                None => !self@.contains_key(key@),
            },
    {
        let n = self.pairs.len();
        let mut idx: usize = 0;
        loop
            invariant
                idx <= n,
                n == self.pairs@.len(),
                self.wf(),
                forall|j: int| 0 <= j < idx ==> (#[trigger] self.pairs@[j]).0@ != key@,
            ensures
                idx == n,
                forall|j: int| 0 <= j < idx ==> (#[trigger] self.pairs@[j]).0@ != key@,
            decreases n - idx,
        {
            if idx == n {
                break ;
            }
            let p = &self.pairs[idx];
            if str_eq(p.0, key) {
                proof {
                    lemma_table_at_index(self.entries(), idx as int);
                }
                return Some(p.1.as_str());
            }
            idx = idx + 1;
        }
        proof {
            lemma_table_contains(self.entries(), key@);
        }
        None
    }

    /// How many key/value pairs the table holds.
    pub fn len(&self) -> (r: usize)
        requires
            self.wf(),
        ensures
            r == self@.dom().len(),
    {
        proof {
            lemma_table_size(self.entries());
        }
        self.pairs.len()
    }

    /// Whether the table holds no pair at all.
    pub fn is_empty(&self) -> (r: bool)
        requires
            self.wf(),
        ensures
            r == (self@.dom().len() == 0),
    {
        proof {
            lemma_table_size(self.entries());
        }
        self.pairs.len() == 0
    }
}

/// The index of the pair holding `key`, if the vector has one.
fn find_key<'a>(pairs: &Vec<(&'a str, StringOrStr<'a>)>, key: &str) -> (r: Option<usize>)
    ensures
        match r {
            Some(idx) => idx < pairs@.len() && pairs@[idx as int].0@ == key@,
            None => forall|j: int| 0 <= j < pairs@.len() ==> (#[trigger] pairs@[j]).0@ != key@,
        },
{
    let n = pairs.len();
    let mut idx: usize = 0;
    loop
        invariant
            idx <= n,
            n == pairs@.len(),
            forall|j: int| 0 <= j < idx ==> (#[trigger] pairs@[j]).0@ != key@,
        ensures
            idx == n,
            forall|j: int| 0 <= j < idx ==> (#[trigger] pairs@[j]).0@ != key@,
        decreases n - idx,
    {
        if idx == n {
            break ;
        }
        if str_eq(pairs[idx].0, key) {
            return Some(idx);
        }
        idx = idx + 1;
    }
    None
}

/// Insert one pair, overwriting the value of an already-stored key.
fn insert_pair<'a>(pairs: &mut Vec<(&'a str, StringOrStr<'a>)>, k: &'a str, v: StringOrStr<'a>)
    requires
        keys_distinct(entries_of(old(pairs)@)),
    ensures
        keys_distinct(entries_of(final(pairs)@)),
        table_of(entries_of(final(pairs)@)) == table_of(entries_of(old(pairs)@)).insert(k@, v@),
{
    match find_key(pairs, k) {
        Some(idx) => {
            proof {
                lemma_table_update(entries_of(pairs@), idx as int, v@);
            }
            let ghost before = entries_of(pairs@);
            pairs[idx] = (k, v);
            proof {
                assert(entries_of(pairs@) =~= before.update(idx as int, (before[idx as int].0, v@)));
            }
        },
        None => {
            let ghost before = entries_of(pairs@);
            pairs.push((k, v));
            proof {
                assert(entries_of(pairs@).drop_last() =~= before);
                assert(entries_of(pairs@) =~= before.push((k@, v@)));
                lemma_table_contains(before, k@);
            }
        },
    }
}

} // verus!
