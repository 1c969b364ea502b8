//! Listing the registry from its persisted per-instance documents.
//!
//! The caller hands over each document's identifier (its file stem) together
//! with its text. A document that does not parse is skipped and reported,
//! not fatal: the listing carries every entry that parses, in order, and the
//! identifiers of the ones that do not.

use crate::json::{spec_parse_instance, ParseError};
use crate::record::{InstanceConfig, InstanceView};
use vstd::prelude::*;

verus! {

/// The views of a list of parsed entries.
pub open spec fn entries_view(s: Seq<(String, InstanceConfig)>) -> Seq<(Seq<char>, InstanceView)> {
    s.map(|_i: int, e: (String, InstanceConfig)| (e.0@, e.1@))
}

/// The views of a list of identifiers.
pub open spec fn ids_view(s: Seq<String>) -> Seq<Seq<char>> {
    s.map(|_i: int, e: String| e@)
}

/// The entries among `fs` whose documents parse, in order.
pub open spec fn spec_good_entries(fs: Seq<(String, String)>) -> Seq<(Seq<char>, InstanceView)>
    decreases fs.len(),
{
    if fs.len() == 0 {
        Seq::empty()
    } else {
        let rest = spec_good_entries(fs.drop_last());
        match spec_parse_instance(fs.last().1@) {
            Some(rv) => rest.push((fs.last().0@, rv)),
            None => rest,
        }
    }
}

/// The identifiers among `fs` whose documents do not parse, in order.
pub open spec fn spec_bad_ids(fs: Seq<(String, String)>) -> Seq<Seq<char>>
    decreases fs.len(),
{
    if fs.len() == 0 {
        Seq::empty()
    } else {
        let rest = spec_bad_ids(fs.drop_last());
        match spec_parse_instance(fs.last().1@) {
            Some(rv) => rest,
            None => rest.push(fs.last().0@),
        }
    }
}

/// Builds the listing from the persisted documents: each entry of `files` is
/// an identifier and the text found under it. Every document that parses
/// contributes its record to the first result, in order; every document that
/// does not contributes its identifier to the second. A corrupt document is
/// thus reported and skipped, never fatal.
pub fn list_instances(files: &Vec<(String, String)>) -> (r: (
    Vec<(String, InstanceConfig)>,
    Vec<String>,
))
    ensures
        entries_view(r.0@) == spec_good_entries(files@),
        ids_view(r.1@) == spec_bad_ids(files@),
{
    let mut good: Vec<(String, InstanceConfig)> = Vec::new();
    let mut bad: Vec<String> = Vec::new();
    let n = files.len();
    let mut i: usize = 0;
    proof {
        assert(files@.take(0) =~= Seq::<(String, String)>::empty());
        assert(entries_view(good@) =~= spec_good_entries(files@.take(0)));
        assert(ids_view(bad@) =~= spec_bad_ids(files@.take(0)));
    }
    while i < n
        invariant
            i <= n,
            n == files@.len(),
            entries_view(good@) == spec_good_entries(files@.take(i as int)),
            ids_view(bad@) == spec_bad_ids(files@.take(i as int)),
        decreases n - i,
    {
        let ghost prefix = files@.take(i as int);
        proof {
            assert(files@.take(i as int + 1).drop_last() =~= prefix);
            assert(files@.take(i as int + 1).last() == files@[i as int]);
        }
        let id = files[i].0.clone();
        match crate::json::parse_instance(files[i].1.as_str()) {
            Ok(rec) => {
                good.push((id, rec));
                proof {
                    assert(entries_view(good@) =~= spec_good_entries(files@.take(i as int + 1)));
                }
            },
            Err(e) => {
                bad.push(id);
                proof {
                    assert(spec_parse_instance(files@[i as int].1@) is None);
                    assert(ids_view(bad@) =~= spec_bad_ids(files@.take(i as int + 1)));
                }
            },
        }
        i = i + 1;
    }
    proof {
        assert(files@.take(n as int) =~= files@);
    }
    (good, bad)
}

} // verus!
