//! The (token id, doc id, count) tuples the map-reduce index builder
//! spills and sorts.

use vstd::prelude::*;

verus! {

#[derive(Clone, Copy, PartialEq, Eq, Ord, PartialOrd, Debug, Structural)]
pub struct PTuple {
    pub tok: usize,
    pub docid: usize,
    pub count: u32,
}

impl PTuple {
    pub fn new(tok: usize, docid: usize, count: u32) -> (r: PTuple)
        ensures
            r == (PTuple { tok, docid, count }),
    {
        PTuple { tok, docid, count }
    }
}

/// The sort order: by token id, then doc id, then count.
pub open spec fn ptuple_le(a: PTuple, b: PTuple) -> bool {
    ||| a.tok < b.tok
    ||| (a.tok == b.tok && a.docid < b.docid)
    ||| (a.tok == b.tok && a.docid == b.docid && a.count <= b.count)
}

pub open spec fn sorted_tuples(s: Seq<PTuple>) -> bool {
    forall|i: int, j: int| 0 <= i < j < s.len() ==> ptuple_le(s[i], s[j])
}

/// The sort order as executable code.
pub fn ptuple_le_exec(a: PTuple, b: PTuple) -> (r: bool)
    ensures
        r == ptuple_le(a, b),
{
    a.tok < b.tok || (a.tok == b.tok && a.docid < b.docid) || (a.tok == b.tok && a.docid == b.docid
        && a.count <= b.count)
}

} // verus!
