//! The document catalogue and the lexicon: external ids against dense
//! internal ids, and per-token document frequencies.

use std::collections::HashMap;
use vstd::hash_map::StringHashMap;
use vstd::prelude::*;

verus! {

broadcast use vstd::std_specs::hash::group_hash_axioms;

/// How often a token id occurs in an id sequence.
pub open spec fn count_in(s: Seq<usize>, t: usize) -> nat
    decreases s.len(),
{
    if s.len() == 0 {
        0
    } else {
        count_in(s.drop_last(), t) + if s.last() == t {
            1nat
        } else {
            0nat
        }
    }
}

/// The ids a token sequence maps to under a lexicon.
pub open spec fn lex_ids(m: Map<Seq<char>, usize>, toks: Seq<Seq<char>>) -> Seq<usize> {
    Seq::new(toks.len(), |i: int| m[toks[i]])
}

/// Where a document's feature record sits, and both of its ids.
#[derive(Debug, Clone, PartialEq, Eq, PartialOrd, Ord)]
pub struct DocInfo {
    pub intid: u32,
    pub docid: String,
    pub offset: u64,
}

/// External ids against dense internal ids 1..n, assigned at first
/// sight.
pub struct Docs {
    pub m: StringHashMap<u32>,
    pub docs: Vec<DocInfo>,
}

impl Docs {
    /// Forward and reverse lookup agree: entry i holds intid i+1.
    pub open spec fn wf(&self) -> bool {
        &&& forall|i: int|
            0 <= i < self.docs@.len() ==> {
                &&& self.m@.contains_key((#[trigger] self.docs@[i]).docid@)
                &&& self.m@[self.docs@[i].docid@] == i + 1
                &&& self.docs@[i].intid == i + 1
            }
        &&& forall|k: Seq<char>|
            self.m@.contains_key(k) ==> 1 <= #[trigger] self.m@[k] <= self.docs@.len()
                && self.docs@[self.m@[k] - 1].docid@ == k
    }

    pub fn new() -> (r: Docs)
        ensures
            r.wf(),
            r.docs@.len() == 0,
            r.m@ == Map::<Seq<char>, u32>::empty(),
    {
        Docs { m: StringHashMap::new(), docs: Vec::new() }
    }

    pub fn get_intid(&self, docid: &str) -> (r: Option<&u32>)
        ensures
            r matches Some(id) ==> self.m@.contains_key(docid@) && id == self.m@[docid@],
            r is None ==> !self.m@.contains_key(docid@),
    {
        self.m.get(docid)
    }

    /// The internal id for an external id, assigning the next one at
    /// first sight.
    pub fn add_doc(&mut self, docid: &str) -> (id: u32)
        requires
            old(self).wf(),
            old(self).docs@.len() < 0xffff_ffff,
        ensures
            final(self).wf(),
            final(self).m@.contains_key(docid@) && id == final(self).m@[docid@],
            old(self).m@.contains_key(docid@) ==> *final(self) == *old(self),
            !old(self).m@.contains_key(docid@) ==> {
                &&& id == old(self).docs@.len() + 1
                &&& final(self).docs@.len() == old(self).docs@.len() + 1
                &&& forall|j: int|
                    0 <= j < old(self).docs@.len() ==> final(self).docs@[j] == old(
                        self,
                    ).docs@[j]
                &&& final(self).docs@[old(self).docs@.len() as int].docid@ == docid@
                &&& final(self).docs@[old(self).docs@.len() as int].intid == id
                &&& final(self).docs@[old(self).docs@.len() as int].offset == 0
                &&& final(self).m@ == old(self).m@.insert(docid@, id)
            },
    {
        match self.m.get(docid) {
            Some(id) => {
                return *id;
            },
            None => {},
        }
        let intid = (self.docs.len() + 1) as u32;
        self.m.insert(docid.to_string(), intid);
        self.docs.push(DocInfo { docid: docid.to_string(), intid, offset: 0 });
        proof {
            assert forall|i: int|
                0 <= i < self.docs@.len() implies {
                &&& self.m@.contains_key((#[trigger] self.docs@[i]).docid@)
                &&& self.m@[self.docs@[i].docid@] == i + 1
                &&& self.docs@[i].intid == i + 1
            } by {
                if i < self.docs@.len() - 1 {
                    assert(old(self).m@.contains_key(self.docs@[i].docid@));
                }
            }
        }
        intid
    }
}

/// The lexicon: tokens against dense token ids 1..n, with a document
/// frequency count per token id.
pub struct Dict {
    pub m: StringHashMap<usize>,
    pub df: HashMap<usize, u32>,
    pub last_tokid: usize,
}

impl Dict {
    pub open spec fn wf(&self) -> bool {
        &&& forall|k: Seq<char>|
            self.m@.contains_key(k) ==> 1 <= #[trigger] self.m@[k] <= self.last_tokid
        &&& forall|k1: Seq<char>, k2: Seq<char>|
            self.m@.contains_key(k1) && self.m@.contains_key(k2) && #[trigger] self.m@[k1]
                == #[trigger] self.m@[k2] ==> k1 == k2
    }

    pub fn new() -> (r: Dict)
        ensures
            r.wf(),
            r.last_tokid == 0,
            r.m@ == Map::<Seq<char>, usize>::empty(),
            r.df@ == Map::<usize, u32>::empty(),
    {
        Dict { m: StringHashMap::new(), df: HashMap::new(), last_tokid: 0 }
    }

    pub fn has_tok(&self, tok: String) -> (r: bool)
        ensures
            r == self.m@.contains_key(tok@),
    {
        self.m.contains_key(tok.as_str())
    }

    pub fn get_tokid(&self, tok: String) -> (r: Option<usize>)
        ensures
            r matches Some(id) ==> self.m@.contains_key(tok@) && id == self.m@[tok@],
            r is None ==> !self.m@.contains_key(tok@),
    {
        match self.m.get(tok.as_str()) {
            Some(id) => Some(*id),
            None => None,
        }
    }

    /// The token id for a token, assigning the next one at first
    /// sight.
    pub fn add_tok(&mut self, tok: String) -> (id: usize)
        requires
            old(self).wf(),
            old(self).last_tokid < usize::MAX,
        ensures
            final(self).wf(),
            final(self).df@ == old(self).df@,
            final(self).m@.contains_key(tok@) && id == final(self).m@[tok@],
            old(self).m@.contains_key(tok@) ==> *final(self) == *old(self),
            !old(self).m@.contains_key(tok@) ==> {
                &&& id == old(self).last_tokid + 1
                &&& final(self).last_tokid == old(self).last_tokid + 1
                &&& final(self).m@ == old(self).m@.insert(tok@, id)
            },
    {
        match self.m.get(tok.as_str()) {
            Some(id) => {
                return *id;
            },
            None => {},
        }
        self.last_tokid = self.last_tokid + 1;
        self.m.insert(tok, self.last_tokid);
        self.last_tokid
    }

    /// Count one more document for this token.
    pub fn incr_df(&mut self, tokid: usize)
        requires
            old(self).df@.contains_key(tokid) ==> old(self).df@[tokid] < 0xffff_ffffu32,
        ensures
            final(self).m@ == old(self).m@,
            final(self).last_tokid == old(self).last_tokid,
            final(self).df@ == old(self).df@.insert(
                tokid,
                (if old(self).df@.contains_key(tokid) {
                    old(self).df@[tokid] + 1
                } else {
                    1int
                }) as u32,
            ),
    {
        let current: u32 = match self.df.get(&tokid) {
            Some(c) => *c,
            None => 0,
        };
        self.df.insert(tokid, current + 1);
    }

    /// The document frequency recorded for a token id.
    pub fn get_df(&self, tokid: usize) -> (r: u32)
        ensures
            r == if self.df@.contains_key(tokid) {
                self.df@[tokid]
            } else {
                0u32
            },
    {
        match self.df.get(&tokid) {
            Some(c) => *c,
            None => 0,
        }
    }
}

} // verus!
