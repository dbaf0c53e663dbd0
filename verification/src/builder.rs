//! The map-reduce index builder: documents come in as token lists,
//! tuples are spilled and sorted, and the reduce pass fills the
//! inverted file.

use crate::docs::{count_in, lex_ids};
use crate::index::{pl_has_doc, InvertedFile, Posting, PostingList};
use crate::lrucache::{find_key as lru_find, has_key as lru_has};
use crate::odch::OnDiskCompressedHash;
use crate::ptuple::{sorted_tuples, PTuple};
use std::collections::HashMap;
use vstd::prelude::*;

verus! {

broadcast use
    vstd::std_specs::hash::group_hash_axioms,
    vstd::seq_lib::group_to_multiset_ensures;

/// One document's aggregated term counts: (token id, frequency) pairs.
pub struct DocTerms {
    pub docid: String,
    pub terms: Vec<(usize, u32)>,
}

/// Some pair in the terms carries this token id.
pub open spec fn terms_have(ts: Seq<(usize, u32)>, t: usize) -> bool {
    exists|j: int| 0 <= j < ts.len() && (#[trigger] ts[j]).0 == t
}

/// The postings a tuple run yields for one token id, in run order.
pub open spec fn tok_postings(ts: Seq<PTuple>, t: usize) -> Seq<Posting>
    decreases ts.len(),
{
    if ts.len() == 0 {
        Seq::empty()
    } else {
        tok_postings(ts.drop_last(), t) + if ts.last().tok == t {
            seq![Posting { doc_id: ts.last().docid as u32, tf: ts.last().count }]
        } else {
            Seq::empty()
        }
    }
}

/// The value cached for a token id, or nothing.
pub open spec fn cache_val(s: Seq<(usize, PostingList)>, t: usize) -> Seq<Posting> {
    if lru_has(s, t) {
        s[lru_find(s, t)].1.postings@
    } else {
        Seq::empty()
    }
}

/// No two tuples name the same (token, document) pair.
pub open spec fn distinct_tok_doc(ts: Seq<PTuple>) -> bool {
    forall|i: int, j: int|
        0 <= i < ts.len() && 0 <= j < ts.len() && i != j ==> !((#[trigger] ts[i]).tok == (
        #[trigger] ts[j]).tok && ts[i].docid == ts[j].docid)
}

/// Tuple fields within the ranges the index accepts.
pub open spec fn tuples_in_range(ts: Seq<PTuple>) -> bool {
    forall|i: int|
        0 <= i < ts.len() ==> {
            &&& 0 < (#[trigger] ts[i]).tok < usize::MAX
            &&& 0 < ts[i].docid < 0x40000000
            &&& 0 < ts[i].count
        }
}

proof fn lemma_tok_postings_len(ts: Seq<PTuple>, t: usize)
    ensures
        tok_postings(ts, t).len() <= ts.len(),
    decreases ts.len(),
{
    if ts.len() > 0 {
        lemma_tok_postings_len(ts.drop_last(), t);
    }
}

/// A doc id in a token's postings comes from a tuple of that token
/// and document.
proof fn lemma_tok_postings_doc(ts: Seq<PTuple>, t: usize, d: u32)
    requires
        tuples_in_range(ts),
        pl_has_doc(tok_postings(ts, t), d),
    ensures
        exists|j: int|
            0 <= j < ts.len() && (#[trigger] ts[j]).tok == t && ts[j].docid == d,
    decreases ts.len(),
{
    if ts.len() > 0 {
        let head = tok_postings(ts.drop_last(), t);
        let whole = tok_postings(ts, t);
        if ts.last().tok == t && ts.last().docid as u32 == d {
            assert(ts[ts.len() - 1].tok == t && ts[ts.len() - 1].docid == d);
        } else {
            assert(pl_has_doc(head, d)) by {
                let i = choose|i: int| 0 <= i < whole.len() && whole[i].doc_id == d;
                if ts.last().tok == t {
                    assert(i < head.len()) by {
                        if i == whole.len() - 1 {
                            assert(whole[i].doc_id == ts.last().docid as u32);
                        }
                    }
                    assert(head[i] == whole[i]);
                } else {
                    assert(whole =~= head);
                }
            }
            assert(tuples_in_range(ts.drop_last())) by {
                assert(forall|q: int|
                    0 <= q < ts.len() - 1 ==> (#[trigger] ts.drop_last()[q]) == ts[q]);
            }
            lemma_tok_postings_doc(ts.drop_last(), t, d);
            let j = choose|j: int|
                0 <= j < ts.drop_last().len() && (#[trigger] ts.drop_last()[j]).tok == t
                    && ts.drop_last()[j].docid == d;
            assert(ts[j].tok == t && ts[j].docid == d);
        }
    }
}

/// The association survives moving one key's entry to the back with a
/// new value, and tells exactly that key's value apart.
proof fn lemma_cache_val_remove_push(
    s: Seq<(usize, PostingList)>,
    i: int,
    k: usize,
    v: PostingList,
)
    requires
        forall|a: int, b: int|
            0 <= a < s.len() && 0 <= b < s.len() && a != b ==> (#[trigger] s[a]).0 != (
            #[trigger] s[b]).0,
        0 <= i < s.len(),
        s[i].0 == k,
    ensures
        cache_val(s.remove(i).push((k, v)), k) == v.postings@,
        forall|t: usize| t != k ==> cache_val(s.remove(i).push((k, v)), t) == cache_val(s, t),
{
    let s2 = s.remove(i).push((k, v));
    assert(forall|q: int|
        0 <= q < s.len() - 1 ==> (#[trigger] s.remove(i)[q]) == if q < i {
            s[q]
        } else {
            s[q + 1]
        });
    assert(s2[s2.len() - 1].0 == k);
    assert(lru_has(s2, k));
    let fk = lru_find(s2, k);
    assert(0 <= fk < s2.len() && s2[fk].0 == k);
    assert(fk == s2.len() - 1) by {
        if fk < s2.len() - 1 {
            let orig = if fk < i {
                fk
            } else {
                fk + 1
            };
            assert(s[orig].0 == k && s[i].0 == k && orig != i);
        }
    }
    assert forall|t: usize| t != k implies cache_val(s2, t) == cache_val(s, t) by {
        if lru_has(s, t) {
            let f = lru_find(s, t);
            assert(0 <= f < s.len() && s[f].0 == t);
            assert(f != i);
            let f2 = if f < i {
                f
            } else {
                f - 1
            };
            assert(s2[f2] == s[f]);
            assert(lru_has(s2, t));
            let g = lru_find(s2, t);
            assert(0 <= g < s2.len() && s2[g].0 == t);
            assert(g < s2.len() - 1);
            let gorig = if g < i {
                g
            } else {
                g + 1
            };
            assert(s[gorig] == s2[g]);
            assert(gorig == f) by {
                if gorig != f {
                    assert(s[gorig].0 != s[f].0);
                }
            }
        } else {
            if lru_has(s2, t) {
                let g = lru_find(s2, t);
                assert(0 <= g < s2.len() && s2[g].0 == t);
                assert(g < s2.len() - 1);
                let gorig = if g < i {
                    g
                } else {
                    g + 1
                };
                assert(s[gorig].0 == t);
            }
        }
    }
}

/// The association also survives appending a fresh key.
proof fn lemma_cache_val_push(s: Seq<(usize, PostingList)>, k: usize, v: PostingList)
    requires
        forall|a: int, b: int|
            0 <= a < s.len() && 0 <= b < s.len() && a != b ==> (#[trigger] s[a]).0 != (
            #[trigger] s[b]).0,
        !lru_has(s, k),
    ensures
        cache_val(s.push((k, v)), k) == v.postings@,
        forall|t: usize| t != k ==> cache_val(s.push((k, v)), t) == cache_val(s, t),
{
    let s2 = s.push((k, v));
    assert(s2[s2.len() - 1].0 == k);
    assert(lru_has(s2, k));
    let fk = lru_find(s2, k);
    assert(0 <= fk < s2.len() && s2[fk].0 == k);
    assert(fk == s2.len() - 1) by {
        if fk < s2.len() - 1 {
            assert(s[fk].0 == k);
        }
    }
    assert forall|t: usize| t != k implies cache_val(s2, t) == cache_val(s, t) by {
        if lru_has(s, t) {
            let f = lru_find(s, t);
            assert(s2[f] == s[f]);
            assert(lru_has(s2, t));
            let g = lru_find(s2, t);
            assert(0 <= g < s2.len() && s2[g].0 == t);
            assert(g < s2.len() - 1);
            assert(s[g] == s2[g]);
            assert(cache_val(s, t) == s[g].1.postings@) by {
                let f2 = lru_find(s, t);
                assert(0 <= f2 < s.len() && s[f2].0 == t);
                if f2 != g {
                    assert(s[f2].0 != s[g].0);
                }
            }
        } else {
            if lru_has(s2, t) {
                let g = lru_find(s2, t);
                assert(0 <= g < s2.len() && s2[g].0 == t);
                assert(g < s2.len() - 1);
                assert(s[g].0 == t);
            }
        }
    }
}

/// Reduce: walk a sorted, duplicate-free tuple run and fill the
/// inverted file.  Afterwards the cache holds, for every token id,
/// exactly the postings of that token's tuples, in run order; the
/// length of a token's list is its document frequency.
pub fn reduce_tuples(sorted: &Vec<PTuple>, path: &str) -> (r: InvertedFile)
    requires
        sorted_tuples(sorted@),
        distinct_tok_doc(sorted@),
        tuples_in_range(sorted@),
        sorted@.len() < 0x3ffffff,
    ensures
        r.wf(),
        r.cache.capacity == 0,
        forall|t: usize| #[trigger] cache_val(r.cache.entries@, t) == tok_postings(sorted@, t),
{
    let mut invfile = InvertedFile::new(path);
    let n = sorted.len();
    let mut i: usize = 0;
    proof {
        assert forall|t: usize| #[trigger]
            cache_val(invfile.cache.entries@, t) == tok_postings(
            sorted@.take(0),
            t,
        ) by {
            assert(tok_postings(sorted@.take(0), t) =~= Seq::<Posting>::empty());
        }
    }
    while i < n
        invariant
            n == sorted@.len() < 0x3ffffff,
            0 <= i <= n,
            sorted_tuples(sorted@),
            distinct_tok_doc(sorted@),
            tuples_in_range(sorted@),
            invfile.wf(),
            invfile.cache.capacity == 0,
            invfile.pl_gets <= i as u32,
            invfile.cache_count <= i as u32,
            invfile.cache_hits <= i as u32,
            forall|t: usize| #[trigger]
                cache_val(invfile.cache.entries@, t) == tok_postings(sorted@.take(i as int), t),
        decreases n - i,
    {
        let pt = sorted[i];
        let ghost pre = invfile.cache.entries@;
        let ghost prefix = sorted@.take(i as int);
        proof {
            lemma_tok_postings_len(prefix, pt.tok);
            assert(cache_val(pre, pt.tok) == tok_postings(prefix, pt.tok));
            if lru_has(pre, pt.tok) {
                let pl = pre[lru_find(pre, pt.tok)].1;
                assert(pl.postings@ == cache_val(pre, pt.tok));
                if pl_has_doc(pl.postings@, pt.docid as u32) {
                    lemma_tok_postings_doc(prefix, pt.tok, pt.docid as u32);
                    let j = choose|j: int|
                        0 <= j < prefix.len() && (#[trigger] prefix[j]).tok == pt.tok
                            && prefix[j].docid == pt.docid as u32;
                    assert(sorted@[j].tok == pt.tok && sorted@[j].docid == pt.docid);
                    assert(false);
                }
            }
        }
        invfile.add_posting(pt.tok, pt.docid as u32, pt.count);
        proof {
            let cur = invfile.cache.entries@;
            assert(sorted@.take(i + 1).drop_last() =~= prefix);
            assert forall|t: usize| #[trigger]
                cache_val(cur, t) == tok_postings(sorted@.take(i + 1), t) by {
                assert(cache_val(pre, t) == tok_postings(prefix, t));
                let posting = Posting { doc_id: pt.docid as u32, tf: pt.count };
                if t == pt.tok {
                    assert(tok_postings(sorted@.take(i + 1), t) =~= tok_postings(
                        prefix,
                        t,
                    ).push(posting));
                } else {
                    assert(tok_postings(sorted@.take(i + 1), t) =~= tok_postings(prefix, t));
                }
                if lru_has(pre, pt.tok) {
                    let fi = lru_find(pre, pt.tok);
                    let pl = pre[fi].1;
                    let pl2 = choose|pl2: PostingList|
                        pl2.postings@ == pl.postings@.push(
                            Posting { doc_id: pt.docid as u32, tf: pt.count },
                        ) && cur == pre.remove(fi).push((pt.tok, pl2));
                    lemma_cache_val_remove_push(pre, fi, pt.tok, pl2);
                } else {
                    let pl2 = choose|pl2: PostingList|
                        pl2.postings@ == Seq::<Posting>::empty().push(
                            Posting { doc_id: pt.docid as u32, tf: pt.count },
                        ) && cur == pre.push((pt.tok, pl2));
                    lemma_cache_val_push(pre, pt.tok, pl2);
                }
            }
        }
        i += 1;
    }
    proof {
        assert(sorted@.take(n as int) =~= sorted@);
        assert forall|t: usize| #[trigger]
            cache_val(invfile.cache.entries@, t) == tok_postings(sorted@, t) by {
            assert(cache_val(invfile.cache.entries@, t) == tok_postings(
                sorted@.take(n as int),
                t,
            ));
        }
    }
    invfile
}

/// A token's document frequency equals the length of its posting
/// list.
pub proof fn lemma_index_consistency(ts: Seq<PTuple>, entries: Seq<(usize, PostingList)>, t: usize)
    requires
        forall|u: usize| #[trigger] cache_val(entries, u) == tok_postings(ts, u),
    ensures
        cache_val(entries, t).len() == tok_postings(ts, t).len(),
{
}

/// Every posting in a token's list carries the document and frequency
/// of the tuple it came from.
pub proof fn lemma_index_posting_source(
    ts: Seq<PTuple>,
    entries: Seq<(usize, PostingList)>,
    t: usize,
    p: int,
)
    requires
        forall|u: usize| #[trigger] cache_val(entries, u) == tok_postings(ts, u),
        0 <= p < cache_val(entries, t).len(),
    ensures
        exists|j: int|
            {
                &&& 0 <= j < ts.len()
                &&& (#[trigger] ts[j]).tok == t
                &&& ts[j].docid as u32 == cache_val(entries, t)[p].doc_id
                &&& ts[j].count == cache_val(entries, t)[p].tf
            },
{
    assert(cache_val(entries, t) == tok_postings(ts, t));
    lemma_tok_postings_index(ts, t, p);
    let j = choose|j: int|
        {
            &&& 0 <= j < ts.len()
            &&& (#[trigger] ts[j]).tok == t
            &&& ts[j].docid as u32 == tok_postings(ts, t)[p].doc_id
            &&& ts[j].count == tok_postings(ts, t)[p].tf
        };
    assert(0 <= j < ts.len() && ts[j].tok == t && ts[j].docid as u32 == cache_val(
        entries,
        t,
    )[p].doc_id && ts[j].count == cache_val(entries, t)[p].tf);
}

/// Each posting position traces back to the tuple it came from.
proof fn lemma_tok_postings_index(ts: Seq<PTuple>, t: usize, p: int)
    requires
        0 <= p < tok_postings(ts, t).len(),
    ensures
        exists|j: int|
            {
                &&& 0 <= j < ts.len()
                &&& (#[trigger] ts[j]).tok == t
                &&& ts[j].docid as u32 == tok_postings(ts, t)[p].doc_id
                &&& ts[j].count == tok_postings(ts, t)[p].tf
            },
    decreases ts.len(),
{
    let whole = tok_postings(ts, t);
    let head = tok_postings(ts.drop_last(), t);
    if ts.last().tok == t && p == whole.len() - 1 && whole.len() == head.len() + 1 {
        let j = ts.len() - 1;
        assert(ts[j].tok == t && ts[j].docid as u32 == whole[p].doc_id && ts[j].count
            == whole[p].tf);
    } else {
        assert(p < head.len() && head[p] == whole[p]) by {
            if ts.last().tok == t {
                assert(whole.len() == head.len() + 1);
            } else {
                assert(whole =~= head);
            }
        }
        lemma_tok_postings_index(ts.drop_last(), t, p);
        let j = choose|j: int|
            {
                &&& 0 <= j < ts.drop_last().len()
                &&& (#[trigger] ts.drop_last()[j]).tok == t
                &&& ts.drop_last()[j].docid as u32 == head[p].doc_id
                &&& ts.drop_last()[j].count == head[p].tf
            };
        assert(ts[j] == ts.drop_last()[j]);
    }
}


/// The terms are exactly the distinct ids of `tids`, each with its
/// occurrence count.
pub open spec fn terms_describe(ts: Seq<(usize, u32)>, tids: Seq<usize>) -> bool {
    &&& forall|j: int|
        0 <= j < ts.len() ==> (#[trigger] ts[j]).1 == count_in(tids, ts[j].0) && ts[j].1 >= 1
    &&& forall|a: int, b: int|
        0 <= a < ts.len() && 0 <= b < ts.len() && a != b ==> (#[trigger] ts[a]).0 != (
        #[trigger] ts[b]).0
    &&& forall|i: int| 0 <= i < tids.len() ==> terms_have(ts, #[trigger] tids[i])
}

/// The tuple's (token, count) pair stands in its document's term
/// vector.
pub open spec fn tuple_from_doc(dv: Seq<DocTerms>, pt: PTuple) -> bool {
    exists|j: int|
        0 <= j < dv[pt.docid - 1].terms@.len() && #[trigger] dv[pt.docid - 1].terms@[j] == (
        pt.tok, pt.count)
}

/// The map phase of a build: assign ids, aggregate counts, spill
/// tuples, and keep each document's term vector in internal-id order.
pub struct IndexBuilder {
    pub docid_map: OnDiskCompressedHash,
    pub token_map: OnDiskCompressedHash,
    pub tuples: Vec<PTuple>,
    pub doc_vectors: Vec<DocTerms>,
    pub fv_offsets: HashMap<usize, u64>,
}

impl IndexBuilder {
    pub open spec fn wf(&self) -> bool {
        &&& self.docid_map.wf()
        &&& !self.docid_map.finalized
        &&& self.token_map.wf()
        &&& !self.token_map.finalized
        &&& self.doc_vectors@.len() == self.docid_map.idx@.len()
        &&& forall|i: int|
            0 <= i < self.doc_vectors@.len() ==> (#[trigger] self.doc_vectors@[i]).docid@
                == self.docid_map.idx@[i]@
        &&& tuples_in_range(self.tuples@)
        &&& distinct_tok_doc(self.tuples@)
        &&& forall|i: int|
            0 <= i < self.tuples@.len() ==> (#[trigger] self.tuples@[i]).docid
                <= self.doc_vectors@.len()
        &&& forall|i: int|
            0 <= i < self.tuples@.len() ==> tuple_from_doc(
                self.doc_vectors@,
                #[trigger] self.tuples@[i],
            )
    }

    pub fn new() -> (r: IndexBuilder)
        ensures
            r.wf(),
            r.doc_vectors@.len() == 0,
            r.tuples@.len() == 0,
            r.fv_offsets@ == Map::<usize, u64>::empty(),
            r.docid_map.idx@.len() == 0,
            r.docid_map.map@ == Map::<Seq<char>, usize>::empty(),
            r.token_map.idx@.len() == 0,
            r.token_map.map@ == Map::<Seq<char>, usize>::empty(),
    {
        IndexBuilder {
            docid_map: OnDiskCompressedHash::new(),
            token_map: OnDiskCompressedHash::new(),
            tuples: Vec::new(),
            doc_vectors: Vec::new(),
            fv_offsets: HashMap::new(),
        }
    }

    /// Ingest one document: assign the next internal id, map its
    /// tokens to token ids, aggregate the counts, and spill one tuple
    /// per distinct token.
    pub fn add_document(&mut self, docid: &str, tokens: &Vec<String>) -> (intid: usize)
        requires
            old(self).wf(),
            !old(self).docid_map.has(docid@),
            old(self).doc_vectors@.len() < 0x3fff_ffff,
            old(self).token_map.idx@.len() + tokens@.len() < usize::MAX - 1,
            tokens@.len() < 0xffff_ffff,
            old(self).tuples@.len() + tokens@.len() < usize::MAX,
        ensures
            final(self).wf(),
            intid == old(self).doc_vectors@.len() + 1,
            final(self).doc_vectors@.len() == intid,
            final(self).docid_map.idx@.len() == old(self).docid_map.idx@.len() + 1,
            final(self).token_map.idx@.len() <= old(self).token_map.idx@.len()
                + tokens@.len(),
            final(self).doc_vectors@[intid - 1].terms@.len() <= tokens@.len(),
            final(self).tuples@.len() <= old(self).tuples@.len() + tokens@.len(),
            final(self).fv_offsets@ == old(self).fv_offsets@,
            forall|j: int|
                0 <= j < old(self).doc_vectors@.len() ==> final(self).doc_vectors@[j] == old(
                    self,
                ).doc_vectors@[j],
            final(self).doc_vectors@[intid - 1].docid@ == docid@,
            final(self).docid_map.map@ == old(self).docid_map.map@.insert(
                docid@,
                intid as usize,
            ),
            // existing vocabulary entries keep their ids
            forall|k: Seq<char>|
                #[trigger] old(self).token_map.map@.contains_key(k) ==> {
                    &&& final(self).token_map.map@.contains_key(k)
                    &&& final(self).token_map.map@[k] == old(self).token_map.map@[k]
                },
            forall|i: int|
                0 <= i < tokens@.len() ==> final(self).token_map.map@.contains_key(
                    ((#[trigger] tokens@[i])@),
                ),
            // the term vector holds exactly the distinct token ids of
            // the document, each with its occurrence count
            terms_describe(
                final(self).doc_vectors@[intid - 1].terms@,
                lex_ids(final(self).token_map.map@, tokens.deep_view()),
            ),
            // one spilled tuple per term, carrying this document's id
            final(self).tuples@.len() == old(self).tuples@.len() + final(self).doc_vectors@[intid
                - 1].terms@.len(),
            forall|j: int|
                0 <= j < old(self).tuples@.len() ==> final(self).tuples@[j] == old(
                    self,
                ).tuples@[j],
            forall|j: int|
                0 <= j < final(self).doc_vectors@[intid - 1].terms@.len()
                    ==> final(self).tuples@[old(self).tuples@.len() + j] == (PTuple {
                    tok: (#[trigger] final(self).doc_vectors@[intid - 1].terms@[j]).0,
                    docid: intid as usize,
                    count: final(self).doc_vectors@[intid - 1].terms@[j].1,
                }),
    {
        let intid = self.docid_map.get_or_insert(docid);
        let ghost dm = self.docid_map;
        let n = tokens.len();
        let mut terms: Vec<(usize, u32)> = Vec::new();
        let ghost mut tids: Seq<usize> = Seq::empty();
        let mut i: usize = 0;
        while i < n
            invariant
                n == tokens@.len() < 0xffff_ffff,
                0 <= i <= n,
                tids.len() == i,
                self.docid_map == dm,
                self.tuples == old(self).tuples,
                self.doc_vectors == old(self).doc_vectors,
                self.fv_offsets == old(self).fv_offsets,
                self.token_map.wf(),
                !self.token_map.finalized,
                self.token_map.idx@.len() <= old(self).token_map.idx@.len() + i,
                old(self).token_map.idx@.len() + tokens@.len() < usize::MAX - 1,
                forall|k: Seq<char>|
                    #[trigger] old(self).token_map.map@.contains_key(k)
                        ==> self.token_map.map@.contains_key(k) && self.token_map.map@[k]
                        == old(self).token_map.map@[k],
                forall|q: int|
                    0 <= q < i ==> self.token_map.map@.contains_key(((#[trigger] tokens@[q])@))
                        && tids[q] == self.token_map.map@[tokens@[q]@],
                forall|j: int|
                    0 <= j < terms@.len() ==> 0 < (#[trigger] terms@[j]).0 < usize::MAX,
                terms@.len() <= i,
                terms_describe(terms@, tids),
            decreases n - i,
        {
            let tok = &tokens[i];
            let ghost pre_map = self.token_map.map@;
            let tokid = self.token_map.get_or_insert(tok.as_str());
            let ghost pre_tids = tids;
            let ghost pre_terms = terms@;
            proof {
                tids = tids.push(tokid);
                assert(tids.drop_last() =~= pre_tids);
            }
            let p = Self::term_position(&terms, tokid);
            if p < terms.len() {
                let c = terms[p].1;
                proof {
                    assert(count_in(tids, tokid) == count_in(tids.drop_last(), tokid) + 1);
                    assert(c < 0xffff_ffffu32) by {
                        lemma_count_in_le(tids.drop_last(), tokid);
                    }
                }
                terms[p] = (tokid, c + 1);
                proof {
                    assert forall|j: int|
                        0 <= j < terms@.len() implies (#[trigger] terms@[j]).1 == count_in(
                        tids,
                        terms@[j].0,
                    ) && terms@[j].1 >= 1 by {
                        assert(pre_terms[j].1 == count_in(pre_tids, pre_terms[j].0));
                        if j != p {
                            assert(terms@[j] == pre_terms[j]);
                            assert(terms@[j].0 != tokid);
                            assert(count_in(tids, terms@[j].0) == count_in(
                                pre_tids,
                                terms@[j].0,
                            ));
                        } else {
                            assert(count_in(tids, tokid) == count_in(pre_tids, tokid) + 1);
                        }
                    }
                    assert forall|q: int| 0 <= q < tids.len() implies terms_have(
                        terms@,
                        #[trigger] tids[q],
                    ) by {
                        if q < tids.len() - 1 {
                            assert(terms_have(pre_terms, pre_tids[q]));
                            let w = choose|w: int|
                                0 <= w < pre_terms.len() && (#[trigger] pre_terms[w]).0
                                    == pre_tids[q];
                            assert(terms@[w].0 == pre_terms[w].0);
                        } else {
                            assert(terms@[p as int].0 == tids[q]);
                        }
                    }
                }
            } else {
                terms.push((tokid, 1));
                proof {
                    assert forall|j: int|
                        0 <= j < terms@.len() implies (#[trigger] terms@[j]).1 == count_in(
                        tids,
                        terms@[j].0,
                    ) && terms@[j].1 >= 1 by {
                        if j < terms@.len() - 1 {
                            assert(terms@[j] == pre_terms[j]);
                            assert(pre_terms[j].1 == count_in(pre_tids, pre_terms[j].0));
                            assert(terms@[j].0 != tokid);
                            assert(count_in(tids, terms@[j].0) == count_in(
                                pre_tids,
                                terms@[j].0,
                            ));
                        } else {
                            assert(count_in(tids, tokid) == count_in(pre_tids, tokid) + 1);
                            lemma_count_in_absent(pre_tids, pre_terms, tokid);
                        }
                    }
                    assert forall|q: int| 0 <= q < tids.len() implies terms_have(
                        terms@,
                        #[trigger] tids[q],
                    ) by {
                        if q < tids.len() - 1 {
                            assert(terms_have(pre_terms, pre_tids[q]));
                            let w = choose|w: int|
                                0 <= w < pre_terms.len() && (#[trigger] pre_terms[w]).0
                                    == pre_tids[q];
                            assert(terms@[w].0 == pre_terms[w].0);
                        } else {
                            assert(terms@[terms@.len() - 1].0 == tids[q]);
                        }
                    }
                }
            }
            proof {
                assert forall|k: Seq<char>|
                    #[trigger] old(self).token_map.map@.contains_key(k) implies {
                    &&& self.token_map.map@.contains_key(k)
                    &&& self.token_map.map@[k] == old(self).token_map.map@[k]
                } by {
                    assert(pre_map.contains_key(k));
                    if !pre_map.contains_key(tok@) {
                        assert(k != tok@);
                    }
                }
            }
            i += 1;
        }
        let m = terms.len();
        let ghost pre_tuples = self.tuples@;
        let ghost tm = self.token_map;
        let mut k: usize = 0;
        while k < m
            invariant
                m == terms@.len(),
                0 <= k <= m,
                pre_tuples.len() + m < usize::MAX,
                0 < intid < usize::MAX,
                self.tuples@.len() == pre_tuples.len() + k,
                forall|j: int| 0 <= j < pre_tuples.len() ==> self.tuples@[j] == pre_tuples[j],
                forall|j: int|
                    0 <= j < k ==> self.tuples@[pre_tuples.len() + j] == (PTuple {
                        tok: (#[trigger] terms@[j]).0,
                        docid: intid as usize,
                        count: terms@[j].1,
                    }),
                self.docid_map == dm,
                self.doc_vectors == old(self).doc_vectors,
                self.fv_offsets == old(self).fv_offsets,
                self.token_map == tm,
            decreases m - k,
        {
            let (t, c) = terms[k];
            self.tuples.push(PTuple { tok: t, docid: intid, count: c });
            k += 1;
        }
        self.doc_vectors.push(DocTerms { docid: docid.to_string(), terms });
        proof {
            let dv = self.doc_vectors@;
            let tmap = self.token_map.map@;
            // the counted ids are the document's ids under the final
            // vocabulary
            assert(tids =~= lex_ids(tmap, tokens.deep_view())) by {
                assert forall|q: int|
                    0 <= q < tids.len() implies tids[q] == lex_ids(
                    tmap,
                    tokens.deep_view(),
                )[q] by {
                    assert(tokens.deep_view()[q] == tokens@[q]@);
                }
            }
            // the catalogue and the term vectors stay aligned
            assert forall|i2: int|
                0 <= i2 < dv.len() implies (#[trigger] dv[i2]).docid@
                == self.docid_map.idx@[i2]@ by {
                if i2 < dv.len() - 1 {
                    assert(dv[i2] == old(self).doc_vectors@[i2]);
                }
            }
            // the new tuples carry the new document's id, so pairs
            // stay distinct and in range
            let nt = self.tuples@;
            assert forall|a: int, b: int|
                0 <= a < nt.len() && 0 <= b < nt.len() && a != b implies !((#[trigger] nt[a]).tok
                == (#[trigger] nt[b]).tok && nt[a].docid == nt[b].docid) by {
                let pl = pre_tuples.len() as int;
                if a < pl && b < pl {
                    assert(nt[a] == old(self).tuples@[a] && nt[b] == old(self).tuples@[b]);
                } else if a >= pl && b >= pl {
                    assert(nt[a].tok == terms@[a - pl].0 && nt[b].tok == terms@[b - pl].0);
                } else if a < pl {
                    assert(nt[a] == old(self).tuples@[a]);
                    assert(nt[a].docid <= old(self).doc_vectors@.len());
                    assert(nt[pl + (b - pl)] == (PTuple {
                        tok: (#[trigger] terms@[b - pl]).0,
                        docid: intid as usize,
                        count: terms@[b - pl].1,
                    }));
                } else {
                    assert(nt[b] == old(self).tuples@[b]);
                    assert(nt[b].docid <= old(self).doc_vectors@.len());
                    assert(nt[pl + (a - pl)] == (PTuple {
                        tok: (#[trigger] terms@[a - pl]).0,
                        docid: intid as usize,
                        count: terms@[a - pl].1,
                    }));
                }
            }
            assert forall|i2: int|
                0 <= i2 < nt.len() implies {
                &&& 0 < (#[trigger] nt[i2]).tok < usize::MAX
                &&& 0 < nt[i2].docid < 0x40000000
                &&& 0 < nt[i2].count
            } by {
                let pl = pre_tuples.len() as int;
                if i2 < pl {
                    assert(nt[i2] == old(self).tuples@[i2]);
                } else {
                    assert(nt[i2].tok == terms@[i2 - pl].0);
                    assert(nt[i2].count == terms@[i2 - pl].1);
                    assert(terms@[i2 - pl].1 >= 1);
                }
            }
            assert forall|i2: int|
                0 <= i2 < nt.len() implies (#[trigger] nt[i2]).docid <= dv.len() by {
                let pl = pre_tuples.len() as int;
                if i2 < pl {
                    assert(nt[i2] == old(self).tuples@[i2]);
                } else {
                    let j = i2 - pl;
                    assert(nt[pl + j] == (PTuple {
                        tok: (#[trigger] terms@[j]).0,
                        docid: intid as usize,
                        count: terms@[j].1,
                    }));
                }
            }
            assert forall|i2: int|
                0 <= i2 < self.tuples@.len() implies tuple_from_doc(
                self.doc_vectors@,
                #[trigger] self.tuples@[i2],
            ) by {
                let pl = pre_tuples.len() as int;
                let pt = self.tuples@[i2];
                if i2 < pl {
                    assert(pt == old(self).tuples@[i2]);
                    assert(tuple_from_doc(old(self).doc_vectors@, #[trigger] old(
                        self,
                    ).tuples@[i2]));
                    let j = choose|j: int|
                        0 <= j < old(self).doc_vectors@[pt.docid - 1].terms@.len() && #[trigger]
                            old(self).doc_vectors@[pt.docid - 1].terms@[j] == (pt.tok, pt.count);
                    assert(self.doc_vectors@[pt.docid - 1] == old(self).doc_vectors@[pt.docid
                        - 1]);
                    assert(self.doc_vectors@[pt.docid - 1].terms@[j] == (pt.tok, pt.count));
                } else {
                    let j = i2 - pl;
                    assert(self.tuples@[pl + j] == (PTuple {
                        tok: (#[trigger] terms@[j]).0,
                        docid: intid as usize,
                        count: terms@[j].1,
                    }));
                    assert(self.doc_vectors@[pt.docid - 1].terms@ == terms@);
                    assert(self.doc_vectors@[pt.docid - 1].terms@[j] == (pt.tok, pt.count));
                }
            }
        }
        intid
    }

    /// Where a token's pair sits in the term vector, or its length.
    fn term_position(terms: &Vec<(usize, u32)>, tokid: usize) -> (r: usize)
        ensures
            r <= terms@.len(),
            r < terms@.len() ==> terms@[r as int].0 == tokid,
            forall|j: int| 0 <= j < r ==> (#[trigger] terms@[j]).0 != tokid,
            (r < terms@.len()) == terms_have(terms@, tokid),
    {
        let n = terms.len();
        let mut i: usize = 0;
        while i < n
            invariant
                n == terms@.len(),
                0 <= i <= n,
                forall|j: int| 0 <= j < i ==> (#[trigger] terms@[j]).0 != tokid,
            decreases n - i,
        {
            if terms[i].0 == tokid {
                return i;
            }
            i += 1;
        }
        i
    }

    /// The document frequency of every token id: how many documents
    /// carry it, which is one spilled tuple per carrying document.
    /// Index 0 and ids beyond the table have no occurrences.
    pub fn document_frequencies(&self) -> (df: Vec<u32>)
        requires
            self.wf(),
            self.tuples@.len() <= 0xffff_ffff,
        ensures
            forall|t: int|
                0 <= t < df@.len() ==> #[trigger] df@[t] == tok_postings(
                    self.tuples@,
                    t as usize,
                ).len(),
            forall|t: usize|
                t >= df@.len() ==> #[trigger] tok_postings(self.tuples@, t).len() == 0,
    {
        let mut df: Vec<u32> = Vec::new();
        let n = self.tuples.len();
        let mut i: usize = 0;
        proof {
            assert forall|t: usize| #[trigger]
                tok_postings(self.tuples@.take(0), t).len() == 0 by {
                assert(self.tuples@.take(0) =~= Seq::<PTuple>::empty());
            }
        }
        while i < n
            invariant
                self.wf(),
                n == self.tuples@.len() <= 0xffff_ffff,
                0 <= i <= n,
                forall|t: int|
                    0 <= t < df@.len() ==> #[trigger] df@[t] == tok_postings(
                        self.tuples@.take(i as int),
                        t as usize,
                    ).len(),
                forall|t: usize|
                    t >= df@.len() ==> #[trigger] tok_postings(
                        self.tuples@.take(i as int),
                        t,
                    ).len() == 0,
            decreases n - i,
        {
            let pt_tok = self.tuples[i].tok;
            proof {
                assert(0 < pt_tok < usize::MAX);
            }
            Self::grow_counts(&mut df, pt_tok);
            let ghost pre = df@;
            let c = df[pt_tok];
            proof {
                lemma_tok_postings_len(self.tuples@.take(i as int), pt_tok);
                assert(self.tuples@.take(i + 1).drop_last() =~= self.tuples@.take(i as int));
            }
            df[pt_tok] = c + 1;
            let dflen = df.len();
            proof {
                assert(df@.len() == dflen <= usize::MAX);
                assert(self.tuples@.take(i + 1).last() == self.tuples@[i as int]);
                assert forall|t: int|
                    0 <= t < df@.len() implies #[trigger] df@[t] == tok_postings(
                    self.tuples@.take(i + 1),
                    t as usize,
                ).len() by {
                    let u = t as usize;
                    assert(t == u as int);
                    if u != pt_tok {
                        assert(df@[t] == pre[t]);
                        assert(tok_postings(self.tuples@.take(i + 1), u) == tok_postings(
                            self.tuples@.take(i + 1).drop_last(),
                            u,
                        ) + Seq::<Posting>::empty());
                        assert(tok_postings(self.tuples@.take(i + 1), u) =~= tok_postings(
                            self.tuples@.take(i as int),
                            u,
                        ));
                    } else {
                        assert(tok_postings(self.tuples@.take(i + 1), u).len() == tok_postings(
                            self.tuples@.take(i as int),
                            u,
                        ).len() + 1);
                    }
                }
                assert forall|t: usize| t >= df@.len() implies #[trigger] tok_postings(
                    self.tuples@.take(i + 1),
                    t,
                ).len() == 0 by {
                    assert(t != pt_tok);
                    assert(tok_postings(self.tuples@.take(i + 1), t) == tok_postings(
                        self.tuples@.take(i + 1).drop_last(),
                        t,
                    ) + Seq::<Posting>::empty());
                    assert(tok_postings(self.tuples@.take(i + 1), t) =~= tok_postings(
                        self.tuples@.take(i as int),
                        t,
                    ));
                }
            }
            i += 1;
        }
        proof {
            assert(self.tuples@.take(n as int) =~= self.tuples@);
        }
        df
    }

    /// Pad the frequency table with zeroes out to a token id.
    fn grow_counts(df: &mut Vec<u32>, tokid: usize)
        requires
            tokid < usize::MAX,
        ensures
            final(df)@.len() > tokid,
            final(df)@.len() >= old(df)@.len(),
            forall|t: int| 0 <= t < old(df)@.len() ==> final(df)@[t] == old(df)@[t],
            forall|t: int| old(df)@.len() <= t < final(df)@.len() ==> final(df)@[t] == 0,
    {
        while df.len() <= tokid
            invariant
                tokid < usize::MAX,
                df@.len() >= old(df)@.len(),
                forall|t: int| 0 <= t < old(df)@.len() ==> df@[t] == old(df)@[t],
                forall|t: int| old(df)@.len() <= t < df@.len() ==> df@[t] == 0,
            decreases tokid + 1 - df@.len(),
        {
            df.push(0);
        }
    }

    /// Remember where a document's feature record was written.
    pub fn record_fv_offset(&mut self, intid: usize, offset: u64)
        ensures
            final(self).fv_offsets@ == old(self).fv_offsets@.insert(intid, offset),
            final(self).docid_map == old(self).docid_map,
            final(self).token_map == old(self).token_map,
            final(self).tuples == old(self).tuples,
            final(self).doc_vectors == old(self).doc_vectors,
    {
        self.fv_offsets.insert(intid, offset);
    }

    /// Every internal id has a recorded feature-record offset.
    pub fn fv_offsets_complete(&self) -> (r: bool)
        requires
            self.doc_vectors@.len() < usize::MAX,
        ensures
            r == forall|i: usize|
                1 <= i <= self.doc_vectors@.len() ==> #[trigger] self.fv_offsets@.contains_key(
                    i,
                ),
    {
        let n = self.doc_vectors.len();
        let mut i: usize = 1;
        while i <= n
            invariant
                n == self.doc_vectors@.len() < usize::MAX,
                1 <= i <= n + 1,
                forall|j: usize| 1 <= j < i ==> #[trigger] self.fv_offsets@.contains_key(j),
            decreases n + 1 - i,
        {
            if !self.fv_offsets.contains_key(&i) {
                return false;
            }
            i += 1;
        }
        true
    }
}

proof fn lemma_count_in_le(s: Seq<usize>, t: usize)
    ensures
        count_in(s, t) <= s.len(),
    decreases s.len(),
{
    if s.len() > 0 {
        lemma_count_in_le(s.drop_last(), t);
    }
}

/// A token id no term carries was never counted.
proof fn lemma_count_in_absent(tids: Seq<usize>, ts: Seq<(usize, u32)>, t: usize)
    requires
        forall|q: int| 0 <= q < tids.len() ==> terms_have(ts, #[trigger] tids[q]),
        !terms_have(ts, t),
    ensures
        count_in(tids, t) == 0,
    decreases tids.len(),
{
    if tids.len() > 0 {
        assert(terms_have(ts, tids[tids.len() - 1]));
        assert(tids[tids.len() - 1] != t);
        assert(forall|q: int|
            0 <= q < tids.len() - 1 ==> #[trigger] tids.drop_last()[q] == tids[q]);
        lemma_count_in_absent(tids.drop_last(), ts, t);
    }
}

/// For every internal id of a built collection, the document's stored
/// external id maps back to that internal id.
pub proof fn lemma_fv_extid_round_trip(b: &IndexBuilder, intid: int)
    requires
        b.wf(),
        1 <= intid <= b.doc_vectors@.len(),
    ensures
        b.docid_map.map@.contains_key(b.doc_vectors@[intid - 1].docid@),
        b.docid_map.map@[b.doc_vectors@[intid - 1].docid@] == intid,
{
    assert(b.doc_vectors@[intid - 1].docid@ == b.docid_map.idx@[intid - 1]@);
    assert(b.docid_map.map@.contains_key(b.docid_map.idx@[intid - 1]@));
}


/// The full index consistency chain: a posting in the reduced index
/// carries the exact term count of the document it names.  The tuples
/// the reduce pass consumed may be any permutation of the tuples the
/// map pass emitted.
pub proof fn lemma_posting_matches_document(
    b: &IndexBuilder,
    sorted: Seq<PTuple>,
    entries: Seq<(usize, PostingList)>,
    t: usize,
    p: int,
)
    requires
        b.wf(),
        sorted.to_multiset() == b.tuples@.to_multiset(),
        forall|u: usize| #[trigger] cache_val(entries, u) == tok_postings(sorted, u),
        0 <= p < cache_val(entries, t).len(),
    ensures
        1 <= cache_val(entries, t)[p].doc_id <= b.doc_vectors@.len(),
        exists|j: int|
            {
                &&& 0 <= j < b.doc_vectors@[cache_val(entries, t)[p].doc_id - 1].terms@.len()
                &&& #[trigger] b.doc_vectors@[cache_val(entries, t)[p].doc_id - 1].terms@[j]
                    == (t, cache_val(entries, t)[p].tf)
            },
{
    broadcast use vstd::seq_lib::group_to_multiset_ensures;

    lemma_index_posting_source(sorted, entries, t, p);
    let posting = cache_val(entries, t)[p];
    let k = choose|j: int|
        {
            &&& 0 <= j < sorted.len()
            &&& (#[trigger] sorted[j]).tok == t
            &&& sorted[j].docid as u32 == posting.doc_id
            &&& sorted[j].count == posting.tf
        };
    let pt = sorted[k];
    assert(sorted.contains(pt));
    assert(sorted.to_multiset().count(pt) > 0);
    assert(b.tuples@.contains(pt));
    let i = choose|i: int| 0 <= i < b.tuples@.len() && b.tuples@[i] == pt;
    assert(b.tuples@[i].docid as u32 == posting.doc_id);
    assert(1 <= b.tuples@[i].docid <= b.doc_vectors@.len());
    assert(tuple_from_doc(b.doc_vectors@, #[trigger] b.tuples@[i]));
    let j = choose|j: int|
        0 <= j < b.doc_vectors@[pt.docid - 1].terms@.len() && #[trigger] b.doc_vectors@[pt.docid
            - 1].terms@[j] == (pt.tok, pt.count);
    assert(b.doc_vectors@[posting.doc_id - 1].terms@[j] == (t, posting.tf));
}


/// A permutation of tuples with pairwise-distinct (token, document)
/// pairs again has pairwise-distinct pairs.
pub proof fn lemma_permutation_distinct_tok_doc(a: Seq<PTuple>, b: Seq<PTuple>)
    requires
        a.to_multiset() == b.to_multiset(),
        distinct_tok_doc(a),
    ensures
        distinct_tok_doc(b),
{
    assert forall|i: int, j: int|
        0 <= i < b.len() && 0 <= j < b.len() && i != j implies !((#[trigger] b[i]).tok == (
    #[trigger] b[j]).tok && b[i].docid == b[j].docid) by {
        if b[i].tok == b[j].tok && b[i].docid == b[j].docid {
            let x = b[i];
            let y = b[j];
            if x == y {
                // the element occurs twice in b, so twice in a
                assert(b.remove(i).to_multiset() == b.to_multiset().remove(x));
                let j2 = if j < i {
                    j
                } else {
                    j - 1
                };
                assert(b.remove(i)[j2] == x);
                assert(b.remove(i).contains(x));
                assert(b.to_multiset().remove(x).count(x) > 0);
                assert(a.to_multiset().count(x) >= 2);
                assert(a.contains(x));
                let k = choose|k: int| 0 <= k < a.len() && a[k] == x;
                assert(a.remove(k).to_multiset() == a.to_multiset().remove(x));
                assert(a.remove(k).to_multiset().count(x) > 0);
                assert(a.remove(k).contains(x));
                let l = choose|l: int| 0 <= l < a.remove(k).len() && a.remove(k)[l] == x;
                let l2 = if l < k {
                    l
                } else {
                    l + 1
                };
                assert(a[l2] == x);
                assert(k != l2);
            } else {
                assert(b.contains(x) && b.contains(y));
                assert(a.to_multiset().count(x) > 0 && a.to_multiset().count(y) > 0);
                assert(a.contains(x) && a.contains(y));
                let k = choose|k: int| 0 <= k < a.len() && a[k] == x;
                let l = choose|l: int| 0 <= l < a.len() && a[l] == y;
                assert(k != l);
            }
        }
    }
}

/// A permutation of in-range tuples is in range.
pub proof fn lemma_permutation_tuples_in_range(a: Seq<PTuple>, b: Seq<PTuple>)
    requires
        a.to_multiset() == b.to_multiset(),
        tuples_in_range(a),
    ensures
        tuples_in_range(b),
{
    assert forall|i: int|
        0 <= i < b.len() implies {
        &&& 0 < (#[trigger] b[i]).tok < usize::MAX
        &&& 0 < b[i].docid < 0x40000000
        &&& 0 < b[i].count
    } by {
        assert(b.contains(b[i]));
        assert(b.to_multiset().count(b[i]) > 0);
        assert(a.contains(b[i]));
        let k = choose|k: int| 0 <= k < a.len() && a[k] == b[i];
        assert(0 < a[k].tok < usize::MAX && 0 < a[k].docid < 0x40000000 && 0 < a[k].count);
    }
}

/// A sorted, duplicate-free tuple run yields each token's postings in
/// strictly ascending doc-id order.
proof fn lemma_tok_postings_ascending(ts: Seq<PTuple>, t: usize)
    requires
        sorted_tuples(ts),
        distinct_tok_doc(ts),
        tuples_in_range(ts),
    ensures
        forall|p: int, q: int|
            0 <= p < q < tok_postings(ts, t).len() ==> (#[trigger] tok_postings(ts, t)[p]).doc_id
                < (#[trigger] tok_postings(ts, t)[q]).doc_id,
    decreases ts.len(),
{
    if ts.len() > 0 {
        let head = tok_postings(ts.drop_last(), t);
        let whole = tok_postings(ts, t);
        assert(forall|q2: int|
            0 <= q2 < ts.len() - 1 ==> (#[trigger] ts.drop_last()[q2]) == ts[q2]);
        lemma_tok_postings_ascending(ts.drop_last(), t);
        assert forall|p: int, q: int|
            0 <= p < q < whole.len() implies (#[trigger] whole[p]).doc_id < (
        #[trigger] whole[q]).doc_id by {
            if ts.last().tok == t && q == whole.len() - 1 {
                assert(whole.len() == head.len() + 1);
                assert(whole[p] == head[p]);
                lemma_tok_postings_index(ts.drop_last(), t, p);
                let j = choose|j: int|
                    {
                        &&& 0 <= j < ts.drop_last().len()
                        &&& (#[trigger] ts.drop_last()[j]).tok == t
                        &&& ts.drop_last()[j].docid as u32 == head[p].doc_id
                        &&& ts.drop_last()[j].count == head[p].tf
                    };
                assert(ts[j] == ts.drop_last()[j]);
                assert(crate::ptuple::ptuple_le(ts[j], ts[ts.len() - 1]));
                assert(ts[j].docid != ts[ts.len() - 1].docid);
                assert(ts[j].docid < ts[ts.len() - 1].docid);
                assert(whole[q].doc_id == ts[ts.len() - 1].docid as u32);
            } else {
                assert(whole[p] == head[p] && whole[q] == head[q]) by {
                    if ts.last().tok != t {
                        assert(whole =~= head);
                    }
                }
            }
        }
    }
}

/// A token's reduced posting list is in strictly ascending doc-id
/// order, as downstream readers rely on.
pub proof fn lemma_index_postings_ascending(
    ts: Seq<PTuple>,
    entries: Seq<(usize, PostingList)>,
    t: usize,
)
    requires
        sorted_tuples(ts),
        distinct_tok_doc(ts),
        tuples_in_range(ts),
        forall|u: usize| #[trigger] cache_val(entries, u) == tok_postings(ts, u),
    ensures
        forall|p: int, q: int|
            0 <= p < q < cache_val(entries, t).len() ==> (#[trigger] cache_val(
                entries,
                t,
            )[p]).doc_id < (#[trigger] cache_val(entries, t)[q]).doc_id,
{
    lemma_tok_postings_ascending(ts, t);
    assert(cache_val(entries, t) == tok_postings(ts, t));
}

} // verus!


