//! Posting lists: sorted runs of (doc id, term frequency) pairs and
//! their compressed byte form, plus the inverted file built from them.

use crate::compress::{
    has_magic_prefix, has_vbyte_prefix, lemma_magic_prefix_unique, lemma_mod4,
    lemma_prefix_parts, magic_first,
    lemma_vbyte_bytes_len, lemma_vbyte_prefix_unique, lemma_vbyte_round_trip, magic_bytes,
    magic_bytes_required, magic_len, magic_prefix_pair, valid_magic, vbyte_bytes,
    vbyte_bytes_required, vbyte_len, vbyte_prefix_value, MagicEncodedBuffer,
};
use crate::lrucache::{find_key as lru_find, has_key as lru_has, lru_insert_step, LruCache};
use vstd::prelude::*;

verus! {

broadcast use vstd::seq_lib::group_to_multiset_ensures;

#[derive(Clone, Copy, Debug, PartialEq, Eq, PartialOrd, Ord, Structural)]
pub struct Posting {
    pub doc_id: u32,
    pub tf: u32,
}

/// The order the serializer uses: by doc id, ties by frequency.
pub open spec fn posting_le(a: Posting, b: Posting) -> bool {
    a.doc_id < b.doc_id || (a.doc_id == b.doc_id && a.tf <= b.tf)
}

pub open spec fn sorted_postings(ps: Seq<Posting>) -> bool {
    forall|i: int, j: int| 0 <= i < j < ps.len() ==> posting_le(ps[i], ps[j])
}

/// No two postings share a doc id.
pub open spec fn distinct_docids(ps: Seq<Posting>) -> bool {
    forall|i: int, j: int|
        0 <= i < ps.len() && 0 <= j < ps.len() && i != j ==> (#[trigger] ps[i]).doc_id != (
        #[trigger] ps[j]).doc_id
}

/// Doc ids positive and small enough that every docgap encodes, and
/// frequencies positive.
pub open spec fn postings_in_range(ps: Seq<Posting>) -> bool {
    forall|i: int|
        0 <= i < ps.len() ==> 0 < (#[trigger] ps[i]).doc_id < 0x40000000 && 0 < ps[i].tf
}

/// Every docgap from `last` on is positive and encodes within bounds.
pub open spec fn wf_postings(ps: Seq<Posting>, last: nat) -> bool
    decreases ps.len(),
{
    ps.len() == 0 || {
        &&& ps[0].doc_id > last
        &&& valid_magic((ps[0].doc_id - last) as nat, ps[0].tf as nat)
        &&& wf_postings(ps.skip(1), ps[0].doc_id as nat)
    }
}

/// The serialized postings after a count prefix: one (gap, tf) pair
/// per posting, gaps taken against `last`.
pub open spec fn postings_bytes(ps: Seq<Posting>, last: nat) -> Seq<u8>
    decreases ps.len(),
{
    if ps.len() == 0 {
        Seq::empty()
    } else {
        magic_bytes((ps[0].doc_id - last) as nat, ps[0].tf as nat) + postings_bytes(
            ps.skip(1),
            ps[0].doc_id as nat,
        )
    }
}

/// The full byte form of a posting list: vbyte count, then the pairs.
pub open spec fn pl_bytes(ps: Seq<Posting>) -> Seq<u8> {
    vbyte_bytes(ps.len() as nat) + postings_bytes(ps, 0)
}

pub open spec fn has_pl_prefix(s: Seq<u8>) -> bool {
    exists|ps: Seq<Posting>|
        {
            &&& wf_postings(ps, 0)
            &&& ps.len() < 0x100000000
            &&& (#[trigger] pl_bytes(ps)).is_prefix_of(s)
        }
}

pub open spec fn pl_prefix(s: Seq<u8>) -> Seq<Posting> {
    choose|ps: Seq<Posting>|
        {
            &&& wf_postings(ps, 0)
            &&& ps.len() < 0x100000000
            &&& (#[trigger] pl_bytes(ps)).is_prefix_of(s)
        }
}

/// Two well-formed pair runs of the same length that start the same
/// bytes are the same run.
proof fn lemma_postings_parse_unique(ps1: Seq<Posting>, ps2: Seq<Posting>, last: nat, s: Seq<u8>)
    requires
        wf_postings(ps1, last),
        wf_postings(ps2, last),
        ps1.len() == ps2.len(),
        postings_bytes(ps1, last).is_prefix_of(s),
        postings_bytes(ps2, last).is_prefix_of(s),
    ensures
        ps1 == ps2,
    decreases ps1.len(),
{
    if ps1.len() == 0 {
        assert(ps1 =~= ps2);
    } else {
        let g1 = (ps1[0].doc_id - last) as nat;
        let g2 = (ps2[0].doc_id - last) as nat;
        lemma_prefix_parts(
            magic_bytes(g1, ps1[0].tf as nat),
            postings_bytes(ps1.skip(1), ps1[0].doc_id as nat),
            s,
        );
        lemma_prefix_parts(
            magic_bytes(g2, ps2[0].tf as nat),
            postings_bytes(ps2.skip(1), ps2[0].doc_id as nat),
            s,
        );
        lemma_magic_prefix_unique(g1, ps1[0].tf as nat, g2, ps2[0].tf as nat, s);
        assert(ps1[0] == ps2[0]);
        lemma_postings_parse_unique(
            ps1.skip(1),
            ps2.skip(1),
            ps1[0].doc_id as nat,
            s.skip(magic_bytes(g1, ps1[0].tf as nat).len() as int),
        );
        assert(ps1 =~= ps2) by {
            assert(forall|i: int|
                1 <= i < ps1.len() ==> ps1[i] == ps1.skip(1)[i - 1] && ps2[i] == ps2.skip(1)[i
                    - 1]);
        }
    }
}

/// At most one well-formed posting list starts a given byte sequence.
pub proof fn lemma_pl_prefix_unique(ps1: Seq<Posting>, ps2: Seq<Posting>, s: Seq<u8>)
    requires
        wf_postings(ps1, 0),
        wf_postings(ps2, 0),
        ps1.len() < 0x100000000,
        ps2.len() < 0x100000000,
        pl_bytes(ps1).is_prefix_of(s),
        pl_bytes(ps2).is_prefix_of(s),
    ensures
        ps1 == ps2,
{
    lemma_prefix_parts(vbyte_bytes(ps1.len() as nat), postings_bytes(ps1, 0), s);
    lemma_prefix_parts(vbyte_bytes(ps2.len() as nat), postings_bytes(ps2, 0), s);
    lemma_vbyte_prefix_unique(ps1.len() as nat, ps2.len() as nat, s);
    lemma_vbyte_bytes_len(ps1.len() as nat);
    lemma_postings_parse_unique(ps1, ps2, 0, s.skip(vbyte_bytes(ps1.len() as nat).len() as int));
}

/// A permutation of postings with pairwise-distinct doc ids again has
/// pairwise-distinct doc ids.
pub proof fn lemma_permutation_distinct(a: Seq<Posting>, b: Seq<Posting>)
    requires
        a.to_multiset() == b.to_multiset(),
        distinct_docids(a),
    ensures
        distinct_docids(b),
{
    assert forall|i: int, j: int|
        0 <= i < b.len() && 0 <= j < b.len() && i != j implies (#[trigger] b[i]).doc_id != (
    #[trigger] b[j]).doc_id by {
        if b[i].doc_id == b[j].doc_id {
            let x = b[i];
            let y = b[j];
            if x == y {
                // the element occurs twice in b, so twice in a
                assert(b.remove(i).to_multiset() == b.to_multiset().remove(x));
                let j2 = if j < i {
                    j
                } else {
                    j - 1
                };
                assert(b.remove(i)[j2] == x);
                assert(b.remove(i).contains(x));
                assert(b.to_multiset().remove(x).count(x) > 0);
                assert(a.to_multiset().count(x) >= 2);
                assert(a.contains(x));
                let k = choose|k: int| 0 <= k < a.len() && a[k] == x;
                assert(a.remove(k).to_multiset() == a.to_multiset().remove(x));
                assert(a.remove(k).to_multiset().count(x) > 0);
                assert(a.remove(k).contains(x));
                let l = choose|l: int| 0 <= l < a.remove(k).len() && a.remove(k)[l] == x;
                let l2 = if l < k {
                    l
                } else {
                    l + 1
                };
                assert(a[l2] == x);
                assert(k != l2);
            } else {
                assert(b.contains(x) && b.contains(y));
                assert(a.to_multiset().count(x) > 0 && a.to_multiset().count(y) > 0);
                assert(a.contains(x) && a.contains(y));
                let k = choose|k: int| 0 <= k < a.len() && a[k] == x;
                let l = choose|l: int| 0 <= l < a.len() && a[l] == y;
                assert(k != l);
            }
        }
    }
}

/// A well-formed posting run is strictly ascending in doc id, as
/// readers of a deserialized list may rely on.
pub proof fn lemma_wf_postings_ascending(ps: Seq<Posting>, last: nat)
    requires
        wf_postings(ps, last),
    ensures
        forall|p: int, q: int|
            0 <= p < q < ps.len() ==> (#[trigger] ps[p]).doc_id < (#[trigger] ps[q]).doc_id,
        forall|p: int| 0 <= p < ps.len() ==> (#[trigger] ps[p]).doc_id > last,
    decreases ps.len(),
{
    if ps.len() > 0 {
        lemma_wf_postings_ascending(ps.skip(1), ps[0].doc_id as nat);
        assert forall|p: int| 0 <= p < ps.len() implies (#[trigger] ps[p]).doc_id > last by {
            if p > 0 {
                assert(ps.skip(1)[p - 1] == ps[p]);
                assert(ps[p].doc_id > ps[0].doc_id as nat);
            }
        }
        assert forall|p: int, q: int|
            0 <= p < q < ps.len() implies (#[trigger] ps[p]).doc_id < (
        #[trigger] ps[q]).doc_id by {
            assert(ps.skip(1)[q - 1] == ps[q]);
            if p > 0 {
                assert(ps.skip(1)[p - 1] == ps[p]);
            } else {
                assert(ps[q].doc_id > ps[0].doc_id as nat);
            }
        }
    }
}

/// Sorted, distinct, in-range postings serialize: every gap is
/// positive and encodes.
pub proof fn lemma_sorted_distinct_wf(ps: Seq<Posting>, last: nat)
    requires
        sorted_postings(ps),
        distinct_docids(ps),
        postings_in_range(ps),
        ps.len() > 0 ==> ps[0].doc_id > last,
        last < 0x40000000,
    ensures
        wf_postings(ps, last),
    decreases ps.len(),
{
    if ps.len() > 0 {
        let g = (ps[0].doc_id - last) as nat;
        assert(0 < ps[0].doc_id < 0x40000000);
        assert(1 <= g < 0x40000000);
        assert(0 < ps[0].tf);
        assert(valid_magic(g, ps[0].tf as nat)) by {
            assert(g * 4 < 0x100000000);
            if ps[0].tf < 4 {
                assert((g - 1) * 4 + ps[0].tf < 0x100000000);
            }
        }
        let tail = ps.skip(1);
        assert forall|i: int, j: int| 0 <= i < j < tail.len() implies posting_le(
            tail[i],
            tail[j],
        ) by {
            assert(tail[i] == ps[i + 1] && tail[j] == ps[j + 1]);
        }
        assert forall|i: int, j: int|
            0 <= i < tail.len() && 0 <= j < tail.len() && i != j implies (
        #[trigger] tail[i]).doc_id != (#[trigger] tail[j]).doc_id by {
            assert(tail[i] == ps[i + 1] && tail[j] == ps[j + 1]);
        }
        assert forall|i: int| 0 <= i < tail.len() implies 0 < (#[trigger] tail[i]).doc_id
            < 0x40000000 && 0 < tail[i].tf by {
            assert(tail[i] == ps[i + 1]);
        }
        if tail.len() > 0 {
            assert(tail[0] == ps[1]);
            assert(posting_le(ps[0], ps[1]));
            assert(ps[0].doc_id != ps[1].doc_id);
            assert(tail[0].doc_id > ps[0].doc_id as nat);
        }
        lemma_sorted_distinct_wf(tail, ps[0].doc_id as nat);
    }
}

#[derive(Clone, Debug, PartialEq)]
pub struct PostingList {
    pub postings: Vec<Posting>,
}

/// Order postings by (doc id, tf) with insertion sort.
fn sort_postings(v: &mut Vec<Posting>)
    ensures
        final(v)@.len() == old(v)@.len(),
        final(v)@.to_multiset() == old(v)@.to_multiset(),
        sorted_postings(final(v)@),
{
    broadcast use vstd::seq_lib::to_multiset_update;

    let n = v.len();
    if n < 2 {
        return ;
    }
    let mut i: usize = 1;
    while i < n
        invariant
            n == v@.len(),
            n == old(v)@.len(),
            1 <= i <= n,
            v@.to_multiset() == old(v)@.to_multiset(),
            forall|p: int, q: int| 0 <= p < q < i ==> posting_le(v@[p], v@[q]),
        decreases n - i,
    {
        let mut j: usize = i;
        while j > 0 && out_of_order_at(v, j)
            invariant
                n == v@.len(),
                n == old(v)@.len(),
                0 <= j <= i < n,
                v@.to_multiset() == old(v)@.to_multiset(),
                forall|p: int, q: int|
                    0 <= p < q <= i && q != j ==> posting_le(v@[p], v@[q]),
                forall|p: int| j < p <= i ==> posting_le(v@[j as int], v@[p]),
            decreases j,
        {
            let a = v[j - 1];
            let b = v[j];
            let ghost pre = v@;
            v[j - 1] = b;
            v[j] = a;
            proof {
                assert(v@.to_multiset() =~= pre.to_multiset());
            }
            j -= 1;
        }
        proof {
            assert forall|p: int, q: int| 0 <= p < q <= i implies posting_le(v@[p], v@[q]) by {
                if q == j && j > 0 {
                    assert(posting_le(v@[j - 1], v@[j as int]));
                    if p < j - 1 {
                        assert(posting_le(v@[p], v@[j - 1]));
                    }
                }
            }
        }
        i += 1;
    }
}

/// True when the posting at `j` sorts before its left neighbour.
fn out_of_order_at(v: &Vec<Posting>, j: usize) -> (r: bool)
    requires
        1 <= j < v@.len(),
    ensures
        r == !posting_le(v@[j - 1], v@[j as int]),
{
    let a = v[j - 1];
    let b = v[j];
    !posting_le_exec(a, b)
}

/// The sort order as executable code.
fn posting_le_exec(a: Posting, b: Posting) -> (r: bool)
    ensures
        r == posting_le(a, b),
{
    a.doc_id < b.doc_id || (a.doc_id == b.doc_id && a.tf <= b.tf)
}


/// A permutation of in-range postings is in range.
pub proof fn lemma_permutation_in_range(a: Seq<Posting>, b: Seq<Posting>)
    requires
        a.to_multiset() == b.to_multiset(),
        postings_in_range(a),
    ensures
        postings_in_range(b),
{
    assert forall|i: int|
        0 <= i < b.len() implies 0 < (#[trigger] b[i]).doc_id < 0x40000000 && 0 < b[i].tf by {
        assert(b.contains(b[i]));
        assert(b.to_multiset().count(b[i]) > 0);
        assert(a.contains(b[i]));
        let k = choose|k: int| 0 <= k < a.len() && a[k] == b[i];
        assert(0 < a[k].doc_id < 0x40000000 && 0 < a[k].tf);
    }
}

/// Well-formed postings fit in at most ten bytes each.
proof fn lemma_postings_bytes_len_bound(ps: Seq<Posting>, last: nat)
    requires
        wf_postings(ps, last),
    ensures
        postings_bytes(ps, last).len() <= 10 * ps.len(),
    decreases ps.len(),
{
    if ps.len() > 0 {
        crate::compress::lemma_magic_bytes_len((ps[0].doc_id - last) as nat, ps[0].tf as nat);
        lemma_postings_bytes_len_bound(ps.skip(1), ps[0].doc_id as nat);
    }
}

impl PostingList {
    pub fn new() -> (r: PostingList)
        ensures
            r.postings@.len() == 0,
    {
        PostingList { postings: vec![] }
    }

    pub fn from_vec(&self, postings: Vec<Posting>) -> (r: PostingList)
        ensures
            r.postings@ == postings@,
    {
        let my_posts = postings.clone();
        proof {
            assert(my_posts@ =~= postings@);
        }
        PostingList { postings: my_posts }
    }

    pub fn add_posting(&mut self, doc_id: u32, tf: u32)
        requires
            doc_id > 0,
            tf > 0,
        ensures
            final(self).postings@ == old(self).postings@.push(Posting { doc_id, tf }),
    {
        let posting = Posting { doc_id, tf };
        self.postings.push(posting);
    }

    /// Sort the postings and return the exact size of their byte form.
    pub fn bytes_to_serialize(&mut self) -> (bytes: usize)
        requires
            distinct_docids(old(self).postings@),
            postings_in_range(old(self).postings@),
            old(self).postings@.len() < 0x4000000,
        ensures
            final(self).postings@.len() == old(self).postings@.len(),
            final(self).postings@.to_multiset() == old(self).postings@.to_multiset(),
            sorted_postings(final(self).postings@),
            wf_postings(final(self).postings@, 0),
            bytes == pl_bytes(final(self).postings@).len(),
            bytes <= 5 + 10 * final(self).postings@.len(),
    {
        sort_postings(&mut self.postings);
        let ghost ps = self.postings@;
        proof {
            lemma_permutation_distinct(old(self).postings@, ps);
            lemma_permutation_in_range(old(self).postings@, ps);
            lemma_sorted_distinct_wf(ps, 0);
            lemma_vbyte_bytes_len(ps.len() as nat);
            crate::compress::lemma_vbyte_len_range(ps.len() as nat);
            lemma_postings_bytes_len_bound(ps, 0);
        }
        let n = self.postings.len();
        let mut bytes: usize = 0;
        let mut last_docid: u32 = 0;
        bytes += vbyte_bytes_required(n as u32);
        let mut k: usize = 0;
        proof {
            assert(ps.skip(0) =~= ps);
        }
        while k < n
            invariant
                n == self.postings@.len() < 0x4000000,
                self.postings@ == ps,
                wf_postings(ps, 0),
                0 <= k <= n,
                last_docid as nat == if k == 0 {
                    0nat
                } else {
                    ps[k - 1].doc_id as nat
                },
                wf_postings(ps.skip(k as int), last_docid as nat),
                bytes + postings_bytes(ps.skip(k as int), last_docid as nat).len() == pl_bytes(
                    ps,
                ).len(),
                bytes <= 5 + 10 * k,
            decreases n - k,
        {
            let ghost tail = ps.skip(k as int);
            proof {
                assert(tail[0] == ps[k as int]);
                crate::compress::lemma_magic_bytes_len(
                    (tail[0].doc_id - last_docid) as nat,
                    tail[0].tf as nat,
                );
                assert(tail.skip(1) =~= ps.skip(k + 1));
            }
            let p = self.postings[k];
            let docgap = p.doc_id - last_docid;
            bytes += magic_bytes_required(docgap, p.tf);
            last_docid = p.doc_id;
            k += 1;
        }
        proof {
            assert(ps.skip(n as int) =~= Seq::<Posting>::empty());
        }
        bytes
    }

    /// Sort the postings and write their byte form at the start of the
    /// buffer: a vbyte count, then one (gap, tf) pair per posting.
    pub fn serialize_into(&mut self, buf: &mut MagicEncodedBuffer)
        requires
            distinct_docids(old(self).postings@),
            postings_in_range(old(self).postings@),
            old(self).postings@.len() < 0x4000000,
        ensures
            final(self).postings@.len() == old(self).postings@.len(),
            final(self).postings@.to_multiset() == old(self).postings@.to_multiset(),
            sorted_postings(final(self).postings@),
            wf_postings(final(self).postings@, 0),
            final(buf).buffer.index == pl_bytes(final(self).postings@).len(),
            final(buf).buffer.index <= final(buf).buffer.buffer@.len(),
            final(buf).buffer.buffer@.subrange(0, final(buf).buffer.index as int) == pl_bytes(
                final(self).postings@,
            ),
    {
        let num_postings = self.postings.len() as u32;
        sort_postings(&mut self.postings);
        let ghost ps = self.postings@;
        proof {
            lemma_permutation_distinct(old(self).postings@, ps);
            lemma_permutation_in_range(old(self).postings@, ps);
            lemma_sorted_distinct_wf(ps, 0);
            lemma_vbyte_bytes_len(ps.len() as nat);
            crate::compress::lemma_vbyte_len_range(ps.len() as nat);
            lemma_postings_bytes_len_bound(ps, 0);
        }
        buf.reset();
        buf.vbyte_write(num_postings);
        let n = self.postings.len();
        let mut k: usize = 0;
        proof {
            assert(ps.skip(0) =~= ps);
            assert(buf.buffer.buffer@.subrange(0, buf.buffer.index as int) =~= vbyte_bytes(
                ps.len() as nat,
            ));
        }
        while k < n
            invariant
                n == self.postings@.len() < 0x4000000,
                self.postings@ == ps,
                wf_postings(ps, 0),
                0 <= k <= n,
                buf.last_docid as nat == if k == 0 {
                    0nat
                } else {
                    ps[k - 1].doc_id as nat
                },
                wf_postings(ps.skip(k as int), buf.last_docid as nat),
                buf.buffer.index <= buf.buffer.buffer@.len(),
                buf.buffer.index <= 5 + 10 * k,
                buf.buffer.buffer@.subrange(0, buf.buffer.index as int) + postings_bytes(
                    ps.skip(k as int),
                    buf.last_docid as nat,
                ) =~= pl_bytes(ps),
            decreases n - k,
        {
            let ghost tail = ps.skip(k as int);
            let ghost pre = buf.buffer.buffer@;
            let ghost pre_index = buf.buffer.index as int;
            proof {
                assert(tail[0] == ps[k as int]);
                crate::compress::lemma_magic_bytes_len(
                    (tail[0].doc_id - buf.last_docid) as nat,
                    tail[0].tf as nat,
                );
                assert(tail.skip(1) =~= ps.skip(k + 1));
            }
            let posting = self.postings[k];
            buf.write(posting.doc_id, posting.tf);
            proof {
                assert(buf.buffer.buffer@.subrange(0, pre_index) =~= pre.subrange(0, pre_index));
                assert(buf.buffer.buffer@.subrange(0, buf.buffer.index as int)
                    =~= buf.buffer.buffer@.subrange(0, pre_index) + buf.buffer.buffer@.subrange(
                    pre_index,
                    buf.buffer.index as int,
                ));
            }
            k += 1;
        }
        proof {
            assert(ps.skip(n as int) =~= Seq::<Posting>::empty());
            assert(buf.buffer.buffer@.subrange(0, buf.buffer.index as int) =~= pl_bytes(ps));
        }
    }

    /// Read a posting list from the start of the buffer.
    pub fn deserialize(buf: &mut MagicEncodedBuffer) -> (r: PostingList)
        requires
            has_pl_prefix(old(buf).buffer.buffer@),
        ensures
            r.postings@ == pl_prefix(old(buf).buffer.buffer@),
            final(buf).buffer.buffer == old(buf).buffer.buffer,
    {
        let ghost s = buf.buffer.buffer@;
        let ghost ps0 = pl_prefix(s);
        proof {
            assert(wf_postings(ps0, 0) && ps0.len() < 0x100000000 && pl_bytes(ps0).is_prefix_of(
                s,
            ));
            lemma_prefix_parts(vbyte_bytes(ps0.len() as nat), postings_bytes(ps0, 0), s);
            assert(has_vbyte_prefix(s));
            lemma_vbyte_prefix_unique(vbyte_prefix_value(s), ps0.len() as nat, s);
            lemma_vbyte_bytes_len(ps0.len() as nat);
        }
        buf.reset();
        proof {
            assert(s.skip(0) =~= s);
        }
        let num_postings = match buf.vbyte_read() {
            Ok(value) => value,
            Err(_) => {
                proof {
                    assert(false);
                }
                vstd::pervasive::unreached()
            },
        };
        let mut postings: Vec<Posting> = Vec::new();
        let mut k: u32 = 0;
        proof {
            assert(postings@ =~= ps0.take(0));
            assert(ps0.skip(0) =~= ps0);
            assert(s.skip(vbyte_len(ps0.len() as nat) as int) =~= s.skip(
                buf.buffer.index as int,
            ));
        }
        while k < num_postings
            invariant
                num_postings == ps0.len(),
                wf_postings(ps0, 0),
                pl_bytes(ps0).is_prefix_of(s),
                0 <= k <= num_postings,
                postings@ =~= ps0.take(k as int),
                buf.buffer.buffer == old(buf).buffer.buffer,
                buf.buffer.buffer@ == s,
                buf.last_docid as nat == if k == 0 {
                    0nat
                } else {
                    ps0[k - 1].doc_id as nat
                },
                wf_postings(ps0.skip(k as int), buf.last_docid as nat),
                buf.buffer.index <= s.len(),
                postings_bytes(ps0.skip(k as int), buf.last_docid as nat).is_prefix_of(
                    s.skip(buf.buffer.index as int),
                ),
            decreases num_postings - k,
        {
            let ghost tail = ps0.skip(k as int);
            let ghost rem = s.skip(buf.buffer.index as int);
            let ghost g = (tail[0].doc_id - buf.last_docid) as nat;
            proof {
                assert(tail[0] == ps0[k as int]);
                assert(tail.skip(1) =~= ps0.skip(k + 1));
                lemma_prefix_parts(
                    magic_bytes(g, tail[0].tf as nat),
                    postings_bytes(tail.skip(1), tail[0].doc_id as nat),
                    rem,
                );
                assert(has_magic_prefix(rem));
                let (g2, tf2) = magic_prefix_pair(rem);
                lemma_magic_prefix_unique(g2, tf2, g, tail[0].tf as nat, rem);
                crate::compress::lemma_magic_bytes_len(g, tail[0].tf as nat);
            }
            let (docid, tf) = buf.read();
            postings.push(Posting { doc_id: docid, tf });
            proof {
                assert(postings@ =~= ps0.take(k + 1));
                assert(s.skip(buf.buffer.index as int) =~= rem.skip(
                    magic_len(g, tail[0].tf as nat) as int,
                ));
            }
            k += 1;
        }
        proof {
            assert(ps0.take(num_postings as int) =~= ps0);
        }
        PostingList { postings }
    }

    /// Read a posting list from the start of the buffer, checking as
    /// it goes: malformed bytes give `None`.  Bytes that hold a
    /// well-formed list give back exactly that list.
    pub fn try_deserialize(buf: &mut MagicEncodedBuffer) -> (r: Option<PostingList>)
        ensures
            final(buf).buffer.buffer == old(buf).buffer.buffer,
            has_pl_prefix(old(buf).buffer.buffer@) ==> (r matches Some(pl) && pl.postings@
                == pl_prefix(old(buf).buffer.buffer@)),
    {
        let ghost s = buf.buffer.buffer@;
        let ghost well_formed = has_pl_prefix(s);
        let ghost ps0: Seq<Posting> = if well_formed {
            pl_prefix(s)
        } else {
            Seq::empty()
        };
        proof {
            if well_formed {
                assert(wf_postings(ps0, 0) && ps0.len() < 0x100000000 && pl_bytes(
                    ps0,
                ).is_prefix_of(s));
                lemma_prefix_parts(vbyte_bytes(ps0.len() as nat), postings_bytes(ps0, 0), s);
                assert(has_vbyte_prefix(s));
                lemma_vbyte_prefix_unique(vbyte_prefix_value(s), ps0.len() as nat, s);
                lemma_vbyte_bytes_len(ps0.len() as nat);
            }
        }
        buf.reset();
        proof {
            assert(s.skip(0) =~= s);
        }
        let num_postings = match buf.vbyte_read() {
            Ok(value) => value,
            Err(_) => {
                proof {
                    if well_formed {
                        assert(false);
                    }
                }
                return None;
            },
        };
        let mut postings: Vec<Posting> = Vec::new();
        let mut last_docid: u32 = 0;
        let mut k: u32 = 0;
        proof {
            if well_formed {
                assert(postings@ =~= ps0.take(0));
                assert(ps0.skip(0) =~= ps0);
                assert(s.skip(vbyte_len(ps0.len() as nat) as int) =~= s.skip(
                    buf.buffer.index as int,
                ));
            }
        }
        while k < num_postings
            invariant
                buf.buffer.buffer == old(buf).buffer.buffer,
                buf.buffer.buffer@ == s,
                well_formed == has_pl_prefix(s),
                postings@.len() == k,
                well_formed ==> {
                    &&& ps0 == pl_prefix(s)
                    &&& num_postings == ps0.len()
                    &&& wf_postings(ps0, 0)
                    &&& pl_bytes(ps0).is_prefix_of(s)
                    &&& 0 <= k <= num_postings
                    &&& postings@ =~= ps0.take(k as int)
                    &&& last_docid as nat == (if k == 0 {
                        0nat
                    } else {
                        ps0[k - 1].doc_id as nat
                    })
                    &&& wf_postings(ps0.skip(k as int), last_docid as nat)
                    &&& buf.buffer.index <= s.len()
                    &&& postings_bytes(ps0.skip(k as int), last_docid as nat).is_prefix_of(
                        s.skip(buf.buffer.index as int),
                    )
                },
            decreases num_postings - k,
        {
            let ghost tail = ps0.skip(k as int);
            let ghost rem = s.skip(buf.buffer.index as int);
            let ghost g: nat = if well_formed {
                (tail[0].doc_id - last_docid) as nat
            } else {
                0
            };
            proof {
                if well_formed {
                    assert(tail[0] == ps0[k as int]);
                    assert(tail.skip(1) =~= ps0.skip(k + 1));
                    lemma_prefix_parts(
                        magic_bytes(g, tail[0].tf as nat),
                        postings_bytes(tail.skip(1), tail[0].doc_id as nat),
                        rem,
                    );
                    if tail[0].tf >= 4 {
                        lemma_prefix_parts(
                            vbyte_bytes(magic_first(g, tail[0].tf as nat)),
                            vbyte_bytes((tail[0].tf - 3) as nat),
                            rem,
                        );
                    }
                    assert(vbyte_bytes(magic_first(g, tail[0].tf as nat)).is_prefix_of(rem));
                    assert(has_vbyte_prefix(rem));
                    lemma_vbyte_prefix_unique(
                        vbyte_prefix_value(rem),
                        magic_first(g, tail[0].tf as nat),
                        rem,
                    );
                    if tail[0].tf < 4 {
                        lemma_mod4((g - 1) as nat, tail[0].tf as nat);
                    } else {
                        lemma_mod4(g, 0);
                    }
                    lemma_vbyte_bytes_len(magic_first(g, tail[0].tf as nat));
                }
            }
            let v1 = match buf.vbyte_read() {
                Ok(value) => value,
                Err(_) => {
                    proof {
                        if well_formed {
                            assert(false);
                        }
                    }
                    return None;
                },
            };
            let gap: u32;
            let tf: u32;
            if v1 % 4 > 0 {
                proof {
                    if well_formed {
                        assert(tail[0].tf < 4) by {
                            if tail[0].tf >= 4 {
                                assert(v1 % 4 == 0);
                            }
                        }
                    }
                }
                gap = 1 + v1 / 4;
                tf = v1 % 4;
            } else {
                proof {
                    if well_formed {
                        assert(tail[0].tf >= 4) by {
                            if tail[0].tf < 4 {
                                assert(v1 % 4 == tail[0].tf);
                            }
                        }
                        let rem2 = s.skip(buf.buffer.index as int);
                        assert(rem2 =~= rem.skip(vbyte_len(magic_first(
                            g,
                            tail[0].tf as nat,
                        )) as int));
                        assert(vbyte_bytes((tail[0].tf - 3) as nat).is_prefix_of(rem2));
                        assert(has_vbyte_prefix(rem2));
                        lemma_vbyte_prefix_unique(
                            vbyte_prefix_value(rem2),
                            (tail[0].tf - 3) as nat,
                            rem2,
                        );
                        lemma_vbyte_bytes_len((tail[0].tf - 3) as nat);
                    }
                }
                let f2 = match buf.vbyte_read() {
                    Ok(value) => value,
                    Err(_) => {
                        proof {
                            if well_formed {
                                assert(false);
                            }
                        }
                        return None;
                    },
                };
                if f2 == 0 || f2 > 0xffff_fffc {
                    // a second value of zero never comes from the
                    // encoder, and a larger one would overflow
                    proof {
                        if well_formed {
                            assert(f2 as nat == tail[0].tf - 3);
                            assert(false);
                        }
                    }
                    return None;
                }
                gap = v1 / 4;
                tf = f2 + 3;
            }
            if gap == 0 {
                proof {
                    if well_formed {
                        assert(g >= 1);
                        assert(false);
                    }
                }
                return None;
            }
            if gap > 0xffff_ffffu32 - last_docid {
                proof {
                    if well_formed {
                        assert(last_docid + g == tail[0].doc_id);
                        assert(false);
                    }
                }
                return None;
            }
            let docid = last_docid + gap;
            postings.push(Posting { doc_id: docid, tf });
            last_docid = docid;
            proof {
                if well_formed {
                    assert(gap as nat == g && tf as nat == tail[0].tf as nat);
                    assert(docid == tail[0].doc_id);
                    assert(postings@ =~= ps0.take(k + 1));
                    assert(s.skip(buf.buffer.index as int) =~= rem.skip(
                        magic_len(g, tail[0].tf as nat) as int,
                    ));
                    crate::compress::lemma_magic_bytes_len(g, tail[0].tf as nat);
                }
            }
            k += 1;
        }
        proof {
            if well_formed {
                assert(ps0.take(num_postings as int) =~= ps0);
            }
        }
        Some(PostingList { postings })
    }
}

/// Serializing any distinct, in-range postings and reading the bytes
/// back yields those postings sorted by doc id.
pub proof fn lemma_posting_list_round_trip(ps: Seq<Posting>, rest: Seq<u8>)
    requires
        wf_postings(ps, 0),
        ps.len() < 0x100000000,
    ensures
        has_pl_prefix(pl_bytes(ps) + rest),
        pl_prefix(pl_bytes(ps) + rest) == ps,
{
    let s = pl_bytes(ps) + rest;
    assert(pl_bytes(ps) =~= s.subrange(0, pl_bytes(ps).len() as int));
    assert(pl_bytes(ps).is_prefix_of(s));
    assert(has_pl_prefix(s));
    let w = pl_prefix(s);
    assert(wf_postings(w, 0) && w.len() < 0x100000000 && pl_bytes(w).is_prefix_of(s));
    lemma_pl_prefix_unique(w, ps, s);
}


/// A token as it moves through the indexer: still a string, already
/// an id, or nothing.
pub enum Token {
    Token(String),
    Id(usize),
    Absent,
}

/// Some posting in the run carries this doc id.
pub open spec fn pl_has_doc(ps: Seq<Posting>, d: u32) -> bool {
    exists|i: int| 0 <= i < ps.len() && (#[trigger] ps[i]).doc_id == d
}

/// Where a token's serialized posting list sits in the inverted file.
#[derive(Clone, Copy, Debug, PartialEq, Eq, PartialOrd, Ord, Structural)]
pub struct PostInfo {
    pub offset: u64,
    pub len: usize,
}

impl PostInfo {
    pub fn new(offset: u64, len: usize) -> (r: PostInfo)
        ensures
            r == (PostInfo { offset, len }),
    {
        PostInfo { offset, len }
    }
}

/// Per-token posting lists under construction or read back: a cache of
/// lists keyed by token id, and the offset table for the file that
/// holds the serialized runs.
pub struct InvertedFile {
    pub inv_filename: String,
    pub offsets: Vec<PostInfo>,
    pub cache: LruCache<PostingList>,
    pub cache_count: u32,
    pub pl_gets: u32,
    pub cache_hits: u32,
}

impl InvertedFile {
    /// Every cached list is serializable: doc ids distinct, in range,
    /// and not absurdly long; keys are positive token ids.
    pub open spec fn wf(&self) -> bool {
        &&& self.cache.wf()
        &&& forall|e: int|
            0 <= e < self.cache.entries@.len() ==> {
                &&& 0 < (#[trigger] self.cache.entries@[e]).0 < usize::MAX
                &&& distinct_docids(self.cache.entries@[e].1.postings@)
                &&& postings_in_range(self.cache.entries@[e].1.postings@)
                &&& self.cache.entries@[e].1.postings@.len() < 0x4000000
            }
    }

    pub fn new(path: &str) -> (r: InvertedFile)
        ensures
            r.wf(),
            r.inv_filename@ == path@,
            r.offsets@.len() == 0,
            r.cache.entries@.len() == 0,
            r.cache.capacity == 0,
            r.cache_count == 0,
            r.pl_gets == 0,
            r.cache_hits == 0,
    {
        InvertedFile {
            inv_filename: path.to_string(),
            offsets: Vec::new(),
            cache: LruCache::new(0),
            cache_count: 0,
            pl_gets: 0,
            cache_hits: 0,
        }
    }

    /// An inverted file opened for reading: the offset table as read
    /// from disk, and a bounded cache.
    pub fn from_parts(path: &str, offsets: Vec<PostInfo>, cache_capacity: usize) -> (r:
        InvertedFile)
        ensures
            r.wf(),
            r.inv_filename@ == path@,
            r.offsets == offsets,
            r.cache.entries@.len() == 0,
            r.cache.capacity == cache_capacity,
            r.cache_count == 0,
            r.pl_gets == 0,
            r.cache_hits == 0,
    {
        InvertedFile {
            inv_filename: path.to_string(),
            offsets,
            cache: LruCache::new(cache_capacity),
            cache_count: 0,
            pl_gets: 0,
            cache_hits: 0,
        }
    }

    /// Append one posting to the token's list in the build cache.
    pub fn add_posting(&mut self, tokid: usize, docid: u32, tf: u32)
        requires
            old(self).wf(),
            old(self).cache.capacity == 0,
            0 < tokid < usize::MAX,
            0 < docid < 0x40000000,
            tf > 0,
            old(self).pl_gets < 0xffff_ffffu32,
            old(self).cache_count < 0xffff_ffffu32,
            old(self).cache_hits < 0xffff_ffffu32,
            lru_has(old(self).cache.entries@, tokid) ==> {
                let pl = old(self).cache.entries@[lru_find(old(self).cache.entries@, tokid)].1;
                &&& !pl_has_doc(pl.postings@, docid)
                &&& pl.postings@.len() < 0x3ffffff
            },
        ensures
            final(self).wf(),
            final(self).offsets == old(self).offsets,
            final(self).cache.capacity == 0,
            final(self).cache_count == old(self).cache_count + 1,
            final(self).pl_gets == old(self).pl_gets + 1,
            final(self).cache_hits <= old(self).cache_hits + 1,
            final(self).inv_filename == old(self).inv_filename,
            lru_has(old(self).cache.entries@, tokid) ==> ({
                let i = lru_find(old(self).cache.entries@, tokid);
                let pl = old(self).cache.entries@[i].1;
                exists|pl2: PostingList|
                    {
                        &&& pl2.postings@ == pl.postings@.push(Posting { doc_id: docid, tf })
                        &&& final(self).cache.entries@ == old(self).cache.entries@.remove(
                            i,
                        ).push((tokid, pl2))
                    }
            }),
            !lru_has(old(self).cache.entries@, tokid) ==> (exists|pl2: PostingList|
                {
                    &&& pl2.postings@ == Seq::<Posting>::empty().push(
                        Posting { doc_id: docid, tf },
                    )
                    &&& final(self).cache.entries@ == old(self).cache.entries@.push((
                        tokid,
                        pl2,
                    ))
                }),
    {
        self.pl_gets = self.pl_gets + 1;
        let had = self.cache.contains_key(tokid);
        if !had {
            let pl = PostingList::new();
            self.cache.insert(tokid, pl);
        } else {
            self.cache_hits = self.cache_hits + 1;
        }
        let ghost mid = self.cache.entries@;
        proof {
            if !lru_has(old(self).cache.entries@, tokid) {
                assert(mid[mid.len() - 1].0 == tokid);
            }
            assert(lru_has(mid, tokid));
        }
        match self.cache.get_mut(tokid) {
            Some(pl) => {
                pl.add_posting(docid, tf);
            },
            None => {
                proof {
                    assert(false);
                }
            },
        }
        self.cache_count = self.cache_count + 1;
        proof {
            if !lru_has(old(self).cache.entries@, tokid) {
                let i = crate::lrucache::find_key(mid, tokid);
                assert(mid[mid.len() - 1].0 == tokid);
                assert(i == mid.len() - 1);
                assert(mid.remove(i) =~= old(self).cache.entries@);
            }
        }
    }

    /// The token's list when it is cached, made most recently used.
    pub fn get_posting_list(&mut self, tokid: usize) -> (r: Option<&PostingList>)
        requires
            old(self).wf(),
            old(self).pl_gets < 0xffff_ffffu32,
            old(self).cache_hits < 0xffff_ffffu32,
        ensures
            final(self).wf(),
            final(self).offsets == old(self).offsets,
            final(self).inv_filename == old(self).inv_filename,
            final(self).cache.capacity == old(self).cache.capacity,
            final(self).cache_count == old(self).cache_count,
            final(self).pl_gets == old(self).pl_gets + 1,
            (r is Some) == lru_has(old(self).cache.entries@, tokid),
            r matches Some(pl) ==> ({
                let i = lru_find(old(self).cache.entries@, tokid);
                &&& *pl == old(self).cache.entries@[i].1
                &&& final(self).cache_hits == old(self).cache_hits + 1
                &&& final(self).cache.entries@ == old(self).cache.entries@.remove(i).push(
                    old(self).cache.entries@[i],
                )
            }),
            r is None ==> {
                &&& final(self).cache_hits == old(self).cache_hits
                &&& final(self).cache.entries@ == old(self).cache.entries@
            },
    {
        self.pl_gets = self.pl_gets + 1;
        match self.cache.get(tokid) {
            Some(pl) => {
                self.cache_hits = self.cache_hits + 1;
                Some(pl)
            },
            None => None,
        }
    }

    /// Where to read a token's list from the inverted file.
    pub fn posting_list_span(&self, tokid: usize) -> (r: Option<PostInfo>)
        ensures
            (r is Some) == (tokid < self.offsets@.len()),
            r matches Some(info) ==> info == self.offsets@[tokid as int],
    {
        if tokid < self.offsets.len() {
            Some(self.offsets[tokid])
        } else {
            None
        }
    }

    /// Put a list read back from the file into the cache: it becomes
    /// the most recently used entry, evicting the least recently used
    /// one at capacity; a token already cached changes nothing.
    pub fn install_posting_list(&mut self, tokid: usize, pl: PostingList)
        requires
            old(self).wf(),
            0 < tokid < usize::MAX,
            distinct_docids(pl.postings@),
            postings_in_range(pl.postings@),
            pl.postings@.len() < 0x4000000,
        ensures
            final(self).wf(),
            final(self).offsets == old(self).offsets,
            final(self).inv_filename == old(self).inv_filename,
            final(self).cache.capacity == old(self).cache.capacity,
            final(self).cache_count == old(self).cache_count,
            final(self).pl_gets == old(self).pl_gets,
            final(self).cache_hits == old(self).cache_hits,
            final(self).cache.entries@ == lru_insert_step(
                old(self).cache.entries@,
                old(self).cache.capacity,
                (tokid, pl),
            ),
            lru_has(final(self).cache.entries@, tokid),
    {
        self.cache.insert(tokid, pl);
        proof {
            if !lru_has(old(self).cache.entries@, tokid) {
                let s = final(self).cache.entries@;
                assert(s[s.len() - 1].0 == tokid);
            }
        }
    }

    /// Pad the offset table out to a token id; padding slots hold the
    /// empty span.
    fn grow_offsets(offsets: &mut Vec<PostInfo>, tokid: usize)
        requires
            tokid < usize::MAX,
        ensures
            final(offsets)@.len() > tokid,
            final(offsets)@.len() >= old(offsets)@.len(),
            forall|t: int| 0 <= t < old(offsets)@.len() ==> final(offsets)@[t] == old(offsets)@[t],
            forall|t: int|
                old(offsets)@.len() <= t < final(offsets)@.len() ==> final(offsets)@[t] == (
                PostInfo { offset: 0, len: 0 }),
    {
        while offsets.len() <= tokid
            invariant
                tokid < usize::MAX,
                offsets@.len() >= old(offsets)@.len(),
                forall|t: int| 0 <= t < old(offsets)@.len() ==> offsets@[t] == old(offsets)@[t],
                forall|t: int|
                    old(offsets)@.len() <= t < offsets@.len() ==> offsets@[t] == (PostInfo {
                        offset: 0,
                        len: 0,
                    }),
            decreases tokid + 1 - offsets@.len(),
        {
            offsets.push(PostInfo { offset: 0, len: 0 });
        }
    }

    /// The byte form of one list: a sorted permutation of its
    /// postings, serialized.
    fn serialize_posting_list(pl: &PostingList) -> (r: Vec<u8>)
        requires
            distinct_docids(pl.postings@),
            postings_in_range(pl.postings@),
            pl.postings@.len() < 0x4000000,
        ensures
            exists|sorted: Seq<Posting>|
                {
                    &&& sorted.to_multiset() == pl.postings@.to_multiset()
                    &&& sorted_postings(sorted)
                    &&& wf_postings(sorted, 0)
                    &&& #[trigger] pl_bytes(sorted) == r@
                },
            r@.len() <= 5 + 10 * pl.postings@.len(),
    {
        let mut copy = PostingList { postings: pl.postings.clone() };
        proof {
            assert(copy.postings@ =~= pl.postings@);
        }
        let n = copy.bytes_to_serialize();
        proof {
            lemma_permutation_distinct(pl.postings@, copy.postings@);
            lemma_permutation_in_range(pl.postings@, copy.postings@);
        }
        let mut buf = MagicEncodedBuffer::new_with_capacity(n);
        copy.serialize_into(&mut buf);
        proof {
            lemma_vbyte_bytes_len(copy.postings@.len() as nat);
            crate::compress::lemma_vbyte_len_range(copy.postings@.len() as nat);
            lemma_postings_bytes_len_bound(copy.postings@, 0);
        }
        let index = buf.buffer.index;
        let mut out = buf.buffer.buffer;
        out.truncate(index);
        proof {
            assert(out@ =~= pl_bytes(copy.postings@));
        }
        out
    }

    /// Serialize every cached list into one byte run to append to the
    /// inverted file at `start_pos`, record each list's span in the
    /// offset table, and clear the cache.  The offset table write that
    /// follows is the commit point.
    pub fn save_to_buffer(&mut self, start_pos: u64) -> (out: Vec<u8>)
        requires
            old(self).wf(),
            old(self).cache.entries@.len() <= 0x100000,
            start_pos <= 0x4000_0000_0000_0000,
        ensures
            final(self).wf(),
            final(self).inv_filename == old(self).inv_filename,
            final(self).cache.entries@.len() == 0,
            final(self).cache.capacity == old(self).cache.capacity,
            final(self).offsets@.len() >= old(self).offsets@.len(),
            forall|e: int|
                0 <= e < old(self).cache.entries@.len() ==> {
                    let tokid = (#[trigger] old(self).cache.entries@[e]).0;
                    let pl = old(self).cache.entries@[e].1;
                    &&& tokid < final(self).offsets@.len()
                    &&& ({
                        let info = final(self).offsets@[tokid as int];
                        &&& info.offset >= start_pos
                        &&& info.offset - start_pos + info.len <= out@.len()
                        &&& exists|sorted: Seq<Posting>|
                            {
                                &&& sorted.to_multiset() == pl.postings@.to_multiset()
                                &&& sorted_postings(sorted)
                                &&& wf_postings(sorted, 0)
                                &&& #[trigger] pl_bytes(sorted) == out@.subrange(
                                    info.offset - start_pos,
                                    info.offset - start_pos + info.len,
                                )
                            }
                    })
                },
            forall|t: int|
                0 <= t < old(self).offsets@.len() && !lru_has(
                    old(self).cache.entries@,
                    t as usize,
                ) ==> final(self).offsets@[t] == old(self).offsets@[t],
            forall|t: int|
                old(self).offsets@.len() <= t < final(self).offsets@.len() && !lru_has(
                    old(self).cache.entries@,
                    t as usize,
                ) ==> final(self).offsets@[t] == (PostInfo { offset: 0, len: 0 }),
    {
        let mut out: Vec<u8> = Vec::new();
        let n = self.cache.iter().len();
        let mut e: usize = 0;
        while e < n
            invariant
                self.wf(),
                self.inv_filename == old(self).inv_filename,
                n == self.cache.entries@.len() <= 0x100000,
                self.cache == old(self).cache,
                forall|i: int, j: int|
                    0 <= i < n && 0 <= j < n && i != j ==> (
                    #[trigger] self.cache.entries@[i]).0 != (
                    #[trigger] self.cache.entries@[j]).0,
                self.cache_count == old(self).cache_count,
                self.pl_gets == old(self).pl_gets,
                self.cache_hits == old(self).cache_hits,
                start_pos <= 0x4000_0000_0000_0000,
                0 <= e <= n,
                out@.len() <= e * 0x28000005,
                self.offsets@.len() >= old(self).offsets@.len(),
                forall|k: int|
                    0 <= k < e ==> {
                        let tokid = (#[trigger] self.cache.entries@[k]).0;
                        let pl = self.cache.entries@[k].1;
                        &&& tokid < self.offsets@.len()
                        &&& ({
                            let info = self.offsets@[tokid as int];
                            &&& info.offset >= start_pos
                            &&& info.offset - start_pos + info.len <= out@.len()
                            &&& exists|sorted: Seq<Posting>|
                                {
                                    &&& sorted.to_multiset() == pl.postings@.to_multiset()
                                    &&& sorted_postings(sorted)
                                    &&& wf_postings(sorted, 0)
                                    &&& #[trigger] pl_bytes(sorted) == out@.subrange(
                                        info.offset - start_pos,
                                        info.offset - start_pos + info.len,
                                    )
                                }
                        })
                    },
                forall|t: int|
                    0 <= t < old(self).offsets@.len() && !lru_has(
                        self.cache.entries@,
                        t as usize,
                    ) ==> self.offsets@[t] == old(self).offsets@[t],
                forall|t: int|
                    old(self).offsets@.len() <= t < self.offsets@.len() && !lru_has(
                        self.cache.entries@,
                        t as usize,
                    ) ==> self.offsets@[t] == (PostInfo { offset: 0, len: 0 }),
            decreases n - e,
        {
            let entry_tokid = self.cache.iter()[e].0;
            let chunk = Self::serialize_posting_list(&self.cache.iter()[e].1);
            let local = out.len();
            let info = PostInfo {
                offset: start_pos + (local as u64),
                len: chunk.len(),
            };
            Self::grow_offsets(&mut self.offsets, entry_tokid);
            let ghost pre_offsets = self.offsets@;
            self.offsets[entry_tokid] = info;
            let ghost pre_out = out@;
            let mut chunk_buf = chunk;
            out.append(&mut chunk_buf);
            proof {
                assert(out@ =~= pre_out + chunk@);
                assert(out@.subrange(local as int, local + chunk@.len()) =~= chunk@);
                assert forall|k: int|
                    0 <= k < e + 1 implies {
                    let tokid = (#[trigger] self.cache.entries@[k]).0;
                    let pl = self.cache.entries@[k].1;
                    &&& tokid < self.offsets@.len()
                    &&& ({
                        let info2 = self.offsets@[tokid as int];
                        &&& info2.offset >= start_pos
                        &&& info2.offset - start_pos + info2.len <= out@.len()
                        &&& exists|sorted: Seq<Posting>|
                            {
                                &&& sorted.to_multiset() == pl.postings@.to_multiset()
                                &&& sorted_postings(sorted)
                                &&& wf_postings(sorted, 0)
                                &&& #[trigger] pl_bytes(sorted) == out@.subrange(
                                    info2.offset - start_pos,
                                    info2.offset - start_pos + info2.len,
                                )
                            }
                    })
                } by {
                    let tokid = self.cache.entries@[k].0;
                    if k < e {
                        assert(0 <= k < n && 0 <= e < n && k != e);
                        // older entries have distinct token ids, so
                        // their offsets survive and their spans sit in
                        // the preserved prefix
                        assert(self.cache.entries@[k].0 != self.cache.entries@[e as int].0);
                        assert(self.offsets@[tokid as int] == pre_offsets[tokid as int]);
                        let info2 = self.offsets@[tokid as int];
                        assert(out@.subrange(
                            info2.offset - start_pos,
                            info2.offset - start_pos + info2.len,
                        ) =~= pre_out.subrange(
                            info2.offset - start_pos,
                            info2.offset - start_pos + info2.len,
                        ));
                    } else {
                        assert(self.offsets@[tokid as int] == info);
                    }
                }
            }
            e += 1;
        }
        self.cache.clear();
        out
    }

    pub fn memusage(&self) -> (r: u32)
        requires
            self.cache_count < 0x10000000,
        ensures
            r == self.cache_count * 8,
    {
        // a posting is two 32-bit words
        self.cache_count * 8
    }
}


/// How an index-driven scoring run is shaped: how many results, and
/// which documents to leave out.
pub struct IndexSearchConfig {
    pub num_results: usize,
    pub excludes: Option<Vec<String>>,
}

impl IndexSearchConfig {
    pub fn new() -> (r: IndexSearchConfig)
        ensures
            r.num_results == 0,
            r.excludes is None,
    {
        IndexSearchConfig { num_results: 0, excludes: None }
    }

    pub fn with_num_results(self, num_results: usize) -> (r: IndexSearchConfig)
        ensures
            r.num_results == num_results,
            r.excludes == self.excludes,
    {
        let mut me = self;
        me.num_results = num_results;
        me
    }

    pub fn with_exclude_docs(self, excludes: Vec<String>) -> (r: IndexSearchConfig)
        ensures
            r.num_results == self.num_results,
            r.excludes == Some(excludes),
    {
        let mut me = self;
        me.excludes = Some(excludes);
        me
    }

    pub fn num_results(self) -> (r: usize)
        ensures
            r == self.num_results,
    {
        self.num_results
    }

    pub fn excludes(self) -> (r: Option<Vec<String>>)
        ensures
            r == self.excludes,
    {
        self.excludes
    }
}

} // verus!



