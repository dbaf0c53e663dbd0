//! An append-only bimap between strings and ids 1..n, persisted as a
//! compressed encoded sequence: the id order is the insertion order,
//! and only the key list is stored.

use vstd::hash_map::StringHashMap;
use vstd::prelude::*;

verus! {

/// What bincode's standard configuration writes for a vector of
/// strings.
pub uninterp spec fn string_vec_bytes(v: Seq<Seq<char>>) -> Seq<u8>;

/// What lz4 block compression with a length prefix writes for a byte
/// run.
pub uninterp spec fn lz4_block(b: Seq<u8>) -> Seq<u8>;

/// What bincode's standard configuration reads back from a byte run
/// (when it succeeds).
pub uninterp spec fn string_vec_value(b: Seq<u8>) -> Seq<Seq<char>>;

/// What lz4 block decompression reads back from a byte run (when it
/// succeeds).
pub uninterp spec fn lz4_unblock(b: Seq<u8>) -> Seq<u8>;

/// No two keys are the same string.
pub open spec fn distinct_keys(v: Seq<Seq<char>>) -> bool {
    forall|i: int, j: int|
        0 <= i < v.len() && 0 <= j < v.len() && i != j ==> #[trigger] v[i] != #[trigger] v[j]
}

/// Relies on bincode::encode_to_vec with the standard configuration:
/// the bytes are a function of the strings alone, writing a vector of
/// strings to memory has no failure path, and
/// bincode::decode_from_slice reads the strings back from the bytes.
#[verifier::external_body]
fn encode_string_vec(v: &Vec<String>) -> (r: Vec<u8>)
    ensures
        r@ == string_vec_bytes(v.deep_view()),
        string_vec_value(r@) == v.deep_view(),
{
    bincode::encode_to_vec(v, bincode::config::standard()).unwrap()
}

/// Relies on bincode::decode_from_slice with the standard
/// configuration: what it reads depends on the bytes alone, and an
/// encoding of a vector of strings always reads back.
#[verifier::external_body]
fn decode_string_vec(bytes: &[u8]) -> (r: Option<Vec<String>>)
    ensures
        r matches Some(d) ==> d.deep_view() == string_vec_value(bytes@),
        (exists|v: Seq<Seq<char>>| bytes@ == #[trigger] string_vec_bytes(v)) ==> r is Some,
{
    match bincode::decode_from_slice::<Vec<String>, _>(bytes, bincode::config::standard()) {
        Ok((d, _n)) => Some(d),
        Err(_) => None,
    }
}

/// Relies on lz4_flex::compress_prepend_size: the output depends on
/// the input bytes alone, and decompress_size_prepended undoes it.
/// The size prefix is 32 bits, so inputs are kept within it.
#[verifier::external_body]
fn lz4_compress(input: &[u8]) -> (r: Vec<u8>)
    requires
        input@.len() <= 0xffff_ffff,
    ensures
        r@ == lz4_block(input@),
        lz4_unblock(r@) == input@,
{
    lz4_flex::compress_prepend_size(input)
}

/// Relies on lz4_flex::decompress_size_prepended: what it reads
/// depends on the bytes alone, and a block compressed from at most
/// 32 bits of input always decompresses.
#[verifier::external_body]
fn lz4_decompress(input: &[u8]) -> (r: Option<Vec<u8>>)
    ensures
        r matches Some(o) ==> o@ == lz4_unblock(input@),
        (exists|b: Seq<u8>| b.len() <= 0xffff_ffff && input@ == #[trigger] lz4_block(b)) ==> r
            is Some,
{
    lz4_flex::decompress_size_prepended(input).ok()
}

pub struct OnDiskCompressedHash {
    pub map: StringHashMap<usize>,
    pub idx: Vec<String>,
    pub finalized: bool,
}

impl OnDiskCompressedHash {
    /// Forward and reverse lookup agree: key i (0-based) has id i+1.
    pub open spec fn wf(&self) -> bool {
        &&& forall|i: int|
            0 <= i < self.idx@.len() ==> self.map@.contains_key((#[trigger] self.idx@[i])@)
                && self.map@[self.idx@[i]@] == i + 1
        &&& forall|k: Seq<char>|
            self.map@.contains_key(k) ==> 1 <= #[trigger] self.map@[k] <= self.idx@.len()
                && self.idx@[self.map@[k] - 1]@ == k
    }

    pub open spec fn has(&self, k: Seq<char>) -> bool {
        self.map@.contains_key(k)
    }

    pub fn new() -> (r: OnDiskCompressedHash)
        ensures
            r.wf(),
            r.idx@.len() == 0,
            r.map@ == Map::<Seq<char>, usize>::empty(),
            !r.finalized,
    {
        OnDiskCompressedHash { map: StringHashMap::new(), idx: Vec::new(), finalized: false }
    }

    /// Build a bimap from a list of keys, in order; keys already seen
    /// are skipped.
    pub fn from_hash(keys: Vec<String>) -> (r: OnDiskCompressedHash)
        ensures
            r.wf(),
            !r.finalized,
            forall|i: int| 0 <= i < keys@.len() ==> r.has((#[trigger] keys@[i])@),
    {
        let mut r = OnDiskCompressedHash::new();
        let n = keys.len();
        let mut i: usize = 0;
        while i < n
            invariant
                n == keys@.len(),
                0 <= i <= n,
                r.wf(),
                !r.finalized,
                r.idx@.len() <= i,
                forall|j: int| 0 <= j < i ==> r.has((#[trigger] keys@[j])@),
            decreases n - i,
        {
            let k = &keys[i];
            r.get_or_insert(k.as_str());
            i += 1;
        }
        r
    }

    pub fn get(&self, key: &str) -> (r: Option<usize>)
        ensures
            r matches Some(id) ==> self.has(key@) && id == self.map@[key@],
            r is None ==> !self.has(key@),
    {
        match self.map.get(key) {
            Some(id) => Some(*id),
            None => None,
        }
    }

    /// The id for a key, appending the key with the next id when it is
    /// new.
    pub fn get_or_insert(&mut self, key: &str) -> (id: usize)
        requires
            old(self).wf(),
            !old(self).finalized,
            old(self).idx@.len() < usize::MAX,
        ensures
            final(self).wf(),
            final(self).finalized == old(self).finalized,
            final(self).has(key@),
            id == final(self).map@[key@],
            old(self).has(key@) ==> *final(self) == *old(self) && id == old(self).map@[key@],
            !old(self).has(key@) ==> {
                &&& id == old(self).idx@.len() + 1
                &&& final(self).idx@.len() == old(self).idx@.len() + 1
                &&& forall|j: int|
                    0 <= j < old(self).idx@.len() ==> final(self).idx@[j] == old(self).idx@[j]
                &&& final(self).idx@[old(self).idx@.len() as int]@ == key@
                &&& final(self).map@ == old(self).map@.insert(key@, id as usize)
            },
    {
        match self.map.get(key) {
            Some(id) => {
                return *id;
            },
            None => {},
        }
        let id = self.idx.len() + 1;
        self.map.insert(key.to_string(), id);
        self.idx.push(key.to_string());
        proof {
            assert forall|i: int|
                0 <= i < self.idx@.len() implies self.map@.contains_key(
                (#[trigger] self.idx@[i])@,
            ) && self.map@[self.idx@[i]@] == i + 1 by {
                if i < self.idx@.len() - 1 {
                    assert(old(self).map@.contains_key(self.idx@[i]@));
                }
            }
        }
        id
    }

    pub fn get_idx_for(&self, key: &str) -> (r: Option<usize>)
        ensures
            r matches Some(id) ==> self.has(key@) && id == self.map@[key@],
            r is None ==> !self.has(key@),
    {
        self.get(key)
    }

    pub fn get_key_for(&self, intid: usize) -> (r: Option<&String>)
        ensures
            (r is Some) == (1 <= intid <= self.idx@.len()),
            r matches Some(s) ==> s == self.idx@[intid - 1],
    {
        if intid >= 1 && intid <= self.idx.len() {
            Some(&self.idx[intid - 1])
        } else {
            None
        }
    }

    pub fn get_keys(&self) -> (r: Vec<String>)
        ensures
            r@.len() == self.idx@.len(),
            forall|i: int| 0 <= i < r@.len() ==> (#[trigger] r@[i])@ == self.idx@[i]@,
    {
        let mut r: Vec<String> = Vec::new();
        let n = self.idx.len();
        let mut i: usize = 0;
        while i < n
            invariant
                n == self.idx@.len(),
                0 <= i <= n,
                r@.len() == i,
                forall|j: int| 0 <= j < i ==> (#[trigger] r@[j])@ == self.idx@[j]@,
            decreases n - i,
        {
            r.push(self.idx[i].clone());
            i += 1;
        }
        r
    }

    /// The assigned ids: 1 up to the number of keys.
    pub fn get_values(&self) -> (r: Vec<usize>)
        ensures
            r@.len() == self.idx@.len(),
            forall|i: int| 0 <= i < r@.len() ==> #[trigger] r@[i] == i + 1,
    {
        let mut r: Vec<usize> = Vec::new();
        let n = self.idx.len();
        let mut i: usize = 0;
        while i < n
            invariant
                n == self.idx@.len(),
                0 <= i <= n,
                r@.len() == i,
                forall|j: int| 0 <= j < i ==> #[trigger] r@[j] == j + 1,
            decreases n - i,
        {
            r.push(i + 1);
            i += 1;
        }
        r
    }

    pub fn len(&self) -> (r: usize)
        ensures
            r == self.idx@.len(),
    {
        self.idx.len()
    }

    pub fn map(&self) -> (r: &StringHashMap<usize>)
        ensures
            r == &self.map,
    {
        &self.map
    }

    /// The persistent form: the key list, encoded and compressed.
    /// `None` exactly when the encoded keys exceed the compressor's
    /// 32-bit size prefix.
    pub fn to_bytes(&self) -> (r: Option<Vec<u8>>)
        ensures
            (r is Some) == (string_vec_bytes(self.idx.deep_view()).len() <= 0xffff_ffff),
            r matches Some(b) ==> {
                &&& b@ == lz4_block(string_vec_bytes(self.idx.deep_view()))
                &&& lz4_unblock(b@) == string_vec_bytes(self.idx.deep_view())
                &&& string_vec_value(lz4_unblock(b@)) == self.idx.deep_view()
            },
    {
        let encoded = encode_string_vec(&self.idx);
        if encoded.len() > 0xffff_ffff {
            return None;
        }
        Some(lz4_compress(encoded.as_slice()))
    }

    /// Rebuild a bimap from its persistent form.  A successful load is
    /// exactly the stored duplicate-free key list; and success is owed
    /// whenever the bytes are a compressed block whose content encodes
    /// a duplicate-free key list — in particular for anything
    /// `to_bytes` returned.
    pub fn from_bytes(bytes: &[u8]) -> (r: Option<OnDiskCompressedHash>)
        ensures
            r matches Some(h) ==> {
                &&& h.wf()
                &&& !h.finalized
                &&& h.idx.deep_view() == string_vec_value(lz4_unblock(bytes@))
                &&& distinct_keys(h.idx.deep_view())
            },
            ({
                &&& (exists|b: Seq<u8>|
                    b.len() <= 0xffff_ffff && bytes@ == #[trigger] lz4_block(b))
                &&& (exists|v: Seq<Seq<char>>|
                    lz4_unblock(bytes@) == #[trigger] string_vec_bytes(v))
                &&& distinct_keys(string_vec_value(lz4_unblock(bytes@)))
            }) ==> r is Some,
    {
        let decompressed = match lz4_decompress(bytes) {
            Some(d) => d,
            None => {
                return None;
            },
        };
        let keys = match decode_string_vec(decompressed.as_slice()) {
            Some(k) => k,
            None => {
                return None;
            },
        };
        let mut h = OnDiskCompressedHash::new();
        let n = keys.len();
        let mut i: usize = 0;
        while i < n
            invariant
                n == keys@.len(),
                0 <= i <= n,
                h.wf(),
                !h.finalized,
                h.idx@.len() == i,
                h.idx.deep_view() =~= keys.deep_view().take(i as int),
                keys.deep_view() == string_vec_value(lz4_unblock(bytes@)),
            decreases n - i,
        {
            let k = &keys[i];
            if h.map.contains_key(k.as_str()) {
                proof {
                    // a repeated key: the stored list was not
                    // duplicate-free, so no success is owed
                    let id = h.map@[k@];
                    assert(1 <= id <= i);
                    assert(h.idx@[id - 1]@ == k@);
                    assert(h.idx.deep_view()[id - 1] == h.idx@[id - 1]@);
                    assert(keys.deep_view().take(i as int)[id - 1] == keys.deep_view()[id - 1]);
                    assert(keys.deep_view()[i as int] == keys@[i as int]@);
                    assert(keys.deep_view()[id - 1] == keys.deep_view()[i as int]);
                    assert(!distinct_keys(string_vec_value(lz4_unblock(bytes@))));
                }
                return None;
            }
            let ghost pre_idx = h.idx@;
            h.get_or_insert(k.as_str());
            proof {
                assert forall|j: int|
                    0 <= j < i + 1 implies h.idx.deep_view()[j] == keys.deep_view().take(
                    i + 1,
                )[j] by {
                    if j < i {
                        assert(h.idx@[j] == pre_idx[j]);
                        assert(h.idx.deep_view()[j] == pre_idx[j]@);
                    } else {
                        assert(h.idx@[j]@ == keys@[i as int]@);
                    }
                }
                assert(h.idx.deep_view() =~= keys.deep_view().take(i + 1));
            }
            i += 1;
        }
        proof {
            assert(keys.deep_view().take(n as int) =~= keys.deep_view());
            assert(h.idx.deep_view() =~= keys.deep_view());
            // the built bimap never holds a key twice
            assert forall|a: int, b: int|
                0 <= a < h.idx.deep_view().len() && 0 <= b < h.idx.deep_view().len() && a != b
                    implies #[trigger] h.idx.deep_view()[a] != #[trigger] h.idx.deep_view()[b] by {
                if h.idx@[a]@ == h.idx@[b]@ {
                    assert(h.map@[h.idx@[a]@] == a + 1);
                    assert(h.map@[h.idx@[b]@] == b + 1);
                }
            }
        }
        Some(h)
    }
}

} // verus!


