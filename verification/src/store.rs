//! The Store: one collection's persistent artifacts, loaded into
//! memory and looked up by id.  File reading and writing stay with the
//! caller; each artifact is attached once its bytes are decoded.

use crate::index::{InvertedFile, PostInfo, PostingList};
use crate::lrucache::{find_key as lru_find, has_key as lru_has, lru_insert_step};
use crate::odch::OnDiskCompressedHash;
use std::collections::HashMap;
use vstd::prelude::*;

verus! {

broadcast use vstd::std_specs::hash::group_hash_axioms;

/// The error categories the core surfaces.
#[derive(Clone, Copy, Debug, PartialEq, Eq, Structural)]
pub enum MycalError {
    /// An extid, tokid or intid is absent from the Store.
    NotFound,
    /// An artifact failed to decode.
    Corrupt,
    /// The artifact this lookup needs has not been attached.
    NotLoaded,
    /// A reserved id or zero frequency reached the index.
    Invariant,
    /// The configuration is missing or unreadable.
    ConfigBad,
}

impl MycalError {
    /// A short tag for messages.
    pub fn kind_str(&self) -> (r: &'static str)
    {
        match self {
            MycalError::NotFound => "NotFound",
            MycalError::Corrupt => "Corrupt",
            MycalError::NotLoaded => "NotLoaded",
            MycalError::Invariant => "Invariant",
            MycalError::ConfigBad => "ConfigBad",
        }
    }
}

/// The persisted collection parameters.
#[derive(Clone, Copy, Debug, PartialEq, Eq, Structural)]
pub struct Config {
    pub num_docs: usize,
    pub num_features: usize,
    pub pl_cache_size: usize,
}

impl Default for Config {
    /// An unbuilt collection: counts unknown, the usual cache bound.
    fn default() -> (r: Config)
        ensures
            r.num_docs == 0,
            r.num_features == 0,
            r.pl_cache_size == 100000,
    {
        Config { num_docs: 0, num_features: 0, pl_cache_size: 100000 }
    }
}

pub struct Store {
    pub path: String,
    pub invfile: Option<InvertedFile>,
    pub vocab: Option<OnDiskCompressedHash>,
    pub docids: Option<OnDiskCompressedHash>,
    pub fv_offsets: Option<HashMap<usize, u64>>,
    pub config: Config,
}

impl Store {
    pub open spec fn wf(&self) -> bool {
        &&& (self.vocab matches Some(v) ==> v.wf())
        &&& (self.docids matches Some(d) ==> d.wf())
        &&& (self.invfile matches Some(f) ==> f.wf())
    }

    pub fn new(path: &str, config: Config) -> (r: Store)
        ensures
            r.wf(),
            r.path@ == path@,
            r.config == config,
            r.invfile is None,
            r.vocab is None,
            r.docids is None,
            r.fv_offsets is None,
    {
        Store {
            path: path.to_string(),
            invfile: None,
            vocab: None,
            docids: None,
            fv_offsets: None,
            config,
        }
    }

    pub fn attach_vocab(&mut self, vocab: OnDiskCompressedHash)
        requires
            vocab.wf(),
        ensures
            *final(self) == (Store { vocab: Some(vocab), ..*old(self) }),
    {
        self.vocab = Some(vocab);
    }

    pub fn attach_docids(&mut self, docids: OnDiskCompressedHash)
        requires
            docids.wf(),
        ensures
            *final(self) == (Store { docids: Some(docids), ..*old(self) }),
    {
        self.docids = Some(docids);
    }

    pub fn attach_fv_offsets(&mut self, fv_offsets: HashMap<usize, u64>)
        ensures
            *final(self) == (Store { fv_offsets: Some(fv_offsets), ..*old(self) }),
    {
        self.fv_offsets = Some(fv_offsets);
    }

    pub fn attach_invfile(&mut self, invfile: InvertedFile)
        requires
            invfile.wf(),
        ensures
            *final(self) == (Store { invfile: Some(invfile), ..*old(self) }),
    {
        self.invfile = Some(invfile);
    }

    /// The token id for a token: exactly the vocabulary's mapping.
    pub fn get_tokid(&self, token: &str) -> (r: Result<usize, MycalError>)
        ensures
            self.vocab is None ==> r == Result::<usize, MycalError>::Err(MycalError::NotLoaded),
            self.vocab matches Some(v) ==> {
                &&& v.has(token@) ==> r == Result::<usize, MycalError>::Ok(v.map@[token@])
                &&& !v.has(token@) ==> r == Result::<usize, MycalError>::Err(
                    MycalError::NotFound,
                )
            },
    {
        match &self.vocab {
            Some(v) => match v.get_idx_for(token) {
                Some(id) => Ok(id),
                None => Err(MycalError::NotFound),
            },
            None => Err(MycalError::NotLoaded),
        }
    }

    /// The number of features: the configured count, or the
    /// vocabulary size when the configuration holds none.
    pub fn num_features(&self) -> (r: Result<usize, MycalError>)
        ensures
            self.config.num_features != 0 ==> r == Result::<usize, MycalError>::Ok(
                self.config.num_features,
            ),
            self.config.num_features == 0 && (self.vocab matches Some(v) && r == Result::<
                usize,
                MycalError,
            >::Ok(v.idx@.len() as usize)) || !(self.config.num_features == 0 && self.vocab
                is Some),
            self.config.num_features == 0 && self.vocab is None ==> r == Result::<
                usize,
                MycalError,
            >::Err(MycalError::NotLoaded),
    {
        if self.config.num_features != 0 {
            return Ok(self.config.num_features);
        }
        match &self.vocab {
            Some(v) => Ok(v.len()),
            None => Err(MycalError::NotLoaded),
        }
    }

    /// The number of documents: the configured count, or the docid
    /// map's size when the configuration holds none.
    pub fn num_docs(&self) -> (r: Result<usize, MycalError>)
        ensures
            self.config.num_docs != 0 ==> r == Result::<usize, MycalError>::Ok(
                self.config.num_docs,
            ),
            self.config.num_docs == 0 && (self.docids matches Some(d) && r == Result::<
                usize,
                MycalError,
            >::Ok(d.idx@.len() as usize)) || !(self.config.num_docs == 0 && self.docids
                is Some),
            self.config.num_docs == 0 && self.docids is None ==> r == Result::<
                usize,
                MycalError,
            >::Err(MycalError::NotLoaded),
    {
        if self.config.num_docs != 0 {
            return Ok(self.config.num_docs);
        }
        match &self.docids {
            Some(d) => Ok(d.len()),
            None => Err(MycalError::NotLoaded),
        }
    }

    /// The internal id for an external id: exactly the docid map's
    /// mapping.
    pub fn get_doc_intid(&self, docid: &str) -> (r: Result<usize, MycalError>)
        ensures
            self.docids is None ==> r == Result::<usize, MycalError>::Err(MycalError::NotLoaded),
            self.docids matches Some(d) ==> {
                &&& d.has(docid@) ==> r == Result::<usize, MycalError>::Ok(d.map@[docid@])
                &&& !d.has(docid@) ==> r == Result::<usize, MycalError>::Err(
                    MycalError::NotFound,
                )
            },
    {
        match &self.docids {
            Some(d) => match d.get_idx_for(docid) {
                Some(id) => Ok(id),
                None => Err(MycalError::NotFound),
            },
            None => Err(MycalError::NotLoaded),
        }
    }

    /// The external id for an internal id: the docid map's reverse
    /// lookup.
    pub fn get_docid(&self, intid: usize) -> (r: Result<String, MycalError>)
        ensures
            self.docids is None ==> r == Result::<String, MycalError>::Err(
                MycalError::NotLoaded,
            ),
            self.docids matches Some(d) ==> {
                &&& 1 <= intid <= d.idx@.len() ==> (r matches Ok(s) && s@ == d.idx@[intid
                    - 1]@)
                &&& !(1 <= intid <= d.idx@.len()) ==> r == Result::<String, MycalError>::Err(
                    MycalError::NotFound,
                )
            },
    {
        match &self.docids {
            Some(d) => match d.get_key_for(intid) {
                Some(s) => Ok(s.clone()),
                None => Err(MycalError::NotFound),
            },
            None => Err(MycalError::NotLoaded),
        }
    }

    /// All internal ids, 1 up to the document count.
    pub fn get_intids(&self) -> (r: Result<Vec<usize>, MycalError>)
        ensures
            self.docids is None ==> r == Result::<Vec<usize>, MycalError>::Err(
                MycalError::NotLoaded,
            ),
            self.docids matches Some(d) ==> r matches Ok(v) && v@.len() == d.idx@.len() && (
            forall|i: int| 0 <= i < v@.len() ==> #[trigger] v@[i] == i + 1),
    {
        match &self.docids {
            Some(d) => Ok(d.get_values()),
            None => Err(MycalError::NotLoaded),
        }
    }

    /// Where a document's feature record sits in the feature file.
    pub fn fv_offset(&self, intid: usize) -> (r: Result<u64, MycalError>)
        ensures
            self.fv_offsets is None ==> r == Result::<u64, MycalError>::Err(
                MycalError::NotLoaded,
            ),
            self.fv_offsets matches Some(m) ==> {
                &&& m@.contains_key(intid) ==> r == Result::<u64, MycalError>::Ok(m@[intid])
                &&& !m@.contains_key(intid) ==> r == Result::<u64, MycalError>::Err(
                    MycalError::NotFound,
                )
            },
    {
        match &self.fv_offsets {
            Some(m) => match m.get(&intid) {
                Some(off) => Ok(*off),
                None => Err(MycalError::NotFound),
            },
            None => Err(MycalError::NotLoaded),
        }
    }

    /// A token's posting list when it is cached, made most recently
    /// used; a hit refreshes its recency exactly as the cache does.
    pub fn get_posting_list(&mut self, tokid: usize) -> (r: Option<&PostingList>)
        requires
            old(self).wf(),
            old(self).invfile matches Some(f) && f.pl_gets < 0xffff_ffffu32 && f.cache_hits
                < 0xffff_ffffu32,
        ensures
            final(self).wf(),
            final(self).path == old(self).path,
            final(self).vocab == old(self).vocab,
            final(self).docids == old(self).docids,
            final(self).fv_offsets == old(self).fv_offsets,
            final(self).config == old(self).config,
            ({
                let f = old(self).invfile->Some_0;
                &&& final(self).invfile is Some
                &&& (r is Some) == lru_has(f.cache.entries@, tokid)
                &&& ({
                    let f2 = final(self).invfile->Some_0;
                    &&& f2.offsets == f.offsets
                    &&& f2.inv_filename == f.inv_filename
                    &&& f2.cache.capacity == f.cache.capacity
                    &&& f2.cache_count == f.cache_count
                    &&& f2.pl_gets == f.pl_gets + 1
                    &&& (r matches Some(pl) ==> ({
                        let i = lru_find(f.cache.entries@, tokid);
                        &&& *pl == f.cache.entries@[i].1
                        &&& f2.cache_hits == f.cache_hits + 1
                        &&& f2.cache.entries@ == f.cache.entries@.remove(i).push(
                            f.cache.entries@[i],
                        )
                    }))
                    &&& (r is None ==> f2.cache_hits == f.cache_hits && f2.cache.entries@
                        == f.cache.entries@)
                })
            }),
    {
        match &mut self.invfile {
            Some(f) => f.get_posting_list(tokid),
            None => {
                proof {
                    assert(false);
                }
                None
            },
        }
    }

    /// Where to read a token's posting list from the inverted file.
    pub fn posting_list_span(&self, tokid: usize) -> (r: Result<PostInfo, MycalError>)
        ensures
            self.invfile is None ==> r == Result::<PostInfo, MycalError>::Err(
                MycalError::NotLoaded,
            ),
            self.invfile matches Some(f) ==> {
                &&& tokid < f.offsets@.len() ==> r == Result::<PostInfo, MycalError>::Ok(
                    f.offsets@[tokid as int],
                )
                &&& tokid >= f.offsets@.len() ==> r == Result::<PostInfo, MycalError>::Err(
                    MycalError::NotFound,
                )
            },
    {
        match &self.invfile {
            Some(f) => match f.posting_list_span(tokid) {
                Some(info) => Ok(info),
                None => Err(MycalError::NotFound),
            },
            None => Err(MycalError::NotLoaded),
        }
    }

    /// Put a posting list read back from the file into the cache.
    pub fn install_posting_list(&mut self, tokid: usize, pl: PostingList) -> (r: Result<
        (),
        MycalError,
    >)
        requires
            old(self).wf(),
            0 < tokid < usize::MAX,
            crate::index::distinct_docids(pl.postings@),
            crate::index::postings_in_range(pl.postings@),
            pl.postings@.len() < 0x4000000,
        ensures
            final(self).wf(),
            old(self).invfile is None ==> r == Result::<(), MycalError>::Err(
                MycalError::NotLoaded,
            ) && *final(self) == *old(self),
            old(self).invfile matches Some(f) ==> {
                &&& r == Result::<(), MycalError>::Ok(())
                &&& final(self).path == old(self).path
                &&& final(self).vocab == old(self).vocab
                &&& final(self).docids == old(self).docids
                &&& final(self).fv_offsets == old(self).fv_offsets
                &&& final(self).config == old(self).config
                &&& final(self).invfile is Some
                &&& ({
                    let f2 = final(self).invfile->Some_0;
                    &&& f2.offsets == f.offsets
                    &&& f2.inv_filename == f.inv_filename
                    &&& f2.cache.capacity == f.cache.capacity
                    &&& f2.cache_count == f.cache_count
                    &&& f2.pl_gets == f.pl_gets
                    &&& f2.cache_hits == f.cache_hits
                    &&& f2.cache.entries@ == lru_insert_step(
                        f.cache.entries@,
                        f.cache.capacity,
                        (tokid, pl),
                    )
                })
            },
    {
        match &mut self.invfile {
            Some(f) => {
                f.install_posting_list(tokid, pl);
                Ok(())
            },
            None => Err(MycalError::NotLoaded),
        }
    }
}

} // verus!
