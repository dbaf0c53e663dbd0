use mycal::builder::{reduce_tuples, IndexBuilder};
use mycal::extsort::{external_sort_vec, merge_sorted, sort_tuples, MergeState};
use mycal::odch::OnDiskCompressedHash;
use mycal::ptuple::PTuple;
use mycal::store::{Config, MycalError, Store};
use mycal::tok::get_tokenizer;
use rand::Rng;

#[test]
fn external_sort_matches_reference() {
    let mut rng = rand::rng();
    let mut records: Vec<PTuple> = Vec::new();
    for _ in 0..500 {
        records.push(PTuple::new(
            rng.random_range(1..50),
            rng.random_range(1..200),
            rng.random_range(1..10),
        ));
    }
    let mut reference = records.clone();
    reference.sort();
    for buffer_size in [1usize, 7, 64, 1000] {
        let sorted = external_sort_vec(records.clone(), buffer_size);
        assert_eq!(sorted, reference);
    }
}

#[test]
fn sort_and_merge_runs() {
    let mut a = vec![
        PTuple::new(3, 1, 1),
        PTuple::new(1, 2, 1),
        PTuple::new(1, 1, 1),
    ];
    sort_tuples(&mut a);
    assert_eq!(
        a,
        vec![
            PTuple::new(1, 1, 1),
            PTuple::new(1, 2, 1),
            PTuple::new(3, 1, 1),
        ]
    );
    let b = vec![PTuple::new(1, 3, 2), PTuple::new(2, 1, 1)];
    let merged = merge_sorted(a, b);
    assert_eq!(
        merged,
        vec![
            PTuple::new(1, 1, 1),
            PTuple::new(1, 2, 1),
            PTuple::new(1, 3, 2),
            PTuple::new(2, 1, 1),
            PTuple::new(3, 1, 1),
        ]
    );
}

#[test]
fn merge_state_streams_in_order() {
    // two sorted runs, streamed through the step machine
    let runs = vec![
        vec![PTuple::new(1, 1, 1), PTuple::new(2, 5, 1)],
        vec![PTuple::new(1, 4, 2), PTuple::new(9, 1, 1)],
    ];
    let mut positions = vec![0usize; runs.len()];
    let mut merge = MergeState::new(runs.len());
    for i in 0..runs.len() {
        merge.refill(i, runs[i][0]).unwrap();
        positions[i] = 1;
    }
    let mut out = Vec::new();
    loop {
        match merge.pop() {
            None => break,
            Some((t, i)) => {
                out.push(t);
                if positions[i] < runs[i].len() {
                    merge.refill(i, runs[i][positions[i]]).unwrap();
                    positions[i] += 1;
                } else {
                    merge.exhaust(i);
                }
            }
        }
    }
    assert_eq!(
        out,
        vec![
            PTuple::new(1, 1, 1),
            PTuple::new(1, 4, 2),
            PTuple::new(2, 5, 1),
            PTuple::new(9, 1, 1),
        ]
    );
}

#[test]
fn merge_state_rejects_backward_run() {
    let mut merge = MergeState::new(1);
    merge.refill(0, PTuple::new(5, 1, 1)).unwrap();
    let (t, i) = merge.pop().unwrap();
    assert_eq!(t, PTuple::new(5, 1, 1));
    // a run file whose next record goes backwards is refused
    assert!(merge.refill(i, PTuple::new(1, 1, 1)).is_err());
}

#[test]
fn odch_assigns_dense_ids() {
    let mut h = OnDiskCompressedHash::new();
    assert_eq!(h.get_or_insert("alpha"), 1);
    assert_eq!(h.get_or_insert("beta"), 2);
    assert_eq!(h.get_or_insert("alpha"), 1);
    assert_eq!(h.len(), 2);
    assert_eq!(h.get("beta"), Some(2));
    assert_eq!(h.get("gamma"), None);
    assert_eq!(h.get_key_for(2).map(|s| s.as_str()), Some("beta"));
    assert_eq!(h.get_values(), vec![1, 2]);
}

#[test]
fn odch_persists_and_reloads() {
    let mut h = OnDiskCompressedHash::new();
    h.get_or_insert("alpha");
    h.get_or_insert("beta");
    h.get_or_insert("gamma");
    let bytes = h.to_bytes().unwrap();
    // the blob is compressed and encoded, not the raw keys
    assert_ne!(bytes, b"alphabetagamma".to_vec());
    let h2 = OnDiskCompressedHash::from_bytes(&bytes).unwrap();
    assert_eq!(h2.len(), 3);
    assert_eq!(h2.get("beta"), Some(2));
    assert_eq!(h2.get_key_for(3).map(|s| s.as_str()), Some("gamma"));
}

#[test]
fn tiny_build_document_frequencies() {
    let tokenizer = get_tokenizer("englishstemlower");
    let mut b = IndexBuilder::new();
    let docs = [
        ("a", "the quick brown fox"),
        ("b", "the lazy dog"),
        ("c", "quick quick dog"),
    ];
    for (docid, text) in docs {
        let tokens = tokenizer.tokenize(text);
        let intid = b.add_document(docid, &tokens);
        b.record_fv_offset(intid, intid as u64 * 100);
    }
    assert!(b.fv_offsets_complete());
    assert!(b.token_map.len() >= 6);
    assert_eq!(b.docid_map.len(), 3);
    assert_eq!(b.docid_map.get("b"), Some(2));
    assert_eq!(b.docid_map.get_key_for(3).map(|s| s.as_str()), Some("c"));

    let sorted = external_sort_vec(b.tuples.clone(), 2);
    let mut inv = reduce_tuples(&sorted, "inv");

    let df = |inv: &mut mycal::index::InvertedFile, tok: &str, b: &IndexBuilder| {
        let tokid = b.token_map.get(tok).unwrap();
        inv.get_posting_list(tokid).map(|pl| pl.postings.len()).unwrap_or(0)
    };
    assert_eq!(df(&mut inv, "quick", &b), 2);
    assert_eq!(df(&mut inv, "dog", &b), 2);
    assert_eq!(df(&mut inv, "fox", &b), 1);
    assert_eq!(df(&mut inv, "the", &b), 2);

    // document frequencies counted straight from the spilled tuples
    let df = b.document_frequencies();
    assert_eq!(df[b.token_map.get("quick").unwrap()], 2);
    assert_eq!(df[b.token_map.get("dog").unwrap()], 2);
    assert_eq!(df[b.token_map.get("fox").unwrap()], 1);
    assert_eq!(df[0], 0);

    // term frequency carried through: "quick" appears twice in doc c
    let quick = b.token_map.get("quick").unwrap();
    let pl = inv.get_posting_list(quick).unwrap();
    let c_intid = b.docid_map.get("c").unwrap() as u32;
    let p = pl.postings.iter().find(|p| p.doc_id == c_intid).unwrap();
    assert_eq!(p.tf, 2);
}

#[test]
fn store_lookups() {
    let mut vocab = OnDiskCompressedHash::new();
    vocab.get_or_insert("apple");
    vocab.get_or_insert("pear");
    let mut docids = OnDiskCompressedHash::new();
    docids.get_or_insert("doc-1");
    docids.get_or_insert("doc-2");

    let config = Config { num_docs: 0, num_features: 0, pl_cache_size: 100 };
    let mut store = Store::new("coll", config);
    assert_eq!(store.get_tokid("apple"), Err(MycalError::NotLoaded));
    store.attach_vocab(vocab);
    store.attach_docids(docids);
    assert_eq!(store.get_tokid("apple"), Ok(1));
    assert_eq!(store.get_tokid("plum"), Err(MycalError::NotFound));
    assert_eq!(store.num_features(), Ok(2));
    assert_eq!(store.num_docs(), Ok(2));
    assert_eq!(store.get_doc_intid("doc-2"), Ok(2));
    assert_eq!(store.get_docid(1), Ok("doc-1".to_string()));
    assert_eq!(store.get_docid(9), Err(MycalError::NotFound));
    assert_eq!(store.get_intids(), Ok(vec![1, 2]));

    let mut offs = std::collections::HashMap::new();
    offs.insert(1usize, 0u64);
    offs.insert(2usize, 40u64);
    store.attach_fv_offsets(offs);
    assert_eq!(store.fv_offset(2), Ok(40));
    assert_eq!(store.fv_offset(3), Err(MycalError::NotFound));
}
