use mycal::compress::MagicEncodedBuffer;
use mycal::index::{InvertedFile, PostInfo, Posting, PostingList};
use mycal::lrucache::LruCache;
use rand::Rng;

#[test]
fn test_posting_list() {
    let mut pl = PostingList::new();
    let mut rng = rand::rng();
    let docs = rand::seq::index::sample(&mut rng, 1000, 100);
    for d in docs {
        let tf = rng.random_range(1..100);
        // doc ids are strictly positive
        pl.add_posting(d as u32 + 1, tf);
    }
    let bytes_needed = pl.bytes_to_serialize();
    let mut buf: MagicEncodedBuffer = MagicEncodedBuffer::new_with_capacity(bytes_needed);
    pl.serialize_into(&mut buf);
    let pl2 = PostingList::deserialize(&mut buf);
    assert_eq!(pl, pl2);
}

#[test]
fn posting_list_round_trip_small() {
    let mut pl = PostingList::new();
    pl.add_posting(7, 2);
    pl.add_posting(3, 1);
    pl.add_posting(9, 4);
    let bytes = pl.bytes_to_serialize();
    let mut buf = MagicEncodedBuffer::new_with_capacity(bytes);
    pl.serialize_into(&mut buf);
    assert_eq!(buf.tell(), bytes);
    let pl2 = PostingList::deserialize(&mut buf);
    // back sorted by doc id
    assert_eq!(
        pl2.postings,
        vec![
            Posting { doc_id: 3, tf: 1 },
            Posting { doc_id: 7, tf: 2 },
            Posting { doc_id: 9, tf: 4 },
        ]
    );
}

#[test]
fn lru_capacity_eviction() {
    let mut cache: LruCache<u32> = LruCache::new(2);
    cache.insert(1, 10);
    cache.insert(2, 20);
    // refresh key 1, then overflow: key 2 is the least recently used
    assert_eq!(cache.get(1), Some(&10));
    cache.insert(3, 30);
    assert!(cache.contains_key(1));
    assert!(!cache.contains_key(2));
    assert!(cache.contains_key(3));
}

#[test]
fn lru_contains_does_not_refresh() {
    let mut cache: LruCache<u32> = LruCache::new(2);
    cache.insert(1, 10);
    cache.insert(2, 20);
    // a contains_key probe leaves key 1 least recently used
    assert!(cache.contains_key(1));
    cache.insert(3, 30);
    assert!(!cache.contains_key(1));
    assert!(cache.contains_key(2));
    assert!(cache.contains_key(3));
}

#[test]
fn lru_insert_existing_is_noop() {
    let mut cache: LruCache<u32> = LruCache::new(2);
    cache.insert(1, 10);
    cache.insert(2, 20);
    // re-inserting does not replace the value, nor refresh recency
    cache.insert(1, 99);
    assert_eq!(cache.get(1), Some(&10));
    let mut cache2: LruCache<u32> = LruCache::new(2);
    cache2.insert(1, 10);
    cache2.insert(2, 20);
    cache2.insert(1, 99);
    cache2.insert(3, 30);
    assert!(!cache2.contains_key(1));
}

#[test]
fn lru_get_mut_updates_value() {
    let mut cache: LruCache<u32> = LruCache::new(0);
    cache.insert(5, 50);
    if let Some(v) = cache.get_mut(5) {
        *v = 55;
    }
    assert_eq!(cache.get(5), Some(&55));
}

#[test]
fn inverted_file_add_and_fetch() {
    let mut inv = InvertedFile::new("inv");
    inv.add_posting(1, 2, 3);
    inv.add_posting(1, 5, 1);
    inv.add_posting(2, 2, 7);
    let pl = inv.get_posting_list(1).unwrap();
    assert_eq!(pl.postings.len(), 2);
    let pl2 = inv.get_posting_list(2).unwrap();
    assert_eq!(pl2.postings, vec![Posting { doc_id: 2, tf: 7 }]);
    assert!(inv.get_posting_list(3).is_none());
}

#[test]
fn inverted_file_save_and_reload_spans() {
    let mut inv = InvertedFile::new("inv");
    inv.add_posting(1, 2, 3);
    inv.add_posting(1, 5, 1);
    inv.add_posting(2, 9, 4);
    let bytes = inv.save_to_buffer(0);
    // the cache is gone; the offset table points into the buffer
    assert!(inv.get_posting_list(1).is_none());
    let info: PostInfo = inv.posting_list_span(1).unwrap();
    let span = bytes[info.offset as usize..info.offset as usize + info.len].to_vec();
    let mut buf = MagicEncodedBuffer::from_vec(span);
    let pl = PostingList::deserialize(&mut buf);
    assert_eq!(
        pl.postings,
        vec![Posting { doc_id: 2, tf: 3 }, Posting { doc_id: 5, tf: 1 }]
    );
    let info2: PostInfo = inv.posting_list_span(2).unwrap();
    let span2 = bytes[info2.offset as usize..info2.offset as usize + info2.len].to_vec();
    let mut buf2 = MagicEncodedBuffer::from_vec(span2);
    let pl2 = PostingList::deserialize(&mut buf2);
    assert_eq!(pl2.postings, vec![Posting { doc_id: 9, tf: 4 }]);
}

#[test]
fn try_deserialize_checks_its_input() {
    // a valid list round-trips through the checked reader
    let mut pl = PostingList::new();
    pl.add_posting(4, 2);
    pl.add_posting(9, 1);
    let bytes = pl.bytes_to_serialize();
    let mut buf = MagicEncodedBuffer::new_with_capacity(bytes);
    pl.serialize_into(&mut buf);
    let got = PostingList::try_deserialize(&mut buf).unwrap();
    assert_eq!(got, pl);

    // truncated bytes are refused, not panicked on
    let mut cut = MagicEncodedBuffer::from_vec(vec![5]);
    assert!(PostingList::try_deserialize(&mut cut).is_none());
    // a zero docgap is refused
    let mut zero_gap = MagicEncodedBuffer::from_vec(vec![1, 0, 1]);
    assert!(PostingList::try_deserialize(&mut zero_gap).is_none());
    let mut empty = MagicEncodedBuffer::from_vec(vec![]);
    assert!(PostingList::try_deserialize(&mut empty).is_none());
}

#[test]
fn inverted_file_cache_eviction_order() {
    // capacity two; touch t1, t2, t1, then t3: t2 leaves, t1 stays
    let mut inv = InvertedFile::from_parts("inv", Vec::new(), 2);
    let mut l1 = PostingList::new();
    l1.add_posting(1, 1);
    let mut l2 = PostingList::new();
    l2.add_posting(2, 1);
    let mut l3 = PostingList::new();
    l3.add_posting(3, 1);
    inv.install_posting_list(1, l1);
    inv.install_posting_list(2, l2);
    assert!(inv.get_posting_list(1).is_some());
    inv.install_posting_list(3, l3);
    assert!(inv.get_posting_list(2).is_none());
    assert!(inv.get_posting_list(1).is_some());
    assert!(inv.get_posting_list(3).is_some());
}
