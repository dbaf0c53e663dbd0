use mycal::docs::{Dict, Docs};

#[test]
fn docs_assigns_dense_intids() {
    let mut docs = Docs::new();
    assert_eq!(docs.add_doc("a"), 1);
    assert_eq!(docs.add_doc("b"), 2);
    assert_eq!(docs.add_doc("a"), 1);
    assert_eq!(docs.get_intid("b"), Some(&2));
    assert_eq!(docs.get_intid("zz"), None);
    assert_eq!(docs.docs.len(), 2);
    assert_eq!(docs.docs[1].docid, "b");
    assert_eq!(docs.docs[1].intid, 2);
}

#[test]
fn dict_assigns_tokids_and_counts_df() {
    let mut dict = Dict::new();
    let t1 = dict.add_tok("apple".to_string());
    let t2 = dict.add_tok("pear".to_string());
    assert_eq!((t1, t2), (1, 2));
    assert_eq!(dict.add_tok("apple".to_string()), 1);
    assert!(dict.has_tok("pear".to_string()));
    assert!(!dict.has_tok("plum".to_string()));
    assert_eq!(dict.get_tokid("pear".to_string()), Some(2));
    assert_eq!(dict.get_df(t1), 0);
    dict.incr_df(t1);
    dict.incr_df(t1);
    dict.incr_df(t2);
    assert_eq!(dict.get_df(t1), 2);
    assert_eq!(dict.get_df(t2), 1);
}
