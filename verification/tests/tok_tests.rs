use mycal::docs::Dict;
use mycal::tok::{
    get_tokenizer, is_prime, tokenize_and_map, EnglishStemLowercase, NGrams, NGramsHashed,
    Tokenizer,
};

#[test]
fn english_tokenizer_lowercases_splits_and_stems() {
    let t = EnglishStemLowercase;
    let toks = t.tokenize("The quick-quick brown Fox!! running a1b x");
    assert_eq!(
        toks,
        vec!["the", "quick", "quick", "brown", "fox", "run", "a1b"]
    );
    assert_eq!(t.name(), "englishstemlower");
}

#[test]
fn english_tokenizer_drops_short_tokens() {
    let t = EnglishStemLowercase;
    let toks = t.tokenize("a b cd e");
    assert_eq!(toks, vec!["cd"]);
    assert_eq!(t.tokenize(""), Vec::<String>::new());
}

#[test]
fn ngrams_windows_of_graphemes() {
    let g = NGrams { n: 2 };
    assert_eq!(g.tokenize("abc"), vec!["ab", "bc"]);
    assert_eq!(g.tokenize("ABCD"), vec!["ab", "bc", "cd"]);
    assert_eq!(g.tokenize("a"), Vec::<String>::new());
    let g3 = NGrams { n: 3 };
    assert_eq!(g3.tokenize("abcd"), vec!["abc", "bcd"]);
}

#[test]
fn ngrams_hashed_yields_decimal_tokens_under_modulus() {
    let g = NGramsHashed::new(2, 10).unwrap();
    // the first odd prime at or above ten
    assert_eq!(g.hmod, 11);
    let toks = g.tokenize("abcd");
    assert_eq!(toks.len(), 3);
    for t in &toks {
        let v: u64 = t.parse().unwrap();
        assert!(v < 11);
    }
    // the hash distinguishes different grams somewhere
    let t2 = g.tokenize("zzzz");
    assert!(toks != t2);
}

#[test]
fn hash_is_deterministic_and_bounded() {
    let g = NGramsHashed::new(1, 1000).unwrap();
    assert_eq!(g.hmod, 1009);
    // the empty input hashes to the seed reduced by the modulus
    assert_eq!(g.hash(b""), 5381 % 1009);
    let h1 = g.hash(b"hello");
    let h2 = g.hash(b"hello");
    let h3 = g.hash(b"world");
    assert_eq!(h1, h2);
    assert!(h1 < 1009 && h3 < 1009);
    assert_ne!(g.hash(b""), g.hash(b"x"));
}

#[test]
fn primality() {
    assert!(!is_prime(0));
    assert!(!is_prime(1));
    assert!(is_prime(2));
    assert!(is_prime(3));
    assert!(!is_prime(4));
    assert!(is_prime(5));
    assert!(!is_prime(25));
    assert!(is_prime(29));
    assert!(is_prime(97));
    assert!(!is_prime(1001));
    assert!(is_prime(1009));
    assert!(is_prime(4294967291));
    assert!(!is_prime(4294967295));
}

#[test]
fn tokenizer_names_parse() {
    assert!(matches!(
        get_tokenizer("englishstemlower"),
        Tokenizer::EnglishStemLower(_)
    ));
    match get_tokenizer("ngram.3") {
        Tokenizer::NGrams(g) => assert_eq!(g.n, 3),
        _ => panic!("expected an ngram tokenizer"),
    }
    match get_tokenizer("nghash.2.50") {
        Tokenizer::NGramsHashed(g) => {
            assert_eq!(g.n, 2);
            assert_eq!(g.hmod, 53);
        }
        _ => panic!("expected a hashed ngram tokenizer"),
    }
    // anything unreadable falls back to the English stemmer
    assert!(matches!(
        get_tokenizer("ngram.x"),
        Tokenizer::EnglishStemLower(_)
    ));
    assert!(matches!(
        get_tokenizer("something-else"),
        Tokenizer::EnglishStemLower(_)
    ));
}

#[test]
fn tokenizer_names_format() {
    let g = NGrams { n: 12 };
    assert_eq!(g.name(), "ngram.12");
    let h = NGramsHashed::new(3, 100).unwrap();
    assert_eq!(h.name(), "ngramhashed.3.101");
}

#[test]
fn tokenize_and_map_counts_and_df() {
    let tok = get_tokenizer("englishstemlower");
    let mut dict = Dict::new();
    let (docid, counts) = tokenize_and_map("d1", "quick quick dog", &tok, &mut dict);
    assert_eq!(docid, "d1");
    let quick = dict.get_tokid("quick".to_string()).unwrap();
    let dog = dict.get_tokid("dog".to_string()).unwrap();
    assert_eq!(counts.get(&quick), Some(&2));
    assert_eq!(counts.get(&dog), Some(&1));
    assert_eq!(dict.get_df(quick), 1);
    assert_eq!(dict.get_df(dog), 1);

    let (_, counts2) = tokenize_and_map("d2", "quick fox", &tok, &mut dict);
    assert_eq!(counts2.get(&quick), Some(&1));
    assert_eq!(dict.get_df(quick), 2);
    assert_eq!(dict.get_df(dog), 1);
    let fox = dict.get_tokid("fox".to_string()).unwrap();
    assert_eq!(counts2.get(&fox), Some(&1));
}

#[test]
fn ngrams_normalize_and_cluster() {
    let g = NGrams { n: 1 };
    // fullwidth letters compat-normalize to plain ones after lowering
    assert_eq!(g.tokenize("\u{FF21}\u{FF22}"), vec!["a", "b"]);
    // a combining accent with no precomposed form stays with its
    // base as one cluster
    assert_eq!(g.tokenize("x\u{301}y"), vec!["x\u{301}", "y"]);
}
