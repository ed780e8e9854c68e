use mega_store_search::index::InvertedIndex;

#[test]
fn test_single_token() {
    let mut idx = InvertedIndex::new();
    idx.insert("foo".into(), 1);
    idx.insert("bar".into(), 2);
    let res = idx.query(&vec!["foo".to_string()]);
    assert_eq!(res, vec![1]);
}

#[test]
fn test_intersection_of_two_tokens() {
    let mut idx = InvertedIndex::new();
    idx.insert("alpha".into(), 1);
    idx.insert("beta".into(), 1);
    idx.insert("beta".into(), 2);

    let res = idx.query(&vec!["alpha".to_string(), "beta".to_string()]);
    assert_eq!(res, vec![1]);
}

#[test]
fn test_no_match_returns_empty() {
    let mut idx = InvertedIndex::new();
    idx.insert("x".into(), 1);
    let res = idx.query(&vec!["y".to_string()]);
    assert!(res.is_empty());
}

#[test]
fn test_insert_text() {
    let mut idx = InvertedIndex::new();
    idx.insert_text("Foo-Bar baz", 99);
    assert_eq!(idx.query(&vec!["foo".into()]), vec![99]);
    assert_eq!(idx.query(&vec!["bar".into(), "baz".into()]), vec![99]);
}

#[test]
fn query_with_no_terms_is_empty() {
    let mut idx = InvertedIndex::new();
    idx.insert("x".into(), 1);
    let none: Vec<String> = Vec::new();
    assert!(idx.query(&none).is_empty());
    assert!(InvertedIndex::new().query(&vec!["x".to_string()]).is_empty());
}

#[test]
fn query_ignores_unknown_terms() {
    let mut idx = InvertedIndex::new();
    idx.insert("mouse".into(), 3);
    idx.insert("mouse".into(), 1);
    idx.insert("gamer".into(), 1);
    let res = idx.query(&vec!["zzz".to_string(), "mouse".to_string(), "qqq".to_string()]);
    assert_eq!(res, vec![1, 3]);
    let res = idx.query(&vec!["mouse".to_string(), "zzz".to_string(), "gamer".to_string()]);
    assert_eq!(res, vec![1]);
}

#[test]
fn query_sorts_and_removes_repetitions() {
    let mut idx = InvertedIndex::new();
    for id in [9u64, 2, 9, 7, 2, 2, 5] {
        idx.insert("t".into(), id);
    }
    for id in [5u64, 9, 9, 2, 4] {
        idx.insert("u".into(), id);
    }
    assert_eq!(idx.query(&vec!["t".to_string()]), vec![2, 5, 7, 9]);
    assert_eq!(idx.query(&vec!["t".to_string(), "u".to_string()]), vec![2, 5, 9]);
    assert_eq!(idx.query(&vec!["u".to_string(), "t".to_string()]), vec![2, 5, 9]);
    assert_eq!(idx.query(&vec!["t".to_string(), "t".to_string()]), vec![2, 5, 7, 9]);
}

#[test]
fn query_of_disjoint_terms_is_empty() {
    let mut idx = InvertedIndex::new();
    idx.insert("a1".into(), 1);
    idx.insert("b1".into(), 2);
    assert!(idx.query(&vec!["a1".to_string(), "b1".to_string()]).is_empty());
}

#[test]
fn insert_text_makes_the_id_retrievable_by_each_term() {
    let mut idx = InvertedIndex::new();
    idx.insert_text("Teclado Mec\u{e2}nico de Cabo USB, teclado", 7);
    idx.insert_text("Mouse USB", 8);
    for term in ["teclado", "mecanico", "cabo", "usb"] {
        assert!(idx.query(&vec![term.to_string()]).contains(&7));
    }
    assert_eq!(idx.query(&vec!["usb".to_string()]), vec![7, 8]);
    assert_eq!(idx.query(&vec!["teclado".to_string()]), vec![7]);
    assert!(idx.query(&vec!["de".to_string()]).is_empty());
}

#[test]
fn insert_terms_records_every_term() {
    let mut idx = InvertedIndex::new();
    idx.insert_terms(&["x".to_string(), "y".to_string(), "x".to_string()], 4);
    assert_eq!(idx.query(&vec!["x".to_string()]), vec![4]);
    assert_eq!(idx.query(&vec!["y".to_string(), "x".to_string()]), vec![4]);
}

#[test]
fn terms_with_one_hash_value_keep_their_own_postings() {
    // "az" and "bY" have the same hash value
    let mut idx = InvertedIndex::new();
    idx.insert("az".into(), 1);
    idx.insert("bY".into(), 2);
    idx.insert("az".into(), 3);
    idx.insert("bY".into(), 3);
    assert_eq!(idx.query(&vec!["az".to_string()]), vec![1, 3]);
    assert_eq!(idx.query(&vec!["bY".to_string()]), vec![2, 3]);
    assert_eq!(idx.query(&vec!["az".to_string(), "bY".to_string()]), vec![3]);
    assert!(idx.query(&vec!["aZ".to_string()]).is_empty());
}

#[test]
fn many_terms_are_found_again() {
    let mut idx = InvertedIndex::new();
    for i in 0..3000u64 {
        idx.insert(format!("termo{}", i), i);
        idx.insert(format!("termo{}", i), i + 1);
        idx.insert(format!("par{}", i % 2), i);
    }
    for i in (0..3000u64).step_by(7) {
        assert_eq!(idx.query(&vec![format!("termo{}", i)]), vec![i, i + 1]);
        let both = idx.query(&vec![format!("termo{}", i), format!("par{}", i % 2)]);
        assert_eq!(both, vec![i]);
    }
    assert_eq!(idx.query(&vec!["par1".to_string()]).len(), 1500);
    assert!(idx.query(&vec!["termo3000".to_string()]).is_empty());
}

#[test]
fn terms_outside_ascii_are_terms_like_any_other() {
    let mut idx = InvertedIndex::new();
    idx.insert("a\u{e7}\u{e3}o".into(), 5);
    idx.insert("acao".into(), 6);
    idx.insert("".into(), 7);
    assert_eq!(idx.query(&vec!["a\u{e7}\u{e3}o".to_string()]), vec![5]);
    assert_eq!(idx.query(&vec!["acao".to_string()]), vec![6]);
    assert_eq!(idx.query(&vec!["".to_string()]), vec![7]);
}
