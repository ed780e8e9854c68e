use mega_store_search::catalog::{
    build_category_graph, build_recommendation_graph, same_category, MAX_CATALOG, UNIT_WEIGHT,
};
use mega_store_search::engine::{
    apply_filters, join_terms, passes_filters, SearchEngine, SearchFilters,
};
use mega_store_search::graph::Recommender;
use mega_store_search::index::InvertedIndex;
use mega_store_search::model::Product;
use mega_store_search::tokenizer::tokenize;

fn product(id: u64, name: &str, category: &str, brand: &str, price: f32, tags: &[&str]) -> Product {
    Product {
        id,
        name: name.to_string(),
        category: category.to_string(),
        brand: brand.to_string(),
        price: price.to_bits(),
        tags: tags.iter().map(|t| t.to_string()).collect(),
    }
}

fn catalog() -> Vec<Product> {
    vec![
        product(1, "Mouse Gamer RGB", "Eletr\u{f4}nicos", "Logi", 199.9, &["gamer", "usb"]),
        product(2, "Teclado Mec\u{e2}nico", "Eletr\u{f4}nicos", "Razer", 349.0, &["gamer"]),
        product(3, "Cabo USB", "Acess\u{f3}rios", "Generic", 19.5, &["usb", "cabo"]),
        product(4, "Cadeira Gamer", "M\u{f3}veis", "DX Racer", 1299.0, &["gamer", "conforto"]),
        product(5, "Monitor 24", "Eletr\u{f4}nicos", "LOGI", 899.0, &[]),
    ]
}

fn no_filters() -> SearchFilters {
    SearchFilters { category: None, brand: None, tag: None, price_min: None, price_max: None }
}

#[test]
fn full_flow_on_a_small_catalog() {
    let products = catalog();

    let mut inverted_index = InvertedIndex::new();
    for product in &products {
        inverted_index.insert_text(&product.name, product.id);
        inverted_index.insert_text(&product.category, product.id);
        inverted_index.insert_text(&product.brand, product.id);
        for tag in &product.tags {
            inverted_index.insert_text(tag, product.id);
        }
    }

    let ids_by_name = inverted_index.query(&tokenize("mouse"));
    assert_eq!(ids_by_name, vec![products[0].id]);

    let ids_by_category = inverted_index.query(&tokenize("eletronicos"));
    assert_eq!(ids_by_category, vec![1, 2, 5]);

    let ids_by_tag = inverted_index.query(&tokenize("gamer"));
    assert_eq!(ids_by_tag, vec![1, 2, 4]);

    let mut recommender = Recommender::new();
    for product in &products {
        recommender.add_node(product.id);
    }
    recommender.add_edge(products[0].id, products[1].id, 1.0f32.to_bits());
    let recommended_ids = recommender.recommend(products[0].id, 1);
    assert_eq!(recommended_ids, vec![products[1].id]);
}

#[test]
fn search_without_filters_is_the_answer_of_the_index() {
    let mut engine = SearchEngine::new(catalog());
    assert_eq!(engine.search("gamer", &no_filters()), vec![1, 2, 4]);
    assert_eq!(engine.search("Mouse GAMER!", &no_filters()), vec![1]);
    assert_eq!(engine.search("usb", &no_filters()), vec![1, 3]);
    assert!(engine.search("", &no_filters()).is_empty());
    assert!(engine.search("de para com", &no_filters()).is_empty());
    assert!(engine.search("inexistente", &no_filters()).is_empty());
    // an unknown term beside a known one is ignored
    assert_eq!(engine.search("inexistente cabo", &no_filters()), vec![3]);
}

#[test]
fn search_applies_each_filter() {
    let mut engine = SearchEngine::new(catalog());
    let mut f = no_filters();
    f.category = Some("ELETRONICOS".to_string());
    assert_eq!(engine.search("gamer", &f), vec![1, 2]);

    let mut f = no_filters();
    f.brand = Some("logi".to_string());
    assert_eq!(engine.search("eletronicos", &f), vec![1, 5]);

    let mut f = no_filters();
    f.tag = Some("Conforto".to_string());
    assert_eq!(engine.search("gamer", &f), vec![4]);

    let mut f = no_filters();
    f.price_min = Some(300.0f32.to_bits());
    assert_eq!(engine.search("gamer", &f), vec![2, 4]);

    let mut f = no_filters();
    f.price_max = Some(349.0f32.to_bits());
    assert_eq!(engine.search("gamer", &f), vec![1, 2]);

    let mut f = no_filters();
    f.price_min = Some(199.9f32.to_bits());
    f.price_max = Some(349.0f32.to_bits());
    f.category = Some("eletr\u{f4}nicos".to_string());
    f.tag = Some("gamer".to_string());
    assert_eq!(engine.search("gamer", &f), vec![1, 2]);

    let mut f = no_filters();
    f.category = Some("moveis e".to_string());
    assert!(engine.search("gamer", &f).is_empty());
}

#[test]
fn a_filter_value_keeps_its_stop_words() {
    let products = vec![
        product(1, "Fone", "Som e Imagem", "A", 10.0, &[]),
        product(2, "Fone", "Som Imagem", "A", 10.0, &[]),
    ];
    let mut engine = SearchEngine::new(products);
    let mut f = no_filters();
    f.category = Some("som E imagem!".to_string());
    assert_eq!(engine.search("fone", &f), vec![1]);
}

#[test]
fn a_price_that_is_not_a_number_passes_the_price_filters() {
    let products = vec![product(1, "Fone", "Som", "A", f32::NAN, &[])];
    let mut engine = SearchEngine::new(products);
    let mut f = no_filters();
    f.price_min = Some(5.0f32.to_bits());
    f.price_max = Some(6.0f32.to_bits());
    assert_eq!(engine.search("fone", &f), vec![1]);
}

#[test]
fn a_repeated_query_is_answered_from_the_cache() {
    let mut engine = SearchEngine::new(catalog());
    let tokens = tokenize("Gamer, USB");
    let (first, hit) = engine.answer_terms(&tokens);
    assert_eq!(first, vec![1]);
    assert!(!hit);
    let (second, hit) = engine.answer_terms(&tokens);
    assert_eq!(second, vec![1]);
    assert!(hit);
    // the same key from another text
    let (third, hit) = engine.answer_terms(&tokenize("gamer   de usb"));
    assert_eq!(third, vec![1]);
    assert!(hit);
    // another order of the terms is another key
    let (fourth, hit) = engine.answer_terms(&tokenize("usb gamer"));
    assert_eq!(fourth, vec![1]);
    assert!(!hit);
    assert_eq!(engine.search("gamer usb", &no_filters()), vec![1]);
}

#[test]
fn join_terms_puts_single_spaces_between_terms() {
    assert_eq!(join_terms(&vec![]), "");
    assert_eq!(join_terms(&vec!["mouse".to_string()]), "mouse");
    assert_eq!(join_terms(&tokenize("Mouse-Gamer! 100% TOP")), "mouse gamer 100 top");
}

#[test]
fn apply_filters_drops_ids_without_a_record_and_keeps_order() {
    let products = catalog();
    let out = apply_filters(&products, &vec![5, 99, 1, 3], &no_filters());
    assert_eq!(out, vec![5, 1, 3]);
}

#[test]
fn passes_filters_compares_prices_at_the_bounds() {
    let p = product(1, "x", "c", "b", 10.0, &["t"]);
    let mut f = no_filters();
    f.price_min = Some(10.0f32.to_bits());
    f.price_max = Some(10.0f32.to_bits());
    assert!(passes_filters(&p, &f));
    f.price_min = Some(10.5f32.to_bits());
    assert!(!passes_filters(&p, &f));
    f.price_min = None;
    f.price_max = Some(9.5f32.to_bits());
    assert!(!passes_filters(&p, &f));
    f.price_max = None;
    f.tag = Some("u".to_string());
    assert!(!passes_filters(&p, &f));
}

#[test]
fn the_first_record_with_an_id_is_the_one_that_counts() {
    let products = vec![product(1, "a", "first", "b", 1.0, &[]), product(1, "a", "second", "b", 1.0, &[])];
    let mut f = no_filters();
    f.category = Some("first".to_string());
    assert_eq!(apply_filters(&products, &vec![1], &f), vec![1]);
    f.category = Some("second".to_string());
    assert!(apply_filters(&products, &vec![1], &f).is_empty());
}

#[test]
fn the_graph_of_a_catalog_links_records_of_one_category() {
    let products = catalog();
    let rec = build_recommendation_graph(&products, same_category);
    assert_eq!(rec.node_count(), 5);
    assert_eq!(rec.edge_count(), 3);
    assert_eq!(rec.recommend(1, 5), vec![5, 2]);
    assert_eq!(rec.recommend(2, 5), vec![5, 1]);
    assert_eq!(rec.recommend(5, 5), vec![2, 1]);
    assert_eq!(rec.recommend(1, 1), vec![5]);
    assert!(rec.recommend(3, 5).is_empty());
    assert!(rec.recommend(4, 5).is_empty());
    assert!(rec.recommend(42, 5).is_empty());
    assert_eq!(UNIT_WEIGHT, 1.0f32.to_bits());
}

#[test]
fn categories_are_compared_as_written_when_the_graph_is_built() {
    let products = vec![
        product(1, "a", "Som", "b", 1.0, &[]),
        product(2, "a", "som", "b", 1.0, &[]),
        product(3, "a", "Som", "b", 1.0, &[]),
    ];
    let rec = build_category_graph(&products);
    assert_eq!(rec.recommend(1, 5), vec![3]);
    assert!(rec.recommend(2, 5).is_empty());
    assert_eq!(MAX_CATALOG, 65535);
}

#[test]
fn the_category_graph_is_the_graph_of_the_category_rule() {
    let products = catalog();
    let by_rule = build_recommendation_graph(&products, same_category);
    let by_category = build_category_graph(&products);
    for p in &products {
        assert_eq!(by_rule.recommend(p.id, 10), by_category.recommend(p.id, 10));
    }
    assert_eq!(by_category.edge_count(), 3);
}

#[test]
fn the_graph_follows_the_rule_it_is_given() {
    let products = catalog();
    let rec = build_recommendation_graph(&products, |a: &Product, b: &Product| {
        a.brand.to_lowercase() == b.brand.to_lowercase()
    });
    assert_eq!(rec.edge_count(), 1);
    assert_eq!(rec.recommend(1, 5), vec![5]);
    assert_eq!(rec.recommend(5, 5), vec![1]);
    assert!(rec.recommend(2, 5).is_empty());

    // a rule that links one way only still gives an undirected edge
    let rec = build_recommendation_graph(&products, |a: &Product, b: &Product| a.id < b.id && b.id <= 3);
    assert_eq!(rec.edge_count(), 3);
    assert_eq!(rec.recommend(3, 5), vec![2, 1]);
    assert_eq!(rec.recommend(1, 5), vec![3, 2]);
    assert_eq!(rec.recommend(2, 5), vec![3, 1]);

    let rec = build_recommendation_graph(&products, |_: &Product, _: &Product| false);
    assert_eq!(rec.node_count(), 5);
    assert_eq!(rec.edge_count(), 0);
}

#[test]
fn records_with_one_identifier_are_never_linked() {
    let products = vec![
        product(1, "a", "Som", "b", 1.0, &[]),
        product(1, "b", "Som", "b", 1.0, &[]),
        product(2, "c", "Som", "b", 1.0, &[]),
    ];
    let rec = build_category_graph(&products);
    assert_eq!(rec.node_count(), 2);
    assert_eq!(rec.edge_count(), 1);
    assert_eq!(rec.recommend(1, 5), vec![2]);
    assert_eq!(rec.recommend(2, 5), vec![1]);
}

#[test]
fn the_engine_keeps_the_records_it_was_given() {
    let engine = SearchEngine::new(catalog());
    let records = engine.records();
    assert_eq!(records.len(), 5);
    assert_eq!(records[2].id, 3);
    assert_eq!(records[2].name, "Cabo USB");
    assert_eq!(records[2].price, 19.5f32.to_bits());
}

#[test]
fn more_queries_than_the_cache_holds_are_still_answered_alike() {
    let mut products = Vec::new();
    for i in 0..200u64 {
        products.push(product(i, &format!("item{} comum", i), "c", "b", 1.0, &[]));
    }
    let mut engine = SearchEngine::new(products);
    for round in 0..2 {
        for i in 0..200u64 {
            let (found, hit) = engine.answer_terms(&tokenize(&format!("item{}", i)));
            assert_eq!(found, vec![i]);
            // 200 keys go round a cache of 128: none is still held
            assert!(!hit, "round {} key {}", round, i);
        }
    }
    let (all, _) = engine.answer_terms(&tokenize("comum"));
    assert_eq!(all.len(), 200);
    let (again, hit) = engine.answer_terms(&tokenize("comum"));
    assert_eq!(again, all);
    assert!(hit);
}
