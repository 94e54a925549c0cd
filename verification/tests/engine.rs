use menu_maker::index::{get_map, make_map, query};
use menu_maker::item::Item;
use menu_maker::store::{IngestError, Store};

const DATE: &str = "2024-06-10";

fn oyster_item(price: &str, updated: &str) -> Item {
    Item::new(
        String::from("Grilled Oysters"),
        vec![String::from("lemon"), String::from("mignonette")],
        String::from(updated),
        String::from(price),
        String::from("Bateau"),
    )
}

fn duck_item() -> Item {
    Item::new(
        String::from("Duck Breast"),
        vec![String::from("cherry"), String::from("thyme")],
        String::from(DATE),
        String::from("32"),
        String::from("Lark"),
    )
}

#[test]
fn hash_ignores_price_and_updated() {
    let a = oyster_item("16", "2024-06-10");
    let b = oyster_item("21", "2025-01-01");
    assert_eq!(a.get_hash(), b.get_hash());
}

#[test]
fn hash_separates_different_dishes() {
    assert_ne!(oyster_item("16", DATE).get_hash(), duck_item().get_hash());
}

#[test]
fn ingredients_str_joins_with_trailing_separator() {
    let a = oyster_item("16", DATE);
    assert_eq!(a._get_ingredients_str(), "lemon, mignonette, ");
}

#[test]
fn store_keeps_first_write() {
    let mut store = Store::new();
    store.canonicalize(vec![oyster_item("16", "2024-06-10"), oyster_item("21", "2025-01-01")]);
    assert_eq!(store.len(), 1);
    let kept = store.to_vec();
    assert_eq!(kept[0].price(), "16");
    assert_eq!(kept[0].updated(), "2024-06-10");
}

#[test]
fn store_reingestion_is_idempotent() {
    let mut store = Store::new();
    store.canonicalize(vec![oyster_item("16", DATE), duck_item()]);
    store.canonicalize(vec![oyster_item("18", DATE), duck_item()]);
    assert_eq!(store.len(), 2);
}

#[test]
fn failed_source_returns_its_error() {
    let mut store = Store::new();
    let r = store.ingest_source(Err(IngestError::Extraction));
    assert_eq!(r, Err(IngestError::Extraction));
    let r = store.ingest_source(Err(IngestError::MalformedRecord));
    assert_eq!(r, Err(IngestError::MalformedRecord));
    assert_eq!(store.len(), 0);
}

#[test]
fn failed_source_leaves_other_sources_alone() {
    let mut store = Store::new();
    store.ingest_source(Ok(vec![oyster_item("16", DATE)])).unwrap();
    let r = store.ingest_source(Err(IngestError::Extraction));
    assert!(r.is_err());
    // the record of the good source is still stored and still served
    assert_eq!(store.len(), 1);
    let ix = get_map(&store);
    let found = query(String::from("mignonette"), &ix);
    assert_eq!(found.len(), 1);
    assert_eq!(found[0].item_name(), "Grilled Oysters");
}

#[test]
fn every_token_of_a_stored_item_finds_it() {
    let mut store = Store::new();
    store.canonicalize(vec![oyster_item("16", DATE), duck_item()]);
    let ix = get_map(&store);
    for token in ["grilled", "oysters", "lemon", "mignonette"] {
        let found = query(String::from(token), &ix);
        assert!(
            found.iter().any(|i| i.item_name() == "Grilled Oysters"),
            "token {} missed",
            token
        );
    }
    for token in ["duck", "breast", "cherry", "thyme"] {
        let found = query(String::from(token), &ix);
        assert!(found.iter().any(|i| i.item_name() == "Duck Breast"), "token {} missed", token);
    }
}

#[test]
fn tokens_are_lowercased_and_stripped() {
    let mut store = Store::new();
    store.canonicalize(vec![Item::new(
        String::from("Sea-Salt! Crackers"),
        vec![],
        String::from(DATE),
        String::from("5"),
        String::from("Bateau"),
    )]);
    let ix = get_map(&store);
    assert_eq!(query(String::from("seasalt"), &ix).len(), 1);
    assert_eq!(query(String::from("crackers"), &ix).len(), 1);
}

#[test]
fn non_ascii_letters_survive_tokenization_and_query() {
    let mut store = Store::new();
    store.canonicalize(vec![Item::new(
        String::from("Crème Brûlée"),
        vec![String::from("custard")],
        String::from(DATE),
        String::from("12"),
        String::from("Canlis"),
    )]);
    let ix = get_map(&store);
    // ASCII uppercase lowers, letters beyond ASCII stay as they are
    assert_eq!(query(String::from("crème"), &ix).len(), 1);
    assert_eq!(query(String::from("brûlée"), &ix).len(), 1);
    assert_eq!(query(String::from("custard"), &ix).len(), 1);
}

#[test]
fn query_unions_without_duplicates() {
    let mut store = Store::new();
    store.canonicalize(vec![oyster_item("16", DATE), duck_item()]);
    let ix = get_map(&store);
    // both tokens hit the same record, which appears once
    let found = query(String::from("grilled oysters"), &ix);
    assert_eq!(found.len(), 1);
    // tokens of different records union
    let found = query(String::from("lemon cherry"), &ix);
    assert_eq!(found.len(), 2);
}

#[test]
fn empty_and_punctuation_queries_return_nothing() {
    let mut store = Store::new();
    store.canonicalize(vec![oyster_item("16", DATE)]);
    let ix = get_map(&store);
    assert_eq!(query(String::from(""), &ix).len(), 0);
    assert_eq!(query(String::from("!!! ... 123 ,,,"), &ix).len(), 0);
    assert_eq!(query(String::from("   "), &ix).len(), 0);
}

#[test]
fn unmatched_query_returns_nothing() {
    let mut store = Store::new();
    store.canonicalize(vec![oyster_item("16", DATE)]);
    let ix = get_map(&store);
    assert_eq!(query(String::from("halibut"), &ix).len(), 0);
}

#[test]
fn test_mapper() {
    let mut store = Store::new();
    store.canonicalize(vec![oyster_item("16", DATE), duck_item()]);
    let map = make_map(store.to_vec());

    let found = query(String::from("oyster"), &map);
    match found.first() {
        Some(x) => {
            println!("{}: {:?}", x.item_name(), x.ingredients())
        },
        None => {
            println!("Oyster not found!")
        },
    }
    // the singular form is not a token of the stored record
    assert!(found.is_empty());
    let found = query(String::from("oysters"), &map);
    assert_eq!(found.len(), 1);
}
