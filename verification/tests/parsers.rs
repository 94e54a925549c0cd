use menu_maker::parse::{bateau_parse, canlis_parse, lark_parse, west_parse};

const DATE: &str = "2024-06-10";

#[test]
fn bateau_extracts_name_ingredients_price() {
    let items = bateau_parse(
        String::from("Grilled Oysters, lemon, mignonette 16"),
        String::from(DATE),
    );
    assert_eq!(items.len(), 1);
    assert_eq!(items[0].item_name(), "Grilled Oysters");
    assert_eq!(items[0].ingredients(), &vec![String::from("lemon"), String::from("mignonette")]);
    assert_eq!(items[0].price(), "16");
    assert_eq!(items[0].restaurant(), "Bateau");
    assert_eq!(items[0].updated(), DATE);
}

#[test]
fn bateau_splits_at_whitespace_after_digit() {
    let items = bateau_parse(
        String::from("Steak Frites, butter 38 Tartare, caper, egg 24"),
        String::from(DATE),
    );
    assert_eq!(items.len(), 2);
    assert_eq!(items[0].item_name(), "Steak Frites");
    assert_eq!(items[0].price(), "38");
    assert_eq!(items[1].item_name(), "Tartare");
    assert_eq!(items[1].ingredients(), &vec![String::from("caper"), String::from("egg")]);
    assert_eq!(items[1].price(), "24");
}

#[test]
fn bateau_applies_denylist_and_admission() {
    let menu = String::from(
        "allow 20minutes wait\nsee the chalkboard no5\nNO LOWERCASE 9\nno digit here\na 1\nSteak, salt 38",
    );
    let items = bateau_parse(menu, String::from(DATE));
    // denylist words, missing lowercase, missing digit and short entries all drop
    assert_eq!(items.len(), 1);
    assert_eq!(items[0].item_name(), "Steak");
}

#[test]
fn bateau_entry_without_ingredients_is_valid() {
    let items = bateau_parse(String::from("cheese plate 12"), String::from(DATE));
    assert_eq!(items.len(), 1);
    assert_eq!(items[0].item_name(), "cheese plate ");
    assert_eq!(items[0].ingredients().len(), 0);
    assert_eq!(items[0].price(), "12");
}

#[test]
fn bateau_price_without_digits_uses_zero_sentinel() {
    // the digit needed for admission sits in the first piece, the last has none
    let items = bateau_parse(String::from("st8k plate, salt & pepper"), String::from(DATE));
    assert_eq!(items.len(), 1);
    assert_eq!(items[0].price(), "0");
    assert_eq!(
        items[0].ingredients(),
        &vec![String::from("8k plate"), String::from("salt & pepper")]
    );
}

#[test]
fn bateau_drops_entry_with_oversized_price() {
    // a trailing run that does not fit a 16-bit number drops the entry
    let items = bateau_parse(String::from("Gold Steak, leaf 99999"), String::from(DATE));
    assert_eq!(items.len(), 0);
}

#[test]
fn west_entry_without_split_point_drops() {
    // the market-price suffix closes the entry, but letters and spaces alone
    // give no name/details split, so the entry is dropped
    let items = west_parse(String::from("fried oysters mp"), String::from(DATE));
    assert_eq!(items.len(), 0);
}

#[test]
fn west_accumulates_until_digit_terminator() {
    let menu = String::from("duck breast\ncherry, thyme 32");
    let items = west_parse(menu, String::from(DATE));
    assert_eq!(items.len(), 1);
    // lines concatenate without a separator before extraction
    assert_eq!(items[0].item_name(), "duck breastcherry");
    assert_eq!(items[0].ingredients(), &vec![String::from("thyme")]);
    assert_eq!(items[0].price(), "32");
    assert_eq!(items[0].restaurant(), "Westward");
}

#[test]
fn west_denylist_clears_the_buffer() {
    let menu = String::from("duck breast\nPlease inform your server\ncherry, thyme 32");
    let items = west_parse(menu, String::from(DATE));
    assert_eq!(items.len(), 1);
    // the buffer restarted after the notice, so only the last line remains
    assert_eq!(items[0].item_name(), "cherry");
}

#[test]
fn west_regional_suffix_closes_an_entry() {
    let menu = String::from("shigoku oyster / totten inlet, wa and more text 9");
    let items = west_parse(menu, String::from(DATE));
    // the forced line break after "inlet, wa" closes the first entry there
    assert_eq!(items.len(), 2);
    assert_eq!(items[0].item_name(), "shigoku oyster ");
    assert_eq!(
        items[0].ingredients(),
        &vec![String::from("totten inlet"), String::from("wa")]
    );
    assert_eq!(items[0].price(), "0");
}

#[test]
fn canlis_accepts_two_line_blocks_with_unknown_price() {
    let blocks = vec![
        String::from("Duck Breast\ncherry, thyme"),
        String::from("one line only"),
    ];
    let items = canlis_parse(blocks, String::from(DATE));
    assert_eq!(items.len(), 1);
    assert_eq!(items[0].item_name(), "Duck Breast");
    assert_eq!(items[0].ingredients(), &vec![String::from("cherry"), String::from("thyme")]);
    assert_eq!(items[0].price(), "n/a");
    assert_eq!(items[0].restaurant(), "Canlis");
}

#[test]
fn canlis_stops_at_the_menu_marker() {
    let blocks = vec![
        String::from("Oysters\nlemon, mignonette"),
        String::from("see the full menu"),
        String::from("Duck Breast\ncherry, thyme"),
    ];
    let items = canlis_parse(blocks, String::from(DATE));
    assert_eq!(items.len(), 1);
    assert_eq!(items[0].item_name(), "Oysters");
}

#[test]
fn lark_accepts_three_line_blocks() {
    let groups = vec![vec![String::from("Duck Breast\ncherry, thyme\n32")]];
    let items = lark_parse(groups, String::from(DATE));
    assert_eq!(items.len(), 1);
    assert_eq!(items[0].item_name(), "Duck Breast");
    assert_eq!(items[0].ingredients(), &vec![String::from("cherry"), String::from("thyme")]);
    assert_eq!(items[0].price(), "32");
    assert_eq!(items[0].restaurant(), "Lark");
}

#[test]
fn lark_drops_two_line_blocks() {
    let groups = vec![vec![String::from("Duck Breast\ncherry, thyme")]];
    let items = lark_parse(groups, String::from(DATE));
    assert_eq!(items.len(), 0);
}

#[test]
fn lark_stop_marker_ends_only_its_group() {
    let groups = vec![
        vec![
            String::from("Oysters\nlemon, mignonette\n18"),
            String::from("back to the menu"),
            String::from("Skipped\nafter, marker\n10"),
        ],
        vec![String::from("Duck Breast\ncherry, thyme\n32")],
    ];
    let items = lark_parse(groups, String::from(DATE));
    assert_eq!(items.len(), 2);
    assert_eq!(items[0].item_name(), "Oysters");
    assert_eq!(items[1].item_name(), "Duck Breast");
}
