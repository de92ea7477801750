use content_bundles::{Bundle, BundleCollectionLink, BundleError};

const NOW: i64 = 1234567890;

#[test]
fn happy_parse() {
    let src = "--# bundle\n--# name Hello\n\"42\"\n\"43\"\n";
    let b = Bundle::import(src, NOW, None).unwrap();
    assert_eq!(b.name, "Hello");
    assert_eq!(b.items, vec![42u64, 43u64]);
    assert!(b.collection.is_none());
    assert_eq!(b.id, 0);
    assert_eq!(b.updated, NOW);
}

#[test]
fn long_bracket_quoting() {
    let src = "--# bundle\n[==[ 7 ]==]\n";
    let b = Bundle::import(src, NOW, None).unwrap();
    assert_eq!(b.items, vec![7u64]);
}

#[test]
fn long_bracket_mismatched_closer_is_skipped() {
    let src = "--# bundle\n[==[ 7 ]=]\n\"9\"\n";
    let b = Bundle::import(src, NOW, None).unwrap();
    assert_eq!(b.items, vec![9u64]);
}

#[test]
fn single_quotes_and_double_quotes() {
    let src = "--# bundle\n'5'\n\"6\"\n";
    let b = Bundle::import(src, NOW, None).unwrap();
    assert_eq!(b.items, vec![5u64, 6u64]);
}

#[test]
fn collection_reconciliation() {
    let src = "--# bundle\n--# collection 100\n\"1\"\n\"2\"\n\"3\"\n\"5\"\n";
    let members = vec![2u64, 3u64, 4u64];
    let b = Bundle::import(src, NOW, Some(&members)).unwrap();
    assert_eq!(b.items, vec![1u64, 5u64]);
    let c = b.collection.unwrap();
    assert_eq!(c.id, 100);
    assert_eq!(c.included, vec![2u64, 3u64]);
    assert_eq!(c.excluded, vec![4u64]);
}

#[test]
fn offline_reconciliation() {
    let src = "--# bundle\n--# collection 100\n\"1\"\n\"2\"\n\"3\"\n\"5\"\n";
    let b = Bundle::import(src, NOW, None).unwrap();
    assert_eq!(b.items, vec![1u64, 2u64, 3u64, 5u64]);
    let c = b.collection.unwrap();
    assert_eq!(c.id, 100);
    assert!(c.included.is_empty());
    assert!(c.excluded.is_empty());
}

#[test]
fn two_bundle_regions_keep_only_the_first() {
    let src = "--# bundle\n\"1\"\n--# bundle\n\"2\"\n";
    let b = Bundle::import(src, NOW, None).unwrap();
    assert_eq!(b.items, vec![1u64]);
}

#[test]
fn items_before_the_bundle_directive_are_dropped() {
    let src = "\"9\"\n--# bundle\n\"1\"\n";
    let b = Bundle::import(src, NOW, None).unwrap();
    assert_eq!(b.items, vec![1u64]);
}

#[test]
fn empty_input_gives_no_items_found() {
    assert_eq!(Bundle::import("", NOW, None).unwrap_err(), BundleError::NoItemsFound);
}

#[test]
fn directives_without_items_give_no_items_found() {
    let src = "--# bundle\n--# name X\n";
    assert_eq!(Bundle::import(src, NOW, None).unwrap_err(), BundleError::NoItemsFound);
}

#[test]
fn malformed_item_tokens_are_skipped() {
    let src = "--# bundle\n\"99999999999999999999999999\"\n\"abc\"\nnoise \"7\"\n\"8\"\n";
    let b = Bundle::import(src, NOW, None).unwrap();
    // the huge number overflows, "abc" has no digits, and a token not at the
    // start of a line is not a token at all
    assert_eq!(b.items, vec![8u64]);
}

#[test]
fn malformed_updated_defaults_to_now() {
    let src = "--# bundle\n--# updated not a date\n\"1\"\n";
    let b = Bundle::import(src, NOW, None).unwrap();
    assert_eq!(b.updated, NOW);
}

#[test]
fn valid_updated_is_parsed_as_utc() {
    let src = "--# bundle\n--# updated Fri, 13 Feb 2009 23:31:30 +0000\n\"1\"\n";
    let b = Bundle::import(src, 5, None).unwrap();
    assert_eq!(b.updated, 1234567890);
}

#[test]
fn updated_with_offset_is_converted_to_utc() {
    let src = "--# bundle\n--# updated Sat, 14 Feb 2009 01:31:30 +0200\n\"1\"\n";
    let b = Bundle::import(src, 5, None).unwrap();
    assert_eq!(b.updated, 1234567890);
}

#[test]
fn crlf_input_is_tolerated() {
    let src = "--# bundle\r\n--# name Hi\r\n\"42\"\r\n";
    let b = Bundle::import(src, NOW, None).unwrap();
    assert_eq!(b.name, "Hi");
    assert_eq!(b.items, vec![42u64]);
}

#[test]
fn unknown_directives_are_ignored() {
    let src = "--# bundle\n--# flavour mint\n\"3\"\n";
    let b = Bundle::import(src, NOW, None).unwrap();
    assert_eq!(b.items, vec![3u64]);
    assert_eq!(b.name, "");
}

#[test]
fn collection_value_must_be_numeric() {
    let src = "--# bundle\n--# collection pack\n\"3\"\n";
    let b = Bundle::import(src, NOW, None).unwrap();
    assert!(b.collection.is_none());
}

#[test]
fn collection_value_accepts_a_leading_plus() {
    let src = "--# bundle\n--# collection +100\n\"3\"\n";
    let b = Bundle::import(src, NOW, None).unwrap();
    assert_eq!(b.collection.unwrap().id, 100);
}

#[test]
fn later_directives_win() {
    let src = "--# bundle\n--# name First\n--# name Second\n--# collection 1\n--# collection 2\n\"3\"\n";
    let b = Bundle::import(src, NOW, None).unwrap();
    assert_eq!(b.name, "Second");
    assert_eq!(b.collection.unwrap().id, 2);
}

#[test]
fn blanks_inside_quotes_are_tolerated() {
    let src = "--# bundle\n\" 42 \"\n";
    let b = Bundle::import(src, NOW, None).unwrap();
    assert_eq!(b.items, vec![42u64]);
}

#[test]
fn text_after_the_closing_quote_is_ignored() {
    let src = "--# bundle\n\"42\" -- Some Addon\n";
    let b = Bundle::import(src, NOW, None).unwrap();
    assert_eq!(b.items, vec![42u64]);
}

#[test]
fn peek_collection_reports_the_id() {
    let src = "--# bundle\n--# collection 512\n\"3\"\n";
    assert_eq!(Bundle::peek_collection(src), Some(512));
    assert_eq!(Bundle::peek_collection("--# bundle\n\"3\"\n"), None);
}

#[test]
fn export_writes_the_exact_script() {
    let b = Bundle {
        id: 1,
        name: String::from("Hello"),
        updated: 0,
        collection: None,
        items: vec![42, 43],
    };
    let names = vec![(42u64, String::from("Gadget"))];
    let text = b.export(&names, None);
    let expected = "-- generated by gmpublisher\n-- https://gmpublisher.download\n--# bundle\n--# name Hello\n--# updated Thu, 1 Jan 1970 00:00:00 +0000\nfor _,w in ipairs({\n\n\"42\" -- Gadget\n\"43\"\n\n}) do resource.AddWorkshop(w) end";
    assert_eq!(text, expected);
}

#[test]
fn export_with_collection_writes_the_trailer() {
    let b = Bundle {
        id: 1,
        name: String::from("Pack"),
        updated: 1234567890,
        collection: Some(BundleCollectionLink { id: 100, included: vec![2], excluded: vec![4] }),
        items: vec![1],
    };
    let names: Vec<(u64, String)> = Vec::new();
    let text = b.export(&names, Some("My Pack"));
    let expected = "-- generated by gmpublisher\n-- https://gmpublisher.download\n--# bundle\n--# name Pack\n--# collection 100\n--# updated Fri, 13 Feb 2009 23:31:30 +0000\nfor _,w in ipairs({\n\n\"1\"\n\n-- Collection\n-- My Pack\n-- https://steamcommunity.com/sharedfiles/filedetails/?id=100\n\"2\"\n\n}) do resource.AddWorkshop(w) end";
    assert_eq!(text, expected);
}

#[test]
fn export_then_import_round_trips() {
    let src = "--# bundle\n--# name Round\n--# collection 100\n\"1\"\n\"2\"\n\"3\"\n\"5\"\n";
    let members = vec![2u64, 3u64, 4u64];
    let b1 = Bundle::import(src, NOW, Some(&members)).unwrap();
    let names = vec![(1u64, String::from("One")), (2u64, String::from("Two"))];
    let text = b1.export(&names, Some("My Pack"));
    let b2 = Bundle::import(&text, NOW + 7, Some(&members)).unwrap();
    assert_eq!(b2.name, b1.name);
    assert_eq!(b2.items, b1.items);
    let c1 = b1.collection.unwrap();
    let c2 = b2.collection.unwrap();
    assert_eq!(c2.id, c1.id);
    assert_eq!(c2.included, c1.included);
    assert_eq!(c2.excluded, c1.excluded);
    assert_eq!(b2.updated, b1.updated);
}

#[test]
fn export_then_import_without_collection_round_trips() {
    let b1 = Bundle {
        id: 9,
        name: String::from(""),
        updated: 77,
        collection: None,
        items: vec![10, 20, 30],
    };
    let names: Vec<(u64, String)> = Vec::new();
    let text = b1.export(&names, None);
    let b2 = Bundle::import(&text, 5, None).unwrap();
    assert_eq!(b2.name, "");
    assert_eq!(b2.items, vec![10u64, 20u64, 30u64]);
    assert!(b2.collection.is_none());
    assert_eq!(b2.updated, 77);
}
