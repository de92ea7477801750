use content_bundles::{
    bundles_path, decode_bundle, encode_bundle, Bundle, BundleCollectionLink, BundleError,
    Bundles, Plugin,
};

fn mk(id: u16, updated: i64, items: Vec<u64>) -> Bundle {
    Bundle { id, name: String::from("b"), updated, collection: None, items }
}

#[test]
fn binary_round_trip() {
    let b = Bundle {
        id: 7,
        name: String::from("h\u{e9}llo \u{2713}"),
        updated: 1234567890,
        collection: Some(BundleCollectionLink { id: 100, included: vec![2, 3], excluded: vec![4] }),
        items: vec![1, 5],
    };
    let bytes = encode_bundle(&b);
    let d = decode_bundle(&bytes).unwrap();
    assert_eq!(d.id, 7);
    assert_eq!(d.name, "h\u{e9}llo \u{2713}");
    assert_eq!(d.updated, 1234567890);
    assert_eq!(d.items, vec![1u64, 5u64]);
    let c = d.collection.unwrap();
    assert_eq!(c.id, 100);
    assert_eq!(c.included, vec![2u64, 3u64]);
    assert_eq!(c.excluded, vec![4u64]);
}

#[test]
fn corrupt_records_are_skipped_on_init() {
    let good = encode_bundle(&mk(3, 50, vec![9]));
    let files = vec![vec![9u8, 9, 9], good.clone(), Vec::new()];
    let s = Bundles::init(&files);
    assert_eq!(s.list().len(), 1);
    assert_eq!(s.list()[0].id, 3);
}

#[test]
fn truncated_record_is_skipped() {
    let mut bad = encode_bundle(&mk(3, 50, vec![9]));
    bad.pop();
    let s = Bundles::init(&vec![bad]);
    assert_eq!(s.list().len(), 0);
}

#[test]
fn persistence_round_trip_through_a_fresh_store() {
    let src = "--# bundle\n--# name Saved\n\"42\"\n\"43\"\n";
    let mut b = Bundle::import(src, 1234567890, None).unwrap();
    let mut store = Bundles::init(&Vec::new());
    b.id = store.next_id().unwrap();
    let record = encode_bundle(&b);
    store.upsert(b);

    let fresh = Bundles::init(&vec![record]);
    assert_eq!(fresh.list().len(), 1);
    let got = &fresh.list()[0];
    assert_eq!(got.id, 1);
    assert_eq!(got.name, "Saved");
    assert_eq!(got.updated, 1234567890);
    assert!(got.collection.is_none());
    assert_eq!(got.items, vec![42u64, 43u64]);
}

#[test]
fn init_tracks_the_largest_id() {
    let files = vec![encode_bundle(&mk(5, 10, vec![])), encode_bundle(&mk(2, 20, vec![]))];
    let mut s = Bundles::init(&files);
    assert_eq!(s.next_id().unwrap(), 6);
}

#[test]
fn list_is_sorted_by_updated_then_id() {
    let mut s = Bundles::init(&Vec::new());
    s.upsert(mk(1, 50, vec![]));
    s.upsert(mk(2, 10, vec![]));
    s.upsert(mk(3, 50, vec![]));
    let order: Vec<u16> = s.list().iter().map(|b| b.id).collect();
    assert_eq!(order, vec![2, 1, 3]);
}

#[test]
fn upsert_replaces_by_id() {
    let mut s = Bundles::init(&Vec::new());
    s.upsert(mk(1, 10, vec![7]));
    s.upsert(mk(1, 99, vec![8]));
    assert_eq!(s.list().len(), 1);
    assert_eq!(s.list()[0].updated, 99);
    assert_eq!(s.list()[0].items, vec![8u64]);
}

#[test]
fn delete_removes_the_entry_and_ignores_unknown_ids() {
    let mut s = Bundles::init(&Vec::new());
    s.upsert(mk(1, 10, vec![]));
    s.upsert(mk(2, 20, vec![]));
    s.delete(9);
    assert_eq!(s.list().len(), 2);
    s.delete(1);
    assert_eq!(s.list().len(), 1);
    assert_eq!(s.list()[0].id, 2);
    assert!(s.get(1).is_none());
    assert_eq!(s.get(2).unwrap().id, 2);
}

#[test]
fn ids_are_never_recycled() {
    let mut s = Bundles::init(&Vec::new());
    let a = s.next_id().unwrap();
    s.upsert(mk(a, 10, vec![]));
    s.delete(a);
    let b = s.next_id().unwrap();
    assert_eq!(a, 1);
    assert_eq!(b, 2);
}

#[test]
fn exhausted_ids_error() {
    let mut s = Bundles::init(&Vec::new());
    s.upsert(mk(u16::MAX, 1, vec![]));
    assert_eq!(s.next_id().unwrap_err(), BundleError::ExhaustedIds);
}

#[test]
fn bundles_path_is_below_the_user_data_dir() {
    assert_eq!(bundles_path("/home/u/.local/share/gmpublisher"), "/home/u/.local/share/gmpublisher/content_generator");
}

#[test]
fn plugin_registration_name() {
    assert_eq!(Plugin.name(), "AppData");
}

#[test]
fn clock_reading_is_clamped_into_the_text_range() {
    let src = "--# bundle\n\"1\"\n";
    let b = Bundle::import(src, -5, None).unwrap();
    assert_eq!(b.updated, 0);
    let t = chrono::Utc::now().timestamp();
    let b2 = Bundle::import(src, t, None).unwrap();
    assert!(b2.updated >= 0);
}
