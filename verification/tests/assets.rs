use synthia::assets::{data_url, is_data_url, parse_data_url, AssetManager};

#[test]
fn parses_a_well_formed_data_url() {
    assert_eq!(parse_data_url("data:image/png;base64,AAAA"), Some(("image/png", "AAAA")));
}

#[test]
fn rejects_a_blob_url() {
    assert_eq!(parse_data_url("blob:http://localhost:1420/abc-123"), None);
}

#[test]
fn rejects_a_data_url_with_no_comma() {
    assert_eq!(parse_data_url("data:image/png;base64"), None);
}

#[test]
fn rejects_a_data_url_with_an_empty_mime_type() {
    assert_eq!(parse_data_url("data:;base64,AAAA"), None);
    assert_eq!(parse_data_url("data:,AAAA"), None);
}

#[test]
fn splits_at_the_first_comma_and_the_first_semicolon() {
    assert_eq!(parse_data_url("data:text/plain;charset=utf-8;base64,a,b"), Some(("text/plain", "a,b")));
    assert_eq!(parse_data_url("data:image/gif,"), Some(("image/gif", "")));
}

#[test]
fn built_data_url_parses_back() {
    let url = data_url("image/webp", "UklGRg==");
    assert_eq!(url, "data:image/webp;base64,UklGRg==");
    assert_eq!(parse_data_url(&url), Some(("image/webp", "UklGRg==")));
}

#[test]
fn recognizes_data_urls() {
    assert!(is_data_url("data:image/png;base64,AAAA"));
    assert!(!is_data_url("blob:http://localhost/x"));
    assert!(!is_data_url("dat"));
}

#[test]
fn asset_ids_count_up_and_references_can_be_swapped() {
    let mut assets: AssetManager<f64> = AssetManager::new();
    let a = assets.insert("a.png".to_string(), "image/png".to_string(), 400.0, 300.0, "blob:a".to_string());
    let b = assets.insert("b.jpg".to_string(), "image/jpeg".to_string(), 10.0, 20.0, "blob:b".to_string());
    assert_eq!((a, b), (1, 2));
    assert_eq!(assets.last_id(), 2);
    assert_eq!(assets.get(a).map(|x| x.filename.clone()), Some("a.png".to_string()));
    assert!(assets.get(3).is_none());
    assets.set_reference(b, "data:image/jpeg;base64,AAAA".to_string());
    assert_eq!(assets.get(b).map(|x| x.reference.clone()), Some("data:image/jpeg;base64,AAAA".to_string()));
    assets.set_reference(7, "data:x,y".to_string());
    let mut ids = assets.ids();
    ids.sort();
    assert_eq!(ids, vec![1, 2]);
}

#[test]
fn a_registry_restored_from_entries_keeps_ids_and_counter() {
    let entries = vec![
        synthia::assets::Asset { id: 1, filename: "a.png".to_string(), mime_type: "image/png".to_string(), width: 1.0, height: 2.0, reference: "data:a".to_string() },
        synthia::assets::Asset { id: 3, filename: "c.png".to_string(), mime_type: "image/png".to_string(), width: 3.0, height: 4.0, reference: "data:c".to_string() },
    ];
    let mut assets: AssetManager<f64> = AssetManager::from_entries(&entries, 3);
    assert_eq!(assets.last_id(), 3);
    assert_eq!(assets.get(3).map(|a| a.filename.clone()), Some("c.png".to_string()));
    assert!(assets.get(2).is_none());
    assert_eq!(assets.insert("d.png".to_string(), "image/png".to_string(), 0.0, 0.0, String::new()), 4);
}
