use linux_files::events::{normalize_event, FsEventKind, PathItem};
use linux_files::model::Model;

#[test]
fn create_inserts_empty_note_at_absent_key() {
    let m = Model::new();
    let items = vec![PathItem { key: String::from("fresh.txt"), content: None }];
    let m2 = normalize_event(&m, &FsEventKind::Create, &items).unwrap();
    let fresh = m2.get(&String::from("fresh.txt")).unwrap();
    assert_eq!(fresh.title, "");
    assert_eq!(fresh.body, "");
}

#[test]
fn create_leaves_present_key_alone() {
    let m = Model::new();
    let items = vec![PathItem { key: String::from("note_1.txt"), content: None }];
    let m2 = normalize_event(&m, &FsEventKind::Create, &items).unwrap();
    let n1 = m2.get(&String::from("note_1.txt")).unwrap();
    assert_eq!(n1.title, "Example note 1");
    assert_eq!(n1.body, "Some text");
}

#[test]
fn modified_updates_decodable_items() {
    let m = Model::new();
    let items = vec![PathItem {
        key: String::from("note_1.txt"),
        content: Some(b"New title\n\nNew body".to_vec()),
    }];
    let m2 = normalize_event(&m, &FsEventKind::ContentModified, &items).unwrap();
    let n1 = m2.get(&String::from("note_1.txt")).unwrap();
    assert_eq!(n1.title, "New title");
    assert_eq!(n1.body, "New body");
}

#[test]
fn modified_unreadable_path_leaves_key_and_batch_intact() {
    let m = Model::new();
    let items = vec![
        PathItem { key: String::from("note_1.txt"), content: None },
        PathItem {
            key: String::from("note_2.txt"),
            content: Some(b"Changed\n\ntext".to_vec()),
        },
    ];
    let m2 = normalize_event(&m, &FsEventKind::ContentModified, &items).unwrap();
    // the unreadable path's key is unchanged
    let n1 = m2.get(&String::from("note_1.txt")).unwrap();
    assert_eq!(n1.title, "Example note 1");
    assert_eq!(n1.body, "Some text");
    // the rest of the batch still applied
    let n2 = m2.get(&String::from("note_2.txt")).unwrap();
    assert_eq!(n2.title, "Changed");
    assert_eq!(n2.body, "text");
}

#[test]
fn modified_undecodable_content_is_skipped() {
    let m = Model::new();
    let items = vec![PathItem {
        key: String::from("note_1.txt"),
        content: Some(vec![0xff, 0xfe]),
    }];
    let m2 = normalize_event(&m, &FsEventKind::ContentModified, &items).unwrap();
    let n1 = m2.get(&String::from("note_1.txt")).unwrap();
    assert_eq!(n1.title, "Example note 1");
    assert_eq!(n1.body, "Some text");
}

#[test]
fn modified_unreadable_new_key_stays_absent() {
    let m = Model::new();
    let items = vec![PathItem { key: String::from("ghost.txt"), content: None }];
    let m2 = normalize_event(&m, &FsEventKind::ContentModified, &items).unwrap();
    assert!(!m2.contains_key(&String::from("ghost.txt")));
}

#[test]
fn access_and_metadata_and_unsupported_mutate_nothing() {
    let m = Model::new();
    let items = vec![PathItem { key: String::from("note_1.txt"), content: None }];
    assert!(normalize_event(&m, &FsEventKind::Access, &items).is_none());
    assert!(normalize_event(&m, &FsEventKind::MetadataChange, &items).is_none());
    let raw = FsEventKind::Unsupported(String::from("remove"));
    assert!(normalize_event(&m, &raw, &items).is_none());
}
