use linux_files::codec::{chars_of, render};
use linux_files::events::{normalize_event, FsEventKind, PathItem};
use linux_files::model::Model;
use linux_files::sync::{reconcile_step, Role, SyncAction, SyncEvent};
use linux_files::wire::{decode_model, encode_model};

#[test]
fn originating_pushes_local_mutations() {
    let m = Model::new();
    let (held, action) = reconcile_step(&Role::Originating, SyncEvent::LocalMutation(m));
    assert!(matches!(action, SyncAction::PushOutbound));
    assert!(held.contains_key(&String::from("note_1.txt")));
}

#[test]
fn originating_only_replaces_on_remote_snapshot() {
    let m = Model::new();
    let (_, action) = reconcile_step(&Role::Originating, SyncEvent::RemoteSnapshot(m));
    assert!(matches!(action, SyncAction::NoEffect));
}

#[test]
fn mirroring_keeps_local_mutations_to_itself() {
    let m = Model::new();
    let (_, action) = reconcile_step(&Role::Mirroring, SyncEvent::LocalMutation(m));
    assert!(matches!(action, SyncAction::NoEffect));
}

#[test]
fn mirroring_materializes_remote_snapshots() {
    let m = Model::new();
    let (held, action) = reconcile_step(&Role::Mirroring, SyncEvent::RemoteSnapshot(m));
    assert!(matches!(action, SyncAction::WriteWorkspace));
    assert!(held.contains_key(&String::from("note_2.txt")));
}

/// End to end over the wire, without sockets: the originating role seeds two
/// notes and pushes them; the mirroring role materializes exactly those two
/// files; a later edit of one note reaches the mirror while the other file
/// is untouched.
#[test]
fn end_to_end_seed_then_edit() {
    // Originating side starts with the seeded snapshot and pushes it.
    let origin = Model::new();
    let (origin_held, action) =
        reconcile_step(&Role::Originating, SyncEvent::LocalMutation(origin));
    assert!(matches!(action, SyncAction::PushOutbound));
    let frame1 = encode_model(&origin_held);

    // Mirroring side receives the snapshot and must write both files.
    let buf = chars_of(&frame1);
    let (received, _) = decode_model(&buf, 0).unwrap();
    let (mirror_held, action) =
        reconcile_step(&Role::Mirroring, SyncEvent::RemoteSnapshot(received));
    assert!(matches!(action, SyncAction::WriteWorkspace));
    assert_eq!(mirror_held.notes.len(), 2);
    let n1 = mirror_held.get(&String::from("note_1.txt")).unwrap();
    assert_eq!(render(n1), "Example note 1\n\nSome text");
    let n2 = mirror_held.get(&String::from("note_2.txt")).unwrap();
    assert_eq!(render(n2), "Example note 2\n\nSome text\nwith multiple lines");

    // The originating side edits note_1.txt; a content-modified event fires.
    let items = vec![PathItem {
        key: String::from("note_1.txt"),
        content: Some(b"Edited\n\nfresh text".to_vec()),
    }];
    let mutated = normalize_event(&origin_held, &FsEventKind::ContentModified, &items).unwrap();
    let (origin_held, action) =
        reconcile_step(&Role::Originating, SyncEvent::LocalMutation(mutated));
    assert!(matches!(action, SyncAction::PushOutbound));
    let frame2 = encode_model(&origin_held);

    // The mirror eventually overwrites note_1.txt; note_2.txt is untouched.
    let buf = chars_of(&frame2);
    let (received, _) = decode_model(&buf, 0).unwrap();
    let (mirror_held, action) =
        reconcile_step(&Role::Mirroring, SyncEvent::RemoteSnapshot(received));
    assert!(matches!(action, SyncAction::WriteWorkspace));
    let n1 = mirror_held.get(&String::from("note_1.txt")).unwrap();
    assert_eq!(render(n1), "Edited\n\nfresh text");
    let n2 = mirror_held.get(&String::from("note_2.txt")).unwrap();
    assert_eq!(render(n2), "Example note 2\n\nSome text\nwith multiple lines");
}
