use linux_files::model::{Model, Note};

#[test]
fn seeded_model_holds_two_notes() {
    let m = Model::new();
    let n1 = m.get(&String::from("note_1.txt")).unwrap();
    assert_eq!(n1.title, "Example note 1");
    assert_eq!(n1.body, "Some text");
    let n2 = m.get(&String::from("note_2.txt")).unwrap();
    assert_eq!(n2.title, "Example note 2");
    assert_eq!(n2.body, "Some text\nwith multiple lines");
    assert!(m.get(&String::from("note_3.txt")).is_none());
}

#[test]
fn upsert_inserts_and_replaces() {
    let m = Model::new();
    let m2 = m.upsert(
        String::from("new.txt"),
        Note { title: String::from("t"), body: String::from("b") },
    );
    assert_eq!(m2.get(&String::from("new.txt")).unwrap().title, "t");
    // the old snapshot is untouched
    assert!(m.get(&String::from("new.txt")).is_none());
    let m3 = m2.upsert(
        String::from("new.txt"),
        Note { title: String::from("t2"), body: String::from("b2") },
    );
    assert_eq!(m3.get(&String::from("new.txt")).unwrap().title, "t2");
    assert_eq!(m3.notes.len(), m2.notes.len());
}

#[test]
fn insert_if_absent_never_overwrites() {
    let m = Model::new();
    let m2 = m.insert_if_absent(String::from("note_1.txt"));
    let n1 = m2.get(&String::from("note_1.txt")).unwrap();
    assert_eq!(n1.title, "Example note 1");
    assert_eq!(n1.body, "Some text");
    let m3 = m.insert_if_absent(String::from("fresh.txt"));
    let fresh = m3.get(&String::from("fresh.txt")).unwrap();
    assert_eq!(fresh.title, "");
    assert_eq!(fresh.body, "");
}

#[test]
fn contains_key_reports_presence() {
    let m = Model::new();
    assert!(m.contains_key(&String::from("note_1.txt")));
    assert!(!m.contains_key(&String::from("absent.txt")));
}

#[test]
fn clone_model_is_independent_copy() {
    let m = Model::new();
    let c = m.clone_model();
    assert_eq!(c.notes.len(), m.notes.len());
    let c2 = c.upsert(String::from("extra.txt"), Note::new());
    assert!(c2.contains_key(&String::from("extra.txt")));
    assert!(!m.contains_key(&String::from("extra.txt")));
}
