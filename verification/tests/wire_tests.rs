use linux_files::codec::{chars_of, render};
use linux_files::model::{Model, Note};
use linux_files::wire::{decode_model, encode_model};

fn assert_same_store(a: &Model, b: &Model) {
    assert_eq!(a.notes.len(), b.notes.len());
    for (key, note) in &a.notes {
        let other = b.get(key).unwrap();
        assert_eq!(other.title, note.title);
        assert_eq!(other.body, note.body);
    }
}

#[test]
fn encode_decode_round_trip() {
    let m = Model::new();
    let s = encode_model(&m);
    let buf = chars_of(&s);
    let (m2, pos) = decode_model(&buf, 0).unwrap();
    assert_eq!(pos, buf.len());
    assert_same_store(&m, &m2);
}

#[test]
fn empty_snapshot_round_trip() {
    let m = Model { notes: Vec::new() };
    let s = encode_model(&m);
    assert_eq!(s, "{\"notes\":{}}");
    let buf = chars_of(&s);
    let (m2, pos) = decode_model(&buf, 0).unwrap();
    assert_eq!(pos, buf.len());
    assert_eq!(m2.notes.len(), 0);
}

#[test]
fn two_snapshots_back_to_back_decode_as_two() {
    let m1 = Model::new();
    let m2 = m1.upsert(
        String::from("third.txt"),
        Note { title: String::from("Third"), body: String::from("note") },
    );
    let mut s = encode_model(&m1);
    s.push_str(&encode_model(&m2));
    let buf = chars_of(&s);
    let (d1, p1) = decode_model(&buf, 0).unwrap();
    assert_same_store(&m1, &d1);
    let (d2, p2) = decode_model(&buf, p1).unwrap();
    assert_same_store(&m2, &d2);
    assert_eq!(p2, buf.len());
}

#[test]
fn escaped_characters_survive_the_wire() {
    let m = Model { notes: Vec::new() };
    let m = m.upsert(
        String::from("we\"ird\\name\n.txt"),
        Note {
            title: String::from("quote \" back \\ slash"),
            body: String::from("line one\nline \"two\"\\"),
        },
    );
    let s = encode_model(&m);
    let buf = chars_of(&s);
    let (m2, pos) = decode_model(&buf, 0).unwrap();
    assert_eq!(pos, buf.len());
    assert_same_store(&m, &m2);
}

#[test]
fn decode_rejects_garbage() {
    let buf = chars_of("hello there");
    assert!(decode_model(&buf, 0).is_none());
}

#[test]
fn decode_incomplete_value_yields_nothing() {
    let m = Model::new();
    let s = encode_model(&m);
    let cut = &s[..s.len() - 3];
    let buf = chars_of(cut);
    assert!(decode_model(&buf, 0).is_none());
}

#[test]
fn decode_rejects_repeated_keys() {
    let s = "{\"notes\":{\"k\":{\"title\":\"a\",\"body\":\"b\"},\"k\":{\"title\":\"c\",\"body\":\"d\"}}}";
    let buf = chars_of(s);
    assert!(decode_model(&buf, 0).is_none());
}

#[test]
fn encoded_snapshot_carries_rendered_content() {
    // What the mirror materializes for each decoded note matches what the
    // originating side would write for the same note.
    let m = Model::new();
    let s = encode_model(&m);
    let buf = chars_of(&s);
    let (m2, _) = decode_model(&buf, 0).unwrap();
    for (key, note) in &m.notes {
        let mirrored = m2.get(key).unwrap();
        assert_eq!(render(mirrored), render(note));
    }
}
