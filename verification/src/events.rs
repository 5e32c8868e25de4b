//! The file event normalizer: one raw filesystem notification, already
//! reduced to a kind and the workspace-relative paths it touches (with the
//! bytes read for content changes), becomes zero or one store mutation.
//! Failures are isolated per path: an unreadable or undecodable file leaves
//! its key alone while the rest of the batch still applies.

use vstd::prelude::*;
use crate::codec::{decode_note, parse_spec, utf8_decode};
use crate::model::{empty_note, Model, NoteV};

verus! {

/// The closed set of event kinds the normalizer distinguishes. Kinds outside
/// the set are carried as `Unsupported` with the raw kind's description, a
/// recoverable condition rather than a fault.
pub enum FsEventKind {
    Access,
    MetadataChange,
    Create,
    ContentModified,
    Unsupported(String),
}

/// One touched path: its workspace-relative key and, for content changes,
/// the bytes read from it (`None` when the read failed).
pub struct PathItem {
    pub key: String,
    pub content: Option<Vec<u8>>,
}

/// The mathematical value of one touched path.
pub ghost struct PathItemV {
    pub key: Seq<char>,
    pub content: Option<Seq<u8>>,
}

impl View for PathItem {
    type V = PathItemV;

    open spec fn view(&self) -> PathItemV {
        PathItemV {
            key: self.key@,
            content: match self.content {
                Some(bytes) => Some(bytes@),
                None => None,
            },
        }
    }
}

impl DeepView for PathItem {
    type V = PathItemV;

    open spec fn deep_view(&self) -> PathItemV {
        self.view()
    }
}

/// The store after a create notification: an empty note appears under every
/// listed key that was absent; present keys are untouched.
pub open spec fn create_all(m: Map<Seq<char>, NoteV>, keys: Seq<Seq<char>>) -> Map<
    Seq<char>,
    NoteV,
>
    decreases keys.len(),
{
    if keys.len() == 0 {
        m
    } else {
        let m1 = if m.contains_key(keys[0]) {
            m
        } else {
            m.insert(keys[0], empty_note())
        };
        create_all(m1, keys.drop_first())
    }
}

/// Whether a touched path's bytes were read and decode as text.
pub open spec fn item_decodes(it: PathItemV) -> bool {
    it.content is Some && utf8_decode(it.content.unwrap()) is Some
}

/// The note a decodable item carries.
pub open spec fn item_note(it: PathItemV) -> NoteV {
    parse_spec(utf8_decode(it.content.unwrap()).unwrap())
}

/// The store after a content-modified notification: every decodable item is
/// upserted under its key; unreadable or undecodable items are skipped.
pub open spec fn modify_all(m: Map<Seq<char>, NoteV>, items: Seq<PathItemV>) -> Map<
    Seq<char>,
    NoteV,
>
    decreases items.len(),
{
    if items.len() == 0 {
        m
    } else {
        let m1 = if item_decodes(items[0]) {
            m.insert(items[0].key, item_note(items[0]))
        } else {
            m
        };
        modify_all(m1, items.drop_first())
    }
}

/// What a create notification does at one key: an absent listed key gets the
/// empty note; a present key keeps its note; an unlisted absent key stays
/// absent.
pub proof fn lemma_create_all_at(m: Map<Seq<char>, NoteV>, keys: Seq<Seq<char>>, k: Seq<char>)
    ensures
        create_all(m, keys).contains_key(k) == (m.contains_key(k) || keys.contains(k)),
        m.contains_key(k) ==> create_all(m, keys)[k] == m[k],
        !m.contains_key(k) && keys.contains(k) ==> create_all(m, keys)[k] == empty_note(),
    decreases keys.len(),
{
    if keys.len() == 0 {
        assert(!keys.contains(k));
    } else {
        let m1 = if m.contains_key(keys[0]) {
            m
        } else {
            m.insert(keys[0], empty_note())
        };
        lemma_create_all_at(m1, keys.drop_first(), k);
        assert(create_all(m, keys) == create_all(m1, keys.drop_first()));
        if keys.contains(k) && k != keys[0] {
            let i = choose|i: int| 0 <= i < keys.len() && keys[i] == k;
            assert(keys.drop_first()[i - 1] == k);
            assert(keys.drop_first().contains(k));
        }
        if keys.drop_first().contains(k) {
            let i = choose|i: int| 0 <= i < keys.drop_first().len() && keys.drop_first()[i] == k;
            assert(keys[i + 1] == k);
            assert(keys.contains(k));
        }
        if k == keys[0] {
            assert(keys.contains(k));
        }
    }
}

/// A create notification inserts an empty note at every absent key and never
/// overwrites a present one; keys it does not list are untouched.
pub proof fn lemma_create_all(m: Map<Seq<char>, NoteV>, keys: Seq<Seq<char>>)
    ensures
        forall|k: Seq<char>|
            #[trigger] create_all(m, keys).contains_key(k) == (m.contains_key(k) || keys.contains(
                k,
            )),
        forall|k: Seq<char>|
            m.contains_key(k) ==> #[trigger] create_all(m, keys)[k] == m[k],
        forall|k: Seq<char>|
            !m.contains_key(k) && keys.contains(k) ==> #[trigger] create_all(m, keys)[k]
                == empty_note(),
{
    assert forall|k: Seq<char>|
        #[trigger] create_all(m, keys).contains_key(k) == (m.contains_key(k) || keys.contains(
            k,
        )) by {
        lemma_create_all_at(m, keys, k);
    }
    assert forall|k: Seq<char>| m.contains_key(k) implies #[trigger] create_all(m, keys)[k]
        == m[k] by {
        lemma_create_all_at(m, keys, k);
    }
    assert forall|k: Seq<char>| !m.contains_key(k) && keys.contains(k) implies #[trigger] create_all(
        m,
        keys,
    )[k] == empty_note() by {
        lemma_create_all_at(m, keys, k);
    }
}

/// What a content-modified notification does at a key for which no listed
/// item decodes: nothing. In particular an unreadable path's key is
/// unchanged, and keys outside the batch are untouched.
pub proof fn lemma_modify_all_skips_at(m: Map<Seq<char>, NoteV>, items: Seq<PathItemV>, k: Seq<char>)
    requires
        forall|i: int| 0 <= i < items.len() && (#[trigger] items[i]).key == k ==> !item_decodes(items[i]),
    ensures
        create_preserved(m, modify_all(m, items), k),
    decreases items.len(),
{
    if items.len() > 0 {
        let m1 = if item_decodes(items[0]) {
            m.insert(items[0].key, item_note(items[0]))
        } else {
            m
        };
        assert(items[0].key == k ==> !item_decodes(items[0]));
        assert(m1.contains_key(k) == m.contains_key(k));
        assert(m1.contains_key(k) ==> m1[k] == m[k]);
        assert forall|i: int|
            0 <= i < items.drop_first().len() && (#[trigger] items.drop_first()[i]).key
                == k implies !item_decodes(items.drop_first()[i]) by {
            assert(items.drop_first()[i] == items[i + 1]);
        }
        lemma_modify_all_skips_at(m1, items.drop_first(), k);
        assert(modify_all(m, items) == modify_all(m1, items.drop_first()));
    }
}

/// A key is preserved between two snapshots: present in one exactly when in
/// the other, with the same note.
pub open spec fn create_preserved(
    before: Map<Seq<char>, NoteV>,
    after: Map<Seq<char>, NoteV>,
    k: Seq<char>,
) -> bool {
    after.contains_key(k) == before.contains_key(k) && (before.contains_key(k) ==> after[k]
        == before[k])
}

impl Model {
    /// The snapshot after a create notification for the listed keys.
    pub fn apply_create(&self, keys: &Vec<String>) -> (r: Model)
        requires
            self.wf(),
        ensures
            r.wf(),
            r@ == create_all(self@, keys.deep_view()),
    {
        let ghost kd = keys.deep_view();
        let mut cur = self.clone_model();
        let mut i: usize = 0;
        proof {
            assert(kd.subrange(0, kd.len() as int) =~= kd);
        }
        while i < keys.len()
            invariant
                i <= keys.len(),
                kd == keys.deep_view(),
                cur.wf(),
                create_all(cur@, kd.subrange(i as int, kd.len() as int)) == create_all(self@, kd),
            decreases keys.len() - i,
        {
            let ghost rest = kd.subrange(i as int, kd.len() as int);
            proof {
                assert(rest[0] == kd[i as int]);
                assert(keys[i as int]@ == kd[i as int]);
                assert(rest.drop_first() =~= kd.subrange(i as int + 1, kd.len() as int));
            }
            cur = cur.insert_if_absent(keys[i].clone());
            i = i + 1;
        }
        proof {
            assert(kd.subrange(kd.len() as int, kd.len() as int) =~= Seq::<Seq<char>>::empty());
        }
        cur
    }

    /// The snapshot after a content-modified notification for the listed
    /// items: each decodable item upserts its note; the others are skipped.
    pub fn apply_modified(&self, items: &Vec<PathItem>) -> (r: Model)
        requires
            self.wf(),
        ensures
            r.wf(),
            r@ == modify_all(self@, items.deep_view()),
    {
        let ghost iv = items.deep_view();
        proof {
            assert forall|i: int| 0 <= i < iv.len() implies iv[i] == items@[i]@ by {}
        }
        let mut cur = self.clone_model();
        let mut i: usize = 0;
        proof {
            assert(iv.subrange(0, iv.len() as int) =~= iv);
        }
        while i < items.len()
            invariant
                i <= items.len(),
                iv == items.deep_view(),
                forall|j: int| 0 <= j < iv.len() ==> iv[j] == items@[j]@,
                cur.wf(),
                modify_all(cur@, iv.subrange(i as int, iv.len() as int)) == modify_all(self@, iv),
            decreases items.len() - i,
        {
            let ghost rest = iv.subrange(i as int, iv.len() as int);
            proof {
                assert(rest[0] == iv[i as int]);
                assert(iv[i as int] == items@[i as int]@);
                assert(rest.drop_first() =~= iv.subrange(i as int + 1, iv.len() as int));
            }
            match &items[i].content {
                Some(bytes) => {
                    match decode_note(bytes) {
                        Ok(note) => {
                            proof {
                                assert(item_decodes(rest[0]));
                                assert(note@ == item_note(rest[0]));
                            }
                            cur = cur.upsert(items[i].key.clone(), note);
                        },
                        Err(_) => {
                            proof {
                                assert(!item_decodes(rest[0]));
                            }
                        },
                    }
                },
                None => {
                    proof {
                        assert(!item_decodes(rest[0]));
                    }
                },
            }
            i = i + 1;
        }
        proof {
            assert(iv.subrange(iv.len() as int, iv.len() as int) =~= Seq::<PathItemV>::empty());
        }
        cur
    }
}

/// The keys of a batch of touched paths.
pub open spec fn keys_of(items: Seq<PathItemV>) -> Seq<Seq<char>> {
    Seq::new(items.len(), |i: int| items[i].key)
}

/// Normalize one notification: access, metadata-only and unsupported kinds
/// mutate nothing; a create inserts empty notes at absent keys; a content
/// change upserts every decodable item. The returned snapshot is fresh; the
/// old one stays valid.
pub fn normalize_event(model: &Model, kind: &FsEventKind, items: &Vec<PathItem>) -> (r: Option<
    Model,
>)
    requires
        model.wf(),
    ensures
        match kind {
            FsEventKind::Create => r is Some && r.unwrap().wf() && r.unwrap()@ == create_all(
                model@,
                keys_of(items.deep_view()),
            ),
            FsEventKind::ContentModified => r is Some && r.unwrap().wf() && r.unwrap()@
                == modify_all(model@, items.deep_view()),
            _ => r is None,
        },
{
    match kind {
        FsEventKind::Create => {
            let ghost goal = keys_of(items.deep_view());
            let mut keys: Vec<String> = Vec::new();
            let mut i: usize = 0;
            while i < items.len()
                invariant
                    i <= items.len(),
                    goal == keys_of(items.deep_view()),
                    keys.deep_view() =~= goal.subrange(0, i as int),
                decreases items.len() - i,
            {
                let ghost kd0 = keys.deep_view();
                keys.push(items[i].key.clone());
                proof {
                    assert(keys.deep_view() =~= kd0.push(items@[i as int].key@));
                    assert(goal[i as int] == items.deep_view()[i as int].key);
                    assert(items.deep_view()[i as int] == items@[i as int]@);
                    assert(kd0.push(items@[i as int].key@) =~= goal.subrange(0, i as int + 1));
                }
                i = i + 1;
            }
            proof {
                assert(keys.deep_view() =~= goal);
            }
            Some(model.apply_create(&keys))
        },
        FsEventKind::ContentModified => Some(model.apply_modified(items)),
        _ => None,
    }
}

} // verus!
