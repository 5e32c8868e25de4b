//! The note store: an immutable mapping from workspace-relative file paths to
//! notes. Every mutation produces a fresh snapshot; old snapshots stay valid.

use vstd::prelude::*;

verus! {

/// A note: a single-line title and a body that may span several lines.
pub struct Note {
    pub title: String,
    pub body: String,
}

/// The mathematical value of a note: title and body as character sequences.
pub ghost struct NoteV {
    pub title: Seq<char>,
    pub body: Seq<char>,
}

impl View for Note {
    type V = NoteV;

    open spec fn view(&self) -> NoteV {
        NoteV { title: self.title@, body: self.body@ }
    }
}

/// The value of the empty note inserted when a file appears but holds nothing yet.
pub open spec fn empty_note() -> NoteV {
    NoteV { title: Seq::<char>::empty(), body: Seq::<char>::empty() }
}

impl Note {
    /// The empty note: inserted for a path that was created but not yet written.
    pub fn new() -> (r: Note)
        ensures
            r@ == empty_note(),
    {
        Note { title: String::new(), body: String::new() }
    }
}

impl Clone for Note {
    fn clone(&self) -> (r: Note)
        ensures
            r == *self,
    {
        Note { title: self.title.clone(), body: self.body.clone() }
    }
}

/// The store as a mathematical map, read off an entry list back to front,
/// so that a later entry for the same key wins.
pub open spec fn map_of(entries: Seq<(String, Note)>) -> Map<Seq<char>, NoteV>
    decreases entries.len(),
{
    if entries.len() == 0 {
        Map::<Seq<char>, NoteV>::empty()
    } else {
        map_of(entries.drop_last()).insert(entries.last().0@, entries.last().1@)
    }
}

/// Entry lists are well formed when no key occurs twice.
pub open spec fn unique_keys(entries: Seq<(String, Note)>) -> bool {
    forall|i: int, j: int|
        0 <= i < j < entries.len() ==> entries[i].0@ != entries[j].0@
}

/// The note store. A snapshot is never mutated: every operation that changes
/// the store returns a new `Model`.
pub struct Model {
    pub notes: Vec<(String, Note)>,
}

impl View for Model {
    type V = Map<Seq<char>, NoteV>;

    open spec fn view(&self) -> Map<Seq<char>, NoteV> {
        map_of(self.notes@)
    }
}

/// A key is in the map exactly when some entry carries it.
pub proof fn lemma_map_of_contains(entries: Seq<(String, Note)>, k: Seq<char>)
    ensures
        map_of(entries).contains_key(k) <==> exists|i: int|
            0 <= i < entries.len() && entries[i].0@ == k,
    decreases entries.len(),
{
    if entries.len() > 0 {
        lemma_map_of_contains(entries.drop_last(), k);
        if entries.last().0@ == k {
            assert(entries[entries.len() - 1].0@ == k);
        } else if map_of(entries).contains_key(k) {
            let i = choose|i: int| 0 <= i < entries.len() - 1 && entries.drop_last()[i].0@ == k;
            assert(entries[i].0@ == k);
        } else if exists|i: int| 0 <= i < entries.len() && entries[i].0@ == k {
            let i = choose|i: int| 0 <= i < entries.len() && entries[i].0@ == k;
            assert(entries.drop_last()[i].0@ == k);
        }
    }
}

/// With unique keys, the map sends each entry's key to that entry's note.
pub proof fn lemma_map_of_index(entries: Seq<(String, Note)>, i: int)
    requires
        unique_keys(entries),
        0 <= i < entries.len(),
    ensures
        map_of(entries).contains_key(entries[i].0@),
        map_of(entries)[entries[i].0@] == entries[i].1@,
    decreases entries.len(),
{
    if i == entries.len() - 1 {
    } else {
        assert(unique_keys(entries.drop_last()));
        lemma_map_of_index(entries.drop_last(), i);
        assert(entries.drop_last()[i] == entries[i]);
        assert(entries[i].0@ != entries.last().0@);
    }
}

/// Replacing the one entry that carries a key acts as `insert` on the map.
pub proof fn lemma_map_of_replace(
    es: Seq<(String, Note)>,
    out: Seq<(String, Note)>,
    p: (String, Note),
)
    requires
        unique_keys(es),
        out.len() == es.len(),
        exists|j: int| 0 <= j < es.len() && es[j].0@ == p.0@,
        forall|j: int|
            0 <= j < es.len() ==> out[j] == (if es[j].0@ == p.0@ {
                p
            } else {
                es[j]
            }),
    ensures
        map_of(out) == map_of(es).insert(p.0@, p.1@),
        unique_keys(out),
    decreases es.len(),
{
    assert forall|i: int, j: int| 0 <= i < j < out.len() implies out[i].0@ != out[j].0@ by {
        assert(out[i].0@ == es[i].0@ && out[j].0@ == es[j].0@);
    }
    let last = es.len() - 1;
    if es[last].0@ == p.0@ {
        assert forall|j: int| 0 <= j < last implies es[j].0@ != p.0@ by {}
        assert(out.drop_last() =~= es.drop_last());
        assert(map_of(out) == map_of(es.drop_last()).insert(p.0@, p.1@));
        assert(map_of(es).insert(p.0@, p.1@) =~= map_of(es.drop_last()).insert(p.0@, p.1@));
    } else {
        let j = choose|j: int| 0 <= j < es.len() && es[j].0@ == p.0@;
        assert(j < last);
        assert(unique_keys(es.drop_last()));
        assert(es.drop_last()[j] == es[j]);
        assert forall|k: int|
            0 <= k < last implies out.drop_last()[k] == (if es.drop_last()[k].0@ == p.0@ {
            p
        } else {
            es.drop_last()[k]
        }) by {
            assert(out.drop_last()[k] == out[k]);
        }
        lemma_map_of_replace(es.drop_last(), out.drop_last(), p);
        assert(out.last() == es.last());
        assert(map_of(out) == map_of(es.drop_last()).insert(p.0@, p.1@).insert(
            es.last().0@,
            es.last().1@,
        ));
        assert(map_of(es).insert(p.0@, p.1@) =~= map_of(es.drop_last()).insert(p.0@, p.1@).insert(
            es.last().0@,
            es.last().1@,
        ));
    }
}

impl Model {
    /// Snapshot well-formedness: no key occurs twice in the entry list.
    pub open spec fn wf(&self) -> bool {
        unique_keys(self.notes@)
    }

    /// Whether the snapshot is well formed: callers that only hold a
    /// snapshot from outside the library can test the invariant with this.
    pub fn well_formed(&self) -> (r: bool)
        ensures
            r == self.wf(),
    {
        let mut i: usize = 1;
        while i < self.notes.len()
            invariant
                1 <= i || self.notes.len() == 0,
                i <= self.notes.len() || self.notes.len() == 0,
                forall|p: int, q: int|
                    0 <= p < q < i && q < self.notes@.len() ==> self.notes@[p].0@
                        != self.notes@[q].0@,
            decreases self.notes.len() - i,
        {
            let mut j: usize = 0;
            while j < i
                invariant
                    j <= i < self.notes.len(),
                    forall|p: int| 0 <= p < j ==> self.notes@[p].0@ != self.notes@[i as int].0@,
                decreases i - j,
            {
                if self.notes[j].0.eq(&self.notes[i].0) {
                    return false;
                }
                j = j + 1;
            }
            i = i + 1;
        }
        true
    }

    /// The seeded content the originating role starts from.
    pub fn new() -> (r: Model)
        ensures
            r.wf(),
            r@ == Map::<Seq<char>, NoteV>::empty()
                .insert("note_1.txt"@, NoteV { title: "Example note 1"@, body: "Some text"@ })
                .insert("note_2.txt"@, NoteV {
                    title: "Example note 2"@,
                    body: "Some text\nwith multiple lines"@,
                }),
    {
        let mut notes: Vec<(String, Note)> = Vec::new();
        notes.push((
            String::from_str("note_1.txt"),
            Note {
                title: String::from_str("Example note 1"),
                body: String::from_str("Some text"),
            },
        ));
        notes.push((
            String::from_str("note_2.txt"),
            Note {
                title: String::from_str("Example note 2"),
                body: String::from_str("Some text\nwith multiple lines"),
            },
        ));
        proof {
            reveal_strlit("note_1.txt");
            reveal_strlit("note_2.txt");
            let es = notes@;
            assert(es.drop_last().last() == es[0]);
            assert(es.drop_last().drop_last() =~= Seq::<(String, Note)>::empty());
            assert("note_1.txt"@[5] == '1');
            assert("note_2.txt"@[5] == '2');
            assert(es[0].0@ != es[1].0@);
            assert(map_of(es.drop_last().drop_last()) =~= Map::<Seq<char>, NoteV>::empty());
            assert(map_of(es.drop_last()) =~= Map::<Seq<char>, NoteV>::empty()
                .insert(es[0].0@, es[0].1@));
            assert(map_of(es) =~= map_of(es.drop_last()).insert(es[1].0@, es[1].1@));
            assert(map_of(es) =~= Map::<Seq<char>, NoteV>::empty()
                .insert("note_1.txt"@, NoteV { title: "Example note 1"@, body: "Some text"@ })
                .insert("note_2.txt"@, NoteV {
                    title: "Example note 2"@,
                    body: "Some text\nwith multiple lines"@,
                }));
        }
        Model { notes }
    }

    /// An independent copy of the snapshot, entry for entry.
    pub fn clone_model(&self) -> (r: Model)
        ensures
            r.notes@ == self.notes@,
            r@ == self@,
            r.wf() == self.wf(),
    {
        let mut notes: Vec<(String, Note)> = Vec::new();
        let mut i: usize = 0;
        while i < self.notes.len()
            invariant
                i <= self.notes.len(),
                notes@ =~= self.notes@.subrange(0, i as int),
            decreases self.notes.len() - i,
        {
            let entry = &self.notes[i];
            notes.push((entry.0.clone(), entry.1.clone()));
            i = i + 1;
        }
        proof {
            assert(notes@ =~= self.notes@);
        }
        Model { notes }
    }

    /// Whether a note is stored under the given path.
    pub fn contains_key(&self, key: &String) -> (r: bool)
        ensures
            r == self@.contains_key(key@),
    {
        let mut i: usize = 0;
        while i < self.notes.len()
            invariant
                i <= self.notes.len(),
                forall|j: int| 0 <= j < i ==> self.notes@[j].0@ != key@,
            decreases self.notes.len() - i,
        {
            if self.notes[i].0.eq(key) {
                proof {
                    lemma_map_of_contains(self.notes@, key@);
                }
                return true;
            }
            i = i + 1;
        }
        proof {
            lemma_map_of_contains(self.notes@, key@);
        }
        false
    }

    /// The note stored under the given path, if any.
    pub fn get(&self, key: &String) -> (r: Option<&Note>)
        requires
            self.wf(),
        ensures
            match r {
                Some(n) => self@.contains_key(key@) && n@ == self@[key@],
                None => !self@.contains_key(key@),
            },
    {
        let mut i: usize = 0;
        while i < self.notes.len()
            invariant
                i <= self.notes.len(),
                self.wf(),
                forall|j: int| 0 <= j < i ==> self.notes@[j].0@ != key@,
            decreases self.notes.len() - i,
        {
            if self.notes[i].0.eq(key) {
                proof {
                    lemma_map_of_index(self.notes@, i as int);
                }
                return Some(&self.notes[i].1);
            }
            i = i + 1;
        }
        proof {
            lemma_map_of_contains(self.notes@, key@);
        }
        None
    }

    /// A new snapshot in which `key` maps to `note`; every other entry is unchanged.
    pub fn upsert(&self, key: String, note: Note) -> (r: Model)
        requires
            self.wf(),
        ensures
            r.wf(),
            r@ == self@.insert(key@, note@),
    {
        let mut out: Vec<(String, Note)> = Vec::new();
        let mut seen = false;
        let mut i: usize = 0;
        while i < self.notes.len()
            invariant
                i <= self.notes.len(),
                self.wf(),
                out.len() == i,
                seen <==> exists|j: int| 0 <= j < i && self.notes@[j].0@ == key@,
                forall|j: int|
                    0 <= j < i ==> out@[j] == (if self.notes@[j].0@ == key@ {
                        (key, note)
                    } else {
                        self.notes@[j]
                    }),
            decreases self.notes.len() - i,
        {
            if self.notes[i].0.eq(&key) {
                out.push((key.clone(), note.clone()));
                seen = true;
            } else {
                out.push((self.notes[i].0.clone(), self.notes[i].1.clone()));
            }
            i = i + 1;
        }
        if seen {
            proof {
                lemma_map_of_replace(self.notes@, out@, (key, note));
            }
            Model { notes: out }
        } else {
            proof {
                assert(out@ =~= self.notes@);
                lemma_map_of_contains(self.notes@, key@);
            }
            out.push((key, note));
            proof {
                assert(out@.drop_last() =~= self.notes@);
                assert(out@.last() == (key, note));
                assert forall|i2: int, j2: int| 0 <= i2 < j2 < out@.len() implies out@[i2].0@
                    != out@[j2].0@ by {
                    if j2 == out@.len() - 1 {
                        assert(!map_of(self.notes@).contains_key(key@));
                        assert(out@[i2] == self.notes@[i2]);
                    }
                }
            }
            Model { notes: out }
        }
    }

    /// A new snapshot with an empty note at `key` when the key is absent;
    /// an unchanged snapshot when it is already present.
    pub fn insert_if_absent(&self, key: String) -> (r: Model)
        requires
            self.wf(),
        ensures
            r.wf(),
            r@ == (if self@.contains_key(key@) {
                self@
            } else {
                self@.insert(key@, empty_note())
            }),
    {
        if self.contains_key(&key) {
            self.clone_model()
        } else {
            self.upsert(key, Note::new())
        }
    }
}

} // verus!
