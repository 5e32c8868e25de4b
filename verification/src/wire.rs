//! The wire format: whole store snapshots serialized as a back-to-back
//! sequence of self-delimiting values, with no separator between values. The
//! decoder consumes exactly one value and leaves the position on the next,
//! so two snapshots sent in quick succession decode as two distinct values.
//!
//! A snapshot is written as one object holding the entry list under a
//! `notes` key; every text is quoted with `"`, `\` and newline escaped.

use vstd::prelude::*;
use crate::codec::{chars_of, string_from_chars};
use crate::model::{map_of, unique_keys, Model, Note, NoteV};

verus! {

/// One wire entry as a mathematical value: a key and a note.
pub type EntryV = (Seq<char>, NoteV);

/// The mathematical value of a snapshot's entry list.
pub open spec fn entries_view(es: Seq<(String, Note)>) -> Seq<EntryV> {
    Seq::new(es.len(), |i: int| (es[i].0@, es[i].1@))
}

/// No key occurs twice in a wire entry list.
pub open spec fn keys_unique(es: Seq<EntryV>) -> bool {
    forall|i: int, j: int| 0 <= i < j < es.len() ==> es[i].0 != es[j].0
}

/// The characters standing for one text character inside a quoted string.
pub open spec fn esc_char(c: char) -> Seq<char> {
    if c == '"' {
        seq!['\\', '"']
    } else if c == '\\' {
        seq!['\\', '\\']
    } else if c == '\n' {
        seq!['\\', 'n']
    } else {
        seq![c]
    }
}

/// A text with every character escaped as the wire writes it.
pub open spec fn esc(s: Seq<char>) -> Seq<char>
    decreases s.len(),
{
    if s.len() == 0 {
        Seq::<char>::empty()
    } else {
        esc_char(s[0]) + esc(s.drop_first())
    }
}

/// A quoted, escaped text.
pub open spec fn enc_string(s: Seq<char>) -> Seq<char> {
    seq!['"'] + esc(s) + seq!['"']
}

pub open spec fn lit_title() -> Seq<char> {
    seq!['{', '"', 't', 'i', 't', 'l', 'e', '"', ':']
}

pub open spec fn lit_body() -> Seq<char> {
    seq![',', '"', 'b', 'o', 'd', 'y', '"', ':']
}

pub open spec fn lit_header() -> Seq<char> {
    seq!['{', '"', 'n', 'o', 't', 'e', 's', '"', ':', '{']
}

/// One encoded note.
pub open spec fn enc_note(n: NoteV) -> Seq<char> {
    lit_title() + enc_string(n.title) + lit_body() + enc_string(n.body) + seq!['}']
}

/// One encoded entry: the quoted key, a colon, the note.
pub open spec fn enc_entry(e: EntryV) -> Seq<char> {
    enc_string(e.0) + seq![':'] + enc_note(e.1)
}

/// The encoded entry list, comma separated.
pub open spec fn enc_entries(es: Seq<EntryV>) -> Seq<char>
    decreases es.len(),
{
    if es.len() == 0 {
        Seq::<char>::empty()
    } else if es.len() == 1 {
        enc_entry(es[0])
    } else {
        enc_entry(es[0]) + seq![','] + enc_entries(es.drop_first())
    }
}

/// One whole encoded snapshot.
pub open spec fn enc_model(es: Seq<EntryV>) -> Seq<char> {
    lit_header() + enc_entries(es) + seq!['}', '}']
}

/// The character an escape code stands for, if it is one the wire emits.
pub open spec fn unesc_char(c: char) -> Option<char> {
    if c == '"' {
        Some('"')
    } else if c == '\\' {
        Some('\\')
    } else if c == 'n' {
        Some('\n')
    } else {
        None
    }
}

/// Decode a quoted string's inside from `i` up to its closing quote; yields
/// the unescaped text and the position after the quote.
pub open spec fn dec_str_body(s: Seq<char>, i: int) -> Option<(Seq<char>, int)>
    decreases s.len() - i,
{
    if i < 0 || i >= s.len() {
        None
    } else if s[i] == '"' {
        Some((Seq::<char>::empty(), i + 1))
    } else if s[i] == '\\' {
        if i + 1 < s.len() && unesc_char(s[i + 1]) is Some {
            match dec_str_body(s, i + 2) {
                Some(r) => Some((seq![unesc_char(s[i + 1]).unwrap()] + r.0, r.1)),
                None => None,
            }
        } else {
            None
        }
    } else {
        match dec_str_body(s, i + 1) {
            Some(r) => Some((seq![s[i]] + r.0, r.1)),
            None => None,
        }
    }
}

/// Decode one quoted string starting at its opening quote.
pub open spec fn dec_string(s: Seq<char>, i: int) -> Option<(Seq<char>, int)> {
    if 0 <= i < s.len() && s[i] == '"' {
        dec_str_body(s, i + 1)
    } else {
        None
    }
}

/// The fixed text `l` stands in `s` at position `i`.
pub open spec fn has_lit(s: Seq<char>, i: int, l: Seq<char>) -> bool {
    0 <= i && i + l.len() <= s.len() && s.subrange(i, i + l.len() as int) == l
}

/// Decode one note object starting at its opening brace.
pub open spec fn dec_note(s: Seq<char>, i: int) -> Option<(NoteV, int)> {
    if !has_lit(s, i, lit_title()) {
        None
    } else {
        match dec_string(s, i + 9) {
            None => None,
            Some((t, j)) => {
                if !has_lit(s, j, lit_body()) {
                    None
                } else {
                    match dec_string(s, j + 8) {
                        None => None,
                        Some((b, k)) => {
                            if k < s.len() && s[k] == '}' {
                                Some((NoteV { title: t, body: b }, k + 1))
                            } else {
                                None
                            }
                        },
                    }
                }
            },
        }
    }
}

/// Decode one entry: quoted key, colon, note.
pub open spec fn dec_entry(s: Seq<char>, i: int) -> Option<(EntryV, int)> {
    match dec_string(s, i) {
        None => None,
        Some((k, j)) => {
            if j < s.len() && s[j] == ':' {
                match dec_note(s, j + 1) {
                    None => None,
                    Some((n, l)) => Some(((k, n), l)),
                }
            } else {
                None
            }
        },
    }
}

/// A decoded string body ends after where it began, within the input.
pub proof fn lemma_dec_str_body_advance(s: Seq<char>, i: int)
    ensures
        dec_str_body(s, i) is Some ==> i < dec_str_body(s, i).unwrap().1 <= s.len(),
    decreases s.len() - i,
{
    if 0 <= i && i < s.len() && s[i] != '"' {
        if s[i] == '\\' {
            if i + 1 < s.len() {
                lemma_dec_str_body_advance(s, i + 2);
            }
        } else {
            lemma_dec_str_body_advance(s, i + 1);
        }
    }
}

/// A decoded note ends after where it began, within the input.
pub proof fn lemma_dec_note_advance(s: Seq<char>, i: int)
    ensures
        dec_note(s, i) is Some ==> i < dec_note(s, i).unwrap().1 <= s.len(),
{
    if has_lit(s, i, lit_title()) {
        lemma_dec_str_body_advance(s, i + 10);
        if dec_string(s, i + 9) is Some {
            let j = dec_string(s, i + 9).unwrap().1;
            lemma_dec_str_body_advance(s, j + 9);
        }
    }
}

/// A decoded entry ends after where it began, within the input.
pub proof fn lemma_dec_entry_advance(s: Seq<char>, i: int)
    ensures
        dec_entry(s, i) is Some ==> i < dec_entry(s, i).unwrap().1 <= s.len(),
{
    lemma_dec_str_body_advance(s, i + 1);
    if dec_string(s, i) is Some {
        let j = dec_string(s, i).unwrap().1;
        lemma_dec_note_advance(s, j + 1);
    }
}

#[via_fn]
proof fn dec_entries_dec(s: Seq<char>, i: int) {
    lemma_dec_entry_advance(s, i);
}

/// Decode a nonempty comma-separated entry list; stops at the first
/// position after an entry that does not continue with a comma.
pub open spec fn dec_entries(s: Seq<char>, i: int) -> Option<(Seq<EntryV>, int)>
    decreases s.len() - i,
        via dec_entries_dec
{
    match dec_entry(s, i) {
        None => None,
        Some((e, j)) => {
            if j < s.len() && s[j] == ',' {
                match dec_entries(s, j + 1) {
                    None => None,
                    Some((rest, l)) => Some((seq![e] + rest, l)),
                }
            } else {
                Some((seq![e], j))
            }
        },
    }
}

/// Decode one whole snapshot starting at `i`; a value with a repeated key is
/// rejected. On success the position is exactly past this value, on the
/// start of whatever follows.
pub open spec fn dec_model(s: Seq<char>, i: int) -> Option<(Seq<EntryV>, int)> {
    if !has_lit(s, i, lit_header()) {
        None
    } else {
        let p = i + 10;
        if p < s.len() && s[p] == '}' {
            if p + 1 < s.len() && s[p + 1] == '}' {
                Some((Seq::<EntryV>::empty(), p + 2))
            } else {
                None
            }
        } else {
            match dec_entries(s, p) {
                None => None,
                Some((es, j)) => {
                    if j + 2 <= s.len() && s[j] == '}' && s[j + 1] == '}' && keys_unique(es) {
                        Some((es, j + 2))
                    } else {
                        None
                    }
                },
            }
        }
    }
}

/// A fixed text standing at `i` splits into its two parts.
pub proof fn lemma_has_lit_split(s: Seq<char>, i: int, a: Seq<char>, b: Seq<char>)
    requires
        has_lit(s, i, a + b),
    ensures
        has_lit(s, i, a),
        has_lit(s, i + a.len(), b),
{
    assert forall|k: int| 0 <= k < (a + b).len() implies s[i + k] == (a + b)[k] by {
        assert(s.subrange(i, i + (a + b).len() as int)[k] == (a + b)[k]);
    }
    assert(s.subrange(i, i + a.len() as int) =~= a);
    assert forall|k: int|
        0 <= k < b.len() implies s.subrange(i + a.len(), i + a.len() + b.len() as int)[k]
        == b[k] by {
        assert(s[i + (a.len() + k)] == (a + b)[a.len() + k]);
    }
    assert(s.subrange(i + a.len(), i + a.len() + b.len() as int) =~= b);
}

/// Each character of a fixed text standing at `i`.
pub proof fn lemma_has_lit_index(s: Seq<char>, i: int, l: Seq<char>, k: int)
    requires
        has_lit(s, i, l),
        0 <= k < l.len(),
    ensures
        s[i + k] == l[k],
{
    assert(s.subrange(i, i + l.len() as int)[k] == l[k]);
}

/// Decoding undoes escaping: where the input carries an escaped text and its
/// closing quote, the string decoder yields exactly that text and stops
/// right after the quote.
pub proof fn lemma_dec_esc(s: Seq<char>, i: int, t: Seq<char>)
    requires
        has_lit(s, i, esc(t) + seq!['"']),
    ensures
        dec_str_body(s, i) == Some((t, i + esc(t).len() + 1)),
    decreases t.len(),
{
    if t.len() == 0 {
        assert(esc(t) + seq!['"'] =~= seq!['"']);
        lemma_has_lit_index(s, i, seq!['"'], 0);
        assert(s[i] == '"');
    } else {
        let c = t[0];
        let rest = t.drop_first();
        assert(esc(t) == esc_char(c) + esc(rest));
        assert((esc_char(c) + esc(rest)) + seq!['"'] =~= esc_char(c) + (esc(rest) + seq!['"']));
        lemma_has_lit_split(s, i, esc_char(c), esc(rest) + seq!['"']);
        if c == '"' || c == '\\' || c == '\n' {
            lemma_has_lit_index(s, i, esc_char(c), 0);
            lemma_has_lit_index(s, i, esc_char(c), 1);
            assert(s[i] == '\\');
            assert(unesc_char(s[i + 1]) == Some(c));
            lemma_dec_esc(s, i + 2, rest);
            assert(seq![c] + rest =~= t);
        } else {
            lemma_has_lit_index(s, i, esc_char(c), 0);
            assert(s[i] == c);
            lemma_dec_esc(s, i + 1, rest);
            assert(seq![c] + rest =~= t);
        }
    }
}

/// Decoding undoes string encoding.
pub proof fn lemma_dec_enc_string(s: Seq<char>, i: int, t: Seq<char>)
    requires
        has_lit(s, i, enc_string(t)),
    ensures
        dec_string(s, i) == Some((t, i + enc_string(t).len())),
{
    assert(enc_string(t) =~= seq!['"'] + (esc(t) + seq!['"']));
    lemma_has_lit_split(s, i, seq!['"'], esc(t) + seq!['"']);
    lemma_has_lit_index(s, i, seq!['"'], 0);
    assert(s[i] == '"');
    lemma_dec_esc(s, i + 1, t);
}

/// Decoding undoes note encoding.
pub proof fn lemma_dec_enc_note(s: Seq<char>, i: int, n: NoteV)
    requires
        has_lit(s, i, enc_note(n)),
    ensures
        dec_note(s, i) == Some((n, i + enc_note(n).len())),
{
    let a = lit_title();
    let b = enc_string(n.title);
    let c = lit_body();
    let d = enc_string(n.body);
    assert(enc_note(n) =~= a + (b + (c + (d + seq!['}']))));
    lemma_has_lit_split(s, i, a, b + (c + (d + seq!['}'])));
    lemma_has_lit_split(s, i + 9, b, c + (d + seq!['}']));
    let j = i + 9 + b.len();
    lemma_has_lit_split(s, j, c, d + seq!['}']);
    let k = j + 8;
    lemma_has_lit_split(s, k, d, seq!['}']);
    let l = k + d.len();
    lemma_has_lit_index(s, l, seq!['}'], 0);
    lemma_dec_enc_string(s, i + 9, n.title);
    lemma_dec_enc_string(s, k, n.body);
    assert(s[l] == '}');
    assert(NoteV { title: n.title, body: n.body } == n);
    assert(dec_note(s, i) == Some((n, l + 1)));
    assert(l + 1 == i + enc_note(n).len());
}

/// Decoding undoes entry encoding.
pub proof fn lemma_dec_enc_entry(s: Seq<char>, i: int, e: EntryV)
    requires
        has_lit(s, i, enc_entry(e)),
    ensures
        dec_entry(s, i) == Some((e, i + enc_entry(e).len())),
{
    let a = enc_string(e.0);
    assert(enc_entry(e) =~= a + (seq![':'] + enc_note(e.1)));
    lemma_has_lit_split(s, i, a, seq![':'] + enc_note(e.1));
    let j = i + a.len();
    lemma_has_lit_split(s, j, seq![':'], enc_note(e.1));
    lemma_has_lit_index(s, j, seq![':'], 0);
    assert(s[j] == ':');
    lemma_dec_enc_string(s, i, e.0);
    lemma_dec_enc_note(s, j + 1, e.1);
    assert((e.0, e.1) == e);
}

/// Decoding undoes entry-list encoding, provided the character after the
/// list, if any, is not a comma.
pub proof fn lemma_dec_enc_entries(s: Seq<char>, i: int, es: Seq<EntryV>)
    requires
        es.len() >= 1,
        has_lit(s, i, enc_entries(es)),
        i + enc_entries(es).len() == s.len() || s[i + enc_entries(es).len()] != ',',
    ensures
        dec_entries(s, i) == Some((es, i + enc_entries(es).len())),
    decreases es.len(),
{
    if es.len() == 1 {
        lemma_dec_enc_entry(s, i, es[0]);
        let j = i + enc_entry(es[0]).len();
        assert(dec_entries(s, i) == Some((seq![es[0]], j)));
        assert(seq![es[0]] =~= es);
    } else {
        let a = enc_entry(es[0]);
        let rest = es.drop_first();
        assert(enc_entries(es) =~= a + (seq![','] + enc_entries(rest)));
        lemma_has_lit_split(s, i, a, seq![','] + enc_entries(rest));
        let j = i + a.len();
        lemma_has_lit_split(s, j, seq![','], enc_entries(rest));
        lemma_has_lit_index(s, j, seq![','], 0);
        assert(s[j] == ',');
        lemma_dec_enc_entry(s, i, es[0]);
        assert(j + 1 + enc_entries(rest).len() == i + enc_entries(es).len());
        lemma_dec_enc_entries(s, j + 1, rest);
        assert(seq![es[0]] + rest =~= es);
    }
}

/// Decoding undoes snapshot encoding: where the input carries an encoded
/// snapshot with unique keys, the decoder yields exactly its entries and
/// stops exactly past it, on the start of whatever follows.
pub proof fn lemma_dec_enc_model(s: Seq<char>, i: int, es: Seq<EntryV>)
    requires
        keys_unique(es),
        has_lit(s, i, enc_model(es)),
    ensures
        dec_model(s, i) == Some((es, i + enc_model(es).len())),
{
    let h = lit_header();
    assert(enc_model(es) =~= h + (enc_entries(es) + seq!['}', '}']));
    lemma_has_lit_split(s, i, h, enc_entries(es) + seq!['}', '}']);
    let p = i + 10;
    lemma_has_lit_split(s, p, enc_entries(es), seq!['}', '}']);
    let j = p + enc_entries(es).len();
    lemma_has_lit_index(s, j, seq!['}', '}'], 0);
    lemma_has_lit_index(s, j, seq!['}', '}'], 1);
    assert(s[j] == '}' && s[j + 1] == '}');
    if es.len() == 0 {
        assert(j == p);
        assert(dec_model(s, i) == Some((Seq::<EntryV>::empty(), p + 2)));
        assert(Seq::<EntryV>::empty() =~= es);
    } else {
        let a = enc_string(es[0].0);
        assert(enc_entry(es[0]) =~= a + (seq![':'] + enc_note(es[0].1)));
        if es.len() == 1 {
            assert(enc_entries(es) == enc_entry(es[0]));
        } else {
            assert(enc_entries(es) =~= enc_entry(es[0]) + (seq![','] + enc_entries(
                es.drop_first(),
            )));
            lemma_has_lit_split(s, p, enc_entry(es[0]), seq![','] + enc_entries(es.drop_first()));
        }
        assert(has_lit(s, p, enc_entry(es[0])));
        lemma_has_lit_split(s, p, a, seq![':'] + enc_note(es[0].1));
        lemma_has_lit_index(s, p, a, 0);
        assert(s[p] == '"');
        lemma_dec_enc_entries(s, p, es);
        assert(dec_model(s, i) == Some((es, j + 2)));
    }
}

/// A well-formed snapshot survives the wire: decoding its encoding, with
/// anything at all following on the stream, yields exactly its entries and
/// the position where the rest begins.
pub proof fn lemma_snapshot_round_trip(m: Model, s: Seq<char>, i: int)
    requires
        m.wf(),
        has_lit(s, i, enc_model(entries_view(m.notes@))),
    ensures
        dec_model(s, i) == Some((
            entries_view(m.notes@),
            i + enc_model(entries_view(m.notes@)).len(),
        )),
{
    lemma_unique_keys_view(m.notes@);
    lemma_dec_enc_model(s, i, entries_view(m.notes@));
}

/// Two snapshots sent back to back, with nothing between them, decode as two
/// distinct values: the first decode consumes exactly the first encoding and
/// leaves the position on the second, which then decodes on its own.
pub proof fn lemma_back_to_back(a: Seq<EntryV>, b: Seq<EntryV>)
    requires
        keys_unique(a),
        keys_unique(b),
    ensures
        dec_model(enc_model(a) + enc_model(b), 0) == Some((a, enc_model(a).len() as int)),
        dec_model(enc_model(a) + enc_model(b), enc_model(a).len() as int) == Some((
            b,
            (enc_model(a) + enc_model(b)).len() as int,
        )),
{
    let s = enc_model(a) + enc_model(b);
    assert(s.subrange(0, enc_model(a).len() as int) =~= enc_model(a));
    assert(has_lit(s, 0, enc_model(a)));
    lemma_dec_enc_model(s, 0, a);
    let m = enc_model(a).len() as int;
    assert(s.subrange(m, m + enc_model(b).len() as int) =~= enc_model(b));
    assert(has_lit(s, m, enc_model(b)));
    lemma_dec_enc_model(s, m, b);
}

/// Escaping one more character appends its escape.
pub proof fn lemma_esc_push(t: Seq<char>, c: char)
    ensures
        esc(t.push(c)) == esc(t) + esc_char(c),
    decreases t.len(),
{
    if t.len() == 0 {
        assert(t.push(c)[0] == c);
        assert(t.push(c).drop_first() =~= Seq::<char>::empty());
        assert(esc(Seq::<char>::empty()) =~= Seq::<char>::empty());
        assert(esc_char(c) + Seq::<char>::empty() =~= esc_char(c));
        assert(esc(t.push(c)) =~= esc_char(c));
        assert(esc(t) + esc_char(c) =~= esc_char(c));
    } else {
        assert(t.push(c)[0] == t[0]);
        assert(t.push(c).drop_first() =~= t.drop_first().push(c));
        lemma_esc_push(t.drop_first(), c);
        assert(esc_char(t[0]) + (esc(t.drop_first()) + esc_char(c)) =~= (esc_char(t[0]) + esc(
            t.drop_first(),
        )) + esc_char(c));
    }
}

/// Encoding one more entry appends a separator and that entry.
pub proof fn lemma_enc_entries_push(es: Seq<EntryV>, e: EntryV)
    ensures
        enc_entries(es.push(e)) == (if es.len() == 0 {
            enc_entry(e)
        } else {
            enc_entries(es) + seq![','] + enc_entry(e)
        }),
    decreases es.len(),
{
    if es.len() == 0 {
        assert(es.push(e)[0] == e);
        assert(enc_entries(es.push(e)) == enc_entry(e));
    } else if es.len() == 1 {
        assert(es.push(e).drop_first() =~= seq![e]);
        assert(enc_entries(seq![e]) == enc_entry(e));
        assert(es.push(e)[0] == es[0]);
        assert(enc_entries(es.push(e)) == enc_entry(es[0]) + seq![','] + enc_entry(e));
    } else {
        assert(es.push(e)[0] == es[0]);
        assert(es.push(e).drop_first() =~= es.drop_first().push(e));
        lemma_enc_entries_push(es.drop_first(), e);
        assert(enc_entries(es.push(e)) == enc_entry(es[0]) + seq![','] + (enc_entries(
            es.drop_first(),
        ) + seq![','] + enc_entry(e)));
        assert(enc_entry(es[0]) + seq![','] + (enc_entries(es.drop_first()) + seq![','] + enc_entry(
            e,
        )) =~= (enc_entry(es[0]) + seq![','] + enc_entries(es.drop_first())) + seq![','] + enc_entry(
            e,
        ));
    }
}

/// A snapshot's entry list has unique keys exactly when its wire value does.
pub proof fn lemma_unique_keys_view(es: Seq<(String, Note)>)
    ensures
        unique_keys(es) == keys_unique(entries_view(es)),
{
    if unique_keys(es) {
        assert forall|i: int, j: int| 0 <= i < j < entries_view(es).len() implies entries_view(
            es,
        )[i].0 != entries_view(es)[j].0 by {
            assert(es[i].0@ != es[j].0@);
        }
    }
    if keys_unique(entries_view(es)) {
        assert forall|i: int, j: int| 0 <= i < j < es.len() implies es[i].0@ != es[j].0@ by {
            assert(entries_view(es)[i].0 != entries_view(es)[j].0);
        }
    }
}

/// Two entry lists with the same wire value carry the same store map.
pub proof fn lemma_map_of_matches_view(a: Seq<(String, Note)>, b: Seq<(String, Note)>)
    requires
        entries_view(a) == entries_view(b),
    ensures
        map_of(a) == map_of(b),
    decreases a.len(),
{
    assert(entries_view(a).len() == a.len());
    assert(entries_view(b).len() == b.len());
    assert(a.len() == b.len());
    if a.len() > 0 {
        assert forall|i: int| 0 <= i < a.len() - 1 implies entries_view(a.drop_last())[i]
            == entries_view(b.drop_last())[i] by {
            assert(entries_view(a)[i] == entries_view(b)[i]);
        }
        assert(entries_view(a.drop_last()) =~= entries_view(b.drop_last()));
        lemma_map_of_matches_view(a.drop_last(), b.drop_last());
        assert(entries_view(a)[a.len() - 1] == entries_view(b)[a.len() - 1]);
        assert(a.last().0@ == b.last().0@ && a.last().1@ == b.last().1@);
    }
}

fn push_escaped(out: &mut Vec<char>, s: &String)
    ensures
        final(out)@ == old(out)@ + esc(s@),
{
    let cs = chars_of(s.as_str());
    let mut i: usize = 0;
    proof {
        assert(esc(s@.subrange(0, 0)) =~= Seq::<char>::empty());
        assert(out@ =~= out@ + esc(s@.subrange(0, 0)));
    }
    while i < cs.len()
        invariant
            i <= cs.len(),
            cs@ == s@,
            out@ == old(out)@ + esc(s@.subrange(0, i as int)),
        decreases cs.len() - i,
    {
        let c = cs[i];
        if c == '"' {
            out.push('\\');
            out.push('"');
        } else if c == '\\' {
            out.push('\\');
            out.push('\\');
        } else if c == '\n' {
            out.push('\\');
            out.push('n');
        } else {
            out.push(c);
        }
        proof {
            lemma_esc_push(s@.subrange(0, i as int), s@[i as int]);
            assert(s@.subrange(0, i as int + 1) =~= s@.subrange(0, i as int).push(s@[i as int]));
            assert(out@ =~= old(out)@ + esc(s@.subrange(0, i as int + 1)));
        }
        i = i + 1;
    }
    proof {
        assert(s@.subrange(0, cs.len() as int) =~= s@);
    }
}

fn push_enc_string(out: &mut Vec<char>, s: &String)
    ensures
        final(out)@ == old(out)@ + enc_string(s@),
{
    out.push('"');
    push_escaped(out, s);
    out.push('"');
    proof {
        assert(out@ =~= old(out)@ + enc_string(s@));
    }
}

fn push_enc_note(out: &mut Vec<char>, n: &Note)
    ensures
        final(out)@ == old(out)@ + enc_note(n@),
{
    out.push('{');
    out.push('"');
    out.push('t');
    out.push('i');
    out.push('t');
    out.push('l');
    out.push('e');
    out.push('"');
    out.push(':');
    proof {
        assert(out@ =~= old(out)@ + lit_title());
    }
    push_enc_string(out, &n.title);
    out.push(',');
    out.push('"');
    out.push('b');
    out.push('o');
    out.push('d');
    out.push('y');
    out.push('"');
    out.push(':');
    proof {
        assert(out@ =~= old(out)@ + lit_title() + enc_string(n.title@) + lit_body());
    }
    push_enc_string(out, &n.body);
    out.push('}');
    proof {
        assert(out@ =~= old(out)@ + enc_note(n@));
    }
}

/// Serialize one whole snapshot for the peer, as `enc_model` says.
pub fn encode_model(m: &Model) -> (r: String)
    ensures
        r@ == enc_model(entries_view(m.notes@)),
{
    let ghost ev = entries_view(m.notes@);
    let mut out: Vec<char> = Vec::new();
    out.push('{');
    out.push('"');
    out.push('n');
    out.push('o');
    out.push('t');
    out.push('e');
    out.push('s');
    out.push('"');
    out.push(':');
    out.push('{');
    proof {
        assert(ev.subrange(0, 0) =~= Seq::<EntryV>::empty());
        assert(out@ =~= lit_header() + enc_entries(ev.subrange(0, 0)));
    }
    let mut i: usize = 0;
    while i < m.notes.len()
        invariant
            i <= m.notes.len(),
            ev == entries_view(m.notes@),
            out@ == lit_header() + enc_entries(ev.subrange(0, i as int)),
        decreases m.notes.len() - i,
    {
        if i > 0 {
            out.push(',');
        }
        push_enc_string(&mut out, &m.notes[i].0);
        out.push(':');
        push_enc_note(&mut out, &m.notes[i].1);
        proof {
            lemma_enc_entries_push(ev.subrange(0, i as int), ev[i as int]);
            assert(ev.subrange(0, i as int + 1) =~= ev.subrange(0, i as int).push(ev[i as int]));
            assert(ev[i as int] == (m.notes@[i as int].0@, m.notes@[i as int].1@));
            assert(enc_entry(ev[i as int]) == enc_string(m.notes@[i as int].0@) + seq![':']
                + enc_note(m.notes@[i as int].1@));
            assert(out@ =~= lit_header() + enc_entries(ev.subrange(0, i as int + 1)));
        }
        i = i + 1;
    }
    out.push('}');
    out.push('}');
    proof {
        assert(ev.subrange(0, ev.len() as int) =~= ev);
        assert(out@ =~= enc_model(ev));
    }
    string_from_chars(&out)
}

/// A decoded text prefixed by already-decoded characters.
pub open spec fn opt_prepend(p: Seq<char>, o: Option<(Seq<char>, int)>) -> Option<
    (Seq<char>, int),
> {
    match o {
        Some(r) => Some((p + r.0, r.1)),
        None => None,
    }
}

fn dec_str_body_exec(buf: &Vec<char>, start: usize) -> (r: Option<(Vec<char>, usize)>)
    ensures
        match r {
            Some(t) => dec_str_body(buf@, start as int) == Some((t.0@, t.1 as int)) && t.1
                <= buf.len(),
            None => dec_str_body(buf@, start as int) is None,
        },
{
    if start >= buf.len() {
        return None;
    }
    let mut acc: Vec<char> = Vec::new();
    let mut i: usize = start;
    proof {
        if dec_str_body(buf@, start as int) is Some {
            assert(acc@ + dec_str_body(buf@, start as int).unwrap().0 =~= dec_str_body(
                buf@,
                start as int,
            ).unwrap().0);
        }
    }
    loop
        invariant
            start <= i <= buf.len(),
            dec_str_body(buf@, start as int) == opt_prepend(acc@, dec_str_body(buf@, i as int)),
        decreases buf.len() - i,
    {
        if i == buf.len() {
            return None;
        }
        let c = buf[i];
        if c == '"' {
            proof {
                assert(acc@ + Seq::<char>::empty() =~= acc@);
            }
            return Some((acc, i + 1));
        }
        let ghost acc0 = acc@;
        if c == '\\' {
            if i + 1 == buf.len() {
                return None;
            }
            let e = buf[i + 1];
            let u: char;
            if e == '"' {
                u = '"';
            } else if e == '\\' {
                u = '\\';
            } else if e == 'n' {
                u = '\n';
            } else {
                proof {
                    assert(unesc_char(buf@[i as int + 1]) is None);
                }
                return None;
            }
            acc.push(u);
            proof {
                assert(unesc_char(buf@[i as int + 1]) == Some(u));
                if dec_str_body(buf@, i as int + 2) is Some {
                    let rr = dec_str_body(buf@, i as int + 2).unwrap();
                    assert(dec_str_body(buf@, i as int) == Some((seq![u] + rr.0, rr.1)));
                    assert(acc0 + (seq![u] + rr.0) =~= acc0.push(u) + rr.0);
                } else {
                    assert(dec_str_body(buf@, i as int) is None);
                }
            }
            i = i + 2;
        } else {
            acc.push(c);
            proof {
                if dec_str_body(buf@, i as int + 1) is Some {
                    let rr = dec_str_body(buf@, i as int + 1).unwrap();
                    assert(dec_str_body(buf@, i as int) == Some((seq![c] + rr.0, rr.1)));
                    assert(acc0 + (seq![c] + rr.0) =~= acc0.push(c) + rr.0);
                } else {
                    assert(dec_str_body(buf@, i as int) is None);
                }
            }
            i = i + 1;
        }
    }
}

fn has_lit_exec(buf: &Vec<char>, i: usize, pat: &Vec<char>) -> (r: bool)
    ensures
        r == has_lit(buf@, i as int, pat@),
{
    if i > buf.len() || buf.len() - i < pat.len() {
        return false;
    }
    let mut k: usize = 0;
    while k < pat.len()
        invariant
            k <= pat.len(),
            i + pat.len() <= buf.len(),
            forall|q: int| 0 <= q < k ==> buf@[i + q] == pat@[q],
        decreases pat.len() - k,
    {
        if buf[i + k] != pat[k] {
            proof {
                if has_lit(buf@, i as int, pat@) {
                    lemma_has_lit_index(buf@, i as int, pat@, k as int);
                }
            }
            return false;
        }
        k = k + 1;
    }
    proof {
        assert(buf@.subrange(i as int, i as int + pat@.len() as int) =~= pat@);
    }
    true
}

fn lit_title_vec() -> (v: Vec<char>)
    ensures
        v@ == lit_title(),
{
    let mut v: Vec<char> = Vec::new();
    v.push('{');
    v.push('"');
    v.push('t');
    v.push('i');
    v.push('t');
    v.push('l');
    v.push('e');
    v.push('"');
    v.push(':');
    proof {
        assert(v@ =~= lit_title());
    }
    v
}

fn lit_body_vec() -> (v: Vec<char>)
    ensures
        v@ == lit_body(),
{
    let mut v: Vec<char> = Vec::new();
    v.push(',');
    v.push('"');
    v.push('b');
    v.push('o');
    v.push('d');
    v.push('y');
    v.push('"');
    v.push(':');
    proof {
        assert(v@ =~= lit_body());
    }
    v
}

fn lit_header_vec() -> (v: Vec<char>)
    ensures
        v@ == lit_header(),
{
    let mut v: Vec<char> = Vec::new();
    v.push('{');
    v.push('"');
    v.push('n');
    v.push('o');
    v.push('t');
    v.push('e');
    v.push('s');
    v.push('"');
    v.push(':');
    v.push('{');
    proof {
        assert(v@ =~= lit_header());
    }
    v
}

fn dec_string_exec(buf: &Vec<char>, i: usize) -> (r: Option<(Vec<char>, usize)>)
    ensures
        match r {
            Some(t) => dec_string(buf@, i as int) == Some((t.0@, t.1 as int)) && t.1 <= buf.len(),
            None => dec_string(buf@, i as int) is None,
        },
{
    if i < buf.len() && buf[i] == '"' {
        dec_str_body_exec(buf, i + 1)
    } else {
        None
    }
}

fn dec_note_exec(buf: &Vec<char>, i: usize) -> (r: Option<(Note, usize)>)
    ensures
        match r {
            Some(t) => dec_note(buf@, i as int) == Some((t.0@, t.1 as int)) && t.1 <= buf.len(),
            None => dec_note(buf@, i as int) is None,
        },
{
    let litt = lit_title_vec();
    if !has_lit_exec(buf, i, &litt) {
        return None;
    }
    let n: usize = buf.len();
    proof {
        assert(lit_title().len() == 9);
        assert(i + 9 <= n);
    }
    match dec_string_exec(buf, i + 9) {
        None => None,
        Some((t, j)) => {
            let litb = lit_body_vec();
            if !has_lit_exec(buf, j, &litb) {
                return None;
            }
            proof {
                assert(lit_body().len() == 8);
            }
            match dec_string_exec(buf, j + 8) {
                None => None,
                Some((b, k)) => {
                    if k < buf.len() && buf[k] == '}' {
                        let title = string_from_chars(&t);
                        let body = string_from_chars(&b);
                        Some((Note { title, body }, k + 1))
                    } else {
                        None
                    }
                },
            }
        },
    }
}

fn dec_entry_exec(buf: &Vec<char>, i: usize) -> (r: Option<((String, Note), usize)>)
    ensures
        match r {
            Some(t) => dec_entry(buf@, i as int) == Some(((t.0.0@, t.0.1@), t.1 as int)) && t.1
                <= buf.len(),
            None => dec_entry(buf@, i as int) is None,
        },
{
    match dec_string_exec(buf, i) {
        None => None,
        Some((k, j)) => {
            if j < buf.len() && buf[j] == ':' {
                match dec_note_exec(buf, j + 1) {
                    None => None,
                    Some((n, l)) => Some(((string_from_chars(&k), n), l)),
                }
            } else {
                None
            }
        },
    }
}

/// A decoded entry list prefixed by already-decoded entries.
pub open spec fn opt_prepend_entries(p: Seq<EntryV>, o: Option<(Seq<EntryV>, int)>) -> Option<
    (Seq<EntryV>, int),
> {
    match o {
        Some(r) => Some((p + r.0, r.1)),
        None => None,
    }
}

fn dec_entries_exec(buf: &Vec<char>, start: usize) -> (r: Option<(Vec<(String, Note)>, usize)>)
    ensures
        match r {
            Some(t) => dec_entries(buf@, start as int) == Some((entries_view(t.0@), t.1 as int))
                && t.1 <= buf.len(),
            None => dec_entries(buf@, start as int) is None,
        },
{
    if start > buf.len() {
        return None;
    }
    let mut acc: Vec<(String, Note)> = Vec::new();
    let mut i: usize = start;
    proof {
        if dec_entries(buf@, start as int) is Some {
            assert(entries_view(acc@) =~= Seq::<EntryV>::empty());
            assert(entries_view(acc@) + dec_entries(buf@, start as int).unwrap().0 =~= dec_entries(
                buf@,
                start as int,
            ).unwrap().0);
        }
    }
    loop
        invariant
            start <= i <= buf.len(),
            dec_entries(buf@, start as int) == opt_prepend_entries(
                entries_view(acc@),
                dec_entries(buf@, i as int),
            ),
        decreases buf.len() - i,
    {
        match dec_entry_exec(buf, i) {
            None => {
                return None;
            },
            Some((e, j)) => {
                proof {
                    lemma_dec_entry_advance(buf@, i as int);
                }
                let ghost acc0 = acc@;
                let ghost ev = (e.0@, e.1@);
                if j < buf.len() && buf[j] == ',' {
                    acc.push(e);
                    proof {
                        assert(entries_view(acc@) =~= entries_view(acc0).push(ev));
                        if dec_entries(buf@, j as int + 1) is Some {
                            let rr = dec_entries(buf@, j as int + 1).unwrap();
                            assert(dec_entries(buf@, i as int) == Some((seq![ev] + rr.0, rr.1)));
                            assert(entries_view(acc0) + (seq![ev] + rr.0) =~= entries_view(
                                acc0,
                            ).push(ev) + rr.0);
                        } else {
                            assert(dec_entries(buf@, i as int) is None);
                        }
                    }
                    i = j + 1;
                } else {
                    acc.push(e);
                    proof {
                        assert(entries_view(acc@) =~= entries_view(acc0).push(ev));
                        assert(dec_entries(buf@, i as int) == Some((seq![ev], j as int)));
                        assert(entries_view(acc0) + seq![ev] =~= entries_view(acc0).push(ev));
                    }
                    return Some((acc, j));
                }
            },
        }
    }
}

/// Decode exactly one snapshot from `buf` at `start`: on success the store
/// holds exactly the encoded entries and the returned position sits on the
/// start of whatever follows, so back-to-back values decode one by one.
pub fn decode_model(buf: &Vec<char>, start: usize) -> (r: Option<(Model, usize)>)
    ensures
        match r {
            Some(t) => t.0.wf() && dec_model(buf@, start as int) == Some((
                entries_view(t.0.notes@),
                t.1 as int,
            )) && t.1 <= buf.len(),
            None => dec_model(buf@, start as int) is None,
        },
{
    let hdr = lit_header_vec();
    if !has_lit_exec(buf, start, &hdr) {
        return None;
    }
    let n: usize = buf.len();
    proof {
        assert(lit_header().len() == 10);
        assert(start + 10 <= n);
    }
    let p: usize = start + 10;
    if p < buf.len() && buf[p] == '}' {
        if p + 1 < buf.len() && buf[p + 1] == '}' {
            let notes: Vec<(String, Note)> = Vec::new();
            proof {
                assert(entries_view(notes@) =~= Seq::<EntryV>::empty());
            }
            return Some((Model { notes }, p + 2));
        } else {
            return None;
        }
    }
    match dec_entries_exec(buf, p) {
        None => None,
        Some((es, j)) => {
            if j < buf.len() && j + 1 < buf.len() && buf[j] == '}' && buf[j + 1] == '}' {
                let m = Model { notes: es };
                if m.well_formed() {
                    proof {
                        lemma_unique_keys_view(m.notes@);
                    }
                    Some((m, j + 2))
                } else {
                    proof {
                        lemma_unique_keys_view(m.notes@);
                    }
                    None
                }
            } else {
                None
            }
        },
    }
}

} // verus!
