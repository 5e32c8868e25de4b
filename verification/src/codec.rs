//! The note codec: parse file content into a title/body pair and render a
//! pair back into file content. Rendering always emits exactly one blank line
//! between title and body, while parsing absorbs any run of leading blank
//! lines, so a render/parse round trip is idempotent rather than
//! byte-identical for arbitrary hand-written input.

use vstd::prelude::*;
use vstd::string::*;
use crate::model::{Note, NoteV};

verus! {

/// Index of the first `'\n'` in a text, or its length when there is none.
pub open spec fn first_nl(s: Seq<char>) -> int
    decreases s.len(),
{
    if s.len() == 0 {
        0
    } else if s[0] == '\n' {
        0
    } else {
        1 + first_nl(s.drop_first())
    }
}

pub proof fn lemma_first_nl(s: Seq<char>)
    ensures
        0 <= first_nl(s) <= s.len(),
        forall|j: int| 0 <= j < first_nl(s) ==> s[j] != '\n',
        first_nl(s) < s.len() ==> s[first_nl(s)] == '\n',
    decreases s.len(),
{
    if s.len() > 0 && s[0] != '\n' {
        lemma_first_nl(s.drop_first());
        assert forall|j: int| 0 <= j < first_nl(s) implies s[j] != '\n' by {
            if j > 0 {
                assert(s.drop_first()[j - 1] == s[j]);
            }
        }
        if first_nl(s) < s.len() {
            assert(s.drop_first()[first_nl(s) - 1] == s[first_nl(s)]);
        }
    }
}

#[via_fn]
proof fn split_lines_dec(s: Seq<char>) {
    lemma_first_nl(s);
}

/// The lines of a text, split on `'\n'`; always at least one line, and a
/// trailing newline yields a trailing empty line.
pub open spec fn split_lines(s: Seq<char>) -> Seq<Seq<char>>
    decreases s.len(),
        via split_lines_dec
{
    let i = first_nl(s);
    if i == s.len() {
        seq![s]
    } else {
        seq![s.subrange(0, i)] + split_lines(s.subrange(i + 1, s.len() as int))
    }
}

/// Lines joined with `'\n'`.
pub open spec fn join_lines(ls: Seq<Seq<char>>) -> Seq<char>
    decreases ls.len(),
{
    if ls.len() == 0 {
        Seq::<char>::empty()
    } else if ls.len() == 1 {
        ls[0]
    } else {
        ls[0] + seq!['\n'] + join_lines(ls.drop_first())
    }
}

/// The lines with every leading empty line dropped.
pub open spec fn skip_empty(ls: Seq<Seq<char>>) -> Seq<Seq<char>>
    decreases ls.len(),
{
    if ls.len() == 0 {
        ls
    } else if ls[0].len() == 0 {
        skip_empty(ls.drop_first())
    } else {
        ls
    }
}

/// What parsing yields: with more than one line, the first line is the title
/// and the remaining lines, less any leading empty ones, joined again are the
/// body; with exactly one line, the title is empty and the body is the whole
/// content verbatim.
pub open spec fn parse_spec(s: Seq<char>) -> NoteV {
    let lines = split_lines(s);
    if lines.len() > 1 {
        NoteV { title: lines[0], body: join_lines(skip_empty(lines.drop_first())) }
    } else {
        NoteV { title: Seq::<char>::empty(), body: s }
    }
}

/// What rendering yields: the title line, one blank line, then the body.
pub open spec fn render_spec(n: NoteV) -> Seq<char> {
    n.title + seq!['\n', '\n'] + n.body
}

/// A line, as split off: it holds no newline.
pub open spec fn no_nl(l: Seq<char>) -> bool {
    forall|i: int| 0 <= i < l.len() ==> l[i] != '\n'
}

/// Every line that splitting produces is newline-free.
pub proof fn lemma_split_lines_no_nl(s: Seq<char>)
    ensures
        forall|i: int| 0 <= i < split_lines(s).len() ==> no_nl(#[trigger] split_lines(s)[i]),
    decreases s.len(),
{
    lemma_first_nl(s);
    let k = first_nl(s);
    if k == s.len() {
        assert(no_nl(split_lines(s)[0]));
    } else {
        lemma_split_lines_no_nl(s.subrange(k + 1, s.len() as int));
        assert(no_nl(split_lines(s)[0]));
        assert forall|i: int| 0 <= i < split_lines(s).len() implies no_nl(
            #[trigger] split_lines(s)[i],
        ) by {
            if i > 0 {
                assert(split_lines(s)[i] == split_lines(s.subrange(k + 1, s.len() as int))[i - 1]);
            }
        }
    }
}

/// In a text that starts with a newline-free prefix followed by `'\n'`, the
/// first newline sits exactly after the prefix.
pub proof fn lemma_first_nl_prefix(t: Seq<char>, r: Seq<char>)
    requires
        no_nl(t),
    ensures
        first_nl(t + seq!['\n'] + r) == t.len(),
    decreases t.len(),
{
    let s = t + seq!['\n'] + r;
    if t.len() == 0 {
        assert(s[0] == '\n');
    } else {
        assert(s[0] == t[0]);
        assert(no_nl(t.drop_first()));
        lemma_first_nl_prefix(t.drop_first(), r);
        assert(s.drop_first() =~= t.drop_first() + seq!['\n'] + r);
    }
}

/// Splitting a newline-free line, a separator, and a rest splits off that line.
pub proof fn lemma_split_concat(t: Seq<char>, r: Seq<char>)
    requires
        no_nl(t),
    ensures
        split_lines(t + seq!['\n'] + r) == seq![t] + split_lines(r),
{
    let s = t + seq!['\n'] + r;
    lemma_first_nl_prefix(t, r);
    assert(first_nl(s) == t.len() < s.len());
    assert(s.subrange(0, t.len() as int) =~= t);
    assert(s.subrange(t.len() as int + 1, s.len() as int) =~= r);
}

/// Splitting undoes joining, for any nonempty list of newline-free lines.
pub proof fn lemma_split_join(ls: Seq<Seq<char>>)
    requires
        ls.len() >= 1,
        forall|i: int| 0 <= i < ls.len() ==> no_nl(#[trigger] ls[i]),
    ensures
        split_lines(join_lines(ls)) == ls,
    decreases ls.len(),
{
    if ls.len() == 1 {
        let l = ls[0];
        lemma_first_nl(l);
        assert(first_nl(l) == l.len());
        assert(split_lines(l) =~= ls);
    } else {
        assert(join_lines(ls) == ls[0] + seq!['\n'] + join_lines(ls.drop_first()));
        lemma_split_concat(ls[0], join_lines(ls.drop_first()));
        assert(forall|i: int|
            0 <= i < ls.drop_first().len() ==> no_nl(#[trigger] ls.drop_first()[i]));
        lemma_split_join(ls.drop_first());
        assert(seq![ls[0]] + ls.drop_first() =~= ls);
    }
}

/// What `skip_empty` keeps: a suffix that starts with a nonempty line, whose
/// elements all come from the input.
pub proof fn lemma_skip_empty_first(ls: Seq<Seq<char>>)
    ensures
        skip_empty(ls).len() > 0 ==> skip_empty(ls)[0].len() != 0,
    decreases ls.len(),
{
    if ls.len() > 0 && ls[0].len() == 0 {
        lemma_skip_empty_first(ls.drop_first());
    }
}

pub proof fn lemma_skip_empty_no_nl(ls: Seq<Seq<char>>)
    requires
        forall|i: int| 0 <= i < ls.len() ==> no_nl(#[trigger] ls[i]),
    ensures
        forall|i: int| 0 <= i < skip_empty(ls).len() ==> no_nl(#[trigger] skip_empty(ls)[i]),
    decreases ls.len(),
{
    if ls.len() > 0 && ls[0].len() == 0 {
        assert(forall|i: int|
            0 <= i < ls.drop_first().len() ==> no_nl(#[trigger] ls.drop_first()[i]));
        lemma_skip_empty_no_nl(ls.drop_first());
        assert(skip_empty(ls) == skip_empty(ls.drop_first()));
    } else {
        assert(skip_empty(ls) == ls);
        assert forall|i: int| 0 <= i < skip_empty(ls).len() implies no_nl(
            #[trigger] skip_empty(ls)[i],
        ) by {
            assert(skip_empty(ls)[i] == ls[i]);
        }
    }
}

/// Parsing is idempotent after the first normalization: for any content of at
/// least two lines, rendering its parse and parsing again yields the same
/// note as parsing it directly.
pub proof fn lemma_parse_render_idempotent(s: Seq<char>)
    requires
        split_lines(s).len() >= 2,
    ensures
        parse_spec(render_spec(parse_spec(s))) == parse_spec(s),
{
    let lines = split_lines(s);
    lemma_split_lines_no_nl(s);
    let t = lines[0];
    let rest = lines.drop_first();
    assert(forall|i: int| 0 <= i < rest.len() ==> no_nl(#[trigger] rest[i]));
    let ls0 = skip_empty(rest);
    let b = join_lines(ls0);
    lemma_skip_empty_no_nl(rest);
    lemma_skip_empty_first(rest);
    let r = render_spec(parse_spec(s));
    assert(r =~= t + seq!['\n'] + (seq!['\n'] + b));
    lemma_split_concat(t, seq!['\n'] + b);
    assert(seq!['\n'] + b =~= Seq::<char>::empty() + seq!['\n'] + b);
    lemma_split_concat(Seq::<char>::empty(), b);
    let sl = split_lines(r);
    assert(sl == seq![t] + (seq![Seq::<char>::empty()] + split_lines(b)));
    assert(sl.len() >= 3);
    assert(sl[0] == t);
    assert(sl.drop_first() =~= seq![Seq::<char>::empty()] + split_lines(b));
    assert(sl.drop_first()[0].len() == 0);
    assert(sl.drop_first().drop_first() =~= split_lines(b));
    assert(skip_empty(sl.drop_first()) == skip_empty(split_lines(b)));
    if ls0.len() == 0 {
        assert(b =~= Seq::<char>::empty());
        lemma_first_nl(b);
        assert(split_lines(b) =~= seq![Seq::<char>::empty()]);
        let one = seq![Seq::<char>::empty()];
        assert(one.drop_first() =~= Seq::<Seq<char>>::empty());
        assert(skip_empty(one) == skip_empty(one.drop_first()));
        assert(skip_empty(one.drop_first()) =~= Seq::<Seq<char>>::empty());
        assert(skip_empty(split_lines(b)) =~= Seq::<Seq<char>>::empty());
        assert(join_lines(skip_empty(split_lines(b))) == b);
    } else {
        lemma_split_join(ls0);
        assert(split_lines(b) == ls0);
        assert(ls0[0].len() != 0);
        assert(skip_empty(split_lines(b)) == ls0);
        assert(join_lines(skip_empty(split_lines(b))) == b);
    }
    assert(parse_spec(r).title == t);
    assert(parse_spec(r).body == b);
}

/// `first_nl` is the unique position with no newline before it and, unless it
/// is the length, a newline at it.
pub proof fn lemma_first_nl_is(s: Seq<char>, k: int)
    requires
        0 <= k <= s.len(),
        forall|j: int| 0 <= j < k ==> s[j] != '\n',
        k < s.len() ==> s[k] == '\n',
    ensures
        first_nl(s) == k,
    decreases s.len(),
{
    if s.len() == 0 {
    } else if s[0] == '\n' {
        assert(k == 0);
    } else {
        assert(k >= 1);
        assert forall|j: int| 0 <= j < k - 1 implies s.drop_first()[j] != '\n' by {
            assert(s.drop_first()[j] == s[j + 1]);
        }
        lemma_first_nl_is(s.drop_first(), k - 1);
    }
}

/// Joining one more line appends a separator and that line.
pub proof fn lemma_join_push(ls: Seq<Seq<char>>, x: Seq<char>)
    ensures
        join_lines(ls.push(x)) == (if ls.len() == 0 {
            x
        } else {
            join_lines(ls) + seq!['\n'] + x
        }),
    decreases ls.len(),
{
    if ls.len() == 0 {
        assert(ls.push(x)[0] == x);
        assert(join_lines(ls.push(x)) == x);
    } else if ls.len() == 1 {
        assert(ls.push(x).drop_first() =~= seq![x]);
        assert(join_lines(seq![x]) == x);
        assert(ls.push(x)[0] == ls[0]);
        assert(join_lines(ls.push(x)) == ls[0] + seq!['\n'] + x);
        assert(join_lines(ls) + seq!['\n'] + x == ls[0] + seq!['\n'] + x);
    } else {
        assert(ls.push(x).drop_first() =~= ls.drop_first().push(x));
        lemma_join_push(ls.drop_first(), x);
        assert(join_lines(ls.push(x)) == ls[0] + seq!['\n'] + (join_lines(ls.drop_first())
            + seq!['\n'] + x));
        assert(ls[0] + seq!['\n'] + (join_lines(ls.drop_first()) + seq!['\n'] + x) =~= (ls[0]
            + seq!['\n'] + join_lines(ls.drop_first())) + seq!['\n'] + x);
    }
}

/// `skip_empty` keeps exactly the suffix from the first nonempty line on.
pub proof fn lemma_skip_empty_at(ls: Seq<Seq<char>>, j: int)
    requires
        0 <= j <= ls.len(),
        forall|k: int| 0 <= k < j ==> ls[k].len() == 0,
        j < ls.len() ==> ls[j].len() != 0,
    ensures
        skip_empty(ls) == ls.subrange(j, ls.len() as int),
    decreases ls.len(),
{
    if j == 0 {
        if ls.len() == 0 {
            assert(ls.subrange(0, 0) =~= ls);
        } else {
            assert(ls[0].len() != 0);
            assert(ls.subrange(0, ls.len() as int) =~= ls);
        }
    } else {
        assert(ls[0].len() == 0);
        assert forall|k: int| 0 <= k < j - 1 implies ls.drop_first()[k].len() == 0 by {
            assert(ls.drop_first()[k] == ls[k + 1]);
        }
        lemma_skip_empty_at(ls.drop_first(), j - 1);
        assert(ls.drop_first().subrange(j - 1, ls.drop_first().len() as int) =~= ls.subrange(
            j,
            ls.len() as int,
        ));
    }
}

/// The characters of a text, in order.
pub fn chars_of(s: &str) -> (r: Vec<char>)
    ensures
        r@ == s@,
{
    let n = s.unicode_len();
    let mut r: Vec<char> = Vec::new();
    let mut i: usize = 0;
    while i < n
        invariant
            i <= n,
            n == s@.len(),
            r@ =~= s@.subrange(0, i as int),
        decreases n - i,
    {
        let c = s.get_char(i);
        r.push(c);
        i = i + 1;
    }
    proof {
        assert(r@ =~= s@);
    }
    r
}

/// Relies on `String: FromIterator<char>`: the collected string holds exactly
/// the given characters, in order.
#[verifier::external_body]
pub fn string_from_chars(v: &Vec<char>) -> (r: String)
    ensures
        r@ == v@,
{
    v.iter().collect()
}

/// A copy of the characters from `from` (inclusive) to `to` (exclusive).
fn subvec(cs: &Vec<char>, from: usize, to: usize) -> (r: Vec<char>)
    requires
        from <= to <= cs.len(),
    ensures
        r@ == cs@.subrange(from as int, to as int),
{
    let mut r: Vec<char> = Vec::new();
    let mut i: usize = from;
    while i < to
        invariant
            from <= i <= to <= cs.len(),
            r@ =~= cs@.subrange(from as int, i as int),
        decreases to - i,
    {
        r.push(cs[i]);
        i = i + 1;
    }
    proof {
        assert(r@ =~= cs@.subrange(from as int, to as int));
    }
    r
}

/// The text split into lines on `'\n'`.
fn split_lines_exec(cs: &Vec<char>) -> (r: Vec<Vec<char>>)
    ensures
        r.deep_view() == split_lines(cs@),
{
    let mut r: Vec<Vec<char>> = Vec::new();
    let mut start: usize = 0;
    proof {
        assert(cs@.subrange(0, cs.len() as int) =~= cs@);
        assert(r.deep_view() =~= Seq::<Seq<char>>::empty());
        assert(split_lines(cs@) =~= r.deep_view() + split_lines(cs@));
    }
    loop
        invariant_except_break
            start <= cs.len(),
            split_lines(cs@) =~= r.deep_view() + split_lines(
                cs@.subrange(start as int, cs.len() as int),
            ),
        ensures
            r.deep_view() == split_lines(cs@),
        decreases cs.len() - start,
    {
        let ghost suf = cs@.subrange(start as int, cs.len() as int);
        let mut j: usize = start;
        while j < cs.len() && cs[j] != '\n'
            invariant
                start <= j <= cs.len(),
                forall|k: int| start <= k < j ==> cs@[k] != '\n',
            decreases cs.len() - j,
        {
            j = j + 1;
        }
        proof {
            assert forall|k: int| 0 <= k < j - start implies suf[k] != '\n' by {
                assert(suf[k] == cs@[start + k]);
            }
            if (j as int) < cs.len() as int {
                assert(suf[j - start] == cs@[j as int]);
            }
            lemma_first_nl_is(suf, j - start);
        }
        let line = subvec(cs, start, j);
        let ghost r0 = r.deep_view();
        proof {
            assert(line.deep_view() =~= line@);
            assert(line@ =~= suf.subrange(0, j - start));
        }
        r.push(line);
        proof {
            assert(r.deep_view() =~= r0.push(suf.subrange(0, j - start)));
        }
        if j == cs.len() {
            proof {
                assert(first_nl(suf) == suf.len());
                assert(split_lines(suf) =~= seq![suf]);
                assert(suf.subrange(0, j - start) =~= suf);
                assert(r.deep_view() =~= r0 + seq![suf]);
                assert(r.deep_view() =~= split_lines(cs@));
            }
            return r;
        }
        proof {
            assert(first_nl(suf) == j - start < suf.len());
            assert(split_lines(suf) == seq![suf.subrange(0, j - start)] + split_lines(
                suf.subrange(j - start + 1, suf.len() as int),
            ));
            assert(suf.subrange(j - start + 1, suf.len() as int) =~= cs@.subrange(
                j as int + 1,
                cs.len() as int,
            ));
            assert(split_lines(cs@) =~= r.deep_view() + split_lines(
                cs@.subrange(j as int + 1, cs.len() as int),
            ));
        }
        start = j + 1;
    }
}

/// The lines from index `j` on, joined with `'\n'`.
fn join_from(lines: &Vec<Vec<char>>, j: usize) -> (r: Vec<char>)
    requires
        j <= lines.len(),
    ensures
        r@ == join_lines(lines.deep_view().subrange(j as int, lines.len() as int)),
{
    let ghost ld = lines.deep_view();
    let mut r: Vec<char> = Vec::new();
    let mut k: usize = j;
    proof {
        assert(ld.subrange(j as int, j as int) =~= Seq::<Seq<char>>::empty());
    }
    while k < lines.len()
        invariant
            j <= k <= lines.len(),
            ld == lines.deep_view(),
            r@ == join_lines(ld.subrange(j as int, k as int)),
        decreases lines.len() - k,
    {
        if k > j {
            r.push('\n');
        }
        let ghost r0 = r@;
        let line = &lines[k];
        let mut t: usize = 0;
        while t < line.len()
            invariant
                t <= line.len(),
                r@ =~= r0 + line@.subrange(0, t as int),
            decreases line.len() - t,
        {
            r.push(line[t]);
            t = t + 1;
        }
        proof {
            assert(line@ =~= ld[k as int]);
            assert(r@ =~= r0 + ld[k as int]);
            lemma_join_push(ld.subrange(j as int, k as int), ld[k as int]);
            assert(ld.subrange(j as int, k as int + 1) =~= ld.subrange(j as int, k as int).push(
                ld[k as int],
            ));
            if k == j {
                assert(r@ =~= join_lines(ld.subrange(j as int, k as int + 1)));
            } else {
                assert(r0 =~= join_lines(ld.subrange(j as int, k as int)) + seq!['\n']);
                assert(r@ =~= join_lines(ld.subrange(j as int, k as int)) + seq!['\n']
                    + ld[k as int]);
                assert(r@ =~= join_lines(ld.subrange(j as int, k as int + 1)));
            }
        }
        k = k + 1;
    }
    r
}

/// Parse file content into a note, as `parse_spec` says.
pub fn parse(content: &str) -> (r: Note)
    ensures
        r@ == parse_spec(content@),
{
    let cs = chars_of(content);
    let lines = split_lines_exec(&cs);
    let ghost ld = lines.deep_view();
    if lines.len() > 1 {
        let mut j: usize = 1;
        while j < lines.len() && lines[j].len() == 0
            invariant
                1 <= j <= lines.len(),
                ld == lines.deep_view(),
                forall|k: int| 1 <= k < j ==> ld[k].len() == 0,
            decreases lines.len() - j,
        {
            proof {
                assert(lines[j as int]@ =~= ld[j as int]);
            }
            j = j + 1;
        }
        proof {
            if (j as int) < ld.len() {
                assert(lines[j as int]@ =~= ld[j as int]);
            }
            let rest = ld.drop_first();
            assert forall|k: int| 0 <= k < j - 1 implies rest[k].len() == 0 by {
                assert(rest[k] == ld[k + 1]);
            }
            if j - 1 < rest.len() {
                assert(rest[j - 1] == ld[j as int]);
            }
            lemma_skip_empty_at(rest, j - 1);
            assert(rest.subrange(j - 1, rest.len() as int) =~= ld.subrange(
                j as int,
                ld.len() as int,
            ));
        }
        let body = join_from(&lines, j);
        let title = string_from_chars(&lines[0]);
        proof {
            assert(lines[0]@ =~= ld[0]);
        }
        Note { title, body: string_from_chars(&body) }
    } else {
        proof {
            assert(cs@ == content@);
        }
        Note { title: String::new(), body: content.to_owned() }
    }
}

/// Render a note back to file content: the title line, one blank line, the body.
pub fn render(note: &Note) -> (r: String)
    ensures
        r@ == render_spec(note@),
{
    let mut out = note.title.clone();
    out.append("\n\n");
    out.append(note.body.as_str());
    proof {
        reveal_strlit("\n\n");
        assert("\n\n"@ =~= seq!['\n', '\n']);
        assert(out@ =~= render_spec(note@));
    }
    out
}

/// The files a snapshot materializes to: each note rendered under its key,
/// in the snapshot's own order. The caller only writes these pairs out.
pub fn render_workspace(m: &crate::model::Model) -> (r: Vec<(String, String)>)
    ensures
        r@.len() == m.notes@.len(),
        forall|i: int|
            0 <= i < r@.len() ==> (#[trigger] r@[i]).0@ == m.notes@[i].0@ && r@[i].1@
                == render_spec(m.notes@[i].1@),
{
    let mut r: Vec<(String, String)> = Vec::new();
    let mut i: usize = 0;
    while i < m.notes.len()
        invariant
            i <= m.notes.len(),
            r@.len() == i,
            forall|j: int|
                0 <= j < i ==> (#[trigger] r@[j]).0@ == m.notes@[j].0@ && r@[j].1@ == render_spec(
                    m.notes@[j].1@,
                ),
        decreases m.notes.len() - i,
    {
        let entry = &m.notes[i];
        r.push((entry.0.clone(), render(&entry.1)));
        i = i + 1;
    }
    r
}

/// The one way reading a file's content can fail: it is not valid text.
#[derive(Debug)]
pub enum DecodeError {
    NotText,
}

/// The characters of a byte sequence read as text, when the bytes are valid
/// UTF-8; they depend on the bytes alone.
pub uninterp spec fn utf8_decode(bytes: Seq<u8>) -> Option<Seq<char>>;

/// Relies on `core::str::from_utf8`: it returns `Ok` exactly on valid UTF-8,
/// and the decoded characters are a function of the bytes alone.
#[verifier::external_body]
fn utf8_to_text(bytes: &Vec<u8>) -> (r: Option<String>)
    ensures
        match r {
            Some(s) => utf8_decode(bytes@) == Some(s@),
            None => utf8_decode(bytes@) is None,
        },
{
    match core::str::from_utf8(bytes.as_slice()) {
        Ok(s) => Some(s.to_owned()),
        Err(_) => None,
    }
}

/// Parse raw file bytes: content that is not valid text is rejected, valid
/// text is parsed as `parse_spec` says.
pub fn decode_note(bytes: &Vec<u8>) -> (r: Result<Note, DecodeError>)
    ensures
        match r {
            Ok(n) => utf8_decode(bytes@) is Some && n@ == parse_spec(utf8_decode(bytes@).unwrap()),
            Err(e) => utf8_decode(bytes@) is None && e == DecodeError::NotText,
        },
{
    match utf8_to_text(bytes) {
        Some(text) => Ok(parse(text.as_str())),
        None => Err(DecodeError::NotText),
    }
}

} // verus!
