//! The text edits of the write path: appending a journal entry, replacing the text
//! at an anchor, and toggling a task marker. Each takes the file's text and gives
//! the new text; reading and writing the file is left to the caller.

use vstd::prelude::*;
use vstd::utf8::*;
use vstd::string::*;

use crate::extract::{find_chars, find_from, lemma_find_from};
use crate::front_matter::{fm_insert, fm_keys, fm_map};
use crate::index::sorted_keys;
use crate::model::{FrontMatter, FrontMatterPatch, FrontMatterValue, FrontMatterValueView, pairs_view, texts_view, EntryView, InlineReferenceView, PageKey, ParsedDocument, ReferenceKind, SourceAnchor, Span, Task, entries_view, references_view};
use crate::parser::{blen, trim_end};
use crate::domain::parser::is_white_space_char;
use crate::text::{
    at_boundary, byte_len, byte_offset, char_byte_offsets, lemma_boundary, lemma_byte_offset_mono, lemma_decode_of_str,
    lemma_offset_boundary, lemma_str_bytes, lemma_str_valid, replace_byte_range, slice_str, str_chars, utf8_of,
};

verus! {

/// Why a write could not be made.
#[derive(Debug, Clone, PartialEq, Eq)]
pub enum WriteError {
    /// A file could not be read or written; the text says why.
    Io(String),
    /// The text at an anchor is no longer what it was.
    StaleAnchor(String),
    Conflict(String),
    InvalidInput(String),
}

impl WriteError {
    /// The text of the error.
    pub fn message(&self) -> (r: String)
        ensures
            r@ == match self {
                WriteError::Io(m) => m@,
                WriteError::StaleAnchor(m) => m@,
                WriteError::Conflict(m) => m@,
                WriteError::InvalidInput(m) => m@,
            },
    {
        match self {
            WriteError::Io(m) => m.clone(),
            WriteError::StaleAnchor(m) => m.clone(),
            WriteError::Conflict(m) => m.clone(),
            WriteError::InvalidInput(m) => m.clone(),
        }
    }
}

/// Whether `s` ends with a blank line break.
pub open spec fn ends_blank(s: Seq<char>) -> bool {
    s.len() >= 2 && s[s.len() - 2] == '\n' && s[s.len() - 1] == '\n'
}

/// A journal file's text after appending `markdown`: a blank line separates it
/// from earlier text, its trailing white space goes, and a line break ends it.
pub open spec fn journal_entry_text(existing: Seq<char>, markdown: Seq<char>) -> Seq<char> {
    let sep = if existing.len() == 0 || ends_blank(existing) {
        seq![]
    } else if existing.last() == '\n' {
        seq!['\n']
    } else {
        seq!['\n', '\n']
    };
    existing + sep + trim_end(markdown) + seq!['\n']
}

/// The text of a journal file after appending `markdown` to `existing`.
pub fn append_journal_text(existing: &str, markdown: &str) -> (r: String)
    ensures
        r@ == journal_entry_text(existing@, markdown@),
{
    let e = str_chars(existing);
    let m = str_chars(markdown);
    let mut out = existing.to_owned();
    let n = e.len();
    if n > 0 && !(n >= 2 && e[n - 2] == '\n' && e[n - 1] == '\n') {
        if e[n - 1] == '\n' {
            crate::text::push_char(&mut out, '\n');
        } else {
            crate::text::push_char(&mut out, '\n');
            crate::text::push_char(&mut out, '\n');
        }
    }
    let mut k = m.len();
    while k > 0 && is_white_space_char(m[k - 1])
        invariant
            k <= m@.len(),
            crate::domain::parser::trail_ws_start(m@, 0, m@.len() as int) == crate::domain::parser::trail_ws_start(
                m@,
                0,
                k as int,
            ),
        decreases k,
    {
        k = k - 1;
    }
    let mut i: usize = 0;
    let ghost before = out@;
    while i < k
        invariant
            i <= k <= m@.len(),
            out@ == before + m@.take(i as int),
        decreases k - i,
    {
        crate::text::push_char(&mut out, m[i]);
        proof {
            assert(m@.take(i + 1) =~= m@.take(i as int).push(m@[i as int]));
        }
        i = i + 1;
    }
    crate::text::push_char(&mut out, '\n');
    proof {
        assert(m@.take(k as int) =~= trim_end(m@));
        assert(out@ =~= journal_entry_text(existing@, markdown@));
    }
    out
}

/// The character positions of the non-overlapping occurrences of `n` in `t` from
/// `from`, leftmost first; none for an empty `n`.
pub open spec fn occurrences(t: Seq<char>, n: Seq<char>, from: int) -> Seq<int>
    decreases t.len() - from,
    when 0 <= from
{
    if n.len() == 0 {
        seq![]
    } else {
        let p = find_from(t, n, from);
        if p < 0 {
            seq![]
        } else {
            proof {
                lemma_find_from(t, n, from);
            }
            seq![p] + occurrences(t, n, p + n.len())
        }
    }
}

/// The span of the occurrence of `n` at character `k` of `t`, without lines.
pub open spec fn occurrence_span(t: Seq<char>, n: Seq<char>, k: int) -> Span {
    Span { byte_start: byte_offset(t, k) as usize, byte_end: byte_offset(t, k + n.len()) as usize, line_start: 0, line_end: 0 }
}

/// The spans of the occurrences of `needle` in `content`.
pub open spec fn found_spans(t: Seq<char>, n: Seq<char>) -> Seq<Span> {
    occurrences(t, n, 0).map_values(|k: int| occurrence_span(t, n, k))
}

/// The spans of the non-overlapping occurrences of `needle` in `content`.
pub fn find_all(content: &str, needle: &str) -> (r: Vec<Span>)
    ensures
        r@ == found_spans(content@, needle@),
{
    let t = str_chars(content);
    let n = str_chars(needle);
    let offs = char_byte_offsets(content, &t);
    let mut spans: Vec<Span> = Vec::new();
    if n.len() == 0 {
        proof {
            assert(spans@ =~= found_spans(content@, needle@));
        }
        return spans;
    }
    let ghost all = occurrences(t@, n@, 0);
    let mut from: usize = 0;
    let ghost mut done: Seq<int> = seq![];
    loop
        invariant
            from <= t@.len(),
            n@.len() > 0,
            t@ == content@,
            offs@.len() == t@.len() + 1,
            forall|k: int| 0 <= k <= t@.len() ==> #[trigger] offs@[k] == byte_offset(t@, k),
            all == occurrences(t@, n@, 0),
            all == done + occurrences(t@, n@, from as int),
            spans@ == done.map_values(|k: int| occurrence_span(t@, n@, k)),
        ensures
            spans@ == all.map_values(|k: int| occurrence_span(t@, n@, k)),
        decreases t@.len() + 1 - from,
    {
        match find_chars(&t, &n, from) {
            None => {
                proof {
                    assert(occurrences(t@, n@, from as int) =~= Seq::<int>::empty());
                    assert(all =~= done);
                    assert(spans@ =~= all.map_values(|k: int| occurrence_span(t@, n@, k)));
                }
                break;
            },
            Some(p) => {
                proof {
                    lemma_find_from(t@, n@, from as int);
                    assert(t@.len() == t.len());
                    assert(p + n@.len() <= t@.len());
                }
                let end = p + n.len();
                spans.push(Span { byte_start: offs[p], byte_end: offs[end], line_start: 0, line_end: 0 });
                proof {
                    assert(occurrences(t@, n@, from as int) == seq![p as int] + occurrences(t@, n@, end as int));
                    assert(done.push(p as int) + occurrences(t@, n@, end as int) =~= done + occurrences(t@, n@, from as int));
                    assert(spans@ =~= done.push(p as int).map_values(|k: int| occurrence_span(t@, n@, k)));
                    done = done.push(p as int);
                }
                from = end;
            },
        }
    }
    proof {
        assert(spans@ =~= found_spans(content@, needle@));
    }
    spans
}

/// Bytes `[span.byte_start, span.byte_end)` of `t` hold `expected`.
pub open spec fn span_matches(t: Seq<char>, span: Span, expected: Seq<char>) -> bool {
    span.byte_end <= blen(t) && decode_utf8(utf8_of(t).subrange(span.byte_start as int, span.byte_end as int)) == expected
}

/// Cutting the text at a span that ends within it does not panic: the span is in
/// order and on character boundaries.
pub open spec fn span_cut_ok(t: Seq<char>, span: Span) -> bool {
    span.byte_end <= blen(t) ==> {
        &&& span.byte_start <= span.byte_end
        &&& is_char_boundary(utf8_of(t), span.byte_start as int)
        &&& is_char_boundary(utf8_of(t), span.byte_end as int)
    }
}

/// Where `expected` stands in `t`: at `span` when it still holds it, else at its
/// only occurrence; none when it occurs otherwise than once.
pub open spec fn resolved_span(t: Seq<char>, span: Span, expected: Seq<char>) -> Option<Span> {
    if span_matches(t, span, expected) {
        Some(span)
    } else if occurrences(t, expected, 0).len() == 1 {
        Some(occurrence_span(t, expected, occurrences(t, expected, 0)[0]))
    } else {
        None
    }
}

proof fn lemma_occurrences_in_range(t: Seq<char>, n: Seq<char>, from: int)
    requires
        0 <= from,
    ensures
        forall|i: int|
            0 <= i < occurrences(t, n, from).len() ==> 0 <= #[trigger] occurrences(t, n, from)[i] && occurrences(
                t,
                n,
                from,
            )[i] + n.len() <= t.len(),
    decreases t.len() - from,
{
    if n.len() > 0 {
        let p = find_from(t, n, from);
        lemma_find_from(t, n, from);
        if p >= 0 {
            lemma_occurrences_in_range(t, n, p + n.len());
            let o = occurrences(t, n, from);
            assert forall|i: int| 0 <= i < o.len() implies 0 <= #[trigger] o[i] && o[i] + n.len() <= t.len() by {
                if i > 0 {
                    assert(o[i] == occurrences(t, n, p + n.len())[i - 1]);
                }
            }
        }
    }
}

/// Where `expected` stands in `content`, as `resolved_span` says.
fn resolve(content: &str, span: &Span, expected: &str) -> (r: Option<Span>)
    requires
        span_cut_ok(content@, *span),
    ensures
        r == resolved_span(content@, *span, expected@),
        r matches Some(s) ==> s.byte_start <= s.byte_end <= blen(content@) && is_char_boundary(
            utf8_of(content@),
            s.byte_start as int,
        ) && is_char_boundary(utf8_of(content@), s.byte_end as int),
{
    let len = byte_len(content);
    proof {
        lemma_str_bytes(content);
        lemma_str_valid(content);
    }
    if span.byte_end <= len {
        proof {
            lemma_boundary(content.spec_bytes(), span.byte_start as int);
            lemma_boundary(content.spec_bytes(), span.byte_end as int);
        }
        let piece = slice_str(content, span.byte_start, span.byte_end);
        proof {
            lemma_decode_of_str(piece);
        }
        let a = str_chars(piece);
        let b = str_chars(expected);
        if crate::text::chars_eq(&a, &b) {
            return Some(*span);
        }
    }
    let matches = find_all(content, expected);
    let ghost t = content@;
    let ghost n = expected@;
    if matches.len() == 1 {
        proof {
            let o = occurrences(t, n, 0);
            lemma_occurrences_in_range(t, n, 0);
            assert(matches@[0] == occurrence_span(t, n, o[0]));
            lemma_offset_boundary(t, o[0]);
            lemma_offset_boundary(t, o[0] + n.len());
            lemma_byte_offset_mono(t, o[0], o[0] + n.len());
            lemma_byte_offset_mono(t, o[0] + n.len(), t.len() as int);
            crate::text::lemma_byte_offset_full(t);
        }
        Some(matches[0])
    } else {
        None
    }
}

/// The text with bytes `[span.byte_start, span.byte_end)` replaced by `replacement`.
pub fn replace_span(content: &str, span: &Span, replacement: &str) -> (r: String)
    requires
        span.byte_start <= span.byte_end <= blen(content@),
        is_char_boundary(utf8_of(content@), span.byte_start as int),
        is_char_boundary(utf8_of(content@), span.byte_end as int),
    ensures
        utf8_of(r@) == utf8_of(content@).take(span.byte_start as int) + utf8_of(replacement@) + utf8_of(content@).skip(
            span.byte_end as int,
        ),
{
    proof {
        lemma_str_bytes(content);
        lemma_str_bytes(replacement);
        lemma_str_valid(content);
        lemma_boundary(content.spec_bytes(), span.byte_start as int);
        lemma_boundary(content.spec_bytes(), span.byte_end as int);
    }
    replace_byte_range(content, span.byte_start, span.byte_end, replacement)
}

/// The text of an edit: `replacement` where the anchor's text `expected_snippet`
/// stands (at the anchor, or at its only occurrence); a stale anchor error when it
/// is found nowhere or more than once.
pub fn edit_markdown_text(content: &str, anchor: &SourceAnchor, expected_snippet: &str, replacement: &str) -> (r: Result<
    String,
    WriteError,
>)
    requires
        span_cut_ok(content@, anchor.span),
    ensures
        match resolved_span(content@, anchor.span, expected_snippet@) {
            Some(s) => r matches Ok(t) && utf8_of(t@) == utf8_of(content@).take(s.byte_start as int) + utf8_of(
                replacement@,
            ) + utf8_of(content@).skip(s.byte_end as int),
            None => r matches Err(WriteError::StaleAnchor(m)) && m@ == "stale anchor for "@ + anchor.file_path@,
        },
{
    match resolve(content, &anchor.span, expected_snippet) {
        Some(s) => Ok(replace_span(content, &s, replacement)),
        None => {
            let mut m = "stale anchor for ".to_owned();
            m.append(anchor.file_path.as_str());
            Err(WriteError::StaleAnchor(m))
        },
    }
}

/// The marker text of a check state.
pub open spec fn marker_text(checked: bool) -> Seq<char> {
    if checked {
        "[x]"@
    } else {
        "[ ]"@
    }
}

/// The text with task `task`'s marker set to `checked`: the marker it had is
/// found at its span (or at its only occurrence) and replaced; an error when it
/// is found nowhere or more than once.
pub fn toggle_task_text(content: &str, task: &Task, checked: bool) -> (r: Result<String, WriteError>)
    requires
        span_cut_ok(content@, task.marker_span),
    ensures
        match resolved_span(content@, task.marker_span, marker_text(task.checked)) {
            Some(s) => r matches Ok(t) && utf8_of(t@) == utf8_of(content@).take(s.byte_start as int) + utf8_of(
                marker_text(checked),
            ) + utf8_of(content@).skip(s.byte_end as int),
            None => r matches Err(WriteError::StaleAnchor(m)) && m@ == "task marker no longer matches"@,
        },
{
    let marker = if checked { "[x]" } else { "[ ]" };
    let expected = if task.checked { "[x]" } else { "[ ]" };
    match resolve(content, &task.marker_span, expected) {
        Some(s) => Ok(replace_span(content, &s, marker)),
        None => Err(WriteError::StaleAnchor("task marker no longer matches".to_owned())),
    }
}

/// A replacement: the span to replace and the text to put there.
pub open spec fn edit_view(e: (Span, String)) -> (Span, Seq<char>) {
    (e.0, e.1@)
}

pub open spec fn edits_view(s: Seq<(Span, String)>) -> Seq<(Span, Seq<char>)> {
    s.map_values(|e: (Span, String)| edit_view(e))
}

/// The replacement of reference `r` when it names page `old`: `#new` for a tag,
/// `[[new]]` for a link; none for an asset or another page.
pub open spec fn rename_edit(r: InlineReferenceView, old: Seq<char>, new: Seq<char>) -> Seq<(Span, Seq<char>)> {
    if r.page_key == Some(old) {
        match r.kind {
            ReferenceKind::Tag => seq![(r.anchor.span, seq!['#'] + new)],
            ReferenceKind::PageLink => seq![(r.anchor.span, seq!['[', '['] + new + seq![']', ']'])],
            ReferenceKind::Asset => seq![],
        }
    } else {
        seq![]
    }
}

/// The replacement of reference `r` when it is the asset `old` (or `assets/old`).
pub open spec fn asset_edit(r: InlineReferenceView, old: Seq<char>, new: Seq<char>) -> Seq<(Span, Seq<char>)> {
    if r.kind == ReferenceKind::Asset {
        if r.path == Some(old) {
            seq![(r.anchor.span, new)]
        } else if r.path == Some("assets/"@ + old) {
            seq![(r.anchor.span, "assets/"@ + new)]
        } else {
            seq![]
        }
    } else {
        seq![]
    }
}

/// The replacements of a document's references, entry after entry, reference
/// after reference; `asset` chooses asset moves over page renames.
pub open spec fn refs_edits(refs: Seq<InlineReferenceView>, old: Seq<char>, new: Seq<char>, asset: bool) -> Seq<(Span, Seq<char>)>
    decreases refs.len(),
{
    if refs.len() == 0 {
        seq![]
    } else {
        refs_edits(refs.drop_last(), old, new, asset) + if asset {
            asset_edit(refs.last(), old, new)
        } else {
            rename_edit(refs.last(), old, new)
        }
    }
}

pub open spec fn entries_edits(es: Seq<EntryView>, old: Seq<char>, new: Seq<char>, asset: bool) -> Seq<(Span, Seq<char>)>
    decreases es.len(),
{
    if es.len() == 0 {
        seq![]
    } else {
        entries_edits(es.drop_last(), old, new, asset) + refs_edits(es.last().references, old, new, asset)
    }
}

fn ref_edit(r: &crate::model::InlineReference, from: &str, to: &str, asset: bool, out: &mut Vec<(Span, String)>)
    ensures
        edits_view(final(out)@) == edits_view(old(out)@) + if asset {
            asset_edit(r@, from@, to@)
        } else {
            rename_edit(r@, from@, to@)
        },
{
    let ghost o0 = edits_view(out@);
    let mut edit: Option<String> = None;
    if asset {
        if r.kind == ReferenceKind::Asset {
            match &r.path {
                Some(p) => {
                    let mut old_assets = "assets/".to_owned();
                    old_assets.append(from);
                    let pc = str_chars(p.as_str());
                    let fc = str_chars(from);
                    if crate::text::chars_eq(&pc, &fc) {
                        edit = Some(to.to_owned());
                    } else if crate::text::strings_eq(p, &old_assets) {
                        let mut v = "assets/".to_owned();
                        v.append(to);
                        edit = Some(v);
                    }
                },
                None => {},
            }
        }
    } else {
        let same = match &r.page_key {
            Some(k) => {
                let kc = str_chars(k.as_str());
                let fc = str_chars(from);
                crate::text::chars_eq(&kc, &fc)
            },
            None => false,
        };
        if same {
            if r.kind == ReferenceKind::Tag {
                let mut v = "#".to_owned();
                v.append(to);
                edit = Some(v);
            } else if r.kind == ReferenceKind::PageLink {
                let mut v = "[[".to_owned();
                v.append(to);
                v.append("]]");
                edit = Some(v);
            }
        }
    }
    proof {
        reveal_strlit("#");
        reveal_strlit("[[");
        reveal_strlit("]]");
        assert("#"@ =~= seq!['#']);
        assert("[["@ =~= seq!['[', '[']);
        assert("]]"@ =~= seq![']', ']']);
    }
    match edit {
        Some(v) => {
            let ghost vv = v@;
            out.push((r.anchor.span, v));
            proof {
                assert(edits_view(out@) =~= o0 + seq![(r.anchor.span, vv)]);
            }
        },
        None => {
            proof {
                assert(edits_view(out@) =~= o0 + Seq::<(Span, Seq<char>)>::empty());
            }
        },
    }
}

fn document_edits(doc: &ParsedDocument, old: &str, new: &str, asset: bool) -> (r: Vec<(Span, String)>)
    ensures
        edits_view(r@) == entries_edits(entries_view(doc.entries@), old@, new@, asset),
{
    let ghost ev = entries_view(doc.entries@);
    let mut out: Vec<(Span, String)> = Vec::new();
    let mut i: usize = 0;
    proof {
        assert(edits_view(out@) =~= Seq::<(Span, Seq<char>)>::empty());
        assert(ev.take(0) =~= Seq::<EntryView>::empty());
    }
    while i < doc.entries.len()
        invariant
            i <= doc.entries@.len(),
            ev == entries_view(doc.entries@),
            edits_view(out@) == entries_edits(ev.take(i as int), old@, new@, asset),
        decreases doc.entries@.len() - i,
    {
        let refs = &doc.entries[i].references;
        let ghost rv = references_view(refs@);
        let ghost o1 = edits_view(out@);
        let mut j: usize = 0;
        proof {
            assert(rv.take(0) =~= Seq::<InlineReferenceView>::empty());
            assert(o1 + Seq::<(Span, Seq<char>)>::empty() =~= o1);
        }
        while j < refs.len()
            invariant
                j <= refs@.len(),
                rv == references_view(refs@),
                edits_view(out@) == o1 + refs_edits(rv.take(j as int), old@, new@, asset),
            decreases refs@.len() - j,
        {
            proof {
                assert(rv.take(j + 1).drop_last() =~= rv.take(j as int));
                assert(rv.take(j + 1).last() == refs@[j as int]@);
            }
            ref_edit(&refs[j], old, new, asset, &mut out);
            proof {
                assert(edits_view(out@) =~= o1 + refs_edits(rv.take(j + 1), old@, new@, asset));
            }
            j = j + 1;
        }
        proof {
            assert(rv.take(refs@.len() as int) =~= rv);
            assert(ev.take(i + 1).drop_last() =~= ev.take(i as int));
            assert(ev.take(i + 1).last() == doc.entries@[i as int]@);
            assert(edits_view(out@) =~= entries_edits(ev.take(i + 1), old@, new@, asset));
        }
        i = i + 1;
    }
    proof {
        assert(ev.take(doc.entries@.len() as int) =~= ev);
    }
    out
}

/// The replacements that renaming page `old_key` to `new_key` makes in a document:
/// each tag or link to the old page rewritten to the new key.
pub fn rename_replacements(doc: &ParsedDocument, old_key: &PageKey, new_key: &PageKey) -> (r: Vec<(Span, String)>)
    ensures
        edits_view(r@) == entries_edits(entries_view(doc.entries@), old_key@, new_key@, false),
{
    document_edits(doc, old_key.as_str(), new_key.as_str(), false)
}

/// The replacements that moving asset `old_value` to `new_value` makes in a
/// document: each asset path `old_value` (or `assets/old_value`) rewritten.
pub fn asset_replacements(doc: &ParsedDocument, old_value: &str, new_value: &str) -> (r: Vec<(Span, String)>)
    ensures
        edits_view(r@) == entries_edits(entries_view(doc.entries@), old_value@, new_value@, true),
{
    document_edits(doc, old_value, new_value, true)
}

/// `e` placed after every edit of `s` that starts at or after it.
pub open spec fn insert_desc(s: Seq<(Span, Seq<char>)>, e: (Span, Seq<char>)) -> Seq<(Span, Seq<char>)>
    decreases s.len(),
{
    if s.len() == 0 {
        seq![e]
    } else if s.last().0.byte_start >= e.0.byte_start {
        s.push(e)
    } else {
        insert_desc(s.drop_last(), e).push(s.last())
    }
}

/// Edits stably sorted by start, last start first.
pub open spec fn sort_desc(s: Seq<(Span, Seq<char>)>) -> Seq<(Span, Seq<char>)>
    decreases s.len(),
{
    if s.len() == 0 {
        seq![]
    } else {
        insert_desc(sort_desc(s.drop_last()), s.last())
    }
}

/// The bytes after the edits, applied in order; none when one of them cannot be
/// made (out of order, beyond the text, or off character boundaries).
pub open spec fn apply_edits(bytes: Seq<u8>, edits: Seq<(Span, Seq<char>)>) -> Option<Seq<u8>>
    decreases edits.len(),
{
    if edits.len() == 0 {
        Some(bytes)
    } else {
        let a = edits[0].0.byte_start as int;
        let b = edits[0].0.byte_end as int;
        if a <= b <= bytes.len() && is_char_boundary(bytes, a) && is_char_boundary(bytes, b) {
            apply_edits(bytes.take(a) + utf8_of(edits[0].1) + bytes.skip(b), edits.drop_first())
        } else {
            None
        }
    }
}

/// The text with the replacements made, last start first; `None` when one of
/// them cannot be made.
pub fn apply_replacements(content: &str, replacements: &Vec<(Span, String)>) -> (r: Option<String>)
    ensures
        match apply_edits(utf8_of(content@), sort_desc(edits_view(replacements@))) {
            Some(b) => r matches Some(t) && utf8_of(t@) == b,
            None => r is None,
        },
{
    let ghost ev = edits_view(replacements@);
    let mut sorted: Vec<(Span, String)> = Vec::new();
    let mut i: usize = 0;
    proof {
        assert(ev.take(0) =~= Seq::<(Span, Seq<char>)>::empty());
        assert(edits_view(sorted@) =~= Seq::<(Span, Seq<char>)>::empty());
    }
    while i < replacements.len()
        invariant
            i <= replacements@.len(),
            ev == edits_view(replacements@),
            edits_view(sorted@) == sort_desc(ev.take(i as int)),
        decreases replacements@.len() - i,
    {
        let e = (replacements[i].0, replacements[i].1.clone());
        let ghost sv = edits_view(sorted@);
        let ghost x = edit_view(e);
        let mut p = sorted.len();
        proof {
            assert(sv.take(p as int) =~= sv);
            assert(sv.skip(p as int) =~= Seq::<(Span, Seq<char>)>::empty());
            assert(insert_desc(sv, x) + Seq::<(Span, Seq<char>)>::empty() =~= insert_desc(sv, x));
        }
        while p > 0 && sorted[p - 1].0.byte_start < e.0.byte_start
            invariant
                p <= sorted@.len(),
                sv == edits_view(sorted@),
                x == edit_view(e),
                insert_desc(sv, x) == insert_desc(sv.take(p as int), x) + sv.skip(p as int),
            decreases p,
        {
            proof {
                let t = sv.take(p as int);
                assert(t.last() == sv[p - 1]);
                assert(t.drop_last() =~= sv.take(p - 1));
                assert(sv.skip(p - 1) =~= seq![sv[p - 1]] + sv.skip(p as int));
                assert(insert_desc(sv.take(p - 1), x).push(sv[p - 1]) + sv.skip(p as int) =~= insert_desc(sv.take(p - 1), x)
                    + sv.skip(p - 1));
            }
            p = p - 1;
        }
        proof {
            let t = sv.take(p as int);
            if p > 0 {
                assert(t.last() == sv[p - 1]);
            }
            assert(insert_desc(t, x) =~= t.push(x));
        }
        sorted.insert(p, e);
        proof {
            assert(edits_view(sorted@) =~= sv.take(p as int).push(x) + sv.skip(p as int));
            assert(ev.take(i + 1).drop_last() =~= ev.take(i as int));
            assert(ev.take(i + 1).last() == x);
        }
        i = i + 1;
    }
    proof {
        assert(ev.take(replacements@.len() as int) =~= ev);
    }
    let ghost sv = edits_view(sorted@);
    let mut cur = content.to_owned();
    let mut k: usize = 0;
    proof {
        assert(sv.skip(0) =~= sv);
    }
    while k < sorted.len()
        invariant
            k <= sorted@.len(),
            sv == edits_view(sorted@),
            apply_edits(utf8_of(content@), sv) == apply_edits(utf8_of(cur@), sv.skip(k as int)),
            sv == sort_desc(edits_view(replacements@)),
        decreases sorted@.len() - k,
    {
        let a = sorted[k].0.byte_start;
        let b = sorted[k].0.byte_end;
        let cs = cur.as_str();
        let rs = sorted[k].1.as_str();
        let n = byte_len(cs);
        proof {
            lemma_str_bytes(cs);
            lemma_str_valid(cs);
            lemma_str_bytes(rs);
            assert(sv.skip(k as int)[0] == edit_view(sorted@[k as int]));
            assert(sv.skip(k as int).drop_first() =~= sv.skip(k + 1));
        }
        if !(a <= b && b <= n && cs.is_char_boundary(a) && cs.is_char_boundary(b)) {
            proof {
                assert(apply_edits(utf8_of(cur@), sv.skip(k as int)) is None);
            }
            return None;
        }
        proof {
            lemma_boundary(cs.spec_bytes(), a as int);
            lemma_boundary(cs.spec_bytes(), b as int);
        }
        let next = replace_byte_range(cs, a, b, rs);
        cur = next;
        k = k + 1;
    }
    proof {
        assert(sv.skip(sorted@.len() as int) =~= Seq::<(Span, Seq<char>)>::empty());
    }
    Some(cur)
}

/// The front matter values after setting each value of the patch in order.
pub open spec fn patched(m: Map<Seq<char>, FrontMatterValueView>, patch: Seq<(Seq<char>, FrontMatterValueView)>) -> Map<Seq<char>, FrontMatterValueView>
    decreases patch.len(),
{
    if patch.len() == 0 {
        m
    } else {
        patched(m, patch.drop_last()).insert(patch.last().0, patch.last().1)
    }
}

/// The lines of one front matter value: `key: value`, or `key:` and a `- item`
/// line per item.
pub open spec fn value_lines(key: Seq<char>, v: FrontMatterValueView) -> Seq<char> {
    match v {
        FrontMatterValueView::Scalar(x) => key + seq![':', ' '] + x + seq!['\n'],
        FrontMatterValueView::List(items) => key + seq![':', '\n'] + item_lines(items),
    }
}

pub open spec fn item_lines(items: Seq<Seq<char>>) -> Seq<char>
    decreases items.len(),
{
    if items.len() == 0 {
        seq![]
    } else {
        item_lines(items.drop_last()) + seq!['-', ' '] + items.last() + seq!['\n']
    }
}

pub open spec fn values_lines(values: Seq<(Seq<char>, FrontMatterValueView)>) -> Seq<char>
    decreases values.len(),
{
    if values.len() == 0 {
        seq![]
    } else {
        values_lines(values.drop_last()) + value_lines(values.last().0, values.last().1)
    }
}

/// A page's text from its front matter values and body: the body alone (its
/// trailing white space cut, then a line break) without values, else the values
/// between `---` fences, then the body unless it is blank.
pub open spec fn serialized(values: Seq<(Seq<char>, FrontMatterValueView)>, body: Seq<char>) -> Seq<char> {
    if values.len() == 0 {
        if body.len() == 0 {
            seq![]
        } else {
            trim_end(body) + seq!['\n']
        }
    } else {
        seq!['-', '-', '-', '\n'] + values_lines(values) + seq!['-', '-', '-', '\n'] + if crate::domain::parser::trim_white_space(body).len() > 0 {
            trim_end(body) + seq!['\n']
        } else {
            seq![]
        }
    }
}

fn push_str(out: &mut String, s: &str)
    ensures
        final(out)@ == old(out)@ + s@,
{
    out.append(s);
}

fn push_trimmed_end(out: &mut String, body: &str)
    ensures
        final(out)@ == old(out)@ + trim_end(body@),
{
    let m = str_chars(body);
    let mut k = m.len();
    while k > 0 && is_white_space_char(m[k - 1])
        invariant
            k <= m@.len(),
            crate::domain::parser::trail_ws_start(m@, 0, m@.len() as int) == crate::domain::parser::trail_ws_start(m@, 0, k as int),
        decreases k,
    {
        k = k - 1;
    }
    let t = crate::text::sub_chars(&m, 0, k);
    let ts = crate::text::chars_to_string(&t);
    out.append(ts.as_str());
    proof {
        assert(t@ =~= trim_end(body@));
    }
}

/// The text of a page with front matter `front_matter` and body `body`.
pub fn serialize_front_matter(front_matter: &FrontMatter, body: &str) -> (r: String)
    ensures
        r@ == serialized(pairs_view(front_matter.values@), body@),
{
    let ghost pv = pairs_view(front_matter.values@);
    let mut out = String::new();
    if front_matter.values.len() == 0 {
        if str_chars(body).len() == 0 {
            proof {
                assert(out@ =~= serialized(pv, body@));
            }
            return out;
        }
        push_trimmed_end(&mut out, body);
        crate::text::push_char(&mut out, '\n');
        proof {
            assert(out@ =~= serialized(pv, body@));
        }
        return out;
    }
    push_str(&mut out, "---\n");
    proof {
        reveal_strlit("---\n");
        reveal_strlit(": ");
        reveal_strlit(":\n");
        reveal_strlit("- ");
        assert(out@ =~= seq!['-', '-', '-', '\n'] + values_lines(pv.take(0)));
    }
    let mut i: usize = 0;
    while i < front_matter.values.len()
        invariant
            i <= front_matter.values@.len(),
            pv == pairs_view(front_matter.values@),
            out@ == seq!['-', '-', '-', '\n'] + values_lines(pv.take(i as int)),
        decreases front_matter.values@.len() - i,
    {
        let ghost before = out@;
        let key = front_matter.values[i].0.as_str();
        push_str(&mut out, key);
        match &front_matter.values[i].1 {
            FrontMatterValue::Scalar(v) => {
                push_str(&mut out, ": ");
                push_str(&mut out, v.as_str());
                crate::text::push_char(&mut out, '\n');
                proof {
                    reveal_strlit(": ");
                    assert(out@ =~= before + value_lines(key@, front_matter.values@[i as int].1@));
                }
            },
            FrontMatterValue::List(items) => {
                push_str(&mut out, ":\n");
                proof {
                    reveal_strlit(":\n");
                    reveal_strlit("- ");
                    assert(texts_view(items@).take(0) =~= Seq::<Seq<char>>::empty());
                }
                let ghost mid = out@;
                let mut j: usize = 0;
                while j < items.len()
                    invariant
                        j <= items@.len(),
                        out@ == mid + item_lines(texts_view(items@).take(j as int)),
                    decreases items@.len() - j,
                {
                    push_str(&mut out, "- ");
                    push_str(&mut out, items[j].as_str());
                    crate::text::push_char(&mut out, '\n');
                    proof {
                        reveal_strlit("- ");
                        let q = texts_view(items@).take(j + 1);
                        assert(q.drop_last() =~= texts_view(items@).take(j as int));
                        assert(q.last() == items@[j as int]@);
                        assert(out@ =~= mid + item_lines(q));
                    }
                    j = j + 1;
                }
                proof {
                    assert(texts_view(items@).take(items@.len() as int) =~= texts_view(items@));
                    assert(out@ =~= before + value_lines(key@, front_matter.values@[i as int].1@));
                }
            },
        }
        proof {
            assert(pv.take(i + 1).drop_last() =~= pv.take(i as int));
            assert(pv.take(i + 1).last() == (key@, front_matter.values@[i as int].1@));
            assert(out@ =~= seq!['-', '-', '-', '\n'] + values_lines(pv.take(i + 1)));
        }
        i = i + 1;
    }
    proof {
        assert(pv.take(front_matter.values@.len() as int) =~= pv);
    }
    push_str(&mut out, "---\n");
    let bc = str_chars(body);
    let tb = crate::domain::parser::trim_white_space_chars(&bc);
    if tb.len() > 0 {
        push_trimmed_end(&mut out, body);
        crate::text::push_char(&mut out, '\n');
    }
    proof {
        reveal_strlit("---\n");
        assert(out@ =~= serialized(pv, body@));
    }
    out
}

/// The front matter with each value of `patch` set, in order.
pub fn apply_front_matter_patch(front_matter: &FrontMatter, patch: &FrontMatterPatch) -> (r: FrontMatter)
    requires
        sorted_keys(fm_keys(front_matter.values@)),
    ensures
        sorted_keys(fm_keys(r.values@)),
        fm_map(r.values@) == patched(fm_map(front_matter.values@), pairs_view(patch.values@)),
{
    let mut fm = front_matter.clone();
    let ghost pp = pairs_view(patch.values@);
    proof {
        assert(fm_keys(fm.values@) =~= fm_keys(front_matter.values@));
        assert(crate::front_matter::fm_vals(fm.values@) =~= crate::front_matter::fm_vals(front_matter.values@));
        assert(pp.take(0) =~= Seq::<(Seq<char>, FrontMatterValueView)>::empty());
    }
    let mut i: usize = 0;
    while i < patch.values.len()
        invariant
            i <= patch.values@.len(),
            pp == pairs_view(patch.values@),
            sorted_keys(fm_keys(fm.values@)),
            fm_map(fm.values@) == patched(fm_map(front_matter.values@), pp.take(i as int)),
        decreases patch.values@.len() - i,
    {
        let k = str_chars(patch.values[i].0.as_str());
        let v = patch.values[i].1.clone();
        fm_insert(&mut fm.values, &k, v);
        proof {
            assert(pp.take(i + 1).drop_last() =~= pp.take(i as int));
            assert(pp.take(i + 1).last() == (patch.values@[i as int].0@, patch.values@[i as int].1@));
        }
        i = i + 1;
    }
    proof {
        assert(pp.take(patch.values@.len() as int) =~= pp);
    }
    fm
}

} // verus!
