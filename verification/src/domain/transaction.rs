//! The durable record of a structural operation: the manifest that lists what the
//! operation writes and deletes, and the line-oriented text it is stored as.
//!
//! A manifest is written before any workspace file changes; recovery reads it back
//! and finishes the operation. Its text is one record per line, fields separated by
//! tabs: `VERSION 1`, `KIND`, `STATUS`, then `PAGE_MAP`, `ORIGINAL`, `WRITE` and
//! `DELETE` records.

use vstd::prelude::*;

use vstd::string::*;

use super::error::{CoreError, PagePathError};
use super::names::{lemma_valid_name_chars, valid_name};
use super::page_id::{
    chars_view, join_with, lemma_first_name_error_none, new_result, LocationView, PageId,
    PageIdView, PageLocation,
};
use super::paths::resolve_view;
use super::planning::{
    change_views, mapping_views, string_views, ChangeView, MappingView, OperationKind, PageMapping,
    RenameTransactionPlan,
};
use super::structure::IncrementalWorkspaceUpdate;
use super::workspace::id_views;
use crate::text::{
    chars_eq, chars_to_string, decimal, first_index_of, lemma_first_index_of, push_char,
    push_decimal, split_chars, split_on, str_chars, sub_chars,
};

verus! {

/// How far a recorded operation has got.
#[derive(Debug, Clone, Copy, PartialEq, Eq, Structural)]
pub enum TransactionStatus {
    Prepared,
    Applying,
}

pub open spec fn word_version() -> Seq<char> {
    seq!['V', 'E', 'R', 'S', 'I', 'O', 'N']
}

pub open spec fn word_one() -> Seq<char> {
    seq!['1']
}

pub open spec fn word_kind() -> Seq<char> {
    seq!['K', 'I', 'N', 'D']
}

pub open spec fn word_status() -> Seq<char> {
    seq!['S', 'T', 'A', 'T', 'U', 'S']
}

pub open spec fn word_page_map() -> Seq<char> {
    seq!['P', 'A', 'G', 'E', '_', 'M', 'A', 'P']
}

pub open spec fn word_original() -> Seq<char> {
    seq!['O', 'R', 'I', 'G', 'I', 'N', 'A', 'L']
}

pub open spec fn word_write() -> Seq<char> {
    seq!['W', 'R', 'I', 'T', 'E']
}

pub open spec fn word_delete() -> Seq<char> {
    seq!['D', 'E', 'L', 'E', 'T', 'E']
}

/// The name an operation kind is recorded under.
pub open spec fn kind_word(k: OperationKind) -> Seq<char> {
    match k {
        OperationKind::Rename => seq!['r', 'e', 'n', 'a', 'm', 'e'],
        OperationKind::Move => seq!['m', 'o', 'v', 'e'],
        OperationKind::Delete => seq!['d', 'e', 'l', 'e', 't', 'e'],
    }
}

/// The operation kind recorded under `v`, if any.
pub open spec fn kind_named(v: Seq<char>) -> Option<OperationKind> {
    if v == kind_word(OperationKind::Rename) {
        Some(OperationKind::Rename)
    } else if v == kind_word(OperationKind::Move) {
        Some(OperationKind::Move)
    } else if v == kind_word(OperationKind::Delete) {
        Some(OperationKind::Delete)
    } else {
        None
    }
}

/// The name a status is recorded under.
pub open spec fn status_word(s: TransactionStatus) -> Seq<char> {
    match s {
        TransactionStatus::Prepared => seq!['p', 'r', 'e', 'p', 'a', 'r', 'e', 'd'],
        TransactionStatus::Applying => seq!['a', 'p', 'p', 'l', 'y', 'i', 'n', 'g'],
    }
}

/// The status recorded under `v`, if any.
pub open spec fn status_named(v: Seq<char>) -> Option<TransactionStatus> {
    if v == status_word(TransactionStatus::Prepared) {
        Some(TransactionStatus::Prepared)
    } else if v == status_word(TransactionStatus::Applying) {
        Some(TransactionStatus::Applying)
    } else {
        None
    }
}

impl TransactionStatus {
    /// The name the status is recorded under.
    pub fn as_str(self) -> (r: &'static str)
        ensures
            r@ == status_word(self),
    {
        proof {
            reveal_strlit("prepared");
            reveal_strlit("applying");
            assert("prepared"@ =~= status_word(TransactionStatus::Prepared));
            assert("applying"@ =~= status_word(TransactionStatus::Applying));
        }
        match self {
            TransactionStatus::Prepared => "prepared",
            TransactionStatus::Applying => "applying",
        }
    }

    /// The status recorded under `value`, if any.
    pub fn from_name(value: &str) -> (r: Option<Self>)
        ensures
            r == status_named(value@),
    {
        let v = str_chars(value);
        proof {
            reveal_strlit("prepared");
            reveal_strlit("applying");
            assert("prepared"@ =~= status_word(TransactionStatus::Prepared));
            assert("applying"@ =~= status_word(TransactionStatus::Applying));
        }
        if chars_are(&v, "prepared") {
            Some(TransactionStatus::Prepared)
        } else if chars_are(&v, "applying") {
            Some(TransactionStatus::Applying)
        } else {
            None
        }
    }
}

/// `v` holds exactly the characters of `w`.
fn chars_are(v: &Vec<char>, w: &str) -> (r: bool)
    ensures
        r == (v@ == w@),
{
    let t = str_chars(w);
    chars_eq(v, &t)
}

/// A workspace file and the name of the blob that holds its text.
#[derive(Debug)]
pub struct TransactionBlobEntry {
    pub workspace_path: String,
    pub blob_name: String,
}

impl View for TransactionBlobEntry {
    type V = (Seq<char>, Seq<char>);

    open spec fn view(&self) -> (Seq<char>, Seq<char>) {
        (self.workspace_path@, self.blob_name@)
    }
}

pub open spec fn entry_views(s: Seq<TransactionBlobEntry>) -> Seq<(Seq<char>, Seq<char>)> {
    s.map_values(|e: TransactionBlobEntry| e@)
}

/// Everything recovery needs to finish an operation.
#[derive(Debug)]
pub struct TransactionManifest {
    pub kind: OperationKind,
    pub status: TransactionStatus,
    pub page_mappings: Vec<PageMapping>,
    pub originals: Vec<TransactionBlobEntry>,
    pub writes: Vec<TransactionBlobEntry>,
    pub deletes: Vec<String>,
}

/// The value of a manifest.
#[verifier::ext_equal]
pub struct ManifestView {
    pub kind: OperationKind,
    pub status: TransactionStatus,
    pub mappings: Seq<MappingView>,
    pub originals: Seq<(Seq<char>, Seq<char>)>,
    pub writes: Seq<(Seq<char>, Seq<char>)>,
    pub deletes: Seq<Seq<char>>,
}

impl View for TransactionManifest {
    type V = ManifestView;

    open spec fn view(&self) -> ManifestView {
        ManifestView {
            kind: self.kind,
            status: self.status,
            mappings: mapping_views(self.page_mappings@),
            originals: entry_views(self.originals@),
            writes: entry_views(self.writes@),
            deletes: string_views(self.deletes@),
        }
    }
}

// ---------------------------------------------------------------------------
// Reading the stored text.
// ---------------------------------------------------------------------------

/// `x` without one trailing carriage return.
pub open spec fn strip_cr(x: Seq<char>) -> Seq<char> {
    if x.len() > 0 && x.last() == '\r' {
        x.drop_last()
    } else {
        x
    }
}

/// The lines of `s`, as `str::lines` yields them: split at `\n`, a `\r` before a
/// `\n` dropped, and no empty line after a final `\n`.
pub open spec fn text_lines(s: Seq<char>) -> Seq<Seq<char>> {
    let p = split_on(s, '\n');
    let n = if p.last().len() == 0 {
        p.len() - 1
    } else {
        p.len() as int
    };
    Seq::new(
        n as nat,
        |i: int|
            if i + 1 < p.len() {
                strip_cr(p[i])
            } else {
                p[i]
            },
    )
}

/// What the records read so far have set.
#[verifier::ext_equal]
pub struct ParsedRecords {
    pub kind: Option<OperationKind>,
    pub status: Option<TransactionStatus>,
    pub mappings: Seq<MappingView>,
    pub originals: Seq<(Seq<char>, Seq<char>)>,
    pub writes: Seq<(Seq<char>, Seq<char>)>,
    pub deletes: Seq<Seq<char>>,
}

pub open spec fn no_records() -> ParsedRecords {
    ParsedRecords {
        kind: None,
        status: None,
        mappings: seq![],
        originals: seq![],
        writes: seq![],
        deletes: seq![],
    }
}

/// The page-backed id written `A/B/C`.
pub open spec fn hierarchy_result(s: Seq<char>) -> Result<PageIdView, PagePathError> {
    new_result(LocationView::Pages, split_on(s, '/'))
}

/// What one record line does to what was read before it.
pub open spec fn parse_record(st: ParsedRecords, line: Seq<char>) -> Result<ParsedRecords, CoreError> {
    let f = split_on(line, '\t');
    if f.len() == 2 && f[0] == word_version() && f[1] == word_one() {
        Ok(st)
    } else if f.len() == 2 && f[0] == word_kind() {
        Ok(
            ParsedRecords {
                kind: kind_named(f[1]),
                status: st.status,
                mappings: st.mappings,
                originals: st.originals,
                writes: st.writes,
                deletes: st.deletes,
            },
        )
    } else if f.len() == 2 && f[0] == word_status() {
        Ok(
            ParsedRecords {
                kind: st.kind,
                status: status_named(f[1]),
                mappings: st.mappings,
                originals: st.originals,
                writes: st.writes,
                deletes: st.deletes,
            },
        )
    } else if f.len() == 5 && f[0] == word_page_map() {
        match hierarchy_result(f[1]) {
            Err(e) => Err(CoreError::InvalidPagePath(e)),
            Ok(a) => match hierarchy_result(f[2]) {
                Err(e) => Err(CoreError::InvalidPagePath(e)),
                Ok(b) => Ok(
                    ParsedRecords {
                        kind: st.kind,
                        status: st.status,
                        mappings: st.mappings.push(
                            MappingView { old_id: a, new_id: b, old_path: f[3], new_path: f[4] },
                        ),
                        originals: st.originals,
                        writes: st.writes,
                        deletes: st.deletes,
                    },
                ),
            },
        }
    } else if f.len() == 3 && f[0] == word_original() {
        Ok(
            ParsedRecords {
                kind: st.kind,
                status: st.status,
                mappings: st.mappings,
                originals: st.originals.push((f[1], f[2])),
                writes: st.writes,
                deletes: st.deletes,
            },
        )
    } else if f.len() == 3 && f[0] == word_write() {
        Ok(
            ParsedRecords {
                kind: st.kind,
                status: st.status,
                mappings: st.mappings,
                originals: st.originals,
                writes: st.writes.push((f[1], f[2])),
                deletes: st.deletes,
            },
        )
    } else if f.len() == 2 && f[0] == word_delete() {
        Ok(
            ParsedRecords {
                kind: st.kind,
                status: st.status,
                mappings: st.mappings,
                originals: st.originals,
                writes: st.writes,
                deletes: st.deletes.push(f[1]),
            },
        )
    } else {
        Err(CoreError::CorruptTransaction)
    }
}

/// The first `n` lines read in order; the first failing line decides the error.
pub open spec fn parse_records(lines: Seq<Seq<char>>, n: int) -> Result<ParsedRecords, CoreError>
    decreases n,
{
    if n <= 0 {
        Ok(no_records())
    } else {
        match parse_records(lines, n - 1) {
            Err(e) => Err(e),
            Ok(st) => parse_record(st, lines[n - 1]),
        }
    }
}

/// What reading a stored manifest gives: the records in order, then a kind and a
/// status are required.
pub open spec fn manifest_result(text: Seq<char>) -> Result<ManifestView, CoreError> {
    let lines = text_lines(text);
    match parse_records(lines, lines.len() as int) {
        Err(e) => Err(e),
        Ok(st) => if st.kind is None {
            Err(CoreError::CorruptTransaction)
        } else if st.status is None {
            Err(CoreError::CorruptTransaction)
        } else {
            Ok(
                ManifestView {
                    kind: st.kind->0,
                    status: st.status->0,
                    mappings: st.mappings,
                    originals: st.originals,
                    writes: st.writes,
                    deletes: st.deletes,
                },
            )
        },
    }
}

proof fn lemma_split_on_nonempty(s: Seq<char>, c: char)
    ensures
        split_on(s, c).len() >= 1,
{
    lemma_first_index_of(s, c, 0);
}

proof fn lemma_records_err_extends(lines: Seq<Seq<char>>, i: int, n: int, e: CoreError)
    requires
        0 <= i <= n,
        parse_records(lines, i) == Err::<ParsedRecords, CoreError>(e),
    ensures
        parse_records(lines, n) == Err::<ParsedRecords, CoreError>(e),
    decreases n - i,
{
    if i < n {
        lemma_records_err_extends(lines, i, n - 1, e);
    }
}

/// The lines of `text` (`str::lines`).
pub(crate) fn text_lines_exec(text: &str) -> (r: Vec<Vec<char>>)
    ensures
        chars_view(r@) == text_lines(text@),
{
    let chars = str_chars(text);
    let pieces = split_chars(&chars, '\n');
    let ghost p = split_on(text@, '\n');
    proof {
        lemma_split_on_nonempty(text@, '\n');
        assert(chars_view(pieces@) == p);
        assert(pieces@.len() == p.len());
    }
    let last = pieces.len() - 1;
    let n = if pieces[last].len() == 0 {
        last
    } else {
        pieces.len()
    };
    proof {
        assert(pieces@[last as int]@ == p[last as int]);
    }
    let mut out: Vec<Vec<char>> = Vec::new();
    let mut i: usize = 0;
    while i < n
        invariant
            n <= pieces@.len(),
            pieces@.len() == p.len(),
            chars_view(pieces@) == p,
            n as int == (if p.last().len() == 0 {
                p.len() - 1
            } else {
                p.len() as int
            }),
            i <= n,
            chars_view(out@) == text_lines(text@).take(i as int),
            p == split_on(text@, '\n'),
        decreases n - i,
    {
        let piece = &pieces[i];
        proof {
            assert(piece@ == p[i as int]);
        }
        let line = if i + 1 < pieces.len() && piece.len() > 0 && piece[piece.len() - 1] == '\r' {
            sub_chars(piece, 0, piece.len() - 1)
        } else {
            sub_chars(piece, 0, piece.len())
        };
        proof {
            assert(line@ == text_lines(text@)[i as int]) by {
                if i + 1 < pieces@.len() {
                    if piece@.len() > 0 && piece@.last() == '\r' {
                        assert(line@ =~= piece@.drop_last());
                    } else {
                        assert(line@ =~= piece@);
                    }
                } else {
                    assert(line@ =~= piece@);
                }
            }
        }
        let ghost before = out@;
        out.push(line);
        proof {
            assert(chars_view(out@) =~= chars_view(before).push(line@));
            assert(chars_view(out@) =~= text_lines(text@).take(i + 1));
        }
        i = i + 1;
    }
    proof {
        assert(text_lines(text@).take(n as int) =~= text_lines(text@));
    }
    out
}

/// The page-backed id written `A/B/C` in `field` (`PageId::from_str`).
fn hierarchy_id(field: &Vec<char>) -> (r: Result<PageId, PagePathError>)
    ensures
        r is Ok <==> hierarchy_result(field@) is Ok,
        r matches Ok(id) ==> id@ == hierarchy_result(field@)->Ok_0,
        r matches Err(e) ==> hierarchy_result(field@) == Err::<PageIdView, PagePathError>(e),
{
    let segs = split_chars(field, '/');
    PageId::from_char_segments(PageLocation::Pages, &segs)
}

/// The record state held by the parts of a manifest read so far.
pub open spec fn records_of(
    kind: Option<OperationKind>,
    status: Option<TransactionStatus>,
    mappings: Seq<PageMapping>,
    originals: Seq<TransactionBlobEntry>,
    writes: Seq<TransactionBlobEntry>,
    deletes: Seq<String>,
) -> ParsedRecords {
    ParsedRecords {
        kind,
        status,
        mappings: mapping_views(mappings),
        originals: entry_views(originals),
        writes: entry_views(writes),
        deletes: string_views(deletes),
    }
}

/// Reads a stored manifest: one record per line, fields separated by tabs. A line
/// that is no known record, a `PAGE_MAP` whose ids are not valid page paths, or a
/// missing kind or status makes the manifest unreadable.
pub fn parse_manifest(text: &str) -> (r: Result<TransactionManifest, CoreError>)
    ensures
        r is Ok <==> manifest_result(text@) is Ok,
        r matches Ok(m) ==> m@ == manifest_result(text@)->Ok_0,
        r matches Err(e) ==> manifest_result(text@) == Err::<ManifestView, CoreError>(e),
{
    let lines = text_lines_exec(text);
    let ghost ls = text_lines(text@);
    let mut kind: Option<OperationKind> = None;
    let mut status: Option<TransactionStatus> = None;
    let mut page_mappings: Vec<PageMapping> = Vec::new();
    let mut originals: Vec<TransactionBlobEntry> = Vec::new();
    let mut writes: Vec<TransactionBlobEntry> = Vec::new();
    let mut deletes: Vec<String> = Vec::new();
    proof {
        reveal_strlit("VERSION");
        reveal_strlit("1");
        reveal_strlit("KIND");
        reveal_strlit("STATUS");
        reveal_strlit("PAGE_MAP");
        reveal_strlit("ORIGINAL");
        reveal_strlit("WRITE");
        reveal_strlit("DELETE");
        reveal_strlit("rename");
        reveal_strlit("move");
        reveal_strlit("delete");
        assert("VERSION"@ =~= word_version());
        assert("1"@ =~= word_one());
        assert("KIND"@ =~= word_kind());
        assert("STATUS"@ =~= word_status());
        assert("PAGE_MAP"@ =~= word_page_map());
        assert("ORIGINAL"@ =~= word_original());
        assert("WRITE"@ =~= word_write());
        assert("DELETE"@ =~= word_delete());
        assert("rename"@ =~= kind_word(OperationKind::Rename));
        assert("move"@ =~= kind_word(OperationKind::Move));
        assert("delete"@ =~= kind_word(OperationKind::Delete));
        assert(records_of(kind, status, page_mappings@, originals@, writes@, deletes@) =~= no_records());
    }
    let mut i: usize = 0;
    while i < lines.len()
        invariant
            i <= lines@.len(),
            chars_view(lines@) == ls,
            ls == text_lines(text@),
            parse_records(ls, i as int) == Ok::<ParsedRecords, CoreError>(
                records_of(kind, status, page_mappings@, originals@, writes@, deletes@),
            ),
            "VERSION"@ == word_version(),
            "1"@ == word_one(),
            "KIND"@ == word_kind(),
            "STATUS"@ == word_status(),
            "PAGE_MAP"@ == word_page_map(),
            "ORIGINAL"@ == word_original(),
            "WRITE"@ == word_write(),
            "DELETE"@ == word_delete(),
            "rename"@ == kind_word(OperationKind::Rename),
            "move"@ == kind_word(OperationKind::Move),
            "delete"@ == kind_word(OperationKind::Delete),
        decreases lines@.len() - i,
    {
        let line = &lines[i];
        let fields = split_chars(line, '\t');
        let ghost f = split_on(line@, '\t');
        let ghost st = records_of(kind, status, page_mappings@, originals@, writes@, deletes@);
        let ghost old_maps = page_mappings@;
        let ghost old_origs = originals@;
        let ghost old_writes = writes@;
        let ghost old_dels = deletes@;
        proof {
            assert(line@ == ls[i as int]);
            assert(chars_view(fields@) == f);
            assert(parse_records(ls, i + 1) == parse_record(st, ls[i as int]));
        }
        let n = fields.len();
        if n == 2 && chars_are(&fields[0], "VERSION") && chars_are(&fields[1], "1") {
            proof {
                assert(fields@[0]@ == f[0] && fields@[1]@ == f[1]);
            }
        } else if n == 2 && chars_are(&fields[0], "KIND") {
            proof {
                assert(fields@[0]@ == f[0] && fields@[1]@ == f[1]);
            }
            let name = chars_to_string(&fields[1]);
            kind = OperationKind::from_name(name.as_str());
        } else if n == 2 && chars_are(&fields[0], "STATUS") {
            proof {
                assert(fields@[0]@ == f[0] && fields@[1]@ == f[1]);
            }
            let name = chars_to_string(&fields[1]);
            status = TransactionStatus::from_name(name.as_str());
        } else if n == 5 && chars_are(&fields[0], "PAGE_MAP") {
            proof {
                assert(fields@[0]@ == f[0] && fields@[1]@ == f[1] && fields@[2]@ == f[2]);
                assert(fields@[3]@ == f[3] && fields@[4]@ == f[4]);
            }
            let a = match hierarchy_id(&fields[1]) {
                Ok(a) => a,
                Err(e) => {
                    proof {
                        lemma_records_err_extends(ls, i + 1, ls.len() as int, CoreError::InvalidPagePath(e));
                    }
                    return Err(CoreError::InvalidPagePath(e));
                },
            };
            let b = match hierarchy_id(&fields[2]) {
                Ok(b) => b,
                Err(e) => {
                    proof {
                        lemma_records_err_extends(ls, i + 1, ls.len() as int, CoreError::InvalidPagePath(e));
                    }
                    return Err(CoreError::InvalidPagePath(e));
                },
            };
            let old_path = chars_to_string(&fields[3]);
            let new_path = chars_to_string(&fields[4]);
            page_mappings.push(PageMapping { old_page_id: a, new_page_id: b, old_path, new_path });
            proof {
                assert(mapping_views(page_mappings@) =~= mapping_views(old_maps).push(page_mappings@.last()@));
            }
        } else if n == 3 && chars_are(&fields[0], "ORIGINAL") {
            proof {
                assert(fields@[0]@ == f[0] && fields@[1]@ == f[1] && fields@[2]@ == f[2]);
            }
            let workspace_path = chars_to_string(&fields[1]);
            let blob_name = chars_to_string(&fields[2]);
            originals.push(TransactionBlobEntry { workspace_path, blob_name });
            proof {
                assert(entry_views(originals@) =~= entry_views(old_origs).push((f[1], f[2])));
            }
        } else if n == 3 && chars_are(&fields[0], "WRITE") {
            proof {
                assert(fields@[0]@ == f[0] && fields@[1]@ == f[1] && fields@[2]@ == f[2]);
            }
            let workspace_path = chars_to_string(&fields[1]);
            let blob_name = chars_to_string(&fields[2]);
            writes.push(TransactionBlobEntry { workspace_path, blob_name });
            proof {
                assert(entry_views(writes@) =~= entry_views(old_writes).push((f[1], f[2])));
            }
        } else if n == 2 && chars_are(&fields[0], "DELETE") {
            proof {
                assert(fields@[0]@ == f[0] && fields@[1]@ == f[1]);
            }
            let path = chars_to_string(&fields[1]);
            deletes.push(path);
            proof {
                assert(string_views(deletes@) =~= string_views(old_dels).push(f[1]));
            }
        } else {
            proof {
                if n == 2 {
                    assert(fields@[0]@ == f[0] && fields@[1]@ == f[1]);
                }
                if n == 3 || n == 5 {
                    assert(fields@[0]@ == f[0]);
                }
                lemma_records_err_extends(ls, i + 1, ls.len() as int, CoreError::CorruptTransaction);
            }
            return Err(CoreError::CorruptTransaction);
        }
        proof {
            assert(parse_records(ls, i + 1) == Ok::<ParsedRecords, CoreError>(
                records_of(kind, status, page_mappings@, originals@, writes@, deletes@),
            ));
        }
        i = i + 1;
    }
    match (kind, status) {
        (Some(kind), Some(status)) => {
            let m = TransactionManifest { kind, status, page_mappings, originals, writes, deletes };
            proof {
                assert(m@ =~= manifest_result(text@)->Ok_0);
            }
            Ok(m)
        },
        _ => Err(CoreError::CorruptTransaction),
    }
}

// ---------------------------------------------------------------------------
// Writing the stored text.
// ---------------------------------------------------------------------------

/// Fields separated by tabs.
pub open spec fn tab_join(fields: Seq<Seq<char>>) -> Seq<char> {
    join_with(fields, seq!['\t'])
}

/// A page-backed id written `A/B/C`.
pub open spec fn slash_join(segments: Seq<Seq<char>>) -> Seq<char> {
    join_with(segments, seq!['/'])
}

pub open spec fn mapping_record(m: MappingView) -> Seq<char> {
    tab_join(
        seq![
            word_page_map(),
            slash_join(m.old_id.segments),
            slash_join(m.new_id.segments),
            m.old_path,
            m.new_path,
        ],
    )
}

pub open spec fn entry_record(word: Seq<char>, e: (Seq<char>, Seq<char>)) -> Seq<char> {
    tab_join(seq![word, e.0, e.1])
}

pub open spec fn delete_record(path: Seq<char>) -> Seq<char> {
    tab_join(seq![word_delete(), path])
}

pub open spec fn header_records(m: ManifestView) -> Seq<Seq<char>> {
    seq![
        tab_join(seq![word_version(), word_one()]),
        tab_join(seq![word_kind(), kind_word(m.kind)]),
        tab_join(seq![word_status(), status_word(m.status)]),
    ]
}

pub open spec fn mapping_records(s: Seq<MappingView>) -> Seq<Seq<char>> {
    s.map_values(|x: MappingView| mapping_record(x))
}

pub open spec fn entry_records(word: Seq<char>, s: Seq<(Seq<char>, Seq<char>)>) -> Seq<Seq<char>> {
    s.map_values(|e: (Seq<char>, Seq<char>)| entry_record(word, e))
}

pub open spec fn delete_records(s: Seq<Seq<char>>) -> Seq<Seq<char>> {
    s.map_values(|p: Seq<char>| delete_record(p))
}

/// The records of a manifest, in the order they are stored.
pub open spec fn manifest_records(m: ManifestView) -> Seq<Seq<char>> {
    header_records(m) + mapping_records(m.mappings) + entry_records(word_original(), m.originals)
        + entry_records(word_write(), m.writes) + delete_records(m.deletes)
}

/// The stored text of a manifest: its records joined by `\n`.
pub open spec fn manifest_text(m: ManifestView) -> Seq<char> {
    join_with(manifest_records(m), seq!['\n'])
}

/// The strings of `parts` joined by `sep` (`[..].join(sep)`).
fn join_strings(parts: &Vec<String>, sep: char) -> (r: String)
    ensures
        r@ == join_with(string_views(parts@), seq![sep]),
{
    let mut out = String::new();
    let mut i: usize = 0;
    while i < parts.len()
        invariant
            i <= parts@.len(),
            out@ == join_with(string_views(parts@).take(i as int), seq![sep]),
        decreases parts@.len() - i,
    {
        let ghost before = out@;
        if i > 0 {
            push_char(&mut out, sep);
        }
        out.append(parts[i].as_str());
        proof {
            let s = string_views(parts@);
            assert(s.take(i + 1).drop_last() =~= s.take(i as int));
            if i == 0 {
                assert(out@ =~= s.take(1)[0]);
            } else {
                assert(out@ =~= before + seq![sep] + s[i as int]);
            }
        }
        i = i + 1;
    }
    proof {
        assert(string_views(parts@).take(parts@.len() as int) =~= string_views(parts@));
    }
    out
}

/// Appends the stored record of a page mapping.
fn mapping_record_exec(m: &PageMapping) -> (r: String)
    requires
        m.old_page_id@.location is Pages,
        m.new_page_id@.location is Pages,
    ensures
        r@ == mapping_record(m@),
{
    let mut fields: Vec<String> = Vec::new();
    fields.push("PAGE_MAP".to_owned());
    fields.push(m.old_page_id.hierarchy_display());
    fields.push(m.new_page_id.hierarchy_display());
    fields.push(m.old_path.clone());
    fields.push(m.new_path.clone());
    proof {
        reveal_strlit("PAGE_MAP");
        assert("PAGE_MAP"@ =~= word_page_map());
        assert(string_views(fields@) =~= seq![
            word_page_map(),
            slash_join(m@.old_id.segments),
            slash_join(m@.new_id.segments),
            m@.old_path,
            m@.new_path,
        ]);
    }
    join_strings(&fields, '\t')
}

/// The stored record `word<TAB>a<TAB>b`.
fn three_field_record(word: &str, a: &String, b: &String) -> (r: String)
    ensures
        r@ == tab_join(seq![word@, a@, b@]),
{
    let mut fields: Vec<String> = Vec::new();
    fields.push(word.to_owned());
    fields.push(a.clone());
    fields.push(b.clone());
    proof {
        assert(string_views(fields@) =~= seq![word@, a@, b@]);
    }
    join_strings(&fields, '\t')
}

/// The stored record `word<TAB>a`.
fn two_field_record(word: &str, a: &str) -> (r: String)
    ensures
        r@ == tab_join(seq![word@, a@]),
{
    let mut fields: Vec<String> = Vec::new();
    fields.push(word.to_owned());
    fields.push(a.to_owned());
    proof {
        assert(string_views(fields@) =~= seq![word@, a@]);
    }
    join_strings(&fields, '\t')
}

/// The stored text of a manifest. Page mappings name page-backed pages only.
pub fn render_manifest(m: &TransactionManifest) -> (r: String)
    requires
        forall|i: int|
            0 <= i < m.page_mappings@.len() ==> (#[trigger] m.page_mappings@[i]).old_page_id@.location is Pages
                && m.page_mappings@[i].new_page_id@.location is Pages,
    ensures
        r@ == manifest_text(m@),
{
    proof {
        reveal_strlit("VERSION");
        reveal_strlit("1");
        reveal_strlit("KIND");
        reveal_strlit("STATUS");
        reveal_strlit("ORIGINAL");
        reveal_strlit("WRITE");
        reveal_strlit("DELETE");
        reveal_strlit("rename");
        reveal_strlit("move");
        reveal_strlit("delete");
        assert("VERSION"@ =~= word_version());
        assert("1"@ =~= word_one());
        assert("KIND"@ =~= word_kind());
        assert("STATUS"@ =~= word_status());
        assert("ORIGINAL"@ =~= word_original());
        assert("WRITE"@ =~= word_write());
        assert("DELETE"@ =~= word_delete());
        assert("rename"@ =~= kind_word(OperationKind::Rename));
        assert("move"@ =~= kind_word(OperationKind::Move));
        assert("delete"@ =~= kind_word(OperationKind::Delete));
    }
    let mut records: Vec<String> = Vec::new();
    records.push(two_field_record("VERSION", "1"));
    records.push(two_field_record("KIND", m.kind.as_str()));
    records.push(two_field_record("STATUS", m.status.as_str()));
    let ghost mv = m@;
    proof {
        assert(string_views(records@) =~= header_records(mv));
    }
    let mut i: usize = 0;
    while i < m.page_mappings.len()
        invariant
            mv == m@,
            i <= m.page_mappings@.len(),
            forall|j: int|
                0 <= j < m.page_mappings@.len() ==> (#[trigger] m.page_mappings@[j]).old_page_id@.location is Pages
                    && m.page_mappings@[j].new_page_id@.location is Pages,
            string_views(records@) == header_records(mv) + mapping_records(mv.mappings).take(i as int),
        decreases m.page_mappings@.len() - i,
    {
        let ghost before = records@;
        records.push(mapping_record_exec(&m.page_mappings[i]));
        proof {
            assert(string_views(records@) =~= string_views(before).push(mapping_record(mv.mappings[i as int])));
            assert(mapping_records(mv.mappings).take(i + 1) =~= mapping_records(mv.mappings).take(i as int).push(
                mapping_record(mv.mappings[i as int])));
        }
        i = i + 1;
    }
    let ghost base1 = header_records(mv) + mapping_records(mv.mappings);
    proof {
        assert(mapping_records(mv.mappings).take(m.page_mappings@.len() as int) =~= mapping_records(mv.mappings));
        assert(string_views(records@) =~= base1);
    }
    let mut i: usize = 0;
    while i < m.originals.len()
        invariant
            mv == m@,
            "ORIGINAL"@ == word_original(),
            i <= m.originals@.len(),
            string_views(records@) == base1 + entry_records(word_original(), mv.originals).take(i as int),
        decreases m.originals@.len() - i,
    {
        let ghost before = records@;
        let e = &m.originals[i];
        records.push(three_field_record("ORIGINAL", &e.workspace_path, &e.blob_name));
        proof {
            assert(string_views(records@) =~= string_views(before).push(
                entry_record(word_original(), mv.originals[i as int]),
            ));
            assert(entry_records(word_original(), mv.originals).take(i + 1) =~= entry_records(
                word_original(),
                mv.originals,
            ).take(i as int).push(entry_record(word_original(), mv.originals[i as int])));
        }
        i = i + 1;
    }
    let ghost base2 = base1 + entry_records(word_original(), mv.originals);
    proof {
        assert(entry_records(word_original(), mv.originals).take(m.originals@.len() as int)
            =~= entry_records(word_original(), mv.originals));
        assert(string_views(records@) =~= base2);
    }
    let mut i: usize = 0;
    while i < m.writes.len()
        invariant
            mv == m@,
            "WRITE"@ == word_write(),
            i <= m.writes@.len(),
            string_views(records@) == base2 + entry_records(word_write(), mv.writes).take(i as int),
        decreases m.writes@.len() - i,
    {
        let ghost before = records@;
        let e = &m.writes[i];
        records.push(three_field_record("WRITE", &e.workspace_path, &e.blob_name));
        proof {
            assert(string_views(records@) =~= string_views(before).push(
                entry_record(word_write(), mv.writes[i as int]),
            ));
            assert(entry_records(word_write(), mv.writes).take(i + 1) =~= entry_records(
                word_write(),
                mv.writes,
            ).take(i as int).push(entry_record(word_write(), mv.writes[i as int])));
        }
        i = i + 1;
    }
    let ghost base3 = base2 + entry_records(word_write(), mv.writes);
    proof {
        assert(entry_records(word_write(), mv.writes).take(m.writes@.len() as int) =~= entry_records(
            word_write(),
            mv.writes,
        ));
        assert(string_views(records@) =~= base3);
    }
    let mut i: usize = 0;
    while i < m.deletes.len()
        invariant
            mv == m@,
            "DELETE"@ == word_delete(),
            i <= m.deletes@.len(),
            string_views(records@) == base3 + delete_records(mv.deletes).take(i as int),
        decreases m.deletes@.len() - i,
    {
        let ghost before = records@;
        records.push(two_field_record("DELETE", m.deletes[i].as_str()));
        proof {
            assert(string_views(records@) =~= string_views(before).push(delete_record(mv.deletes[i as int])));
            assert(delete_records(mv.deletes).take(i + 1) =~= delete_records(mv.deletes).take(i as int).push(
                delete_record(mv.deletes[i as int])));
        }
        i = i + 1;
    }
    proof {
        assert(delete_records(mv.deletes).take(m.deletes@.len() as int) =~= delete_records(mv.deletes));
        assert(string_views(records@) =~= manifest_records(mv));
    }
    join_strings(&records, '\n')
}

// ---------------------------------------------------------------------------
// Reading back what was written.
// ---------------------------------------------------------------------------

/// A field the line format can hold: no tab, newline or carriage return.
pub open spec fn storable_field(s: Seq<char>) -> bool {
    forall|i: int| 0 <= i < s.len() ==> #[trigger] s[i] != '\t' && s[i] != '\n' && s[i] != '\r'
}

/// A valid page-backed identity.
pub open spec fn storable_page_id(id: PageIdView) -> bool {
    &&& id.location is Pages
    &&& id.segments.len() >= 1
    &&& forall|i: int| 0 <= i < id.segments.len() ==> valid_name(#[trigger] id.segments[i])
}

pub open spec fn storable_mapping(x: MappingView) -> bool {
    &&& storable_page_id(x.old_id)
    &&& storable_page_id(x.new_id)
    &&& storable_field(x.old_path)
    &&& storable_field(x.new_path)
}

pub open spec fn storable_entry(e: (Seq<char>, Seq<char>)) -> bool {
    storable_field(e.0) && storable_field(e.1)
}

/// A manifest whose ids are valid page paths and whose paths and blob names the line
/// format can hold.
pub open spec fn storable_manifest(m: ManifestView) -> bool {
    &&& forall|i: int| 0 <= i < m.mappings.len() ==> storable_mapping(#[trigger] m.mappings[i])
    &&& forall|i: int| 0 <= i < m.originals.len() ==> storable_entry(#[trigger] m.originals[i])
    &&& forall|i: int| 0 <= i < m.writes.len() ==> storable_entry(#[trigger] m.writes[i])
    &&& forall|i: int| 0 <= i < m.deletes.len() ==> storable_field(#[trigger] m.deletes[i])
}

/// No element of `s` is `c`.
pub open spec fn free_of(s: Seq<char>, c: char) -> bool {
    forall|i: int| 0 <= i < s.len() ==> #[trigger] s[i] != c
}

pub(crate) proof fn lemma_first_index_is(s: Seq<char>, c: char, k: int)
    requires
        0 <= k < s.len(),
        s[k] == c,
        forall|j: int| 0 <= j < k ==> s[j] != c,
    ensures
        first_index_of(s, c, 0) == k,
{
    lemma_first_index_of(s, c, 0);
    let f = first_index_of(s, c, 0);
    if f == -1 {
        assert(s[k] != c);
    } else if f < k {
        assert(s[f] != c);
    } else if f > k {
        assert(s[k] != c);
    }
}

pub(crate) proof fn lemma_split_free(x: Seq<char>, c: char)
    requires
        free_of(x, c),
    ensures
        split_on(x, c) == seq![x],
{
    lemma_first_index_of(x, c, 0);
    let f = first_index_of(x, c, 0);
    if f != -1 {
        assert(x[f] != c);
    }
}

pub(crate) proof fn lemma_split_concat(x: Seq<char>, y: Seq<char>, c: char)
    ensures
        split_on(x + seq![c] + y, c) == split_on(x, c) + split_on(y, c),
    decreases x.len(),
{
    let s = x + seq![c] + y;
    lemma_first_index_of(x, c, 0);
    let k = first_index_of(x, c, 0);
    if k == -1 {
        assert forall|j: int| 0 <= j < x.len() implies s[j] != c by {
            assert(s[j] == x[j]);
        }
        lemma_first_index_is(s, c, x.len() as int);
        lemma_split_free(x, c);
        assert(s.take(x.len() as int) =~= x);
        assert(s.skip(x.len() as int + 1) =~= y);
    } else {
        assert forall|j: int| 0 <= j < k implies s[j] != c by {
            assert(s[j] == x[j]);
        }
        lemma_first_index_is(s, c, k);
        let rest = x.skip(k + 1);
        lemma_split_concat(rest, y, c);
        assert(s.take(k) =~= x.take(k));
        assert(s.skip(k + 1) =~= rest + seq![c] + y);
        assert(split_on(x, c) == seq![x.take(k)] + split_on(rest, c));
        assert(split_on(s, c) == seq![s.take(k)] + split_on(s.skip(k + 1), c));
        assert(split_on(s, c) =~= split_on(x, c) + split_on(y, c));
    }
}

/// Splitting at `c` undoes joining with `c`, when no part holds `c`.
pub(crate) proof fn lemma_split_join(parts: Seq<Seq<char>>, c: char)
    requires
        parts.len() >= 1,
        forall|i: int| 0 <= i < parts.len() ==> free_of(#[trigger] parts[i], c),
    ensures
        split_on(join_with(parts, seq![c]), c) == parts,
    decreases parts.len(),
{
    if parts.len() == 1 {
        assert(free_of(parts[0], c));
        lemma_split_free(parts[0], c);
        assert(seq![parts[0]] =~= parts);
    } else {
        let init = parts.drop_last();
        assert forall|i: int| 0 <= i < init.len() implies free_of(#[trigger] init[i], c) by {
            assert(init[i] == parts[i]);
        }
        lemma_split_join(init, c);
        assert(free_of(parts.last(), c));
        lemma_split_free(parts.last(), c);
        lemma_split_concat(join_with(init, seq![c]), parts.last(), c);
        assert(init + seq![parts.last()] =~= parts);
    }
}

/// Joining parts free of `c` with a separator free of `c` gives text free of `c`.
pub(crate) proof fn lemma_join_free(parts: Seq<Seq<char>>, sep: char, c: char)
    requires
        sep != c,
        forall|i: int| 0 <= i < parts.len() ==> free_of(#[trigger] parts[i], c),
    ensures
        free_of(join_with(parts, seq![sep]), c),
    decreases parts.len(),
{
    if parts.len() == 1 {
        assert(free_of(parts[0], c));
    } else if parts.len() >= 2 {
        let init = parts.drop_last();
        assert forall|i: int| 0 <= i < init.len() implies free_of(#[trigger] init[i], c) by {
            assert(init[i] == parts[i]);
        }
        lemma_join_free(init, sep, c);
        assert(free_of(parts.last(), c));
        let j = join_with(init, seq![sep]) + seq![sep] + parts.last();
        assert forall|i: int| 0 <= i < j.len() implies #[trigger] j[i] != c by {
            if i < join_with(init, seq![sep]).len() {
                assert(j[i] == join_with(init, seq![sep])[i]);
            } else if i > join_with(init, seq![sep]).len() {
                assert(j[i] == parts.last()[i - join_with(init, seq![sep]).len() - 1]);
            }
        }
    }
}

/// The lines of text joined by `\n` are the lines joined.
proof fn lemma_text_lines_join(lines: Seq<Seq<char>>)
    requires
        lines.len() >= 1,
        lines.last().len() > 0,
        forall|i: int| 0 <= i < lines.len() ==> free_of(#[trigger] lines[i], '\n'),
        forall|i: int| 0 <= i < lines.len() ==> free_of(#[trigger] lines[i], '\r'),
    ensures
        text_lines(join_with(lines, seq!['\n'])) == lines,
{
    lemma_split_join(lines, '\n');
    let t = text_lines(join_with(lines, seq!['\n']));
    assert forall|i: int| 0 <= i < lines.len() implies t[i] == lines[i] by {
        assert(free_of(lines[i], '\r'));
        if lines[i].len() > 0 {
            assert(lines[i][lines[i].len() - 1] != '\r');
        }
    }
    assert(t =~= lines);
}

/// The characters of a valid name are neither separators nor control characters.
proof fn lemma_name_free(s: Seq<char>)
    requires
        valid_name(s),
    ensures
        free_of(s, '/'),
        free_of(s, '\t'),
        free_of(s, '\n'),
        free_of(s, '\r'),
{
    lemma_valid_name_chars(s);
}

/// A stored page-backed id reads back as itself.
proof fn lemma_hierarchy_round_trip(id: PageIdView)
    requires
        storable_page_id(id),
    ensures
        hierarchy_result(slash_join(id.segments)) == Ok::<PageIdView, PagePathError>(id),
        free_of(slash_join(id.segments), '\t'),
        free_of(slash_join(id.segments), '\n'),
        free_of(slash_join(id.segments), '\r'),
{
    let segs = id.segments;
    assert forall|i: int| 0 <= i < segs.len() implies free_of(#[trigger] segs[i], '/') by {
        lemma_name_free(segs[i]);
    }
    assert forall|i: int| 0 <= i < segs.len() implies free_of(#[trigger] segs[i], '\t') by {
        lemma_name_free(segs[i]);
    }
    assert forall|i: int| 0 <= i < segs.len() implies free_of(#[trigger] segs[i], '\n') by {
        lemma_name_free(segs[i]);
    }
    assert forall|i: int| 0 <= i < segs.len() implies free_of(#[trigger] segs[i], '\r') by {
        lemma_name_free(segs[i]);
    }
    lemma_split_join(segs, '/');
    lemma_join_free(segs, '/', '\t');
    lemma_join_free(segs, '/', '\n');
    lemma_join_free(segs, '/', '\r');
    assert forall|j: int| 0 <= j < segs.len() implies super::names::name_error(#[trigger] segs[j]) is None by {
        assert(valid_name(segs[j]));
    }
    lemma_first_name_error_none(segs, 0);
    assert(id == PageIdView { location: LocationView::Pages, segments: segs });
}

/// A record made of fields free of tabs splits back into those fields.
proof fn lemma_record_fields(fields: Seq<Seq<char>>)
    requires
        fields.len() >= 1,
        forall|i: int| 0 <= i < fields.len() ==> free_of(#[trigger] fields[i], '\t'),
    ensures
        split_on(tab_join(fields), '\t') == fields,
{
    lemma_split_join(fields, '\t');
}

/// A record made of fields free of newlines and carriage returns holds neither.
proof fn lemma_record_free(fields: Seq<Seq<char>>)
    requires
        forall|i: int| 0 <= i < fields.len() ==> free_of(#[trigger] fields[i], '\n'),
        forall|i: int| 0 <= i < fields.len() ==> free_of(#[trigger] fields[i], '\r'),
    ensures
        free_of(tab_join(fields), '\n'),
        free_of(tab_join(fields), '\r'),
{
    lemma_join_free(fields, '\t', '\n');
    lemma_join_free(fields, '\t', '\r');
}


proof fn lemma_storable_free(s: Seq<char>)
    requires
        storable_field(s),
    ensures
        free_of(s, '\t'),
        free_of(s, '\n'),
        free_of(s, '\r'),
{
}

proof fn lemma_word_facts()
    ensures
        free_of(word_version(), '\t') && free_of(word_version(), '\n') && free_of(word_version(), '\r'),
        free_of(word_one(), '\t') && free_of(word_one(), '\n') && free_of(word_one(), '\r'),
        free_of(word_kind(), '\t') && free_of(word_kind(), '\n') && free_of(word_kind(), '\r'),
        free_of(word_status(), '\t') && free_of(word_status(), '\n') && free_of(word_status(), '\r'),
        free_of(word_page_map(), '\t') && free_of(word_page_map(), '\n') && free_of(word_page_map(), '\r'),
        free_of(word_original(), '\t') && free_of(word_original(), '\n') && free_of(word_original(), '\r'),
        free_of(word_write(), '\t') && free_of(word_write(), '\n') && free_of(word_write(), '\r'),
        free_of(word_delete(), '\t') && free_of(word_delete(), '\n') && free_of(word_delete(), '\r'),
        forall|k: OperationKind|
            free_of(#[trigger] kind_word(k), '\t') && free_of(kind_word(k), '\n') && free_of(kind_word(k), '\r'),
        forall|k: TransactionStatus|
            free_of(#[trigger] status_word(k), '\t') && free_of(status_word(k), '\n') && free_of(status_word(k), '\r'),
        forall|k: OperationKind| kind_named(#[trigger] kind_word(k)) == Some(k),
        forall|k: TransactionStatus| status_named(#[trigger] status_word(k)) == Some(k),
        word_kind() != word_version(),
        word_status() != word_version(),
        word_status() != word_kind(),
        word_delete() != word_version(),
        word_delete() != word_kind(),
        word_delete() != word_status(),
        word_write() != word_original(),
{
    assert(word_status()[0] != word_delete()[0]);
    assert(kind_word(OperationKind::Rename)[0] != kind_word(OperationKind::Delete)[0]);
    assert(status_word(TransactionStatus::Prepared)[0] != status_word(TransactionStatus::Applying)[0]);
}

/// A join of at least two parts is not empty.
proof fn lemma_join_nonempty(parts: Seq<Seq<char>>, sep: Seq<char>)
    requires
        parts.len() >= 2,
        sep.len() >= 1,
    ensures
        join_with(parts, sep).len() >= 1,
{
}

pub open spec fn header_state(m: ManifestView) -> ParsedRecords {
    ParsedRecords {
        kind: Some(m.kind),
        status: Some(m.status),
        mappings: seq![],
        originals: seq![],
        writes: seq![],
        deletes: seq![],
    }
}

proof fn lemma_fold_header(lines: Seq<Seq<char>>, m: ManifestView)
    requires
        lines.len() >= 3,
        lines.take(3) == header_records(m),
    ensures
        parse_records(lines, 3) == Ok::<ParsedRecords, CoreError>(header_state(m)),
{
    lemma_word_facts();
    assert(lines[0] == header_records(m)[0]);
    assert(lines[1] == header_records(m)[1]);
    assert(lines[2] == header_records(m)[2]);
    let f0 = seq![word_version(), word_one()];
    let f1 = seq![word_kind(), kind_word(m.kind)];
    let f2 = seq![word_status(), status_word(m.status)];
    lemma_record_fields(f0);
    lemma_record_fields(f1);
    lemma_record_fields(f2);
    assert(parse_records(lines, 0) == Ok::<ParsedRecords, CoreError>(no_records()));
    assert(parse_records(lines, 1) == Ok::<ParsedRecords, CoreError>(no_records()));
    let s1 = ParsedRecords { kind: Some(m.kind), ..no_records() };
    assert(parse_records(lines, 2) == Ok::<ParsedRecords, CoreError>(s1));
    assert(parse_records(lines, 3) == Ok::<ParsedRecords, CoreError>(header_state(m)));
}

proof fn lemma_fold_mappings(lines: Seq<Seq<char>>, st: ParsedRecords, base: int, maps: Seq<MappingView>, k: int)
    requires
        0 <= base,
        0 <= k <= maps.len(),
        base + maps.len() <= lines.len(),
        parse_records(lines, base) == Ok::<ParsedRecords, CoreError>(st),
        forall|i: int| 0 <= i < maps.len() ==> lines[base + i] == mapping_record(#[trigger] maps[i]),
        forall|i: int| 0 <= i < maps.len() ==> storable_mapping(#[trigger] maps[i]),
    ensures
        parse_records(lines, base + k) == Ok::<ParsedRecords, CoreError>(
            ParsedRecords { mappings: st.mappings + maps.take(k), ..st },
        ),
    decreases k,
{
    if k == 0 {
        assert(st.mappings + maps.take(0) =~= st.mappings);
        assert(ParsedRecords { mappings: st.mappings + maps.take(k), ..st } == st);
    } else {
        lemma_fold_mappings(lines, st, base, maps, k - 1);
        let x = maps[k - 1];
        assert(storable_mapping(x));
        assert(lines[base + k - 1] == mapping_record(x));
        lemma_word_facts();
        lemma_hierarchy_round_trip(x.old_id);
        lemma_hierarchy_round_trip(x.new_id);
        lemma_storable_free(x.old_path);
        lemma_storable_free(x.new_path);
        let f = seq![
            word_page_map(),
            slash_join(x.old_id.segments),
            slash_join(x.new_id.segments),
            x.old_path,
            x.new_path,
        ];
        lemma_record_fields(f);
        assert(split_on(lines[base + k - 1], '\t') == f);
        assert((st.mappings + maps.take(k - 1)).push(x) =~= st.mappings + maps.take(k));
    }
}

pub open spec fn with_entries(st: ParsedRecords, w: Seq<char>, es: Seq<(Seq<char>, Seq<char>)>) -> ParsedRecords {
    if w == word_original() {
        ParsedRecords { originals: st.originals + es, ..st }
    } else {
        ParsedRecords { writes: st.writes + es, ..st }
    }
}

proof fn lemma_fold_entries(
    lines: Seq<Seq<char>>,
    st: ParsedRecords,
    base: int,
    w: Seq<char>,
    es: Seq<(Seq<char>, Seq<char>)>,
    k: int,
)
    requires
        w == word_original() || w == word_write(),
        0 <= base,
        0 <= k <= es.len(),
        base + es.len() <= lines.len(),
        parse_records(lines, base) == Ok::<ParsedRecords, CoreError>(st),
        forall|i: int| 0 <= i < es.len() ==> lines[base + i] == entry_record(w, #[trigger] es[i]),
        forall|i: int| 0 <= i < es.len() ==> storable_entry(#[trigger] es[i]),
    ensures
        parse_records(lines, base + k) == Ok::<ParsedRecords, CoreError>(with_entries(st, w, es.take(k))),
    decreases k,
{
    if k == 0 {
        assert(st.originals + es.take(0) =~= st.originals);
        assert(st.writes + es.take(0) =~= st.writes);
        assert(with_entries(st, w, es.take(0)) == st);
    } else {
        lemma_fold_entries(lines, st, base, w, es, k - 1);
        let e = es[k - 1];
        assert(storable_entry(e));
        assert(lines[base + k - 1] == entry_record(w, e));
        lemma_word_facts();
        lemma_storable_free(e.0);
        lemma_storable_free(e.1);
        let f = seq![w, e.0, e.1];
        lemma_record_fields(f);
        assert(split_on(lines[base + k - 1], '\t') == f);
        assert((st.originals + es.take(k - 1)).push(e) =~= st.originals + es.take(k));
        assert((st.writes + es.take(k - 1)).push(e) =~= st.writes + es.take(k));
    }
}

proof fn lemma_fold_deletes(lines: Seq<Seq<char>>, st: ParsedRecords, base: int, ds: Seq<Seq<char>>, k: int)
    requires
        0 <= base,
        0 <= k <= ds.len(),
        base + ds.len() <= lines.len(),
        parse_records(lines, base) == Ok::<ParsedRecords, CoreError>(st),
        forall|i: int| 0 <= i < ds.len() ==> lines[base + i] == delete_record(#[trigger] ds[i]),
        forall|i: int| 0 <= i < ds.len() ==> storable_field(#[trigger] ds[i]),
    ensures
        parse_records(lines, base + k) == Ok::<ParsedRecords, CoreError>(
            ParsedRecords { deletes: st.deletes + ds.take(k), ..st },
        ),
    decreases k,
{
    if k == 0 {
        assert(st.deletes + ds.take(0) =~= st.deletes);
        assert(ParsedRecords { deletes: st.deletes + ds.take(k), ..st } == st);
    } else {
        lemma_fold_deletes(lines, st, base, ds, k - 1);
        let d = ds[k - 1];
        assert(storable_field(d));
        assert(lines[base + k - 1] == delete_record(d));
        lemma_word_facts();
        lemma_storable_free(d);
        let f = seq![word_delete(), d];
        lemma_record_fields(f);
        assert(split_on(lines[base + k - 1], '\t') == f);
        assert((st.deletes + ds.take(k - 1)).push(d) =~= st.deletes + ds.take(k));
    }
}

/// Law: every manifest that the line format can hold is read back from its stored
/// text exactly as it was.
pub proof fn law_manifest_round_trip(m: ManifestView)
    requires
        storable_manifest(m),
    ensures
        manifest_result(manifest_text(m)) == Ok::<ManifestView, CoreError>(m),
{
    let lines = manifest_records(m);
    let h = header_records(m);
    let mr = mapping_records(m.mappings);
    let orr = entry_records(word_original(), m.originals);
    let wr = entry_records(word_write(), m.writes);
    let dr = delete_records(m.deletes);
    let a: int = 3;
    let b: int = a + m.mappings.len();
    let c: int = b + m.originals.len();
    let d: int = c + m.writes.len();
    let e: int = d + m.deletes.len();
    assert(lines.len() == e);
    lemma_word_facts();
    // Every record is free of line breaks, and the last one is not empty.
    assert forall|i: int| 0 <= i < lines.len() implies free_of(#[trigger] lines[i], '\n') && free_of(
        lines[i],
        '\r',
    ) by {
        if i < a {
            assert(lines[i] == h[i]);
            lemma_record_free(seq![word_version(), word_one()]);
            lemma_record_free(seq![word_kind(), kind_word(m.kind)]);
            lemma_record_free(seq![word_status(), status_word(m.status)]);
        } else if i < b {
            let x = m.mappings[i - a];
            assert(storable_mapping(x));
            assert(lines[i] == mr[i - a]);
            lemma_hierarchy_round_trip(x.old_id);
            lemma_hierarchy_round_trip(x.new_id);
            lemma_storable_free(x.old_path);
            lemma_storable_free(x.new_path);
            lemma_record_free(
                seq![
                    word_page_map(),
                    slash_join(x.old_id.segments),
                    slash_join(x.new_id.segments),
                    x.old_path,
                    x.new_path,
                ],
            );
        } else if i < c {
            let x = m.originals[i - b];
            assert(storable_entry(x));
            assert(lines[i] == orr[i - b]);
            lemma_storable_free(x.0);
            lemma_storable_free(x.1);
            lemma_record_free(seq![word_original(), x.0, x.1]);
        } else if i < d {
            let x = m.writes[i - c];
            assert(storable_entry(x));
            assert(lines[i] == wr[i - c]);
            lemma_storable_free(x.0);
            lemma_storable_free(x.1);
            lemma_record_free(seq![word_write(), x.0, x.1]);
        } else {
            let x = m.deletes[i - d];
            assert(storable_field(x));
            assert(lines[i] == dr[i - d]);
            lemma_storable_free(x);
            lemma_record_free(seq![word_delete(), x]);
        }
    }
    assert(lines.last().len() > 0) by {
        let i = e - 1;
        if i < a {
            assert(lines[i] == h[i]);
            lemma_join_nonempty(seq![word_status(), status_word(m.status)], seq!['\t']);
        } else if i < b {
            let x = m.mappings[i - a];
            assert(lines[i] == mr[i - a]);
            lemma_join_nonempty(
                seq![
                    word_page_map(),
                    slash_join(x.old_id.segments),
                    slash_join(x.new_id.segments),
                    x.old_path,
                    x.new_path,
                ],
                seq!['\t'],
            );
        } else if i < c {
            let x = m.originals[i - b];
            assert(lines[i] == orr[i - b]);
            lemma_join_nonempty(seq![word_original(), x.0, x.1], seq!['\t']);
        } else if i < d {
            let x = m.writes[i - c];
            assert(lines[i] == wr[i - c]);
            lemma_join_nonempty(seq![word_write(), x.0, x.1], seq!['\t']);
        } else {
            let x = m.deletes[i - d];
            assert(lines[i] == dr[i - d]);
            lemma_join_nonempty(seq![word_delete(), x], seq!['\t']);
        }
    }
    lemma_text_lines_join(lines);
    // The records are read in order.
    assert(lines.take(3) =~= h);
    lemma_fold_header(lines, m);
    let s0 = header_state(m);
    assert forall|i: int| 0 <= i < m.mappings.len() implies lines[a + i] == mapping_record(
        #[trigger] m.mappings[i],
    ) by {
        assert(lines[a + i] == mr[i]);
    }
    lemma_fold_mappings(lines, s0, a, m.mappings, m.mappings.len() as int);
    assert(m.mappings.take(m.mappings.len() as int) =~= m.mappings);
    let s1 = ParsedRecords { mappings: s0.mappings + m.mappings, ..s0 };
    assert(s0.mappings + m.mappings =~= m.mappings);
    assert forall|i: int| 0 <= i < m.originals.len() implies lines[b + i] == entry_record(
        word_original(),
        #[trigger] m.originals[i],
    ) by {
        assert(lines[b + i] == orr[i]);
    }
    lemma_fold_entries(lines, s1, b, word_original(), m.originals, m.originals.len() as int);
    assert(m.originals.take(m.originals.len() as int) =~= m.originals);
    let s2 = with_entries(s1, word_original(), m.originals);
    assert forall|i: int| 0 <= i < m.writes.len() implies lines[c + i] == entry_record(
        word_write(),
        #[trigger] m.writes[i],
    ) by {
        assert(lines[c + i] == wr[i]);
    }
    lemma_fold_entries(lines, s2, c, word_write(), m.writes, m.writes.len() as int);
    assert(m.writes.take(m.writes.len() as int) =~= m.writes);
    let s3 = with_entries(s2, word_write(), m.writes);
    assert forall|i: int| 0 <= i < m.deletes.len() implies lines[d + i] == delete_record(
        #[trigger] m.deletes[i],
    ) by {
        assert(lines[d + i] == dr[i]);
    }
    lemma_fold_deletes(lines, s3, d, m.deletes, m.deletes.len() as int);
    assert(m.deletes.take(m.deletes.len() as int) =~= m.deletes);
    let s4 = ParsedRecords { deletes: s3.deletes + m.deletes, ..s3 };
    assert(s4.mappings =~= m.mappings);
    assert(s4.originals =~= m.originals);
    assert(s4.writes =~= m.writes);
    assert(s4.deletes =~= m.deletes);
    assert(parse_records(lines, lines.len() as int) == Ok::<ParsedRecords, CoreError>(s4));
    assert(manifest_result(manifest_text(m)) =~= Ok::<ManifestView, CoreError>(m));
}


// ---------------------------------------------------------------------------
// Staging a plan.
// ---------------------------------------------------------------------------

/// The decimal digits of `n`, padded with zeros to at least four (`{:04}`).
pub open spec fn padded4(n: nat) -> Seq<char> {
    let d = decimal(n);
    if d.len() >= 4 {
        d
    } else {
        Seq::new((4 - d.len()) as nat, |i: int| '0') + d
    }
}

/// `original`
pub open spec fn original_prefix() -> Seq<char> {
    seq!['o', 'r', 'i', 'g', 'i', 'n', 'a', 'l']
}

/// `final`
pub open spec fn final_prefix() -> Seq<char> {
    seq!['f', 'i', 'n', 'a', 'l']
}

/// `<prefix>-<index, four digits>.blob`
pub open spec fn blob_name_view(prefix: Seq<char>, index: nat) -> Seq<char> {
    prefix + seq!['-'] + padded4(index) + seq!['.', 'b', 'l', 'o', 'b']
}

proof fn lemma_decimal_len(n: nat)
    ensures
        n < 10 ==> decimal(n).len() == 1,
        10 <= n < 100 ==> decimal(n).len() == 2,
        100 <= n < 1000 ==> decimal(n).len() == 3,
        n >= 1000 ==> decimal(n).len() >= 4,
    decreases n,
{
    if n >= 10 {
        lemma_decimal_len(n / 10);
    }
}

/// The name of the blob that holds the `index`-th text of a kind.
fn blob_name(prefix: &str, index: usize) -> (r: String)
    ensures
        r@ == blob_name_view(prefix@, index as nat),
{
    let mut out = prefix.to_owned();
    push_char(&mut out, '-');
    proof {
        lemma_decimal_len(index as nat);
    }
    let ghost head = out@;
    if index < 10 {
        push_char(&mut out, '0');
        push_char(&mut out, '0');
        push_char(&mut out, '0');
        proof {
            assert(out@ =~= head + Seq::new(3, |i: int| '0'));
        }
    } else if index < 100 {
        push_char(&mut out, '0');
        push_char(&mut out, '0');
        proof {
            assert(out@ =~= head + Seq::new(2, |i: int| '0'));
        }
    } else if index < 1000 {
        push_char(&mut out, '0');
        proof {
            assert(out@ =~= head + Seq::new(1, |i: int| '0'));
        }
    }
    push_decimal(&mut out, index);
    out.append(".blob");
    proof {
        reveal_strlit(".blob");
        assert(".blob"@ =~= seq!['.', 'b', 'l', 'o', 'b']);
        assert(out@ =~= blob_name_view(prefix@, index as nat));
    }
    out
}

/// The manifest staged for a plan: prepared, with one original and one final blob
/// per changed file, numbered in the order of the plan's file changes.
pub open spec fn staged_manifest(
    kind: OperationKind,
    mappings: Seq<MappingView>,
    changes: Seq<ChangeView>,
    deletes: Seq<Seq<char>>,
) -> ManifestView {
    ManifestView {
        kind,
        status: TransactionStatus::Prepared,
        mappings,
        originals: Seq::new(
            changes.len(),
            |i: int| (changes[i].original_path, blob_name_view(original_prefix(), i as nat)),
        ),
        writes: Seq::new(
            changes.len(),
            |i: int| (changes[i].final_path, blob_name_view(final_prefix(), i as nat)),
        ),
        deletes,
    }
}

fn copy_mapping(m: &PageMapping) -> (r: PageMapping)
    ensures
        r@ == m@,
{
    PageMapping {
        old_page_id: m.old_page_id.clone(),
        new_page_id: m.new_page_id.clone(),
        old_path: m.old_path.clone(),
        new_path: m.new_path.clone(),
    }
}

/// The manifest recorded before a plan changes any file.
pub fn manifest_from_plan(plan: &RenameTransactionPlan) -> (r: TransactionManifest)
    ensures
        r@ == staged_manifest(
            plan.kind,
            mapping_views(plan.page_mappings@),
            change_views(plan.file_changes@),
            string_views(plan.deletes@),
        ),
{
    let ghost changes = change_views(plan.file_changes@);
    let ghost want = staged_manifest(
        plan.kind,
        mapping_views(plan.page_mappings@),
        changes,
        string_views(plan.deletes@),
    );
    let mut page_mappings: Vec<PageMapping> = Vec::new();
    let mut i: usize = 0;
    while i < plan.page_mappings.len()
        invariant
            i <= plan.page_mappings@.len(),
            mapping_views(page_mappings@) == mapping_views(plan.page_mappings@).take(i as int),
        decreases plan.page_mappings@.len() - i,
    {
        let ghost before = page_mappings@;
        let c = copy_mapping(&plan.page_mappings[i]);
        let ghost cv = c@;
        page_mappings.push(c);
        proof {
            assert(mapping_views(page_mappings@) =~= mapping_views(before).push(cv));
            assert(mapping_views(page_mappings@) =~= mapping_views(plan.page_mappings@).take(i + 1));
        }
        i = i + 1;
    }
    proof {
        reveal_strlit("original");
        reveal_strlit("final");
        assert("original"@ =~= original_prefix());
        assert("final"@ =~= final_prefix());
    }
    let mut originals: Vec<TransactionBlobEntry> = Vec::new();
    let mut writes: Vec<TransactionBlobEntry> = Vec::new();
    let mut i: usize = 0;
    while i < plan.file_changes.len()
        invariant
            i <= plan.file_changes@.len(),
            changes == change_views(plan.file_changes@),
            want.originals.len() == changes.len(),
            want.writes.len() == changes.len(),
            want == staged_manifest(
                plan.kind,
                mapping_views(plan.page_mappings@),
                changes,
                string_views(plan.deletes@),
            ),
            "original"@ == original_prefix(),
            "final"@ == final_prefix(),
            entry_views(originals@) == want.originals.take(i as int),
            entry_views(writes@) == want.writes.take(i as int),
        decreases plan.file_changes@.len() - i,
    {
        let change = &plan.file_changes[i];
        let o = TransactionBlobEntry {
            workspace_path: change.original_path.clone(),
            blob_name: blob_name("original", i),
        };
        let w = TransactionBlobEntry {
            workspace_path: change.final_path.clone(),
            blob_name: blob_name("final", i),
        };
        let ghost ob = originals@;
        let ghost wb = writes@;
        originals.push(o);
        writes.push(w);
        proof {
            assert(changes[i as int] == change@);
            assert(entry_views(originals@) =~= entry_views(ob).push(originals@.last()@));
            assert(entry_views(writes@) =~= entry_views(wb).push(writes@.last()@));
            assert(entry_views(originals@) =~= want.originals.take(i + 1));
            assert(entry_views(writes@) =~= want.writes.take(i + 1));
        }
        i = i + 1;
    }
    let mut deletes: Vec<String> = Vec::new();
    let mut i: usize = 0;
    while i < plan.deletes.len()
        invariant
            i <= plan.deletes@.len(),
            string_views(deletes@) == string_views(plan.deletes@).take(i as int),
        decreases plan.deletes@.len() - i,
    {
        let ghost before = deletes@;
        let d = plan.deletes[i].clone();
        let ghost dv = d@;
        deletes.push(d);
        proof {
            assert(string_views(deletes@) =~= string_views(before).push(dv));
            assert(string_views(deletes@) =~= string_views(plan.deletes@).take(i + 1));
        }
        i = i + 1;
    }
    let r = TransactionManifest {
        kind: plan.kind,
        status: TransactionStatus::Prepared,
        page_mappings,
        originals,
        writes,
        deletes,
    };
    proof {
        assert(mapping_views(plan.page_mappings@).take(plan.page_mappings@.len() as int) =~= mapping_views(
            plan.page_mappings@,
        ));
        assert(want.originals.take(changes.len() as int) =~= want.originals);
        assert(want.writes.take(changes.len() as int) =~= want.writes);
        assert(string_views(plan.deletes@).take(plan.deletes@.len() as int) =~= string_views(plan.deletes@));
        assert(r@ =~= want);
    }
    r
}


// ---------------------------------------------------------------------------
// Finishing a recorded operation.
// ---------------------------------------------------------------------------

/// The `index`-th write goes to a path that the operation did not read before: a
/// file already there must hold exactly the planned text.
pub fn write_needs_destination_check(m: &TransactionManifest, index: usize) -> (r: bool)
    requires
        index < m.writes@.len(),
    ensures
        r == !(exists|j: int|
            0 <= j < m.originals@.len() && (#[trigger] m.originals@[j]).workspace_path@
                == m.writes@[index as int].workspace_path@),
{
    let target = &m.writes[index].workspace_path;
    let mut j: usize = 0;
    while j < m.originals.len()
        invariant
            j <= m.originals@.len(),
            index < m.writes@.len(),
            target@ == m.writes@[index as int].workspace_path@,
            forall|k: int| 0 <= k < j ==> (#[trigger] m.originals@[k]).workspace_path@ != target@,
        decreases m.originals@.len() - j,
    {
        if m.originals[j].workspace_path == *target {
            return false;
        }
        j = j + 1;
    }
    true
}

/// A destination that already holds other text than the planned final text is a
/// collision.
pub fn check_final_destination(existing_text: Option<&str>, final_text: &str) -> (r: Result<(), CoreError>)
    ensures
        r is Err <==> (existing_text matches Some(t) && t@ != final_text@),
        r matches Err(e) ==> e == CoreError::DestinationPageExists,
{
    match existing_text {
        Some(t) => {
            let a = str_chars(t);
            let b = str_chars(final_text);
            if chars_eq(&a, &b) {
                Ok(())
            } else {
                Err(CoreError::DestinationPageExists)
            }
        },
        None => Ok(()),
    }
}

/// The pages stored at the first `n` paths, or the first path that names none.
pub open spec fn page_ids_result(paths: Seq<Seq<char>>, n: int) -> Result<Seq<PageIdView>, PagePathError>
    decreases n,
{
    if n <= 0 {
        Ok(seq![])
    } else {
        match page_ids_result(paths, n - 1) {
            Err(e) => Err(e),
            Ok(s) => match resolve_view(paths[n - 1]) {
                Err(e) => Err(e),
                Ok(v) => Ok(s.push(v)),
            },
        }
    }
}

proof fn lemma_ids_err_extends(paths: Seq<Seq<char>>, i: int, n: int, e: PagePathError)
    requires
        0 <= i <= n,
        page_ids_result(paths, i) == Err::<Seq<PageIdView>, PagePathError>(e),
    ensures
        page_ids_result(paths, n) == Err::<Seq<PageIdView>, PagePathError>(e),
    decreases n - i,
{
    if i < n {
        lemma_ids_err_extends(paths, i, n - 1, e);
    }
}

/// The pages stored at `paths`, in order.
fn page_ids_at(paths: &Vec<String>) -> (r: Result<Vec<PageId>, PagePathError>)
    ensures
        r is Ok <==> page_ids_result(string_views(paths@), paths@.len() as int) is Ok,
        r matches Ok(ids) ==> id_views(ids@) == page_ids_result(string_views(paths@), paths@.len() as int)->Ok_0,
        r matches Err(e) ==> page_ids_result(string_views(paths@), paths@.len() as int) == Err::<
            Seq<PageIdView>,
            PagePathError,
        >(e),
{
    let ghost ps = string_views(paths@);
    let mut ids: Vec<PageId> = Vec::new();
    proof {
        assert(id_views(ids@) =~= seq![]);
    }
    let mut i: usize = 0;
    while i < paths.len()
        invariant
            i <= paths@.len(),
            ps == string_views(paths@),
            page_ids_result(ps, i as int) == Ok::<Seq<PageIdView>, PagePathError>(id_views(ids@)),
        decreases paths@.len() - i,
    {
        proof {
            assert(ps[i as int] == paths@[i as int]@);
        }
        match PageId::from_workspace_path(paths[i].as_str()) {
            Ok(id) => {
                let ghost before = ids@;
                let ghost v = id@;
                ids.push(id);
                proof {
                    assert(id_views(ids@) =~= id_views(before).push(v));
                }
            },
            Err(e) => {
                proof {
                    lemma_ids_err_extends(ps, i + 1, ps.len() as int, e);
                }
                return Err(e);
            },
        }
        i = i + 1;
    }
    Ok(ids)
}

/// What a structural operation changed, from the paths it wrote and deleted: the
/// pages at the written paths changed, those at the deleted paths are gone. Each
/// path must name a page.
pub fn transaction_update(written_paths: &Vec<String>, deleted_paths: &Vec<String>) -> (r: Result<
    IncrementalWorkspaceUpdate,
    CoreError,
>)
    ensures
        r is Ok <==> (page_ids_result(string_views(written_paths@), written_paths@.len() as int) is Ok
            && page_ids_result(string_views(deleted_paths@), deleted_paths@.len() as int) is Ok),
        r matches Ok(u) ==> {
            &&& string_views(u.written_paths@) == string_views(written_paths@)
            &&& string_views(u.deleted_paths@) == string_views(deleted_paths@)
            &&& id_views(u.changed_page_ids@) == page_ids_result(
                string_views(written_paths@),
                written_paths@.len() as int,
            )->Ok_0
            &&& id_views(u.removed_page_ids@) == page_ids_result(
                string_views(deleted_paths@),
                deleted_paths@.len() as int,
            )->Ok_0
        },
        r matches Err(e) ==> (match page_ids_result(string_views(written_paths@), written_paths@.len() as int) {
            Err(pe) => e == CoreError::InvalidPagePath(pe),
            Ok(_) => page_ids_result(string_views(deleted_paths@), deleted_paths@.len() as int)
                == Err::<Seq<PageIdView>, PagePathError>(e->InvalidPagePath_0) && e is InvalidPagePath,
        }),
{
    let changed = match page_ids_at(written_paths) {
        Ok(ids) => ids,
        Err(e) => return Err(CoreError::InvalidPagePath(e)),
    };
    let removed = match page_ids_at(deleted_paths) {
        Ok(ids) => ids,
        Err(e) => return Err(CoreError::InvalidPagePath(e)),
    };
    let written = copy_strings(written_paths);
    let deleted = copy_strings(deleted_paths);
    Ok(
        IncrementalWorkspaceUpdate {
            written_paths: written,
            deleted_paths: deleted,
            changed_page_ids: changed,
            removed_page_ids: removed,
        },
    )
}

fn copy_strings(v: &Vec<String>) -> (r: Vec<String>)
    ensures
        string_views(r@) == string_views(v@),
{
    let mut out: Vec<String> = Vec::new();
    let mut i: usize = 0;
    while i < v.len()
        invariant
            i <= v@.len(),
            string_views(out@) == string_views(v@).take(i as int),
        decreases v@.len() - i,
    {
        let ghost before = out@;
        let s = v[i].clone();
        let ghost sv = s@;
        out.push(s);
        proof {
            assert(string_views(out@) =~= string_views(before).push(sv));
            assert(string_views(out@) =~= string_views(v@).take(i + 1));
        }
        i = i + 1;
    }
    proof {
        assert(string_views(v@).take(v@.len() as int) =~= string_views(v@));
    }
    out
}

} // verus!
