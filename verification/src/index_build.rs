//! Building an index from the workspace's parsed files: each file's document and
//! fingerprint are kept under its relative path (a later file with the same path
//! replaces an earlier one), in path order, and the issues of the workspace and
//! of every file are gathered in order.

use vstd::prelude::*;

use crate::index::{FileFingerprint, WorkspaceIndex, docs_view, index_pages, index_incoming, journal_docs, pages_map, incoming_map, journal_map, docs_tasks};
use crate::model::{CompatibilityIssue, ParsedDocument, tasks_view};
use crate::path_order::{lemma_path_lt_total, lemma_path_lt_transitive, path_less, path_lt, paths_increasing};
use crate::text::strings_eq;

verus! {

/// The relative paths of documents.
pub open spec fn doc_paths(ds: Seq<ParsedDocument>) -> Seq<Seq<char>> {
    ds.map_values(|d: ParsedDocument| d.relative_path@)
}

/// The issues of the workspace followed by those of each file, in order.
pub open spec fn gathered_issues(summary: Seq<CompatibilityIssue>, files: Seq<(ParsedDocument, FileFingerprint)>) -> Seq<
    CompatibilityIssue,
>
    decreases files.len(),
{
    if files.len() == 0 {
        summary
    } else {
        gathered_issues(summary, files.drop_last()) + files.last().0.issues@
    }
}

/// The position of the last file whose document has path `p`, or `-1`.
pub open spec fn last_with_path(files: Seq<(ParsedDocument, FileFingerprint)>, p: Seq<char>) -> int
    decreases files.len(),
{
    if files.len() == 0 {
        -1
    } else if files.last().0.relative_path@ == p {
        files.len() - 1
    } else {
        last_with_path(files.drop_last(), p)
    }
}

proof fn lemma_last_with_path(files: Seq<(ParsedDocument, FileFingerprint)>, p: Seq<char>)
    ensures
        -1 <= last_with_path(files, p) < files.len(),
        last_with_path(files, p) >= 0 ==> files[last_with_path(files, p)].0.relative_path@ == p,
        forall|k: int| last_with_path(files, p) < k < files.len() ==> (#[trigger] files[k]).0.relative_path@ != p,
    decreases files.len(),
{
    if files.len() > 0 && files.last().0.relative_path@ != p {
        lemma_last_with_path(files.drop_last(), p);
        assert forall|k: int| last_with_path(files, p) < k < files.len() implies (#[trigger] files[k]).0.relative_path@ != p by {
            if k < files.len() - 1 {
                assert(files[k] == files.drop_last()[k]);
            }
        }
    }
}

/// The last file whose document has path `p` is at `m`: it has that path and no
/// later file has.
proof fn lemma_last_at(files: Seq<(ParsedDocument, FileFingerprint)>, p: Seq<char>, m: int)
    requires
        0 <= m < files.len(),
        files[m].0.relative_path@ == p,
        forall|k: int| m < k < files.len() ==> (#[trigger] files[k]).0.relative_path@ != p,
    ensures
        last_with_path(files, p) == m,
{
    lemma_last_with_path(files, p);
    if last_with_path(files, p) < m {
    }
}

impl CompatibilityIssue {
    /// A copy of the issue.
    pub fn duplicate(&self) -> (r: Self)
        ensures
            r == *self,
    {
        CompatibilityIssue {
            severity: self.severity,
            relative_path: self.relative_path.clone(),
            construct: self.construct.clone(),
            message: self.message.clone(),
        }
    }
}

fn gather_issues(summary: Vec<CompatibilityIssue>, files: &Vec<(ParsedDocument, FileFingerprint)>) -> (r: Vec<CompatibilityIssue>)
    ensures
        r@ == gathered_issues(summary@, files@),
{
    let mut out = summary;
    let ghost s0 = out@;
    let mut i: usize = 0;
    assert(files@.take(0) =~= Seq::<(ParsedDocument, FileFingerprint)>::empty());
    while i < files.len()
        invariant
            i <= files@.len(),
            out@ == gathered_issues(s0, files@.take(i as int)),
        decreases files@.len() - i,
    {
        let ghost base = out@;
        let issues = &files[i].0.issues;
        let mut j: usize = 0;
        while j < issues.len()
            invariant
                j <= issues@.len(),
                out@ == base + issues@.take(j as int),
            decreases issues@.len() - j,
        {
            out.push(issues[j].duplicate());
            proof {
                assert(issues@.take(j + 1) =~= issues@.take(j as int).push(issues@[j as int]));
            }
            j = j + 1;
        }
        proof {
            assert(issues@.take(issues@.len() as int) =~= issues@);
            assert(files@.take(i + 1).drop_last() =~= files@.take(i as int));
            assert(files@.take(i + 1).last() == files@[i as int]);
        }
        i = i + 1;
    }
    assert(files@.take(files@.len() as int) =~= files@);
    out
}

impl WorkspaceIndex {
    /// The index of a workspace whose summary reported `summary_issues` and whose
    /// Markdown files parsed to `files` (each document with its file's
    /// fingerprint): documents and fingerprints under their relative paths, in
    /// path order, the last file of a path kept; the summary's issues followed by
    /// each file's; and the projections rebuilt from the documents.
    pub fn build_from(summary_issues: Vec<CompatibilityIssue>, files: Vec<(ParsedDocument, FileFingerprint)>) -> (r: Self)
        ensures
            r.issues@ == gathered_issues(summary_issues@, files@),
            paths_increasing(doc_paths(r.documents@)),
            forall|p: Seq<char>| #[trigger] doc_paths(r.documents@).contains(p) <==> last_with_path(files@, p) >= 0,
            forall|i: int| 0 <= i < r.documents@.len() ==> #[trigger] r.documents@[i] == files@[last_with_path(
                files@,
                r.documents@[i].relative_path@,
            )].0,
            r.fingerprints@.len() == r.documents@.len(),
            forall|i: int| 0 <= i < r.fingerprints@.len() ==> #[trigger] r.fingerprints@[i] == (
                r.documents@[i].relative_path,
                files@[last_with_path(files@, r.documents@[i].relative_path@)].1,
            ),
            pages_map(r.pages@) == index_pages(docs_view(r.documents@)),
            incoming_map(r.incoming@) == index_incoming(docs_view(r.documents@)),
            journal_map(r.journal_entries@) == journal_docs(docs_view(r.documents@)),
            tasks_view(r.tasks@) == docs_tasks(docs_view(r.documents@)),
            r.wf(),
    {
        let issues = gather_issues(summary_issues, &files);
        let ghost orig = files@;
        let mut rest = files;
        let mut docs: Vec<ParsedDocument> = Vec::new();
        let mut fps: Vec<(String, FileFingerprint)> = Vec::new();
        proof {
            assert(doc_paths(docs@) =~= Seq::<Seq<char>>::empty());
        }
        while rest.len() > 0
            invariant
                rest@ == orig.take(rest@.len() as int),
                rest@.len() <= orig.len(),
                fps@.len() == docs@.len(),
                paths_increasing(doc_paths(docs@)),
                forall|p: Seq<char>| #[trigger] doc_paths(docs@).contains(p) <==> exists|k: int|
                    rest@.len() <= k < orig.len() && (#[trigger] orig[k]).0.relative_path@ == p,
                forall|i: int| 0 <= i < docs@.len() ==> #[trigger] docs@[i] == orig[last_with_path(orig, docs@[i].relative_path@)].0,
                forall|i: int| 0 <= i < fps@.len() ==> #[trigger] fps@[i] == (docs@[i].relative_path, orig[last_with_path(
                    orig,
                    docs@[i].relative_path@,
                )].1),
            decreases rest@.len(),
        {
            let ghost n = rest@.len() - 1;
            let ghost before = doc_paths(docs@);
            let (doc, fp) = rest.pop().unwrap();
            proof {
                assert(orig[n] == (doc, fp));
                assert(rest@ =~= orig.take(n));
            }
            let mut i: usize = 0;
            while i < docs.len() && path_less(docs[i].relative_path.as_str(), doc.relative_path.as_str())
                invariant
                    i <= docs@.len(),
                    before == doc_paths(docs@),
                    forall|j: int| 0 <= j < i ==> path_lt(#[trigger] before[j], doc.relative_path@),
                decreases docs@.len() - i,
            {
                i = i + 1;
            }
            if i < docs.len() && strings_eq(&docs[i].relative_path, &doc.relative_path) {
                proof {
                    let p = doc.relative_path@;
                    assert(before[i as int] == p);
                    assert forall|q: Seq<char>| #[trigger] doc_paths(docs@).contains(q) <==> exists|k: int|
                        n <= k < orig.len() && (#[trigger] orig[k]).0.relative_path@ == q by {
                        if q == p {
                            assert(orig[n].0.relative_path@ == q);
                            assert(before.contains(q));
                        } else if exists|k: int| n <= k < orig.len() && (#[trigger] orig[k]).0.relative_path@ == q {
                            let k = choose|k: int| n <= k < orig.len() && (#[trigger] orig[k]).0.relative_path@ == q;
                            assert(k != n);
                        }
                    }
                }
            } else {
                let ghost p = doc.relative_path@;
                proof {
                    if i < docs@.len() {
                        lemma_path_lt_total(before[i as int], p);
                    }
                    assert(!before.contains(p)) by {
                        if before.contains(p) {
                            let j = choose|j: int| 0 <= j < before.len() && before[j] == p;
                            crate::path_order::lemma_path_lt_irreflexive(p);
                            if j > i {
                                lemma_path_lt_transitive(p, before[i as int], before[j]);
                            }
                        }
                    }
                    assert forall|k: int| n < k < orig.len() implies (#[trigger] orig[k]).0.relative_path@ != p by {
                        if orig[k].0.relative_path@ == p {
                            assert(before.contains(p));
                        }
                    }
                    lemma_last_at(orig, p, n);
                }
                let path = doc.relative_path.clone();
                let ghost old_docs = docs@;
                let ghost old_fps = fps@;
                docs.insert(i, doc);
                fps.insert(i, (path, fp));
                proof {
                    let now = doc_paths(docs@);
                    assert(docs@ =~= old_docs.take(i as int) + seq![orig[n].0] + old_docs.skip(i as int));
                    assert(now =~= before.take(i as int) + seq![p] + before.skip(i as int));
                    assert forall|a: int, b: int| 0 <= a < b < now.len() implies path_lt(#[trigger] now[a], #[trigger] now[b]) by {
                        if b < i {
                            assert(now[a] == before[a] && now[b] == before[b]);
                        } else if b == i {
                            assert(now[a] == before[a]);
                        } else if a == i {
                            assert(now[b] == before[b - 1]);
                            if b - 1 > i {
                                lemma_path_lt_transitive(p, before[i as int], before[b - 1]);
                            }
                        } else if a < i {
                            assert(now[a] == before[a] && now[b] == before[b - 1]);
                        } else {
                            assert(now[a] == before[a - 1] && now[b] == before[b - 1]);
                        }
                    }
                    assert forall|j: int| 0 <= j < docs@.len() implies #[trigger] docs@[j] == orig[last_with_path(
                        orig,
                        docs@[j].relative_path@,
                    )].0 by {
                        if j < i {
                            assert(docs@[j] == old_docs[j]);
                        } else if j > i {
                            assert(docs@[j] == old_docs[j - 1]);
                        }
                    }
                    assert forall|j: int| 0 <= j < fps@.len() implies #[trigger] fps@[j] == (docs@[j].relative_path, orig[last_with_path(
                        orig,
                        docs@[j].relative_path@,
                    )].1) by {
                        if j < i {
                            assert(fps@[j] == old_fps[j] && docs@[j] == old_docs[j]);
                        } else if j > i {
                            assert(fps@[j] == old_fps[j - 1] && docs@[j] == old_docs[j - 1]);
                        }
                    }
                    assert forall|q: Seq<char>| #[trigger] now.contains(q) <==> exists|k: int|
                        n <= k < orig.len() && (#[trigger] orig[k]).0.relative_path@ == q by {
                        if now.contains(q) {
                            let j = choose|j: int| 0 <= j < now.len() && now[j] == q;
                            if j < i {
                                assert(before[j] == q);
                                assert(before.contains(q));
                            } else if j > i {
                                assert(before[j - 1] == q);
                                assert(before.contains(q));
                            } else {
                                assert(orig[n].0.relative_path@ == q);
                            }
                        }
                        if exists|k: int| n <= k < orig.len() && (#[trigger] orig[k]).0.relative_path@ == q {
                            let k = choose|k: int| n <= k < orig.len() && (#[trigger] orig[k]).0.relative_path@ == q;
                            if k == n {
                                assert(now[i as int] == q);
                            } else {
                                assert(before.contains(q));
                                let j = choose|j: int| 0 <= j < before.len() && before[j] == q;
                                if j < i {
                                    assert(now[j] == q);
                                } else {
                                    assert(now[j + 1] == q);
                                }
                            }
                        }
                    }
                }
            }
        }
        proof {
            assert forall|p: Seq<char>| #[trigger] doc_paths(docs@).contains(p) <==> last_with_path(orig, p) >= 0 by {
                lemma_last_with_path(orig, p);
                if last_with_path(orig, p) >= 0 {
                    let k = last_with_path(orig, p);
                    assert(orig[k].0.relative_path@ == p);
                }
                if exists|k: int| 0 <= k < orig.len() && (#[trigger] orig[k]).0.relative_path@ == p {
                    let k = choose|k: int| 0 <= k < orig.len() && (#[trigger] orig[k]).0.relative_path@ == p;
                    assert(last_with_path(orig, p) >= k);
                }
            }
        }
        let mut index = WorkspaceIndex {
            documents: docs,
            pages: Vec::new(),
            incoming: Vec::new(),
            journal_entries: Vec::new(),
            tasks: Vec::new(),
            issues,
            fingerprints: fps,
        };
        index.rebuild_projections();
        index
    }
}

} // verus!
