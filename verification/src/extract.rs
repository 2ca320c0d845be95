//! The references found in the text of an entry: `[[Page]]` links, `#tag`s and
//! `[..](path)` assets, by character position in the entry's text.

use vstd::prelude::*;

use crate::domain::keys::normalize_key;
use crate::domain::parser::trim_white_space;
use crate::model::ReferenceKind;

verus! {

/// The first position at or after `from` where `pat` occurs in `x`; -1 if none.
pub open spec fn find_from(x: Seq<char>, pat: Seq<char>, from: int) -> int
    decreases x.len() - from,
{
    if from < 0 || from + pat.len() > x.len() {
        -1
    } else if x.subrange(from, from + pat.len()) == pat {
        from
    } else if from >= x.len() {
        -1
    } else {
        find_from(x, pat, from + 1)
    }
}

pub proof fn lemma_find_from(x: Seq<char>, pat: Seq<char>, from: int)
    ensures
        find_from(x, pat, from) == -1 || (from <= find_from(x, pat, from) && find_from(x, pat, from) + pat.len()
            <= x.len() && x.subrange(find_from(x, pat, from), find_from(x, pat, from) + pat.len()) == pat),
    decreases x.len() - from,
{
    if !(from < 0 || from + pat.len() > x.len()) && x.subrange(from, from + pat.len()) != pat && from < x.len() {
        lemma_find_from(x, pat, from + 1);
    }
}

/// A reference found in entry text: its kind, raw text, page key or asset path,
/// and the character range `[start, end)` it covers.
pub struct FoundRef {
    pub kind: ReferenceKind,
    pub raw: Seq<char>,
    pub page_key: Option<Seq<char>>,
    pub path: Option<Seq<char>>,
    pub start: int,
    pub end: int,
}

/// A page reference to the key of `raw` over `[start, end)`.
pub open spec fn page_ref(kind: ReferenceKind, raw: Seq<char>, start: int, end: int) -> FoundRef {
    FoundRef { kind, raw, page_key: Some(normalize_key(raw)), path: None, start, end }
}

/// The `[[...]]` links of `x` from position `from`: each `[[` up to the next `]]`
/// whose inside names a page; scanning stops at a `[[` without a closing `]]`.
pub open spec fn page_links_from(x: Seq<char>, from: int) -> Seq<FoundRef>
    decreases x.len() - from,
    when 0 <= from
{
    let a = find_from(x, seq!['[', '['], from);
    if a < 0 {
        seq![]
    } else {
        let c = find_from(x, seq![']', ']'], a + 2);
        if c < 0 {
            seq![]
        } else {
            proof {
                lemma_find_from(x, seq!['[', '['], from);
                lemma_find_from(x, seq![']', ']'], a + 2);
            }
            let raw = x.subrange(a + 2, c);
            if normalize_key(raw).len() == 0 {
                page_links_from(x, c + 2)
            } else {
                seq![page_ref(ReferenceKind::PageLink, raw, a, c + 2)] + page_links_from(x, c + 2)
            }
        }
    }
}

/// An ASCII letter or digit.
pub open spec fn ascii_alnum(c: char) -> bool {
    ('0' <= c && c <= '9') || ('a' <= c && c <= 'z') || ('A' <= c && c <= 'Z')
}

/// A character that continues a `#tag`.
pub open spec fn tag_char(c: char) -> bool {
    ascii_alnum(c) || c == '/' || c == '_' || c == '-'
}

/// The end of the run of tag characters of `x` from `i`.
pub open spec fn tag_run(x: Seq<char>, i: int) -> int
    decreases x.len() - i,
{
    if 0 <= i < x.len() && tag_char(x[i]) {
        tag_run(x, i + 1)
    } else {
        i
    }
}

pub proof fn lemma_tag_run(x: Seq<char>, i: int)
    requires
        0 <= i <= x.len(),
    ensures
        i <= tag_run(x, i) <= x.len(),
        forall|j: int| i <= j < tag_run(x, i) ==> tag_char(#[trigger] x[j]),
        tag_run(x, i) < x.len() ==> !tag_char(x[tag_run(x, i)]),
    decreases x.len() - i,
{
    if i < x.len() && tag_char(x[i]) {
        lemma_tag_run(x, i + 1);
    }
}

/// The `#tag`s of `x` from position `i`: a `#` not right after an ASCII letter or
/// digit, followed by tag characters that name a page.
pub open spec fn tags_from(x: Seq<char>, i: int) -> Seq<FoundRef>
    decreases x.len() - i,
    when 0 <= i
{
    if i >= x.len() {
        seq![]
    } else if x[i] == '#' {
        if i > 0 && ascii_alnum(x[i - 1]) {
            tags_from(x, i + 1)
        } else {
            proof {
                lemma_tag_run(x, i + 1);
            }
            let e = tag_run(x, i + 1);
            let raw = x.subrange(i + 1, e);
            if normalize_key(raw).len() > 0 {
                seq![page_ref(ReferenceKind::Tag, raw, i, e)] + tags_from(x, e)
            } else {
                tags_from(x, e)
            }
        }
    } else {
        tags_from(x, i + 1)
    }
}

/// The assets of `x` from position `from` introduced by `pat`: the path between
/// the next `(` and the `)` after it, kept when non-blank and not a URL.
pub open spec fn assets_from(x: Seq<char>, pat: Seq<char>, from: int) -> Seq<FoundRef>
    decreases x.len() - from,
    when 0 <= from
{
    let a = find_from(x, pat, from);
    if a < 0 {
        seq![]
    } else {
        let op = find_from(x, seq!['('], a);
        if op < 0 {
            seq![]
        } else {
            let cp = find_from(x, seq![')'], op + 1);
            if cp < 0 {
                seq![]
            } else {
                proof {
                    lemma_find_from(x, pat, from);
                    lemma_find_from(x, seq!['('], a);
                    lemma_find_from(x, seq![')'], op + 1);
                }
                let raw = trim_white_space(x.subrange(op + 1, cp));
                if raw.len() > 0 && find_from(raw, seq![':', '/', '/'], 0) < 0 {
                    seq![FoundRef { kind: ReferenceKind::Asset, raw, page_key: None, path: Some(raw), start: op + 1, end: cp }]
                        + assets_from(x, pat, cp)
                } else {
                    assets_from(x, pat, cp)
                }
            }
        }
    }
}

/// `r` placed after every reference of `s` that starts at or before it.
pub open spec fn insert_by_start(s: Seq<FoundRef>, r: FoundRef) -> Seq<FoundRef>
    decreases s.len(),
{
    if s.len() == 0 {
        seq![r]
    } else if s.last().start <= r.start {
        s.push(r)
    } else {
        insert_by_start(s.drop_last(), r).push(s.last())
    }
}

/// `s` stably sorted by start position.
pub open spec fn sort_by_start(s: Seq<FoundRef>) -> Seq<FoundRef>
    decreases s.len(),
{
    if s.len() == 0 {
        seq![]
    } else {
        insert_by_start(sort_by_start(s.drop_last()), s.last())
    }
}

/// The references of entry text `x`, by start position: links, then tags, then
/// `![..](..)` and `[..](..)` assets, stably sorted.
pub open spec fn found_refs(x: Seq<char>) -> Seq<FoundRef> {
    sort_by_start(
        page_links_from(x, 0) + tags_from(x, 0) + assets_from(x, seq!['!', '['], 0) + assets_from(x, seq!['['], 0),
    )
}

/// An exec reference found in entry text.
pub struct FoundRefExec {
    pub kind: ReferenceKind,
    pub raw: Vec<char>,
    pub key: Option<Vec<char>>,
    pub path: Option<Vec<char>>,
    pub start: usize,
    pub end: usize,
}

pub open spec fn found_view(r: FoundRefExec) -> FoundRef {
    FoundRef {
        kind: r.kind,
        raw: r.raw@,
        page_key: match r.key {
            Some(k) => Some(k@),
            None => None,
        },
        path: match r.path {
            Some(p) => Some(p@),
            None => None,
        },
        start: r.start as int,
        end: r.end as int,
    }
}

pub open spec fn founds_view(s: Seq<FoundRefExec>) -> Seq<FoundRef> {
    s.map_values(|r: FoundRefExec| found_view(r))
}

/// A found reference lies within text of `n` characters, and a page key it
/// names is the non-empty normalized key of its raw text.
pub open spec fn found_ok(n: int, f: FoundRef) -> bool {
    &&& 0 <= f.start <= f.end <= n
    &&& f.page_key matches Some(k) ==> k == normalize_key(f.raw) && k.len() > 0
}

/// Every found reference of `s` is well placed in text of `n` characters.
pub open spec fn all_found_ok(n: int, s: Seq<FoundRef>) -> bool {
    forall|i: int| 0 <= i < s.len() ==> found_ok(n, #[trigger] s[i])
}

/// The first position at or after `from` where `pat` occurs in `x`.
pub fn find_chars(x: &Vec<char>, pat: &Vec<char>, from: usize) -> (r: Option<usize>)
    ensures
        match r {
            Some(p) => p as int == find_from(x@, pat@, from as int),
            None => find_from(x@, pat@, from as int) == -1,
        },
{
    let mut i = from;
    if pat.len() > x.len() || from > x.len() - pat.len() {
        proof {
            assert(from + pat@.len() > x@.len());
        }
        return None;
    }
    let last = x.len() - pat.len();
    while i <= last
        invariant
            from <= i <= last,
            last + pat.len() == x.len(),
            x@.len() == x.len(),
            find_from(x@, pat@, from as int) == find_from(x@, pat@, i as int),
        decreases x@.len() - i,
    {
        let mut j: usize = 0;
        let mut same = true;
        while j < pat.len()
            invariant
                j <= pat@.len(),
                i <= last,
                last + pat.len() == x.len(),
                x@.len() == x.len(),
                same == (forall|k: int| 0 <= k < j ==> x@[i + k] == pat@[k]),
            decreases pat@.len() - j,
        {
            if x[i + j] != pat[j] {
                same = false;
            }
            j = j + 1;
        }
        proof {
            if same {
                assert(x@.subrange(i as int, i + pat@.len()) =~= pat@);
            } else {
                let k = choose|k: int| 0 <= k < pat@.len() && x@[i + k] != pat@[k];
                assert(x@.subrange(i as int, i + pat@.len())[k] != pat@[k]);
            }
        }
        if same {
            return Some(i);
        }
        proof {
            if pat@.len() == 0 {
                assert(x@.subrange(i as int, i as int) =~= pat@);
            }
        }
        if i == last {
            proof {
                assert(find_from(x@, pat@, i + 1) == -1);
            }
            return None;
        }
        i = i + 1;
    }
    None
}

/// The characters `x[lo..hi]`.
fn sub_range(x: &Vec<char>, lo: usize, hi: usize) -> (r: Vec<char>)
    requires
        lo <= hi <= x@.len(),
    ensures
        r@ == x@.subrange(lo as int, hi as int),
{
    crate::text::sub_chars(x, lo, hi)
}

/// The normalized page key of `raw`.
fn key_of(raw: &Vec<char>) -> (r: Vec<char>)
    ensures
        r@ == normalize_key(raw@),
{
    let s = crate::text::chars_to_string(raw);
    let k = crate::domain::keys::normalize_page_key(s.as_str());
    crate::text::str_chars(k.as_str())
}

fn links_from(x: &Vec<char>, from: usize, out: &mut Vec<FoundRefExec>)
    requires
        all_found_ok(x@.len() as int, founds_view(old(out)@)),
        from <= x@.len(),
    ensures
        all_found_ok(x@.len() as int, founds_view(final(out)@)),
        founds_view(final(out)@) == founds_view(old(out)@) + page_links_from(x@, from as int),
    decreases x@.len() - from,
{
    assert(x@.len() == x.len());
    let open: Vec<char> = vec!['[', '['];
    let close: Vec<char> = vec![']', ']'];
    proof {
        assert(open@ =~= seq!['[', '[']);
        assert(close@ =~= seq![']', ']']);
    }
    let a = match find_chars(x, &open, from) {
        None => {
            assert(founds_view(out@) + Seq::<FoundRef>::empty() =~= founds_view(out@));
            return;
        },
        Some(a) => a,
    };
    proof {
        lemma_find_from(x@, seq!['[', '['], from as int);
        assert(seq!['[', '['].len() == 2);
        assert(a + 2 <= x@.len());
    }
    let c = match find_chars(x, &close, a + 2) {
        None => {
            assert(founds_view(out@) + Seq::<FoundRef>::empty() =~= founds_view(out@));
            return;
        },
        Some(c) => c,
    };
    proof {
        lemma_find_from(x@, seq![']', ']'], a + 2);
        assert(seq![']', ']'].len() == 2);
        assert(c + 2 <= x@.len());
    }
    let raw = sub_range(x, a + 2, c);
    let key = key_of(&raw);
    if key.len() > 0 {
        let ghost before = founds_view(out@);
        let ghost rv = raw@;
        out.push(FoundRefExec { kind: ReferenceKind::PageLink, raw, key: Some(key), path: None, start: a, end: c + 2 });
        proof {
            assert(founds_view(out@) =~= before.push(page_ref(ReferenceKind::PageLink, rv, a as int, c + 2)));
        }
        links_from(x, c + 2, out);
        proof {
            assert(before.push(page_ref(ReferenceKind::PageLink, rv, a as int, c + 2)) + page_links_from(x@, c + 2)
                =~= before + (seq![page_ref(ReferenceKind::PageLink, rv, a as int, c + 2)] + page_links_from(x@, c + 2)));
        }
    } else {
        links_from(x, c + 2, out);
    }
}

fn is_ascii_alnum(c: char) -> (r: bool)
    ensures
        r == ascii_alnum(c),
{
    ('0' <= c && c <= '9') || ('a' <= c && c <= 'z') || ('A' <= c && c <= 'Z')
}

fn tags_at(x: &Vec<char>, i0: usize, out: &mut Vec<FoundRefExec>)
    requires
        all_found_ok(x@.len() as int, founds_view(old(out)@)),
        i0 <= x@.len(),
    ensures
        all_found_ok(x@.len() as int, founds_view(final(out)@)),
        founds_view(final(out)@) == founds_view(old(out)@) + tags_from(x@, i0 as int),
    decreases x@.len() - i0,
{
    let mut i = i0;
    let ghost start = founds_view(out@);
    while i < x.len() && x[i] != '#'
        invariant
            i0 <= i <= x@.len(),
            tags_from(x@, i0 as int) == tags_from(x@, i as int),
            founds_view(out@) == start,
        decreases x@.len() - i,
    {
        i = i + 1;
    }
    if i >= x.len() {
        assert(start + Seq::<FoundRef>::empty() =~= start);
        return;
    }
    if i > 0 && is_ascii_alnum(x[i - 1]) {
        tags_at(x, i + 1, out);
        return;
    }
    let mut e = i + 1;
    while e < x.len() && (is_ascii_alnum(x[e]) || x[e] == '/' || x[e] == '_' || x[e] == '-')
        invariant
            i + 1 <= e <= x@.len(),
            tag_run(x@, i + 1) == tag_run(x@, e as int),
        decreases x@.len() - e,
    {
        e = e + 1;
    }
    let raw = sub_range(x, i + 1, e);
    let key = key_of(&raw);
    if key.len() > 0 {
        let ghost rv = raw@;
        out.push(FoundRefExec { kind: ReferenceKind::Tag, raw, key: Some(key), path: None, start: i, end: e });
        proof {
            assert(founds_view(out@) =~= start.push(page_ref(ReferenceKind::Tag, rv, i as int, e as int)));
        }
        tags_at(x, e, out);
        proof {
            assert(start.push(page_ref(ReferenceKind::Tag, rv, i as int, e as int)) + tags_from(x@, e as int) =~= start
                + (seq![page_ref(ReferenceKind::Tag, rv, i as int, e as int)] + tags_from(x@, e as int)));
        }
    } else {
        tags_at(x, e, out);
    }
}

fn assets_at(x: &Vec<char>, pat: &Vec<char>, from: usize, out: &mut Vec<FoundRefExec>)
    requires
        all_found_ok(x@.len() as int, founds_view(old(out)@)),
        from <= x@.len(),
        pat@.len() > 0,
    ensures
        all_found_ok(x@.len() as int, founds_view(final(out)@)),
        founds_view(final(out)@) == founds_view(old(out)@) + assets_from(x@, pat@, from as int),
    decreases x@.len() - from,
{
    assert(x@.len() == x.len());
    let open: Vec<char> = vec!['('];
    let close: Vec<char> = vec![')'];
    let url: Vec<char> = vec![':', '/', '/'];
    proof {
        assert(open@ =~= seq!['(']);
        assert(close@ =~= seq![')']);
        assert(url@ =~= seq![':', '/', '/']);
    }
    let ghost start = founds_view(out@);
    let a = match find_chars(x, pat, from) {
        None => {
            assert(start + Seq::<FoundRef>::empty() =~= start);
            return;
        },
        Some(a) => a,
    };
    proof {
        lemma_find_from(x@, pat@, from as int);
    }
    let op = match find_chars(x, &open, a) {
        None => {
            assert(start + Seq::<FoundRef>::empty() =~= start);
            return;
        },
        Some(p) => p,
    };
    proof {
        lemma_find_from(x@, seq!['('], a as int);
    }
    let cp = match find_chars(x, &close, op + 1) {
        None => {
            assert(start + Seq::<FoundRef>::empty() =~= start);
            return;
        },
        Some(p) => p,
    };
    proof {
        lemma_find_from(x@, seq![')'], op + 1);
    }
    let inner = sub_range(x, op + 1, cp);
    let raw = crate::domain::parser::trim_white_space_chars(&inner);
    let keep = raw.len() > 0 && find_chars(&raw, &url, 0).is_none();
    if keep {
        let ghost rv = raw@;
        let path = crate::text::sub_chars(&raw, 0, raw.len());
        proof {
            assert(path@ =~= rv);
        }
        out.push(FoundRefExec { kind: ReferenceKind::Asset, raw, key: None, path: Some(path), start: op + 1, end: cp });
        let ghost f = FoundRef { kind: ReferenceKind::Asset, raw: rv, page_key: None, path: Some(rv), start: op + 1, end: cp as int };
        proof {
            assert(founds_view(out@) =~= start.push(f));
        }
        assets_at(x, pat, cp, out);
        proof {
            assert(start.push(f) + assets_from(x@, pat@, cp as int) =~= start + (seq![f] + assets_from(x@, pat@, cp as int)));
        }
    } else {
        assets_at(x, pat, cp, out);
    }
}

fn insert_found(s: &mut Vec<FoundRefExec>, r: FoundRefExec, n: Ghost<int>)
    requires
        all_found_ok(n@, founds_view(old(s)@)),
        found_ok(n@, found_view(r)),
    ensures
        all_found_ok(n@, founds_view(final(s)@)),
        founds_view(final(s)@) == insert_by_start(founds_view(old(s)@), found_view(r)),
{
    let ghost sv = founds_view(s@);
    let ghost rv = found_view(r);
    let mut p = s.len();
    proof {
        assert(sv.take(p as int) =~= sv);
        assert(sv.skip(p as int) =~= Seq::<FoundRef>::empty());
        assert(insert_by_start(sv, rv) + Seq::<FoundRef>::empty() =~= insert_by_start(sv, rv));
    }
    while p > 0 && s[p - 1].start > r.start
        invariant
            p <= s@.len(),
            sv == founds_view(s@),
            rv == found_view(r),
            insert_by_start(sv, rv) == insert_by_start(sv.take(p as int), rv) + sv.skip(p as int),
        decreases p,
    {
        proof {
            let t = sv.take(p as int);
            assert(t.last() == sv[p - 1]);
            assert(t.drop_last() =~= sv.take(p - 1));
            assert(insert_by_start(t, rv) == insert_by_start(sv.take(p - 1), rv).push(sv[p - 1]));
            assert(sv.skip(p - 1) =~= seq![sv[p - 1]] + sv.skip(p as int));
            assert(insert_by_start(sv.take(p - 1), rv).push(sv[p - 1]) + sv.skip(p as int) =~= insert_by_start(
                sv.take(p - 1),
                rv,
            ) + sv.skip(p - 1));
        }
        p = p - 1;
    }
    proof {
        let t = sv.take(p as int);
        if p > 0 {
            assert(t.last() == sv[p - 1]);
        }
        assert(insert_by_start(t, rv) =~= t.push(rv));
    }
    s.insert(p, r);
    proof {
        assert(founds_view(s@) =~= sv.take(p as int).push(rv) + sv.skip(p as int));
        assert forall|i: int| 0 <= i < founds_view(s@).len() implies found_ok(n@, #[trigger] founds_view(s@)[i]) by {
            if i < p {
                assert(founds_view(s@)[i] == sv[i]);
            } else if i > p {
                assert(founds_view(s@)[i] == sv[i - 1]);
            }
        }
    }
}

proof fn lemma_take_full<A>(s: Seq<A>)
    ensures
        s.take(s.len() as int) == s,
{
    assert(s.take(s.len() as int) =~= s);
}

/// The references of entry text `x`, stably sorted by start position.
pub fn find_refs(x: &Vec<char>) -> (r: Vec<FoundRefExec>)
    ensures
        all_found_ok(x@.len() as int, founds_view(r@)),
        founds_view(r@) == found_refs(x@),
{
    let mut all: Vec<FoundRefExec> = Vec::new();
    assert(founds_view(all@) =~= Seq::<FoundRef>::empty());
    links_from(x, 0, &mut all);
    tags_at(x, 0, &mut all);
    let bang: Vec<char> = vec!['!', '['];
    let bracket: Vec<char> = vec!['['];
    proof {
        assert(bang@ =~= seq!['!', '[']);
        assert(bracket@ =~= seq!['[']);
    }
    assets_at(x, &bang, 0, &mut all);
    assets_at(x, &bracket, 0, &mut all);
    let ghost av = founds_view(all@);
    proof {
        assert(av =~= Seq::<FoundRef>::empty() + page_links_from(x@, 0) + tags_from(x@, 0) + assets_from(
            x@,
            seq!['!', '['],
            0,
        ) + assets_from(x@, seq!['['], 0));
        assert(av =~= page_links_from(x@, 0) + tags_from(x@, 0) + assets_from(x@, seq!['!', '['], 0) + assets_from(
            x@,
            seq!['['],
            0,
        ));
    }
    let mut sorted: Vec<FoundRefExec> = Vec::new();
    assert(founds_view(sorted@) =~= Seq::<FoundRef>::empty());
    let n = all.len();
    let mut rest = all;
    proof {
        assert(founds_view(sorted@) =~= sort_by_start(av.take(0)));
    }
    let mut i: usize = 0;
    while i < n
        invariant
            i <= n,
            n == av.len(),
            founds_view(rest@) == av.skip(i as int),
            founds_view(sorted@) == sort_by_start(av.take(i as int)),
            all_found_ok(x@.len() as int, av),
            all_found_ok(x@.len() as int, founds_view(sorted@)),
        decreases n - i,
    {
        let ghost old_rest = rest@;
        proof {
            assert(founds_view(rest@).len() == rest@.len());
        }
        let r = rest.remove(0);
        proof {
            assert(r == old_rest[0]);
            assert(rest@ =~= old_rest.skip(1));
            assert(founds_view(rest@) =~= founds_view(old_rest).skip(1));
            assert(founds_view(old_rest)[0] == found_view(r));
            assert(av[i as int] == found_view(r));
            assert(founds_view(rest@) =~= av.skip(i + 1));
            assert(av.take(i + 1).drop_last() =~= av.take(i as int));
            assert(av.take(i + 1).last() == av[i as int]);
        }
        proof {
            assert(found_ok(x@.len() as int, av[i as int]));
        }
        insert_found(&mut sorted, r, Ghost(x@.len() as int));
        i = i + 1;
    }
    proof {
        lemma_take_full(av);
    }
    sorted
}


/// The references are in order of where they start.
pub open spec fn starts_in_order(s: Seq<FoundRef>) -> bool {
    forall|i: int, j: int| 0 <= i < j < s.len() ==> (#[trigger] s[i]).start <= (#[trigger] s[j]).start
}

proof fn lemma_insert_by_start(s: Seq<FoundRef>, r: FoundRef)
    requires
        starts_in_order(s),
    ensures
        starts_in_order(insert_by_start(s, r)),
        insert_by_start(s, r).len() == s.len() + 1,
        insert_by_start(s, r).last().start >= r.start,
        s.len() > 0 ==> insert_by_start(s, r).last().start >= s.last().start,
        forall|i: int| 0 <= i < insert_by_start(s, r).len() ==> (#[trigger] insert_by_start(s, r)[i] == r || s.contains(
            insert_by_start(s, r)[i],
        )),
    decreases s.len(),
{
    let out = insert_by_start(s, r);
    if s.len() == 0 {
    } else if s.last().start <= r.start {
        assert forall|i: int, j: int| 0 <= i < j < out.len() implies (#[trigger] out[i]).start <= (#[trigger] out[j]).start by {
            if j == out.len() - 1 {
                assert(out[i] == s[i]);
                if i < s.len() - 1 {
                    assert(s[i].start <= s[s.len() - 1].start);
                }
            } else {
                assert(out[i] == s[i] && out[j] == s[j]);
            }
        }
        assert forall|i: int| 0 <= i < out.len() implies (#[trigger] out[i] == r || s.contains(out[i])) by {
            if i < s.len() {
                assert(out[i] == s[i]);
            }
        }
    } else {
        let pre = s.drop_last();
        assert forall|i: int, j: int| 0 <= i < j < pre.len() implies (#[trigger] pre[i]).start <= (#[trigger] pre[j]).start by {
            assert(pre[i] == s[i] && pre[j] == s[j]);
        }
        lemma_insert_by_start(pre, r);
        let mid = insert_by_start(pre, r);
        assert(out == mid.push(s.last()));
        assert forall|i: int| 0 <= i < mid.len() implies (#[trigger] mid[i]).start <= s.last().start by {
            if mid[i] != r {
                assert(pre.contains(mid[i]));
                let k = choose|k: int| 0 <= k < pre.len() && pre[k] == mid[i];
                assert(s[k] == pre[k]);
                assert(s[k].start <= s[s.len() - 1].start);
            }
        }
        assert forall|i: int, j: int| 0 <= i < j < out.len() implies (#[trigger] out[i]).start <= (#[trigger] out[j]).start by {
            if j == out.len() - 1 {
                assert(out[i] == mid[i]);
            } else {
                assert(out[i] == mid[i] && out[j] == mid[j]);
            }
        }
        assert forall|i: int| 0 <= i < out.len() implies (#[trigger] out[i] == r || s.contains(out[i])) by {
            if i < mid.len() {
                assert(out[i] == mid[i]);
                if mid[i] != r {
                    let k = choose|k: int| 0 <= k < pre.len() && pre[k] == mid[i];
                    assert(s[k] == pre[k]);
                }
            } else {
                assert(s[s.len() - 1] == s.last());
            }
        }
        assert(s.last() == s[s.len() - 1]);
    }
}

proof fn lemma_sort_by_start(s: Seq<FoundRef>)
    ensures
        starts_in_order(sort_by_start(s)),
    decreases s.len(),
{
    if s.len() > 0 {
        lemma_sort_by_start(s.drop_last());
        lemma_insert_by_start(sort_by_start(s.drop_last()), s.last());
    }
}

/// The references found in entry text come in order of where they start.
pub proof fn law_found_refs_in_order(x: Seq<char>)
    ensures
        starts_in_order(found_refs(x)),
{
    lemma_sort_by_start(
        page_links_from(x, 0) + tags_from(x, 0) + assets_from(x, seq!['!', '['], 0) + assets_from(x, seq!['['], 0),
    );
}


/// A `#tag` found in entry text `x` is cut as the text says: it starts at a `#`
/// that does not follow an ASCII letter or digit, its raw text is everything after the `#` up to its end, made only of ASCII
/// letters and digits, `/`, `_` and `-`, and it ends where no such character
/// follows (so `#a/b` names the page key `a/b`); its page key is that of its raw
/// text.
pub open spec fn tag_cut_ok(x: Seq<char>, f: FoundRef) -> bool {
    let continues = |c: char|
        ('0' <= c && c <= '9') || ('a' <= c && c <= 'z') || ('A' <= c && c <= 'Z') || c == '/' || c == '_' || c
            == '-';
    f.kind == ReferenceKind::Tag ==> {
        &&& 0 <= f.start < f.end <= x.len()
        &&& x[f.start] == '#'
        &&& f.start > 0 ==> !(('0' <= x[f.start - 1] && x[f.start - 1] <= '9') || ('a' <= x[f.start - 1] && x[f.start
            - 1] <= 'z') || ('A' <= x[f.start - 1] && x[f.start - 1] <= 'Z'))
        &&& f.raw == x.subrange(f.start + 1, f.end)
        &&& forall|j: int| f.start < j < f.end ==> #[trigger] continues(x[j])
        &&& f.end < x.len() ==> !continues(x[f.end])
        &&& f.page_key == Some(normalize_key(f.raw))
    }
}

proof fn lemma_tags_from_cut(x: Seq<char>, i: int)
    requires
        0 <= i,
    ensures
        forall|m: int| 0 <= m < tags_from(x, i).len() ==> tag_cut_ok(x, #[trigger] tags_from(x, i)[m]),
        forall|m: int| 0 <= m < tags_from(x, i).len() ==> (#[trigger] tags_from(x, i)[m]).kind == ReferenceKind::Tag,
    decreases x.len() - i,
{
    if i >= x.len() {
    } else if x[i] == '#' {
        if i > 0 && ascii_alnum(x[i - 1]) {
            lemma_tags_from_cut(x, i + 1);
        } else {
            lemma_tag_run(x, i + 1);
            let e = tag_run(x, i + 1);
            let raw = x.subrange(i + 1, e);
            lemma_tags_from_cut(x, e);
            if normalize_key(raw).len() > 0 {
                let f = page_ref(ReferenceKind::Tag, raw, i, e);
                let all = tags_from(x, i);
                assert(all == seq![f] + tags_from(x, e));
                assert(tag_cut_ok(x, f)) by {
                    assert forall|j: int| i < j < e implies tag_char(#[trigger] x[j]) by {}
                }
                assert forall|m: int| 0 <= m < all.len() implies tag_cut_ok(x, #[trigger] all[m]) && all[m].kind
                    == ReferenceKind::Tag by {
                    if m > 0 {
                        assert(all[m] == tags_from(x, e)[m - 1]);
                    }
                }
            }
        }
    } else {
        lemma_tags_from_cut(x, i + 1);
    }
}

proof fn lemma_links_kind(x: Seq<char>, from: int)
    requires
        0 <= from,
    ensures
        forall|m: int| 0 <= m < page_links_from(x, from).len() ==> (#[trigger] page_links_from(x, from)[m]).kind
            == ReferenceKind::PageLink,
    decreases x.len() - from,
{
    let a = find_from(x, seq!['[', '['], from);
    if a >= 0 {
        let c = find_from(x, seq![']', ']'], a + 2);
        if c >= 0 {
            lemma_find_from(x, seq!['[', '['], from);
            lemma_find_from(x, seq![']', ']'], a + 2);
            lemma_links_kind(x, c + 2);
            let raw = x.subrange(a + 2, c);
            let all = page_links_from(x, from);
            if normalize_key(raw).len() > 0 {
                assert forall|m: int| 0 <= m < all.len() implies (#[trigger] all[m]).kind == ReferenceKind::PageLink by {
                    if m > 0 {
                        assert(all[m] == page_links_from(x, c + 2)[m - 1]);
                    }
                }
            }
        }
    }
}

proof fn lemma_assets_kind(x: Seq<char>, pat: Seq<char>, from: int)
    requires
        0 <= from,
    ensures
        forall|m: int| 0 <= m < assets_from(x, pat, from).len() ==> (#[trigger] assets_from(x, pat, from)[m]).kind
            == ReferenceKind::Asset,
    decreases x.len() - from,
{
    let a = find_from(x, pat, from);
    if a >= 0 {
        let op = find_from(x, seq!['('], a);
        if op >= 0 {
            let cp = find_from(x, seq![')'], op + 1);
            if cp >= 0 {
                lemma_find_from(x, pat, from);
                lemma_find_from(x, seq!['('], a);
                lemma_find_from(x, seq![')'], op + 1);
                lemma_assets_kind(x, pat, cp);
                let all = assets_from(x, pat, from);
                assert forall|m: int| 0 <= m < all.len() implies (#[trigger] all[m]).kind == ReferenceKind::Asset by {
                    if all.len() > assets_from(x, pat, cp).len() && m > 0 {
                        assert(all[m] == assets_from(x, pat, cp)[m - 1]);
                    } else if all.len() == assets_from(x, pat, cp).len() {
                        assert(all[m] == assets_from(x, pat, cp)[m]);
                    }
                }
            }
        }
    }
}

proof fn lemma_sort_members(s: Seq<FoundRef>)
    ensures
        forall|i: int| 0 <= i < sort_by_start(s).len() ==> s.contains(#[trigger] sort_by_start(s)[i]),
    decreases s.len(),
{
    if s.len() > 0 {
        let pre = s.drop_last();
        lemma_sort_members(pre);
        lemma_sort_by_start(pre);
        lemma_insert_by_start(sort_by_start(pre), s.last());
        let out = sort_by_start(s);
        assert forall|i: int| 0 <= i < out.len() implies s.contains(#[trigger] out[i]) by {
            if out[i] == s.last() {
                assert(s[s.len() - 1] == s.last());
            } else {
                let k = choose|k: int| 0 <= k < sort_by_start(pre).len() && sort_by_start(pre)[k] == out[i];
                assert(pre.contains(out[i]));
                let m = choose|m: int| 0 <= m < pre.len() && pre[m] == out[i];
                assert(s[m] == pre[m]);
            }
        }
    }
}

/// Every `#tag` found in entry text is cut as the text says: from a `#` over every
/// following ASCII letter, digit, `/`, `_` and `-`, naming the key of that text.
pub proof fn law_tags_cut_whole(x: Seq<char>)
    ensures
        forall|i: int| 0 <= i < found_refs(x).len() ==> tag_cut_ok(x, #[trigger] found_refs(x)[i]),
{
    let l = page_links_from(x, 0);
    let g = tags_from(x, 0);
    let a1 = assets_from(x, seq!['!', '['], 0);
    let a2 = assets_from(x, seq!['['], 0);
    let all = l + g + a1 + a2;
    lemma_links_kind(x, 0);
    lemma_tags_from_cut(x, 0);
    lemma_assets_kind(x, seq!['!', '['], 0);
    lemma_assets_kind(x, seq!['['], 0);
    lemma_sort_members(all);
    assert forall|i: int| 0 <= i < found_refs(x).len() implies tag_cut_ok(x, #[trigger] found_refs(x)[i]) by {
        let f = found_refs(x)[i];
        assert(all.contains(f));
        let m = choose|m: int| 0 <= m < all.len() && all[m] == f;
        if m < l.len() {
            assert(all[m] == l[m]);
        } else if m < l.len() + g.len() {
            assert(all[m] == g[m - l.len()]);
        } else if m < l.len() + g.len() + a1.len() {
            assert(all[m] == a1[m - l.len() - g.len()]);
        } else {
            assert(all[m] == a2[m - l.len() - g.len() - a1.len()]);
        }
    }
}

} // verus!
