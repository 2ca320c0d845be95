//! Resolution of workspace-relative markdown paths to page identities.

use vstd::prelude::*;

use super::error::PagePathError;
use super::names::{
    delim_at, ends_with_md, ends_with_md_exec, has_delimiter, is_stream_date_markdown_name,
    is_stream_date_markdown_name_exec, is_stream_date_name, lemma_valid_name_chars, name_error,
    valid_name,
};
use super::page_id::{
    LocationView, PageId, PageIdView, PageLocation, PageName, ResolvedWorkspacePath, chars_view,
    delimiter, join_with, lemma_first_name_error_none, md_suffix, new_result, pages_root,
    shape_error, workspace_path_view,
};
use super::transaction::{free_of, lemma_split_concat, lemma_split_free};
use crate::text::{chars_eq, split_chars, split_on, str_chars, sub_chars};

verus! {

/// `assets`
pub open spec fn assets_root() -> Seq<char> {
    seq!['a', 's', 's', 'e', 't', 's']
}

/// `uniseq`
pub open spec fn app_root() -> Seq<char> {
    seq!['u', 'n', 'i', 's', 'e', 'q']
}

/// Top-level folders that are never streams.
pub open spec fn is_reserved_root(c: Seq<char>) -> bool {
    c == pages_root() || c == assets_root() || c == app_root()
}

/// A path piece that `Path::components` yields: not empty, and `.` only in front.
pub open spec fn keep_piece(p: Seq<char>, i: int) -> bool {
    p.len() > 0 && !(p == seq!['.'] && i > 0)
}

pub open spec fn components_from(pieces: Seq<Seq<char>>, i: int) -> Seq<Seq<char>>
    decreases pieces.len() - i,
{
    if i < 0 || i >= pieces.len() {
        seq![]
    } else if keep_piece(pieces[i], i) {
        seq![pieces[i]] + components_from(pieces, i + 1)
    } else {
        components_from(pieces, i + 1)
    }
}

/// The components of a relative path written with `/` separators.
pub open spec fn path_components(s: Seq<char>) -> Seq<Seq<char>> {
    components_from(split_on(s, '/'), 0)
}

pub open spec fn component_error(c: Seq<char>) -> Option<PagePathError> {
    if c == seq!['.', '.'] {
        Some(PagePathError::ParentComponent)
    } else if c == seq!['.'] {
        Some(PagePathError::NestedPath)
    } else {
        None
    }
}

pub open spec fn first_component_error(comps: Seq<Seq<char>>, i: int) -> Option<PagePathError>
    decreases comps.len() - i,
{
    if i < 0 || i >= comps.len() {
        None
    } else if component_error(comps[i]) is Some {
        component_error(comps[i])
    } else {
        first_component_error(comps, i + 1)
    }
}

/// The plain components of a relative path, or why it has none.
pub open spec fn components_result(s: Seq<char>) -> Result<Seq<Seq<char>>, PagePathError> {
    if s.len() > 0 && s[0] == '/' {
        Err(PagePathError::AbsolutePath)
    } else if first_component_error(path_components(s), 0) is Some {
        Err(first_component_error(path_components(s), 0)->0)
    } else {
        Ok(path_components(s))
    }
}

/// The first occurrence of `___` at or after `from`, or `-1`.
pub open spec fn find_delim(s: Seq<char>, from: int) -> int
    decreases s.len() - from,
{
    if from < 0 || from + 3 > s.len() {
        -1
    } else if delim_at(s, from) {
        from
    } else {
        find_delim(s, from + 1)
    }
}

/// The pieces of `s[from..]` between occurrences of `___` (`str::split("___")`).
pub open spec fn split_delim_from(s: Seq<char>, from: int) -> Seq<Seq<char>>
    decreases s.len() - from,
{
    let k = find_delim(s, from);
    if from < 0 || from > s.len() {
        seq![]
    } else if k < from || k + 3 > s.len() {
        seq![s.subrange(from, s.len() as int)]
    } else {
        seq![s.subrange(from, k)] + split_delim_from(s, k + 3)
    }
}

pub open spec fn split_delim(s: Seq<char>) -> Seq<Seq<char>> {
    split_delim_from(s, 0)
}

/// What parsing a flat page file name `A___B.md` gives.
pub open spec fn page_file_result(f: Seq<char>) -> Result<PageIdView, PagePathError> {
    if !ends_with_md(f) {
        Err(PagePathError::MissingMarkdownExtension)
    } else {
        let stem = f.take(f.len() - 3);
        let pieces = split_delim(stem);
        if stem.len() == 0 || exists|i: int| 0 <= i < pieces.len() && (#[trigger] pieces[i]).len()
            == 0 {
            Err(PagePathError::EmptyHierarchySegment)
        } else {
            new_result(LocationView::Pages, pieces)
        }
    }
}

/// What resolving the two components `[stream, date.md]` gives.
pub open spec fn stream_file_result(c: Seq<Seq<char>>) -> Result<PageIdView, PagePathError> {
    if c.len() != 2 {
        Err(PagePathError::NestedPath)
    } else if name_error(c[0]) is Some {
        Err(PagePathError::InvalidName(name_error(c[0])->0))
    } else if !is_stream_date_markdown_name(c[1]) {
        Err(PagePathError::NestedPath)
    } else {
        let date = c[1].take(c[1].len() - 3);
        if name_error(date) is Some {
            Err(PagePathError::InvalidName(name_error(date)->0))
        } else if shape_error(LocationView::Stream(c[0]), seq![c[0], date]) is Some {
            Err(shape_error(LocationView::Stream(c[0]), seq![c[0], date])->0)
        } else {
            Ok(PageIdView { location: LocationView::Stream(c[0]), segments: seq![c[0], date] })
        }
    }
}

/// What resolving a workspace-relative path gives.
pub open spec fn resolve_view(s: Seq<char>) -> Result<PageIdView, PagePathError> {
    match components_result(s) {
        Err(e) => Err(e),
        Ok(c) => if c.len() == 0 {
            Err(PagePathError::MissingFileName)
        } else if c[0] == pages_root() {
            if c.len() != 2 {
                Err(PagePathError::NestedPath)
            } else {
                page_file_result(c[1])
            }
        } else if !is_reserved_root(c[0]) {
            stream_file_result(c)
        } else {
            Err(PagePathError::NestedPath)
        },
    }
}

/// What `supported_workspace_markdown_path` gives: `None` for markdown outside the
/// supported roots.
pub open spec fn supported_view(s: Seq<char>) -> Result<Option<PageIdView>, PagePathError> {
    match components_result(s) {
        Err(e) => Err(e),
        Ok(c) => if c.len() == 0 {
            Err(PagePathError::MissingFileName)
        } else if c[0] == pages_root() || (!is_reserved_root(c[0]) && c.len() == 2
            && is_stream_date_markdown_name(c[1])) {
            match resolve_view(s) {
                Ok(v) => Ok(Some(v)),
                Err(e) => Err(e),
            }
        } else {
            Ok(None)
        },
    }
}

proof fn lemma_find_delim(s: Seq<char>, from: int)
    requires
        0 <= from,
    ensures
        find_delim(s, from) == -1 || (from <= find_delim(s, from) && delim_at(
            s,
            find_delim(s, from),
        )),
        forall|j: int| from <= j && (find_delim(s, from) == -1 || j < find_delim(s, from)) ==> !delim_at(s, j),
    decreases s.len() - from,
{
    if from + 3 <= s.len() && !delim_at(s, from) {
        lemma_find_delim(s, from + 1);
    }
}

fn literal_chars(s: &str) -> (r: Vec<char>)
    ensures
        r@ == s@,
{
    str_chars(s)
}

fn is_reserved_root_exec(c: &Vec<char>) -> (r: bool)
    ensures
        r == is_reserved_root(c@),
{
    let pages = literal_chars("pages");
    let assets = literal_chars("assets");
    let app = literal_chars("uniseq");
    proof {
        reveal_strlit("pages");
        reveal_strlit("assets");
        reveal_strlit("uniseq");
        assert(pages@ =~= pages_root());
        assert(assets@ =~= assets_root());
        assert(app@ =~= app_root());
    }
    chars_eq(c, &pages) || chars_eq(c, &assets) || chars_eq(c, &app)
}

fn is_pages_root_exec(c: &Vec<char>) -> (r: bool)
    ensures
        r == (c@ == pages_root()),
{
    let pages = literal_chars("pages");
    proof {
        reveal_strlit("pages");
        assert(pages@ =~= pages_root());
    }
    chars_eq(c, &pages)
}

/// The pieces of `v[from..]` between occurrences of `___`.
fn split_delim_exec(v: &Vec<char>) -> (r: Vec<Vec<char>>)
    ensures
        chars_view(r@) == split_delim(v@),
{
    let mut r: Vec<Vec<char>> = Vec::new();
    let mut from: usize = 0;
    let n = v.len();
    loop
        invariant
            n == v@.len(),
            from <= n,
            chars_view(r@) + split_delim_from(v@, from as int) == split_delim(v@),
        decreases n - from,
    {
        let mut k = from;
        while k < n && !(n - k >= 3 && v[k] == '_' && v[k + 1] == '_' && v[k + 2] == '_')
            invariant
                from <= k <= n,
                n == v@.len(),
                forall|j: int| from <= j < k ==> !delim_at(v@, j),
            decreases n - k,
        {
            k = k + 1;
        }
        proof {
            lemma_find_delim(v@, from as int);
            if k < n {
                assert(delim_at(v@, k as int));
            }
            let f = find_delim(v@, from as int);
            if f != -1 {
                assert(!(f < k) || !delim_at(v@, f));
            }
            if k == n && f != -1 {
                assert(delim_at(v@, f));
            }
        }
        if k == n {
            let piece = sub_chars(v, from, n);
            let ghost old_r = r@;
            r.push(piece);
            proof {
                assert(chars_view(r@) =~= chars_view(old_r).push(piece@));
                assert(split_delim_from(v@, from as int) =~= seq![v@.subrange(from as int, n as int)]);
                assert(chars_view(r@) =~= chars_view(old_r) + split_delim_from(v@, from as int));
            }
            return r;
        }
        let piece = sub_chars(v, from, k);
        let ghost old_r = r@;
        r.push(piece);
        proof {
            assert(chars_view(r@) =~= chars_view(old_r).push(piece@));
            assert(split_delim_from(v@, from as int) =~= seq![v@.subrange(from as int, k as int)]
                + split_delim_from(v@, k + 3));
            assert(chars_view(r@) + split_delim_from(v@, k + 3) =~= chars_view(old_r)
                + split_delim_from(v@, from as int));
        }
        from = k + 3;
    }
}

/// The plain components of a path, or why it has none.
fn path_components_exec(path: &str) -> (r: Result<Vec<Vec<char>>, PagePathError>)
    ensures
        r is Ok <==> components_result(path@) is Ok,
        r matches Ok(c) ==> chars_view(c@) == components_result(path@)->Ok_0,
        r matches Err(e) ==> components_result(path@) == Err::<Seq<Seq<char>>, PagePathError>(e),
{
    let chars = str_chars(path);
    if chars.len() > 0 && chars[0] == '/' {
        return Err(PagePathError::AbsolutePath);
    }
    let pieces = split_chars(&chars, '/');
    let ghost pv = chars_view(pieces@);
    assert(pv == split_on(chars@, '/'));
    let mut comps: Vec<Vec<char>> = Vec::new();
    let mut i: usize = pieces.len();
    let mut rev: Vec<Vec<char>> = Vec::new();
    // Collect kept pieces back to front so that the result matches `components_from`.
    while i > 0
        invariant
            i <= pieces@.len(),
            pv == chars_view(pieces@),
            chars_view(rev@).reverse() == components_from(pv, i as int),
        decreases i,
    {
        i = i - 1;
        let p = &pieces[i];
        let keep = p.len() > 0 && !(p.len() == 1 && p[0] == '.' && i > 0);
        proof {
            if p@ == seq!['.'] {
                assert(p@.len() == 1 && p@[0] == '.');
            }
            if p@.len() == 1 && p@[0] == '.' {
                assert(p@ =~= seq!['.']);
            }
            assert(keep == keep_piece(pv[i as int], i as int));
        }
        if keep {
            let ghost old_rev = rev@;
            rev.push(p.clone());
            proof {
                assert(chars_view(rev@) =~= chars_view(old_rev).push(p@));
                assert(chars_view(rev@).reverse() =~= seq![p@] + chars_view(old_rev).reverse());
            }
        }
    }
    let mut j: usize = rev.len();
    while j > 0
        invariant
            j <= rev@.len(),
            chars_view(comps@) == chars_view(rev@).reverse().take(rev@.len() - j),
        decreases j,
    {
        j = j - 1;
        let ghost old_c = comps@;
        comps.push(rev[j].clone());
        proof {
            assert(chars_view(comps@) =~= chars_view(old_c).push(rev@[j as int]@));
            assert(chars_view(rev@).reverse().take(rev@.len() - j) =~= chars_view(rev@).reverse().take(
                rev@.len() - j - 1,
            ).push(rev@[j as int]@));
        }
    }
    assert(chars_view(comps@) =~= path_components(chars@));
    let mut k: usize = 0;
    while k < comps.len()
        invariant
            k <= comps@.len(),
            chars_view(comps@) == path_components(chars@),
            chars@ == path@,
            !(chars@.len() > 0 && chars@[0] == '/'),
            forall|m: int| 0 <= m < k ==> component_error(#[trigger] comps@[m]@) is None,
        decreases comps@.len() - k,
    {
        let c = &comps[k];
        if c.len() == 2 && c[0] == '.' && c[1] == '.' {
            proof {
                assert(c@ =~= seq!['.', '.']);
                lemma_first_component_error_at(chars_view(comps@), 0, k as int);
            }
            return Err(PagePathError::ParentComponent);
        }
        if c.len() == 1 && c[0] == '.' {
            proof {
                assert(c@ =~= seq!['.']);
                lemma_first_component_error_at(chars_view(comps@), 0, k as int);
            }
            return Err(PagePathError::NestedPath);
        }
        proof {
            if c@ == seq!['.', '.'] {
                assert(c@.len() == 2);
            }
            if c@ == seq!['.'] {
                assert(c@.len() == 1);
            }
        }
        k = k + 1;
    }
    proof {
        lemma_first_component_error_none(chars_view(comps@), 0);
    }
    Ok(comps)
}

proof fn lemma_first_component_error_none(comps: Seq<Seq<char>>, i: int)
    requires
        0 <= i <= comps.len(),
        forall|j: int| i <= j < comps.len() ==> component_error(#[trigger] comps[j]) is None,
    ensures
        first_component_error(comps, i) is None,
    decreases comps.len() - i,
{
    if i < comps.len() {
        lemma_first_component_error_none(comps, i + 1);
    }
}

proof fn lemma_first_component_error_at(comps: Seq<Seq<char>>, i: int, k: int)
    requires
        0 <= i <= k < comps.len(),
        forall|j: int| i <= j < k ==> component_error(#[trigger] comps[j]) is None,
        component_error(comps[k]) is Some,
    ensures
        first_component_error(comps, i) == component_error(comps[k]),
    decreases k - i,
{
    if i < k {
        lemma_first_component_error_at(comps, i + 1, k);
    }
}

/// Parses a flat page file name `A___B.md`.
fn parse_page_file_name(f: &Vec<char>) -> (r: Result<PageId, PagePathError>)
    ensures
        r is Ok <==> page_file_result(f@) is Ok,
        r matches Ok(id) ==> id@ == page_file_result(f@)->Ok_0,
        r matches Err(e) ==> page_file_result(f@) == Err::<PageIdView, PagePathError>(e),
{
    if !ends_with_md_exec(f) {
        return Err(PagePathError::MissingMarkdownExtension);
    }
    let stem = sub_chars(f, 0, f.len() - 3);
    assert(stem@ =~= f@.take(f@.len() - 3));
    let pieces = split_delim_exec(&stem);
    let ghost pv = chars_view(pieces@);
    if stem.len() == 0 {
        return Err(PagePathError::EmptyHierarchySegment);
    }
    let mut i: usize = 0;
    while i < pieces.len()
        invariant
            i <= pieces@.len(),
            pv == chars_view(pieces@),
            pv == split_delim(f@.take(f@.len() - 3)),
            ends_with_md(f@),
            forall|j: int| 0 <= j < i ==> (#[trigger] pv[j]).len() != 0,
        decreases pieces@.len() - i,
    {
        if pieces[i].len() == 0 {
            assert(pv[i as int].len() == 0);
            return Err(PagePathError::EmptyHierarchySegment);
        }
        i = i + 1;
    }
    PageId::from_char_segments(PageLocation::Pages, &pieces)
}

/// Resolves `[stream, date.md]`.
fn resolve_stream_components(c: &Vec<Vec<char>>) -> (r: Result<PageId, PagePathError>)
    ensures
        r is Ok <==> stream_file_result(chars_view(c@)) is Ok,
        r matches Ok(id) ==> id@ == stream_file_result(chars_view(c@))->Ok_0,
        r matches Err(e) ==> stream_file_result(chars_view(c@)) == Err::<PageIdView, PagePathError>(
            e,
        ),
{
    if c.len() != 2 {
        return Err(PagePathError::NestedPath);
    }
    let stream_name = match PageName::from_chars(&c[0]) {
        Ok(n) => n,
        Err(e) => {
            return Err(PagePathError::InvalidName(e));
        },
    };
    if !is_stream_date_markdown_name_exec(&c[1]) {
        return Err(PagePathError::NestedPath);
    }
    let date_chars = sub_chars(&c[1], 0, c[1].len() - 3);
    assert(date_chars@ =~= c@[1]@.take(c@[1]@.len() - 3));
    let date_name = match PageName::from_chars(&date_chars) {
        Ok(n) => n,
        Err(e) => {
            return Err(PagePathError::InvalidName(e));
        },
    };
    let location = PageLocation::Stream { stream_name: stream_name.duplicate() };
    let mut names: Vec<PageName> = Vec::new();
    names.push(stream_name);
    names.push(date_name);
    proof {
        assert(super::page_id::names_view(names@) =~= seq![c@[0]@, date_chars@]);
    }
    PageId::from_page_names_in_location(location, names)
}

/// Resolves a workspace-relative markdown path to the page it stores.
pub fn resolve_workspace_path(path: &str) -> (r: Result<ResolvedWorkspacePath, PagePathError>)
    ensures
        r is Ok <==> resolve_view(path@) is Ok,
        r matches Ok(p) ==> p.page_id@ == resolve_view(path@)->Ok_0 && p.location@
            == p.page_id@.location,
        r matches Err(e) ==> resolve_view(path@) == Err::<PageIdView, PagePathError>(e),
{
    let comps = match path_components_exec(path) {
        Ok(c) => c,
        Err(e) => {
            return Err(e);
        },
    };
    if comps.len() == 0 {
        return Err(PagePathError::MissingFileName);
    }
    let id = if is_pages_root_exec(&comps[0]) {
        if comps.len() != 2 {
            return Err(PagePathError::NestedPath);
        }
        parse_page_file_name(&comps[1])
    } else if !is_reserved_root_exec(&comps[0]) {
        resolve_stream_components(&comps)
    } else {
        return Err(PagePathError::NestedPath);
    };
    match id {
        Ok(page_id) => {
            let location = page_id.location().duplicate();
            Ok(ResolvedWorkspacePath { page_id, location })
        },
        Err(e) => Err(e),
    }
}

/// Resolves markdown paths inside the supported roots; `None` for other markdown files.
pub fn supported_workspace_markdown_path(path: &str) -> (r: Result<
    Option<ResolvedWorkspacePath>,
    PagePathError,
>)
    ensures
        r is Ok <==> supported_view(path@) is Ok,
        r matches Ok(o) ==> (o is Some <==> supported_view(path@)->Ok_0 is Some),
        r matches Ok(Some(p)) ==> p.page_id@ == supported_view(path@)->Ok_0->Some_0
            && p.location@ == p.page_id@.location,
        r matches Err(e) ==> supported_view(path@) == Err::<Option<PageIdView>, PagePathError>(e),
{
    let comps = match path_components_exec(path) {
        Ok(c) => c,
        Err(e) => {
            return Err(e);
        },
    };
    if comps.len() == 0 {
        return Err(PagePathError::MissingFileName);
    }
    if is_pages_root_exec(&comps[0]) || (!is_reserved_root_exec(&comps[0]) && comps.len() == 2
        && is_stream_date_markdown_name_exec(&comps[1])) {
        match resolve_workspace_path(path) {
            Ok(p) => Ok(Some(p)),
            Err(e) => Err(e),
        }
    } else {
        Ok(None)
    }
}

impl PageId {
    /// The page stored at a workspace-relative path.
    pub fn from_workspace_path(path: &str) -> (r: Result<Self, PagePathError>)
        ensures
            r is Ok <==> resolve_view(path@) is Ok,
            r matches Ok(id) ==> id@ == resolve_view(path@)->Ok_0,
            r matches Err(e) ==> resolve_view(path@) == Err::<PageIdView, PagePathError>(e),
    {
        match resolve_workspace_path(path) {
            Ok(p) => Ok(p.page_id),
            Err(e) => Err(e),
        }
    }

    /// The page-backed id written `A/B/C` (`FromStr`).
    pub fn parse_hierarchy(value: &str) -> (r: Result<Self, PagePathError>)
        ensures
            r is Ok <==> new_result(LocationView::Pages, split_on(value@, '/')) is Ok,
            r matches Ok(id) ==> id@ == new_result(LocationView::Pages, split_on(value@, '/'))->Ok_0,
            r matches Err(e) ==> new_result(LocationView::Pages, split_on(value@, '/')) == Err::<
                PageIdView,
                PagePathError,
            >(e),
    {
        let chars = str_chars(value);
        let pieces = split_chars(&chars, '/');
        PageId::from_char_segments(PageLocation::Pages, &pieces)
    }
}


// ---------------------------------------------------------------------------
// From a page to its file and back
// ---------------------------------------------------------------------------

/// Joining two or more parts: the first part, the separator, then the rest joined.
proof fn lemma_join_left(parts: Seq<Seq<char>>, sep: Seq<char>)
    requires
        parts.len() >= 2,
    ensures
        join_with(parts, sep) == parts[0] + sep + join_with(parts.skip(1), sep),
    decreases parts.len(),
{
    if parts.len() == 2 {
        assert(parts.drop_last() =~= seq![parts[0]]);
        assert(parts.skip(1) =~= seq![parts[1]]);
        assert(join_with(parts.drop_last(), sep) == parts[0]);
        assert(join_with(parts.skip(1), sep) == parts[1]);
        assert(parts.last() == parts[1]);
    } else {
        let init = parts.drop_last();
        lemma_join_left(init, sep);
        assert(init.skip(1) =~= parts.skip(1).drop_last());
        assert(parts.skip(1).last() == parts.last());
        assert(init[0] == parts[0]);
        assert(join_with(parts, sep) =~= parts[0] + sep + join_with(parts.skip(1), sep));
    }
}

proof fn lemma_join_free_seq(parts: Seq<Seq<char>>, sep: Seq<char>, c: char)
    requires
        free_of(sep, c),
        forall|i: int| 0 <= i < parts.len() ==> free_of(#[trigger] parts[i], c),
    ensures
        free_of(join_with(parts, sep), c),
    decreases parts.len(),
{
    if parts.len() == 1 {
        assert(free_of(parts[0], c));
    } else if parts.len() >= 2 {
        let init = parts.drop_last();
        assert forall|i: int| 0 <= i < init.len() implies free_of(#[trigger] init[i], c) by {
            assert(init[i] == parts[i]);
        }
        lemma_join_free_seq(init, sep, c);
        assert(free_of(parts.last(), c));
        let a = join_with(init, sep);
        let j = a + sep + parts.last();
        assert forall|i: int| 0 <= i < j.len() implies #[trigger] j[i] != c by {
            if i < a.len() {
                assert(j[i] == a[i]);
            } else if i < a.len() + sep.len() {
                assert(j[i] == sep[i - a.len()]);
            } else {
                assert(j[i] == parts.last()[i - a.len() - sep.len()]);
            }
        }
    }
}

/// Joining parts of at least one character gives at least one character.
proof fn lemma_join_nonempty_parts(parts: Seq<Seq<char>>, sep: Seq<char>)
    requires
        parts.len() >= 1,
        parts[0].len() >= 1,
    ensures
        join_with(parts, sep).len() >= 1,
    decreases parts.len(),
{
    if parts.len() >= 2 {
        lemma_join_nonempty_parts(parts.drop_last(), sep);
    }
}

proof fn lemma_find_delim_shift(p: Seq<char>, y: Seq<char>, i: int)
    requires
        0 <= i,
    ensures
        find_delim(p + y, p.len() + i) == (if find_delim(y, i) == -1 {
            -1
        } else {
            p.len() + find_delim(y, i)
        }),
    decreases y.len() - i,
{
    let s = p + y;
    if i + 3 <= y.len() {
        assert(delim_at(s, p.len() + i) == delim_at(y, i)) by {
            assert(s[p.len() + i] == y[i]);
            assert(s[p.len() + i + 1] == y[i + 1]);
            assert(s[p.len() + i + 2] == y[i + 2]);
        }
        if !delim_at(y, i) {
            lemma_find_delim_shift(p, y, i + 1);
        }
    }
}

proof fn lemma_split_delim_shift(p: Seq<char>, y: Seq<char>, i: int)
    requires
        0 <= i <= y.len(),
    ensures
        split_delim_from(p + y, p.len() + i) == split_delim_from(y, i),
    decreases y.len() - i,
{
    let s = p + y;
    lemma_find_delim_shift(p, y, i);
    lemma_find_delim(y, i);
    let k = find_delim(y, i);
    if k == -1 || k + 3 > y.len() {
        assert(s.subrange(p.len() + i, s.len() as int) =~= y.subrange(i, y.len() as int));
    } else {
        lemma_split_delim_shift(p, y, k + 3);
        assert(s.subrange(p.len() + i, p.len() + k) =~= y.subrange(i, k));
    }
}

/// The first `___` at or after `from` is at `k`.
proof fn lemma_find_delim_at(s: Seq<char>, from: int, k: int)
    requires
        0 <= from <= k,
        delim_at(s, k),
        forall|j: int| from <= j < k ==> !delim_at(s, j),
    ensures
        find_delim(s, from) == k,
    decreases k - from,
{
    if from < k {
        lemma_find_delim_at(s, from + 1, k);
    }
}

/// A name holds no `___`; with one it is split at its first one.
proof fn lemma_split_delim_single(x: Seq<char>)
    requires
        forall|j: int| !delim_at(x, j),
    ensures
        split_delim(x) == seq![x],
{
    lemma_find_delim(x, 0);
    assert(x.subrange(0, x.len() as int) =~= x);
}

proof fn lemma_split_delim_front(s0: Seq<char>, rest: Seq<char>)
    requires
        forall|j: int| !delim_at(s0, j),
        s0.len() == 0 || s0.last() != '_',
    ensures
        split_delim(s0 + delimiter() + rest) == seq![s0] + split_delim(rest),
{
    let p = s0 + delimiter();
    let j = p + rest;
    assert(j[s0.len() as int] == '_' && j[s0.len() as int + 1] == '_' && j[s0.len() as int + 2] == '_');
    assert(delim_at(j, s0.len() as int));
    assert forall|i: int| 0 <= i < s0.len() implies !delim_at(j, i) by {
        if i + 3 <= s0.len() {
            if delim_at(j, i) {
                assert(j[i] == s0[i] && j[i + 1] == s0[i + 1] && j[i + 2] == s0[i + 2]);
                assert(delim_at(s0, i));
            }
        } else if i + 2 == s0.len() {
            assert(j[i + 1] == s0.last());
        } else {
            assert(j[i] == s0.last());
        }
    }
    lemma_find_delim_at(j, 0, s0.len() as int);
    lemma_split_delim_shift(p, rest, 0);
    assert(j.subrange(0, s0.len() as int) =~= s0);
}

/// No segment but the last ends in `_`, so that the first `___` of the joined
/// segments is always a delimiter between two of them.
pub open spec fn delimiter_safe(segments: Seq<Seq<char>>) -> bool {
    forall|i: int| 0 <= i < segments.len() - 1 ==> (#[trigger] segments[i]).last() != '_'
}

proof fn lemma_split_join_delim(segs: Seq<Seq<char>>)
    requires
        segs.len() >= 1,
        forall|i: int| 0 <= i < segs.len() ==> valid_name(#[trigger] segs[i]),
        delimiter_safe(segs),
    ensures
        split_delim(join_with(segs, delimiter())) == segs,
    decreases segs.len(),
{
    assert(valid_name(segs[0]));
    assert(!has_delimiter(segs[0]));
    if segs.len() == 1 {
        lemma_split_delim_single(segs[0]);
        assert(seq![segs[0]] =~= segs);
    } else {
        let rest = segs.skip(1);
        assert forall|i: int| 0 <= i < rest.len() implies valid_name(#[trigger] rest[i]) by {
            assert(rest[i] == segs[i + 1]);
        }
        assert forall|i: int| 0 <= i < rest.len() - 1 implies (#[trigger] rest[i]).last() != '_' by {
            assert(rest[i] == segs[i + 1]);
        }
        lemma_split_join_delim(rest);
        lemma_join_left(segs, delimiter());
        assert(segs[0].len() > 0);
        assert(segs[0].last() != '_');
        lemma_split_delim_front(segs[0], join_with(rest, delimiter()));
        assert(seq![segs[0]] + rest =~= segs);
    }
}

/// The characters of a valid name are no path separators.
proof fn lemma_name_no_slash(s: Seq<char>)
    requires
        valid_name(s),
    ensures
        free_of(s, '/'),
{
    lemma_valid_name_chars(s);
}

/// Law: the file of a page resolves back to the page. This holds of every
/// page-backed identity whose segments are valid names and whose segments but the
/// last do not end in `_` (`A_` then `B` would be stored as `A____B.md`, which
/// reads back as `A` then `_B`), and of every stream page whose stream is not one of
/// the reserved folders.
pub proof fn law_workspace_path_round_trip(v: PageIdView)
    requires
        v.segments.len() >= 1,
        forall|i: int| 0 <= i < v.segments.len() ==> valid_name(#[trigger] v.segments[i]),
        v.location is Pages ==> delimiter_safe(v.segments),
        v.location matches LocationView::Stream(n) ==> {
            &&& v.segments.len() == 2
            &&& v.segments[0] == n
            &&& is_stream_date_name(v.segments[1])
            &&& !is_reserved_root(n)
        },
    ensures
        resolve_view(workspace_path_view(v)) == Ok::<PageIdView, PagePathError>(v),
{
    let segs = v.segments;
    let md = md_suffix();
    assert(free_of(md, '/'));
    match v.location {
        LocationView::Pages => {
            let jn = join_with(segs, delimiter());
            let file = jn + md;
            let path = workspace_path_view(v);
            assert(path =~= pages_root() + seq!['/'] + file);
            assert forall|i: int| 0 <= i < segs.len() implies free_of(#[trigger] segs[i], '/') by {
                lemma_name_no_slash(segs[i]);
            }
            assert(free_of(delimiter(), '/'));
            lemma_join_free_seq(segs, delimiter(), '/');
            assert(free_of(file, '/'));
            assert(free_of(pages_root(), '/'));
            lemma_split_concat(pages_root(), file, '/');
            lemma_split_free(pages_root(), '/');
            lemma_split_free(file, '/');
            let pieces = split_on(path, '/');
            assert(pieces =~= seq![pages_root(), file]);
            assert(segs[0].len() > 0);
            lemma_join_nonempty_parts(segs, delimiter());
            assert(components_from(pieces, 2) =~= Seq::<Seq<char>>::empty());
            assert(components_from(pieces, 1) =~= seq![file]);
            assert(path_components(path) =~= seq![pages_root(), file]);
            let comps = path_components(path);
            assert(file.len() >= 4);
            assert(component_error(file) is None);
            assert(component_error(pages_root()) is None);
            assert(first_component_error(comps, 2) is None);
            assert(first_component_error(comps, 1) is None);
            assert(first_component_error(comps, 0) is None);
            assert(components_result(path) == Ok::<Seq<Seq<char>>, PagePathError>(seq![pages_root(), file]));
            assert(ends_with_md(file));
            assert(file.take(file.len() - 3) =~= jn);
            lemma_split_join_delim(segs);
            assert forall|j: int| 0 <= j < segs.len() implies name_error(#[trigger] segs[j]) is None by {
                assert(valid_name(segs[j]));
            }
            lemma_first_name_error_none(segs, 0);
            assert(v == PageIdView { location: LocationView::Pages, segments: segs });
        },
        LocationView::Stream(n) => {
            let d = segs[1];
            let file = d + md;
            let path = workspace_path_view(v);
            assert(segs.last() == d);
            assert(path =~= n + seq!['/'] + file);
            lemma_name_no_slash(n);
            assert(valid_name(d));
            lemma_name_no_slash(d);
            assert(free_of(file, '/'));
            lemma_split_concat(n, file, '/');
            lemma_split_free(n, '/');
            lemma_split_free(file, '/');
            let pieces = split_on(path, '/');
            assert(pieces =~= seq![n, file]);
            assert(valid_name(n));
            assert(n.len() > 0);
            assert(components_from(pieces, 2) =~= Seq::<Seq<char>>::empty());
            assert(components_from(pieces, 1) =~= seq![file]);
            assert(path_components(path) =~= seq![n, file]);
            assert(n != seq!['.', '.'] && n != seq!['.']);
            let comps = path_components(path);
            assert(file.len() == 13);
            assert(component_error(file) is None);
            assert(component_error(n) is None);
            assert(first_component_error(comps, 2) is None);
            assert(first_component_error(comps, 1) is None);
            assert(first_component_error(comps, 0) is None);
            assert(path[0] == n[0]);
            assert(n[0] != '/');
            assert(components_result(path) == Ok::<Seq<Seq<char>>, PagePathError>(seq![n, file]));
            assert(file.take(10) =~= d);
            assert(is_stream_date_markdown_name(file));
            assert(file.take(file.len() - 3) =~= d);
            assert(segs =~= seq![n, d]);
            assert(v == PageIdView { location: LocationView::Stream(n), segments: seq![n, d] });
        },
    }
}

} // verus!
