//! Page identities and their flat workspace paths.

use vstd::prelude::*;

use super::error::{NameError, PagePathError};
use super::names::{
    is_stream_date_name, is_stream_date_name_exec, name_error, valid_name, validate_name_chars,
};
use crate::text::{chars_to_string, push_char, str_chars, strings_eq};

verus! {

/// `pages`
pub open spec fn pages_root() -> Seq<char> {
    seq!['p', 'a', 'g', 'e', 's']
}

/// `.md`
pub open spec fn md_suffix() -> Seq<char> {
    seq!['.', 'm', 'd']
}

/// `___`, the hierarchy delimiter of page file names.
pub open spec fn delimiter() -> Seq<char> {
    seq!['_', '_', '_']
}

/// The pieces joined by `sep`, as `[..].join(sep)` does.
pub open spec fn join_with(parts: Seq<Seq<char>>, sep: Seq<char>) -> Seq<char>
    decreases parts.len(),
{
    if parts.len() == 0 {
        seq![]
    } else if parts.len() == 1 {
        parts[0]
    } else {
        join_with(parts.drop_last(), sep) + sep + parts.last()
    }
}

/// A validated page name segment.
#[derive(Debug, PartialEq, Eq, PartialOrd, Ord, Hash)]
pub struct PageName(String);

impl Clone for PageName {
    fn clone(&self) -> (r: Self)
        ensures
            r@ == self@,
    {
        self.duplicate()
    }
}

impl View for PageName {
    type V = Seq<char>;

    closed spec fn view(&self) -> Seq<char> {
        self.0@
    }
}

impl PageName {
    #[verifier::type_invariant]
    spec fn valid(self) -> bool {
        valid_name(self.0@)
    }

    /// `Ok` exactly when `value` is a valid page name segment.
    pub fn new(value: &str) -> (r: Result<Self, NameError>)
        ensures
            name_error(value@) is Some ==> r == Err::<Self, NameError>(name_error(value@)->0),
            name_error(value@) is None ==> (r matches Ok(n) && n@ == value@),
    {
        let chars = str_chars(value);
        match validate_name_chars(&chars) {
            Err(e) => Err(e),
            Ok(()) => Ok(PageName(value.to_owned())),
        }
    }

    /// The name made of `chars`, when they form a valid name.
    pub fn from_chars(chars: &Vec<char>) -> (r: Result<Self, NameError>)
        ensures
            name_error(chars@) is Some ==> r == Err::<Self, NameError>(name_error(chars@)->0),
            name_error(chars@) is None ==> (r matches Ok(n) && n@ == chars@),
    {
        match validate_name_chars(chars) {
            Err(e) => Err(e),
            Ok(()) => Ok(PageName(chars_to_string(chars))),
        }
    }

    pub fn as_str(&self) -> (r: &str)
        ensures
            r@ == self@,
    {
        self.0.as_str()
    }

    /// Every page name satisfies the naming rules.
    pub fn lemma_valid(&self)
        ensures
            valid_name(self@),
    {
        proof {
            use_type_invariant(self);
        }
    }

    /// A copy with the same characters.
    pub fn duplicate(&self) -> (r: Self)
        ensures
            r@ == self@,
    {
        proof {
            use_type_invariant(self);
        }
        PageName(self.0.clone())
    }

    /// The two names hold the same characters.
    pub fn same(&self, other: &Self) -> (r: bool)
        ensures
            r == (self@ == other@),
    {
        strings_eq(&self.0, &other.0)
    }
}

/// Where a page lives: in the flat `pages/` folder or in a dated stream folder.
#[derive(Debug, Clone, PartialEq, Eq, PartialOrd, Ord, Hash)]
pub enum PageLocation {
    Pages,
    Stream { stream_name: PageName },
}

/// The mathematical value of a location.
pub enum LocationView {
    Pages,
    Stream(Seq<char>),
}

impl View for PageLocation {
    type V = LocationView;

    open spec fn view(&self) -> LocationView {
        match self {
            PageLocation::Pages => LocationView::Pages,
            PageLocation::Stream { stream_name } => LocationView::Stream(stream_name@),
        }
    }
}

/// The mathematical value of a page identity.
pub struct PageIdView {
    pub location: LocationView,
    pub segments: Seq<Seq<char>>,
}

/// The names of a sequence of page names.
pub open spec fn names_view(names: Seq<PageName>) -> Seq<Seq<char>> {
    names.map_values(|n: PageName| n@)
}

/// The shape rules of a page identity: at least one segment, and a stream page is
/// exactly `[stream, date]`.
pub open spec fn shape_ok(v: PageIdView) -> bool {
    &&& v.segments.len() >= 1
    &&& (v.location matches LocationView::Stream(n) ==> {
        &&& v.segments.len() == 2
        &&& v.segments[0] == n
        &&& is_stream_date_name(v.segments[1])
    })
}

/// The error `from_page_names_in_location` reports for these parts, if any.
pub open spec fn shape_error(location: LocationView, segments: Seq<Seq<char>>) -> Option<
    PagePathError,
> {
    if segments.len() == 0 {
        Some(PagePathError::EmptyPageId)
    } else if (location matches LocationView::Stream(n) && (segments.len() != 2 || segments[0]
        != n || !is_stream_date_name(segments[1]))) {
        Some(PagePathError::NestedPath)
    } else {
        None
    }
}

/// The stable identity of a page: its location and its hierarchy segments.
#[derive(Debug, PartialEq, Eq, PartialOrd, Ord, Hash)]
pub struct PageId {
    location: PageLocation,
    segments: Vec<PageName>,
}

impl Clone for PageId {
    fn clone(&self) -> (r: Self)
        ensures
            r@ == self@,
    {
        self.duplicate()
    }
}

impl View for PageId {
    type V = PageIdView;

    closed spec fn view(&self) -> PageIdView {
        PageIdView { location: self.location@, segments: names_view(self.segments@) }
    }
}

/// The parsed form of a supported workspace path.
#[derive(Debug, Clone, PartialEq, Eq)]
pub struct ResolvedWorkspacePath {
    pub page_id: PageId,
    pub location: PageLocation,
}

impl PageLocation {
    /// A copy with the same value.
    pub fn duplicate(&self) -> (r: Self)
        ensures
            r@ == self@,
    {
        match self {
            PageLocation::Pages => PageLocation::Pages,
            PageLocation::Stream { stream_name } => PageLocation::Stream {
                stream_name: stream_name.duplicate(),
            },
        }
    }

    /// The two locations are the same.
    pub fn same(&self, other: &Self) -> (r: bool)
        ensures
            r == (self@ == other@),
    {
        match (self, other) {
            (PageLocation::Pages, PageLocation::Pages) => true,
            (PageLocation::Stream { stream_name: a }, PageLocation::Stream { stream_name: b }) => a.same(b),
            _ => false,
        }
    }

    pub fn is_page_backed(&self) -> (r: bool)
        ensures
            r == (self@ is Pages),
    {
        match self {
            PageLocation::Pages => true,
            _ => false,
        }
    }

    pub fn is_stream_backed(&self) -> (r: bool)
        ensures
            r == (self@ is Stream),
    {
        match self {
            PageLocation::Stream { .. } => true,
            _ => false,
        }
    }
}

proof fn lemma_names_push(s: Seq<PageName>, x: PageName)
    ensures
        names_view(s.push(x)) == names_view(s).push(x@),
{
    assert(names_view(s.push(x)) =~= names_view(s).push(x@));
}

proof fn lemma_take_push<T>(s: Seq<T>, i: int)
    requires
        0 <= i < s.len(),
    ensures
        s.take(i + 1) == s.take(i).push(s[i]),
{
    assert(s.take(i + 1) =~= s.take(i).push(s[i]));
}

/// Copies of a run of page names.
pub(crate) fn copy_names(names: &[PageName], count: usize) -> (r: Vec<PageName>)
    requires
        count <= names@.len(),
    ensures
        names_view(r@) == names_view(names@).take(count as int),
{
    let mut r: Vec<PageName> = Vec::new();
    let mut i: usize = 0;
    while i < count
        invariant
            i <= count <= names@.len(),
            names_view(r@) == names_view(names@).take(i as int),
        decreases count - i,
    {
        let ghost old_r = r@;
        let d = names[i].duplicate();
        r.push(d);
        proof {
            lemma_names_push(old_r, d);
            lemma_take_push(names_view(names@), i as int);
        }
        i = i + 1;
    }
    r
}

/// The names joined by `sep`.
pub fn join_names(names: &[PageName], sep: &str) -> (r: String)
    ensures
        r@ == join_with(names_view(names@), sep@),
{
    let mut out = String::new();
    let mut i: usize = 0;
    while i < names.len()
        invariant
            i <= names@.len(),
            out@ == join_with(names_view(names@).take(i as int), sep@),
        decreases names@.len() - i,
    {
        let ghost before = names_view(names@).take(i as int);
        if i > 0 {
            out.append(sep);
        }
        out.append(names[i].as_str());
        proof {
            let after = names_view(names@).take(i + 1);
            assert(after.drop_last() =~= before);
            if i == 0 {
                assert(before =~= Seq::<Seq<char>>::empty());
                assert(out@ =~= after[0]);
            } else {
                assert(out@ =~= join_with(after, sep@));
            }
        }
        i = i + 1;
    }
    assert(names_view(names@).take(names@.len() as int) =~= names_view(names@));
    out
}

impl PageId {
    #[verifier::type_invariant]
    spec fn well_shaped(self) -> bool {
        shape_ok(self@)
    }

    /// Every page id has the shape of a page identity.
    pub fn lemma_shape(&self)
        ensures
            shape_ok(self@),
    {
        proof {
            use_type_invariant(self);
        }
    }

    /// A copy with the same value.
    pub fn duplicate(&self) -> (r: Self)
        ensures
            r@ == self@,
    {
        proof {
            use_type_invariant(self);
        }
        let segments = copy_names(self.segments.as_slice(), self.segments.len());
        proof {
            assert(names_view(self.segments@).take(self.segments@.len() as int) =~= names_view(
                self.segments@,
            ));
        }
        PageId { location: self.location.duplicate(), segments }
    }

    /// The two ids are the same identity.
    pub fn same(&self, other: &Self) -> (r: bool)
        ensures
            r == (self@ == other@),
    {
        if !self.location.same(&other.location) {
            return false;
        }
        let n = self.segments.len();
        if n != other.segments.len() {
            proof {
                if self@ == other@ {
                    assert(names_view(self.segments@).len() == names_view(other.segments@).len());
                }
            }
            return false;
        }
        let mut i: usize = 0;
        while i < n
            invariant
                n == self.segments@.len() == other.segments@.len(),
                i <= n,
                forall|j: int| 0 <= j < i ==> self.segments@[j]@ == other.segments@[j]@,
            decreases n - i,
        {
            if !self.segments[i].same(&other.segments[i]) {
                proof {
                    if self@ == other@ {
                        assert(names_view(self.segments@)[i as int] == names_view(
                            other.segments@,
                        )[i as int]);
                    }
                }
                return false;
            }
            i = i + 1;
        }
        assert(names_view(self.segments@) =~= names_view(other.segments@));
        true
    }

    /// Builds the page-backed id with the given segment strings.
    pub fn new(segments: &[&str]) -> (r: Result<Self, PagePathError>)
        ensures
            r is Ok <==> new_result(LocationView::Pages, strs_view(segments@)) is Ok,
            r matches Ok(id) ==> id@ == new_result(LocationView::Pages, strs_view(segments@))->Ok_0,
            r matches Err(e) ==> new_result(LocationView::Pages, strs_view(segments@)) == Err::<
                PageIdView,
                PagePathError,
            >(e),
    {
        Self::new_in_location(PageLocation::Pages, segments)
    }

    /// Builds an id in `location` from segment strings, validating each.
    pub fn new_in_location(location: PageLocation, segments: &[&str]) -> (r: Result<
        Self,
        PagePathError,
    >)
        ensures
            r is Ok <==> new_result(location@, strs_view(segments@)) is Ok,
            r matches Ok(id) ==> id@ == new_result(location@, strs_view(segments@))->Ok_0,
            r matches Err(e) ==> new_result(location@, strs_view(segments@)) == Err::<
                PageIdView,
                PagePathError,
            >(e),
    {
        let mut names: Vec<PageName> = Vec::new();
        let mut i: usize = 0;
        while i < segments.len()
            invariant
                i <= segments@.len(),
                names_view(names@) == strs_view(segments@).take(i as int),
                forall|j: int| 0 <= j < i ==> name_error(#[trigger] segments@[j]@) is None,
            decreases segments@.len() - i,
        {
            match PageName::new(segments[i]) {
                Err(e) => {
                    proof {
                        lemma_first_name_error_at(strs_view(segments@), 0, i as int);
                    }
                    return Err(PagePathError::InvalidName(e));
                },
                Ok(name) => {
                    let ghost old_names = names@;
                    proof {
                        lemma_names_push(old_names, name);
                        lemma_take_push(strs_view(segments@), i as int);
                    }
                    names.push(name);
                },
            }
            i = i + 1;
        }
        proof {
            lemma_first_name_error_none(strs_view(segments@), 0);
            assert(strs_view(segments@).take(segments@.len() as int) =~= strs_view(segments@));
        }
        Self::from_page_names_in_location(location, names)
    }

    /// Builds an id in `location` from segment character sequences, validating each.
    pub fn from_char_segments(location: PageLocation, segments: &Vec<Vec<char>>) -> (r: Result<
        Self,
        PagePathError,
    >)
        ensures
            r is Ok <==> new_result(location@, chars_view(segments@)) is Ok,
            r matches Ok(id) ==> id@ == new_result(location@, chars_view(segments@))->Ok_0,
            r matches Err(e) ==> new_result(location@, chars_view(segments@)) == Err::<
                PageIdView,
                PagePathError,
            >(e),
    {
        let mut names: Vec<PageName> = Vec::new();
        let mut i: usize = 0;
        while i < segments.len()
            invariant
                i <= segments@.len(),
                names_view(names@) == chars_view(segments@).take(i as int),
                forall|j: int| 0 <= j < i ==> name_error(#[trigger] segments@[j]@) is None,
            decreases segments@.len() - i,
        {
            match PageName::from_chars(&segments[i]) {
                Err(e) => {
                    proof {
                        lemma_first_name_error_at(chars_view(segments@), 0, i as int);
                    }
                    return Err(PagePathError::InvalidName(e));
                },
                Ok(name) => {
                    let ghost old_names = names@;
                    proof {
                        lemma_names_push(old_names, name);
                        lemma_take_push(chars_view(segments@), i as int);
                    }
                    names.push(name);
                },
            }
            i = i + 1;
        }
        proof {
            lemma_first_name_error_none(chars_view(segments@), 0);
            assert(chars_view(segments@).take(segments@.len() as int) =~= chars_view(segments@));
        }
        Self::from_page_names_in_location(location, names)
    }

    /// The page-backed id with these names.
    pub fn from_page_names(segments: Vec<PageName>) -> (r: Result<Self, PagePathError>)
        ensures
            r is Ok <==> shape_error(LocationView::Pages, names_view(segments@)) is None,
            r matches Ok(id) ==> id@ == (PageIdView {
                location: LocationView::Pages,
                segments: names_view(segments@),
            }),
            r matches Err(e) ==> shape_error(LocationView::Pages, names_view(segments@)) == Some(
                e,
            ),
    {
        Self::from_page_names_in_location(PageLocation::Pages, segments)
    }

    /// The id of the dated page `date_name` in the stream `stream_name`.
    pub fn stream(stream_name: PageName, date_name: PageName) -> (r: Result<Self, PagePathError>)
        ensures
            r is Ok <==> is_stream_date_name(date_name@),
            r matches Ok(id) ==> id@ == (PageIdView {
                location: LocationView::Stream(stream_name@),
                segments: seq![stream_name@, date_name@],
            }),
            r matches Err(e) ==> e == PagePathError::NestedPath,
    {
        let location = PageLocation::Stream { stream_name: stream_name.duplicate() };
        let mut names: Vec<PageName> = Vec::new();
        names.push(stream_name);
        names.push(date_name);
        assert(names_view(names@) =~= seq![stream_name@, date_name@]);
        Self::from_page_names_in_location(location, names)
    }

    /// Checks the shape rules of a page identity.
    pub fn from_page_names_in_location(location: PageLocation, segments: Vec<PageName>) -> (r:
        Result<Self, PagePathError>)
        ensures
            r is Ok <==> shape_error(location@, names_view(segments@)) is None,
            r matches Ok(id) ==> id@ == (PageIdView {
                location: location@,
                segments: names_view(segments@),
            }),
            r matches Err(e) ==> shape_error(location@, names_view(segments@)) == Some(e),
    {
        if segments.len() == 0 {
            return Err(PagePathError::EmptyPageId);
        }
        let ghost names = names_view(segments@);
        match &location {
            PageLocation::Stream { stream_name } => {
                if segments.len() != 2 {
                    return Err(PagePathError::NestedPath);
                }
                let date_chars = str_chars(segments[1].as_str());
                if !segments[0].same(stream_name) || !is_stream_date_name_exec(&date_chars) {
                    return Err(PagePathError::NestedPath);
                }
            },
            PageLocation::Pages => {},
        }
        Ok(PageId { location, segments })
    }

    pub fn location(&self) -> (r: &PageLocation)
        ensures
            r@ == self@.location,
    {
        &self.location
    }

    pub fn is_page_backed(&self) -> (r: bool)
        ensures
            r == (self@.location is Pages),
    {
        self.location.is_page_backed()
    }

    pub fn is_stream_backed(&self) -> (r: bool)
        ensures
            r == (self@.location is Stream),
    {
        self.location.is_stream_backed()
    }

    pub fn segments(&self) -> (r: &[PageName])
        ensures
            names_view(r@) == self@.segments,
    {
        self.segments.as_slice()
    }

    /// The last segment.
    pub fn leaf_name(&self) -> (r: &PageName)
        ensures
            r@ == self@.segments.last(),
    {
        proof {
            use_type_invariant(self);
        }
        let n = self.segments.len();
        &self.segments[n - 1]
    }

    /// The page-backed parent: all segments but the last, when there are at least two.
    pub fn parent(&self) -> (r: Option<Self>)
        ensures
            r is Some <==> has_parent(self@),
            r matches Some(p) ==> p@ == parent_view(self@),
    {
        proof {
            use_type_invariant(self);
        }
        if !self.is_page_backed() {
            return None;
        }
        let n = self.segments.len();
        if n - 1 == 0 {
            return None;
        }
        let segments = copy_names(self.segments.as_slice(), n - 1);
        Some(PageId { location: PageLocation::Pages, segments })
    }

    /// The page-backed ancestors, shortest first.
    pub fn ancestors(&self) -> (r: Vec<Self>)
        ensures
            r@.len() == ancestors_count(self@),
            forall|i: int| 0 <= i < r@.len() ==> #[trigger] r@[i]@ == ancestor_view(self@, i + 1),
    {
        proof {
            use_type_invariant(self);
        }
        let mut r: Vec<PageId> = Vec::new();
        if !self.is_page_backed() {
            return r;
        }
        let n = self.segments.len();
        let mut len: usize = 1;
        while len < n
            invariant
                1 <= len <= n,
                n == self.segments@.len(),
                self@.location is Pages,
                r@.len() == len - 1,
                forall|i: int| 0 <= i < r@.len() ==> #[trigger] r@[i]@ == ancestor_view(self@, i + 1),
            decreases n - len,
        {
            let segments = copy_names(self.segments.as_slice(), len);
            r.push(PageId { location: PageLocation::Pages, segments });
            len = len + 1;
        }
        r
    }

    /// The hierarchy path `A/B/C` of a page-backed id.
    pub fn page_hierarchy_display(&self) -> (r: Option<String>)
        ensures
            r is Some <==> self@.location is Pages,
            r matches Some(s) ==> s@ == join_with(self@.segments, seq!['/']),
    {
        if !self.is_page_backed() {
            return None;
        }
        proof {
            reveal_strlit("/");
        }
        let s = join_names(self.segments.as_slice(), "/");
        assert("/"@ =~= seq!['/']);
        Some(s)
    }

    /// The hierarchy path of a page-backed id.
    pub fn hierarchy_display(&self) -> (r: String)
        requires
            self@.location is Pages,
        ensures
            r@ == join_with(self@.segments, seq!['/']),
    {
        match self.page_hierarchy_display() {
            Some(s) => s,
            None => String::new(),
        }
    }

    /// `pages:A/B` for pages and `stream:journal/2026_05_07` for stream pages.
    pub fn canonical_identity_display(&self) -> (r: String)
        ensures
            r@ == identity_display_view(self@),
    {
        proof {
            use_type_invariant(self);
        }
        match &self.location {
            PageLocation::Pages => {
                let mut out = String::new();
                out.append("pages:");
                let h = self.hierarchy_display();
                out.append(h.as_str());
                proof {
                    reveal_strlit("pages:");
                    assert("pages:"@ =~= seq!['p', 'a', 'g', 'e', 's', ':']);
                }
                out
            },
            PageLocation::Stream { stream_name } => {
                let mut out = String::new();
                out.append("stream:");
                out.append(stream_name.as_str());
                push_char(&mut out, '/');
                out.append(self.leaf_name().as_str());
                proof {
                    reveal_strlit("stream:");
                    assert("stream:"@ =~= seq!['s', 't', 'r', 'e', 'a', 'm', ':']);
                }
                out
            },
        }
    }

    /// The workspace-relative path of the page's markdown file.
    pub fn to_workspace_path(&self) -> (r: String)
        ensures
            r@ == workspace_path_view(self@),
    {
        let loc = self.location.duplicate();
        match loc.workspace_path_for_page_id(self) {
            Ok(p) => p,
            Err(_) => String::new(),
        }
    }
}

impl PageLocation {
    /// The file path of `page_id`, which must live in this location.
    pub fn workspace_path_for_page_id(&self, page_id: &PageId) -> (r: Result<String, PagePathError>)
        ensures
            r is Ok <==> page_id@.location == self@,
            r matches Ok(p) ==> p@ == workspace_path_view(page_id@),
            r matches Err(e) ==> e == PagePathError::NestedPath,
    {
        if !page_id.location().same(self) {
            return Err(PagePathError::NestedPath);
        }
        proof {
            use_type_invariant(page_id);
        }
        match self {
            PageLocation::Pages => {
                let mut out = String::new();
                out.append("pages/");
                let stem = join_names(page_id.segments(), "___");
                out.append(stem.as_str());
                out.append(".md");
                proof {
                    reveal_strlit("pages/");
                    reveal_strlit("___");
                    reveal_strlit(".md");
                    assert("pages/"@ =~= pages_root() + seq!['/']);
                    assert("___"@ =~= delimiter());
                    assert(".md"@ =~= md_suffix());
                }
                Ok(out)
            },
            PageLocation::Stream { stream_name } => {
                let mut out = String::new();
                out.append(stream_name.as_str());
                push_char(&mut out, '/');
                out.append(page_id.leaf_name().as_str());
                out.append(".md");
                proof {
                    reveal_strlit(".md");
                    assert(".md"@ =~= md_suffix());
                }
                Ok(out)
            },
        }
    }

    /// The parent of a page-backed id; stream pages have none.
    pub fn parent_page_id(&self, page_id: &PageId) -> (r: Option<PageId>)
        ensures
            self@ is Stream ==> r is None,
            self@ is Pages ==> (r is Some <==> has_parent(page_id@)),
            r matches Some(p) ==> p@ == parent_view(page_id@),
    {
        match self {
            PageLocation::Pages => page_id.parent(),
            PageLocation::Stream { .. } => None,
        }
    }

    /// The ancestors of a page-backed id; stream pages have none.
    pub fn ancestor_page_ids(&self, page_id: &PageId) -> (r: Vec<PageId>)
        ensures
            self@ is Stream ==> r@.len() == 0,
            self@ is Pages ==> r@.len() == ancestors_count(page_id@),
            self@ is Pages ==> forall|i: int|
                0 <= i < r@.len() ==> #[trigger] r@[i]@ == ancestor_view(page_id@, i + 1),
    {
        match self {
            PageLocation::Pages => page_id.ancestors(),
            PageLocation::Stream { .. } => Vec::new(),
        }
    }
}

/// The characters of each string.
pub open spec fn strs_view(segments: Seq<&str>) -> Seq<Seq<char>> {
    segments.map_values(|s: &str| s@)
}

/// The characters of each character vector.
pub open spec fn chars_view(segments: Seq<Vec<char>>) -> Seq<Seq<char>> {
    segments.map_values(|s: Vec<char>| s@)
}

/// The first invalid segment name at or after `i`.
pub open spec fn first_name_error(segments: Seq<Seq<char>>, i: int) -> Option<NameError>
    decreases segments.len() - i,
{
    if i < 0 || i >= segments.len() {
        None
    } else if name_error(segments[i]) is Some {
        name_error(segments[i])
    } else {
        first_name_error(segments, i + 1)
    }
}

/// What building an id in `location` from these segment names gives.
pub open spec fn new_result(location: LocationView, segments: Seq<Seq<char>>) -> Result<
    PageIdView,
    PagePathError,
> {
    if first_name_error(segments, 0) is Some {
        Err(PagePathError::InvalidName(first_name_error(segments, 0)->0))
    } else if shape_error(location, segments) is Some {
        Err(shape_error(location, segments)->0)
    } else {
        Ok(PageIdView { location, segments })
    }
}

pub(crate) proof fn lemma_first_name_error_none(segments: Seq<Seq<char>>, i: int)
    requires
        0 <= i <= segments.len(),
        forall|j: int| i <= j < segments.len() ==> name_error(#[trigger] segments[j]) is None,
    ensures
        first_name_error(segments, i) is None,
    decreases segments.len() - i,
{
    if i < segments.len() {
        lemma_first_name_error_none(segments, i + 1);
    }
}

proof fn lemma_first_name_error_at(segments: Seq<Seq<char>>, i: int, k: int)
    requires
        0 <= i <= k < segments.len(),
        forall|j: int| i <= j < k ==> name_error(#[trigger] segments[j]) is None,
        name_error(segments[k]) is Some,
    ensures
        first_name_error(segments, i) == name_error(segments[k]),
    decreases k - i,
{
    if i < k {
        lemma_first_name_error_at(segments, i + 1, k);
    }
}

/// A page-backed id with at least two segments has a parent.
pub open spec fn has_parent(v: PageIdView) -> bool {
    v.location is Pages && v.segments.len() >= 2
}

/// All segments but the last.
pub open spec fn parent_view(v: PageIdView) -> PageIdView {
    PageIdView { location: LocationView::Pages, segments: v.segments.drop_last() }
}

/// The number of proper ancestors of a page-backed id.
pub open spec fn ancestors_count(v: PageIdView) -> int {
    if v.location is Pages && v.segments.len() >= 1 {
        v.segments.len() - 1
    } else {
        0
    }
}

/// The page-backed id made of the first `len` segments.
pub open spec fn ancestor_view(v: PageIdView, len: int) -> PageIdView {
    PageIdView { location: LocationView::Pages, segments: v.segments.take(len) }
}

/// `pages:` or `stream:` followed by the id's path.
pub open spec fn identity_display_view(v: PageIdView) -> Seq<char> {
    match v.location {
        LocationView::Pages => seq!['p', 'a', 'g', 'e', 's', ':'] + join_with(
            v.segments,
            seq!['/'],
        ),
        LocationView::Stream(n) => seq!['s', 't', 'r', 'e', 'a', 'm', ':'] + n + seq!['/']
            + v.segments.last(),
    }
}

/// `pages/A___B.md` for pages and `journal/2026_05_07.md` for stream pages.
pub open spec fn workspace_path_view(v: PageIdView) -> Seq<char> {
    match v.location {
        LocationView::Pages => pages_root() + seq!['/'] + join_with(v.segments, delimiter())
            + md_suffix(),
        LocationView::Stream(n) => n + seq!['/'] + v.segments.last() + md_suffix(),
    }
}

} // verus!
