//! The order of page identities: location first (page-backed before stream-backed,
//! streams by name), then segment names lexicographically, each name by its characters.

use vstd::prelude::*;

use super::page_id::{LocationView, PageId, PageIdView, PageLocation, PageName, names_view};
use crate::text::str_chars;

verus! {

/// Lexicographic order of character sequences by code point (the byte order of UTF-8).
pub open spec fn chars_lt(a: Seq<char>, b: Seq<char>) -> bool
    decreases a.len(),
{
    if a.len() == 0 {
        b.len() > 0
    } else if b.len() == 0 {
        false
    } else if a[0] != b[0] {
        (a[0] as u32) < (b[0] as u32)
    } else {
        chars_lt(a.drop_first(), b.drop_first())
    }
}

/// Lexicographic order of name sequences.
pub open spec fn names_lt(a: Seq<Seq<char>>, b: Seq<Seq<char>>) -> bool
    decreases a.len(),
{
    if a.len() == 0 {
        b.len() > 0
    } else if b.len() == 0 {
        false
    } else if a[0] != b[0] {
        chars_lt(a[0], b[0])
    } else {
        names_lt(a.drop_first(), b.drop_first())
    }
}

/// Page-backed locations come first; streams are ordered by name.
pub open spec fn location_lt(a: LocationView, b: LocationView) -> bool {
    match (a, b) {
        (LocationView::Pages, LocationView::Stream(_)) => true,
        (LocationView::Stream(x), LocationView::Stream(y)) => chars_lt(x, y),
        _ => false,
    }
}

/// The order of page identities.
pub open spec fn id_lt(a: PageIdView, b: PageIdView) -> bool {
    location_lt(a.location, b.location) || (a.location == b.location && names_lt(
        a.segments,
        b.segments,
    ))
}

pub proof fn lemma_chars_lt_irreflexive(a: Seq<char>)
    ensures
        !chars_lt(a, a),
    decreases a.len(),
{
    if a.len() > 0 {
        lemma_chars_lt_irreflexive(a.drop_first());
    }
}

pub proof fn lemma_chars_lt_transitive(a: Seq<char>, b: Seq<char>, c: Seq<char>)
    requires
        chars_lt(a, b),
        chars_lt(b, c),
    ensures
        chars_lt(a, c),
    decreases a.len(),
{
    if a.len() > 0 && b.len() > 0 && c.len() > 0 && a[0] == b[0] && b[0] == c[0] {
        lemma_chars_lt_transitive(a.drop_first(), b.drop_first(), c.drop_first());
    }
}

pub proof fn lemma_chars_lt_total(a: Seq<char>, b: Seq<char>)
    ensures
        a == b || chars_lt(a, b) || chars_lt(b, a),
    decreases a.len(),
{
    if a.len() > 0 && b.len() > 0 && a[0] == b[0] {
        lemma_chars_lt_total(a.drop_first(), b.drop_first());
        if a.drop_first() == b.drop_first() {
            assert(a =~= seq![a[0]] + a.drop_first());
            assert(b =~= seq![b[0]] + b.drop_first());
        }
    } else if a.len() == 0 && b.len() == 0 {
        assert(a =~= b);
    } else if a.len() > 0 && b.len() > 0 {
        vstd::utf8::char_u32_cast(a[0], a[0] as u32);
        vstd::utf8::char_u32_cast(b[0], b[0] as u32);
    }
}

pub proof fn lemma_names_lt_irreflexive(a: Seq<Seq<char>>)
    ensures
        !names_lt(a, a),
    decreases a.len(),
{
    if a.len() > 0 {
        lemma_names_lt_irreflexive(a.drop_first());
    }
}

pub proof fn lemma_names_lt_transitive(a: Seq<Seq<char>>, b: Seq<Seq<char>>, c: Seq<Seq<char>>)
    requires
        names_lt(a, b),
        names_lt(b, c),
    ensures
        names_lt(a, c),
    decreases a.len(),
{
    if a.len() > 0 && b.len() > 0 && c.len() > 0 {
        if a[0] == b[0] && b[0] == c[0] {
            lemma_names_lt_transitive(a.drop_first(), b.drop_first(), c.drop_first());
        } else if a[0] != b[0] && b[0] != c[0] {
            lemma_chars_lt_transitive(a[0], b[0], c[0]);
            if a[0] == c[0] {
                lemma_chars_lt_transitive(a[0], b[0], a[0]);
                lemma_chars_lt_irreflexive(a[0]);
            }
        }
    }
}

pub proof fn lemma_names_lt_total(a: Seq<Seq<char>>, b: Seq<Seq<char>>)
    ensures
        a == b || names_lt(a, b) || names_lt(b, a),
    decreases a.len(),
{
    if a.len() > 0 && b.len() > 0 && a[0] == b[0] {
        lemma_names_lt_total(a.drop_first(), b.drop_first());
        if a.drop_first() == b.drop_first() {
            assert(a =~= seq![a[0]] + a.drop_first());
            assert(b =~= seq![b[0]] + b.drop_first());
        }
    } else if a.len() == 0 && b.len() == 0 {
        assert(a =~= b);
    } else if a.len() > 0 && b.len() > 0 {
        lemma_chars_lt_total(a[0], b[0]);
    }
}

/// `id_lt` is a strict total order.
pub proof fn lemma_id_lt_order(a: PageIdView, b: PageIdView, c: PageIdView)
    ensures
        !id_lt(a, a),
        id_lt(a, b) && id_lt(b, c) ==> id_lt(a, c),
        a == b || id_lt(a, b) || id_lt(b, a),
        !(id_lt(a, b) && id_lt(b, a)),
{
    lemma_names_lt_irreflexive(a.segments);
    if let LocationView::Stream(x) = a.location {
        lemma_chars_lt_irreflexive(x);
    }
    if id_lt(a, b) && id_lt(b, c) {
        if a.location == b.location && b.location == c.location {
            lemma_names_lt_transitive(a.segments, b.segments, c.segments);
        } else {
            match (a.location, b.location, c.location) {
                (LocationView::Stream(x), LocationView::Stream(y), LocationView::Stream(z)) => {
                    if x != y && y != z {
                        lemma_chars_lt_transitive(x, y, z);
                    }
                    if x == z {
                        lemma_chars_lt_irreflexive(x);
                        if x != y {
                            lemma_chars_lt_transitive(x, y, x);
                        }
                    }
                },
                _ => {},
            }
        }
    }
    lemma_names_lt_total(a.segments, b.segments);
    match (a.location, b.location) {
        (LocationView::Stream(x), LocationView::Stream(y)) => {
            lemma_chars_lt_total(x, y);
            if chars_lt(x, y) && chars_lt(y, x) {
                lemma_chars_lt_transitive(x, y, x);
                lemma_chars_lt_irreflexive(x);
            }
        },
        _ => {},
    }
    if a.location == b.location && names_lt(a.segments, b.segments) && names_lt(
        b.segments,
        a.segments,
    ) {
        lemma_names_lt_transitive(a.segments, b.segments, a.segments);
    }
}

/// `chars_lt` on two character vectors.
fn chars_less(a: &Vec<char>, b: &Vec<char>) -> (r: bool)
    ensures
        r == chars_lt(a@, b@),
{
    let mut i: usize = 0;
    assert(a@.skip(0) =~= a@ && b@.skip(0) =~= b@);
    while i < a.len() && i < b.len() && a[i] == b[i]
        invariant
            i <= a@.len(),
            i <= b@.len(),
            chars_lt(a@.skip(i as int), b@.skip(i as int)) == chars_lt(a@, b@),
        decreases a@.len() - i,
    {
        proof {
            assert(a@.skip(i as int).drop_first() =~= a@.skip(i + 1));
            assert(b@.skip(i as int).drop_first() =~= b@.skip(i + 1));
        }
        i = i + 1;
    }
    if i == a.len() {
        i < b.len()
    } else if i == b.len() {
        false
    } else {
        (a[i] as u32) < (b[i] as u32)
    }
}

/// `chars_lt` on two character vectors.
pub fn chars_less_pub(a: &Vec<char>, b: &Vec<char>) -> (r: bool)
    ensures
        r == chars_lt(a@, b@),
{
    chars_less(a, b)
}

fn name_less(a: &PageName, b: &PageName) -> (r: bool)
    ensures
        r == chars_lt(a@, b@),
{
    let x = str_chars(a.as_str());
    let y = str_chars(b.as_str());
    chars_less(&x, &y)
}

fn names_less(a: &[PageName], b: &[PageName]) -> (r: bool)
    ensures
        r == names_lt(names_view(a@), names_view(b@)),
{
    let ghost av = names_view(a@);
    let ghost bv = names_view(b@);
    let mut i: usize = 0;
    assert(av.skip(0) =~= av && bv.skip(0) =~= bv);
    while i < a.len() && i < b.len() && a[i].same(&b[i])
        invariant
            av == names_view(a@),
            bv == names_view(b@),
            i <= a@.len(),
            i <= b@.len(),
            names_lt(av.skip(i as int), bv.skip(i as int)) == names_lt(av, bv),
        decreases a@.len() - i,
    {
        proof {
            assert(av.skip(i as int).drop_first() =~= av.skip(i + 1));
            assert(bv.skip(i as int).drop_first() =~= bv.skip(i + 1));
        }
        i = i + 1;
    }
    if i == a.len() {
        i < b.len()
    } else if i == b.len() {
        false
    } else {
        assert(av.skip(i as int)[0] == av[i as int]);
        assert(bv.skip(i as int)[0] == bv[i as int]);
        name_less(&a[i], &b[i])
    }
}

fn location_less(a: &PageLocation, b: &PageLocation) -> (r: bool)
    ensures
        r == location_lt(a@, b@),
{
    match (a, b) {
        (PageLocation::Pages, PageLocation::Stream { .. }) => true,
        (PageLocation::Stream { stream_name: x }, PageLocation::Stream { stream_name: y }) => {
            name_less(x, y)
        },
        _ => false,
    }
}

/// `a` comes before `b` in the order of page identities.
pub fn page_id_less(a: &PageId, b: &PageId) -> (r: bool)
    ensures
        r == id_lt(a@, b@),
{
    if location_less(a.location(), b.location()) {
        return true;
    }
    if !a.location().same(b.location()) {
        return false;
    }
    names_less(a.segments(), b.segments())
}

} // verus!
