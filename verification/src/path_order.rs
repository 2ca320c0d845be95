//! The order of relative paths: component by component, each component by its
//! characters. For paths written with `/` between components this is the order
//! of their characters with `/` before every other character.

use vstd::prelude::*;

use crate::domain::planning::string_views;
use crate::text::str_chars;

verus! {

/// The rank of a character in path order: `/` first, the others by code point.
pub open spec fn path_rank(c: char) -> int {
    if c == '/' {
        0
    } else {
        c as u32 + 1
    }
}

/// `a` comes before `b` in path order.
pub open spec fn path_lt(a: Seq<char>, b: Seq<char>) -> bool
    decreases a.len(),
{
    if a.len() == 0 {
        b.len() > 0
    } else if b.len() == 0 {
        false
    } else if a[0] != b[0] {
        path_rank(a[0]) < path_rank(b[0])
    } else {
        path_lt(a.drop_first(), b.drop_first())
    }
}

/// Each path comes before the next one.
pub open spec fn paths_increasing(ps: Seq<Seq<char>>) -> bool {
    forall|i: int, j: int| 0 <= i < j < ps.len() ==> path_lt(#[trigger] ps[i], #[trigger] ps[j])
}

pub proof fn lemma_path_lt_irreflexive(a: Seq<char>)
    ensures
        !path_lt(a, a),
    decreases a.len(),
{
    if a.len() > 0 {
        lemma_path_lt_irreflexive(a.drop_first());
    }
}

pub proof fn lemma_path_lt_transitive(a: Seq<char>, b: Seq<char>, c: Seq<char>)
    requires
        path_lt(a, b),
        path_lt(b, c),
    ensures
        path_lt(a, c),
    decreases a.len(),
{
    if a.len() > 0 && b.len() > 0 && c.len() > 0 && a[0] == b[0] && b[0] == c[0] {
        lemma_path_lt_transitive(a.drop_first(), b.drop_first(), c.drop_first());
    } else if a.len() > 0 && b.len() > 0 && c.len() > 0 && a[0] != b[0] && b[0] != c[0] && a[0] == c[0] {
        lemma_rank_injective(a[0], b[0]);
    }
}

proof fn lemma_rank_injective(x: char, y: char)
    ensures
        x != y ==> path_rank(x) != path_rank(y),
{
    vstd::utf8::char_u32_cast(x, x as u32);
    vstd::utf8::char_u32_cast(y, y as u32);
}

pub proof fn lemma_path_lt_total(a: Seq<char>, b: Seq<char>)
    ensures
        a == b || path_lt(a, b) || path_lt(b, a),
    decreases a.len(),
{
    if a.len() > 0 && b.len() > 0 && a[0] == b[0] {
        lemma_path_lt_total(a.drop_first(), b.drop_first());
        if a.drop_first() == b.drop_first() {
            assert(a =~= seq![a[0]] + a.drop_first());
            assert(b =~= seq![b[0]] + b.drop_first());
        }
    } else if a.len() == 0 && b.len() == 0 {
        assert(a =~= b);
    } else if a.len() > 0 && b.len() > 0 {
        lemma_rank_injective(a[0], b[0]);
    }
}

fn rank_exec(c: char) -> (r: u64)
    ensures
        r == path_rank(c),
{
    if c == '/' {
        0
    } else {
        (c as u32) as u64 + 1
    }
}

/// `a` comes before `b` in path order.
pub fn path_less(a: &str, b: &str) -> (r: bool)
    ensures
        r == path_lt(a@, b@),
{
    let x = str_chars(a);
    let y = str_chars(b);
    let mut i: usize = 0;
    assert(x@.skip(0) =~= x@ && y@.skip(0) =~= y@);
    while i < x.len() && i < y.len() && x[i] == y[i]
        invariant
            i <= x@.len(),
            i <= y@.len(),
            path_lt(x@.skip(i as int), y@.skip(i as int)) == path_lt(x@, y@),
        decreases x@.len() - i,
    {
        proof {
            assert(x@.skip(i as int).drop_first() =~= x@.skip(i + 1));
            assert(y@.skip(i as int).drop_first() =~= y@.skip(i + 1));
        }
        i = i + 1;
    }
    if i == x.len() {
        i < y.len()
    } else if i == y.len() {
        false
    } else {
        rank_exec(x[i]) < rank_exec(y[i])
    }
}

/// Adds `p` to the increasing list `out` unless it is there already.
pub fn insert_path(out: &mut Vec<String>, p: String)
    requires
        paths_increasing(string_views(old(out)@)),
    ensures
        paths_increasing(string_views(final(out)@)),
        string_views(final(out)@).to_set() == string_views(old(out)@).to_set().insert(p@),
{
    let ghost before = string_views(out@);
    let mut i: usize = 0;
    while i < out.len() && path_less(out[i].as_str(), p.as_str())
        invariant
            i <= out@.len(),
            string_views(out@) == before,
            paths_increasing(before),
            forall|j: int| 0 <= j < i ==> path_lt(#[trigger] before[j], p@),
        decreases out@.len() - i,
    {
        i = i + 1;
    }
    if i < out.len() && crate::text::strings_eq(&out[i], &p) {
        proof {
            assert(before[i as int] == p@);
            assert(before.to_set().insert(p@) =~= before.to_set());
        }
        return;
    }
    proof {
        if i < out@.len() {
            lemma_path_lt_total(before[i as int], p@);
        }
    }
    out.insert(i, p);
    proof {
        let now = string_views(out@);
        assert(now =~= before.take(i as int) + seq![p@] + before.skip(i as int));
        assert forall|a: int, b: int| 0 <= a < b < now.len() implies path_lt(#[trigger] now[a], #[trigger] now[b]) by {
            if b < i {
                assert(now[a] == before[a] && now[b] == before[b]);
            } else if b == i {
                assert(now[a] == before[a]);
            } else if a == i {
                assert(now[b] == before[b - 1]);
                if b - 1 > i {
                    lemma_path_lt_transitive(p@, before[i as int], before[b - 1]);
                }
            } else if a < i {
                assert(now[a] == before[a] && now[b] == before[b - 1]);
            } else {
                assert(now[a] == before[a - 1] && now[b] == before[b - 1]);
            }
        }
        assert forall|x: Seq<char>| now.to_set().contains(x) <==> before.to_set().insert(p@).contains(x) by {
            if now.to_set().contains(x) {
                let k = choose|k: int| 0 <= k < now.len() && now[k] == x;
                if k < i {
                    assert(before[k] == x);
                } else if k > i {
                    assert(before[k - 1] == x);
                }
            }
            if before.to_set().contains(x) {
                let k = choose|k: int| 0 <= k < before.len() && before[k] == x;
                if k < i {
                    assert(now[k] == x);
                } else {
                    assert(now[k + 1] == x);
                }
            }
            if x == p@ {
                assert(now[i as int] == x);
            }
        }
        assert(now.to_set() =~= before.to_set().insert(p@));
    }
}

} // verus!
