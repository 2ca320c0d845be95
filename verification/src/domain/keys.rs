//! Normalized page keys of linked topics (`Project X` and `#project-x` name the
//! same page), the flat file names that store them, and journal dates.

use vstd::prelude::*;

use super::page_id::join_with;
use super::parser::{char_is_alphanumeric, is_alphanumeric, is_white_space, lead_ws_end, trail_ws_start, trim_white_space, trim_white_space_chars};
use crate::text::{chars_to_string, decimal, first_index_of, lemma_first_index_of, digit_char, push_char, push_decimal, split_chars, split_on, str_chars};
use super::transaction::{free_of, lemma_split_concat, lemma_split_free, lemma_split_join};

verus! {

/// What `char::to_lowercase` yields for `c`.
pub uninterp spec fn char_lowercase(c: char) -> Seq<char>;

/// The lower-case form of `c`: a trusted call of `char::to_lowercase`, collected into
/// a vector. Its contract claims only that the characters are `char_lowercase(c)`,
/// one fixed function of `c`; the Unicode case mappings are not stated.
#[verifier::external_body]
fn lower_char(c: char) -> (r: Vec<char>)
    ensures
        r@ == char_lowercase(c),
{
    c.to_lowercase().collect()
}

/// One step of normalizing a segment: letters and digits are kept in lower case,
/// any other run of characters becomes one `-` (none at the start).
pub open spec fn normalize_step(acc: (Seq<char>, bool), c: char) -> (Seq<char>, bool) {
    if char_is_alphanumeric(c) {
        (acc.0 + char_lowercase(c), false)
    } else if !acc.1 && acc.0.len() > 0 {
        (acc.0.push('-'), true)
    } else {
        acc
    }
}

/// The normalized characters of `s` and whether they end in a `-` just added.
pub open spec fn normalize_chars(s: Seq<char>) -> (Seq<char>, bool)
    decreases s.len(),
{
    if s.len() == 0 {
        (seq![], false)
    } else {
        normalize_step(normalize_chars(s.drop_last()), s.last())
    }
}

/// The position just past the leading `-` of `s[i..]`.
pub open spec fn lead_dash_end(s: Seq<char>, i: int) -> int
    decreases s.len() - i,
{
    if 0 <= i < s.len() && s[i] == '-' {
        lead_dash_end(s, i + 1)
    } else {
        i
    }
}

/// The end of `s[lo..e]` without its trailing `-`.
pub open spec fn trail_dash_start(s: Seq<char>, lo: int, e: int) -> int
    decreases e - lo,
{
    if lo < e && s[e - 1] == '-' {
        trail_dash_start(s, lo, e - 1)
    } else {
        e
    }
}

/// `str::trim_matches('-')`.
pub open spec fn trim_dashes(s: Seq<char>) -> Seq<char> {
    let a = lead_dash_end(s, 0);
    s.subrange(a, trail_dash_start(s, a, s.len() as int))
}

/// A normalized segment: trimmed, normalized, without dashes at either end.
pub open spec fn normalize_segment(seg: Seq<char>) -> Seq<char> {
    trim_dashes(normalize_chars(trim_white_space(seg)).0)
}

/// The non-empty normalized segments, in order.
pub open spec fn normalized_segments(segs: Seq<Seq<char>>) -> Seq<Seq<char>>
    decreases segs.len(),
{
    if segs.len() == 0 {
        seq![]
    } else {
        let n = normalize_segment(segs.last());
        normalized_segments(segs.drop_last()) + if n.len() == 0 {
            seq![]
        } else {
            seq![n]
        }
    }
}

/// The normalized key of `raw`: its `/`-separated segments normalized, empty ones
/// dropped, joined by `/`.
pub open spec fn normalize_key(raw: Seq<char>) -> Seq<char> {
    join_with(normalized_segments(split_on(raw, '/')), seq!['/'])
}

fn trim_dash_chars(c: &Vec<char>) -> (r: Vec<char>)
    ensures
        r@ == trim_dashes(c@),
{
    let mut a: usize = 0;
    while a < c.len() && c[a] == '-'
        invariant
            a <= c@.len(),
            lead_dash_end(c@, a as int) == lead_dash_end(c@, 0),
        decreases c@.len() - a,
    {
        a = a + 1;
    }
    let mut e: usize = c.len();
    while e > a && c[e - 1] == '-'
        invariant
            a <= e <= c@.len(),
            lead_dash_end(c@, 0) == a,
            trail_dash_start(c@, a as int, e as int) == trail_dash_start(c@, a as int, c@.len() as int),
        decreases e,
    {
        e = e - 1;
    }
    let mut out: Vec<char> = Vec::new();
    let mut i: usize = a;
    while i < e
        invariant
            a <= i <= e <= c@.len(),
            out@ == c@.subrange(a as int, i as int),
        decreases e - i,
    {
        out.push(c[i]);
        proof {
            assert(c@.subrange(a as int, i + 1) =~= c@.subrange(a as int, i as int).push(c@[i as int]));
        }
        i = i + 1;
    }
    out
}

/// The normalized characters of a segment's first `n` characters, given for each
/// character whether it is a letter or digit (`alnum`) and its lower-case form
/// (`low`), and whether they end in a `-` just added.
pub open spec fn normalize_given(alnum: Seq<bool>, low: Seq<Seq<char>>, n: int) -> (Seq<char>, bool)
    decreases n,
{
    if n <= 0 {
        (seq![], false)
    } else {
        let acc = normalize_given(alnum, low, n - 1);
        if alnum[n - 1] {
            (acc.0 + low[n - 1], false)
        } else if !acc.1 && acc.0.len() > 0 {
            (acc.0.push('-'), true)
        } else {
            acc
        }
    }
}

/// Given the facts about each character of `t`, normalizing them is normalizing `t`.
proof fn lemma_normalize_given(t: Seq<char>, alnum: Seq<bool>, low: Seq<Seq<char>>, n: int)
    requires
        0 <= n <= t.len(),
        alnum.len() == t.len(),
        low.len() == t.len(),
        forall|i: int| 0 <= i < t.len() ==> #[trigger] alnum[i] == char_is_alphanumeric(t[i]),
        forall|i: int| 0 <= i < t.len() && alnum[i] ==> #[trigger] low[i] == char_lowercase(t[i]),
    ensures
        normalize_given(alnum, low, n) == normalize_chars(t.take(n)),
    decreases n,
{
    if n > 0 {
        lemma_normalize_given(t, alnum, low, n - 1);
        assert(t.take(n).drop_last() =~= t.take(n - 1));
        assert(t.take(n).last() == t[n - 1]);
        assert(alnum[n - 1] == char_is_alphanumeric(t[n - 1]));
    } else {
        assert(t.take(0) =~= Seq::<char>::empty());
    }
}

/// The normalized form of a segment whose surrounding white space is gone, given
/// for each character whether it is a letter or digit and its lower-case form:
/// letters and digits become their lower-case forms, every other run becomes one
/// `-` (none at the start), and trailing dashes go.
pub fn normalize_segment_given(alnum: &Vec<bool>, lowered: &Vec<Vec<char>>) -> (r: Vec<char>)
    requires
        alnum@.len() == lowered@.len(),
    ensures
        r@ == trim_dashes(normalize_given(alnum@, lowered@.map_values(|l: Vec<char>| l@), alnum@.len() as int).0),
{
    let ghost lv = lowered@.map_values(|l: Vec<char>| l@);
    let mut out: Vec<char> = Vec::new();
    let mut last_was_dash = false;
    let mut i: usize = 0;
    while i < alnum.len()
        invariant
            i <= alnum@.len(),
            alnum@.len() == lowered@.len(),
            lv == lowered@.map_values(|l: Vec<char>| l@),
            (out@, last_was_dash) == normalize_given(alnum@, lv, i as int),
        decreases alnum@.len() - i,
    {
        if alnum[i] {
            let lower = &lowered[i];
            assert(lower@ == lv[i as int]);
            let mut j: usize = 0;
            let ghost start = out@;
            while j < lower.len()
                invariant
                    j <= lower@.len(),
                    out@ == start + lower@.take(j as int),
                decreases lower@.len() - j,
            {
                out.push(lower[j]);
                proof {
                    assert(lower@.take(j + 1) =~= lower@.take(j as int).push(lower@[j as int]));
                }
                j = j + 1;
            }
            proof {
                assert(lower@.take(lower@.len() as int) =~= lower@);
            }
            last_was_dash = false;
        } else if !last_was_dash && out.len() > 0 {
            out.push('-');
            last_was_dash = true;
        }
        i = i + 1;
    }
    trim_dash_chars(&out)
}

/// The normalized form of one segment.
fn normalize_segment_chars(seg: &Vec<char>) -> (r: Vec<char>)
    ensures
        r@ == normalize_segment(seg@),
{
    let t = trim_white_space_chars(seg);
    let mut alnum: Vec<bool> = Vec::new();
    let mut lowered: Vec<Vec<char>> = Vec::new();
    let mut i: usize = 0;
    while i < t.len()
        invariant
            i <= t@.len(),
            alnum@.len() == i,
            lowered@.len() == i,
            forall|k: int| 0 <= k < i ==> #[trigger] alnum@[k] == char_is_alphanumeric(t@[k]),
            forall|k: int| 0 <= k < i && alnum@[k] ==> #[trigger] lowered@[k]@ == char_lowercase(t@[k]),
        decreases t@.len() - i,
    {
        let c = t[i];
        if is_alphanumeric(c) {
            alnum.push(true);
            lowered.push(lower_char(c));
        } else {
            alnum.push(false);
            lowered.push(Vec::new());
        }
        i = i + 1;
    }
    let r = normalize_segment_given(&alnum, &lowered);
    proof {
        let lv = lowered@.map_values(|l: Vec<char>| l@);
        assert forall|k: int| 0 <= k < t@.len() && alnum@[k] implies #[trigger] lv[k] == char_lowercase(t@[k]) by {
            assert(lv[k] == lowered@[k]@);
        }
        lemma_normalize_given(t@, alnum@, lv, t@.len() as int);
        assert(t@.take(t@.len() as int) =~= t@);
    }
    r
}

/// The normalized key of `raw`: for each `/`-separated segment, surrounding white
/// space goes, letters and digits are kept in lower case and every other run of
/// characters becomes one `-`; dashes at the ends and empty segments are dropped.
pub fn normalize_page_key(raw: &str) -> (r: String)
    ensures
        r@ == normalize_key(raw@),
{
    let chars = str_chars(raw);
    let segs = split_chars(&chars, '/');
    let ghost sv = segs@.map_values(|p: Vec<char>| p@);
    let mut kept: Vec<Vec<char>> = Vec::new();
    let mut i: usize = 0;
    while i < segs.len()
        invariant
            i <= segs@.len(),
            sv == segs@.map_values(|p: Vec<char>| p@),
            kept@.map_values(|p: Vec<char>| p@) == normalized_segments(sv.take(i as int)),
        decreases segs@.len() - i,
    {
        let n = normalize_segment_chars(&segs[i]);
        proof {
            assert(sv.take(i + 1).drop_last() =~= sv.take(i as int));
            assert(sv.take(i + 1).last() == segs@[i as int]@);
        }
        let ghost before = kept@;
        if n.len() > 0 {
            kept.push(n);
            proof {
                assert(kept@.map_values(|p: Vec<char>| p@) =~= before.map_values(|p: Vec<char>| p@).push(
                    normalize_segment(segs@[i as int]@),
                ));
            }
        } else {
            proof {
                assert(normalized_segments(sv.take(i + 1)) =~= normalized_segments(sv.take(i as int)) + Seq::<Seq<char>>::empty());
            }
        }
        i = i + 1;
    }
    proof {
        assert(sv.take(segs@.len() as int) =~= sv);
    }
    let mut out = String::new();
    let mut j: usize = 0;
    let ghost kv = kept@.map_values(|p: Vec<char>| p@);
    while j < kept.len()
        invariant
            j <= kept@.len(),
            kv == kept@.map_values(|p: Vec<char>| p@),
            out@ == join_with(kv.take(j as int), seq!['/']),
        decreases kept@.len() - j,
    {
        let ghost before = kv.take(j as int);
        if j > 0 {
            crate::text::push_char(&mut out, '/');
        }
        let piece = chars_to_string(&kept[j]);
        out.append(piece.as_str());
        proof {
            let after = kv.take(j + 1);
            assert(after.drop_last() =~= before);
            assert(after.last() == kept@[j as int]@);
            if j == 0 {
                assert(before =~= Seq::<Seq<char>>::empty());
                assert(out@ =~= after[0]);
            } else {
                assert(out@ =~= join_with(before, seq!['/']) + seq!['/'] + after.last());
            }
        }
        j = j + 1;
    }
    proof {
        assert(kv.take(kept@.len() as int) =~= kv);
    }
    out
}

/// A normalized, non-empty page key.
#[derive(Debug, PartialEq, Eq, PartialOrd, Ord, Hash)]
pub struct PageKey(String);

impl Clone for PageKey {
    fn clone(&self) -> (r: Self)
        ensures
            r@ == self@,
    {
        PageKey(self.0.clone())
    }
}

impl View for PageKey {
    type V = Seq<char>;

    closed spec fn view(&self) -> Seq<char> {
        self.0@
    }
}

impl PageKey {
    /// The key of `raw`; `None` when nothing of it survives normalization.
    pub fn new(raw: &str) -> (r: Option<Self>)
        ensures
            normalize_key(raw@).len() == 0 <==> r is None,
            r matches Some(k) ==> k@ == normalize_key(raw@),
    {
        let normalized = normalize_page_key(raw);
        if normalized.as_str().is_empty() {
            None
        } else {
            Some(PageKey(normalized))
        }
    }

    pub fn as_str(&self) -> (r: &str)
        ensures
            r@ == self@,
    {
        self.0.as_str()
    }

    /// The `/`-separated segments of the key.
    pub fn namespace_segments(&self) -> (r: Vec<String>)
        ensures
            r@.map_values(|s: String| s@) == split_on(self@, '/'),
    {
        let chars = str_chars(self.0.as_str());
        let parts = split_chars(&chars, '/');
        let mut out: Vec<String> = Vec::new();
        let mut i: usize = 0;
        while i < parts.len()
            invariant
                i <= parts@.len(),
                out@.map_values(|s: String| s@) == parts@.map_values(|p: Vec<char>| p@).take(i as int),
            decreases parts@.len() - i,
        {
            let ghost before = out@;
            let s = chars_to_string(&parts[i]);
            out.push(s);
            proof {
                assert(out@.map_values(|s: String| s@) =~= before.map_values(|s: String| s@).push(s@));
                assert(parts@.map_values(|p: Vec<char>| p@).take(i + 1) =~= parts@.map_values(|p: Vec<char>| p@).take(
                    i as int,
                ).push(parts@[i as int]@));
            }
            i = i + 1;
        }
        proof {
            assert(parts@.map_values(|p: Vec<char>| p@).take(parts@.len() as int) =~= parts@.map_values(
                |p: Vec<char>| p@,
            ));
        }
        out
    }
}

/// `s` with each `/` replaced by `___`.
pub open spec fn expand_slashes(s: Seq<char>) -> Seq<char>
    decreases s.len(),
{
    if s.len() == 0 {
        seq![]
    } else {
        expand_slashes(s.drop_last()) + if s.last() == '/' {
            seq!['_', '_', '_']
        } else {
            seq![s.last()]
        }
    }
}

/// The flat file name that stores a page key: `a/b` is `a___b.md`.
pub fn page_file_name_for_key(page_key: &PageKey) -> (r: String)
    ensures
        r@ == expand_slashes(page_key@) + seq!['.', 'm', 'd'],
{
    let chars = str_chars(page_key.as_str());
    let mut out = String::new();
    let mut i: usize = 0;
    while i < chars.len()
        invariant
            i <= chars@.len(),
            out@ == expand_slashes(chars@.take(i as int)),
        decreases chars@.len() - i,
    {
        proof {
            assert(chars@.take(i + 1).drop_last() =~= chars@.take(i as int));
            assert(chars@.take(i + 1).last() == chars@[i as int]);
        }
        if chars[i] == '/' {
            out.append("___");
            proof {
                reveal_strlit("___");
            }
        } else {
            crate::text::push_char(&mut out, chars[i]);
        }
        i = i + 1;
    }
    out.append(".md");
    proof {
        reveal_strlit(".md");
        assert(chars@.take(chars@.len() as int) =~= chars@);
    }
    out
}

/// `s` with each `___` (found from the left, without overlap) replaced by `/`.
pub open spec fn collapse_delimiters(s: Seq<char>) -> Seq<char>
    decreases s.len(),
{
    if s.len() == 0 {
        seq![]
    } else if s.len() >= 3 && s[0] == '_' && s[1] == '_' && s[2] == '_' {
        seq!['/'] + collapse_delimiters(s.skip(3))
    } else {
        seq![s[0]] + collapse_delimiters(s.skip(1))
    }
}

/// `s` ends in `.md` (exactly).
pub open spec fn has_md_suffix(s: Seq<char>) -> bool {
    s.len() >= 3 && s.skip(s.len() - 3) == seq!['.', 'm', 'd']
}

/// The key a flat page file name stores: the name without `.md`, each `___` read
/// as `/`, normalized; `None` without the suffix or when nothing survives.
pub fn page_key_from_page_file(file_name: &str) -> (r: Option<PageKey>)
    ensures
        !has_md_suffix(file_name@) ==> r is None,
        has_md_suffix(file_name@) ==> ({
            let raw = collapse_delimiters(file_name@.take(file_name@.len() - 3));
            &&& normalize_key(raw).len() == 0 <==> r is None
            &&& r matches Some(k) ==> k@ == normalize_key(raw)
        }),
{
    let chars = str_chars(file_name);
    let n = chars.len();
    if n < 3 || chars[n - 3] != '.' || chars[n - 2] != 'm' || chars[n - 1] != 'd' {
        proof {
            if has_md_suffix(chars@) {
                assert(chars@.skip(n - 3)[0] == chars@[n - 3]);
                assert(chars@.skip(n - 3)[1] == chars@[n - 2]);
                assert(chars@.skip(n - 3)[2] == chars@[n - 1]);
            }
        }
        return None;
    }
    proof {
        assert(chars@.skip(n - 3) =~= seq!['.', 'm', 'd']);
    }
    let stem_len = n - 3;
    let mut out: Vec<char> = Vec::new();
    let mut i: usize = 0;
    let ghost stem = chars@.take(stem_len as int);
    proof {
        assert(stem.skip(0) =~= stem);
    }
    while i < stem_len
        invariant
            i <= stem_len,
            stem_len <= chars@.len(),
            stem == chars@.take(stem_len as int),
            out@ + collapse_delimiters(stem.skip(i as int)) == collapse_delimiters(stem),
        decreases stem_len - i,
    {
        if stem_len - i >= 3 && chars[i] == '_' && chars[i + 1] == '_' && chars[i + 2] == '_' {
            proof {
                assert(stem.skip(i as int).skip(3) =~= stem.skip(i + 3));
            }
            out.push('/');
            i = i + 3;
        } else {
            proof {
                assert(stem.skip(i as int).skip(1) =~= stem.skip(i + 1));
            }
            out.push(chars[i]);
            i = i + 1;
        }
    }
    proof {
        assert(stem.skip(stem_len as int) =~= Seq::<char>::empty());
        assert(out@ =~= collapse_delimiters(stem));
    }
    let raw = chars_to_string(&out);
    PageKey::new(raw.as_str())
}

// ---------------------------------------------------------------------------
// Journal dates
// ---------------------------------------------------------------------------

/// The value of a run of ASCII digits.
pub open spec fn digits_value(d: Seq<char>) -> nat
    decreases d.len(),
{
    if d.len() == 0 {
        0
    } else {
        digits_value(d.drop_last()) * 10 + (d.last() as nat - 48) as nat
    }
}

pub open spec fn all_digits(d: Seq<char>) -> bool {
    forall|i: int| 0 <= i < d.len() ==> '0' <= #[trigger] d[i] && d[i] <= '9'
}

/// What parsing `s` as an unsigned integer no larger than `max` gives, as
/// `str::parse` does: an optional `+`, then at least one digit.
pub open spec fn parse_unsigned(s: Seq<char>, max: nat) -> Option<nat> {
    let d = if s.len() > 0 && s[0] == '+' {
        s.drop_first()
    } else {
        s
    };
    if d.len() == 0 || !all_digits(d) || digits_value(d) > max {
        None
    } else {
        Some(digits_value(d))
    }
}

proof fn lemma_digits_monotone(d: Seq<char>, c: char)
    requires
        '0' <= c <= '9',
    ensures
        digits_value(d.push(c)) >= digits_value(d),
        digits_value(d.push(c)) == digits_value(d) * 10 + (c as nat - 48),
{
    assert(d.push(c).drop_last() =~= d);
}

/// Parses `s` as an unsigned integer no larger than `max`.
fn parse_unsigned_exec(s: &Vec<char>, max: u64) -> (r: Option<u64>)
    requires
        max <= 65535,
    ensures
        r matches Some(v) ==> parse_unsigned(s@, max as nat) == Some(v as nat),
        r is None ==> parse_unsigned(s@, max as nat) is None,
{
    let start: usize = if s.len() > 0 && s[0] == '+' { 1 } else { 0 };
    let ghost d = if s@.len() > 0 && s@[0] == '+' { s@.drop_first() } else { s@ };
    proof {
        assert(d =~= s@.skip(start as int));
    }
    if start >= s.len() {
        return None;
    }
    let mut value: u64 = 0;
    let mut i: usize = start;
    while i < s.len()
        invariant
            start <= i <= s@.len(),
            start == 0 || start == 1,
            d == s@.skip(start as int),
            d == (if s@.len() > 0 && s@[0] == '+' { s@.drop_first() } else { s@ }),
            start < s@.len(),
            max <= 65535,
            value <= max,
            all_digits(s@.subrange(start as int, i as int)),
            value == digits_value(s@.subrange(start as int, i as int)),
        decreases s@.len() - i,
    {
        let c = s[i];
        proof {
            assert(s@.subrange(start as int, i + 1) =~= s@.subrange(start as int, i as int).push(c));
        }
        if c < '0' || c > '9' {
            proof {
                assert(d[i - start] == c);
                assert(!('0' <= d[i - start] && d[i - start] <= '9'));
            }
            return None;
        }
        let digit = (c as u64) - 48;
        proof {
            lemma_digits_monotone(s@.subrange(start as int, i as int), c);
        }
        let next = value * 10 + digit;
        if next > max {
            proof {
                let rest = s@.subrange(i + 1, s@.len() as int);
                lemma_digits_prefix_bound(s@.subrange(start as int, i + 1), rest, max as nat);
                assert(s@.subrange(start as int, i + 1) + rest =~= d);
            }
            return None;
        }
        value = next;
        i = i + 1;
    }
    proof {
        assert(s@.subrange(start as int, s@.len() as int) =~= d);
    }
    Some(value)
}

proof fn lemma_digits_prefix_bound(p: Seq<char>, rest: Seq<char>, max: nat)
    requires
        all_digits(p),
        digits_value(p) > max,
    ensures
        all_digits(p + rest) ==> digits_value(p + rest) > max,
    decreases rest.len(),
{
    if rest.len() > 0 && all_digits(p + rest) {
        let q = p + rest.drop_last();
        assert((p + rest).drop_last() =~= q);
        assert forall|i: int| 0 <= i < q.len() implies '0' <= #[trigger] q[i] && q[i] <= '9' by {
            assert(q[i] == (p + rest)[i]);
        }
        lemma_digits_prefix_bound(p, rest.drop_last(), max);
        assert((p + rest).last() == rest.last());
    }
}

/// A date of the journal, as written in `YYYY-MM-DD` file names.
#[derive(Debug, PartialEq, Eq, PartialOrd, Ord, Hash)]
pub struct JournalDate {
    pub year: u16,
    pub month: u8,
    pub day: u8,
}

impl Clone for JournalDate {
    fn clone(&self) -> (r: Self)
        ensures
            r == *self,
    {
        JournalDate { year: self.year, month: self.month, day: self.day }
    }
}

/// What `JournalDate::parse` gives for `s`: three `-`-separated numbers, a month of
/// 1 to 12 and a day of 1 to 31.
pub open spec fn journal_date(s: Seq<char>) -> Option<(nat, nat, nat)> {
    let parts = split_on(s, '-');
    if parts.len() != 3 {
        None
    } else {
        match (parse_unsigned(parts[0], 65535), parse_unsigned(parts[1], 255), parse_unsigned(parts[2], 255)) {
            (Some(y), Some(m), Some(d)) => if 1 <= m <= 12 && 1 <= d <= 31 {
                Some((y, m, d))
            } else {
                None
            },
            _ => None,
        }
    }
}

impl JournalDate {
    /// The date written `year-month-day`.
    pub fn parse(input: &str) -> (r: Option<Self>)
        ensures
            journal_date(input@) is None <==> r is None,
            r matches Some(d) ==> journal_date(input@) == Some((d.year as nat, d.month as nat, d.day as nat)),
    {
        let chars = str_chars(input);
        let parts = split_chars(&chars, '-');
        proof {
            assert(parts@.map_values(|p: Vec<char>| p@).len() == parts@.len());
        }
        if parts.len() != 3 {
            return None;
        }
        proof {
            assert(parts@.map_values(|p: Vec<char>| p@)[0] == parts@[0]@);
            assert(parts@.map_values(|p: Vec<char>| p@)[1] == parts@[1]@);
            assert(parts@.map_values(|p: Vec<char>| p@)[2] == parts@[2]@);
        }
        let year = match parse_unsigned_exec(&parts[0], 65535) {
            Some(v) => v,
            None => {
                return None;
            },
        };
        let month = match parse_unsigned_exec(&parts[1], 255) {
            Some(v) => v,
            None => {
                return None;
            },
        };
        let day = match parse_unsigned_exec(&parts[2], 255) {
            Some(v) => v,
            None => {
                return None;
            },
        };
        if month < 1 || month > 12 || day < 1 || day > 31 {
            return None;
        }
        Some(JournalDate { year: year as u16, month: month as u8, day: day as u8 })
    }

    /// The date of a journal file named `YYYY-MM-DD.md`.
    pub fn from_journal_file_name(file_name: &str) -> (r: Option<Self>)
        ensures
            !has_md_suffix(file_name@) ==> r is None,
            has_md_suffix(file_name@) ==> ((journal_date(file_name@.take(file_name@.len() - 3)) is None <==> r is None)
                && (r matches Some(d) ==> journal_date(file_name@.take(file_name@.len() - 3)) == Some(
                (d.year as nat, d.month as nat, d.day as nat),
            ))),
    {
        let chars = str_chars(file_name);
        let n = chars.len();
        if n < 3 || chars[n - 3] != '.' || chars[n - 2] != 'm' || chars[n - 1] != 'd' {
            proof {
                if has_md_suffix(chars@) {
                    assert(chars@.skip(n - 3)[0] == chars@[n - 3]);
                    assert(chars@.skip(n - 3)[1] == chars@[n - 2]);
                    assert(chars@.skip(n - 3)[2] == chars@[n - 1]);
                }
            }
            return None;
        }
        proof {
            assert(chars@.skip(n - 3) =~= seq!['.', 'm', 'd']);
        }
        let mut stem: Vec<char> = Vec::new();
        let mut i: usize = 0;
        while i < n - 3
            invariant
                i <= n - 3,
                n == chars@.len(),
                stem@ == chars@.take(i as int),
            decreases n - 3 - i,
        {
            stem.push(chars[i]);
            proof {
                assert(chars@.take(i + 1) =~= chars@.take(i as int).push(chars@[i as int]));
            }
            i = i + 1;
        }
        let s = chars_to_string(&stem);
        Self::parse(s.as_str())
    }
}

/// `digits` led by zeros up to `width` characters.
pub open spec fn zero_pad(digits: Seq<char>, width: nat) -> Seq<char> {
    if digits.len() < width {
        Seq::new((width - digits.len()) as nat, |i: int| '0') + digits
    } else {
        digits
    }
}

/// The text of a date, `YYYY-MM-DD` with zero-padded numbers (`Display`).
pub open spec fn date_text(d: JournalDate) -> Seq<char> {
    zero_pad(decimal(d.year as nat), 4) + seq!['-'] + zero_pad(decimal(d.month as nat), 2) + seq!['-'] + zero_pad(
        decimal(d.day as nat),
        2,
    )
}

/// Appends `n` in decimal, led by zeros up to `width` characters.
fn push_padded(out: &mut String, n: usize, width: usize)
    ensures
        final(out)@ == old(out)@ + zero_pad(decimal(n as nat), width as nat),
{
    let mut digits = String::new();
    push_decimal(&mut digits, n);
    let dl = str_chars(digits.as_str()).len();
    let ghost start = out@;
    let mut k = dl;
    while k < width
        invariant
            dl <= k <= width || (dl >= width && k == dl),
            dl == decimal(n as nat).len(),
            digits@ == decimal(n as nat),
            out@ == start + Seq::new((k - dl) as nat, |i: int| '0'),
        decreases width - k,
    {
        push_char(out, '0');
        proof {
            assert(Seq::new((k + 1 - dl) as nat, |i: int| '0') =~= Seq::new((k - dl) as nat, |i: int| '0').push('0'));
        }
        k = k + 1;
    }
    out.append(digits.as_str());
    proof {
        if dl < width {
            assert(out@ =~= start + zero_pad(decimal(n as nat), width as nat));
        } else {
            assert(Seq::new(0nat, |i: int| '0') =~= Seq::<char>::empty());
            assert(out@ =~= start + zero_pad(decimal(n as nat), width as nat));
        }
    }
}

proof fn lemma_digit_char(d: nat)
    requires
        d <= 9,
    ensures
        digit_char(d as int) as nat == 48 + d,
        '0' <= digit_char(d as int) <= '9',
{
    if d == 0 {
    } else if d == 1 {
    } else if d == 2 {
    } else if d == 3 {
    } else if d == 4 {
    } else if d == 5 {
    } else if d == 6 {
    } else if d == 7 {
    } else if d == 8 {
    } else {
    }
}

proof fn lemma_decimal_digits(n: nat)
    ensures
        all_digits(decimal(n)),
        digits_value(decimal(n)) == n,
        decimal(n).len() >= 1,
    decreases n,
{
    if n < 10 {
        lemma_digit_char(n);
        assert(decimal(n).drop_last() =~= Seq::<char>::empty());
        assert(decimal(n).last() == digit_char(n as int));
        assert(digits_value(decimal(n)) == digits_value(Seq::<char>::empty()) * 10 + (decimal(n).last() as nat - 48) as nat);
    } else {
        lemma_digit_char(n % 10);
        lemma_decimal_digits(n / 10);
        let q = decimal(n / 10);
        assert(decimal(n).drop_last() =~= q);
        assert(n == (n / 10) * 10 + n % 10) by (nonlinear_arith);
        assert(decimal(n).last() == digit_char((n % 10) as int));
        assert(digits_value(decimal(n)) == digits_value(q) * 10 + (decimal(n).last() as nat - 48) as nat);
        assert forall|i: int| 0 <= i < decimal(n).len() implies '0' <= #[trigger] decimal(n)[i] && decimal(n)[i] <= '9' by {
            if i < q.len() {
                assert(decimal(n)[i] == q[i]);
            }
        }
    }
}

proof fn lemma_zeros_value(z: Seq<char>, d: Seq<char>)
    requires
        forall|i: int| 0 <= i < z.len() ==> #[trigger] z[i] == '0',
    ensures
        digits_value(z + d) == digits_value(d),
    decreases d.len() + z.len(),
{
    if d.len() == 0 {
        assert(z + d =~= z);
        if z.len() > 0 {
            assert(z.drop_last() + d =~= z.drop_last());
            lemma_zeros_value(z.drop_last(), d);
        }
    } else {
        assert((z + d).drop_last() =~= z + d.drop_last());
        lemma_zeros_value(z, d.drop_last());
    }
}

proof fn lemma_padded_number(n: nat, width: nat)
    ensures
        all_digits(zero_pad(decimal(n), width)),
        digits_value(zero_pad(decimal(n), width)) == n,
        zero_pad(decimal(n), width).len() >= 1,
        free_of(zero_pad(decimal(n), width), '-'),
        zero_pad(decimal(n), width)[0] != '+',
{
    lemma_decimal_digits(n);
    let p = zero_pad(decimal(n), width);
    if decimal(n).len() < width {
        let z = Seq::new((width - decimal(n).len()) as nat, |i: int| '0');
        lemma_zeros_value(z, decimal(n));
        assert forall|i: int| 0 <= i < p.len() implies '0' <= #[trigger] p[i] && p[i] <= '9' by {
            if i >= z.len() {
                assert(p[i] == decimal(n)[i - z.len()]);
            }
        }
    }
    assert(p[0] >= '0');
}

impl JournalDate {
    /// The text of the date, `YYYY-MM-DD` (`Display`).
    pub fn to_text(&self) -> (r: String)
        ensures
            r@ == date_text(*self),
    {
        let mut out = String::new();
        push_padded(&mut out, self.year as usize, 4);
        push_char(&mut out, '-');
        push_padded(&mut out, self.month as usize, 2);
        push_char(&mut out, '-');
        push_padded(&mut out, self.day as usize, 2);
        proof {
            assert(out@ =~= date_text(*self));
        }
        out
    }
}

impl PageKey {
    /// The text of the key (`Display`).
    pub fn to_text(&self) -> (r: String)
        ensures
            r@ == self@,
    {
        self.0.clone()
    }
}

/// A date of a valid month and day reads back from its text: `parse` of
/// `to_text` gives the date again.
pub proof fn law_journal_date_text_round_trip(d: JournalDate)
    requires
        1 <= d.month <= 12,
        1 <= d.day <= 31,
    ensures
        journal_date(date_text(d)) == Some((d.year as nat, d.month as nat, d.day as nat)),
{
    let y = zero_pad(decimal(d.year as nat), 4);
    let m = zero_pad(decimal(d.month as nat), 2);
    let dd = zero_pad(decimal(d.day as nat), 2);
    lemma_padded_number(d.year as nat, 4);
    lemma_padded_number(d.month as nat, 2);
    lemma_padded_number(d.day as nat, 2);
    lemma_split_concat(y + seq!['-'] + m, dd, '-');
    lemma_split_concat(y, m, '-');
    lemma_split_free(y, '-');
    lemma_split_free(m, '-');
    lemma_split_free(dd, '-');
    let parts = split_on(date_text(d), '-');
    assert(parts =~= seq![y, m, dd]);
}

proof fn lemma_expand_concat(a: Seq<char>, b: Seq<char>)
    ensures
        expand_slashes(a + b) == expand_slashes(a) + expand_slashes(b),
    decreases b.len(),
{
    if b.len() == 0 {
        assert(a + b =~= a);
        assert(expand_slashes(a) + expand_slashes(b) =~= expand_slashes(a));
    } else {
        assert((a + b).drop_last() =~= a + b.drop_last());
        assert((a + b).last() == b.last());
        lemma_expand_concat(a, b.drop_last());
        assert(expand_slashes(a + b) =~= expand_slashes(a) + expand_slashes(b));
    }
}

proof fn lemma_collapse_expand(k: Seq<char>)
    requires
        forall|i: int| 0 <= i < k.len() ==> #[trigger] k[i] != '_',
    ensures
        collapse_delimiters(expand_slashes(k)) == k,
    decreases k.len(),
{
    if k.len() > 0 {
        let rest = k.drop_first();
        assert(k =~= seq![k[0]] + rest);
        lemma_expand_concat(seq![k[0]], rest);
        assert(seq![k[0]].drop_last() =~= Seq::<char>::empty());
        assert(expand_slashes(Seq::<char>::empty()) =~= Seq::<char>::empty());
        assert(seq![k[0]].last() == k[0]);
        assert(expand_slashes(seq![k[0]]) == expand_slashes(Seq::<char>::empty()) + if k[0] == '/' {
            seq!['_', '_', '_']
        } else {
            seq![k[0]]
        });
        assert forall|i: int| 0 <= i < rest.len() implies #[trigger] rest[i] != '_' by {
            assert(rest[i] == k[i + 1]);
        }
        lemma_collapse_expand(rest);
        let e = expand_slashes(k);
        if k[0] == '/' {
            assert(expand_slashes(seq![k[0]]) =~= seq!['_', '_', '_']);
            assert(e.skip(3) =~= expand_slashes(rest));
        } else {
            assert(expand_slashes(seq![k[0]]) =~= seq![k[0]]);
            assert(e.skip(1) =~= expand_slashes(rest));
            assert(e[0] == k[0]);
        }
        assert(collapse_delimiters(e) =~= k);
    }
}

/// A normalized key without `_` is stored under a file name that reads back as
/// the same key.
pub proof fn law_page_file_round_trip(k: Seq<char>)
    requires
        k.len() > 0,
        normalize_key(k) == k,
        forall|i: int| 0 <= i < k.len() ==> #[trigger] k[i] != '_',
    ensures
        has_md_suffix(expand_slashes(k) + seq!['.', 'm', 'd']),
        collapse_delimiters((expand_slashes(k) + seq!['.', 'm', 'd']).take(expand_slashes(k).len() as int)) == k,
        normalize_key(collapse_delimiters((expand_slashes(k) + seq!['.', 'm', 'd']).take(expand_slashes(k).len() as int)))
            == k,
{
    let f = expand_slashes(k) + seq!['.', 'm', 'd'];
    assert(f.skip(f.len() - 3) =~= seq!['.', 'm', 'd']);
    assert(f.take(expand_slashes(k).len() as int) =~= expand_slashes(k));
    lemma_collapse_expand(k);
}

/// A character that lower-casing keeps and normalizing keeps as it is: a letter or
/// digit that lower-cases to itself, no white space, `-` or `/`.
pub open spec fn fixed_char(c: char) -> bool {
    &&& char_is_alphanumeric(c)
    &&& char_lowercase(c) == seq![c]
    &&& !is_white_space(c)
    &&& c != '-'
    &&& c != '/'
}

/// Every letter or digit of `s` lower-cases to characters that stay fixed.
pub open spec fn lowers_fixed(s: Seq<char>) -> bool {
    forall|i: int|
        0 <= i < s.len() && char_is_alphanumeric(#[trigger] s[i]) ==> char_lowercase(s[i]).len() > 0
            && forall|j: int| 0 <= j < char_lowercase(s[i]).len() ==> fixed_char(#[trigger] char_lowercase(s[i])[j])
}

/// A normalized segment: non-empty, of fixed characters and single dashes, with no
/// dash at either end.
pub open spec fn seg_ok(n: Seq<char>) -> bool {
    &&& n.len() > 0
    &&& n[0] != '-'
    &&& n.last() != '-'
    &&& forall|i: int| 0 <= i < n.len() ==> #[trigger] n[i] == '-' || fixed_char(n[i])
    &&& forall|i: int| 0 <= i < n.len() - 1 ==> !(#[trigger] n[i] == '-' && n[i + 1] == '-')
}

proof fn lemma_split_lowers(s: Seq<char>)
    requires
        lowers_fixed(s),
    ensures
        forall|i: int| 0 <= i < split_on(s, '/').len() ==> lowers_fixed(#[trigger] split_on(s, '/')[i]),
    decreases s.len(),
{
    let k = first_index_of(s, '/', 0);
    lemma_first_index_of(s, '/', 0);
    if k < 0 || k >= s.len() {
    } else {
        let t = s.take(k);
        let r = s.skip(k + 1);
        assert forall|i: int| 0 <= i < t.len() && char_is_alphanumeric(#[trigger] t[i]) implies char_lowercase(t[i]).len() > 0
            && forall|j: int| 0 <= j < char_lowercase(t[i]).len() ==> fixed_char(#[trigger] char_lowercase(t[i])[j]) by {
            assert(t[i] == s[i]);
        }
        assert forall|i: int| 0 <= i < r.len() && char_is_alphanumeric(#[trigger] r[i]) implies char_lowercase(r[i]).len() > 0
            && forall|j: int| 0 <= j < char_lowercase(r[i]).len() ==> fixed_char(#[trigger] char_lowercase(r[i])[j]) by {
            assert(r[i] == s[i + k + 1]);
        }
        lemma_split_lowers(r);
        let p = split_on(s, '/');
        assert forall|i: int| 0 <= i < p.len() implies lowers_fixed(#[trigger] p[i]) by {
            if i > 0 {
                assert(p[i] == split_on(r, '/')[i - 1]);
            }
        }
    }
}

/// What normalizing keeps: no leading dash, no two dashes in a row, fixed
/// characters and dashes only, and the flag says whether it ends in a dash.
pub open spec fn normalized_ok(out: Seq<char>, last_dash: bool) -> bool {
    &&& out.len() > 0 ==> out[0] != '-'
    &&& forall|i: int| 0 <= i < out.len() ==> #[trigger] out[i] == '-' || fixed_char(out[i])
    &&& forall|i: int| 0 <= i < out.len() - 1 ==> !(#[trigger] out[i] == '-' && out[i + 1] == '-')
    &&& last_dash == (out.len() > 0 && out.last() == '-')
}

proof fn lemma_normalize_chars_ok(t: Seq<char>)
    requires
        lowers_fixed(t),
        !char_is_alphanumeric('-'),
    ensures
        normalized_ok(normalize_chars(t).0, normalize_chars(t).1),
    decreases t.len(),
{
    if t.len() > 0 {
        let pre = t.drop_last();
        assert forall|i: int| 0 <= i < pre.len() && char_is_alphanumeric(#[trigger] pre[i]) implies char_lowercase(pre[i]).len() > 0
            && forall|j: int| 0 <= j < char_lowercase(pre[i]).len() ==> fixed_char(#[trigger] char_lowercase(pre[i])[j]) by {
            assert(pre[i] == t[i]);
        }
        lemma_normalize_chars_ok(pre);
        let (acc, d) = normalize_chars(pre);
        let c = t.last();
        assert(c == t[t.len() - 1]);
        assert(t.drop_last() == pre);
        assert(normalize_chars(t) == normalize_step(normalize_chars(pre), c));
        if char_is_alphanumeric(c) {
            let l = char_lowercase(c);
            let out = acc + l;
            assert forall|i: int| 0 <= i < out.len() implies #[trigger] out[i] == '-' || fixed_char(out[i]) by {
                if i >= acc.len() {
                    assert(out[i] == l[i - acc.len()]);
                    assert(fixed_char(l[i - acc.len()]));
                }
            }
            assert forall|i: int| 0 <= i < out.len() - 1 implies !(#[trigger] out[i] == '-' && out[i + 1] == '-') by {
                if i + 1 >= acc.len() {
                    assert(out[i + 1] == l[i + 1 - acc.len()]);
                    assert(fixed_char(l[i + 1 - acc.len()]));
                }
            }
            if out.len() > 0 {
                if acc.len() == 0 {
                    assert(out[0] == l[0]);
                    assert(fixed_char(l[0]));
                }
                if l.len() > 0 {
                    assert(out.last() == l[l.len() - 1]);
                    assert(fixed_char(l[l.len() - 1]));
                } else {
                    assert(out =~= acc);
                }
            }
        } else if !d && acc.len() > 0 {
            let out = acc.push('-');
            assert forall|i: int| 0 <= i < out.len() - 1 implies !(#[trigger] out[i] == '-' && out[i + 1] == '-') by {
                if i + 1 == acc.len() {
                    assert(out[i] == acc.last());
                }
            }
        }
    }
}

proof fn lemma_trim_dashes_ok(x: Seq<char>, d: bool)
    requires
        normalized_ok(x, d),
    ensures
        trim_dashes(x).len() > 0 ==> seg_ok(trim_dashes(x)),
{
    if x.len() > 0 {
        assert(lead_dash_end(x, 0) == 0);
    } else {
        assert(lead_dash_end(x, 0) == 0);
    }
    lemma_trail_dash(x, 0, x.len() as int);
    let e = trail_dash_start(x, 0, x.len() as int);
    let n = trim_dashes(x);
    assert(n =~= x.subrange(0, e));
    if n.len() > 0 {
        assert(n[0] == x[0]);
        assert(n.last() == x[e - 1]);
        assert forall|i: int| 0 <= i < n.len() implies #[trigger] n[i] == '-' || fixed_char(n[i]) by {
            assert(n[i] == x[i]);
        }
        assert forall|i: int| 0 <= i < n.len() - 1 implies !(#[trigger] n[i] == '-' && n[i + 1] == '-') by {
            assert(n[i] == x[i] && n[i + 1] == x[i + 1]);
        }
    }
}

proof fn lemma_trail_dash(c: Seq<char>, lo: int, e: int)
    requires
        0 <= lo <= e <= c.len(),
    ensures
        lo <= trail_dash_start(c, lo, e) <= e,
        trail_dash_start(c, lo, e) > lo ==> c[trail_dash_start(c, lo, e) - 1] != '-',
    decreases e - lo,
{
    if lo < e && c[e - 1] == '-' {
        lemma_trail_dash(c, lo, e - 1);
    }
}

proof fn lemma_segment_ok(p: Seq<char>)
    requires
        lowers_fixed(p),
        !char_is_alphanumeric('-'),
    ensures
        normalize_segment(p).len() > 0 ==> seg_ok(normalize_segment(p)),
{
    let t = trim_white_space(p);
    let a = lead_ws_end(p, 0);
    super::parser::lemma_lead_ws_end(p, 0);
    super::parser::lemma_trail_ws_start(p, a, p.len() as int);
    assert forall|i: int| 0 <= i < t.len() && char_is_alphanumeric(#[trigger] t[i]) implies char_lowercase(t[i]).len() > 0
        && forall|j: int| 0 <= j < char_lowercase(t[i]).len() ==> fixed_char(#[trigger] char_lowercase(t[i])[j]) by {
        assert(t[i] == p[i + a]);
    }
    lemma_normalize_chars_ok(t);
    lemma_trim_dashes_ok(normalize_chars(t).0, normalize_chars(t).1);
}

proof fn lemma_fixed_segment(n: Seq<char>)
    requires
        seg_ok(n),
        !char_is_alphanumeric('-'),
    ensures
        normalize_segment(n) == n,
{
    assert(lead_ws_end(n, 0) == 0) by {
        assert(fixed_char(n[0]));
    }
    assert(trail_ws_start(n, 0, n.len() as int) == n.len()) by {
        assert(fixed_char(n[n.len() - 1]));
    }
    assert(trim_white_space(n) =~= n);
    assert forall|i: int| 0 <= i <= n.len() implies #[trigger] normalize_chars(n.take(i)) == (n.take(i), i > 0 && n[i - 1]
        == '-') by {
        lemma_fixed_prefix(n, i);
    }
    assert(n.take(n.len() as int) =~= n);
    assert(normalize_chars(n) == (n, false));
    assert(lead_dash_end(n, 0) == 0);
    assert(trail_dash_start(n, 0, n.len() as int) == n.len());
    assert(trim_dashes(n) =~= n);
}

proof fn lemma_fixed_prefix(n: Seq<char>, i: int)
    requires
        seg_ok(n),
        !char_is_alphanumeric('-'),
        0 <= i <= n.len(),
    ensures
        normalize_chars(n.take(i)) == (n.take(i), i > 0 && n[i - 1] == '-'),
    decreases i,
{
    if i > 0 {
        lemma_fixed_prefix(n, i - 1);
        assert(n.take(i).drop_last() =~= n.take(i - 1));
        assert(n.take(i).last() == n[i - 1]);
        let c = n[i - 1];
        if c == '-' {
            assert(i - 1 > 0);
            assert(n[i - 2] != '-');
            assert(n.take(i - 1).push('-') =~= n.take(i));
        } else {
            assert(fixed_char(c));
            assert(n.take(i - 1) + seq![c] =~= n.take(i));
        }
    } else {
        assert(n.take(0) =~= Seq::<char>::empty());
    }
}

proof fn lemma_segments_ok(pieces: Seq<Seq<char>>)
    requires
        forall|i: int| 0 <= i < pieces.len() ==> lowers_fixed(#[trigger] pieces[i]),
        !char_is_alphanumeric('-'),
    ensures
        forall|i: int| 0 <= i < normalized_segments(pieces).len() ==> seg_ok(#[trigger] normalized_segments(pieces)[i]),
    decreases pieces.len(),
{
    if pieces.len() > 0 {
        lemma_segments_ok(pieces.drop_last());
        lemma_segment_ok(pieces.last());
        let a = normalized_segments(pieces.drop_last());
        let n = normalize_segment(pieces.last());
        let r = normalized_segments(pieces);
        assert forall|i: int| 0 <= i < r.len() implies seg_ok(#[trigger] r[i]) by {
            if i < a.len() {
                assert(r[i] == a[i]);
            } else {
                assert(r[i] == n);
            }
        }
    }
}

proof fn lemma_segments_fixed(segs: Seq<Seq<char>>)
    requires
        forall|i: int| 0 <= i < segs.len() ==> seg_ok(#[trigger] segs[i]),
        !char_is_alphanumeric('-'),
    ensures
        normalized_segments(segs) == segs,
    decreases segs.len(),
{
    if segs.len() > 0 {
        lemma_segments_fixed(segs.drop_last());
        lemma_fixed_segment(segs.last());
        assert(normalized_segments(segs) =~= segs.drop_last() + seq![segs.last()]);
        assert(segs.drop_last() + seq![segs.last()] =~= segs);
    }
}

/// Normalizing a normalized key changes nothing, when every letter or digit of
/// the raw text lower-cases to letters and digits that lower-case to themselves
/// (as ASCII text does) and `-` is no letter or digit.
pub proof fn law_normalize_idempotent(s: Seq<char>)
    requires
        lowers_fixed(s),
        !char_is_alphanumeric('-'),
    ensures
        normalize_key(normalize_key(s)) == normalize_key(s),
{
    lemma_split_lowers(s);
    let segs = normalized_segments(split_on(s, '/'));
    lemma_segments_ok(split_on(s, '/'));
    if segs.len() == 0 {
        assert(normalize_key(s) =~= Seq::<char>::empty());
        assert(split_on(Seq::<char>::empty(), '/') =~= seq![Seq::<char>::empty()]) by {
            lemma_first_index_of(Seq::<char>::empty(), '/', 0);
        }
        assert(normalize_segment(Seq::<char>::empty()) =~= Seq::<char>::empty()) by {
            assert(trim_white_space(Seq::<char>::empty()) =~= Seq::<char>::empty());
            assert(normalize_chars(Seq::<char>::empty()).0 =~= Seq::<char>::empty());
            assert(trim_dashes(Seq::<char>::empty()) =~= Seq::<char>::empty());
        }
        assert(seq![Seq::<char>::empty()].drop_last() =~= Seq::<Seq<char>>::empty());
        assert(seq![Seq::<char>::empty()].last() == Seq::<char>::empty());
        assert(normalized_segments(Seq::<Seq<char>>::empty()) =~= Seq::<Seq<char>>::empty());
        assert(normalized_segments(seq![Seq::<char>::empty()]) =~= Seq::<Seq<char>>::empty());
    } else {
        assert forall|i: int| 0 <= i < segs.len() implies free_of(#[trigger] segs[i], '/') by {
            assert(seg_ok(segs[i]));
            assert forall|j: int| 0 <= j < segs[i].len() implies #[trigger] segs[i][j] != '/' by {
                assert(segs[i][j] == '-' || fixed_char(segs[i][j]));
            }
        }
        lemma_split_join(segs, '/');
        lemma_segments_fixed(segs);
    }
}

} // verus!
