//! Validation of page name segments and of stream date names.

use vstd::prelude::*;

use super::error::NameError;
use crate::text::{ci, eq_ci};

verus! {

pub open spec fn is_path_separator(c: char) -> bool {
    c == '/' || c == '\\'
}

pub open spec fn is_reserved_char(c: char) -> bool {
    c == '<' || c == '>' || c == ':' || c == '"' || c == '|' || c == '?' || c == '*'
}

/// The Unicode general category `Cc` (`char::is_control`).
pub open spec fn is_control_char(c: char) -> bool {
    c <= '\u{1f}' || ('\u{7f}' <= c && c <= '\u{9f}')
}

/// The error a single character of a name causes, if any.
pub open spec fn char_error(c: char) -> Option<NameError> {
    if is_path_separator(c) {
        Some(NameError::ContainsPathSeparator)
    } else if is_reserved_char(c) {
        Some(NameError::ContainsReservedCharacter(c))
    } else if is_control_char(c) {
        Some(NameError::ContainsControlCharacter(c))
    } else {
        None
    }
}

/// The error of the first offending character at or after `i`.
pub open spec fn first_char_error(s: Seq<char>, i: int) -> Option<NameError>
    decreases s.len() - i,
{
    if i < 0 || i >= s.len() {
        None
    } else if char_error(s[i]) is Some {
        char_error(s[i])
    } else {
        first_char_error(s, i + 1)
    }
}

/// The hierarchy delimiter `___` starts at `i`.
pub open spec fn delim_at(s: Seq<char>, i: int) -> bool {
    0 <= i && i + 3 <= s.len() && s[i] == '_' && s[i + 1] == '_' && s[i + 2] == '_'
}

/// `s` holds the hierarchy delimiter `___`.
pub open spec fn has_delimiter(s: Seq<char>) -> bool {
    exists|i: int| #[trigger] delim_at(s, i)
}

/// `s` ends in `.md`, ignoring ASCII case.
pub open spec fn ends_with_md(s: Seq<char>) -> bool {
    s.len() >= 3 && s[s.len() - 3] == '.' && ci(s[s.len() - 2], 'M') && ci(s[s.len() - 1], 'D')
}

pub open spec fn prefix3(s: Seq<char>, a: char, b: char, c: char) -> bool {
    s.len() >= 3 && ci(s[0], a) && ci(s[1], b) && ci(s[2], c)
}

pub open spec fn word3(s: Seq<char>, a: char, b: char, c: char) -> bool {
    s.len() == 3 && prefix3(s, a, b, c)
}

/// `t` parses as a `u8` whose value is between 1 and 9.
pub open spec fn small_port_number(t: Seq<char>) -> bool {
    let d = port_digits(t);
    &&& d.len() >= 1
    &&& forall|i: int| 0 <= i < d.len() - 1 ==> #[trigger] d[i] == '0'
    &&& '1' <= d[d.len() - 1] && d[d.len() - 1] <= '9'
}

/// `t` without one leading `+`.
pub open spec fn port_digits(t: Seq<char>) -> Seq<char> {
    if t.len() > 0 && t[0] == '+' {
        t.skip(1)
    } else {
        t
    }
}

/// A reserved Windows device name, ignoring ASCII case.
pub open spec fn is_windows_device_name(s: Seq<char>) -> bool {
    ||| word3(s, 'C', 'O', 'N')
    ||| word3(s, 'P', 'R', 'N')
    ||| word3(s, 'A', 'U', 'X')
    ||| word3(s, 'N', 'U', 'L')
    ||| (prefix3(s, 'C', 'O', 'M') && small_port_number(s.skip(3)))
    ||| (prefix3(s, 'L', 'P', 'T') && small_port_number(s.skip(3)))
}

/// The first rule a page name segment breaks, in the order they are checked.
pub open spec fn name_error(s: Seq<char>) -> Option<NameError> {
    if s.len() == 0 {
        Some(NameError::Empty)
    } else if s == seq!['.'] || s == seq!['.', '.'] {
        Some(NameError::DotSegment)
    } else if has_delimiter(s) {
        Some(NameError::ContainsHierarchyDelimiter)
    } else if ends_with_md(s) {
        Some(NameError::ContainsMarkdownExtension)
    } else if first_char_error(s, 0) is Some {
        first_char_error(s, 0)
    } else if is_windows_device_name(s) {
        Some(NameError::ReservedWindowsDeviceName)
    } else {
        None
    }
}

pub open spec fn valid_name(s: Seq<char>) -> bool {
    name_error(s) is None
}

pub open spec fn is_ascii_digit(c: char) -> bool {
    '0' <= c && c <= '9'
}

/// `YYYY_MM_DD` with ASCII digits.
pub open spec fn is_stream_date_name(s: Seq<char>) -> bool {
    &&& s.len() == 10
    &&& forall|i: int| 0 <= i < 10 && i != 4 && i != 7 ==> is_ascii_digit(#[trigger] s[i])
    &&& s[4] == '_'
    &&& s[7] == '_'
}

/// A stream date name followed by `.md` in any ASCII case.
pub open spec fn is_stream_date_markdown_name(s: Seq<char>) -> bool {
    s.len() == 13 && is_stream_date_name(s.take(10)) && ends_with_md(s)
}

fn char_error_exec(c: char) -> (r: Option<NameError>)
    ensures
        r == char_error(c),
{
    if c == '/' || c == '\\' {
        Some(NameError::ContainsPathSeparator)
    } else if c == '<' || c == '>' || c == ':' || c == '"' || c == '|' || c == '?' || c == '*' {
        Some(NameError::ContainsReservedCharacter(c))
    } else if c <= '\u{1f}' || ('\u{7f}' <= c && c <= '\u{9f}') {
        Some(NameError::ContainsControlCharacter(c))
    } else {
        None
    }
}

proof fn lemma_first_char_error_none(s: Seq<char>, i: int)
    requires
        0 <= i <= s.len(),
        forall|j: int| i <= j < s.len() ==> char_error(#[trigger] s[j]) is None,
    ensures
        first_char_error(s, i) is None,
    decreases s.len() - i,
{
    if i < s.len() {
        lemma_first_char_error_none(s, i + 1);
    }
}

proof fn lemma_first_char_error_at(s: Seq<char>, i: int, k: int)
    requires
        0 <= i <= k < s.len(),
        forall|j: int| i <= j < k ==> char_error(#[trigger] s[j]) is None,
        char_error(s[k]) is Some,
    ensures
        first_char_error(s, i) == char_error(s[k]),
    decreases k - i,
{
    if i < k {
        lemma_first_char_error_at(s, i + 1, k);
    }
}

/// No character of a valid name is one a name may not hold.
pub proof fn lemma_valid_name_chars(s: Seq<char>)
    requires
        valid_name(s),
    ensures
        forall|j: int| 0 <= j < s.len() ==> char_error(#[trigger] s[j]) is None,
{
    assert forall|j: int| 0 <= j < s.len() implies char_error(#[trigger] s[j]) is None by {
        lemma_first_char_error_from(s, 0, j);
    }
}

proof fn lemma_first_char_error_from(s: Seq<char>, i: int, j: int)
    requires
        0 <= i <= j < s.len(),
        first_char_error(s, i) is None,
    ensures
        char_error(s[j]) is None,
    decreases j - i,
{
    if i < j {
        lemma_first_char_error_from(s, i + 1, j);
    }
}

fn first_char_error_exec(v: &Vec<char>) -> (r: Option<NameError>)
    ensures
        r == first_char_error(v@, 0),
{
    let mut i: usize = 0;
    while i < v.len()
        invariant
            i <= v@.len(),
            forall|j: int| 0 <= j < i ==> char_error(#[trigger] v@[j]) is None,
        decreases v@.len() - i,
    {
        let e = char_error_exec(v[i]);
        if e.is_some() {
            proof {
                lemma_first_char_error_at(v@, 0, i as int);
            }
            return e;
        }
        i = i + 1;
    }
    proof {
        lemma_first_char_error_none(v@, 0);
    }
    None
}

fn has_delimiter_exec(v: &Vec<char>) -> (r: bool)
    ensures
        r == has_delimiter(v@),
{
    let mut i: usize = 0;
    while i < v.len() && v.len() - i >= 3
        invariant
            i <= v@.len(),
            forall|j: int| 0 <= j < i ==> !(#[trigger] delim_at(v@, j)),
        decreases v@.len() - i,
    {
        if v[i] == '_' && v[i + 1] == '_' && v[i + 2] == '_' {
            assert(delim_at(v@, i as int));
            return true;
        }
        i = i + 1;
    }
    assert forall|j: int| !(#[trigger] delim_at(v@, j)) by {
        if delim_at(v@, j) && j >= i {
            assert(j + 3 <= v@.len());
        }
    }
    false
}

/// Exec form of `ends_with_md`.
pub fn ends_with_md_exec(v: &Vec<char>) -> (r: bool)
    ensures
        r == ends_with_md(v@),
{
    let n = v.len();
    n >= 3 && v[n - 3] == '.' && eq_ci(v[n - 2], 'M') && eq_ci(v[n - 1], 'D')
}

fn prefix3_exec(v: &Vec<char>, a: char, b: char, c: char) -> (r: bool)
    requires
        'A' <= a <= 'Z',
        'A' <= b <= 'Z',
        'A' <= c <= 'Z',
    ensures
        r == prefix3(v@, a, b, c),
{
    v.len() >= 3 && eq_ci(v[0], a) && eq_ci(v[1], b) && eq_ci(v[2], c)
}

fn small_port_number_exec(v: &Vec<char>, from: usize) -> (r: bool)
    requires
        from <= v@.len(),
    ensures
        r == small_port_number(v@.skip(from as int)),
{
    let ghost t = v@.skip(from as int);
    let mut start = from;
    if start < v.len() && v[start] == '+' {
        start = start + 1;
    }
    let ghost d = v@.skip(start as int);
    assert(d =~= port_digits(t));
    if start >= v.len() {
        return false;
    }
    let last = v.len() - 1;
    let mut i = start;
    while i < last
        invariant
            start <= i <= last,
            last == v@.len() - 1,
            d == v@.skip(start as int),
            t == v@.skip(from as int),
            d == port_digits(t),
            forall|j: int| start <= j < i ==> v@[j] == '0',
        decreases last - i,
    {
        if v[i] != '0' {
            assert(d[(i - start) as int] == v@[i as int]);
            assert(d[(i - start) as int] != '0' && (i - start) < d.len() - 1);
            assert(!small_port_number(t)) by {
                let k = (i - start) as int;
                assert(!(d[k] == '0'));
            }
            return false;
        }
        i = i + 1;
    }
    assert forall|j: int| 0 <= j < d.len() - 1 implies d[j] == '0' by {
        assert(d[j] == v@[j + start]);
    }
    '1' <= v[last] && v[last] <= '9'
}

fn is_windows_device_name_exec(v: &Vec<char>) -> (r: bool)
    ensures
        r == is_windows_device_name(v@),
{
    let n = v.len();
    if n == 3 && (prefix3_exec(v, 'C', 'O', 'N') || prefix3_exec(v, 'P', 'R', 'N')
        || prefix3_exec(v, 'A', 'U', 'X') || prefix3_exec(v, 'N', 'U', 'L')) {
        return true;
    }
    if prefix3_exec(v, 'C', 'O', 'M') && small_port_number_exec(v, 3) {
        return true;
    }
    prefix3_exec(v, 'L', 'P', 'T') && small_port_number_exec(v, 3)
}

/// Checks a page name segment, reporting the first rule it breaks.
pub fn validate_name_chars(v: &Vec<char>) -> (r: Result<(), NameError>)
    ensures
        r == (match name_error(v@) {
            Some(e) => Err::<(), NameError>(e),
            None => Ok(()),
        }),
{
    let n = v.len();
    if n == 0 {
        return Err(NameError::Empty);
    }
    if (n == 1 && v[0] == '.') || (n == 2 && v[0] == '.' && v[1] == '.') {
        proof {
            if n == 1 {
                assert(v@ =~= seq!['.']);
            } else {
                assert(v@ =~= seq!['.', '.']);
            }
        }
        return Err(NameError::DotSegment);
    }
    proof {
        if v@ == seq!['.'] {
            assert(v@.len() == 1);
        }
        if v@ == seq!['.', '.'] {
            assert(v@.len() == 2 && v@[0] == '.' && v@[1] == '.');
        }
    }
    if has_delimiter_exec(v) {
        return Err(NameError::ContainsHierarchyDelimiter);
    }
    if ends_with_md_exec(v) {
        return Err(NameError::ContainsMarkdownExtension);
    }
    let e = first_char_error_exec(v);
    if let Some(err) = e {
        return Err(err);
    }
    if is_windows_device_name_exec(v) {
        return Err(NameError::ReservedWindowsDeviceName);
    }
    Ok(())
}

fn is_digit_exec(c: char) -> (r: bool)
    ensures
        r == is_ascii_digit(c),
{
    '0' <= c && c <= '9'
}

/// Exec form of `is_stream_date_name`.
pub fn is_stream_date_name_exec(v: &Vec<char>) -> (r: bool)
    ensures
        r == is_stream_date_name(v@),
{
    if v.len() != 10 {
        return false;
    }
    if v[4] != '_' || v[7] != '_' {
        return false;
    }
    let mut i: usize = 0;
    while i < 10
        invariant
            v@.len() == 10,
            i <= 10,
            forall|j: int| 0 <= j < i && j != 4 && j != 7 ==> is_ascii_digit(#[trigger] v@[j]),
        decreases 10 - i,
    {
        if i != 4 && i != 7 && !is_digit_exec(v[i]) {
            return false;
        }
        i = i + 1;
    }
    true
}

/// Exec form of `is_stream_date_markdown_name`.
pub fn is_stream_date_markdown_name_exec(v: &Vec<char>) -> (r: bool)
    ensures
        r == is_stream_date_markdown_name(v@),
{
    if v.len() != 13 {
        return false;
    }
    let stem = crate::text::sub_chars(v, 0, 10);
    assert(stem@ =~= v@.take(10));
    is_stream_date_name_exec(&stem) && ends_with_md_exec(v)
}

} // verus!
