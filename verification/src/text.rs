//! Byte-level views of UTF-8 text shared by the parsers.

use vstd::prelude::*;
use vstd::utf8::*;
use vstd::string::*;

verus! {

broadcast use vstd::utf8::group_utf8_lib;

/// The UTF-8 bytes of a character sequence.
pub open spec fn utf8_of(chars: Seq<char>) -> Seq<u8> {
    encode_utf8(chars)
}

/// `index` starts a character of `bytes` or is the end of `bytes`.
pub open spec fn at_boundary(bytes: Seq<u8>, index: int) -> bool {
    index == bytes.len() || (0 <= index < bytes.len() && !is_continuation_byte(bytes[index]))
}

/// The bytes of a `str` are valid UTF-8.
pub proof fn lemma_str_valid(s: &str)
    ensures
        valid_utf8(s.spec_bytes()),
{
    encode_utf8_valid_utf8(s@);
}

/// On valid UTF-8, the local boundary test agrees with the standard one.
pub proof fn lemma_boundary(bytes: Seq<u8>, index: int)
    requires
        valid_utf8(bytes),
    ensures
        is_char_boundary(bytes, index) <==> at_boundary(bytes, index),
{
    is_char_boundary_start_end_of_seq(bytes);
    if 0 <= index < bytes.len() {
        is_char_boundary_iff_not_is_continuation_byte(bytes, index);
    } else if index != bytes.len() {
        reveal_with_fuel(is_char_boundary, 1);
    }
}

/// The characters of valid UTF-8 bytes.
pub proof fn lemma_decode_of_str(s: &str)
    ensures
        decode_utf8(s.spec_bytes()) == s@,
{
    encode_utf8_decode_utf8(s@);
}

/// UTF-8 encoding distributes over concatenation.
pub proof fn lemma_utf8_concat(a: Seq<char>, b: Seq<char>)
    ensures
        utf8_of(a + b) == utf8_of(a) + utf8_of(b),
    decreases a.len(),
{
    if a.len() == 0 {
        assert(a + b =~= b);
        assert(utf8_of(a) =~= Seq::<u8>::empty());
        assert(utf8_of(a) + utf8_of(b) =~= utf8_of(b));
    } else {
        lemma_utf8_concat(a.drop_first(), b);
        assert((a + b).drop_first() =~= a.drop_first() + b);
        assert((a + b)[0] == a[0]);
        assert(utf8_of(a + b) =~= encode_scalar(a[0] as u32) + utf8_of(a.drop_first() + b));
        assert(utf8_of(a) =~= encode_scalar(a[0] as u32) + utf8_of(a.drop_first()));
    }
}

/// The number of UTF-8 bytes of `s`.
pub fn byte_len(s: &str) -> (n: usize)
    ensures
        n == s.spec_bytes().len(),
{
    s.as_bytes().len()
}

/// The sub-slice of `s` between two byte offsets that lie on character boundaries.
pub fn slice_str<'a>(s: &'a str, start: usize, end: usize) -> (r: &'a str)
    requires
        start <= end <= s.spec_bytes().len(),
        at_boundary(s.spec_bytes(), start as int),
        at_boundary(s.spec_bytes(), end as int),
    ensures
        r.spec_bytes() == s.spec_bytes().subrange(start as int, end as int),
{
    let ghost bytes = s.spec_bytes();
    proof {
        lemma_str_valid(s);
        lemma_boundary(bytes, end as int);
    }
    let (head, _) = s.split_at(end);
    proof {
        valid_utf8_split(bytes, end as int);
        let hb = head.spec_bytes();
        assert(hb =~= bytes.subrange(0, end as int));
        lemma_boundary(hb, start as int);
    }
    let (_, tail) = head.split_at(start);
    proof {
        assert(tail.spec_bytes() =~= bytes.subrange(start as int, end as int));
    }
    tail
}

/// `s` with the bytes `[lo, hi)` replaced by `rep`; both ends must be character
/// boundaries.
pub fn replace_byte_range(s: &str, lo: usize, hi: usize, rep: &str) -> (r: String)
    requires
        lo <= hi <= s.spec_bytes().len(),
        at_boundary(s.spec_bytes(), lo as int),
        at_boundary(s.spec_bytes(), hi as int),
    ensures
        utf8_of(r@) == s.spec_bytes().take(lo as int) + rep.spec_bytes() + s.spec_bytes().skip(
            hi as int,
        ),
{
    let ghost bytes = s.spec_bytes();
    proof {
        lemma_str_valid(s);
        is_char_boundary_start_end_of_seq(bytes);
        lemma_boundary(bytes, 0);
    }
    let n = byte_len(s);
    let head = slice_str(s, 0, lo);
    let tail = slice_str(s, hi, n);
    let mut out = String::new();
    out.append(head);
    out.append(rep);
    out.append(tail);
    proof {
        assert(out@ == head@ + rep@ + tail@);
        lemma_utf8_concat(head@ + rep@, tail@);
        lemma_utf8_concat(head@, rep@);
        assert(bytes.subrange(0, lo as int) =~= bytes.take(lo as int));
        assert(bytes.subrange(hi as int, n as int) =~= bytes.skip(hi as int));
    }
    out
}

/// The characters of a `str`, one per element.
pub fn str_chars(s: &str) -> (v: Vec<char>)
    ensures
        v@ == s@,
{
    broadcast use vstd::string::group_string_axioms;

    let mut v: Vec<char> = Vec::new();
    for c in it: s.chars()
        invariant
            v@ == it.seq().take(it.index() as int),
            it.seq() == s@,
    {
        v.push(c);
    }
    v
}

/// The number of UTF-8 bytes of the first `k` characters of `t`.
pub open spec fn byte_offset(t: Seq<char>, k: int) -> int {
    utf8_of(t.take(k)).len() as int
}

/// One more character adds its encoded width.
pub proof fn lemma_byte_offset_step(t: Seq<char>, k: int)
    requires
        0 <= k < t.len(),
    ensures
        byte_offset(t, k + 1) == byte_offset(t, k) + encode_scalar(t[k] as u32).len(),
{
    assert(t.take(k + 1) =~= t.take(k) + seq![t[k]]);
    lemma_utf8_concat(t.take(k), seq![t[k]]);
    assert(seq![t[k]].drop_first() =~= Seq::<char>::empty());
    assert(utf8_of(seq![t[k]]) =~= encode_scalar(t[k] as u32) + utf8_of(Seq::<char>::empty()));
}

/// Byte offsets grow with the character count.
pub proof fn lemma_byte_offset_mono(t: Seq<char>, i: int, j: int)
    requires
        0 <= i <= j <= t.len(),
    ensures
        byte_offset(t, i) <= byte_offset(t, j),
    decreases j - i,
{
    if i < j {
        lemma_byte_offset_mono(t, i, j - 1);
        lemma_byte_offset_step(t, j - 1);
    }
}

/// The offset of the whole sequence is its encoded length.
pub proof fn lemma_byte_offset_full(t: Seq<char>)
    ensures
        byte_offset(t, t.len() as int) == utf8_of(t).len(),
{
    assert(t.take(t.len() as int) =~= t);
}

/// The number of UTF-8 bytes that encode `c`.
pub fn utf8_width(c: char) -> (w: usize)
    ensures
        w == encode_scalar(c as u32).len(),
        1 <= w <= 4,
        w == 1 <==> (c as u32) < 0x80,
{
    let v = c as u32;
    if v < 0x80 {
        1
    } else if v < 0x800 {
        2
    } else if v < 0x10000 {
        proof {
            assert(!(0xD800 <= v <= 0xDFFF)) by {
                vstd::utf8::char_is_scalar(c);
            }
        }
        3
    } else {
        4
    }
}

/// The byte offset of every character position of `s`, and of its end.
pub fn char_byte_offsets(s: &str, chars: &Vec<char>) -> (r: Vec<usize>)
    requires
        chars@ == s@,
    ensures
        r@.len() == chars@.len() + 1,
        forall|k: int| 0 <= k <= chars@.len() ==> #[trigger] r@[k] == byte_offset(chars@, k),
        r@[chars@.len() as int] == s.spec_bytes().len(),
{
    let ghost t = chars@;
    let total = s.as_bytes().len();
    proof {
        lemma_byte_offset_full(t);
    }
    let mut r: Vec<usize> = Vec::new();
    let mut off: usize = 0;
    let mut k: usize = 0;
    r.push(0);
    assert(t.take(0) =~= Seq::<char>::empty());
    while k < chars.len()
        invariant
            t == chars@,
            utf8_of(t).len() == total,
            byte_offset(t, t.len() as int) == total,
            k <= t.len(),
            r@.len() == k + 1,
            off == byte_offset(t, k as int),
            forall|j: int| 0 <= j <= k ==> #[trigger] r@[j] == byte_offset(t, j),
        decreases t.len() - k,
    {
        proof {
            lemma_byte_offset_step(t, k as int);
            lemma_byte_offset_mono(t, k + 1, t.len() as int);
        }
        off = off + utf8_width(chars[k]);
        r.push(off);
        k = k + 1;
    }
    r
}

/// Appends one character to a `String`: a trusted call of `String::push`, whose
/// contract claims that the string then holds its old characters followed by `c`.
#[verifier::external_body]
pub(crate) fn push_char(s: &mut String, c: char)
    ensures
        final(s)@ == old(s)@.push(c),
{
    s.push(c);
}

} // verus!

verus! {

/// `c` is the ASCII letter `upper` in either case.
pub open spec fn ci(c: char, upper: char) -> bool {
    c == upper || (('A' <= upper <= 'Z') && c as u32 == upper as u32 + 32)
}

/// Exec form of `ci`.
pub fn eq_ci(c: char, upper: char) -> (r: bool)
    requires
        'A' <= upper <= 'Z' || upper == '.',
    ensures
        r == ci(c, upper),
{
    if c == upper {
        return true;
    }
    if 'A' <= upper && upper <= 'Z' {
        let cu = c as u32;
        let uu = upper as u32;
        cu == uu + 32
    } else {
        false
    }
}

/// The characters of `v` from `start` to `end`.
pub fn sub_chars(v: &Vec<char>, start: usize, end: usize) -> (r: Vec<char>)
    requires
        start <= end <= v@.len(),
    ensures
        r@ == v@.subrange(start as int, end as int),
{
    let mut r: Vec<char> = Vec::new();
    let mut i = start;
    while i < end
        invariant
            start <= i <= end <= v@.len(),
            r@ == v@.subrange(start as int, i as int),
        decreases end - i,
    {
        r.push(v[i]);
        i = i + 1;
        assert(r@ =~= v@.subrange(start as int, i as int));
    }
    r
}

/// A `String` holding exactly the characters of `v`.
pub fn chars_to_string(v: &Vec<char>) -> (r: String)
    ensures
        r@ == v@,
{
    let mut r = String::new();
    let mut i: usize = 0;
    while i < v.len()
        invariant
            i <= v@.len(),
            r@ == v@.take(i as int),
        decreases v@.len() - i,
    {
        push_char(&mut r, v[i]);
        i = i + 1;
        assert(r@ =~= v@.take(i as int));
    }
    assert(v@.take(v@.len() as int) =~= v@);
    r
}

/// The byte offset of a character position is a character boundary.
pub proof fn lemma_offset_boundary(t: Seq<char>, k: int)
    requires
        0 <= k <= t.len(),
    ensures
        is_char_boundary(utf8_of(t), byte_offset(t, k)),
    decreases k,
{
    encode_utf8_valid_utf8(t);
    if k == 0 {
        assert(t.take(0) =~= Seq::<char>::empty());
        assert(utf8_of(t.take(0)) =~= Seq::<u8>::empty());
    } else {
        let bytes = utf8_of(t);
        encode_utf8_first_scalar(t);
        assert(pop_first_scalar(bytes) =~= encode_utf8(t.drop_first()));
        lemma_offset_boundary(t.drop_first(), k - 1);
        assert(t.take(k).drop_first() =~= t.drop_first().take(k - 1));
        assert(t.take(k)[0] == t[0]);
        assert(utf8_of(t.take(k)) == encode_scalar(t[0] as u32) + utf8_of(t.drop_first().take(k - 1)));
        lemma_byte_offset_mono(t, k, t.len() as int);
        lemma_byte_offset_full(t);
    }
}

/// The number of UTF-8 bytes of the characters of `v`.
pub fn utf8_len(v: &Vec<char>) -> (n: usize)
    ensures
        n == utf8_of(v@).len(),
{
    let s = chars_to_string(v);
    byte_len(s.as_str())
}

/// The bytes of a `str` are the UTF-8 encoding of its characters.
pub proof fn lemma_str_bytes(s: &str)
    ensures
        s.spec_bytes() == utf8_of(s@),
{
}

/// `a` and `b` hold the same characters.
pub fn chars_eq(a: &Vec<char>, b: &Vec<char>) -> (r: bool)
    ensures
        r == (a@ == b@),
{
    if a.len() != b.len() {
        return false;
    }
    let mut i: usize = 0;
    while i < a.len()
        invariant
            a@.len() == b@.len(),
            i <= a@.len(),
            forall|j: int| 0 <= j < i ==> a@[j] == b@[j],
        decreases a@.len() - i,
    {
        if a[i] != b[i] {
            return false;
        }
        i = i + 1;
    }
    assert(a@ =~= b@);
    true
}

/// `a` and `b` hold the same characters.
pub fn strings_eq(a: &String, b: &String) -> (r: bool)
    ensures
        r == (a@ == b@),
{
    *a == *b
}

/// The pieces of a character sequence between separators, as `str::split` yields them.
pub open spec fn split_on(s: Seq<char>, sep: char) -> Seq<Seq<char>>
    decreases s.len(),
{
    let k = first_index_of(s, sep, 0);
    if k < 0 || k >= s.len() {
        seq![s]
    } else {
        seq![s.take(k)] + split_on(s.skip(k + 1), sep)
    }
}

/// The first index `>= from` holding `c`, or `-1`.
pub open spec fn first_index_of(s: Seq<char>, c: char, from: int) -> int
    decreases s.len() - from,
{
    if from < 0 || from >= s.len() {
        -1
    } else if s[from] == c {
        from
    } else {
        first_index_of(s, c, from + 1)
    }
}

pub proof fn lemma_first_index_of(s: Seq<char>, c: char, from: int)
    requires
        0 <= from,
    ensures
        first_index_of(s, c, from) == -1 || (from <= first_index_of(s, c, from) < s.len()
            && s[first_index_of(s, c, from)] == c),
        first_index_of(s, c, from) == -1 ==> forall|j: int| from <= j < s.len() ==> s[j] != c,
        first_index_of(s, c, from) >= 0 ==> forall|j: int|
            from <= j < first_index_of(s, c, from) ==> s[j] != c,
    decreases s.len() - from,
{
    if from < s.len() && s[from] != c {
        lemma_first_index_of(s, c, from + 1);
    }
}

/// The pieces of `v` between occurrences of `sep` (`str::split`).
pub fn split_chars(v: &Vec<char>, sep: char) -> (r: Vec<Vec<char>>)
    ensures
        r@.map_values(|p: Vec<char>| p@) == split_on(v@, sep),
    decreases v@.len(),
{
    let mut k: usize = 0;
    while k < v.len() && v[k] != sep
        invariant
            k <= v@.len(),
            forall|j: int| 0 <= j < k ==> v@[j] != sep,
        decreases v@.len() - k,
    {
        k = k + 1;
    }
    proof {
        lemma_first_index_of(v@, sep, 0);
        if k < v@.len() {
            assert(v@[k as int] == sep);
            if first_index_of(v@, sep, 0) != k {
                assert(first_index_of(v@, sep, 0) >= 0);
            }
        }
    }
    if k == v.len() {
        let mut r: Vec<Vec<char>> = Vec::new();
        let whole = sub_chars(v, 0, v.len());
        assert(whole@ =~= v@);
        r.push(whole);
        assert(r@.map_values(|p: Vec<char>| p@) =~= seq![v@]);
        return r;
    }
    let head = sub_chars(v, 0, k);
    let rest = sub_chars(v, k + 1, v.len());
    assert(head@ =~= v@.take(k as int));
    assert(rest@ =~= v@.skip(k + 1));
    let tail = split_chars(&rest, sep);
    let mut r: Vec<Vec<char>> = Vec::new();
    r.push(head);
    let mut i: usize = 0;
    while i < tail.len()
        invariant
            i <= tail@.len(),
            r@.len() == i + 1,
            r@[0]@ == v@.take(k as int),
            forall|j: int| 0 <= j < i ==> r@[j + 1]@ == tail@[j]@,
        decreases tail@.len() - i,
    {
        r.push(tail[i].clone());
        i = i + 1;
    }
    assert(r@.map_values(|p: Vec<char>| p@) =~= seq![v@.take(k as int)] + tail@.map_values(
        |p: Vec<char>| p@,
    ));
    r
}

/// The character of a decimal digit.
pub open spec fn digit_char(d: int) -> char {
    if d == 0 {
        '0'
    } else if d == 1 {
        '1'
    } else if d == 2 {
        '2'
    } else if d == 3 {
        '3'
    } else if d == 4 {
        '4'
    } else if d == 5 {
        '5'
    } else if d == 6 {
        '6'
    } else if d == 7 {
        '7'
    } else if d == 8 {
        '8'
    } else {
        '9'
    }
}

/// The decimal digits of `n`.
pub open spec fn decimal(n: nat) -> Seq<char>
    decreases n,
{
    if n < 10 {
        seq![digit_char(n as int)]
    } else {
        decimal(n / 10).push(digit_char((n % 10) as int))
    }
}

/// The character of the decimal digit `d`.
pub fn digit_exec(d: usize) -> (c: char)
    requires
        d < 10,
    ensures
        c == digit_char(d as int),
{
    if d == 0 {
        '0'
    } else if d == 1 {
        '1'
    } else if d == 2 {
        '2'
    } else if d == 3 {
        '3'
    } else if d == 4 {
        '4'
    } else if d == 5 {
        '5'
    } else if d == 6 {
        '6'
    } else if d == 7 {
        '7'
    } else if d == 8 {
        '8'
    } else {
        '9'
    }
}

/// Appends the decimal digits of `n`.
pub fn push_decimal(out: &mut String, n: usize)
    ensures
        final(out)@ == old(out)@ + decimal(n as nat),
    decreases n,
{
    let ghost start = out@;
    if n >= 10 {
        push_decimal(out, n / 10);
    }
    push_char(out, digit_exec(n % 10));
    proof {
        if n >= 10 {
            assert(out@ =~= start + decimal(n as nat));
        } else {
            assert(out@ =~= start + decimal(n as nat));
        }
    }
}


/// The upper-case hexadecimal digit of `d < 16`.
pub open spec fn hex_char(d: int) -> char {
    if d < 10 {
        digit_char(d)
    } else if d == 10 {
        'A'
    } else if d == 11 {
        'B'
    } else if d == 12 {
        'C'
    } else if d == 13 {
        'D'
    } else if d == 14 {
        'E'
    } else {
        'F'
    }
}

/// The upper-case hexadecimal digits of `n`.
pub open spec fn hex(n: nat) -> Seq<char>
    decreases n,
{
    if n < 16 {
        seq![hex_char(n as int)]
    } else {
        hex(n / 16).push(hex_char((n % 16) as int))
    }
}

/// `digits` with zeros in front up to four characters (`{:04}`).
pub open spec fn zero_pad4(digits: Seq<char>) -> Seq<char> {
    if digits.len() >= 4 {
        digits
    } else {
        Seq::new((4 - digits.len()) as nat, |i: int| '0') + digits
    }
}

pub proof fn lemma_hex_len(n: nat)
    ensures
        n < 16 ==> hex(n).len() == 1,
        16 <= n < 256 ==> hex(n).len() == 2,
        256 <= n < 4096 ==> hex(n).len() == 3,
        n >= 4096 ==> hex(n).len() >= 4,
    decreases n,
{
    if n >= 16 {
        lemma_hex_len(n / 16);
    }
}

fn hex_exec(d: u32) -> (c: char)
    requires
        d < 16,
    ensures
        c == hex_char(d as int),
{
    if d < 10 {
        digit_exec(d as usize)
    } else if d == 10 {
        'A'
    } else if d == 11 {
        'B'
    } else if d == 12 {
        'C'
    } else if d == 13 {
        'D'
    } else if d == 14 {
        'E'
    } else {
        'F'
    }
}

fn push_hex(out: &mut String, n: u32)
    ensures
        final(out)@ == old(out)@ + hex(n as nat),
    decreases n,
{
    let ghost start = out@;
    if n >= 16 {
        push_hex(out, n / 16);
    }
    push_char(out, hex_exec(n % 16));
    proof {
        assert(out@ =~= start + hex(n as nat));
    }
}

/// Appends `n` in upper-case hexadecimal, at least four digits (`{:04X}`).
pub fn push_hex4(out: &mut String, n: u32)
    ensures
        final(out)@ == old(out)@ + zero_pad4(hex(n as nat)),
{
    proof {
        lemma_hex_len(n as nat);
    }
    let ghost start = out@;
    if n < 16 {
        push_char(out, '0');
        push_char(out, '0');
        push_char(out, '0');
        proof {
            assert(out@ =~= start + Seq::new(3, |i: int| '0'));
        }
    } else if n < 256 {
        push_char(out, '0');
        push_char(out, '0');
        proof {
            assert(out@ =~= start + Seq::new(2, |i: int| '0'));
        }
    } else if n < 4096 {
        push_char(out, '0');
        proof {
            assert(out@ =~= start + Seq::new(1, |i: int| '0'));
        }
    }
    let ghost mid = out@;
    push_hex(out, n);
    proof {
        assert(out@ =~= start + zero_pad4(hex(n as nat)));
    }
}

} // verus!
