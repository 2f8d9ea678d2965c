//! Character-level text operations on which the header logic is built.
//!
//! Strings are handled as sequences of `char`. Where the FITS logic measures
//! a string in bytes (a card is 80 bytes), the byte length is the UTF-8 width
//! of the characters, `text_width`.
use vstd::prelude::*;

verus! {

// ---------------------------------------------------------------------------
// Character classes
// ---------------------------------------------------------------------------

pub open spec fn is_ascii_char(c: char) -> bool {
    (c as u32) < 128
}

pub open spec fn all_ascii(s: Seq<char>) -> bool {
    forall|i: int| 0 <= i < s.len() ==> is_ascii_char(#[trigger] s[i])
}

/// The Unicode `White_Space` property (PropList.txt), which is what
/// `char::is_whitespace`, `str::trim` and `str::split_whitespace` test.
pub open spec fn white_space(c: char) -> bool {
    let u = c as u32;
    ||| 0x9 <= u <= 0xD
    ||| u == 0x20
    ||| u == 0x85
    ||| u == 0xA0
    ||| u == 0x1680
    ||| 0x2000 <= u <= 0x200A
    ||| u == 0x2028
    ||| u == 0x2029
    ||| u == 0x202F
    ||| u == 0x205F
    ||| u == 0x3000
}

pub fn is_white(c: char) -> (r: bool)
    ensures
        r == white_space(c),
{
    let u = c as u32;
    (0x9 <= u && u <= 0xD) || u == 0x20 || u == 0x85 || u == 0xA0 || u == 0x1680 || (0x2000
        <= u && u <= 0x200A) || u == 0x2028 || u == 0x2029 || u == 0x202F || u == 0x205F || u
        == 0x3000
}

pub open spec fn is_digit(c: char) -> bool {
    '0' <= c && c <= '9'
}

pub open spec fn digit_value(c: char) -> nat {
    ((c as u32) - ('0' as u32)) as nat
}

pub open spec fn digit_char(d: nat) -> char {
    ((d + 48) as u8) as char
}

/// ASCII upper-casing of one character; other characters are unchanged.
pub open spec fn ascii_upper(c: char) -> char {
    if 'a' <= c && c <= 'z' {
        (((c as u32) - 32) as u32) as char
    } else {
        c
    }
}

/// ASCII lower-casing of one character; other characters are unchanged.
pub open spec fn ascii_lower(c: char) -> char {
    if 'A' <= c && c <= 'Z' {
        (((c as u32) + 32) as u32) as char
    } else {
        c
    }
}

pub open spec fn ascii_upper_text(s: Seq<char>) -> Seq<char> {
    Seq::new(s.len(), |i: int| ascii_upper(s[i]))
}

pub open spec fn ascii_lower_text(s: Seq<char>) -> Seq<char> {
    Seq::new(s.len(), |i: int| ascii_lower(s[i]))
}

pub fn upper_char(c: char) -> (r: char)
    ensures
        r == ascii_upper(c),
{
    if 'a' <= c && c <= 'z' {
        let u: u32 = (c as u32) - 32;
        char_from_ascii(u as u8)
    } else {
        c
    }
}

pub fn lower_char(c: char) -> (r: char)
    ensures
        r == ascii_lower(c),
{
    if 'A' <= c && c <= 'Z' {
        let u: u32 = (c as u32) + 32;
        char_from_ascii(u as u8)
    } else {
        c
    }
}

/// The character whose code is the byte `b`.
pub fn char_from_ascii(b: u8) -> (c: char)
    ensures
        c == (b as char),
        c as u32 == b as u32,
{
    b as char
}

// ---------------------------------------------------------------------------
// Building strings
// ---------------------------------------------------------------------------

/// Collects the characters of a string slice.
pub fn chars_of(s: &str) -> (v: Vec<char>)
    ensures
        v@ == s@,
{
    let mut v: Vec<char> = Vec::new();
    for c in it: s.chars()
        invariant
            v@ == it.seq().take(it.index() as int),
            it.seq() == s@,
    {
        v.push(c);
    }
    v
}

/// `String::push`: appends one character.
#[verifier::external_body]
fn push_char(s: &mut String, c: char)
    ensures
        final(s)@ == old(s)@.push(c),
{
    s.push(c)
}

/// Builds a `String` holding the given characters.
pub fn string_of(v: &[char]) -> (s: String)
    ensures
        s@ == v@,
{
    let mut s = String::new();
    let mut i: usize = 0;
    while i < v.len()
        invariant
            0 <= i <= v.len(),
            s@ == v@.take(i as int),
        decreases v.len() - i,
    {
        push_char(&mut s, v[i]);
        i = i + 1;
        assert(s@ =~= v@.take(i as int));
    }
    assert(v@.take(v.len() as int) =~= v@);
    s
}

/// Copies `s[lo..hi]`.
pub fn copy_range(s: &[char], lo: usize, hi: usize) -> (r: Vec<char>)
    requires
        lo <= hi <= s.len(),
    ensures
        r@ == s@.subrange(lo as int, hi as int),
{
    let mut r: Vec<char> = Vec::new();
    let mut i = lo;
    while i < hi
        invariant
            lo <= i <= hi <= s.len(),
            r@ == s@.subrange(lo as int, i as int),
        decreases hi - i,
    {
        r.push(s[i]);
        i = i + 1;
        assert(r@ =~= s@.subrange(lo as int, i as int));
    }
    r
}

/// Appends all of `t` to `v`.
pub fn append_chars(v: &mut Vec<char>, t: &[char])
    ensures
        final(v)@ == old(v)@ + t@,
{
    let mut i: usize = 0;
    while i < t.len()
        invariant
            0 <= i <= t.len(),
            v@ == old(v)@ + t@.take(i as int),
        decreases t.len() - i,
    {
        v.push(t[i]);
        i = i + 1;
        assert(v@ =~= old(v)@ + t@.take(i as int));
    }
    assert(t@.take(t.len() as int) =~= t@);
}

/// Upper-cases ASCII letters in place of `str::to_ascii_uppercase`.
pub fn ascii_upper_chars(s: &[char]) -> (r: Vec<char>)
    ensures
        r@ == ascii_upper_text(s@),
{
    let mut r: Vec<char> = Vec::new();
    let mut i: usize = 0;
    while i < s.len()
        invariant
            0 <= i <= s.len(),
            r@ == ascii_upper_text(s@.take(i as int)),
        decreases s.len() - i,
    {
        r.push(upper_char(s[i]));
        i = i + 1;
        assert(r@ =~= ascii_upper_text(s@.take(i as int)));
    }
    assert(s@.take(s.len() as int) =~= s@);
    r
}

// ---------------------------------------------------------------------------
// Upper-casing (`str::to_uppercase`)
// ---------------------------------------------------------------------------

/// What `str::to_uppercase` returns for a string.
pub uninterp spec fn unicode_upper(s: Seq<char>) -> Seq<char>;

/// `str::to_uppercase`. Its result is a function of the string alone,
/// named `unicode_upper`; each character maps to one or more characters
/// (`char::to_uppercase`), so non-empty text stays non-empty. Nothing more
/// is claimed of it here.
#[verifier::external_body]
fn str_to_uppercase(s: &str) -> (r: String)
    ensures
        r@ == unicode_upper(s@),
        s@.len() > 0 ==> r@.len() > 0,
{
    s.to_uppercase()
}

/// What `to_uppercase` gives: the ASCII case mapping on ASCII text (where the
/// Unicode mapping is that one), otherwise the full Unicode mapping.
pub open spec fn upper_text(s: Seq<char>) -> Seq<char> {
    if all_ascii(s) {
        ascii_upper_text(s)
    } else {
        unicode_upper(s)
    }
}

pub fn is_all_ascii(s: &[char]) -> (r: bool)
    ensures
        r == all_ascii(s@),
{
    let mut i: usize = 0;
    while i < s.len()
        invariant
            0 <= i <= s.len(),
            forall|j: int| 0 <= j < i ==> is_ascii_char(#[trigger] s@[j]),
        decreases s.len() - i,
    {
        if (s[i] as u32) >= 128 {
            return false;
        }
        i = i + 1;
    }
    true
}

pub fn upper_chars(s: &[char]) -> (r: Vec<char>)
    ensures
        r@ == upper_text(s@),
        r@.len() == 0 <==> s@.len() == 0,
{
    if is_all_ascii(s) {
        ascii_upper_chars(s)
    } else {
        let st = string_of(s);
        let u = str_to_uppercase(st.as_str());
        chars_of(u.as_str())
    }
}

// ---------------------------------------------------------------------------
// Decoding bytes (`String::from_utf8_lossy`)
// ---------------------------------------------------------------------------

/// What `String::from_utf8_lossy` returns for a byte sequence.
pub uninterp spec fn unicode_lossy(b: Seq<u8>) -> Seq<char>;

/// `String::from_utf8_lossy`. Its result is a function of the bytes alone,
/// named `unicode_lossy`; on valid UTF-8 it is the text the bytes encode
/// (how invalid sequences are replaced is not stated here).
#[verifier::external_body]
fn utf8_lossy(b: &[u8]) -> (r: String)
    ensures
        r@ == unicode_lossy(b@),
        vstd::utf8::valid_utf8(b@) ==> r@ == vstd::utf8::decode_utf8(b@),
{
    String::from_utf8_lossy(b).to_string()
}

pub open spec fn ascii_bytes(b: Seq<u8>) -> bool {
    forall|i: int| 0 <= i < b.len() ==> #[trigger] b[i] < 128
}

pub open spec fn bytes_as_chars(b: Seq<u8>) -> Seq<char> {
    Seq::new(b.len(), |i: int| b[i] as char)
}

/// The text of a byte sequence as `from_utf8_lossy` decodes it: ASCII bytes
/// are the characters with the same codes.
pub open spec fn decode_text(b: Seq<u8>) -> Seq<char> {
    if ascii_bytes(b) {
        bytes_as_chars(b)
    } else {
        unicode_lossy(b)
    }
}

pub fn decode_bytes(b: &[u8]) -> (r: Vec<char>)
    ensures
        r@ == decode_text(b@),
{
    let mut i: usize = 0;
    while i < b.len()
        invariant
            0 <= i <= b.len(),
            forall|j: int| 0 <= j < i ==> #[trigger] b@[j] < 128,
        decreases b.len() - i,
    {
        if b[i] >= 128 {
            let s = utf8_lossy(b);
            return chars_of(s.as_str());
        }
        i = i + 1;
    }
    let mut r: Vec<char> = Vec::new();
    let mut k: usize = 0;
    while k < b.len()
        invariant
            0 <= k <= b.len(),
            r@ == bytes_as_chars(b@.take(k as int)),
        decreases b.len() - k,
    {
        r.push(char_from_ascii(b[k]));
        k = k + 1;
        assert(r@ =~= bytes_as_chars(b@.take(k as int)));
    }
    assert(b@.take(b.len() as int) =~= b@);
    r
}

// ---------------------------------------------------------------------------
// Trimming
// ---------------------------------------------------------------------------

pub open spec fn trim_start_text(s: Seq<char>) -> Seq<char>
    decreases s.len(),
{
    if s.len() > 0 && white_space(s[0]) {
        trim_start_text(s.drop_first())
    } else {
        s
    }
}

pub open spec fn trim_end_text(s: Seq<char>) -> Seq<char>
    decreases s.len(),
{
    if s.len() > 0 && white_space(s.last()) {
        trim_end_text(s.drop_last())
    } else {
        s
    }
}

/// `str::trim`: leading and trailing white space removed.
pub open spec fn trim_text(s: Seq<char>) -> Seq<char> {
    trim_end_text(trim_start_text(s))
}

/// The first index of `s` at or after `a` that is not white space, or the end.
pub fn skip_white(s: &[char], a: usize) -> (r: usize)
    requires
        a <= s.len(),
    ensures
        a <= r <= s.len(),
        trim_start_text(s@.subrange(a as int, s.len() as int)) == s@.subrange(
            r as int,
            s.len() as int,
        ),
{
    let mut i = a;
    while i < s.len() && is_white(s[i])
        invariant
            a <= i <= s.len(),
            trim_start_text(s@.subrange(a as int, s.len() as int)) == trim_start_text(
                s@.subrange(i as int, s.len() as int),
            ),
        decreases s.len() - i,
    {
        assert(s@.subrange(i as int, s.len() as int).drop_first() =~= s@.subrange(
            i + 1,
            s.len() as int,
        ));
        i = i + 1;
    }
    i
}

/// The end of `s[a..b]` once trailing white space is removed.
pub fn back_white(s: &[char], a: usize, b: usize) -> (r: usize)
    requires
        a <= b <= s.len(),
    ensures
        a <= r <= b,
        trim_end_text(s@.subrange(a as int, b as int)) == s@.subrange(a as int, r as int),
{
    let mut j = b;
    while j > a && is_white(s[j - 1])
        invariant
            a <= j <= b <= s.len(),
            trim_end_text(s@.subrange(a as int, b as int)) == trim_end_text(
                s@.subrange(a as int, j as int),
            ),
        decreases j - a,
    {
        assert(s@.subrange(a as int, j as int).drop_last() =~= s@.subrange(a as int, j - 1));
        j = j - 1;
    }
    j
}

/// `s[lo..hi].trim()` as bounds into `s`.
pub fn trim_bounds(s: &[char], lo: usize, hi: usize) -> (r: (usize, usize))
    requires
        lo <= hi <= s.len(),
    ensures
        lo <= r.0 <= r.1 <= hi,
        s@.subrange(r.0 as int, r.1 as int) == trim_text(s@.subrange(lo as int, hi as int)),
{
    let sub = copy_range(s, lo, hi);
    let a = skip_white(sub.as_slice(), 0);
    let b = back_white(sub.as_slice(), a, sub.len());
    assert(sub@.subrange(0, sub@.len() as int) =~= sub@);
    assert(sub@.subrange(a as int, b as int) =~= s@.subrange(lo + a, lo + b));
    assert(sub@.subrange(a as int, sub@.len() as int) =~= s@.subrange(lo + a, hi as int));
    (lo + a, lo + b)
}

pub fn trim_chars(s: &[char]) -> (r: Vec<char>)
    ensures
        r@ == trim_text(s@),
{
    let (a, b) = trim_bounds(s, 0, s.len());
    assert(s@.subrange(0, s@.len() as int) =~= s@);
    copy_range(s, a, b)
}

pub fn trim_end_chars(s: &[char]) -> (r: Vec<char>)
    ensures
        r@ == trim_end_text(s@),
{
    let b = back_white(s, 0, s.len());
    assert(s@.subrange(0, s@.len() as int) =~= s@);
    copy_range(s, 0, b)
}

// ---------------------------------------------------------------------------
// Comparisons and searches
// ---------------------------------------------------------------------------

pub open spec fn starts_with(s: Seq<char>, p: Seq<char>) -> bool {
    p.len() <= s.len() && s.take(p.len() as int) == p
}

pub open spec fn ends_with(s: Seq<char>, p: Seq<char>) -> bool {
    p.len() <= s.len() && s.skip(s.len() - p.len()) == p
}

pub open spec fn contains_text(s: Seq<char>, p: Seq<char>) -> bool {
    exists|i: int| 0 <= i && i + p.len() <= s.len() && #[trigger] s.subrange(i, i + p.len()) == p
}

pub fn same_chars(a: &[char], b: &[char]) -> (r: bool)
    ensures
        r == (a@ == b@),
{
    if a.len() != b.len() {
        return false;
    }
    let mut i: usize = 0;
    while i < a.len()
        invariant
            0 <= i <= a.len(),
            a.len() == b.len(),
            forall|j: int| 0 <= j < i ==> a@[j] == b@[j],
        decreases a.len() - i,
    {
        if a[i] != b[i] {
            return false;
        }
        i = i + 1;
    }
    assert(a@ =~= b@);
    true
}

/// Whether `s[at..]` begins with `p`.
pub fn matches_at(s: &[char], at: usize, p: &[char]) -> (r: bool)
    requires
        at <= s.len(),
    ensures
        r == (at + p.len() <= s.len() && s@.subrange(at as int, at + p.len()) == p@),
{
    if p.len() > s.len() - at {
        return false;
    }
    let mut i: usize = 0;
    while i < p.len()
        invariant
            0 <= i <= p.len(),
            at + p.len() <= s.len(),
            forall|j: int| 0 <= j < i ==> s@[at + j] == p@[j],
        decreases p.len() - i,
    {
        if s[at + i] != p[i] {
            assert(s@.subrange(at as int, at + p.len())[i as int] != p@[i as int]);
            return false;
        }
        i = i + 1;
    }
    assert(s@.subrange(at as int, at + p.len()) =~= p@);
    true
}

pub fn starts_with_chars(s: &[char], p: &[char]) -> (r: bool)
    ensures
        r == starts_with(s@, p@),
{
    let r = matches_at(s, 0, p);
    assert(s@.take(p@.len() as int) =~= s@.subrange(0, p@.len() as int));
    r
}

pub fn contains_chars(s: &[char], p: &[char]) -> (r: bool)
    ensures
        r == contains_text(s@, p@),
{
    if p.len() > s.len() {
        return false;
    }
    let last = s.len() - p.len();
    let mut i: usize = 0;
    while i < last
        invariant
            0 <= i <= last,
            last == s.len() - p.len(),
            forall|j: int| 0 <= j < i ==> #[trigger] s@.subrange(j, j + p.len()) != p@,
        decreases last - i,
    {
        if matches_at(s, i, p) {
            return true;
        }
        i = i + 1;
    }
    matches_at(s, last, p)
}

/// `str::eq_ignore_ascii_case`.
pub open spec fn eq_ignore_case(a: Seq<char>, b: Seq<char>) -> bool {
    ascii_lower_text(a) == ascii_lower_text(b)
}

pub fn eq_ignore_case_chars(a: &[char], b: &[char]) -> (r: bool)
    ensures
        r == eq_ignore_case(a@, b@),
{
    if a.len() != b.len() {
        assert(ascii_lower_text(a@).len() != ascii_lower_text(b@).len());
        return false;
    }
    let mut i: usize = 0;
    while i < a.len()
        invariant
            0 <= i <= a.len(),
            a.len() == b.len(),
            forall|j: int| 0 <= j < i ==> ascii_lower(a@[j]) == ascii_lower(b@[j]),
        decreases a.len() - i,
    {
        if lower_char(a[i]) != lower_char(b[i]) {
            assert(ascii_lower_text(a@)[i as int] != ascii_lower_text(b@)[i as int]);
            return false;
        }
        i = i + 1;
    }
    assert(ascii_lower_text(a@) =~= ascii_lower_text(b@));
    true
}

// ---------------------------------------------------------------------------
// UTF-8 widths: the byte view of a string
// ---------------------------------------------------------------------------

pub open spec fn char_width(c: char) -> nat {
    let u = c as u32;
    if u < 0x80 {
        1
    } else if u < 0x800 {
        2
    } else if u < 0x10000 {
        3
    } else {
        4
    }
}

/// The UTF-8 length in bytes (`str::len`).
pub open spec fn text_width(s: Seq<char>) -> nat
    decreases s.len(),
{
    if s.len() == 0 {
        0
    } else {
        char_width(s[0]) + text_width(s.drop_first())
    }
}

/// The number of characters that make up the first `n` bytes of `s`, when
/// byte `n` is a character boundary (what `str::get(..n)` accepts).
pub open spec fn chars_in_bytes(s: Seq<char>, n: int) -> Option<int>
    decreases s.len(),
{
    if n == 0 {
        Some(0)
    } else if n < 0 || s.len() == 0 {
        None
    } else {
        match chars_in_bytes(s.drop_first(), n - char_width(s[0])) {
            Some(k) => Some(k + 1),
            None => None,
        }
    }
}

pub proof fn lemma_chars_in_bytes_bound(s: Seq<char>, n: int)
    ensures
        chars_in_bytes(s, n) matches Some(k) ==> 0 <= k <= s.len() && text_width(s.take(k)) == n,
    decreases s.len(),
{
    if n != 0 && n >= 0 && s.len() > 0 {
        lemma_chars_in_bytes_bound(s.drop_first(), n - char_width(s[0]));
        if let Some(k) = chars_in_bytes(s, n) {
            assert(s.take(k).drop_first() =~= s.drop_first().take(k - 1));
        }
    }
    if n == 0 {
        assert(s.take(0) =~= Seq::<char>::empty());
    }
}

pub fn width_of(c: char) -> (w: usize)
    ensures
        w == char_width(c),
{
    let u = c as u32;
    if u < 0x80 {
        1
    } else if u < 0x800 {
        2
    } else if u < 0x10000 {
        3
    } else {
        4
    }
}

pub open spec fn shift_index(o: Option<int>, by: int) -> Option<int> {
    match o {
        Some(k) => Some(k + by),
        None => None,
    }
}

/// The character index at byte offset `n`, if `n` is a character boundary.
pub fn char_index_at_byte(s: &[char], n: usize) -> (r: Option<usize>)
    ensures
        match r {
            Some(k) => chars_in_bytes(s@, n as int) == Some(k as int) && k <= s.len(),
            None => chars_in_bytes(s@, n as int) is None,
        },
{
    proof {
        lemma_chars_in_bytes_bound(s@, n as int);
    }
    let mut i: usize = 0;
    let mut m: usize = n;
    assert(s@.skip(0) =~= s@);
    while m > 0 && i < s.len()
        invariant
            0 <= i <= s.len(),
            m <= n,
            chars_in_bytes(s@, n as int) == shift_index(
                chars_in_bytes(s@.skip(i as int), m as int),
                i as int,
            ),
        decreases s.len() - i,
    {
        let w = width_of(s[i]);
        assert(s@.skip(i as int).drop_first() =~= s@.skip(i + 1));
        if w > m {
            assert(chars_in_bytes(s@.skip(i + 1), m - w) is None);
            return None;
        }
        m = m - w;
        i = i + 1;
    }
    if m == 0 {
        Some(i)
    } else {
        None
    }
}

/// `s.len()` for a `str`: its UTF-8 length.
pub fn width_of_text(s: &[char]) -> (w: usize)
    requires
        s.len() <= usize::MAX / 4,
    ensures
        w == text_width(s@),
{
    let mut i = s.len();
    let mut w: usize = 0;
    assert(s@.skip(s.len() as int) =~= Seq::<char>::empty());
    while i > 0
        invariant
            0 <= i <= s.len() <= usize::MAX / 4,
            w == text_width(s@.skip(i as int)),
            w <= 4 * (s.len() - i),
        decreases i,
    {
        assert(s@.skip(i - 1).drop_first() =~= s@.skip(i as int));
        w = w + width_of(s[i - 1]);
        i = i - 1;
    }
    assert(s@.skip(0) =~= s@);
    w
}

// ---------------------------------------------------------------------------
// Padding (`format!("{:<w}")`)
// ---------------------------------------------------------------------------

pub open spec fn spaces(n: nat) -> Seq<char> {
    Seq::new(n, |_i: int| ' ')
}

/// Left-aligned in a field of `w` characters.
pub open spec fn pad_right(s: Seq<char>, w: nat) -> Seq<char> {
    if s.len() >= w {
        s
    } else {
        s + spaces((w - s.len()) as nat)
    }
}

pub fn pad_chars(v: &mut Vec<char>, w: usize)
    ensures
        final(v)@ == pad_right(old(v)@, w as nat),
{
    let ghost start = v@;
    if v.len() >= w {
        return;
    }
    while v.len() < w
        invariant
            start.len() < w,
            v@.len() <= w,
            start.len() <= v@.len(),
            v@ == start + spaces((v@.len() - start.len()) as nat),
        decreases w - v.len(),
    {
        v.push(' ');
        assert(v@ =~= start + spaces((v@.len() - start.len()) as nat));
    }
}

} // verus!

verus! {

// ---------------------------------------------------------------------------
// Facts about ASCII text
// ---------------------------------------------------------------------------

pub proof fn lemma_ascii_width(s: Seq<char>)
    requires
        all_ascii(s),
    ensures
        text_width(s) == s.len(),
    decreases s.len(),
{
    if s.len() > 0 {
        assert(is_ascii_char(s[0]));
        lemma_ascii_width(s.drop_first());
    }
}

pub proof fn lemma_ascii_chars_in_bytes(s: Seq<char>, n: int)
    requires
        all_ascii(s),
        0 <= n <= s.len(),
    ensures
        chars_in_bytes(s, n) == Some(n),
    decreases s.len(),
{
    if n > 0 {
        assert(is_ascii_char(s[0]));
        lemma_ascii_chars_in_bytes(s.drop_first(), n - 1);
    }
}

pub proof fn lemma_trim_end_spaces(a: Seq<char>, n: nat)
    ensures
        trim_end_text(a + spaces(n)) == trim_end_text(a),
    decreases n,
{
    if n > 0 {
        assert((a + spaces(n)).drop_last() =~= a + spaces((n - 1) as nat));
        lemma_trim_end_spaces(a, (n - 1) as nat);
    } else {
        assert(a + spaces(n) =~= a);
    }
}

pub proof fn lemma_trim_start_spaces(a: Seq<char>, n: nat)
    ensures
        trim_start_text(spaces(n) + a) == trim_start_text(a),
    decreases n,
{
    if n > 0 {
        assert((spaces(n) + a).drop_first() =~= spaces((n - 1) as nat) + a);
        lemma_trim_start_spaces(a, (n - 1) as nat);
    } else {
        assert(spaces(n) + a =~= a);
    }
}

/// Text with no white space at either end is its own trim.
pub open spec fn trimmed(s: Seq<char>) -> bool {
    s.len() > 0 ==> !white_space(s[0]) && !white_space(s.last())
}

pub proof fn lemma_trimmed_trim(s: Seq<char>)
    requires
        trimmed(s),
    ensures
        trim_text(s) == s,
{
}

pub proof fn lemma_trim_padded(s: Seq<char>, w: nat)
    requires
        trimmed(s),
    ensures
        trim_text(pad_right(s, w)) == s,
{
    if s.len() < w {
        let n = (w - s.len()) as nat;
        if s.len() > 0 {
            assert((s + spaces(n))[0] == s[0]);
            lemma_trim_end_spaces(s, n);
        } else {
            assert(s + spaces(n) =~= spaces(n) + s);
            lemma_trim_start_spaces(s, n);
            assert(trim_start_text(s + spaces(n)) == s);
        }
    }
}

pub proof fn lemma_trim_start_is_suffix(s: Seq<char>)
    ensures
        exists|a: int| 0 <= a <= s.len() && trim_start_text(s) == s.skip(a),
    decreases s.len(),
{
    if s.len() > 0 && white_space(s[0]) {
        lemma_trim_start_is_suffix(s.drop_first());
        let a = choose|a: int|
            0 <= a <= s.drop_first().len() && trim_start_text(s.drop_first())
                == s.drop_first().skip(a);
        assert(s.drop_first().skip(a) =~= s.skip(a + 1));
    } else {
        assert(s.skip(0) =~= s);
    }
}

pub proof fn lemma_trim_end_is_prefix(s: Seq<char>)
    ensures
        exists|b: int| 0 <= b <= s.len() && trim_end_text(s) == s.take(b),
    decreases s.len(),
{
    if s.len() > 0 && white_space(s.last()) {
        lemma_trim_end_is_prefix(s.drop_last());
        let b = choose|b: int|
            0 <= b <= s.drop_last().len() && trim_end_text(s.drop_last()) == s.drop_last().take(
                b,
            );
        assert(s.drop_last().take(b) =~= s.take(b));
    } else {
        assert(s.take(s.len() as int) =~= s);
    }
}

pub proof fn lemma_trim_ascii(s: Seq<char>)
    requires
        all_ascii(s),
    ensures
        all_ascii(trim_text(s)),
{
    lemma_trim_start_is_suffix(s);
    let a = choose|a: int| 0 <= a <= s.len() && trim_start_text(s) == s.skip(a);
    let t = s.skip(a);
    assert(all_ascii(t)) by {
        assert forall|i: int| 0 <= i < t.len() implies is_ascii_char(#[trigger] t[i]) by {
            assert(t[i] == s[i + a]);
        }
    }
    lemma_trim_end_is_prefix(t);
    let b = choose|b: int| 0 <= b <= t.len() && trim_end_text(t) == t.take(b);
    assert forall|i: int| 0 <= i < t.take(b).len() implies is_ascii_char(
        #[trigger] t.take(b)[i],
    ) by {
        assert(t.take(b)[i] == t[i]);
    }
}

pub proof fn lemma_ascii_upper_ascii(s: Seq<char>)
    requires
        all_ascii(s),
    ensures
        all_ascii(ascii_upper_text(s)),
        ascii_upper_text(ascii_upper_text(s)) == ascii_upper_text(s),
        upper_text(s) == ascii_upper_text(s),
        upper_text(ascii_upper_text(s)) == ascii_upper_text(s),
        trimmed(s) ==> trimmed(ascii_upper_text(s)),
{
    let u = ascii_upper_text(s);
    assert forall|i: int| 0 <= i < u.len() implies is_ascii_char(#[trigger] u[i]) by {
        assert(is_ascii_char(s[i]));
    }
    assert(ascii_upper_text(u) =~= u);
    if s.len() > 0 {
        assert(is_ascii_char(s[0]));
        assert(is_ascii_char(s.last()));
        assert(u.last() == ascii_upper(s.last()));
    }
}

} // verus!

verus! {

pub proof fn lemma_trim_start_trimmed(s: Seq<char>)
    ensures
        trim_start_text(s).len() > 0 ==> !white_space(trim_start_text(s)[0]),
    decreases s.len(),
{
    if s.len() > 0 && white_space(s[0]) {
        lemma_trim_start_trimmed(s.drop_first());
    }
}

pub proof fn lemma_trim_end_keeps_start(s: Seq<char>)
    ensures
        trim_end_text(s).len() > 0 ==> trim_end_text(s)[0] == s[0] && !white_space(
            trim_end_text(s).last(),
        ),
    decreases s.len(),
{
    if s.len() > 0 && white_space(s.last()) {
        lemma_trim_end_keeps_start(s.drop_last());
    }
}

/// `trim` leaves no white space at either end.
pub proof fn lemma_trim_is_trimmed(s: Seq<char>)
    ensures
        trimmed(trim_text(s)),
{
    lemma_trim_start_trimmed(s);
    lemma_trim_end_keeps_start(trim_start_text(s));
}

} // verus!
