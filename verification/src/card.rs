//! Header cards: the 80-byte keyword records of a FITS header.
use vstd::prelude::*;
use crate::numbers::{float_literal, is_float_literal};
use crate::text::{
    all_ascii, append_chars, chars_in_bytes, chars_of, copy_range, eq_ignore_case,
    eq_ignore_case_chars, char_index_at_byte, pad_chars, pad_right, same_chars, starts_with,
    starts_with_chars, string_of, text_width, trim_bounds, trim_chars, trim_text, upper_chars,
    upper_text, char_width, spaces, is_ascii_char, lemma_ascii_width,
};

verus! {

/// One header card: keyword, value and comment as read or as entered, and
/// the card text.
#[derive(Clone, Debug, PartialEq)]
pub struct HeaderCard {
    pub keyword: String,
    pub value: String,
    pub comment: String,
    pub raw: String,
}

/// The width of a card in bytes.
pub const CARD_WIDTH: usize = 80;

pub open spec fn word_end() -> Seq<char> {
    seq!['E', 'N', 'D']
}

pub open spec fn word_comment() -> Seq<char> {
    seq!['C', 'O', 'M', 'M', 'E', 'N', 'T']
}

pub open spec fn word_history() -> Seq<char> {
    seq!['H', 'I', 'S', 'T', 'O', 'R', 'Y']
}

pub open spec fn word_hierarch() -> Seq<char> {
    seq!['H', 'I', 'E', 'R', 'A', 'R', 'C', 'H']
}

/// "HIERARCH " with its trailing space: the prefix of a long keyword.
pub open spec fn hierarch_prefix() -> Seq<char> {
    word_hierarch().push(' ')
}

pub open spec fn is_commentary(kw: Seq<char>) -> bool {
    kw == word_comment() || kw == word_history()
}

/// The longest prefix of `s` that takes at most `n` bytes in UTF-8: `s`
/// cut at the last character boundary at or before byte `n`.
pub open spec fn fit_prefix(s: Seq<char>, n: int) -> Seq<char>
    decreases s.len(),
{
    if s.len() == 0 || char_width(s[0]) > n {
        Seq::empty()
    } else {
        seq![s[0]] + fit_prefix(s.drop_first(), n - char_width(s[0]))
    }
}

/// Card text cut to at most 80 bytes, at a character boundary.
pub open spec fn cut_to_card(s: Seq<char>) -> Seq<char> {
    fit_prefix(s, 80)
}

/// Card text padded with blanks to 80 bytes.
pub open spec fn pad_card(s: Seq<char>) -> Seq<char> {
    if text_width(s) >= 80 {
        s
    } else {
        s + spaces((80 - text_width(s)) as nat)
    }
}

pub proof fn lemma_width_concat(a: Seq<char>, b: Seq<char>)
    ensures
        text_width(a + b) == text_width(a) + text_width(b),
    decreases a.len(),
{
    if a.len() > 0 {
        assert((a + b).drop_first() =~= a.drop_first() + b);
        assert((a + b)[0] == a[0]);
        lemma_width_concat(a.drop_first(), b);
    } else {
        assert(a + b =~= b);
    }
}

proof fn lemma_width_one(c: char)
    ensures
        text_width(seq![c]) == char_width(c),
{
    let one = seq![c];
    assert(one.drop_first() =~= Seq::<char>::empty());
    assert(text_width(one.drop_first()) == 0);
    assert(one[0] == c);
}

pub proof fn lemma_len_le_width(s: Seq<char>)
    ensures
        s.len() <= text_width(s),
    decreases s.len(),
{
    if s.len() > 0 {
        lemma_len_le_width(s.drop_first());
    }
}

/// The cut text is a prefix of `s` of at most `n` bytes, and all of `s`
/// when `s` takes no more.
pub proof fn lemma_fit_prefix(s: Seq<char>, n: int)
    requires
        n >= 0,
    ensures
        text_width(fit_prefix(s, n)) <= n,
        fit_prefix(s, n).len() <= s.len(),
        fit_prefix(s, n) == s.take(fit_prefix(s, n).len() as int),
        text_width(s) <= n ==> fit_prefix(s, n) == s,
    decreases s.len(),
{
    let f = fit_prefix(s, n);
    if s.len() == 0 {
        assert(s.take(0) =~= s);
    } else if char_width(s[0]) > n {
        assert(s.take(0) =~= f);
    } else {
        let rest = fit_prefix(s.drop_first(), n - char_width(s[0]));
        lemma_fit_prefix(s.drop_first(), n - char_width(s[0]));
        lemma_width_concat(seq![s[0]], rest);
        lemma_width_one(s[0]);
        assert(f =~= s.take(f.len() as int)) by {
            assert forall|i: int| 0 <= i < f.len() implies #[trigger] f[i] == s.take(f.len() as int)[i] by {
                if i > 0 {
                    assert(f[i] == rest[i - 1]);
                    assert(rest[i - 1] == s.drop_first().take(rest.len() as int)[i - 1]);
                }
            }
        }
        if text_width(s) <= n {
            assert(s =~= seq![s[0]] + s.drop_first());
        }
    }
}

/// Padded card text of at most 80 bytes is exactly 80 bytes.
pub proof fn lemma_pad_card_width(s: Seq<char>)
    requires
        text_width(s) <= 80,
    ensures
        text_width(pad_card(s)) == 80,
{
    if text_width(s) < 80 {
        let sp = spaces((80 - text_width(s)) as nat);
        lemma_width_concat(s, sp);
        assert(all_ascii(sp)) by {
            assert forall|i: int| 0 <= i < sp.len() implies is_ascii_char(#[trigger] sp[i]) by {}
        }
        lemma_ascii_width(sp);
    }
}

/// Every card that `format_card` writes is 80 bytes long in UTF-8.
pub proof fn lemma_card_width(keyword: Seq<char>, value: Seq<char>, comment: Seq<char>)
    ensures
        text_width(formatted_card(keyword, value, comment)) == 80,
{
    let ku = upper_text(trim_text(keyword));
    if ku == word_end() {
        let e = word_end();
        assert(all_ascii(e)) by {
            assert forall|i: int| 0 <= i < e.len() implies is_ascii_char(#[trigger] e[i]) by {}
        }
        lemma_ascii_width(e);
        lemma_pad_card_ascii(e);
        lemma_pad_card_width(e);
    } else if is_commentary(ku) || ku.len() == 0 {
        lemma_fit_prefix(commentary_body(ku, value, comment), 80);
        lemma_pad_card_width(cut_to_card(commentary_body(ku, value, comment)));
    } else {
        lemma_fit_prefix(card_body(ku, value, comment), 80);
        lemma_pad_card_width(cut_to_card(card_body(ku, value, comment)));
    }
}

/// For ASCII text, padding to 80 bytes is padding to 80 characters.
pub proof fn lemma_pad_card_ascii(s: Seq<char>)
    requires
        all_ascii(s),
    ensures
        pad_card(s) == pad_right(s, 80),
{
    lemma_ascii_width(s);
}

/// How a value is written into a card: quoted strings and numbers as they
/// are, logicals in upper case, other text quoted.
pub open spec fn format_value(value: Seq<char>) -> Seq<char> {
    if value.len() > 0 && value[0] == '\'' && value.last() == '\'' {
        value
    } else if eq_ignore_case(value, seq!['T']) || eq_ignore_case(value, seq!['F']) {
        upper_text(value)
    } else if float_literal(value) {
        value
    } else if value.len() > 0 {
        seq!['\''] + value + seq!['\'']
    } else {
        Seq::empty()
    }
}

/// Whether a keyword is written in the long `HIERARCH` form.
pub open spec fn is_hierarch(ku: Seq<char>) -> bool {
    starts_with(ku, hierarch_prefix()) || text_width(ku) > 8
}

pub open spec fn hierarch_keyword(ku: Seq<char>) -> Seq<char> {
    if starts_with(ku, hierarch_prefix()) {
        ku
    } else {
        hierarch_prefix() + ku
    }
}

/// The card text before it is brought to 80 bytes.
pub open spec fn card_body(ku: Seq<char>, value: Seq<char>, comment: Seq<char>) -> Seq<char> {
    let fv = format_value(value);
    if is_hierarch(ku) {
        if comment.len() > 0 {
            hierarch_keyword(ku) + seq![' ', '=', ' '] + fv + seq![' ', '/', ' '] + comment
        } else {
            hierarch_keyword(ku) + seq![' ', '=', ' '] + fv
        }
    } else {
        if comment.len() > 0 {
            pad_right(ku, 8) + seq!['=', ' '] + pad_right(fv, 20) + seq![' ', '/', ' '] + comment
        } else {
            pad_right(ku, 8) + seq!['=', ' '] + fv
        }
    }
}

pub open spec fn commentary_body(ku: Seq<char>, value: Seq<char>, comment: Seq<char>) -> Seq<
    char,
> {
    if comment.len() > 0 {
        ku + seq![' '] + comment
    } else if value.len() > 0 {
        ku + seq![' '] + value
    } else {
        ku
    }
}

/// The card that `HeaderCard::format_card` writes.
pub open spec fn formatted_card(keyword: Seq<char>, value: Seq<char>, comment: Seq<char>) -> Seq<
    char,
> {
    let ku = upper_text(trim_text(keyword));
    if ku == word_end() {
        pad_right(word_end(), 80)
    } else if is_commentary(ku) || ku.len() == 0 {
        pad_card(cut_to_card(commentary_body(ku, value, comment)))
    } else {
        pad_card(cut_to_card(card_body(ku, value, comment)))
    }
}

fn word_vec(which: u8) -> (r: Vec<char>)
    ensures
        which == 0 ==> r@ == word_end(),
        which == 1 ==> r@ == word_comment(),
        which == 2 ==> r@ == word_history(),
        which == 3 ==> r@ == hierarch_prefix(),
        which == 4 ==> r@ == word_hierarch(),
{
    let r = if which == 0 {
        vec!['E', 'N', 'D']
    } else if which == 1 {
        vec!['C', 'O', 'M', 'M', 'E', 'N', 'T']
    } else if which == 2 {
        vec!['H', 'I', 'S', 'T', 'O', 'R', 'Y']
    } else if which == 3 {
        vec!['H', 'I', 'E', 'R', 'A', 'R', 'C', 'H', ' ']
    } else {
        vec!['H', 'I', 'E', 'R', 'A', 'R', 'C', 'H']
    };
    assert(which == 0 ==> r@ =~= word_end());
    assert(which == 1 ==> r@ =~= word_comment());
    assert(which == 2 ==> r@ =~= word_history());
    assert(which == 3 ==> r@ =~= hierarch_prefix());
    assert(which == 4 ==> r@ =~= word_hierarch());
    r
}

/// Whether `s` is at least `n` bytes long in UTF-8.
pub fn width_reaches(s: &[char], n: usize) -> (r: bool)
    requires
        n <= 1024,
    ensures
        r == (text_width(s@) >= n),
{
    let mut i: usize = 0;
    let mut w: usize = 0;
    assert(s@.skip(0) =~= s@);
    while i < s.len() && w < n
        invariant
            0 <= i <= s.len(),
            n <= 1024,
            w <= n + 4,
            text_width(s@) == w + text_width(s@.skip(i as int)),
        decreases s.len() - i,
    {
        assert(s@.skip(i as int).drop_first() =~= s@.skip(i + 1));
        w = w + crate::text::width_of(s[i]);
        i = i + 1;
    }
    if w >= n {
        true
    } else {
        assert(s@.skip(i as int).len() == 0);
        false
    }
}

fn cut_chars(s: &[char]) -> (r: Vec<char>)
    ensures
        r@ == cut_to_card(s@),
        r@.len() <= 80,
        text_width(r@) <= 80,
{
    let mut i: usize = 0;
    let mut used: usize = 0;
    let mut go = true;
    assert(s@.skip(0) =~= s@);
    assert(s@.take(0) + fit_prefix(s@, 80) =~= fit_prefix(s@, 80));
    while go && i < s.len()
        invariant
            0 <= i <= s.len(),
            used <= 80,
            fit_prefix(s@, 80) == s@.take(i as int) + fit_prefix(s@.skip(i as int), 80 - used),
            !go ==> fit_prefix(s@.skip(i as int), 80 - used) == Seq::<char>::empty(),
        decreases s.len() - i + if go {
            1int
        } else {
            0int
        },
    {
        let w = crate::text::width_of(s[i]);
        let ghost rest = s@.skip(i as int);
        assert(rest[0] == s@[i as int]);
        if w > 80 - used {
            go = false;
        } else {
            assert(rest.drop_first() =~= s@.skip(i + 1));
            assert(s@.take(i as int) + (seq![s@[i as int]] + fit_prefix(s@.skip(i + 1), 80 - used - w))
                =~= s@.take(i + 1) + fit_prefix(s@.skip(i + 1), 80 - used - w));
            used = used + w;
            i = i + 1;
        }
    }
    if i == s.len() {
        assert(s@.skip(i as int).len() == 0);
    }
    assert(s@.take(i as int) + Seq::<char>::empty() =~= s@.take(i as int));
    let r = copy_range(s, 0, i);
    assert(r@ =~= s@.take(i as int));
    proof {
        lemma_fit_prefix(s@, 80);
        lemma_len_le_width(r@);
    }
    r
}

/// Pads card text of at most 80 bytes with blanks to 80 bytes.
fn pad_card_chars(v: &mut Vec<char>)
    requires
        old(v)@.len() <= 80,
        text_width(old(v)@) <= 80,
    ensures
        final(v)@ == pad_card(old(v)@),
{
    let w = crate::text::width_of_text(v.as_slice());
    let ghost start = v@;
    let mut k: usize = w;
    assert(start + spaces(0) =~= start);
    while k < 80
        invariant
            w <= k <= 80,
            w == text_width(start),
            v@ == start + spaces((k - w) as nat),
        decreases 80 - k,
    {
        v.push(' ');
        assert(v@ =~= start + spaces((k + 1 - w) as nat));
        k = k + 1;
    }
}

fn format_value_chars(value: &[char]) -> (r: Vec<char>)
    ensures
        r@ == format_value(value@),
{
    let t = vec!['T'];
    let f = vec!['F'];
    assert(t@ =~= seq!['T']);
    assert(f@ =~= seq!['F']);
    if value.len() > 0 && value[0] == '\'' && value[value.len() - 1] == '\'' {
        copy_range(value, 0, value.len())
    } else if eq_ignore_case_chars(value, t.as_slice()) || eq_ignore_case_chars(
        value,
        f.as_slice(),
    ) {
        upper_chars(value)
    } else if is_float_literal(value) {
        copy_range(value, 0, value.len())
    } else if value.len() > 0 {
        let mut r = vec!['\''];
        append_chars(&mut r, value);
        r.push('\'');
        assert(r@ =~= seq!['\''] + value@ + seq!['\'']);
        r
    } else {
        let r: Vec<char> = Vec::new();
        assert(r@ =~= Seq::<char>::empty());
        r
    }
}

fn commentary_chars(ku: &[char], value: &[char], comment: &[char]) -> (r: Vec<char>)
    ensures
        r@ == pad_card(cut_to_card(commentary_body(ku@, value@, comment@))),
{
    let mut body = copy_range(ku, 0, ku.len());
    if comment.len() > 0 {
        body.push(' ');
        append_chars(&mut body, comment);
    } else if value.len() > 0 {
        body.push(' ');
        append_chars(&mut body, value);
    }
    assert(body@ =~= commentary_body(ku@, value@, comment@));
    let mut r = cut_chars(body.as_slice());
    pad_card_chars(&mut r);
    r
}

fn hierarch_body_chars(ku: &[char], fv: &[char], comment: &[char], starts_h: bool) -> (r: Vec<
    char,
>)
    requires
        starts_h == starts_with(ku@, hierarch_prefix()),
    ensures
        r@ == (if comment@.len() > 0 {
            hierarch_keyword(ku@) + seq![' ', '=', ' '] + fv@ + seq![' ', '/', ' '] + comment@
        } else {
            hierarch_keyword(ku@) + seq![' ', '=', ' '] + fv@
        }),
{
    let mut body: Vec<char>;
    if starts_h {
        body = copy_range(ku, 0, ku.len());
    } else {
        let pre = word_vec(3);
        body = copy_range(pre.as_slice(), 0, pre.len());
        append_chars(&mut body, ku);
    }
    assert(body@ =~= hierarch_keyword(ku@));
    body.push(' ');
    body.push('=');
    body.push(' ');
    append_chars(&mut body, fv);
    if comment.len() > 0 {
        body.push(' ');
        body.push('/');
        body.push(' ');
        append_chars(&mut body, comment);
    }
    assert(comment@.len() > 0 ==> body@ =~= hierarch_keyword(ku@) + seq![' ', '=', ' '] + fv@
        + seq![' ', '/', ' '] + comment@);
    assert(comment@.len() == 0 ==> body@ =~= hierarch_keyword(ku@) + seq![' ', '=', ' '] + fv@);
    body
}

fn short_body_chars(ku: &[char], fv: &[char], comment: &[char]) -> (r: Vec<char>)
    ensures
        r@ == (if comment@.len() > 0 {
            pad_right(ku@, 8) + seq!['=', ' '] + pad_right(fv@, 20) + seq![' ', '/', ' ']
                + comment@
        } else {
            pad_right(ku@, 8) + seq!['=', ' '] + fv@
        }),
{
    let mut body = copy_range(ku, 0, ku.len());
    pad_chars(&mut body, 8);
    let ghost kp = body@;
    body.push('=');
    body.push(' ');
    if comment.len() > 0 {
        let mut fvp = copy_range(fv, 0, fv.len());
        pad_chars(&mut fvp, 20);
        append_chars(&mut body, fvp.as_slice());
        body.push(' ');
        body.push('/');
        body.push(' ');
        append_chars(&mut body, comment);
        assert(body@ =~= kp + seq!['=', ' '] + fvp@ + seq![' ', '/', ' '] + comment@);
    } else {
        append_chars(&mut body, fv);
        assert(body@ =~= kp + seq!['=', ' '] + fv@);
    }
    body
}

fn keyword_card_chars(ku: &[char], value: &[char], comment: &[char]) -> (r: Vec<char>)
    ensures
        r@ == pad_card(cut_to_card(card_body(ku@, value@, comment@))),
{
    let pre = word_vec(3);
    let starts_h = starts_with_chars(ku, pre.as_slice());
    let long = width_reaches(ku, 9);
    let fv = format_value_chars(value);
    let mut body = if starts_h || long {
        hierarch_body_chars(ku, fv.as_slice(), comment, starts_h)
    } else {
        short_body_chars(ku, fv.as_slice(), comment)
    };
    assert(body@ == card_body(ku@, value@, comment@));
    let mut r = cut_chars(body.as_slice());
    pad_card_chars(&mut r);
    r
}

/// The card text for keyword, value and comment as characters.
pub fn format_card_chars(keyword: &[char], value: &[char], comment: &[char]) -> (r: Vec<char>)
    ensures
        r@ == formatted_card(keyword@, value@, comment@),
        text_width(r@) == 80,
{
    proof {
        lemma_card_width(keyword@, value@, comment@);
    }
    let tk = trim_chars(keyword);
    let ku = upper_chars(tk.as_slice());
    let end = word_vec(0);
    if same_chars(ku.as_slice(), end.as_slice()) {
        let mut r = end;
        pad_chars(&mut r, CARD_WIDTH);
        return r;
    }
    let com = word_vec(1);
    let his = word_vec(2);
    if same_chars(ku.as_slice(), com.as_slice()) || same_chars(ku.as_slice(), his.as_slice())
        || ku.len() == 0 {
        return commentary_chars(ku.as_slice(), value, comment);
    }
    keyword_card_chars(ku.as_slice(), value, comment)
}

// ---------------------------------------------------------------------------
// Reading cards
// ---------------------------------------------------------------------------

/// The position of the first '/' that is not inside single quotes, at or
/// after `i`, where `inq` says whether `i` lies inside quotes.
pub open spec fn scan_slash(v: Seq<char>, i: int, inq: bool) -> Option<int>
    decreases v.len() - i,
{
    if i < 0 || i >= v.len() {
        None
    } else if v[i] == '\'' {
        scan_slash(v, i + 1, !inq)
    } else if v[i] == '/' && !inq {
        Some(i)
    } else {
        scan_slash(v, i + 1, inq)
    }
}

/// A value without its enclosing quotes (and the blanks inside them).
pub open spec fn unquote(raw: Seq<char>) -> Seq<char> {
    if raw.len() >= 2 && raw[0] == '\'' && raw.last() == '\'' {
        trim_text(raw.subrange(1, raw.len() - 1))
    } else {
        raw
    }
}

/// Value and comment of the text after a card's '=': the comment follows the
/// first '/' outside quotes.
pub open spec fn split_value_comment(v: Seq<char>) -> (Seq<char>, Seq<char>) {
    match scan_slash(v, 0, false) {
        Some(p) => (unquote(trim_text(v.take(p))), trim_text(v.skip(p + 1))),
        None => (unquote(trim_text(v)), Seq::empty()),
    }
}

fn find_slash(v: &[char]) -> (r: Option<usize>)
    ensures
        match r {
            Some(p) => scan_slash(v@, 0, false) == Some(p as int) && p < v.len(),
            None => scan_slash(v@, 0, false) is None,
        },
{
    let mut inq = false;
    let mut i: usize = 0;
    while i < v.len()
        invariant
            0 <= i <= v.len(),
            scan_slash(v@, 0, false) == scan_slash(v@, i as int, inq),
        decreases v.len() - i,
    {
        if v[i] == '\'' {
            inq = !inq;
        } else if v[i] == '/' && !inq {
            return Some(i);
        }
        i = i + 1;
    }
    None
}

pub fn parse_value_and_comment_chars(v: &[char]) -> (r: (Vec<char>, Vec<char>))
    ensures
        (r.0@, r.1@) == split_value_comment(v@),
{
    let found = find_slash(v);
    let val_end = match found {
        Some(p) => p,
        None => v.len(),
    };
    assert(found is None ==> scan_slash(v@, 0, false) is None);
    assert(found matches Some(p) ==> scan_slash(v@, 0, false) == Some(p as int));
    let (a, b) = trim_bounds(v, 0, val_end);
    let raw = copy_range(v, a, b);
    assert(v@.subrange(0, val_end as int) =~= v@.take(val_end as int));
    assert(found is None ==> v@.take(val_end as int) =~= v@);
    let val = if raw.len() >= 2 && raw[0] == '\'' && raw[raw.len() - 1] == '\'' {
        let (c, d) = trim_bounds(raw.as_slice(), 1, raw.len() - 1);
        copy_range(raw.as_slice(), c, d)
    } else {
        raw
    };
    let comment = match found {
        Some(p) => {
            let (c, d) = trim_bounds(v, p + 1, v.len());
            assert(v@.subrange(p + 1, v@.len() as int) =~= v@.skip(p + 1));
            copy_range(v, c, d)
        },
        None => {
            let e: Vec<char> = Vec::new();
            assert(e@ =~= Seq::<char>::empty());
            e
        },
    };
    (val, comment)
}

pub open spec fn first_index_of(s: Seq<char>, c: char, i: int) -> Option<int>
    decreases s.len() - i,
{
    if i < 0 || i >= s.len() {
        None
    } else if s[i] == c {
        Some(i)
    } else {
        first_index_of(s, c, i + 1)
    }
}

/// `s.get(..n)`: the characters of the first `n` bytes, if `n` is a boundary.
pub open spec fn prefix_bytes(s: Seq<char>, n: int) -> Option<Seq<char>> {
    match chars_in_bytes(s, n) {
        Some(k) => Some(s.take(k)),
        None => None,
    }
}

/// `s.get(n..)`: the characters after the first `n` bytes, if `n` is a boundary.
pub open spec fn suffix_bytes(s: Seq<char>, n: int) -> Option<Seq<char>> {
    match chars_in_bytes(s, n) {
        Some(k) => Some(s.skip(k)),
        None => None,
    }
}

/// Whether byte `n` of the UTF-8 form of `s` is the ASCII character `c`.
pub open spec fn byte_at_is(s: Seq<char>, n: int, c: char) -> bool {
    match chars_in_bytes(s, n) {
        Some(k) => k < s.len() && s[k] == c,
        None => false,
    }
}

/// The card for a keyword and the text after its '=' (if any).
pub open spec fn card_from_parts(s: Seq<char>, kw: Seq<char>, vp: Option<Seq<char>>) -> (
    Seq<char>,
    Seq<char>,
    Seq<char>,
) {
    match vp {
        Some(v) if !is_commentary(kw) => {
            let (val, com) = split_value_comment(v);
            (kw, val, com)
        },
        _ => (
            kw,
            Seq::empty(),
            trim_text(
                match suffix_bytes(s, 8) {
                    Some(t) => t,
                    None => s,
                },
            ),
        ),
    }
}

/// Keyword, value and comment read from a card's text, or `None` for a blank
/// card or one without a keyword.
pub open spec fn parsed_card(s: Seq<char>) -> Option<(Seq<char>, Seq<char>, Seq<char>)> {
    if trim_text(s).len() == 0 {
        None
    } else if starts_with(upper_text(s), hierarch_prefix()) {
        match first_index_of(s, '=', 0) {
            Some(e) => Some(
                card_from_parts(s, upper_text(trim_text(s.take(e))), Some(s.skip(e + 1))),
            ),
            None => Some(card_from_parts(s, word_hierarch(), None)),
        }
    } else {
        let head = match prefix_bytes(s, 8) {
            Some(h) => h,
            None => s,
        };
        let kw = upper_text(trim_text(head));
        if kw.len() == 0 {
            None
        } else {
            let vp = if byte_at_is(s, 8, '=') {
                suffix_bytes(s, 10)
            } else {
                match first_index_of(s, '=', 0) {
                    Some(e) => Some(s.skip(e + 1)),
                    None => None,
                }
            };
            Some(card_from_parts(s, kw, vp))
        }
    }
}

fn find_char(s: &[char], c: char) -> (r: Option<usize>)
    ensures
        match r {
            Some(e) => first_index_of(s@, c, 0) == Some(e as int) && e < s.len(),
            None => first_index_of(s@, c, 0) is None,
        },
{
    let mut i: usize = 0;
    while i < s.len()
        invariant
            0 <= i <= s.len(),
            first_index_of(s@, c, 0) == first_index_of(s@, c, i as int),
        decreases s.len() - i,
    {
        if s[i] == c {
            return Some(i);
        }
        i = i + 1;
    }
    None
}

fn skip_chars(s: &[char], k: usize) -> (r: Vec<char>)
    requires
        k <= s.len(),
    ensures
        r@ == s@.skip(k as int),
{
    let r = copy_range(s, k, s.len());
    assert(r@ =~= s@.skip(k as int));
    r
}

fn suffix_of_bytes(s: &[char], n: usize) -> (r: Option<Vec<char>>)
    ensures
        match r {
            Some(t) => suffix_bytes(s@, n as int) == Some(t@),
            None => suffix_bytes(s@, n as int) is None,
        },
{
    match char_index_at_byte(s, n) {
        Some(k) => Some(skip_chars(s, k)),
        None => None,
    }
}

fn card_from_parts_chars(s: &[char], kw: Vec<char>, vp: Option<Vec<char>>) -> (r: HeaderCard)
    ensures
        (r.keyword@, r.value@, r.comment@) == card_from_parts(
            s@,
            kw@,
            match vp {
                Some(v) => Some(v@),
                None => None,
            },
        ),
        r.raw@ == s@,
{
    let com = word_vec(1);
    let his = word_vec(2);
    let commentary = same_chars(kw.as_slice(), com.as_slice()) || same_chars(
        kw.as_slice(),
        his.as_slice(),
    );
    match vp {
        Some(v) if !commentary => {
            let (val, c) = parse_value_and_comment_chars(v.as_slice());
            HeaderCard {
                keyword: string_of(kw.as_slice()),
                value: string_of(val.as_slice()),
                comment: string_of(c.as_slice()),
                raw: string_of(s),
            }
        },
        _ => {
            let rest = match suffix_of_bytes(s, 8) {
                Some(t) => t,
                None => copy_range(s, 0, s.len()),
            };
            assert(s@.subrange(0, s@.len() as int) =~= s@);
            let c = trim_chars(rest.as_slice());
            let e: Vec<char> = Vec::new();
            assert(e@ =~= Seq::<char>::empty());
            HeaderCard {
                keyword: string_of(kw.as_slice()),
                value: string_of(e.as_slice()),
                comment: string_of(c.as_slice()),
                raw: string_of(s),
            }
        },
    }
}

/// The text that holds a card's keyword: its first eight bytes, or all of it
/// when it is shorter or byte 8 is no character boundary.
pub open spec fn card_head(s: Seq<char>) -> Seq<char> {
    match prefix_bytes(s, 8) {
        Some(h) => h,
        None => s,
    }
}

/// A card text that gives no card: blank, or not a HIERARCH card and blank
/// in its first eight bytes.
pub open spec fn reads_no_card(s: Seq<char>) -> bool {
    trim_text(s).len() == 0 || (!starts_with(upper_text(s), hierarch_prefix()) && trim_text(
        card_head(s),
    ).len() == 0)
}

/// Reads a card from its text (trailing blanks already removed).
pub fn parse_header_card_chars(s: &[char]) -> (r: Option<HeaderCard>)
    ensures
        r is None <==> reads_no_card(s@),
        match r {
            Some(c) => parsed_card(s@) == Some((c.keyword@, c.value@, c.comment@)) && c.raw@
                == s@,
            None => parsed_card(s@) is None,
        },
{
    let t = trim_chars(s);
    if t.len() == 0 {
        return None;
    }
    let up = upper_chars(s);
    let pre = word_vec(3);
    if starts_with_chars(up.as_slice(), pre.as_slice()) {
        match find_char(s, '=') {
            Some(e) => {
                let head = copy_range(s, 0, e);
                assert(head@ =~= s@.take(e as int));
                let kw = upper_chars(trim_chars(head.as_slice()).as_slice());
                let rest = skip_chars(s, e + 1);
                return Some(card_from_parts_chars(s, kw, Some(rest)));
            },
            None => {
                return Some(card_from_parts_chars(s, word_vec(4), None));
            },
        }
    }
    let head = match char_index_at_byte(s, 8) {
        Some(k) => {
            let h = copy_range(s, 0, k);
            assert(h@ =~= s@.take(k as int));
            h
        },
        None => {
            let h = copy_range(s, 0, s.len());
            assert(h@ =~= s@);
            h
        },
    };
    let kw = upper_chars(trim_chars(head.as_slice()).as_slice());
    if kw.len() == 0 {
        return None;
    }
    let eq_at_8 = match char_index_at_byte(s, 8) {
        Some(k) => k < s.len() && s[k] == '=',
        None => false,
    };
    let vp = if eq_at_8 {
        suffix_of_bytes(s, 10)
    } else {
        match find_char(s, '=') {
            Some(e) => Some(skip_chars(s, e + 1)),
            None => None,
        }
    };
    Some(card_from_parts_chars(s, kw, vp))
}

/// Reads a card from its text (trailing blanks already removed).
pub fn parse_header_card(card_str: &str) -> (r: Option<HeaderCard>)
    ensures
        r is None <==> reads_no_card(card_str@),
        match r {
            Some(c) => parsed_card(card_str@) == Some((c.keyword@, c.value@, c.comment@))
                && c.raw@ == card_str@,
            None => parsed_card(card_str@) is None,
        },
{
    let s = chars_of(card_str);
    parse_header_card_chars(s.as_slice())
}

/// Splits the text after a card's '=' into value and comment.
pub fn parse_value_and_comment(value_part: &str) -> (r: (String, String))
    ensures
        (r.0@, r.1@) == split_value_comment(value_part@),
{
    let v = chars_of(value_part);
    let (a, b) = parse_value_and_comment_chars(v.as_slice());
    (string_of(a.as_slice()), string_of(b.as_slice()))
}

impl HeaderCard {
    /// A card from user input: the keyword trimmed and upper-cased, value and
    /// comment trimmed, and the card text formatted from them.
    pub fn new(keyword: &str, value: &str, comment: &str) -> (r: Self)
        ensures
            r.keyword@ == upper_text(trim_text(keyword@)),
            r.value@ == trim_text(value@),
            r.comment@ == trim_text(comment@),
            r.raw@ == formatted_card(r.keyword@, r.value@, r.comment@),
    {
        let k = chars_of(keyword);
        let v = chars_of(value);
        let c = chars_of(comment);
        let kw = upper_chars(trim_chars(k.as_slice()).as_slice());
        let val = trim_chars(v.as_slice());
        let comm = trim_chars(c.as_slice());
        let raw = format_card_chars(kw.as_slice(), val.as_slice(), comm.as_slice());
        HeaderCard {
            keyword: string_of(kw.as_slice()),
            value: string_of(val.as_slice()),
            comment: string_of(comm.as_slice()),
            raw: string_of(raw.as_slice()),
        }
    }

    /// Formats keyword, value and comment into one FITS card of exactly 80
    /// bytes: text longer than that is cut at the last character boundary
    /// within 80 bytes, shorter text is padded with blanks.
    pub fn format_card(keyword: &str, value: &str, comment: &str) -> (r: String)
        ensures
            r@ == formatted_card(keyword@, value@, comment@),
            text_width(r@) == 80,
    {
        let k = chars_of(keyword);
        let v = chars_of(value);
        let c = chars_of(comment);
        let r = format_card_chars(k.as_slice(), v.as_slice(), c.as_slice());
        string_of(r.as_slice())
    }
}

} // verus!
