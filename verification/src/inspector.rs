//! The header inspector: which cards a search shows, and how a card is
//! shown there.
use vstd::prelude::*;
use crate::card::{is_commentary, word_comment, word_end, word_history, HeaderCard};
use crate::text::{
    append_chars, chars_of, contains_chars, contains_text, pad_chars, pad_right, same_chars,
    string_of, trim_chars, trim_text, upper_chars, upper_text,
};

verus! {

/// The search text as it is matched: trimmed and in upper case.
pub open spec fn search_key(search: Seq<char>) -> Seq<char> {
    upper_text(trim_text(search))
}

/// Whether the inspector shows a card for a search: never the END card;
/// every other card for an empty search; otherwise a card whose keyword,
/// or whose value or comment in upper case, contains the search text.
pub open spec fn shown_for(c: HeaderCard, search: Seq<char>) -> bool {
    let f = search_key(search);
    &&& c.keyword@ != word_end()
    &&& (f.len() == 0 || contains_text(c.keyword@, f) || contains_text(upper_text(c.value@), f)
        || contains_text(upper_text(c.comment@), f))
}

fn keyword_is(kw: &[char], which: u8) -> (r: bool)
    requires
        which <= 2,
    ensures
        which == 0 ==> r == (kw@ == word_end()),
        which == 1 ==> r == (kw@ == word_comment()),
        which == 2 ==> r == (kw@ == word_history()),
{
    let w = if which == 0 {
        vec!['E', 'N', 'D']
    } else if which == 1 {
        vec!['C', 'O', 'M', 'M', 'E', 'N', 'T']
    } else {
        vec!['H', 'I', 'S', 'T', 'O', 'R', 'Y']
    };
    assert(which == 0 ==> w@ =~= word_end());
    assert(which == 1 ==> w@ =~= word_comment());
    assert(which == 2 ==> w@ =~= word_history());
    same_chars(kw, w.as_slice())
}

/// Whether the inspector shows the card for the search text.
pub fn card_matches(card: &HeaderCard, search: &str) -> (r: bool)
    ensures
        r == shown_for(*card, search@),
{
    let kw = chars_of(card.keyword.as_str());
    if keyword_is(kw.as_slice(), 0) {
        return false;
    }
    let s = chars_of(search);
    let f = upper_chars(trim_chars(s.as_slice()).as_slice());
    if f.len() == 0 {
        return true;
    }
    if contains_chars(kw.as_slice(), f.as_slice()) {
        return true;
    }
    let v = chars_of(card.value.as_str());
    if contains_chars(upper_chars(v.as_slice()).as_slice(), f.as_slice()) {
        return true;
    }
    let c = chars_of(card.comment.as_str());
    contains_chars(upper_chars(c.as_slice()).as_slice(), f.as_slice())
}

/// The line the inspector shows for a card: the keyword in eight columns,
/// then for a commentary card (or one without keyword) its comment, and for
/// any other card "= ", the value in sixteen columns and, when there is a
/// comment, " / " and the comment.
pub open spec fn card_line_text(kw: Seq<char>, value: Seq<char>, comment: Seq<char>) -> Seq<char> {
    if is_commentary(kw) || kw.len() == 0 {
        pad_right(kw, 8) + seq![' '] + comment
    } else if comment.len() > 0 {
        pad_right(kw, 8) + seq![' ', '=', ' '] + pad_right(value, 16) + seq![' ', '/', ' '] + comment
    } else {
        pad_right(kw, 8) + seq![' ', '=', ' '] + pad_right(value, 16)
    }
}

pub fn card_line(card: &HeaderCard) -> (r: String)
    ensures
        r@ == card_line_text(card.keyword@, card.value@, card.comment@),
{
    let kw = chars_of(card.keyword.as_str());
    let v = chars_of(card.value.as_str());
    let c = chars_of(card.comment.as_str());
    let mut out = chars_of(card.keyword.as_str());
    pad_chars(&mut out, 8);
    if keyword_is(kw.as_slice(), 1) || keyword_is(kw.as_slice(), 2) || kw.len() == 0 {
        out.push(' ');
        append_chars(&mut out, c.as_slice());
    } else {
        out.push(' ');
        out.push('=');
        out.push(' ');
        let mut pv = chars_of(card.value.as_str());
        pad_chars(&mut pv, 16);
        append_chars(&mut out, pv.as_slice());
        if c.len() > 0 {
            out.push(' ');
            out.push('/');
            out.push(' ');
            append_chars(&mut out, c.as_slice());
        }
    }
    assert(out@ =~= card_line_text(card.keyword@, card.value@, card.comment@));
    string_of(out.as_slice())
}


/// A search shows every card other than END whose keyword holds the search
/// text (trimmed, in upper case) at any position, not only at its start.
pub proof fn lemma_search_inside_keyword(c: HeaderCard, search: Seq<char>, i: int)
    requires
        c.keyword@ != word_end(),
        0 <= i,
        i + search_key(search).len() <= c.keyword@.len(),
        c.keyword@.subrange(i, i + search_key(search).len()) == search_key(search),
    ensures
        shown_for(c, search),
{
    let f = search_key(search);
    assert(c.keyword@.subrange(i, i + f.len()) == f);
}

/// The same for a card whose value or comment, in upper case, holds the
/// search text anywhere; and the END card is never shown.
pub proof fn lemma_search_inside_value(c: HeaderCard, search: Seq<char>, i: int)
    requires
        0 <= i,
        i + search_key(search).len() <= upper_text(c.value@).len(),
        upper_text(c.value@).subrange(i, i + search_key(search).len()) == search_key(search),
    ensures
        c.keyword@ != word_end() ==> shown_for(c, search),
        c.keyword@ == word_end() ==> !shown_for(c, search),
{
    let f = search_key(search);
    assert(upper_text(c.value@).subrange(i, i + f.len()) == f);
}

} // verus!
