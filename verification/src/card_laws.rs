//! What reading a written card gives back.
use vstd::prelude::*;
use crate::card::{
    card_body, cut_to_card, format_value, formatted_card, hierarch_prefix, is_commentary,
    is_hierarch, parsed_card, prefix_bytes, scan_slash, split_value_comment, suffix_bytes,
    byte_at_is, card_from_parts, first_index_of, hierarch_keyword, unquote, word_end,
};
use crate::numbers::{
    float_literal, float_word, is_sign, number_accepts, number_run, number_step, unsigned_part,
};
use crate::text::{
    all_ascii, ascii_lower, ascii_lower_text, ascii_upper, ascii_upper_text, chars_in_bytes,
    eq_ignore_case, is_ascii_char, lemma_ascii_chars_in_bytes, lemma_ascii_upper_ascii,
    lemma_ascii_width, lemma_trim_ascii, lemma_trim_end_spaces, lemma_trim_is_trimmed,
    lemma_trim_padded, lemma_trimmed_trim, pad_right, spaces, starts_with, text_width,
    trim_end_text, trim_start_text, trim_text, trimmed, upper_text, white_space,
};

verus! {

/// The value a card gives back once written: a value in quotes without
/// them (and without the blanks inside them), logicals in upper case,
/// anything else as it was entered.
pub open spec fn value_read_back(v: Seq<char>) -> Seq<char> {
    if v.len() >= 2 && v[0] == '\'' && v.last() == '\'' {
        trim_text(v.subrange(1, v.len() - 1))
    } else if eq_ignore_case(v, seq!['T']) || eq_ignore_case(v, seq!['F']) {
        ascii_upper_text(v)
    } else {
        v
    }
}

pub open spec fn no_quote(s: Seq<char>) -> bool {
    forall|i: int| 0 <= i < s.len() ==> #[trigger] s[i] != '\''
}

/// Text in single quotes with no quote inside.
pub open spec fn quoted_text(v: Seq<char>) -> bool {
    v.len() >= 2 && v[0] == '\'' && v.last() == '\'' && no_quote(v.subrange(1, v.len() - 1))
}

/// A value that reads back: without quotes, or all in one pair of quotes.
pub open spec fn value_ok(v: Seq<char>) -> bool {
    no_quote(v) || quoted_text(v)
}

pub open spec fn plain_text(s: Seq<char>) -> bool {
    forall|i: int| 0 <= i < s.len() ==> #[trigger] s[i] != '\'' && s[i] != '/'
}

proof fn lemma_scan_over(v: Seq<char>, i: int, j: int, inq: bool)
    requires
        0 <= i <= j <= v.len(),
        forall|k: int| i <= k < j ==> #[trigger] v[k] != '\'' && (!inq ==> v[k] != '/'),
    ensures
        scan_slash(v, i, inq) == scan_slash(v, j, inq),
    decreases j - i,
{
    if i < j {
        lemma_scan_over(v, i + 1, j, inq);
    }
}

proof fn lemma_run_stuck(s: Seq<char>)
    ensures
        number_run(9, s) == 9,
    decreases s.len(),
{
    if s.len() > 0 {
        lemma_run_stuck(s.drop_first());
    }
}

proof fn lemma_run_plain(st: u8, s: Seq<char>)
    requires
        number_accepts(number_run(st, s)),
    ensures
        plain_text(s),
    decreases s.len(),
{
    if s.len() > 0 {
        if s[0] == '\'' || s[0] == '/' {
            assert(number_step(st, s[0]) == 9);
            lemma_run_stuck(s.drop_first());
        } else {
            lemma_run_plain(number_step(st, s[0]), s.drop_first());
            assert forall|i: int| 0 <= i < s.len() implies #[trigger] s[i] != '\'' && s[i]
                != '/' by {
                if i > 0 {
                    assert(s[i] == s.drop_first()[i - 1]);
                }
            }
        }
    }
}

proof fn lemma_float_plain(v: Seq<char>)
    requires
        float_literal(v),
    ensures
        plain_text(v),
{
    let t = unsigned_part(v);
    if float_word(t) {
        let l = ascii_lower_text(t);
        assert forall|i: int| 0 <= i < t.len() implies #[trigger] t[i] != '\'' && t[i]
            != '/' by {
            assert(l[i] == ascii_lower(t[i]));
            let w1 = crate::numbers::word_inf();
            let w2 = crate::numbers::word_infinity();
            let w3 = crate::numbers::word_nan();
            assert(w1.len() == 3 && w2.len() == 8 && w3.len() == 3);
            assert(l.len() == t.len());
            assert(w1[0] == 'i' && w1[1] == 'n' && w1[2] == 'f');
            assert(w2[0] == 'i' && w2[1] == 'n' && w2[2] == 'f' && w2[3] == 'i' && w2[4] == 'n'
                && w2[5] == 'i' && w2[6] == 't' && w2[7] == 'y');
            assert(w3[0] == 'n' && w3[1] == 'a' && w3[2] == 'n');
            if l == w1 {
                assert(l[i] == w1[i]);
                assert(i == 0 || i == 1 || i == 2);
            } else if l == w2 {
                assert(l[i] == w2[i]);
                assert(0 <= i < 8);
            } else {
                assert(l == w3);
                assert(l[i] == w3[i]);
                assert(i == 0 || i == 1 || i == 2);
            }
            assert(l[i] != '\'' && l[i] != '/');
        }
    } else {
        lemma_run_plain(0, t);
    }
    assert forall|i: int| 0 <= i < v.len() implies #[trigger] v[i] != '\'' && v[i] != '/' by {
        if v.len() > 0 && is_sign(v[0]) {
            if i > 0 {
                assert(v[i] == t[i - 1]);
            }
        } else {
            assert(v[i] == t[i]);
        }
    }
}

/// What is known of a formatted value `fv = format_value(value)`, with
/// `rest` any text written after it.
proof fn lemma_format_value(value: Seq<char>, rest: Seq<char>)
    requires
        all_ascii(value),
        value.len() > 0,
        trimmed(value),
        value_ok(value),
    ensures
        ({
            let fv = format_value(value);
            &&& all_ascii(fv)
            &&& fv.len() > 0
            &&& fv.len() <= value.len() + 2
            &&& trimmed(fv)
            &&& unquote(fv) == value_read_back(value)
            &&& scan_slash(fv + rest, 0, false) == scan_slash(fv + rest, fv.len() as int, false)
        }),
{
    let fv = format_value(value);
    let w = fv + rest;
    if quoted_text(value) {
        let inner = value.subrange(1, value.len() - 1);
        assert(fv == value);
        assert(w[0] == '\'');
        assert forall|k: int| 1 <= k < value.len() - 1 implies #[trigger] w[k] != '\'' && (!true
            ==> w[k] != '/') by {
            assert(w[k] == inner[k - 1]);
        }
        lemma_scan_over(w, 1, value.len() - 1, true);
        assert(w[value.len() - 1] == '\'');
        assert(trim_text(fv) == fv);
        return;
    }
    assert(no_quote(value));
    assert(value[0] != '\'');
    if eq_ignore_case(value, seq!['T']) || eq_ignore_case(value, seq!['F']) {
        assert(ascii_lower_text(value).len() == 1);
        assert(ascii_lower(value[0]) == 't' || ascii_lower(value[0]) == 'f') by {
            if eq_ignore_case(value, seq!['T']) {
                assert(ascii_lower_text(value)[0] == ascii_lower_text(seq!['T'])[0]);
            } else {
                assert(ascii_lower_text(value)[0] == ascii_lower_text(seq!['F'])[0]);
            }
        }
        lemma_ascii_upper_ascii(value);
        assert(fv == ascii_upper_text(value));
        assert(fv[0] == ascii_upper(value[0]));
        assert(fv[0] == 'T' || fv[0] == 'F');
        lemma_scan_over(w, 0, 1, false);
    } else if float_literal(value) {
        lemma_float_plain(value);
        assert forall|k: int| 0 <= k < fv.len() implies #[trigger] w[k] != '\'' && w[k]
            != '/' by {
            assert(w[k] == value[k]);
        }
        lemma_scan_over(w, 0, fv.len() as int, false);
    } else {
        assert(fv == seq!['\''] + value + seq!['\'']);
        assert forall|i: int| 0 <= i < fv.len() implies is_ascii_char(#[trigger] fv[i]) by {
            if 0 < i < fv.len() - 1 {
                assert(fv[i] == value[i - 1]);
            }
        }
        assert(fv.subrange(1, fv.len() - 1) =~= value);
        lemma_trimmed_trim(value);
        assert(w[0] == '\'');
        assert forall|k: int| 1 <= k < value.len() + 1 implies #[trigger] w[k] != '\'' && (!true
            ==> w[k] != '/') by {
            assert(w[k] == value[k - 1]);
        }
        lemma_scan_over(w, 1, value.len() + 1int, true);
        assert(w[value.len() + 1int] == '\'');
    }
}

proof fn lemma_ascii_concat(a: Seq<char>, b: Seq<char>)
    requires
        all_ascii(a),
        all_ascii(b),
    ensures
        all_ascii(a + b),
{
    assert forall|i: int| 0 <= i < (a + b).len() implies is_ascii_char(#[trigger] (a + b)[i]) by {
        if i < a.len() {
            assert((a + b)[i] == a[i]);
        } else {
            assert((a + b)[i] == b[i - a.len()]);
        }
    }
}

proof fn lemma_ascii_pad(a: Seq<char>, w: nat)
    requires
        all_ascii(a),
    ensures
        all_ascii(pad_right(a, w)),
        pad_right(a, w).len() == if a.len() >= w {
            a.len()
        } else {
            w
        },
{
    if a.len() < w {
        let n = (w - a.len()) as nat;
        assert forall|i: int| 0 <= i < spaces(n).len() implies is_ascii_char(
            #[trigger] spaces(n)[i],
        ) by {}
        lemma_ascii_concat(a, spaces(n));
    }
}

/// The text after "= " in a short-keyword card.
pub open spec fn value_part(fv: Seq<char>, comment: Seq<char>) -> Seq<char> {
    if comment.len() > 0 {
        pad_right(fv, 20) + seq![' ', '/', ' '] + comment
    } else {
        fv
    }
}

pub open spec fn short_card(ku: Seq<char>, fv: Seq<char>, comment: Seq<char>) -> Seq<char> {
    pad_right(ku, 8) + seq!['=', ' '] + value_part(fv, comment)
}

proof fn lemma_value_part(value: Seq<char>, comment: Seq<char>)
    requires
        all_ascii(value),
        value.len() > 0,
        trimmed(value),
        value_ok(value),
        trimmed(comment),
    ensures
        split_value_comment(value_part(format_value(value), comment)) == (
            value_read_back(value),
            comment,
        ),
{
    let fv = format_value(value);
    let tail: Seq<char> = if comment.len() > 0 {
        seq![' ', '/', ' '] + comment
    } else {
        Seq::empty()
    };
    let vp = value_part(fv, comment);
    lemma_format_value(value, pad_right(fv, 20).skip(fv.len() as int) + tail);
    if comment.len() > 0 {
        let p: int = pad_right(fv, 20).len() + 1int;
        assert(vp =~= fv + (pad_right(fv, 20).skip(fv.len() as int) + tail));
        assert forall|k: int| fv.len() <= k < p - 1 implies #[trigger] vp[k] != '\'' && (!false
            ==> vp[k] != '/') by {}
        lemma_scan_over(vp, fv.len() as int, p - 1, false);
        assert(vp[p - 1] == ' ');
        assert(vp[p] == '/');
        assert(scan_slash(vp, p - 1, false) == scan_slash(vp, p, false));
        assert(scan_slash(vp, p, false) == Some(p));
        assert(scan_slash(vp, 0, false) == Some(p));
        let m: nat = if fv.len() < 20 {
            (21 - fv.len()) as nat
        } else {
            1
        };
        assert(vp.take(p) =~= fv + spaces(m));
        assert(fv + spaces(m) =~= pad_right(fv, fv.len() + m));
        lemma_trim_padded(fv, fv.len() + m);
        assert(vp.skip(p + 1) =~= spaces(1) + comment);
        crate::text::lemma_trim_start_spaces(comment, 1);
        lemma_trimmed_trim(comment);
    } else {
        assert(fv + (pad_right(fv, 20).skip(fv.len() as int) + tail) =~= fv + pad_right(
            fv,
            20,
        ).skip(fv.len() as int));
        lemma_format_value(value, Seq::empty());
        assert(fv + Seq::<char>::empty() =~= fv);
        assert(scan_slash(fv, fv.len() as int, false) is None);
        lemma_trimmed_trim(fv);
    }
}

/// The card written for a short keyword: its text up to the trailing blanks
/// is `short_card`, all ASCII, padded with blanks to 80 characters.
pub proof fn lemma_short_card_text(keyword: Seq<char>, value: Seq<char>, comment: Seq<char>)
    requires
        all_ascii(keyword),
        all_ascii(value),
        all_ascii(comment),
        1 <= trim_text(keyword).len() <= 8,
        ascii_upper_text(trim_text(keyword)) != word_end(),
        !is_commentary(ascii_upper_text(trim_text(keyword))),
        value.len() > 0,
        trimmed(value),
        value_ok(value),
        trimmed(comment),
        value.len() + comment.len() <= 45,
    ensures
        ({
            let body = short_card(ascii_upper_text(trim_text(keyword)), format_value(value), comment);
            &&& trim_end_text(formatted_card(keyword, value, comment)) == body
            &&& formatted_card(keyword, value, comment) == pad_right(body, 80)
            &&& body.len() <= 80
            &&& all_ascii(body)
            &&& trimmed(ascii_upper_text(trim_text(keyword)))
            &&& all_ascii(ascii_upper_text(trim_text(keyword)))
            &&& body.len() > 10
        }),
{
    let k0 = trim_text(keyword);
    lemma_trim_ascii(keyword);
    lemma_trim_is_trimmed(keyword);
    lemma_ascii_upper_ascii(k0);
    let ku = ascii_upper_text(k0);
    let fv = format_value(value);
    let tail: Seq<char> = if comment.len() > 0 {
        seq![' ', '/', ' '] + comment
    } else {
        Seq::empty()
    };
    let vp = value_part(fv, comment);
    let pk = pad_right(ku, 8);
    let body = short_card(ku, fv, comment);
    lemma_ascii_width(ku);
    assert(!starts_with(ku, hierarch_prefix()));
    assert(!is_hierarch(ku));
    assert(card_body(ku, value, comment) =~= body);
    lemma_format_value(value, Seq::empty());
    lemma_ascii_pad(ku, 8);
    lemma_ascii_pad(fv, 20);
    assert(all_ascii(tail)) by {
        assert forall|i: int| 0 <= i < tail.len() implies is_ascii_char(#[trigger] tail[i]) by {
            if comment.len() > 0 && i >= 3 {
                assert(tail[i] == comment[i - 3]);
            }
        }
    }
    let eq_sp: Seq<char> = seq!['=', ' '];
    assert(all_ascii(eq_sp)) by {
        assert forall|i: int| 0 <= i < 2 implies is_ascii_char(#[trigger] eq_sp[i]) by {}
    }
    lemma_ascii_concat(pk, eq_sp);
    if comment.len() > 0 {
        assert(vp =~= pad_right(fv, 20) + tail);
        lemma_ascii_concat(pad_right(fv, 20), tail);
    }
    lemma_ascii_concat(pk + eq_sp, vp);
    assert(body =~= pk + eq_sp + vp);
    lemma_ascii_width(body);
    assert(body.len() <= 80);
    let card = formatted_card(keyword, value, comment);
    crate::card::lemma_fit_prefix(body, 80);
    crate::card::lemma_pad_card_ascii(body);
    assert(card == pad_right(body, 80));
    assert(body.last() == vp.last());
    assert(!white_space(body.last())) by {
        if comment.len() > 0 {
            assert(vp.last() == comment.last());
        }
    }
    if body.len() < 80 {
        lemma_trim_end_spaces(body, (80 - body.len()) as nat);
    }
}

proof fn lemma_read_short_card(ku: Seq<char>, vp: Seq<char>)
    requires
        all_ascii(ku),
        all_ascii(pad_right(ku, 8) + seq!['=', ' '] + vp),
        trimmed(ku),
        1 <= ku.len() <= 8,
        ascii_upper_text(ku) == ku,
        vp.len() > 0,
        trimmed(vp),
    ensures
        parsed_card(pad_right(ku, 8) + seq!['=', ' '] + vp) == Some(
            card_from_parts(pad_right(ku, 8) + seq!['=', ' '] + vp, ku, Some(vp)),
        ),
{
    let pk = pad_right(ku, 8);
    let body = pk + seq!['=', ' '] + vp;
    lemma_ascii_pad(ku, 8);
    assert(body[0] == ku[0]);
    assert(trim_start_text(body) == body);
    assert(body.last() == vp.last());
    assert(trim_text(body) == body);
    lemma_ascii_upper_ascii(body);
    assert(upper_text(body)[8] == '=');
    assert(!starts_with(upper_text(body), hierarch_prefix())) by {
        if starts_with(upper_text(body), hierarch_prefix()) {
            assert(upper_text(body).take(9)[8] == hierarch_prefix()[8]);
        }
    }
    lemma_ascii_chars_in_bytes(body, 8);
    lemma_ascii_chars_in_bytes(body, 10);
    assert(body.take(8) =~= pk);
    assert(prefix_bytes(body, 8) == Some(pk));
    lemma_trim_padded(ku, 8);
    lemma_ascii_upper_ascii(ku);
    assert(upper_text(trim_text(pk)) == ku);
    assert(byte_at_is(body, 8, '='));
    assert(body.skip(10) =~= vp);
    assert(suffix_bytes(body, 10) == Some(vp));
}

/// Reading back a card that `format_card` wrote for a keyword of at most
/// eight characters gives the keyword in upper case, the value (logicals in
/// upper case, quotes removed) and the comment, when all three are ASCII,
/// value and comment carry no blanks at their ends, the value has no quote
/// character or is all in one pair of quotes, and the card does not
/// overflow its 80 bytes.
pub proof fn lemma_card_round_trip(keyword: Seq<char>, value: Seq<char>, comment: Seq<char>)
    requires
        all_ascii(keyword),
        all_ascii(value),
        all_ascii(comment),
        1 <= trim_text(keyword).len() <= 8,
        ascii_upper_text(trim_text(keyword)) != word_end(),
        !is_commentary(ascii_upper_text(trim_text(keyword))),
        value.len() > 0,
        trimmed(value),
        value_ok(value),
        trimmed(comment),
        value.len() + comment.len() <= 45,
    ensures
        parsed_card(trim_end_text(formatted_card(keyword, value, comment))) == Some(
            (ascii_upper_text(trim_text(keyword)), value_read_back(value), comment),
        ),
{
    let ku = ascii_upper_text(trim_text(keyword));
    let fv = format_value(value);
    lemma_short_card_text(keyword, value, comment);
    lemma_trim_ascii(keyword);
    lemma_ascii_upper_ascii(trim_text(keyword));
    lemma_format_value(value, Seq::empty());
    let vp = value_part(fv, comment);
    assert(vp.len() > 0);
    assert(trimmed(vp)) by {
        if comment.len() > 0 {
            assert(vp[0] == pad_right(fv, 20)[0]);
            assert(vp.last() == comment.last());
        }
    }
    lemma_read_short_card(ku, value_part(fv, comment));
    lemma_value_part(value, comment);
    assert(!is_commentary(ku));
}

// ---------------------------------------------------------------------------
// Long (HIERARCH) keywords
// ---------------------------------------------------------------------------

/// The text after the '=' of a long-keyword card.
pub open spec fn long_value_part(fv: Seq<char>, comment: Seq<char>) -> Seq<char> {
    if comment.len() > 0 {
        seq![' '] + fv + seq![' ', '/', ' '] + comment
    } else {
        seq![' '] + fv
    }
}

pub open spec fn long_card(hk: Seq<char>, fv: Seq<char>, comment: Seq<char>) -> Seq<char> {
    hk + seq![' ', '='] + long_value_part(fv, comment)
}

/// The length of the HIERARCH keyword written for `ku`.
pub open spec fn long_key_len(ku: Seq<char>) -> int {
    if starts_with(ku, hierarch_prefix()) {
        ku.len() as int
    } else {
        ku.len() + 9int
    }
}

pub open spec fn has_no(s: Seq<char>, c: char) -> bool {
    forall|i: int| 0 <= i < s.len() ==> #[trigger] s[i] != c
}

proof fn lemma_scan_shift(w: Seq<char>, i: int, inq: bool)
    requires
        0 <= i,
    ensures
        scan_slash(seq![' '] + w, i + 1, inq) == match scan_slash(w, i, inq) {
            Some(p) => Some(p + 1),
            None => None::<int>,
        },
    decreases w.len() - i,
{
    let v = seq![' '] + w;
    if i < w.len() {
        assert(v[i + 1] == w[i]);
        if w[i] == '\'' {
            lemma_scan_shift(w, i + 1, !inq);
        } else if w[i] == '/' && !inq {
        } else {
            lemma_scan_shift(w, i + 1, inq);
        }
    }
}

proof fn lemma_trim_spaced(fv: Seq<char>)
    requires
        trimmed(fv),
        fv.len() > 0,
    ensures
        trim_text(seq![' '] + fv) == fv,
        trim_text(seq![' '] + fv + seq![' ']) == fv,
{
    assert(seq![' '] + fv =~= spaces(1) + fv);
    crate::text::lemma_trim_start_spaces(fv, 1);
    lemma_trimmed_trim(fv);
    assert(trim_start_text(fv) == fv) by {
        assert(!white_space(fv[0]));
    }
    assert(trim_end_text(fv) == fv) by {
        assert(!white_space(fv.last()));
    }
    let t = seq![' '] + fv + seq![' '];
    assert(t =~= spaces(1) + (fv + spaces(1)));
    crate::text::lemma_trim_start_spaces(fv + spaces(1), 1);
    assert(trim_start_text(fv + spaces(1)) == fv + spaces(1)) by {
        assert((fv + spaces(1))[0] == fv[0]);
    }
    lemma_trim_end_spaces(fv, 1);
}

proof fn lemma_long_value_part(value: Seq<char>, comment: Seq<char>)
    requires
        all_ascii(value),
        value.len() > 0,
        trimmed(value),
        value_ok(value),
        trimmed(comment),
    ensures
        split_value_comment(long_value_part(format_value(value), comment)) == (
            value_read_back(value),
            comment,
        ),
{
    let fv = format_value(value);
    let vp = long_value_part(fv, comment);
    if comment.len() > 0 {
        let tail = seq![' ', '/', ' '] + comment;
        let w = fv + tail;
        lemma_format_value(value, tail);
        assert(vp =~= seq![' '] + w);
        assert(w[fv.len() as int] == ' ');
        assert(w[fv.len() + 1int] == '/');
        assert(scan_slash(w, fv.len() + 1int, false) == Some(fv.len() + 1int));
        assert(scan_slash(w, fv.len() as int, false) == Some(fv.len() + 1int));
        lemma_scan_shift(w, 0, false);
        let p: int = fv.len() + 2int;
        assert(scan_slash(vp, 1, false) == Some(p));
        assert(scan_slash(vp, 0, false) == scan_slash(vp, 1, false)) by {
            assert(vp[0] == ' ');
        }
        assert(vp.take(p) =~= seq![' '] + fv + seq![' ']);
        lemma_trim_spaced(fv);
        assert(vp.skip(p + 1) =~= spaces(1) + comment);
        crate::text::lemma_trim_start_spaces(comment, 1);
        lemma_trimmed_trim(comment);
    } else {
        lemma_format_value(value, Seq::empty());
        assert(fv + Seq::<char>::empty() =~= fv);
        assert(scan_slash(fv, fv.len() as int, false) is None);
        lemma_scan_shift(fv, 0, false);
        assert(scan_slash(vp, 0, false) == scan_slash(vp, 1, false)) by {
            assert(vp[0] == ' ');
        }
        lemma_trim_spaced(fv);
    }
}

proof fn lemma_first_index_over(s: Seq<char>, c: char, i: int, j: int)
    requires
        0 <= i <= j <= s.len(),
        forall|k: int| i <= k < j ==> #[trigger] s[k] != c,
    ensures
        first_index_of(s, c, i) == first_index_of(s, c, j),
    decreases j - i,
{
    if i < j {
        lemma_first_index_over(s, c, i + 1, j);
    }
}

/// The conditions under which a long-keyword card reads back.
pub open spec fn long_card_ok(keyword: Seq<char>, value: Seq<char>, comment: Seq<char>) -> bool {
    let ku = ascii_upper_text(trim_text(keyword));
    &&& all_ascii(keyword)
    &&& all_ascii(value)
    &&& all_ascii(comment)
    &&& trim_text(keyword).len() > 0
    &&& is_hierarch(ku)
    &&& has_no(ku, '=')
    &&& value.len() > 0
    &&& trimmed(value)
    &&& value_ok(value)
    &&& trimmed(comment)
    &&& long_key_len(ku) + value.len() + comment.len() + 8 <= 80
}

/// What is known of a long keyword and the HIERARCH keyword written for it.
pub proof fn lemma_long_key(keyword: Seq<char>)
    requires
        all_ascii(keyword),
        trim_text(keyword).len() > 0,
        is_hierarch(ascii_upper_text(trim_text(keyword))),
        has_no(ascii_upper_text(trim_text(keyword)), '='),
    ensures
        ({
            let ku = ascii_upper_text(trim_text(keyword));
            let hk = hierarch_keyword(ku);
            &&& all_ascii(ku)
            &&& ku.len() > 0
            &&& upper_text(trim_text(keyword)) == ku
            &&& ku != word_end()
            &&& !is_commentary(ku)
            &&& hk.len() == long_key_len(ku)
            &&& all_ascii(hk)
            &&& trimmed(hk)
            &&& has_no(hk, '=')
            &&& ascii_upper_text(hk) == hk
            &&& hk.take(9) == hierarch_prefix()
            &&& hk[0] == 'H'
        }),
{
    let k0 = trim_text(keyword);
    lemma_trim_ascii(keyword);
    lemma_trim_is_trimmed(keyword);
    lemma_ascii_upper_ascii(k0);
    let ku = ascii_upper_text(k0);
    let hk = hierarch_keyword(ku);
    let pre = hierarch_prefix();
    lemma_ascii_width(ku);
    assert(pre.len() == 9);
    assert(all_ascii(pre)) by {
        assert forall|i: int| 0 <= i < 9 implies is_ascii_char(#[trigger] pre[i]) by {}
    }
    assert(ascii_upper_text(pre) =~= pre);
    if starts_with(ku, pre) {
        assert(hk == ku);
        assert(ku.take(9) == pre);
        assert(hk[0] == hk.take(9)[0]);
    } else {
        assert(hk =~= pre + ku);
        lemma_ascii_concat(pre, ku);
        assert(ascii_upper_text(hk) =~= ascii_upper_text(pre) + ascii_upper_text(ku));
        assert(has_no(hk, '=')) by {
            assert forall|i: int| 0 <= i < hk.len() implies #[trigger] hk[i] != '=' by {
                if i >= 9 {
                    assert(hk[i] == ku[i - 9]);
                }
            }
        }
        assert(hk.take(9) =~= pre);
        assert(trimmed(hk)) by {
            assert(hk[0] == 'H');
            assert(hk.last() == ku.last());
        }
    }
    assert(ku != word_end()) by {
        if ku == word_end() {
            assert(!starts_with(ku, pre));
        }
    }
    assert(!is_commentary(ku)) by {
        if ku == crate::card::word_comment() || ku == crate::card::word_history() {
            assert(ku.len() == 7);
            assert(!starts_with(ku, pre));
        }
    }
}

/// The card written for a long keyword: `long_card` of its HIERARCH
/// keyword, all ASCII, padded with blanks to 80 characters.
pub proof fn lemma_long_card_text(keyword: Seq<char>, value: Seq<char>, comment: Seq<char>)
    requires
        long_card_ok(keyword, value, comment),
    ensures
        ({
            let ku = ascii_upper_text(trim_text(keyword));
            let hk = hierarch_keyword(ku);
            let body = long_card(hk, format_value(value), comment);
            &&& formatted_card(keyword, value, comment) == pad_right(body, 80)
            &&& trim_end_text(formatted_card(keyword, value, comment)) == body
            &&& body.len() <= 80
            &&& all_ascii(body)
            &&& body.take(9) == hierarch_prefix()
            &&& body[0] == 'H'
            &&& hk.len() == long_key_len(ku)
            &&& all_ascii(hk)
            &&& trimmed(hk)
            &&& has_no(hk, '=')
            &&& ascii_upper_text(hk) == hk
        }),
{
    lemma_long_key(keyword);
    let ku = ascii_upper_text(trim_text(keyword));
    let hk = hierarch_keyword(ku);
    let fv = format_value(value);
    let body = long_card(hk, fv, comment);
    let pre = hierarch_prefix();
    lemma_format_value(value, Seq::empty());
    assert(card_body(ku, value, comment) =~= body);
    let tail: Seq<char> = if comment.len() > 0 {
        seq![' ', '/', ' '] + comment
    } else {
        Seq::empty()
    };
    assert(all_ascii(tail)) by {
        assert forall|i: int| 0 <= i < tail.len() implies is_ascii_char(#[trigger] tail[i]) by {
            if comment.len() > 0 && i >= 3 {
                assert(tail[i] == comment[i - 3]);
            }
        }
    }
    let eq_sp: Seq<char> = seq![' ', '=', ' '];
    assert(all_ascii(eq_sp)) by {
        assert forall|i: int| 0 <= i < 3 implies is_ascii_char(#[trigger] eq_sp[i]) by {}
    }
    lemma_ascii_concat(hk, eq_sp);
    lemma_ascii_concat(hk + eq_sp, fv);
    lemma_ascii_concat(hk + eq_sp + fv, tail);
    assert(body =~= hk + eq_sp + fv + tail);
    lemma_ascii_width(body);
    assert(body.len() <= 80);
    assert(body.take(9) =~= pre) by {
        assert forall|i: int| 0 <= i < 9 implies #[trigger] body.take(9)[i] == pre[i] by {
            assert(body[i] == hk[i]);
            assert(hk.take(9)[i] == hk[i]);
        }
    }
    assert(body[0] == hk[0]);
    let card = formatted_card(keyword, value, comment);
    crate::card::lemma_fit_prefix(body, 80);
    crate::card::lemma_pad_card_ascii(body);
    assert(card == pad_right(body, 80));
    assert(!white_space(body.last())) by {
        if comment.len() > 0 {
            assert(body.last() == comment.last());
        } else {
            assert(body.last() == fv.last());
        }
    }
    if body.len() < 80 {
        lemma_trim_end_spaces(body, (80 - body.len()) as nat);
    }
}

/// Reading back a card that `format_card` wrote for a long keyword gives its
/// HIERARCH keyword (in upper case, with the "HIERARCH " prefix), the value
/// (logicals in upper case, quotes removed) and the comment, when all three
/// are ASCII, the keyword has no '=', value and comment carry no blanks at
/// their ends, the value has no quote character or is all in one pair of
/// quotes, and the card fits in its 80 bytes.
pub proof fn lemma_long_card_round_trip(keyword: Seq<char>, value: Seq<char>, comment: Seq<char>)
    requires
        long_card_ok(keyword, value, comment),
    ensures
        parsed_card(trim_end_text(formatted_card(keyword, value, comment))) == Some(
            (hierarch_keyword(ascii_upper_text(trim_text(keyword))), value_read_back(value), comment),
        ),
{
    lemma_long_card_text(keyword, value, comment);
    let ku = ascii_upper_text(trim_text(keyword));
    let hk = hierarch_keyword(ku);
    let fv = format_value(value);
    let vp = long_value_part(fv, comment);
    let body = long_card(hk, fv, comment);
    let pre = hierarch_prefix();
    lemma_format_value(value, Seq::empty());
    assert(trim_text(body).len() > 0) by {
        assert(!white_space(body[0]));
        assert(trim_start_text(body) == body);
        assert(!white_space(body.last())) by {
            if comment.len() > 0 {
                assert(body.last() == comment.last());
            } else {
                assert(body.last() == fv.last());
            }
        }
    }
    lemma_ascii_upper_ascii(body);
    assert(starts_with(upper_text(body), pre)) by {
        assert forall|i: int| 0 <= i < 9 implies #[trigger] upper_text(body).take(9)[i] == pre[i] by {
            assert(body.take(9)[i] == body[i]);
            assert(upper_text(body)[i] == ascii_upper(body[i]));
        }
        assert(upper_text(body).take(9) =~= pre);
    }
    let e: int = hk.len() + 1int;
    assert(body[e] == '=');
    assert forall|k: int| 0 <= k < e implies #[trigger] body[k] != '=' by {
        if k < hk.len() {
            assert(body[k] == hk[k]);
        }
    }
    lemma_first_index_over(body, '=', 0, e);
    assert(first_index_of(body, '=', 0) == Some(e));
    assert(body.take(e) =~= hk + seq![' ']);
    assert(trim_text(hk + seq![' ']) == hk) by {
        assert(hk + seq![' '] =~= hk + spaces(1));
        lemma_trim_end_spaces(hk, 1);
        lemma_trimmed_trim(hk);
        assert(trim_start_text(hk + spaces(1)) == hk + spaces(1)) by {
            assert((hk + spaces(1))[0] == hk[0]);
        }
        assert(trim_end_text(hk) == hk) by {
            assert(!white_space(hk.last()));
        }
    }
    lemma_ascii_upper_ascii(hk);
    assert(upper_text(hk) == hk);
    assert(body.skip(e + 1) =~= vp);
    assert(!is_commentary(hk)) by {
        if hk == crate::card::word_comment() || hk == crate::card::word_history() {
            assert(hk.take(9) == pre);
            assert(hk.len() == 7);
        }
    }
    lemma_long_value_part(value, comment);
}

// ---------------------------------------------------------------------------
// Commentary cards
// ---------------------------------------------------------------------------

proof fn lemma_ascii_bytes_beyond(s: Seq<char>, n: int)
    requires
        all_ascii(s),
        n > s.len(),
    ensures
        chars_in_bytes(s, n) is None,
    decreases s.len(),
{
    if s.len() > 0 {
        assert(is_ascii_char(s[0]));
        assert(crate::text::char_width(s[0]) == 1);
        lemma_ascii_bytes_beyond(s.drop_first(), n - 1);
    }
}

/// The conditions under which a COMMENT or HISTORY card reads back.
pub open spec fn commentary_ok(keyword: Seq<char>, value: Seq<char>, comment: Seq<char>) -> bool {
    let ku = ascii_upper_text(trim_text(keyword));
    &&& all_ascii(keyword)
    &&& all_ascii(value)
    &&& all_ascii(comment)
    &&& is_commentary(ku)
    &&& trimmed(value)
    &&& trimmed(comment)
    &&& crate::card::commentary_body(ku, value, comment).len() <= 80
}

/// A COMMENT or HISTORY card as written: its text padded with blanks to 80
/// characters, all ASCII, starting with its keyword; read back, it gives
/// that keyword and no value.
pub proof fn lemma_commentary_round_trip(keyword: Seq<char>, value: Seq<char>, comment: Seq<char>)
    requires
        commentary_ok(keyword, value, comment),
    ensures
        ({
            let ku = ascii_upper_text(trim_text(keyword));
            let body = crate::card::commentary_body(ku, value, comment);
            &&& formatted_card(keyword, value, comment) == pad_right(body, 80)
            &&& all_ascii(body)
            &&& body.len() <= 80
            &&& (body[0] == 'C' || body[0] == 'H')
            &&& parsed_card(trim_end_text(formatted_card(keyword, value, comment))) matches Some(r)
                && r.0 == ku && r.1 == Seq::<char>::empty()
        }),
{
    let k0 = trim_text(keyword);
    lemma_trim_ascii(keyword);
    lemma_ascii_upper_ascii(k0);
    let ku = ascii_upper_text(k0);
    let body = crate::card::commentary_body(ku, value, comment);
    let wc = crate::card::word_comment();
    let wh = crate::card::word_history();
    assert(ku.len() == 7);
    assert(ku[0] == 'C' || ku[0] == 'H');
    assert(all_ascii(ku));
    assert(ku != word_end());
    assert(upper_text(k0) == ku);
    let sp: Seq<char> = seq![' '];
    assert(all_ascii(sp)) by {
        assert(is_ascii_char(sp[0]));
    }
    assert(all_ascii(body)) by {
        if comment.len() > 0 {
            lemma_ascii_concat(ku, sp);
            lemma_ascii_concat(ku + sp, comment);
        } else if value.len() > 0 {
            lemma_ascii_concat(ku, sp);
            lemma_ascii_concat(ku + sp, value);
        }
    }
    assert(body[0] == ku[0]);
    assert(cut_to_card(body) == body) by {
        lemma_ascii_width(body);
        crate::card::lemma_fit_prefix(body, 80);
    }
    crate::card::lemma_pad_card_ascii(body);
    assert(formatted_card(keyword, value, comment) == pad_right(body, 80));
    assert(!white_space(body.last())) by {
        if comment.len() > 0 {
            assert(body.last() == comment.last());
        } else if value.len() > 0 {
            assert(body.last() == value.last());
        } else {
            assert(body.last() == ku[6]);
        }
    }
    assert(trim_end_text(pad_right(body, 80)) == body) by {
        if body.len() < 80 {
            lemma_trim_end_spaces(body, (80 - body.len()) as nat);
        }
    }
    assert(trim_text(body).len() > 0) by {
        assert(trim_start_text(body) == body) by {
            assert(!white_space(body[0]));
        }
    }
    lemma_ascii_upper_ascii(body);
    assert(!starts_with(upper_text(body), hierarch_prefix())) by {
        if starts_with(upper_text(body), hierarch_prefix()) {
            assert(upper_text(body).take(9)[0] == hierarch_prefix()[0]);
            assert(upper_text(body).take(9)[2] == hierarch_prefix()[2]);
            assert(upper_text(body)[0] == ascii_upper(body[0]));
            assert(upper_text(body)[2] == ascii_upper(body[2]));
            assert(body[2] == ku[2]);
        }
    }
    let head = match prefix_bytes(body, 8) {
        Some(h) => h,
        None => body,
    };
    assert(trim_text(head) == ku) by {
        if body.len() >= 8 {
            lemma_ascii_chars_in_bytes(body, 8);
            assert(head =~= ku + sp);
            assert(ku + sp =~= ku + spaces(1));
            lemma_trim_end_spaces(ku, 1);
            assert(trim_start_text(ku + spaces(1)) == ku + spaces(1)) by {
                assert((ku + spaces(1))[0] == ku[0]);
            }
            assert(trim_end_text(ku) == ku) by {
                assert(!white_space(ku[6]));
            }
        } else {
            lemma_ascii_bytes_beyond(body, 8);
            assert(body == ku);
            assert(trim_start_text(ku) == ku) by {
                assert(!white_space(ku[0]));
            }
            assert(trim_end_text(ku) == ku) by {
                assert(!white_space(ku[6]));
            }
        }
    }
    lemma_ascii_upper_ascii(ku);
}

} // verus!
