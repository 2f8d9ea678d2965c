//! What reading a written header gives back.
use vstd::prelude::*;
use vstd::utf8::{encode_utf8, is_ascii_chars, is_ascii_chars_encode_utf8};
use crate::card::{formatted_card, hierarch_keyword, hierarch_prefix, is_commentary, is_hierarch, parsed_card, word_end};
use crate::card_laws::{
    commentary_ok, lemma_card_round_trip, lemma_commentary_round_trip, lemma_long_card_round_trip,
    lemma_long_card_text, lemma_long_key, lemma_short_card_text, long_card, long_card_ok, short_card,
    value_ok, value_read_back,
};
use crate::card::HeaderCard;
use crate::edit::{cards_for, edited_file, fields_of, pad_to_block, written_cards, written_hdu};
use crate::fits::{hdu_item, lemma_scan_header_moves, walk, FitsError, HduItem};
use crate::hdu::{padded_bytes, raw_data_bytes, HduInfo};
use crate::fits::{add_card, block_at, block_fill, card_at, empty_scan, is_end_card, scan_block, scan_header, end_card_view, HeaderScan};
use crate::header_map::{lemma_store_lookup, lookup, store};
use crate::text::{
    all_ascii, ascii_bytes, ascii_upper_text, bytes_as_chars, decode_text, is_ascii_char, lemma_ascii_upper_ascii,
    lemma_trim_ascii, pad_right, spaces, starts_with, trim_end_text, trim_text, trimmed, upper_text, white_space,
};

verus! {

pub type CardFields = (Seq<char>, Seq<char>, Seq<char>);

/// The keyword a reader finds in a card written for this keyword: in upper
/// case, with the "HIERARCH " prefix when it is long.
pub open spec fn read_key(c: CardFields) -> Seq<char> {
    let ku = ascii_upper_text(trim_text(c.0));
    if is_hierarch(ku) {
        hierarch_keyword(ku)
    } else {
        ku
    }
}

/// The value a reader finds in a card written with this value: none for a
/// COMMENT or HISTORY card, else the value as written reads back.
pub open spec fn value_read(c: CardFields) -> Seq<char> {
    if is_commentary(ascii_upper_text(trim_text(c.0))) {
        Seq::empty()
    } else {
        value_read_back(c.1)
    }
}

/// A keyword whose card a reader takes for the END card: "END" alone, or
/// followed by a blank or a NUL.
pub open spec fn ends_header(ku: Seq<char>) -> bool {
    &&& ku.len() >= 3
    &&& ku[0] == 'E' && ku[1] == 'N' && ku[2] == 'D'
    &&& (ku.len() == 3 || ku[3] == ' ' || ku[3] == '\0')
}

/// A card with a keyword of one to eight characters that reads back as
/// written: ASCII, a keyword that is no commentary keyword and does not read
/// as END, a value without blanks at its ends that has no quote or is all in
/// one pair of quotes, a comment without blanks at its ends, and short
/// enough to fit the card.
pub open spec fn good_short_card(c: CardFields) -> bool {
    &&& all_ascii(c.0)
    &&& all_ascii(c.1)
    &&& all_ascii(c.2)
    &&& 1 <= trim_text(c.0).len() <= 8
    &&& !ends_header(read_key(c))
    &&& !is_commentary(read_key(c))
    &&& c.1.len() > 0
    &&& trimmed(c.1)
    &&& value_ok(c.1)
    &&& trimmed(c.2)
    &&& c.1.len() + c.2.len() <= 45
}

/// A card that reads back as written: a good card with a short keyword, one
/// with a long (HIERARCH) keyword that meets `long_card_ok`, or a COMMENT or
/// HISTORY card that meets `commentary_ok`.
pub open spec fn good_card(c: CardFields) -> bool {
    good_short_card(c) || long_card_ok(c.0, c.1, c.2) || commentary_ok(c.0, c.1, c.2)
}

pub open spec fn all_good(cards: Seq<CardFields>) -> bool {
    forall|i: int| 0 <= i < cards.len() ==> good_card(#[trigger] cards[i])
}

/// The keyword values a reader finds in cards written in this order: each
/// card sets its keyword, a later card of a keyword replacing an earlier one.
pub open spec fn pairs_read(cards: Seq<CardFields>) -> Seq<(Seq<char>, Seq<char>)>
    decreases cards.len(),
{
    if cards.len() == 0 {
        Seq::empty()
    } else {
        store(pairs_read(cards.drop_last()), read_key(cards.last()), value_read(cards.last()))
    }
}

pub open spec fn chunk(c: CardFields) -> Seq<u8> {
    encode_utf8(formatted_card(c.0, c.1, c.2))
}

pub open spec fn end_chunk() -> Seq<u8> {
    encode_utf8(formatted_card(word_end(), Seq::empty(), Seq::empty()))
}

proof fn lemma_ascii_char(c: char)
    requires
        is_ascii_char(c),
    ensures
        '\0' <= c <= '\u{7f}',
        (c as u8) < 128,
        (c as u8) as char == c,
{
}

proof fn lemma_ascii_bytes(f: Seq<char>)
    requires
        all_ascii(f),
    ensures
        encode_utf8(f).len() == f.len(),
        forall|i: int| 0 <= i < f.len() ==> #[trigger] encode_utf8(f)[i] == f[i] as u8,
        forall|i: int| 0 <= i < f.len() ==> #[trigger] encode_utf8(f)[i] < 128,
        decode_text(encode_utf8(f)) == f,
{
    assert(is_ascii_chars(f)) by {
        assert forall|i: int| 0 <= i < f.len() implies '\0' <= #[trigger] f[i] <= '\u{7f}' by {
            lemma_ascii_char(f[i]);
        }
    }
    is_ascii_chars_encode_utf8(f);
    let e = encode_utf8(f);
    assert forall|i: int| 0 <= i < f.len() implies #[trigger] e[i] < 128 by {
        lemma_ascii_char(f[i]);
        assert(e[i] == f[i] as u8);
    }
    assert(ascii_bytes(e));
    assert(bytes_as_chars(e) =~= f) by {
        assert forall|i: int| 0 <= i < f.len() implies #[trigger] bytes_as_chars(e)[i] == f[i] by {
            lemma_ascii_char(f[i]);
            assert(e[i] == f[i] as u8);
        }
    }
}

proof fn lemma_pad_ascii(s: Seq<char>, w: nat)
    requires
        all_ascii(s),
    ensures
        all_ascii(pad_right(s, w)),
        s.len() <= w ==> pad_right(s, w).len() == w,
        forall|i: int| 0 <= i < s.len() ==> #[trigger] pad_right(s, w)[i] == s[i],
        forall|i: int| s.len() <= i < w ==> #[trigger] pad_right(s, w)[i] == ' ',
{
    let p = pad_right(s, w);
    assert forall|i: int| 0 <= i < p.len() implies is_ascii_char(#[trigger] p[i]) by {
        if i < s.len() {
            assert(is_ascii_char(s[i]));
        }
    }
}

/// The END card as written: "END" and 77 blanks, whatever value and comment
/// it was given.
proof fn lemma_end_card(v: Seq<char>, c: Seq<char>)
    ensures
        formatted_card(word_end(), v, c) == pad_right(word_end(), 80),
        encode_utf8(formatted_card(word_end(), v, c)) == end_chunk(),
        end_chunk().len() == 80,
        is_end_card(end_chunk()),
{
    let e = word_end();
    assert(all_ascii(e)) by {
        assert forall|i: int| 0 <= i < e.len() implies is_ascii_char(#[trigger] e[i]) by {}
    }
    assert(trimmed(e));
    assert(trim_text(e) == e);
    lemma_ascii_upper_ascii(e);
    assert(ascii_upper_text(e) =~= e);
    assert(upper_text(trim_text(e)) == e);
    lemma_pad_ascii(e, 80);
    lemma_ascii_bytes(pad_right(e, 80));
    let f = pad_right(e, 80);
    assert(f[0] == 'E' && f[1] == 'N' && f[2] == 'D' && f[3] == ' ');
}

/// A good short card is written as 80 ASCII bytes that do not end the
/// header and that read back as its keyword, value and comment.
proof fn lemma_good_short_chunk(c: CardFields)
    requires
        good_short_card(c),
    ensures
        value_read(c) == value_read_back(c.1),
        chunk(c).len() == 80,
        !is_end_card(chunk(c)),
        c.0 != word_end(),
        trim_end_text(decode_text(chunk(c))) == trim_end_text(formatted_card(c.0, c.1, c.2)),
        parsed_card(trim_end_text(decode_text(chunk(c)))) == Some(
            (read_key(c), value_read_back(c.1), c.2),
        ),
{
    let ku = ascii_upper_text(trim_text(c.0));
    assert(!is_hierarch(ku)) by {
        lemma_trim_ascii(c.0);
        lemma_ascii_upper_ascii(trim_text(c.0));
        crate::text::lemma_ascii_width(ku);
        if starts_with(ku, hierarch_prefix()) {
            assert(hierarch_prefix().len() == 9);
        }
    }
    assert(read_key(c) == ku);
    assert(value_read(c) == value_read_back(c.1));
    assert(ascii_upper_text(trim_text(word_end())) == word_end()) by {
        lemma_end_card(Seq::empty(), Seq::empty());
        lemma_ascii_upper_ascii(word_end());
        assert(ascii_upper_text(word_end()) =~= word_end());
    }
    assert(ku != word_end()) by {
        if ku == word_end() {
            assert(ends_header(ku));
        }
    }
    assert(c.0 != word_end());
    lemma_short_card_text(c.0, c.1, c.2);
    lemma_card_round_trip(c.0, c.1, c.2);
    let body = short_card(ku, crate::card::format_value(c.1), c.2);
    let f = formatted_card(c.0, c.1, c.2);
    lemma_pad_ascii(body, 80);
    lemma_ascii_bytes(f);
    lemma_pad_ascii(ku, 8);
    let pk = pad_right(ku, 8);
    assert(body.take(8) =~= pk);
    assert forall|i: int| 0 <= i < 8 implies #[trigger] f[i] == pk[i] by {
        assert(body[i] == pk[i]);
    }
    let e = chunk(c);
    assert(!is_end_card(e)) by {
        if is_end_card(e) {
            assert(e[0] == f[0] as u8 && e[1] == f[1] as u8 && e[2] == f[2] as u8 && e[3] == f[3] as u8);
            assert(all_ascii(pk));
            assert(is_ascii_char(f[0]) && is_ascii_char(f[1]) && is_ascii_char(f[2]) && is_ascii_char(f[3]));
            assert(f[0] == 'E' && f[1] == 'N' && f[2] == 'D');
            assert(f[3] == ' ' || f[3] == '\0');
            if ku.len() <= 3 {
                assert(ku.len() == 3) by {
                    if ku.len() < 3 {
                        assert(pk[2] == ' ');
                    }
                }
                assert(ends_header(ku));
            } else {
                assert(pk[3] == ku[3]);
                assert(ends_header(ku));
            }
        }
    }
}

proof fn lemma_good_long_chunk(c: CardFields)
    requires
        long_card_ok(c.0, c.1, c.2),
    ensures
        chunk(c).len() == 80,
        !is_end_card(chunk(c)),
        c.0 != word_end(),
        parsed_card(trim_end_text(decode_text(chunk(c)))) == Some(
            (read_key(c), value_read_back(c.1), c.2),
        ),
{
    lemma_long_card_text(c.0, c.1, c.2);
    lemma_long_card_round_trip(c.0, c.1, c.2);
    let ku = ascii_upper_text(trim_text(c.0));
    let body = long_card(hierarch_keyword(ku), crate::card::format_value(c.1), c.2);
    let f = formatted_card(c.0, c.1, c.2);
    lemma_pad_ascii(body, 80);
    lemma_ascii_bytes(f);
    assert(f[0] == body[0]);
    lemma_ascii_char(f[0]);
    assert(chunk(c)[0] == 72);
    assert(c.0 != word_end()) by {
        if c.0 == word_end() {
            lemma_end_card(c.1, c.2);
            assert(f == pad_right(word_end(), 80));
            assert(f[0] == 'E');
        }
    }
}

proof fn lemma_commentary_chunk(c: CardFields)
    requires
        commentary_ok(c.0, c.1, c.2),
    ensures
        chunk(c).len() == 80,
        !is_end_card(chunk(c)),
        c.0 != word_end(),
        parsed_card(trim_end_text(decode_text(chunk(c)))) matches Some(r) && r.0 == read_key(c) && r.1
            == value_read(c),
{
    lemma_commentary_round_trip(c.0, c.1, c.2);
    let ku = ascii_upper_text(trim_text(c.0));
    let body = crate::card::commentary_body(ku, c.1, c.2);
    let f = formatted_card(c.0, c.1, c.2);
    lemma_pad_ascii(body, 80);
    lemma_ascii_bytes(f);
    assert(f[0] == body[0]);
    lemma_ascii_char(f[0]);
    assert(chunk(c)[0] == 67 || chunk(c)[0] == 72);
    assert(ku.len() == 7);
    assert(!is_hierarch(ku)) by {
        lemma_trim_ascii(c.0);
        lemma_ascii_upper_ascii(trim_text(c.0));
        crate::text::lemma_ascii_width(ku);
        if starts_with(ku, hierarch_prefix()) {
            assert(hierarch_prefix().len() == 9);
        }
    }
    assert(read_key(c) == ku);
    assert(c.0 != word_end()) by {
        if c.0 == word_end() {
            lemma_end_card(c.1, c.2);
            assert(f == pad_right(word_end(), 80));
            assert(f[0] == 'E');
        }
    }
}

/// A good card is written as 80 ASCII bytes that do not end the header and
/// that read back as its keyword and value.
proof fn lemma_good_chunk(c: CardFields)
    requires
        good_card(c),
    ensures
        chunk(c).len() == 80,
        !is_end_card(chunk(c)),
        c.0 != word_end(),
        parsed_card(trim_end_text(decode_text(chunk(c)))) matches Some(r) && r.0 == read_key(c) && r.1
            == value_read(c),
{
    if good_short_card(c) {
        lemma_good_short_chunk(c);
    } else if long_card_ok(c.0, c.1, c.2) {
        lemma_good_long_chunk(c);
        lemma_long_key(c.0);
        assert(value_read(c) == value_read_back(c.1));
    } else {
        lemma_commentary_chunk(c);
    }
}

/// The bytes of a header written from `cards` followed by `tail` (nothing,
/// or cards from an END card on), filled to whole blocks.
pub open spec fn header_bytes(cards: Seq<CardFields>, tail: Seq<CardFields>) -> Seq<u8> {
    pad_to_block(written_cards(cards + tail), 32)
}

pub open spec fn ends_with_end(tail: Seq<CardFields>) -> bool {
    tail.len() == 0 || tail[0].0 == word_end()
}

/// The written header: each card's 80 bytes in order, then the END card.
proof fn lemma_written_layout(cards: Seq<CardFields>, tail: Seq<CardFields>)
    requires
        all_good(cards),
        ends_with_end(tail),
    ensures
        written_cards(cards + tail).len() == 80 * (cards.len() + 1),
        forall|i: int|
            0 <= i < cards.len() ==> #[trigger] written_cards(cards + tail).subrange(80 * i, 80 * i + 80)
                == chunk(cards[i]),
        written_cards(cards + tail).subrange(80 * (cards.len() as int), 80 * (cards.len() as int) + 80) == end_chunk(),
    decreases cards.len(),
{
    let w = written_cards(cards + tail);
    let n = cards.len() as int;
    if n == 0 {
        assert(cards + tail =~= tail);
        if tail.len() == 0 {
            lemma_end_card(Seq::empty(), Seq::empty());
        } else {
            lemma_end_card(tail[0].1, tail[0].2);
        }
        assert(w.subrange(0, 80) =~= w);
    } else {
        let rest = cards.drop_first();
        assert((cards + tail).drop_first() =~= rest + tail);
        assert((cards + tail)[0] == cards[0]);
        assert(good_card(cards[0]));
        lemma_good_chunk(cards[0]);
        assert(all_good(rest)) by {
            assert forall|i: int| 0 <= i < rest.len() implies good_card(#[trigger] rest[i]) by {
                assert(rest[i] == cards[i + 1]);
            }
        }
        lemma_written_layout(rest, tail);
        let w2 = written_cards(rest + tail);
        assert(w == chunk(cards[0]) + w2);
        assert forall|i: int| 0 <= i < n implies #[trigger] w.subrange(80 * i, 80 * i + 80) == chunk(
            cards[i],
        ) by {
            if i == 0 {
                assert(w.subrange(0, 80) =~= chunk(cards[0]));
            } else {
                assert(rest[i - 1] == cards[i]);
                assert(w.subrange(80 * i, 80 * i + 80) =~= w2.subrange(80 * (i - 1), 80 * (i - 1) + 80));
            }
        }
        assert(w.subrange(80 * n, 80 * n + 80) =~= w2.subrange(80 * (n - 1), 80 * (n - 1) + 80));
    }
}

/// The state after reading the first `k` written cards.
pub open spec fn read_state(cards: Seq<CardFields>, k: nat) -> HeaderScan
    decreases k,
{
    if k == 0 {
        empty_scan()
    } else {
        add_card(read_state(cards, (k - 1) as nat), chunk(cards[k - 1]))
    }
}

/// The state once the END card is read.
pub open spec fn at_end(st: HeaderScan) -> HeaderScan {
    HeaderScan { cards: st.cards.push(end_card_view()), ended: true, ..st }
}

proof fn lemma_read_state(cards: Seq<CardFields>, k: nat)
    requires
        all_good(cards),
        k <= cards.len(),
    ensures
        read_state(cards, k).pairs == pairs_read(cards.take(k as int)),
        !read_state(cards, k).ended,
    decreases k,
{
    if k == 0 {
        assert(cards.take(0) =~= Seq::<CardFields>::empty());
    } else {
        let j = (k - 1) as nat;
        lemma_read_state(cards, j);
        let c = cards[j as int];
        assert(good_card(c));
        lemma_good_chunk(c);
        let t = cards.take(k as int);
        assert(t.drop_last() =~= cards.take(j as int));
        assert(t.last() == c);
    }
}

proof fn lemma_header_len(w: Seq<u8>, n: nat)
    requires
        w.len() == 80 * (n + 1),
    ensures
        pad_to_block(w, 32).len() == 2880 * (n / 36 + 1),
        pad_to_block(w, 32).subrange(0, w.len() as int) == w,
{
    let q = n / 36;
    let r = n % 36;
    assert(n == 36 * q + r);
    assert(w.len() == 2880 * q + 80 * (r + 1));
    let x = 80 * (r + 1);
    if r == 35 {
        assert(w.len() == 2880 * (q + 1));
        assert(w.len() % 2880 == 0) by (nonlinear_arith)
            requires
                w.len() == 2880 * (q + 1),
        ;
    } else {
        assert(0 < x < 2880);
        assert(w.len() % 2880 == x) by (nonlinear_arith)
            requires
                w.len() == 2880 * q + x,
                0 < x < 2880,
                q >= 0,
        ;
    }
    assert(pad_to_block(w, 32).subrange(0, w.len() as int) =~= w);
}

/// Card `j` of the block that starts `m` blocks into the header.
proof fn lemma_card_in_block(b: Seq<u8>, pos: int, h: Seq<u8>, m: int, j: int)
    requires
        0 <= pos,
        pos + h.len() <= b.len(),
        b.subrange(pos, pos + h.len()) == h,
        0 <= m,
        0 <= j < 36,
        2880 * m + 2880 <= h.len(),
    ensures
        block_fill(b, pos + 2880 * m) == 2880,
        card_at(block_at(b, pos + 2880 * m), j) == h.subrange(80 * (36 * m + j), 80 * (36 * m + j) + 80),
{
    let p = pos + 2880 * m;
    let blk = block_at(b, p);
    assert(blk =~= b.subrange(p, p + 2880));
    assert forall|k: int| 0 <= k < 80 implies #[trigger] card_at(blk, j)[k] == h.subrange(
        80 * (36 * m + j),
        80 * (36 * m + j) + 80,
    )[k] by {
        assert(card_at(blk, j)[k] == b[p + 80 * j + k]);
        assert(b[p + 80 * j + k] == b.subrange(pos, pos + h.len())[2880 * m + 80 * j + k]);
    }
    assert(card_at(blk, j) =~= h.subrange(80 * (36 * m + j), 80 * (36 * m + j) + 80));
}

proof fn lemma_good_tail(cards: Seq<CardFields>, i: int)
    requires
        all_good(cards),
        0 <= i < cards.len(),
    ensures
        good_card(cards[i]),
{
}

/// Reading the block `m` blocks into a written header from card `j` on.
proof fn lemma_scan_block(
    b: Seq<u8>,
    pos: int,
    cards: Seq<CardFields>,
    tail: Seq<CardFields>,
    m: int,
    j: int,
)
    requires
        all_good(cards),
        ends_with_end(tail),
        0 <= pos,
        pos + header_bytes(cards, tail).len() <= b.len(),
        b.subrange(pos, pos + header_bytes(cards, tail).len()) == header_bytes(cards, tail),
        0 <= m,
        0 <= j <= 36,
        36 * m + j <= cards.len(),
    ensures
        scan_block(block_at(b, pos + 2880 * m), j, read_state(cards, (36 * m + j) as nat)) == if cards.len()
            < 36 * m + 36 {
            at_end(read_state(cards, cards.len()))
        } else {
            read_state(cards, (36 * m + 36) as nat)
        },
    decreases 36 - j,
{
    let n = cards.len() as int;
    let h = header_bytes(cards, tail);
    let w = written_cards(cards + tail);
    let blk = block_at(b, pos + 2880 * m);
    let k = 36 * m + j;
    if j < 36 {
        lemma_written_layout(cards, tail);
        lemma_header_len(w, n as nat);
        assert(2880 * m + 2880 <= h.len()) by (nonlinear_arith)
            requires
                h.len() == 2880 * (n / 36 + 1),
                36 * m <= n,
                m >= 0,
                n >= 0,
        ;
        lemma_card_in_block(b, pos, h, m, j);
        assert(h.subrange(80 * k, 80 * k + 80) =~= w.subrange(80 * k, 80 * k + 80)) by {
            assert(h.subrange(0, w.len() as int) == w);
            assert forall|t: int| 0 <= t < 80 implies #[trigger] h.subrange(80 * k, 80 * k + 80)[t]
                == w.subrange(80 * k, 80 * k + 80)[t] by {
                assert(h[80 * k + t] == h.subrange(0, w.len() as int)[80 * k + t]);
            }
        }
        if k == n {
            lemma_end_card(Seq::empty(), Seq::empty());
            assert(card_at(blk, j) == end_chunk());
        } else {
            assert(card_at(blk, j) == chunk(cards[k]));
            lemma_good_tail(cards, k);
            lemma_good_chunk(cards[k]);
            assert(read_state(cards, (k + 1) as nat) == add_card(read_state(cards, k as nat), chunk(cards[k])));
            lemma_scan_block(b, pos, cards, tail, m, j + 1);
        }
    }
}

/// Reading a written header from the block `m` blocks into it.
proof fn lemma_scan_blocks(b: Seq<u8>, pos: int, cards: Seq<CardFields>, tail: Seq<CardFields>, m: int)
    requires
        all_good(cards),
        ends_with_end(tail),
        0 <= pos,
        pos + header_bytes(cards, tail).len() <= b.len(),
        b.subrange(pos, pos + header_bytes(cards, tail).len()) == header_bytes(cards, tail),
        0 <= m,
        36 * m <= cards.len(),
    ensures
        scan_header(b, pos + 2880 * m, read_state(cards, (36 * m) as nat)) == (
            at_end(read_state(cards, cards.len())),
            pos + 2880 * (cards.len() / 36 + 1),
            false,
        ),
    decreases cards.len() - 36 * m,
{
    let n = cards.len() as int;
    let h = header_bytes(cards, tail);
    let w = written_cards(cards + tail);
    lemma_written_layout(cards, tail);
    lemma_header_len(w, n as nat);
    assert(2880 * m + 2880 <= h.len()) by (nonlinear_arith)
        requires
            h.len() == 2880 * (n / 36 + 1),
            36 * m <= n,
            m >= 0,
            n >= 0,
    ;
    lemma_card_in_block(b, pos, h, m, 0);
    lemma_scan_block(b, pos, cards, tail, m, 0);
    if n < 36 * m + 36 {
        assert(n / 36 == m);
    } else {
        lemma_read_state(cards, (36 * m + 36) as nat);
        assert(pos + 2880 * m + 2880 == pos + 2880 * (m + 1));
        lemma_scan_blocks(b, pos, cards, tail, m + 1);
    }
}

/// Reading back a header written from good cards (and, after them, nothing
/// or an END card and whatever follows it) gives, keyword by keyword, the
/// values the cards were written with (none for COMMENT and HISTORY), a
/// later card of a keyword replacing an earlier one; reading ends at the END
/// card and moves past the header's last block.
pub proof fn lemma_header_round_trip(
    cards: Seq<CardFields>,
    tail: Seq<CardFields>,
    b: Seq<u8>,
    pos: int,
)
    requires
        all_good(cards),
        ends_with_end(tail),
        0 <= pos,
        pos + header_bytes(cards, tail).len() <= b.len(),
        b.subrange(pos, pos + header_bytes(cards, tail).len()) == header_bytes(cards, tail),
    ensures
        ({
            let (sc, p, eof) = scan_header(b, pos, empty_scan());
            &&& !eof
            &&& sc.ended
            &&& sc.pairs == pairs_read(cards)
            &&& p == pos + header_bytes(cards, tail).len()
        }),
{
    let n = cards.len();
    lemma_written_layout(cards, tail);
    lemma_header_len(written_cards(cards + tail), n);
    lemma_scan_blocks(b, pos, cards, tail, 0);
    lemma_read_state(cards, n);
    assert(cards.take(n as int) =~= cards);
    assert(read_state(cards, 0) == empty_scan());
}

proof fn lemma_store_nonempty(pairs: Seq<(Seq<char>, Seq<char>)>, key: Seq<char>, value: Seq<char>)
    ensures
        store(pairs, key, value).len() > 0,
    decreases pairs.len(),
{
}

proof fn lemma_walk_goes_on(b: Seq<u8>, pos: int, index: nat)
    requires
        index > 0,
    ensures
        walk(b, pos, index) is Ok,
    decreases b.len() - pos,
{
    if 0 <= pos <= b.len() {
        let (sc, p, eof) = scan_header(b, pos, empty_scan());
        if sc.pairs.len() != 0 {
            let (item, next) = hdu_item(b, p, index, sc);
            lemma_scan_header_moves(b, pos, empty_scan());
            assert(sc != empty_scan());
            lemma_walk_goes_on(b, next, index + 1);
        }
    }
}

/// What an HDU is written with: good cards (at least one), then nothing or
/// an END card and what follows, and a header that, read back as the HDU
/// numbered `index`, describes as many data bytes as the HDU has.
pub open spec fn written_as(
    h: HduInfo,
    updated: Map<usize, Vec<HeaderCard>>,
    cards: Seq<CardFields>,
    tail: Seq<CardFields>,
    index: nat,
) -> bool {
    &&& fields_of(cards_for(h, updated)) == cards + tail
    &&& cards.len() > 0
    &&& all_good(cards)
    &&& ends_with_end(tail)
    &&& raw_data_bytes(pairs_read(cards), index) == h.data_len
}

proof fn lemma_padded_len(x: Seq<u8>)
    requires
        x.len() > 0,
    ensures
        pad_to_block(x, 0).len() == ((x.len() + 2879) / 2880) * 2880,
{
    let n = x.len() as int;
    let q = n / 2880;
    let r = n % 2880;
    assert(n == 2880 * q + r);
    if r == 0 {
        assert((n + 2879) / 2880 == q) by (nonlinear_arith)
            requires
                n == 2880 * q,
                q >= 0,
        ;
    } else {
        assert((n + 2879) / 2880 == q + 1) by (nonlinear_arith)
            requires
                n == 2880 * q + r,
                0 < r < 2880,
                q >= 0,
        ;
    }
}

/// The data unit written for an HDU: its bytes from the original, filled
/// with zeros to whole blocks.
pub open spec fn data_block(orig: Seq<u8>, h: HduInfo) -> Seq<u8> {
    if h.data_len > 0 {
        pad_to_block(orig.subrange(h.data_offset as int, h.data_offset + h.data_len), 0)
    } else {
        Seq::empty()
    }
}

proof fn lemma_skip_parts(b: Seq<u8>, pos: int, x: Seq<u8>, y: Seq<u8>)
    requires
        0 <= pos <= b.len(),
        b.skip(pos) == x + y,
    ensures
        pos + x.len() <= b.len(),
        b.subrange(pos, pos + x.len()) == x,
        b.skip(pos + x.len()) == y,
{
    assert(b.skip(pos).len() == b.len() - pos);
    assert forall|t: int| 0 <= t < x.len() implies #[trigger] b.subrange(pos, pos + x.len())[t] == x[t] by {
        assert(b.skip(pos)[t] == b[pos + t]);
        assert((x + y)[t] == x[t]);
    }
    assert(b.subrange(pos, pos + x.len()) =~= x);
    assert forall|t: int| 0 <= t < y.len() implies #[trigger] b.skip(pos + x.len())[t] == y[t] by {
        assert(b.skip(pos)[x.len() + t] == (x + y)[x.len() + t]);
        assert(b.skip(pos)[x.len() + t] == b[pos + x.len() + t]);
        assert(b.skip(pos + x.len())[t] == b[pos + x.len() + t]);
    }
    assert(b.skip(pos + x.len()) =~= y);
}

/// The written file starts with the first HDU's header and data unit.
proof fn lemma_edited_first(
    orig: Seq<u8>,
    hdus: Seq<HduInfo>,
    updated: Map<usize, Vec<HeaderCard>>,
    c0: Seq<CardFields>,
    t0: Seq<CardFields>,
)
    requires
        hdus.len() > 0,
        fields_of(cards_for(hdus[0], updated)) == c0 + t0,
        edited_file(orig, hdus, updated) is Ok,
    ensures
        edited_file(orig, hdus.drop_first(), updated) is Ok,
        hdus[0].data_len > 0 ==> hdus[0].data_offset + hdus[0].data_len <= orig.len(),
        edited_file(orig, hdus, updated)->Ok_0 == header_bytes(c0, t0) + (data_block(orig, hdus[0])
            + edited_file(orig, hdus.drop_first(), updated)->Ok_0),
{
    let h = hdus[0];
    let w = written_hdu(orig, c0 + t0, h.data_offset as int, h.data_len as int);
    assert(w is Some);
    let rest = edited_file(orig, hdus.drop_first(), updated)->Ok_0;
    assert(w->Some_0 =~= header_bytes(c0, t0) + data_block(orig, h));
    assert(w->Some_0 + rest =~= header_bytes(c0, t0) + (data_block(orig, h) + rest));
}

/// The data unit is as long as the padded size of the data it holds.
proof fn lemma_data_block(orig: Seq<u8>, h: HduInfo, limit: int)
    requires
        h.data_len > 0 ==> h.data_offset + h.data_len <= orig.len(),
        data_block(orig, h).len() <= limit <= usize::MAX,
    ensures
        padded_bytes(h.data_len as nat) == data_block(orig, h).len(),
        h.data_len <= data_block(orig, h).len(),
{
    if h.data_len > 0 {
        let x = orig.subrange(h.data_offset as int, h.data_offset + h.data_len);
        lemma_padded_len(x);
    }
}

/// Reading an HDU whose header ended at `p` moves past its data unit.
proof fn lemma_hdu_item_moves(b: Seq<u8>, p: int, k: nat, sc: HeaderScan, dlen: int)
    requires
        0 <= p,
        p + dlen <= b.len(),
        padded_bytes(raw_data_bytes(sc.pairs, k)) == dlen,
        raw_data_bytes(sc.pairs, k) <= dlen,
    ensures
        hdu_item(b, p, k, sc).1 == p + dlen,
        hdu_item(b, p, k, sc).0.hdu.pairs == sc.pairs,
{
}

/// One step of reading a file: an HDU whose header has keywords, then the
/// HDUs after its data.
proof fn lemma_walk_step(b: Seq<u8>, pos: int, k: nat)
    requires
        0 <= pos <= b.len(),
        !scan_header(b, pos, empty_scan()).2,
        scan_header(b, pos, empty_scan()).0.pairs.len() > 0,
        walk(
            b,
            hdu_item(b, scan_header(b, pos, empty_scan()).1, k, scan_header(b, pos, empty_scan()).0).1,
            k + 1,
        ) is Ok,
    ensures
        walk(b, pos, k) == Ok::<Seq<HduItem>, FitsError>(
            seq![hdu_item(b, scan_header(b, pos, empty_scan()).1, k, scan_header(b, pos, empty_scan()).0).0]
                + walk(
                b,
                hdu_item(b, scan_header(b, pos, empty_scan()).1, k, scan_header(b, pos, empty_scan()).0).1,
                k + 1,
            )->Ok_0,
        ),
{
}

/// Reading the HDUs of the written file from `pos` on, where the rest of the
/// file is the HDUs `hdus` as written, the first of them numbered `k`.
#[verifier::spinoff_prover]
proof fn lemma_walk_edited(
    orig: Seq<u8>,
    hdus: Seq<HduInfo>,
    updated: Map<usize, Vec<HeaderCard>>,
    cards: Seq<Seq<CardFields>>,
    tails: Seq<Seq<CardFields>>,
    b: Seq<u8>,
    pos: int,
    k: nat,
)
    requires
        b.len() <= usize::MAX,
        0 <= pos <= b.len(),
        edited_file(orig, hdus, updated) is Ok,
        b.skip(pos) == edited_file(orig, hdus, updated)->Ok_0,
        k > 0 || hdus.len() > 0,
        cards.len() == hdus.len(),
        tails.len() == hdus.len(),
        forall|i: int|
            0 <= i < hdus.len() ==> #[trigger] written_as(hdus[i], updated, cards[i], tails[i], k + i as nat),
    ensures
        walk(b, pos, k) matches Ok(items) && items.len() == hdus.len() && forall|i: int|
            0 <= i < hdus.len() ==> #[trigger] items[i].hdu.pairs == pairs_read(cards[i]),
    decreases hdus.len(),
{
    if hdus.len() == 0 {
        assert(b.skip(pos).len() == 0);
        assert(pos == b.len());
        return;
    }
    let h = hdus[0];
    let c0 = cards[0];
    let t0 = tails[0];
    assert(written_as(h, updated, c0, t0, k + 0 as nat));
    let hb = header_bytes(c0, t0);
    let d = data_block(orig, h);
    lemma_edited_first(orig, hdus, updated, c0, t0);
    let rest = edited_file(orig, hdus.drop_first(), updated)->Ok_0;
    lemma_skip_parts(b, pos, hb, d + rest);
    lemma_skip_parts(b, pos + hb.len(), d, rest);
    lemma_header_round_trip(c0, t0, b, pos);
    let (sc, p, eof) = scan_header(b, pos, empty_scan());
    assert(sc.pairs.len() > 0) by {
        lemma_store_nonempty(pairs_read(c0.drop_last()), read_key(c0.last()), value_read(c0.last()));
    }
    lemma_data_block(orig, h, b.len() as int);
    let next = p + d.len();
    lemma_hdu_item_moves(b, p, k, sc, d.len() as int);
    let (item, nx) = hdu_item(b, p, k, sc);
    assert forall|i: int| 0 <= i < hdus.len() - 1 implies #[trigger] written_as(
        hdus.drop_first()[i],
        updated,
        cards.drop_first()[i],
        tails.drop_first()[i],
        (k + 1) + i as nat,
    ) by {
        assert(written_as(hdus[i + 1], updated, cards[i + 1], tails[i + 1], k + (i + 1) as nat));
    }
    lemma_walk_edited(orig, hdus.drop_first(), updated, cards.drop_first(), tails.drop_first(), b, next, k + 1);
    let items_rest = walk(b, next, k + 1)->Ok_0;
    lemma_walk_step(b, pos, k);
    assert forall|i: int| 0 <= i < hdus.len() implies #[trigger] (seq![item] + items_rest)[i].hdu.pairs
        == pairs_read(cards[i]) by {
        if i > 0 {
            assert((seq![item] + items_rest)[i] == items_rest[i - 1]);
            assert(items_rest[i - 1].hdu.pairs == pairs_read(cards.drop_first()[i - 1]));
        }
    }
}

/// Reading a file written with edited headers gives back, HDU by HDU, the
/// keyword values of the cards each was written with (none for COMMENT and
/// HISTORY), a later card of a keyword replacing an earlier one: when each
/// HDU is written with good cards (at least one, followed by nothing or by
/// an END card and what comes after) and its header still describes as many
/// data bytes as it has.
pub proof fn lemma_edited_file_reads_back(
    orig: Seq<u8>,
    hdus: Seq<HduInfo>,
    updated: Map<usize, Vec<HeaderCard>>,
    cards: Seq<Seq<CardFields>>,
    tails: Seq<Seq<CardFields>>,
)
    requires
        hdus.len() > 0,
        cards.len() == hdus.len(),
        tails.len() == hdus.len(),
        forall|i: int|
            0 <= i < hdus.len() ==> #[trigger] written_as(hdus[i], updated, cards[i], tails[i], i as nat),
        edited_file(orig, hdus, updated) is Ok,
        edited_file(orig, hdus, updated)->Ok_0.len() <= usize::MAX,
    ensures
        walk(edited_file(orig, hdus, updated)->Ok_0, 0, 0) matches Ok(items) && items.len() == hdus.len()
            && forall|i: int| 0 <= i < hdus.len() ==> #[trigger] items[i].hdu.pairs == pairs_read(cards[i]),
{
    let b = edited_file(orig, hdus, updated)->Ok_0;
    assert(b.skip(0) =~= b);
    assert forall|i: int| 0 <= i < hdus.len() implies #[trigger] written_as(
        hdus[i],
        updated,
        cards[i],
        tails[i],
        0 + i as nat,
    ) by {
        assert(written_as(hdus[i], updated, cards[i], tails[i], i as nat));
    }
    lemma_walk_edited(orig, hdus, updated, cards, tails, b, 0, 0);
}

/// The value a reader finds for `key` in cards written in this order: that
/// of the last card with that keyword.
pub open spec fn last_value(cards: Seq<CardFields>, key: Seq<char>) -> Option<Seq<char>>
    decreases cards.len(),
{
    if cards.len() == 0 {
        None
    } else if read_key(cards.last()) == key {
        Some(value_read(cards.last()))
    } else {
        last_value(cards.drop_last(), key)
    }
}

/// Looking a keyword up among the values read gives the value of the last
/// card written with it, and nothing for a keyword no card has.
pub proof fn lemma_pairs_read_lookup(cards: Seq<CardFields>, key: Seq<char>)
    ensures
        lookup(pairs_read(cards), key) == last_value(cards, key),
    decreases cards.len(),
{
    if cards.len() > 0 {
        lemma_pairs_read_lookup(cards.drop_last(), key);
        lemma_store_lookup(
            pairs_read(cards.drop_last()),
            read_key(cards.last()),
            value_read(cards.last()),
            key,
        );
    }
}

} // verus!
