//! What holds of every file read: how its HDUs are numbered, where pixels
//! and tables belong, and where names and keyword tables come from.
use vstd::prelude::*;
use crate::card::parsed_card;
use crate::fits::{
    add_card, block_at, card_at, cards_view, contents_are, empty_scan, end_card_view, hdu_item,
    is_end_card, item_of, lemma_scan_header_moves, scan_block, scan_header, walk, CardModel,
    FitsContents, HeaderScan, HduItem,
};
use crate::hdu::hdu_name;
use crate::header_map::store;
use crate::text::{decode_text, lemma_trim_end_keeps_start, pad_right, trim_end_text, trim_text, white_space};

verus! {

/// The keyword table made from cards read in order: each card sets its
/// keyword to its value, a later card replacing an earlier one; the END card
/// that closes the header sets nothing.
pub open spec fn pairs_of_cards(cards: Seq<CardModel>) -> Seq<(Seq<char>, Seq<char>)>
    decreases cards.len(),
{
    if cards.len() == 0 {
        Seq::empty()
    } else if cards.last() == end_card_view() {
        pairs_of_cards(cards.drop_last())
    } else {
        store(pairs_of_cards(cards.drop_last()), cards.last().0, cards.last().1)
    }
}

pub open spec fn scan_ok(st: HeaderScan) -> bool {
    st.pairs == pairs_of_cards(st.cards)
}

proof fn lemma_add_card_ok(st: HeaderScan, c: Seq<u8>)
    requires
        scan_ok(st),
    ensures
        scan_ok(add_card(st, c)),
{
    let s = trim_end_text(decode_text(c));
    match parsed_card(s) {
        Some((k, v, m)) => {
            let x: CardModel = (k, v, m, s);
            assert(s.len() > 0) by {
                if s.len() == 0 {
                    assert(trim_text(s).len() == 0);
                }
            }
            lemma_trim_end_keeps_start(decode_text(c));
            let e = end_card_view();
            assert(e.3.last() == ' ');
            assert(x != e) by {
                if x == e {
                    assert(s.last() == e.3.last());
                }
            }
            let cards = st.cards.push(x);
            assert(cards.drop_last() =~= st.cards);
            assert(cards.last() == x);
        },
        None => {},
    }
}

proof fn lemma_scan_block_ok(blk: Seq<u8>, j: int, st: HeaderScan)
    requires
        scan_ok(st),
    ensures
        scan_ok(scan_block(blk, j, st)),
    decreases 36 - j,
{
    if 0 <= j < 36 {
        if is_end_card(card_at(blk, j)) {
            let cards = st.cards.push(end_card_view());
            assert(cards.drop_last() =~= st.cards);
        } else {
            lemma_add_card_ok(st, card_at(blk, j));
            lemma_scan_block_ok(blk, j + 1, add_card(st, card_at(blk, j)));
        }
    }
}

proof fn lemma_scan_header_ok(b: Seq<u8>, pos: int, st: HeaderScan)
    requires
        scan_ok(st),
    ensures
        scan_ok(scan_header(b, pos, st).0),
    decreases b.len() - pos,
{
    if 0 <= pos < b.len() {
        let st2 = scan_block(block_at(b, pos), 0, st);
        lemma_scan_block_ok(block_at(b, pos), 0, st);
        let np = pos + crate::fits::block_fill(b, pos);
        if !st2.ended {
            lemma_scan_header_ok(b, np, st2);
        }
    }
}

/// What holds of each HDU read from `pos` on, the first numbered `k`.
pub open spec fn items_ok(items: Seq<HduItem>, k: nat) -> bool {
    forall|i: int|
        0 <= i < items.len() ==> {
            let it = #[trigger] items[i];
            &&& it.hdu.index == k + i
            &&& (it.pixels is Some ==> it.hdu.is_image)
            &&& (it.table is Some ==> !it.hdu.is_image)
            &&& it.hdu.name == hdu_name(it.hdu.pairs, (k + i) as nat)
            &&& it.hdu.pairs == pairs_of_cards(it.hdu.cards)
        }
}

proof fn lemma_walk_ok(b: Seq<u8>, pos: int, k: nat)
    ensures
        walk(b, pos, k) matches Ok(items) ==> items_ok(items, k) && (k == 0 && 0 <= pos <= b.len()
            ==> items.len() >= 1),
    decreases b.len() - pos,
{
    if 0 <= pos <= b.len() {
        let (sc, p, eof) = scan_header(b, pos, empty_scan());
        assert(pairs_of_cards(Seq::<CardModel>::empty()) == Seq::<(Seq<char>, Seq<char>)>::empty());
        lemma_scan_header_ok(b, pos, empty_scan());
        if sc.pairs.len() != 0 && !(k == 0 && eof) {
            let (item, next) = hdu_item(b, p, k, sc);
            lemma_scan_header_moves(b, pos, empty_scan());
            assert(sc != empty_scan());
            lemma_walk_ok(b, next, k + 1);
            match walk(b, next, k + 1) {
                Ok(rest) => {
                    let all = seq![item] + rest;
                    assert forall|i: int| 0 <= i < all.len() implies {
                        let it = #[trigger] all[i];
                        &&& it.hdu.index == k + i
                        &&& (it.pixels is Some ==> it.hdu.is_image)
                        &&& (it.table is Some ==> !it.hdu.is_image)
                        &&& it.hdu.name == hdu_name(it.hdu.pairs, (k + i) as nat)
                        &&& it.hdu.pairs == pairs_of_cards(it.hdu.cards)
                    } by {
                        if i > 0 {
                            assert(all[i] == rest[i - 1]);
                            assert(k + 1 + (i - 1) == k + i);
                        }
                    }
                },
                Err(_) => {},
            }
        }
    }
}

/// Every file read has at least one HDU; its HDUs are numbered 0, 1, ... in
/// order; pixels belong to image HDUs and tables to the others; each HDU is
/// named by its EXTNAME (or PRIMARY for the first, EXT_n for the others); and
/// its keyword table is made from its cards in order, a later card of a
/// keyword replacing an earlier one.
pub proof fn lemma_read_file_shape(b: Seq<u8>, c: FitsContents)
    requires
        walk(b, 0, 0) matches Ok(items) && contents_are(c, items),
    ensures
        c.hdus@.len() >= 1,
        forall|i: int|
            0 <= i < c.hdus@.len() ==> {
                let h = #[trigger] c.hdus@[i];
                &&& h.index == i
                &&& (c.pixels@[i] is Some ==> h.is_image)
                &&& (c.tables@[i] is Some ==> !h.is_image)
                &&& h.name@ == hdu_name(h.header_cards.pairs(), i as nat)
                &&& h.header_cards.pairs() == pairs_of_cards(cards_view(h.cards_list@))
            },
{
    lemma_walk_ok(b, 0, 0);
    let items = walk(b, 0, 0)->Ok_0;
    assert forall|i: int| 0 <= i < c.hdus@.len() implies {
        let h = #[trigger] c.hdus@[i];
        &&& h.index == i
        &&& (c.pixels@[i] is Some ==> h.is_image)
        &&& (c.tables@[i] is Some ==> !h.is_image)
        &&& h.name@ == hdu_name(h.header_cards.pairs(), i as nat)
        &&& h.header_cards.pairs() == pairs_of_cards(cards_view(h.cards_list@))
    } by {
        assert(item_of(c.hdus@[i], c.tables@[i], c.pixels@[i]) == items[i]);
        let it = items[i];
        assert(it.hdu.index == 0 + i);
    }
}

} // verus!
