//! Writing a FITS file with edited headers: each header rebuilt from its
//! cards, each data unit copied from the original.
use vstd::prelude::*;
use std::collections::BTreeMap;
use vstd::utf8::encode_utf8;
use vstd::string::StringSliceAdditionalSpecFns;
use crate::card::{format_card_chars, formatted_card, word_end, HeaderCard};
use crate::hdu::HduInfo;
use crate::text::{chars_of, same_chars};

verus! {

broadcast use vstd::laws_cmp::group_laws_cmp;

/// Keyword, value and comment of a card to write.
pub open spec fn card_fields(c: HeaderCard) -> (Seq<char>, Seq<char>, Seq<char>) {
    (c.keyword@, c.value@, c.comment@)
}

pub open spec fn fields_of(cards: Seq<HeaderCard>) -> Seq<(Seq<char>, Seq<char>, Seq<char>)> {
    Seq::new(cards.len(), |i: int| card_fields(cards[i]))
}

/// The cards of a header in bytes: each card as `format_card` writes it,
/// up to and including the first card whose keyword is END, and an END card
/// at the end when there is none.
pub open spec fn written_cards(cards: Seq<(Seq<char>, Seq<char>, Seq<char>)>) -> Seq<u8>
    decreases cards.len(),
{
    if cards.len() == 0 {
        encode_utf8(formatted_card(word_end(), Seq::empty(), Seq::empty()))
    } else {
        let c = cards[0];
        let bytes = encode_utf8(formatted_card(c.0, c.1, c.2));
        if c.0 == word_end() {
            bytes
        } else {
            bytes + written_cards(cards.drop_first())
        }
    }
}

/// Bytes filled up to a whole number of 2880-byte blocks.
pub open spec fn pad_to_block(b: Seq<u8>, fill: u8) -> Seq<u8> {
    if b.len() % 2880 == 0 {
        b
    } else {
        b + Seq::new((2880 - b.len() % 2880) as nat, |_i: int| fill)
    }
}

/// One HDU written out: its header from the cards, then (when it has data)
/// its data bytes from the original file padded with zeros; `None` when
/// the data lie beyond the end of the original.
pub open spec fn written_hdu(
    orig: Seq<u8>,
    cards: Seq<(Seq<char>, Seq<char>, Seq<char>)>,
    offset: int,
    len: int,
) -> Option<Seq<u8>> {
    let header = pad_to_block(written_cards(cards), 32);
    if len > 0 {
        if offset + len > orig.len() {
            None
        } else {
            Some(header + pad_to_block(orig.subrange(offset, offset + len), 0))
        }
    } else {
        Some(header)
    }
}

/// The cards written for an HDU: the edited ones when there are some for
/// its index, else those read.
pub open spec fn cards_for(h: HduInfo, updated: Map<usize, Vec<HeaderCard>>) -> Seq<HeaderCard> {
    if updated.contains_key(h.index) {
        updated[h.index]@
    } else {
        h.cards_list@
    }
}

/// The edited file: the HDUs written in order; the error names the first
/// HDU whose data could not be read from the original.
pub open spec fn edited_file(
    orig: Seq<u8>,
    hdus: Seq<HduInfo>,
    updated: Map<usize, Vec<HeaderCard>>,
) -> Result<Seq<u8>, usize>
    decreases hdus.len(),
{
    if hdus.len() == 0 {
        Ok(Seq::empty())
    } else {
        let h = hdus[0];
        match written_hdu(
            orig,
            fields_of(cards_for(h, updated)),
            h.data_offset as int,
            h.data_len as int,
        ) {
            None => Err(h.index),
            Some(first) => match edited_file(orig, hdus.drop_first(), updated) {
                Ok(rest) => Ok(first + rest),
                Err(i) => Err(i),
            },
        }
    }
}

/// Why an edited file could not be built.
#[derive(Clone, Copy, Debug, PartialEq, Eq)]
pub enum EditError {
    /// The data of this HDU lie beyond the end of the original file.
    DataOutOfRange { hdu: usize },
}

fn push_bytes(out: &mut Vec<u8>, b: &[u8])
    ensures
        final(out)@ == old(out)@ + b@,
{
    let mut i: usize = 0;
    while i < b.len()
        invariant
            0 <= i <= b.len(),
            out@ == old(out)@ + b@.take(i as int),
        decreases b.len() - i,
    {
        out.push(b[i]);
        i = i + 1;
        assert(out@ =~= old(out)@ + b@.take(i as int));
    }
    assert(b@.take(b.len() as int) =~= b@);
}

fn pad_block_exec(out: &mut Vec<u8>, start: usize, fill: u8)
    requires
        start <= old(out)@.len(),
    ensures
        final(out)@ == old(out)@.take(start as int) + pad_to_block(
            old(out)@.skip(start as int),
            fill,
        ),
{
    let n = out.len() - start;
    let rem = n % 2880;
    assert(old(out)@ =~= old(out)@.take(start as int) + old(out)@.skip(start as int));
    if rem != 0 {
        let mut k: usize = 0;
        let need: usize = 2880 - rem;
        while k < need
            invariant
                0 <= k <= need,
                out@ == old(out)@ + Seq::new(k as nat, |_i: int| fill),
            decreases need - k,
        {
            out.push(fill);
            k = k + 1;
            assert(out@ =~= old(out)@ + Seq::new(k as nat, |_i: int| fill));
        }
        assert(out@ =~= old(out)@.take(start as int) + (old(out)@.skip(start as int) + Seq::new(
            (2880 - old(out)@.skip(start as int).len() % 2880) as nat,
            |_i: int| fill,
        )));
    }
}

/// Appends the bytes of a card as `format_card` writes it.
fn push_card(out: &mut Vec<u8>, keyword: &str, value: &str, comment: &str)
    ensures
        final(out)@ == old(out)@ + encode_utf8(formatted_card(keyword@, value@, comment@)),
{
    let s = HeaderCard::format_card(keyword, value, comment);
    let b = s.as_str().as_bytes();
    push_bytes(out, b);
}

fn is_end_keyword(k: &String) -> (r: bool)
    ensures
        r == (k@ == word_end()),
{
    let end = vec!['E', 'N', 'D'];
    assert(end@ =~= word_end());
    same_chars(chars_of(k.as_str()).as_slice(), end.as_slice())
}

/// Appends the cards of a header, up to the first END (adding one if none).
fn push_header_cards(out: &mut Vec<u8>, cards: &Vec<HeaderCard>)
    ensures
        final(out)@ == old(out)@ + written_cards(fields_of(cards@)),
{
    let ghost all = fields_of(cards@);
    let mut i: usize = 0;
    assert(all.skip(0) =~= all);
    while i < cards.len()
        invariant
            0 <= i <= cards@.len(),
            all == fields_of(cards@),
            old(out)@ + written_cards(all) == out@ + written_cards(all.skip(i as int)),
        decreases cards.len() - i,
    {
        let c = &cards[i];
        assert(all.skip(i as int)[0] == card_fields(*c));
        assert(all.skip(i as int).drop_first() =~= all.skip(i + 1));
        let ghost before = out@;
        push_card(out, c.keyword.as_str(), c.value.as_str(), c.comment.as_str());
        if is_end_keyword(&c.keyword) {
            assert(out@ =~= before + written_cards(all.skip(i as int)));
            assert(old(out)@ + written_cards(all) =~= out@);
            return;
        }
        assert(out@ + written_cards(all.skip(i + 1)) =~= before + written_cards(all.skip(i as int)));
        i = i + 1;
    }
    assert(all.skip(cards.len() as int) =~= Seq::<(Seq<char>, Seq<char>, Seq<char>)>::empty());
    push_card(out, "END", "", "");
    proof {
        reveal_strlit("END");
        reveal_strlit("");
        assert("END"@ =~= word_end());
        assert(""@ =~= Seq::<char>::empty());
    }
}

/// The bytes of a file whose HDUs are those read from `orig`, with the
/// headers of the HDUs named in `updated` replaced by the cards given there.
pub fn build_edited_file(
    orig: &[u8],
    hdus: &Vec<HduInfo>,
    updated: &BTreeMap<usize, Vec<HeaderCard>>,
) -> (r: Result<Vec<u8>, EditError>)
    ensures
        match r {
            Ok(bytes) => edited_file(orig@, hdus@, updated@) == Ok::<Seq<u8>, usize>(bytes@),
            Err(EditError::DataOutOfRange { hdu }) => edited_file(orig@, hdus@, updated@)
                == Err::<Seq<u8>, usize>(hdu),
        },
{
    let mut out: Vec<u8> = Vec::new();
    let mut i: usize = 0;
    assert(hdus@.skip(0) =~= hdus@);
    while i < hdus.len()
        invariant
            0 <= i <= hdus@.len(),
            edited_file(orig@, hdus@, updated@) == match edited_file(
                orig@,
                hdus@.skip(i as int),
                updated@,
            ) {
                Ok(rest) => Ok(out@ + rest),
                Err(e) => Err(e),
            },
        decreases hdus.len() - i,
    {
        let h = &hdus[i];
        assert(hdus@.skip(i as int)[0] == *h);
        assert(hdus@.skip(i as int).drop_first() =~= hdus@.skip(i + 1));
        let cards = match updated.get(&h.index) {
            Some(c) => c,
            None => &h.cards_list,
        };
        assert(cards@ == cards_for(*h, updated@));
        let start = out.len();
        let ghost before = out@;
        push_header_cards(&mut out, cards);
        pad_block_exec(&mut out, start, 32u8);
        assert(out@.take(start as int) =~= before);
        assert(out@ =~= before + pad_to_block(written_cards(fields_of(cards@)), 32)) by {
            assert((before + written_cards(fields_of(cards@))).skip(start as int) =~= written_cards(
                fields_of(cards@),
            ));
            assert((before + written_cards(fields_of(cards@))).take(start as int) =~= before);
        }
        if h.data_len > 0 {
            let off = h.data_offset;
            if off > orig.len() as u64 || h.data_len > orig.len() - (off as usize) {
                return Err(EditError::DataOutOfRange { hdu: h.index });
            }
            let o = off as usize;
            let data_start = out.len();
            let ghost with_header = out@;
            push_bytes(&mut out, &orig[o..o + h.data_len]);
            pad_block_exec(&mut out, data_start, 0u8);
            assert(out@.take(data_start as int) =~= with_header);
            assert((with_header + orig@.subrange(o as int, o + h.data_len)).skip(
                data_start as int,
            ) =~= orig@.subrange(o as int, o + h.data_len));
        }
        proof {
            let w = written_hdu(
                orig@,
                fields_of(cards_for(*h, updated@)),
                h.data_offset as int,
                h.data_len as int,
            );
            assert(w is Some);
            assert(out@ =~= before + w.unwrap());
            match edited_file(orig@, hdus@.skip(i + 1), updated@) {
                Ok(rest) => {
                    assert(before + (w.unwrap() + rest) =~= out@ + rest);
                },
                Err(_) => {},
            }
        }
        i = i + 1;
    }
    assert(out@ + Seq::<u8>::empty() =~= out@);
    Ok(out)
}

/// Whether `p` is where a new card goes among `cards`: just before the first
/// END card, or after the last card when there is no END card.
pub open spec fn is_end_position(cards: Seq<HeaderCard>, p: int) -> bool {
    &&& 0 <= p <= cards.len()
    &&& forall|j: int| 0 <= j < p ==> (#[trigger] cards[j]).keyword@ != word_end()
    &&& p < cards.len() ==> cards[p].keyword@ == word_end()
}

/// Adds a card to a header's cards, before its END card (at the end when it
/// has none).
pub fn insert_before_end(cards: &mut Vec<HeaderCard>, card: HeaderCard)
    ensures
        exists|p: int|
            is_end_position(old(cards)@, p) && final(cards)@ == old(cards)@.insert(p, card),
{
    let mut i: usize = 0;
    while i < cards.len()
        invariant
            0 <= i <= cards@.len(),
            cards@ == old(cards)@,
            forall|j: int| 0 <= j < i ==> (#[trigger] cards@[j]).keyword@ != word_end(),
        ensures
            0 <= i <= cards@.len(),
            cards@ == old(cards)@,
            forall|j: int| 0 <= j < i ==> (#[trigger] cards@[j]).keyword@ != word_end(),
            i < cards@.len() ==> cards@[i as int].keyword@ == word_end(),
        decreases cards.len() - i,
    {
        if is_end_keyword(&cards[i].keyword) {
            break;
        }
        i = i + 1;
    }
    let ghost before = cards@;
    assert(is_end_position(before, i as int));
    cards.insert(i, card);
}

/// The file name of the edited copy for a file whose name without its
/// extension is `stem`: `<stem>_edited.fits`.
pub open spec fn edited_name(stem: Seq<char>) -> Seq<char> {
    stem + seq!['_', 'e', 'd', 'i', 't', 'e', 'd', '.', 'f', 'i', 't', 's']
}

/// The name for the edited copy: `<stem>_edited.fits`.
pub fn edited_file_name(stem: &str) -> (r: String)
    ensures
        r@ == edited_name(stem@),
{
    let mut r = chars_of(stem);
    let tail = vec!['_', 'e', 'd', 'i', 't', 'e', 'd', '.', 'f', 'i', 't', 's'];
    crate::text::append_chars(&mut r, tail.as_slice());
    assert(r@ =~= edited_name(stem@));
    crate::text::string_of(r.as_slice())
}

/// The edited copy never takes the name of the file it was made from: for
/// a file named `<stem>` plus an extension (empty, or starting with '.'),
/// the name of the copy is a different one, and it ends in `_edited.fits`.
pub proof fn lemma_edited_name_differs(stem: Seq<char>, ext: Seq<char>)
    requires
        ext.len() == 0 || ext[0] == '.',
    ensures
        edited_name(stem) != stem + ext,
        crate::text::ends_with(
            edited_name(stem),
            seq!['_', 'e', 'd', 'i', 't', 'e', 'd', '.', 'f', 'i', 't', 's'],
        ),
{
    let suffix = seq!['_', 'e', 'd', 'i', 't', 'e', 'd', '.', 'f', 'i', 't', 's'];
    assert(edited_name(stem).skip(edited_name(stem).len() - suffix.len()) =~= suffix);
    let n = edited_name(stem);
    if n == stem + ext {
        assert(n.len() > stem.len());
        assert(n[stem.len() as int] == '_');
        assert((stem + ext)[stem.len() as int] == ext[0]);
    }
}

} // verus!
