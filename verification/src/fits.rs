//! Walking the HDUs of a FITS file: headers in 2880-byte blocks of 80-byte
//! cards up to END, then the data that the header describes.
use vstd::prelude::*;
use crate::card::{parse_header_card_chars, parsed_card, word_end, HeaderCard, CARD_WIDTH};
use crate::compressed::{parse_compressed_fits_image, tile_image};
use crate::hdu::{
    card_i64, hdu_bitpix, hdu_bitpix_of, hdu_is_image, hdu_is_image_of, hdu_name, hdu_name_of,
    hdu_naxis, hdu_shape, hdu_shape_of, hdu_xtension, hdu_xtension_of, is_compressed_image,
    is_compressed_image_of, keyword_vec, kw_blank, padded_bytes, padded_bytes_of, parse_fits_i64_card,
    pixel_count, pixel_count_of, raw_data_bytes, raw_data_bytes_of, clamp_size, HduInfo,
};
use crate::header_map::{store, HeaderMap};
use crate::image::{image_layout, image_layout_of, ImageLayout, PixelBlock};
use crate::table::TableData;
use crate::table_hdu::{table_of, table_of_hdu, table_view, TableView};
use crate::text::{append_chars, decode_bytes, decode_text, pad_right, string_of, trim_end_chars, trim_end_text};

verus! {

/// Bytes in a FITS block.
pub const BLOCK_SIZE: usize = 2880;

/// Cards in a block.
pub const CARDS_PER_BLOCK: usize = 36;

/// A card as values: keyword, value, comment and card text.
pub type CardModel = (Seq<char>, Seq<char>, Seq<char>, Seq<char>);

pub open spec fn card_view(c: HeaderCard) -> CardModel {
    (c.keyword@, c.value@, c.comment@, c.raw@)
}

pub open spec fn cards_view(v: Seq<HeaderCard>) -> Seq<CardModel> {
    Seq::new(v.len(), |i: int| card_view(v[i]))
}

/// The state of reading a header: cards so far, keyword values, header
/// text, and whether END was read.
pub struct HeaderScan {
    pub cards: Seq<CardModel>,
    pub pairs: Seq<(Seq<char>, Seq<char>)>,
    pub text: Seq<char>,
    pub ended: bool,
}

pub open spec fn empty_scan() -> HeaderScan {
    HeaderScan { cards: Seq::empty(), pairs: Seq::empty(), text: Seq::empty(), ended: false }
}

/// The bytes read for a block at `pos`: up to 2880, the rest blanks.
pub open spec fn block_fill(b: Seq<u8>, pos: int) -> int {
    if b.len() - pos < 2880 {
        b.len() - pos
    } else {
        2880
    }
}

pub open spec fn block_at(b: Seq<u8>, pos: int) -> Seq<u8> {
    let f = block_fill(b, pos);
    b.subrange(pos, pos + f) + Seq::new((2880 - f) as nat, |_i: int| 32u8)
}

pub open spec fn card_at(blk: Seq<u8>, j: int) -> Seq<u8> {
    blk.subrange(80 * j, 80 * j + 80)
}

/// A card that ends the header: "END" then a blank or a NUL.
pub open spec fn is_end_card(c: Seq<u8>) -> bool {
    c[0] == 69 && c[1] == 78 && c[2] == 68 && (c[3] == 32 || c[3] == 0)
}

pub open spec fn end_card_view() -> CardModel {
    (word_end(), Seq::empty(), Seq::empty(), pad_right(word_end(), 80))
}

/// Reading one card: its text (trailing blanks removed) joins the header
/// text, and a card with a keyword joins the cards and sets its value.
pub open spec fn add_card(st: HeaderScan, c: Seq<u8>) -> HeaderScan {
    let s = trim_end_text(decode_text(c));
    let text = if s.len() > 0 {
        st.text + s + seq!['\n']
    } else {
        st.text
    };
    match parsed_card(s) {
        Some((k, v, m)) => HeaderScan {
            cards: st.cards.push((k, v, m, s)),
            pairs: store(st.pairs, k, v),
            text,
            ended: false,
        },
        None => HeaderScan { text, ..st },
    }
}

/// Reading the cards of a block from card `j` on, up to END.
pub open spec fn scan_block(blk: Seq<u8>, j: int, st: HeaderScan) -> HeaderScan
    decreases 36 - j,
{
    if j < 0 || j >= 36 {
        st
    } else if is_end_card(card_at(blk, j)) {
        HeaderScan { cards: st.cards.push(end_card_view()), ended: true, ..st }
    } else {
        scan_block(blk, j + 1, add_card(st, card_at(blk, j)))
    }
}

/// Reading a header from `pos`: the state at its END (or at the end of the
/// file), the position after it, and whether the end of the file was hit.
pub open spec fn scan_header(b: Seq<u8>, pos: int, st: HeaderScan) -> (HeaderScan, int, bool)
    decreases b.len() - pos,
{
    if pos < 0 || pos >= b.len() {
        (st, pos, true)
    } else {
        let st2 = scan_block(block_at(b, pos), 0, st);
        let np = pos + block_fill(b, pos);
        if st2.ended {
            (st2, np, false)
        } else {
            scan_header(b, np, st2)
        }
    }
}

// ---------------------------------------------------------------------------
// HDUs
// ---------------------------------------------------------------------------

pub struct HduView {
    pub index: nat,
    pub name: Seq<char>,
    pub is_image: bool,
    pub shape: Seq<usize>,
    pub header_text: Seq<char>,
    pub cards: Seq<CardModel>,
    pub pairs: Seq<(Seq<char>, Seq<char>)>,
    pub data_offset: int,
    pub data_len: nat,
}

pub open spec fn hdu_view(h: HduInfo) -> HduView {
    HduView {
        index: h.index as nat,
        name: h.name@,
        is_image: h.is_image,
        shape: h.shape@,
        header_text: h.header_text@,
        cards: cards_view(h.cards_list@),
        pairs: h.header_cards.pairs(),
        data_offset: h.data_offset as int,
        data_len: h.data_len as nat,
    }
}

pub struct PixelView {
    pub hdu: nat,
    pub data: Seq<u8>,
    pub bitpix: int,
    pub count: nat,
    pub layout: ImageLayout,
    pub blank: Option<int>,
    pub scaled: bool,
}

pub open spec fn pixel_view(p: PixelBlock) -> PixelView {
    PixelView {
        hdu: p.hdu as nat,
        data: p.data@,
        bitpix: p.bitpix as int,
        count: p.count as nat,
        layout: p.layout,
        blank: match p.blank {
            Some(v) => Some(v as int),
            None => None,
        },
        scaled: p.scaled,
    }
}

/// One HDU read from a file, with its table or pixel data if it has them.
pub struct HduItem {
    pub hdu: HduView,
    pub table: Option<TableView>,
    pub pixels: Option<PixelView>,
}

/// The pixels of an image HDU from its data bytes.
pub open spec fn image_pixels(p: Seq<(Seq<char>, Seq<char>)>, data: Seq<u8>, index: nat) -> PixelView {
    let count = clamp_size(pixel_count(hdu_shape(p)) as int);
    PixelView {
        hdu: index,
        data,
        bitpix: hdu_bitpix(p),
        count,
        layout: image_layout(hdu_shape(p), count),
        blank: if hdu_bitpix(p) > 0 {
            card_i64(p, kw_blank())
        } else {
            None
        },
        scaled: true,
    }
}

/// The pixels of a tile-compressed image, when they can be inflated.
pub open spec fn tile_pixels(p: Seq<(Seq<char>, Seq<char>)>, data: Seq<u8>, index: nat) -> Option<PixelView> {
    match tile_image(p, data) {
        Ok((d, nx, ny, zb)) => Some(
            PixelView {
                hdu: index,
                data: d,
                bitpix: zb,
                count: nx * ny,
                layout: ImageLayout::Image2D { nx: nx as usize, ny: ny as usize },
                blank: None,
                scaled: false,
            },
        ),
        Err(_) => None,
    }
}

/// The HDU whose header was read as `sc` and whose data start at `p`, and
/// the position after its data (never past the end of the file).
pub open spec fn hdu_item(b: Seq<u8>, p: int, index: nat, sc: HeaderScan) -> (HduItem, int) {
    let pr = sc.pairs;
    let len = b.len() as int;
    let rem = len - p;
    let raw = raw_data_bytes(pr, index);
    let padded = padded_bytes(raw);
    let adv = if p + padded > len {
        len
    } else {
        p + padded
    };
    let shape = hdu_shape(pr);
    let is_img = hdu_is_image(pr, index);
    let hdu = HduView {
        index,
        name: hdu_name(pr, index),
        is_image: is_img,
        shape,
        header_text: sc.text,
        cards: sc.cards,
        pairs: pr,
        data_offset: p,
        data_len: raw,
    };
    let bare = HduItem { hdu, table: None, pixels: None };
    if is_compressed_image(pr) {
        if raw > 0 && raw <= rem {
            (HduItem { pixels: tile_pixels(pr, b.subrange(p, p + raw), index), ..bare }, adv)
        } else {
            (bare, adv)
        }
    } else if is_img && hdu_naxis(pr) > 0 && pixel_count(shape) > 0 {
        if raw > rem {
            (bare, len)
        } else {
            (HduItem { pixels: Some(image_pixels(pr, b.subrange(p, p + raw), index)), ..bare }, adv)
        }
    } else if !is_img && hdu_naxis(pr) > 0 && raw > 0 {
        if raw > rem {
            (bare, len)
        } else {
            (
                HduItem {
                    table: Some(table_of(pr, hdu_xtension(pr), b.subrange(p, p + raw))),
                    ..bare
                },
                adv,
            )
        }
    } else {
        (bare, adv)
    }
}

/// Why a file could not be read.
#[derive(Clone, Copy, Debug, PartialEq, Eq)]
pub enum FitsError {
    /// The file ended before the first header did.
    EmptyOrInvalid,
    /// The first header holds no card with a keyword.
    UnparsableHeader,
}

impl FitsError {
    pub fn message(&self) -> (r: String)
        ensures
            *self == FitsError::EmptyOrInvalid ==> r@ == "Empty or invalid FITS file"@,
            *self == FitsError::UnparsableHeader ==> r@ == "Could not parse FITS header"@,
    {
        match self {
            FitsError::EmptyOrInvalid => String::from_str("Empty or invalid FITS file"),
            FitsError::UnparsableHeader => String::from_str("Could not parse FITS header"),
        }
    }
}

pub proof fn lemma_scan_header_moves(b: Seq<u8>, pos: int, st: HeaderScan)
    requires
        0 <= pos,
    ensures
        ({
            let (sc, p, eof) = scan_header(b, pos, st);
            &&& pos <= p <= (if pos > b.len() { pos } else { b.len() as int })
            &&& (p == pos ==> sc == st)
        }),
    decreases b.len() - pos,
{
    if pos < b.len() {
        let st2 = scan_block(block_at(b, pos), 0, st);
        let np = pos + block_fill(b, pos);
        if !st2.ended {
            lemma_scan_header_moves(b, np, st2);
        }
    }
}

/// The HDUs of a file read from `pos` on, the first of them numbered `index`.
pub open spec fn walk(b: Seq<u8>, pos: int, index: nat) -> Result<Seq<HduItem>, FitsError>
    decreases b.len() - pos,
{
    if pos < 0 || pos > b.len() {
        Ok(Seq::empty())
    } else {
        let (sc, p, eof) = scan_header(b, pos, empty_scan());
        if index == 0 && eof {
            Err(FitsError::EmptyOrInvalid)
        } else if index == 0 && sc.pairs.len() == 0 {
            Err(FitsError::UnparsableHeader)
        } else if sc.pairs.len() == 0 {
            Ok(Seq::empty())
        } else {
            let (item, next) = hdu_item(b, p, index, sc);
            proof {
                lemma_scan_header_moves(b, pos, empty_scan());
                assert(sc != empty_scan());
                assert(next >= p);
            }
            match walk(b, next, index + 1) {
                Ok(rest) => Ok(seq![item] + rest),
                Err(e) => Err(e),
            }
        }
    }
}

} // verus!

verus! {

// ---------------------------------------------------------------------------
// Reading headers
// ---------------------------------------------------------------------------

struct ScanState {
    cards: Vec<HeaderCard>,
    map: HeaderMap,
    text: Vec<char>,
    ended: bool,
}

impl ScanState {
    spec fn view_scan(&self) -> HeaderScan {
        HeaderScan {
            cards: cards_view(self.cards@),
            pairs: self.map.pairs(),
            text: self.text@,
            ended: self.ended,
        }
    }

    fn new() -> (r: Self)
        ensures
            r.view_scan() == empty_scan(),
    {
        let r = ScanState { cards: Vec::new(), map: HeaderMap::new(), text: Vec::new(), ended: false };
        assert(r.view_scan().cards =~= Seq::<CardModel>::empty());
        assert(r.view_scan().text =~= Seq::<char>::empty());
        r
    }
}

/// The END card that closes a header.
fn end_card() -> (r: HeaderCard)
    ensures
        card_view(r) == end_card_view(),
{
    let end = vec!['E', 'N', 'D'];
    assert(end@ =~= word_end());
    let mut raw = vec!['E', 'N', 'D'];
    crate::text::pad_chars(&mut raw, CARD_WIDTH);
    let e: Vec<char> = Vec::new();
    assert(e@ =~= Seq::<char>::empty());
    HeaderCard {
        keyword: string_of(end.as_slice()),
        value: string_of(e.as_slice()),
        comment: string_of(e.as_slice()),
        raw: string_of(raw.as_slice()),
    }
}

fn add_card_exec(st: &mut ScanState, c: &[u8])
    ensures
        final(st).ended == old(st).ended,
        final(st).view_scan() == (HeaderScan { ended: old(st).ended, ..add_card(old(st).view_scan(), c@) }),
{
    let d = decode_bytes(c);
    let s = trim_end_chars(d.as_slice());
    if s.len() > 0 {
        append_chars(&mut st.text, s.as_slice());
        st.text.push('\n');
    }
    let ghost text = st.text@;
    match parse_header_card_chars(s.as_slice()) {
        Some(card) => {
            let kw = crate::text::chars_of(card.keyword.as_str());
            st.map.insert_chars(kw.as_slice(), card.value.clone());
            st.cards.push(card);
            assert(cards_view(st.cards@) =~= cards_view(old(st).cards@).push(card_view(card)));
        },
        None => {},
    }
    assert(old(st).text@.len() >= 0);
    assert(s@.len() > 0 ==> st.text@ =~= old(st).text@ + s@ + seq!['\n']);
}

/// The block read at `pos`, blank-filled to 2880 bytes.
fn block_exec(b: &[u8], pos: usize) -> (r: Vec<u8>)
    requires
        pos < b.len(),
    ensures
        r@ == block_at(b@, pos as int),
        r@.len() == 2880,
{
    let f: usize = if b.len() - pos < BLOCK_SIZE {
        b.len() - pos
    } else {
        BLOCK_SIZE
    };
    let mut r: Vec<u8> = Vec::new();
    let mut i: usize = 0;
    while i < f
        invariant
            0 <= i <= f,
            f <= 2880,
            pos + f <= b.len(),
            r@ == b@.subrange(pos as int, pos + i),
        decreases f - i,
    {
        r.push(b[pos + i]);
        i = i + 1;
        assert(r@ =~= b@.subrange(pos as int, pos + i));
    }
    let mut k: usize = f;
    while k < BLOCK_SIZE
        invariant
            f <= k <= 2880,
            r@ == b@.subrange(pos as int, pos + f) + Seq::new((k - f) as nat, |_i: int| 32u8),
        decreases 2880 - k,
    {
        r.push(32u8);
        k = k + 1;
        assert(r@ =~= b@.subrange(pos as int, pos + f) + Seq::new((k - f) as nat, |_i: int| 32u8));
    }
    r
}

fn is_end_exec(c: &[u8]) -> (r: bool)
    requires
        c.len() >= 4,
    ensures
        r == is_end_card(c@),
{
    c[0] == 69u8 && c[1] == 78u8 && c[2] == 68u8 && (c[3] == 32u8 || c[3] == 0u8)
}

fn scan_block_exec(blk: &[u8], st: &mut ScanState)
    requires
        blk.len() == 2880,
        !old(st).ended,
    ensures
        final(st).view_scan() == scan_block(blk@, 0, old(st).view_scan()),
{
    let ghost start = st.view_scan();
    let mut j: usize = 0;
    while j < CARDS_PER_BLOCK && !st.ended
        invariant
            blk.len() == 2880,
            0 <= j <= 36,
            !st.ended ==> scan_block(blk@, 0, start) == scan_block(blk@, j as int, st.view_scan()),
            st.ended ==> scan_block(blk@, 0, start) == st.view_scan(),
        decreases 36 - j + (if st.ended {
            0int
        } else {
            1int
        }),
    {
        let c = &blk[80 * j..80 * j + 80];
        assert(c@ == card_at(blk@, j as int));
        if is_end_exec(c) {
            let ghost before = st.view_scan();
            let e = end_card();
            st.cards.push(e);
            st.ended = true;
            assert(cards_view(st.cards@) =~= before.cards.push(end_card_view()));
            assert(st.view_scan() == HeaderScan {
                cards: before.cards.push(end_card_view()),
                ended: true,
                ..before
            });
        } else {
            add_card_exec(st, c);
            j = j + 1;
        }
    }
}

} // verus!

verus! {

fn scan_header_exec(b: &[u8], pos: usize) -> (r: (ScanState, usize, bool))
    requires
        pos <= b.len(),
    ensures
        (r.0.view_scan(), r.1 as int, r.2) == scan_header(b@, pos as int, empty_scan()),
{
    let mut st = ScanState::new();
    let mut p = pos;
    while p < b.len()
        invariant
            pos <= p <= b.len(),
            !st.ended,
            scan_header(b@, pos as int, empty_scan()) == scan_header(b@, p as int, st.view_scan()),
        decreases b.len() - p,
    {
        let blk = block_exec(b, p);
        let f: usize = if b.len() - p < BLOCK_SIZE {
            b.len() - p
        } else {
            BLOCK_SIZE
        };
        scan_block_exec(blk.as_slice(), &mut st);
        p = p + f;
        if st.ended {
            return (st, p, false);
        }
    }
    (st, p, true)
}

/// The position after the data, never past the end of the file.
fn advance(p: usize, padded: usize, len: usize) -> (r: usize)
    requires
        p <= len,
    ensures
        r == (if p + padded > len {
            len as int
        } else {
            p + padded
        }),
{
    if padded > len - p {
        len
    } else {
        p + padded
    }
}

fn tile_pixels_exec(cards: &HeaderMap, data: &[u8], index: usize) -> (r: Option<PixelBlock>)
    ensures
        match r {
            Some(px) => tile_pixels(cards.pairs(), data@, index as nat) == Some(pixel_view(px)),
            None => tile_pixels(cards.pairs(), data@, index as nat) is None,
        },
{
    match parse_compressed_fits_image(cards, data) {
        Ok(img) => {
            let l = img.data.len();
            assert(l >= img.nx * img.ny);
            let count = img.nx * img.ny;
            let px = PixelBlock {
                hdu: index,
                data: img.data,
                bitpix: img.zbitpix,
                count,
                layout: ImageLayout::Image2D { nx: img.nx, ny: img.ny },
                blank: None,
                scaled: false,
            };
            Some(px)
        },
        Err(_) => None,
    }
}

fn image_pixels_exec(cards: &HeaderMap, shape: &[usize], bitpix: i32, data: &[u8], index: usize) -> (r: PixelBlock)
    requires
        shape@ == hdu_shape(cards.pairs()),
        bitpix as int == hdu_bitpix(cards.pairs()),
    ensures
        pixel_view(r) == image_pixels(cards.pairs(), data@, index as nat),
{
    let count = pixel_count_of(shape);
    let layout = image_layout_of(shape, count);
    let blank = if bitpix > 0 {
        parse_fits_i64_card(cards, keyword_vec(10).as_slice())
    } else {
        None
    };
    let mut copy: Vec<u8> = Vec::new();
    let mut i: usize = 0;
    while i < data.len()
        invariant
            0 <= i <= data.len(),
            copy@ == data@.take(i as int),
        decreases data.len() - i,
    {
        copy.push(data[i]);
        i = i + 1;
        assert(copy@ =~= data@.take(i as int));
    }
    assert(data@.take(data.len() as int) =~= data@);
    PixelBlock { hdu: index, data: copy, bitpix, count, layout, blank, scaled: true }
}

} // verus!

verus! {

/// Everything read from a FITS file: its HDUs, and for each the table or the
/// pixel data it holds, if any.
#[derive(Debug)]
pub struct FitsContents {
    pub hdus: Vec<HduInfo>,
    pub tables: Vec<Option<TableData>>,
    pub pixels: Vec<Option<PixelBlock>>,
}

pub open spec fn opt_table_view(t: Option<TableData>) -> Option<TableView> {
    match t {
        Some(x) => Some(table_view(x)),
        None => None,
    }
}

pub open spec fn opt_pixel_view(p: Option<PixelBlock>) -> Option<PixelView> {
    match p {
        Some(x) => Some(pixel_view(x)),
        None => None,
    }
}

pub open spec fn item_of(h: HduInfo, t: Option<TableData>, p: Option<PixelBlock>) -> HduItem {
    HduItem { hdu: hdu_view(h), table: opt_table_view(t), pixels: opt_pixel_view(p) }
}

/// The contents hold exactly these HDUs.
pub open spec fn contents_are(c: FitsContents, items: Seq<HduItem>) -> bool {
    &&& c.hdus@.len() == items.len()
    &&& c.tables@.len() == items.len()
    &&& c.pixels@.len() == items.len()
    &&& forall|i: int|
        0 <= i < items.len() ==> #[trigger] item_of(c.hdus@[i], c.tables@[i], c.pixels@[i])
            == items[i]
}

fn hdu_item_exec(b: &[u8], p: usize, index: usize, st: ScanState) -> (r: (
    HduInfo,
    Option<TableData>,
    Option<PixelBlock>,
    usize,
))
    requires
        p <= b.len(),
    ensures
        (item_of(r.0, r.1, r.2), r.3 as int) == hdu_item(b@, p as int, index as nat, st.view_scan()),
{
    let ghost sc = st.view_scan();
    let ScanState { cards, map, text, ended } = st;
    let xt = hdu_xtension_of(&map);
    let compressed = is_compressed_image_of(&map, xt.as_slice());
    let is_image = hdu_is_image_of(&map, xt.as_slice(), index, compressed);
    let shape = hdu_shape_of(&map);
    let bitpix = hdu_bitpix_of(&map);
    let naxis = shape.len();
    let raw = raw_data_bytes_of(&map, shape.as_slice(), bitpix, is_image, compressed);
    assert(raw == raw_data_bytes(map.pairs(), index as nat));
    let padded = padded_bytes_of(raw);
    let adv = advance(p, padded, b.len());
    let rem = b.len() - p;
    let mut table: Option<TableData> = None;
    let mut pixels: Option<PixelBlock> = None;
    let mut next = adv;
    if compressed {
        if raw > 0 && raw <= rem {
            pixels = tile_pixels_exec(&map, &b[p..p + raw], index);
        }
    } else if is_image && naxis > 0 && pixel_count_of(shape.as_slice()) > 0 {
        if raw > rem {
            next = b.len();
        } else {
            pixels = Some(image_pixels_exec(&map, shape.as_slice(), bitpix, &b[p..p + raw], index));
        }
    } else if !is_image && naxis > 0 && raw > 0 {
        if raw > rem {
            next = b.len();
        } else {
            table = Some(table_of_hdu(&map, xt.as_slice(), &b[p..p + raw]));
        }
    }
    let name = hdu_name_of(&map, index);
    let info = HduInfo {
        index,
        name,
        is_image,
        shape,
        header_text: string_of(text.as_slice()),
        header_cards: map,
        cards_list: cards,
        data_offset: p as u64,
        data_len: raw,
    };
    (info, table, pixels, next)
}

/// Reads the HDUs of a FITS file from its bytes.
#[verifier::spinoff_prover]
#[verifier::rlimit(40)]
pub fn parse_fits(bytes: &[u8]) -> (r: Result<FitsContents, FitsError>)
    ensures
        match r {
            Ok(c) => walk(bytes@, 0, 0) matches Ok(items) && contents_are(c, items),
            Err(e) => walk(bytes@, 0, 0) == Err::<Seq<HduItem>, FitsError>(e),
        },
{
    let mut hdus: Vec<HduInfo> = Vec::new();
    let mut tables: Vec<Option<TableData>> = Vec::new();
    let mut pixels: Vec<Option<PixelBlock>> = Vec::new();
    let mut pos: usize = 0;
    let mut index: usize = 0;
    let ghost mut done: Seq<HduItem> = Seq::empty();
    loop
        invariant
            pos <= bytes.len(),
            index <= pos,
            index == done.len(),
            hdus@.len() == index,
            tables@.len() == index,
            pixels@.len() == index,
            forall|i: int|
                0 <= i < index ==> #[trigger] item_of(hdus@[i], tables@[i], pixels@[i]) == done[i],
            walk(bytes@, 0, 0) == match walk(bytes@, pos as int, index as nat) {
                Ok(rest) => Ok(done + rest),
                Err(e) => Err(e),
            },
        decreases bytes.len() - pos,
    {
        let (st, p, eof) = scan_header_exec(bytes, pos);
        proof {
            lemma_scan_header_moves(bytes@, pos as int, empty_scan());
        }
        if index == 0 && eof {
            return Err(FitsError::EmptyOrInvalid);
        }
        if index == 0 && st.map.is_empty() {
            return Err(FitsError::UnparsableHeader);
        }
        if st.map.is_empty() {
            assert(done + Seq::<HduItem>::empty() =~= done);
            let c = FitsContents { hdus, tables, pixels };
            return Ok(c);
        }
        assert(st.view_scan() != empty_scan());
        let ghost sc = st.view_scan();
        let (info, table, px, next) = hdu_item_exec(bytes, p, index, st);
        let ghost item = item_of(info, table, px);
        hdus.push(info);
        tables.push(table);
        pixels.push(px);
        proof {
            assert(done.push(item) + match walk(bytes@, next as int, (index + 1) as nat) {
                Ok(rest) => rest,
                Err(_) => Seq::<HduItem>::empty(),
            } =~= done + (seq![item] + match walk(bytes@, next as int, (index + 1) as nat) {
                Ok(rest) => rest,
                Err(_) => Seq::<HduItem>::empty(),
            }));
            done = done.push(item);
        }
        pos = next;
        index = index + 1;
    }
}


/// The pixels read from an integer image (BITPIX > 0) carry the header's
/// BLANK value, and a floating-point image has none.
pub proof fn lemma_image_blank(p: Seq<(Seq<char>, Seq<char>)>, data: Seq<u8>, index: nat)
    ensures
        hdu_bitpix(p) > 0 ==> image_pixels(p, data, index).blank == card_i64(p, kw_blank()),
        hdu_bitpix(p) <= 0 ==> image_pixels(p, data, index).blank is None,
{
}

/// In the pixels read from an integer image whose header has BLANK = `b`,
/// every pixel equal to `b` is shown as no value.
pub proof fn lemma_blank_pixel_shown_missing(
    p: Seq<(Seq<char>, Seq<char>)>,
    data: Seq<u8>,
    index: nat,
    px: PixelBlock,
    b: i64,
    i: int,
)
    requires
        hdu_bitpix(p) > 0,
        card_i64(p, kw_blank()) == Some(b as int),
        pixel_view(px) == image_pixels(p, data, index),
        crate::pixels::pixel_word(px.data@, px.bitpix as int, i) == crate::pixels::PixelWord::Int(b),
    ensures
        px.blank == Some(b),
        crate::pixels::shown_word(crate::pixels::pixel_word(px.data@, px.bitpix as int, i), px.blank)
            == crate::pixels::PixelWord::Missing,
{
    assert(pixel_view(px).blank == Some(b as int));
    match px.blank {
        Some(v) => {
            assert(v as int == b as int);
        },
        None => {},
    }
}

} // verus!
