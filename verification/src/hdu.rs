//! What a header says about its HDU: type, shape, name and data size.
use vstd::prelude::*;
use crate::card::HeaderCard;
use crate::header_map::{lookup, HeaderMap};
use crate::numbers::{
    decimal_text, parse_i32_text, parse_i64_text, parse_signed, parse_unsigned, parse_usize_text,
    push_decimal,
};
use crate::text::{
    append_chars, chars_of, contains_chars, contains_text, eq_ignore_case, eq_ignore_case_chars,
    string_of, trim_chars, trim_text, upper_chars, upper_text,
};

verus! {

/// One HDU (header and data unit) of a FITS file.
#[derive(Clone, Debug)]
pub struct HduInfo {
    pub index: usize,
    pub name: String,
    pub is_image: bool,
    pub shape: Vec<usize>,
    pub header_text: String,
    pub header_cards: HeaderMap,
    pub cards_list: Vec<HeaderCard>,
    pub data_offset: u64,
    pub data_len: usize,
}

pub type Pairs = Seq<(Seq<char>, Seq<char>)>;

// ---------------------------------------------------------------------------
// Keywords
// ---------------------------------------------------------------------------

pub open spec fn kw_bitpix() -> Seq<char> {
    seq!['B', 'I', 'T', 'P', 'I', 'X']
}

pub open spec fn kw_zbitpix() -> Seq<char> {
    seq!['Z', 'B', 'I', 'T', 'P', 'I', 'X']
}

pub open spec fn kw_naxis() -> Seq<char> {
    seq!['N', 'A', 'X', 'I', 'S']
}

pub open spec fn kw_znaxis() -> Seq<char> {
    seq!['Z', 'N', 'A', 'X', 'I', 'S']
}

pub open spec fn kw_xtension() -> Seq<char> {
    seq!['X', 'T', 'E', 'N', 'S', 'I', 'O', 'N']
}

pub open spec fn kw_zimage() -> Seq<char> {
    seq!['Z', 'I', 'M', 'A', 'G', 'E']
}

pub open spec fn kw_compression_type() -> Seq<char> {
    seq!['Z', 'C', 'M', 'P', 'T', 'Y', 'P', 'E']
}

pub open spec fn kw_extname() -> Seq<char> {
    seq!['E', 'X', 'T', 'N', 'A', 'M', 'E']
}

pub open spec fn kw_pcount() -> Seq<char> {
    seq!['P', 'C', 'O', 'U', 'N', 'T']
}

pub open spec fn kw_gcount() -> Seq<char> {
    seq!['G', 'C', 'O', 'U', 'N', 'T']
}

pub open spec fn kw_blank() -> Seq<char> {
    seq!['B', 'L', 'A', 'N', 'K']
}

pub open spec fn word_table() -> Seq<char> {
    seq!['T', 'A', 'B', 'L', 'E']
}

pub open spec fn word_bintable() -> Seq<char> {
    seq!['B', 'I', 'N', 'T', 'A', 'B', 'L', 'E']
}

pub open spec fn word_image() -> Seq<char> {
    seq!['I', 'M', 'A', 'G', 'E']
}

pub open spec fn word_primary() -> Seq<char> {
    seq!['P', 'R', 'I', 'M', 'A', 'R', 'Y']
}

/// A numbered keyword such as NAXIS2.
pub open spec fn numbered(stem: Seq<char>, i: nat) -> Seq<char> {
    stem + decimal_text(i)
}

pub fn keyword_vec(which: u8) -> (r: Vec<char>)
    ensures
        which == 0 ==> r@ == kw_bitpix(),
        which == 1 ==> r@ == kw_zbitpix(),
        which == 2 ==> r@ == kw_naxis(),
        which == 3 ==> r@ == kw_znaxis(),
        which == 4 ==> r@ == kw_xtension(),
        which == 5 ==> r@ == kw_zimage(),
        which == 6 ==> r@ == kw_compression_type(),
        which == 7 ==> r@ == kw_extname(),
        which == 8 ==> r@ == kw_pcount(),
        which == 9 ==> r@ == kw_gcount(),
        which == 10 ==> r@ == kw_blank(),
        which == 11 ==> r@ == word_table(),
        which == 12 ==> r@ == word_bintable(),
        which == 13 ==> r@ == word_image(),
        which == 14 ==> r@ == word_primary(),
{
    let r = if which == 0 {
        vec!['B', 'I', 'T', 'P', 'I', 'X']
    } else if which == 1 {
        vec!['Z', 'B', 'I', 'T', 'P', 'I', 'X']
    } else if which == 2 {
        vec!['N', 'A', 'X', 'I', 'S']
    } else if which == 3 {
        vec!['Z', 'N', 'A', 'X', 'I', 'S']
    } else if which == 4 {
        vec!['X', 'T', 'E', 'N', 'S', 'I', 'O', 'N']
    } else if which == 5 {
        vec!['Z', 'I', 'M', 'A', 'G', 'E']
    } else if which == 6 {
        vec!['Z', 'C', 'M', 'P', 'T', 'Y', 'P', 'E']
    } else if which == 7 {
        vec!['E', 'X', 'T', 'N', 'A', 'M', 'E']
    } else if which == 8 {
        vec!['P', 'C', 'O', 'U', 'N', 'T']
    } else if which == 9 {
        vec!['G', 'C', 'O', 'U', 'N', 'T']
    } else if which == 10 {
        vec!['B', 'L', 'A', 'N', 'K']
    } else if which == 11 {
        vec!['T', 'A', 'B', 'L', 'E']
    } else if which == 12 {
        vec!['B', 'I', 'N', 'T', 'A', 'B', 'L', 'E']
    } else if which == 13 {
        vec!['I', 'M', 'A', 'G', 'E']
    } else {
        vec!['P', 'R', 'I', 'M', 'A', 'R', 'Y']
    };
    assert(which == 0 ==> r@ =~= kw_bitpix());
    assert(which == 1 ==> r@ =~= kw_zbitpix());
    assert(which == 2 ==> r@ =~= kw_naxis());
    assert(which == 3 ==> r@ =~= kw_znaxis());
    assert(which == 4 ==> r@ =~= kw_xtension());
    assert(which == 5 ==> r@ =~= kw_zimage());
    assert(which == 6 ==> r@ =~= kw_compression_type());
    assert(which == 7 ==> r@ =~= kw_extname());
    assert(which == 8 ==> r@ =~= kw_pcount());
    assert(which == 9 ==> r@ =~= kw_gcount());
    assert(which == 10 ==> r@ =~= kw_blank());
    assert(which == 11 ==> r@ =~= word_table());
    assert(which == 12 ==> r@ =~= word_bintable());
    assert(which == 13 ==> r@ =~= word_image());
    assert(which == 14 ==> r@ =~= word_primary());
    r
}

pub fn numbered_vec(stem: &[char], i: usize) -> (r: Vec<char>)
    ensures
        r@ == numbered(stem@, i as nat),
{
    let mut r = crate::text::copy_range(stem, 0, stem.len());
    assert(r@ =~= stem@);
    push_decimal(&mut r, i as u64);
    r
}

// ---------------------------------------------------------------------------
// Integer keywords (`parse_fits_int_card`)
// ---------------------------------------------------------------------------

/// The keyword's value as a `usize`, when it has one that parses.
pub open spec fn card_usize(p: Pairs, key: Seq<char>) -> Option<nat> {
    match lookup(p, key) {
        Some(v) => parse_unsigned(trim_text(v), usize::MAX as nat),
        None => None,
    }
}

pub open spec fn card_i32(p: Pairs, key: Seq<char>) -> Option<int> {
    match lookup(p, key) {
        Some(v) => parse_signed(trim_text(v), i32::MAX as nat),
        None => None,
    }
}

pub open spec fn card_i64(p: Pairs, key: Seq<char>) -> Option<int> {
    match lookup(p, key) {
        Some(v) => parse_signed(trim_text(v), i64::MAX as nat),
        None => None,
    }
}

/// A keyword's integer value (trimmed text, parsed as `usize`).
pub fn parse_fits_int_card(cards: &HeaderMap, key: &[char]) -> (r: Option<usize>)
    ensures
        match r {
            Some(v) => card_usize(cards.pairs(), key@) == Some(v as nat),
            None => card_usize(cards.pairs(), key@) is None,
        },
{
    match cards.get_chars(key) {
        Some(v) => {
            let t = trim_chars(chars_of(v.as_str()).as_slice());
            parse_usize_text(t.as_slice())
        },
        None => None,
    }
}

/// A keyword's integer value parsed as `i32`.
pub fn parse_fits_i32_card(cards: &HeaderMap, key: &[char]) -> (r: Option<i32>)
    ensures
        match r {
            Some(v) => card_i32(cards.pairs(), key@) == Some(v as int),
            None => card_i32(cards.pairs(), key@) is None,
        },
{
    match cards.get_chars(key) {
        Some(v) => {
            let t = trim_chars(chars_of(v.as_str()).as_slice());
            parse_i32_text(t.as_slice())
        },
        None => None,
    }
}

/// A keyword's integer value parsed as `i64`.
pub fn parse_fits_i64_card(cards: &HeaderMap, key: &[char]) -> (r: Option<i64>)
    ensures
        match r {
            Some(v) => card_i64(cards.pairs(), key@) == Some(v as int),
            None => card_i64(cards.pairs(), key@) is None,
        },
{
    match cards.get_chars(key) {
        Some(v) => {
            let t = trim_chars(chars_of(v.as_str()).as_slice());
            parse_i64_text(t.as_slice())
        },
        None => None,
    }
}

// ---------------------------------------------------------------------------
// Type and shape
// ---------------------------------------------------------------------------

pub open spec fn first_some<T>(a: Option<T>, b: Option<T>) -> Option<T> {
    match a {
        Some(x) => Some(x),
        None => b,
    }
}

/// BITPIX (or ZBITPIX for a compressed image), 0 when absent.
pub open spec fn hdu_bitpix(p: Pairs) -> int {
    match first_some(card_i32(p, kw_bitpix()), card_i32(p, kw_zbitpix())) {
        Some(v) => v,
        None => 0,
    }
}

/// NAXIS (or ZNAXIS), 0 when absent.
pub open spec fn hdu_naxis(p: Pairs) -> nat {
    match first_some(card_usize(p, kw_naxis()), card_usize(p, kw_znaxis())) {
        Some(v) => v,
        None => 0,
    }
}

/// NAXISi (or ZNAXISi), 0 when absent.
pub open spec fn hdu_dim(p: Pairs, i: nat) -> nat {
    match first_some(
        card_usize(p, numbered(kw_naxis(), i)),
        card_usize(p, numbered(kw_znaxis(), i)),
    ) {
        Some(v) => v,
        None => 0,
    }
}

/// The axis lengths NAXIS1, NAXIS2, ...
pub open spec fn hdu_shape(p: Pairs) -> Seq<usize> {
    Seq::new(hdu_naxis(p), |j: int| hdu_dim(p, (j + 1) as nat) as usize)
}

/// XTENSION in upper case, empty when absent.
pub open spec fn hdu_xtension(p: Pairs) -> Seq<char> {
    match lookup(p, kw_xtension()) {
        Some(v) => upper_text(v),
        None => upper_text(Seq::empty()),
    }
}

pub open spec fn zimage_set(p: Pairs) -> bool {
    match lookup(p, kw_zimage()) {
        Some(v) => eq_ignore_case(trim_text(v), seq!['T']),
        None => false,
    }
}

/// A tile-compressed image: a table extension marked ZIMAGE = T or with a
/// ZCMPTYPE.
pub open spec fn is_compressed_image(p: Pairs) -> bool {
    let xt = hdu_xtension(p);
    (contains_text(xt, word_bintable()) || contains_text(xt, word_table())) && (zimage_set(p)
        || lookup(p, kw_compression_type()) is Some)
}

/// Whether the HDU holds an image (the primary HDU does unless it claims a
/// table).
pub open spec fn hdu_is_image(p: Pairs, index: nat) -> bool {
    let xt = hdu_xtension(p);
    xt.len() == 0 || contains_text(xt, word_image()) || is_compressed_image(p) || (index == 0
        && !contains_text(xt, word_table()))
}

/// EXTNAME, or PRIMARY for the first HDU and EXT_n for the others.
pub open spec fn hdu_name(p: Pairs, index: nat) -> Seq<char> {
    match lookup(p, kw_extname()) {
        Some(v) => v,
        None => if index == 0 {
            word_primary()
        } else {
            seq!['E', 'X', 'T', '_'] + decimal_text(index)
        },
    }
}

pub fn hdu_bitpix_of(cards: &HeaderMap) -> (r: i32)
    ensures
        r as int == hdu_bitpix(cards.pairs()),
{
    match parse_fits_i32_card(cards, keyword_vec(0).as_slice()) {
        Some(v) => v,
        None => match parse_fits_i32_card(cards, keyword_vec(1).as_slice()) {
            Some(v) => v,
            None => 0,
        },
    }
}

pub fn hdu_naxis_of(cards: &HeaderMap) -> (r: usize)
    ensures
        r as nat == hdu_naxis(cards.pairs()),
{
    match parse_fits_int_card(cards, keyword_vec(2).as_slice()) {
        Some(v) => v,
        None => match parse_fits_int_card(cards, keyword_vec(3).as_slice()) {
            Some(v) => v,
            None => 0,
        },
    }
}

pub fn hdu_dim_of(cards: &HeaderMap, i: usize) -> (r: usize)
    ensures
        r as nat == hdu_dim(cards.pairs(), i as nat),
{
    let k = numbered_vec(keyword_vec(2).as_slice(), i);
    match parse_fits_int_card(cards, k.as_slice()) {
        Some(v) => v,
        None => {
            let zk = numbered_vec(keyword_vec(3).as_slice(), i);
            match parse_fits_int_card(cards, zk.as_slice()) {
                Some(v) => v,
                None => 0,
            }
        },
    }
}

pub fn hdu_shape_of(cards: &HeaderMap) -> (r: Vec<usize>)
    ensures
        r@ == hdu_shape(cards.pairs()),
{
    let naxis = hdu_naxis_of(cards);
    let mut shape: Vec<usize> = Vec::new();
    let mut i: usize = 0;
    while i < naxis
        invariant
            0 <= i <= naxis,
            naxis == hdu_naxis(cards.pairs()),
            shape@ == hdu_shape(cards.pairs()).take(i as int),
        decreases naxis - i,
    {
        shape.push(hdu_dim_of(cards, i + 1));
        i = i + 1;
        assert(shape@ =~= hdu_shape(cards.pairs()).take(i as int));
    }
    assert(hdu_shape(cards.pairs()).take(naxis as int) =~= hdu_shape(cards.pairs()));
    shape
}

pub fn hdu_xtension_of(cards: &HeaderMap) -> (r: Vec<char>)
    ensures
        r@ == hdu_xtension(cards.pairs()),
{
    match cards.get_chars(keyword_vec(4).as_slice()) {
        Some(v) => upper_chars(chars_of(v.as_str()).as_slice()),
        None => {
            let e: Vec<char> = Vec::new();
            assert(e@ =~= Seq::<char>::empty());
            upper_chars(e.as_slice())
        },
    }
}

pub fn is_compressed_image_of(cards: &HeaderMap, xt: &[char]) -> (r: bool)
    requires
        xt@ == hdu_xtension(cards.pairs()),
    ensures
        r == is_compressed_image(cards.pairs()),
{
    let tabular = contains_chars(xt, keyword_vec(12).as_slice()) || contains_chars(
        xt,
        keyword_vec(11).as_slice(),
    );
    if !tabular {
        return false;
    }
    let t = vec!['T'];
    assert(t@ =~= seq!['T']);
    let zimage = match cards.get_chars(keyword_vec(5).as_slice()) {
        Some(v) => {
            let tv = trim_chars(chars_of(v.as_str()).as_slice());
            eq_ignore_case_chars(tv.as_slice(), t.as_slice())
        },
        None => false,
    };
    zimage || cards.contains_chars(keyword_vec(6).as_slice())
}

pub fn hdu_is_image_of(cards: &HeaderMap, xt: &[char], index: usize, compressed: bool) -> (r:
    bool)
    requires
        xt@ == hdu_xtension(cards.pairs()),
        compressed == is_compressed_image(cards.pairs()),
    ensures
        r == hdu_is_image(cards.pairs(), index as nat),
{
    xt.len() == 0 || contains_chars(xt, keyword_vec(13).as_slice()) || compressed || (index == 0
        && !contains_chars(xt, keyword_vec(11).as_slice()))
}

pub fn hdu_name_of(cards: &HeaderMap, index: usize) -> (r: String)
    ensures
        r@ == hdu_name(cards.pairs(), index as nat),
{
    match cards.get_chars(keyword_vec(7).as_slice()) {
        Some(v) => v.clone(),
        None => {
            if index == 0 {
                string_of(keyword_vec(14).as_slice())
            } else {
                let mut n = vec!['E', 'X', 'T', '_'];
                let ghost stem = n@;
                push_decimal(&mut n, index as u64);
                assert(stem =~= seq!['E', 'X', 'T', '_']);
                string_of(n.as_slice())
            }
        },
    }
}

// ---------------------------------------------------------------------------
// Data size
// ---------------------------------------------------------------------------

pub open spec fn clamp_size(x: int) -> nat {
    if x > usize::MAX as int {
        usize::MAX as nat
    } else if x < 0 {
        0
    } else {
        x as nat
    }
}

pub open spec fn product(s: Seq<usize>) -> nat
    decreases s.len(),
{
    if s.len() == 0 {
        1
    } else {
        product(s.drop_last()) * (s.last() as nat)
    }
}

/// The number of pixels: the product of the axis lengths, 0 with no axes.
pub open spec fn pixel_count(shape: Seq<usize>) -> nat {
    if shape.len() == 0 {
        0
    } else {
        product(shape)
    }
}

pub open spec fn abs_int(x: int) -> nat {
    if x < 0 {
        (-x) as nat
    } else {
        x as nat
    }
}

pub open spec fn default_to(o: Option<nat>, d: nat) -> nat {
    match o {
        Some(v) => v,
        None => d,
    }
}

/// The data bytes of a table-like HDU: NAXIS1 * NAXIS2 * GCOUNT + PCOUNT.
pub open spec fn table_data_bytes(p: Pairs) -> int {
    let naxis1 = default_to(card_usize(p, numbered(kw_naxis(), 1)), 0);
    let naxis2 = default_to(card_usize(p, numbered(kw_naxis(), 2)), 0);
    let pcount = default_to(card_usize(p, kw_pcount()), 0);
    let gcount = default_to(card_usize(p, kw_gcount()), 1);
    (naxis1 * naxis2 * gcount + pcount) as int
}

/// The data bytes of an image: pixels times |BITPIX| / 8.
pub open spec fn image_data_bytes(p: Pairs) -> int {
    (pixel_count(hdu_shape(p)) * (abs_int(hdu_bitpix(p)) / 8)) as int
}

/// The bytes of data that follow the header, held at `usize::MAX`.
pub open spec fn raw_data_bytes(p: Pairs, index: nat) -> nat {
    if is_compressed_image(p) || !hdu_is_image(p, index) {
        clamp_size(table_data_bytes(p))
    } else {
        clamp_size(image_data_bytes(p))
    }
}

/// The data bytes rounded up to whole 2880-byte blocks, held at `usize::MAX`.
pub open spec fn padded_bytes(raw: nat) -> nat {
    clamp_size((((raw + 2879) / 2880) * 2880) as int)
}

fn mul_clamped(a: usize, b: usize) -> (r: usize)
    ensures
        r == clamp_size((a * b) as int),
{
    match a.checked_mul(b) {
        Some(v) => v,
        None => usize::MAX,
    }
}

fn add_clamped(a: usize, b: usize) -> (r: usize)
    ensures
        r == clamp_size((a + b) as int),
{
    match a.checked_add(b) {
        Some(v) => v,
        None => usize::MAX,
    }
}

proof fn lemma_clamp_mul(x: nat, y: nat)
    ensures
        clamp_size((clamp_size(x as int) * y) as int) == clamp_size((x * y) as int),
{
    if x > usize::MAX as nat && y > 0 {
        assert(x * y >= x) by (nonlinear_arith)
            requires
                y > 0,
        ;
        assert(clamp_size(x as int) * y >= usize::MAX) by (nonlinear_arith)
            requires
                clamp_size(x as int) == usize::MAX,
                y > 0,
        ;
    }
}

proof fn lemma_clamp_add(x: nat, y: nat)
    ensures
        clamp_size((clamp_size(x as int) + y) as int) == clamp_size((x + y) as int),
{
}

/// The product of the axis lengths, held at `usize::MAX`.
pub fn pixel_count_of(shape: &[usize]) -> (r: usize)
    ensures
        r == clamp_size(pixel_count(shape@) as int),
{
    if shape.len() == 0 {
        return 0;
    }
    let mut acc: usize = 1;
    let mut i: usize = 0;
    assert(shape@.take(0) =~= Seq::<usize>::empty());
    while i < shape.len()
        invariant
            0 <= i <= shape.len(),
            acc == clamp_size(product(shape@.take(i as int)) as int),
        decreases shape.len() - i,
    {
        assert(shape@.take(i + 1).drop_last() =~= shape@.take(i as int));
        proof {
            lemma_clamp_mul(product(shape@.take(i as int)), shape@[i as int] as nat);
        }
        acc = mul_clamped(acc, shape[i]);
        i = i + 1;
    }
    assert(shape@.take(shape.len() as int) =~= shape@);
    acc
}

pub fn raw_data_bytes_of(cards: &HeaderMap, shape: &[usize], bitpix: i32, is_image: bool, compressed: bool) -> (r: usize)
    requires
        shape@ == hdu_shape(cards.pairs()),
        bitpix as int == hdu_bitpix(cards.pairs()),
        compressed == is_compressed_image(cards.pairs()),
        exists|index: nat| is_image == hdu_is_image(cards.pairs(), index),
    ensures
        forall|index: nat|
            is_image == hdu_is_image(cards.pairs(), index) ==> r == #[trigger] raw_data_bytes(
                cards.pairs(),
                index,
            ),
{
    if compressed || !is_image {
        let naxis1 = match parse_fits_int_card(cards, numbered_vec(keyword_vec(2).as_slice(), 1).as_slice()) {
            Some(v) => v,
            None => 0,
        };
        let naxis2 = match parse_fits_int_card(cards, numbered_vec(keyword_vec(2).as_slice(), 2).as_slice()) {
            Some(v) => v,
            None => 0,
        };
        let pcount = match parse_fits_int_card(cards, keyword_vec(8).as_slice()) {
            Some(v) => v,
            None => 0,
        };
        let gcount = match parse_fits_int_card(cards, keyword_vec(9).as_slice()) {
            Some(v) => v,
            None => 1,
        };
        proof {
            lemma_clamp_mul((naxis1 * naxis2) as nat, gcount as nat);
            lemma_clamp_add((naxis1 * naxis2 * gcount) as nat, pcount as nat);
        }
        let a = mul_clamped(naxis1, naxis2);
        let b = mul_clamped(a, gcount);
        add_clamped(b, pcount)
    } else {
        let total = pixel_count_of(shape);
        let bpp: usize = (if bitpix < 0 {
            if bitpix == i32::MIN {
                2147483648u64
            } else {
                (-bitpix) as u64
            }
        } else {
            bitpix as u64
        } / 8) as usize;
        proof {
            lemma_clamp_mul(pixel_count(shape@), bpp as nat);
        }
        mul_clamped(total, bpp)
    }
}

pub fn padded_bytes_of(raw: usize) -> (r: usize)
    ensures
        r == padded_bytes(raw as nat),
{
    let blocks: usize = raw / 2880 + if raw % 2880 == 0 {
        0
    } else {
        1
    };
    assert(blocks == (raw + 2879) / 2880);
    mul_clamped(blocks, 2880)
}


/// The data of a table HDU, and of a tile-compressed image (which is a
/// table), is its NAXIS1 * NAXIS2 * GCOUNT bytes of rows followed by the
/// PCOUNT bytes of its heap (GCOUNT 1 and PCOUNT 0 when missing), held at
/// `usize::MAX`.
pub proof fn lemma_table_data_len(p: Pairs, index: nat, n1: nat, n2: nat)
    requires
        is_compressed_image(p) || !hdu_is_image(p, index),
        card_usize(p, numbered(kw_naxis(), 1)) == Some(n1),
        card_usize(p, numbered(kw_naxis(), 2)) == Some(n2),
    ensures
        ({
            let g: nat = match card_usize(p, kw_gcount()) {
                Some(g) => g,
                None => 1,
            };
            let heap: nat = match card_usize(p, kw_pcount()) {
                Some(h) => h,
                None => 0,
            };
            let total = n1 * n2 * g + heap;
            raw_data_bytes(p, index) == if total > usize::MAX {
                usize::MAX as nat
            } else {
                total
            }
        }),
{
}

} // verus!
