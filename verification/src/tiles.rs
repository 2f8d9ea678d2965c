//! The tiles of a tile-compressed image: each tile's array descriptor in the
//! binary table, its bytes in the heap, and its pixels, stored whole
//! (NOCOMPRESS) or Rice-coded (RICE_1).
use vstd::prelude::*;
use crate::endian::{be_value, read_be_u32, read_be_u64};
use crate::header_map::{lookup, HeaderMap};
use crate::hdu::{card_usize, default_to, kw_naxis, numbered, numbered_vec, parse_fits_int_card};
use crate::pixels::{word_size, word_size_of};
use crate::rice::{lemma_rice_decode_len, nats, pow2, rice_decode, rice_decode_exec};
use crate::table::{element_size, element_size_of};
use crate::text::{chars_of, same_chars, trim_chars, trim_text};

verus! {

/// How the tiles of an image lie in its table: the image's size, the rows
/// of the image in each tile, the bytes of a table row, where the heap
/// starts, the descriptor's width (`Q` rather than `P`) and the bytes of
/// one element of the described array, the bytes of a pixel, and for Rice
/// coding the bytes of a coded pixel and the pixels of a block.
#[derive(Clone, Copy, Debug, PartialEq, Eq)]
pub struct TileForm {
    pub nx: usize,
    pub ny: usize,
    pub tile_rows: usize,
    pub row_bytes: usize,
    pub heap: usize,
    pub wide: bool,
    pub elem: usize,
    pub width: usize,
    pub rice: bool,
    pub bytepix: usize,
    pub blocksize: usize,
}

pub open spec fn kw_zname() -> Seq<char> {
    seq!['Z', 'N', 'A', 'M', 'E']
}

pub open spec fn kw_zval() -> Seq<char> {
    seq!['Z', 'V', 'A', 'L']
}

pub open spec fn kw_ztile() -> Seq<char> {
    seq!['Z', 'T', 'I', 'L', 'E']
}

pub open spec fn kw_theap() -> Seq<char> {
    seq!['T', 'H', 'E', 'A', 'P']
}

pub open spec fn kw_tform() -> Seq<char> {
    seq!['T', 'F', 'O', 'R', 'M']
}

pub open spec fn word_bytepix() -> Seq<char> {
    seq!['B', 'Y', 'T', 'E', 'P', 'I', 'X']
}

pub open spec fn word_blocksize() -> Seq<char> {
    seq!['B', 'L', 'O', 'C', 'K', 'S', 'I', 'Z', 'E']
}

/// The value of the compression parameter `name`: ZVALi for the first
/// ZNAMEi from `i` on that names it, looking at ZNAME1, ZNAME2, ... until
/// one is missing.
pub open spec fn zparam(p: Seq<(Seq<char>, Seq<char>)>, name: Seq<char>, i: nat) -> Option<nat>
    decreases p.len() + 1 - i,
{
    if i == 0 || i > p.len() {
        None
    } else {
        match lookup(p, numbered(kw_zname(), i)) {
            None => None,
            Some(v) => if trim_text(v) == name {
                card_usize(p, numbered(kw_zval(), i))
            } else {
                zparam(p, name, i + 1)
            },
        }
    }
}

/// The array descriptor in a TFORM, from position `i` on: the first `P`
/// or `Q`, whether it is `Q`, and the bytes of the element type that
/// follows it (1 when none follows).
pub open spec fn desc_form(f: Seq<char>, i: int) -> Option<(bool, nat)>
    decreases f.len() - i,
{
    if i < 0 || i >= f.len() {
        None
    } else if f[i] == 'P' || f[i] == 'Q' {
        Some(
            (
                f[i] == 'Q',
                if i + 1 < f.len() {
                    element_size(f[i + 1])
                } else {
                    1
                },
            ),
        )
    } else {
        desc_form(f, i + 1)
    }
}

/// The layout of the tiles that a header describes, for an image of `nx`
/// by `ny` pixels of ZBITPIX `zbitpix`. Each tile is `ZTILE2` rows (1 when
/// missing) of the whole width: a header whose ZTILE1 is not the width is
/// not read, nor one without NAXIS1, NAXIS2 or an array descriptor in
/// TFORM1, nor Rice-coded floating-point pixels. The heap starts at THEAP,
/// else right after the NAXIS1 * NAXIS2 bytes of the table; the Rice
/// parameters BYTEPIX and BLOCKSIZE default to 4 and 32.
pub open spec fn tile_form(
    p: Seq<(Seq<char>, Seq<char>)>,
    nx: usize,
    ny: usize,
    zbitpix: i32,
    rice: bool,
) -> Option<TileForm> {
    let width = word_size(zbitpix as int);
    let ztile1 = default_to(card_usize(p, numbered(kw_ztile(), 1)), nx as nat);
    let ztile2 = default_to(card_usize(p, numbered(kw_ztile(), 2)), 1);
    let dform = match lookup(p, numbered(kw_tform(), 1)) {
        Some(v) => desc_form(trim_text(v), 0),
        None => None,
    };
    if width == 0 || (rice && zbitpix < 0) || ztile1 != nx || ztile2 == 0 || nx * ny * width
        > usize::MAX {
        None
    } else {
        match (dform, card_usize(p, numbered(kw_naxis(), 1)), card_usize(p, numbered(kw_naxis(), 2))) {
            (Some((wide, elem)), Some(row_bytes), Some(rows)) => {
                let heap = default_to(card_usize(p, kw_theap()), row_bytes * rows);
                if heap > usize::MAX {
                    None
                } else {
                    Some(
                        TileForm {
                            nx,
                            ny,
                            tile_rows: ztile2 as usize,
                            row_bytes: row_bytes as usize,
                            heap: heap as usize,
                            wide,
                            elem: elem as usize,
                            width: width as usize,
                            rice,
                            bytepix: default_to(zparam(p, word_bytepix(), 1), 4) as usize,
                            blocksize: default_to(zparam(p, word_blocksize(), 1), 32) as usize,
                        },
                    )
                }
            },
            _ => None,
        }
    }
}

/// The array descriptor at byte `at` of the table: the element count and
/// the heap offset, two big-endian words of 4 bytes (8 for `Q`).
pub open spec fn descriptor(t: Seq<u8>, at: int, wide: bool) -> Option<(nat, nat)> {
    let n: int = if wide {
        8
    } else {
        4
    };
    if at < 0 || at + 2 * n > t.len() {
        None
    } else {
        Some((be_value(t.subrange(at, at + n)), be_value(t.subrange(at + n, at + 2 * n))))
    }
}

/// The bytes of `count` elements at `off` in the heap.
pub open spec fn heap_bytes(t: Seq<u8>, f: TileForm, count: nat, off: nat) -> Option<Seq<u8>> {
    let start = f.heap + off;
    let len = count * f.elem;
    if start + len > t.len() {
        None
    } else {
        Some(t.subrange(start as int, start + len))
    }
}

/// `x` as `n` bytes, most significant first, modulo `256^n`.
pub open spec fn be_bytes(x: nat, n: nat) -> Seq<u8>
    decreases n,
{
    if n == 0 {
        Seq::empty()
    } else {
        be_bytes(x / 256, (n - 1) as nat).push((x % 256) as u8)
    }
}

/// A Rice-decoded pixel, an unsigned value of `bytepix` bytes, as a pixel
/// of `width` bytes: sign-extended when it is wider (pixels of one byte are
/// unsigned), cut to its low bytes when it is not.
pub open spec fn wrap_word(v: nat, bytepix: nat, width: nat) -> nat {
    let m = pow2(8 * width);
    let b = pow2(8 * bytepix);
    if bytepix >= width {
        v % m
    } else if bytepix > 1 && 2 * v >= b {
        (v + m - b) as nat
    } else {
        v
    }
}

/// Decoded pixels as big-endian words of `width` bytes.
pub open spec fn encode_words(vs: Seq<nat>, bytepix: nat, width: nat) -> Seq<u8>
    decreases vs.len(),
{
    if vs.len() == 0 {
        Seq::empty()
    } else {
        encode_words(vs.drop_last(), bytepix, width) + be_bytes(
            wrap_word(vs.last(), bytepix, width),
            width,
        )
    }
}

/// The `npix` pixels of one tile from its bytes, as big-endian words of the
/// image's pixel width: NOCOMPRESS tiles hold them as they are, RICE_1
/// tiles Rice-coded.
pub open spec fn tile_data(b: Seq<u8>, f: TileForm, npix: nat) -> Option<Seq<u8>> {
    if f.rice {
        match rice_decode(b, f.bytepix as nat, f.blocksize as nat, npix) {
            Some(vs) => Some(encode_words(vs, f.bytepix as nat, f.width as nat)),
            None => None,
        }
    } else if b.len() >= npix * f.width {
        Some(b.take((npix * f.width) as int))
    } else {
        None
    }
}

/// The pixels of the tiles from tile `k` on, whose first image row is
/// `row`: tile `k`'s descriptor is at the start of table row `k`.
pub open spec fn tiles_from(t: Seq<u8>, f: TileForm, k: nat, row: nat) -> Option<Seq<u8>>
    decreases f.ny - row,
{
    if row >= f.ny {
        Some(Seq::empty())
    } else if f.tile_rows == 0 {
        None
    } else {
        let rows: nat = if f.tile_rows < f.ny - row {
            f.tile_rows as nat
        } else {
            (f.ny - row) as nat
        };
        match descriptor(t, k * f.row_bytes, f.wide) {
            None => None,
            Some((count, off)) => match heap_bytes(t, f, count, off) {
                None => None,
                Some(b) => match tile_data(b, f, (f.nx * rows) as nat) {
                    None => None,
                    Some(d) => match tiles_from(t, f, k + 1, row + rows) {
                        Some(rest) => Some(d + rest),
                        None => None,
                    },
                },
            },
        }
    }
}

/// The image's pixels from all its tiles, in order.
pub open spec fn tiled_pixels(t: Seq<u8>, f: TileForm) -> Option<Seq<u8>> {
    tiles_from(t, f, 0, 0)
}

/// The keyword stems and parameter names above, as characters.
fn tile_word(which: u8) -> (r: Vec<char>)
    ensures
        which == 0 ==> r@ == kw_zname(),
        which == 1 ==> r@ == kw_zval(),
        which == 2 ==> r@ == kw_ztile(),
        which == 3 ==> r@ == kw_theap(),
        which == 4 ==> r@ == kw_tform(),
        which == 5 ==> r@ == word_bytepix(),
        which == 6 ==> r@ == word_blocksize(),
        which == 7 ==> r@ == kw_naxis(),
{
    let r = if which == 0 {
        vec!['Z', 'N', 'A', 'M', 'E']
    } else if which == 1 {
        vec!['Z', 'V', 'A', 'L']
    } else if which == 2 {
        vec!['Z', 'T', 'I', 'L', 'E']
    } else if which == 3 {
        vec!['T', 'H', 'E', 'A', 'P']
    } else if which == 4 {
        vec!['T', 'F', 'O', 'R', 'M']
    } else if which == 5 {
        vec!['B', 'Y', 'T', 'E', 'P', 'I', 'X']
    } else if which == 6 {
        vec!['B', 'L', 'O', 'C', 'K', 'S', 'I', 'Z', 'E']
    } else {
        vec!['N', 'A', 'X', 'I', 'S']
    };
    assert(which == 0 ==> r@ =~= kw_zname());
    assert(which == 1 ==> r@ =~= kw_zval());
    assert(which == 2 ==> r@ =~= kw_ztile());
    assert(which == 3 ==> r@ =~= kw_theap());
    assert(which == 4 ==> r@ =~= kw_tform());
    assert(which == 5 ==> r@ =~= word_bytepix());
    assert(which == 6 ==> r@ =~= word_blocksize());
    assert(which == 7 ==> r@ =~= kw_naxis());
    r
}

/// The value of a compression parameter (see `zparam`).
fn zparam_of(cards: &HeaderMap, name: &[char]) -> (r: Option<usize>)
    ensures
        match r {
            Some(v) => zparam(cards.pairs(), name@, 1) == Some(v as nat),
            None => zparam(cards.pairs(), name@, 1) is None,
        },
{
    let zname = tile_word(0);
    let zval = tile_word(1);
    let n = cards.len();
    let mut i: usize = 1;
    while i <= n
        invariant
            1 <= i <= n + 1,
            n == cards.pairs().len(),
            zname@ == kw_zname(),
            zval@ == kw_zval(),
            zparam(cards.pairs(), name@, 1) == zparam(cards.pairs(), name@, i as nat),
        decreases n + 1 - i,
    {
        let key = numbered_vec(zname.as_slice(), i);
        match cards.get_chars(key.as_slice()) {
            None => return None,
            Some(v) => {
                let t = trim_chars(chars_of(v.as_str()).as_slice());
                if same_chars(t.as_slice(), name) {
                    let vkey = numbered_vec(zval.as_slice(), i);
                    return parse_fits_int_card(cards, vkey.as_slice());
                }
            },
        }
        assert(zparam(cards.pairs(), name@, i as nat) == zparam(cards.pairs(), name@, (i + 1) as nat));
        if i == n {
            assert(zparam(cards.pairs(), name@, (i + 1) as nat) is None);
            return None;
        }
        i = i + 1;
    }
    None
}

fn desc_form_of(f: &[char]) -> (r: Option<(bool, usize)>)
    ensures
        match r {
            Some((w, e)) => desc_form(f@, 0) == Some((w, e as nat)),
            None => desc_form(f@, 0) is None,
        },
{
    let mut i: usize = 0;
    while i < f.len()
        invariant
            0 <= i <= f.len(),
            desc_form(f@, 0) == desc_form(f@, i as int),
        decreases f.len() - i,
    {
        if f[i] == 'P' || f[i] == 'Q' {
            let e = if i + 1 < f.len() {
                element_size_of(f[i + 1])
            } else {
                1
            };
            return Some((f[i] == 'Q', e));
        }
        i = i + 1;
    }
    None
}

/// The layout of a header's tiles (see `tile_form`).
pub fn tile_form_of(cards: &HeaderMap, nx: usize, ny: usize, zbitpix: i32, rice: bool) -> (r: Option<
    TileForm,
>)
    ensures
        r == tile_form(cards.pairs(), nx, ny, zbitpix, rice),
{
    let width = word_size_of(zbitpix);
    let ztile = tile_word(2);
    let ztile1 = match parse_fits_int_card(cards, numbered_vec(ztile.as_slice(), 1).as_slice()) {
        Some(v) => v,
        None => nx,
    };
    let ztile2 = match parse_fits_int_card(cards, numbered_vec(ztile.as_slice(), 2).as_slice()) {
        Some(v) => v,
        None => 1,
    };
    let tform = tile_word(4);
    let dform = match cards.get_chars(numbered_vec(tform.as_slice(), 1).as_slice()) {
        Some(v) => desc_form_of(trim_chars(chars_of(v.as_str()).as_slice()).as_slice()),
        None => None,
    };
    if width == 0 || (rice && zbitpix < 0) || ztile1 != nx || ztile2 == 0 {
        return None;
    }
    let total = match nx.checked_mul(ny) {
        Some(a) => a.checked_mul(width),
        None => {
            assert(nx * ny * width > usize::MAX) by (nonlinear_arith)
                requires
                    nx * ny > usize::MAX,
                    width >= 1,
            ;
            None
        },
    };
    if total.is_none() {
        return None;
    }
    let naxis = tile_word(7);
    let row_bytes = parse_fits_int_card(cards, numbered_vec(naxis.as_slice(), 1).as_slice());
    let rows = parse_fits_int_card(cards, numbered_vec(naxis.as_slice(), 2).as_slice());
    match (dform, row_bytes, rows) {
        (Some((wide, elem)), Some(rb), Some(nrows)) => {
            let heap = match parse_fits_int_card(cards, tile_word(3).as_slice()) {
                Some(h) => h,
                None => match rb.checked_mul(nrows) {
                    Some(h) => h,
                    None => return None,
                },
            };
            let bytepix = match zparam_of(cards, tile_word(5).as_slice()) {
                Some(v) => v,
                None => 4,
            };
            let blocksize = match zparam_of(cards, tile_word(6).as_slice()) {
                Some(v) => v,
                None => 32,
            };
            Some(
                TileForm {
                    nx,
                    ny,
                    tile_rows: ztile2,
                    row_bytes: rb,
                    heap,
                    wide,
                    elem,
                    width,
                    rice,
                    bytepix,
                    blocksize,
                },
            )
        },
        _ => None,
    }
}

proof fn lemma_pow2_add(a: nat, b: nat)
    ensures
        pow2(a + b) == pow2(a) * pow2(b),
    decreases a,
{
    if a == 0 {
        assert(pow2(0) == 1);
        assert(a + b == b);
    } else {
        let a1 = (a - 1) as nat;
        let c = a1 + b;
        lemma_pow2_add(a1, b);
        assert(pow2(c) == pow2(a1) * pow2(b));
        assert(pow2(a + b) == 2 * pow2(c));
        assert(pow2(a) == 2 * pow2(a1));
        let x = pow2(a1);
        let y = pow2(b);
        assert(2 * (x * y) == (2 * x) * y) by (nonlinear_arith);
    }
}

proof fn lemma_word_moduli()
    ensures
        pow2(8) == 256,
        pow2(16) == 65536,
        pow2(32) == 0x1_0000_0000,
        pow2(64) == 0x1_0000_0000_0000_0000,
{
    assert(pow2(8) == 256) by {
        reveal_with_fuel(pow2, 9);
    }
    lemma_pow2_add(8, 8);
    assert(pow2(16) == 65536);
    lemma_pow2_add(16, 16);
    assert(pow2(32) == 65536 * 65536);
    assert(65536 * 65536 == 0x1_0000_0000) by (nonlinear_arith);
    lemma_pow2_add(32, 32);
    assert(pow2(64) == 0x1_0000_0000 * 0x1_0000_0000);
    assert(0x1_0000_0000 * 0x1_0000_0000 == 0x1_0000_0000_0000_0000) by (nonlinear_arith);
}

proof fn lemma_be_bytes_len(x: nat, n: nat)
    ensures
        be_bytes(x, n).len() == n,
    decreases n,
{
    if n > 0 {
        lemma_be_bytes_len(x / 256, (n - 1) as nat);
    }
}

proof fn lemma_encode_len(vs: Seq<nat>, bytepix: nat, width: nat)
    ensures
        encode_words(vs, bytepix, width).len() == vs.len() * width,
    decreases vs.len(),
{
    if vs.len() > 0 {
        lemma_encode_len(vs.drop_last(), bytepix, width);
        lemma_be_bytes_len(wrap_word(vs.last(), bytepix, width), width);
        assert((vs.len() - 1) * width + width == vs.len() * width) by (nonlinear_arith);
    }
}

/// The descriptor at byte `at` of the table (see `descriptor`).
fn descriptor_of(t: &[u8], at: u128, wide: bool) -> (r: Option<(u64, u64)>)
    ensures
        match r {
            Some((c, o)) => descriptor(t@, at as int, wide) == Some((c as nat, o as nat)),
            None => descriptor(t@, at as int, wide) is None,
        },
{
    let n: u128 = if wide {
        8
    } else {
        4
    };
    if at > t.len() as u128 || 2 * n > t.len() as u128 - at {
        return None;
    }
    let a = at as usize;
    let b = n as usize;
    let first = &t[a..t.len()];
    let second = &t[a + b..t.len()];
    assert(first@.take(b as int) =~= t@.subrange(a as int, a + b));
    assert(second@.take(b as int) =~= t@.subrange(a + b, a + 2 * b));
    if wide {
        Some((read_be_u64(first), read_be_u64(second)))
    } else {
        Some((read_be_u32(first) as u64, read_be_u32(second) as u64))
    }
}

/// The heap bytes of `count` elements at `off` (see `heap_bytes`).
fn heap_range<'a>(t: &'a [u8], f: &TileForm, count: u64, off: u64) -> (r: Option<&'a [u8]>)
    ensures
        match r {
            Some(b) => heap_bytes(t@, *f, count as nat, off as nat) == Some(b@),
            None => heap_bytes(t@, *f, count as nat, off as nat) is None,
        },
{
    let start: u128 = f.heap as u128 + off as u128;
    assert((count as u128) * (f.elem as u128) <= 0xFFFF_FFFF_FFFF_FFFF * 0xFFFF_FFFF_FFFF_FFFFu128)
        by (nonlinear_arith)
        requires
            count <= 0xFFFF_FFFF_FFFF_FFFFu64,
            f.elem <= 0xFFFF_FFFF_FFFF_FFFFu64,
    ;
    let len: u128 = (count as u128) * (f.elem as u128);
    if start > t.len() as u128 || len > t.len() as u128 - start {
        return None;
    }
    let s = start as usize;
    let e = (start + len) as usize;
    Some(&t[s..e])
}

/// Appends `x` as `n` big-endian bytes.
fn push_be(out: &mut Vec<u8>, x: u128, n: usize)
    ensures
        final(out)@ == old(out)@ + be_bytes(x as nat, n as nat),
    decreases n,
{
    if n > 0 {
        push_be(out, x / 256, n - 1);
        let ghost before = out@;
        out.push((x % 256) as u8);
        assert(out@ =~= old(out)@ + be_bytes(x as nat, n as nat)) by {
            assert(be_bytes(x as nat, n as nat) == be_bytes((x / 256) as nat, (n - 1) as nat).push(
                (x % 256) as u8,
            ));
        }
    } else {
        assert(old(out)@ + be_bytes(x as nat, 0) =~= old(out)@);
    }
}

fn wrap_word_of(v: u64, bytepix: usize, width: usize) -> (r: u128)
    requires
        bytepix == 1 || bytepix == 2 || bytepix == 4,
        width == 1 || width == 2 || width == 4 || width == 8,
    ensures
        r as nat == wrap_word(v as nat, bytepix as nat, width as nat),
{
    proof {
        lemma_word_moduli();
    }
    let m: u128 = if width == 1 {
        256
    } else if width == 2 {
        65536
    } else if width == 4 {
        0x1_0000_0000
    } else {
        0x1_0000_0000_0000_0000
    };
    let b: u128 = if bytepix == 1 {
        256
    } else if bytepix == 2 {
        65536
    } else {
        0x1_0000_0000
    };
    assert(m as nat == pow2(8 * width as nat));
    assert(b as nat == pow2(8 * bytepix as nat));
    let x = v as u128;
    if bytepix >= width {
        x % m
    } else if bytepix > 1 && 2 * x >= b {
        x + m - b
    } else {
        x
    }
}

/// Decoded pixels as big-endian words (see `encode_words`).
fn encode_words_of(vs: &Vec<u64>, bytepix: usize, width: usize) -> (r: Vec<u8>)
    requires
        bytepix == 1 || bytepix == 2 || bytepix == 4,
        width == 1 || width == 2 || width == 4 || width == 8,
    ensures
        r@ == encode_words(nats(vs@), bytepix as nat, width as nat),
{
    let mut out: Vec<u8> = Vec::new();
    let mut i: usize = 0;
    assert(nats(vs@).take(0) =~= Seq::<nat>::empty());
    while i < vs.len()
        invariant
            0 <= i <= vs.len(),
            bytepix == 1 || bytepix == 2 || bytepix == 4,
            width == 1 || width == 2 || width == 4 || width == 8,
            out@ == encode_words(nats(vs@).take(i as int), bytepix as nat, width as nat),
        decreases vs.len() - i,
    {
        let w = wrap_word_of(vs[i], bytepix, width);
        push_be(&mut out, w, width);
        proof {
            let s = nats(vs@).take(i + 1);
            assert(s.drop_last() =~= nats(vs@).take(i as int));
            assert(s.last() == vs@[i as int] as nat);
        }
        i = i + 1;
    }
    assert(nats(vs@).take(vs.len() as int) =~= nats(vs@));
    out
}

/// The pixels of one tile (see `tile_data`).
fn tile_data_of(b: &[u8], f: &TileForm, npix: usize) -> (r: Option<Vec<u8>>)
    requires
        f.width == 1 || f.width == 2 || f.width == 4 || f.width == 8,
        npix * f.width <= usize::MAX,
    ensures
        match r {
            Some(d) => tile_data(b@, *f, npix as nat) == Some(d@) && d@.len() == npix * f.width,
            None => tile_data(b@, *f, npix as nat) is None,
        },
{
    let need = npix * f.width;
    if f.rice {
        match rice_decode_exec(b, f.bytepix as u64, f.blocksize as u64, npix as u64) {
            Some(vs) => {
                proof {
                    lemma_rice_decode_len(b@, f.bytepix as nat, f.blocksize as nat, npix as nat);
                }
                let d = encode_words_of(&vs, f.bytepix, f.width);
                proof {
                    lemma_encode_len(nats(vs@), f.bytepix as nat, f.width as nat);
                }
                Some(d)
            },
            None => None,
        }
    } else if b.len() >= need {
        let d = vstd::slice::slice_to_vec(&b[0..need]);
        assert(d@ =~= b@.take(need as int));
        Some(d)
    } else {
        None
    }
}

/// The image's pixels from all its tiles (see `tiled_pixels`), `npix *
/// width` bytes of them.
pub(crate) fn decode_tiles(t: &[u8], f: &TileForm) -> (r: Option<Vec<u8>>)
    requires
        f.width == 1 || f.width == 2 || f.width == 4 || f.width == 8,
        f.nx * f.ny * f.width <= usize::MAX,
    ensures
        match r {
            Some(d) => tiled_pixels(t@, *f) == Some(d@) && d@.len() == f.nx * f.ny * f.width,
            None => tiled_pixels(t@, *f) is None,
        },
{
    let mut out: Vec<u8> = Vec::new();
    let mut k: usize = 0;
    let mut row: usize = 0;
    assert(out@ + Seq::<u8>::empty() =~= out@);
    while row < f.ny
        invariant
            k <= row <= f.ny,
            f.width == 1 || f.width == 2 || f.width == 4 || f.width == 8,
            f.nx * f.ny * f.width <= usize::MAX,
            out@.len() == f.nx * row * f.width,
            tiled_pixels(t@, *f) == match tiles_from(t@, *f, k as nat, row as nat) {
                Some(rest) => Some(out@ + rest),
                None => None,
            },
        decreases f.ny - row,
    {
        if f.tile_rows == 0 {
            return None;
        }
        let rows = if f.tile_rows < f.ny - row {
            f.tile_rows
        } else {
            f.ny - row
        };
        assert(f.nx * rows * f.width <= f.nx * f.ny * f.width && f.nx * rows <= f.nx * rows * f.width)
            by (nonlinear_arith)
            requires
                rows <= f.ny,
                f.width >= 1,
        ;
        let npix = f.nx * rows;
        assert((k as u128) * (f.row_bytes as u128) <= 0xFFFF_FFFF_FFFF_FFFF * 0xFFFF_FFFF_FFFF_FFFFu128)
            by (nonlinear_arith)
            requires
                k <= 0xFFFF_FFFF_FFFF_FFFFu64,
                f.row_bytes <= 0xFFFF_FFFF_FFFF_FFFFu64,
        ;
        let at: u128 = (k as u128) * (f.row_bytes as u128);
        let (count, off) = match descriptor_of(t, at, f.wide) {
            Some(d) => d,
            None => return None,
        };
        let b = match heap_range(t, f, count, off) {
            Some(b) => b,
            None => return None,
        };
        let mut d = match tile_data_of(b, f, npix) {
            Some(d) => d,
            None => return None,
        };
        proof {
            let rest = tiles_from(t@, *f, (k + 1) as nat, (row + rows) as nat);
            match rest {
                Some(r2) => {
                    assert(out@ + (d@ + r2) =~= (out@ + d@) + r2);
                },
                None => {},
            }
            assert(f.nx * row * f.width + f.nx * rows * f.width == f.nx * (row + rows) * f.width)
                by (nonlinear_arith);
        }
        out.append(&mut d);
        k = k + 1;
        row = row + rows;
    }
    assert(out@ + Seq::<u8>::empty() =~= out@);
    Some(out)
}

} // verus!
