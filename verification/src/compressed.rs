//! Tile-compressed images: their pixels from the tiles of the table
//! (NOCOMPRESS and RICE_1) or from the gzip or zlib stream that it holds.
use vstd::prelude::*;
use std::io::Read;
use flate2::read::{GzDecoder, ZlibDecoder};
use crate::header_map::{lookup, HeaderMap};
use crate::hdu::{card_i32, card_usize, kw_zbitpix, kw_compression_type, numbered, kw_znaxis, keyword_vec, numbered_vec, parse_fits_i32_card, parse_fits_int_card};
use crate::text::{chars_of, contains_chars, contains_text, upper_chars, upper_text};
use crate::tiles::{decode_tiles, tile_form, tile_form_of, tiled_pixels};

verus! {

/// What `GzDecoder` over the bytes, read to the end, yields (`None` when the
/// read fails).
pub uninterp spec fn gzip_inflate(input: Seq<u8>) -> Option<Seq<u8>>;

/// What `ZlibDecoder` over the bytes, read to the end, yields (`None` when
/// the read fails).
pub uninterp spec fn zlib_inflate(input: Seq<u8>) -> Option<Seq<u8>>;

/// `flate2::read::GzDecoder::new(data).read_to_end(..)`: the decompressed
/// bytes of the first gzip member, `None` on an error. The result depends on
/// the input bytes alone; it is named `gzip_inflate`.
#[verifier::external_body]
fn gunzip(data: &[u8]) -> (r: Option<Vec<u8>>)
    ensures
        match r {
            Some(v) => gzip_inflate(data@) == Some(v@),
            None => gzip_inflate(data@) is None,
        },
{
    let mut out = Vec::new();
    match GzDecoder::new(data).read_to_end(&mut out) {
        Ok(_) => Some(out),
        Err(_) => None,
    }
}

/// `flate2::read::ZlibDecoder::new(data).read_to_end(..)`: the decompressed
/// bytes of the zlib stream, `None` on an error. The result depends on the
/// input bytes alone; it is named `zlib_inflate`.
#[verifier::external_body]
fn unzlib(data: &[u8]) -> (r: Option<Vec<u8>>)
    ensures
        match r {
            Some(v) => zlib_inflate(data@) == Some(v@),
            None => zlib_inflate(data@) is None,
        },
{
    let mut out = Vec::new();
    match ZlibDecoder::new(data).read_to_end(&mut out) {
        Ok(_) => Some(out),
        Err(_) => None,
    }
}

/// Why a tile-compressed image could not be read.
#[derive(Clone, Copy, Debug, PartialEq, Eq)]
pub enum TileError {
    /// No ZNAXIS1.
    MissingWidth,
    /// No ZNAXIS2.
    MissingHeight,
    /// The pixels cannot be read from the table: its tiles do not decode,
    /// no gzip or zlib stream in it inflates to the whole image, or it is
    /// compressed in a way that is not read here (see `tile_image`).
    Unsupported,
}

/// The decompressed pixels of a tile-compressed image: data, width,
/// height and the ZBITPIX that encodes them.
#[derive(Clone, Debug)]
pub struct TileImage {
    pub data: Vec<u8>,
    pub nx: usize,
    pub ny: usize,
    pub zbitpix: i32,
}

pub open spec fn is_gzip_magic(t: Seq<u8>, i: int) -> bool {
    t[i] == 0x1f && t[i + 1] == 0x8b
}

pub open spec fn is_zlib_magic(t: Seq<u8>, i: int) -> bool {
    t[i] == 0x78 && (t[i + 1] == 0x9c || t[i + 1] == 0x01 || t[i + 1] == 0xda)
}

/// The first position where a gzip stream (bytes 1f 8b) starts.
pub open spec fn gzip_start(t: Seq<u8>, i: int) -> Option<int>
    decreases t.len() - i,
{
    if i < 0 || i + 1 >= t.len() {
        None
    } else if is_gzip_magic(t, i) {
        Some(i)
    } else {
        gzip_start(t, i + 1)
    }
}

/// The first position where a zlib stream (78 9c, 78 01 or 78 da) starts.
pub open spec fn zlib_start(t: Seq<u8>, i: int) -> Option<int>
    decreases t.len() - i,
{
    if i < 0 || i + 1 >= t.len() {
        None
    } else if is_zlib_magic(t, i) {
        Some(i)
    } else {
        zlib_start(t, i + 1)
    }
}

pub open spec fn word_gzip() -> Seq<char> {
    seq!['G', 'Z', 'I', 'P']
}

pub open spec fn word_zlib() -> Seq<char> {
    seq!['Z', 'L', 'I', 'B']
}

pub open spec fn word_rice() -> Seq<char> {
    seq!['R', 'I', 'C', 'E']
}

pub open spec fn word_nocompress() -> Seq<char> {
    seq!['N', 'O', 'C', 'O', 'M', 'P', 'R', 'E', 'S', 'S']
}

/// The stream that starts at a position, inflated (`None` with no start or
/// when it does not inflate).
pub open spec fn inflate_at_spec(t: Seq<u8>, start: Option<int>, gzip: bool) -> Option<Seq<u8>> {
    match start {
        Some(pos) => if gzip {
            gzip_inflate(t.skip(pos))
        } else {
            zlib_inflate(t.skip(pos))
        },
        None => None,
    }
}

/// Inflated bytes, when there are at least `need` of them.
pub open spec fn long_enough(d: Option<Seq<u8>>, need: int) -> Option<Seq<u8>> {
    match d {
        Some(v) => if v.len() >= need {
            Some(v)
        } else {
            None
        },
        None => None,
    }
}

/// The inflated stream that starts at a position, when it holds at least
/// `need` bytes.
pub open spec fn inflated_from(t: Seq<u8>, start: Option<int>, gzip: bool, need: int) -> Option<
    Seq<u8>,
> {
    long_enough(inflate_at_spec(t, start, gzip), need)
}

/// The pixels chosen from the inflated streams: the gzip one when it holds
/// at least `need` bytes, else the zlib one when it does.
pub open spec fn tile_choice(gz: Option<Seq<u8>>, zl: Option<Seq<u8>>, need: int) -> Option<Seq<u8>> {
    match long_enough(gz, need) {
        Some(v) => Some(v),
        None => long_enough(zl, need),
    }
}

pub open spec fn opt_bytes(d: Option<Vec<u8>>) -> Option<Seq<u8>> {
    match d {
        Some(v) => Some(v@),
        None => None,
    }
}

/// What the compressed image of a header and its table bytes comes to.
/// When ZCMPTYPE names RICE or NOCOMPRESS, the pixels of its tiles in order,
/// as big-endian words of ZBITPIX (see `tile_form` and `tiled_pixels`).
/// Otherwise, when ZCMPTYPE names GZIP or ZLIB or the bytes hold a gzip
/// stream: the first gzip stream in the bytes that inflates to at least
/// ZNAXIS1 * ZNAXIS2 bytes, else the first zlib stream that does.
pub open spec fn tile_image(
    p: Seq<(Seq<char>, Seq<char>)>,
    t: Seq<u8>,
) -> Result<(Seq<u8>, nat, nat, int), TileError> {
    match card_usize(p, numbered(kw_znaxis(), 1)) {
        None => Err(TileError::MissingWidth),
        Some(nx) => match card_usize(p, numbered(kw_znaxis(), 2)) {
            None => Err(TileError::MissingHeight),
            Some(ny) => {
                let ztype = match lookup(p, kw_compression_type()) {
                    Some(v) => upper_text(v),
                    None => upper_text(Seq::empty()),
                };
                let zbitpix = match card_i32(p, kw_zbitpix()) {
                    Some(b) => b,
                    None => -32,
                };
                if contains_text(ztype, word_rice()) || contains_text(ztype, word_nocompress()) {
                    match tile_form(p, nx as usize, ny as usize, zbitpix as i32, contains_text(ztype, word_rice())) {
                        Some(f) => match tiled_pixels(t, f) {
                            Some(d) => Ok((d, nx, ny, zbitpix)),
                            None => Err(TileError::Unsupported),
                        },
                        None => Err(TileError::Unsupported),
                    }
                } else if contains_text(ztype, word_gzip()) || contains_text(ztype, word_zlib())
                    || gzip_start(t, 0) is Some {
                    match inflated_from(t, gzip_start(t, 0), true, (nx * ny) as int) {
                        Some(d) => Ok((d, nx, ny, zbitpix)),
                        None => match inflated_from(t, zlib_start(t, 0), false, (nx * ny) as int) {
                            Some(d) => Ok((d, nx, ny, zbitpix)),
                            None => Err(TileError::Unsupported),
                        },
                    }
                } else {
                    Err(TileError::Unsupported)
                }
            },
        },
    }
}

fn find_gzip(t: &[u8]) -> (r: Option<usize>)
    ensures
        match r {
            Some(i) => gzip_start(t@, 0) == Some(i as int) && i < t.len(),
            None => gzip_start(t@, 0) is None,
        },
{
    let mut i: usize = 0;
    while t.len() > 0 && i < t.len() - 1
        invariant
            0 <= i <= t.len(),
            gzip_start(t@, 0) == gzip_start(t@, i as int),
        decreases t.len() - i,
    {
        if t[i] == 0x1f && t[i + 1] == 0x8b {
            return Some(i);
        }
        i = i + 1;
    }
    None
}

fn find_zlib(t: &[u8]) -> (r: Option<usize>)
    ensures
        match r {
            Some(i) => zlib_start(t@, 0) == Some(i as int) && i < t.len(),
            None => zlib_start(t@, 0) is None,
        },
{
    let mut i: usize = 0;
    while t.len() > 0 && i < t.len() - 1
        invariant
            0 <= i <= t.len(),
            zlib_start(t@, 0) == zlib_start(t@, i as int),
        decreases t.len() - i,
    {
        if t[i] == 0x78 && (t[i + 1] == 0x9c || t[i + 1] == 0x01 || t[i + 1] == 0xda) {
            return Some(i);
        }
        i = i + 1;
    }
    None
}

fn inflate_at(t: &[u8], start: Option<usize>, gzip: bool) -> (r: Option<Vec<u8>>)
    requires
        start matches Some(s) ==> s <= t.len(),
    ensures
        opt_bytes(r) == inflate_at_spec(
            t@,
            match start {
                Some(s) => Some(s as int),
                None => None,
            },
            gzip,
        ),
{
    match start {
        Some(pos) => {
            let tail = &t[pos..t.len()];
            assert(tail@ =~= t@.skip(pos as int));
            if gzip {
                gunzip(tail)
            } else {
                unzlib(tail)
            }
        },
        None => None,
    }
}

fn has_enough(d: &Option<Vec<u8>>, nx: usize, ny: usize) -> (r: bool)
    ensures
        r == long_enough(opt_bytes(*d), nx * ny) is Some,
{
    match d {
        Some(v) => match nx.checked_mul(ny) {
            Some(need) => v.len() >= need,
            None => {
                let l = v.len();
                assert(l < nx * ny);
                false
            },
        },
        None => false,
    }
}

/// The image from the inflated streams of its table: the gzip stream's bytes
/// when there are at least `nx * ny` of them, else the zlib stream's when
/// there are; `Unsupported` when neither holds enough.
pub fn tile_from_inflated(
    nx: usize,
    ny: usize,
    zbitpix: i32,
    from_gzip: Option<Vec<u8>>,
    from_zlib: Option<Vec<u8>>,
) -> (r: Result<TileImage, TileError>)
    ensures
        match tile_choice(opt_bytes(from_gzip), opt_bytes(from_zlib), nx * ny) {
            Some(d) => r matches Ok(img) && img.data@ == d && img.nx == nx && img.ny == ny
                && img.zbitpix == zbitpix,
            None => r == Err::<TileImage, TileError>(TileError::Unsupported),
        },
{
    if has_enough(&from_gzip, nx, ny) {
        match from_gzip {
            Some(d) => return Ok(TileImage { data: d, nx, ny, zbitpix }),
            None => {},
        }
    }
    if has_enough(&from_zlib, nx, ny) {
        match from_zlib {
            Some(d) => return Ok(TileImage { data: d, nx, ny, zbitpix }),
            None => {},
        }
    }
    Err(TileError::Unsupported)
}

/// Decompresses a tile-compressed image from its header and table bytes
/// (NOCOMPRESS and RICE_1 tiles, GZIP and ZLIB streams; see `tile_image`).
pub fn parse_compressed_fits_image(cards: &HeaderMap, table_bytes: &[u8]) -> (r: Result<
    TileImage,
    TileError,
>)
    ensures
        match r {
            Ok(img) => tile_image(cards.pairs(), table_bytes@) == Ok::<
                (Seq<u8>, nat, nat, int),
                TileError,
            >((img.data@, img.nx as nat, img.ny as nat, img.zbitpix as int)),
            Err(e) => tile_image(cards.pairs(), table_bytes@) == Err::<
                (Seq<u8>, nat, nat, int),
                TileError,
            >(e),
        },
        r matches Ok(img) ==> img.data@.len() >= img.nx * img.ny,
{
    let nx = match parse_fits_int_card(cards, numbered_vec(keyword_vec(3).as_slice(), 1).as_slice()) {
        Some(v) => v,
        None => return Err(TileError::MissingWidth),
    };
    let ny = match parse_fits_int_card(cards, numbered_vec(keyword_vec(3).as_slice(), 2).as_slice()) {
        Some(v) => v,
        None => return Err(TileError::MissingHeight),
    };
    let ztype = match cards.get_chars(keyword_vec(6).as_slice()) {
        Some(v) => upper_chars(chars_of(v.as_str()).as_slice()),
        None => {
            let e: Vec<char> = Vec::new();
            assert(e@ =~= Seq::<char>::empty());
            upper_chars(e.as_slice())
        },
    };
    let zbitpix: i32 = match parse_fits_i32_card(cards, keyword_vec(1).as_slice()) {
        Some(b) => b,
        None => -32,
    };
    let gz = vec!['G', 'Z', 'I', 'P'];
    let zl = vec!['Z', 'L', 'I', 'B'];
    assert(gz@ =~= word_gzip());
    assert(zl@ =~= word_zlib());
    let rw = vec!['R', 'I', 'C', 'E'];
    let nw = vec!['N', 'O', 'C', 'O', 'M', 'P', 'R', 'E', 'S', 'S'];
    assert(rw@ =~= word_rice());
    assert(nw@ =~= word_nocompress());
    let rice = contains_chars(ztype.as_slice(), rw.as_slice());
    if rice || contains_chars(ztype.as_slice(), nw.as_slice()) {
        let f = match tile_form_of(cards, nx, ny, zbitpix, rice) {
            Some(f) => f,
            None => return Err(TileError::Unsupported),
        };
        return match decode_tiles(table_bytes, &f) {
            Some(d) => {
                assert(nx * ny <= nx * ny * f.width) by (nonlinear_arith)
                    requires
                        f.width >= 1,
                ;
                Ok(TileImage { data: d, nx, ny, zbitpix })
            },
            None => Err(TileError::Unsupported),
        };
    }
    let gpos = find_gzip(table_bytes);
    if contains_chars(ztype.as_slice(), gz.as_slice()) || contains_chars(
        ztype.as_slice(),
        zl.as_slice(),
    ) || gpos.is_some() {
        let from_gzip = inflate_at(table_bytes, gpos, true);
        if has_enough(&from_gzip, nx, ny) {
            return tile_from_inflated(nx, ny, zbitpix, from_gzip, None);
        }
        let zpos = find_zlib(table_bytes);
        let from_zlib = inflate_at(table_bytes, zpos, false);
        return tile_from_inflated(nx, ny, zbitpix, from_gzip, from_zlib);
    }
    Err(TileError::Unsupported)
}

} // verus!
