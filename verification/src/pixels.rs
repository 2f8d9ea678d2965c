//! Pixel values of an image HDU, decoded from its big-endian data.
use vstd::prelude::*;
use crate::endian::{be_value, read_be_i16, read_be_i32, read_be_i64, read_be_u32, read_be_u64, to_signed};
use crate::image::PixelBlock;

verus! {

/// One pixel as stored: an integer, the IEEE 754 bits of a single or
/// double, or nothing (the data ran out, the BITPIX is unknown, or the
/// pixel holds the BLANK value).
#[derive(Clone, Copy, Debug, PartialEq, Eq)]
pub enum PixelWord {
    Int(i64),
    Single(u32),
    Double(u64),
    Missing,
}

/// Bytes per pixel for a BITPIX, 0 for one that FITS does not define.
pub open spec fn word_size(bitpix: int) -> nat {
    if bitpix == 8 {
        1
    } else if bitpix == 16 {
        2
    } else if bitpix == 32 || bitpix == -32 {
        4
    } else if bitpix == 64 || bitpix == -64 {
        8
    } else {
        0
    }
}

/// Pixel `i` of the data: its bytes read big-endian as the type BITPIX
/// names (8: unsigned byte; 16, 32, 64: signed integers; -32, -64: IEEE
/// floats), or nothing when the data hold no such pixel.
pub open spec fn pixel_word(raw: Seq<u8>, bitpix: int, i: int) -> PixelWord {
    let size = word_size(bitpix);
    if size == 0 || i < 0 || (i + 1) * size > raw.len() {
        PixelWord::Missing
    } else {
        let u = be_value(raw.subrange(i * size, i * size + size));
        if bitpix == 8 {
            PixelWord::Int(u as i64)
        } else if bitpix == 16 {
            PixelWord::Int(to_signed(u, 0x8000) as i64)
        } else if bitpix == 32 {
            PixelWord::Int(to_signed(u, 0x8000_0000) as i64)
        } else if bitpix == 64 {
            PixelWord::Int(to_signed(u, 0x8000_0000_0000_0000) as i64)
        } else if bitpix == -32 {
            PixelWord::Single(u as u32)
        } else {
            PixelWord::Double(u as u64)
        }
    }
}

proof fn lemma_word_bytes(b: Seq<u8>, size: nat, i: int)
    requires
        0 <= i,
        (i + 1) * size <= b.len(),
    ensures
        b.subrange(i * size, b.len() as int).take(size as int) =~= b.subrange(i * size, i * size + size),
        i * size + size <= b.len(),
{
    assert((i + 1) * size == i * size + size) by (nonlinear_arith);
}

pub(crate) fn word_size_of(bitpix: i32) -> (r: usize)
    ensures
        r == word_size(bitpix as int),
{
    if bitpix == 8 {
        1
    } else if bitpix == 16 {
        2
    } else if bitpix == 32 || bitpix == -32 {
        4
    } else if bitpix == 64 || bitpix == -64 {
        8
    } else {
        0
    }
}

/// Decodes `count` pixels of the data as BITPIX says.
pub fn read_pixels(raw: &[u8], bitpix: i32, count: usize) -> (r: Vec<PixelWord>)
    ensures
        r@.len() == count,
        forall|i: int| 0 <= i < count ==> #[trigger] r@[i] == pixel_word(raw@, bitpix as int, i),
{
    let size = word_size_of(bitpix);
    let mut out: Vec<PixelWord> = Vec::new();
    let mut i: usize = 0;
    while i < count
        invariant
            0 <= i <= count,
            size == word_size(bitpix as int),
            out@.len() == i,
            forall|j: int| 0 <= j < i ==> #[trigger] out@[j] == pixel_word(raw@, bitpix as int, j),
        decreases count - i,
    {
        if size == 0 || i >= raw.len() / size {
            assert(pixel_word(raw@, bitpix as int, i as int) == PixelWord::Missing) by {
                if size > 0 {
                    assert((i + 1) * size > raw@.len()) by (nonlinear_arith)
                        requires
                            i >= raw@.len() / (size as nat),
                            size > 0,
                    ;
                }
            }
            out.push(PixelWord::Missing);
        } else {
            assert((i + 1) * size <= raw@.len()) by (nonlinear_arith)
                requires
                    i < raw@.len() / (size as nat),
                    size > 0,
            ;
            proof {
                lemma_word_bytes(raw@, size as nat, i as int);
            }
            let off: usize = i * size;
            let word = &raw[off..raw.len()];
            let w = if bitpix == 8 {
                assert(word@.take(1) =~= seq![word@[0]]);
                assert(be_value(seq![word@[0]]) == word@[0] as nat) by {
                    let one = seq![word@[0]];
                    assert(one.drop_last() =~= Seq::<u8>::empty());
                    assert(be_value(one.drop_last()) == 0);
                    assert(one.last() == word@[0]);
                }
                PixelWord::Int(word[0] as i64)
            } else if bitpix == 16 {
                PixelWord::Int(read_be_i16(word) as i64)
            } else if bitpix == 32 {
                PixelWord::Int(read_be_i32(word) as i64)
            } else if bitpix == 64 {
                PixelWord::Int(read_be_i64(word))
            } else if bitpix == -32 {
                PixelWord::Single(read_be_u32(word))
            } else {
                PixelWord::Double(read_be_u64(word))
            };
            out.push(w);
        }
        i = i + 1;
    }
    out
}

/// A pixel as shown: an integer equal to the BLANK value is no value.
pub open spec fn shown_word(w: PixelWord, blank: Option<i64>) -> PixelWord {
    match (w, blank) {
        (PixelWord::Int(v), Some(b)) => if v == b {
            PixelWord::Missing
        } else {
            w
        },
        _ => w,
    }
}

/// The pixels of an image HDU, with BLANK pixels as no value.
pub fn pixel_words(px: &PixelBlock) -> (r: Vec<PixelWord>)
    ensures
        r@.len() == px.count,
        forall|i: int|
            0 <= i < px.count ==> #[trigger] r@[i] == shown_word(
                pixel_word(px.data@, px.bitpix as int, i),
                px.blank,
            ),
{
    let mut words = read_pixels(px.data.as_slice(), px.bitpix, px.count);
    let mut i: usize = 0;
    while i < words.len()
        invariant
            0 <= i <= words@.len(),
            words@.len() == px.count,
            forall|j: int|
                0 <= j < i ==> #[trigger] words@[j] == shown_word(
                    pixel_word(px.data@, px.bitpix as int, j),
                    px.blank,
                ),
            forall|j: int|
                i <= j < px.count ==> #[trigger] words@[j] == pixel_word(px.data@, px.bitpix as int, j),
        decreases words.len() - i,
    {
        let w = words[i];
        let shown = match (w, px.blank) {
            (PixelWord::Int(v), Some(b)) => if v == b {
                PixelWord::Missing
            } else {
                w
            },
            _ => w,
        };
        words.set(i, shown);
        i = i + 1;
    }
    words
}

} // verus!
