//! Image HDUs: how their pixels are laid out, and the pixel data read for them.
use vstd::prelude::*;

verus! {

/// How the pixels of an image HDU are arranged once axes of length one are
/// dropped.
#[derive(Clone, Copy, Debug, PartialEq, Eq)]
pub enum ImageLayout {
    Spectrum1D,
    Image2D { nx: usize, ny: usize },
    Cube3D { nx: usize, ny: usize, nz: usize },
}

/// Pixel data of one image HDU, still encoded: `count` values of the type
/// that `bitpix` names, big-endian, from `data`. `scaled` says whether
/// BSCALE, BZERO and `blank` apply.
#[derive(Clone, Debug)]
pub struct PixelBlock {
    pub hdu: usize,
    pub data: Vec<u8>,
    pub bitpix: i32,
    pub count: usize,
    pub layout: ImageLayout,
    pub blank: Option<i64>,
    pub scaled: bool,
}

/// The axis lengths greater than one, in order.
pub open spec fn long_axes(shape: Seq<usize>) -> Seq<usize>
    decreases shape.len(),
{
    if shape.len() == 0 {
        Seq::empty()
    } else if shape.last() > 1 {
        long_axes(shape.drop_last()).push(shape.last())
    } else {
        long_axes(shape.drop_last())
    }
}

/// The axes that shape the image: those longer than one, or all of them
/// when none is.
pub open spec fn squeezed_axes(shape: Seq<usize>) -> Seq<usize> {
    if long_axes(shape).len() == 0 && shape.len() > 0 {
        shape
    } else {
        long_axes(shape)
    }
}

/// The layout of `count` pixels of an image with these axes: a 2D image or a
/// cube when the first two or three long axes hold exactly the pixels, a
/// spectrum otherwise.
pub open spec fn image_layout(shape: Seq<usize>, count: nat) -> ImageLayout {
    let d = squeezed_axes(shape);
    if d.len() == 2 && count == d[0] * d[1] {
        ImageLayout::Image2D { nx: d[0], ny: d[1] }
    } else if d.len() >= 3 && count == d[0] * d[1] * d[2] {
        ImageLayout::Cube3D { nx: d[0], ny: d[1], nz: d[2] }
    } else {
        ImageLayout::Spectrum1D
    }
}

proof fn lemma_long_axes(s: Seq<usize>)
    ensures
        forall|i: int| 0 <= i < long_axes(s).len() ==> #[trigger] long_axes(s)[i] > 1,
        long_axes(s).len() == 0 ==> forall|i: int| 0 <= i < s.len() ==> #[trigger] s[i] <= 1,
    decreases s.len(),
{
    if s.len() > 0 {
        lemma_long_axes(s.drop_last());
        if long_axes(s).len() == 0 {
            assert forall|i: int| 0 <= i < s.len() implies #[trigger] s[i] <= 1 by {
                if i < s.len() - 1 {
                    assert(s[i] == s.drop_last()[i]);
                }
            }
        }
    }
}

/// Either every squeezed axis is longer than one, or none is.
proof fn lemma_axes_bounds(s: Seq<usize>)
    ensures
        (forall|i: int| 0 <= i < squeezed_axes(s).len() ==> #[trigger] squeezed_axes(s)[i] > 1)
            || (forall|i: int|
            0 <= i < squeezed_axes(s).len() ==> #[trigger] squeezed_axes(s)[i] <= 1),
{
    lemma_long_axes(s);
}

pub fn squeezed_axes_of(shape: &[usize]) -> (r: Vec<usize>)
    ensures
        r@ == squeezed_axes(shape@),
{
    let mut d: Vec<usize> = Vec::new();
    let mut i: usize = 0;
    assert(shape@.take(0) =~= Seq::<usize>::empty());
    while i < shape.len()
        invariant
            0 <= i <= shape.len(),
            d@ == long_axes(shape@.take(i as int)),
        decreases shape.len() - i,
    {
        assert(shape@.take(i + 1).drop_last() =~= shape@.take(i as int));
        if shape[i] > 1 {
            d.push(shape[i]);
        }
        i = i + 1;
    }
    assert(shape@.take(shape.len() as int) =~= shape@);
    if d.len() == 0 && shape.len() > 0 {
        let mut all: Vec<usize> = Vec::new();
        let mut k: usize = 0;
        while k < shape.len()
            invariant
                0 <= k <= shape.len(),
                all@ == shape@.take(k as int),
            decreases shape.len() - k,
        {
            all.push(shape[k]);
            k = k + 1;
            assert(all@ =~= shape@.take(k as int));
        }
        assert(shape@.take(shape.len() as int) =~= shape@);
        all
    } else {
        d
    }
}

/// The layout of `count` pixels of an image with axis lengths `shape`.
pub fn image_layout_of(shape: &[usize], count: usize) -> (r: ImageLayout)
    ensures
        r == image_layout(shape@, count as nat),
{
    let d = squeezed_axes_of(shape);
    if d.len() == 2 {
        if let Some(p) = d[0].checked_mul(d[1]) {
            if p == count {
                return ImageLayout::Image2D { nx: d[0], ny: d[1] };
            }
        }
        ImageLayout::Spectrum1D
    } else if d.len() >= 3 {
        if let Some(p) = d[0].checked_mul(d[1]) {
            if let Some(q) = p.checked_mul(d[2]) {
                if q == count {
                    return ImageLayout::Cube3D { nx: d[0], ny: d[1], nz: d[2] };
                }
            }
        }
        proof {
            lemma_axes_bounds(shape@);
            let a = d@[0] as int;
            let b = d@[1] as int;
            let c = d@[2] as int;
            if a * b > usize::MAX {
                if a <= 1 && b <= 1 {
                    assert(a * b <= 1) by (nonlinear_arith)
                        requires
                            0 <= a <= 1,
                            0 <= b <= 1,
                    ;
                }
                assert(c > 1);
                assert(a * b * c >= a * b) by (nonlinear_arith)
                    requires
                        c > 1,
                        a * b >= 0,
                ;
            }
        }
        ImageLayout::Spectrum1D
    } else {
        ImageLayout::Spectrum1D
    }
}

} // verus!
