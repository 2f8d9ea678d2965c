//! Which HDUs hold a spectrum, which HDU is shown first, and how it is shown.
use vstd::prelude::*;
use crate::fits::FitsContents;
use crate::hdu::HduInfo;
use crate::image::{ImageLayout, PixelBlock};
use crate::text::{chars_of, same_chars};

verus! {

pub open spec fn kw_wavemin() -> Seq<char> {
    seq!['W', 'A', 'V', 'E', 'M', 'I', 'N']
}

/// A spectrum: the header has WAVEMIN, or the data are one-dimensional, or
/// two-dimensional with fewer than ten rows (flux and error rows).
pub open spec fn spectrum_like(has_wavemin: bool, shape: Seq<usize>) -> bool {
    has_wavemin || shape.len() == 1 || (shape.len() == 2 && shape[1] < 10)
}

pub open spec fn has_wavemin(h: HduInfo) -> bool {
    h.header_cards.get_spec(kw_wavemin()) is Some
}

/// Whether an HDU holds spectrum data rather than a 2D image.
pub fn is_spectrum(hdu: &HduInfo) -> (r: bool)
    ensures
        r == spectrum_like(has_wavemin(*hdu), hdu.shape@),
{
    proof {
        reveal_strlit("WAVEMIN");
        assert("WAVEMIN"@ =~= kw_wavemin());
    }
    if hdu.header_cards.contains_key("WAVEMIN") {
        return true;
    }
    let shape = &hdu.shape;
    if shape.len() == 1 {
        return true;
    }
    if shape.len() == 2 && shape[1] < 10 {
        return true;
    }
    false
}

// ---------------------------------------------------------------------------
// The HDU shown when a file is opened
// ---------------------------------------------------------------------------

/// An HDU that can be shown as an image or spectrum: an image HDU with axes
/// whose pixels were read.
pub open spec fn showable(h: HduInfo, px: Option<PixelBlock>) -> bool {
    h.is_image && h.shape@.len() > 0 && px is Some
}

/// A showable HDU that is preferred over the others: it has WAVEMIN
/// (spectrum data).
pub open spec fn preferred(h: HduInfo, px: Option<PixelBlock>) -> bool {
    showable(h, px) && has_wavemin(h)
}

/// The contents say, for each HDU, whether it has pixels.
pub open spec fn pixels_per_hdu(c: &FitsContents) -> bool {
    c.pixels@.len() == c.hdus@.len()
}

pub open spec fn some_preferred(c: &FitsContents) -> bool {
    exists|i: int| 0 <= i < c.hdus@.len() && #[trigger] preferred(c.hdus@[i], c.pixels@[i])
}

pub open spec fn some_showable(c: &FitsContents) -> bool {
    exists|i: int| 0 <= i < c.hdus@.len() && #[trigger] showable(c.hdus@[i], c.pixels@[i])
}

/// The HDU to show first: the last preferred HDU (one with WAVEMIN); if
/// there is none, the first showable one; if there is none either, the first
/// HDU.
pub fn initial_hdu(c: &FitsContents) -> (r: usize)
    requires
        pixels_per_hdu(c),
    ensures
        some_preferred(c) ==> {
            &&& r < c.hdus@.len()
            &&& preferred(c.hdus@[r as int], c.pixels@[r as int])
            &&& forall|j: int|
                r < j < c.hdus@.len() ==> !#[trigger] preferred(c.hdus@[j], c.pixels@[j])
        },
        !some_preferred(c) && some_showable(c) ==> {
            &&& r < c.hdus@.len()
            &&& showable(c.hdus@[r as int], c.pixels@[r as int])
            &&& forall|j: int| 0 <= j < r ==> !#[trigger] showable(c.hdus@[j], c.pixels@[j])
        },
        !some_preferred(c) && !some_showable(c) ==> r == 0,
{
    let mut idx: usize = 0;
    let mut found_image = false;
    let mut found_preferred = false;
    let mut i: usize = 0;
    while i < c.hdus.len()
        invariant
            pixels_per_hdu(c),
            0 <= i <= c.hdus@.len(),
            found_image <==> exists|j: int| 0 <= j < i && #[trigger] showable(c.hdus@[j], c.pixels@[j]),
            found_preferred <==> exists|j: int|
                0 <= j < i && #[trigger] preferred(c.hdus@[j], c.pixels@[j]),
            !found_image ==> idx == 0,
            found_image && !found_preferred ==> {
                &&& idx < i
                &&& showable(c.hdus@[idx as int], c.pixels@[idx as int])
                &&& forall|j: int| 0 <= j < idx ==> !#[trigger] showable(c.hdus@[j], c.pixels@[j])
            },
            found_preferred ==> {
                &&& idx < i
                &&& preferred(c.hdus@[idx as int], c.pixels@[idx as int])
                &&& forall|j: int|
                    idx < j < i ==> !#[trigger] preferred(c.hdus@[j], c.pixels@[j])
            },
        decreases c.hdus.len() - i,
    {
        let hdu = &c.hdus[i];
        if hdu.is_image && hdu.shape.len() > 0 && c.pixels[i].is_some() {
            assert(showable(c.hdus@[i as int], c.pixels@[i as int]));
            if !found_image {
                idx = i;
                found_image = true;
            }
            let wavemin = hdu.header_cards.contains_key("WAVEMIN");
            proof {
                reveal_strlit("WAVEMIN");
                assert("WAVEMIN"@ =~= kw_wavemin());
            }
            if wavemin {
                assert(preferred(c.hdus@[i as int], c.pixels@[i as int]));
                idx = i;
                found_preferred = true;
            } else {
                assert(!preferred(c.hdus@[i as int], c.pixels@[i as int]));
            }
        } else {
            assert(!showable(c.hdus@[i as int], c.pixels@[i as int]));
            assert(!preferred(c.hdus@[i as int], c.pixels@[i as int]));
        }
        i = i + 1;
    }
    idx
}

// ---------------------------------------------------------------------------
// How an HDU is shown
// ---------------------------------------------------------------------------

#[derive(Clone, Copy, Debug, PartialEq, Eq)]
pub enum ViewMode {
    Image,
    Spectrum,
    Table,
}

/// How an HDU is shown, and whether it is shown as a cube with frames:
/// an HDU that is not an image, or has no axes, as a table; a spectrum as a
/// spectrum; otherwise as an image, whose pixels decide the rest.
pub open spec fn view_for(h: HduInfo, layout: Option<ImageLayout>) -> (ViewMode, bool) {
    if !h.is_image || h.shape@.len() == 0 {
        (ViewMode::Table, false)
    } else if spectrum_like(has_wavemin(h), h.shape@) {
        (ViewMode::Spectrum, false)
    } else {
        match layout {
            Some(ImageLayout::Cube3D { .. }) => (ViewMode::Image, true),
            Some(ImageLayout::Spectrum1D) => (ViewMode::Spectrum, false),
            _ => (ViewMode::Image, false),
        }
    }
}

pub fn view_mode_for(hdu: &HduInfo, layout: Option<ImageLayout>) -> (r: (ViewMode, bool))
    ensures
        r == view_for(*hdu, layout),
{
    if !hdu.is_image || hdu.shape.len() == 0 {
        return (ViewMode::Table, false);
    }
    if is_spectrum(hdu) {
        return (ViewMode::Spectrum, false);
    }
    match layout {
        Some(ImageLayout::Cube3D { .. }) => (ViewMode::Image, true),
        Some(ImageLayout::Spectrum1D) => (ViewMode::Spectrum, false),
        _ => (ViewMode::Image, false),
    }
}

// ---------------------------------------------------------------------------
// Stretch names
// ---------------------------------------------------------------------------

/// The key of a stretch from its name in the menu; unknown names are linear.
pub open spec fn algo_key_spec(name: Seq<char>) -> Seq<char> {
    if name == "Linear (ZScale)"@ {
        "Linear"@
    } else if name == "Log"@ {
        "Log"@
    } else if name == "Sqrt"@ {
        "Sqrt"@
    } else if name == "Asinh"@ {
        "Asinh"@
    } else if name == "Power"@ {
        "Power"@
    } else {
        "Linear"@
    }
}

fn is_named(name: &[char], lit: &str) -> (r: bool)
    ensures
        r == (name@ == lit@),
{
    let l = chars_of(lit);
    same_chars(name, l.as_slice())
}

pub fn algo_key(name: &str) -> (r: &'static str)
    ensures
        r@ == algo_key_spec(name@),
{
    let n = chars_of(name);
    let n = n.as_slice();
    if is_named(n, "Linear (ZScale)") {
        "Linear"
    } else if is_named(n, "Log") {
        "Log"
    } else if is_named(n, "Sqrt") {
        "Sqrt"
    } else if is_named(n, "Asinh") {
        "Asinh"
    } else if is_named(n, "Power") {
        "Power"
    } else {
        "Linear"
    }
}


/// Which HDUs count as spectra: every one with WAVEMIN; every
/// one-dimensional one; every two-dimensional one with fewer than 10 rows
/// (NAXIS2 < 10: flux, error, mask, ... rows); and no other.
pub proof fn lemma_spectrum_shapes(has_wavemin: bool, shape: Seq<usize>)
    ensures
        has_wavemin ==> spectrum_like(has_wavemin, shape),
        shape.len() == 1 ==> spectrum_like(has_wavemin, shape),
        shape.len() == 2 && shape[1] < 10 ==> spectrum_like(has_wavemin, shape),
        !has_wavemin && shape.len() == 2 && shape[1] >= 10 ==> !spectrum_like(has_wavemin, shape),
        !has_wavemin && shape.len() != 1 && shape.len() != 2 ==> !spectrum_like(has_wavemin, shape),
{
}

} // verus!
