use vstd::prelude::*;
use vstd::assert_seqs_equal;
use crate::pixel::{Image, Rgba};
use crate::pixel::lemma_row_major_index;
use crate::trig::{lemma_div_lt, lemma_div_nonneg};

verus! {

/// Why a set of patches cannot be stitched.
#[derive(Clone, Copy, PartialEq, Eq, Structural, Debug)]
pub enum StitchError {
    /// The patch set is empty.
    NoPatches,
    /// The piece count along x is zero or does not divide the patch count.
    UnevenPatchCount,
    /// Not all patches have the dimensions of the first one.
    SizeMismatch,
    /// The stitched dimensions do not fit the pixel grid.
    TooLarge,
}

/// Decomposing a row-major position: quotient and remainder by the width.
pub proof fn lemma_row_major_decomp(w: int, i: int, j: int)
    requires
        w >= 1,
        0 <= i < w,
        0 <= j,
    ensures
        (j * w + i) / w == j,
        (j * w + i) % w == i,
{
    assert((j * w + i) / w == j && (j * w + i) % w == i) by (nonlinear_arith)
        requires
            w >= 1,
            0 <= i < w,
            0 <= j,
    ;
}

/// A quotient scaled back up stays within the value it came from.
pub proof fn lemma_div_mul_le(a: int, b: int)
    requires
        0 <= a,
        1 <= b,
    ensures
        (a / b) * b <= a,
        a % b == 0 ==> (a / b) * b == a,
{
    assert((a / b) * b <= a && (a % b == 0 ==> (a / b) * b == a)) by (nonlinear_arith)
        requires
            0 <= a,
            1 <= b,
    ;
}

/// The rectangle of `im` whose top-left corner is (ox, oy) and whose size is
/// (pw, ph), as an image of its own.
fn crop(im: &Image, ox: u32, oy: u32, pw: u32, ph: u32) -> (p: Image)
    requires
        im.wf(),
        1 <= pw,
        1 <= ph,
        ox + pw <= im.width,
        oy + ph <= im.height,
    ensures
        p.wf(),
        p.width == pw,
        p.height == ph,
        forall|i: int, j: int|
            0 <= i < pw && 0 <= j < ph ==> p.pix(i, j) == im.pix(ox + i, oy + j),
{
    proof {
        assert(pw * ph <= im.width * im.height) by (nonlinear_arith)
            requires
                1 <= pw <= im.width,
                1 <= ph <= im.height,
        ;
    }
    let mut data: Vec<Rgba> = Vec::new();
    let mut j: u32 = 0;
    while j < ph
        invariant
            im.wf(),
            1 <= pw,
            1 <= ph,
            ox + pw <= im.width,
            oy + ph <= im.height,
            j <= ph,
            data@.len() == j * pw,
            forall|k: int|
                0 <= k < data@.len() ==> data@[k] == im.pix(ox + k % (pw as int),
                    oy + k / (pw as int)),
        decreases ph - j,
    {
        let mut i: u32 = 0;
        while i < pw
            invariant
                im.wf(),
                1 <= pw,
                1 <= ph,
                ox + pw <= im.width,
                oy + ph <= im.height,
                j < ph,
                i <= pw,
                data@.len() == j * pw + i,
                forall|k: int|
                    0 <= k < data@.len() ==> data@[k] == im.pix(ox + k % (pw as int),
                        oy + k / (pw as int)),
            decreases pw - i,
        {
            let px = im.get(ox + i, oy + j);
            data.push(px);
            proof {
                lemma_row_major_decomp(pw as int, i as int, j as int);
            }
            i = i + 1;
        }
        proof {
            assert((j as int + 1) * (pw as int) == (j as int) * (pw as int) + pw as int)
                by (nonlinear_arith);
        }
        j = j + 1;
    }
    proof {
        assert((ph as int) * (pw as int) == (pw as int) * (ph as int)) by (nonlinear_arith);
    }
    let p = Image { width: pw, height: ph, data };
    proof {
        assert forall|i: int, j2: int|
            0 <= i < pw && 0 <= j2 < ph implies p.pix(i, j2) == im.pix(ox + i, oy + j2) by {
            lemma_row_major_index(pw as int, ph as int, i, j2);
            lemma_row_major_decomp(pw as int, i, j2);
        }
    }
    p
}

/// Splits an image into a column-major sequence of square patches of edge
/// `patch_size`: floor(width / patch_size) pieces along x, floor(height /
/// patch_size) along y, pushed for each x piece in turn.  Returns the
/// patches and the piece count along x.
pub fn split_image(im: &Image, patch_size: u32) -> (r: (Vec<Image>, u32))
    requires
        im.wf(),
        patch_size >= 1,
    ensures
        r.1 == im.width / patch_size,
        r.0@.len() == (im.width / patch_size) * (im.height / patch_size),
        forall|k: int|
            0 <= k < r.0@.len() ==> (#[trigger] r.0@[k]).wf() && r.0@[k].width == patch_size
                && r.0@[k].height == patch_size,
        forall|k: int, i: int, j: int|
            0 <= k < r.0@.len() && 0 <= i < patch_size && 0 <= j < patch_size
                ==> #[trigger] r.0@[k].pix(i, j) == im.pix(
                    (k / (im.height as int / patch_size as int)) * patch_size + i,
                    (k % (im.height as int / patch_size as int)) * patch_size + j),
{
    let x_pieces: u32 = im.width / patch_size;
    let y_pieces: u32 = im.height / patch_size;
    let mut patches: Vec<Image> = Vec::new();
    let mut px: u32 = 0;
    while px < x_pieces
        invariant
            im.wf(),
            patch_size >= 1,
            x_pieces == im.width / patch_size,
            y_pieces == im.height / patch_size,
            px <= x_pieces,
            patches@.len() == px * y_pieces,
            forall|k: int|
                0 <= k < patches@.len() ==> (#[trigger] patches@[k]).wf()
                    && patches@[k].width == patch_size && patches@[k].height == patch_size,
            forall|k: int, i: int, j: int|
                0 <= k < patches@.len() && 0 <= i < patch_size && 0 <= j < patch_size
                    ==> #[trigger] patches@[k].pix(i, j) == im.pix(
                        (k / (y_pieces as int)) * patch_size + i,
                        (k % (y_pieces as int)) * patch_size + j),
        decreases x_pieces - px,
    {
        let mut py: u32 = 0;
        while py < y_pieces
            invariant
                im.wf(),
                patch_size >= 1,
                x_pieces == im.width / patch_size,
                y_pieces == im.height / patch_size,
                px < x_pieces,
                py <= y_pieces,
                patches@.len() == px * y_pieces + py,
                forall|k: int|
                    0 <= k < patches@.len() ==> (#[trigger] patches@[k]).wf()
                        && patches@[k].width == patch_size && patches@[k].height == patch_size,
                forall|k: int, i: int, j: int|
                    0 <= k < patches@.len() && 0 <= i < patch_size && 0 <= j < patch_size
                        ==> #[trigger] patches@[k].pix(i, j) == im.pix(
                            (k / (y_pieces as int)) * patch_size + i,
                            (k % (y_pieces as int)) * patch_size + j),
            decreases y_pieces - py,
        {
            proof {
                lemma_div_mul_le(im.width as int, patch_size as int);
                lemma_div_mul_le(im.height as int, patch_size as int);
                assert(0 <= (px as int) * (patch_size as int)
                    && (px as int) * (patch_size as int) + patch_size as int
                        <= (x_pieces as int) * (patch_size as int)
                    && 0 <= (py as int) * (patch_size as int)
                    && (py as int) * (patch_size as int) + patch_size as int
                        <= (y_pieces as int) * (patch_size as int))
                    by (nonlinear_arith)
                    requires
                        0 <= px as int,
                        0 <= py as int,
                        px as int + 1 <= x_pieces as int,
                        py as int + 1 <= y_pieces as int,
                        patch_size >= 1,
                ;
                assert((x_pieces as int) * (patch_size as int) <= im.width as int);
                assert((y_pieces as int) * (patch_size as int) <= im.height as int);
                lemma_row_major_decomp(y_pieces as int, py as int, px as int);
            }
            let patch = crop(im, px * patch_size, py * patch_size, patch_size, patch_size);
            patches.push(patch);
            py = py + 1;
        }
        proof {
            assert((px as int + 1) * (y_pieces as int)
                == (px as int) * (y_pieces as int) + y_pieces as int) by (nonlinear_arith);
        }
        px = px + 1;
    }
    (patches, x_pieces)
}

/// Which error, if any, stops a patch set from stitching: an empty set, a
/// piece count that does not evenly divide it, unequal patch sizes, or a
/// stitched size beyond the pixel grid.
pub open spec fn spec_stitch_err(ps: Seq<Image>, x: int) -> Option<StitchError> {
    if ps.len() == 0 {
        Some(StitchError::NoPatches)
    } else if x == 0 || (ps.len() as int) % x != 0 {
        Some(StitchError::UnevenPatchCount)
    } else if exists|k: int|
        0 <= k < ps.len() && ((#[trigger] ps[k]).width != ps[0].width
            || ps[k].height != ps[0].height) {
        Some(StitchError::SizeMismatch)
    } else {
        let fw = (ps[0].width as int) * x;
        let fh = (ps[0].height as int) * ((ps.len() as int) / x);
        if fw > u32::MAX || fh > u32::MAX || fw * fh > usize::MAX {
            Some(StitchError::TooLarge)
        } else {
            None
        }
    }
}

/// The pixel a stitched image holds at (x, y): the patch the position falls
/// in, sampled at the position within that patch.
pub open spec fn spec_stitched_pix(ps: Seq<Image>, pw: int, ph: int, yp: int, x: int, y: int)
    -> Rgba {
    ps[(x / pw) * yp + y / ph].pix(x % pw, y % ph)
}

/// Reassembles patches produced in split order into one image: patch
/// p(px, py) lands with its top-left corner at (px pw, py ph).  Fails
/// exactly on the conditions of `spec_stitch_err`.
pub fn stitch_image(patches: &Vec<Image>, x_pieces: u32) -> (r: Result<Image, StitchError>)
    requires
        forall|k: int| 0 <= k < patches@.len() ==> (#[trigger] patches@[k]).wf(),
    ensures
        (match r {
            Result::Err(e) => spec_stitch_err(patches@, x_pieces as int) == Some(e),
            Result::Ok(im) => {
                &&& spec_stitch_err(patches@, x_pieces as int) is None
                &&& im.wf()
                &&& im.width == patches@[0].width * x_pieces
                &&& im.height as int == patches@[0].height as int
                    * ((patches@.len() as int) / (x_pieces as int))
                &&& forall|x: int, y: int|
                    0 <= x < im.width && 0 <= y < im.height
                        ==> #[trigger] im.pix(x, y) == spec_stitched_pix(patches@,
                            patches@[0].width as int, patches@[0].height as int,
                            (patches@.len() as int) / (x_pieces as int), x, y)
            },
        }),
{
    let n: usize = patches.len();
    if n == 0 {
        return Err(StitchError::NoPatches);
    }
    if x_pieces == 0 || n % (x_pieces as usize) != 0 {
        return Err(StitchError::UnevenPatchCount);
    }
    let pw: u32 = patches[0].width;
    let ph: u32 = patches[0].height;
    let mut k: usize = 0;
    while k < n
        invariant
            n == patches@.len(),
            n >= 1,
            x_pieces >= 1,
            n % (x_pieces as usize) == 0,
            forall|m: int| 0 <= m < patches@.len() ==> (#[trigger] patches@[m]).wf(),
            pw == patches@[0].width,
            ph == patches@[0].height,
            k <= n,
            forall|m: int|
                0 <= m < k ==> (#[trigger] patches@[m]).width == pw
                    && patches@[m].height == ph,
        decreases n - k,
    {
        if patches[k].width != pw || patches[k].height != ph {
            proof {
                let m0: int = k as int;
                assert(0 <= m0 && m0 < patches@.len()
                    && (patches@[m0].width != patches@[0].width
                        || patches@[m0].height != patches@[0].height));
                assert(exists|m: int|
                    0 <= m < patches@.len() && ((#[trigger] patches@[m]).width
                        != patches@[0].width || patches@[m].height != patches@[0].height)) by {
                    assert(0 <= m0 && m0 < patches@.len()
                        && ((#[trigger] patches@[m0]).width != patches@[0].width
                            || patches@[m0].height != patches@[0].height));
                }
                assert(spec_stitch_err(patches@, x_pieces as int)
                    == Some(StitchError::SizeMismatch));
            }
            return Err(StitchError::SizeMismatch);
        }
        k = k + 1;
    }
    let y_pieces: usize = n / (x_pieces as usize);
    proof {
        assert(0 <= (pw as int) * (x_pieces as int)
            && (pw as int) * (x_pieces as int) <= 0xFFFF_FFFFint * 0xFFFF_FFFFint)
            by (nonlinear_arith)
            requires
                0 <= pw as int <= 0xFFFF_FFFFint,
                0 <= x_pieces as int <= 0xFFFF_FFFFint,
        ;
    }
    let fw64: u64 = (pw as u64) * (x_pieces as u64);
    if fw64 > u32::MAX as u64 {
        return Err(StitchError::TooLarge);
    }
    if y_pieces > u32::MAX as usize {
        proof {
            assert((ph as int) * (y_pieces as int) > 0xFFFF_FFFFint) by (nonlinear_arith)
                requires
                    ph as int >= 1,
                    y_pieces as int > 0xFFFF_FFFFint,
            ;
        }
        return Err(StitchError::TooLarge);
    }
    proof {
        assert(0 <= (ph as int) * (y_pieces as int)
            && (ph as int) * (y_pieces as int) <= 0xFFFF_FFFFint * 0xFFFF_FFFFint)
            by (nonlinear_arith)
            requires
                0 <= ph as int <= 0xFFFF_FFFFint,
                0 <= y_pieces as int <= 0xFFFF_FFFFint,
        ;
    }
    let fh64: u64 = (ph as u64) * (y_pieces as u64);
    if fh64 > u32::MAX as u64 {
        return Err(StitchError::TooLarge);
    }
    proof {
        assert(0 <= (fw64 as int) * (fh64 as int)
            && (fw64 as int) * (fh64 as int) <= 0xFFFF_FFFFint * 0xFFFF_FFFFint
            && 0xFFFF_FFFFint * 0xFFFF_FFFFint < 0xFFFF_FFFF_FFFF_FFFFint)
            by (nonlinear_arith)
            requires
                0 <= fw64 as int <= 0xFFFF_FFFFint,
                0 <= fh64 as int <= 0xFFFF_FFFFint,
        ;
    }
    if fw64 * fh64 > usize::MAX as u64 {
        return Err(StitchError::TooLarge);
    }
    let w: u32 = fw64 as u32;
    let h: u32 = fh64 as u32;
    proof {
        assert(w >= 1 && h >= 1) by (nonlinear_arith)
            requires
                w as int == (pw as int) * (x_pieces as int),
                h as int == (ph as int) * (y_pieces as int),
                pw >= 1,
                ph >= 1,
                x_pieces >= 1,
                y_pieces as int == (n as int) / (x_pieces as int),
                n >= 1,
                (n as int) % (x_pieces as int) == 0,
        ;
    }
    let mut data: Vec<Rgba> = Vec::new();
    let mut y: u32 = 0;
    while y < h
        invariant
            n == patches@.len(),
            forall|m: int| 0 <= m < patches@.len() ==> (#[trigger] patches@[m]).wf(),
            forall|m: int|
                0 <= m < patches@.len() ==> (#[trigger] patches@[m]).width == pw
                    && patches@[m].height == ph,
            pw == patches@[0].width,
            ph == patches@[0].height,
            pw >= 1,
            ph >= 1,
            x_pieces >= 1,
            n >= 1,
            (n as int) % (x_pieces as int) == 0,
            y_pieces as int == (n as int) / (x_pieces as int),
            w as int == (pw as int) * (x_pieces as int),
            h as int == (ph as int) * (y_pieces as int),
            (w as int) * (h as int) <= usize::MAX,
            y <= h,
            data@.len() == y * w,
            forall|x2: int, y2: int|
                0 <= x2 < w && 0 <= y2 < y ==> data@[y2 * w + x2]
                    == #[trigger] spec_stitched_pix(patches@, pw as int, ph as int,
                        y_pieces as int, x2, y2),
        decreases h - y,
    {
        let mut x: u32 = 0;
        while x < w
            invariant
                n == patches@.len(),
                forall|m: int| 0 <= m < patches@.len() ==> (#[trigger] patches@[m]).wf(),
                forall|m: int|
                    0 <= m < patches@.len() ==> (#[trigger] patches@[m]).width == pw
                        && patches@[m].height == ph,
                pw == patches@[0].width,
                ph == patches@[0].height,
                pw >= 1,
                ph >= 1,
                x_pieces >= 1,
                n >= 1,
                (n as int) % (x_pieces as int) == 0,
                y_pieces as int == (n as int) / (x_pieces as int),
                w as int == (pw as int) * (x_pieces as int),
                h as int == (ph as int) * (y_pieces as int),
                (w as int) * (h as int) <= usize::MAX,
                y < h,
                x <= w,
                data@.len() == y * w + x,
                forall|x2: int, y2: int|
                    0 <= x2 < w && 0 <= y2 < y ==> data@[y2 * w + x2]
                        == #[trigger] spec_stitched_pix(patches@, pw as int, ph as int,
                            y_pieces as int, x2, y2),
                forall|x2: int|
                    0 <= x2 < x ==> data@[y * w + x2]
                        == #[trigger] spec_stitched_pix(patches@, pw as int, ph as int,
                            y_pieces as int, x2, y as int),
            decreases w - x,
        {
            let kx: u32 = x / pw;
            let ky: u32 = y / ph;
            proof {
                lemma_div_lt(x as int, pw as int, x_pieces as int);
                lemma_div_lt(y as int, ph as int, y_pieces as int);
                lemma_div_nonneg(x as int, pw as int);
                lemma_div_nonneg(y as int, ph as int);
                assert((x_pieces as int) * (y_pieces as int) == n as int)
                    by (nonlinear_arith)
                    requires
                        y_pieces as int == (n as int) / (x_pieces as int),
                        (n as int) % (x_pieces as int) == 0,
                        x_pieces >= 1,
                ;
                assert(0 <= (kx as int) * (y_pieces as int)
                    && (kx as int) * (y_pieces as int) + (ky as int) < n as int)
                    by (nonlinear_arith)
                    requires
                        0 <= kx as int && (kx as int) < x_pieces as int,
                        0 <= ky as int && (ky as int) < y_pieces as int,
                        (n as int) == (x_pieces as int) * (y_pieces as int),
                ;
            }
            let idx: usize = (kx as usize) * y_pieces + (ky as usize);
            let p = &patches[idx];
            let sample = p.get(x % pw, y % ph);
            data.push(sample);
            proof {
                assert forall|x2: int, y2: int|
                    0 <= x2 < w && 0 <= y2 < y implies data@[y2 * w + x2]
                        == #[trigger] spec_stitched_pix(patches@, pw as int, ph as int,
                            y_pieces as int, x2, y2) by {
                    assert(y2 * (w as int) + x2 < (y as int) * (w as int))
                        by (nonlinear_arith)
                        requires
                            0 <= x2 && x2 < w as int,
                            0 <= y2,
                            y2 + 1 <= y as int,
                    ;
                }
            }
            x = x + 1;
        }
        proof {
            assert((y as int + 1) * (w as int) == (y as int) * (w as int) + w as int)
                by (nonlinear_arith);
        }
        y = y + 1;
    }
    proof {
        assert((h as int) * (w as int) == (w as int) * (h as int)) by (nonlinear_arith);
    }
    let im = Image { width: w, height: h, data };
    proof {
        assert(im.wf());
        assert forall|x2: int, y2: int|
            0 <= x2 < w && 0 <= y2 < h implies #[trigger] im.pix(x2, y2)
                == spec_stitched_pix(patches@, pw as int, ph as int, y_pieces as int, x2, y2)
            by {
            lemma_row_major_index(w as int, h as int, x2, y2);
        }
        assert(spec_stitch_err(patches@, x_pieces as int) is None);
    }
    Ok(im)
}

/// Splitting an image whose dimensions are exact multiples of the patch
/// size and stitching the patches back with the same piece count
/// reproduces the image pixel for pixel.
pub proof fn lemma_split_stitch_roundtrip(im: Image, patches: Seq<Image>, p: int, out: Image)
    requires
        im.wf(),
        p >= 1,
        (im.width as int) % p == 0,
        (im.height as int) % p == 0,
        // what split_image guarantees of its output
        patches.len() == ((im.width as int) / p) * ((im.height as int) / p),
        forall|k: int|
            0 <= k < patches.len() ==> (#[trigger] patches[k]).width == p
                && patches[k].height == p,
        forall|k: int, i: int, j: int|
            0 <= k < patches.len() && 0 <= i < p && 0 <= j < p
                ==> #[trigger] patches[k].pix(i, j) == im.pix(
                    (k / ((im.height as int) / p)) * p + i,
                    (k % ((im.height as int) / p)) * p + j),
        // what stitch_image guarantees of its output for x_pieces = width / p
        out.wf(),
        out.width as int == (patches[0].width as int) * ((im.width as int) / p),
        out.height as int == (patches[0].height as int)
            * ((patches.len() as int) / ((im.width as int) / p)),
        forall|x: int, y: int|
            0 <= x < out.width && 0 <= y < out.height
                ==> #[trigger] out.pix(x, y) == spec_stitched_pix(patches,
                    patches[0].width as int, patches[0].height as int,
                    (patches.len() as int) / ((im.width as int) / p), x, y),
    ensures
        out.width == im.width,
        out.height == im.height,
        out.data@ == im.data@,
{
    let w = im.width as int;
    let h = im.height as int;
    let xp = w / p;
    let yp = h / p;
    lemma_div_mul_le(w, p);
    lemma_div_mul_le(h, p);
    assert(xp >= 1 && yp >= 1) by (nonlinear_arith)
        requires
            xp == w / p,
            yp == h / p,
            xp * p == w,
            yp * p == h,
            w >= 1,
            h >= 1,
            p >= 1,
    ;
    assert(patches.len() == xp * yp);
    assert(patches.len() >= 1) by (nonlinear_arith)
        requires
            patches.len() == xp * yp,
            xp >= 1,
            yp >= 1,
    ;
    assert((xp * yp) / xp == yp && (xp * yp) % xp == 0) by (nonlinear_arith)
        requires
            xp >= 1,
            0 <= yp,
    ;
    assert(patches[0].width == p && patches[0].height == p);
    assert(p * xp == xp * p && p * yp == yp * p) by (nonlinear_arith);
    assert(out.width == im.width);
    assert(out.height == im.height);
    assert forall|x: int, y: int|
        0 <= x < w && 0 <= y < h implies #[trigger] out.pix(x, y) == im.pix(x, y) by {
        let kx = x / p;
        let ky = y / p;
        lemma_div_lt(x, p, xp);
        lemma_div_lt(y, p, yp);
        lemma_div_nonneg(x, p);
        lemma_div_nonneg(y, p);
        let k = kx * yp + ky;
        lemma_row_major_decomp(yp, ky, kx);
        assert(0 <= k < patches.len()) by (nonlinear_arith)
            requires
                k == kx * yp + ky,
                0 <= kx < xp,
                0 <= ky < yp,
                patches.len() == xp * yp,
        ;
        assert(out.pix(x, y) == patches[k].pix(x % p, y % p));
        assert(patches[k].pix(x % p, y % p) == im.pix(kx * p + x % p, ky * p + y % p));
        assert(kx * p + x % p == x && ky * p + y % p == y) by (nonlinear_arith)
            requires
                kx == x / p,
                ky == y / p,
                p >= 1,
                0 <= x,
                0 <= y,
        ;
    }
    assert(out.data@.len() == im.data@.len());
    assert_seqs_equal!(out.data@ == im.data@, k => {
        let x = k % w;
        let y = k / w;
        lemma_div_lt(k, w, h);
        lemma_div_nonneg(k, w);
        assert(0 <= x < w && 0 <= y < h);
        assert(y * w + x == k) by (nonlinear_arith)
            requires
                x == k % w,
                y == k / w,
                w >= 1,
                0 <= k,
        ;
        assert(out.pix(x, y) == im.pix(x, y));
    });
}

/// The number an all-decimal-digit string denotes, most significant digit
/// first.
pub open spec fn spec_digits_value(s: Seq<u8>) -> int
    decreases s.len(),
{
    if s.len() == 0 {
        0
    } else {
        spec_digits_value(s.drop_last()) * 10 + (s.last() - 0x30)
    }
}

/// Every byte is a decimal digit.
pub open spec fn spec_all_digits(s: Seq<u8>) -> bool {
    forall|i: int| 0 <= i < s.len() ==> 0x30 <= #[trigger] s[i] <= 0x39
}

/// A longer digit prefix never denotes a smaller number.
proof fn lemma_digits_value_grows(s: Seq<u8>, i: int, j: int)
    requires
        spec_all_digits(s),
        0 <= i <= j <= s.len(),
    ensures
        spec_digits_value(s.take(i)) <= spec_digits_value(s.take(j)),
        0 <= spec_digits_value(s.take(j)),
    decreases j - i,
{
    if i == j {
        lemma_digits_value_nonneg(s.take(i));
    } else {
        lemma_digits_value_grows(s, i, j - 1);
        let t = s.take(j);
        assert(t.drop_last() =~= s.take(j - 1));
        assert(spec_digits_value(t) == spec_digits_value(s.take(j - 1)) * 10 + (t.last()
            - 0x30));
        assert(spec_digits_value(s.take(j - 1)) <= spec_digits_value(s.take(j - 1)) * 10)
            by (nonlinear_arith)
            requires
                0 <= spec_digits_value(s.take(j - 1)),
        ;
        assert(0x30 <= t.last() <= 0x39);
    }
}

proof fn lemma_digits_value_nonneg(s: Seq<u8>)
    ensures
        spec_all_digits(s) ==> 0 <= spec_digits_value(s),
    decreases s.len(),
{
    if s.len() > 0 {
        lemma_digits_value_nonneg(s.drop_last());
        assert(spec_all_digits(s) ==> spec_all_digits(s.drop_last()));
    }
}

/// Parses the tile count out of its decimal digits, most significant digit
/// first.  Returns the denoted number exactly when the input is a nonempty
/// string of digits whose value fits a `u32`, and nothing otherwise.
pub fn parse_tile_count(digits: &[u8]) -> (r: Option<u32>)
    ensures
        (match r {
            Some(v) => digits@.len() >= 1 && spec_all_digits(digits@)
                && v == spec_digits_value(digits@),
            None => digits@.len() == 0 || !spec_all_digits(digits@)
                || spec_digits_value(digits@) > u32::MAX,
        }),
{
    if digits.len() == 0 {
        return None;
    }
    let mut acc: u32 = 0;
    let mut i: usize = 0;
    while i < digits.len()
        invariant
            i <= digits@.len(),
            forall|k: int| 0 <= k < i ==> 0x30 <= #[trigger] digits@[k] <= 0x39,
            acc as int == spec_digits_value(digits@.take(i as int)),
        decreases digits@.len() - i,
    {
        let b = digits[i];
        if b < 0x30 || b > 0x39 {
            return None;
        }
        let d: u32 = (b - 0x30) as u32;
        if acc > (u32::MAX - d) / 10 {
            proof {
                assert(10 * (acc as int) + d as int > u32::MAX) by (nonlinear_arith)
                    requires
                        acc as int > (0xFFFF_FFFFint - d as int) / 10,
                        0 <= d as int <= 9,
                        0 <= acc as int,
                ;
                assert(digits@.take(i as int + 1).drop_last() =~= digits@.take(i as int));
                assert(digits@.take(i as int + 1).last() == digits@[i as int]);
                assert(spec_digits_value(digits@.take(i as int + 1))
                    == (acc as int) * 10 + d as int);
                if spec_all_digits(digits@) {
                    lemma_digits_value_grows(digits@, i as int + 1, digits@.len() as int);
                    assert(digits@.take(digits@.len() as int) =~= digits@);
                    assert((acc as int) * 10 == 10 * (acc as int)) by (nonlinear_arith);
                    assert(spec_digits_value(digits@) > u32::MAX);
                }
            }
            return None;
        }
        proof {
            assert((acc as int) * 10 + d as int <= u32::MAX) by (nonlinear_arith)
                requires
                    acc as int <= (0xFFFF_FFFFint - d as int) / 10,
                    0 <= d as int <= 9,
                    0 <= acc as int,
            ;
            assert(digits@.take(i as int + 1).drop_last() =~= digits@.take(i as int));
            assert(digits@.take(i as int + 1).last() == digits@[i as int]);
        }
        acc = acc * 10 + d;
        i = i + 1;
    }
    proof {
        assert(digits@.take(i as int) =~= digits@);
    }
    Some(acc)
}

} // verus!
