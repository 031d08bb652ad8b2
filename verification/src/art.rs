//! Art post-processing: remove the solid magenta key background of a raw
//! sprite (flood fill from the borders, so key-coloured pixels enclosed by
//! the drawing survive), crop to the visible content, pad to a centred
//! square with transparency, and resize to the game's sprite size.

use crate::graph::{label_components, labels_components, lemma_linked_same_label, linked};
use crate::grid::{grid_adj, grid_graph, lemma_grid_adj};
use vstd::prelude::*;

verus! {

/// Edge length of the processed sprites.
pub const OUT_SIZE: u32 = 256;

/// Per-channel tolerance of the key colour match.
pub const TOLERANCE: i32 = 60;

/// An RGBA image, row-major, four bytes per pixel.
#[derive(Clone, PartialEq, Eq, Debug)]
pub struct Image {
    pub width: u32,
    pub height: u32,
    pub data: Vec<u8>,
}

impl Image {
    /// The buffer holds exactly the pixels, and each side is at most 32767:
    /// the pipeline squares a sprite to its longer side `s`, and the squared
    /// buffer of `4·s²` bytes fits a `usize` on 32-bit targets only up to
    /// that side.
    pub open spec fn wf(&self) -> bool {
        &&& self.width <= 0x7fff
        &&& self.height <= 0x7fff
        &&& self.data@.len() == 4 * self.width * self.height
    }

    pub open spec fn n_px(&self) -> int {
        self.width * self.height
    }
}

pub open spec fn absd(a: int, b: int) -> int {
    if a >= b {
        a - b
    } else {
        b - a
    }
}

/// The pixel starting at byte `4 * i` is close to the magenta key
/// (255, 0, 255) within the tolerance summed over the colour channels.
pub open spec fn key_px(d: Seq<u8>, i: int) -> bool {
    absd(d[4 * i] as int, 255) + absd(d[4 * i + 1] as int, 0) + absd(d[4 * i + 2] as int, 255) <= 3 * 60
}

pub open spec fn key_mask(w: int, h: int, d: Seq<u8>) -> Seq<bool> {
    Seq::new((w * h) as nat, |i: int| key_px(d, i))
}

/// Pixel `i` lies on the image border.
pub open spec fn on_border(w: int, h: int, i: int) -> bool {
    i % w == 0 || i / w == 0 || i % w == w - 1 || i / w == h - 1
}

/// Pixel `i` is background: key-coloured and joined to a key-coloured
/// border pixel through key-coloured orthogonal neighbours.
pub open spec fn background(w: int, h: int, d: Seq<u8>, i: int) -> bool {
    let m = key_mask(w, h, d);
    &&& m[i]
    &&& exists|j: int| 0 <= j < w * h && on_border(w, h, j) && m[j] && #[trigger] linked(grid_adj(w, h, m), i, j)
}

/// Byte `j` of the image with its background made transparent.
pub open spec fn cleared_byte(w: int, h: int, d: Seq<u8>, j: int) -> u8 {
    if background(w, h, d, j / 4) {
        0
    } else {
        d[j]
    }
}

/// The image bytes with the background made transparent.
pub open spec fn cleared_data(w: int, h: int, d: Seq<u8>) -> Seq<u8> {
    Seq::new(d.len(), |j: int| cleared_byte(w, h, d, j))
}

fn is_key(r: u8, g: u8, b: u8) -> (k: bool)
    ensures
        k == (absd(r as int, 255) + absd(g as int, 0) + absd(b as int, 255) <= 3 * 60),
{
    let dr: i32 = 255 - r as i32;
    let dg: i32 = g as i32;
    let db: i32 = 255 - b as i32;
    dr + dg + db <= TOLERANCE * 3
}

/// Flood-fill transparency from the image borders so interior key-coloured
/// pixels (e.g. inside a hollow ring) survive.
pub fn remove_background(img: &Image) -> (r: Image)
    requires
        img.wf(),
    ensures
        r.width == img.width,
        r.height == img.height,
        r.data@ == cleared_data(img.width as int, img.height as int, img.data@),
{
    let w = img.width as i32;
    let h = img.height as i32;
    let ghost wi = w as int;
    let ghost hi = h as int;
    assert(wi * hi <= 0x7fff * 0x7fff && 4 * img.width * img.height == 4 * (wi * hi)) by (nonlinear_arith)
        requires
            0 <= wi <= 0x7fff,
            0 <= hi <= 0x7fff,
            wi == img.width,
            hi == img.height,
    ;
    let n: usize = (img.width * img.height) as usize;
    let mut mask: Vec<bool> = Vec::new();
    let mut i: usize = 0;
    while i < n
        invariant
            img.wf(),
            n == wi * hi,
            wi == img.width,
            hi == img.height,
            n <= 0x7fff * 0x7fff,
            img.data@.len() == 4 * n,
            0 <= i <= n,
            mask@ == key_mask(wi, hi, img.data@).subrange(0, i as int),
        decreases n - i,
    {
        let b = 4 * i;
        mask.push(is_key(img.data[b], img.data[b + 1], img.data[b + 2]));
        i = i + 1;
        assert(mask@ =~= key_mask(wi, hi, img.data@).subrange(0, i as int));
    }
    assert(mask@ =~= key_mask(wi, hi, img.data@));
    let adj = grid_graph(w, h, &mask);
    proof {
        lemma_grid_adj(wi, hi, mask@);
    }
    let (lab, count) = label_components(&mask, &adj);
    let ghost g = grid_adj(wi, hi, mask@);
    // Labels of the key regions that touch the border.
    let mut edge_lab: Vec<bool> = Vec::new();
    let mut c: usize = 0;
    while c < count
        invariant
            0 <= c <= count,
            edge_lab@.len() == c,
            forall|q: int| 0 <= q < c ==> !#[trigger] edge_lab@[q],
        decreases count - c,
    {
        edge_lab.push(false);
        c = c + 1;
    }
    let mut j: usize = 0;
    while j < n
        invariant
            n == mask@.len(),
            n == wi * hi,
            wi == w,
            hi == h,
            0 <= w,
            0 <= h,
            lab@.len() == n,
            labels_components(mask@, g, lab@, count as nat),
            edge_lab@.len() == count,
            0 <= j <= n,
            forall|q: int|
                0 <= q < count ==> (#[trigger] edge_lab@[q] <==> exists|b: int|
                    0 <= b < j && on_border(wi, hi, b) && mask@[b] && lab@[b] == q),
        decreases n - j,
    {
        let wu = w as usize;
        let hu = h as usize;
        proof {
            assert(wi > 0) by (nonlinear_arith)
                requires
                    j < n,
                    n == wi * hi,
                    0 <= wi,
                    0 <= hi,
            ;
        }
        let border = j % wu == 0 || j / wu == 0 || j % wu == wu - 1 || j / wu == hu - 1;
        if border && mask[j] {
            let l = lab[j];
            edge_lab.set(l, true);
        }
        proof {
            assert forall|q: int|
                0 <= q < count implies (#[trigger] edge_lab@[q] <==> exists|b: int|
                    0 <= b < j + 1 && on_border(wi, hi, b) && mask@[b] && lab@[b] == q) by {
                if border && mask@[j as int] && lab@[j as int] == q {
                    assert(0 <= j < j + 1 && on_border(wi, hi, j as int) && mask@[j as int] && lab@[j as int] == q);
                }
            }
        }
        j = j + 1;
    }
    // Clear the background bytes.
    let mut out: Vec<u8> = Vec::new();
    let total = img.data.len();
    let mut k: usize = 0;
    while k < total
        invariant
            img.wf(),
            total == img.data@.len(),
            total == 4 * n,
            n == mask@.len(),
            mask@ == key_mask(wi, hi, img.data@),
            n == wi * hi,
            wi == img.width,
            hi == img.height,
            g == grid_adj(wi, hi, mask@),
            lab@.len() == n,
            labels_components(mask@, g, lab@, count as nat),
            edge_lab@.len() == count,
            forall|q: int|
                0 <= q < count ==> (#[trigger] edge_lab@[q] <==> exists|b: int|
                    0 <= b < n && on_border(wi, hi, b) && mask@[b] && lab@[b] == q),
            0 <= k <= total,
            out@ == Seq::new(k as nat, |j: int| cleared_byte(wi, hi, img.data@, j)),
        decreases total - k,
    {
        let p = k / 4;
        let bg = mask[p] && edge_lab[lab[p]];
        proof {
            let pi = p as int;
            if mask@[pi] {
                let q = lab@[pi] as int;
                if edge_lab@[q] {
                    let b = choose|b: int| 0 <= b < n && on_border(wi, hi, b) && mask@[b] && lab@[b] == q;
                    assert(linked(g, pi, b));
                    assert(background(wi, hi, img.data@, pi));
                }
                if background(wi, hi, img.data@, pi) {
                    let b = choose|b: int|
                        0 <= b < wi * hi && on_border(wi, hi, b) && key_mask(wi, hi, img.data@)[b] && #[trigger] linked(g, pi, b);
                    lemma_linked_same_label(mask@, g, lab@, count as nat, pi, b);
                    assert(edge_lab@[q]);
                }
            }
            assert(bg == background(wi, hi, img.data@, pi));
        }
        if bg {
            out.push(0);
        } else {
            out.push(img.data[k]);
        }
        k = k + 1;
        assert(out@ =~= Seq::new(k as nat, |j: int| cleared_byte(wi, hi, img.data@, j)));
    }
    assert(out@ =~= cleared_data(wi, hi, img.data@));
    {
    }
    Image { width: img.width, height: img.height, data: out }
}

// =====================================================================================
// Crop and square
// =====================================================================================

/// Pixel `i` is visible (alpha above 8).
pub open spec fn visible(d: Seq<u8>, i: int) -> bool {
    d[4 * i + 3] > 8
}

/// Bounding box `(min_x, min_y, max_x, max_y)` of the visible pixels among
/// `0..k`, scanning from `(w, h, 0, 0)`.
pub open spec fn bbox_upto(w: int, h: int, d: Seq<u8>, k: int) -> (int, int, int, int)
    decreases k,
{
    if k <= 0 {
        (w, h, 0, 0)
    } else {
        let (a, b, c, e) = bbox_upto(w, h, d, k - 1);
        let x = (k - 1) % w;
        let y = (k - 1) / w;
        if visible(d, k - 1) {
            (if x < a { x } else { a }, if y < b { y } else { b }, if x > c { x } else { c }, if y > e { y } else { e })
        } else {
            (a, b, c, e)
        }
    }
}

pub open spec fn bbox(w: int, h: int, d: Seq<u8>) -> (int, int, int, int) {
    bbox_upto(w, h, d, w * h)
}

/// No visible pixel at all.
pub open spec fn blank(w: int, h: int, d: Seq<u8>) -> bool {
    bbox(w, h, d).2 < bbox(w, h, d).0 || bbox(w, h, d).3 < bbox(w, h, d).1
}

pub open spec fn crop_w(w: int, h: int, d: Seq<u8>) -> int {
    bbox(w, h, d).2 - bbox(w, h, d).0 + 1
}

pub open spec fn crop_h(w: int, h: int, d: Seq<u8>) -> int {
    bbox(w, h, d).3 - bbox(w, h, d).1 + 1
}

pub open spec fn side(w: int, h: int, d: Seq<u8>) -> int {
    if crop_w(w, h, d) >= crop_h(w, h, d) {
        crop_w(w, h, d)
    } else {
        crop_h(w, h, d)
    }
}

/// Byte `j` of the cropped, centred square.
pub open spec fn square_byte(w: int, h: int, d: Seq<u8>, j: int) -> u8 {
    let s = side(w, h, d);
    let (mx, my, _, _) = bbox(w, h, d);
    let ox = (s - crop_w(w, h, d)) / 2;
    let oy = (s - crop_h(w, h, d)) / 2;
    let q = j / 4;
    let c = j % 4;
    let x = q % s;
    let y = q / s;
    if ox <= x < ox + crop_w(w, h, d) && oy <= y < oy + crop_h(w, h, d) {
        d[4 * ((my + y - oy) * w + (mx + x - ox)) + c]
    } else {
        0
    }
}

/// The cropped, centred square as `(width, height, bytes)`; a blank image
/// stays as it is.
pub open spec fn squared(w: int, h: int, d: Seq<u8>) -> (int, int, Seq<u8>) {
    if blank(w, h, d) {
        (w, h, d)
    } else {
        let s = side(w, h, d);
        (s, s, Seq::new((4 * s * s) as nat, |j: int| square_byte(w, h, d, j)))
    }
}

proof fn lemma_bbox_range(w: int, h: int, d: Seq<u8>, k: int)
    requires
        w > 0,
        h >= 0,
        0 <= k <= w * h,
    ensures
        0 <= bbox_upto(w, h, d, k).0 <= w,
        0 <= bbox_upto(w, h, d, k).1 <= h,
        0 <= bbox_upto(w, h, d, k).2 < w,
        bbox_upto(w, h, d, k).3 == 0 || 0 <= bbox_upto(w, h, d, k).3 < h,
    decreases k,
{
    if k > 0 {
        lemma_bbox_range(w, h, d, k - 1);
        assert(0 <= (k - 1) % w < w && 0 <= (k - 1) / w < h) by (nonlinear_arith)
            requires
                0 < k <= w * h,
                w > 0,
        ;
    }
}

fn copy_image(img: &Image) -> (r: Image)
    ensures
        r.width == img.width,
        r.height == img.height,
        r.data@ == img.data@,
{
    let mut out: Vec<u8> = Vec::new();
    let mut i: usize = 0;
    while i < img.data.len()
        invariant
            0 <= i <= img.data@.len(),
            out@ == img.data@.subrange(0, i as int),
        decreases img.data@.len() - i,
    {
        out.push(img.data[i]);
        i = i + 1;
        assert(out@ =~= img.data@.subrange(0, i as int));
    }
    assert(out@ =~= img.data@);
    Image { width: img.width, height: img.height, data: out }
}

/// Crop to the visible content and pad to a centred transparent square; an
/// image with nothing visible is returned as it is.
pub fn crop_and_square(img: &Image) -> (r: Image)
    requires
        img.wf(),
        img.width > 0 || img.height > 0,
    ensures
        (r.width as int, r.height as int, r.data@) == squared(img.width as int, img.height as int, img.data@),
        r.wf(),
{
    let w = img.width;
    let h = img.height;
    assert(w * h <= 0x7fff * 0x7fff && 4 * w * h == 4 * (w * h)) by (nonlinear_arith)
        requires
            w <= 0x7fff,
            h <= 0x7fff,
    ;
    let n: usize = (w * h) as usize;
    let mut min_x: u32 = w;
    let mut min_y: u32 = h;
    let mut max_x: u32 = 0;
    let mut max_y: u32 = 0;
    let mut k: usize = 0;
    while k < n
        invariant
            img.wf(),
            w == img.width,
            h == img.height,
            n == w * h,
            n <= 0x7fff * 0x7fff,
            img.data@.len() == 4 * n,
            0 <= k <= n,
            (min_x as int, min_y as int, max_x as int, max_y as int) == bbox_upto(w as int, h as int, img.data@, k as int),
        decreases n - k,
    {
        proof {
            assert(w > 0) by (nonlinear_arith)
                requires
                    k < n,
                    n == w * h,
            ;
            assert(0 <= k % (w as usize) < w && 0 <= k / (w as usize) < h && 4 * k + 3 < 4 * n) by (nonlinear_arith)
                requires
                    k < n,
                    n == w * h,
                    w > 0,
            ;
        }
        let x = (k % (w as usize)) as u32;
        let y = (k / (w as usize)) as u32;
        if img.data[4 * k + 3] > 8 {
            if x < min_x {
                min_x = x;
            }
            if y < min_y {
                min_y = y;
            }
            if x > max_x {
                max_x = x;
            }
            if y > max_y {
                max_y = y;
            }
        }
        k = k + 1;
    }
    if max_x < min_x || max_y < min_y {
        return copy_image(img);
    }
    proof {
        if w == 0 || h == 0 {
            assert(n == 0) by (nonlinear_arith)
                requires
                    n == w * h,
                    w == 0 || h == 0,
            ;
        }
        assert(w > 0 && h > 0);
        lemma_bbox_range(w as int, h as int, img.data@, n as int);
    }
    let cw = max_x - min_x + 1;
    let ch = max_y - min_y + 1;
    let s = if cw >= ch {
        cw
    } else {
        ch
    };
    let ox = (s - cw) / 2;
    let oy = (s - ch) / 2;
    let s_u = s as usize;
    assert(4 * s_u * s_u <= 4 * 0x7fff * 0x7fff) by (nonlinear_arith)
        requires
            s_u <= 0x7fff,
    ;
    let total: usize = 4 * s_u * s_u;
    let mut out: Vec<u8> = Vec::new();
    let mut j: usize = 0;
    while j < total
        invariant
            img.wf(),
            w == img.width,
            h == img.height,
            !blank(w as int, h as int, img.data@),
            (min_x as int, min_y as int, max_x as int, max_y as int) == bbox(w as int, h as int, img.data@),
            cw == crop_w(w as int, h as int, img.data@),
            ch == crop_h(w as int, h as int, img.data@),
            s == side(w as int, h as int, img.data@),
            1 <= s <= 0x7fff,
            ox == (s - cw) / 2,
            oy == (s - ch) / 2,
            max_x < w,
            max_y < h,
            w * h <= 0x7fff * 0x7fff,
            img.data@.len() == 4 * (w * h),
            total == 4 * s * s,
            0 <= j <= total,
            out@ == Seq::new(j as nat, |t: int| square_byte(w as int, h as int, img.data@, t)),
        decreases total - j,
    {
        let q = j / 4;
        let c = j % 4;
        let su = s as usize;
        proof {
            assert(q < su * su && q / su < su && q % su < su) by (nonlinear_arith)
                requires
                    j < total,
                    total == 4 * s * s,
                    q == j / 4,
                    su == s,
                    s >= 1,
            ;
        }
        let x = (q % su) as u32;
        let y = (q / su) as u32;
        let b = if ox <= x && x < ox + cw && oy <= y && y < oy + ch {
            let sx = (min_x + x - ox) as usize;
            let sy = (min_y + y - oy) as usize;
            proof {
                assert(sy * w + sx < w * h && sy * w <= w * h) by (nonlinear_arith)
                    requires
                        sx < w,
                        sy < h,
                ;
            }
            img.data[4 * (sy * (w as usize) + sx) + c]
        } else {
            0
        };
        out.push(b);
        j = j + 1;
        assert(out@ =~= Seq::new(j as nat, |t: int| square_byte(w as int, h as int, img.data@, t)));
    }
    Image { width: s, height: s, data: out }
}

// =====================================================================================
// Resizing
// =====================================================================================

/// `image::DynamicImage::resize_exact` with the Lanczos3 filter on an RGBA
/// image. The crate returns exactly `nw × nh` pixels and copies the image
/// unchanged when the size already matches. The resampled pixels otherwise
/// are left unsaid: the filter kernel is computed with `f32::sin`, whose
/// precision std leaves to the platform, so they are not a fixed function
/// of the arguments.
#[verifier::external_body]
fn resize_lanczos3(img: &Image, nw: u32, nh: u32) -> (r: Image)
    requires
        img.wf(),
        nw <= 0x7fff,
        nh <= 0x7fff,
    ensures
        r.width == nw,
        r.height == nh,
        r.wf(),
        img.width == nw && img.height == nh ==> r.data@ == img.data@,
{
    let buf = match image::RgbaImage::from_raw(img.width, img.height, img.data.clone()) {
        Some(b) => b,
        None => image::RgbaImage::new(img.width, img.height),
    };
    let out = image::DynamicImage::ImageRgba8(buf).resize_exact(nw, nh, image::imageops::FilterType::Lanczos3);
    let rgba = out.to_rgba8();
    Image { width: rgba.width(), height: rgba.height(), data: rgba.into_raw() }
}

/// The full pipeline for one raw sprite: background removal, crop to a
/// centred square, resize to `OUT_SIZE`. The result is `OUT_SIZE` square;
/// when the squared sprite already has that size it is passed through
/// unchanged (the resampled pixels otherwise are the image crate's, see
/// `resize_lanczos3`).
pub fn process_art(raw: &Image) -> (r: Image)
    requires
        raw.wf(),
        raw.width > 0 || raw.height > 0,
    ensures
        r.width == OUT_SIZE,
        r.height == OUT_SIZE,
        r.wf(),
        ({
            let (sw, sh, sd) = squared(
                raw.width as int,
                raw.height as int,
                cleared_data(raw.width as int, raw.height as int, raw.data@),
            );
            sw == OUT_SIZE && sh == OUT_SIZE ==> r.data@ == sd
        }),
{
    let cleared = remove_background(raw);
    let squared = crop_and_square(&cleared);
    resize_lanczos3(&squared, OUT_SIZE, OUT_SIZE)
}

} // verus!
