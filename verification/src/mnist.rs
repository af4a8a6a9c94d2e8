//! The MNIST files (gzip-compressed IDX containers) and the geometry that
//! turns a drawing into a centred 28 × 28 input.
use crate::tensor::{
    flat_index, float_gt, gt_bits, lemma_flat_index_in_range, lemma_flat_index_injective, unflatten,
    Vol, ZERO_BITS,
};
use std::io::Read;
use vstd::prelude::*;
use vstd::slice::{slice_subrange, slice_to_vec};

verus! {

/// `std::io::Error`, declared so that it can be carried through; nothing is
/// claimed of what it holds.
#[verifier::external_type_specification]
#[verifier::external_body]
pub struct ExIoError(std::io::Error);

/// The bytes that `flate2::read::GzDecoder`, read to its end, decompresses
/// `compressed` to (its first gzip member), or `None` when it reports an error.
pub uninterp spec fn gunzip(compressed: Seq<u8>) -> Option<Seq<u8>>;

/// Decompresses with `flate2::read::GzDecoder`, read to its end. Trusted:
/// on in-memory input the outcome depends on the input bytes alone, and it is
/// `Ok` with the decompressed bytes exactly when `gunzip` gives bytes; what
/// those bytes are, and which error comes otherwise, is left unsaid.
#[verifier::external_body]
fn gz_decode(compressed: &[u8]) -> (r: Result<Vec<u8>, std::io::Error>)
    ensures
        r is Ok <==> gunzip(compressed@) is Some,
        r matches Ok(v) ==> gunzip(compressed@) == Some(v@),
{
    let mut out: Vec<u8> = Vec::new();
    match flate2::read::GzDecoder::new(compressed).read_to_end(&mut out) {
        Ok(_) => Ok(out),
        Err(e) => Err(e),
    }
}

/// Why MNIST data could not be read.
#[derive(Debug)]
pub enum MnistError {
    /// The bytes are not a valid gzip stream.
    Gzip(std::io::Error),
}

/// The decompressed contents of the bytes of a `.gz` file.
pub fn read_gz(compressed: &[u8]) -> (r: Result<Vec<u8>, MnistError>)
    ensures
        r is Ok <==> gunzip(compressed@) is Some,
        r matches Ok(v) ==> gunzip(compressed@) == Some(v@),
{
    match gz_decode(compressed) {
        Ok(v) => Ok(v),
        Err(e) => Err(MnistError::Gzip(e)),
    }
}

// ---------------------------------------------------------------------------
// IDX containers
// ---------------------------------------------------------------------------

/// The big-endian 32-bit number at position `o` of `b`.
pub open spec fn be32_at(b: Seq<u8>, o: int) -> int {
    b[o] as int * 0x100_0000 + b[o + 1] as int * 0x1_0000 + b[o + 2] as int * 0x100 + b[o + 3] as int
}

/// The big-endian 32-bit number at position `o` of `b`.
pub fn be32(b: &[u8], o: usize) -> (r: usize)
    requires
        o + 4 <= b@.len(),
    ensures
        r == be32_at(b@, o as int),
        r == b@[o as int] as int * 0x100_0000 + b@[o + 1] as int * 0x1_0000 + b@[o + 2] as int * 0x100
            + b@[o + 3] as int,
{
    let b0: usize = b[o] as usize;
    let b1: usize = b[o + 1] as usize;
    let b2: usize = b[o + 2] as usize;
    let b3: usize = b[o + 3] as usize;
    assert((b0 << 24usize) | (b1 << 16usize) | (b2 << 8usize) | b3 == b0 * 0x100_0000 + b1
        * 0x1_0000 + b2 * 0x100 + b3) by (bit_vector)
        requires
            b0 < 256,
            b1 < 256,
            b2 < 256,
            b3 < 256,
    ;
    (b0 << 24usize) | (b1 << 16usize) | (b2 << 8usize) | b3
}

/// Number of images that an IDX image file announces.
pub open spec fn image_count(images: Seq<u8>) -> int {
    be32_at(images, 4)
}

/// Rows per image that an IDX image file announces.
pub open spec fn image_rows(images: Seq<u8>) -> int {
    be32_at(images, 8)
}

/// Columns per image that an IDX image file announces.
pub open spec fn image_cols(images: Seq<u8>) -> int {
    be32_at(images, 12)
}

/// The header of an IDX image file: the number of images is the big-endian
/// number in bytes 4..8, the rows per image the one in bytes 8..12 and the
/// columns per image the one in bytes 12..16.
pub proof fn lemma_idx_header_fields(images: Seq<u8>)
    requires
        images.len() >= 16,
    ensures
        image_count(images) == images[4] as int * 0x100_0000 + images[5] as int * 0x1_0000
            + images[6] as int * 0x100 + images[7] as int,
        image_rows(images) == images[8] as int * 0x100_0000 + images[9] as int * 0x1_0000
            + images[10] as int * 0x100 + images[11] as int,
        image_cols(images) == images[12] as int * 0x100_0000 + images[13] as int * 0x1_0000
            + images[14] as int * 0x100 + images[15] as int,
{
}

/// The image file has its 16-byte header, holds every image it announces,
/// and the label file holds a label (after its 8-byte header) for each.
pub open spec fn idx_well_formed(images: Seq<u8>, labels: Seq<u8>) -> bool {
    &&& images.len() >= 16
    &&& image_rows(images) * image_cols(images) <= usize::MAX
    &&& image_count(images) > 0 ==> {
        &&& 16 + image_count(images) * (image_rows(images) * image_cols(images)) <= images.len()
        &&& 8 + image_count(images) <= labels.len()
    }
}

/// The pixels of image `i` of an IDX image file.
pub open spec fn image_pixels(images: Seq<u8>, i: int) -> Seq<u8> {
    let stride: int = image_rows(images) * image_cols(images);
    images.subrange(16 + i * stride, 16 + i * stride + stride)
}

/// The images of an IDX image file, with their labels.
pub struct MnistSet {
    pub rows: usize,
    pub cols: usize,
    /// Each image's pixels, row-major, and its label.
    pub samples: Vec<(Vec<u8>, u8)>,
}

/// Reads the decompressed image and label files; `None` when they are not
/// well formed.
pub fn parse_idx(images: &[u8], labels: &[u8]) -> (r: Option<MnistSet>)
    ensures
        r is Some <==> idx_well_formed(images@, labels@),
        r matches Some(set) ==> {
            &&& set.rows == images@[8] as int * 0x100_0000 + images@[9] as int * 0x1_0000
                + images@[10] as int * 0x100 + images@[11] as int
            &&& set.cols == images@[12] as int * 0x100_0000 + images@[13] as int * 0x1_0000
                + images@[14] as int * 0x100 + images@[15] as int
            &&& set.samples@.len() == images@[4] as int * 0x100_0000 + images@[5] as int
                * 0x1_0000 + images@[6] as int * 0x100 + images@[7] as int
            &&& set.rows == image_rows(images@)
            &&& set.cols == image_cols(images@)
            &&& set.samples@.len() == image_count(images@)
            &&& forall|i: int|
                0 <= i < set.samples@.len() ==> {
                    &&& (#[trigger] set.samples@[i]).0@ == image_pixels(images@, i)
                    &&& set.samples@[i].0@ == images@.subrange(
                        16 + i * (set.rows * set.cols),
                        16 + i * (set.rows * set.cols) + set.rows * set.cols,
                    )
                    &&& set.samples@[i].1 == labels@[8 + i]
                }
        },
{
    if images.len() < 16 {
        return None;
    }
    let n: usize = be32(images, 4);
    let rows: usize = be32(images, 8);
    let cols: usize = be32(images, 12);
    let stride: usize = match rows.checked_mul(cols) {
        Some(s) => s,
        None => {
            return None;
        },
    };
    if n > 0 {
        let body: usize = images.len() - 16;
        if stride > 0 && n > body / stride {
            proof {
                assert(n * stride > body) by (nonlinear_arith)
                    requires
                        stride > 0,
                        n > body / stride,
                ;
            }
            return None;
        }
        proof {
            assert(n * stride <= body) by (nonlinear_arith)
                requires
                    stride == 0 || n <= body / stride,
            ;
        }
        if labels.len() < 8 || labels.len() - 8 < n {
            return None;
        }
    }
    let ilen: usize = images.len();
    let llen: usize = labels.len();
    let mut samples: Vec<(Vec<u8>, u8)> = Vec::new();
    let mut i: usize = 0;
    while i < n
        invariant
            ilen == images@.len(),
            llen == labels@.len(),
            idx_well_formed(images@, labels@),
            n == image_count(images@),
            stride == image_rows(images@) * image_cols(images@),
            i <= n,
            samples@.len() == i,
            forall|k: int|
                0 <= k < i ==> {
                    &&& (#[trigger] samples@[k]).0@ == image_pixels(images@, k)
                    &&& samples@[k].1 == labels@[8 + k]
                },
        decreases n - i,
    {
        proof {
            assert(i * stride + stride <= n * stride) by (nonlinear_arith)
                requires
                    i < n,
            ;
        }
        let off: usize = 16 + i * stride;
        let pixels: Vec<u8> = slice_to_vec(slice_subrange(images, off, off + stride));
        samples.push((pixels, labels[8 + i]));
        i = i + 1;
    }
    Some(MnistSet { rows, cols, samples })
}

// ---------------------------------------------------------------------------
// Centring a drawing
// ---------------------------------------------------------------------------

/// Pixel `(x, y)` of a `w`-wide image is brighter than `thr`.
pub open spec fn is_ink(src: Seq<u32>, w: int, x: int, y: int, thr: u32) -> bool {
    float_gt(src[y * w + x], thr)
}

/// A pixel is ink exactly when its value is greater than the threshold.
pub proof fn lemma_ink_means_brighter(src: Seq<u32>, w: int, x: int, y: int, thr: u32)
    ensures
        is_ink(src, w, x, y, thr) == float_gt(src[y * w + x], thr),
{
}

/// Some pixel of the `w × h` image is brighter than `thr`.
pub open spec fn has_ink(src: Seq<u32>, w: int, h: int, thr: u32) -> bool {
    exists|x: int, y: int| 0 <= x < w && 0 <= y < h && #[trigger] is_ink(src, w, x, y, thr)
}

/// `b = (min_x, min_y, max_x, max_y)` is the smallest box that holds every
/// pixel of the `w × h` image brighter than `thr`.
pub open spec fn is_ink_box(src: Seq<u32>, w: int, h: int, thr: u32, b: (usize, usize, usize, usize)) -> bool {
    &&& forall|x: int, y: int|
        0 <= x < w && 0 <= y < h && #[trigger] is_ink(src, w, x, y, thr) ==> b.0 <= x <= b.2 && b.1
            <= y <= b.3
    &&& exists|y: int| 0 <= y < h && #[trigger] is_ink(src, w, b.0 as int, y, thr)
    &&& exists|y: int| 0 <= y < h && #[trigger] is_ink(src, w, b.2 as int, y, thr)
    &&& exists|x: int| 0 <= x < w && #[trigger] is_ink(src, w, x, b.1 as int, thr)
    &&& exists|x: int| 0 <= x < w && #[trigger] is_ink(src, w, x, b.3 as int, thr)
}

/// The bounding box `(min_x, min_y, max_x, max_y)` of the pixels of the
/// `sw × sh` image brighter than `thr`; `None` when there is none.
pub fn ink_bounding_box(src: &[u32], sw: usize, sh: usize, thr: u32) -> (r: Option<
    (usize, usize, usize, usize),
>)
    requires
        sw * sh <= src@.len(),
    ensures
        r is None <==> !has_ink(src@, sw as int, sh as int, thr),
        r matches Some(b) ==> is_ink_box(src@, sw as int, sh as int, thr, b),
        forall|x: int, y: int|
            0 <= x < sw && 0 <= y < sh && #[trigger] float_gt(src@[y * sw + x], thr) ==> (r matches Some(
                b,
            ) && b.0 <= x <= b.2 && b.1 <= y <= b.3),
        r matches Some(b) ==> {
            &&& b.0 <= b.2 < sw
            &&& b.1 <= b.3 < sh
            &&& exists|y: int| 0 <= y < sh && #[trigger] float_gt(src@[y * sw + b.0], thr)
            &&& exists|y: int| 0 <= y < sh && #[trigger] float_gt(src@[y * sw + b.2], thr)
            &&& exists|x: int| 0 <= x < sw && #[trigger] float_gt(src@[b.1 * sw + x], thr)
            &&& exists|x: int| 0 <= x < sw && #[trigger] float_gt(src@[b.3 * sw + x], thr)
        },
{
    let mut minx: usize = sw;
    let mut miny: usize = sh;
    let mut maxx: usize = 0;
    let mut maxy: usize = 0;
    let mut any: bool = false;
    // rows of the pixels that attain min_x and max_x; columns of those that attain min_y and max_y
    let ghost mut wy_minx: int = 0;
    let ghost mut wy_maxx: int = 0;
    let ghost mut wx_miny: int = 0;
    let ghost mut wx_maxy: int = 0;
    let ghost s = src@;
    let slen: usize = src.len();
    let mut y: usize = 0;
    while y < sh
        invariant
            slen == src@.len(),
            s == src@,
            sw * sh <= s.len(),
            y <= sh,
            any <==> exists|xx: int, yy: int|
                0 <= xx < sw && 0 <= yy < y && #[trigger] is_ink(s, sw as int, xx, yy, thr),
            forall|xx: int, yy: int|
                0 <= xx < sw && 0 <= yy < y && #[trigger] is_ink(s, sw as int, xx, yy, thr) ==> minx
                    <= xx <= maxx && miny <= yy <= maxy,
            any ==> {
                &&& 0 <= wy_minx < sh && is_ink(s, sw as int, minx as int, wy_minx, thr)
                &&& 0 <= wy_maxx < sh && is_ink(s, sw as int, maxx as int, wy_maxx, thr)
                &&& 0 <= wx_miny < sw && is_ink(s, sw as int, wx_miny, miny as int, thr)
                &&& 0 <= wx_maxy < sw && is_ink(s, sw as int, wx_maxy, maxy as int, thr)
                &&& minx < sw && maxx < sw && miny < sh && maxy < sh
            },
            !any ==> minx == sw && miny == sh && maxx == 0 && maxy == 0,
        decreases sh - y,
    {
        proof {
            assert(y * sw + sw <= sh * sw) by (nonlinear_arith)
                requires
                    y < sh,
            ;
            assert(sh * sw == sw * sh) by (nonlinear_arith);
        }
        let mut x: usize = 0;
        while x < sw
            invariant
                slen == src@.len(),
                s == src@,
                sw * sh <= s.len(),
                y < sh,
                y * sw + sw <= s.len(),
                x <= sw,
                any <==> exists|xx: int, yy: int|
                    0 <= xx < sw && 0 <= yy < sh && (yy < y || (yy == y && xx < x))
                        && #[trigger] is_ink(s, sw as int, xx, yy, thr),
                forall|xx: int, yy: int|
                    0 <= xx < sw && 0 <= yy < sh && (yy < y || (yy == y && xx < x))
                        && #[trigger] is_ink(s, sw as int, xx, yy, thr) ==> minx <= xx <= maxx && miny
                        <= yy <= maxy,
                any ==> {
                    &&& 0 <= wy_minx < sh && is_ink(s, sw as int, minx as int, wy_minx, thr)
                    &&& 0 <= wy_maxx < sh && is_ink(s, sw as int, maxx as int, wy_maxx, thr)
                    &&& 0 <= wx_miny < sw && is_ink(s, sw as int, wx_miny, miny as int, thr)
                    &&& 0 <= wx_maxy < sw && is_ink(s, sw as int, wx_maxy, maxy as int, thr)
                    &&& minx < sw && maxx < sw && miny < sh && maxy < sh
                },
                !any ==> minx == sw && miny == sh && maxx == 0 && maxy == 0,
            decreases sw - x,
        {
            if gt_bits(src[y * sw + x], thr) {
                assert(is_ink(s, sw as int, x as int, y as int, thr));
                if !any || x < minx {
                    minx = x;
                    proof {
                        wy_minx = y as int;
                    }
                }
                if !any || y < miny {
                    miny = y;
                    proof {
                        wx_miny = x as int;
                    }
                }
                if !any || x > maxx {
                    maxx = x;
                    proof {
                        wy_maxx = y as int;
                    }
                }
                if !any || y > maxy {
                    maxy = y;
                    proof {
                        wx_maxy = x as int;
                    }
                }
                any = true;
            }
            x = x + 1;
        }
        y = y + 1;
    }
    if any {
        let b: (usize, usize, usize, usize) = (minx, miny, maxx, maxy);
        assert(is_ink(src@, sw as int, b.0 as int, wy_minx, thr));
        assert(is_ink(src@, sw as int, b.2 as int, wy_maxx, thr));
        assert(is_ink(src@, sw as int, wx_miny, b.1 as int, thr));
        assert(is_ink(src@, sw as int, wx_maxy, b.3 as int, thr));
        assert(float_gt(src@[wy_minx * sw + b.0], thr));
        assert(float_gt(src@[wy_maxx * sw + b.2], thr));
        assert(float_gt(src@[b.1 * sw + wx_miny], thr));
        assert(float_gt(src@[b.3 * sw + wx_maxy], thr));
        assert forall|x: int, y: int|
            0 <= x < sw && 0 <= y < sh && #[trigger] float_gt(src@[y * sw + x], thr) implies b.0 <= x
                <= b.2 && b.1 <= y <= b.3 by {
            assert(is_ink(src@, sw as int, x, y, thr));
        }
        Some(b)
    } else {
        assert forall|x: int, y: int|
            0 <= x < sw && 0 <= y < sh implies !#[trigger] float_gt(src@[y * sw + x], thr) by {
            if float_gt(src@[y * sw + x], thr) {
                assert(is_ink(src@, sw as int, x, y, thr));
            }
        }
        None
    }
}

/// The value of cell `(px, py)` of the 28 × 28 canvas once the `tw × th`
/// image `temp` is pasted with its top-left corner at `(ox, oy)`: the image's
/// pixel there, or `0.0` where the image does not reach.
pub open spec fn pasted(temp: Seq<u32>, tw: int, th: int, ox: int, oy: int, px: int, py: int) -> u32 {
    if 0 <= px - ox < tw && 0 <= py - oy < th {
        temp[(py - oy) * tw + (px - ox)]
    } else {
        ZERO_BITS
    }
}

/// A 1 × 28 × 28 canvas holding the `tw × th` image `temp` pasted with its
/// top-left corner at `(ox, oy)`; what falls outside the canvas is dropped.
pub fn paste_on_canvas(temp: &[u32], tw: usize, th: usize, ox: isize, oy: isize) -> (out: Vol)
    requires
        tw * th <= temp@.len(),
        tw > 0 && th > 0 ==> {
            &&& tw <= isize::MAX
            &&& th <= isize::MAX
            &&& ox + tw - 1 <= isize::MAX
            &&& oy + th - 1 <= isize::MAX
        },
    ensures
        out.c == 1,
        out.h == 28,
        out.w == 28,
        out.wf(),
        forall|py: int, px: int|
            0 <= py < 28 && 0 <= px < 28 ==> #[trigger] out.at(0, py, px) == pasted(
                temp@,
                tw as int,
                th as int,
                ox as int,
                oy as int,
                px,
                py,
            ),
        forall|py: int, px: int|
            0 <= py < 28 && 0 <= px < 28 ==> #[trigger] out.data@[py * 28 + px] == (if 0 <= px - ox
                < tw && 0 <= py - oy < th {
                temp@[(py - oy) * tw + (px - ox)]
            } else {
                ZERO_BITS
            }),
{
    let mut out: Vol = Vol::zeros(1, 28, 28);
    proof {
        assert(th * tw == tw * th) by (nonlinear_arith);
        assert forall|py: int, px: int| 0 <= py < 28 && 0 <= px < 28 implies #[trigger] out.at(
            0,
            py,
            px,
        ) == ZERO_BITS by {
            out.lemma_in_bounds_slot(0, py, px);
        }
    }
    let tlen: usize = temp.len();
    let n: usize = th * tw;
    let mut k: usize = 0;
    while k < n
        invariant
            n == th * tw,
            n <= temp@.len(),
            tw > 0 && th > 0 ==> {
                &&& tw <= isize::MAX
                &&& th <= isize::MAX
                &&& ox + tw - 1 <= isize::MAX
                &&& oy + th - 1 <= isize::MAX
            },
            out.c == 1,
            out.h == 28,
            out.w == 28,
            out.wf(),
            k <= n,
            forall|py: int, px: int|
                0 <= py < 28 && 0 <= px < 28 ==> #[trigger] out.at(0, py, px) == (if 0 <= px - ox
                    < tw && 0 <= py - oy < th && (py - oy) * tw + (px - ox) < k {
                    temp@[(py - oy) * tw + (px - ox)]
                } else {
                    ZERO_BITS
                }),
        decreases n - k,
    {
        let (_z, ty, tx) = unflatten(1, th, tw, k);
        proof {
            assert(tw > 0 && th > 0);
            assert(flat_index(th as int, tw as int, 0, ty as int, tx as int) == ty * tw + tx);
        }
        let dx: isize = tx as isize + ox;
        let dy: isize = ty as isize + oy;
        if dx >= 0 && dx < 28 && dy >= 0 && dy < 28 {
            let v: u32 = temp[ty * tw + tx];
            let ghost old_out = out;
            proof {
                out.lemma_in_bounds_slot(0, dy as int, dx as int);
            }
            out.data.set(dy as usize * 28 + dx as usize, v);
            proof {
                assert forall|py: int, px: int| 0 <= py < 28 && 0 <= px < 28 implies #[trigger] out.at(
                    0,
                    py,
                    px,
                ) == (if 0 <= px - ox < tw && 0 <= py - oy < th && (py - oy) * tw + (px - ox) < k
                    + 1 {
                    temp@[(py - oy) * tw + (px - ox)]
                } else {
                    ZERO_BITS
                }) by {
                    out.lemma_in_bounds_slot(0, py, px);
                    assert(old_out.at(0, py, px) == old_out.data@[out.slot(0, py, px)]);
                    if py == dy && px == dx {
                    } else {
                        assert(out.slot(0, py, px) != out.slot(0, dy as int, dx as int)) by {
                            if out.slot(0, py, px) == out.slot(0, dy as int, dx as int) {
                                lemma_flat_index_injective(28, 28, 0, py, px, 0, dy as int, dx as int);
                            }
                        }
                        if 0 <= px - ox < tw && 0 <= py - oy < th && (py - oy) * tw + (px - ox) == k {
                            lemma_flat_index_injective(
                                th as int,
                                tw as int,
                                0,
                                py - oy,
                                px - ox,
                                0,
                                ty as int,
                                tx as int,
                            );
                        }
                    }
                }
            }
        } else {
            proof {
                assert forall|py: int, px: int| 0 <= py < 28 && 0 <= px < 28 implies #[trigger] out.at(
                    0,
                    py,
                    px,
                ) == (if 0 <= px - ox < tw && 0 <= py - oy < th && (py - oy) * tw + (px - ox) < k
                    + 1 {
                    temp@[(py - oy) * tw + (px - ox)]
                } else {
                    ZERO_BITS
                }) by {
                    if 0 <= px - ox < tw && 0 <= py - oy < th && (py - oy) * tw + (px - ox) == k {
                        lemma_flat_index_injective(
                            th as int,
                            tw as int,
                            0,
                            py - oy,
                            px - ox,
                            0,
                            ty as int,
                            tx as int,
                        );
                    }
                }
            }
        }
        k = k + 1;
    }
    proof {
        assert forall|py: int, px: int| 0 <= py < 28 && 0 <= px < 28 implies #[trigger] out.at(
            0,
            py,
            px,
        ) == pasted(temp@, tw as int, th as int, ox as int, oy as int, px, py) by {
            if 0 <= px - ox < tw && 0 <= py - oy < th {
                lemma_flat_index_in_range(1, th as int, tw as int, 0, py - oy, px - ox);
            }
        }
        assert forall|py: int, px: int| 0 <= py < 28 && 0 <= px < 28 implies #[trigger] out.data@[py
            * 28 + px] == pasted(temp@, tw as int, th as int, ox as int, oy as int, px, py) by {
            assert(out.slot(0, py, px) == py * 28 + px);
            assert(out.at(0, py, px) == pasted(temp@, tw as int, th as int, ox as int, oy as int, px, py));
        }
    }
    out
}

} // verus!
