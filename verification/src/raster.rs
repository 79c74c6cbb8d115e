//! Decoded raster images and the pure transforms over them: color-key
//! matting, bounded resizing for compression and thumbnails, and exact
//! cropping. Decoding, encoding and resampling are done by the image codec
//! behind trusted wrappers; every transform decision is verified here.

use vstd::prelude::*;

use crate::LibError;
use crate::media::base64_of;
use crate::media::base64_encode;

verus! {

/// A decoded image: RGBA samples, row-major, four bytes per pixel.
pub struct Raster {
    pub width: u32,
    pub height: u32,
    pub pixels: Vec<u8>,
}

impl Raster {
    /// Well-formed: the sample buffer holds exactly four bytes per pixel.
    pub open spec fn wf(&self) -> bool {
        self.pixels@.len() == 4 * (self.width as nat) * (self.height as nat)
    }
}

/// What the image codec decodes the given bytes to (RGBA dimensions and
/// samples), or nothing when the bytes are not a decodable image. A function
/// of the bytes alone.
pub uninterp spec fn decoded_rgba(bytes: Seq<u8>) -> Option<(u32, u32, Seq<u8>)>;

/// Relies on image's `load_from_memory` and `to_rgba8`: decoding is a pure
/// function of the bytes, the RGBA buffer holds four bytes per pixel, and
/// both enabled decoders (PNG and JPEG) reject zero-dimension images, so a
/// decoded image is at least one pixel in each direction.
#[verifier::external_body]
pub fn decode_rgba(bytes: &[u8]) -> (r: Result<Raster, LibError>)
    ensures
        match r {
            Ok(img) => decoded_rgba(bytes@) == Some((img.width, img.height, img.pixels@))
                && img.wf() && img.width >= 1 && img.height >= 1,
            Err(e) => decoded_rgba(bytes@) is None && e == LibError::DecodeFailure,
        },
{
    match image::load_from_memory(bytes) {
        Ok(img) => {
            let rgba = img.to_rgba8();
            Ok(Raster { width: rgba.width(), height: rgba.height(), pixels: rgba.into_raw() })
        },
        Err(_) => Err(LibError::DecodeFailure),
    }
}

/// The PNG encoding of an RGBA raster: a function of the dimensions and
/// samples alone (the encoder is deterministic).
pub uninterp spec fn png_bytes_of(width: u32, height: u32, pixels: Seq<u8>) -> Seq<u8>;

/// Relies on image's PNG encoder via `write_to`: a deterministic, lossless
/// encoding of the RGBA samples. Writing goes to an in-memory buffer, so the
/// encoder fails exactly when a dimension is zero (the only format error an
/// RGBA image with a well-formed buffer can trigger); it reports that as an
/// error rather than panicking.
#[verifier::external_body]
pub fn encode_png(img: &Raster) -> (r: Result<Vec<u8>, LibError>)
    requires
        img.wf(),
    ensures
        (img.width >= 1 && img.height >= 1) <==> r is Ok,
        match r {
            Ok(bytes) => bytes@ == png_bytes_of(img.width, img.height, img.pixels@),
            Err(e) => e == LibError::IoFailure,
        },
{
    let buf = match image::RgbaImage::from_raw(img.width, img.height, img.pixels.clone()) {
        Some(b) => b,
        None => return Err(LibError::IoFailure),
    };
    let mut bytes = std::io::Cursor::new(Vec::new());
    match image::DynamicImage::ImageRgba8(buf).write_to(&mut bytes, image::ImageFormat::Png) {
        Ok(()) => Ok(bytes.into_inner()),
        Err(_) => Err(LibError::IoFailure),
    }
}

/// The JPEG encoding of a raster at a given quality, after dropping alpha: a
/// function of dimensions, samples and quality alone.
pub uninterp spec fn jpeg_bytes_of(width: u32, height: u32, pixels: Seq<u8>, quality: u8) -> Seq<
    u8,
>;

/// Relies on image's `JpegEncoder` and `to_rgb8`: alpha is dropped (JPEG has
/// none) and the encoding is a deterministic function of samples and quality.
/// Writing goes to an in-memory buffer, so the encoder fails exactly when a
/// dimension falls outside the format's range of 1 to 65535; it reports that
/// as an error rather than panicking.
#[verifier::external_body]
pub fn encode_jpeg(img: &Raster, quality: u8) -> (r: Result<Vec<u8>, LibError>)
    requires
        img.wf(),
    ensures
        (1 <= img.width <= 65535 && 1 <= img.height <= 65535) <==> r is Ok,
        match r {
            Ok(bytes) => bytes@ == jpeg_bytes_of(img.width, img.height, img.pixels@, quality),
            Err(e) => e == LibError::IoFailure,
        },
{
    let buf = match image::RgbaImage::from_raw(img.width, img.height, img.pixels.clone()) {
        Some(b) => b,
        None => return Err(LibError::IoFailure),
    };
    let rgb = image::DynamicImage::ImageRgba8(buf).to_rgb8();
    let mut bytes = std::io::Cursor::new(Vec::new());
    let enc = image::codecs::jpeg::JpegEncoder::new_with_quality(&mut bytes, quality);
    match rgb.write_with_encoder(enc) {
        Ok(()) => Ok(bytes.into_inner()),
        Err(_) => Err(LibError::IoFailure),
    }
}

/// The RGBA samples produced by Lanczos3 resampling to the given dimensions:
/// a function of the source raster and the target dimensions alone.
pub uninterp spec fn lanczos_of(
    width: u32,
    height: u32,
    pixels: Seq<u8>,
    new_width: u32,
    new_height: u32,
) -> Seq<u8>;

/// Relies on image's `imageops::resize` with the Lanczos3 filter: the output
/// buffer has exactly the requested dimensions and is a deterministic
/// function of the source samples.
#[verifier::external_body]
pub fn resize_lanczos(img: &Raster, new_width: u32, new_height: u32) -> (r: Raster)
    requires
        img.wf(),
        new_width >= 1,
        new_height >= 1,
    ensures
        r.width == new_width,
        r.height == new_height,
        r.wf(),
        r.pixels@ == lanczos_of(img.width, img.height, img.pixels@, new_width, new_height),
{
    let buf = image::RgbaImage::from_raw(img.width, img.height, img.pixels.clone()).unwrap();
    let out = image::imageops::resize(
        &buf,
        new_width,
        new_height,
        image::imageops::FilterType::Lanczos3,
    );
    Raster { width: new_width, height: new_height, pixels: out.into_raw() }
}

/// A byte-for-byte copy of a sample buffer.
#[verifier::loop_isolation(false)]
pub fn copy_bytes(v: &Vec<u8>) -> (r: Vec<u8>)
    ensures
        r@ == v@,
{
    let mut r: Vec<u8> = Vec::new();
    let n = v.len();
    for i in 0..n
        invariant
            r@ =~= v@.take(i as int),
    {
        r.push(v[i]);
        proof {
            assert(r@ =~= v@.take(i + 1));
        }
    }
    proof {
        assert(v@.take(n as int) =~= v@);
    }
    r
}

/// Whether one channel value lies within `tolerance` of the target value.
pub open spec fn channel_close(a: u8, t: u8, tolerance: u8) -> bool {
    if a >= t {
        a - t <= tolerance
    } else {
        t - a <= tolerance
    }
}

/// Whether the pixel starting at flat byte offset `4 * p` matches the target
/// color: every one of the three color channels is within the tolerance,
/// judged independently (no distance metric).
pub open spec fn pixel_matches_key(pixels: Seq<u8>, p: int, target: [u8; 3], tolerance: u8) -> bool {
    channel_close(pixels[4 * p], target[0], tolerance) && channel_close(
        pixels[4 * p + 1],
        target[1],
        tolerance,
    ) && channel_close(pixels[4 * p + 2], target[2], tolerance)
}

/// The matted sample buffer: matching pixels become fully transparent black,
/// all others are copied unchanged, alpha included.
pub open spec fn matted_pixels(pixels: Seq<u8>, target: [u8; 3], tolerance: u8) -> Seq<u8> {
    Seq::new(
        pixels.len(),
        |j: int|
            if pixel_matches_key(pixels, j / 4, target, tolerance) {
                0u8
            } else {
                pixels[j]
            },
    )
}

/// Color-key background removal: a pixel becomes fully transparent exactly
/// when each of its three color channels is within `tolerance` of the target
/// color; every other pixel is copied unchanged, including its alpha.
#[verifier::loop_isolation(false)]
pub fn remove_background_color_key(img: &Raster, target_color: [u8; 3], tolerance: u8) -> (r:
    Raster)
    requires
        img.wf(),
    ensures
        r.width == img.width,
        r.height == img.height,
        r.wf(),
        r.pixels@ == matted_pixels(img.pixels@, target_color, tolerance),
{
    let mut out: Vec<u8> = Vec::new();
    let n = img.pixels.len() / 4;
    proof {
        let w = img.width as int;
        let h = img.height as int;
        let l = img.pixels@.len() as int;
        assert(l == (w * h) * 4) by (nonlinear_arith)
            requires
                l == 4 * w * h,
        ;
        vstd::arithmetic::div_mod::lemma_fundamental_div_mod_converse(l, 4, w * h, 0);
    }
    for p in 0..n
        invariant
            n == img.pixels@.len() / 4,
            img.pixels@.len() % 4 == 0,
            out@.len() == 4 * p,
            out@ =~= matted_pixels(img.pixels@, target_color, tolerance).take(4 * p as int),
    {
        let pr = img.pixels[4 * p];
        let pg = img.pixels[4 * p + 1];
        let pb = img.pixels[4 * p + 2];
        let pa = img.pixels[4 * p + 3];
        let dr = if pr >= target_color[0] {
            pr - target_color[0]
        } else {
            target_color[0] - pr
        };
        let dg = if pg >= target_color[1] {
            pg - target_color[1]
        } else {
            target_color[1] - pg
        };
        let db = if pb >= target_color[2] {
            pb - target_color[2]
        } else {
            target_color[2] - pb
        };
        let matches = dr <= tolerance && dg <= tolerance && db <= tolerance;
        proof {
            assert(matches == pixel_matches_key(img.pixels@, p as int, target_color, tolerance));
        }
        if matches {
            out.push(0);
            out.push(0);
            out.push(0);
            out.push(0);
        } else {
            out.push(pr);
            out.push(pg);
            out.push(pb);
            out.push(pa);
        }
        proof {
            assert forall|c: int| 0 <= c < 4 implies #[trigger] ((4 * p + c) / 4) == p as int by {
                vstd::arithmetic::div_mod::lemma_fundamental_div_mod_converse(
                    4 * p + c,
                    4,
                    p as int,
                    c,
                );
            }
            assert(out@ =~= matted_pixels(img.pixels@, target_color, tolerance).take(
                4 * (p + 1) as int,
            ));
        }
    }
    proof {
        assert(4 * n as int == img.pixels@.len());
        assert(matted_pixels(img.pixels@, target_color, tolerance).take(4 * n as int)
            =~= matted_pixels(img.pixels@, target_color, tolerance));
    }
    let r = Raster { width: img.width, height: img.height, pixels: out };
    r
}

/// The dimensions a source image is shrunk to so that both bounds are
/// respected: unchanged when already within bounds, otherwise scaled by the
/// smaller of the width and height ratios (rounding down, but never below one
/// pixel). Degenerate (zero-sized) images are left unchanged.
pub open spec fn spec_target_dims(w: u32, h: u32, max_w: u32, max_h: u32) -> (u32, u32) {
    if w == 0 || h == 0 || (w <= max_w && h <= max_h) {
        (w, h)
    } else if (max_w as int) * (h as int) <= (max_h as int) * (w as int) {
        // the width ratio is the smaller one
        (clamp_dim(max_w as int), clamp_dim((h as int) * (max_w as int) / (w as int)))
    } else {
        (clamp_dim((w as int) * (max_h as int) / (h as int)), clamp_dim(max_h as int))
    }
}

/// Round a computed dimension to at least one pixel.
pub open spec fn clamp_dim(d: int) -> u32 {
    if d < 1 {
        1u32
    } else {
        d as u32
    }
}

/// In the branch where the width ratio is the smaller one, the bound is below
/// the source width and the scaled height is below the source height (and
/// symmetrically).
proof fn lemma_ratio_branch(w: int, h: int, max_w: int, max_h: int)
    requires
        1 <= w,
        1 <= h,
        0 <= max_w,
        0 <= max_h,
        max_w * h <= max_h * w,
        !(w <= max_w && h <= max_h),
    ensures
        max_w <= w,
        0 <= h * max_w / w <= h,
        h * max_w / w <= max_h,
{
    assert(max_w <= w) by (nonlinear_arith)
        requires
            1 <= w,
            1 <= h,
            max_w * h <= max_h * w,
            !(w <= max_w && h <= max_h),
    ;
    assert(h * max_w <= w * h && 0 <= h * max_w) by (nonlinear_arith)
        requires
            0 <= h,
            0 <= max_w,
            max_w <= w,
    ;
    vstd::arithmetic::div_mod::lemma_div_is_ordered(h * max_w, w * h, w);
    vstd::arithmetic::div_mod::lemma_div_multiples_vanish(h, w);
    assert((w * h) / w == h);
    vstd::arithmetic::div_mod::lemma_div_pos_is_pos(h * max_w, w);
    assert(h * max_w <= w * max_h) by (nonlinear_arith)
        requires
            max_w * h <= max_h * w,
    ;
    vstd::arithmetic::div_mod::lemma_div_is_ordered(h * max_w, w * max_h, w);
    vstd::arithmetic::div_mod::lemma_div_multiples_vanish(max_h, w);
    assert((w * max_h) / w == max_h);
}

/// Compute the shrink-only target dimensions.
pub fn target_dims(w: u32, h: u32, max_w: u32, max_h: u32) -> (r: (u32, u32))
    ensures
        r == spec_target_dims(w, h, max_w, max_h),
        r == (w, h) || (r.0 >= 1 && r.1 >= 1),
{
    if w == 0 || h == 0 || (w <= max_w && h <= max_h) {
        return (w, h);
    }
    proof {
        assert((max_w as int) * (h as int) < 0x1_0000_0000_0000_0000 && (max_h as int) * (w as int)
            < 0x1_0000_0000_0000_0000 && (h as int) * (max_w as int) < 0x1_0000_0000_0000_0000
            && (w as int) * (max_h as int) < 0x1_0000_0000_0000_0000) by (nonlinear_arith)
            requires
                0 <= (max_w as int) < 0x1_0000_0000,
                0 <= (h as int) < 0x1_0000_0000,
                0 <= (max_h as int) < 0x1_0000_0000,
                0 <= (w as int) < 0x1_0000_0000,
        ;
    }
    if (max_w as u64) * (h as u64) <= (max_h as u64) * (w as u64) {
        proof {
            lemma_ratio_branch(w as int, h as int, max_w as int, max_h as int);
        }
        let scaled = (h as u64) * (max_w as u64) / (w as u64);
        let nw = if max_w < 1 {
            1u32
        } else {
            max_w
        };
        let nh = if scaled < 1 {
            1u32
        } else {
            scaled as u32
        };
        (nw, nh)
    } else {
        proof {
            lemma_ratio_branch(h as int, w as int, max_h as int, max_w as int);
        }
        let scaled = (w as u64) * (max_h as u64) / (h as u64);
        let nw = if scaled < 1 {
            1u32
        } else {
            scaled as u32
        };
        let nh = if max_h < 1 {
            1u32
        } else {
            max_h
        };
        (nw, nh)
    }
}

/// The target dimensions respect both bounds and never upscale: each side of
/// the result is at most the corresponding bound and at most the source side.
pub proof fn lemma_target_dims_bounded(w: u32, h: u32, max_w: u32, max_h: u32)
    requires
        max_w >= 1,
        max_h >= 1,
        w >= 1,
        h >= 1,
    ensures
        spec_target_dims(w, h, max_w, max_h).0 <= max_w || spec_target_dims(w, h, max_w, max_h)
            == (w, h),
        spec_target_dims(w, h, max_w, max_h).1 <= max_h || spec_target_dims(w, h, max_w, max_h)
            == (w, h),
        spec_target_dims(w, h, max_w, max_h).0 <= w,
        spec_target_dims(w, h, max_w, max_h).1 <= h,
{
    if !(w <= max_w && h <= max_h) {
        if (max_w as int) * (h as int) <= (max_h as int) * (w as int) {
            lemma_ratio_branch(w as int, h as int, max_w as int, max_h as int);
        } else {
            lemma_ratio_branch(h as int, w as int, max_h as int, max_w as int);
        }
    }
}


/// For a real image (at least one pixel each way), the shrink-only target is
/// at least one pixel each way and within both bounds.
pub proof fn lemma_target_dims_in_range(w: u32, h: u32, max_w: u32, max_h: u32)
    requires
        w >= 1,
        h >= 1,
        max_w >= 1,
        max_h >= 1,
    ensures
        1 <= spec_target_dims(w, h, max_w, max_h).0 <= max_w,
        1 <= spec_target_dims(w, h, max_w, max_h).1 <= max_h,
{
    if w <= max_w && h <= max_h {
    } else if (max_w as int) * (h as int) <= (max_h as int) * (w as int) {
        lemma_ratio_branch(w as int, h as int, max_w as int, max_h as int);
    } else {
        lemma_ratio_branch(h as int, w as int, max_h as int, max_w as int);
    }
}

/// For a real image, the thumbnail target is at least one pixel each way and
/// within the thumbnail box.
pub proof fn lemma_thumb_dims_in_range(w: u32, h: u32)
    requires
        w >= 1,
        h >= 1,
    ensures
        1 <= spec_thumb_dims(w, h).0 <= THUMBNAIL_SIZE,
        1 <= spec_thumb_dims(w, h).1 <= THUMBNAIL_SIZE,
{
    if h <= w {
        let s = (h as int) * (THUMBNAIL_SIZE as int) / (w as int);
        assert(0 <= s && s <= 256) by (nonlinear_arith)
            requires
                1 <= (w as int),
                1 <= (h as int),
                (h as int) <= (w as int),
                s == (h as int) * 256 / (w as int),
        ;
    } else {
        let s = (w as int) * (THUMBNAIL_SIZE as int) / (h as int);
        assert(0 <= s && s <= 256) by (nonlinear_arith)
            requires
                1 <= (w as int),
                1 <= (h as int),
                (w as int) <= (h as int),
                s == (w as int) * 256 / (h as int),
        ;
    }
}

/// Shrink an image so that it fits the given bounds (when present), keeping
/// the aspect ratio by scaling both sides with the smaller bound ratio; an
/// image already within bounds is returned unchanged. The sample buffer of a
/// resized result comes from Lanczos3 resampling. `quality` plays no role
/// here; it only affects later JPEG encoding.
pub fn compress_image(img: &Raster, max_width: Option<u32>, max_height: Option<u32>, quality: u8)
    -> (r: Raster)
    requires
        img.wf(),
    ensures
        ({
            let mw = if max_width is Some { max_width->0 } else { img.width };
            let mh = if max_height is Some { max_height->0 } else { img.height };
            let dims = spec_target_dims(img.width, img.height, mw, mh);
            r.width == dims.0 && r.height == dims.1 && r.wf() && r.pixels@ == (
            if dims == (img.width, img.height) {
                img.pixels@
            } else {
                lanczos_of(img.width, img.height, img.pixels@, dims.0, dims.1)
            })
        }),
{
    let _ = quality;
    let mw = match max_width {
        Some(m) => m,
        None => img.width,
    };
    let mh = match max_height {
        Some(m) => m,
        None => img.height,
    };
    let (nw, nh) = target_dims(img.width, img.height, mw, mh);
    if nw == img.width && nh == img.height {
        Raster { width: img.width, height: img.height, pixels: copy_bytes(&img.pixels) }
    } else {
        resize_lanczos(img, nw, nh)
    }
}

/// The bounding box of a thumbnail: the longest edge of the result.
pub const THUMBNAIL_SIZE: u32 = 256;

/// The dimensions a thumbnail is resampled to: the largest size that fits in
/// the square thumbnail box while keeping the aspect ratio (small images are
/// scaled up, as the resampler's fit does); each side is at least one pixel.
/// Degenerate sources are left unchanged.
pub open spec fn spec_thumb_dims(w: u32, h: u32) -> (u32, u32) {
    if w == 0 || h == 0 {
        (w, h)
    } else if h <= w {
        (THUMBNAIL_SIZE, clamp_dim((h as int) * (THUMBNAIL_SIZE as int) / (w as int)))
    } else {
        (clamp_dim((w as int) * (THUMBNAIL_SIZE as int) / (h as int)), THUMBNAIL_SIZE)
    }
}

/// Resample an image to thumbnail size: the longest edge becomes the
/// thumbnail bound, the other side keeps the aspect ratio.
pub fn thumbnail_raster(img: &Raster) -> (r: Raster)
    requires
        img.wf(),
    ensures
        r.width == spec_thumb_dims(img.width, img.height).0,
        r.height == spec_thumb_dims(img.width, img.height).1,
        r.wf(),
        img.width > 0 && img.height > 0 ==> r.width <= THUMBNAIL_SIZE && r.height
            <= THUMBNAIL_SIZE,
        r.pixels@ == if spec_thumb_dims(img.width, img.height) == (img.width, img.height) {
            img.pixels@
        } else {
            lanczos_of(
                img.width,
                img.height,
                img.pixels@,
                spec_thumb_dims(img.width, img.height).0,
                spec_thumb_dims(img.width, img.height).1,
            )
        },
{
    let w = img.width;
    let h = img.height;
    if w == 0 || h == 0 {
        return Raster { width: w, height: h, pixels: copy_bytes(&img.pixels) };
    }
    let (nw, nh) = if h <= w {
        let scaled = (h as u64) * (THUMBNAIL_SIZE as u64) / (w as u64);
        proof {
            assert((h as int) * (THUMBNAIL_SIZE as int) / (w as int) <= THUMBNAIL_SIZE as int) by (nonlinear_arith)
                requires
                    0 < (w as int),
                    0 < (h as int) <= (w as int),
            ;
        }
        (THUMBNAIL_SIZE, if scaled < 1 { 1u32 } else { scaled as u32 })
    } else {
        let scaled = (w as u64) * (THUMBNAIL_SIZE as u64) / (h as u64);
        proof {
            assert((w as int) * (THUMBNAIL_SIZE as int) / (h as int) <= THUMBNAIL_SIZE as int) by (nonlinear_arith)
                requires
                    0 < (h as int),
                    0 < (w as int) <= (h as int),
            ;
        }
        (if scaled < 1 { 1u32 } else { scaled as u32 }, THUMBNAIL_SIZE)
    };
    if nw == w && nh == h {
        Raster { width: w, height: h, pixels: copy_bytes(&img.pixels) }
    } else {
        resize_lanczos(img, nw, nh)
    }
}

/// Produce the PNG thumbnail of raw image bytes: decode, resample to the
/// bounded thumbnail size, encode losslessly. The call succeeds exactly when
/// the bytes decode as an image: a decoded image is at least one pixel each
/// way, so its thumbnail is too, and the encoder accepts it.
pub fn thumbnail_png(bytes: &Vec<u8>) -> (r: Result<Vec<u8>, LibError>)
    ensures
        r is Ok <==> decoded_rgba(bytes@) is Some,
        match r {
            Ok(out) => ({
                let (w, h, pixels) = decoded_rgba(bytes@)->0;
                let dims = spec_thumb_dims(w, h);
                out@ == png_bytes_of(
                    dims.0,
                    dims.1,
                    if dims == (w, h) {
                        pixels
                    } else {
                        lanczos_of(w, h, pixels, dims.0, dims.1)
                    },
                )
            }),
            Err(e) => e == LibError::DecodeFailure,
        },
{
    let img = match decode_rgba(bytes.as_slice()) {
        Ok(img) => img,
        Err(e) => { return Err(e); },
    };
    let thumb = thumbnail_raster(&img);
    proof {
        lemma_thumb_dims_in_range(img.width, img.height);
        assert(thumb.width >= 1 && thumb.height >= 1);
    }
    encode_png(&thumb)
}

/// Compress raw image bytes for transfer to the vision model: shrink into a
/// bounded box, encode as JPEG, and render as base64. Returns the base64 text
/// and the MIME type it encodes. The call succeeds exactly when the bytes
/// decode as an image: the shrunk dimensions lie between one pixel and the
/// bounding box, well inside what the encoder accepts.
pub fn compress_for_ai(bytes: &Vec<u8>) -> (r: Result<(String, String), LibError>)
    ensures
        r is Ok <==> decoded_rgba(bytes@) is Some,
        match r {
            Ok(out) => ({
                let (w, h, pixels) = decoded_rgba(bytes@)->0;
                let dims = spec_target_dims(w, h, 1536, 1536);
                out.0@ == base64_of(
                    jpeg_bytes_of(
                        dims.0,
                        dims.1,
                        if dims == (w, h) {
                            pixels
                        } else {
                            lanczos_of(w, h, pixels, dims.0, dims.1)
                        },
                        85,
                    ),
                ) && out.1@ == "image/jpeg"@
            }),
            Err(e) => e == LibError::DecodeFailure,
        },
{
    let img = match decode_rgba(bytes.as_slice()) {
        Ok(img) => img,
        Err(e) => { return Err(e); },
    };
    let small = compress_image(&img, Some(1536), Some(1536), 85);
    proof {
        lemma_target_dims_in_range(img.width, img.height, 1536, 1536);
        assert(1 <= small.width <= 65535 && 1 <= small.height <= 65535);
    }
    let jpeg = match encode_jpeg(&small, 85) {
        Ok(b) => b,
        Err(e) => { return Err(e); },
    };
    let b64 = base64_encode(jpeg.as_slice());
    Ok((b64, "image/jpeg".to_owned()))
}

} // verus!
