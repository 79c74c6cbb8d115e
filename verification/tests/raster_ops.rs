use asset_pipeline::raster::{
    compress_for_ai, compress_image, decode_rgba, encode_jpeg, encode_png,
    remove_background_color_key, target_dims, thumbnail_png, thumbnail_raster, Raster,
};
use asset_pipeline::LibError;

fn solid_raster(w: u32, h: u32, rgba: [u8; 4]) -> Raster {
    let mut pixels = Vec::new();
    for _ in 0..(w * h) {
        pixels.extend_from_slice(&rgba);
    }
    Raster { width: w, height: h, pixels }
}

#[test]
fn matte_with_zero_tolerance() {
    // pixel 0 equals the target exactly; pixel 1 differs by one on green;
    // pixel 2 has a pre-existing alpha and differs
    let img = Raster {
        width: 3,
        height: 1,
        pixels: vec![10, 20, 30, 255, 10, 21, 30, 255, 99, 20, 30, 77],
    };
    let out = remove_background_color_key(&img, [10, 20, 30], 0);
    assert_eq!(out.width, 3);
    assert_eq!(out.height, 1);
    assert_eq!(&out.pixels[0..4], &[0, 0, 0, 0]);
    assert_eq!(&out.pixels[4..8], &[10, 21, 30, 255]);
    assert_eq!(&out.pixels[8..12], &[99, 20, 30, 77]);
}

#[test]
fn matte_tolerance_bounds() {
    let img = Raster {
        width: 2,
        height: 1,
        pixels: vec![15, 20, 30, 9, 16, 20, 30, 9],
    };
    // tolerance 5: first pixel differs by 5 on red (matched), second by 6 (kept)
    let out = remove_background_color_key(&img, [10, 20, 30], 5);
    assert_eq!(&out.pixels[0..4], &[0, 0, 0, 0]);
    assert_eq!(&out.pixels[4..8], &[16, 20, 30, 9]);
}

#[test]
fn shrink_only_dimensions() {
    assert_eq!(target_dims(1000, 500, 100, 100), (100, 50));
    assert_eq!(target_dims(500, 1000, 100, 100), (50, 100));
    assert_eq!(target_dims(50, 40, 100, 100), (50, 40));
    assert_eq!(target_dims(200, 100, 300, 50), (100, 50));
    assert_eq!(target_dims(10000, 1, 100, 100), (100, 1));
}

#[test]
fn compress_respects_bounds_and_never_upscales() {
    let img = solid_raster(1000, 500, [1, 2, 3, 255]);
    let out = compress_image(&img, Some(100), Some(100), 80);
    assert_eq!((out.width, out.height), (100, 50));
    let same = compress_image(&img, None, None, 80);
    assert_eq!((same.width, same.height), (1000, 500));
    assert_eq!(same.pixels, img.pixels);
}

#[test]
fn png_encode_decode_round_trip() {
    let img = Raster {
        width: 2,
        height: 2,
        pixels: vec![
            255, 0, 0, 255, 0, 255, 0, 255, 0, 0, 255, 255, 1, 2, 3, 4,
        ],
    };
    let bytes = encode_png(&img).unwrap();
    let back = decode_rgba(&bytes).unwrap();
    assert_eq!(back.width, 2);
    assert_eq!(back.height, 2);
    assert_eq!(back.pixels, img.pixels);
}

#[test]
fn decode_rejects_garbage() {
    match decode_rgba(&[1, 2, 3, 4, 5]) {
        Err(LibError::DecodeFailure) => {},
        _ => panic!("expected a decode failure"),
    }
}

#[test]
fn thumbnail_bounds_longest_edge() {
    let img = solid_raster(512, 256, [9, 9, 9, 255]);
    let t = thumbnail_raster(&img);
    assert_eq!((t.width, t.height), (256, 128));
    let src = encode_png(&solid_raster(300, 600, [1, 1, 1, 255])).unwrap();
    let thumb_bytes = thumbnail_png(&src).unwrap();
    let thumb = decode_rgba(&thumb_bytes).unwrap();
    assert_eq!((thumb.width, thumb.height), (128, 256));
    assert!(thumb.width <= 256 && thumb.height <= 256);
}

#[test]
fn jpeg_and_ai_compression() {
    let img = solid_raster(64, 32, [100, 150, 200, 255]);
    let jpeg = encode_jpeg(&img, 85).unwrap();
    // JPEG magic bytes
    assert_eq!(&jpeg[0..2], &[0xff, 0xd8]);
    let png = encode_png(&img).unwrap();
    let (b64, mime) = compress_for_ai(&png).unwrap();
    assert_eq!(mime, "image/jpeg");
    assert!(!b64.is_empty());
    // the base64 text decodes back to the JPEG the pipeline produced
    assert!(b64.chars().all(|c| c.is_ascii_alphanumeric() || c == '+' || c == '/' || c == '='));
}

#[test]
fn derived_pipelines_fail_only_on_bad_bytes() {
    let garbage = vec![9u8, 9, 9, 9, 9, 9];
    match thumbnail_png(&garbage) {
        Err(LibError::DecodeFailure) => {},
        _ => panic!("expected a decode failure"),
    }
    match compress_for_ai(&garbage) {
        Err(LibError::DecodeFailure) => {},
        _ => panic!("expected a decode failure"),
    }
    // any decodable image succeeds, even a single pixel
    let tiny = encode_png(&solid_raster(1, 1, [5, 5, 5, 255])).unwrap();
    assert!(thumbnail_png(&tiny).is_ok());
    assert!(compress_for_ai(&tiny).is_ok());
}

#[test]
fn encoders_reject_only_out_of_range_dimensions() {
    let empty = Raster { width: 0, height: 3, pixels: Vec::new() };
    assert_eq!(encode_png(&empty), Err(LibError::IoFailure));
    assert_eq!(encode_jpeg(&empty, 80), Err(LibError::IoFailure));
    let one = solid_raster(1, 1, [1, 2, 3, 4]);
    assert!(encode_png(&one).is_ok());
    assert!(encode_jpeg(&one, 80).is_ok());
}
