use emmm_core::encoder::{
    compress_image, judge, midpoint, passable_size, scale_ceiling, scaled, CompressError, Encoded,
    FULL_SCALE, MIN_SCALE,
};
use std::io::Cursor;

fn noisy_png(w: u32, h: u32) -> Vec<u8> {
    let mut seed: u32 = 12345;
    let img = image::RgbImage::from_fn(w, h, |_, _| {
        seed = seed.wrapping_mul(1103515245).wrapping_add(12345);
        let b = seed.to_le_bytes();
        image::Rgb([b[1], b[2], b[3]])
    });
    let mut out = Cursor::new(Vec::new());
    image::DynamicImage::ImageRgb8(img).write_to(&mut out, image::ImageFormat::Png).unwrap();
    out.into_inner()
}

fn allow(list: &[&str]) -> Vec<String> {
    list.iter().map(|s| s.to_string()).collect()
}

#[test]
fn ceilings() {
    assert_eq!(scale_ceiling(None, 1000), 10000);
    assert_eq!(scale_ceiling(Some(500), 1000), 5000);
    assert_eq!(scale_ceiling(Some(2000), 1000), 10000);
    assert_eq!(scale_ceiling(Some(333), 1000), 3330);
    assert_eq!(scale_ceiling(Some(10), 0), 10000);
}

#[test]
fn scaled_sides() {
    assert_eq!(scaled(1000, 5500), 550);
    assert_eq!(scaled(999, 5500), 549);
    assert_eq!(scaled(1000, FULL_SCALE), 1000);
    assert_eq!(scaled(3, 1000), 1);
    assert_eq!(scaled(1999, 5000), 1000);
    assert_eq!(scaled(1001, 5000), 501);
    assert_eq!(scaled(1003, 3333), 334);
}

#[test]
fn passable_sizes() {
    assert_eq!(passable_size(100_000), 90_000);
    assert_eq!(passable_size(15), 13);
    assert_eq!(passable_size(0), 0);
    assert_eq!(passable_size(usize::MAX), usize::MAX / 10 * 9 + 4);
}

#[test]
fn search_rounds_converge() {
    // A 500 KB image with a 100 KB budget: sizes shrink with the scale.
    let max = 100_000;
    let size_at = |scale: u32| -> usize { 500_000 * (scale as usize) * (scale as usize) / 100_000_000 };
    let (mut low, mut high) = (MIN_SCALE, FULL_SCALE);
    let mut best = None;
    let mut tried = Vec::new();
    for _ in 0..6 {
        let guess = midpoint(low, high);
        let size = size_at(guess);
        tried.push(guess);
        let r = judge(low, high, size, max);
        low = r.low;
        high = r.high;
        if r.keep {
            best = Some(size);
        }
        if r.stop {
            break;
        }
    }
    assert_eq!(tried, vec![5500, 3250, 4375]);
    assert_eq!(best, Some(95_703));
    assert!(best.unwrap() < max);
}

#[test]
fn judge_over_budget_lowers_high() {
    let r = judge(1000, 10000, 100, 100);
    assert!(!r.keep && !r.stop);
    assert_eq!((r.low, r.high), (1000, 5500));
    let r = judge(1000, 10000, 50, 100);
    assert!(r.keep && !r.stop);
    assert_eq!((r.low, r.high), (5500, 10000));
    let r = judge(1000, 10000, 91, 100);
    assert!(r.keep && r.stop);
}

#[test]
fn allowed_small_image_is_returned_as_is() {
    let png = noisy_png(16, 16);
    let r = compress_image(&png, png.len() + 1, None, &allow(&["image/png"]));
    match r {
        Ok(e) => {
            assert_eq!(e.data, png);
            assert_eq!(e.mime, "image/png");
            assert_eq!(e.extension, "png");
        }
        Err(_) => panic!("expected the source bytes"),
    }
}

#[test]
fn other_types_are_reencoded() {
    let png = noisy_png(16, 16);
    let r = compress_image(&png, 1_000_000, None, &allow(&["image/jpeg"]));
    match r {
        Ok(e) => {
            assert_eq!(e.mime, "image/jpeg");
            assert_eq!(e.extension, "jpg");
            assert_eq!(&e.data[..2], &[0xFF, 0xD8]);
            assert!(e.data.len() < 1_000_000);
        }
        Err(_) => panic!("expected a jpeg"),
    }
}

#[test]
fn search_meets_the_budget() {
    let png = noisy_png(256, 256);
    let full = compress_image(&png, usize::MAX, None, &allow(&[])).ok().unwrap();
    let max = full.data.len() / 2;
    match compress_image(&png, max, None, &allow(&["image/png"])) {
        Ok(e) => {
            assert!(e.data.len() < max);
            assert_eq!(e.mime, "image/jpeg");
        }
        Err(CompressError::Infeasible) => {}
        Err(_) => panic!("unexpected error"),
    }
}

#[test]
fn unreachable_budget_is_infeasible() {
    let png = noisy_png(64, 64);
    assert!(matches!(compress_image(&png, 10, None, &allow(&["image/png"])), Err(CompressError::Infeasible)));
}

#[test]
fn width_limit_shrinks() {
    let png = noisy_png(200, 100);
    let e = compress_image(&png, 1_000_000, Some(50), &allow(&[])).ok().unwrap();
    let img = image::load_from_memory(&e.data).unwrap();
    assert_eq!(img.width(), 50);
    assert_eq!(img.height(), 25);
}

#[test]
fn garbage_is_a_decode_error() {
    let bytes = vec![1u8, 2, 3, 4, 5];
    assert!(matches!(compress_image(&bytes, 100, None, &allow(&[])), Err(CompressError::Decode(_))));
}

#[test]
fn framing() {
    let e = Encoded { mime: "image/png".to_string(), extension: "png".to_string(), data: vec![7, 8, 9] };
    let mut want = vec![9u8, 0, 0, 0];
    want.extend_from_slice(b"image/png");
    want.extend_from_slice(&[3, 0, 0, 0]);
    want.extend_from_slice(b"png");
    want.extend_from_slice(&[7, 8, 9]);
    assert_eq!(e.frame(), want);
}
