use macrdp::capture::DisplayUpdate;
use macrdp::cursor::{
    clamp_pointer_size, fitted_sides, read_cursor_bitmap, resample_rgba, resize_cursor,
    scale_cursor, shape_hash, CursorState,
};
use macrdp::double::Double;

/// A side of the scaled cursor, as the caller computes it from the factor.
fn side(n: u16, factor: f64) -> i64 {
    (f64::from(n) * factor).round() as i64
}

#[test]
fn scale_one_is_passthrough() {
    let data = vec![1, 2, 3, 4, 5, 6, 7, 8];
    let (out, w, h, hx, hy) =
        scale_cursor(data.clone(), 2, 1, 1, 0, side(2, 1.0), side(1, 1.0));
    assert_eq!((w, h, hx, hy), (2, 1, 1, 0));
    assert_eq!(out, data);
}

#[test]
fn half_scale_halves_dims_and_hotspot() {
    let data = vec![0u8; 32 * 32 * 4]
        .chunks(4)
        .flat_map(|_| [255, 0, 0, 255])
        .collect::<Vec<_>>();
    let (out, w, h, hx, hy) = scale_cursor(data, 32, 32, 16, 16, side(32, 0.5), side(32, 0.5));
    assert_eq!((w, h), (16, 16));
    assert_eq!((hx, hy), (8, 8));
    assert!(out.chunks_exact(4).all(|p| p == [255, 0, 0, 255]));
}

#[test]
fn clamp_leaves_normal_cursors_untouched() {
    let data = vec![7u8; 64 * 64 * 4];
    let (out, w, h, hx, hy) = clamp_pointer_size(data.clone(), 64, 64, 10, 12);
    assert_eq!((w, h, hx, hy), (64, 64, 10, 12));
    assert_eq!(out, data);
}

#[test]
fn clamp_shrinks_oversized_cursor_under_u16_mask_limit() {
    let data = vec![255u8; 128 * 128 * 4];
    let (out, w, h, hx, hy) = clamp_pointer_size(data, 128, 128, 64, 64);
    assert!(u32::from(w) * u32::from(h) * 4 <= u32::from(u16::MAX));
    assert_eq!(out.len(), usize::from(w) * usize::from(h) * 4);
    assert!(hx < w && hy < h);
    assert!((i32::from(hx) - i32::from(w) / 2).abs() <= 1);
    assert!((i32::from(hy) - i32::from(h) / 2).abs() <= 1);
}

#[test]
fn clamp_handles_worst_case_and_extreme_aspect() {
    for (sw, sh) in [(256u16, 256u16), (256, 64), (64, 256)] {
        let data = vec![1u8; usize::from(sw) * usize::from(sh) * 4];
        let (out, w, h, _, _) = clamp_pointer_size(data, sw, sh, 0, 0);
        assert!(
            u32::from(w) * u32::from(h) * 4 <= u32::from(u16::MAX),
            "{sw}x{sh} -> {w}x{h} still over the u16 mask limit"
        );
        assert!(w >= 1 && h >= 1);
        assert_eq!(out.len(), usize::from(w) * usize::from(h) * 4);
    }
}

#[test]
fn downscale_averages_alpha_without_colour_fringe() {
    let src = [255, 0, 0, 255, 0, 0, 0, 0];
    let out = resample_rgba(&src, 2, 1, 1, 1);
    assert_eq!(out[0], 255, "red preserved");
    assert_eq!(out[1], 0);
    assert_eq!(out[2], 0);
    assert_eq!(out[3], 128, "alpha area-averaged (255+0)/2 rounded");
}

#[test]
fn one_colour_stays_one_colour() {
    let src: Vec<u8> = [10u8, 20, 30, 200].repeat(9);
    let out = resample_rgba(&src, 3, 3, 2, 2);
    assert_eq!(out, [10u8, 20, 30, 200].repeat(4));
    for (sw, sh, dw, dh) in [(7, 5, 3, 4), (3, 4, 7, 5), (13, 1, 5, 3), (1, 1, 9, 11)] {
        for pixel in [[1u8, 2, 255, 1], [254, 127, 0, 3], [77, 78, 79, 255]] {
            let src = pixel.repeat(usize::from(sw * sh));
            let out = resample_rgba(&src, sw, sh, dw, dh);
            assert_eq!(out, pixel.repeat(usize::from(dw * dh)));
        }
    }
}

#[test]
fn transparent_pixels_lend_no_colour() {
    let src = [0, 0, 255, 0, 100, 50, 0, 255];
    let out = resample_rgba(&src, 2, 1, 1, 1);
    assert_eq!(&out[0..3], &[100, 50, 0]);
}

#[test]
fn resizing_moves_the_hotspot_along() {
    let (out, w, h, hx, hy) = resize_cursor(vec![9; 4 * 4 * 4], 4, 4, 3, 1, 2, 2);
    assert_eq!((w, h), (2, 2));
    assert_eq!(out.len(), 16);
    assert!(hx < 2 && hy < 2);
}

#[test]
fn bitmaps_are_read_row_by_row() {
    // Two rows of one pixel, with padding after each.
    let bitmap = [1, 2, 3, 4, 0, 0, 5, 6, 7, 8, 0, 0];
    let (data, w, h, hx, hy) = read_cursor_bitmap(&bitmap, 6, 1, 2, 0, 1).unwrap();
    assert_eq!((w, h, hx, hy), (1, 2, 0, 1));
    assert_eq!(data, vec![1, 2, 3, 4, 5, 6, 7, 8]);
    assert!(read_cursor_bitmap(&bitmap, 6, 0, 2, 0, 0).is_none());
}

#[test]
fn sides_and_hot_spots_make_another_shape() {
    let h = shape_hash(&(vec![9u8; 8], 1, 2, 0, 0));
    assert_eq!(h, shape_hash(&(vec![9u8; 8], 1, 2, 0, 0)));
    assert_ne!(h, shape_hash(&(vec![9u8; 8], 2, 1, 0, 0)));
    assert_ne!(h, shape_hash(&(vec![9u8; 8], 1, 2, 0, 1)));
    assert_ne!(h, shape_hash(&(vec![7u8; 8], 1, 2, 0, 0)));
}

#[test]
fn the_same_shape_and_place_are_told_once() {
    let mut s = CursorState::new();
    let shape = || Some((vec![9u8; 4], 1, 1, 0, 0));
    assert!(s.poll_shape(shape(), 1, 1).is_some());
    assert!(s.poll_shape(shape(), 1, 1).is_none());
    assert!(s.poll_shape(Some((vec![8u8; 4], 1, 1, 0, 0)), 1, 1).is_some());
    assert!(s.poll_shape(shape(), 1, 1).is_some());
    assert!(s.poll_shape(None, 1, 1).is_none());
    assert!(matches!(s.poll_position(3, 4), Some(DisplayUpdate::PointerPosition(3, 4))));
    assert!(s.poll_position(3, 4).is_none());
}

/// The mean over the covered area, computed with the machine's own numbers.
fn area_mean(src: &[u8], sw: usize, sh: usize, dw: usize, dh: usize) -> Vec<u8> {
    let mut out = Vec::new();
    let fx = sw as f64 / dw as f64;
    let fy = sh as f64 / dh as f64;
    for dy in 0..dh {
        let (y0, y1) = (dy as f64 * fy, dy as f64 * fy + fy);
        for dx in 0..dw {
            let (x0, x1) = (dx as f64 * fx, dx as f64 * fx + fx);
            let mut sums = [0.0f64; 4];
            let mut area = 0.0;
            for sy in y0.floor() as usize..(y1.ceil() as usize).min(sh) {
                let cy = (y1.min((sy + 1) as f64) - y0.max(sy as f64)).max(0.0);
                for sx in x0.floor() as usize..(x1.ceil() as usize).min(sw) {
                    let cx = (x1.min((sx + 1) as f64) - x0.max(sx as f64)).max(0.0);
                    let cov = cx * cy;
                    let at = 4 * (sy * sw + sx);
                    let a = f64::from(src[at + 3]) / 255.0;
                    for c in 0..3 {
                        sums[c] += f64::from(src[at + c]) * a * cov;
                    }
                    sums[3] += a * cov;
                    area += cov;
                }
            }
            for c in 0..3 {
                let mean = if sums[3] > 0.0 { sums[c] / sums[3] } else { 0.0 };
                out.push(mean.round().clamp(0.0, 255.0) as u8);
            }
            let alpha = if area > 0.0 { sums[3] / area } else { 0.0 };
            out.push((alpha * 255.0).round().clamp(0.0, 255.0) as u8);
        }
    }
    out
}

struct Dice(u64);

impl Dice {
    fn below(&mut self, n: u64) -> u64 {
        self.0 = self.0.wrapping_mul(6364136223846793005).wrapping_add(1442695040888963407);
        (self.0 >> 33) % n
    }
}

#[test]
fn scaling_agrees_with_the_machine_to_the_last_bit() {
    let mut dice = Dice(7);
    for round in 0..400 {
        let (sw, sh) = (1 + dice.below(24) as u16, 1 + dice.below(24) as u16);
        let (dw, dh) = (1 + dice.below(24) as u16, 1 + dice.below(24) as u16);
        let levels = if round % 2 == 0 { 256 } else { 3 };
        let src: Vec<u8> = (0..4 * usize::from(sw) * usize::from(sh))
            .map(|i| if i % 4 == 3 && levels == 3 { 240 } else { dice.below(levels) as u8 })
            .collect();
        let want = area_mean(&src, sw.into(), sh.into(), dw.into(), dh.into());
        assert_eq!(resample_rgba(&src, sw, sh, dw, dh), want, "{sw}x{sh} to {dw}x{dh}");
    }
}

#[test]
fn halfway_means_go_where_the_sums_fall() {
    // The mean red is one and a half; the quotient of the sums lies just below.
    let src = [1, 0, 0, 240, 2, 0, 0, 240];
    assert_eq!(resample_rgba(&src, 2, 1, 1, 1), vec![1, 0, 0, 240]);
    let opaque = [1, 0, 0, 255, 2, 0, 0, 255];
    assert_eq!(resample_rgba(&opaque, 2, 1, 1, 1), vec![2, 0, 0, 255]);
}

fn machine_sides(w: u16, h: u16) -> (u16, u16) {
    let shrink = (16383.0 / (f64::from(w) * f64::from(h))).sqrt();
    let nh = ((f64::from(h) * shrink).floor() as u32).clamp(1, 16383);
    let nw = ((f64::from(w) * shrink).floor() as u32).clamp(1, 16383 / nh);
    (nw as u16, nh as u16)
}

#[test]
fn oversized_pointers_shrink_as_the_machine_computes() {
    assert_eq!(fitted_sides(2667, 36421), (34, 472));
    assert_eq!(fitted_sides(31623, 3569), (380, 42));
    assert_eq!(fitted_sides(128, 128), (127, 127));
    let mut dice = Dice(11);
    for _ in 0..20_000 {
        let (w, h) = (1 + dice.below(65535) as u16, 1 + dice.below(65535) as u16);
        if u32::from(w) * u32::from(h) > 16383 {
            assert_eq!(fitted_sides(w, h), machine_sides(w, h), "{w}x{h}");
        }
    }
    for w in 65..=256u16 {
        for h in 65..=256u16 {
            if u32::from(w) * u32::from(h) > 16383 {
                assert_eq!(fitted_sides(w, h), machine_sides(w, h), "{w}x{h}");
            }
        }
    }
}

#[test]
fn double_precision_rounds_to_even() {
    let int = |n: u64| Double::from_int(n);
    let big = 1u64 << 53;
    // One more than 2^53 lies halfway between two numbers; the even one is taken.
    assert_eq!(int(big).plus(int(1)), int(big));
    assert_eq!(int(big).plus(int(2)), int(big + 2));
    assert_eq!(int(big + 2).plus(int(1)), int(big + 4));
    assert_eq!(int(big).excess(int(big + 2)), Double::zero());
    assert_eq!(int(big + 2).excess(int(2)), int(big));
    assert_eq!(int(1).over(int(4)).root(), int(1).over(int(2)));
    assert_eq!(int(7).over(int(2)).floor_upto(100), 3);
    assert_eq!(int(7).over(int(2)).ceil_upto(100), 4);
    assert_eq!(int(7).over(int(2)).round_to_byte(), 4);
    assert_eq!(int(300).round_to_byte(), 255);
    assert!(int(2).less(int(3)) && !int(3).less(int(3)) && Double::zero().less(int(1)));
}
