use shared_board::pixels::{half_image, resize_image, RgbaImage};

fn image(width: u32, height: u32, value: impl Fn(u32, u32, u32) -> u8) -> RgbaImage {
    let mut pixels = Vec::new();
    for y in 0..height {
        for x in 0..width {
            for c in 0..4 {
                pixels.push(value(x, y, c));
            }
        }
    }
    RgbaImage { width, height, pixels }
}

#[test]
fn halving_takes_the_mean_of_four_pixels() {
    let img = image(2, 2, |x, y, c| (10 * x + 100 * y + c) as u8);
    assert!(img.is_whole());
    let half = half_image(&img);
    // the four pixels hold 0, 10, 100 and 110 in the first channel
    assert_eq!(half, RgbaImage { width: 1, height: 1, pixels: vec![55, 56, 57, 58] });
}

#[test]
fn halving_rounds_down_and_drops_the_odd_edge() {
    let img = image(5, 3, |x, y, c| if c == 0 { (x + 5 * y) as u8 } else { 255 });
    let half = half_image(&img);
    assert_eq!(half.width, 2);
    assert_eq!(half.height, 1);
    // pixels 0, 1, 5, 6 and pixels 2, 3, 7, 8
    assert_eq!(half.pixels, vec![3, 255, 255, 255, 5, 255, 255, 255]);
    let one = image(2, 2, |x, y, _| if x == 0 && y == 0 { 3 } else { 0 });
    assert_eq!(half_image(&one).pixels, vec![0, 0, 0, 0]);
    let thin = image(1, 7, |_, _, _| 9);
    assert_eq!(half_image(&thin), RgbaImage { width: 0, height: 3, pixels: vec![] });
}

#[test]
fn resizing_halves_until_the_image_fits() {
    let img = image(1000, 600, |x, y, c| ((x / 8 + y / 8 + c) % 251) as u8);
    let small = resize_image(img.clone(), 256);
    assert_eq!((small.width, small.height), (250, 150));
    assert!(small.is_whole());
    assert_eq!(small, half_image(&half_image(&img)));
    let fits = image(256, 10, |_, _, _| 1);
    assert_eq!(resize_image(fits.clone(), 256), fits);
}

#[test]
fn image_with_missing_bytes_is_not_whole() {
    let mut img = image(3, 3, |_, _, _| 0);
    img.pixels.pop();
    assert!(!img.is_whole());
    assert!(RgbaImage { width: 0, height: 9, pixels: vec![] }.is_whole());
    assert!(!RgbaImage { width: u32::MAX, height: u32::MAX, pixels: vec![] }.is_whole());
}
