use image_of_images_creator::color::{LinColor, Rgb8, distance2, mean_color, to_linear, LINEAR_MAX};

fn rgb(r: u8, g: u8, b: u8) -> Rgb8 {
    Rgb8 { r, g, b }
}

#[test]
fn to_linear_extremes() {
    assert_eq!(to_linear(rgb(0, 0, 0)), LinColor { r: 0, g: 0, b: 0 });
    assert_eq!(to_linear(rgb(255, 255, 255)), LinColor { r: 65025, g: 65025, b: 65025 });
    assert_eq!(LINEAR_MAX, 65025);
}

#[test]
fn to_linear_squares_each_channel() {
    assert_eq!(to_linear(rgb(16, 3, 100)), LinColor { r: 256, g: 9, b: 10000 });
}

#[test]
fn distance2_of_equal_colors_is_zero() {
    let c = to_linear(rgb(12, 200, 7));
    assert_eq!(distance2(&c, &c), 0);
}

#[test]
fn distance2_exact_value() {
    let a = LinColor { r: 65025, g: 0, b: 0 };
    let b = LinColor { r: 0, g: 0, b: 0 };
    assert_eq!(distance2(&a, &b), 65025u64 * 65025u64);
    let c = LinColor { r: 3, g: 7, b: 10 };
    let d = LinColor { r: 1, g: 4, b: 14 };
    assert_eq!(distance2(&c, &d), 4 + 9 + 16);
}

#[test]
fn mean_of_uniform_pixels_is_that_color() {
    let mut pixels = Vec::new();
    for _ in 0..37 {
        pixels.push(rgb(10, 20, 30));
    }
    let m = mean_color(&pixels).unwrap();
    assert_eq!(m, LinColor { r: 100, g: 400, b: 900 });
}

#[test]
fn mean_of_two_tone_pixels_is_the_midpoint() {
    let mut pixels = Vec::new();
    for _ in 0..8 {
        pixels.push(rgb(10, 0, 0));
    }
    for _ in 0..8 {
        pixels.push(rgb(20, 0, 0));
    }
    // linear channels 100 and 400: their exact midpoint is 250
    let m = mean_color(&pixels).unwrap();
    assert_eq!(m, LinColor { r: 250, g: 0, b: 0 });
}

#[test]
fn mean_of_two_tone_odd_sum_rounds_up() {
    // linear channels 1 and 4: the midpoint 2.5 rounds up to 3
    let pixels = vec![rgb(1, 0, 0), rgb(2, 0, 0)];
    let m = mean_color(&pixels).unwrap();
    assert_eq!(m, LinColor { r: 3, g: 0, b: 0 });
}

#[test]
fn mean_of_no_pixels_is_none() {
    let pixels: Vec<Rgb8> = Vec::new();
    assert!(mean_color(&pixels).is_none());
}

#[test]
fn mean_stays_in_linear_range() {
    let mut pixels = Vec::new();
    for i in 0..=255u16 {
        pixels.push(rgb(i as u8, 255, 0));
    }
    let m = mean_color(&pixels).unwrap();
    assert!(m.r <= LINEAR_MAX && m.g <= LINEAR_MAX && m.b <= LINEAR_MAX);
    assert_eq!(m.g, 65025);
    assert_eq!(m.b, 0);
}
