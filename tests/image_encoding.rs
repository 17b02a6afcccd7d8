use raytracer::{encode_ppm, pixel_position, Rgb};

fn px(r: u8, g: u8, b: u8) -> Rgb {
    Rgb { r, g, b }
}

#[test]
fn header_then_one_line_per_pixel() {
    let pixels = vec![px(255, 0, 7), px(10, 128, 99)];
    let text = encode_ppm(2, 1, &pixels);
    assert_eq!(text, "P3\n2 1\n255\n255 0 7\n10 128 99\n");
}

#[test]
fn header_dimensions_are_decimal() {
    let pixels = vec![px(0, 0, 0); 400 * 225];
    let text = encode_ppm(400, 225, &pixels);
    assert!(text.starts_with("P3\n400 225\n255\n"));
    let body = &text["P3\n400 225\n255\n".len()..];
    assert_eq!(body.lines().count(), 400 * 225);
    assert!(body.lines().all(|l| l == "0 0 0"));
}

#[test]
fn empty_image_is_header_only() {
    let text = encode_ppm(0, 0, &Vec::new());
    assert_eq!(text, "P3\n0 0\n255\n");
}

#[test]
fn channel_extremes() {
    let text = encode_ppm(1, 1, &vec![px(0, 9, 255)]);
    assert_eq!(text, "P3\n1 1\n255\n0 9 255\n");
}

#[test]
fn line_count_matches_dimensions() {
    let w: u32 = 7;
    let h: u32 = 3;
    let pixels: Vec<Rgb> = (0..w * h).map(|k| px(k as u8, 100, 200)).collect();
    let text = encode_ppm(w, h, &pixels);
    let lines: Vec<&str> = text.lines().collect();
    assert_eq!(lines.len(), 3 + (w * h) as usize);
    assert_eq!(lines[0], "P3");
    assert_eq!(lines[1], "7 3");
    assert_eq!(lines[2], "255");
    assert_eq!(lines[3], "0 100 200");
    assert_eq!(lines[3 + 20], "20 100 200");
}

#[test]
fn first_task_is_top_left() {
    assert_eq!(pixel_position(0, 4, 3), (0, 2));
}

#[test]
fn tasks_go_row_by_row() {
    assert_eq!(pixel_position(3, 4, 3), (3, 2));
    assert_eq!(pixel_position(4, 4, 3), (0, 1));
    assert_eq!(pixel_position(5, 4, 3), (1, 1));
}

#[test]
fn last_task_is_bottom_right() {
    assert_eq!(pixel_position(11, 4, 3), (3, 0));
}

#[test]
fn every_position_is_taken_once() {
    let (w, h) = (5u32, 4u32);
    let mut seen = vec![false; (w * h) as usize];
    for pos in 0..w * h {
        let (i, j) = pixel_position(pos, w, h);
        assert!(i < w && j < h);
        let slot = ((h - 1 - j) * w + i) as usize;
        assert_eq!(slot, pos as usize);
        assert!(!seen[slot]);
        seen[slot] = true;
    }
    assert!(seen.iter().all(|s| *s));
}
