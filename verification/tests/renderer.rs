use smart_road::renderer::{strip_background, RgbaBuffer, CENTER_X, CENTER_Y, LANE_W, ROAD_W, WINDOW_H, WINDOW_W};

const BG: [u8; 4] = [250, 250, 250, 255];
const CAR: [u8; 4] = [200, 20, 20, 255];

fn image(rows: &[&str]) -> RgbaBuffer {
    let height = rows.len() as u32;
    let width = rows[0].len() as u32;
    let mut pixels = Vec::new();
    for row in rows {
        for ch in row.chars() {
            pixels.extend_from_slice(match ch {
                '.' => &BG,
                '~' => &[230, 235, 240, 255], // within tolerance of the background
                _ => &CAR,
            });
        }
    }
    RgbaBuffer { width, height, pixels }
}

fn cleared(img: &RgbaBuffer, x: u32, y: u32) -> bool {
    let i = ((y * img.width + x) * 4) as usize;
    img.pixels[i..i + 4] == [0, 0, 0, 0]
}

#[test]
fn layout_constants() {
    assert_eq!(CENTER_X * 2, WINDOW_W as i32);
    assert_eq!(CENTER_Y * 2, WINDOW_H as i32);
    assert_eq!(ROAD_W, 3 * LANE_W);
}

#[test]
fn strip_background_clears_connected_background_only() {
    let mut img = image(&[
        ".....",
        ".###.",
        ".#.#.",
        ".###.",
        "....~",
    ]);
    let before = img.pixels.clone();
    strip_background(&mut img);
    assert_eq!(img.pixels.len(), before.len());
    for y in 0..5 {
        for x in 0..5 {
            let enclosed = x == 2 && y == 2;
            let body = (1..=3).contains(&x) && (1..=3).contains(&y) && !enclosed;
            let i = ((y * 5 + x) * 4) as usize;
            if body || enclosed {
                assert_eq!(img.pixels[i..i + 4], before[i..i + 4], "({x},{y}) touched");
            } else {
                assert!(cleared(&img, x, y), "({x},{y}) kept");
            }
        }
    }
}

#[test]
fn strip_background_stops_at_non_background_corner() {
    // the top-left corner sets the background colour; a body pixel in
    // another corner is kept and does not spread the fill
    let mut img = image(&[
        "..#",
        ".##",
        "###",
    ]);
    strip_background(&mut img);
    assert!(cleared(&img, 0, 0) && cleared(&img, 1, 0) && cleared(&img, 0, 1));
    assert!(!cleared(&img, 2, 0) && !cleared(&img, 1, 1) && !cleared(&img, 2, 2));
}

#[test]
fn strip_background_single_pixel() {
    let mut img = image(&["."]);
    strip_background(&mut img);
    assert!(cleared(&img, 0, 0));
}

#[test]
fn strip_background_reaches_from_every_corner() {
    // a wall of body pixels splits the image; the right half is reached
    // from the right-hand corners
    let mut img = image(&[
        "..#..",
        "..#..",
        "..#..",
    ]);
    strip_background(&mut img);
    for y in 0..3 {
        for x in [0, 1, 3, 4] {
            assert!(cleared(&img, x, y), "({x},{y}) kept");
        }
        assert!(!cleared(&img, 2, y));
    }
}
