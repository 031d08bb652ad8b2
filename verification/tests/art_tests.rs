use ship_alive::art::{crop_and_square, process_art, remove_background, Image, OUT_SIZE};

const M: [u8; 4] = [255, 0, 255, 255];
const R: [u8; 4] = [200, 10, 10, 255];
const CLEAR: [u8; 4] = [0, 0, 0, 0];

fn image(w: u32, h: u32, px: &[[u8; 4]]) -> Image {
    Image { width: w, height: h, data: px.iter().flat_map(|p| p.iter().copied()).collect() }
}

fn px(img: &Image, x: u32, y: u32) -> [u8; 4] {
    let i = 4 * (y * img.width + x) as usize;
    [img.data[i], img.data[i + 1], img.data[i + 2], img.data[i + 3]]
}

#[test]
fn background_flood_keeps_enclosed_key() {
    // A red ring with a magenta hole in the middle, on magenta.
    let raw = image(5, 5, &[
        M, M, M, M, M,
        M, R, R, R, M,
        M, R, M, R, M,
        M, R, R, R, M,
        M, M, M, M, M,
    ]);
    let out = remove_background(&raw);
    assert_eq!(px(&out, 0, 0), CLEAR);
    assert_eq!(px(&out, 4, 2), CLEAR);
    assert_eq!(px(&out, 1, 1), R);
    assert_eq!(px(&out, 2, 2), M, "the enclosed key pixel survives");
}

#[test]
fn near_key_colours_count_as_background() {
    let near = [240, 40, 230, 255];
    let far = [150, 0, 150, 255];
    let raw = image(2, 1, &[near, far]);
    let out = remove_background(&raw);
    assert_eq!(px(&out, 0, 0), CLEAR);
    assert_eq!(px(&out, 1, 0), far);
}

#[test]
fn crop_centres_content_in_a_square() {
    let raw = image(4, 3, &[
        CLEAR, CLEAR, CLEAR, CLEAR,
        CLEAR, R,     R,     CLEAR,
        CLEAR, CLEAR, CLEAR, CLEAR,
    ]);
    let sq = crop_and_square(&raw);
    assert_eq!((sq.width, sq.height), (2, 2));
    // Content 2x1 padded vertically: offset (0, 0) since (2 - 1) / 2 == 0.
    assert_eq!(px(&sq, 0, 0), R);
    assert_eq!(px(&sq, 1, 0), R);
    assert_eq!(px(&sq, 0, 1), CLEAR);
}

#[test]
fn blank_image_is_returned_unchanged() {
    let raw = image(2, 2, &[CLEAR, CLEAR, CLEAR, CLEAR]);
    assert_eq!(crop_and_square(&raw), raw);
}

#[test]
fn pipeline_outputs_sprite_size() {
    let raw = image(3, 3, &[M, M, M, M, R, M, M, M, M]);
    let out = process_art(&raw);
    assert_eq!((out.width, out.height), (OUT_SIZE, OUT_SIZE));
    assert_eq!(out.data.len(), (4 * OUT_SIZE * OUT_SIZE) as usize);
    // A single opaque red pixel scaled up stays red in the middle.
    let mid = px(&out, OUT_SIZE / 2, OUT_SIZE / 2);
    assert!(mid[0] > 150 && mid[3] > 200, "got {mid:?}");
}
