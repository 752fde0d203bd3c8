use synclinal::blend::composite_over;

#[test]
fn opaque_overlay_replaces_and_transparent_keeps() {
    // Background 2 x 1: two grey pixels. Overlay 1 x 1: opaque red.
    let mut bg = vec![100, 100, 100, 255, 100, 100, 100, 255];
    let ov = vec![255, 0, 0, 255];
    composite_over(&mut bg, 2, 1, &ov, 1, 1);
    assert_eq!(bg, vec![255, 0, 0, 255, 100, 100, 100, 255]);
}

#[test]
fn half_transparent_overlay_blends() {
    // Premultiplied half-transparent white over black.
    let mut bg = vec![0, 0, 0, 255];
    let ov = vec![128, 128, 128, 128];
    composite_over(&mut bg, 1, 1, &ov, 1, 1);
    // 128 + 0 * 127 / 255 = 128; alpha 128 + 255 * 127 / 255 = 255.
    assert_eq!(bg, vec![128, 128, 128, 255]);
}

#[test]
fn blend_saturates_and_skips_clear_pixels() {
    let mut bg = vec![200, 10, 250, 200, 1, 2, 3, 4];
    let ov = vec![100, 100, 100, 100, 0, 0, 0, 0];
    composite_over(&mut bg, 2, 1, &ov, 2, 1);
    // 100 + 200 * 155 / 255 = 221; 100 + 10 * 155 / 255 = 106;
    // 100 + 250 * 155 / 255 = 251; 100 + 200 * 155 / 255 = 221.
    assert_eq!(bg, vec![221, 106, 251, 221, 1, 2, 3, 4]);
}

#[test]
fn overlay_larger_than_background_is_clipped() {
    let mut bg = vec![0, 0, 0, 0];
    let ov = vec![9, 9, 9, 255, 7, 7, 7, 255, 5, 5, 5, 255, 3, 3, 3, 255];
    composite_over(&mut bg, 1, 1, &ov, 2, 2);
    assert_eq!(bg, vec![9, 9, 9, 255]);
}

#[test]
fn overlay_rows_follow_their_own_width() {
    // Background 2 x 2, overlay 1 x 2: only the left column changes.
    let mut bg = vec![0; 16];
    let ov = vec![1, 1, 1, 255, 2, 2, 2, 255];
    composite_over(&mut bg, 2, 2, &ov, 1, 2);
    assert_eq!(bg, vec![1, 1, 1, 255, 0, 0, 0, 0, 2, 2, 2, 255, 0, 0, 0, 0]);
}
