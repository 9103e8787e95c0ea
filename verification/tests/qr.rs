use zapive::qr::qr_image;

#[test]
fn pairing_codes_draw_with_a_white_border() {
    let (side, rgba) = qr_image("2@abc,def,ghi");
    assert!(side >= 29);
    assert_eq!(rgba.len(), side * side * 4);
    // The quiet zone is white and opaque.
    for i in 0..4 * side {
        assert_eq!(&rgba[i * 4..i * 4 + 4], &[255, 255, 255, 255]);
    }
    // The top-left finder pattern starts with a dark module.
    let at = (4 * side + 4) * 4;
    assert_eq!(&rgba[at..at + 4], &[0, 0, 0, 255]);
}

#[test]
fn text_too_long_for_a_code_draws_one_clear_pixel() {
    let long = "x".repeat(5000);
    assert_eq!(qr_image(&long), (1, vec![0, 0, 0, 0]));
}
