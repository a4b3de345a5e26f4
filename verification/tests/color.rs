use ferrocad::Color;

#[test]
fn opaque_rgb_is_hex_without_alpha() {
    assert_eq!(Color::rgb(200, 40, 40).displaycolor(), "#C82828");
}

#[test]
fn translucent_rgba_includes_alpha() {
    assert_eq!(Color::rgba(200, 40, 40, 128).displaycolor(), "#C8282880");
}

#[test]
fn rgb_is_fully_opaque() {
    assert_eq!(Color::rgb(1, 2, 3), Color::rgba(1, 2, 3, 255));
    assert_eq!(Color::rgb(1, 2, 3).a, 255);
}

#[test]
fn hex_digits_cover_both_ends_of_a_byte() {
    assert_eq!(Color::rgb(0, 15, 255).displaycolor(), "#000FFF");
    assert_eq!(Color::rgba(0, 0, 0, 0).displaycolor(), "#00000000");
    assert_eq!(Color::rgba(171, 205, 239, 254).displaycolor(), "#ABCDEFFE");
}

#[test]
fn different_colors_display_differently() {
    assert_ne!(Color::rgb(1, 0, 0).displaycolor(), Color::rgb(0, 1, 0).displaycolor());
    assert_ne!(Color::rgba(9, 9, 9, 255).displaycolor(), Color::rgba(9, 9, 9, 254).displaycolor());
}
