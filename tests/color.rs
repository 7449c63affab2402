use mark_rs::error::{Component, Error};
use mark_rs::style::color::Color;
use mark_rs::style::AnsiSequence;

#[test]
fn hsl_primary_colors() {
    assert_eq!(Color::hsl(0, 100, 50).unwrap().to_rgb(), Some((255, 0, 0)));
    assert_eq!(Color::hsl(120, 100, 50).unwrap().to_rgb(), Some((0, 255, 0)));
    assert_eq!(Color::hsl(240, 100, 50).unwrap().to_rgb(), Some((0, 0, 255)));
}

#[test]
fn hsl_white_black_and_mid_tone() {
    assert_eq!(Color::hsl(0, 0, 100).unwrap().to_rgb(), Some((255, 255, 255)));
    assert_eq!(Color::hsl(359, 100, 0).unwrap().to_rgb(), Some((0, 0, 0)));
    assert_eq!(Color::hsl(210, 50, 50).unwrap().to_rgb(), Some((64, 128, 191)));
}

#[test]
fn hsv_conversion_rounds_to_nearest() {
    assert_eq!(Color::hsv(0, 100, 100).unwrap().to_rgb(), Some((255, 0, 0)));
    assert_eq!(Color::hsv(120, 50, 100).unwrap().to_rgb(), Some((128, 255, 128)));
    assert_eq!(Color::hsv(300, 100, 0).unwrap().to_rgb(), Some((0, 0, 0)));
}

#[test]
fn cmyk_conversion_truncates() {
    assert_eq!(Color::cymk(0, 0, 0, 0).unwrap().to_rgb(), Some((255, 255, 255)));
    assert_eq!(Color::cymk(0, 0, 0, 100).unwrap().to_rgb(), Some((0, 0, 0)));
    assert_eq!(Color::cymk(50, 0, 0, 0).unwrap().to_rgb(), Some((127, 255, 255)));
    assert_eq!(Color::cymk(0, 100, 0, 0).unwrap().fg(), "38;2;255;0;255");
    assert_eq!(Color::cymk(0, 0, 100, 0).unwrap().fg(), "38;2;255;255;0");
    assert_eq!(Color::cymk(100, 0, 0, 0).unwrap().fg(), "38;2;0;255;255");
    assert_eq!(Color::cymk(0, 73, 78, 8).unwrap().to_rgb(), Some((234, 63, 51)));
}

#[test]
fn every_valid_component_converts_into_byte_range() {
    for h in (0u16..360).step_by(7) {
        for s in (0u8..=100).step_by(9) {
            for l in (0u8..=100).step_by(11) {
                assert!(Color::hsl(h, s, l).unwrap().to_rgb().is_some());
                assert!(Color::hsv(h, s, l).unwrap().to_rgb().is_some());
            }
        }
    }
}

#[test]
fn out_of_range_components_are_named() {
    assert_eq!(Color::hsl(360, 50, 50), Err(Error::OutOfRange(Component::Hue)));
    assert_eq!(Color::hsl(10, 101, 50), Err(Error::OutOfRange(Component::Saturation)));
    assert_eq!(Color::hsl(10, 50, 101), Err(Error::OutOfRange(Component::Lightness)));
    assert_eq!(Color::hsv(360, 50, 50), Err(Error::OutOfRange(Component::Hue)));
    assert_eq!(Color::hsv(0, 101, 50), Err(Error::OutOfRange(Component::Saturation)));
    assert_eq!(Color::hsv(0, 50, 101), Err(Error::OutOfRange(Component::Value)));
    assert_eq!(Color::cymk(101, 0, 0, 0), Err(Error::OutOfRange(Component::Cyan)));
    assert_eq!(Color::cymk(0, 101, 0, 0), Err(Error::OutOfRange(Component::Yellow)));
    assert_eq!(Color::cymk(0, 0, 101, 0), Err(Error::OutOfRange(Component::Magenta)));
    assert_eq!(Color::cymk(0, 0, 0, 101), Err(Error::OutOfRange(Component::Key)));
}

#[test]
fn hue_just_below_the_bound_is_accepted() {
    assert_eq!(Color::hsl(359, 100, 50).unwrap().to_rgb(), Some((255, 0, 4)));
}

#[test]
fn hex_with_and_without_hash_agree() {
    let a = Color::hex("#f43f5e").unwrap();
    let b = Color::hex("f43f5e").unwrap();
    assert_eq!(a, b);
    assert_eq!(a, Color::rgb(244, 63, 94));
}

#[test]
fn hex_shorthand_expands() {
    assert_eq!(Color::hex("#abc").unwrap(), Color::hex("#aabbcc").unwrap());
    assert_eq!(Color::hex("#abc").unwrap(), Color::rgb(170, 187, 204));
    assert_eq!(Color::hex("abcd").unwrap(), Color::rgb(170, 187, 204));
}

#[test]
fn hex_alpha_is_dropped_and_case_ignored() {
    assert_eq!(Color::hex("#11223344").unwrap(), Color::rgb(17, 34, 51));
    assert_eq!(Color::hex("ABCDEF").unwrap(), Color::rgb(171, 205, 239));
}

#[test]
fn malformed_hex_is_rejected() {
    for s in ["", "#", "#12345", "1234567", "zzzzzz", "##abc", "#abcdefabc", "+abc"] {
        assert_eq!(Color::hex(s), Err(Error::InvalidFormat), "{}", s);
    }
}

#[test]
fn foreground_and_background_fragments() {
    assert_eq!(Color::RED.fg(), "31");
    assert_eq!(Color::RED.bg(), "41");
    assert_eq!(Color::WHITE.fg(), "37");
    assert_eq!(Color::Ansi(200).fg(), "38;5;200");
    assert_eq!(Color::rgb(1, 2, 3).bg(), "48;2;1;2;3");
    assert_eq!(Color::hsl(0, 100, 50).unwrap().fg(), "38;2;255;0;0");
    assert_eq!(Color::BLUE.reset_fg(), "39");
    assert_eq!(Color::BLUE.reset_bg(), "49");
}

#[test]
fn color_fragment_and_palette_conversion() {
    assert_eq!(Color::GREEN.ansi(), "2");
    assert_eq!(Color::GREEN.reset_ansi(), "9");
    assert_eq!(Color::from(7u8), Color::Ansi(7));
    assert_eq!(Color::Ansi(0).ansi(), "8;5;0");
}

#[test]
fn validity_of_directly_built_colors() {
    assert!(Color::HSL { h: 10, s: 10, l: 10 }.is_valid());
    assert!(!Color::HSL { h: 360, s: 10, l: 10 }.is_valid());
    assert!(!Color::CYMK { c: 0, y: 0, m: 0, k: 200 }.is_valid());
    assert!(Color::Ansi(255).is_valid());
}
