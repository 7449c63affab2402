use mark_rs::style::color::Color;
use mark_rs::style::flags::{StyleFlag, BLINK, BOLD, CROSSED, ITALIC, RESET, REVERSED, UNDERLINE};
use mark_rs::style::{AnsiSequence, Hyperlink, Style};

#[test]
fn flag_codes_in_canonical_order() {
    let all = StyleFlag(REVERSED | BLINK | CROSSED | UNDERLINE | ITALIC | BOLD);
    assert_eq!(all.ansi(), "1;3;4;9;5;7");
    assert_eq!(all.reset_ansi(), "22;23;24;29;25;27");
    assert_eq!(StyleFlag(BOLD | ITALIC).ansi(), "1;3");
    assert_eq!(StyleFlag(BOLD | ITALIC).sequence(), "\x1b[1;3m");
    assert_eq!(StyleFlag(0).ansi(), "");
}

#[test]
fn reset_flag_takes_priority() {
    assert_eq!(StyleFlag(BOLD | UNDERLINE | RESET).reset_ansi(), "0");
    assert_eq!(StyleFlag(RESET).reset_sequence(), "\x1b[0m");
    assert_eq!(StyleFlag(BOLD | RESET).ansi(), "1");
}

#[test]
fn flag_union_is_commutative_and_idempotent() {
    let a = StyleFlag(BOLD);
    let b = StyleFlag(ITALIC | BOLD);
    assert_eq!(a | b, b | a);
    assert_eq!(a | a, a);
    assert_eq!((a | b) & a, a);
    assert!((a | b).contains(StyleFlag(ITALIC)));
    assert!(!a.contains(StyleFlag(ITALIC)));
}

#[test]
fn bold_red_sequences() {
    let s = Style::builder().fg(Color::RED).bold();
    assert_eq!(s.ansi(), "1;31");
    assert_eq!(s.sequence(), "\x1b[1;31m");
    assert_eq!(s.reset_ansi(), "39;22");
    assert_eq!(s.reset_sequence(), "\x1b[39;22m");
}

#[test]
fn codes_come_flags_then_foreground_then_background() {
    let s = Style::builder().bg(Color::BLUE).fg(Color::Ansi(9)).italic().underline();
    assert_eq!(s.sequence(), "\x1b[3;4;38;5;9;44m");
    assert_eq!(s.reset_sequence(), "\x1b[39;49;23;24m");
}

#[test]
fn reset_flag_reduces_the_reset_to_universal() {
    let s = Style::builder().fg(Color::RED).bg(Color::rgb(1, 2, 3)).bold().crossed().reset();
    assert_eq!(s.reset_sequence(), "\x1b[0m");
    let linked = s.clone().link("https://example.org");
    assert_eq!(linked.reset_sequence(), "\x1b[0m\x1b]8;;\x1b\\");
    assert_eq!(Style::builder().reset().reset_sequence(), "\x1b[0m");
}

#[test]
fn plain_style_is_silent() {
    let s = Style::builder();
    assert_eq!(s.sequence(), "");
    assert_eq!(s.reset_sequence(), "");
    assert_eq!(s.ansi(), "");
}

#[test]
fn hyperlink_only_style_still_opens_and_closes() {
    let s = Style::builder().link("http://x");
    assert_eq!(s.sequence(), "\x1b]8;;http://x\x1b\\\x1b[m");
    assert_eq!(s.reset_sequence(), "\x1b[m\x1b]8;;\x1b\\");
}

#[test]
fn hyperlink_sequences() {
    let h = Hyperlink::new("https://a.b");
    assert_eq!(h.sequence(), "\x1b]8;;https://a.b\x1b\\");
    assert_eq!(h.reset_sequence(), "\x1b]8;;\x1b\\");
    assert_eq!(h.ansi(), "");
    assert_eq!(Hyperlink::from(String::from("u")), Hyperlink::new("u"));
}

#[test]
fn linked_bold_style() {
    let s = Style::builder().blink().reversed().link("l");
    assert_eq!(s.sequence(), "\x1b]8;;l\x1b\\\x1b[5;7m");
    assert_eq!(s.reset_sequence(), "\x1b[25;27m\x1b]8;;\x1b\\");
}

#[test]
fn styles_compare_by_all_fields() {
    let a = Style::builder().fg(Color::RED).bold();
    let b = Style::builder().bold().fg(Color::RED);
    assert!(a == b);
    assert!(a != b.clone().link("x"));
    assert!(a != Style::builder().fg(Color::RED));
    assert!(Style::builder().flags(StyleFlag(BOLD | ITALIC)) == Style::builder().bold().italic());
}

#[test]
fn style_validity_follows_its_colors() {
    assert!(Style::builder().fg(Color::RED).is_valid());
    assert!(!Style::builder().bg(Color::HSV { h: 400, s: 1, v: 1 }).is_valid());
}
