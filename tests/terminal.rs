use mark_rs::terminal::{Capabilities, ColorSupport};

#[test]
fn color_support_from_variables() {
    assert_eq!(ColorSupport::new(Some("xterm-256color"), None), ColorSupport::EightBit);
    assert_eq!(ColorSupport::new(Some("xterm-truecolor"), None), ColorSupport::TrueColor);
    assert_eq!(ColorSupport::new(Some("xterm-256color"), Some("truecolor")), ColorSupport::TrueColor);
    assert_eq!(ColorSupport::new(None, Some("24bit")), ColorSupport::TrueColor);
    assert_eq!(ColorSupport::new(Some("screen-256color"), None), ColorSupport::Standard);
    assert_eq!(ColorSupport::new(Some("xterm"), None), ColorSupport::Standard);
    assert_eq!(ColorSupport::new(None, None), ColorSupport::Standard);
    assert_eq!(ColorSupport::new(Some("xterm-256color"), Some("yes")), ColorSupport::Standard);
    assert_eq!(ColorSupport::default(), ColorSupport::Standard);
}

#[test]
fn capabilities_from_variables() {
    assert_eq!(
        Capabilities::detect(Some("xterm-256color"), Some("truecolor")),
        Capabilities { ansi: true, color: ColorSupport::TrueColor }
    );
    assert!(!Capabilities::detect(Some("dumb"), None).ansi);
    assert!(!Capabilities::detect(None, None).ansi);
    assert!(Capabilities::detect(Some("vt100"), None).ansi);
}
