//! Colors, emphasis flags and styles, and the escape sequences they stand for.
use vstd::prelude::*;

pub mod color;
pub mod flags;

use crate::style::color::{Color, reset_bg_code, reset_fg_code};
use crate::style::flags::{
    BLINK, BOLD, CROSSED, ITALIC, RESET, REVERSED, StyleFlag, UNDERLINE, flags_ansi,
    flags_reset_ansi, has_bits,
};
use crate::text::{join, join_codes, push_all};

verus! {

/// Something that has an SGR code fragment and a full escape sequence, each in
/// an activating and a deactivating form.
pub trait AnsiSequence {
    /// Whether the value can be written out (a color whose components are in range).
    spec fn printable(&self) -> bool;

    spec fn ansi_spec(&self) -> Seq<char>;

    spec fn reset_ansi_spec(&self) -> Seq<char>;

    spec fn sequence_spec(&self) -> Seq<char>;

    spec fn reset_sequence_spec(&self) -> Seq<char>;

    /// The code fragment that turns the attribute on.
    fn ansi(&self) -> (r: String)
        requires
            self.printable(),
        ensures
            r@ == self.ansi_spec(),
    ;

    /// The full sequence that turns the attribute on.
    fn sequence(&self) -> (r: String)
        requires
            self.printable(),
        ensures
            r@ == self.sequence_spec(),
    ;

    /// The code fragment that turns the attribute off.
    fn reset_ansi(&self) -> (r: String)
        requires
            self.printable(),
        ensures
            r@ == self.reset_ansi_spec(),
    ;

    /// The full sequence that turns the attribute off.
    fn reset_sequence(&self) -> (r: String)
        requires
            self.printable(),
        ensures
            r@ == self.reset_sequence_spec(),
    ;
}

/// `ESC [ codes m`: a Select Graphic Rendition sequence.
pub open spec fn sgr(codes: Seq<char>) -> Seq<char> {
    seq!['\x1b', '['] + codes + seq!['m']
}

/// Appends `ESC [`.
pub fn push_sgr_open(out: &mut String)
    ensures
        final(out)@ == old(out)@ + seq!['\x1b', '['],
{
    out.push('\x1b');
    out.push('[');
    assert(final(out)@ =~= old(out)@ + seq!['\x1b', '[']);
}

/// Wraps codes into an SGR sequence.
pub fn sgr_of(codes: &String) -> (r: String)
    ensures
        r@ == sgr(codes@),
{
    let mut out = String::new();
    push_sgr_open(&mut out);
    crate::text::push_all(&mut out, codes.as_str());
    out.push('m');
    assert(out@ =~= sgr(codes@));
    out
}

/// OSC-8 hyperlink opening: `ESC ] 8 ; ; url ESC \`.
pub open spec fn link_open(url: Seq<char>) -> Seq<char> {
    seq!['\x1b', ']', '8', ';', ';'] + url + seq!['\x1b', '\\']
}

/// OSC-8 hyperlink closing: `ESC ] 8 ; ; ESC \`.
pub open spec fn link_close() -> Seq<char> {
    seq!['\x1b', ']', '8', ';', ';', '\x1b', '\\']
}

/// The target of a hyperlink.
#[derive(Debug, Clone, Hash, Default)]
pub struct Hyperlink(pub String);

impl View for Hyperlink {
    type V = Seq<char>;

    open spec fn view(&self) -> Seq<char> {
        self.0@
    }
}

impl PartialEq for Hyperlink {
    fn eq(&self, other: &Hyperlink) -> (r: bool) {
        self.0 == other.0
    }
}

impl Eq for Hyperlink {

}

impl vstd::std_specs::cmp::PartialEqSpecImpl for Hyperlink {
    open spec fn obeys_eq_spec() -> bool {
        true
    }

    open spec fn eq_spec(&self, other: &Hyperlink) -> bool {
        self@ == other@
    }
}

impl From<String> for Hyperlink {
    fn from(value: String) -> (r: Hyperlink) {
        Hyperlink(value)
    }
}

impl vstd::std_specs::convert::FromSpecImpl<String> for Hyperlink {
    open spec fn obeys_from_spec() -> bool {
        true
    }

    open spec fn from_spec(v: String) -> Hyperlink {
        Hyperlink(v)
    }
}

impl Hyperlink {
    /// A hyperlink to `url`.
    pub fn new(url: &str) -> (r: Hyperlink)
        ensures
            r@ == url@,
    {
        Hyperlink(String::from_str(url))
    }
}

impl AnsiSequence for Hyperlink {
    open spec fn printable(&self) -> bool {
        true
    }

    open spec fn ansi_spec(&self) -> Seq<char> {
        seq![]
    }

    open spec fn reset_ansi_spec(&self) -> Seq<char> {
        seq![]
    }

    open spec fn sequence_spec(&self) -> Seq<char> {
        link_open(self@)
    }

    open spec fn reset_sequence_spec(&self) -> Seq<char> {
        link_close()
    }

    fn ansi(&self) -> (r: String) {
        String::new()
    }

    fn reset_ansi(&self) -> (r: String) {
        String::new()
    }

    fn sequence(&self) -> (r: String) {
        let mut out = String::new();
        out.push('\x1b');
        out.push(']');
        out.push('8');
        out.push(';');
        out.push(';');
        push_all(&mut out, self.0.as_str());
        out.push('\x1b');
        out.push('\\');
        assert(out@ =~= link_open(self@));
        out
    }

    fn reset_sequence(&self) -> (r: String) {
        let mut out = String::new();
        out.push('\x1b');
        out.push(']');
        out.push('8');
        out.push(';');
        out.push(';');
        out.push('\x1b');
        out.push('\\');
        assert(out@ =~= link_close());
        out
    }
}

/// What a style is: its flag bits, colors and hyperlink target.
pub struct StyleView {
    pub flags: u32,
    pub fg: Option<Color>,
    pub bg: Option<Color>,
    pub link: Option<Seq<char>>,
}

/// The style that sets nothing.
pub open spec fn plain_style() -> StyleView {
    StyleView { flags: 0, fg: None, bg: None, link: None }
}

pub open spec fn color_wf(c: Option<Color>) -> bool {
    c matches Some(x) ==> x.wf()
}

/// Colors within their bounds.
pub open spec fn style_wf(v: StyleView) -> bool {
    color_wf(v.fg) && color_wf(v.bg)
}

/// The codes that turn the style on: flags, then foreground, then background;
/// a category that contributes nothing is left out.
pub open spec fn style_codes(v: StyleView) -> Seq<Seq<char>> {
    (if flags_ansi(v.flags).len() > 0 {
        seq![flags_ansi(v.flags)]
    } else {
        seq![]
    }) + (match v.fg {
        Some(c) => seq![c.fg_code()],
        None => seq![],
    }) + (match v.bg {
        Some(c) => seq![c.bg_code()],
        None => seq![],
    })
}

/// The codes that turn the style off: foreground, background, then flags.
pub open spec fn style_reset_codes(v: StyleView) -> Seq<Seq<char>> {
    (match v.fg {
        Some(c) => seq![reset_fg_code()],
        None => seq![],
    }) + (match v.bg {
        Some(c) => seq![reset_bg_code()],
        None => seq![],
    }) + (if flags_reset_ansi(v.flags).len() > 0 {
        seq![flags_reset_ansi(v.flags)]
    } else {
        seq![]
    })
}

pub open spec fn style_ansi(v: StyleView) -> Seq<char> {
    join(style_codes(v))
}

/// `0` alone when RESET is set; otherwise the reset codes joined by `;`.
pub open spec fn style_reset_ansi(v: StyleView) -> Seq<char> {
    if has_bits(v.flags, RESET) {
        seq!['0']
    } else {
        join(style_reset_codes(v))
    }
}

/// The activating sequence: the hyperlink opening, if any, then the SGR
/// sequence of the codes; nothing at all when there is neither a code nor a
/// link.
pub open spec fn style_sequence(v: StyleView) -> Seq<char> {
    if v.link is None && style_codes(v).len() == 0 {
        seq![]
    } else {
        (match v.link {
            Some(url) => link_open(url),
            None => seq![],
        }) + sgr(style_ansi(v))
    }
}

/// The deactivating sequence: the SGR sequence of the reset codes, then the
/// hyperlink closing, if any; nothing at all when there is neither.
pub open spec fn style_reset_sequence(v: StyleView) -> Seq<char> {
    if v.link is None && style_reset_ansi(v).len() == 0 {
        seq![]
    } else {
        sgr(style_reset_ansi(v)) + (if v.link is Some {
            link_close()
        } else {
            seq![]
        })
    }
}

/// With RESET set, the deactivating sequence is the universal `ESC[0m`
/// (followed by the hyperlink closing when there is a link), whatever colors
/// and other flags are set.
pub proof fn lemma_reset_flag_resets_all(v: StyleView)
    requires
        has_bits(v.flags, RESET),
    ensures
        v.link is None ==> style_reset_sequence(v) == seq!['\x1b', '[', '0', 'm'],
        v.link is Some ==> style_reset_sequence(v) == seq!['\x1b', '[', '0', 'm'] + link_close(),
{
    assert(sgr(seq!['0']) =~= seq!['\x1b', '[', '0', 'm']);
    assert(sgr(seq!['0']) + seq![] =~= sgr(seq!['0']));
}

/// The plain style activates and deactivates with nothing at all.
pub proof fn lemma_plain_style_silent()
    ensures
        style_sequence(plain_style()) == Seq::<char>::empty(),
        style_reset_sequence(plain_style()) == Seq::<char>::empty(),
{
    let v = plain_style();
    assert(0u32 & 1u32 != 1u32 && 0u32 & 2u32 != 2u32 && 0u32 & 4u32 != 4u32 && 0u32 & 8u32
        != 8u32 && 0u32 & 16u32 != 16u32 && 0u32 & 32u32 != 32u32 && 0u32 & 64u32 != 64u32)
        by (bit_vector);
    assert(crate::style::flags::set_codes(0) =~= Seq::<Seq<char>>::empty());
    assert(crate::style::flags::unset_codes(0) =~= Seq::<Seq<char>>::empty());
    assert(style_codes(v) =~= Seq::<Seq<char>>::empty());
    assert(style_reset_codes(v) =~= Seq::<Seq<char>>::empty());
}

/// Emphasis flags, optional foreground and background colors, and an optional
/// hyperlink.
#[derive(Debug, Clone, Hash, Default)]
pub struct Style {
    pub flags: StyleFlag,
    pub fg: Option<Color>,
    pub bg: Option<Color>,
    pub link: Option<Hyperlink>,
}

impl View for Style {
    type V = StyleView;

    open spec fn view(&self) -> StyleView {
        StyleView {
            flags: self.flags.0,
            fg: self.fg,
            bg: self.bg,
            link: match self.link {
                Some(h) => Some(h@),
                None => None,
            },
        }
    }
}

fn same_color(a: Option<Color>, b: Option<Color>) -> (r: bool)
    ensures
        r == (a == b),
{
    match (a, b) {
        (Some(x), Some(y)) => x == y,
        (None, None) => true,
        _ => false,
    }
}

impl Style {
    /// Whether the two styles set the same flags, colors and link.
    pub fn equals(&self, other: &Style) -> (r: bool)
        ensures
            r == (self@ == other@),
    {
        let same_link = match (&self.link, &other.link) {
            (Some(x), Some(y)) => x.0 == y.0,
            (None, None) => true,
            _ => false,
        };
        self.flags.0 == other.flags.0 && same_color(self.fg, other.fg) && same_color(
            self.bg,
            other.bg,
        ) && same_link
    }
}

impl PartialEq for Style {
    fn eq(&self, other: &Style) -> (r: bool) {
        self.equals(other)
    }
}

impl Eq for Style {

}

impl vstd::std_specs::cmp::PartialEqSpecImpl for Style {
    open spec fn obeys_eq_spec() -> bool {
        true
    }

    open spec fn eq_spec(&self, other: &Style) -> bool {
        self@ == other@
    }
}

impl Style {
    /// The style that sets nothing, to build on.
    pub fn builder() -> (r: Style)
        ensures
            r@ == plain_style(),
    {
        Style { flags: StyleFlag(0), fg: None, bg: None, link: None }
    }

    /// Whether the colors lie within their bounds.
    pub fn is_valid(&self) -> (r: bool)
        ensures
            r == style_wf(self@),
    {
        let fg_ok = match self.fg {
            Some(c) => c.is_valid(),
            None => true,
        };
        let bg_ok = match self.bg {
            Some(c) => c.is_valid(),
            None => true,
        };
        fg_ok && bg_ok
    }

    /// The same style with foreground `color`.
    pub fn fg(self, color: Color) -> (r: Style)
        ensures
            r@ == (StyleView { fg: Some(color), ..self@ }),
    {
        Style { fg: Some(color), ..self }
    }

    /// The same style with background `color`.
    pub fn bg(self, color: Color) -> (r: Style)
        ensures
            r@ == (StyleView { bg: Some(color), ..self@ }),
    {
        Style { bg: Some(color), ..self }
    }

    /// The same style linking to `link`.
    pub fn link(self, link: &str) -> (r: Style)
        ensures
            r@ == (StyleView { link: Some(link@), ..self@ }),
    {
        Style { link: Some(Hyperlink::new(link)), ..self }
    }

    /// The same style with the attributes of `flags` added.
    pub fn flags(self, flags: StyleFlag) -> (r: Style)
        ensures
            r@ == (StyleView { flags: self@.flags | flags.0, ..self@ }),
    {
        Style { flags: self.flags | flags, ..self }
    }

    /// The same style, bold.
    pub fn bold(self) -> (r: Style)
        ensures
            r@ == (StyleView { flags: self@.flags | BOLD, ..self@ }),
    {
        self.flags(StyleFlag(BOLD))
    }

    /// The same style, italic.
    pub fn italic(self) -> (r: Style)
        ensures
            r@ == (StyleView { flags: self@.flags | ITALIC, ..self@ }),
    {
        self.flags(StyleFlag(ITALIC))
    }

    /// The same style, underlined.
    pub fn underline(self) -> (r: Style)
        ensures
            r@ == (StyleView { flags: self@.flags | UNDERLINE, ..self@ }),
    {
        self.flags(StyleFlag(UNDERLINE))
    }

    /// The same style, struck through.
    pub fn crossed(self) -> (r: Style)
        ensures
            r@ == (StyleView { flags: self@.flags | CROSSED, ..self@ }),
    {
        self.flags(StyleFlag(CROSSED))
    }

    /// The same style, blinking.
    pub fn blink(self) -> (r: Style)
        ensures
            r@ == (StyleView { flags: self@.flags | BLINK, ..self@ }),
    {
        self.flags(StyleFlag(BLINK))
    }

    /// The same style, with foreground and background swapped.
    pub fn reversed(self) -> (r: Style)
        ensures
            r@ == (StyleView { flags: self@.flags | REVERSED, ..self@ }),
    {
        self.flags(StyleFlag(REVERSED))
    }

    /// The same style, deactivated by the universal reset.
    pub fn reset(self) -> (r: Style)
        ensures
            r@ == (StyleView { flags: self@.flags | RESET, ..self@ }),
    {
        self.flags(StyleFlag(RESET))
    }

    /// Appends the codes that turn the style on; returns whether there was any.
    fn push_ansi(&self, out: &mut String) -> (any: bool)
        requires
            style_wf(self@),
            old(out)@ == Seq::<char>::empty(),
        ensures
            final(out)@ == style_ansi(self@),
            any == (style_codes(self@).len() > 0),
    {
        let ghost v = self@;
        let fa = self.flags.ansi();
        let mut first = true;
        let ghost codes: Seq<Seq<char>> = seq![];
        if fa.as_str().unicode_len() > 0 {
            join_codes(out, Ghost(codes), first, fa.as_str());
            proof {
                codes = codes.push(fa@);
            }
            first = false;
        }
        if let Some(c) = self.fg {
            let code = c.fg();
            join_codes(out, Ghost(codes), first, code.as_str());
            proof {
                codes = codes.push(code@);
            }
            first = false;
        }
        if let Some(c) = self.bg {
            let code = c.bg();
            join_codes(out, Ghost(codes), first, code.as_str());
            proof {
                codes = codes.push(code@);
            }
            first = false;
        }
        assert(codes =~= style_codes(v));
        !first
    }

    /// Appends the codes that turn the style off (or `0` under RESET).
    fn push_reset_ansi(&self, out: &mut String)
        requires
            old(out)@ == Seq::<char>::empty(),
        ensures
            final(out)@ == style_reset_ansi(self@),
    {
        let ghost v = self@;
        if self.flags.contains(StyleFlag(RESET)) {
            out.push('0');
            assert(out@ =~= seq!['0']);
            return;
        }
        let mut first = true;
        let ghost codes: Seq<Seq<char>> = seq![];
        if let Some(c) = self.fg {
            let code = c.reset_fg();
            join_codes(out, Ghost(codes), first, code.as_str());
            proof {
                codes = codes.push(code@);
            }
            first = false;
        }
        if let Some(c) = self.bg {
            let code = c.reset_bg();
            join_codes(out, Ghost(codes), first, code.as_str());
            proof {
                codes = codes.push(code@);
            }
            first = false;
        }
        let fr = self.flags.reset_ansi();
        if fr.as_str().unicode_len() > 0 {
            join_codes(out, Ghost(codes), first, fr.as_str());
            proof {
                codes = codes.push(fr@);
            }
        }
        assert(codes =~= style_reset_codes(v));
    }
}

impl AnsiSequence for Style {
    open spec fn printable(&self) -> bool {
        style_wf(self@)
    }

    open spec fn ansi_spec(&self) -> Seq<char> {
        style_ansi(self@)
    }

    open spec fn reset_ansi_spec(&self) -> Seq<char> {
        style_reset_ansi(self@)
    }

    open spec fn sequence_spec(&self) -> Seq<char> {
        style_sequence(self@)
    }

    open spec fn reset_sequence_spec(&self) -> Seq<char> {
        style_reset_sequence(self@)
    }

    fn ansi(&self) -> (r: String) {
        let mut out = String::new();
        self.push_ansi(&mut out);
        out
    }

    fn reset_ansi(&self) -> (r: String) {
        let mut out = String::new();
        self.push_reset_ansi(&mut out);
        out
    }

    fn sequence(&self) -> (r: String) {
        let mut codes = String::new();
        let any = self.push_ansi(&mut codes);
        match &self.link {
            None => {
                if !any {
                    return String::new();
                }
                sgr_of(&codes)
            },
            Some(link) => {
                let mut out = link.sequence();
                let tail = sgr_of(&codes);
                push_all(&mut out, tail.as_str());
                out
            },
        }
    }

    fn reset_sequence(&self) -> (r: String) {
        let mut codes = String::new();
        self.push_reset_ansi(&mut codes);
        match &self.link {
            None => {
                if codes.as_str().unicode_len() == 0 {
                    return String::new();
                }
                let r = sgr_of(&codes);
                assert(r@ + seq![] =~= r@);
                r
            },
            Some(link) => {
                let mut out = sgr_of(&codes);
                let tail = link.reset_sequence();
                push_all(&mut out, tail.as_str());
                out
            },
        }
    }
}

} // verus!
