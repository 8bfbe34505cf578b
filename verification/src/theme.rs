//! Light/dark terminal support.
//!
//! The rule that makes a TUI work on both: never paint a background. Leaving it
//! unset means the terminal's own background shows through, so the app inherits
//! whatever the user has configured. Only foreground colours are themed, and
//! only to keep contrast reasonable on either backdrop.

use vstd::prelude::*;

use crate::number::{decimal, is_digit, law_decimals_read_back, parse_unsigned, unsigned, unsigned_within};
use crate::text::{
    fields, joined, law_fields_make_the_text, law_joined_pieces_are_the_fields, law_trimmed_text_stays, same, split,
    trim, trimmed,
};

verus! {

/// The terminal colours that the themes use.
#[derive(Debug, Clone, Copy, PartialEq, Eq, Structural)]
pub enum Color {
    /// The terminal's normal colour.
    Reset,
    Red,
    Green,
    Blue,
    Magenta,
    Cyan,
    Gray,
    DarkGray,
    LightRed,
    LightGreen,
    LightYellow,
    LightCyan,
}

/// How a piece of text is shown. An unset colour leaves the terminal's own.
#[derive(Debug, Clone, Copy, PartialEq, Eq, Structural)]
pub struct Style {
    pub fg: Option<Color>,
    pub bg: Option<Color>,
    pub bold: bool,
    pub reversed: bool,
}

/// Plain text in a colour.
pub open spec fn plain(color: Color) -> Style {
    Style { fg: Some(color), bg: None, bold: false, reversed: false }
}

/// Bold text in a colour.
pub open spec fn strong(color: Color) -> Style {
    Style { fg: Some(color), bg: None, bold: true, reversed: false }
}

/// No style at all.
pub open spec fn unstyled() -> Style {
    Style { fg: None, bg: None, bold: false, reversed: false }
}

impl Style {
    /// Plain text in a colour.
    pub fn plain(color: Color) -> (r: Style)
        ensures
            r == plain(color),
    {
        Style { fg: Some(color), bg: None, bold: false, reversed: false }
    }

    /// Bold text in a colour.
    pub fn strong(color: Color) -> (r: Style)
        ensures
            r == strong(color),
    {
        Style { fg: Some(color), bg: None, bold: true, reversed: false }
    }

    /// No style at all.
    pub fn unstyled() -> (r: Style)
        ensures
            r == unstyled(),
    {
        Style { fg: None, bg: None, bold: false, reversed: false }
    }
}

/// The background that the palette is made for.
#[derive(Debug, Clone, Copy, PartialEq, Eq, Structural)]
pub enum Mode {
    Dark,
    Light,
}

/// The other mode.
pub open spec fn other(mode: Mode) -> Mode {
    match mode {
        Mode::Dark => Mode::Light,
        Mode::Light => Mode::Dark,
    }
}

/// The name of a mode.
pub open spec fn mode_label(mode: Mode) -> Seq<char> {
    match mode {
        Mode::Dark => "dark"@,
        Mode::Light => "light"@,
    }
}

impl Mode {
    /// The other mode.
    pub fn toggled(self) -> (r: Mode)
        ensures
            r == other(self),
    {
        match self {
            Mode::Dark => Mode::Light,
            Mode::Light => Mode::Dark,
        }
    }

    /// The name of the mode.
    pub fn label(self) -> (r: &'static str)
        ensures
            r@ == mode_label(self),
    {
        match self {
            Mode::Dark => "dark",
            Mode::Light => "light",
        }
    }
}

/// Toggling twice changes nothing, and once always does.
pub proof fn law_toggle_is_an_involution(mode: Mode)
    ensures
        other(other(mode)) == mode,
        other(mode) != mode,
{
}

/// The background that a `COLORFGBG` value names: its last `;`-separated field,
/// as an ANSI colour index.
pub open spec fn background_index(value: Seq<char>) -> Option<nat> {
    unsigned_within(trimmed(fields(value, ';').last()), 10, 255)
}

/// The ANSI index of the background in a `COLORFGBG` value.
pub fn background(value: &str) -> (r: Option<u64>)
    ensures
        match r {
            Some(v) => background_index(value@) == Some(v as nat),
            None => background_index(value@) is None,
        },
{
    let parts = split(value, ';');
    let last = &parts[parts.len() - 1];
    assert(parts.deep_view().last() == last@);
    parse_unsigned(trim(last.as_str()).as_str(), 10, 255)
}

/// The mode that fits a `COLORFGBG` value. Light grey and white are the light
/// backgrounds; anything else is taken for dark.
pub open spec fn detected(value: Option<Seq<char>>) -> Mode {
    match value {
        Some(v) => if background_index(v) == Some(7nat) || background_index(v) == Some(15nat) {
            Mode::Light
        } else {
            Mode::Dark
        },
        None => Mode::Dark,
    }
}

/// Best-effort background detection.
///
/// `COLORFGBG` is set by several terminals (rxvt, konsole, some xterm builds)
/// as `fg;bg` ANSI indices. Anything else falls back to dark, which is both the
/// common case and the safer guess: our light palette on a dark background is
/// far less readable than the reverse.
pub fn detect(colorfgbg: Option<&str>) -> (r: Mode)
    ensures
        r == detected(colorfgbg.deep_view()),
{
    match colorfgbg {
        Some(v) => match background(v) {
            Some(n) => if n == 7 || n == 15 {
                Mode::Light
            } else {
                Mode::Dark
            },
            None => Mode::Dark,
        },
        None => Mode::Dark,
    }
}

/// The mode that an option value names.
pub open spec fn named_mode(s: Seq<char>, auto: Mode) -> Option<Mode> {
    if s == "dark"@ {
        Some(Mode::Dark)
    } else if s == "light"@ {
        Some(Mode::Light)
    } else if s == "auto"@ {
        Some(auto)
    } else {
        None
    }
}

/// Read a mode; `auto` stands for the one that was detected.
pub fn parse(s: &str, auto: Mode) -> (r: Option<Mode>)
    ensures
        r == named_mode(s@, auto),
{
    if same(s, "dark") {
        Some(Mode::Dark)
    } else if same(s, "light") {
        Some(Mode::Light)
    } else if same(s, "auto") {
        Some(auto)
    } else {
        None
    }
}

/// The palette of a mode.
#[derive(Debug, Clone, Copy, PartialEq, Eq, Structural)]
pub struct Theme {
    pub mode: Mode,
    /// Primary text. `Reset` means "the terminal's normal foreground", which is
    /// always the right contrast against its own background.
    pub fg: Color,
    pub dim: Color,
    pub accent: Color,
    pub heading: Color,
    pub good: Color,
    pub warn: Color,
    pub bad: Color,
    pub border: Color,
    /// The part of a progress bar that is not filled yet; the terminal's own
    /// background.
    pub gauge_bg: Color,
    pub selection_fg: Color,
}

/// The colours of a mode. Bright variants read well on dark backgrounds but
/// wash out on white, so the light palette holds the base (darker) colours.
pub open spec fn palette(mode: Mode) -> Theme {
    match mode {
        Mode::Dark => Theme {
            mode,
            fg: Color::Reset,
            dim: Color::DarkGray,
            accent: Color::Cyan,
            heading: Color::LightCyan,
            good: Color::LightGreen,
            warn: Color::LightYellow,
            bad: Color::LightRed,
            border: Color::DarkGray,
            gauge_bg: Color::Reset,
            selection_fg: Color::LightCyan,
        },
        Mode::Light => Theme {
            mode,
            fg: Color::Reset,
            dim: Color::Gray,
            accent: Color::Blue,
            heading: Color::Blue,
            good: Color::Green,
            warn: Color::Magenta,
            bad: Color::Red,
            border: Color::Gray,
            gauge_bg: Color::Reset,
            selection_fg: Color::Blue,
        },
    }
}

/// The style of a selected row: reversed video rather than a painted
/// background, which inverts against whatever the terminal is using.
pub open spec fn selected_style(theme: Theme) -> Style {
    Style { fg: Some(theme.selection_fg), bg: None, bold: true, reversed: true }
}

/// The style of a gauge.
pub open spec fn gauge_style(theme: Theme) -> Style {
    Style { fg: Some(theme.accent), bg: Some(theme.gauge_bg), bold: false, reversed: false }
}

impl Theme {
    /// The palette of a mode.
    pub fn new(mode: Mode) -> (r: Theme)
        ensures
            r == palette(mode),
    {
        match mode {
            Mode::Dark => Theme {
                mode,
                fg: Color::Reset,
                dim: Color::DarkGray,
                accent: Color::Cyan,
                heading: Color::LightCyan,
                good: Color::LightGreen,
                warn: Color::LightYellow,
                bad: Color::LightRed,
                border: Color::DarkGray,
                gauge_bg: Color::Reset,
                selection_fg: Color::LightCyan,
            },
            Mode::Light => Theme {
                mode,
                fg: Color::Reset,
                dim: Color::Gray,
                accent: Color::Blue,
                heading: Color::Blue,
                good: Color::Green,
                warn: Color::Magenta,
                bad: Color::Red,
                border: Color::Gray,
                gauge_bg: Color::Reset,
                selection_fg: Color::Blue,
            },
        }
    }

    /// Ordinary text.
    pub fn text(&self) -> (r: Style)
        ensures
            r == plain(self.fg),
    {
        Style::plain(self.fg)
    }

    /// Text of less weight.
    pub fn dimmed(&self) -> (r: Style)
        ensures
            r == plain(self.dim),
    {
        Style::plain(self.dim)
    }

    /// Headings.
    pub fn title(&self) -> (r: Style)
        ensures
            r == strong(self.heading),
    {
        Style::strong(self.heading)
    }

    /// The selected row.
    pub fn selected(&self) -> (r: Style)
        ensures
            r == selected_style(*self),
    {
        Style { fg: Some(self.selection_fg), bg: None, bold: true, reversed: true }
    }

    /// Progress bars.
    pub fn gauge(&self) -> (r: Style)
        ensures
            r == gauge_style(*self),
    {
        Style { fg: Some(self.accent), bg: Some(self.gauge_bg), bold: false, reversed: false }
    }
}

/// Whether a style leaves the terminal's own background.
pub open spec fn unpainted(style: Style) -> bool {
    style.bg is None || style.bg == Some(Color::Reset)
}

/// No style of a theme paints a background, whatever colour its text has, and
/// primary text keeps the terminal's own foreground.
pub proof fn law_text_paints_no_background(mode: Mode, color: Color)
    ensures
        plain(palette(mode).fg).bg is None,
        unpainted(plain(palette(mode).fg)),
        unpainted(plain(palette(mode).dim)),
        unpainted(strong(palette(mode).heading)),
        unpainted(selected_style(palette(mode))),
        unpainted(gauge_style(palette(mode))),
        unpainted(plain(color)),
        unpainted(strong(color)),
        unpainted(unstyled()),
        palette(mode).fg == Color::Reset,
{
}

/// The background is the last of the numbers that a terminal gives, and of these
/// only light grey and white are light. Without numbers it is taken for dark.
pub proof fn law_light_backgrounds_are_detected(head: Seq<char>, n: nat)
    ensures
        n <= 255 ==> (detected(Some(head + seq![';'] + decimal(n))) is Light <==> n == 7 || n == 15),
        n > 255 ==> detected(Some(head + seq![';'] + decimal(n))) is Dark,
        detected(Some(decimal(n))) == detected(Some(head + seq![';'] + decimal(n))),
        detected(None) is Dark,
        detected(Some(Seq::empty())) is Dark,
{
    law_decimals_read_back(n);
    let text = decimal(n);
    assert(!text.contains(';')) by {
        assert(';' as u32 == 59);
        assert forall|i: int| 0 <= i < text.len() implies text[i] != ';' by {
            assert(is_digit(text[i], 10));
        }
    }
    assert(is_digit(text[0], 10) && is_digit(text[text.len() - 1], 10));
    law_trimmed_text_stays(text);
    law_joined_pieces_are_the_fields(seq![text], ';');
    assert(joined(seq![text], seq![';']) == text);
    law_fields_make_the_text(head, ';');
    let parts = fields(head, ';').push(text);
    assert forall|i: int| 0 <= i < parts.len() implies !(#[trigger] parts[i]).contains(';') by {
        if i < parts.len() - 1 {
            assert(parts[i] == fields(head, ';')[i]);
        }
    }
    law_joined_pieces_are_the_fields(parts, ';');
    assert(parts.drop_last() =~= fields(head, ';'));
    assert(joined(parts, seq![';']) == head + seq![';'] + text);
    let none = Seq::<char>::empty();
    assert(fields(none, ';').last() =~= none);
    law_trimmed_text_stays(none);
    assert(unsigned(none, 10) is None);
}

/// A theme that is named is the one of that name, and no other name is taken.
pub proof fn law_modes_go_by_their_names(mode: Mode, auto: Mode, s: Seq<char>)
    ensures
        named_mode(mode_label(mode), auto) == Some(mode),
        named_mode("auto"@, auto) == Some(auto),
        named_mode(s, auto) is Some ==> s == "auto"@ || exists|m: Mode| s == #[trigger] mode_label(m),
{
    reveal_strlit("dark");
    reveal_strlit("light");
    reveal_strlit("auto");
    assert("dark"@.len() == 4 && "dark"@[0] == 'd');
    assert("auto"@.len() == 4 && "auto"@[0] == 'a');
    assert("light"@.len() == 5);
    if named_mode(s, auto) is Some && s != "auto"@ {
        if s == "dark"@ {
            assert(s == mode_label(Mode::Dark));
        } else {
            assert(s == mode_label(Mode::Light));
        }
    }
}

/// The palette of a mode is made for that mode: it says so, and good, bad and
/// doubtful news have colours of their own in it.
pub proof fn law_palettes_tell_news_apart(mode: Mode)
    ensures
        palette(mode).mode == mode,
        palette(mode).good != palette(mode).bad,
        palette(mode).good != palette(mode).warn,
        palette(mode).warn != palette(mode).bad,
        palette(Mode::Dark).good != palette(Mode::Light).good,
        palette(Mode::Dark).bad != palette(Mode::Light).bad,
        palette(Mode::Dark).warn != palette(Mode::Light).warn,
        selected_style(palette(mode)).reversed,
        !plain(palette(mode).fg).reversed,
{
}

} // verus!
