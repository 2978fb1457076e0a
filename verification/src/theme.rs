//! How text is coloured.
//!
//! The palette is Catppuccin Mocha, pinned to the flavour's own values rather
//! than to the terminal's names for colours, so the picker looks the same
//! everywhere.

use vstd::prelude::*;

verus! {

/// A colour by its red, green and blue.
#[derive(Clone, Copy, Debug, PartialEq, Eq, Structural)]
pub struct Color {
    pub red: u8,
    pub green: u8,
    pub blue: u8,
}

/// How a run of text is drawn. A colour that is not set is left as it is.
#[derive(Clone, Copy, Debug, PartialEq, Eq, Structural)]
pub struct Style {
    pub fg: Option<Color>,
    pub bg: Option<Color>,
    pub bold: bool,
}

impl Style {
    /// This style with another put over it: what the other sets wins, and bold
    /// stays bold.
    pub open spec fn over(self, other: Style) -> Style {
        Style {
            fg: if other.fg is Some {
                other.fg
            } else {
                self.fg
            },
            bg: if other.bg is Some {
                other.bg
            } else {
                self.bg
            },
            bold: self.bold || other.bold,
        }
    }

    /// Puts another style over this one.
    pub fn patch(self, other: Style) -> (r: Style)
        ensures
            r == self.over(other),
    {
        Style {
            fg: if other.fg.is_some() {
                other.fg
            } else {
                self.fg
            },
            bg: if other.bg.is_some() {
                other.bg
            } else {
                self.bg
            },
            bold: self.bold || other.bold,
        }
    }
}

/// Text of a colour.
#[verifier::allow_in_spec]
pub fn coloured(color: Color, bold: bool) -> Style
    returns
        (Style { fg: Some(color), bg: None, bold }),
{
    Style { fg: Some(color), bg: None, bold }
}

/// The rows you are not on.
#[verifier::allow_in_spec]
pub fn text_color() -> Color
    returns
        (Color { red: 0xcd, green: 0xd6, blue: 0xf4 }),
{
    Color { red: 0xcd, green: 0xd6, blue: 0xf4 }
}

/// Subdued text, that is the age column.
#[verifier::allow_in_spec]
pub fn subtext_color() -> Color
    returns
        (Color { red: 0xa6, green: 0xad, blue: 0xc8 }),
{
    Color { red: 0xa6, green: 0xad, blue: 0xc8 }
}

/// Muted chrome: the prompt and the help line.
#[verifier::allow_in_spec]
pub fn overlay_color() -> Color
    returns
        (Color { red: 0x6c, green: 0x70, blue: 0x86 }),
{
    Color { red: 0x6c, green: 0x70, blue: 0x86 }
}

/// The characters the query actually hit.
#[verifier::allow_in_spec]
pub fn yellow_color() -> Color
    returns
        (Color { red: 0xf9, green: 0xe2, blue: 0xaf }),
{
    Color { red: 0xf9, green: 0xe2, blue: 0xaf }
}

/// The surface of selected items.
#[verifier::allow_in_spec]
pub fn surface_color() -> Color
    returns
        (Color { red: 0x31, green: 0x32, blue: 0x44 }),
{
    Color { red: 0x31, green: 0x32, blue: 0x44 }
}

/// The text of the row you are on.
#[verifier::allow_in_spec]
pub fn accent_color() -> Color
    returns
        (Color { red: 0x89, green: 0xb4, blue: 0xfa }),
{
    Color { red: 0x89, green: 0xb4, blue: 0xfa }
}

/// No style at all.
#[verifier::allow_in_spec]
pub fn plain() -> Style
    returns
        (Style { fg: None, bg: None, bold: false }),
{
    Style { fg: None, bg: None, bold: false }
}

/// The prompt and the help line.
#[verifier::allow_in_spec]
pub fn dim() -> Style
    returns
        coloured(overlay_color(), false),
{
    coloured(overlay_color(), false)
}

/// The hints.
#[verifier::allow_in_spec]
pub fn muted() -> Style
    returns
        coloured(subtext_color(), false),
{
    coloured(subtext_color(), false)
}

/// What was typed.
#[verifier::allow_in_spec]
pub fn strong() -> Style
    returns
        coloured(text_color(), true),
{
    coloured(text_color(), true)
}

/// The labels.
#[verifier::allow_in_spec]
pub fn text() -> Style
    returns
        coloured(text_color(), false),
{
    coloured(text_color(), false)
}

/// The matched characters.
#[verifier::allow_in_spec]
pub fn matched() -> Style
    returns
        coloured(yellow_color(), true),
{
    coloured(yellow_color(), true)
}

/// The bar behind the selected row.
#[verifier::allow_in_spec]
pub fn selected() -> Style
    returns
        (Style { fg: None, bg: Some(surface_color()), bold: false }),
{
    Style { fg: None, bg: Some(surface_color()), bold: false }
}

/// The text of the selected row.
#[verifier::allow_in_spec]
pub fn selected_text() -> Style
    returns
        coloured(accent_color(), true),
{
    coloured(accent_color(), true)
}

/// What a style sets stays set whatever is put over it, but for a colour that the
/// other sets too: that one is the other's.
pub proof fn what_is_put_over_wins(style: Style, other: Style)
    ensures
        other.fg is Some ==> style.over(other).fg == other.fg,
        other.bg is Some ==> style.over(other).bg == other.bg,
        other.fg is None ==> style.over(other).fg == style.fg,
        other.bg is None ==> style.over(other).bg == style.bg,
        style.over(other).bold <==> style.bold || other.bold,
        style.over(plain()) == style,
        plain().over(style) == style,
{
}

/// What was hit can be told from what was not, and the row you are on from the
/// others, in whatever style they are.
pub proof fn styles_can_be_told_apart(base: Style)
    ensures
        base.over(matched()).fg == matched().fg,
        base.over(matched()).bold,
        matched().fg != text().fg,
        matched().fg != selected_text().fg,
        selected_text().fg != text().fg,
        selected().bg is Some,
{
}

} // verus!
