//! Styles: colours and independent text modifiers.
use vstd::prelude::*;

verus! {

/// A terminal colour.
#[derive(Clone, Copy, Debug, PartialEq, Eq, Structural)]
pub enum Color {
    Reset,
    Black,
    Red,
    Green,
    Yellow,
    Blue,
    Magenta,
    Cyan,
    Gray,
    White,
    Rgb(u8, u8, u8),
}

/// A text modifier; modifiers combine independently.
#[derive(Clone, Copy, Debug, PartialEq, Eq, Structural)]
pub enum Modifier {
    Bold,
    Italic,
    Underlined,
    Dim,
    CrossedOut,
}

/// A composable bundle of colours and modifiers.
#[derive(Clone, Copy, Debug, PartialEq, Eq, Structural)]
pub struct Style {
    pub fg: Option<Color>,
    pub bg: Option<Color>,
    pub bold: bool,
    pub italic: bool,
    pub underlined: bool,
    pub dim: bool,
    pub crossed_out: bool,
}

impl Style {
    /// Whether the style carries `m`.
    pub open spec fn has(self, m: Modifier) -> bool {
        match m {
            Modifier::Bold => self.bold,
            Modifier::Italic => self.italic,
            Modifier::Underlined => self.underlined,
            Modifier::Dim => self.dim,
            Modifier::CrossedOut => self.crossed_out,
        }
    }

    /// The style without colours or modifiers.
    pub open spec fn plain_spec() -> Style {
        Style {
            fg: None,
            bg: None,
            bold: false,
            italic: false,
            underlined: false,
            dim: false,
            crossed_out: false,
        }
    }

    /// The style without colours or modifiers.
    pub fn plain() -> (r: Style)
        ensures
            r == Style::plain_spec(),
            r.fg is None,
            r.bg is None,
            forall|m: Modifier| !r.has(m),
    {
        Style {
            fg: None,
            bg: None,
            bold: false,
            italic: false,
            underlined: false,
            dim: false,
            crossed_out: false,
        }
    }

    /// The style with modifier `m` added.
    pub open spec fn with_modifier(self, m: Modifier) -> Style {
        match m {
            Modifier::Bold => Style { bold: true, ..self },
            Modifier::Italic => Style { italic: true, ..self },
            Modifier::Underlined => Style { underlined: true, ..self },
            Modifier::Dim => Style { dim: true, ..self },
            Modifier::CrossedOut => Style { crossed_out: true, ..self },
        }
    }

    /// Adds a modifier; the others and the colours stay as they are.
    pub fn add_modifier(self, m: Modifier) -> (r: Style)
        ensures
            r == self.with_modifier(m),
            r.fg == self.fg,
            r.bg == self.bg,
            r.has(m),
            forall|n: Modifier| n != m ==> r.has(n) == self.has(n),
    {
        let mut r = self;
        match m {
            Modifier::Bold => r.bold = true,
            Modifier::Italic => r.italic = true,
            Modifier::Underlined => r.underlined = true,
            Modifier::Dim => r.dim = true,
            Modifier::CrossedOut => r.crossed_out = true,
        }
        r
    }

    /// Sets the foreground colour.
    pub fn fg(self, c: Color) -> (r: Style)
        ensures
            r == (Style { fg: Some(c), ..self }),
    {
        Style { fg: Some(c), ..self }
    }

    /// Sets the background colour.
    pub fn bg(self, c: Color) -> (r: Style)
        ensures
            r == (Style { bg: Some(c), ..self }),
    {
        Style { bg: Some(c), ..self }
    }
}

} // verus!
