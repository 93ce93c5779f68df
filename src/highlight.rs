//! Syntax highlighting of code lines, by syntect.
use vstd::prelude::*;
use syntect::easy::HighlightLines;
use syntect::highlighting::{FontStyle, Style as TokenStyle, Theme, ThemeSet};
use syntect::parsing::SyntaxSet;
use crate::style::{Color, Style};
use crate::text::{Span, chars_of_spans};

verus! {

#[verifier::external_type_specification]
#[verifier::external_body]
pub struct ExSyntaxSet(SyntaxSet);

#[verifier::external_type_specification]
#[verifier::external_body]
pub struct ExTheme(Theme);

#[verifier::external_type_specification]
#[verifier::external_body]
pub struct ExTokenStyle(TokenStyle);

#[verifier::external_type_specification]
#[verifier::external_body]
pub struct ExHighlightLines<'a>(HighlightLines<'a>);

/// Relies on syntect's SyntaxSet::load_defaults_newlines: the bundled
/// syntaxes, for lines that keep their line feed.
#[verifier::external_body]
pub(crate) fn default_syntaxes() -> SyntaxSet {
    SyntaxSet::load_defaults_newlines()
}

/// Relies on syntect's ThemeSet::load_defaults: the bundled theme called
/// `name`, if there is one.
#[verifier::external_body]
pub(crate) fn bundled_theme(name: &str) -> Option<Theme> {
    ThemeSet::load_defaults().themes.remove(name)
}

/// Relies on syntect's SyntaxSet::find_syntax_by_token, with
/// SyntaxSet::find_syntax_plain_text where no syntax has the token, and on
/// HighlightLines::new: a highlighter for the syntax that `token` names.
#[verifier::external_body]
pub(crate) fn highlighter<'a>(syntaxes: &'a SyntaxSet, theme: &'a Theme, token: &str) -> HighlightLines<'a> {
    let syntax = syntaxes.find_syntax_by_token(token).unwrap_or_else(|| syntaxes.find_syntax_plain_text());
    HighlightLines::new(syntax, theme)
}

/// Relies on syntect's highlighting::Style: reads its colours and font
/// style into the library's style.
#[verifier::external_body]
pub(crate) fn style_of(s: &TokenStyle) -> Style {
    let (f, b, font) = (s.foreground, s.background, s.font_style);
    Style {
        fg: Some(Color::Rgb(f.r, f.g, f.b)),
        bg: Some(Color::Rgb(b.r, b.g, b.b)),
        bold: font.contains(FontStyle::BOLD),
        italic: font.contains(FontStyle::ITALIC),
        underlined: font.contains(FontStyle::UNDERLINE),
        dim: false,
        crossed_out: false,
    }
}

/// The characters of highlighted tokens, in order.
pub open spec fn token_chars(tokens: Seq<(String, TokenStyle)>) -> Seq<char>
    decreases tokens.len(),
{
    if tokens.len() == 0 {
        Seq::empty()
    } else {
        token_chars(tokens.drop_last()) + tokens.last().0@
    }
}

/// Relies on syntect's HighlightLines::highlight_line: on success the
/// tokens, each with its style, together make up the line.
#[verifier::external_body]
pub(crate) fn highlight_line(h: &mut HighlightLines, line: &str, syntaxes: &SyntaxSet) -> (r: Option<Vec<(String, TokenStyle)>>)
    ensures
        r is Some ==> token_chars(r->0@) == line@,
{
    let tokens = h.highlight_line(line, syntaxes).ok()?;
    Some(tokens.into_iter().map(|(s, text)| (text.to_string(), s)).collect())
}

/// The spans of highlighted tokens, each in its token's style.
pub fn token_spans(tokens: Vec<(String, TokenStyle)>) -> (r: Vec<Span>)
    ensures
        chars_of_spans(r@) == token_chars(tokens@),
{
    let mut out: Vec<Span> = Vec::new();
    let mut k: usize = 0;
    while k < tokens.len()
        invariant
            k <= tokens@.len(),
            out@.len() == k,
            chars_of_spans(out@) == token_chars(tokens@.subrange(0, k as int)),
        decreases tokens@.len() - k,
    {
        let ghost before = out@;
        let span = Span { content: tokens[k].0.clone(), style: style_of(&tokens[k].1) };
        out.push(span);
        proof {
            assert(out@.drop_last() =~= before);
            assert(tokens@.subrange(0, k + 1).drop_last() =~= tokens@.subrange(0, k as int));
        }
        k += 1;
    }
    proof {
        assert(tokens@.subrange(0, k as int) =~= tokens@);
    }
    out
}

} // verus!
