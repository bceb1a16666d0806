//! Styled text as plain values, for a frontend to paint.
use vstd::prelude::*;

verus! {

/// A colour of a terminal.
#[derive(Clone, Copy, Debug, PartialEq, Eq)]
pub enum Color {
    Reset,
    Black,
    Red,
    Green,
    Yellow,
    Blue,
    Cyan,
    Gray,
    DarkGray,
    White,
    Indexed(u8),
}

/// How text looks: colours where they are set, and whether it is bold.
#[derive(Clone, Copy, Debug, PartialEq, Eq)]
pub struct Style {
    pub fg: Option<Color>,
    pub bg: Option<Color>,
    pub bold: bool,
}

/// A piece of text in one style.
#[verifier::ext_equal]
pub struct SpanView {
    pub text: Seq<char>,
    pub style: Style,
}

/// A piece of text in one style.
#[derive(Debug)]
pub struct Span {
    pub text: String,
    pub style: Style,
}

impl View for Span {
    type V = SpanView;

    open spec fn view(&self) -> SpanView {
        SpanView { text: self.text@, style: self.style }
    }
}

/// A line of styled pieces.
#[derive(Debug)]
pub struct Line {
    pub spans: Vec<Span>,
}

impl View for Line {
    type V = Seq<SpanView>;

    open spec fn view(&self) -> Seq<SpanView> {
        Seq::new(self.spans@.len(), |i: int| self.spans@[i]@)
    }
}

/// The views of some lines.
pub open spec fn line_views(lines: Seq<Line>) -> Seq<Seq<SpanView>> {
    Seq::new(lines.len(), |i: int| lines[i]@)
}

/// The style that changes nothing.
pub open spec fn plain_style() -> Style {
    Style { fg: None, bg: None, bold: false }
}

/// A style with a text colour.
pub open spec fn in_color(fg: Color) -> Style {
    Style { fg: Some(fg), bg: None, bold: false }
}

/// A bold style with a text colour.
pub open spec fn bold_in(fg: Color) -> Style {
    Style { fg: Some(fg), bg: None, bold: true }
}

/// A piece of text in a style.
pub open spec fn span_of(text: Seq<char>, style: Style) -> SpanView {
    SpanView { text, style }
}

/// A line of one piece without style.
pub open spec fn plain_line(text: Seq<char>) -> Seq<SpanView> {
    seq![span_of(text, plain_style())]
}

/// The style that changes nothing.
pub fn plain() -> (r: Style)
    ensures
        r == plain_style(),
{
    Style { fg: None, bg: None, bold: false }
}

/// A style with a text colour.
pub fn colored(fg: Color) -> (r: Style)
    ensures
        r == in_color(fg),
{
    Style { fg: Some(fg), bg: None, bold: false }
}

/// A bold style with a text colour.
pub fn bold_colored(fg: Color) -> (r: Style)
    ensures
        r == bold_in(fg),
{
    Style { fg: Some(fg), bg: None, bold: true }
}

/// A line of one piece.
pub fn line_of(text: String, style: Style) -> (r: Line)
    ensures
        r@ == seq![span_of(text@, style)],
{
    let mut spans: Vec<Span> = Vec::new();
    spans.push(Span { text, style });
    let r = Line { spans };
    assert(r@ =~= seq![span_of(text@, style)]);
    r
}

/// A line of two pieces.
pub fn line_of_two(a: String, a_style: Style, b: String, b_style: Style) -> (r: Line)
    ensures
        r@ == seq![span_of(a@, a_style), span_of(b@, b_style)],
{
    let mut spans: Vec<Span> = Vec::new();
    spans.push(Span { text: a, style: a_style });
    spans.push(Span { text: b, style: b_style });
    let r = Line { spans };
    assert(r@ =~= seq![span_of(a@, a_style), span_of(b@, b_style)]);
    r
}

/// Puts a line at the end.
pub fn push_line(lines: &mut Vec<Line>, line: Line)
    ensures
        line_views(final(lines)@) == line_views(old(lines)@).push(line@),
{
    let ghost before = lines@;
    lines.push(line);
    assert(line_views(lines@) =~= line_views(before).push(line@));
}

} // verus!
