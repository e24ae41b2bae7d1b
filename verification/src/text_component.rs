//! Chat text as the scoreboard stores it, and the number formats of scores.
use vstd::prelude::*;

verus! {

/// A plain-text chat component.
#[derive(Debug, Clone, PartialEq, Eq)]
pub struct TextComponent {
    pub text: String,
}

impl View for TextComponent {
    type V = Seq<char>;

    open spec fn view(&self) -> Seq<char> {
        self.text@
    }
}

impl TextComponent {
    /// A component showing `text`.
    pub fn text(text: String) -> (r: TextComponent)
        ensures
            r@ == text@,
    {
        TextComponent { text }
    }

    /// The component that shows nothing.
    pub fn empty() -> (r: TextComponent)
        ensures
            r@ == Seq::<char>::empty(),
    {
        TextComponent { text: String::new() }
    }

    /// The text the component shows.
    pub fn get_text(&self) -> (r: String)
        ensures
            r@ == self@,
    {
        self.text.clone()
    }

    /// A component equal to this one.
    pub fn copy(&self) -> (r: TextComponent)
        ensures
            r@ == self@,
    {
        TextComponent { text: self.text.clone() }
    }
}

/// A copy of an optional component.
pub fn copy_text_option(text: &Option<TextComponent>) -> (r: Option<TextComponent>)
    ensures
        text_view(r) == text_view(*text),
{
    match text {
        Some(t) => Some(t.copy()),
        None => None,
    }
}

/// How the value of a score is shown: not at all, styled, or replaced by a
/// fixed component. A style is kept as its serialized form.
#[derive(Debug, Clone, PartialEq, Eq)]
pub enum NumberFormat {
    Blank,
    Styled(String),
    Fixed(TextComponent),
}

/// The mathematical value of a [`NumberFormat`].
pub enum NumberFormatView {
    Blank,
    Styled(Seq<char>),
    Fixed(Seq<char>),
}

impl View for NumberFormat {
    type V = NumberFormatView;

    open spec fn view(&self) -> NumberFormatView {
        match self {
            NumberFormat::Blank => NumberFormatView::Blank,
            NumberFormat::Styled(style) => NumberFormatView::Styled(style@),
            NumberFormat::Fixed(text) => NumberFormatView::Fixed(text@),
        }
    }
}

impl NumberFormat {
    /// A number format equal to this one.
    pub fn copy(&self) -> (r: NumberFormat)
        ensures
            r@ == self@,
    {
        match self {
            NumberFormat::Blank => NumberFormat::Blank,
            NumberFormat::Styled(style) => NumberFormat::Styled(style.clone()),
            NumberFormat::Fixed(text) => NumberFormat::Fixed(text.copy()),
        }
    }
}

pub open spec fn format_view(format: Option<NumberFormat>) -> Option<NumberFormatView> {
    match format {
        Some(f) => Some(f@),
        None => None,
    }
}

pub open spec fn text_view(text: Option<TextComponent>) -> Option<Seq<char>> {
    match text {
        Some(t) => Some(t@),
        None => None,
    }
}

/// A copy of an optional number format.
pub fn copy_format_option(format: &Option<NumberFormat>) -> (r: Option<NumberFormat>)
    ensures
        format_view(r) == format_view(*format),
{
    match format {
        Some(f) => Some(f.copy()),
        None => None,
    }
}

} // verus!
