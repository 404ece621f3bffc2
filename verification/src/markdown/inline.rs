//! Inline elements of Markdown text.
use vstd::prelude::*;

verus! {

#[derive(PartialEq, Debug, Clone)]
pub enum Inline<'a> {
    CodeSpan(&'a str),
    Emphasis(Emphasis<'a>),
    Link(Link<'a>),
    Image(Image<'a>),
    Autolink(&'a str),
    HTML(&'a str),
    HardLineBreak,
    TextualContent(&'a str),
}

#[derive(PartialEq, Eq, Structural, Debug, Clone, Copy)]
pub enum EmphasisType {
    Common,
    Strong,
}

#[derive(PartialEq, Debug, Clone)]
pub struct Emphasis<'a> {
    pub text: &'a str,
    pub emphasis_type: EmphasisType,
}

#[derive(PartialEq, Debug, Clone)]
pub struct Link<'a> {
    pub text: &'a str,
    pub url: &'a str,
    pub title: Option<&'a str>,
}

#[derive(PartialEq, Debug, Clone)]
pub struct Image<'a> {
    pub src: &'a str,
    pub alt: &'a str,
    pub title: Option<&'a str>,
}

/// The mathematical value of an inline element: its texts as character
/// sequences.
pub enum InlineModel {
    CodeSpan(Seq<char>),
    Emphasis(Seq<char>, EmphasisType),
    Link(Seq<char>, Seq<char>, Option<Seq<char>>),
    Image(Seq<char>, Seq<char>, Option<Seq<char>>),
    Autolink(Seq<char>),
    HTML(Seq<char>),
    HardLineBreak,
    TextualContent(Seq<char>),
}

pub open spec fn opt_str_view<'a>(o: Option<&'a str>) -> Option<Seq<char>> {
    match o {
        Some(s) => Some(s@),
        None => None,
    }
}

impl<'a> View for Inline<'a> {
    type V = InlineModel;

    open spec fn view(&self) -> InlineModel {
        match self {
            Inline::CodeSpan(s) => InlineModel::CodeSpan(s@),
            Inline::Emphasis(e) => InlineModel::Emphasis(e.text@, e.emphasis_type),
            Inline::Link(l) => InlineModel::Link(l.text@, l.url@, opt_str_view(l.title)),
            Inline::Image(i) => InlineModel::Image(i.src@, i.alt@, opt_str_view(i.title)),
            Inline::Autolink(s) => InlineModel::Autolink(s@),
            Inline::HTML(s) => InlineModel::HTML(s@),
            Inline::HardLineBreak => InlineModel::HardLineBreak,
            Inline::TextualContent(s) => InlineModel::TextualContent(s@),
        }
    }
}

/// A copy of an inline element.
pub fn clone_inline<'a>(i: &Inline<'a>) -> (r: Inline<'a>)
    ensures
        r@ == i@,
{
    match i {
        Inline::CodeSpan(s) => Inline::CodeSpan(s),
        Inline::Emphasis(e) => Inline::Emphasis(
            Emphasis { text: e.text, emphasis_type: e.emphasis_type },
        ),
        Inline::Link(l) => Inline::Link(Link { text: l.text, url: l.url, title: l.title }),
        Inline::Image(m) => Inline::Image(Image { src: m.src, alt: m.alt, title: m.title }),
        Inline::Autolink(s) => Inline::Autolink(s),
        Inline::HTML(s) => Inline::HTML(s),
        Inline::HardLineBreak => Inline::HardLineBreak,
        Inline::TextualContent(s) => Inline::TextualContent(s),
    }
}

/// The views of a sequence of inline elements.
pub open spec fn inlines_view<'a>(v: Seq<Inline<'a>>) -> Seq<InlineModel> {
    Seq::new(v.len(), |i: int| v[i]@)
}

} // verus!
