//! Pieces of output and their colours.

use vstd::prelude::*;

verus! {

/// The colours that a report uses.
#[derive(Clone, Copy, PartialEq, Eq, Debug, Structural)]
pub enum Color {
    Green,
    Red,
}

/// A piece of output: a text and, where it is coloured, its colour and
/// whether it is bold. The colour ends with the piece.
#[derive(Clone, Debug)]
pub struct Span {
    pub text: String,
    pub color: Option<(Color, bool)>,
}

/// A piece of output as the contracts see it.
pub struct SpanView {
    pub text: Seq<char>,
    pub color: Option<(Color, bool)>,
}

impl View for Span {
    type V = SpanView;

    open spec fn view(&self) -> SpanView {
        SpanView { text: self.text@, color: self.color }
    }
}

/// The views of a run of pieces.
pub open spec fn span_views(s: Seq<Span>) -> Seq<SpanView> {
    Seq::new(s.len(), |i: int| s[i]@)
}

/// A piece without colour.
pub open spec fn plain(text: Seq<char>) -> SpanView {
    SpanView { text, color: None }
}

/// All the text of a run of pieces, colours left aside.
pub open spec fn text_of(spans: Seq<SpanView>) -> Seq<char>
    decreases spans.len(),
{
    if spans.len() == 0 {
        Seq::empty()
    } else {
        text_of(spans.drop_last()) + spans.last().text
    }
}

impl Span {
    /// A piece without colour.
    pub fn plain(text: String) -> (s: Span)
        ensures
            s@ == plain(text@),
    {
        Span { text, color: None }
    }
}

/// Appends a piece without colour to the output.
pub fn push_plain(out: &mut Vec<Span>, text: String)
    ensures
        span_views(final(out)@) == span_views(old(out)@).push(plain(text@)),
{
    out.push(Span::plain(text));
    assert(span_views(out@) =~= span_views(old(out)@).push(plain(text@)));
}

/// Appends a piece to the output.
pub fn push_span(out: &mut Vec<Span>, text: String, color: Option<(Color, bool)>)
    ensures
        span_views(final(out)@) == span_views(old(out)@).push(
            SpanView { text: text@, color: color },
        ),
{
    out.push(Span { text, color });
    assert(span_views(out@) =~= span_views(old(out)@).push(
        SpanView { text: text@, color: color },
    ));
}

/// The whole text of the output, colours left aside.
pub fn plain_text(spans: &Vec<Span>) -> (s: String)
    ensures
        s@ == text_of(span_views(spans@)),
{
    let mut s: String = String::new();
    let mut i: usize = 0;
    assert(span_views(spans@).take(0) =~= Seq::<SpanView>::empty());
    while i < spans.len()
        invariant
            i <= spans.len(),
            s@ == text_of(span_views(spans@).take(i as int)),
        decreases spans.len() - i,
    {
        s.append(spans[i].text.as_str());
        assert(span_views(spans@).take(i + 1).drop_last() =~= span_views(spans@).take(i as int));
        i += 1;
    }
    assert(span_views(spans@).take(spans.len() as int) =~= span_views(spans@));
    s
}

} // verus!
