//! How a finding is shown.

use core::ops::Range;

use vstd::prelude::*;
use vstd::string::*;
use vstd::utf8::*;

verus! {

/// The text of `annotate_snippets::Renderer::render`, styled, for a warning with
/// one primary annotation on the bytes `start..end` of `source`. The colours of
/// Windows are others than those elsewhere.
pub uninterp spec fn rendered(message: Seq<char>, start: int, end: int, source: Seq<char>, path: Seq<char>, windows: bool) -> Seq<char>;

/// Whether a span begins in a source and splits no character; it may end one past
/// the end.
pub open spec fn span_fits(start: int, end: int, source: Seq<u8>) -> bool {
    &&& 0 <= start <= end <= source.len() + 1
    &&& start <= source.len() && is_char_boundary(source, start)
    &&& end <= source.len() ==> is_char_boundary(source, end)
}

/// `annotate_snippets::Renderer::render`, styled, of a warning with one primary
/// annotation: the text that message, span, source and path give on one of the
/// two kinds of platform. The span splits no character and ends at most one past
/// the end of the source, as a span beyond that makes the renderer panic.
#[verifier::external_body]
fn snippet(message: &str, span: Range<usize>, source: &str, path: &str) -> (r: String)
    requires
        span_fits(span.start as int, span.end as int, source.spec_bytes()),
    ensures
        exists|w: bool|
            r@ == #[trigger] rendered(
                message@,
                span.start as int,
                span.end as int,
                source@,
                path@,
                w,
            ),
{
    let report = &[annotate_snippets::Level::WARNING.primary_title(message).element(
        annotate_snippets::Snippet::source(source).path(path).annotation(
            annotate_snippets::AnnotationKind::Primary.span(span).label(""),
        ),
    )];
    annotate_snippets::Renderer::styled().render(report)
}

/// A warning about the bytes `span` of `source`, as text for a terminal; `path`
/// names the source. The text is the renderer's own, and differs between
/// platforms.
pub fn render_lint(message: &str, span: Range<usize>, source: &str, path: &str) -> (r: String)
    requires
        span_fits(span.start as int, span.end as int, source.spec_bytes()),
    ensures
        exists|w: bool|
            r@ == #[trigger] rendered(
                message@,
                span.start as int,
                span.end as int,
                source@,
                path@,
                w,
            ),
{
    snippet(message, span, source, path)
}

} // verus!
