use vstd::prelude::*;

use crate::geom::{Matrix, Rect};
use crate::ops::TextRun;
use crate::pixmap::Pixmap;

verus! {

/// What the text-interception hook decides for one text run.
#[derive(Clone, Copy, Debug, PartialEq, Eq, Structural)]
pub enum TextDecision {
    /// Emit the run unchanged.
    Keep,
    /// Elide the run from the output.
    Drop,
    /// Substitute the caller-supplied replacement geometry for the run.
    Transform(TextRun),
}

/// The caller-supplied extension points of a filter pass.
///
/// Each hook is invoked synchronously and must return before the pass
/// proceeds; a hook that recurses into form resolution does so on the same
/// call stack.  A hook that fails returns `Err` with its payload, which
/// aborts the pass as [`crate::error::FilterError::HookFailure`]; operators
/// already emitted are not rolled back.
///
/// The trait carries no specification members, since an implementation
/// outside verified code could not supply them, so the pass's contracts do
/// not speak of single hook invocations.  What a decision, once returned,
/// does to the emitted operator is fixed exactly by
/// [`crate::filter::apply_text_decisions`] and
/// [`crate::filter::apply_image_decision`]; over streams free of text and
/// image operators the whole pass result is fixed by
/// [`crate::filter::spec_filter_page`].
pub trait FilterHooks {
    /// Decides, before emission, what happens to one text run: `ucs` and
    /// `len` identify the run, `text_matrix` is the run's text matrix,
    /// `ctm` the composed current transform and `bbox` the computed
    /// bounding box.
    fn filter_text(
        &mut self,
        ucs: i32,
        len: i32,
        text_matrix: &Matrix,
        ctm: &Matrix,
        bbox: &Rect,
    ) -> Result<TextDecision, u32>;

    /// Offers a replacement for a painted image: `name` is the resource
    /// name, or `None` for an inline image.  Returning `Ok(None)` keeps the
    /// original unchanged; returning a buffer substitutes it, and ownership
    /// of the replacement transfers to the pass.  The source buffer is
    /// never mutated.  May be called re-entrantly for nested forms.
    fn filter_image(
        &mut self,
        ctm: &Matrix,
        name: &Option<Vec<u8>>,
        image: &Pixmap,
    ) -> Result<Option<Pixmap>, u32>;

    /// Invoked exactly once after a complete text object has been emitted
    /// (or elided), with the current transform of that text object.
    fn after_text_object(&mut self, ctm: &Matrix);

    /// Invoked exactly once when the page's operator stream is exhausted,
    /// after the last operator has been emitted and before the pass
    /// reports completion.
    fn end_page(&mut self);
}

} // verus!
