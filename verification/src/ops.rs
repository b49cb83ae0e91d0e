use vstd::prelude::*;

use crate::geom::{Matrix, Rect};
use crate::pixmap::{Pixmap, PixView};

verus! {

/// One run of text inside a text-showing operation: an identifier for the
/// glyph run and its length in code units.
#[derive(Clone, Copy, Debug, PartialEq, Eq, Structural)]
pub struct TextRun {
    pub ucs: i32,
    pub len: i32,
}

/// A drawing operator of the canonical stream.  Resource handles are
/// already dereferenced to concrete objects: a painted image carries its
/// raster buffer, a form invocation carries the index of its body in the
/// form table handed to the pass.
pub enum Op {
    /// Set the fill color; an adjacent later setting overwrites it.
    SetColor { color: u32 },
    /// Compose `matrix` onto the current transform.
    SetMatrix { matrix: Matrix },
    /// Paint a path with the given number of segments.
    PaintPath { segments: u32 },
    /// Paint one text object: all runs of one text-showing operation.
    PaintText { runs: Vec<TextRun>, text_matrix: Matrix, bbox: Rect },
    /// Paint a raster image; `name` is the resource name, or `None` for an
    /// inline image.
    PaintImage { name: Option<Vec<u8>>, image: Pixmap, matrix: Matrix },
    /// Invoke the form whose body is `forms[form]`, under `matrix`.
    InvokeForm { form: usize, matrix: Matrix },
    /// Reference a form definition already emitted under the identity `form`.
    FormRef { form: usize, matrix: Matrix },
    /// Save the graphics state.
    PushState,
    /// Restore the graphics state.
    PopState,
}

/// The name operand of a painted image, as a byte sequence.
pub open spec fn opt_name_view(n: Option<Vec<u8>>) -> Option<Seq<u8>> {
    match n {
        Option::Some(v) => Option::Some(v@),
        Option::None => Option::None,
    }
}

/// The mathematical value of an operator.
pub ghost enum OpView {
    SetColor { color: u32 },
    SetMatrix { matrix: Matrix },
    PaintPath { segments: u32 },
    PaintText { runs: Seq<TextRun>, text_matrix: Matrix, bbox: Rect },
    PaintImage { name: Option<Seq<u8>>, image: PixView, matrix: Matrix },
    InvokeForm { form: int, matrix: Matrix },
    FormRef { form: int, matrix: Matrix },
    PushState,
    PopState,
}

impl View for Op {
    type V = OpView;

    open spec fn view(&self) -> OpView {
        match self {
            Op::SetColor { color } => OpView::SetColor { color: *color },
            Op::SetMatrix { matrix } => OpView::SetMatrix { matrix: *matrix },
            Op::PaintPath { segments } => OpView::PaintPath { segments: *segments },
            Op::PaintText { runs, text_matrix, bbox } => OpView::PaintText {
                runs: runs@,
                text_matrix: *text_matrix,
                bbox: *bbox,
            },
            Op::PaintImage { name, image, matrix } => OpView::PaintImage {
                name: opt_name_view(*name),
                image: image@,
                matrix: *matrix,
            },
            Op::InvokeForm { form, matrix } => OpView::InvokeForm {
                form: *form as int,
                matrix: *matrix,
            },
            Op::FormRef { form, matrix } => OpView::FormRef { form: *form as int, matrix: *matrix },
            Op::PushState => OpView::PushState,
            Op::PopState => OpView::PopState,
        }
    }
}

/// The mathematical value of an operator sequence.
pub open spec fn ops_view(s: Seq<Op>) -> Seq<OpView> {
    s.map_values(|o: Op| o@)
}

/// The mathematical value of a form table: each body as an operator
/// sequence.
pub open spec fn forms_view(fs: Seq<Vec<Op>>) -> Seq<Seq<OpView>> {
    fs.map_values(|b: Vec<Op>| ops_view(b@))
}

/// Whether the stream is free of reference operators.  A canonical input
/// stream is: [`OpView::FormRef`] only ever stands in the output of a
/// pass, pointing into its definition table.
pub open spec fn no_form_refs(s: Seq<OpView>) -> bool {
    forall|i: int| 0 <= i < s.len() ==> !((#[trigger] s[i]) is FormRef)
}

/// Whether the stream holds no text or image paint operator.  Over such a
/// stream a filter pass makes no text or image hook call, so no hook can
/// fail it.
pub open spec fn hook_free(s: Seq<OpView>) -> bool {
    forall|i: int|
        0 <= i < s.len() ==> !((#[trigger] s[i]) is PaintText) && !(s[i] is PaintImage)
}

fn copy_runs(v: &Vec<TextRun>) -> (r: Vec<TextRun>)
    ensures
        r@ == v@,
{
    let mut r: Vec<TextRun> = Vec::new();
    let mut i: usize = 0;
    while i < v.len()
        invariant
            i <= v.len(),
            r@ == v@.take(i as int),
        decreases v.len() - i,
    {
        r.push(v[i]);
        i = i + 1;
        assert(r@ =~= v@.take(i as int));
    }
    assert(r@ =~= v@);
    r
}

pub(crate) fn copy_bytes(v: &Vec<u8>) -> (r: Vec<u8>)
    ensures
        r@ == v@,
{
    let mut r: Vec<u8> = Vec::new();
    let mut i: usize = 0;
    while i < v.len()
        invariant
            i <= v.len(),
            r@ == v@.take(i as int),
        decreases v.len() - i,
    {
        r.push(v[i]);
        i = i + 1;
        assert(r@ =~= v@.take(i as int));
    }
    assert(r@ =~= v@);
    r
}

impl Op {
    /// An explicit duplicate of the operator, equal in value; a painted
    /// image is duplicated into a buffer under new exclusive ownership.
    pub fn duplicate(&self) -> (r: Op)
        ensures
            r@ == self@,
    {
        match self {
            Op::SetColor { color } => Op::SetColor { color: *color },
            Op::SetMatrix { matrix } => Op::SetMatrix { matrix: *matrix },
            Op::PaintPath { segments } => Op::PaintPath { segments: *segments },
            Op::PaintText { runs, text_matrix, bbox } => Op::PaintText {
                runs: copy_runs(runs),
                text_matrix: *text_matrix,
                bbox: *bbox,
            },
            Op::PaintImage { name, image, matrix } => Op::PaintImage {
                name: match name {
                    Option::Some(v) => Option::Some(copy_bytes(v)),
                    Option::None => Option::None,
                },
                image: image.duplicate(),
                matrix: *matrix,
            },
            Op::InvokeForm { form, matrix } => Op::InvokeForm { form: *form, matrix: *matrix },
            Op::FormRef { form, matrix } => Op::FormRef { form: *form, matrix: *matrix },
            Op::PushState => Op::PushState,
            Op::PopState => Op::PopState,
        }
    }
}

} // verus!
