use pdf_filter::error::FilterError;
use pdf_filter::filter::apply_image_decision;
use pdf_filter::filter::apply_text_decisions;
use pdf_filter::filter::filter_page;
use pdf_filter::filter::filter_page_with_hooks;
use pdf_filter::geom::Matrix;
use pdf_filter::geom::Rect;
use pdf_filter::hooks::FilterHooks;
use pdf_filter::hooks::TextDecision;
use pdf_filter::ops::Op;
use pdf_filter::ops::TextRun;
use pdf_filter::options::PdfFilterOptions;
use pdf_filter::pixmap::ColorSpace;
use pdf_filter::pixmap::Pixmap;
use pdf_filter::sanitize::sanitize_ops;

fn ident() -> Matrix {
    Matrix { a: 1, b: 0, c: 0, d: 1, e: 0, f: 0 }
}

fn bbox() -> Rect {
    Rect { x0: 0, y0: 0, x1: 10, y1: 10 }
}

fn text(runs: Vec<TextRun>) -> Op {
    Op::PaintText { runs, text_matrix: ident(), bbox: bbox() }
}

fn image(w: i32, h: i32) -> Op {
    let cs = ColorSpace::device_rgb();
    let pix = Pixmap::new_with_w_h(&cs, w, h, false).unwrap();
    Op::PaintImage { name: Some(vec![b'I', b'm', b'0']), image: pix, matrix: ident() }
}

fn op_eq(a: &Op, b: &Op) -> bool {
    match (a, b) {
        (Op::SetColor { color: x }, Op::SetColor { color: y }) => x == y,
        (Op::SetMatrix { matrix: x }, Op::SetMatrix { matrix: y }) => x == y,
        (Op::PaintPath { segments: x }, Op::PaintPath { segments: y }) => x == y,
        (
            Op::PaintText { runs: r1, text_matrix: t1, bbox: b1 },
            Op::PaintText { runs: r2, text_matrix: t2, bbox: b2 },
        ) => r1 == r2 && t1 == t2 && b1 == b2,
        (
            Op::PaintImage { name: n1, image: i1, matrix: m1 },
            Op::PaintImage { name: n2, image: i2, matrix: m2 },
        ) => {
            n1 == n2
                && m1 == m2
                && i1.width() == i2.width()
                && i1.height() == i2.height()
                && i1.samples() == i2.samples()
        }
        (
            Op::InvokeForm { form: f1, matrix: m1 },
            Op::InvokeForm { form: f2, matrix: m2 },
        ) => f1 == f2 && m1 == m2,
        (Op::FormRef { form: f1, matrix: m1 }, Op::FormRef { form: f2, matrix: m2 }) => {
            f1 == f2 && m1 == m2
        }
        (Op::PushState, Op::PushState) => true,
        (Op::PopState, Op::PopState) => true,
        _ => false,
    }
}

fn ops_eq(a: &[Op], b: &[Op]) -> bool {
    a.len() == b.len() && a.iter().zip(b.iter()).all(|(x, y)| op_eq(x, y))
}

#[test]
fn sanitize_repairs_and_merges() {
    let input = vec![
        Op::PopState,
        Op::SetColor { color: 1 },
        Op::SetColor { color: 2 },
        Op::PaintPath { segments: 0 },
        Op::PushState,
        Op::PaintPath { segments: 3 },
    ];
    let out = sanitize_ops(&input);
    let expected = vec![
        Op::SetColor { color: 2 },
        Op::PushState,
        Op::PaintPath { segments: 3 },
        Op::PopState,
    ];
    assert!(ops_eq(&out, &expected));
}

#[test]
fn sanitize_is_idempotent() {
    let input = vec![
        Op::PopState,
        Op::SetColor { color: 1 },
        Op::SetColor { color: 2 },
        Op::SetColor { color: 3 },
        text(vec![]),
        Op::PushState,
        Op::PushState,
        Op::PaintPath { segments: 1 },
    ];
    let once = sanitize_ops(&input);
    let twice = sanitize_ops(&once);
    assert!(ops_eq(&once, &twice));
}

#[test]
fn sanitize_drops_empty_text_objects() {
    let input = vec![text(vec![]), Op::PaintPath { segments: 0 }];
    let out = sanitize_ops(&input);
    assert_eq!(out.len(), 0);
}

#[test]
fn filter_identity_when_flags_false() {
    let opts = PdfFilterOptions::default();
    let input = vec![
        Op::PushState,
        Op::SetColor { color: 5 },
        Op::PaintPath { segments: 2 },
        text(vec![TextRun { ucs: 65, len: 1 }]),
        Op::PopState,
    ];
    let forms: Vec<Vec<Op>> = vec![];
    let out = filter_page(&opts, &input, &forms).unwrap();
    assert!(ops_eq(&out.ops, &input));
    assert_eq!(out.defs.len(), 0);
    assert!(!out.ascii);
}

#[test]
fn ascii_flag_tags_the_output() {
    let opts = PdfFilterOptions::default().set_ascii(true);
    let input = vec![Op::PaintPath { segments: 1 }];
    let forms: Vec<Vec<Op>> = vec![];
    let out = filter_page(&opts, &input, &forms).unwrap();
    assert!(out.ascii);
}

#[test]
fn unbalanced_without_sanitize_is_structural_error() {
    let opts = PdfFilterOptions::default();
    let input = vec![Op::PopState];
    let forms: Vec<Vec<Op>> = vec![];
    let r = filter_page(&opts, &input, &forms);
    assert!(matches!(r, Err(FilterError::StructuralError)));
    let input2 = vec![Op::PushState];
    let r2 = filter_page(&opts, &input2, &forms);
    assert!(matches!(r2, Err(FilterError::StructuralError)));
}

#[test]
fn sanitize_repairs_unbalanced_stream() {
    let opts = PdfFilterOptions::default().set_sanitize(true);
    let input = vec![Op::PopState, Op::PaintPath { segments: 1 }, Op::PushState];
    let forms: Vec<Vec<Op>> = vec![];
    let out = filter_page(&opts, &input, &forms).unwrap();
    let expected = vec![Op::PaintPath { segments: 1 }, Op::PushState, Op::PopState];
    assert!(ops_eq(&out.ops, &expected));
}

#[test]
fn instance_forms_single_definition() {
    let opts = PdfFilterOptions::default().set_recurse(true).set_instance_forms(true);
    let forms = vec![vec![Op::PaintPath { segments: 4 }]];
    let input = vec![
        Op::InvokeForm { form: 0, matrix: ident() },
        Op::InvokeForm { form: 0, matrix: ident() },
        Op::InvokeForm { form: 0, matrix: ident() },
    ];
    let out = filter_page(&opts, &input, &forms).unwrap();
    assert_eq!(out.defs.len(), 1);
    assert_eq!(out.defs[0].form, 0);
    assert!(ops_eq(&out.defs[0].body, &[Op::PaintPath { segments: 4 }]));
    let expected = vec![
        Op::FormRef { form: 0, matrix: ident() },
        Op::FormRef { form: 0, matrix: ident() },
        Op::FormRef { form: 0, matrix: ident() },
    ];
    assert!(ops_eq(&out.ops, &expected));
}

#[test]
fn inline_forms_expand_every_invocation() {
    let opts = PdfFilterOptions::default().set_recurse(true);
    let forms = vec![vec![Op::PaintPath { segments: 4 }]];
    let input = vec![
        Op::InvokeForm { form: 0, matrix: ident() },
        Op::InvokeForm { form: 0, matrix: ident() },
    ];
    let out = filter_page(&opts, &input, &forms).unwrap();
    assert_eq!(out.defs.len(), 0);
    let expected = vec![
        Op::PushState,
        Op::SetMatrix { matrix: ident() },
        Op::PaintPath { segments: 4 },
        Op::PopState,
        Op::PushState,
        Op::SetMatrix { matrix: ident() },
        Op::PaintPath { segments: 4 },
        Op::PopState,
    ];
    assert!(ops_eq(&out.ops, &expected));
}

#[test]
fn nested_forms_resolve() {
    let opts = PdfFilterOptions::default().set_recurse(true);
    let forms = vec![
        vec![Op::InvokeForm { form: 1, matrix: ident() }, Op::PaintPath { segments: 1 }],
        vec![Op::PaintPath { segments: 2 }],
    ];
    let input = vec![Op::InvokeForm { form: 0, matrix: ident() }];
    let out = filter_page(&opts, &input, &forms).unwrap();
    let expected = vec![
        Op::PushState,
        Op::SetMatrix { matrix: ident() },
        Op::PushState,
        Op::SetMatrix { matrix: ident() },
        Op::PaintPath { segments: 2 },
        Op::PopState,
        Op::PaintPath { segments: 1 },
        Op::PopState,
    ];
    assert!(ops_eq(&out.ops, &expected));
}

#[test]
fn cycle_detected() {
    let opts = PdfFilterOptions::default().set_recurse(true);
    let forms = vec![
        vec![Op::InvokeForm { form: 1, matrix: ident() }],
        vec![Op::InvokeForm { form: 0, matrix: ident() }],
    ];
    let input = vec![Op::InvokeForm { form: 0, matrix: ident() }];
    let r = filter_page(&opts, &input, &forms);
    assert!(matches!(r, Err(FilterError::CycleDetected)));
}

#[test]
fn self_cycle_detected() {
    let opts = PdfFilterOptions::default().set_recurse(true).set_instance_forms(true);
    let forms = vec![vec![Op::InvokeForm { form: 0, matrix: ident() }]];
    let input = vec![Op::InvokeForm { form: 0, matrix: ident() }];
    let r = filter_page(&opts, &input, &forms);
    assert!(matches!(r, Err(FilterError::CycleDetected)));
}

#[test]
fn unknown_form_is_resolution_failure() {
    let opts = PdfFilterOptions::default().set_recurse(true);
    let forms = vec![vec![Op::PaintPath { segments: 1 }]];
    let input = vec![Op::InvokeForm { form: 7, matrix: ident() }];
    let r = filter_page(&opts, &input, &forms);
    assert!(matches!(r, Err(FilterError::ResourceResolutionFailure)));
}

#[test]
fn recurse_off_keeps_invocations_opaque() {
    let opts = PdfFilterOptions::default();
    let forms = vec![vec![Op::InvokeForm { form: 0, matrix: ident() }]];
    let input = vec![Op::InvokeForm { form: 0, matrix: ident() }];
    let out = filter_page(&opts, &input, &forms).unwrap();
    assert!(ops_eq(&out.ops, &input));
}

#[test]
fn options_builder_defaults_and_chaining() {
    let opts = PdfFilterOptions::default();
    assert!(!opts.ascii());
    assert!(!opts.recurse());
    assert!(!opts.sanitize());
    assert!(!opts.instance_forms());
    let opts = opts.set_ascii(true).set_recurse(true).set_sanitize(true).set_instance_forms(true);
    assert!(opts.ascii());
    assert!(opts.recurse());
    assert!(opts.sanitize());
    assert!(opts.instance_forms());
}

#[test]
fn text_decisions_assemble_kept_and_transformed_runs() {
    let decided = vec![
        (TextRun { ucs: 65, len: 1 }, TextDecision::Keep),
        (TextRun { ucs: 66, len: 1 }, TextDecision::Drop),
        (TextRun { ucs: 67, len: 1 }, TextDecision::Transform(TextRun { ucs: 90, len: 3 })),
    ];
    let r = apply_text_decisions(decided, &ident(), &bbox()).unwrap();
    match &r {
        Op::PaintText { runs, .. } => {
            assert_eq!(
                runs.as_slice(),
                &[TextRun { ucs: 65, len: 1 }, TextRun { ucs: 90, len: 3 }]
            );
        }
        _ => panic!("expected a text object"),
    }
    let all_dropped = vec![
        (TextRun { ucs: 65, len: 1 }, TextDecision::Drop),
        (TextRun { ucs: 66, len: 1 }, TextDecision::Drop),
    ];
    assert!(apply_text_decisions(all_dropped, &ident(), &bbox()).is_none());
}

#[test]
fn image_decision_substitutes_or_keeps() {
    let cs = ColorSpace::device_rgb();
    let src = Pixmap::new_with_w_h(&cs, 3, 3, false).unwrap();
    let name = Some(vec![b'X']);
    let kept = apply_image_decision(&name, &src, &ident(), None);
    match &kept {
        Op::PaintImage { image, name: n2, .. } => {
            assert_eq!(image.width(), 3);
            assert_eq!(n2, &name);
        }
        _ => panic!("expected an image operator"),
    }
    let repl = Pixmap::new_with_w_h(&cs, 1, 1, false).unwrap();
    let swapped = apply_image_decision(&name, &src, &ident(), Some(repl));
    match &swapped {
        Op::PaintImage { image, .. } => assert_eq!(image.width(), 1),
        _ => panic!("expected an image operator"),
    }
    assert_eq!(src.width(), 3);
}

#[test]
fn inline_expansion_carries_the_invocation_transform() {
    let opts = PdfFilterOptions::default().set_recurse(true);
    let forms = vec![vec![Op::PaintPath { segments: 4 }]];
    let scale = Matrix { a: 2, b: 0, c: 0, d: 2, e: 5, f: 6 };
    let input = vec![Op::InvokeForm { form: 0, matrix: scale }];
    let out = filter_page(&opts, &input, &forms).unwrap();
    let expected = vec![
        Op::PushState,
        Op::SetMatrix { matrix: scale },
        Op::PaintPath { segments: 4 },
        Op::PopState,
    ];
    assert!(ops_eq(&out.ops, &expected));
}

#[test]
fn matrix_concat_identity_and_translation() {
    let id = Matrix::identity();
    let t = Matrix { a: 1, b: 0, c: 0, d: 1, e: 10, f: 20 };
    assert_eq!(id.concat(&t), Matrix { a: 1, b: 0, c: 0, d: 1, e: 10, f: 20 });
    let s = Matrix { a: 2, b: 0, c: 0, d: 3, e: 0, f: 0 };
    let st = s.concat(&t);
    assert_eq!(st, Matrix { a: 2, b: 0, c: 0, d: 3, e: 10, f: 20 });
    let big = Matrix { a: i64::MAX, b: 0, c: 0, d: i64::MAX, e: 0, f: 0 };
    let sat = big.concat(&big);
    assert_eq!(sat.a, i64::MAX);
}

struct CountingHooks {
    text_decision: TextDecision,
    replace_images: bool,
    fail_text_with: Option<u32>,
    texts_seen: usize,
    images_seen: usize,
    after_text_objects: usize,
    pages_ended: usize,
}

impl CountingHooks {
    fn new() -> CountingHooks {
        CountingHooks {
            text_decision: TextDecision::Keep,
            replace_images: false,
            fail_text_with: None,
            texts_seen: 0,
            images_seen: 0,
            after_text_objects: 0,
            pages_ended: 0,
        }
    }
}

impl FilterHooks for CountingHooks {
    fn filter_text(
        &mut self,
        _ucs: i32,
        _len: i32,
        _text_matrix: &Matrix,
        _ctm: &Matrix,
        _bbox: &Rect,
    ) -> Result<TextDecision, u32> {
        self.texts_seen += 1;
        if let Some(code) = self.fail_text_with {
            return Err(code);
        }
        Ok(self.text_decision)
    }

    fn filter_image(
        &mut self,
        _ctm: &Matrix,
        _name: &Option<Vec<u8>>,
        _image: &Pixmap,
    ) -> Result<Option<Pixmap>, u32> {
        self.images_seen += 1;
        if self.replace_images {
            let cs = ColorSpace::device_rgb();
            Ok(Some(Pixmap::new_with_w_h(&cs, 1, 1, false).unwrap()))
        } else {
            Ok(None)
        }
    }

    fn after_text_object(&mut self, _ctm: &Matrix) {
        self.after_text_objects += 1;
    }

    fn end_page(&mut self) {
        self.pages_ended += 1;
    }
}

#[test]
fn image_hook_replaces_every_image() {
    let opts = PdfFilterOptions::default();
    let input = vec![image(3, 3), Op::PaintPath { segments: 1 }, image(4, 2)];
    let forms: Vec<Vec<Op>> = vec![];
    let mut hooks = CountingHooks::new();
    hooks.replace_images = true;
    let out = filter_page_with_hooks(&opts, &mut hooks, &input, &forms, &ident()).unwrap();
    assert_eq!(hooks.images_seen, 2);
    let mut replaced: usize = 0;
    for op in &out.ops {
        if let Op::PaintImage { image: pix, .. } = op {
            assert_eq!(pix.width(), 1);
            assert_eq!(pix.height(), 1);
            replaced += 1;
        }
    }
    assert_eq!(replaced, 2);
}

#[test]
fn image_hook_none_keeps_original() {
    let opts = PdfFilterOptions::default();
    let input = vec![image(3, 3)];
    let forms: Vec<Vec<Op>> = vec![];
    let mut hooks = CountingHooks::new();
    let out = filter_page_with_hooks(&opts, &mut hooks, &input, &forms, &ident()).unwrap();
    assert_eq!(hooks.images_seen, 1);
    assert!(ops_eq(&out.ops, &input));
}

#[test]
fn drop_all_text_still_fires_boundary_hooks() {
    let opts = PdfFilterOptions::default();
    let input = vec![
        text(vec![TextRun { ucs: 65, len: 1 }, TextRun { ucs: 66, len: 1 }]),
        Op::PaintPath { segments: 1 },
        text(vec![TextRun { ucs: 67, len: 1 }]),
    ];
    let forms: Vec<Vec<Op>> = vec![];
    let mut hooks = CountingHooks::new();
    hooks.text_decision = TextDecision::Drop;
    let out = filter_page_with_hooks(&opts, &mut hooks, &input, &forms, &ident()).unwrap();
    assert!(out.ops.iter().all(|op| !matches!(op, Op::PaintText { .. })));
    assert_eq!(out.ops.len(), 1);
    assert_eq!(hooks.texts_seen, 3);
    assert_eq!(hooks.after_text_objects, 2);
    assert_eq!(hooks.pages_ended, 1);
}

#[test]
fn transform_substitutes_replacement_run() {
    let opts = PdfFilterOptions::default();
    let input = vec![text(vec![TextRun { ucs: 65, len: 1 }])];
    let forms: Vec<Vec<Op>> = vec![];
    let mut hooks = CountingHooks::new();
    hooks.text_decision = TextDecision::Transform(TextRun { ucs: 90, len: 2 });
    let out = filter_page_with_hooks(&opts, &mut hooks, &input, &forms, &ident()).unwrap();
    assert_eq!(out.ops.len(), 1);
    match &out.ops[0] {
        Op::PaintText { runs, .. } => {
            assert_eq!(runs.as_slice(), &[TextRun { ucs: 90, len: 2 }]);
        }
        _ => panic!("expected a text object"),
    }
    assert_eq!(hooks.after_text_objects, 1);
}

#[test]
fn hook_failure_aborts_pass() {
    let opts = PdfFilterOptions::default();
    let input = vec![text(vec![TextRun { ucs: 65, len: 1 }])];
    let forms: Vec<Vec<Op>> = vec![];
    let mut hooks = CountingHooks::new();
    hooks.fail_text_with = Some(9);
    let r = filter_page_with_hooks(&opts, &mut hooks, &input, &forms, &ident());
    assert!(matches!(r, Err(FilterError::HookFailure(9))));
    assert_eq!(hooks.pages_ended, 0);
}

#[test]
fn hooks_reach_nested_forms() {
    let opts = PdfFilterOptions::default().set_recurse(true);
    let forms = vec![vec![image(3, 3)]];
    let input = vec![
        Op::InvokeForm { form: 0, matrix: ident() },
        Op::InvokeForm { form: 0, matrix: ident() },
    ];
    let mut hooks = CountingHooks::new();
    hooks.replace_images = true;
    let out = filter_page_with_hooks(&opts, &mut hooks, &input, &forms, &ident()).unwrap();
    assert_eq!(hooks.images_seen, 2);
    assert_eq!(out.ops.len(), 8);
    let mut replaced: usize = 0;
    for op in &out.ops {
        if let Op::PaintImage { image: pix, .. } = op {
            assert_eq!(pix.width(), 1);
            replaced += 1;
        }
    }
    assert_eq!(replaced, 2);
    assert_eq!(hooks.pages_ended, 1);
}
