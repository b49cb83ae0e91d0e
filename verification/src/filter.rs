use vstd::pervasive::VecAdditionalExecFns;
use vstd::prelude::*;
use vstd::set_lib::lemma_int_range;
use vstd::set_lib::set_int_range;

use crate::error::FilterError;
use crate::ops::{forms_view, ops_view, Op, OpView};
use crate::options::PdfFilterOptions;
use crate::sanitize::{balanced, balanced_from, sanitize_ops, spec_sanitize};

verus! {

/// One emitted form definition: the filtered body of the form with
/// identity `form`, written once and referenced by [`OpView::FormRef`]
/// thereafter.
pub struct FormDef {
    pub form: usize,
    pub body: Vec<Op>,
}

/// The mathematical value of a form definition.
pub ghost struct DefView {
    pub form: int,
    pub body: Seq<OpView>,
}

/// The mathematical value of the emitted definition table.
pub open spec fn defs_view(s: Seq<FormDef>) -> Seq<DefView> {
    s.map_values(|d: FormDef| DefView { form: d.form as int, body: ops_view(d.body@) })
}

/// Whether the table already holds a definition for identity `id`.
pub open spec fn has_def(defs: Seq<DefView>, id: int) -> bool {
    exists|j: int| 0 <= j < defs.len() && defs[j].form == id
}

/// A given resource identity is assigned at most one definition.
pub open spec fn distinct_defs(defs: Seq<DefView>) -> bool {
    forall|j: int, k: int| 0 <= j < k < defs.len() ==> defs[j].form != defs[k].form
}

/// What a filter pass produces: the transformed operator stream, the form
/// definitions to be written once and referenced, and the `ascii` flag the
/// output stage consults to choose printable-safe operand encoding.
pub struct FilterOutput {
    pub ops: Vec<Op>,
    pub defs: Vec<FormDef>,
    pub ascii: bool,
}

/// The mathematical value of a successful pass.
pub ghost struct ResolveOk {
    pub out: Seq<OpView>,
    pub defs: Seq<DefView>,
}

/// The mathematical outcome of a pass over one stream.
pub ghost enum ResolveRes {
    Done(ResolveOk),
    Fail(FilterError),
}

/// Prepends already-emitted operators to a pass outcome; a failure yields
/// no usable output, so the prefix is discarded.
pub open spec fn cons_out(prefix: Seq<OpView>, r: ResolveRes) -> ResolveRes {
    match r {
        ResolveRes::Done(o) => ResolveRes::Done(ResolveOk { out: prefix + o.out, defs: o.defs }),
        ResolveRes::Fail(e) => ResolveRes::Fail(e),
    }
}

/// The outcome of the filter stage over one operator stream.
///
/// `depth` counts the open graphics-state saves of this stream; `avail`
/// holds the form identities not currently being resolved on the call
/// stack (an invocation of one of the others is a cycle); `defs` is the
/// definition table built so far.  Form bodies are resolved recursively;
/// with `instance_forms` a body is emitted once as a definition and
/// referenced thereafter, otherwise it is inlined at every invocation,
/// bracketed by a state save and restore with the invocation's transform
/// composed in, so the flattened stream stays equivalent to the original.
pub open spec fn spec_resolve(
    cfg: PdfFilterOptions,
    forms: Seq<Seq<OpView>>,
    ops: Seq<OpView>,
    depth: nat,
    avail: Set<int>,
    defs: Seq<DefView>,
) -> ResolveRes
    decreases avail.len(), ops.len()
    when avail.finite()
{
    if ops.len() == 0 {
        if depth == 0 {
            ResolveRes::Done(ResolveOk { out: Seq::empty(), defs })
        } else {
            ResolveRes::Fail(FilterError::StructuralError)
        }
    } else {
        let op = ops.first();
        let rest = ops.drop_first();
        match op {
            OpView::PushState => cons_out(
                seq![op],
                spec_resolve(cfg, forms, rest, depth + 1, avail, defs),
            ),
            OpView::PopState => {
                if depth == 0 {
                    ResolveRes::Fail(FilterError::StructuralError)
                } else {
                    cons_out(
                        seq![op],
                        spec_resolve(cfg, forms, rest, (depth - 1) as nat, avail, defs),
                    )
                }
            },
            OpView::InvokeForm { form, matrix } => {
                if !cfg.spec_recurse() {
                    cons_out(seq![op], spec_resolve(cfg, forms, rest, depth, avail, defs))
                } else if form < 0 || form >= forms.len() {
                    ResolveRes::Fail(FilterError::ResourceResolutionFailure)
                } else if cfg.spec_instance_forms() && has_def(defs, form) {
                    cons_out(
                        seq![OpView::FormRef { form, matrix }],
                        spec_resolve(cfg, forms, rest, depth, avail, defs),
                    )
                } else if !avail.contains(form) {
                    ResolveRes::Fail(FilterError::CycleDetected)
                } else {
                    match spec_resolve(cfg, forms, forms[form], 0, avail.remove(form), defs) {
                        ResolveRes::Fail(e) => ResolveRes::Fail(e),
                        ResolveRes::Done(b) => {
                            if cfg.spec_instance_forms() {
                                cons_out(
                                    seq![OpView::FormRef { form, matrix }],
                                    spec_resolve(
                                        cfg,
                                        forms,
                                        rest,
                                        depth,
                                        avail,
                                        b.defs.push(DefView { form, body: b.out }),
                                    ),
                                )
                            } else {
                                cons_out(
                                    seq![OpView::PushState, OpView::SetMatrix { matrix }] + b.out
                                        + seq![OpView::PopState],
                                    spec_resolve(cfg, forms, rest, depth, avail, b.defs),
                                )
                            }
                        },
                    }
                }
            },
            _ => cons_out(seq![op], spec_resolve(cfg, forms, rest, depth, avail, defs)),
        }
    }
}

/// The outcome of a whole filter pass over a page stream: the normalizing
/// stage first when `sanitize` is set (over the page and every form body),
/// then the filter stage with every form identity available.
pub open spec fn spec_filter_page(
    cfg: PdfFilterOptions,
    forms: Seq<Seq<OpView>>,
    input: Seq<OpView>,
) -> ResolveRes {
    let inp = if cfg.spec_sanitize() {
        spec_sanitize(input)
    } else {
        input
    };
    let fms = if cfg.spec_sanitize() {
        forms.map_values(|b: Seq<OpView>| spec_sanitize(b))
    } else {
        forms
    };
    spec_resolve(cfg, fms, inp, 0, set_int_range(0, forms.len() as int), Seq::empty())
}

proof fn lemma_cons_out_assoc(a: Seq<OpView>, b: Seq<OpView>, r: ResolveRes)
    ensures
        cons_out(a + b, r) == cons_out(a, cons_out(b, r)),
{
    match r {
        ResolveRes::Done(o) => {
            assert((a + b) + o.out =~= a + (b + o.out));
        },
        ResolveRes::Fail(_) => {},
    }
}

/// With `recurse` off the filter stage is the identity on a stream whose
/// save/restore pairs balance from `depth`, and a structural error
/// otherwise.
proof fn lemma_resolve_norecurse(
    cfg: PdfFilterOptions,
    forms: Seq<Seq<OpView>>,
    ops: Seq<OpView>,
    depth: nat,
    avail: Set<int>,
    defs: Seq<DefView>,
)
    requires
        !cfg.spec_recurse(),
        avail.finite(),
    ensures
        balanced_from(ops, depth) ==> spec_resolve(cfg, forms, ops, depth, avail, defs)
            == ResolveRes::Done(ResolveOk { out: ops, defs }),
        !balanced_from(ops, depth) ==> spec_resolve(cfg, forms, ops, depth, avail, defs)
            == ResolveRes::Fail(FilterError::StructuralError),
    decreases ops.len(),
{
    if ops.len() == 0 {
        assert(Seq::<OpView>::empty() =~= ops);
    } else {
        let rest = ops.drop_first();
        match ops.first() {
            OpView::PushState => {
                lemma_resolve_norecurse(cfg, forms, rest, depth + 1, avail, defs);
            },
            OpView::PopState => {
                if depth > 0 {
                    lemma_resolve_norecurse(cfg, forms, rest, (depth - 1) as nat, avail, defs);
                }
            },
            _ => {
                lemma_resolve_norecurse(cfg, forms, rest, depth, avail, defs);
            },
        }
        if balanced_from(ops, depth) {
            assert(seq![ops.first()] + rest =~= ops);
        }
    }
}

/// The filter stage keeps the definition table distinct: the table grows
/// monotonically, each identity is defined at most once, every identity it
/// adds was available, and every reference operator it emits has its
/// definition in the final table.
proof fn lemma_resolve_defs(
    cfg: PdfFilterOptions,
    forms: Seq<Seq<OpView>>,
    ops: Seq<OpView>,
    depth: nat,
    avail: Set<int>,
    defs: Seq<DefView>,
)
    requires
        avail.finite(),
        distinct_defs(defs),
        crate::ops::no_form_refs(ops),
        forall|i: int| 0 <= i < forms.len() ==> crate::ops::no_form_refs(#[trigger] forms[i]),
    ensures
        spec_resolve(cfg, forms, ops, depth, avail, defs) matches ResolveRes::Done(o) ==> {
            &&& o.defs.len() >= defs.len()
            &&& o.defs.subrange(0, defs.len() as int) == defs
            &&& distinct_defs(o.defs)
            &&& forall|j: int|
                defs.len() <= j < o.defs.len() ==> avail.contains(#[trigger] o.defs[j].form)
            &&& forall|k: int|
                0 <= k < o.out.len() ==> ((#[trigger] o.out[k]) matches OpView::FormRef {
                    form,
                    ..
                } ==> has_def(o.defs, form))
        },
    decreases avail.len(), ops.len(),
{
    if ops.len() == 0 {
        assert(defs.subrange(0, defs.len() as int) =~= defs);
    } else {
        let op = ops.first();
        let rest = ops.drop_first();
        assert(!(ops[0] is FormRef));
        assert(forall|i: int| 0 <= i < rest.len() ==> rest[i] == ops[i + 1]);
        match op {
            OpView::PushState => {
                lemma_resolve_defs(cfg, forms, rest, depth + 1, avail, defs);
                lemma_defs_cons_plain(cfg, forms, rest, depth + 1, avail, defs, op);
            },
            OpView::PopState => {
                if depth > 0 {
                    lemma_resolve_defs(cfg, forms, rest, (depth - 1) as nat, avail, defs);
                    lemma_defs_cons_plain(cfg, forms, rest, (depth - 1) as nat, avail, defs, op);
                }
            },
            OpView::InvokeForm { form, matrix } => {
                if !cfg.spec_recurse() {
                    lemma_resolve_defs(cfg, forms, rest, depth, avail, defs);
                    lemma_defs_cons_plain(cfg, forms, rest, depth, avail, defs, op);
                } else if form < 0 || form >= forms.len() {
                } else if cfg.spec_instance_forms() && has_def(defs, form) {
                    lemma_resolve_defs(cfg, forms, rest, depth, avail, defs);
                    let inner = spec_resolve(cfg, forms, rest, depth, avail, defs);
                    if let ResolveRes::Done(o2) = inner {
                        let fr = OpView::FormRef { form, matrix };
                        let whole = seq![fr] + o2.out;
                        assert forall|k: int| 0 <= k < whole.len() implies ((#[trigger] whole[k])
                            matches OpView::FormRef { form: f2, .. } ==> has_def(o2.defs, f2)) by {
                            if k == 0 {
                                let j = choose|j: int|
                                    0 <= j < defs.len() && defs[j].form == form;
                                assert(o2.defs.subrange(0, defs.len() as int)[j] == defs[j]);
                                assert(o2.defs[j].form == form);
                            } else {
                                assert(whole[k] == o2.out[k - 1]);
                            }
                        }
                    }
                } else if !avail.contains(form) {
                } else {
                    let body_r = spec_resolve(cfg, forms, forms[form], 0, avail.remove(form), defs);
                    lemma_resolve_defs(cfg, forms, forms[form], 0, avail.remove(form), defs);
                    if let ResolveRes::Done(b) = body_r {
                        if cfg.spec_instance_forms() {
                            let defs2 = b.defs.push(DefView { form, body: b.out });
                            assert(defs2.subrange(0, defs.len() as int)
                                =~= b.defs.subrange(0, defs.len() as int));
                            assert(distinct_defs(defs2)) by {
                                assert(!has_def(b.defs, form)) by {
                                    if has_def(b.defs, form) {
                                        let j = choose|j: int|
                                            0 <= j < b.defs.len() && b.defs[j].form == form;
                                        if j < defs.len() {
                                            assert(b.defs.subrange(0, defs.len() as int)[j]
                                                == b.defs[j]);
                                            assert(has_def(defs, form));
                                        } else {
                                            assert(avail.remove(form).contains(form));
                                        }
                                    }
                                }
                            }
                            lemma_resolve_defs(cfg, forms, rest, depth, avail, defs2);
                            let inner = spec_resolve(cfg, forms, rest, depth, avail, defs2);
                            if let ResolveRes::Done(o2) = inner {
                                assert(o2.defs.subrange(0, defs.len() as int) =~= defs) by {
                                    assert(o2.defs.subrange(0, defs2.len() as int) == defs2);
                                    assert(forall|j: int| 0 <= j < defs.len() ==> o2.defs[j]
                                        == defs2.subrange(0, defs2.len() as int)[j]);
                                }
                                assert forall|j: int|
                                    defs.len() <= j < o2.defs.len() implies avail.contains(
                                    #[trigger] o2.defs[j].form,
                                ) by {
                                    if j < defs2.len() {
                                        assert(o2.defs.subrange(0, defs2.len() as int)[j]
                                            == o2.defs[j]);
                                        assert(o2.defs[j] == defs2[j]);
                                        if j < b.defs.len() {
                                            assert(avail.remove(form).contains(b.defs[j].form));
                                        } else {
                                            assert(defs2[j].form == form);
                                        }
                                    }
                                }
                                let fr = OpView::FormRef { form, matrix };
                                let whole = seq![fr] + o2.out;
                                assert(has_def(o2.defs, form)) by {
                                    assert(o2.defs.subrange(0, defs2.len() as int)[defs2.len() - 1]
                                        == defs2[defs2.len() - 1]);
                                    assert(o2.defs[defs2.len() - 1].form == form);
                                }
                                assert forall|k: int| 0 <= k < whole.len() implies ((
                                #[trigger] whole[k]) matches OpView::FormRef { form: f2, .. }
                                    ==> has_def(o2.defs, f2)) by {
                                    if k > 0 {
                                        assert(whole[k] == o2.out[k - 1]);
                                    }
                                }
                            }
                        } else {
                            lemma_resolve_defs(cfg, forms, rest, depth, avail, b.defs);
                            let inner = spec_resolve(cfg, forms, rest, depth, avail, b.defs);
                            if let ResolveRes::Done(o2) = inner {
                                assert(o2.defs.subrange(0, defs.len() as int) =~= defs) by {
                                    assert(o2.defs.subrange(0, b.defs.len() as int) == b.defs);
                                    assert(forall|j: int| 0 <= j < b.defs.len() ==> o2.defs[j]
                                        == o2.defs.subrange(0, b.defs.len() as int)[j]);
                                    assert(forall|j: int| 0 <= j < defs.len() ==> b.defs[j]
                                        == b.defs.subrange(0, defs.len() as int)[j]);
                                }
                                assert forall|j: int|
                                    defs.len() <= j < o2.defs.len() implies avail.contains(
                                    #[trigger] o2.defs[j].form,
                                ) by {
                                    if j < b.defs.len() {
                                        assert(o2.defs.subrange(0, b.defs.len() as int)[j]
                                            == o2.defs[j]);
                                        assert(o2.defs[j] == b.defs[j]);
                                        assert(avail.remove(form).contains(b.defs[j].form));
                                    }
                                }
                                let wrap = seq![OpView::PushState, OpView::SetMatrix { matrix }]
                                    + b.out + seq![OpView::PopState];
                                let whole = wrap + o2.out;
                                assert forall|k: int| 0 <= k < whole.len() implies ((
                                #[trigger] whole[k]) matches OpView::FormRef { form: f2, .. }
                                    ==> has_def(o2.defs, f2)) by {
                                    if k < wrap.len() {
                                        assert(whole[k] == wrap[k]);
                                        if 2 <= k < 2 + b.out.len() {
                                            assert(wrap[k] == b.out[k - 2]);
                                            if let OpView::FormRef { form: f2, .. } = wrap[k] {
                                                assert(has_def(b.defs, f2));
                                                let j = choose|j: int|
                                                    0 <= j < b.defs.len() && b.defs[j].form == f2;
                                                assert(o2.defs.subrange(0, b.defs.len() as int)[j]
                                                    == b.defs[j]);
                                                assert(o2.defs[j].form == f2);
                                            }
                                        } else if k == 2 + b.out.len() {
                                            assert(wrap[k] == OpView::PopState);
                                        } else {
                                            assert(wrap[k] == (seq![
                                                OpView::PushState,
                                                OpView::SetMatrix { matrix },
                                            ])[k]);
                                        }
                                    } else {
                                        assert(whole[k] == o2.out[k - wrap.len()]);
                                    }
                                }
                            }
                        }
                    }
                }
            },
            _ => {
                lemma_resolve_defs(cfg, forms, rest, depth, avail, defs);
                lemma_defs_cons_plain(cfg, forms, rest, depth, avail, defs, op);
            },
        }
    }
}

/// Helper: prepending one operator that is not a reference keeps the
/// definition-table facts of the continuation.
proof fn lemma_defs_cons_plain(
    cfg: PdfFilterOptions,
    forms: Seq<Seq<OpView>>,
    rest: Seq<OpView>,
    depth: nat,
    avail: Set<int>,
    defs: Seq<DefView>,
    op: OpView,
)
    requires
        avail.finite(),
        !(op is FormRef),
        spec_resolve(cfg, forms, rest, depth, avail, defs) matches ResolveRes::Done(o) ==> forall|
            k: int,
        |
            0 <= k < o.out.len() ==> ((#[trigger] o.out[k]) matches OpView::FormRef { form, .. }
                ==> has_def(o.defs, form)),
    ensures
        spec_resolve(cfg, forms, rest, depth, avail, defs) matches ResolveRes::Done(o) ==> forall|
            k: int,
        |
            0 <= k < (seq![op] + o.out).len() ==> ((#[trigger] (seq![op] + o.out)[k]) matches
                OpView::FormRef { form, .. } ==> has_def(o.defs, form)),
{
    let r = spec_resolve(cfg, forms, rest, depth, avail, defs);
    if let ResolveRes::Done(o) = r {
        let whole = seq![op] + o.out;
        assert forall|k: int| 0 <= k < whole.len() implies ((#[trigger] whole[k]) matches
            OpView::FormRef { form, .. } ==> has_def(o.defs, form)) by {
            if k > 0 {
                assert(whole[k] == o.out[k - 1]);
            }
        }
    }
}

/// The filter stage never reports a structural error over streams whose
/// save/restore pairs balance, as every sanitized stream does.
proof fn lemma_resolve_no_structural(
    cfg: PdfFilterOptions,
    forms: Seq<Seq<OpView>>,
    ops: Seq<OpView>,
    depth: nat,
    avail: Set<int>,
    defs: Seq<DefView>,
)
    requires
        avail.finite(),
        balanced_from(ops, depth),
        forall|i: int| 0 <= i < forms.len() ==> balanced(#[trigger] forms[i]),
    ensures
        spec_resolve(cfg, forms, ops, depth, avail, defs) != ResolveRes::Fail(
            FilterError::StructuralError,
        ),
    decreases avail.len(), ops.len(),
{
    if ops.len() == 0 {
    } else {
        let op = ops.first();
        let rest = ops.drop_first();
        match op {
            OpView::PushState => {
                lemma_resolve_no_structural(cfg, forms, rest, depth + 1, avail, defs);
            },
            OpView::PopState => {
                lemma_resolve_no_structural(cfg, forms, rest, (depth - 1) as nat, avail, defs);
            },
            OpView::InvokeForm { form, matrix } => {
                if !cfg.spec_recurse() {
                    lemma_resolve_no_structural(cfg, forms, rest, depth, avail, defs);
                } else if form < 0 || form >= forms.len() {
                } else if cfg.spec_instance_forms() && has_def(defs, form) {
                    lemma_resolve_no_structural(cfg, forms, rest, depth, avail, defs);
                } else if !avail.contains(form) {
                } else {
                    let body_r = spec_resolve(cfg, forms, forms[form], 0, avail.remove(form), defs);
                    lemma_resolve_no_structural(
                        cfg,
                        forms,
                        forms[form],
                        0,
                        avail.remove(form),
                        defs,
                    );
                    if let ResolveRes::Done(b) = body_r {
                        if cfg.spec_instance_forms() {
                            lemma_resolve_no_structural(
                                cfg,
                                forms,
                                rest,
                                depth,
                                avail,
                                b.defs.push(DefView { form, body: b.out }),
                            );
                        } else {
                            lemma_resolve_no_structural(cfg, forms, rest, depth, avail, b.defs);
                        }
                    }
                }
            },
            _ => {
                lemma_resolve_no_structural(cfg, forms, rest, depth, avail, defs);
            },
        }
    }
}

/// A form invocation graph with a two-form cycle makes the pass stop with
/// [`FilterError::CycleDetected`]: invoking `a` resolves `a`, which
/// invokes `b`, which invokes `a` again while `a` is still being resolved
/// on the same call stack.  The pass itself always terminates, cycle or
/// not: every function of this library is total.
pub proof fn lemma_cycle_detected(
    cfg: PdfFilterOptions,
    forms: Seq<Seq<OpView>>,
    a: int,
    b: int,
    ma: crate::geom::Matrix,
    mb: crate::geom::Matrix,
    mc: crate::geom::Matrix,
)
    requires
        cfg.spec_recurse(),
        0 <= a < forms.len(),
        0 <= b < forms.len(),
        a != b,
        forms[a] == seq![OpView::InvokeForm { form: b, matrix: mb }],
        forms[b] == seq![OpView::InvokeForm { form: a, matrix: mc }],
    ensures
        spec_filter_page(cfg, forms, seq![OpView::InvokeForm { form: a, matrix: ma }])
            == ResolveRes::Fail(FilterError::CycleDetected),
{
    let n = forms.len() as int;
    let avail0 = set_int_range(0, n);
    lemma_int_range(0, n);
    let avail1 = avail0.remove(a);
    let avail2 = avail1.remove(b);
    let e0: Seq<DefView> = Seq::empty();
    let ia = OpView::InvokeForm { form: a, matrix: ma };
    let ib = OpView::InvokeForm { form: b, matrix: mb };
    let ic = OpView::InvokeForm { form: a, matrix: mc };
    let inp = if cfg.spec_sanitize() {
        spec_sanitize(seq![ia])
    } else {
        seq![ia]
    };
    let fms = if cfg.spec_sanitize() {
        forms.map_values(|s: Seq<OpView>| spec_sanitize(s))
    } else {
        forms
    };
    if cfg.spec_sanitize() {
        lemma_sanitize_single_invoke(ia);
        lemma_sanitize_single_invoke(ib);
        lemma_sanitize_single_invoke(ic);
    }
    assert(inp == seq![ia]);
    assert(fms.len() == forms.len());
    assert(fms[a] == seq![ib]);
    assert(fms[b] == seq![ic]);
    assert(!has_def(e0, a));
    assert(!has_def(e0, b));
    assert(seq![ic].first() == ic);
    assert(!avail2.contains(a));
    assert(spec_resolve(cfg, fms, seq![ic], 0, avail2, e0) == ResolveRes::Fail(
        FilterError::CycleDetected,
    ));
    assert(seq![ib].first() == ib);
    assert(avail1.contains(b));
    assert(spec_resolve(cfg, fms, seq![ib], 0, avail1, e0) == ResolveRes::Fail(
        FilterError::CycleDetected,
    ));
    assert(seq![ia].first() == ia);
    assert(avail0.contains(a));
    assert(spec_resolve(cfg, fms, seq![ia], 0, avail0, e0) == ResolveRes::Fail(
        FilterError::CycleDetected,
    ));
}

/// Every form invocation of the stream targets a valid identity whose
/// rank lies below `bound`.
pub open spec fn invokes_below(s: Seq<OpView>, nforms: int, rank: Seq<nat>, bound: nat) -> bool {
    forall|k: int|
        0 <= k < s.len() ==> ((#[trigger] s[k]) matches OpView::InvokeForm { form, .. } ==> (0
            <= form < nforms && rank[form] < bound))
}

/// The ranking strictly decreases along every invocation edge of the form
/// table: a witness that the invocation graph has no cycle.
pub open spec fn ranked_edges(forms: Seq<Seq<OpView>>, rank: Seq<nat>) -> bool {
    forall|a: int|
        0 <= a < forms.len() ==> invokes_below(
            #[trigger] forms[a],
            forms.len() as int,
            rank,
            rank[a],
        )
}

proof fn lemma_resolve_no_cycle(
    cfg: PdfFilterOptions,
    forms: Seq<Seq<OpView>>,
    ops: Seq<OpView>,
    depth: nat,
    avail: Set<int>,
    defs: Seq<DefView>,
    rank: Seq<nat>,
    bound: nat,
)
    requires
        avail.finite(),
        rank.len() == forms.len(),
        invokes_below(ops, forms.len() as int, rank, bound),
        ranked_edges(forms, rank),
        forall|b: int| 0 <= b < forms.len() && rank[b] < bound ==> avail.contains(b),
    ensures
        spec_resolve(cfg, forms, ops, depth, avail, defs) != ResolveRes::Fail(
            FilterError::CycleDetected,
        ),
    decreases avail.len(), ops.len(),
{
    if ops.len() == 0 {
    } else {
        let op = ops.first();
        let rest = ops.drop_first();
        assert(forall|k: int| 0 <= k < rest.len() ==> rest[k] == ops[k + 1]);
        match op {
            OpView::PushState => {
                lemma_resolve_no_cycle(cfg, forms, rest, depth + 1, avail, defs, rank, bound);
            },
            OpView::PopState => {
                if depth > 0 {
                    lemma_resolve_no_cycle(
                        cfg,
                        forms,
                        rest,
                        (depth - 1) as nat,
                        avail,
                        defs,
                        rank,
                        bound,
                    );
                }
            },
            OpView::InvokeForm { form, matrix } => {
                assert(ops[0] == op);
                if !cfg.spec_recurse() {
                    lemma_resolve_no_cycle(cfg, forms, rest, depth, avail, defs, rank, bound);
                } else {
                    assert(0 <= form < forms.len() && rank[form] < bound);
                    if cfg.spec_instance_forms() && has_def(defs, form) {
                        lemma_resolve_no_cycle(cfg, forms, rest, depth, avail, defs, rank, bound);
                    } else {
                        assert(avail.contains(form));
                        assert forall|b: int|
                            0 <= b < forms.len() && rank[b] < rank[form] implies avail.remove(
                            form,
                        ).contains(b) by {
                            assert(rank[b] < bound);
                            assert(b != form);
                        }
                        lemma_resolve_no_cycle(
                            cfg,
                            forms,
                            forms[form],
                            0,
                            avail.remove(form),
                            defs,
                            rank,
                            rank[form],
                        );
                        let body_r = spec_resolve(
                            cfg,
                            forms,
                            forms[form],
                            0,
                            avail.remove(form),
                            defs,
                        );
                        if let ResolveRes::Done(b) = body_r {
                            if cfg.spec_instance_forms() {
                                lemma_resolve_no_cycle(
                                    cfg,
                                    forms,
                                    rest,
                                    depth,
                                    avail,
                                    b.defs.push(DefView { form, body: b.out }),
                                    rank,
                                    bound,
                                );
                            } else {
                                lemma_resolve_no_cycle(
                                    cfg,
                                    forms,
                                    rest,
                                    depth,
                                    avail,
                                    b.defs,
                                    rank,
                                    bound,
                                );
                            }
                        }
                    }
                }
            },
            _ => {
                lemma_resolve_no_cycle(cfg, forms, rest, depth, avail, defs, rank, bound);
            },
        }
    }
}

/// Over a form invocation graph without cycles — witnessed by a ranking
/// of the form identities that strictly decreases along every invocation
/// edge — the pass never stops with a cycle error; and, every function of
/// this library being total, it always terminates.  With the pass result
/// fixed exactly by [`spec_filter_page`], a cycle-free graph thus resolves
/// normally absent other errors.
pub proof fn lemma_acyclic_no_cycle(
    cfg: PdfFilterOptions,
    forms: Seq<Seq<OpView>>,
    input: Seq<OpView>,
    rank: Seq<nat>,
    bound: nat,
)
    requires
        rank.len() == forms.len(),
        ranked_edges(forms, rank),
        invokes_below(input, forms.len() as int, rank, bound),
    ensures
        spec_filter_page(cfg, forms, input) != ResolveRes::Fail(FilterError::CycleDetected),
{
    let n = forms.len() as int;
    let avail0 = set_int_range(0, n);
    lemma_int_range(0, n);
    let inp = if cfg.spec_sanitize() {
        spec_sanitize(input)
    } else {
        input
    };
    let fms = if cfg.spec_sanitize() {
        forms.map_values(|b: Seq<OpView>| spec_sanitize(b))
    } else {
        forms
    };
    if cfg.spec_sanitize() {
        let pinp = |o: OpView|
            (o matches OpView::InvokeForm { form, .. } ==> (0 <= form < n && rank[form] < bound));
        crate::sanitize::lemma_sanitize_all(input, pinp);
        assert(invokes_below(inp, n, rank, bound));
        assert forall|a: int| 0 <= a < fms.len() implies invokes_below(
            #[trigger] fms[a],
            fms.len() as int,
            rank,
            rank[a],
        ) by {
            let pa = |o: OpView|
                (o matches OpView::InvokeForm { form, .. } ==> (0 <= form < n && rank[form]
                    < rank[a]));
            assert(forall|k: int| 0 <= k < forms[a].len() ==> pa(#[trigger] forms[a][k]));
            crate::sanitize::lemma_sanitize_all(forms[a], pa);
            assert(fms[a] == spec_sanitize(forms[a]));
        }
        assert(ranked_edges(fms, rank));
    }
    lemma_resolve_no_cycle(cfg, fms, inp, 0, avail0, Seq::empty(), rank, bound);
}

/// A stream holding one form invocation is already in normal form, so the
/// normalizing stage leaves it unchanged.
proof fn lemma_sanitize_single_invoke(op: OpView)
    requires
        op is InvokeForm,
    ensures
        spec_sanitize(seq![op]) == seq![op],
{
    let s = seq![op];
    assert(!crate::sanitize::is_zero_paint(op));
    assert(s.first() == op);
    assert(s.drop_first() =~= Seq::<OpView>::empty());
    assert(balanced_from(Seq::<OpView>::empty(), 0));
    assert(balanced_from(s, 0));
    crate::sanitize::lemma_sanitize_identity(s);
}

} // verus!

verus! {

proof fn lemma_cons_out_nil(r: ResolveRes)
    ensures
        cons_out(Seq::empty(), r) == r,
{
    match r {
        ResolveRes::Done(o) => {
            assert(Seq::<OpView>::empty() + o.out =~= o.out);
        },
        ResolveRes::Fail(_) => {},
    }
}

/// The pass-local resolution state: which form identities are being
/// resolved on the current call stack, which already have a definition,
/// and the definition table built so far.
struct PassState {
    resolving: Vec<bool>,
    defined: Vec<bool>,
    defs: Vec<FormDef>,
}

spec fn st_wf(st: PassState, nforms: int) -> bool {
    &&& st.resolving@.len() == nforms
    &&& st.defined@.len() == nforms
    &&& forall|j: int| 0 <= j < nforms ==> (st.defined@[j] <==> has_def(defs_view(st.defs@), j))
    &&& forall|j: int| 0 <= j < st.defs@.len() ==> 0 <= (#[trigger] defs_view(st.defs@)[j]).form < nforms
    &&& distinct_defs(defs_view(st.defs@))
}

/// The form identities not currently being resolved on the call stack.
spec fn avail_of(r: Seq<bool>) -> Set<int> {
    Set::new(|i: int| 0 <= i < r.len() && !r[i])
}

fn resolve_stream(
    cfg: &PdfFilterOptions,
    forms: &Vec<Vec<Op>>,
    ops: &Vec<Op>,
    st: &mut PassState,
    Ghost(avail): Ghost<Set<int>>,
) -> (r: Result<Vec<Op>, FilterError>)
    requires
        st_wf(*old(st), forms@.len() as int),
        avail == avail_of(old(st).resolving@),
        avail.finite(),
    ensures
        st_wf(*final(st), forms@.len() as int),
        r matches Ok(out) ==> {
            &&& spec_resolve(
                *cfg,
                forms_view(forms@),
                ops_view(ops@),
                0,
                avail,
                defs_view(old(st).defs@),
            ) == ResolveRes::Done(ResolveOk {
                out: ops_view(out@),
                defs: defs_view(final(st).defs@),
            })
            &&& final(st).resolving@ == old(st).resolving@
        },
        r matches Ok(out) ==> forall|j: int|
            0 <= j < forms@.len() && old(st).resolving@[j] ==> final(st).defined@[j] == old(
                st,
            ).defined@[j],
        r matches Err(e) ==> spec_resolve(
            *cfg,
            forms_view(forms@),
            ops_view(ops@),
            0,
            avail,
            defs_view(old(st).defs@),
        ) == ResolveRes::Fail(e),
    decreases avail.len(), ops@.len(),
{
    let ghost fv = forms_view(forms@);
    let ghost w = ops_view(ops@);
    let ghost defs0 = defs_view(old(st).defs@);
    let mut out: Vec<Op> = Vec::new();
    let mut depth: usize = 0;
    let mut i: usize = 0;
    proof {
        assert(w.skip(0) =~= w);
        assert(ops_view(out@) =~= Seq::<OpView>::empty());
        lemma_cons_out_nil(spec_resolve(*cfg, fv, w, 0, avail, defs0));
    }
    while i < ops.len()
        invariant
            i <= ops@.len(),
            depth <= i,
            st_wf(*st, forms@.len() as int),
            st.resolving@ == old(st).resolving@,
            forall|j: int|
                0 <= j < forms@.len() && old(st).resolving@[j] ==> st.defined@[j] == old(
                    st,
                ).defined@[j],
            avail == avail_of(st.resolving@),
            avail.finite(),
            fv == forms_view(forms@),
            w == ops_view(ops@),
            defs0 == defs_view(old(st).defs@),
            cons_out(
                ops_view(out@),
                spec_resolve(*cfg, fv, w.skip(i as int), depth as nat, avail, defs_view(st.defs@)),
            ) == spec_resolve(*cfg, fv, w, 0, avail, defs0),
        decreases ops@.len() - i,
    {
        proof {
            assert(w.skip(i as int).len() > 0);
            assert(w.skip(i as int).first() == w[i as int]);
            assert(w.skip(i as int).drop_first() =~= w.skip(i as int + 1));
            assert(w[i as int] == ops@[i as int]@);
        }
        let ghost skip_i = w.skip(i as int);
        let ghost cur_defs = defs_view(st.defs@);
        let ghost old_outv = ops_view(out@);
        match &ops[i] {
            Op::PushState => {
                out.push(Op::PushState);
                proof {
                    let r_next = spec_resolve(
                        *cfg,
                        fv,
                        w.skip(i as int + 1),
                        (depth + 1) as nat,
                        avail,
                        cur_defs,
                    );
                    assert(spec_resolve(*cfg, fv, skip_i, depth as nat, avail, cur_defs)
                        == cons_out(seq![w[i as int]], r_next));
                    lemma_cons_out_assoc(old_outv, seq![w[i as int]], r_next);
                    assert(ops_view(out@) =~= old_outv + seq![w[i as int]]);
                }
                depth = depth + 1;
            },
            Op::PopState => {
                if depth == 0 {
                    proof {
                        assert(spec_resolve(*cfg, fv, skip_i, 0, avail, cur_defs)
                            == ResolveRes::Fail(FilterError::StructuralError));
                    }
                    return Err(FilterError::StructuralError);
                }
                out.push(Op::PopState);
                proof {
                    let r_next = spec_resolve(
                        *cfg,
                        fv,
                        w.skip(i as int + 1),
                        (depth - 1) as nat,
                        avail,
                        cur_defs,
                    );
                    assert(spec_resolve(*cfg, fv, skip_i, depth as nat, avail, cur_defs)
                        == cons_out(seq![w[i as int]], r_next));
                    lemma_cons_out_assoc(old_outv, seq![w[i as int]], r_next);
                    assert(ops_view(out@) =~= old_outv + seq![w[i as int]]);
                }
                depth = depth - 1;
            },
            Op::InvokeForm { form, matrix } => {
                let form_id: usize = *form;
                let m = *matrix;
                if !cfg.recurse() {
                    out.push(ops[i].duplicate());
                    proof {
                        let r_next = spec_resolve(
                            *cfg,
                            fv,
                            w.skip(i as int + 1),
                            depth as nat,
                            avail,
                            cur_defs,
                        );
                        assert(spec_resolve(*cfg, fv, skip_i, depth as nat, avail, cur_defs)
                            == cons_out(seq![w[i as int]], r_next));
                        lemma_cons_out_assoc(old_outv, seq![w[i as int]], r_next);
                        assert(ops_view(out@) =~= old_outv + seq![w[i as int]]);
                    }
                } else if form_id >= forms.len() {
                    proof {
                        assert(spec_resolve(*cfg, fv, skip_i, depth as nat, avail, cur_defs)
                            == ResolveRes::Fail(FilterError::ResourceResolutionFailure));
                    }
                    return Err(FilterError::ResourceResolutionFailure);
                } else {
                    let inst = cfg.instance_forms();
                    if inst && st.defined[form_id] {
                        out.push(Op::FormRef { form: form_id, matrix: m });
                        proof {
                            assert(has_def(cur_defs, form_id as int));
                            let frv = OpView::FormRef { form: form_id as int, matrix: m };
                            let r_next = spec_resolve(
                                *cfg,
                                fv,
                                w.skip(i as int + 1),
                                depth as nat,
                                avail,
                                cur_defs,
                            );
                            assert(spec_resolve(*cfg, fv, skip_i, depth as nat, avail, cur_defs)
                                == cons_out(seq![frv], r_next));
                            lemma_cons_out_assoc(old_outv, seq![frv], r_next);
                            assert(ops_view(out@) =~= old_outv + seq![frv]);
                        }
                    } else if st.resolving[form_id] {
                        proof {
                            assert(!avail.contains(form_id as int));
                            assert(!(cfg.spec_instance_forms() && has_def(cur_defs, form_id as int)));
                            assert(spec_resolve(*cfg, fv, skip_i, depth as nat, avail, cur_defs)
                                == ResolveRes::Fail(FilterError::CycleDetected));
                        }
                        return Err(FilterError::CycleDetected);
                    } else {
                        proof {
                            assert(avail.contains(form_id as int));
                            assert(!(cfg.spec_instance_forms() && has_def(cur_defs, form_id as int)));
                        }
                        let ghost resolving_before = st.resolving@;
                        st.resolving.set(form_id, true);
                        let ghost avail2 = avail.remove(form_id as int);
                        proof {
                            assert(avail2 =~= avail_of(st.resolving@));
                            assert(fv[form_id as int] == ops_view(forms@[form_id as int]@));
                        }
                        let ghost pre_defs = defs_view(st.defs@);
                        let body_r = resolve_stream(cfg, forms, &forms[form_id], st, Ghost(avail2));
                        match body_r {
                            Err(e) => {
                                proof {
                                    assert(spec_resolve(*cfg, fv, skip_i, depth as nat, avail, cur_defs)
                                        == ResolveRes::Fail(e));
                                }
                                return Err(e);
                            },
                            Ok(bout) => {
                                st.resolving.set(form_id, false);
                                proof {
                                    assert(st.resolving@ =~= resolving_before);
                                }
                                let ghost b = ResolveOk {
                                    out: ops_view(bout@),
                                    defs: defs_view(st.defs@),
                                };
                                if inst {
                                    st.defined.set(form_id, true);
                                    st.defs.push(FormDef { form: form_id, body: bout });
                                    out.push(Op::FormRef { form: form_id, matrix: m });
                                    proof {
                                        let dv = DefView {
                                            form: form_id as int,
                                            body: b.out,
                                        };
                                        assert(defs_view(st.defs@) =~= b.defs.push(dv));
                                        assert forall|j: int|
                                            0 <= j < forms@.len() implies (st.defined@[j]
                                            <==> has_def(defs_view(st.defs@), j)) by {
                                            let nd = defs_view(st.defs@);
                                            if j == form_id as int {
                                                assert(nd[nd.len() - 1].form == j);
                                            } else {
                                                if has_def(nd, j) {
                                                    let k = choose|k: int|
                                                        0 <= k < nd.len() && nd[k].form == j;
                                                    assert(k < b.defs.len());
                                                    assert(b.defs[k].form == j);
                                                }
                                                if has_def(b.defs, j) {
                                                    let k = choose|k: int|
                                                        0 <= k < b.defs.len() && b.defs[k].form
                                                            == j;
                                                    assert(nd[k].form == j);
                                                }
                                            }
                                        }
                                        assert(distinct_defs(defs_view(st.defs@))) by {
                                            let nd = defs_view(st.defs@);
                                            assert forall|x: int, y: int|
                                                0 <= x < y < nd.len() implies nd[x].form
                                                != nd[y].form by {
                                                if y == nd.len() - 1 {
                                                    if nd[x].form == form_id as int {
                                                        assert(b.defs[x].form == form_id as int);
                                                        assert(has_def(b.defs, form_id as int));
                                                    }
                                                } else {
                                                    assert(nd[x] == b.defs[x]);
                                                    assert(nd[y] == b.defs[y]);
                                                }
                                            }
                                        }
                                        let frv = OpView::FormRef {
                                            form: form_id as int,
                                            matrix: m,
                                        };
                                        let r_next = spec_resolve(
                                            *cfg,
                                            fv,
                                            w.skip(i as int + 1),
                                            depth as nat,
                                            avail,
                                            b.defs.push(dv),
                                        );
                                        assert(spec_resolve(*cfg, fv, skip_i, depth as nat, avail, cur_defs)
                                            == cons_out(seq![frv], r_next));
                                        lemma_cons_out_assoc(old_outv, seq![frv], r_next);
                                        assert(ops_view(out@) =~= old_outv + seq![frv]);
                                    }
                                } else {
                                    out.push(Op::PushState);
                                    out.push(Op::SetMatrix { matrix: m });
                                    let mut bo = bout;
                                    out.append(&mut bo);
                                    out.push(Op::PopState);
                                    proof {
                                        let wrap = seq![
                                            OpView::PushState,
                                            OpView::SetMatrix { matrix: m },
                                        ] + b.out + seq![OpView::PopState];
                                        let r_next = spec_resolve(
                                            *cfg,
                                            fv,
                                            w.skip(i as int + 1),
                                            depth as nat,
                                            avail,
                                            b.defs,
                                        );
                                        assert(spec_resolve(*cfg, fv, skip_i, depth as nat, avail, cur_defs)
                                            == cons_out(wrap, r_next));
                                        lemma_cons_out_assoc(old_outv, wrap, r_next);
                                        assert(ops_view(out@) =~= old_outv + wrap);
                                    }
                                }
                            },
                        }
                    }
                }
            },
            _ => {
                out.push(ops[i].duplicate());
                proof {
                    let r_next = spec_resolve(
                        *cfg,
                        fv,
                        w.skip(i as int + 1),
                        depth as nat,
                        avail,
                        cur_defs,
                    );
                    assert(spec_resolve(*cfg, fv, skip_i, depth as nat, avail, cur_defs)
                        == cons_out(seq![w[i as int]], r_next));
                    lemma_cons_out_assoc(old_outv, seq![w[i as int]], r_next);
                    assert(ops_view(out@) =~= old_outv + seq![w[i as int]]);
                }
            },
        }
        i = i + 1;
    }
    proof {
        assert(w.skip(w.len() as int) =~= Seq::<OpView>::empty());
    }
    if depth != 0 {
        proof {
            assert(spec_resolve(*cfg, fv, w.skip(w.len() as int), depth as nat, avail, defs_view(st.defs@))
                == ResolveRes::Fail(FilterError::StructuralError));
        }
        return Err(FilterError::StructuralError);
    }
    proof {
        assert(spec_resolve(*cfg, fv, w.skip(w.len() as int), 0, avail, defs_view(st.defs@))
            == ResolveRes::Done(ResolveOk { out: Seq::empty(), defs: defs_view(st.defs@) }));
        assert(ops_view(out@) + Seq::<OpView>::empty() =~= ops_view(out@));
    }
    Ok(out)
}

} // verus!

verus! {

fn false_vec(n: usize) -> (r: Vec<bool>)
    ensures
        r@.len() == n,
        forall|j: int| 0 <= j < n ==> !r@[j],
{
    let mut r: Vec<bool> = Vec::new();
    while r.len() < n
        invariant
            r@.len() <= n,
            forall|j: int| 0 <= j < r@.len() ==> !r@[j],
        decreases n - r@.len(),
    {
        r.push(false);
    }
    r
}

fn dup_ops(v: &Vec<Op>) -> (r: Vec<Op>)
    ensures
        ops_view(r@) == ops_view(v@),
{
    let mut r: Vec<Op> = Vec::new();
    let mut i: usize = 0;
    proof {
        assert(ops_view(r@) =~= ops_view(v@).take(0));
    }
    while i < v.len()
        invariant
            i <= v@.len(),
            ops_view(r@) == ops_view(v@).take(i as int),
        decreases v@.len() - i,
    {
        let ghost old_rv = ops_view(r@);
        r.push(v[i].duplicate());
        i = i + 1;
        proof {
            assert(ops_view(r@) =~= old_rv + seq![ops_view(v@)[i as int - 1]]);
            assert(old_rv + seq![ops_view(v@)[i as int - 1]] =~= ops_view(v@).take(i as int));
        }
    }
    assert(ops_view(r@) =~= ops_view(v@));
    r
}

/// Runs a filter pass, without hooks, over a page stream.
///
/// The result is exactly [`spec_filter_page`] over the input and the form
/// table.  In particular: with `sanitize` and `recurse` off, a stream with
/// balanced save/restore pairs passes through as the identity; a
/// malformed stream with `sanitize` off is a structural error; a
/// sanitized pass never reports a structural error; a form invocation
/// cycle under `recurse` stops the pass with a cycle error; and on
/// success the definition table assigns each distinct form identity at
/// most one definition, every reference operator of the output pointing
/// at one of them.
pub fn filter_page(cfg: &PdfFilterOptions, input: &Vec<Op>, forms: &Vec<Vec<Op>>) -> (r: Result<
    FilterOutput,
    FilterError,
>)
    ensures
        r matches Ok(o) ==> spec_filter_page(*cfg, forms_view(forms@), ops_view(input@))
            == ResolveRes::Done(ResolveOk { out: ops_view(o.ops@), defs: defs_view(o.defs@) }),
        r matches Err(e) ==> spec_filter_page(*cfg, forms_view(forms@), ops_view(input@))
            == ResolveRes::Fail(e),
        !cfg.spec_sanitize() && !cfg.spec_recurse() && balanced(ops_view(input@)) ==> r is Ok,
        r matches Ok(o) ==> ((!cfg.spec_sanitize() && !cfg.spec_recurse() && balanced(
            ops_view(input@),
        )) ==> (ops_view(o.ops@) == ops_view(input@) && o.defs@.len() == 0)),
        r matches Ok(o) ==> ((crate::ops::no_form_refs(ops_view(input@)) && (forall|i: int|
            0 <= i < forms_view(forms@).len() ==> crate::ops::no_form_refs(
                #[trigger] forms_view(forms@)[i],
            ))) ==> (distinct_defs(defs_view(o.defs@)) && (forall|k: int|
            0 <= k < ops_view(o.ops@).len() ==> ((#[trigger] ops_view(o.ops@)[k]) matches
                OpView::FormRef { form, .. } ==> has_def(defs_view(o.defs@), form))))),
        cfg.spec_sanitize() ==> !(r matches Err(e) && e == FilterError::StructuralError),
        !cfg.spec_recurse() ==> !(r matches Err(e) && (e == FilterError::CycleDetected || e
            == FilterError::ResourceResolutionFailure)),
        r matches Ok(o) ==> o.ascii == cfg.spec_ascii(),
{
    let ghost fv0 = forms_view(forms@);
    let ghost inp0 = ops_view(input@);
    let ghost inp_s = if cfg.spec_sanitize() {
        spec_sanitize(inp0)
    } else {
        inp0
    };
    let ghost fms_s = if cfg.spec_sanitize() {
        fv0.map_values(|b: Seq<OpView>| spec_sanitize(b))
    } else {
        fv0
    };
    let page: Vec<Op> = if cfg.sanitize() {
        sanitize_ops(input)
    } else {
        dup_ops(input)
    };
    let mut fms: Vec<Vec<Op>> = Vec::new();
    let mut j: usize = 0;
    while j < forms.len()
        invariant
            j <= forms@.len(),
            fms@.len() == j,
            fv0 == forms_view(forms@),
            fms_s == (if cfg.spec_sanitize() {
                fv0.map_values(|b: Seq<OpView>| spec_sanitize(b))
            } else {
                fv0
            }),
            forall|k: int| 0 <= k < j ==> ops_view(#[trigger] fms@[k]@) == fms_s[k],
            cfg.spec_sanitize() ==> forall|k: int|
                0 <= k < j ==> balanced(ops_view(#[trigger] fms@[k]@)),
        decreases forms@.len() - j,
    {
        let body = if cfg.sanitize() {
            sanitize_ops(&forms[j])
        } else {
            dup_ops(&forms[j])
        };
        proof {
            assert(fv0[j as int] == ops_view(forms@[j as int]@));
        }
        fms.push(body);
        j = j + 1;
    }
    let n: usize = fms.len();
    let mut st = PassState {
        resolving: false_vec(n),
        defined: false_vec(n),
        defs: Vec::new(),
    };
    let ghost avail = avail_of(st.resolving@);
    proof {
        assert(fms_s.len() == fv0.len());
        assert(forms_view(fms@) =~= fms_s);
        assert(avail =~= set_int_range(0, fv0.len() as int));
        lemma_int_range(0, fv0.len() as int);
        assert(defs_view(st.defs@) =~= Seq::<DefView>::empty());
        assert forall|k: int| 0 <= k < n implies (st.defined@[k] <==> has_def(
            defs_view(st.defs@),
            k,
        )) by {
            assert(!has_def(defs_view(st.defs@), k));
        }
        assert(st_wf(st, n as int));
    }
    let res = resolve_stream(cfg, &fms, &page, &mut st, Ghost(avail));
    proof {
        assert(ops_view(page@) == inp_s);
        assert(spec_filter_page(*cfg, fv0, inp0) == spec_resolve(
            *cfg,
            fms_s,
            inp_s,
            0,
            avail,
            Seq::<DefView>::empty(),
        ));
        if !cfg.spec_sanitize() && !cfg.spec_recurse() && balanced(inp0) {
            lemma_resolve_norecurse(*cfg, fms_s, inp_s, 0, avail, Seq::<DefView>::empty());
        }
        if !cfg.spec_recurse() {
            lemma_resolve_norecurse(*cfg, fms_s, inp_s, 0, avail, Seq::<DefView>::empty());
        }
        if cfg.spec_sanitize() {
            assert(balanced(inp_s));
            assert forall|i: int| 0 <= i < fms_s.len() implies balanced(#[trigger] fms_s[i]) by {
                assert(fms_s[i] == ops_view(fms@[i]@));
            }
            lemma_resolve_no_structural(*cfg, fms_s, inp_s, 0, avail, Seq::<DefView>::empty());
        }
        if crate::ops::no_form_refs(inp0) && (forall|i: int|
            0 <= i < fv0.len() ==> crate::ops::no_form_refs(#[trigger] fv0[i])) {
            if cfg.spec_sanitize() {
                crate::sanitize::lemma_sanitize_no_refs(inp0);
                assert forall|i: int| 0 <= i < fms_s.len() implies crate::ops::no_form_refs(
                    #[trigger] fms_s[i],
                ) by {
                    crate::sanitize::lemma_sanitize_no_refs(fv0[i]);
                }
            }
            lemma_resolve_defs(*cfg, fms_s, inp_s, 0, avail, Seq::<DefView>::empty());
        }
    }
    match res {
        Err(e) => Err(e),
        Ok(outv) => {
            let PassState { defs, .. } = st;
            proof {
                if !cfg.spec_sanitize() && !cfg.spec_recurse() && balanced(inp0) {
                    assert(defs_view(defs@).len() == 0);
                    assert(defs@.len() == 0);
                }
            }
            Ok(FilterOutput { ops: outv, defs, ascii: cfg.ascii() })
        },
    }
}

} // verus!

verus! {

/// Duplicates an image-name operand.
fn dup_name(n: &Option<Vec<u8>>) -> (r: Option<Vec<u8>>)
    ensures
        crate::ops::opt_name_view(r) == crate::ops::opt_name_view(*n),
{
    match n {
        Option::Some(v) => Option::Some(crate::ops::copy_bytes(v)),
        Option::None => Option::None,
    }
}

/// The runs an emitted text object keeps, given the text hook's decision
/// for each original run, in order: a kept run stays, a dropped run is
/// elided, a transformed run is replaced by the hook's substitute
/// geometry.
pub open spec fn spec_kept_runs(
    decided: Seq<(crate::ops::TextRun, crate::hooks::TextDecision)>,
) -> Seq<crate::ops::TextRun>
    decreases decided.len(),
{
    if decided.len() == 0 {
        Seq::empty()
    } else {
        let rest = spec_kept_runs(decided.drop_first());
        match decided[0].1 {
            crate::hooks::TextDecision::Keep => seq![decided[0].0] + rest,
            crate::hooks::TextDecision::Drop => rest,
            crate::hooks::TextDecision::Transform(t) => seq![t] + rest,
        }
    }
}

/// Assembles the operator emitted for one text-showing operation from the
/// text hook's per-run decisions: the emitted text object holds exactly
/// the kept and transformed runs, in their original order, and the whole
/// object is elided (`None`) when no run remains.
pub fn apply_text_decisions(
    decided: Vec<(crate::ops::TextRun, crate::hooks::TextDecision)>,
    text_matrix: &crate::geom::Matrix,
    bbox: &crate::geom::Rect,
) -> (r: Option<Op>)
    ensures
        spec_kept_runs(decided@).len() > 0 ==> (r matches Some(op) && op@ == (OpView::PaintText {
            runs: spec_kept_runs(decided@),
            text_matrix: *text_matrix,
            bbox: *bbox,
        })),
        spec_kept_runs(decided@).len() == 0 ==> r is None,
{
    let ghost d = decided@;
    let mut kept: Vec<crate::ops::TextRun> = Vec::new();
    let mut i: usize = 0;
    proof {
        assert(d.skip(0) =~= d);
        assert(kept@ =~= Seq::<crate::ops::TextRun>::empty());
    }
    while i < decided.len()
        invariant
            i <= d.len(),
            d == decided@,
            spec_kept_runs(d) == kept@ + spec_kept_runs(d.skip(i as int)),
        decreases d.len() - i,
    {
        proof {
            assert(d.skip(i as int).len() > 0);
            assert(d.skip(i as int)[0] == d[i as int]);
            assert(d.skip(i as int).drop_first() =~= d.skip(i as int + 1));
        }
        let ghost oldk = kept@;
        let (run, dec) = decided[i];
        proof {
            assert(d[i as int] == (run, dec));
        }
        match dec {
            crate::hooks::TextDecision::Keep => {
                kept.push(run);
                proof {
                    assert(kept@ =~= oldk + seq![d[i as int].0]);
                    assert(oldk + (seq![d[i as int].0] + spec_kept_runs(d.skip(i as int + 1)))
                        =~= (oldk + seq![d[i as int].0]) + spec_kept_runs(d.skip(i as int + 1)));
                }
            },
            crate::hooks::TextDecision::Drop => {},
            crate::hooks::TextDecision::Transform(t) => {
                kept.push(t);
                proof {
                    assert(kept@ =~= oldk + seq![t]);
                    assert(oldk + (seq![t] + spec_kept_runs(d.skip(i as int + 1)))
                        =~= (oldk + seq![t]) + spec_kept_runs(d.skip(i as int + 1)));
                }
            },
        }
        i = i + 1;
    }
    proof {
        assert(d.skip(d.len() as int) =~= Seq::<(
            crate::ops::TextRun,
            crate::hooks::TextDecision,
        )>::empty());
        assert(kept@ + Seq::<crate::ops::TextRun>::empty() =~= kept@);
    }
    if kept.len() > 0 {
        Some(Op::PaintText { runs: kept, text_matrix: *text_matrix, bbox: *bbox })
    } else {
        None
    }
}

/// Applies the image hook's decision to one paint-image operator: a
/// replacement buffer becomes the operand of the emitted operator, its
/// ownership passing to the output; no replacement keeps an operand equal
/// in value to the source image, which is never mutated.
pub fn apply_image_decision(
    name: &Option<Vec<u8>>,
    image: &crate::pixmap::Pixmap,
    matrix: &crate::geom::Matrix,
    replacement: Option<crate::pixmap::Pixmap>,
) -> (r: Op)
    ensures
        replacement matches Some(p) ==> r@ == (OpView::PaintImage {
            name: crate::ops::opt_name_view(*name),
            image: p@,
            matrix: *matrix,
        }),
        replacement is None ==> r@ == (OpView::PaintImage {
            name: crate::ops::opt_name_view(*name),
            image: image@,
            matrix: *matrix,
        }),
{
    match replacement {
        Option::Some(p) => Op::PaintImage { name: dup_name(name), image: p, matrix: *matrix },
        Option::None => Op::PaintImage {
            name: dup_name(name),
            image: image.duplicate(),
            matrix: *matrix,
        },
    }
}

/// Whether canonical input streams were handed to the pass: neither the
/// page nor any form body holds a reference operator, which only ever
/// stands in a pass's output.
pub open spec fn canonical_streams(input: Seq<OpView>, forms: Seq<Seq<OpView>>) -> bool {
    &&& crate::ops::no_form_refs(input)
    &&& forall|i: int| 0 <= i < forms.len() ==> crate::ops::no_form_refs(#[trigger] forms[i])
}

/// Whether neither the page stream nor any form body holds a text or
/// image paint operator: over such streams a pass with hooks makes no
/// text or image hook call, and behaves exactly as the pass without.
pub open spec fn hook_free_streams(input: Seq<OpView>, forms: Seq<Seq<OpView>>) -> bool {
    &&& crate::ops::hook_free(input)
    &&& forall|i: int| 0 <= i < forms.len() ==> crate::ops::hook_free(#[trigger] forms[i])
}

/// Every reference operator of the stream has its definition in the table.
pub open spec fn refs_defined(outv: Seq<OpView>, defs: Seq<DefView>) -> bool {
    forall|k: int|
        0 <= k < outv.len() ==> ((#[trigger] outv[k]) matches OpView::FormRef { form, .. }
            ==> has_def(defs, form))
}

/// The table `d2` extends `d1`: definitions are only ever appended.
pub open spec fn defs_extends(d1: Seq<DefView>, d2: Seq<DefView>) -> bool {
    &&& d2.len() >= d1.len()
    &&& d2.subrange(0, d1.len() as int) == d1
}

proof fn lemma_defs_prefix_trans(a: Seq<DefView>, b: Seq<DefView>, c: Seq<DefView>)
    requires
        b.len() >= a.len(),
        b.subrange(0, a.len() as int) == a,
        c.len() >= b.len(),
        c.subrange(0, b.len() as int) == b,
    ensures
        c.subrange(0, a.len() as int) == a,
{
    assert(c.subrange(0, a.len() as int) =~= a) by {
        assert(forall|j: int|
            0 <= j < a.len() ==> c.subrange(0, a.len() as int)[j] == c[j]);
        assert(forall|j: int|
            0 <= j < b.len() ==> c.subrange(0, b.len() as int)[j] == c[j]);
        assert(forall|j: int|
            0 <= j < a.len() ==> b.subrange(0, a.len() as int)[j] == b[j]);
    }
}

proof fn lemma_refs_persist(outv: Seq<OpView>, d1: Seq<DefView>, d2: Seq<DefView>)
    requires
        forall|k: int|
            0 <= k < outv.len() ==> ((#[trigger] outv[k]) matches OpView::FormRef { form, .. }
                ==> has_def(d1, form)),
        d2.len() >= d1.len(),
        d2.subrange(0, d1.len() as int) == d1,
    ensures
        forall|k: int|
            0 <= k < outv.len() ==> ((#[trigger] outv[k]) matches OpView::FormRef { form, .. }
                ==> has_def(d2, form)),
{
    assert forall|k: int|
        0 <= k < outv.len() implies ((#[trigger] outv[k]) matches OpView::FormRef { form, .. }
        ==> has_def(d2, form)) by {
        if let OpView::FormRef { form, .. } = outv[k] {
            if has_def(d1, form) {
                let j = choose|j: int| 0 <= j < d1.len() && d1[j].form == form;
                assert(d2.subrange(0, d1.len() as int)[j] == d2[j]);
                assert(d2[j].form == form);
            }
        }
    }
}

proof fn lemma_refs_push_plain(outv: Seq<OpView>, x: OpView, d: Seq<DefView>)
    requires
        refs_defined(outv, d),
        !(x is FormRef),
    ensures
        refs_defined(outv + seq![x], d),
{
    assert(seq![x][0] == x);
    assert(refs_defined(seq![x], d));
    lemma_refs_append(outv, seq![x], d);
}

proof fn lemma_refs_append(outv: Seq<OpView>, added: Seq<OpView>, d: Seq<DefView>)
    requires
        forall|k: int|
            0 <= k < outv.len() ==> ((#[trigger] outv[k]) matches OpView::FormRef { form, .. }
                ==> has_def(d, form)),
        forall|k: int|
            0 <= k < added.len() ==> ((#[trigger] added[k]) matches OpView::FormRef { form, .. }
                ==> has_def(d, form)),
    ensures
        forall|k: int|
            0 <= k < (outv + added).len() ==> ((#[trigger] (outv + added)[k]) matches
                OpView::FormRef { form, .. } ==> has_def(d, form)),
{
    assert forall|k: int|
        0 <= k < (outv + added).len() implies ((#[trigger] (outv + added)[k]) matches
        OpView::FormRef { form, .. } ==> has_def(d, form)) by {
        if k < outv.len() {
            assert((outv + added)[k] == outv[k]);
        } else {
            assert((outv + added)[k] == added[k - outv.len()]);
        }
    }
}

fn resolve_with_hooks<H: crate::hooks::FilterHooks>(
    cfg: &PdfFilterOptions,
    hooks: &mut H,
    forms: &Vec<Vec<Op>>,
    ops: &Vec<Op>,
    ctm: &crate::geom::Matrix,
    st: &mut PassState,
    Ghost(avail): Ghost<Set<int>>,
) -> (r: Result<Vec<Op>, FilterError>)
    requires
        st_wf(*old(st), forms@.len() as int),
        avail == avail_of(old(st).resolving@),
        avail.finite(),
        cfg.spec_sanitize() ==> balanced(ops_view(ops@)),
        cfg.spec_sanitize() ==> forall|i: int|
            0 <= i < forms@.len() ==> balanced(ops_view(#[trigger] forms@[i]@)),
    ensures
        st_wf(*final(st), forms@.len() as int),
        r matches Ok(_) ==> final(st).resolving@ == old(st).resolving@,
        r matches Ok(_) ==> forall|j: int|
            0 <= j < forms@.len() && old(st).resolving@[j] ==> final(st).defined@[j] == old(
                st,
            ).defined@[j],
        (cfg.spec_sanitize() || (!cfg.spec_recurse() && balanced(ops_view(ops@)))) ==> !(r matches
            Err(e) && e == FilterError::StructuralError),
        !cfg.spec_recurse() ==> !(r matches Err(e) && (e == FilterError::CycleDetected || e
            == FilterError::ResourceResolutionFailure)),
        r matches Err(e) ==> (e == FilterError::StructuralError || e == FilterError::CycleDetected
            || e == FilterError::ResourceResolutionFailure || e matches FilterError::HookFailure(
            _,
        )),
        (!cfg.spec_recurse() && (cfg.spec_sanitize() || balanced(ops_view(ops@)))
            && crate::ops::hook_free(ops_view(ops@))) ==> r is Ok,
        r matches Ok(_) ==> defs_extends(defs_view(old(st).defs@), defs_view(final(st).defs@)),
        r matches Ok(out) ==> (canonical_streams(ops_view(ops@), forms_view(forms@))
            ==> refs_defined(ops_view(out@), defs_view(final(st).defs@))),
        r matches Ok(out) ==> (hook_free_streams(ops_view(ops@), forms_view(forms@))
            ==> spec_resolve(
                *cfg,
                forms_view(forms@),
                ops_view(ops@),
                0,
                avail,
                defs_view(old(st).defs@),
            ) == ResolveRes::Done(ResolveOk {
                out: ops_view(out@),
                defs: defs_view(final(st).defs@),
            })),
        r matches Err(e) ==> (hook_free_streams(ops_view(ops@), forms_view(forms@))
            ==> spec_resolve(
                *cfg,
                forms_view(forms@),
                ops_view(ops@),
                0,
                avail,
                defs_view(old(st).defs@),
            ) == ResolveRes::Fail(e)),
    decreases avail.len(), ops@.len(),
{
    let ghost w = ops_view(ops@);
    let ghost fv = forms_view(forms@);
    let ghost defs_in = defs_view(old(st).defs@);
    let mut out: Vec<Op> = Vec::new();
    let mut saves: Vec<crate::geom::Matrix> = Vec::new();
    let mut current: crate::geom::Matrix = *ctm;
    let mut i: usize = 0;
    proof {
        assert(w.skip(0) =~= w);
        assert(defs_view(st.defs@).subrange(0, defs_in.len() as int) =~= defs_in);
        assert(ops_view(out@) =~= Seq::<OpView>::empty());
        lemma_cons_out_nil(spec_resolve(*cfg, fv, w, 0, avail, defs_in));
    }
    while i < ops.len()
        invariant
            i <= ops@.len(),
            saves@.len() <= i,
            st_wf(*st, forms@.len() as int),
            st.resolving@ == old(st).resolving@,
            forall|j: int|
                0 <= j < forms@.len() && old(st).resolving@[j] ==> st.defined@[j] == old(
                    st,
                ).defined@[j],
            avail == avail_of(st.resolving@),
            avail.finite(),
            w == ops_view(ops@),
            fv == forms_view(forms@),
            defs_in == defs_view(old(st).defs@),
            defs_extends(defs_in, defs_view(st.defs@)),
            canonical_streams(w, fv) ==> refs_defined(ops_view(out@), defs_view(st.defs@)),
            cfg.spec_sanitize() ==> forall|k: int|
                0 <= k < forms@.len() ==> balanced(ops_view(#[trigger] forms@[k]@)),
            (cfg.spec_sanitize() || (!cfg.spec_recurse() && balanced(w))) ==> balanced_from(
                w.skip(i as int),
                saves@.len() as nat,
            ),
            hook_free_streams(w, fv) ==> cons_out(
                ops_view(out@),
                spec_resolve(
                    *cfg,
                    fv,
                    w.skip(i as int),
                    saves@.len() as nat,
                    avail,
                    defs_view(st.defs@),
                ),
            ) == spec_resolve(*cfg, fv, w, 0, avail, defs_in),
        decreases ops@.len() - i,
    {
        proof {
            assert(w.skip(i as int).len() > 0);
            assert(w.skip(i as int).first() == w[i as int]);
            assert(w.skip(i as int).drop_first() =~= w.skip(i as int + 1));
            assert(w[i as int] == ops@[i as int]@);
        }
        let ghost skip_i = w.skip(i as int);
        let ghost old_outv = ops_view(out@);
        let ghost old_defsv = defs_view(st.defs@);
        let ghost depth0 = saves@.len() as nat;
        match &ops[i] {
            Op::PushState => {
                saves.push(current);
                out.push(Op::PushState);
                proof {
                    if canonical_streams(w, fv) {
                        lemma_refs_push_plain(old_outv, OpView::PushState, old_defsv);
                        assert(ops_view(out@) =~= old_outv + seq![OpView::PushState]);
                    }
                    if hook_free_streams(w, fv) {
                        let r_next = spec_resolve(
                            *cfg,
                            fv,
                            w.skip(i as int + 1),
                            depth0 + 1,
                            avail,
                            old_defsv,
                        );
                        assert(spec_resolve(*cfg, fv, skip_i, depth0, avail, old_defsv)
                            == cons_out(seq![w[i as int]], r_next));
                        lemma_cons_out_assoc(old_outv, seq![w[i as int]], r_next);
                        assert(ops_view(out@) =~= old_outv + seq![w[i as int]]);
                    }
                }
            },
            Op::PopState => {
                match saves.pop() {
                    Option::Some(m) => {
                        current = m;
                        out.push(Op::PopState);
                        proof {
                            if canonical_streams(w, fv) {
                                lemma_refs_push_plain(old_outv, OpView::PopState, old_defsv);
                                assert(ops_view(out@) =~= old_outv + seq![OpView::PopState]);
                            }
                            if hook_free_streams(w, fv) {
                                let r_next = spec_resolve(
                                    *cfg,
                                    fv,
                                    w.skip(i as int + 1),
                                    (depth0 - 1) as nat,
                                    avail,
                                    old_defsv,
                                );
                                assert(spec_resolve(*cfg, fv, skip_i, depth0, avail, old_defsv)
                                    == cons_out(seq![w[i as int]], r_next));
                                lemma_cons_out_assoc(old_outv, seq![w[i as int]], r_next);
                                assert(ops_view(out@) =~= old_outv + seq![w[i as int]]);
                            }
                        }
                    },
                    Option::None => {
                        proof {
                            if hook_free_streams(w, fv) {
                                assert(spec_resolve(*cfg, fv, skip_i, depth0, avail, old_defsv)
                                    == ResolveRes::Fail(FilterError::StructuralError));
                            }
                        }
                        return Err(FilterError::StructuralError);
                    },
                }
            },
            Op::SetMatrix { matrix } => {
                out.push(Op::SetMatrix { matrix: *matrix });
                proof {
                    if canonical_streams(w, fv) {
                        lemma_refs_push_plain(old_outv, w[i as int], old_defsv);
                        assert(ops_view(out@) =~= old_outv + seq![w[i as int]]);
                    }
                    if hook_free_streams(w, fv) {
                        let r_next = spec_resolve(
                            *cfg,
                            fv,
                            w.skip(i as int + 1),
                            depth0,
                            avail,
                            old_defsv,
                        );
                        assert(spec_resolve(*cfg, fv, skip_i, depth0, avail, old_defsv)
                            == cons_out(seq![w[i as int]], r_next));
                        lemma_cons_out_assoc(old_outv, seq![w[i as int]], r_next);
                        assert(ops_view(out@) =~= old_outv + seq![w[i as int]]);
                    }
                }
                current = matrix.concat(&current);
            },
            Op::PaintText { runs, text_matrix, bbox } => {
                let mut decided: Vec<(crate::ops::TextRun, crate::hooks::TextDecision)> =
                    Vec::new();
                let mut k: usize = 0;
                while k < runs.len()
                    invariant
                        k <= runs@.len(),
                        w == ops_view(ops@),
                        0 <= i < w.len(),
                        w[i as int] is PaintText,
                        st_wf(*st, forms@.len() as int),
                        st.resolving@ == old(st).resolving@,
                        forall|j: int|
                            0 <= j < forms@.len() && old(st).resolving@[j] ==> st.defined@[j]
                                == old(st).defined@[j],
                    decreases runs@.len() - k,
                {
                    let run = runs[k];
                    match hooks.filter_text(run.ucs, run.len, text_matrix, &current, bbox) {
                        Result::Err(code) => {
                            return Err(FilterError::HookFailure(code));
                        },
                        Result::Ok(d) => {
                            decided.push((run, d));
                        },
                    }
                    k = k + 1;
                }
                match apply_text_decisions(decided, text_matrix, bbox) {
                    Option::Some(obj) => {
                        out.push(obj);
                        proof {
                            if canonical_streams(w, fv) {
                                lemma_refs_push_plain(old_outv, obj@, old_defsv);
                                assert(ops_view(out@) =~= old_outv + seq![obj@]);
                            }
                        }
                    },
                    Option::None => {},
                }
                hooks.after_text_object(&current);
            },
            Op::PaintImage { name, image, matrix } => {
                match hooks.filter_image(&current, name, image) {
                    Result::Err(code) => {
                        return Err(FilterError::HookFailure(code));
                    },
                    Result::Ok(replacement) => {
                        let emitted = apply_image_decision(name, image, matrix, replacement);
                        out.push(emitted);
                        proof {
                            if canonical_streams(w, fv) {
                                lemma_refs_push_plain(old_outv, emitted@, old_defsv);
                                assert(ops_view(out@) =~= old_outv + seq![emitted@]);
                            }
                        }
                    },
                }
            },
            Op::InvokeForm { form, matrix } => {
                let form_id: usize = *form;
                let m = *matrix;
                if !cfg.recurse() {
                    out.push(ops[i].duplicate());
                    proof {
                        if canonical_streams(w, fv) {
                            lemma_refs_push_plain(old_outv, w[i as int], old_defsv);
                            assert(ops_view(out@) =~= old_outv + seq![w[i as int]]);
                        }
                        if hook_free_streams(w, fv) {
                            let r_next = spec_resolve(
                                *cfg,
                                fv,
                                w.skip(i as int + 1),
                                depth0,
                                avail,
                                old_defsv,
                            );
                            assert(spec_resolve(*cfg, fv, skip_i, depth0, avail, old_defsv)
                                == cons_out(seq![w[i as int]], r_next));
                            lemma_cons_out_assoc(old_outv, seq![w[i as int]], r_next);
                            assert(ops_view(out@) =~= old_outv + seq![w[i as int]]);
                        }
                    }
                } else if form_id >= forms.len() {
                    proof {
                        if hook_free_streams(w, fv) {
                            assert(spec_resolve(*cfg, fv, skip_i, depth0, avail, old_defsv)
                                == ResolveRes::Fail(FilterError::ResourceResolutionFailure));
                        }
                    }
                    return Err(FilterError::ResourceResolutionFailure);
                } else {
                    let inst = cfg.instance_forms();
                    if inst && st.defined[form_id] {
                        out.push(Op::FormRef { form: form_id, matrix: m });
                        proof {
                            assert(has_def(old_defsv, form_id as int));
                            if canonical_streams(w, fv) {
                                let frv = OpView::FormRef { form: form_id as int, matrix: m };
                                assert(seq![frv][0] == frv);
                                assert(refs_defined(seq![frv], old_defsv));
                                lemma_refs_append(old_outv, seq![frv], old_defsv);
                                assert(ops_view(out@) =~= old_outv + seq![frv]);
                            }
                            if hook_free_streams(w, fv) {
                                let frv = OpView::FormRef { form: form_id as int, matrix: m };
                                let r_next = spec_resolve(
                                    *cfg,
                                    fv,
                                    w.skip(i as int + 1),
                                    depth0,
                                    avail,
                                    old_defsv,
                                );
                                assert(spec_resolve(*cfg, fv, skip_i, depth0, avail, old_defsv)
                                    == cons_out(seq![frv], r_next));
                                lemma_cons_out_assoc(old_outv, seq![frv], r_next);
                                assert(ops_view(out@) =~= old_outv + seq![frv]);
                            }
                        }
                    } else if st.resolving[form_id] {
                        proof {
                            if hook_free_streams(w, fv) {
                                assert(!avail.contains(form_id as int));
                                assert(!(cfg.spec_instance_forms() && has_def(
                                    old_defsv,
                                    form_id as int,
                                )));
                                assert(spec_resolve(*cfg, fv, skip_i, depth0, avail, old_defsv)
                                    == ResolveRes::Fail(FilterError::CycleDetected));
                            }
                        }
                        return Err(FilterError::CycleDetected);
                    } else {
                        proof {
                            assert(avail.contains(form_id as int));
                        }
                        proof {
                            assert(avail.contains(form_id as int));
                            assert(!(cfg.spec_instance_forms() && has_def(
                                old_defsv,
                                form_id as int,
                            )));
                        }
                        let ghost resolving_before = st.resolving@;
                        st.resolving.set(form_id, true);
                        let ghost avail2 = avail.remove(form_id as int);
                        proof {
                            assert(avail2 =~= avail_of(st.resolving@));
                            assert(fv[form_id as int] == ops_view(forms@[form_id as int]@));
                        }
                        let ctm2 = matrix.concat(&current);
                        let body_r = resolve_with_hooks(
                            cfg,
                            hooks,
                            forms,
                            &forms[form_id],
                            &ctm2,
                            st,
                            Ghost(avail2),
                        );
                        proof {
                            if cfg.spec_sanitize() {
                                assert(balanced(ops_view(forms@[form_id as int]@)));
                            }
                        }
                        match body_r {
                            Err(e) => {
                                proof {
                                    if hook_free_streams(w, fv) {
                                        assert(spec_resolve(
                                            *cfg,
                                            fv,
                                            skip_i,
                                            depth0,
                                            avail,
                                            old_defsv,
                                        ) == ResolveRes::Fail(e));
                                    }
                                }
                                return Err(e);
                            },
                            Ok(bout) => {
                                let ghost boutv = ops_view(bout@);
                                st.resolving.set(form_id, false);
                                proof {
                                    assert(st.resolving@ =~= resolving_before);
                                }
                                let ghost pre = defs_view(st.defs@);
                                if inst {
                                    st.defined.set(form_id, true);
                                    st.defs.push(FormDef { form: form_id, body: bout });
                                    out.push(Op::FormRef { form: form_id, matrix: m });
                                    proof {
                                        let dv = defs_view(st.defs@)[pre.len() as int];
                                        assert(defs_view(st.defs@) =~= pre.push(
                                            DefView {
                                                form: form_id as int,
                                                body: ops_view(st.defs@[pre.len() as int].body@),
                                            },
                                        ));
                                        assert forall|j: int|
                                            0 <= j < forms@.len() implies (st.defined@[j]
                                            <==> has_def(defs_view(st.defs@), j)) by {
                                            let nd = defs_view(st.defs@);
                                            if j == form_id as int {
                                                assert(nd[nd.len() - 1].form == j);
                                            } else {
                                                if has_def(nd, j) {
                                                    let k = choose|k: int|
                                                        0 <= k < nd.len() && nd[k].form == j;
                                                    assert(k < pre.len());
                                                    assert(pre[k].form == j);
                                                }
                                                if has_def(pre, j) {
                                                    let k = choose|k: int|
                                                        0 <= k < pre.len() && pre[k].form == j;
                                                    assert(nd[k].form == j);
                                                }
                                            }
                                        }
                                        assert(distinct_defs(defs_view(st.defs@))) by {
                                            let nd = defs_view(st.defs@);
                                            assert forall|x: int, y: int|
                                                0 <= x < y < nd.len() implies nd[x].form
                                                != nd[y].form by {
                                                if y == nd.len() - 1 {
                                                    if nd[x].form == form_id as int {
                                                        assert(pre[x].form == form_id as int);
                                                        assert(has_def(pre, form_id as int));
                                                    }
                                                } else {
                                                    assert(nd[x] == pre[x]);
                                                    assert(nd[y] == pre[y]);
                                                }
                                            }
                                        }
                                        let nd = defs_view(st.defs@);
                                        assert(defs_extends(pre, nd)) by {
                                            assert(nd.subrange(0, pre.len() as int) =~= pre);
                                        }
                                        lemma_defs_prefix_trans(old_defsv, pre, nd);
                                        lemma_defs_prefix_trans(defs_in, old_defsv, nd);
                                        if canonical_streams(w, fv) {
                                            lemma_refs_persist(old_outv, old_defsv, nd);
                                            let frv = OpView::FormRef {
                                                form: form_id as int,
                                                matrix: m,
                                            };
                                            assert(has_def(nd, form_id as int)) by {
                                                assert(nd[nd.len() - 1].form == form_id as int);
                                            }
                                            assert(seq![frv][0] == frv);
                                            assert(refs_defined(seq![frv], nd));
                                            lemma_refs_append(old_outv, seq![frv], nd);
                                            assert(ops_view(out@) =~= old_outv + seq![frv]);
                                        }
                                        if hook_free_streams(w, fv) {
                                            assert(ops_view(st.defs@[pre.len() as int].body@)
                                                == boutv);
                                            assert(nd =~= pre.push(
                                                DefView { form: form_id as int, body: boutv },
                                            ));
                                            let frv = OpView::FormRef {
                                                form: form_id as int,
                                                matrix: m,
                                            };
                                            let r_next = spec_resolve(
                                                *cfg,
                                                fv,
                                                w.skip(i as int + 1),
                                                depth0,
                                                avail,
                                                pre.push(
                                                    DefView { form: form_id as int, body: boutv },
                                                ),
                                            );
                                            assert(spec_resolve(*cfg, fv, skip_i, depth0, avail, old_defsv)
                                                == cons_out(seq![frv], r_next));
                                            lemma_cons_out_assoc(old_outv, seq![frv], r_next);
                                            assert(ops_view(out@) =~= old_outv + seq![frv]);
                                        }
                                    }
                                } else {
                                    out.push(Op::PushState);
                                    out.push(Op::SetMatrix { matrix: m });
                                    let mut bo = bout;
                                    out.append(&mut bo);
                                    out.push(Op::PopState);
                                    proof {
                                        lemma_defs_prefix_trans(defs_in, old_defsv, pre);
                                        if canonical_streams(w, fv) {
                                            assert(fv[form_id as int] == ops_view(
                                                forms@[form_id as int]@,
                                            ));
                                            assert(crate::ops::no_form_refs(ops_view(
                                                forms@[form_id as int]@,
                                            )));
                                            assert(canonical_streams(
                                                ops_view(forms@[form_id as int]@),
                                                fv,
                                            ));
                                            assert(refs_defined(boutv, pre));
                                            lemma_refs_persist(old_outv, old_defsv, pre);
                                            let added = seq![
                                                OpView::PushState,
                                                OpView::SetMatrix { matrix: m },
                                            ] + boutv + seq![OpView::PopState];
                                            assert forall|k: int|
                                                0 <= k < added.len() implies ((
                                            #[trigger] added[k]) matches OpView::FormRef {
                                                form: f2,
                                                ..
                                            } ==> has_def(pre, f2)) by {
                                                if 2 <= k < 2 + boutv.len() {
                                                    assert(added[k] == boutv[k - 2]);
                                                } else if k == 2 + boutv.len() {
                                                    assert(added[k] == OpView::PopState);
                                                } else {
                                                    assert(added[k] == (seq![
                                                        OpView::PushState,
                                                        OpView::SetMatrix { matrix: m },
                                                    ])[k]);
                                                }
                                            }
                                            assert(refs_defined(added, pre));
                                            lemma_refs_append(old_outv, added, pre);
                                            assert(ops_view(out@) =~= old_outv + added);
                                        }
                                        if hook_free_streams(w, fv) {
                                            let wrap = seq![
                                                OpView::PushState,
                                                OpView::SetMatrix { matrix: m },
                                            ] + boutv + seq![OpView::PopState];
                                            let r_next = spec_resolve(
                                                *cfg,
                                                fv,
                                                w.skip(i as int + 1),
                                                depth0,
                                                avail,
                                                pre,
                                            );
                                            assert(spec_resolve(*cfg, fv, skip_i, depth0, avail, old_defsv)
                                                == cons_out(wrap, r_next));
                                            lemma_cons_out_assoc(old_outv, wrap, r_next);
                                            assert(ops_view(out@) =~= old_outv + wrap);
                                        }
                                    }
                                }
                            },
                        }
                    }
                }
            },
            _ => {
                out.push(ops[i].duplicate());
                proof {
                    if canonical_streams(w, fv) {
                        lemma_refs_push_plain(old_outv, w[i as int], old_defsv);
                        assert(ops_view(out@) =~= old_outv + seq![w[i as int]]);
                    }
                    if hook_free_streams(w, fv) {
                        let r_next = spec_resolve(
                            *cfg,
                            fv,
                            w.skip(i as int + 1),
                            depth0,
                            avail,
                            old_defsv,
                        );
                        assert(spec_resolve(*cfg, fv, skip_i, depth0, avail, old_defsv)
                            == cons_out(seq![w[i as int]], r_next));
                        lemma_cons_out_assoc(old_outv, seq![w[i as int]], r_next);
                        assert(ops_view(out@) =~= old_outv + seq![w[i as int]]);
                    }
                }
            },
        }
        i = i + 1;
    }
    proof {
        assert(w.skip(w.len() as int) =~= Seq::<OpView>::empty());
    }
    if saves.len() > 0 {
        proof {
            if hook_free_streams(w, fv) {
                assert(spec_resolve(
                    *cfg,
                    fv,
                    w.skip(w.len() as int),
                    saves@.len() as nat,
                    avail,
                    defs_view(st.defs@),
                ) == ResolveRes::Fail(FilterError::StructuralError));
            }
        }
        return Err(FilterError::StructuralError);
    }
    proof {
        if hook_free_streams(w, fv) {
            assert(spec_resolve(
                *cfg,
                fv,
                w.skip(w.len() as int),
                0,
                avail,
                defs_view(st.defs@),
            ) == ResolveRes::Done(ResolveOk {
                out: Seq::empty(),
                defs: defs_view(st.defs@),
            }));
            assert(ops_view(out@) + Seq::<OpView>::empty() =~= ops_view(out@));
        }
    }
    Ok(out)
}

/// Runs a filter pass with caller-supplied hooks over a page stream,
/// starting from the initial transform `ctm`.
///
/// Text runs are offered to the text hook before emission (a text object
/// whose runs are all dropped is elided entirely), the post-text-object
/// hook fires exactly once per original text object, the image hook may
/// substitute a replacement buffer for any painted image, and the
/// end-of-page hook fires exactly once when the stream is exhausted, just
/// before the pass reports success.  A hook failure aborts the pass;
/// operators already emitted are not rolled back.  On success the
/// definition table assigns each distinct form identity at most one
/// definition; a sanitized pass never reports a structural error; and
/// without `recurse` neither a cycle nor a resolution failure can occur.
pub fn filter_page_with_hooks<H: crate::hooks::FilterHooks>(
    cfg: &PdfFilterOptions,
    hooks: &mut H,
    input: &Vec<Op>,
    forms: &Vec<Vec<Op>>,
    ctm: &crate::geom::Matrix,
) -> (r: Result<FilterOutput, FilterError>)
    ensures
        r matches Ok(o) ==> distinct_defs(defs_view(o.defs@)),
        cfg.spec_sanitize() ==> !(r matches Err(e) && e == FilterError::StructuralError),
        !cfg.spec_recurse() && balanced(ops_view(input@)) ==> !(r matches Err(e) && e
            == FilterError::StructuralError),
        !cfg.spec_recurse() ==> !(r matches Err(e) && (e == FilterError::CycleDetected || e
            == FilterError::ResourceResolutionFailure)),
        r matches Err(e) ==> (e == FilterError::StructuralError || e == FilterError::CycleDetected
            || e == FilterError::ResourceResolutionFailure || e matches FilterError::HookFailure(
            _,
        )),
        (!cfg.spec_recurse() && (cfg.spec_sanitize() || balanced(ops_view(input@)))
            && crate::ops::hook_free(ops_view(input@))) ==> r is Ok,
        r matches Ok(o) ==> (canonical_streams(ops_view(input@), forms_view(forms@))
            ==> refs_defined(ops_view(o.ops@), defs_view(o.defs@))),
        hook_free_streams(ops_view(input@), forms_view(forms@)) ==> (match r {
            Ok(o) => spec_filter_page(*cfg, forms_view(forms@), ops_view(input@))
                == ResolveRes::Done(ResolveOk {
                    out: ops_view(o.ops@),
                    defs: defs_view(o.defs@),
                }),
            Err(e) => spec_filter_page(*cfg, forms_view(forms@), ops_view(input@))
                == ResolveRes::Fail(e),
        }),
        r matches Ok(o) ==> o.ascii == cfg.spec_ascii(),
{
    let ghost fv0 = forms_view(forms@);
    let ghost inp0 = ops_view(input@);
    let page: Vec<Op> = if cfg.sanitize() {
        sanitize_ops(input)
    } else {
        dup_ops(input)
    };
    let mut fms: Vec<Vec<Op>> = Vec::new();
    let mut j: usize = 0;
    while j < forms.len()
        invariant
            j <= forms@.len(),
            fms@.len() == j,
            cfg.spec_sanitize() ==> forall|k: int|
                0 <= k < j ==> balanced(ops_view(#[trigger] fms@[k]@)),
            forall|k: int|
                0 <= k < j ==> ops_view(#[trigger] fms@[k]@) == (if cfg.spec_sanitize() {
                    spec_sanitize(ops_view(forms@[k]@))
                } else {
                    ops_view(forms@[k]@)
                }),
        decreases forms@.len() - j,
    {
        let body = if cfg.sanitize() {
            sanitize_ops(&forms[j])
        } else {
            dup_ops(&forms[j])
        };
        fms.push(body);
        j = j + 1;
    }
    let n: usize = fms.len();
    let mut st = PassState {
        resolving: false_vec(n),
        defined: false_vec(n),
        defs: Vec::new(),
    };
    let ghost avail = avail_of(st.resolving@);
    proof {
        assert(avail =~= set_int_range(0, n as int));
        lemma_int_range(0, n as int);
        assert(defs_view(st.defs@) =~= Seq::<DefView>::empty());
        assert forall|k: int| 0 <= k < n implies (st.defined@[k] <==> has_def(
            defs_view(st.defs@),
            k,
        )) by {
            assert(!has_def(defs_view(st.defs@), k));
        }
        assert(st_wf(st, n as int));
    }
    proof {
        if crate::ops::hook_free(ops_view(input@)) {
            if cfg.spec_sanitize() {
                let pfree = |o: OpView| !(o is PaintText) && !(o is PaintImage);
                crate::sanitize::lemma_sanitize_all(ops_view(input@), pfree);
                assert(crate::ops::hook_free(ops_view(page@))) by {
                    assert(forall|k: int|
                        0 <= k < ops_view(page@).len() ==> pfree(#[trigger] ops_view(page@)[k]));
                }
            }
        }
        if canonical_streams(ops_view(input@), forms_view(forms@)) {
            if cfg.spec_sanitize() {
                crate::sanitize::lemma_sanitize_no_refs(ops_view(input@));
            }
            assert(crate::ops::no_form_refs(ops_view(page@)));
            assert forall|k: int|
                0 <= k < forms_view(fms@).len() implies crate::ops::no_form_refs(
                #[trigger] forms_view(fms@)[k],
            ) by {
                assert(forms_view(fms@)[k] == ops_view(fms@[k]@));
                assert(forms_view(forms@)[k] == ops_view(forms@[k]@));
                assert(crate::ops::no_form_refs(ops_view(forms@[k]@)));
                if cfg.spec_sanitize() {
                    crate::sanitize::lemma_sanitize_no_refs(ops_view(forms@[k]@));
                }
            }
            assert(canonical_streams(ops_view(page@), forms_view(fms@)));
        }
        if hook_free_streams(inp0, fv0) {
            let pfree = |o: OpView| !(o is PaintText) && !(o is PaintImage);
            if cfg.spec_sanitize() {
                crate::sanitize::lemma_sanitize_all(inp0, pfree);
            }
            assert(crate::ops::hook_free(ops_view(page@))) by {
                assert(forall|k: int|
                    0 <= k < ops_view(page@).len() ==> pfree(#[trigger] ops_view(page@)[k]));
            }
            assert forall|k: int|
                0 <= k < forms_view(fms@).len() implies crate::ops::hook_free(
                #[trigger] forms_view(fms@)[k],
            ) by {
                assert(forms_view(fms@)[k] == ops_view(fms@[k]@));
                assert(fv0[k] == ops_view(forms@[k]@));
                assert(crate::ops::hook_free(ops_view(forms@[k]@)));
                if cfg.spec_sanitize() {
                    crate::sanitize::lemma_sanitize_all(ops_view(forms@[k]@), pfree);
                }
                assert(forall|x: int|
                    0 <= x < ops_view(fms@[k]@).len() ==> pfree(
                        #[trigger] ops_view(fms@[k]@)[x],
                    ));
            }
            assert(hook_free_streams(ops_view(page@), forms_view(fms@)));
            assert(forms_view(fms@) =~= (if cfg.spec_sanitize() {
                fv0.map_values(|b: Seq<OpView>| spec_sanitize(b))
            } else {
                fv0
            }));
            assert(fms@.len() == forms@.len());
            assert(spec_filter_page(*cfg, fv0, inp0) == spec_resolve(
                *cfg,
                forms_view(fms@),
                ops_view(page@),
                0,
                avail,
                Seq::<DefView>::empty(),
            ));
        }
    }
    let res = resolve_with_hooks(cfg, hooks, &fms, &page, ctm, &mut st, Ghost(avail));
    match res {
        Err(e) => Err(e),
        Ok(outv) => {
            hooks.end_page();
            let PassState { defs, .. } = st;
            Ok(FilterOutput { ops: outv, defs, ascii: cfg.ascii() })
        },
    }
}

} // verus!
