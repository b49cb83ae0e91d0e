use vstd::prelude::*;

use crate::ops::{ops_view, Op, OpView};

verus! {

/// Whether an operator is a paint operation with no visible effect: a path
/// with no segments, or a text object with no runs.
pub open spec fn is_zero_paint(o: OpView) -> bool {
    match o {
        OpView::PaintPath { segments } => segments == 0,
        OpView::PaintText { runs, .. } => runs.len() == 0,
        _ => false,
    }
}

/// Whether an operator sets the fill color.
pub open spec fn is_set_color(o: OpView) -> bool {
    o is SetColor
}

/// First repair pass: drop paint operations with no visible effect.
pub open spec fn drop_zero_paints(s: Seq<OpView>) -> Seq<OpView>
    decreases s.len(),
{
    if s.len() == 0 {
        Seq::empty()
    } else if is_zero_paint(s.first()) {
        drop_zero_paints(s.drop_first())
    } else {
        seq![s.first()] + drop_zero_paints(s.drop_first())
    }
}

/// A run of `n` state restores.
pub open spec fn pops(n: nat) -> Seq<OpView> {
    Seq::new(n, |i: int| OpView::PopState)
}

/// Second repair pass: drop a restore that has no matching save, and close
/// every save still open when the stream ends.  `depth` counts the saves
/// currently open.
pub open spec fn rebalance(s: Seq<OpView>, depth: nat) -> Seq<OpView>
    decreases s.len(),
{
    if s.len() == 0 {
        pops(depth)
    } else {
        match s.first() {
            OpView::PushState => seq![s.first()] + rebalance(s.drop_first(), depth + 1),
            OpView::PopState => if depth == 0 {
                rebalance(s.drop_first(), 0)
            } else {
                seq![s.first()] + rebalance(s.drop_first(), (depth - 1) as nat)
            },
            _ => seq![s.first()] + rebalance(s.drop_first(), depth),
        }
    }
}

/// Third repair pass: merge adjacent color settings; the later one
/// overwrites the earlier, which is dropped.
pub open spec fn merge_colors(s: Seq<OpView>) -> Seq<OpView>
    decreases s.len(),
{
    if s.len() <= 1 {
        s
    } else if is_set_color(s[0]) && is_set_color(s[1]) {
        merge_colors(s.drop_first())
    } else {
        seq![s[0]] + merge_colors(s.drop_first())
    }
}

/// The normalizing stage: drop paints with no visible effect, repair
/// unbalanced save/restore pairs, and merge adjacent color settings.
pub open spec fn spec_sanitize(s: Seq<OpView>) -> Seq<OpView> {
    merge_colors(rebalance(drop_zero_paints(s), 0))
}

/// No paint operation of the stream lacks visible effect.
pub open spec fn no_zero_paints(s: Seq<OpView>) -> bool {
    forall|i: int| 0 <= i < s.len() ==> !is_zero_paint(s[i])
}

/// Starting from `depth` open saves, every restore has a matching save and
/// the stream ends with none open.
pub open spec fn balanced_from(s: Seq<OpView>, depth: nat) -> bool
    decreases s.len(),
{
    if s.len() == 0 {
        depth == 0
    } else {
        match s.first() {
            OpView::PushState => balanced_from(s.drop_first(), depth + 1),
            OpView::PopState => depth > 0 && balanced_from(s.drop_first(), (depth - 1) as nat),
            _ => balanced_from(s.drop_first(), depth),
        }
    }
}

/// The stream's save/restore pairs are balanced.
pub open spec fn balanced(s: Seq<OpView>) -> bool {
    balanced_from(s, 0)
}

/// No two adjacent operators both set the color.
pub open spec fn no_adjacent_colors(s: Seq<OpView>) -> bool {
    forall|i: int|
        0 <= i && i + 1 < s.len() ==> !(is_set_color(#[trigger] s[i]) && is_set_color(s[i + 1]))
}

proof fn lemma_drop_zero_no_zero(s: Seq<OpView>)
    ensures
        no_zero_paints(drop_zero_paints(s)),
    decreases s.len(),
{
    if s.len() == 0 {
    } else {
        lemma_drop_zero_no_zero(s.drop_first());
        if !is_zero_paint(s.first()) {
            let t = drop_zero_paints(s.drop_first());
            assert forall|i: int| 0 <= i < (seq![s.first()] + t).len() implies !is_zero_paint(
                (seq![s.first()] + t)[i],
            ) by {
                if i > 0 {
                    assert((seq![s.first()] + t)[i] == t[i - 1]);
                }
            }
        }
    }
}

proof fn lemma_drop_zero_identity(s: Seq<OpView>)
    requires
        no_zero_paints(s),
    ensures
        drop_zero_paints(s) == s,
    decreases s.len(),
{
    if s.len() == 0 {
        assert(drop_zero_paints(s) =~= s);
    } else {
        assert(!is_zero_paint(s[0]));
        assert(forall|i: int| 0 <= i < s.drop_first().len() ==> s.drop_first()[i] == s[i + 1]);
        lemma_drop_zero_identity(s.drop_first());
        assert(seq![s.first()] + s.drop_first() =~= s);
    }
}

proof fn lemma_pops_balanced(depth: nat)
    ensures
        balanced_from(pops(depth), depth),
    decreases depth,
{
    if depth == 0 {
        assert(pops(0).len() == 0);
    } else {
        lemma_pops_balanced((depth - 1) as nat);
        assert(pops(depth).first() == OpView::PopState);
        assert(pops(depth).drop_first() =~= pops((depth - 1) as nat));
    }
}

proof fn lemma_balanced_cons(x: OpView, t: Seq<OpView>, depth: nat)
    ensures
        balanced_from(seq![x] + t, depth) == (match x {
            OpView::PushState => balanced_from(t, depth + 1),
            OpView::PopState => depth > 0 && balanced_from(t, (depth - 1) as nat),
            _ => balanced_from(t, depth),
        }),
{
    assert((seq![x] + t).len() == 1 + t.len());
    assert((seq![x] + t).first() == x);
    assert((seq![x] + t).drop_first() =~= t);
}

proof fn lemma_rebalance_balanced(s: Seq<OpView>, depth: nat)
    ensures
        balanced_from(rebalance(s, depth), depth),
    decreases s.len(),
{
    if s.len() == 0 {
        lemma_pops_balanced(depth);
    } else {
        match s.first() {
            OpView::PushState => {
                lemma_rebalance_balanced(s.drop_first(), depth + 1);
                lemma_balanced_cons(s.first(), rebalance(s.drop_first(), depth + 1), depth);
            },
            OpView::PopState => {
                if depth == 0 {
                    lemma_rebalance_balanced(s.drop_first(), 0);
                } else {
                    lemma_rebalance_balanced(s.drop_first(), (depth - 1) as nat);
                    lemma_balanced_cons(
                        s.first(),
                        rebalance(s.drop_first(), (depth - 1) as nat),
                        depth,
                    );
                }
            },
            _ => {
                lemma_rebalance_balanced(s.drop_first(), depth);
                lemma_balanced_cons(s.first(), rebalance(s.drop_first(), depth), depth);
            },
        }
    }
}

proof fn lemma_rebalance_identity(s: Seq<OpView>, depth: nat)
    requires
        balanced_from(s, depth),
    ensures
        rebalance(s, depth) == s,
    decreases s.len(),
{
    if s.len() == 0 {
        assert(pops(0) =~= s);
    } else {
        match s.first() {
            OpView::PushState => {
                lemma_rebalance_identity(s.drop_first(), depth + 1);
                assert(seq![s.first()] + s.drop_first() =~= s);
            },
            OpView::PopState => {
                lemma_rebalance_identity(s.drop_first(), (depth - 1) as nat);
                assert(seq![s.first()] + s.drop_first() =~= s);
            },
            _ => {
                lemma_rebalance_identity(s.drop_first(), depth);
                assert(seq![s.first()] + s.drop_first() =~= s);
            },
        }
    }
}

proof fn lemma_rebalance_no_zero(s: Seq<OpView>, depth: nat)
    requires
        no_zero_paints(s),
    ensures
        no_zero_paints(rebalance(s, depth)),
    decreases s.len(),
{
    if s.len() == 0 {
        assert forall|i: int| 0 <= i < pops(depth).len() implies !is_zero_paint(pops(depth)[i]) by {
            assert(pops(depth)[i] == OpView::PopState);
        }
    } else {
        assert(forall|i: int|
            0 <= i < s.drop_first().len() ==> s.drop_first()[i] == s[i + 1]);
        lemma_rebalance_no_zero(s.drop_first(), depth + 1);
        lemma_rebalance_no_zero(s.drop_first(), depth);
        if depth > 0 {
            lemma_rebalance_no_zero(s.drop_first(), (depth - 1) as nat);
        }
        let r = rebalance(s, depth);
        match s.first() {
            OpView::PushState => {
                let t = rebalance(s.drop_first(), depth + 1);
                assert forall|i: int| 0 <= i < r.len() implies !is_zero_paint(r[i]) by {
                    if i > 0 {
                        assert(r[i] == t[i - 1]);
                    }
                }
            },
            OpView::PopState => {
                if depth > 0 {
                    let t = rebalance(s.drop_first(), (depth - 1) as nat);
                    assert forall|i: int| 0 <= i < r.len() implies !is_zero_paint(r[i]) by {
                        if i > 0 {
                            assert(r[i] == t[i - 1]);
                        }
                    }
                }
            },
            _ => {
                let t = rebalance(s.drop_first(), depth);
                assert forall|i: int| 0 <= i < r.len() implies !is_zero_paint(r[i]) by {
                    if i > 0 {
                        assert(r[i] == t[i - 1]);
                    }
                }
            },
        }
    }
}

proof fn lemma_merge_first(s: Seq<OpView>)
    requires
        s.len() > 0,
    ensures
        merge_colors(s).len() > 0,
        !is_set_color(s[0]) ==> merge_colors(s)[0] == s[0],
    decreases s.len(),
{
    if s.len() <= 1 {
    } else if is_set_color(s[0]) && is_set_color(s[1]) {
        lemma_merge_first(s.drop_first());
    } else {
    }
}

proof fn lemma_merge_no_adjacent(s: Seq<OpView>)
    ensures
        no_adjacent_colors(merge_colors(s)),
    decreases s.len(),
{
    if s.len() <= 1 {
    } else if is_set_color(s[0]) && is_set_color(s[1]) {
        lemma_merge_no_adjacent(s.drop_first());
    } else {
        lemma_merge_no_adjacent(s.drop_first());
        lemma_merge_first(s.drop_first());
        let t = merge_colors(s.drop_first());
        let r = seq![s[0]] + t;
        assert(s.drop_first()[0] == s[1]);
        assert forall|i: int| 0 <= i && i + 1 < r.len() implies !(is_set_color(#[trigger] r[i])
            && is_set_color(r[i + 1])) by {
            if i == 0 {
                assert(r[1] == t[0]);
                if is_set_color(s[0]) {
                    assert(!is_set_color(s[1]));
                    assert(t[0] == s[1]);
                }
            } else {
                assert(r[i] == t[i - 1]);
                assert(r[i + 1] == t[i]);
            }
        }
    }
}

proof fn lemma_merge_identity(s: Seq<OpView>)
    requires
        no_adjacent_colors(s),
    ensures
        merge_colors(s) == s,
    decreases s.len(),
{
    if s.len() <= 1 {
    } else {
        assert(!(is_set_color(s[0]) && is_set_color(s[1])));
        assert(forall|i: int|
            0 <= i < s.drop_first().len() ==> s.drop_first()[i] == s[i + 1]);
        lemma_merge_identity(s.drop_first());
        assert(seq![s[0]] + s.drop_first() =~= s);
    }
}

proof fn lemma_merge_balanced(s: Seq<OpView>, depth: nat)
    requires
        balanced_from(s, depth),
    ensures
        balanced_from(merge_colors(s), depth),
    decreases s.len(),
{
    if s.len() <= 1 {
    } else if is_set_color(s[0]) && is_set_color(s[1]) {
        lemma_merge_balanced(s.drop_first(), depth);
    } else {
        match s.first() {
            OpView::PushState => {
                lemma_merge_balanced(s.drop_first(), depth + 1);
                lemma_balanced_cons(s[0], merge_colors(s.drop_first()), depth);
            },
            OpView::PopState => {
                lemma_merge_balanced(s.drop_first(), (depth - 1) as nat);
                lemma_balanced_cons(s[0], merge_colors(s.drop_first()), depth);
            },
            _ => {
                lemma_merge_balanced(s.drop_first(), depth);
                lemma_balanced_cons(s[0], merge_colors(s.drop_first()), depth);
            },
        }
    }
}

proof fn lemma_merge_no_zero(s: Seq<OpView>)
    requires
        no_zero_paints(s),
    ensures
        no_zero_paints(merge_colors(s)),
    decreases s.len(),
{
    if s.len() <= 1 {
    } else {
        assert(forall|i: int|
            0 <= i < s.drop_first().len() ==> s.drop_first()[i] == s[i + 1]);
        lemma_merge_no_zero(s.drop_first());
        if is_set_color(s[0]) && is_set_color(s[1]) {
        } else {
            let t = merge_colors(s.drop_first());
            let r = seq![s[0]] + t;
            assert forall|i: int| 0 <= i < r.len() implies !is_zero_paint(r[i]) by {
                if i > 0 {
                    assert(r[i] == t[i - 1]);
                }
            }
        }
    }
}

proof fn lemma_drop_zero_no_refs(s: Seq<OpView>)
    requires
        crate::ops::no_form_refs(s),
    ensures
        crate::ops::no_form_refs(drop_zero_paints(s)),
    decreases s.len(),
{
    if s.len() == 0 {
    } else {
        assert(forall|i: int| 0 <= i < s.drop_first().len() ==> s.drop_first()[i] == s[i + 1]);
        lemma_drop_zero_no_refs(s.drop_first());
        if !is_zero_paint(s.first()) {
            let t = drop_zero_paints(s.drop_first());
            let r = seq![s.first()] + t;
            assert forall|i: int| 0 <= i < r.len() implies !((#[trigger] r[i]) is FormRef) by {
                if i > 0 {
                    assert(r[i] == t[i - 1]);
                }
            }
        }
    }
}

proof fn lemma_rebalance_no_refs(s: Seq<OpView>, depth: nat)
    requires
        crate::ops::no_form_refs(s),
    ensures
        crate::ops::no_form_refs(rebalance(s, depth)),
    decreases s.len(),
{
    if s.len() == 0 {
        assert forall|i: int| 0 <= i < pops(depth).len() implies !((#[trigger] pops(depth)[i])
            is FormRef) by {
            assert(pops(depth)[i] == OpView::PopState);
        }
    } else {
        assert(forall|i: int| 0 <= i < s.drop_first().len() ==> s.drop_first()[i] == s[i + 1]);
        lemma_rebalance_no_refs(s.drop_first(), depth + 1);
        lemma_rebalance_no_refs(s.drop_first(), depth);
        if depth > 0 {
            lemma_rebalance_no_refs(s.drop_first(), (depth - 1) as nat);
        }
        let r = rebalance(s, depth);
        match s.first() {
            OpView::PushState => {
                let t = rebalance(s.drop_first(), depth + 1);
                assert forall|i: int| 0 <= i < r.len() implies !((#[trigger] r[i]) is FormRef) by {
                    if i > 0 {
                        assert(r[i] == t[i - 1]);
                    }
                }
            },
            OpView::PopState => {
                if depth > 0 {
                    let t = rebalance(s.drop_first(), (depth - 1) as nat);
                    assert forall|i: int| 0 <= i < r.len() implies !((#[trigger] r[i]) is FormRef)
                        by {
                        if i > 0 {
                            assert(r[i] == t[i - 1]);
                        }
                    }
                }
            },
            _ => {
                let t = rebalance(s.drop_first(), depth);
                assert forall|i: int| 0 <= i < r.len() implies !((#[trigger] r[i]) is FormRef) by {
                    if i > 0 {
                        assert(r[i] == t[i - 1]);
                    }
                }
            },
        }
    }
}

proof fn lemma_merge_no_refs(s: Seq<OpView>)
    requires
        crate::ops::no_form_refs(s),
    ensures
        crate::ops::no_form_refs(merge_colors(s)),
    decreases s.len(),
{
    if s.len() <= 1 {
    } else {
        assert(forall|i: int| 0 <= i < s.drop_first().len() ==> s.drop_first()[i] == s[i + 1]);
        lemma_merge_no_refs(s.drop_first());
        if is_set_color(s[0]) && is_set_color(s[1]) {
        } else {
            let t = merge_colors(s.drop_first());
            let r = seq![s[0]] + t;
            assert forall|i: int| 0 <= i < r.len() implies !((#[trigger] r[i]) is FormRef) by {
                if i > 0 {
                    assert(r[i] == t[i - 1]);
                }
            }
        }
    }
}

proof fn lemma_drop_zero_all(s: Seq<OpView>, p: spec_fn(OpView) -> bool)
    requires
        forall|i: int| 0 <= i < s.len() ==> p(#[trigger] s[i]),
    ensures
        forall|i: int|
            0 <= i < drop_zero_paints(s).len() ==> p(#[trigger] drop_zero_paints(s)[i]),
    decreases s.len(),
{
    if s.len() == 0 {
    } else {
        assert(forall|i: int| 0 <= i < s.drop_first().len() ==> s.drop_first()[i] == s[i + 1]);
        lemma_drop_zero_all(s.drop_first(), p);
        if !is_zero_paint(s.first()) {
            let t = drop_zero_paints(s.drop_first());
            let r = seq![s.first()] + t;
            assert forall|i: int| 0 <= i < r.len() implies p(#[trigger] r[i]) by {
                if i > 0 {
                    assert(r[i] == t[i - 1]);
                    assert(p(t[i - 1]));
                }
            }
            assert(drop_zero_paints(s) == r);
            assert(forall|i: int|
                0 <= i < drop_zero_paints(s).len() ==> p(#[trigger] drop_zero_paints(s)[i]));
        } else {
            assert(drop_zero_paints(s) == drop_zero_paints(s.drop_first()));
        }
    }
}

proof fn lemma_rebalance_all(s: Seq<OpView>, depth: nat, p: spec_fn(OpView) -> bool)
    requires
        forall|i: int| 0 <= i < s.len() ==> p(#[trigger] s[i]),
        p(OpView::PopState),
    ensures
        forall|i: int|
            0 <= i < rebalance(s, depth).len() ==> p(#[trigger] rebalance(s, depth)[i]),
    decreases s.len(),
{
    if s.len() == 0 {
        assert forall|i: int| 0 <= i < pops(depth).len() implies p(#[trigger] pops(depth)[i]) by {
            assert(pops(depth)[i] == OpView::PopState);
        }
    } else {
        assert(forall|i: int| 0 <= i < s.drop_first().len() ==> s.drop_first()[i] == s[i + 1]);
        lemma_rebalance_all(s.drop_first(), depth + 1, p);
        lemma_rebalance_all(s.drop_first(), depth, p);
        if depth > 0 {
            lemma_rebalance_all(s.drop_first(), (depth - 1) as nat, p);
        }
        let r = rebalance(s, depth);
        match s.first() {
            OpView::PushState => {
                let t = rebalance(s.drop_first(), depth + 1);
                assert(r == seq![s.first()] + t);
                assert forall|i: int| 0 <= i < r.len() implies p(#[trigger] r[i]) by {
                    if i > 0 {
                        assert(r[i] == t[i - 1]);
                        assert(p(t[i - 1]));
                    }
                }
            },
            OpView::PopState => {
                if depth > 0 {
                    let t = rebalance(s.drop_first(), (depth - 1) as nat);
                    assert(r == seq![s.first()] + t);
                    assert forall|i: int| 0 <= i < r.len() implies p(#[trigger] r[i]) by {
                        if i > 0 {
                            assert(r[i] == t[i - 1]);
                            assert(p(t[i - 1]));
                        }
                    }
                } else {
                    assert(r == rebalance(s.drop_first(), 0));
                }
            },
            _ => {
                let t = rebalance(s.drop_first(), depth);
                assert(r == seq![s.first()] + t);
                assert forall|i: int| 0 <= i < r.len() implies p(#[trigger] r[i]) by {
                    if i > 0 {
                        assert(r[i] == t[i - 1]);
                        assert(p(t[i - 1]));
                    }
                }
            },
        }
    }
}

proof fn lemma_merge_all(s: Seq<OpView>, p: spec_fn(OpView) -> bool)
    requires
        forall|i: int| 0 <= i < s.len() ==> p(#[trigger] s[i]),
    ensures
        forall|i: int| 0 <= i < merge_colors(s).len() ==> p(#[trigger] merge_colors(s)[i]),
    decreases s.len(),
{
    if s.len() <= 1 {
    } else {
        assert(forall|i: int| 0 <= i < s.drop_first().len() ==> s.drop_first()[i] == s[i + 1]);
        lemma_merge_all(s.drop_first(), p);
        if is_set_color(s[0]) && is_set_color(s[1]) {
            assert(merge_colors(s) == merge_colors(s.drop_first()));
        } else {
            let t = merge_colors(s.drop_first());
            let r = seq![s[0]] + t;
            assert(merge_colors(s) == r);
            assert forall|i: int| 0 <= i < r.len() implies p(#[trigger] r[i]) by {
                if i > 0 {
                    assert(r[i] == t[i - 1]);
                    assert(p(t[i - 1]));
                }
            }
        }
    }
}

/// The normalizing stage keeps every per-operator property that the state
/// restore operator has: its output holds only operators of the input,
/// plus the restores it appends to close open saves.
pub proof fn lemma_sanitize_all(s: Seq<OpView>, p: spec_fn(OpView) -> bool)
    requires
        forall|i: int| 0 <= i < s.len() ==> p(#[trigger] s[i]),
        p(OpView::PopState),
    ensures
        forall|i: int| 0 <= i < spec_sanitize(s).len() ==> p(#[trigger] spec_sanitize(s)[i]),
{
    lemma_drop_zero_all(s, p);
    lemma_rebalance_all(drop_zero_paints(s), 0, p);
    lemma_merge_all(rebalance(drop_zero_paints(s), 0), p);
}

/// The normalizing stage introduces no reference operators.
pub proof fn lemma_sanitize_no_refs(s: Seq<OpView>)
    requires
        crate::ops::no_form_refs(s),
    ensures
        crate::ops::no_form_refs(spec_sanitize(s)),
{
    lemma_drop_zero_no_refs(s);
    lemma_rebalance_no_refs(drop_zero_paints(s), 0);
    lemma_merge_no_refs(rebalance(drop_zero_paints(s), 0));
}

/// A sanitized stream has balanced save/restore pairs.
pub proof fn lemma_sanitize_balanced(s: Seq<OpView>)
    ensures
        balanced(spec_sanitize(s)),
{
    lemma_rebalance_balanced(drop_zero_paints(s), 0);
    lemma_merge_balanced(rebalance(drop_zero_paints(s), 0), 0);
}

/// The normalizing stage is the identity on a stream already in normal
/// form: no paint operation without visible effect, balanced save/restore
/// pairs, and no adjacent color settings.
pub proof fn lemma_sanitize_identity(s: Seq<OpView>)
    requires
        no_zero_paints(s),
        balanced(s),
        no_adjacent_colors(s),
    ensures
        spec_sanitize(s) == s,
{
    lemma_drop_zero_identity(s);
    lemma_rebalance_identity(s, 0);
    lemma_merge_identity(s);
}

/// Sanitizing an already-sanitized stream is a no-op: the normalizing
/// stage is idempotent.
pub proof fn lemma_sanitize_idempotent(s: Seq<OpView>)
    ensures
        spec_sanitize(spec_sanitize(s)) == spec_sanitize(s),
{
    let d = drop_zero_paints(s);
    let b = rebalance(d, 0);
    let t = merge_colors(b);
    lemma_drop_zero_no_zero(s);
    lemma_rebalance_no_zero(d, 0);
    lemma_merge_no_zero(b);
    lemma_rebalance_balanced(d, 0);
    lemma_merge_balanced(b, 0);
    lemma_merge_no_adjacent(b);
    lemma_drop_zero_identity(t);
    lemma_rebalance_identity(t, 0);
    lemma_merge_identity(t);
}

fn op_is_zero_paint(o: &Op) -> (r: bool)
    ensures
        r == is_zero_paint(o@),
{
    match o {
        Op::PaintPath { segments } => *segments == 0,
        Op::PaintText { runs, .. } => runs.len() == 0,
        _ => false,
    }
}

fn op_is_set_color(o: &Op) -> (r: bool)
    ensures
        r == is_set_color(o@),
{
    match o {
        Op::SetColor { .. } => true,
        _ => false,
    }
}

fn exec_drop_zero(v: &Vec<Op>) -> (r: Vec<Op>)
    ensures
        ops_view(r@) == drop_zero_paints(ops_view(v@)),
{
    let ghost w = ops_view(v@);
    let mut out: Vec<Op> = Vec::new();
    let mut i: usize = 0;
    proof {
        assert(w.skip(0) =~= w);
        assert(ops_view(out@) =~= Seq::<OpView>::empty());
    }
    while i < v.len()
        invariant
            i <= v.len(),
            w == ops_view(v@),
            drop_zero_paints(w) == ops_view(out@) + drop_zero_paints(w.skip(i as int)),
        decreases v.len() - i,
    {
        proof {
            assert(w.skip(i as int).len() > 0);
            assert(w.skip(i as int).first() == w[i as int]);
            assert(w.skip(i as int).drop_first() =~= w.skip(i as int + 1));
            assert(w[i as int] == v@[i as int]@);
        }
        if !op_is_zero_paint(&v[i]) {
            let ghost old_out = ops_view(out@);
            out.push(v[i].duplicate());
            proof {
                assert(ops_view(out@) =~= old_out + seq![w[i as int]]);
                assert(old_out + (seq![w[i as int]] + drop_zero_paints(w.skip(i as int + 1)))
                    =~= (old_out + seq![w[i as int]]) + drop_zero_paints(w.skip(i as int + 1)));
            }
        }
        i = i + 1;
    }
    proof {
        assert(w.skip(v@.len() as int) =~= Seq::<OpView>::empty());
        assert(ops_view(out@) + Seq::<OpView>::empty() =~= ops_view(out@));
    }
    out
}

fn exec_rebalance(v: &Vec<Op>) -> (r: Vec<Op>)
    ensures
        ops_view(r@) == rebalance(ops_view(v@), 0),
{
    let ghost w = ops_view(v@);
    let mut out: Vec<Op> = Vec::new();
    let mut depth: usize = 0;
    let mut i: usize = 0;
    proof {
        assert(w.skip(0) =~= w);
        assert(ops_view(out@) =~= Seq::<OpView>::empty());
    }
    while i < v.len()
        invariant
            i <= v.len(),
            depth <= i,
            w == ops_view(v@),
            rebalance(w, 0) == ops_view(out@) + rebalance(w.skip(i as int), depth as nat),
        decreases v.len() - i,
    {
        proof {
            assert(w.skip(i as int).len() > 0);
            assert(w.skip(i as int).first() == w[i as int]);
            assert(w.skip(i as int).drop_first() =~= w.skip(i as int + 1));
            assert(w[i as int] == v@[i as int]@);
        }
        let ghost old_out = ops_view(out@);
        match &v[i] {
            Op::PushState => {
                out.push(Op::PushState);
                depth = depth + 1;
                proof {
                    assert(ops_view(out@) =~= old_out + seq![w[i as int]]);
                    assert(old_out + (seq![w[i as int]] + rebalance(w.skip(i as int + 1), depth as nat))
                        =~= (old_out + seq![w[i as int]]) + rebalance(w.skip(i as int + 1), depth as nat));
                }
            },
            Op::PopState => {
                if depth > 0 {
                    out.push(Op::PopState);
                    depth = depth - 1;
                    proof {
                        assert(ops_view(out@) =~= old_out + seq![w[i as int]]);
                        assert(old_out + (seq![w[i as int]] + rebalance(w.skip(i as int + 1), depth as nat))
                            =~= (old_out + seq![w[i as int]]) + rebalance(w.skip(i as int + 1), depth as nat));
                    }
                }
            },
            _ => {
                out.push(v[i].duplicate());
                proof {
                    assert(ops_view(out@) =~= old_out + seq![w[i as int]]);
                    assert(old_out + (seq![w[i as int]] + rebalance(w.skip(i as int + 1), depth as nat))
                        =~= (old_out + seq![w[i as int]]) + rebalance(w.skip(i as int + 1), depth as nat));
                }
            },
        }
        i = i + 1;
    }
    proof {
        assert(w.skip(v@.len() as int) =~= Seq::<OpView>::empty());
    }
    while depth > 0
        invariant
            rebalance(w, 0) == ops_view(out@) + pops(depth as nat),
        decreases depth,
    {
        let ghost old_out = ops_view(out@);
        out.push(Op::PopState);
        depth = depth - 1;
        proof {
            assert(ops_view(out@) =~= old_out + seq![OpView::PopState]);
            assert((old_out + seq![OpView::PopState]) + pops(depth as nat)
                =~= old_out + pops((depth + 1) as nat));
        }
    }
    proof {
        assert(ops_view(out@) + pops(0) =~= ops_view(out@));
    }
    out
}

fn exec_merge(v: &Vec<Op>) -> (r: Vec<Op>)
    ensures
        ops_view(r@) == merge_colors(ops_view(v@)),
{
    let ghost w = ops_view(v@);
    let mut out: Vec<Op> = Vec::new();
    let mut i: usize = 0;
    proof {
        assert(w.skip(0) =~= w);
        assert(ops_view(out@) =~= Seq::<OpView>::empty());
    }
    while i < v.len()
        invariant
            i <= v.len(),
            w == ops_view(v@),
            merge_colors(w) == ops_view(out@) + merge_colors(w.skip(i as int)),
        decreases v.len() - i,
    {
        proof {
            assert(w.skip(i as int).len() == w.len() - i);
            assert(w.skip(i as int)[0] == w[i as int]);
            if i as int + 1 < w.len() {
                assert(w.skip(i as int)[1] == w[i as int + 1]);
            }
            assert(w.skip(i as int).drop_first() =~= w.skip(i as int + 1));
            assert(w[i as int] == v@[i as int]@);
            if i as int + 1 < w.len() {
                assert(w[i as int + 1] == v@[i as int + 1]@);
            }
        }
        let both = if i + 1 < v.len() {
            op_is_set_color(&v[i]) && op_is_set_color(&v[i + 1])
        } else {
            false
        };
        if !both {
            let ghost old_out = ops_view(out@);
            out.push(v[i].duplicate());
            proof {
                assert(ops_view(out@) =~= old_out + seq![w[i as int]]);
                if w.skip(i as int).len() == 1 {
                    assert(w.skip(i as int) =~= seq![w[i as int]]);
                    assert(merge_colors(w.skip(i as int)) == seq![w[i as int]]);
                    assert(merge_colors(w.skip(i as int + 1)) =~= Seq::<OpView>::empty());
                    assert(old_out + seq![w[i as int]]
                        =~= (old_out + seq![w[i as int]]) + merge_colors(w.skip(i as int + 1)));
                } else {
                    assert(old_out + (seq![w[i as int]] + merge_colors(w.skip(i as int + 1)))
                        =~= (old_out + seq![w[i as int]]) + merge_colors(w.skip(i as int + 1)));
                }
            }
        }
        i = i + 1;
    }
    proof {
        assert(w.skip(v@.len() as int) =~= Seq::<OpView>::empty());
        assert(ops_view(out@) + Seq::<OpView>::empty() =~= ops_view(out@));
    }
    out
}

/// Runs the normalizing stage over a stream: drops paints with no visible
/// effect, repairs unbalanced save/restore pairs, and merges adjacent
/// color settings.  Never drops a paint operation with visible effect, and
/// running it twice yields the same stream as running it once.
pub fn sanitize_ops(input: &Vec<Op>) -> (r: Vec<Op>)
    ensures
        ops_view(r@) == spec_sanitize(ops_view(input@)),
        balanced(ops_view(r@)),
{
    let a = exec_drop_zero(input);
    let b = exec_rebalance(&a);
    let c = exec_merge(&b);
    proof {
        lemma_sanitize_balanced(ops_view(input@));
    }
    c
}

} // verus!
