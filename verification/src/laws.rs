//! Laws of the bisection engine, proved over the model of
//! [`crate::model`].
//!
//! The executable engine returns exactly [`bisect_spec`] (respectively
//! [`engine_spec`]) of its inputs, so everything proved here about those
//! spec functions holds of every run of the engine.

use vstd::prelude::*;

use crate::model::{
    bisect_spec, boundary_transitions, bracket_layers, bracket_results, engine_spec,
    heights_ascending, no_revisit, probed, probed_all, step_transition, LayerResultView,
    LayerView, ProbeModel, TransitionView,
};

verus! {

/// The number of maximal constant-output runs in a sequence of probe
/// results: one more than the number of adjacent differing pairs (zero for
/// an empty sequence).
pub open spec fn num_runs(rs: Seq<LayerResultView>) -> nat
    decreases rs.len(),
{
    let n = rs.len() as int;
    if n == 0 {
        0
    } else if n == 1 {
        1
    } else {
        num_runs(rs.drop_last()) + if rs[n - 2].result != rs[n - 1].result {
            1nat
        } else {
            0nat
        }
    }
}

/// There is exactly one boundary transition per run boundary: a sequence
/// with `k` maximal runs has `k - 1` boundary transitions.
pub proof fn lemma_boundary_count(rs: Seq<LayerResultView>)
    requires
        rs.len() >= 1,
    ensures
        boundary_transitions(rs).len() + 1 == num_runs(rs),
    decreases rs.len(),
{
    if rs.len() >= 2 {
        lemma_boundary_count(rs.drop_last());
    }
}

/// Taking a contiguous part of a step function keeps it a step function.
pub proof fn lemma_no_revisit_subrange(rs: Seq<LayerResultView>, a: int, b: int)
    requires
        no_revisit(rs),
        0 <= a <= b <= rs.len(),
    ensures
        no_revisit(rs.subrange(a, b)),
{
    let sub = rs.subrange(a, b);
    assert forall|i: int, j: int, k: int|
        0 <= i <= j <= k < sub.len() && sub[i].result == sub[k].result implies sub[j].result
        == sub[i].result by {
        assert(sub[i] == rs[a + i]);
        assert(sub[j] == rs[a + j]);
        assert(sub[k] == rs[a + k]);
    }
}

/// Boundary transitions split at any interior position, provided the
/// element at the split belongs to both sides.
pub proof fn lemma_boundary_split(rs: Seq<LayerResultView>, m: int)
    requires
        0 <= m < rs.len(),
    ensures
        boundary_transitions(rs) == boundary_transitions(rs.take(m + 1)) + boundary_transitions(
            rs.skip(m),
        ),
    decreases rs.len(),
{
    let n = rs.len() as int;
    if m == n - 1 {
        assert(rs.take(m + 1) =~= rs);
        assert(rs.skip(m).len() == 1);
        assert(boundary_transitions(rs.skip(m)) =~= Seq::<TransitionView>::empty());
        assert(boundary_transitions(rs) =~= boundary_transitions(rs.take(m + 1))
            + boundary_transitions(rs.skip(m)));
    } else {
        let rl = rs.drop_last();
        lemma_boundary_split(rl, m);
        assert(rl.take(m + 1) =~= rs.take(m + 1));
        assert(rs.skip(m).drop_last() =~= rl.skip(m));
        assert(rs.skip(m)[rs.skip(m).len() as int - 2] == rs[n - 2]);
        assert(rs.skip(m)[rs.skip(m).len() as int - 1] == rs[n - 1]);
        assert(boundary_transitions(rs) =~= boundary_transitions(rs.take(m + 1))
            + boundary_transitions(rs.skip(m)));
    }
}

/// A constant-output sequence has no boundary transitions.
pub proof fn lemma_boundary_constant(rs: Seq<LayerResultView>)
    requires
        forall|i: int| 0 <= i < rs.len() ==> #[trigger] rs[i].result == rs[0].result,
    ensures
        boundary_transitions(rs) == Seq::<TransitionView>::empty(),
    decreases rs.len(),
{
    if rs.len() < 2 {
        assert(boundary_transitions(rs) =~= Seq::<TransitionView>::empty());
    } else {
        let rl = rs.drop_last();
        assert forall|i: int| 0 <= i < rl.len() implies #[trigger] rl[i].result
            == rl[0].result by {
            assert(rl[i] == rs[i]);
        }
        lemma_boundary_constant(rl);
        assert(boundary_transitions(rs) =~= Seq::<TransitionView>::empty());
    }
}

/// Exhaustiveness of the bisection step: as long as the probed outputs
/// over the bracketed range form a true step function (equal ends of any
/// sub-range imply a constant interior), the bisection finds exactly the
/// boundary transitions of the bracketed range, in order.
pub proof fn lemma_bisect_exhaustive(
    range: Seq<LayerView>,
    start: LayerResultView,
    end: LayerResultView,
    f: ProbeModel,
)
    requires
        start.result != end.result,
        no_revisit(bracket_results(start, range, end, f)),
    ensures
        bisect_spec(range, start, end, f) == boundary_transitions(
            bracket_results(start, range, end, f),
        ),
    decreases range.len(),
{
    let rs = bracket_results(start, range, end, f);
    let n = range.len() as int;
    assert(rs.len() == n + 2);
    assert(rs[0] == start);
    assert(rs[n + 1] == end);
    if n == 0 {
        assert(boundary_transitions(rs) =~= seq![step_transition(start, end)]) by {
            reveal_with_fuel(boundary_transitions, 3);
            assert(rs.drop_last() =~= seq![start]);
        }
    } else {
        let half = n / 2;
        let mid = probed(range[half], f);
        assert(rs[half + 1] == mid);
        if n == 1 {
            assert(boundary_transitions(rs) =~= (if start.result != mid.result {
                seq![step_transition(start, mid)]
            } else {
                Seq::<TransitionView>::empty()
            }) + (if mid.result != end.result {
                seq![step_transition(mid, end)]
            } else {
                Seq::<TransitionView>::empty()
            })) by {
                reveal_with_fuel(boundary_transitions, 4);
                assert(rs.drop_last() =~= seq![start, mid]);
                assert(rs.drop_last().drop_last() =~= seq![start]);
            }
        } else if start.result == mid.result {
            let prefix = rs.take(half + 2);
            assert forall|i: int| 0 <= i < prefix.len() implies #[trigger] prefix[i].result
                == prefix[0].result by {
                assert(prefix[i] == rs[i]);
                assert(rs[0].result == rs[half + 1].result);
                assert(rs[i].result == rs[0].result);
            }
            lemma_boundary_constant(prefix);
            lemma_boundary_split(rs, half + 1);
            let range2 = range.skip(half + 1);
            let rs2 = bracket_results(mid, range2, end, f);
            assert(rs2 =~= rs.skip(half + 1)) by {
                assert forall|i: int| 0 <= i < rs2.len() implies rs2[i] == rs.skip(half + 1)[i] by {
                    if 1 <= i < rs2.len() - 1 {
                        assert(rs2[i] == probed(range2[i - 1], f));
                        assert(range2[i - 1] == range[half + i]);
                        assert(rs.skip(half + 1)[i] == rs[half + 1 + i]);
                        assert(rs[half + 1 + i] == probed(range[half + i], f));
                    }
                }
            }
            assert(rs.skip(half + 1) =~= rs.subrange(half + 1, rs.len() as int));
            lemma_no_revisit_subrange(rs, half + 1, rs.len() as int);
            lemma_bisect_exhaustive(range2, mid, end, f);
            assert(boundary_transitions(rs) =~= bisect_spec(range, start, end, f));
        } else if mid.result == end.result {
            let suffix = rs.skip(half + 1);
            assert forall|i: int| 0 <= i < suffix.len() implies #[trigger] suffix[i].result
                == suffix[0].result by {
                assert(suffix[i] == rs[half + 1 + i]);
                assert(suffix[0] == rs[half + 1]);
                assert(rs[half + 1].result == rs[n + 1].result);
                assert(rs[half + 1 + i].result == rs[half + 1].result);
            }
            lemma_boundary_constant(suffix);
            lemma_boundary_split(rs, half + 1);
            let range2 = range.take(half);
            let rs2 = bracket_results(start, range2, mid, f);
            assert(rs2 =~= rs.take(half + 2)) by {
                assert forall|i: int| 0 <= i < rs2.len() implies rs2[i] == rs.take(half + 2)[i] by {
                    if 1 <= i < rs2.len() - 1 {
                        assert(rs2[i] == probed(range2[i - 1], f));
                        assert(range2[i - 1] == range[i - 1]);
                        assert(rs.take(half + 2)[i] == rs[i]);
                        assert(rs[i] == probed(range[i - 1], f));
                    } else if i == rs2.len() - 1 {
                        assert(rs2[i] == mid);
                        assert(rs.take(half + 2)[i] == rs[half + 1]);
                    }
                }
            }
            assert(rs.take(half + 2) =~= rs.subrange(0, half + 2));
            lemma_no_revisit_subrange(rs, 0, half + 2);
            lemma_bisect_exhaustive(range2, start, mid, f);
            assert(boundary_transitions(rs) =~= bisect_spec(range, start, end, f));
        } else {
            lemma_boundary_split(rs, half + 1);
            let left_range = range.take(half);
            let rs_left = bracket_results(start, left_range, mid, f);
            assert(rs_left =~= rs.take(half + 2)) by {
                assert forall|i: int| 0 <= i < rs_left.len() implies rs_left[i] == rs.take(
                    half + 2,
                )[i] by {
                    if 1 <= i < rs_left.len() - 1 {
                        assert(rs_left[i] == probed(left_range[i - 1], f));
                        assert(left_range[i - 1] == range[i - 1]);
                        assert(rs.take(half + 2)[i] == rs[i]);
                        assert(rs[i] == probed(range[i - 1], f));
                    } else if i == rs_left.len() - 1 {
                        assert(rs_left[i] == mid);
                        assert(rs.take(half + 2)[i] == rs[half + 1]);
                    }
                }
            }
            let right_range = range.skip(half + 1);
            let rs_right = bracket_results(mid, right_range, end, f);
            assert(rs_right =~= rs.skip(half + 1)) by {
                assert forall|i: int| 0 <= i < rs_right.len() implies rs_right[i] == rs.skip(
                    half + 1,
                )[i] by {
                    if 1 <= i < rs_right.len() - 1 {
                        assert(rs_right[i] == probed(right_range[i - 1], f));
                        assert(right_range[i - 1] == range[half + i]);
                        assert(rs.skip(half + 1)[i] == rs[half + 1 + i]);
                        assert(rs[half + 1 + i] == probed(range[half + i], f));
                    }
                }
            }
            assert(rs.take(half + 2) =~= rs.subrange(0, half + 2));
            assert(rs.skip(half + 1) =~= rs.subrange(half + 1, rs.len() as int));
            lemma_no_revisit_subrange(rs, 0, half + 2);
            lemma_no_revisit_subrange(rs, half + 1, rs.len() as int);
            lemma_bisect_exhaustive(left_range, start, mid, f);
            lemma_bisect_exhaustive(right_range, mid, end, f);
            assert(boundary_transitions(rs) =~= bisect_spec(range, start, end, f));
        }
    }
}

/// A strictly ascending bracket stays strictly ascending when narrowed to
/// the part of the range right of a probed midpoint.
proof fn lemma_bracket_right(
    start: LayerResultView,
    range: Seq<LayerView>,
    end: LayerResultView,
    mid: LayerResultView,
    half: int,
)
    requires
        heights_ascending(bracket_layers(start, range, end)),
        0 <= half < range.len(),
        mid.layer == range[half],
    ensures
        heights_ascending(bracket_layers(mid, range.skip(half + 1), end)),
{
    let b = bracket_layers(start, range, end);
    let nb = bracket_layers(mid, range.skip(half + 1), end);
    assert forall|i: int, j: int| 0 <= i < j < nb.len() implies nb[i].height < nb[j].height by {
        assert(nb[i] == b[i + half + 1]);
        assert(nb[j] == b[j + half + 1]);
    }
}

/// A strictly ascending bracket stays strictly ascending when narrowed to
/// the part of the range left of a probed midpoint.
proof fn lemma_bracket_left(
    start: LayerResultView,
    range: Seq<LayerView>,
    end: LayerResultView,
    mid: LayerResultView,
    half: int,
)
    requires
        heights_ascending(bracket_layers(start, range, end)),
        0 <= half < range.len(),
        mid.layer == range[half],
    ensures
        heights_ascending(bracket_layers(start, range.take(half), mid)),
{
    let b = bracket_layers(start, range, end);
    let nb = bracket_layers(start, range.take(half), mid);
    assert forall|i: int, j: int| 0 <= i < j < nb.len() implies nb[i].height < nb[j].height by {
        assert(nb[i] == b[if i <= half { i } else { half + 1 }]);
        assert(nb[j] == b[if j <= half { j } else { half + 1 }]);
    }
}

/// Disjointness and ordering of the bisection step's result: every
/// transition has a `before`, each one points from a lower to a strictly
/// higher layer, all heights stay within the bracket, and the transitions
/// come out sorted: each one's `after` lies no higher than the next one's
/// `before`.
pub proof fn lemma_bisect_ordered(
    range: Seq<LayerView>,
    start: LayerResultView,
    end: LayerResultView,
    f: ProbeModel,
)
    requires
        heights_ascending(bracket_layers(start, range, end)),
    ensures
        ({
            let ts = bisect_spec(range, start, end, f);
            &&& forall|i: int| 0 <= i < ts.len() ==> (#[trigger] ts[i]).before is Some
            &&& forall|i: int|
                0 <= i < ts.len() ==> (#[trigger] ts[i]).before->0.layer.height
                    < ts[i].after.layer.height
            &&& forall|i: int|
                0 <= i < ts.len() ==> start.layer.height <= (#[trigger] ts[i]).before->0.layer.height
            &&& forall|i: int|
                0 <= i < ts.len() ==> (#[trigger] ts[i]).after.layer.height <= end.layer.height
            &&& forall|i: int, j: int|
                0 <= i < j < ts.len() ==> (#[trigger] ts[i]).after.layer.height <= (
                #[trigger] ts[j]).before->0.layer.height
        }),
    decreases range.len(),
{
    let b = bracket_layers(start, range, end);
    let n = range.len() as int;
    let ts = bisect_spec(range, start, end, f);
    assert(b[0] == start.layer);
    assert(b[n + 1] == end.layer);
    if n == 0 {
        assert(b[0].height < b[1].height);
    } else {
        let half = n / 2;
        let mid = probed(range[half], f);
        assert(b[half + 1] == range[half]);
        assert(b[0].height < b[half + 1].height);
        assert(b[half + 1].height < b[n + 1].height);
        if n == 1 {
            if start.result != mid.result && mid.result != end.result {
                assert(ts =~= seq![step_transition(start, mid), step_transition(mid, end)]);
            } else if start.result != mid.result {
                assert(ts =~= seq![step_transition(start, mid)]);
            } else if mid.result != end.result {
                assert(ts =~= seq![step_transition(mid, end)]);
            } else {
                assert(ts =~= Seq::<TransitionView>::empty());
            }
        } else if start.result == mid.result {
            lemma_bracket_right(start, range, end, mid, half);
            lemma_bisect_ordered(range.skip(half + 1), mid, end, f);
        } else if mid.result == end.result {
            lemma_bracket_left(start, range, end, mid, half);
            lemma_bisect_ordered(range.take(half), start, mid, f);
        } else {
            lemma_bracket_left(start, range, end, mid, half);
            lemma_bracket_right(start, range, end, mid, half);
            lemma_bisect_ordered(range.take(half), start, mid, f);
            lemma_bisect_ordered(range.skip(half + 1), mid, end, f);
            let tsl = bisect_spec(range.take(half), start, mid, f);
            let tsr = bisect_spec(range.skip(half + 1), mid, end, f);
            assert(ts == tsl + tsr);
            assert forall|i: int| 0 <= i < ts.len() implies {
                &&& (#[trigger] ts[i]).before is Some
                &&& ts[i].before->0.layer.height < ts[i].after.layer.height
                &&& start.layer.height <= ts[i].before->0.layer.height
                &&& ts[i].after.layer.height <= end.layer.height
            } by {
                if i < tsl.len() {
                    assert(ts[i] == tsl[i]);
                } else {
                    assert(ts[i] == tsr[i - tsl.len()]);
                }
            }
            assert forall|i: int, j: int| 0 <= i < j < ts.len() implies (
            #[trigger] ts[i]).after.layer.height <= (#[trigger] ts[j]).before->0.layer.height by {
                if j < tsl.len() {
                    assert(ts[i] == tsl[i]);
                    assert(ts[j] == tsl[j]);
                } else if i >= tsl.len() {
                    assert(ts[i] == tsr[i - tsl.len()]);
                    assert(ts[j] == tsr[j - tsl.len()]);
                } else {
                    assert(ts[i] == tsl[i]);
                    assert(ts[j] == tsr[j - tsl.len()]);
                    assert(tsl[i].after.layer.height <= mid.layer.height);
                    assert(mid.layer.height <= tsr[j - tsl.len()].before->0.layer.height);
                }
            }
        }
    }
}

/// Law: when every layer produces the same output, the engine reports
/// exactly one transition, with no `before` and the last layer as its
/// `after`.
pub proof fn lemma_uniform_output(ls: Seq<LayerView>, f: ProbeModel)
    requires
        ls.len() >= 2,
        forall|i: int| 0 <= i < ls.len() ==> #[trigger] f(ls[i].image_name) == f(ls[0].image_name),
    ensures
        engine_spec(ls, f) == seq![
            TransitionView { before: None, after: probed(ls[ls.len() as int - 1], f) },
        ],
{
    assert(f(ls[ls.len() as int - 1].image_name) == f(ls[0].image_name));
    assert(engine_spec(ls, f) =~= seq![
        TransitionView { before: None, after: probed(ls[ls.len() as int - 1], f) },
    ]);
}

/// Law: exhaustiveness. When the outputs over the layer sequence form a
/// true step function (equal outputs never recur after an intervening
/// change) and the two extreme outputs differ, the engine returns exactly
/// the boundary transitions of the whole sequence, in order: a step
/// function with `k` maximal runs yields exactly `k - 1` transitions, each
/// bracketing one run boundary with a pair of adjacent layers.
pub proof fn lemma_engine_exhaustive(ls: Seq<LayerView>, f: ProbeModel)
    requires
        ls.len() >= 2,
        no_revisit(probed_all(ls, f)),
        f(ls[0].image_name) != f(ls[ls.len() as int - 1].image_name),
    ensures
        engine_spec(ls, f) == boundary_transitions(probed_all(ls, f)),
        engine_spec(ls, f).len() + 1 == num_runs(probed_all(ls, f)),
{
    let n = ls.len() as int;
    let rs = probed_all(ls, f);
    let first = probed(ls[0], f);
    let last = probed(ls[n - 1], f);
    let interior = ls.subrange(1, n - 1);
    assert(bracket_results(first, interior, last, f) =~= rs) by {
        let brs = bracket_results(first, interior, last, f);
        assert forall|i: int| 0 <= i < brs.len() implies brs[i] == rs[i] by {
            if 1 <= i < brs.len() - 1 {
                assert(brs[i] == probed(interior[i - 1], f));
                assert(interior[i - 1] == ls[i]);
            }
        }
    }
    lemma_bisect_exhaustive(interior, first, last, f);
    lemma_boundary_count(rs);
}

/// Law: probing outcome is idempotent. The engine's result is a function
/// of the layer sequence and the probe model alone, so re-running it
/// against the same deterministic probe yields the same transitions, in
/// the same order, regardless of probe latency or scheduling.
pub proof fn lemma_engine_deterministic(
    ls: Seq<LayerView>,
    f: ProbeModel,
    ts1: Seq<TransitionView>,
    ts2: Seq<TransitionView>,
)
    requires
        ts1 == engine_spec(ls, f),
        ts2 == engine_spec(ls, f),
    ensures
        ts1 == ts2,
{
}

/// Law: disjointness at the engine level. In the order the engine returns
/// them (an order that sorting by `after` height preserves), transitions
/// have strictly increasing `after` heights, every `before` lies strictly
/// below its `after`, and each transition's bracket ends no later than the
/// next one's begins.
pub proof fn lemma_engine_ordered(ls: Seq<LayerView>, f: ProbeModel)
    requires
        ls.len() >= 2,
        heights_ascending(ls),
    ensures
        ({
            let ts = engine_spec(ls, f);
            &&& forall|i: int, j: int|
                0 <= i < j < ts.len() ==> (#[trigger] ts[i]).after.layer.height < (
                #[trigger] ts[j]).after.layer.height
            &&& forall|i: int, j: int|
                0 <= i < j < ts.len() ==> (#[trigger] ts[i]).after.layer.height <= (
                #[trigger] ts[j]).before->0.layer.height
            &&& forall|i: int|
                0 <= i < ts.len() && (#[trigger] ts[i]).before is Some
                    ==> ts[i].before->0.layer.height < ts[i].after.layer.height
        }),
{
    let n = ls.len() as int;
    let first = probed(ls[0], f);
    let last = probed(ls[n - 1], f);
    if first.result != last.result {
        let interior = ls.subrange(1, n - 1);
        assert(bracket_layers(first, interior, last) =~= ls);
        lemma_bisect_ordered(interior, first, last, f);
    }
}

} // verus!
