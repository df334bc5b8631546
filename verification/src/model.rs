//! Mathematical model of the bisection engine.
//!
//! The executable types of the crate are mirrored here by ghost structs
//! over `nat` and `Seq<char>`, and a deterministic probe is modelled as a
//! spec-level function from an image name to the output it produces. The
//! contracts of the executable engine, and the laws proved about it, are
//! all stated over these models.

use vstd::prelude::*;

verus! {

/// Mathematical image of a [`crate::Layer`].
pub ghost struct LayerView {
    pub height: nat,
    pub image_name: Seq<char>,
    pub creation_command: Seq<char>,
}

/// Mathematical image of a [`crate::LayerResult`]: a layer together with
/// the output that probing it produced.
pub ghost struct LayerResultView {
    pub layer: LayerView,
    pub result: Seq<char>,
}

/// Mathematical image of a [`crate::Transition`]. `before` is `None` only
/// for the single no-op transition reported when the outputs at the two
/// ends of the probed range already agree.
pub ghost struct TransitionView {
    pub before: Option<LayerResultView>,
    pub after: LayerResultView,
}

/// A deterministic probe: every image name is mapped to the one output
/// that running the fixed command against that layer produces.
pub type ProbeModel = spec_fn(Seq<char>) -> Seq<char>;

/// The result of probing one layer under the probe model `f`.
pub open spec fn probed(l: LayerView, f: ProbeModel) -> LayerResultView {
    LayerResultView { layer: l, result: f(l.image_name) }
}

/// The results of probing every layer of a sequence under `f`.
pub open spec fn probed_all(ls: Seq<LayerView>, f: ProbeModel) -> Seq<LayerResultView> {
    ls.map_values(|l: LayerView| probed(l, f))
}

/// Layer heights grow strictly along the sequence.
pub open spec fn heights_ascending(ls: Seq<LayerView>) -> bool {
    forall|i: int, j: int|
        #![trigger ls[i].height, ls[j].height]
        0 <= i < j < ls.len() ==> ls[i].height < ls[j].height
}

/// The probed outputs form a true step function: whenever two probe
/// results agree, every result between them agrees as well. Outputs that
/// "flicker" inside a range whose two ends agree (such as A, B, A) break
/// this; the engine then prunes the range and silently misses the hidden
/// boundaries, which is its documented behaviour.
pub open spec fn no_revisit(rs: Seq<LayerResultView>) -> bool {
    forall|i: int, j: int, k: int|
        #![trigger rs[i].result, rs[j].result, rs[k].result]
        0 <= i <= j <= k < rs.len() && rs[i].result == rs[k].result ==> rs[j].result
            == rs[i].result
}

/// An interior range together with the two already-probed layers that
/// bracket it, as one layer sequence.
pub open spec fn bracket_layers(
    start: LayerResultView,
    range: Seq<LayerView>,
    end: LayerResultView,
) -> Seq<LayerView> {
    seq![start.layer] + range + seq![end.layer]
}

/// The probe results over a bracketed range: the two bracketing results as
/// given, the interior as the probe model maps it.
pub open spec fn bracket_results(
    start: LayerResultView,
    range: Seq<LayerView>,
    end: LayerResultView,
    f: ProbeModel,
) -> Seq<LayerResultView> {
    seq![start] + probed_all(range, f) + seq![end]
}

/// The transition reported for one boundary between differing outputs.
pub open spec fn step_transition(before: LayerResultView, after: LayerResultView) -> TransitionView {
    TransitionView { before: Some(before), after }
}

/// All transitions between adjacent probe results with differing outputs,
/// in sequence order: one per boundary of a maximal constant-output run.
pub open spec fn boundary_transitions(rs: Seq<LayerResultView>) -> Seq<TransitionView>
    decreases rs.len(),
{
    let n = rs.len() as int;
    if n < 2 {
        Seq::empty()
    } else {
        boundary_transitions(rs.drop_last()) + if rs[n - 2].result != rs[n - 1].result {
            seq![step_transition(rs[n - 2], rs[n - 1])]
        } else {
            Seq::empty()
        }
    }
}

/// What the recursive bisection step returns for an interior range
/// bracketed by the two already-probed results `start` and `end`:
///
/// - an empty range means `start` and `end` are adjacent, so the boundary
///   lies between them;
/// - a single interior layer is probed and compared against both ends;
/// - otherwise the midpoint is probed, a half whose bracketing outputs
///   agree is pruned, and when the midpoint differs from both ends the two
///   halves each contribute their transitions, left before right.
pub open spec fn bisect_spec(
    range: Seq<LayerView>,
    start: LayerResultView,
    end: LayerResultView,
    f: ProbeModel,
) -> Seq<TransitionView>
    decreases range.len(),
{
    let n = range.len() as int;
    if n == 0 {
        seq![step_transition(start, end)]
    } else {
        let half = n / 2;
        let mid = probed(range[half], f);
        if n == 1 {
            (if start.result != mid.result {
                seq![step_transition(start, mid)]
            } else {
                Seq::empty()
            }) + (if mid.result != end.result {
                seq![step_transition(mid, end)]
            } else {
                Seq::empty()
            })
        } else if start.result == mid.result {
            bisect_spec(range.skip(half + 1), mid, end, f)
        } else if mid.result == end.result {
            bisect_spec(range.take(half), start, mid, f)
        } else {
            bisect_spec(range.take(half), start, mid, f) + bisect_spec(
                range.skip(half + 1),
                mid,
                end,
                f,
            )
        }
    }
}

/// What the whole engine returns for a full layer sequence: the two
/// extreme layers are probed, an equal pair short-circuits into the single
/// no-op transition, and otherwise the strict interior is bisected with
/// the two extreme results as brackets.
pub open spec fn engine_spec(ls: Seq<LayerView>, f: ProbeModel) -> Seq<TransitionView>
    recommends
        ls.len() >= 2,
{
    let n = ls.len() as int;
    let first = probed(ls[0], f);
    let last = probed(ls[n - 1], f);
    if first.result == last.result {
        seq![TransitionView { before: None, after: last }]
    } else {
        bisect_spec(ls.subrange(1, n - 1), first, last, f)
    }
}

} // verus!
