//! The bisection engine: entity types, the probe capability, and the
//! divide-and-conquer search for all transition points.

use vstd::prelude::*;

use crate::model::{
    bisect_spec, bracket_layers, engine_spec, heights_ascending, probed, LayerResultView,
    LayerView, ProbeModel, TransitionView,
};
use vstd::slice::{slice_index_get, slice_subrange};

verus! {

/// A layer in a container image: one versioned step of its construction
/// history. `height` is the ordinal position of the layer, `image_name`
/// the identifier handed to the probe to materialize filesystem state up
/// to and including this layer, and `creation_command` the command that
/// created it, kept for display.
#[derive(Debug, Clone, Eq, Ord, PartialOrd, PartialEq)]
pub struct Layer {
    pub height: usize,
    pub image_name: String,
    pub creation_command: String,
}

impl View for Layer {
    type V = LayerView;

    open spec fn view(&self) -> LayerView {
        LayerView {
            height: self.height as nat,
            image_name: self.image_name@,
            creation_command: self.creation_command@,
        }
    }
}

/// The output observed when the fixed command ran against a container
/// made of `layer` (on top of all earlier layers).
#[derive(Debug, Clone, Eq, Ord, PartialOrd, PartialEq)]
pub struct LayerResult {
    pub layer: Layer,
    pub result: String,
}

impl View for LayerResult {
    type V = LayerResultView;

    open spec fn view(&self) -> LayerResultView {
        LayerResultView { layer: self.layer@, result: self.result@ }
    }
}

/// A detected boundary: the output at `before.layer` differs from the
/// output at `after.layer`, and the two layers are adjacent in the probed
/// sequence. `before` is `None` only for the single no-op transition
/// reported when the whole probed range shares one output; `after` is then
/// simply the last layer.
#[derive(Debug, Eq, Ord, PartialOrd, PartialEq)]
pub struct Transition {
    pub before: Option<LayerResult>,
    pub after: LayerResult,
}

impl View for Transition {
    type V = TransitionView;

    open spec fn view(&self) -> TransitionView {
        TransitionView {
            before: match self.before {
                Some(b) => Some(b@),
                None => None,
            },
            after: self.after@,
        }
    }
}

/// Why a bisection run failed.
#[derive(Debug, Clone, Eq, PartialEq)]
pub enum BisectError {
    /// Fewer than two usable layers were supplied; nothing was probed.
    InsufficientLayers,
    /// Two adjacent probe results were found equal although an enclosing
    /// step had already established that they differ: the probe is not the
    /// deterministic function the engine relies on.
    InconsistentProbe,
}

/// The views of a sequence of layers.
pub open spec fn lviews(ls: Seq<Layer>) -> Seq<LayerView> {
    ls.map_values(|l: Layer| l@)
}

/// The views of a sequence of transitions.
pub open spec fn tviews(ts: Seq<Transition>) -> Seq<TransitionView> {
    ts.map_values(|t: Transition| t@)
}

/// The probe capability, seen as the deterministic function it must
/// implement to make bisection meaningful.
///
/// An implementation runs the fixed command against the layer named by
/// `container_id` and returns its combined output; `probe_spec` is the
/// implementation's own statement of which output belongs to which image
/// name. A probe failure must be resolved into a comparable output string
/// (the engine treats "the container failed to start" and "the command
/// printed X" identically), and re-probing the same identifier must
/// reproduce the same string.
pub trait ContainerAction: Sized {
    /// The output that this probe produces for each image name. A verified
    /// implementation overrides this with its own probe table; an
    /// implementation that leaves the default claims to produce empty
    /// output for every probe.
    open spec fn probe_spec(&self, container_id: Seq<char>) -> Seq<char> {
        Seq::empty()
    }

    /// Runs the fixed command against the layer named `container_id` and
    /// returns the observed output.
    fn try_container(&self, container_id: &str) -> (r: String)
        ensures
            r@ == self.probe_spec(container_id@),
    ;

    /// Advisory notification that `count` layers were pruned without being
    /// probed; used only for progress reporting.
    fn skip(&self, count: u64);
}

/// An exact copy of a layer.
fn clone_layer(l: &Layer) -> (r: Layer)
    ensures
        r == *l,
{
    Layer {
        height: l.height,
        image_name: l.image_name.clone(),
        creation_command: l.creation_command.clone(),
    }
}

/// An exact copy of a probe result.
fn clone_layer_result(lr: &LayerResult) -> (r: LayerResult)
    ensures
        r == *lr,
{
    LayerResult { layer: clone_layer(&lr.layer), result: lr.result.clone() }
}

/// The probe model that an implementation of the capability realizes.
pub open spec fn probe_model<T: ContainerAction>(action: &T) -> ProbeModel {
    |id: Seq<char>| action.probe_spec(id)
}

/// The recursive bisection step over the interior range `history`,
/// bracketed by the already-probed results `start` and `end`, whose
/// outputs an enclosing step has established to differ. Returns every
/// transition the engine detects inside the bracket, left before right,
/// exactly as [`bisect_spec`] describes.
pub fn bisect<T: ContainerAction>(
    history: &[Layer],
    start: LayerResult,
    end: LayerResult,
    action: &T,
) -> (r: Result<Vec<Transition>, BisectError>)
    requires
        start@.result == action.probe_spec(start@.layer.image_name),
        end@.result == action.probe_spec(end@.layer.image_name),
        start@.result != end@.result,
        heights_ascending(bracket_layers(start@, lviews(history@), end@)),
    ensures
        r matches Ok(ts) && tviews(ts@) == bisect_spec(
            lviews(history@),
            start@,
            end@,
            probe_model(action),
        ),
    decreases history@.len(),
{
    let ghost f = probe_model(action);
    let ghost range = lviews(history@);
    let ghost bracket = bracket_layers(start@, range, end@);
    let size = history.len();
    if size == 0 {
        if start.result == end.result {
            return Err(BisectError::InconsistentProbe);
        }
        let mut results: Vec<Transition> = Vec::new();
        results.push(Transition { before: Some(start), after: end });
        proof {
            assert(tviews(results@) =~= bisect_spec(range, start@, end@, f));
        }
        return Ok(results);
    }

    let half = size / 2;
    let mid_layer = clone_layer(slice_index_get(history, half));
    let mid_output = action.try_container(mid_layer.image_name.as_str());
    let mid_result = LayerResult { layer: mid_layer, result: mid_output };
    proof {
        assert(mid_result@ == probed(range[half as int], f));
        assert(bracket[0] == start@.layer);
        assert(bracket[half as int + 1] == range[half as int]);
        assert(bracket[size as int + 1] == end@.layer);
        assert(bracket[0].height < bracket[half as int + 1].height);
        assert(bracket[half as int + 1].height < bracket[size as int + 1].height);
    }

    if size == 1 {
        let mut results: Vec<Transition> = Vec::new();
        if !(start.result == mid_result.result) {
            results.push(
                Transition {
                    before: Some(clone_layer_result(&start)),
                    after: clone_layer_result(&mid_result),
                },
            );
        }
        if !(mid_result.result == end.result) {
            results.push(Transition { before: Some(mid_result), after: end });
        }
        proof {
            assert(tviews(results@) =~= bisect_spec(range, start@, end@, f));
        }
        return Ok(results);
    }

    if start.result == mid_result.result {
        action.skip((mid_result.layer.height - start.layer.height) as u64);
        let rest = slice_subrange(history, half + 1, size);
        proof {
            assert(lviews(rest@) =~= range.skip(half as int + 1));
            let nb = bracket_layers(mid_result@, lviews(rest@), end@);
            assert forall|i: int, j: int| 0 <= i < j < nb.len() implies nb[i].height
                < nb[j].height by {
                assert(nb[i] == bracket[i + half + 1]);
                assert(nb[j] == bracket[j + half + 1]);
                assert(bracket[i + half + 1].height < bracket[j + half + 1].height);
            }
            assert(heights_ascending(nb));
        }
        return bisect(rest, mid_result, end, action);
    }

    if mid_result.result == end.result {
        action.skip((end.layer.height - mid_result.layer.height) as u64);
        let rest = slice_subrange(history, 0, half);
        proof {
            assert(lviews(rest@) =~= range.take(half as int));
            let nb = bracket_layers(start@, lviews(rest@), mid_result@);
            assert forall|i: int, j: int| 0 <= i < j < nb.len() implies nb[i].height
                < nb[j].height by {
                assert(nb[i] == bracket[if i <= half { i } else { half + 1 }]);
                assert(nb[j] == bracket[if j <= half { j } else { half + 1 }]);
            }
            assert(heights_ascending(nb));
        }
        return bisect(rest, start, mid_result, action);
    }

    let mid_c = clone_layer_result(&mid_result);
    let left_slice = slice_subrange(history, 0, half);
    let right_slice = slice_subrange(history, half + 1, size);
    proof {
        assert(lviews(left_slice@) =~= range.take(half as int));
        assert(lviews(right_slice@) =~= range.skip(half as int + 1));
        let lb = bracket_layers(start@, lviews(left_slice@), mid_result@);
        assert forall|i: int, j: int| 0 <= i < j < lb.len() implies lb[i].height
            < lb[j].height by {
            assert(lb[i] == bracket[if i <= half { i } else { half + 1 }]);
            assert(lb[j] == bracket[if j <= half { j } else { half + 1 }]);
        }
        assert(heights_ascending(lb));
        let rb = bracket_layers(mid_result@, lviews(right_slice@), end@);
        assert forall|i: int, j: int| 0 <= i < j < rb.len() implies rb[i].height
            < rb[j].height by {
            assert(rb[i] == bracket[i + half + 1]);
            assert(rb[j] == bracket[j + half + 1]);
        }
        assert(heights_ascending(rb));
    }
    let left = bisect(left_slice, start, mid_result, action);
    let mut left_results = match left {
        Ok(v) => v,
        Err(e) => {
            return Err(e);
        },
    };
    let right = bisect(right_slice, mid_c, end, action);
    let mut right_results = match right {
        Ok(v) => v,
        Err(e) => {
            return Err(e);
        },
    };
    left_results.append(&mut right_results);
    proof {
        assert(tviews(left_results@) =~= bisect_spec(range, start@, end@, f));
    }
    Ok(left_results)
}

/// The engine's entry point: probes the first and the last layer, returns
/// the single no-op transition when their outputs agree, and otherwise
/// bisects the strict interior with the two extreme results as brackets.
/// The result is exactly [`engine_spec`] of the layer sequence and the
/// probe model; under a deterministic probe it is always `Ok`.
pub fn get_changes<T: ContainerAction>(layers: Vec<Layer>, action: &T) -> (r: Result<
    Vec<Transition>,
    BisectError,
>)
    requires
        layers@.len() >= 2,
        heights_ascending(lviews(layers@)),
    ensures
        r matches Ok(ts) && tviews(ts@) == engine_spec(lviews(layers@), probe_model(action)),
{
    let ghost f = probe_model(action);
    let ghost ls = lviews(layers@);
    let n = layers.len();
    let first_layer = clone_layer(&layers[0]);
    let last_layer = clone_layer(&layers[n - 1]);
    let start_out = action.try_container(first_layer.image_name.as_str());
    let end_out = action.try_container(last_layer.image_name.as_str());

    if start_out == end_out {
        let mut results: Vec<Transition> = Vec::new();
        results.push(
            Transition { before: None, after: LayerResult { layer: last_layer, result: start_out } },
        );
        proof {
            assert(tviews(results@) =~= engine_spec(ls, f));
        }
        return Ok(results);
    }

    let interior = slice_subrange(layers.as_slice(), 1, n - 1);
    let start = LayerResult { layer: first_layer, result: start_out };
    let end = LayerResult { layer: last_layer, result: end_out };
    proof {
        assert(lviews(interior@) =~= ls.subrange(1, n as int - 1));
        assert(bracket_layers(start@, lviews(interior@), end@) =~= ls);
        assert(start@ == probed(ls[0], f));
        assert(end@ == probed(ls[n as int - 1], f));
    }
    bisect(interior, start, end, action)
}

/// The orchestrator's policy over a full, already filtered layer history:
/// fewer than two usable layers fail with
/// [`BisectError::InsufficientLayers`] before anything is probed, and
/// otherwise the engine runs and its result is returned unchanged.
pub fn find_transitions<T: ContainerAction>(layers: Vec<Layer>, action: &T) -> (r: Result<
    Vec<Transition>,
    BisectError,
>)
    requires
        heights_ascending(lviews(layers@)),
    ensures
        layers@.len() < 2 ==> (r matches Err(e) && e == BisectError::InsufficientLayers),
        layers@.len() >= 2 ==> (r matches Ok(ts) && tviews(ts@) == engine_spec(
            lviews(layers@),
            probe_model(action),
        )),
{
    if layers.len() < 2 {
        return Err(BisectError::InsufficientLayers);
    }
    get_changes(layers, action)
}

} // verus!
