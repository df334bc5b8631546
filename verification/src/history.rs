//! The orchestrator's view of an image history: which entries of the
//! reported construction history are usable layers, and the run options.

use vstd::prelude::*;

use crate::engine::{lviews, Layer};
use crate::model::{heights_ascending, LayerView};

verus! {

/// One entry of an image's construction history, as the container runtime
/// reports it (newest entry first): the content identifier, when the layer
/// has one that can still be materialized from the cache, and the command
/// that created the layer.
#[derive(Debug, Clone, Eq, PartialEq)]
pub struct HistoryEntry {
    pub id: Option<String>,
    pub created_by: String,
}

/// Mathematical image of a [`HistoryEntry`].
pub ghost struct HistoryEntryView {
    pub id: Option<Seq<char>>,
    pub created_by: Seq<char>,
}

impl View for HistoryEntry {
    type V = HistoryEntryView;

    open spec fn view(&self) -> HistoryEntryView {
        HistoryEntryView {
            id: match self.id {
                Some(s) => Some(s@),
                None => None,
            },
            created_by: self.created_by@,
        }
    }
}

/// The views of a sequence of history entries.
pub open spec fn eviews(es: Seq<HistoryEntry>) -> Seq<HistoryEntryView> {
    es.map_values(|e: HistoryEntry| e@)
}

/// Parameters of one bisection run: how long each probed container may
/// run, and the width to which displayed layer commands are cut.
pub struct BisectOptions {
    pub timeout_in_seconds: usize,
    pub trunc_size: usize,
}

/// The usable layers of a history already turned oldest-first: every entry
/// that has an identifier becomes one layer whose height is the entry's
/// position in the oldest-first order; entries without an identifier are
/// skipped.
pub open spec fn collect_layers(es: Seq<HistoryEntryView>) -> Seq<LayerView>
    decreases es.len(),
{
    let n = es.len() as int;
    if n == 0 {
        Seq::empty()
    } else {
        collect_layers(es.drop_last()) + match es[n - 1].id {
            Some(name) => seq![
                LayerView {
                    height: (n - 1) as nat,
                    image_name: name,
                    creation_command: es[n - 1].created_by,
                },
            ],
            None => Seq::empty(),
        }
    }
}

/// The heights of the collected layers ascend strictly and stay below the
/// number of history entries.
pub proof fn lemma_collect_layers_ascending(es: Seq<HistoryEntryView>)
    ensures
        heights_ascending(collect_layers(es)),
        forall|k: int|
            0 <= k < collect_layers(es).len() ==> (#[trigger] collect_layers(es)[k]).height
                < es.len(),
    decreases es.len(),
{
    let cs = collect_layers(es);
    let n = es.len() as int;
    if n > 0 {
        lemma_collect_layers_ascending(es.drop_last());
        let prev = collect_layers(es.drop_last());
        assert forall|k: int| 0 <= k < cs.len() implies (#[trigger] cs[k]).height < es.len() by {
            if k < prev.len() {
                assert(cs[k] == prev[k]);
            }
        }
        assert forall|i: int, j: int| 0 <= i < j < cs.len() implies cs[i].height
            < cs[j].height by {
            assert(cs[i] == prev[i]);
            if j < prev.len() {
                assert(cs[j] == prev[j]);
            } else {
                assert(prev[i].height < es.drop_last().len());
            }
        }
    }
}

/// Turns a newest-first history into the oldest-first sequence of its
/// usable layers, heights counted from the oldest entry, exactly as
/// [`collect_layers`] describes; the result always satisfies the height
/// ordering that [`crate::engine::find_transitions`] requires.
pub fn usable_layers(entries: &Vec<HistoryEntry>) -> (r: Vec<Layer>)
    ensures
        lviews(r@) == collect_layers(eviews(entries@).reverse()),
        heights_ascending(lviews(r@)),
{
    let ghost revd = eviews(entries@).reverse();
    let n = entries.len();
    let mut out: Vec<Layer> = Vec::new();
    let mut i: usize = 0;
    while i < n
        invariant
            i <= n,
            n == entries@.len(),
            revd == eviews(entries@).reverse(),
            revd.len() == n,
            lviews(out@) == collect_layers(revd.take(i as int)),
        decreases n - i,
    {
        let entry = &entries[n - 1 - i];
        proof {
            assert(revd[i as int] == eviews(entries@)[n - 1 - i as int]);
            assert(revd.take(i as int + 1).drop_last() =~= revd.take(i as int));
        }
        let ghost old_out = out@;
        match &entry.id {
            Some(layer_name) => {
                out.push(
                    Layer {
                        height: i,
                        image_name: layer_name.clone(),
                        creation_command: entry.created_by.clone(),
                    },
                );
                proof {
                    assert(lviews(out@) =~= lviews(old_out) + seq![out@[out@.len() - 1]@]);
                    assert(lviews(out@) =~= collect_layers(revd.take(i as int + 1)));
                }
            },
            None => {
                proof {
                    assert(lviews(out@) =~= collect_layers(revd.take(i as int + 1)));
                }
            },
        }
        i = i + 1;
    }
    proof {
        assert(revd.take(n as int) =~= revd);
        lemma_collect_layers_ascending(revd);
    }
    out
}

} // verus!
