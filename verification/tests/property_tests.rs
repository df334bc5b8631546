//! Tests of the engine's stated properties on concrete values: the no-op
//! short-circuit, exhaustiveness, ordering, idempotence, probe counting,
//! the error cases, and the history filtering.

use std::cell::Cell;
use std::collections::HashMap;

use docker_bisect::{
    find_transitions, get_changes, usable_layers, BisectError, ContainerAction, HistoryEntry,
    Layer, LayerResult, Transition,
};

struct CountingAction {
    map: HashMap<String, String>,
    probes: Cell<usize>,
    skipped: Cell<u64>,
}

impl CountingAction {
    fn new(from: Vec<usize>, to: Vec<&str>) -> Self {
        let mut map = HashMap::new();
        for (f, t) in from.iter().zip(to.iter()) {
            map.insert(f.to_string(), t.to_string());
        }
        CountingAction {
            map,
            probes: Cell::new(0),
            skipped: Cell::new(0),
        }
    }
}

impl ContainerAction for CountingAction {
    fn try_container(&self, container_id: &str) -> String {
        self.probes.set(self.probes.get() + 1);
        let none = String::new();
        self.map.get(container_id).unwrap_or(&none).clone()
    }

    fn skip(&self, count: u64) {
        self.skipped.set(self.skipped.get() + count);
    }
}

fn lay(id: usize) -> Layer {
    Layer {
        height: id,
        image_name: id.to_string(),
        creation_command: id.to_string(),
    }
}

#[test]
fn two_layers_single_transition_zero_interior_probes() {
    let action = CountingAction::new(vec![1, 2], vec!["A", "B"]);
    let results = get_changes(vec![lay(1), lay(2)], &action);

    assert_eq!(
        results.unwrap(),
        vec![Transition {
            before: Some(LayerResult {
                layer: lay(1),
                result: "A".to_string()
            }),
            after: LayerResult {
                layer: lay(2),
                result: "B".to_string()
            },
        }]
    );
    assert_eq!(action.probes.get(), 2);
}

#[test]
fn uniform_output_probes_only_the_two_ends() {
    let action = CountingAction::new(vec![1, 2, 3, 4, 5], vec!["A", "A", "A", "A", "A"]);
    let results = get_changes(vec![lay(1), lay(2), lay(3), lay(4), lay(5)], &action);

    assert_eq!(
        results.unwrap(),
        vec![Transition {
            before: None,
            after: LayerResult {
                layer: lay(5),
                result: "A".to_string()
            },
        }]
    );
    assert_eq!(action.probes.get(), 2);
}

#[test]
fn exhaustiveness_four_runs_give_three_transitions() {
    let action = CountingAction::new(
        vec![1, 2, 3, 4, 5, 6, 7, 8],
        vec!["A", "A", "B", "B", "C", "C", "D", "D"],
    );
    let results = get_changes(
        vec![
            lay(1),
            lay(2),
            lay(3),
            lay(4),
            lay(5),
            lay(6),
            lay(7),
            lay(8),
        ],
        &action,
    );
    let res = results.unwrap();

    assert_eq!(res.len(), 3);
    for (t, (b, a)) in res.iter().zip(vec![(2usize, 3usize), (4, 5), (6, 7)]) {
        let before = t.before.as_ref().unwrap();
        assert_eq!(before.layer.height, b);
        assert_eq!(t.after.layer.height, a);
        assert_ne!(before.result, t.after.result);
    }
}

#[test]
fn transitions_come_out_sorted_by_after_height() {
    let outputs = vec!["A", "B", "B", "C", "C", "C", "D", "D", "E", "F"];
    let action = CountingAction::new((1..=10).collect(), outputs);
    let layers: Vec<Layer> = (1..=10).map(lay).collect();
    let res = get_changes(layers, &action).unwrap();

    assert_eq!(res.len(), 5);
    for w in res.windows(2) {
        assert!(w[0].after.layer.height < w[1].after.layer.height);
        assert!(w[0].after.layer.height <= w[1].before.as_ref().unwrap().layer.height);
    }
    for t in &res {
        let before = t.before.as_ref().unwrap();
        assert_eq!(before.layer.height + 1, t.after.layer.height);
    }
}

#[test]
fn rerunning_the_engine_gives_the_same_transitions() {
    let outputs = vec!["A", "B", "B", "C", "C", "C", "C", "C", "D", "D"];
    let layers: Vec<Layer> = (1..=10).map(lay).collect();

    let first = get_changes(
        layers.clone(),
        &CountingAction::new((1..=10).collect(), outputs.clone()),
    )
    .unwrap();
    let second = get_changes(
        layers,
        &CountingAction::new((1..=10).collect(), outputs),
    )
    .unwrap();

    assert_eq!(first, second);
}

#[test]
fn skip_counts_cover_the_pruned_layers() {
    let action = CountingAction::new(
        vec![1, 2, 3, 4, 5, 6, 7, 8, 9, 10],
        vec!["A", "A", "A", "A", "A", "A", "A", "A", "A", "B"],
    );
    let results = get_changes((1..=10).map(lay).collect(), &action);

    assert_eq!(
        results.unwrap(),
        vec![Transition {
            before: Some(LayerResult {
                layer: lay(9),
                result: "A".to_string()
            }),
            after: LayerResult {
                layer: lay(10),
                result: "B".to_string()
            },
        }]
    );
    assert!(action.skipped.get() > 0);
}

#[test]
fn flicker_inside_matching_ends_is_silently_missed() {
    // The pruning assumes a true step function: when the two ends of a
    // range agree, a change hidden strictly inside it is not detected.
    let action = CountingAction::new(vec![1, 2, 3], vec!["A", "B", "A"]);
    let results = get_changes(vec![lay(1), lay(2), lay(3)], &action);

    assert_eq!(
        results.unwrap(),
        vec![Transition {
            before: None,
            after: LayerResult {
                layer: lay(3),
                result: "A".to_string()
            },
        }]
    );
    assert_eq!(action.probes.get(), 2);
}

#[test]
fn fewer_than_two_layers_is_insufficient() {
    let action = CountingAction::new(vec![], vec![]);
    assert_eq!(
        find_transitions(vec![], &action),
        Err(BisectError::InsufficientLayers)
    );
    assert_eq!(
        find_transitions(vec![lay(1)], &action),
        Err(BisectError::InsufficientLayers)
    );
    assert_eq!(action.probes.get(), 0);
}

#[test]
fn find_transitions_matches_get_changes_on_two_layers() {
    let action = CountingAction::new(vec![1, 2], vec!["A", "B"]);
    let res = find_transitions(vec![lay(1), lay(2)], &action).unwrap();
    assert_eq!(
        res,
        vec![Transition {
            before: Some(LayerResult {
                layer: lay(1),
                result: "A".to_string()
            }),
            after: LayerResult {
                layer: lay(2),
                result: "B".to_string()
            },
        }]
    );
}

fn entry(id: Option<&str>, created_by: &str) -> HistoryEntry {
    HistoryEntry {
        id: id.map(|s| s.to_string()),
        created_by: created_by.to_string(),
    }
}

#[test]
fn usable_layers_filters_and_numbers_oldest_first() {
    // Newest first, as a runtime reports a history.
    let entries = vec![
        entry(Some("top"), "cmd top"),
        entry(None, "cmd missing"),
        entry(Some("mid"), "cmd mid"),
        entry(Some("base"), "cmd base"),
    ];
    let layers = usable_layers(&entries);

    assert_eq!(
        layers,
        vec![
            Layer {
                height: 0,
                image_name: "base".to_string(),
                creation_command: "cmd base".to_string(),
            },
            Layer {
                height: 1,
                image_name: "mid".to_string(),
                creation_command: "cmd mid".to_string(),
            },
            Layer {
                height: 3,
                image_name: "top".to_string(),
                creation_command: "cmd top".to_string(),
            },
        ]
    );
}

#[test]
fn usable_layers_of_unidentified_history_is_empty() {
    let entries = vec![entry(None, "a"), entry(None, "b")];
    assert_eq!(usable_layers(&entries), vec![]);
}
