//! Scenario tests for the bisection engine, driven by a canned probe.

use std::collections::HashMap;

use docker_bisect::{get_changes, ContainerAction, Layer, LayerResult, Transition};

#[derive(Clone)]
struct MapAction {
    map: HashMap<String, String>,
}

impl MapAction {
    fn new(from: Vec<usize>, to: Vec<&str>) -> Self {
        let mut object = MapAction { map: HashMap::new() };
        for (f, t) in from.iter().zip(to.iter()) {
            object.map.insert(f.to_string(), t.to_string());
        }
        object
    }
}

impl ContainerAction for MapAction {
    fn try_container(&self, container_id: &str) -> String {
        let none = String::new();
        let result: &String = self.map.get(container_id).unwrap_or(&none);
        result.clone()
    }

    fn skip(&self, _count: u64) {}
}

fn lay(id: usize) -> Layer {
    Layer {
        height: id,
        image_name: id.to_string(),
        creation_command: id.to_string(),
    }
}

#[test]
fn lib_if_output_always_same_return_earliest_command() {
    let results = get_changes(
        vec![lay(1), lay(2), lay(3)],
        &MapAction::new(vec![1, 2, 3], vec!["A", "A", "A"]),
    );

    assert_eq!(
        results.unwrap(),
        vec![Transition {
            before: None,
            after: LayerResult {
                layer: lay(3),
                result: "A".to_string()
            },
        }]
    );
}

#[test]
fn lib_if_one_difference_show_command_that_made_difference() {
    let results = get_changes(
        vec![lay(1), lay(2), lay(3)],
        &MapAction::new(vec![1, 2, 3], vec!["A", "A", "B"]),
    );

    assert_eq!(
        results.unwrap(),
        vec![Transition {
            before: Some(LayerResult {
                layer: lay(2),
                result: "A".to_string()
            }),
            after: LayerResult {
                layer: lay(3),
                result: "B".to_string()
            },
        }]
    );
}

#[test]
fn lib_if_two_differences_show_two_commands_that_made_difference() {
    let results = get_changes(
        vec![lay(1), lay(2), lay(3), lay(4)],
        &MapAction::new(vec![1, 2, 3, 4], vec!["A", "B", "B", "C"]),
    );

    let res = results.unwrap();

    assert_eq!(
        res,
        vec![
            Transition {
                before: Some(LayerResult {
                    layer: lay(1),
                    result: "A".to_string()
                }),
                after: LayerResult {
                    layer: lay(2),
                    result: "B".to_string()
                },
            },
            Transition {
                before: Some(LayerResult {
                    layer: lay(3),
                    result: "B".to_string()
                }),
                after: LayerResult {
                    layer: lay(4),
                    result: "C".to_string()
                },
            }
        ]
    );
}

#[test]
fn lib_three_transitions() {
    let results = get_changes(
        vec![
            lay(1),
            lay(2),
            lay(3),
            lay(4),
            lay(5),
            lay(6),
            lay(7),
            lay(8),
            lay(9),
            lay(10),
        ],
        &MapAction::new(
            vec![1, 2, 3, 4, 5, 6, 7, 8, 9, 10],
            vec!["A", "B", "B", "C", "C", "C", "C", "C", "D", "D"],
        ),
    );
    let res = results.unwrap();

    assert_eq!(
        res,
        vec![
            Transition {
                before: Some(LayerResult {
                    layer: lay(1),
                    result: "A".to_string()
                }),
                after: LayerResult {
                    layer: lay(2),
                    result: "B".to_string()
                },
            },
            Transition {
                before: Some(LayerResult {
                    layer: lay(3),
                    result: "B".to_string()
                }),
                after: LayerResult {
                    layer: lay(4),
                    result: "C".to_string()
                },
            },
            Transition {
                before: Some(LayerResult {
                    layer: lay(8),
                    result: "C".to_string()
                }),
                after: LayerResult {
                    layer: lay(9),
                    result: "D".to_string()
                },
            }
        ]
    );
}

#[test]
fn main_if_output_always_same_return_earliest_command() {
    let results = get_changes(
        vec![lay(1), lay(2), lay(3)],
        &MapAction::new(vec![1, 2, 3], vec!["A", "A", "A"]),
    );

    assert_eq!(
        results.unwrap(),
        vec![Transition {
            before: None,
            after: LayerResult {
                layer: lay(3),
                result: "A".to_string()
            },
        }]
    );
}

#[test]
fn main_if_one_difference_show_command_that_made_difference() {
    let results = get_changes(
        vec![lay(1), lay(2), lay(3)],
        &MapAction::new(vec![1, 2, 3], vec!["A", "A", "B"]),
    );

    assert_eq!(
        results.unwrap(),
        vec![Transition {
            before: Some(LayerResult {
                layer: lay(2),
                result: "A".to_string()
            }),
            after: LayerResult {
                layer: lay(3),
                result: "B".to_string()
            },
        }]
    );
}

#[test]
fn main_if_two_differences_show_two_commands_that_made_difference() {
    let results = get_changes(
        vec![lay(1), lay(2), lay(3), lay(4)],
        &MapAction::new(vec![1, 2, 3, 4], vec!["A", "B", "B", "C"]),
    );

    let res = results.unwrap();

    assert_eq!(
        res,
        vec![
            Transition {
                before: Some(LayerResult {
                    layer: lay(1),
                    result: "A".to_string()
                }),
                after: LayerResult {
                    layer: lay(2),
                    result: "B".to_string()
                },
            },
            Transition {
                before: Some(LayerResult {
                    layer: lay(3),
                    result: "B".to_string()
                }),
                after: LayerResult {
                    layer: lay(4),
                    result: "C".to_string()
                },
            }
        ]
    );
}

#[test]
fn main_three_transitions() {
    let results = get_changes(
        vec![
            lay(1),
            lay(2),
            lay(3),
            lay(4),
            lay(5),
            lay(6),
            lay(7),
            lay(8),
            lay(9),
            lay(10),
        ],
        &MapAction::new(
            vec![1, 2, 3, 4, 5, 6, 7, 8, 9, 10],
            vec!["A", "B", "B", "C", "C", "C", "C", "C", "D", "D"],
        ),
    );
    let res = results.unwrap();

    assert_eq!(
        res,
        vec![
            Transition {
                before: Some(LayerResult {
                    layer: lay(1),
                    result: "A".to_string()
                }),
                after: LayerResult {
                    layer: lay(2),
                    result: "B".to_string()
                },
            },
            Transition {
                before: Some(LayerResult {
                    layer: lay(3),
                    result: "B".to_string()
                }),
                after: LayerResult {
                    layer: lay(4),
                    result: "C".to_string()
                },
            },
            Transition {
                before: Some(LayerResult {
                    layer: lay(8),
                    result: "C".to_string()
                }),
                after: LayerResult {
                    layer: lay(9),
                    result: "D".to_string()
                },
            }
        ]
    );
}
