use declarative_pull::domain::{Datom, Domain, ProposeTrace};
use declarative_pull::error::CompileError;
use declarative_pull::plan::{Implementable, NameExpr, VariableMap};
use declarative_pull::pull::PullLevel;
use declarative_pull::relation::{AttributeBinding, CollectionRelation, Implemented, Update};
use declarative_pull::shutdown::{Resource, Scope};
use declarative_pull::timestamp::Time;
use declarative_pull::value::Value;

fn eid(e: u64) -> Value {
    Value::Eid(e)
}

fn aid(name: &str) -> Value {
    Value::Aid(name.to_string())
}

fn text(s: &str) -> Value {
    Value::String(s.to_string())
}

fn at(outer: u64, round: u64) -> Time {
    Time { outer, round }
}

fn row(tuple: Vec<Value>, time: Time, diff: isize) -> Update {
    Update { tuple, time, diff }
}

fn datom(e: u64, v: Value, time: u64, diff: isize) -> Datom {
    Datom { e: eid(e), v, time, diff }
}

fn trace(name: &str, datoms: Vec<Datom>, frontier: Vec<u64>) -> ProposeTrace {
    ProposeTrace { name: name.to_string(), datoms, frontier }
}

fn family() -> Domain {
    Domain {
        attributes: vec![
            trace(
                "name",
                vec![datom(2, text("Bela"), 0, 1), datom(3, text("Cleo"), 0, 1)],
                vec![0],
            ),
            trace("age", vec![datom(2, Value::Number(7), 0, 1)], vec![0]),
        ],
    }
}

fn children() -> Implemented {
    Implemented::Collection(CollectionRelation {
        variables: vec![0, 1],
        tuples: vec![
            row(vec![eid(1), eid(2)], at(0, 0), 1),
            row(vec![eid(1), eid(3)], at(0, 0), 1),
            row(vec![eid(1), eid(4)], at(0, 0), 1),
        ],
    })
}

fn level(
    pull_variable: u32,
    pull_attributes: &[&str],
    path_attributes: &[&str],
    cardinality_many: bool,
) -> PullLevel<NameExpr> {
    PullLevel {
        variables: vec![],
        plan: Box::new(NameExpr { variables: vec![0, 1], name: "children".to_string() }),
        pull_variable,
        pull_attributes: pull_attributes.iter().map(|a| a.to_string()).collect(),
        path_attributes: path_attributes.iter().map(|a| a.to_string()).collect(),
        cardinality_many,
    }
}

fn tuples_of(relation: Implemented) -> Vec<Update> {
    match relation {
        Implemented::Collection(relation) => relation.tuples,
        Implemented::Attribute(_) => panic!("expected a collection"),
    }
}

#[test]
fn value_row_of_a_single_valued_level_leaves_out_the_child() {
    let stage = level(1, &["name"], &["child"], false);
    let path = vec![eid(1), eid(2)];
    let r = stage.value_row(&path, &"name".to_string(), &text("Bela"));
    assert_eq!(r, vec![eid(1), aid("child"), aid("name"), text("Bela")]);
    // the labelled path has 3 cells: 3 - 1 + 2
    assert_eq!(r.len(), 4);
}

#[test]
fn value_row_of_a_many_valued_level_keeps_the_child() {
    let stage = level(1, &["name"], &["child"], true);
    let path = vec![eid(1), eid(2)];
    let r = stage.value_row(&path, &"name".to_string(), &text("Bela"));
    assert_eq!(r, vec![eid(1), aid("child"), eid(2), aid("name"), text("Bela")]);
    // the labelled path has 3 cells: 3 + 2
    assert_eq!(r.len(), 5);
}

#[test]
fn value_row_without_labels_keeps_the_path() {
    let stage = level(0, &["name"], &[], false);
    let path = vec![eid(2)];
    let r = stage.value_row(&path, &"name".to_string(), &text("Bela"));
    assert_eq!(r, vec![eid(2), aid("name"), text("Bela")]);
}

#[test]
fn presence_row_pairs_the_marker_with_the_entity() {
    let stage = level(1, &["name"], &["child"], false);
    let path = vec![eid(1), eid(4)];
    assert_eq!(
        stage.presence_row(&path),
        vec![eid(1), aid("child"), aid("db__id"), eid(4)]
    );
}

#[test]
fn single_valued_level_emits_values_and_one_presence_row_per_path() {
    let stage = level(1, &["name", "age"], &["child"], false);
    let mut scope = Scope::new();
    let (relation, handle) = stage.pull_from(children(), &mut scope, &family()).unwrap();
    assert_eq!(
        relation,
        Implemented::Collection(CollectionRelation {
            variables: vec![],
            tuples: vec![
                row(vec![eid(1), aid("child"), aid("name"), text("Bela")], at(0, 0), 1),
                row(vec![eid(1), aid("child"), aid("name"), text("Cleo")], at(0, 0), 1),
                row(vec![eid(1), aid("child"), aid("age"), Value::Number(7)], at(0, 0), 1),
                row(vec![eid(1), aid("child"), aid("db__id"), eid(2)], at(0, 0), 1),
                row(vec![eid(1), aid("child"), aid("db__id"), eid(3)], at(0, 0), 1),
                row(vec![eid(1), aid("child"), aid("db__id"), eid(4)], at(0, 0), 1),
            ],
        })
    );
    assert_eq!(scope.resources.len(), 2);
    handle.press(&mut scope);
    assert!(scope.resources.iter().all(|resource| resource.released));
}

#[test]
fn entity_without_values_still_has_exactly_one_presence_row() {
    let stage = level(1, &["name", "age"], &["child"], false);
    let mut scope = Scope::new();
    let (relation, _handle) = stage.pull_from(children(), &mut scope, &family()).unwrap();
    let tuples = tuples_of(relation);
    // entity 4 has neither a name nor an age
    let about_4: Vec<&Update> =
        tuples.iter().filter(|update| update.tuple.contains(&eid(4))).collect();
    assert_eq!(about_4.len(), 1);
    assert_eq!(about_4[0].tuple, vec![eid(1), aid("child"), aid("db__id"), eid(4)]);
}

#[test]
fn many_valued_level_emits_no_presence_rows() {
    let stage = level(1, &["name"], &["child"], true);
    let mut scope = Scope::new();
    let (relation, _handle) = stage.pull_from(children(), &mut scope, &family()).unwrap();
    let tuples = tuples_of(relation);
    assert_eq!(
        tuples,
        vec![
            row(vec![eid(1), aid("child"), eid(2), aid("name"), text("Bela")], at(0, 0), 1),
            row(vec![eid(1), aid("child"), eid(3), aid("name"), text("Cleo")], at(0, 0), 1),
        ]
    );
    assert!(tuples.iter().all(|update| update.tuple.len() == 3 + 2));
}

#[test]
fn single_valued_value_rows_are_one_cell_shorter() {
    let stage = level(1, &["name"], &["child"], false);
    let mut scope = Scope::new();
    let (relation, _handle) = stage.pull_from(children(), &mut scope, &family()).unwrap();
    let tuples = tuples_of(relation);
    let values: Vec<&Update> =
        tuples.iter().filter(|update| update.tuple[2] == aid("name")).collect();
    assert_eq!(values.len(), 2);
    assert!(values.iter().all(|update| update.tuple.len() == 3 - 1 + 2));
}

#[test]
fn level_without_labels_emits_no_presence_rows() {
    let stage = level(1, &["age"], &[], false);
    let mut scope = Scope::new();
    let (relation, _handle) = stage.pull_from(children(), &mut scope, &family()).unwrap();
    assert_eq!(
        tuples_of(relation),
        vec![row(vec![eid(1), eid(2), aid("age"), Value::Number(7)], at(0, 0), 1)]
    );
}

#[test]
fn level_with_nothing_to_pull_and_no_labels_hands_the_input_on() {
    let stage = level(1, &[], &[], false);
    let mut scope = Scope::new();
    let (relation, handle) = stage.pull_from(children(), &mut scope, &family()).unwrap();
    assert_eq!(relation, children());
    assert!(scope.resources.is_empty());
    handle.press(&mut scope);
    assert!(scope.resources.is_empty());
}

#[test]
fn level_with_nothing_to_pull_labels_the_paths() {
    let mut stage = level(1, &[], &["child"], false);
    stage.variables = vec![5, 6];
    let mut scope = Scope::new();
    let (relation, _handle) = stage.pull_from(children(), &mut scope, &family()).unwrap();
    assert_eq!(
        relation,
        Implemented::Collection(CollectionRelation {
            variables: vec![5, 6],
            tuples: vec![
                row(vec![eid(1), aid("child"), eid(2)], at(0, 0), 1),
                row(vec![eid(1), aid("child"), eid(3)], at(0, 0), 1),
                row(vec![eid(1), aid("child"), eid(4)], at(0, 0), 1),
            ],
        })
    );
}

#[test]
fn joined_row_is_there_as_often_as_path_and_value_together() {
    let domain = Domain {
        attributes: vec![trace("age", vec![datom(2, Value::Number(7), 0, -3)], vec![])],
    };
    let input = Implemented::Collection(CollectionRelation {
        variables: vec![0],
        tuples: vec![row(vec![eid(2)], at(0, 0), 2)],
    });
    let stage = level(0, &["age"], &[], true);
    let mut scope = Scope::new();
    let (relation, _handle) = stage.pull_from(input, &mut scope, &domain).unwrap();
    assert_eq!(
        tuples_of(relation),
        vec![row(vec![eid(2), aid("age"), Value::Number(7)], at(0, 0), -6)]
    );
}

#[test]
fn joined_row_is_at_the_later_of_both_times() {
    let domain = Domain {
        attributes: vec![trace("age", vec![datom(2, Value::Number(7), 5, 1)], vec![])],
    };
    let input = Implemented::Collection(CollectionRelation {
        variables: vec![0],
        tuples: vec![
            row(vec![eid(2)], at(1, 0), 1),
            row(vec![eid(2)], at(9, 4), 1),
            row(vec![eid(2)], at(3, 8), 1),
        ],
    });
    let stage = level(0, &["age"], &[], true);
    let mut scope = Scope::new();
    let (relation, _handle) = stage.pull_from(input, &mut scope, &domain).unwrap();
    let times: Vec<Time> = tuples_of(relation).iter().map(|update| update.time).collect();
    assert_eq!(times, vec![at(5, 0), at(9, 4), at(5, 8)]);
}

#[test]
fn pulled_values_are_advanced_to_the_frontier_of_their_attribute() {
    let domain = Domain {
        attributes: vec![trace(
            "age",
            vec![datom(2, Value::Number(7), 3, 1), datom(2, Value::Number(8), 12, 1)],
            vec![10],
        )],
    };
    let input = Implemented::Collection(CollectionRelation {
        variables: vec![0],
        tuples: vec![row(vec![eid(2)], at(0, 0), 1)],
    });
    let stage = level(0, &["age"], &[], true);
    let mut scope = Scope::new();
    let (relation, _handle) = stage.pull_from(input, &mut scope, &domain).unwrap();
    assert_eq!(
        tuples_of(relation),
        vec![
            row(vec![eid(2), aid("age"), Value::Number(7)], at(10, 0), 1),
            row(vec![eid(2), aid("age"), Value::Number(8)], at(12, 0), 1),
        ]
    );
}

#[test]
fn level_installs_one_named_operator_per_attribute() {
    let stage = level(1, &["name", "age"], &["child"], false);
    let mut scope = Scope::new();
    scope.install("earlier".to_string());
    let (_relation, handle) = stage.pull_from(children(), &mut scope, &family()).unwrap();
    assert_eq!(
        scope.resources,
        vec![
            Resource { label: "earlier".to_string(), released: false },
            Resource { label: "Propose(\"name\")".to_string(), released: false },
            Resource { label: "Propose(\"age\")".to_string(), released: false },
        ]
    );
    handle.press(&mut scope);
    assert_eq!(
        scope.resources,
        vec![
            Resource { label: "earlier".to_string(), released: false },
            Resource { label: "Propose(\"name\")".to_string(), released: true },
            Resource { label: "Propose(\"age\")".to_string(), released: true },
        ]
    );
}

#[test]
fn level_reads_the_paths_of_an_attribute() {
    let domain = Domain {
        attributes: vec![
            trace("child", vec![datom(1, eid(2), 0, 1)], vec![]),
            trace("name", vec![datom(2, text("Bela"), 0, 1)], vec![]),
        ],
    };
    let input = Implemented::Attribute(AttributeBinding {
        variables: (0, 1),
        source_attribute: "child".to_string(),
    });
    let stage = level(1, &["name"], &["child"], true);
    let mut scope = Scope::new();
    let (relation, handle) = stage.pull_from(input, &mut scope, &domain).unwrap();
    assert_eq!(
        tuples_of(relation),
        vec![row(vec![eid(1), aid("child"), eid(2), aid("name"), text("Bela")], at(0, 0), 1)]
    );
    assert_eq!(
        scope.resources,
        vec![
            Resource { label: "Propose(\"child\")".to_string(), released: false },
            Resource { label: "Propose(\"name\")".to_string(), released: false },
        ]
    );
    handle.press(&mut scope);
    assert!(scope.resources.iter().all(|resource| resource.released));
}

#[test]
fn unbound_pull_variable_is_refused() {
    let stage = level(7, &["name"], &["child"], false);
    let mut scope = Scope::new();
    assert_eq!(
        stage.pull_from(children(), &mut scope, &family()),
        Err(CompileError::UnboundVariable(7))
    );
    assert!(scope.resources.is_empty());
}

#[test]
fn unbound_pull_variable_is_refused_with_nothing_to_pull() {
    let stage = level(7, &[], &[], false);
    let mut scope = Scope::new();
    assert_eq!(
        stage.pull_from(children(), &mut scope, &family()),
        Err(CompileError::UnboundVariable(7))
    );
}

#[test]
fn missing_attribute_is_refused_and_nothing_stays_installed() {
    let stage = level(1, &["name", "email", "age"], &["child"], false);
    let mut scope = Scope::new();
    scope.install("earlier".to_string());
    assert_eq!(
        stage.pull_from(children(), &mut scope, &family()),
        Err(CompileError::MissingAttribute("email".to_string()))
    );
    assert_eq!(
        scope.resources,
        vec![Resource { label: "earlier".to_string(), released: false }]
    );
}

#[test]
fn row_without_the_entity_column_is_refused() {
    let input = Implemented::Collection(CollectionRelation {
        variables: vec![0, 1],
        tuples: vec![row(vec![eid(1), eid(2)], at(0, 0), 1), row(vec![eid(1)], at(0, 0), 1)],
    });
    let stage = level(1, &["name"], &[], true);
    let mut scope = Scope::new();
    assert_eq!(
        stage.pull_from(input, &mut scope, &family()),
        Err(CompileError::MalformedPath)
    );
    assert!(scope.resources.is_empty());
}

#[test]
fn row_that_does_not_fit_the_labels_is_refused() {
    let stage = level(1, &["name"], &["a", "b", "c"], true);
    let mut scope = Scope::new();
    assert_eq!(
        stage.pull_from(children(), &mut scope, &family()),
        Err(CompileError::MalformedPath)
    );
    let stage = level(1, &[], &["a", "b", "c"], true);
    assert_eq!(
        stage.pull_from(children(), &mut scope, &family()),
        Err(CompileError::MalformedPath)
    );
}

#[test]
fn multiplicity_beyond_the_machine_is_refused() {
    let domain = Domain {
        attributes: vec![trace("age", vec![datom(2, Value::Number(7), 0, 2)], vec![])],
    };
    let input = Implemented::Collection(CollectionRelation {
        variables: vec![0],
        tuples: vec![row(vec![eid(2)], at(0, 0), isize::MAX)],
    });
    let stage = level(0, &["age"], &[], true);
    let mut scope = Scope::new();
    assert_eq!(
        stage.pull_from(input, &mut scope, &domain),
        Err(CompileError::DiffOverflow)
    );
    assert!(scope.resources.is_empty());
}

#[test]
fn multiplicity_that_matches_no_entity_is_not_counted() {
    let domain = Domain {
        attributes: vec![trace("age", vec![datom(3, Value::Number(7), 0, 2)], vec![])],
    };
    let input = Implemented::Collection(CollectionRelation {
        variables: vec![0],
        tuples: vec![row(vec![eid(2)], at(0, 0), isize::MAX)],
    });
    let stage = level(0, &["age"], &[], true);
    let mut scope = Scope::new();
    let (relation, _handle) = stage.pull_from(input, &mut scope, &domain).unwrap();
    assert!(tuples_of(relation).is_empty());
}

#[test]
fn level_compiles_its_plan_first() {
    let stage = level(1, &["name"], &["child"], true);
    let local: VariableMap = vec![(
        "children".to_string(),
        vec![row(vec![eid(1), eid(3)], at(2, 1), 1)],
    )];
    let mut scope = Scope::new();
    let (relation, _handle) = stage.implement(&mut scope, &family(), &local).unwrap();
    assert_eq!(
        tuples_of(relation),
        vec![row(vec![eid(1), aid("child"), eid(3), aid("name"), text("Cleo")], at(2, 1), 1)]
    );
}

#[test]
fn level_fails_as_its_plan_fails() {
    let stage = level(1, &["name"], &["child"], true);
    let local: VariableMap = vec![];
    let mut scope = Scope::new();
    assert_eq!(
        stage.implement(&mut scope, &family(), &local),
        Err(CompileError::UnknownRelation("children".to_string()))
    );
}

#[test]
fn level_depends_on_its_plan_and_its_attributes() {
    let inner = level(1, &["name", "age"], &["child"], true);
    let outer = PullLevel {
        variables: vec![],
        plan: Box::new(inner),
        pull_variable: 0,
        pull_attributes: vec!["age".to_string(), "email".to_string()],
        path_attributes: vec![],
        cardinality_many: false,
    };
    assert_eq!(
        outer.dependencies().attributes,
        vec!["name".to_string(), "age".to_string(), "age".to_string(), "email".to_string()]
    );
}

#[test]
fn stage_admits_the_paths_that_it_can_label() {
    let labelled = level(1, &["name"], &["child"], false);
    assert!(!labelled.admits(0));
    assert!(labelled.admits(1));
    assert!(labelled.admits(2));
    assert!(!labelled.admits(3));
    let many = level(1, &["name"], &["child"], true);
    assert!(many.admits(0));
    assert!(many.admits(2));
    let plain = level(1, &["name"], &[], false);
    assert!(plain.admits(0));
    assert!(plain.admits(9));
}

#[test]
fn path_that_left_the_input_leaves_the_result() {
    // entity 2 joins the children of entity 1 at time 1 and leaves at time 5
    let input = Implemented::Collection(CollectionRelation {
        variables: vec![0, 1],
        tuples: vec![
            row(vec![eid(1), eid(2)], at(1, 0), 1),
            row(vec![eid(1), eid(2)], at(5, 0), -1),
        ],
    });
    let stage = level(1, &["name", "age"], &["child"], false);
    let mut scope = Scope::new();
    let (relation, _handle) = stage.pull_from(input, &mut scope, &family()).unwrap();
    let tuples = tuples_of(relation);
    assert_eq!(tuples.len(), 6);
    let mut rows: Vec<&Vec<Value>> = tuples.iter().map(|update| &update.tuple).collect();
    rows.sort();
    rows.dedup();
    assert_eq!(rows.len(), 3);
    for r in rows {
        let sum: isize = tuples
            .iter()
            .filter(|update| &update.tuple == r && update.time.outer <= 5)
            .map(|update| update.diff)
            .sum();
        assert_eq!(sum, 0);
        let before: isize = tuples
            .iter()
            .filter(|update| &update.tuple == r && update.time.outer <= 4)
            .map(|update| update.diff)
            .sum();
        assert_eq!(before, 1);
    }
}

#[test]
fn more_input_adds_the_rows_of_what_was_added() {
    let first = row(vec![eid(1), eid(2)], at(0, 0), 1);
    let second = row(vec![eid(1), eid(3)], at(0, 0), 1);
    let stage = level(1, &["name"], &["child"], false);
    let pull = |tuples: Vec<Update>| {
        let input = Implemented::Collection(CollectionRelation { variables: vec![0, 1], tuples });
        let mut scope = Scope::new();
        let (relation, _handle) = stage.pull_from(input, &mut scope, &family()).unwrap();
        let mut rows = tuples_of(relation);
        rows.sort_by(|a, b| a.tuple.cmp(&b.tuple));
        rows
    };
    let mut apart = pull(vec![first.clone()]);
    apart.extend(pull(vec![second.clone()]));
    apart.sort_by(|a, b| a.tuple.cmp(&b.tuple));
    assert_eq!(pull(vec![first, second]), apart);
}

#[test]
fn stage_collapses_where_values_are_single_and_the_path_has_labels() {
    assert!(level(1, &["name"], &["child"], false).collapses());
    assert!(!level(1, &["name"], &["child"], true).collapses());
    assert!(!level(1, &["name"], &[], false).collapses());
    assert!(!level(1, &["name"], &[], true).collapses());
}
