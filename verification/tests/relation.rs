use declarative_pull::domain::{enter_at, Datom, Domain, Proposal, ProposeTrace};
use declarative_pull::error::CompileError;
use declarative_pull::plan::{Dependencies, Implementable, NameExpr, VariableMap};
use declarative_pull::relation::{
    position, AttributeBinding, CollectionRelation, Implemented, Update,
};
use declarative_pull::shutdown::{Resource, Scope, ShutdownButton};
use declarative_pull::timestamp::Time;
use declarative_pull::value::Value;

fn eid(e: u64) -> Value {
    Value::Eid(e)
}

fn domain() -> Domain {
    Domain {
        attributes: vec![
            ProposeTrace {
                name: "likes".to_string(),
                datoms: vec![
                    Datom { e: eid(1), v: eid(2), time: 1, diff: 1 },
                    Datom { e: eid(1), v: eid(2), time: 8, diff: -1 },
                ],
                frontier: vec![7, 5],
            },
            ProposeTrace { name: "empty".to_string(), datoms: vec![], frontier: vec![] },
            ProposeTrace {
                name: "likes".to_string(),
                datoms: vec![Datom { e: eid(9), v: eid(9), time: 0, diff: 1 }],
                frontier: vec![],
            },
        ],
    }
}

fn collection() -> Implemented {
    Implemented::Collection(CollectionRelation {
        variables: vec![4, 7, 4],
        tuples: vec![Update {
            tuple: vec![eid(1), eid(2), eid(1)],
            time: Time { outer: 3, round: 1 },
            diff: 2,
        }],
    })
}

fn attribute(name: &str) -> Implemented {
    Implemented::Attribute(AttributeBinding {
        variables: (3, 5),
        source_attribute: name.to_string(),
    })
}

#[test]
fn position_is_the_first_of_a_variable() {
    assert_eq!(position(&vec![4, 7, 4], 4), Some(0));
    assert_eq!(position(&vec![4, 7, 4], 7), Some(1));
    assert_eq!(position(&vec![4, 7, 4], 5), None);
    assert_eq!(position(&vec![], 0), None);
}

#[test]
fn collection_binds_its_variables_in_the_order_of_its_columns() {
    assert_eq!(collection().variables(), vec![4, 7, 4]);
    assert_eq!(collection().binds(4), Some(0));
    assert_eq!(collection().binds(7), Some(1));
    assert_eq!(collection().binds(1), None);
}

#[test]
fn attribute_binds_the_entity_and_then_the_value() {
    assert_eq!(attribute("likes").variables(), vec![3, 5]);
    assert_eq!(attribute("likes").binds(3), Some(0));
    assert_eq!(attribute("likes").binds(5), Some(1));
    assert_eq!(attribute("likes").binds(4), None);
}

#[test]
fn tuples_of_a_collection_are_at_hand() {
    let mut scope = Scope::new();
    let (tuples, handle) = collection().tuples(&mut scope, &domain()).unwrap();
    assert_eq!(
        tuples,
        vec![Update {
            tuple: vec![eid(1), eid(2), eid(1)],
            time: Time { outer: 3, round: 1 },
            diff: 2,
        }]
    );
    assert!(scope.resources.is_empty());
    handle.press(&mut scope);
    assert!(scope.resources.is_empty());
}

#[test]
fn tuples_of_an_attribute_are_imported_at_its_frontier() {
    let mut scope = Scope::new();
    let (tuples, handle) = attribute("likes").tuples(&mut scope, &domain()).unwrap();
    assert_eq!(
        tuples,
        vec![
            Update { tuple: vec![eid(1), eid(2)], time: Time { outer: 5, round: 0 }, diff: 1 },
            Update { tuple: vec![eid(1), eid(2)], time: Time { outer: 8, round: 0 }, diff: -1 },
        ]
    );
    assert_eq!(
        scope.resources,
        vec![Resource { label: "Propose(\"likes\")".to_string(), released: false }]
    );
    handle.press(&mut scope);
    assert!(scope.resources[0].released);
}

#[test]
fn tuples_of_a_missing_attribute_are_refused() {
    let mut scope = Scope::new();
    assert_eq!(
        attribute("hates").tuples(&mut scope, &domain()),
        Err(CompileError::MissingAttribute("hates".to_string()))
    );
    assert!(scope.resources.is_empty());
}

#[test]
fn forward_propose_finds_the_first_attribute_of_a_name() {
    let domain = domain();
    let found = domain.forward_propose(&"likes".to_string()).unwrap();
    assert_eq!(found.datoms.len(), 2);
    assert_eq!(found.advance_frontier(), &vec![7, 5]);
    assert!(domain.forward_propose(&"empty".to_string()).unwrap().datoms.is_empty());
    assert_eq!(domain.forward_propose(&"like".to_string()), None);
}

#[test]
fn import_frontier_advances_each_time_to_the_frontier() {
    let domain = domain();
    let mut scope = Scope::new();
    let (arranged, button) =
        domain.attributes[0].import_frontier(&mut scope, "Import".to_string());
    assert_eq!(
        arranged,
        vec![
            Datom { e: eid(1), v: eid(2), time: 5, diff: 1 },
            Datom { e: eid(1), v: eid(2), time: 8, diff: -1 },
        ]
    );
    assert_eq!(button, ShutdownButton { resource: 0 });
    assert_eq!(scope.resources, vec![Resource { label: "Import".to_string(), released: false }]);
}

#[test]
fn import_with_an_empty_frontier_leaves_the_times() {
    let trace = ProposeTrace {
        name: "a".to_string(),
        datoms: vec![Datom { e: eid(1), v: eid(2), time: 3, diff: 1 }],
        frontier: vec![],
    };
    let mut scope = Scope::new();
    let (arranged, _button) = trace.import_frontier(&mut scope, "Import".to_string());
    assert_eq!(arranged, vec![Datom { e: eid(1), v: eid(2), time: 3, diff: 1 }]);
}

#[test]
fn enter_at_pairs_the_advanced_time_with_round_zero() {
    let arranged = vec![
        Datom { e: eid(1), v: eid(2), time: 3, diff: 1 },
        Datom { e: eid(1), v: eid(3), time: 30, diff: -2 },
    ];
    assert_eq!(
        enter_at(&arranged, &vec![10, 20]),
        vec![
            Proposal { e: eid(1), v: eid(2), time: Time { outer: 10, round: 0 }, diff: 1 },
            Proposal { e: eid(1), v: eid(3), time: Time { outer: 30, round: 0 }, diff: -2 },
        ]
    );
}

#[test]
fn import_propose_names_the_operator_after_the_attribute() {
    let domain = domain();
    let mut scope = Scope::new();
    let (e_v, button) = domain.import_propose(&"likes".to_string(), &mut scope).unwrap();
    assert_eq!(e_v.len(), 2);
    assert_eq!(e_v[0].time, Time { outer: 5, round: 0 });
    assert_eq!(button.resource, 0);
    assert_eq!(scope.resources[0].label, "Propose(\"likes\")");
    assert_eq!(domain.import_propose(&"hates".to_string(), &mut scope), None);
    assert_eq!(scope.resources.len(), 1);
}

#[test]
fn name_expr_stands_for_the_first_relation_of_its_name() {
    let rows = vec![Update { tuple: vec![eid(1)], time: Time { outer: 2, round: 3 }, diff: 1 }];
    let local: VariableMap = vec![
        ("other".to_string(), vec![]),
        ("mine".to_string(), rows.clone()),
        ("mine".to_string(), vec![]),
    ];
    let plan = NameExpr { variables: vec![8], name: "mine".to_string() };
    let mut scope = Scope::new();
    let (relation, handle) = plan.implement(&mut scope, &domain(), &local).unwrap();
    assert_eq!(
        relation,
        Implemented::Collection(CollectionRelation { variables: vec![8], tuples: rows })
    );
    handle.press(&mut scope);
    assert!(scope.resources.is_empty());
    assert_eq!(plan.dependencies().attributes, Vec::<String>::new());
}

#[test]
fn name_expr_of_an_unbound_name_is_refused() {
    let local: VariableMap = vec![("other".to_string(), vec![])];
    let plan = NameExpr { variables: vec![8], name: "mine".to_string() };
    let mut scope = Scope::new();
    assert_eq!(
        plan.implement(&mut scope, &domain(), &local),
        Err(CompileError::UnknownRelation("mine".to_string()))
    );
}

#[test]
fn dependencies_add_up_in_order() {
    assert!(Dependencies::none().attributes.is_empty());
    let sum = Dependencies::attribute("a".to_string())
        .merge(Dependencies::none())
        .merge(Dependencies::attribute("b".to_string()).merge(Dependencies::attribute("a".to_string())));
    assert_eq!(sum.attributes, vec!["a".to_string(), "b".to_string(), "a".to_string()]);
}

#[test]
fn values_compare_by_what_they_hold() {
    assert_eq!(Value::Aid("a".to_string()), Value::Aid("a".to_string()));
    assert_ne!(Value::Aid("a".to_string()), Value::String("a".to_string()));
    assert_ne!(Value::Eid(1), Value::Number(1));
    assert_ne!(Value::Eid(1), Value::Instant(1));
    assert_eq!(Value::Bool(true).clone(), Value::Bool(true));
    assert!(Value::Number(-1) < Value::Number(0));
    assert_eq!(Value::String("x".to_string()).clone(), Value::String("x".to_string()));
}
