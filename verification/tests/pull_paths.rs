use declarative_pull::domain::{Datom, Domain, ProposeTrace};
use declarative_pull::error::CompileError;
use declarative_pull::plan::{Implementable, NameExpr, VariableMap};
use declarative_pull::pull::{Pull, PullLevel};
use declarative_pull::relation::{CollectionRelation, Implemented, Update};
use declarative_pull::shutdown::{Resource, Scope};
use declarative_pull::timestamp::Time;
use declarative_pull::value::Value;

fn eid(e: u64) -> Value {
    Value::Eid(e)
}

fn aid(name: &str) -> Value {
    Value::Aid(name.to_string())
}

fn text(s: &str) -> Value {
    Value::String(s.to_string())
}

fn row(tuple: Vec<Value>) -> Update {
    Update { tuple, time: Time { outer: 0, round: 0 }, diff: 1 }
}

fn trace(name: &str, e: u64, v: Value) -> ProposeTrace {
    ProposeTrace {
        name: name.to_string(),
        datoms: vec![Datom { e: eid(e), v, time: 0, diff: 1 }],
        frontier: vec![],
    }
}

/// Entity 1 has a1 = "x" and is linked by a2 to entity 2, which has a3 = "y".
fn domain() -> Domain {
    Domain {
        attributes: vec![
            trace("a1", 1, text("x")),
            trace("a2", 1, eid(2)),
            trace("a3", 2, text("y")),
        ],
    }
}

fn local() -> VariableMap {
    vec![
        ("roots".to_string(), vec![row(vec![eid(1)])]),
        ("links".to_string(), vec![row(vec![eid(1), eid(2)])]),
    ]
}

fn top() -> PullLevel<NameExpr> {
    PullLevel {
        variables: vec![],
        plan: Box::new(NameExpr { variables: vec![0], name: "roots".to_string() }),
        pull_variable: 0,
        pull_attributes: vec!["a1".to_string()],
        path_attributes: vec![],
        cardinality_many: false,
    }
}

fn nested(cardinality_many: bool) -> PullLevel<NameExpr> {
    PullLevel {
        variables: vec![],
        plan: Box::new(NameExpr { variables: vec![0, 1], name: "links".to_string() }),
        pull_variable: 1,
        pull_attributes: vec!["a3".to_string()],
        path_attributes: vec!["a2".to_string()],
        cardinality_many,
    }
}

fn sorted(mut rows: Vec<Vec<Value>>) -> Vec<Vec<Value>> {
    rows.sort();
    rows
}

fn rows_of(relation: Implemented) -> Vec<Vec<Value>> {
    match relation {
        Implemented::Collection(relation) => {
            relation.tuples.into_iter().map(|update| update.tuple).collect()
        }
        Implemented::Attribute(_) => panic!("expected a collection"),
    }
}

#[test]
fn two_level_pull_emits_both_levels_with_their_paths() {
    let pull = Pull { variables: vec![3], paths: vec![top(), nested(true)] };
    let mut scope = Scope::new();
    let (relation, handle) = pull.implement(&mut scope, &domain(), &local()).unwrap();
    assert_eq!(
        relation,
        Implemented::Collection(CollectionRelation {
            variables: vec![3],
            tuples: vec![
                row(vec![eid(1), aid("a1"), text("x")]),
                row(vec![eid(1), aid("a2"), eid(2), aid("a3"), text("y")]),
            ],
        })
    );
    assert_eq!(
        scope.resources,
        vec![
            Resource { label: "Propose(\"a1\")".to_string(), released: false },
            Resource { label: "Propose(\"a3\")".to_string(), released: false },
        ]
    );
    handle.press(&mut scope);
    assert!(scope.resources.iter().all(|resource| resource.released));
}

#[test]
fn two_level_pull_of_single_values_adds_the_presence_of_the_child() {
    let pull = Pull { variables: vec![], paths: vec![top(), nested(false)] };
    let mut scope = Scope::new();
    let (relation, _handle) = pull.implement(&mut scope, &domain(), &local()).unwrap();
    assert_eq!(
        sorted(rows_of(relation)),
        sorted(vec![
            vec![eid(1), aid("a1"), text("x")],
            vec![eid(1), aid("a2"), aid("a3"), text("y")],
            vec![eid(1), aid("a2"), aid("db__id"), eid(2)],
        ])
    );
}

#[test]
fn pull_of_no_paths_is_empty() {
    let pull: Pull<PullLevel<NameExpr>> = Pull { variables: vec![1, 2], paths: vec![] };
    let mut scope = Scope::new();
    let (relation, handle) = pull.implement(&mut scope, &domain(), &local()).unwrap();
    assert_eq!(
        relation,
        Implemented::Collection(CollectionRelation { variables: vec![1, 2], tuples: vec![] })
    );
    handle.press(&mut scope);
    assert!(scope.resources.is_empty());
}

#[test]
fn pull_fails_as_its_first_failing_path_and_installs_nothing() {
    let mut broken = nested(true);
    broken.pull_attributes = vec!["a3".to_string(), "a9".to_string()];
    let mut unbound = top();
    unbound.pull_variable = 4;
    let pull = Pull { variables: vec![], paths: vec![top(), broken, unbound] };
    let mut scope = Scope::new();
    assert_eq!(
        pull.implement(&mut scope, &domain(), &local()),
        Err(CompileError::MissingAttribute("a9".to_string()))
    );
    assert!(scope.resources.is_empty());
}

#[test]
fn pull_depends_on_the_attributes_of_all_paths() {
    let pull = Pull { variables: vec![], paths: vec![top(), nested(true), top()] };
    assert_eq!(
        pull.dependencies().attributes,
        vec!["a1".to_string(), "a3".to_string(), "a1".to_string()]
    );
}

#[test]
fn pull_of_pulls_compiles_each_on_its_own() {
    let inner = Pull { variables: vec![], paths: vec![top()] };
    let outer = Pull { variables: vec![], paths: vec![inner.clone(), inner] };
    let mut scope = Scope::new();
    let (relation, _handle) = outer.implement(&mut scope, &domain(), &local()).unwrap();
    assert_eq!(
        rows_of(relation),
        vec![vec![eid(1), aid("a1"), text("x")], vec![eid(1), aid("a1"), text("x")]]
    );
    assert_eq!(scope.resources.len(), 2);
}
