use crate::domain::{Domain, TraceModel};
use crate::error::{CompileError, Failure};
use crate::relation::{
    installed, CollectionRelation, Implemented, RelationModel, Update, UpdateModel,
};
use crate::shutdown::{live, positions, ResourceModel, Scope, ShutdownHandle};
use crate::value::{Aid, Var};
use vstd::prelude::*;

verus! {

/// The attributes that a plan reads, one entry for each place that reads
/// one, in the order of those places.
#[derive(Debug, PartialEq, Eq)]
pub struct Dependencies {
    pub attributes: Vec<Aid>,
}

impl DeepView for Dependencies {
    type V = Seq<Seq<char>>;

    open spec fn deep_view(&self) -> Seq<Seq<char>> {
        self.attributes.deep_view()
    }
}

impl Dependencies {
    /// No attribute.
    pub fn none() -> (dependencies: Dependencies)
        ensures
            dependencies.deep_view() == Seq::<Seq<char>>::empty(),
    {
        let dependencies = Dependencies { attributes: Vec::new() };
        assert(dependencies.deep_view() =~= Seq::<Seq<char>>::empty());
        dependencies
    }

    /// The one attribute `name`.
    pub fn attribute(name: Aid) -> (dependencies: Dependencies)
        ensures
            dependencies.deep_view() == seq![name@],
    {
        let mut attributes: Vec<Aid> = Vec::new();
        attributes.push(name);
        let dependencies = Dependencies { attributes };
        assert(dependencies.deep_view() =~= seq![name@]);
        dependencies
    }

    /// The sum of both: the entries of `self`, then those of `other`.
    pub fn merge(self, other: Dependencies) -> (sum: Dependencies)
        ensures
            sum.deep_view() == self.deep_view() + other.deep_view(),
    {
        let mut attributes = self.attributes;
        let mut others = other.attributes;
        attributes.append(&mut others);
        let sum = Dependencies { attributes };
        assert(sum.deep_view() =~= self.deep_view() + other.deep_view());
        sum
    }
}

/// The relations that are bound to a name while a plan is compiled.
pub type VariableMap = Vec<(String, Vec<Update>)>;

/// What a plan compiles to: the relation, and the names of the operators
/// that the compilation installs, in the order of their installation.
pub struct Compiled {
    pub relation: RelationModel,
    pub imports: Seq<Seq<char>>,
}

/// Whether `result` is what `expected` asks for, in a scope that held the
/// operators `before` and now holds `after`. On success the relation is the
/// expected one, the operators named by `expected` were installed behind
/// those that were there, and the handle covers exactly them. On failure
/// the error is the expected one and the scope is as it was.
pub open spec fn compiled_as(
    before: Seq<ResourceModel>,
    after: Seq<ResourceModel>,
    result: Result<(Implemented, ShutdownHandle), CompileError>,
    expected: Result<Compiled, Failure>,
) -> bool {
    match expected {
        Ok(compiled) => {
            &&& result matches Ok(pair)
            &&& pair.0.deep_view() == compiled.relation
            &&& installed(before, after, pair.1.covers(), compiled.imports)
        },
        Err(failure) => {
            &&& result matches Err(error)
            &&& error.deep_view() == failure
            &&& after == before
        },
    }
}

/// A node of a query plan.
pub trait Implementable {
    /// The attributes that the plan reads.
    spec fn requirements(&self) -> Seq<Seq<char>>;

    /// The attributes that the plan reads: what a caller has to find in the
    /// domain before it compiles the plan.
    fn dependencies(&self) -> (dependencies: Dependencies)
        ensures
            dependencies.deep_view() == self.requirements(),
    ;

    /// What the plan compiles to over the attributes `domain` and the named
    /// relations `local`, or why it does not compile.
    spec fn outcome(
        &self,
        domain: Seq<TraceModel>,
        local: Seq<(Seq<char>, Seq<UpdateModel>)>,
    ) -> Result<Compiled, Failure>;

    /// Compiles the plan into `nested`.
    fn implement(
        &self,
        nested: &mut Scope,
        domain: &Domain,
        local_arrangements: &VariableMap,
    ) -> (implemented: Result<(Implemented, ShutdownHandle), CompileError>)
        ensures
            compiled_as(
                old(nested).deep_view(),
                final(nested).deep_view(),
                implemented,
                self.outcome(domain.deep_view(), local_arrangements.deep_view()),
            ),
    ;
}

/// Whether `at` is the first position in `local` of a relation `name`.
pub open spec fn bound_at(
    local: Seq<(Seq<char>, Seq<UpdateModel>)>,
    name: Seq<char>,
    at: int,
) -> bool {
    &&& 0 <= at < local.len()
    &&& local[at].0 == name
    &&& forall|j: int| 0 <= j < at ==> (#[trigger] local[j]).0 != name
}

/// A plan that stands for the relation bound to a name.
#[derive(Debug, PartialEq, Eq, PartialOrd, Ord, Hash)]
pub struct NameExpr {
    /// The variables that the columns of the relation are bound to.
    pub variables: Vec<Var>,
    /// The name of the relation.
    pub name: String,
}

impl Clone for NameExpr {
    fn clone(&self) -> (copy: Self) {
        NameExpr { variables: self.variables.clone(), name: self.name.clone() }
    }
}

/// A copy of `updates`.
fn copy_updates(updates: &Vec<Update>) -> (copy: Vec<Update>)
    ensures
        copy.deep_view() == updates.deep_view(),
{
    let mut copy: Vec<Update> = Vec::new();
    let n = updates.len();
    let mut i: usize = 0;
    while i < n
        invariant
            n == updates@.len(),
            i <= n,
            copy.deep_view() == updates.deep_view().take(i as int),
        decreases n - i,
    {
        copy.push(updates[i].clone());
        proof {
            let all = updates.deep_view();
            assert(copy.deep_view() =~= all.take(i as int).push(all[i as int]));
        }
        i += 1;
    }
    proof {
        assert(updates.deep_view().take(n as int) =~= updates.deep_view());
    }
    copy
}

impl Implementable for NameExpr {
    open spec fn requirements(&self) -> Seq<Seq<char>> {
        Seq::empty()
    }

    fn dependencies(&self) -> (dependencies: Dependencies) {
        Dependencies::none()
    }

    open spec fn outcome(
        &self,
        domain: Seq<TraceModel>,
        local: Seq<(Seq<char>, Seq<UpdateModel>)>,
    ) -> Result<Compiled, Failure> {
        if exists|at: int| bound_at(local, self.name@, at) {
            Ok(
                Compiled {
                    relation: RelationModel::Collection {
                        variables: self.variables@,
                        tuples: local[choose|at: int| bound_at(local, self.name@, at)].1,
                    },
                    imports: Seq::empty(),
                },
            )
        } else {
            Err(Failure::UnknownRelation(self.name@))
        }
    }

    fn implement(
        &self,
        nested: &mut Scope,
        domain: &Domain,
        local_arrangements: &VariableMap,
    ) -> (implemented: Result<(Implemented, ShutdownHandle), CompileError>) {
        let ghost local = local_arrangements.deep_view();
        let n = local_arrangements.len();
        let mut at: usize = 0;
        while at < n
            invariant
                n == local_arrangements@.len(),
                at <= n,
                local == local_arrangements.deep_view(),
                forall|j: int| 0 <= j < at ==> (#[trigger] local[j]).0 != self.name@,
            decreases n - at,
        {
            if local_arrangements[at].0 == self.name {
                let relation = CollectionRelation {
                    variables: self.variables.clone(),
                    tuples: copy_updates(&local_arrangements[at].1),
                };
                let handle = ShutdownHandle::empty();
                proof {
                    assert(bound_at(local, self.name@, at as int));
                    let chosen = choose|c: int| bound_at(local, self.name@, c);
                    assert(chosen == at) by {
                        if chosen < at {
                            assert(local[chosen].0 != self.name@);
                        }
                        if at < chosen {
                            assert(local[at as int].0 != self.name@);
                        }
                    }
                    lemma_nothing_installed(nested.deep_view());
                }
                return Ok((Implemented::Collection(relation), handle));
            }
            at += 1;
        }
        proof {
            if exists|c: int| bound_at(local, self.name@, c) {
                let c = choose|c: int| bound_at(local, self.name@, c);
                assert(local[c].0 != self.name@);
            }
        }
        Err(CompileError::UnknownRelation(self.name.clone()))
    }
}

/// A scope in which nothing is installed stays as it is, and the handle
/// for nothing covers nothing.
pub proof fn lemma_nothing_installed(scope: Seq<ResourceModel>)
    ensures
        installed(scope, scope, Seq::<usize>::empty(), Seq::<Seq<char>>::empty()),
{
    let imports = Seq::<Seq<char>>::empty();
    assert(imports.map_values(|label: Seq<char>| live(label)) =~= Seq::<ResourceModel>::empty());
    assert(scope + Seq::<ResourceModel>::empty() =~= scope);
    assert(Seq::<usize>::empty() =~= positions(scope.len() as int, 0));
}

/// One operator installed behind those of `scope`, with the token for its
/// position.
pub proof fn lemma_installed_one(scope: Seq<ResourceModel>, position: usize, label: Seq<char>)
    requires
        position == scope.len(),
    ensures
        installed(scope, scope.push(live(label)), seq![position], seq![label]),
{
    let imports = seq![label];
    assert(imports.map_values(|label: Seq<char>| live(label)) =~= seq![live(label)]);
    assert(scope + seq![live(label)] =~= scope.push(live(label)));
    assert(seq![position] =~= positions(scope.len() as int, 1));
}

/// Installing `first` and then `second` installs `first + second`, and the
/// two handles together cover what was installed.
pub proof fn lemma_installed_twice(
    before: Seq<ResourceModel>,
    between: Seq<ResourceModel>,
    after: Seq<ResourceModel>,
    covers_first: Seq<usize>,
    covers_second: Seq<usize>,
    first: Seq<Seq<char>>,
    second: Seq<Seq<char>>,
)
    requires
        installed(before, between, covers_first, first),
        installed(between, after, covers_second, second),
    ensures
        installed(before, after, covers_first + covers_second, first + second),
{
    let fresh = |label: Seq<char>| live(label);
    assert((first + second).map_values(fresh) =~= first.map_values(fresh) + second.map_values(
        fresh,
    ));
    assert(after =~= before + (first + second).map_values(fresh));
    assert(covers_first + covers_second =~= positions(
        before.len() as int,
        (first + second).len(),
    ));
}

} // verus!
