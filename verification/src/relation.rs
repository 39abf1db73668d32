use crate::domain::{known, proposals, propose_label, trace_of, Domain, ProposalModel, TraceModel};
use crate::error::{CompileError, Failure};
use crate::shutdown::{live, positions, ResourceModel, Scope, ShutdownHandle};
use crate::timestamp::Time;
use crate::value::{Aid, Value, ValueModel, Var};
use vstd::prelude::*;

verus! {

/// One change to a relation: at `time`, the row `tuple` was added or taken
/// away `diff` times.
#[derive(Debug, PartialEq, Eq)]
pub struct Update {
    pub tuple: Vec<Value>,
    pub time: Time,
    pub diff: isize,
}

pub struct UpdateModel {
    pub tuple: Seq<ValueModel>,
    pub time: Time,
    pub diff: int,
}

impl DeepView for Update {
    type V = UpdateModel;

    open spec fn deep_view(&self) -> UpdateModel {
        UpdateModel { tuple: self.tuple.deep_view(), time: self.time, diff: self.diff as int }
    }
}

impl Clone for Update {
    fn clone(&self) -> (copy: Self)
        ensures
            copy.deep_view() == self.deep_view(),
    {
        let tuple = self.tuple.clone();
        assert(tuple.deep_view() =~= self.tuple.deep_view());
        Update { tuple, time: self.time, diff: self.diff }
    }
}

/// A relation whose changes are at hand.
#[derive(Debug, PartialEq, Eq)]
pub struct CollectionRelation {
    pub variables: Vec<Var>,
    pub tuples: Vec<Update>,
}

/// A relation that is one attribute of the domain: entities in the first
/// column, values in the second.
#[derive(Debug, PartialEq, Eq)]
pub struct AttributeBinding {
    pub variables: (Var, Var),
    pub source_attribute: Aid,
}

/// What a plan compiles to.
#[derive(Debug, PartialEq, Eq)]
pub enum Implemented {
    Attribute(AttributeBinding),
    Collection(CollectionRelation),
}

pub enum RelationModel {
    Attribute { e: Var, v: Var, source: Seq<char> },
    Collection { variables: Seq<Var>, tuples: Seq<UpdateModel> },
}

impl DeepView for Implemented {
    type V = RelationModel;

    open spec fn deep_view(&self) -> RelationModel {
        match self {
            Implemented::Attribute(binding) => RelationModel::Attribute {
                e: binding.variables.0,
                v: binding.variables.1,
                source: binding.source_attribute@,
            },
            Implemented::Collection(relation) => RelationModel::Collection {
                variables: relation.variables@,
                tuples: relation.tuples.deep_view(),
            },
        }
    }
}

/// The changes of a relation, and the names of the operators that had to be
/// installed to get at them, in the order of their installation.
pub struct Materialized {
    pub rows: Seq<UpdateModel>,
    pub imports: Seq<Seq<char>>,
}

/// Whether `offset` is the first position of `var` in `variables`.
pub open spec fn first_at(variables: Seq<Var>, var: Var, offset: int) -> bool {
    &&& 0 <= offset < variables.len()
    &&& variables[offset] == var
    &&& forall|j: int| 0 <= j < offset ==> variables[j] != var
}

/// The row of one change to an attribute: the entity, then the value.
pub open spec fn pair_row(proposal: ProposalModel) -> UpdateModel {
    UpdateModel { tuple: seq![proposal.e, proposal.v], time: proposal.time, diff: proposal.diff }
}

/// Whether, from a scope that held the operators `before`, one with the
/// operators `after` was reached by installing live operators named
/// `imports`, in that order, and `covers` holds their positions.
pub open spec fn installed(
    before: Seq<ResourceModel>,
    after: Seq<ResourceModel>,
    covers: Seq<usize>,
    imports: Seq<Seq<char>>,
) -> bool {
    &&& after == before + imports.map_values(|label: Seq<char>| live(label))
    &&& covers == positions(before.len() as int, imports.len())
}

impl RelationModel {
    /// The variables that the columns are bound to, in the order of the
    /// columns.
    pub open spec fn variables(self) -> Seq<Var> {
        match self {
            RelationModel::Attribute { e, v, source } => seq![e, v],
            RelationModel::Collection { variables, tuples } => variables,
        }
    }

    /// Whether some column is bound to `var`.
    pub open spec fn binds(self, var: Var) -> bool {
        exists|offset: int| first_at(self.variables(), var, offset)
    }

    /// The first column that is bound to `var`.
    pub open spec fn offset_of(self, var: Var) -> int {
        choose|offset: int| first_at(self.variables(), var, offset)
    }

    /// The changes of the relation, read from `domain` where the relation
    /// is an attribute.
    pub open spec fn tuples(self, domain: Seq<TraceModel>) -> Result<Materialized, Failure> {
        match self {
            RelationModel::Attribute { e, v, source } => if known(domain, source) {
                Ok(
                    Materialized {
                        rows: proposals(trace_of(domain, source)).map_values(
                            |proposal: ProposalModel| pair_row(proposal),
                        ),
                        imports: seq![propose_label(source)],
                    },
                )
            } else {
                Err(Failure::MissingAttribute(source))
            },
            RelationModel::Collection { variables, tuples } => Ok(
                Materialized { rows: tuples, imports: Seq::empty() },
            ),
        }
    }
}

/// The first position of `var` in `variables`, if it occurs there.
pub fn position(variables: &Vec<Var>, var: Var) -> (found: Option<usize>)
    ensures
        found is Some <==> exists|offset: int| first_at(variables@, var, offset),
        found matches Some(offset) ==> first_at(variables@, var, offset as int),
{
    let n = variables.len();
    let mut offset: usize = 0;
    while offset < n
        invariant
            n == variables@.len(),
            offset <= n,
            forall|j: int| 0 <= j < offset ==> variables@[j] != var,
        decreases n - offset,
    {
        if variables[offset] == var {
            assert(first_at(variables@, var, offset as int));
            return Some(offset);
        }
        offset += 1;
    }
    None
}

/// Two first positions of one variable are the same position.
pub proof fn lemma_first_at_unique(variables: Seq<Var>, var: Var, a: int, b: int)
    requires
        first_at(variables, var, a),
        first_at(variables, var, b),
    ensures
        a == b,
{
    if a < b {
        assert(variables[a] != var);
    }
    if b < a {
        assert(variables[b] != var);
    }
}

impl Implemented {
    /// The variables that the columns are bound to, in the order of the
    /// columns.
    pub fn variables(&self) -> (variables: Vec<Var>)
        ensures
            variables@ == self.deep_view().variables(),
    {
        match self {
            Implemented::Attribute(binding) => {
                let mut variables: Vec<Var> = Vec::new();
                variables.push(binding.variables.0);
                variables.push(binding.variables.1);
                assert(variables@ =~= seq![binding.variables.0, binding.variables.1]);
                variables
            },
            Implemented::Collection(relation) => relation.variables.clone(),
        }
    }

    /// The first column that is bound to `var`, if there is one.
    pub fn binds(&self, var: Var) -> (found: Option<usize>)
        ensures
            found is Some <==> self.deep_view().binds(var),
            found matches Some(offset) ==> offset == self.deep_view().offset_of(var),
            found matches Some(offset) ==> first_at(
                self.deep_view().variables(),
                var,
                offset as int,
            ),
    {
        let variables = self.variables();
        let found = position(&variables, var);
        proof {
            if let Some(offset) = found {
                lemma_first_at_unique(
                    self.deep_view().variables(),
                    var,
                    offset as int,
                    self.deep_view().offset_of(var),
                );
            }
        }
        found
    }

    /// The changes of the relation. Where the relation is an attribute,
    /// they are imported from `domain` into `nested`, and the handle covers
    /// the operator that reads them; where the domain has no such
    /// attribute, nothing is installed.
    pub fn tuples(self, nested: &mut Scope, domain: &Domain) -> (materialized: Result<
        (Vec<Update>, ShutdownHandle),
        CompileError,
    >)
        ensures
            match self.deep_view().tuples(domain.deep_view()) {
                Ok(expected) => {
                    &&& materialized matches Ok(pair)
                    &&& pair.0.deep_view() == expected.rows
                    &&& installed(
                        old(nested).deep_view(),
                        final(nested).deep_view(),
                        pair.1.covers(),
                        expected.imports,
                    )
                },
                Err(failure) => {
                    &&& materialized matches Err(error)
                    &&& error.deep_view() == failure
                    &&& final(nested).deep_view() == old(nested).deep_view()
                },
            },
    {
        match self {
            Implemented::Attribute(binding) => {
                match domain.import_propose(&binding.source_attribute, nested) {
                    None => Err(CompileError::MissingAttribute(binding.source_attribute)),
                    Some((e_v, shutdown_propose)) => {
                        let ghost expected = proposals(
                            trace_of(domain.deep_view(), binding.source_attribute@),
                        ).map_values(|proposal: ProposalModel| pair_row(proposal));
                        let mut tuples: Vec<Update> = Vec::new();
                        let n = e_v.len();
                        let mut i: usize = 0;
                        while i < n
                            invariant
                                n == e_v@.len(),
                                i <= n,
                                expected == e_v.deep_view().map_values(
                                    |proposal: ProposalModel| pair_row(proposal),
                                ),
                                tuples.deep_view() == expected.take(i as int),
                            decreases n - i,
                        {
                            let proposal = &e_v[i];
                            let mut tuple: Vec<Value> = Vec::new();
                            tuple.push(proposal.e.clone());
                            tuple.push(proposal.v.clone());
                            tuples.push(
                                Update { tuple, time: proposal.time, diff: proposal.diff },
                            );
                            proof {
                                assert(tuple.deep_view() =~= seq![
                                    proposal.e.deep_view(),
                                    proposal.v.deep_view(),
                                ]);
                                assert(tuples.deep_view() =~= expected.take(i as int).push(
                                    expected[i as int],
                                ));
                                assert(expected.take(i + 1) =~= expected.take(i as int).push(
                                    expected[i as int],
                                ));
                            }
                            i += 1;
                        }
                        let handle = ShutdownHandle::from_button(shutdown_propose);
                        proof {
                            assert(expected.take(n as int) =~= expected);
                            let imports = seq![propose_label(binding.source_attribute@)];
                            assert(imports.map_values(|label: Seq<char>| live(label)) =~= seq![
                                live(propose_label(binding.source_attribute@)),
                            ]);
                            assert(old(nested).deep_view() + seq![
                                live(propose_label(binding.source_attribute@)),
                            ] =~= old(nested).deep_view().push(
                                live(propose_label(binding.source_attribute@)),
                            ));
                            assert(handle.covers() =~= positions(
                                old(nested).deep_view().len() as int,
                                1,
                            ));
                        }
                        Ok((tuples, handle))
                    },
                }
            },
            Implemented::Collection(relation) => {
                let handle = ShutdownHandle::empty();
                proof {
                    let imports = Seq::<Seq<char>>::empty();
                    assert(imports.map_values(|label: Seq<char>| live(label)) =~= Seq::<
                        ResourceModel,
                    >::empty());
                    assert(old(nested).deep_view() + Seq::<ResourceModel>::empty()
                        =~= old(nested).deep_view());
                    assert(handle.covers() =~= positions(old(nested).deep_view().len() as int, 0));
                }
                Ok((relation.tuples, handle))
            },
        }
    }
}

} // verus!
