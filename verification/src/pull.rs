use crate::domain::{
    known, proposals, propose_label, trace_of, Domain, Proposal, ProposalModel, TraceModel,
};
use crate::error::{CompileError, Failure};
use crate::plan::{
    compiled_as, lemma_installed_one, lemma_installed_twice, lemma_nothing_installed, Compiled,
    Dependencies, Implementable, VariableMap,
};
use crate::relation::{
    installed, CollectionRelation, Implemented, Materialized, RelationModel, Update, UpdateModel,
};
use crate::shutdown::{Scope, ShutdownHandle};
use crate::timestamp::{least_upper_bound, Time};
use crate::value::{Aid, Value, ValueModel, Var};
use vstd::prelude::*;

verus! {

/// A plan stage for extracting all matching [e a v] tuples for a
/// given set of attributes and an input relation specifying entities.
#[derive(Debug, PartialEq, Eq, PartialOrd, Ord, Hash)]
pub struct PullLevel<P: Implementable> {
    /// The variables under which the result is known.
    pub variables: Vec<Var>,
    /// Plan for the input relation.
    pub plan: Box<P>,
    /// Eid variable.
    pub pull_variable: Var,
    /// Attributes to pull for the input entities.
    pub pull_attributes: Vec<Aid>,
    /// Attribute names to distinguish plans of the same
    /// length. Useful to feed into a nested hash-map directly.
    pub path_attributes: Vec<Aid>,
    /// Whether an entity may have more than one value of a pulled
    /// attribute.
    pub cardinality_many: bool,
}

/// A plan stage for pull queries split into individual paths. So
/// `[:parent/name {:parent/child [:child/name]}]` would be
/// represented as:
///
/// (?parent)                      <- [:parent/name] | no constraints
/// (?parent :parent/child ?child) <- [:child/name]  | [?parent :parent/child ?child]
#[derive(Debug, PartialEq, Eq, PartialOrd, Ord, Hash)]
pub struct Pull<P: Implementable> {
    /// The variables under which the result is known.
    pub variables: Vec<Var>,
    /// Individual paths to pull.
    pub paths: Vec<P>,
}

/// A plan stage for extracting all tuples for a given set of
/// attributes.
#[derive(Debug, PartialEq, Eq, PartialOrd, Ord, Hash)]
pub struct PullAll {
    /// The variables under which the result is known.
    pub variables: Vec<Var>,
    /// Attributes to pull for the input entities.
    pub pull_attributes: Vec<Aid>,
}

impl<P: Implementable + Clone> Clone for PullLevel<P> {
    fn clone(&self) -> (copy: Self) {
        PullLevel {
            variables: self.variables.clone(),
            plan: self.plan.clone(),
            pull_variable: self.pull_variable,
            pull_attributes: self.pull_attributes.clone(),
            path_attributes: self.path_attributes.clone(),
            cardinality_many: self.cardinality_many,
        }
    }
}

impl<P: Implementable + Clone> Clone for Pull<P> {
    fn clone(&self) -> (copy: Self) {
        Pull { variables: self.variables.clone(), paths: self.paths.clone() }
    }
}

impl Clone for PullAll {
    fn clone(&self) -> (copy: Self) {
        PullAll {
            variables: self.variables.clone(),
            pull_attributes: self.pull_attributes.clone(),
        }
    }
}

/// Whether a path of `values` cells can take `constants` labels: there is
/// nothing to interleave, or each label follows a cell and at most the last
/// cell has no label.
pub open spec fn fits(values: nat, constants: nat) -> bool {
    values == 0 || constants == 0 || constants <= values <= constants + 1
}

/// Whether a path of `values` cells can take `constants` labels.
pub fn interleaves(values: usize, constants: usize) -> (fit: bool)
    ensures
        fit == fits(values as nat, constants as nat),
{
    values == 0 || constants == 0 || (constants <= values && values - constants <= 1)
}

/// The cells `values` with the labels `constants` between them: cells at
/// the even positions, labels at the odd ones, each in its own order. With
/// no cell or no label, the cells as they are.
pub open spec fn interleaved(values: Seq<ValueModel>, constants: Seq<Seq<char>>) -> Seq<
    ValueModel,
> {
    if values.len() == 0 || constants.len() == 0 {
        values
    } else {
        Seq::new(
            values.len() + constants.len(),
            |i: int|
                if i % 2 == 0 {
                    values[i / 2]
                } else {
                    ValueModel::Aid(constants[i / 2])
                },
        )
    }
}

/// Merges the cells of a path with the labels of its levels into one flat
/// row: a cell first, then cells and labels in turn. With no cell or no
/// label the result is `values`.
pub fn interleave(values: &[Value], constants: &[Aid]) -> (result: Vec<Value>)
    requires
        fits(values@.len(), constants@.len()),
    ensures
        result.deep_view() == interleaved(values.deep_view(), constants.deep_view()),
        values@.len() == 0 || constants@.len() == 0 ==> result.deep_view()
            == values.deep_view(),
        values@.len() > 0 && constants@.len() > 0 ==> {
            &&& result@.len() == values@.len() + constants@.len()
            &&& forall|i: int|
                0 <= i < values@.len() ==> result.deep_view()[2 * i] == values.deep_view()[i]
            &&& forall|i: int|
                0 <= i < constants@.len() ==> result.deep_view()[2 * i + 1] == ValueModel::Aid(
                    constants.deep_view()[i],
                )
        },
{
    let labelled = values.len() > 0 && constants.len() > 0;
    let ghost full = interleaved(values.deep_view(), constants.deep_view());
    let mut result: Vec<Value> = Vec::new();
    let mut next_value: usize = 0;
    while next_value < values.len()
        invariant
            next_value <= values@.len(),
            fits(values@.len(), constants@.len()),
            labelled == (values@.len() > 0 && constants@.len() > 0),
            full == interleaved(values.deep_view(), constants.deep_view()),
            labelled ==> result@.len() == next_value + (if next_value <= constants@.len() {
                next_value as int
            } else {
                constants@.len() as int
            }),
            !labelled ==> result@.len() == next_value,
            forall|j: int| 0 <= j < result@.len() ==> result@[j].deep_view() == full[j],
        decreases values@.len() - next_value,
    {
        // at the even positions we take from the path
        result.push(values[next_value].clone());
        if labelled && next_value < constants.len() {
            // at the odd positions we interleave an attribute
            let a = constants[next_value].clone();
            result.push(Value::Aid(a));
        }
        next_value += 1;
    }
    assert(result.deep_view() =~= full);
    result
}

/// What of a `PullLevel` decides the rows that it makes.
pub struct LevelModel {
    pub variables: Seq<Var>,
    pub pull_variable: Var,
    pub pull_attributes: Seq<Seq<char>>,
    pub path_attributes: Seq<Seq<char>>,
    pub cardinality_many: bool,
}

impl LevelModel {
    /// Whether the last cell of a labelled path is left out of the rows
    /// with values: an entity has one value at most, so the rows of one
    /// parent need no child to tell them apart.
    pub open spec fn collapses(self) -> bool {
        !self.cardinality_many && self.path_attributes.len() > 0
    }

    /// Whether a path of `cells` cells can be labelled and, where the last
    /// cell is left out, has one.
    pub open spec fn admits(self, cells: nat) -> bool {
        &&& fits(cells, self.path_attributes.len())
        &&& self.collapses() ==> cells > 0
    }

    /// The labelled path that a row with a value starts with.
    pub open spec fn prefix(self, path: Seq<ValueModel>) -> Seq<ValueModel> {
        if self.collapses() {
            interleaved(path, self.path_attributes).drop_last()
        } else {
            interleaved(path, self.path_attributes)
        }
    }

    /// The row for the value `v` that the entity of `path` has of
    /// `attribute`.
    pub open spec fn value_row(
        self,
        path: Seq<ValueModel>,
        attribute: Seq<char>,
        v: ValueModel,
    ) -> Seq<ValueModel> {
        self.prefix(path).push(ValueModel::Aid(attribute)).push(v)
    }

    /// The row that says that the entity of `path` is there: the labelled
    /// path without its last cell, the marker `db__id`, and that cell.
    pub open spec fn presence_row(self, path: Seq<ValueModel>) -> Seq<ValueModel> {
        let labelled = interleaved(path, self.path_attributes);
        labelled.drop_last().push(ValueModel::Aid("db__id"@)).push(labelled.last())
    }
}

/// Whether `n` is a multiplicity that the machine can hold.
pub open spec fn fits_isize(n: int) -> bool {
    isize::MIN <= n <= isize::MAX
}

/// The change that the path `path` and the change `proposal` to
/// `attribute` give where the entity of the path is that of the change: the
/// row with the value, at the least time that is not before either, as
/// often as both together.
pub open spec fn matched(
    level: LevelModel,
    path: UpdateModel,
    attribute: Seq<char>,
    proposal: ProposalModel,
) -> UpdateModel {
    UpdateModel {
        tuple: level.value_row(path.tuple, attribute, proposal.v),
        time: path.time.join(proposal.time),
        diff: path.diff * proposal.diff,
    }
}

/// The changes that one path gives with the changes `e_v` to `attribute`:
/// one for each change to the entity in column `offset` of the path, in the
/// order of `e_v`.
pub open spec fn joined_path(
    level: LevelModel,
    offset: int,
    path: UpdateModel,
    attribute: Seq<char>,
    e_v: Seq<ProposalModel>,
) -> Seq<UpdateModel>
    decreases e_v.len(),
{
    if e_v.len() == 0 {
        Seq::empty()
    } else {
        let earlier = joined_path(level, offset, path, attribute, e_v.drop_last());
        if e_v.last().e == path.tuple[offset] {
            earlier.push(matched(level, path, attribute, e_v.last()))
        } else {
            earlier
        }
    }
}

/// The join of `paths` with the changes `e_v` to `attribute`, path by
/// path.
pub open spec fn joined(
    level: LevelModel,
    offset: int,
    paths: Seq<UpdateModel>,
    attribute: Seq<char>,
    e_v: Seq<ProposalModel>,
) -> Seq<UpdateModel>
    decreases paths.len(),
{
    if paths.len() == 0 {
        Seq::empty()
    } else {
        joined(level, offset, paths.drop_last(), attribute, e_v) + joined_path(
            level,
            offset,
            paths.last(),
            attribute,
            e_v,
        )
    }
}

/// Whether some path and some change to its entity are together there more
/// often than the machine can count.
pub open spec fn overflows(offset: int, paths: Seq<UpdateModel>, e_v: Seq<ProposalModel>) -> bool {
    exists|i: int, j: int|
        #![trigger paths[i], e_v[j]]
        0 <= i < paths.len() && 0 <= j < e_v.len() && e_v[j].e == paths[i].tuple[offset]
            && !fits_isize(paths[i].diff * e_v[j].diff)
}

/// Whether every path has the column `offset` and can be labelled.
pub open spec fn all_admitted(level: LevelModel, offset: int, paths: Seq<UpdateModel>) -> bool {
    forall|i: int|
        0 <= i < paths.len() ==> offset < (#[trigger] paths[i]).tuple.len() && level.admits(
            paths[i].tuple.len(),
        )
}

/// Whether every path can be labelled.
pub open spec fn all_fit(level: LevelModel, paths: Seq<UpdateModel>) -> bool {
    forall|i: int|
        0 <= i < paths.len() ==> fits(
            (#[trigger] paths[i]).tuple.len(),
            level.path_attributes.len(),
        )
}

/// A path with its labels, at the time and as often as the path.
pub open spec fn relabeled_path(level: LevelModel, path: UpdateModel) -> UpdateModel {
    UpdateModel {
        tuple: interleaved(path.tuple, level.path_attributes),
        time: path.time,
        diff: path.diff,
    }
}

/// Every path with its labels.
pub open spec fn relabeled(level: LevelModel, paths: Seq<UpdateModel>) -> Seq<UpdateModel> {
    paths.map_values(|path: UpdateModel| relabeled_path(level, path))
}

/// The row that says that the entity of `path` is there, at the time and
/// as often as the path.
pub open spec fn presence_of(level: LevelModel, path: UpdateModel) -> UpdateModel {
    UpdateModel { tuple: level.presence_row(path.tuple), time: path.time, diff: path.diff }
}

/// One presence row for each path, in the order of the paths.
pub open spec fn presence(level: LevelModel, paths: Seq<UpdateModel>) -> Seq<UpdateModel> {
    paths.map_values(|path: UpdateModel| presence_of(level, path))
}

/// The joins of `paths` with each of `attributes`, one after the other, and
/// the names of the operators that read those attributes. The first
/// attribute that the domain lacks, or whose join the machine cannot
/// count, decides the failure.
pub open spec fn pulled_streams(
    level: LevelModel,
    offset: int,
    paths: Seq<UpdateModel>,
    domain: Seq<TraceModel>,
    attributes: Seq<Seq<char>>,
) -> Result<Materialized, Failure>
    decreases attributes.len(),
{
    if attributes.len() == 0 {
        Ok(Materialized { rows: Seq::empty(), imports: Seq::empty() })
    } else {
        match pulled_streams(level, offset, paths, domain, attributes.drop_last()) {
            Err(failure) => Err(failure),
            Ok(earlier) => {
                let attribute = attributes.last();
                if !known(domain, attribute) {
                    Err(Failure::MissingAttribute(attribute))
                } else if overflows(offset, paths, proposals(trace_of(domain, attribute))) {
                    Err(Failure::DiffOverflow)
                } else {
                    Ok(
                        Materialized {
                            rows: earlier.rows + joined(
                                level,
                                offset,
                                paths,
                                attribute,
                                proposals(trace_of(domain, attribute)),
                            ),
                            imports: earlier.imports.push(propose_label(attribute)),
                        },
                    )
                }
            },
        }
    }
}

/// What a level makes of the relation `input` over the attributes
/// `domain`.
///
/// The input has to bind the variable of the entities. With nothing to
/// pull and no labels the input is handed on as it is; with nothing to
/// pull, its rows are labelled. Else each pulled attribute is joined with
/// the rows, and where the last cell is left out of the rows with values,
/// one presence row for each input row follows them.
pub open spec fn pulled(level: LevelModel, input: RelationModel, domain: Seq<TraceModel>) -> Result<
    Compiled,
    Failure,
> {
    if !input.binds(level.pull_variable) {
        Err(Failure::UnboundVariable(level.pull_variable))
    } else if level.pull_attributes.len() == 0 && level.path_attributes.len() == 0 {
        Ok(Compiled { relation: input, imports: Seq::empty() })
    } else {
        match input.tuples(domain) {
            Err(failure) => Err(failure),
            Ok(paths) => if level.pull_attributes.len() == 0 {
                if !all_fit(level, paths.rows) {
                    Err(Failure::MalformedPath)
                } else {
                    Ok(
                        Compiled {
                            relation: RelationModel::Collection {
                                variables: level.variables,
                                tuples: relabeled(level, paths.rows),
                            },
                            imports: paths.imports,
                        },
                    )
                }
            } else {
                let offset = input.offset_of(level.pull_variable);
                if !all_admitted(level, offset, paths.rows) {
                    Err(Failure::MalformedPath)
                } else {
                    match pulled_streams(level, offset, paths.rows, domain, level.pull_attributes) {
                        Err(failure) => Err(failure),
                        Ok(streams) => Ok(
                            Compiled {
                                relation: RelationModel::Collection {
                                    variables: Seq::empty(),
                                    tuples: if level.collapses() {
                                        streams.rows + presence(level, paths.rows)
                                    } else {
                                        streams.rows
                                    },
                                },
                                imports: paths.imports + streams.imports,
                            },
                        ),
                    }
                }
            },
        }
    }
}

/// A failure on the way decides the whole: where the joins with the first
/// `k` attributes fail, the joins with all of them fail in the same way.
pub proof fn lemma_streams_fail_early(
    level: LevelModel,
    offset: int,
    paths: Seq<UpdateModel>,
    domain: Seq<TraceModel>,
    attributes: Seq<Seq<char>>,
    k: int,
)
    requires
        0 <= k <= attributes.len(),
        pulled_streams(level, offset, paths, domain, attributes.take(k)) is Err,
    ensures
        pulled_streams(level, offset, paths, domain, attributes) == pulled_streams(
            level,
            offset,
            paths,
            domain,
            attributes.take(k),
        ),
    decreases attributes.len(),
{
    if k == attributes.len() {
        assert(attributes.take(k) =~= attributes);
    } else {
        assert(attributes.drop_last().take(k) =~= attributes.take(k));
        lemma_streams_fail_early(level, offset, paths, domain, attributes.drop_last(), k);
    }
}

impl<P: Implementable> PullLevel<P> {
    /// What of this stage decides the rows that it makes.
    pub open spec fn shape(&self) -> LevelModel {
        LevelModel {
            variables: self.variables@,
            pull_variable: self.pull_variable,
            pull_attributes: self.pull_attributes.deep_view(),
            path_attributes: self.path_attributes.deep_view(),
            cardinality_many: self.cardinality_many,
        }
    }

    /// Whether this stage leaves the last cell of a labelled path out of
    /// its rows with values, and emits a presence row for each path
    /// instead: an entity has one value at most, and the path has labels.
    pub fn collapses(&self) -> (collapses: bool)
        ensures
            collapses == self.shape().collapses(),
    {
        !(self.path_attributes.is_empty() || self.cardinality_many)
    }

    /// Whether a path of `cells` cells can be made into the rows of this
    /// stage: it can be labelled and, where its last cell is left out of
    /// the rows with values, has one.
    pub fn admits(&self, cells: usize) -> (admitted: bool)
        ensures
            admitted == self.shape().admits(cells as nat),
    {
        interleaves(cells, self.path_attributes.len()) && (!self.collapses() || cells > 0)
    }

    /// The row for the value `v` that the entity of `path` has of
    /// `attribute`: the labelled path, without its last cell where an
    /// entity has one value at most and the path has labels, then the
    /// attribute and the value.
    pub fn value_row(&self, path: &[Value], attribute: &Aid, v: &Value) -> (row: Vec<Value>)
        requires
            self.shape().admits(path@.len()),
        ensures
            row.deep_view() == self.shape().value_row(
                path.deep_view(),
                attribute@,
                v.deep_view(),
            ),
            self.shape().collapses() ==> row@.len() == interleaved(
                path.deep_view(),
                self.shape().path_attributes,
            ).len() - 1 + 2,
            !self.shape().collapses() ==> row@.len() == interleaved(
                path.deep_view(),
                self.shape().path_attributes,
            ).len() + 2,
    {
        let path_attributes = self.path_attributes.as_slice();
        assert(path_attributes.deep_view() =~= self.path_attributes.deep_view());
        let mut result = interleave(path, path_attributes);
        if self.collapses() {
            // Cardinality single means we don't need to distinguish child
            // ids (there can only be one).
            let ghost labelled = result.deep_view();
            result.pop();
            assert(result.deep_view() =~= labelled.drop_last());
        }
        let ghost prefix = result.deep_view();
        result.push(Value::Aid(attribute.clone()));
        result.push(v.clone());
        assert(result.deep_view() =~= prefix.push(ValueModel::Aid(attribute@)).push(
            v.deep_view(),
        ));
        result
    }

    /// The row that says that the entity of `path` is there, whether or
    /// not it has a value of any pulled attribute.
    pub fn presence_row(&self, path: &[Value]) -> (row: Vec<Value>)
        requires
            self.shape().admits(path@.len()),
            self.shape().collapses(),
        ensures
            row.deep_view() == self.shape().presence_row(path.deep_view()),
    {
        let path_attributes = self.path_attributes.as_slice();
        assert(path_attributes.deep_view() =~= self.path_attributes.deep_view());
        let mut result = interleave(path, path_attributes);
        let ghost labelled = result.deep_view();
        let eid = result.pop().unwrap();
        assert(result.deep_view() =~= labelled.drop_last());
        let ghost prefix = result.deep_view();
        result.push(Value::Aid("db__id".to_owned()));
        result.push(eid);
        assert(result.deep_view() =~= prefix.push(ValueModel::Aid("db__id"@)).push(
            labelled.last(),
        ));
        result
    }
}

impl<P: Implementable> PullLevel<P> {
    /// Whether every path can be labelled.
    fn paths_fit(&self, paths: &Vec<Update>) -> (fit: bool)
        ensures
            fit == all_fit(self.shape(), paths.deep_view()),
    {
        let labels = self.path_attributes.len();
        let n = paths.len();
        let mut i: usize = 0;
        while i < n
            invariant
                n == paths@.len(),
                i <= n,
                labels == self.shape().path_attributes.len(),
                forall|k: int|
                    0 <= k < i ==> fits(
                        (#[trigger] paths.deep_view()[k]).tuple.len(),
                        labels as nat,
                    ),
            decreases n - i,
        {
            if !interleaves(paths[i].tuple.len(), labels) {
                assert(!fits(paths.deep_view()[i as int].tuple.len(), labels as nat));
                return false;
            }
            i += 1;
        }
        true
    }

    /// Whether every path has the column `offset` and can be labelled.
    fn paths_admitted(&self, offset: usize, paths: &Vec<Update>) -> (admitted: bool)
        ensures
            admitted == all_admitted(self.shape(), offset as int, paths.deep_view()),
    {
        let labels = self.path_attributes.len();
        let n = paths.len();
        let mut i: usize = 0;
        while i < n
            invariant
                n == paths@.len(),
                i <= n,
                labels == self.shape().path_attributes.len(),
                forall|k: int|
                    0 <= k < i ==> offset < (#[trigger] paths.deep_view()[k]).tuple.len()
                        && self.shape().admits(paths.deep_view()[k].tuple.len()),
            decreases n - i,
        {
            let cells = paths[i].tuple.len();
            if !(offset < cells && self.admits(cells)) {
                assert(!(offset < paths.deep_view()[i as int].tuple.len() && self.shape().admits(
                    paths.deep_view()[i as int].tuple.len(),
                )));
                return false;
            }
            i += 1;
        }
        true
    }

    /// Every path with its labels.
    fn relabel(&self, paths: &Vec<Update>) -> (tuples: Vec<Update>)
        requires
            all_fit(self.shape(), paths.deep_view()),
        ensures
            tuples.deep_view() == relabeled(self.shape(), paths.deep_view()),
    {
        let ghost all = relabeled(self.shape(), paths.deep_view());
        let mut tuples: Vec<Update> = Vec::new();
        let n = paths.len();
        let mut i: usize = 0;
        while i < n
            invariant
                n == paths@.len(),
                i <= n,
                all_fit(self.shape(), paths.deep_view()),
                all == relabeled(self.shape(), paths.deep_view()),
                tuples.deep_view() == all.take(i as int),
            decreases n - i,
        {
            let path = &paths[i];
            assert(fits(paths.deep_view()[i as int].tuple.len(), self.shape().path_attributes.len()));
            let cells = path.tuple.as_slice();
            let labels = self.path_attributes.as_slice();
            assert(cells.deep_view() =~= path.tuple.deep_view());
            assert(labels.deep_view() =~= self.path_attributes.deep_view());
            let tuple = interleave(cells, labels);
            tuples.push(Update { tuple, time: path.time, diff: path.diff });
            proof {
                assert(tuples.deep_view() =~= all.take(i as int).push(all[i as int]));
                assert(all.take(i + 1) =~= all.take(i as int).push(all[i as int]));
            }
            i += 1;
        }
        proof {
            assert(all.take(n as int) =~= all);
        }
        tuples
    }

    /// One presence row for each path.
    fn db_ids(&self, paths: &Vec<Update>) -> (tuples: Vec<Update>)
        requires
            self.shape().collapses(),
            forall|i: int|
                0 <= i < paths@.len() ==> self.shape().admits(
                    (#[trigger] paths.deep_view()[i]).tuple.len(),
                ),
        ensures
            tuples.deep_view() == presence(self.shape(), paths.deep_view()),
    {
        let ghost all = presence(self.shape(), paths.deep_view());
        let mut tuples: Vec<Update> = Vec::new();
        let n = paths.len();
        let mut i: usize = 0;
        while i < n
            invariant
                n == paths@.len(),
                i <= n,
                self.shape().collapses(),
                forall|k: int|
                    0 <= k < paths@.len() ==> self.shape().admits(
                        (#[trigger] paths.deep_view()[k]).tuple.len(),
                    ),
                all == presence(self.shape(), paths.deep_view()),
                tuples.deep_view() == all.take(i as int),
            decreases n - i,
        {
            let path = &paths[i];
            assert(self.shape().admits(paths.deep_view()[i as int].tuple.len()));
            let cells = path.tuple.as_slice();
            assert(cells.deep_view() =~= path.tuple.deep_view());
            let tuple = self.presence_row(cells);
            tuples.push(Update { tuple, time: path.time, diff: path.diff });
            proof {
                assert(tuples.deep_view() =~= all.take(i as int).push(all[i as int]));
                assert(all.take(i + 1) =~= all.take(i as int).push(all[i as int]));
            }
            i += 1;
        }
        proof {
            assert(all.take(n as int) =~= all);
        }
        tuples
    }

    /// The join of `paths` with the changes `e_v` to `attribute`, on the
    /// entity in column `offset` of each path.
    fn join_paths(
        &self,
        offset: usize,
        paths: &Vec<Update>,
        attribute: &Aid,
        e_v: &Vec<Proposal>,
    ) -> (stream: Result<Vec<Update>, CompileError>)
        requires
            all_admitted(self.shape(), offset as int, paths.deep_view()),
        ensures
            overflows(offset as int, paths.deep_view(), e_v.deep_view()) ==> stream
                == Err::<Vec<Update>, CompileError>(CompileError::DiffOverflow),
            !overflows(offset as int, paths.deep_view(), e_v.deep_view()) ==> {
                &&& stream matches Ok(tuples)
                &&& tuples.deep_view() == joined(
                    self.shape(),
                    offset as int,
                    paths.deep_view(),
                    attribute@,
                    e_v.deep_view(),
                )
            },
    {
        let ghost level = self.shape();
        let ghost ps = paths.deep_view();
        let ghost es = e_v.deep_view();
        let mut tuples: Vec<Update> = Vec::new();
        let n = paths.len();
        let m = e_v.len();
        let mut i: usize = 0;
        while i < n
            invariant
                n == paths@.len(),
                m == e_v@.len(),
                i <= n,
                level == self.shape(),
                ps == paths.deep_view(),
                es == e_v.deep_view(),
                all_admitted(level, offset as int, ps),
                tuples.deep_view() == joined(level, offset as int, ps.take(i as int), attribute@, es),
                forall|a: int, b: int|
                    #![trigger ps[a], es[b]]
                    0 <= a < i && 0 <= b < m && es[b].e == ps[a].tuple[offset as int]
                        ==> fits_isize(ps[a].diff * es[b].diff),
            decreases n - i,
        {
            let path = &paths[i];
            assert(offset < ps[i as int].tuple.len() && level.admits(ps[i as int].tuple.len()));
            let cells = path.tuple.as_slice();
            assert(cells.deep_view() =~= path.tuple.deep_view());
            let ghost before = tuples.deep_view();
            let mut j: usize = 0;
            while j < m
                invariant
                    n == paths@.len(),
                    m == e_v@.len(),
                    i < n,
                    j <= m,
                    level == self.shape(),
                    ps == paths.deep_view(),
                    es == e_v.deep_view(),
                    path == &paths@[i as int],
                    cells.deep_view() == ps[i as int].tuple,
                    cells@.len() == ps[i as int].tuple.len(),
                    offset < ps[i as int].tuple.len(),
                    level.admits(ps[i as int].tuple.len()),
                    tuples.deep_view() == before + joined_path(
                        level,
                        offset as int,
                        ps[i as int],
                        attribute@,
                        es.take(j as int),
                    ),
                    forall|b: int|
                        #![trigger es[b]]
                        0 <= b < j && es[b].e == ps[i as int].tuple[offset as int] ==> fits_isize(
                            ps[i as int].diff * es[b].diff,
                        ),
                decreases m - j,
            {
                let proposal = &e_v[j];
                proof {
                    assert(es.take(j + 1).drop_last() =~= es.take(j as int));
                    assert(es.take(j + 1).last() == es[j as int]);
                }
                if proposal.e == path.tuple[offset] {
                    match path.diff.checked_mul(proposal.diff) {
                        None => {
                            proof {
                                assert(!fits_isize(ps[i as int].diff * es[j as int].diff));
                                assert(es[j as int].e == ps[i as int].tuple[offset as int]);
                            }
                            return Err(CompileError::DiffOverflow);
                        },
                        Some(diff) => {
                            // Each result tuple must hold the interleaved
                            // path, the attribute, and the value,
                            // i.e. [?p "parent/child" ?c ?a ?v]
                            let tuple = self.value_row(cells, attribute, &proposal.v);
                            let time = least_upper_bound(path.time, proposal.time);
                            let ghost earlier = tuples.deep_view();
                            tuples.push(Update { tuple, time, diff });
                            proof {
                                let row = matched(level, ps[i as int], attribute@, es[j as int]);
                                assert(tuples.deep_view() =~= earlier.push(row));
                                assert(earlier.push(row) =~= before + joined_path(
                                    level,
                                    offset as int,
                                    ps[i as int],
                                    attribute@,
                                    es.take(j as int),
                                ).push(row));
                            }
                        },
                    }
                }
                j += 1;
            }
            proof {
                assert(es.take(m as int) =~= es);
                assert(ps.take(i + 1).drop_last() =~= ps.take(i as int));
                assert(ps.take(i + 1).last() == ps[i as int]);
            }
            i += 1;
        }
        proof {
            assert(ps.take(n as int) =~= ps);
        }
        Ok(tuples)
    }
}

impl<P: Implementable> PullLevel<P> {
    /// Pulls the attributes of this stage for the entities of `input`, the
    /// relation that the plan of the stage compiled to. The handle covers
    /// what this step installs in `nested`.
    #[verifier::loop_isolation(false)]
    pub fn pull_from(&self, input: Implemented, nested: &mut Scope, domain: &Domain) -> (pulled:
        Result<(Implemented, ShutdownHandle), CompileError>)
        ensures
            compiled_as(
                old(nested).deep_view(),
                final(nested).deep_view(),
                pulled,
                self::pulled(self.shape(), input.deep_view(), domain.deep_view()),
            ),
    {
        let ghost level = self.shape();
        let ghost before = nested.deep_view();
        let ghost traces = domain.deep_view();
        let mark = nested.len();

        let e_offset = match input.binds(self.pull_variable) {
            None => {
                return Err(CompileError::UnboundVariable(self.pull_variable));
            },
            Some(offset) => offset,
        };

        if self.pull_attributes.is_empty() && self.path_attributes.is_empty() {
            // nothing to pull
            proof {
                lemma_nothing_installed(before);
            }
            return Ok((input, ShutdownHandle::empty()));
        }
        let ghost source = input.deep_view().tuples(traces);
        let (paths, shutdown) = match input.tuples(nested, domain) {
            Err(error) => {
                return Err(error);
            },
            Ok(materialized) => materialized,
        };
        let mut shutdown_handle = shutdown;
        let ghost ps = paths.deep_view();
        let ghost imports = source->Ok_0.imports;

        if self.pull_attributes.is_empty() {
            if !self.paths_fit(&paths) {
                nested.rewind(mark);
                assert(nested.deep_view() =~= before);
                return Err(CompileError::MalformedPath);
            }
            let tuples = self.relabel(&paths);
            let relation = CollectionRelation { variables: self.variables.clone(), tuples };
            return Ok((Implemented::Collection(relation), shutdown_handle));
        }
        // Arrange input entities by eid.

        if !self.paths_admitted(e_offset, &paths) {
            nested.rewind(mark);
            assert(nested.deep_view() =~= before);
            return Err(CompileError::MalformedPath);
        }
        let mut tuples: Vec<Update> = Vec::new();
        let ghost attributes = level.pull_attributes;
        let n = self.pull_attributes.len();
        let mut k: usize = 0;
        while k < n
            invariant
                n == self.pull_attributes@.len(),
                k <= n,
                level == self.shape(),
                attributes == level.pull_attributes,
                traces == domain.deep_view(),
                ps == paths.deep_view(),
                mark == before.len(),
                all_admitted(level, e_offset as int, ps),
                pulled_streams(level, e_offset as int, ps, traces, attributes.take(k as int))
                    matches Ok(streams) && streams.rows == tuples.deep_view() && installed(
                    before,
                    nested.deep_view(),
                    shutdown_handle.covers(),
                    imports + streams.imports,
                ),
            decreases n - k,
        {
            let a = &self.pull_attributes[k];
            let ghost earlier = pulled_streams(
                level,
                e_offset as int,
                ps,
                traces,
                attributes.take(k as int),
            )->Ok_0;
            let ghost between = nested.deep_view();
            let ghost covered = shutdown_handle.covers();
            proof {
                assert(attributes.take(k + 1).drop_last() =~= attributes.take(k as int));
                assert(attributes.take(k + 1).last() == a@);
            }
            match domain.import_propose(a, nested) {
                None => {
                    proof {
                        lemma_streams_fail_early(
                            level,
                            e_offset as int,
                            ps,
                            traces,
                            attributes,
                            k + 1,
                        );
                    }
                    nested.rewind(mark);
                    assert(nested.deep_view() =~= before);
                    return Err(CompileError::MissingAttribute(a.clone()));
                },
                Some((e_v, shutdown_propose)) => {
                    shutdown_handle.add_button(shutdown_propose);
                    match self.join_paths(e_offset, &paths, a, &e_v) {
                        Err(error) => {
                            proof {
                                lemma_streams_fail_early(
                                    level,
                                    e_offset as int,
                                    ps,
                                    traces,
                                    attributes,
                                    k + 1,
                                );
                            }
                            nested.rewind(mark);
                            assert(nested.deep_view() =~= before);
                            return Err(error);
                        },
                        Ok(stream) => {
                            let ghost rows = stream.deep_view();
                            let ghost gathered = tuples.deep_view();
                            let mut stream = stream;
                            tuples.append(&mut stream);
                            proof {
                                assert(tuples.deep_view() =~= gathered + rows);
                                lemma_installed_one(
                                    between,
                                    shutdown_propose.resource,
                                    propose_label(a@),
                                );
                                lemma_installed_twice(
                                    before,
                                    between,
                                    nested.deep_view(),
                                    covered,
                                    seq![shutdown_propose.resource],
                                    imports + earlier.imports,
                                    seq![propose_label(a@)],
                                );
                                assert(covered + seq![shutdown_propose.resource]
                                    =~= shutdown_handle.covers());
                                assert((imports + earlier.imports) + seq![propose_label(a@)]
                                    =~= imports + earlier.imports.push(propose_label(a@)));
                            }
                        },
                    }
                },
            }
            k += 1;
        }
        proof {
            assert(attributes.take(n as int) =~= attributes);
        }

        if self.collapses() {
            let ghost gathered = tuples.deep_view();
            let mut db_ids = self.db_ids(&paths);
            let ghost rows = db_ids.deep_view();
            tuples.append(&mut db_ids);
            assert(tuples.deep_view() =~= gathered + rows);
        }
        let relation = CollectionRelation { variables: Vec::new(), tuples };
        Ok((Implemented::Collection(relation), shutdown_handle))
    }
}

impl<P: Implementable> Implementable for PullLevel<P> {
    open spec fn requirements(&self) -> Seq<Seq<char>> {
        self.plan.requirements() + self.pull_attributes.deep_view()
    }

    fn dependencies(&self) -> (dependencies: Dependencies) {
        let mut attribute_dependencies = Dependencies::none();
        let n = self.pull_attributes.len();
        let mut k: usize = 0;
        while k < n
            invariant
                n == self.pull_attributes@.len(),
                k <= n,
                attribute_dependencies.deep_view() == self.pull_attributes.deep_view().take(
                    k as int,
                ),
            decreases n - k,
        {
            attribute_dependencies = attribute_dependencies.merge(
                Dependencies::attribute(self.pull_attributes[k].clone()),
            );
            proof {
                let all = self.pull_attributes.deep_view();
                assert(all.take(k + 1) =~= all.take(k as int) + seq![all[k as int]]);
            }
            k += 1;
        }
        proof {
            let all = self.pull_attributes.deep_view();
            assert(all.take(n as int) =~= all);
        }
        self.plan.dependencies().merge(attribute_dependencies)
    }

    open spec fn outcome(
        &self,
        domain: Seq<TraceModel>,
        local: Seq<(Seq<char>, Seq<UpdateModel>)>,
    ) -> Result<Compiled, Failure> {
        match self.plan.outcome(domain, local) {
            Err(failure) => Err(failure),
            Ok(input) => match pulled(self.shape(), input.relation, domain) {
                Err(failure) => Err(failure),
                Ok(compiled) => Ok(
                    Compiled {
                        relation: compiled.relation,
                        imports: input.imports + compiled.imports,
                    },
                ),
            },
        }
    }

    fn implement(
        &self,
        nested: &mut Scope,
        domain: &Domain,
        local_arrangements: &VariableMap,
    ) -> (implemented: Result<(Implemented, ShutdownHandle), CompileError>) {
        let ghost before = nested.deep_view();
        let mark = nested.len();
        let (input, shutdown) = match self.plan.implement(nested, domain, local_arrangements) {
            Err(error) => {
                return Err(error);
            },
            Ok(compiled) => compiled,
        };
        let mut shutdown_handle = shutdown;
        let ghost between = nested.deep_view();
        let ghost covered = shutdown_handle.covers();
        let ghost input_model = self.plan.outcome(
            domain.deep_view(),
            local_arrangements.deep_view(),
        )->Ok_0;
        match self.pull_from(input, nested, domain) {
            Err(error) => {
                nested.rewind(mark);
                assert(nested.deep_view() =~= before);
                Err(error)
            },
            Ok((relation, shutdown)) => {
                let ghost compiled = pulled(
                    self.shape(),
                    input_model.relation,
                    domain.deep_view(),
                )->Ok_0;
                proof {
                    lemma_installed_twice(
                        before,
                        between,
                        nested.deep_view(),
                        covered,
                        shutdown.covers(),
                        input_model.imports,
                        compiled.imports,
                    );
                }
                shutdown_handle.merge_with(shutdown);
                Ok((relation, shutdown_handle))
            },
        }
    }
}

/// The rows of `paths`, each compiled on its own and its rows read, one
/// path after the other, and the names of the operators that this
/// installs. The first path that fails decides the failure.
pub open spec fn pulled_paths<P: Implementable>(
    paths: Seq<P>,
    domain: Seq<TraceModel>,
    local: Seq<(Seq<char>, Seq<UpdateModel>)>,
) -> Result<Materialized, Failure>
    decreases paths.len(),
{
    if paths.len() == 0 {
        Ok(Materialized { rows: Seq::empty(), imports: Seq::empty() })
    } else {
        match pulled_paths(paths.drop_last(), domain, local) {
            Err(failure) => Err(failure),
            Ok(earlier) => match paths.last().outcome(domain, local) {
                Err(failure) => Err(failure),
                Ok(compiled) => match compiled.relation.tuples(domain) {
                    Err(failure) => Err(failure),
                    Ok(path) => Ok(
                        Materialized {
                            rows: earlier.rows + path.rows,
                            imports: earlier.imports + (compiled.imports + path.imports),
                        },
                    ),
                },
            },
        }
    }
}

/// Where the first `k` paths fail, all of them fail in the same way.
pub proof fn lemma_paths_fail_early<P: Implementable>(
    paths: Seq<P>,
    domain: Seq<TraceModel>,
    local: Seq<(Seq<char>, Seq<UpdateModel>)>,
    k: int,
)
    requires
        0 <= k <= paths.len(),
        pulled_paths(paths.take(k), domain, local) is Err,
    ensures
        pulled_paths(paths, domain, local) == pulled_paths(paths.take(k), domain, local),
    decreases paths.len(),
{
    if k == paths.len() {
        assert(paths.take(k) =~= paths);
    } else {
        assert(paths.drop_last().take(k) =~= paths.take(k));
        lemma_paths_fail_early(paths.drop_last(), domain, local, k);
    }
}

impl<P: Implementable> Implementable for Pull<P> {
    open spec fn requirements(&self) -> Seq<Seq<char>> {
        self.paths@.map_values(|path: P| path.requirements()).flatten()
    }

    fn dependencies(&self) -> (dependencies: Dependencies) {
        let ghost each = self.paths@.map_values(|path: P| path.requirements());
        let mut dependencies = Dependencies::none();
        let n = self.paths.len();
        let mut k: usize = 0;
        while k < n
            invariant
                n == self.paths@.len(),
                k <= n,
                each == self.paths@.map_values(|path: P| path.requirements()),
                dependencies.deep_view() == each.take(k as int).flatten(),
            decreases n - k,
        {
            dependencies = dependencies.merge(self.paths[k].dependencies());
            proof {
                assert(each.take(k + 1) =~= each.take(k as int).push(each[k as int]));
                each.take(k as int).lemma_flatten_push(each[k as int]);
            }
            k += 1;
        }
        proof {
            assert(each.take(n as int) =~= each);
        }
        dependencies
    }

    open spec fn outcome(
        &self,
        domain: Seq<TraceModel>,
        local: Seq<(Seq<char>, Seq<UpdateModel>)>,
    ) -> Result<Compiled, Failure> {
        match pulled_paths(self.paths@, domain, local) {
            Err(failure) => Err(failure),
            Ok(streams) => Ok(
                Compiled {
                    relation: RelationModel::Collection {
                        variables: self.variables@,
                        tuples: streams.rows,
                    },
                    imports: streams.imports,
                },
            ),
        }
    }

    #[verifier::loop_isolation(false)]
    fn implement(
        &self,
        nested: &mut Scope,
        domain: &Domain,
        local_arrangements: &VariableMap,
    ) -> (implemented: Result<(Implemented, ShutdownHandle), CompileError>) {
        let ghost before = nested.deep_view();
        let ghost traces = domain.deep_view();
        let ghost local = local_arrangements.deep_view();
        let mark = nested.len();
        let mut shutdown_handle = ShutdownHandle::empty();
        let mut tuples: Vec<Update> = Vec::new();
        proof {
            lemma_nothing_installed(before);
        }
        let n = self.paths.len();
        let mut k: usize = 0;
        while k < n
            invariant
                n == self.paths@.len(),
                k <= n,
                pulled_paths(self.paths@.take(k as int), traces, local) matches Ok(streams)
                    && streams.rows == tuples.deep_view() && installed(
                    before,
                    nested.deep_view(),
                    shutdown_handle.covers(),
                    streams.imports,
                ),
            decreases n - k,
        {
            let path = &self.paths[k];
            let ghost earlier = pulled_paths(self.paths@.take(k as int), traces, local)->Ok_0;
            let ghost scope_0 = nested.deep_view();
            let ghost covers_0 = shutdown_handle.covers();
            proof {
                assert(self.paths@.take(k + 1).drop_last() =~= self.paths@.take(k as int));
                assert(self.paths@.take(k + 1).last() == self.paths@[k as int]);
            }
            let ghost compiled = path.outcome(traces, local);
            let relation = match path.implement(nested, domain, local_arrangements) {
                Err(error) => {
                    proof {
                        lemma_paths_fail_early(self.paths@, traces, local, k + 1);
                    }
                    nested.rewind(mark);
                    assert(nested.deep_view() =~= before);
                    return Err(error);
                },
                Ok((relation, shutdown)) => {
                    proof {
                        lemma_installed_twice(
                            before,
                            scope_0,
                            nested.deep_view(),
                            covers_0,
                            shutdown.covers(),
                            earlier.imports,
                            compiled->Ok_0.imports,
                        );
                    }
                    shutdown_handle.merge_with(shutdown);
                    relation
                },
            };
            let ghost compiled = compiled->Ok_0;
            let ghost scope_1 = nested.deep_view();
            let ghost covers_1 = shutdown_handle.covers();
            let ghost read = compiled.relation.tuples(traces);
            let stream = match relation.tuples(nested, domain) {
                Err(error) => {
                    proof {
                        lemma_paths_fail_early(self.paths@, traces, local, k + 1);
                    }
                    nested.rewind(mark);
                    assert(nested.deep_view() =~= before);
                    return Err(error);
                },
                Ok((tuples, shutdown)) => {
                    proof {
                        lemma_installed_twice(
                            before,
                            scope_1,
                            nested.deep_view(),
                            covers_1,
                            shutdown.covers(),
                            earlier.imports + compiled.imports,
                            read->Ok_0.imports,
                        );
                    }
                    shutdown_handle.merge_with(shutdown);
                    tuples
                },
            };
            let ghost read = read->Ok_0;
            let ghost gathered = tuples.deep_view();
            let mut stream = stream;
            tuples.append(&mut stream);
            proof {
                assert(tuples.deep_view() =~= gathered + read.rows);
                assert((earlier.imports + compiled.imports) + read.imports =~= earlier.imports + (
                compiled.imports + read.imports));
            }
            k += 1;
        }
        proof {
            assert(self.paths@.take(n as int) =~= self.paths@);
        }
        let relation = CollectionRelation { variables: self.variables.clone(), tuples };
        Ok((Implemented::Collection(relation), shutdown_handle))
    }
}

/// The row of one change to `attribute`: the entity, the attribute and the
/// value.
pub open spec fn dumped_row(attribute: Seq<char>, proposal: ProposalModel) -> UpdateModel {
    UpdateModel {
        tuple: seq![proposal.e, ValueModel::Aid(attribute), proposal.v],
        time: proposal.time,
        diff: proposal.diff,
    }
}

/// One row for each change to `attribute`.
pub open spec fn dumped(attribute: Seq<char>, e_v: Seq<ProposalModel>) -> Seq<UpdateModel> {
    e_v.map_values(|proposal: ProposalModel| dumped_row(attribute, proposal))
}

/// The rows of each of `attributes`, one attribute after the other, and the
/// names of the operators that read them. The first attribute that the
/// domain lacks decides the failure.
pub open spec fn pulled_all(domain: Seq<TraceModel>, attributes: Seq<Seq<char>>) -> Result<
    Materialized,
    Failure,
>
    decreases attributes.len(),
{
    if attributes.len() == 0 {
        Ok(Materialized { rows: Seq::empty(), imports: Seq::empty() })
    } else {
        match pulled_all(domain, attributes.drop_last()) {
            Err(failure) => Err(failure),
            Ok(earlier) => {
                let attribute = attributes.last();
                if !known(domain, attribute) {
                    Err(Failure::MissingAttribute(attribute))
                } else {
                    Ok(
                        Materialized {
                            rows: earlier.rows + dumped(
                                attribute,
                                proposals(trace_of(domain, attribute)),
                            ),
                            imports: earlier.imports.push(propose_label(attribute)),
                        },
                    )
                }
            },
        }
    }
}

/// Where the first `k` attributes fail, all of them fail in the same way.
pub proof fn lemma_all_fail_early(domain: Seq<TraceModel>, attributes: Seq<Seq<char>>, k: int)
    requires
        0 <= k <= attributes.len(),
        pulled_all(domain, attributes.take(k)) is Err,
    ensures
        pulled_all(domain, attributes) == pulled_all(domain, attributes.take(k)),
    decreases attributes.len(),
{
    if k == attributes.len() {
        assert(attributes.take(k) =~= attributes);
    } else {
        assert(attributes.drop_last().take(k) =~= attributes.take(k));
        lemma_all_fail_early(domain, attributes.drop_last(), k);
    }
}

/// One row [e a v] for each change to `attribute`.
fn dump(attribute: &Aid, e_v: &Vec<Proposal>) -> (tuples: Vec<Update>)
    ensures
        tuples.deep_view() == dumped(attribute@, e_v.deep_view()),
{
    let ghost all = dumped(attribute@, e_v.deep_view());
    let mut tuples: Vec<Update> = Vec::new();
    let n = e_v.len();
    let mut i: usize = 0;
    while i < n
        invariant
            n == e_v@.len(),
            i <= n,
            all == dumped(attribute@, e_v.deep_view()),
            tuples.deep_view() == all.take(i as int),
        decreases n - i,
    {
        let proposal = &e_v[i];
        let mut tuple: Vec<Value> = Vec::new();
        tuple.push(proposal.e.clone());
        tuple.push(Value::Aid(attribute.clone()));
        tuple.push(proposal.v.clone());
        assert(tuple.deep_view() =~= seq![
            proposal.e.deep_view(),
            ValueModel::Aid(attribute@),
            proposal.v.deep_view(),
        ]);
        tuples.push(Update { tuple, time: proposal.time, diff: proposal.diff });
        proof {
            assert(tuples.deep_view() =~= all.take(i as int).push(all[i as int]));
            assert(all.take(i + 1) =~= all.take(i as int).push(all[i as int]));
        }
        i += 1;
    }
    proof {
        assert(all.take(n as int) =~= all);
    }
    tuples
}

impl Implementable for PullAll {
    open spec fn requirements(&self) -> Seq<Seq<char>> {
        self.pull_attributes.deep_view()
    }

    fn dependencies(&self) -> (dependencies: Dependencies) {
        let mut dependencies = Dependencies::none();
        let n = self.pull_attributes.len();
        let mut k: usize = 0;
        while k < n
            invariant
                n == self.pull_attributes@.len(),
                k <= n,
                dependencies.deep_view() == self.pull_attributes.deep_view().take(k as int),
            decreases n - k,
        {
            dependencies = dependencies.merge(
                Dependencies::attribute(self.pull_attributes[k].clone()),
            );
            proof {
                let all = self.pull_attributes.deep_view();
                assert(all.take(k + 1) =~= all.take(k as int) + seq![all[k as int]]);
            }
            k += 1;
        }
        proof {
            let all = self.pull_attributes.deep_view();
            assert(all.take(n as int) =~= all);
        }
        dependencies
    }

    open spec fn outcome(
        &self,
        domain: Seq<TraceModel>,
        local: Seq<(Seq<char>, Seq<UpdateModel>)>,
    ) -> Result<Compiled, Failure> {
        if self.pull_attributes@.len() == 0 {
            Err(Failure::NothingToPull)
        } else {
            match pulled_all(domain, self.pull_attributes.deep_view()) {
                Err(failure) => Err(failure),
                Ok(streams) => Ok(
                    Compiled {
                        relation: RelationModel::Collection {
                            variables: Seq::empty(),
                            tuples: streams.rows,
                        },
                        imports: streams.imports,
                    },
                ),
            }
        }
    }

    #[verifier::loop_isolation(false)]
    fn implement(
        &self,
        nested: &mut Scope,
        domain: &Domain,
        _local_arrangements: &VariableMap,
    ) -> (implemented: Result<(Implemented, ShutdownHandle), CompileError>) {
        if self.pull_attributes.is_empty() {
            return Err(CompileError::NothingToPull);
        }
        let ghost before = nested.deep_view();
        let ghost traces = domain.deep_view();
        let ghost attributes = self.pull_attributes.deep_view();
        let mark = nested.len();
        let mut shutdown_handle = ShutdownHandle::empty();
        let mut tuples: Vec<Update> = Vec::new();
        proof {
            lemma_nothing_installed(before);
        }
        let n = self.pull_attributes.len();
        let mut k: usize = 0;
        while k < n
            invariant
                n == self.pull_attributes@.len(),
                k <= n,
                pulled_all(traces, attributes.take(k as int)) matches Ok(streams) && streams.rows
                    == tuples.deep_view() && installed(
                    before,
                    nested.deep_view(),
                    shutdown_handle.covers(),
                    streams.imports,
                ),
            decreases n - k,
        {
            let a = &self.pull_attributes[k];
            let ghost earlier = pulled_all(traces, attributes.take(k as int))->Ok_0;
            let ghost between = nested.deep_view();
            let ghost covered = shutdown_handle.covers();
            proof {
                assert(attributes.take(k + 1).drop_last() =~= attributes.take(k as int));
                assert(attributes.take(k + 1).last() == a@);
            }
            match domain.import_propose(a, nested) {
                None => {
                    proof {
                        lemma_all_fail_early(traces, attributes, k + 1);
                    }
                    nested.rewind(mark);
                    assert(nested.deep_view() =~= before);
                    return Err(CompileError::MissingAttribute(a.clone()));
                },
                Some((e_v, shutdown_propose)) => {
                    shutdown_handle.add_button(shutdown_propose);
                    let ghost gathered = tuples.deep_view();
                    let mut stream = dump(a, &e_v);
                    let ghost rows = stream.deep_view();
                    tuples.append(&mut stream);
                    proof {
                        assert(tuples.deep_view() =~= gathered + rows);
                        lemma_installed_one(between, shutdown_propose.resource, propose_label(a@));
                        lemma_installed_twice(
                            before,
                            between,
                            nested.deep_view(),
                            covered,
                            seq![shutdown_propose.resource],
                            earlier.imports,
                            seq![propose_label(a@)],
                        );
                        assert(covered + seq![shutdown_propose.resource]
                            =~= shutdown_handle.covers());
                        assert(earlier.imports + seq![propose_label(a@)] =~= earlier.imports.push(
                            propose_label(a@),
                        ));
                    }
                },
            }
            k += 1;
        }
        proof {
            assert(attributes.take(n as int) =~= attributes);
        }
        let relation = CollectionRelation { variables: Vec::new(), tuples };
        Ok((Implemented::Collection(relation), shutdown_handle))
    }
}

} // verus!
