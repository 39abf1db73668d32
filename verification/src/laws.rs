use crate::domain::{known, proposals, trace_of, ProposalModel, TraceModel};
use crate::error::Failure;
use crate::plan::Implementable;
use crate::pull::{
    all_admitted, interleaved, joined, joined_path, matched, presence, presence_of, pulled,
    pulled_all, pulled_streams, LevelModel, PullAll,
};
use crate::relation::{RelationModel, UpdateModel};
use crate::timestamp::{lemma_join_is_least_upper_bound, Time};
use crate::value::ValueModel;
use vstd::prelude::*;

verus! {

/// A row with a value is as long as the labelled path of its entity and
/// two cells more, the attribute and the value; less the last cell of the
/// path where an entity has one value at most and the path has labels.
pub proof fn lemma_value_row_length(
    level: LevelModel,
    path: Seq<ValueModel>,
    attribute: Seq<char>,
    v: ValueModel,
)
    requires
        level.admits(path.len()),
    ensures
        !level.cardinality_many && level.path_attributes.len() > 0 ==> level.value_row(
            path,
            attribute,
            v,
        ).len() == interleaved(path, level.path_attributes).len() - 1 + 2,
        level.cardinality_many ==> level.value_row(path, attribute, v).len() == interleaved(
            path,
            level.path_attributes,
        ).len() + 2,
        level.path_attributes.len() == 0 ==> level.value_row(path, attribute, v).len()
            == path.len() + 2,
{
}

/// Whether `row` is what some path of `paths` gives with some change of
/// `e_v` to the entity of that path.
pub open spec fn comes_from(
    level: LevelModel,
    offset: int,
    paths: Seq<UpdateModel>,
    attribute: Seq<char>,
    e_v: Seq<ProposalModel>,
    row: UpdateModel,
) -> bool {
    exists|i: int, j: int|
        #![trigger paths[i], e_v[j]]
        0 <= i < paths.len() && 0 <= j < e_v.len() && e_v[j].e == paths[i].tuple[offset] && row
            == matched(level, paths[i], attribute, e_v[j])
}

/// Every row that the join gives for one path comes from a change to the
/// entity of that path.
pub proof fn lemma_joined_path_sound(
    level: LevelModel,
    offset: int,
    path: UpdateModel,
    attribute: Seq<char>,
    e_v: Seq<ProposalModel>,
    k: int,
)
    requires
        0 <= k < joined_path(level, offset, path, attribute, e_v).len(),
    ensures
        exists|j: int|
            0 <= j < e_v.len() && (#[trigger] e_v[j]).e == path.tuple[offset] && joined_path(
                level,
                offset,
                path,
                attribute,
                e_v,
            )[k] == matched(level, path, attribute, e_v[j]),
    decreases e_v.len(),
{
    let earlier = joined_path(level, offset, path, attribute, e_v.drop_last());
    if k < earlier.len() {
        lemma_joined_path_sound(level, offset, path, attribute, e_v.drop_last(), k);
        let j = choose|j: int|
            0 <= j < e_v.drop_last().len() && (#[trigger] e_v.drop_last()[j]).e
                == path.tuple[offset] && earlier[k] == matched(
                level,
                path,
                attribute,
                e_v.drop_last()[j],
            );
        assert(e_v[j] == e_v.drop_last()[j]);
    } else {
        let j = e_v.len() - 1;
        assert(e_v[j].e == path.tuple[offset]);
    }
}

/// Every change to the entity of a path gives a row of the join for that
/// path.
pub proof fn lemma_joined_path_complete(
    level: LevelModel,
    offset: int,
    path: UpdateModel,
    attribute: Seq<char>,
    e_v: Seq<ProposalModel>,
    j: int,
)
    requires
        0 <= j < e_v.len(),
        e_v[j].e == path.tuple[offset],
    ensures
        joined_path(level, offset, path, attribute, e_v).contains(
            matched(level, path, attribute, e_v[j]),
        ),
    decreases e_v.len(),
{
    let earlier = joined_path(level, offset, path, attribute, e_v.drop_last());
    let all = joined_path(level, offset, path, attribute, e_v);
    let row = matched(level, path, attribute, e_v[j]);
    if j < e_v.len() - 1 {
        lemma_joined_path_complete(level, offset, path, attribute, e_v.drop_last(), j);
        assert(e_v.drop_last()[j] == e_v[j]);
        let k = choose|k: int| 0 <= k < earlier.len() && earlier[k] == row;
        assert(all[k] == row);
    } else {
        assert(all[earlier.len() as int] == row);
    }
}

/// The join is sound: every row that it gives comes from a path of the
/// input and a change to the entity of that path. So a level emits values
/// for entities of its input only.
pub proof fn lemma_joined_sound(
    level: LevelModel,
    offset: int,
    paths: Seq<UpdateModel>,
    attribute: Seq<char>,
    e_v: Seq<ProposalModel>,
    k: int,
)
    requires
        0 <= k < joined(level, offset, paths, attribute, e_v).len(),
    ensures
        comes_from(
            level,
            offset,
            paths,
            attribute,
            e_v,
            joined(level, offset, paths, attribute, e_v)[k],
        ),
    decreases paths.len(),
{
    let earlier = joined(level, offset, paths.drop_last(), attribute, e_v);
    let all = joined(level, offset, paths, attribute, e_v);
    if k < earlier.len() {
        lemma_joined_sound(level, offset, paths.drop_last(), attribute, e_v, k);
        let (i, j) = choose|i: int, j: int|
            #![trigger paths.drop_last()[i], e_v[j]]
            0 <= i < paths.drop_last().len() && 0 <= j < e_v.len() && e_v[j].e
                == paths.drop_last()[i].tuple[offset] && earlier[k] == matched(
                level,
                paths.drop_last()[i],
                attribute,
                e_v[j],
            );
        assert(paths[i] == paths.drop_last()[i]);
        assert(e_v[j].e == paths[i].tuple[offset] && all[k] == matched(
            level,
            paths[i],
            attribute,
            e_v[j],
        ));
    } else {
        let i = paths.len() - 1;
        lemma_joined_path_sound(level, offset, paths[i], attribute, e_v, k - earlier.len());
        let j = choose|j: int|
            0 <= j < e_v.len() && (#[trigger] e_v[j]).e == paths[i].tuple[offset] && joined_path(
                level,
                offset,
                paths[i],
                attribute,
                e_v,
            )[k - earlier.len()] == matched(level, paths[i], attribute, e_v[j]);
        assert(e_v[j].e == paths[i].tuple[offset] && all[k] == matched(
            level,
            paths[i],
            attribute,
            e_v[j],
        ));
    }
}

/// The join is complete: every path of the input gives a row with every
/// change to its entity.
pub proof fn lemma_joined_complete(
    level: LevelModel,
    offset: int,
    paths: Seq<UpdateModel>,
    attribute: Seq<char>,
    e_v: Seq<ProposalModel>,
    i: int,
    j: int,
)
    requires
        0 <= i < paths.len(),
        0 <= j < e_v.len(),
        e_v[j].e == paths[i].tuple[offset],
    ensures
        joined(level, offset, paths, attribute, e_v).contains(
            matched(level, paths[i], attribute, e_v[j]),
        ),
    decreases paths.len(),
{
    let earlier = joined(level, offset, paths.drop_last(), attribute, e_v);
    let last = joined_path(level, offset, paths.last(), attribute, e_v);
    let all = joined(level, offset, paths, attribute, e_v);
    let row = matched(level, paths[i], attribute, e_v[j]);
    if i < paths.len() - 1 {
        lemma_joined_complete(level, offset, paths.drop_last(), attribute, e_v, i, j);
        assert(paths.drop_last()[i] == paths[i]);
        let k = choose|k: int| 0 <= k < earlier.len() && earlier[k] == row;
        assert(all[k] == row);
    } else {
        lemma_joined_path_complete(level, offset, paths[i], attribute, e_v, j);
        let k = choose|k: int| 0 <= k < last.len() && last[k] == row;
        assert(all[earlier.len() + k] == row);
    }
}

/// Every row with a value that a level emits has the length that its path
/// gives it: the labelled path and two cells more, less one cell where an
/// entity has one value at most and the path has labels.
pub proof fn lemma_joined_row_length(
    level: LevelModel,
    offset: int,
    paths: Seq<UpdateModel>,
    attribute: Seq<char>,
    e_v: Seq<ProposalModel>,
    k: int,
)
    requires
        all_admitted(level, offset, paths),
        0 <= k < joined(level, offset, paths, attribute, e_v).len(),
    ensures
        exists|i: int|
            0 <= i < paths.len() && joined(level, offset, paths, attribute, e_v)[k].tuple.len()
                == interleaved((#[trigger] paths[i]).tuple, level.path_attributes).len() + (
            if !level.cardinality_many && level.path_attributes.len() > 0 {
                2 - 1
            } else {
                2int
            }),
{
    lemma_joined_sound(level, offset, paths, attribute, e_v, k);
    let row = joined(level, offset, paths, attribute, e_v)[k];
    let (i, j) = choose|i: int, j: int|
        #![trigger paths[i], e_v[j]]
        0 <= i < paths.len() && 0 <= j < e_v.len() && e_v[j].e == paths[i].tuple[offset] && row
            == matched(level, paths[i], attribute, e_v[j]);
    assert(offset < paths[i].tuple.len() && level.admits(paths[i].tuple.len()));
    lemma_value_row_length(level, paths[i].tuple, attribute, e_v[j].v);
}

/// The rows with values that a level emits for one path: its joins with
/// each of `attributes`, one attribute after the other.
pub open spec fn values_for(
    level: LevelModel,
    offset: int,
    path: UpdateModel,
    domain: Seq<TraceModel>,
    attributes: Seq<Seq<char>>,
) -> Seq<UpdateModel>
    decreases attributes.len(),
{
    if attributes.len() == 0 {
        Seq::empty()
    } else {
        values_for(level, offset, path, domain, attributes.drop_last()) + joined_path(
            level,
            offset,
            path,
            attributes.last(),
            proposals(trace_of(domain, attributes.last())),
        )
    }
}

/// All rows that a level emits for one path: the rows with its values,
/// and behind them its presence row where the level emits those.
pub open spec fn emitted_for(
    level: LevelModel,
    offset: int,
    path: UpdateModel,
    domain: Seq<TraceModel>,
) -> Seq<UpdateModel> {
    if level.collapses() {
        values_for(level, offset, path, domain, level.pull_attributes).push(
            presence_of(level, path),
        )
    } else {
        values_for(level, offset, path, domain, level.pull_attributes)
    }
}

/// The rows that a level emits, path by path.
pub open spec fn emitted(
    level: LevelModel,
    offset: int,
    paths: Seq<UpdateModel>,
    domain: Seq<TraceModel>,
) -> Seq<UpdateModel>
    decreases paths.len(),
{
    if paths.len() == 0 {
        Seq::empty()
    } else {
        emitted(level, offset, paths.drop_last(), domain) + emitted_for(
            level,
            offset,
            paths.last(),
            domain,
        )
    }
}

/// Whether no change of `e_v` is one to the entity of `path`.
pub open spec fn untouched(offset: int, path: UpdateModel, e_v: Seq<ProposalModel>) -> bool {
    forall|j: int| 0 <= j < e_v.len() ==> (#[trigger] e_v[j]).e != path.tuple[offset]
}

/// A path whose entity no change is about gives no row with a value.
pub proof fn lemma_untouched_joins_nothing(
    level: LevelModel,
    offset: int,
    path: UpdateModel,
    attribute: Seq<char>,
    e_v: Seq<ProposalModel>,
)
    requires
        untouched(offset, path, e_v),
    ensures
        joined_path(level, offset, path, attribute, e_v) == Seq::<UpdateModel>::empty(),
    decreases e_v.len(),
{
    if e_v.len() > 0 {
        assert(untouched(offset, path, e_v.drop_last())) by {
            assert forall|j: int| 0 <= j < e_v.drop_last().len() implies (
            #[trigger] e_v.drop_last()[j]).e != path.tuple[offset] by {
                assert(e_v.drop_last()[j] == e_v[j]);
            }
        }
        lemma_untouched_joins_nothing(level, offset, path, attribute, e_v.drop_last());
        assert(e_v[e_v.len() - 1].e != path.tuple[offset]);
    }
}

/// A path whose entity has no value of any of `attributes` gives no row
/// with a value.
pub proof fn lemma_untouched_has_no_values(
    level: LevelModel,
    offset: int,
    path: UpdateModel,
    domain: Seq<TraceModel>,
    attributes: Seq<Seq<char>>,
)
    requires
        forall|a: int|
            0 <= a < attributes.len() ==> untouched(
                offset,
                path,
                proposals(trace_of(domain, #[trigger] attributes[a])),
            ),
    ensures
        values_for(level, offset, path, domain, attributes) == Seq::<UpdateModel>::empty(),
    decreases attributes.len(),
{
    if attributes.len() > 0 {
        assert forall|a: int| 0 <= a < attributes.drop_last().len() implies untouched(
            offset,
            path,
            proposals(trace_of(domain, #[trigger] attributes.drop_last()[a])),
        ) by {
            assert(attributes.drop_last()[a] == attributes[a]);
        }
        lemma_untouched_has_no_values(level, offset, path, domain, attributes.drop_last());
        assert(attributes[attributes.len() - 1] == attributes.last());
        lemma_untouched_joins_nothing(
            level,
            offset,
            path,
            attributes.last(),
            proposals(trace_of(domain, attributes.last())),
        );
        assert(values_for(level, offset, path, domain, attributes) =~= Seq::<
            UpdateModel,
        >::empty());
    }
}

/// Presence is complete. Where an entity has one value at most and the
/// path has labels, a level emits for every path exactly one presence
/// row, behind the rows with values for that path; and for a path whose
/// entity has no value of any pulled attribute, the presence row is all
/// that it emits.
pub proof fn lemma_presence_complete(
    level: LevelModel,
    offset: int,
    path: UpdateModel,
    domain: Seq<TraceModel>,
)
    requires
        !level.cardinality_many,
        level.path_attributes.len() > 0,
    ensures
        emitted_for(level, offset, path, domain) == values_for(
            level,
            offset,
            path,
            domain,
            level.pull_attributes,
        ).push(presence_of(level, path)),
        (forall|a: int|
            0 <= a < level.pull_attributes.len() ==> untouched(
                offset,
                path,
                proposals(trace_of(domain, #[trigger] level.pull_attributes[a])),
            )) ==> emitted_for(level, offset, path, domain) == seq![presence_of(level, path)],
{
    if forall|a: int|
        0 <= a < level.pull_attributes.len() ==> untouched(
            offset,
            path,
            proposals(trace_of(domain, #[trigger] level.pull_attributes[a])),
        ) {
        lemma_untouched_has_no_values(level, offset, path, domain, level.pull_attributes);
        assert(emitted_for(level, offset, path, domain) =~= seq![presence_of(level, path)]);
    }
}

/// The joins of `paths` with each of `attributes`, one attribute after the
/// other: the rows of `pulled_streams` where that does not fail.
pub open spec fn stream_rows(
    level: LevelModel,
    offset: int,
    paths: Seq<UpdateModel>,
    domain: Seq<TraceModel>,
    attributes: Seq<Seq<char>>,
) -> Seq<UpdateModel>
    decreases attributes.len(),
{
    if attributes.len() == 0 {
        Seq::empty()
    } else {
        stream_rows(level, offset, paths, domain, attributes.drop_last()) + joined(
            level,
            offset,
            paths,
            attributes.last(),
            proposals(trace_of(domain, attributes.last())),
        )
    }
}

/// Where the joins with all attributes do not fail, their rows are those
/// of `stream_rows`.
pub proof fn lemma_streams_are_rows(
    level: LevelModel,
    offset: int,
    paths: Seq<UpdateModel>,
    domain: Seq<TraceModel>,
    attributes: Seq<Seq<char>>,
)
    requires
        pulled_streams(level, offset, paths, domain, attributes) is Ok,
    ensures
        pulled_streams(level, offset, paths, domain, attributes)->Ok_0.rows == stream_rows(
            level,
            offset,
            paths,
            domain,
            attributes,
        ),
    decreases attributes.len(),
{
    if attributes.len() > 0 {
        lemma_streams_are_rows(level, offset, paths, domain, attributes.drop_last());
    }
}

/// One more path adds to the joins the rows with the values of that path.
proof fn lemma_rows_with_path(
    level: LevelModel,
    offset: int,
    paths: Seq<UpdateModel>,
    path: UpdateModel,
    domain: Seq<TraceModel>,
    attributes: Seq<Seq<char>>,
)
    ensures
        stream_rows(level, offset, paths.push(path), domain, attributes).to_multiset()
            == stream_rows(level, offset, paths, domain, attributes).to_multiset().add(
            values_for(level, offset, path, domain, attributes).to_multiset(),
        ),
    decreases attributes.len(),
{
    broadcast use vstd::multiset::group_multiset_axioms;

    let more = paths.push(path);
    if attributes.len() == 0 {
        let none = Seq::<UpdateModel>::empty();
        vstd::seq_lib::lemma_multiset_commutative(none, none);
        assert(none + none =~= none);
    } else {
        let before = attributes.drop_last();
        let attribute = attributes.last();
        let e_v = proposals(trace_of(domain, attribute));
        lemma_rows_with_path(level, offset, paths, path, domain, before);
        assert(more.drop_last() =~= paths);
        assert(more.last() == path);
        let r0 = stream_rows(level, offset, paths, domain, before);
        let r1 = stream_rows(level, offset, more, domain, before);
        let j0 = joined(level, offset, paths, attribute, e_v);
        let jp = joined_path(level, offset, path, attribute, e_v);
        let v0 = values_for(level, offset, path, domain, before);
        assert(joined(level, offset, more, attribute, e_v) == j0 + jp);
        vstd::seq_lib::lemma_multiset_commutative(r1, j0 + jp);
        vstd::seq_lib::lemma_multiset_commutative(j0, jp);
        vstd::seq_lib::lemma_multiset_commutative(r0, j0);
        vstd::seq_lib::lemma_multiset_commutative(v0, jp);
        assert(stream_rows(level, offset, more, domain, attributes).to_multiset()
            =~= stream_rows(level, offset, paths, domain, attributes).to_multiset().add(
            values_for(level, offset, path, domain, attributes).to_multiset(),
        ));
    }
}

/// No path gives no row.
proof fn lemma_rows_of_no_path(
    level: LevelModel,
    offset: int,
    domain: Seq<TraceModel>,
    attributes: Seq<Seq<char>>,
)
    ensures
        stream_rows(level, offset, Seq::empty(), domain, attributes) == Seq::<
            UpdateModel,
        >::empty(),
    decreases attributes.len(),
{
    if attributes.len() > 0 {
        lemma_rows_of_no_path(level, offset, domain, attributes.drop_last());
        assert(stream_rows(level, offset, Seq::empty(), domain, attributes) =~= Seq::<
            UpdateModel,
        >::empty());
    }
}

/// The rows of a level are the rows that it emits for each of its paths:
/// taken together, the joins with all attributes and the presence rows
/// hold each row as often as the rows of all paths do.
pub proof fn lemma_rows_by_path(
    level: LevelModel,
    offset: int,
    paths: Seq<UpdateModel>,
    domain: Seq<TraceModel>,
)
    ensures
        level.collapses() ==> (stream_rows(level, offset, paths, domain, level.pull_attributes)
            + presence(level, paths)).to_multiset() == emitted(
            level,
            offset,
            paths,
            domain,
        ).to_multiset(),
        !level.collapses() ==> stream_rows(
            level,
            offset,
            paths,
            domain,
            level.pull_attributes,
        ).to_multiset() == emitted(level, offset, paths, domain).to_multiset(),
    decreases paths.len(),
{
    broadcast use vstd::multiset::group_multiset_axioms;

    let attributes = level.pull_attributes;
    if paths.len() == 0 {
        lemma_rows_of_no_path(level, offset, domain, attributes);
        assert(paths =~= Seq::empty());
        assert(presence(level, paths) =~= Seq::empty());
        assert(stream_rows(level, offset, paths, domain, attributes) + presence(level, paths)
            =~= Seq::empty());
    } else {
        let before = paths.drop_last();
        let path = paths.last();
        lemma_rows_by_path(level, offset, before, domain);
        lemma_rows_with_path(level, offset, before, path, domain, attributes);
        assert(before.push(path) =~= paths);
        let r0 = stream_rows(level, offset, before, domain, attributes);
        let r1 = stream_rows(level, offset, paths, domain, attributes);
        let values = values_for(level, offset, path, domain, attributes);
        let e0 = emitted(level, offset, before, domain);
        vstd::seq_lib::lemma_multiset_commutative(e0, emitted_for(level, offset, path, domain));
        if level.collapses() {
            let p0 = presence(level, before);
            let p1 = presence(level, paths);
            let row = presence_of(level, path);
            assert(p1 =~= p0.push(row));
            vstd::seq_lib::lemma_multiset_commutative(r1, p1);
            vstd::seq_lib::lemma_multiset_commutative(r0, p0);
            p0.to_multiset_ensures();
            values.to_multiset_ensures();
            assert((r1 + p1).to_multiset() =~= emitted(level, offset, paths, domain).to_multiset());
        } else {
            assert(r1.to_multiset() =~= emitted(level, offset, paths, domain).to_multiset());
        }
    }
}

/// What a level that pulls attributes compiles to holds, for each path of
/// its input, the rows that it emits for that path, each as often as
/// there, and no other row.
pub proof fn lemma_pulled_by_path(level: LevelModel, input: RelationModel, domain: Seq<TraceModel>)
    requires
        level.pull_attributes.len() > 0,
        pulled(level, input, domain) is Ok,
    ensures
        pulled(level, input, domain)->Ok_0.relation matches RelationModel::Collection {
            variables,
            tuples,
        } && tuples.to_multiset() == emitted(
            level,
            input.offset_of(level.pull_variable),
            input.tuples(domain)->Ok_0.rows,
            domain,
        ).to_multiset(),
{
    let offset = input.offset_of(level.pull_variable);
    let paths = input.tuples(domain)->Ok_0.rows;
    lemma_streams_are_rows(level, offset, paths, domain, level.pull_attributes);
    lemma_rows_by_path(level, offset, paths, domain);
}

/// The join is linear in its input: the rows for more paths are the rows
/// for the paths so far and, behind them, the rows for the paths that were
/// added.
pub proof fn lemma_joined_linear(
    level: LevelModel,
    offset: int,
    so_far: Seq<UpdateModel>,
    added: Seq<UpdateModel>,
    attribute: Seq<char>,
    e_v: Seq<ProposalModel>,
)
    ensures
        joined(level, offset, so_far + added, attribute, e_v) == joined(
            level,
            offset,
            so_far,
            attribute,
            e_v,
        ) + joined(level, offset, added, attribute, e_v),
    decreases added.len(),
{
    if added.len() == 0 {
        assert(so_far + added =~= so_far);
        assert(joined(level, offset, so_far, attribute, e_v) + Seq::<UpdateModel>::empty()
            =~= joined(level, offset, so_far, attribute, e_v));
    } else {
        lemma_joined_linear(level, offset, so_far, added.drop_last(), attribute, e_v);
        assert((so_far + added).drop_last() =~= so_far + added.drop_last());
        assert((so_far + added).last() == added.last());
        assert(joined(level, offset, so_far + added, attribute, e_v) =~= joined(
            level,
            offset,
            so_far,
            attribute,
            e_v,
        ) + joined(level, offset, added, attribute, e_v));
    }
}

/// A level is maintained by its changes: what it emits for more paths is
/// what it emits for the paths so far and, behind that, what it emits for
/// the paths that were added.
pub proof fn lemma_emitted_linear(
    level: LevelModel,
    offset: int,
    so_far: Seq<UpdateModel>,
    added: Seq<UpdateModel>,
    domain: Seq<TraceModel>,
)
    ensures
        emitted(level, offset, so_far + added, domain) == emitted(level, offset, so_far, domain)
            + emitted(level, offset, added, domain),
    decreases added.len(),
{
    if added.len() == 0 {
        assert(so_far + added =~= so_far);
        assert(emitted(level, offset, so_far, domain) + Seq::<UpdateModel>::empty() =~= emitted(
            level,
            offset,
            so_far,
            domain,
        ));
    } else {
        lemma_emitted_linear(level, offset, so_far, added.drop_last(), domain);
        assert((so_far + added).drop_last() =~= so_far + added.drop_last());
        assert((so_far + added).last() == added.last());
        assert(emitted(level, offset, so_far + added, domain) =~= emitted(
            level,
            offset,
            so_far,
            domain,
        ) + emitted(level, offset, added, domain));
    }
}

/// The change that takes `path` away again at the time `later`.
pub open spec fn retracted(path: UpdateModel, later: Time) -> UpdateModel {
    UpdateModel { tuple: path.tuple, time: later, diff: -path.diff }
}

/// Whether the change `taken` undoes the change `added` from the time
/// `later` on: it is to the same row, as often the other way, and at every
/// time from `later` on either both changes have happened or neither.
pub open spec fn undoes(taken: UpdateModel, added: UpdateModel, later: Time) -> bool {
    &&& taken.tuple == added.tuple
    &&& taken.diff == -added.diff
    &&& forall|now: Time| later.le(now) ==> (taken.time.le(now) <==> added.time.le(now))
}

/// The rows that the join gives for a path that is taken away undo, one
/// by one, the rows that it gave for the path.
proof fn lemma_retraction_undoes_joins(
    level: LevelModel,
    offset: int,
    path: UpdateModel,
    later: Time,
    attribute: Seq<char>,
    e_v: Seq<ProposalModel>,
)
    requires
        path.time.le(later),
    ensures
        joined_path(level, offset, retracted(path, later), attribute, e_v).len() == joined_path(
            level,
            offset,
            path,
            attribute,
            e_v,
        ).len(),
        forall|k: int|
            0 <= k < joined_path(level, offset, path, attribute, e_v).len() ==> undoes(
                #[trigger] joined_path(level, offset, retracted(path, later), attribute, e_v)[k],
                joined_path(level, offset, path, attribute, e_v)[k],
                later,
            ),
    decreases e_v.len(),
{
    if e_v.len() > 0 {
        lemma_retraction_undoes_joins(level, offset, path, later, attribute, e_v.drop_last());
        let taken = matched(level, retracted(path, later), attribute, e_v.last());
        let added = matched(level, path, attribute, e_v.last());
        assert(taken.diff == -added.diff) by (nonlinear_arith)
            requires
                taken.diff == (-path.diff) * e_v.last().diff,
                added.diff == path.diff * e_v.last().diff,
        ;
        assert forall|now: Time| later.le(now) implies (taken.time.le(now) <==> added.time.le(
            now,
        )) by {
            lemma_join_is_least_upper_bound(later, e_v.last().time, now);
            lemma_join_is_least_upper_bound(path.time, e_v.last().time, now);
        }
        assert(undoes(taken, added, later));
    }
}

/// The rows with values for a path that is taken away undo, one by one,
/// the rows with values for the path.
proof fn lemma_retraction_undoes_values(
    level: LevelModel,
    offset: int,
    path: UpdateModel,
    later: Time,
    domain: Seq<TraceModel>,
    attributes: Seq<Seq<char>>,
)
    requires
        path.time.le(later),
    ensures
        values_for(level, offset, retracted(path, later), domain, attributes).len() == values_for(
            level,
            offset,
            path,
            domain,
            attributes,
        ).len(),
        forall|k: int|
            0 <= k < values_for(level, offset, path, domain, attributes).len() ==> undoes(
                #[trigger] values_for(level, offset, retracted(path, later), domain, attributes)[k],
                values_for(level, offset, path, domain, attributes)[k],
                later,
            ),
    decreases attributes.len(),
{
    if attributes.len() > 0 {
        lemma_retraction_undoes_values(level, offset, path, later, domain, attributes.drop_last());
        lemma_retraction_undoes_joins(
            level,
            offset,
            path,
            later,
            attributes.last(),
            proposals(trace_of(domain, attributes.last())),
        );
        let earlier = values_for(level, offset, path, domain, attributes.drop_last());
        let earlier_taken = values_for(
            level,
            offset,
            retracted(path, later),
            domain,
            attributes.drop_last(),
        );
        let last = joined_path(
            level,
            offset,
            path,
            attributes.last(),
            proposals(trace_of(domain, attributes.last())),
        );
        let last_taken = joined_path(
            level,
            offset,
            retracted(path, later),
            attributes.last(),
            proposals(trace_of(domain, attributes.last())),
        );
        assert forall|k: int|
            0 <= k < values_for(level, offset, path, domain, attributes).len() implies undoes(
            #[trigger] values_for(level, offset, retracted(path, later), domain, attributes)[k],
            values_for(level, offset, path, domain, attributes)[k],
            later,
        ) by {
            if k < earlier.len() {
                assert(undoes(earlier_taken[k], earlier[k], later));
            } else {
                assert(undoes(last_taken[k - earlier.len()], last[k - earlier.len()], later));
            }
        }
    }
}

/// Rows leave as they came. Where a path is taken away again at a later
/// time, a level emits as many rows for that as it emitted for the path,
/// and each of them undoes the row at its position from that time on: it
/// is to the same row, as often the other way. So what a level emitted for
/// a path sums to nothing once the path has left its input.
pub proof fn lemma_retraction_cancels(
    level: LevelModel,
    offset: int,
    path: UpdateModel,
    later: Time,
    domain: Seq<TraceModel>,
)
    requires
        path.time.le(later),
    ensures
        emitted_for(level, offset, retracted(path, later), domain).len() == emitted_for(
            level,
            offset,
            path,
            domain,
        ).len(),
        forall|k: int|
            0 <= k < emitted_for(level, offset, path, domain).len() ==> undoes(
                #[trigger] emitted_for(level, offset, retracted(path, later), domain)[k],
                emitted_for(level, offset, path, domain)[k],
                later,
            ),
{
    lemma_retraction_undoes_values(level, offset, path, later, domain, level.pull_attributes);
    let values = values_for(level, offset, path, domain, level.pull_attributes);
    let values_taken = values_for(
        level,
        offset,
        retracted(path, later),
        domain,
        level.pull_attributes,
    );
    assert forall|k: int| 0 <= k < emitted_for(level, offset, path, domain).len() implies undoes(
        #[trigger] emitted_for(level, offset, retracted(path, later), domain)[k],
        emitted_for(level, offset, path, domain)[k],
        later,
    ) by {
        if k < values.len() {
            assert(undoes(values_taken[k], values[k], later));
        } else {
            assert(undoes(
                presence_of(level, retracted(path, later)),
                presence_of(level, path),
                later,
            ));
        }
    }
}

/// Every row of the joins with all attributes comes from one of the paths
/// and has the length of a row with a value for that path.
pub proof fn lemma_stream_row_length(
    level: LevelModel,
    offset: int,
    paths: Seq<UpdateModel>,
    domain: Seq<TraceModel>,
    attributes: Seq<Seq<char>>,
    k: int,
)
    requires
        all_admitted(level, offset, paths),
        0 <= k < stream_rows(level, offset, paths, domain, attributes).len(),
    ensures
        exists|i: int|
            0 <= i < paths.len() && stream_rows(level, offset, paths, domain, attributes)[k].tuple.len()
                == interleaved((#[trigger] paths[i]).tuple, level.path_attributes).len() + (
            if !level.cardinality_many && level.path_attributes.len() > 0 {
                2 - 1
            } else {
                2int
            }),
    decreases attributes.len(),
{
    let earlier = stream_rows(level, offset, paths, domain, attributes.drop_last());
    if k < earlier.len() {
        lemma_stream_row_length(level, offset, paths, domain, attributes.drop_last(), k);
    } else {
        lemma_joined_row_length(
            level,
            offset,
            paths,
            attributes.last(),
            proposals(trace_of(domain, attributes.last())),
            k - earlier.len(),
        );
    }
}

/// Every row that a level that pulls attributes compiles to belongs to a
/// path of its input and is as long as the labelled path and two cells
/// more; less the one cell that it leaves out where an entity has one
/// value at most and the path has labels, be it a row with a value or a
/// presence row.
pub proof fn lemma_pulled_row_length(
    level: LevelModel,
    input: RelationModel,
    domain: Seq<TraceModel>,
    k: int,
)
    requires
        level.pull_attributes.len() > 0,
        pulled(level, input, domain) matches Ok(compiled) && compiled.relation
            matches RelationModel::Collection { variables, tuples } && 0 <= k < tuples.len(),
    ensures
        pulled(level, input, domain)->Ok_0.relation matches RelationModel::Collection {
            variables,
            tuples,
        } && exists|i: int|
            0 <= i < input.tuples(domain)->Ok_0.rows.len() && tuples[k].tuple.len() == interleaved(
                (#[trigger] input.tuples(domain)->Ok_0.rows[i]).tuple,
                level.path_attributes,
            ).len() + (if !level.cardinality_many && level.path_attributes.len() > 0 {
                2 - 1
            } else {
                2int
            }),
{
    let offset = input.offset_of(level.pull_variable);
    let paths = input.tuples(domain)->Ok_0.rows;
    lemma_streams_are_rows(level, offset, paths, domain, level.pull_attributes);
    let values = stream_rows(level, offset, paths, domain, level.pull_attributes);
    if k < values.len() {
        lemma_stream_row_length(level, offset, paths, domain, level.pull_attributes, k);
    } else {
        let i = k - values.len();
        assert(presence(level, paths)[i] == presence_of(level, paths[i]));
        assert(offset < paths[i].tuple.len() && level.admits(paths[i].tuple.len()));
    }
}

/// Whether the domain holds each of `attributes`.
pub open spec fn all_known(domain: Seq<TraceModel>, attributes: Seq<Seq<char>>) -> bool {
    forall|a: int| 0 <= a < attributes.len() ==> known(domain, #[trigger] attributes[a])
}

/// A caller that has found the pulled attributes of a level in the domain
/// need not fear that one is missing: the joins then fail only where a
/// multiplicity is beyond the machine.
pub proof fn lemma_known_attributes_are_joined(
    level: LevelModel,
    offset: int,
    paths: Seq<UpdateModel>,
    domain: Seq<TraceModel>,
    attributes: Seq<Seq<char>>,
)
    requires
        all_known(domain, attributes),
    ensures
        pulled_streams(level, offset, paths, domain, attributes) matches Err(failure)
            ==> failure == Failure::DiffOverflow,
    decreases attributes.len(),
{
    if attributes.len() > 0 {
        assert(all_known(domain, attributes.drop_last())) by {
            assert forall|a: int| 0 <= a < attributes.drop_last().len() implies known(
                domain,
                #[trigger] attributes.drop_last()[a],
            ) by {
                assert(attributes.drop_last()[a] == attributes[a]);
            }
        }
        lemma_known_attributes_are_joined(level, offset, paths, domain, attributes.drop_last());
        assert(attributes[attributes.len() - 1] == attributes.last());
    }
}

/// The attributes of which the domain holds each are all pulled.
pub proof fn lemma_known_attributes_are_pulled(domain: Seq<TraceModel>, attributes: Seq<Seq<char>>)
    requires
        all_known(domain, attributes),
    ensures
        pulled_all(domain, attributes) is Ok,
    decreases attributes.len(),
{
    if attributes.len() > 0 {
        assert(all_known(domain, attributes.drop_last())) by {
            assert forall|a: int| 0 <= a < attributes.drop_last().len() implies known(
                domain,
                #[trigger] attributes.drop_last()[a],
            ) by {
                assert(attributes.drop_last()[a] == attributes[a]);
            }
        }
        lemma_known_attributes_are_pulled(domain, attributes.drop_last());
        assert(attributes[attributes.len() - 1] == attributes.last());
    }
}

/// Dependencies are what a caller has to look for: a pull of whole
/// attributes that names one at least compiles over every domain that
/// holds each attribute that it depends on.
pub proof fn lemma_pull_all_compiles(
    plan: PullAll,
    domain: Seq<TraceModel>,
    local: Seq<(Seq<char>, Seq<UpdateModel>)>,
)
    requires
        plan.requirements().len() > 0,
        all_known(domain, plan.requirements()),
    ensures
        plan.outcome(domain, local) is Ok,
{
    lemma_known_attributes_are_pulled(domain, plan.pull_attributes.deep_view());
}

/// The join is linear in the changes to the attribute, path by path: the
/// rows of a path for more changes are its rows for the changes so far
/// and, behind them, its rows for the changes that were added.
pub proof fn lemma_joined_path_linear(
    level: LevelModel,
    offset: int,
    path: UpdateModel,
    attribute: Seq<char>,
    so_far: Seq<ProposalModel>,
    added: Seq<ProposalModel>,
)
    ensures
        joined_path(level, offset, path, attribute, so_far + added) == joined_path(
            level,
            offset,
            path,
            attribute,
            so_far,
        ) + joined_path(level, offset, path, attribute, added),
    decreases added.len(),
{
    let old_rows = joined_path(level, offset, path, attribute, so_far);
    if added.len() == 0 {
        assert(so_far + added =~= so_far);
        assert(old_rows + Seq::<UpdateModel>::empty() =~= old_rows);
    } else {
        lemma_joined_path_linear(level, offset, path, attribute, so_far, added.drop_last());
        assert((so_far + added).drop_last() =~= so_far + added.drop_last());
        assert((so_far + added).last() == added.last());
        assert(joined_path(level, offset, path, attribute, so_far + added) =~= old_rows
            + joined_path(level, offset, path, attribute, added));
    }
}

/// A level is maintained by the changes to its attributes as well: the
/// join with more changes holds each row as often as the join with the
/// changes so far and the join with the changes that were added hold it
/// together.
pub proof fn lemma_joined_linear_in_values(
    level: LevelModel,
    offset: int,
    paths: Seq<UpdateModel>,
    attribute: Seq<char>,
    so_far: Seq<ProposalModel>,
    added: Seq<ProposalModel>,
)
    ensures
        joined(level, offset, paths, attribute, so_far + added).to_multiset() == joined(
            level,
            offset,
            paths,
            attribute,
            so_far,
        ).to_multiset().add(joined(level, offset, paths, attribute, added).to_multiset()),
    decreases paths.len(),
{
    broadcast use vstd::multiset::group_multiset_axioms;

    if paths.len() == 0 {
        let none = Seq::<UpdateModel>::empty();
        vstd::seq_lib::lemma_multiset_commutative(none, none);
        assert(none + none =~= none);
    } else {
        let before = paths.drop_last();
        let path = paths.last();
        lemma_joined_linear_in_values(level, offset, before, attribute, so_far, added);
        lemma_joined_path_linear(level, offset, path, attribute, so_far, added);
        let b_all = joined(level, offset, before, attribute, so_far + added);
        let b_old = joined(level, offset, before, attribute, so_far);
        let b_new = joined(level, offset, before, attribute, added);
        let p_old = joined_path(level, offset, path, attribute, so_far);
        let p_new = joined_path(level, offset, path, attribute, added);
        vstd::seq_lib::lemma_multiset_commutative(b_all, p_old + p_new);
        vstd::seq_lib::lemma_multiset_commutative(p_old, p_new);
        vstd::seq_lib::lemma_multiset_commutative(b_old, p_old);
        vstd::seq_lib::lemma_multiset_commutative(b_new, p_new);
        assert(joined(level, offset, paths, attribute, so_far + added).to_multiset() =~= joined(
            level,
            offset,
            paths,
            attribute,
            so_far,
        ).to_multiset().add(joined(level, offset, paths, attribute, added).to_multiset()));
    }
}

} // verus!
