use crate::shutdown::{live, ResourceModel, Scope, ShutdownButton};
use crate::timestamp::{advance_by, advanced, lemma_advanced_once, Time};
use crate::value::{Aid, Value, ValueModel};
use vstd::prelude::*;

verus! {

/// One change to an attribute: at `time`, the pair of entity `e` and value
/// `v` was added or taken away `diff` times.
#[derive(Debug, PartialEq, Eq)]
pub struct Datom {
    pub e: Value,
    pub v: Value,
    pub time: u64,
    pub diff: isize,
}

pub struct DatomModel {
    pub e: ValueModel,
    pub v: ValueModel,
    pub time: u64,
    pub diff: int,
}

impl DeepView for Datom {
    type V = DatomModel;

    open spec fn deep_view(&self) -> DatomModel {
        DatomModel {
            e: self.e.deep_view(),
            v: self.v.deep_view(),
            time: self.time,
            diff: self.diff as int,
        }
    }
}

/// A change to an attribute as it is seen inside the nested scope.
#[derive(Debug, PartialEq, Eq)]
pub struct Proposal {
    pub e: Value,
    pub v: Value,
    pub time: Time,
    pub diff: isize,
}

pub struct ProposalModel {
    pub e: ValueModel,
    pub v: ValueModel,
    pub time: Time,
    pub diff: int,
}

impl DeepView for Proposal {
    type V = ProposalModel;

    open spec fn deep_view(&self) -> ProposalModel {
        ProposalModel {
            e: self.e.deep_view(),
            v: self.v.deep_view(),
            time: self.time,
            diff: self.diff as int,
        }
    }
}

/// The index of one attribute from entities to values: its changes, and the
/// frontier up to which their times may no longer be told apart.
#[derive(Debug, PartialEq, Eq)]
pub struct ProposeTrace {
    pub name: Aid,
    pub datoms: Vec<Datom>,
    pub frontier: Vec<u64>,
}

pub struct TraceModel {
    pub name: Seq<char>,
    pub datoms: Seq<DatomModel>,
    pub frontier: Seq<u64>,
}

impl DeepView for ProposeTrace {
    type V = TraceModel;

    open spec fn deep_view(&self) -> TraceModel {
        TraceModel {
            name: self.name@,
            datoms: self.datoms.deep_view(),
            frontier: self.frontier@,
        }
    }
}

/// The attributes that plans can read.
#[derive(Debug, PartialEq, Eq)]
pub struct Domain {
    pub attributes: Vec<ProposeTrace>,
}

impl DeepView for Domain {
    type V = Seq<TraceModel>;

    open spec fn deep_view(&self) -> Seq<TraceModel> {
        self.attributes.deep_view()
    }
}

/// Whether `at` is the first position in `domain` of an attribute `name`.
pub open spec fn found_at(domain: Seq<TraceModel>, name: Seq<char>, at: int) -> bool {
    &&& 0 <= at < domain.len()
    &&& domain[at].name == name
    &&& forall|j: int| 0 <= j < at ==> (#[trigger] domain[j]).name != name
}

/// Whether `domain` holds an attribute `name`.
pub open spec fn known(domain: Seq<TraceModel>, name: Seq<char>) -> bool {
    exists|at: int| found_at(domain, name, at)
}

/// The attribute `name` of `domain`: the first of that name.
pub open spec fn trace_of(domain: Seq<TraceModel>, name: Seq<char>) -> TraceModel {
    domain[choose|at: int| found_at(domain, name, at)]
}

/// A datom as an import hands it on: its time advanced to `frontier`.
pub open spec fn forwarded(datom: DatomModel, frontier: Seq<u64>) -> DatomModel {
    DatomModel { e: datom.e, v: datom.v, time: advanced(datom.time, frontier), diff: datom.diff }
}

/// What an import of `trace` hands on.
pub open spec fn imported(trace: TraceModel) -> Seq<DatomModel> {
    trace.datoms.map_values(|datom: DatomModel| forwarded(datom, trace.frontier))
}

/// A datom as it enters the nested scope: its time advanced to `frontier`,
/// at round 0.
pub open spec fn entering(datom: DatomModel, frontier: Seq<u64>) -> ProposalModel {
    ProposalModel {
        e: datom.e,
        v: datom.v,
        time: Time { outer: advanced(datom.time, frontier), round: 0 },
        diff: datom.diff,
    }
}

/// The datoms `arranged` as they enter the nested scope.
pub open spec fn entered(arranged: Seq<DatomModel>, frontier: Seq<u64>) -> Seq<ProposalModel> {
    arranged.map_values(|datom: DatomModel| entering(datom, frontier))
}

/// What a plan reads of `trace` inside the nested scope.
pub open spec fn proposals(trace: TraceModel) -> Seq<ProposalModel> {
    entered(imported(trace), trace.frontier)
}

/// The name that the operator which imports attribute `name` is given.
pub uninterp spec fn propose_label(name: Seq<char>) -> Seq<char>;

/// `format!` of std, for the name of the operator that imports an
/// attribute: the word `Propose` and, in round brackets, the attribute's
/// name as `Debug` prints it.
///
/// Trusted: that the text depends on the name alone.
#[verifier::external_body]
pub(crate) fn propose_name(name: &Aid) -> (label: String)
    ensures
        label@ == propose_label(name@),
{
    format!("Propose({:?})", name)
}

impl Domain {
    /// The index of attribute `name` from entities to values, if the domain
    /// has that attribute.
    pub fn forward_propose(&self, name: &Aid) -> (found: Option<&ProposeTrace>)
        ensures
            found is Some <==> known(self.deep_view(), name@),
            found matches Some(trace) ==> trace.deep_view() == trace_of(self.deep_view(), name@),
    {
        let n = self.attributes.len();
        let mut at: usize = 0;
        while at < n
            invariant
                n == self.attributes@.len(),
                at <= n,
                forall|j: int| 0 <= j < at ==> (#[trigger] self.deep_view()[j]).name != name@,
            decreases n - at,
        {
            if self.attributes[at].name == *name {
                proof {
                    let domain = self.deep_view();
                    assert(found_at(domain, name@, at as int));
                    let chosen = choose|c: int| found_at(domain, name@, c);
                    assert(found_at(domain, name@, chosen));
                    assert(chosen == at) by {
                        if chosen < at {
                            assert(domain[chosen].name != name@);
                        }
                        if at < chosen {
                            assert(domain[at as int].name != name@);
                        }
                    }
                }
                return Some(&self.attributes[at]);
            }
            at += 1;
        }
        proof {
            let domain = self.deep_view();
            if known(domain, name@) {
                let c = choose|c: int| found_at(domain, name@, c);
                assert(domain[c].name != name@);
            }
        }
        None
    }
}

impl Domain {
    /// Imports attribute `name` into the nested scope: captures the
    /// frontier of its trace, installs the operator that reads the trace,
    /// and advances every time to the captured frontier on the way in.
    /// Nothing is installed where the domain has no such attribute.
    pub fn import_propose(&self, name: &Aid, nested: &mut Scope) -> (import: Option<
        (Vec<Proposal>, ShutdownButton),
    >)
        ensures
            import is Some <==> known(self.deep_view(), name@),
            import is None ==> final(nested).deep_view() == old(nested).deep_view(),
            import matches Some(pair) ==> {
                &&& pair.0.deep_view() == proposals(trace_of(self.deep_view(), name@))
                &&& pair.1.resource == old(nested).deep_view().len()
                &&& final(nested).deep_view() == old(nested).deep_view().push(
                    live(propose_label(name@)),
                )
            },
    {
        match self.forward_propose(name) {
            None => None,
            Some(propose_trace) => {
                let frontier = propose_trace.advance_frontier();
                let (arranged, shutdown_propose) = propose_trace.import_frontier(
                    nested,
                    propose_name(name),
                );
                let e_v = enter_at(&arranged, frontier);
                Some((e_v, shutdown_propose))
            },
        }
    }
}

impl ProposeTrace {
    /// The frontier up to which the times of this trace may no longer be
    /// told apart.
    pub fn advance_frontier(&self) -> (frontier: &Vec<u64>)
        ensures
            frontier@ == self.deep_view().frontier,
    {
        &self.frontier
    }

    /// Installs in `scope` an operator named `label` that reads this trace,
    /// and hands out what it reads, each time advanced to the trace's
    /// frontier, with the token that releases the operator.
    pub fn import_frontier(&self, scope: &mut Scope, label: String) -> (import: (
        Vec<Datom>,
        ShutdownButton,
    ))
        ensures
            import.0.deep_view() == imported(self.deep_view()),
            import.1.resource == old(scope).deep_view().len(),
            final(scope).deep_view() == old(scope).deep_view().push(live(label@)),
    {
        let button = scope.install(label);
        let mut arranged: Vec<Datom> = Vec::new();
        let n = self.datoms.len();
        let mut i: usize = 0;
        while i < n
            invariant
                n == self.datoms@.len(),
                i <= n,
                arranged.deep_view() == imported(self.deep_view()).take(i as int),
            decreases n - i,
        {
            let datom = &self.datoms[i];
            arranged.push(
                Datom {
                    e: datom.e.clone(),
                    v: datom.v.clone(),
                    time: advance_by(datom.time, &self.frontier),
                    diff: datom.diff,
                },
            );
            proof {
                let all = imported(self.deep_view());
                assert(arranged.deep_view() =~= all.take(i as int).push(all[i as int]));
                assert(all.take(i + 1) =~= all.take(i as int).push(all[i as int]));
            }
            i += 1;
        }
        proof {
            let all = imported(self.deep_view());
            assert(all.take(n as int) =~= all);
        }
        (arranged, button)
    }
}

/// Brings `arranged` into the nested scope: every time is advanced to
/// `frontier` and paired with round 0.
pub fn enter_at(arranged: &Vec<Datom>, frontier: &Vec<u64>) -> (proposals: Vec<Proposal>)
    ensures
        proposals.deep_view() == entered(arranged.deep_view(), frontier@),
{
    let mut proposals: Vec<Proposal> = Vec::new();
    let n = arranged.len();
    let mut i: usize = 0;
    while i < n
        invariant
            n == arranged@.len(),
            i <= n,
            proposals.deep_view() == entered(arranged.deep_view(), frontier@).take(i as int),
        decreases n - i,
    {
        let datom = &arranged[i];
        proposals.push(
            Proposal {
                e: datom.e.clone(),
                v: datom.v.clone(),
                time: Time { outer: advance_by(datom.time, frontier), round: 0 },
                diff: datom.diff,
            },
        );
        proof {
            let all = entered(arranged.deep_view(), frontier@);
            assert(proposals.deep_view() =~= all.take(i as int).push(all[i as int]));
            assert(all.take(i + 1) =~= all.take(i as int).push(all[i as int]));
        }
        i += 1;
    }
    proof {
        let all = entered(arranged.deep_view(), frontier@);
        assert(all.take(n as int) =~= all);
    }
    proposals
}

/// Every change of a trace enters the nested scope once, at its own time
/// advanced to the frontier that the trace had when it was imported:
/// advancing on the import and again on the way in pins the time to that
/// one frontier.
pub proof fn lemma_proposals_pinned(trace: TraceModel)
    ensures
        proposals(trace) == entered(trace.datoms, trace.frontier),
{
    assert forall|i: int| 0 <= i < trace.datoms.len() implies proposals(trace)[i] == entered(
        trace.datoms,
        trace.frontier,
    )[i] by {
        lemma_advanced_once(trace.datoms[i].time, trace.frontier);
    }
    assert(proposals(trace) =~= entered(trace.datoms, trace.frontier));
}

} // verus!
