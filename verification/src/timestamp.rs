use differential_dataflow::lattice::Lattice;
use timely::order::Product;
use vstd::prelude::*;

verus! {

/// A logical time inside the nested scope that hosts a pull: the time of the
/// enclosing scope, paired with the round of the nested one.
#[derive(Clone, Copy, Debug, PartialEq, Eq, Structural)]
pub struct Time {
    pub outer: u64,
    pub round: u64,
}

impl Time {
    /// Whether `self` is at or before `other`: times are ordered part by
    /// part, so of two times neither may be before the other.
    pub open spec fn le(self, other: Time) -> bool {
        self.outer <= other.outer && self.round <= other.round
    }

    /// The least time that is not before `self` nor before `other`.
    pub open spec fn join(self, other: Time) -> Time {
        Time { outer: larger(self.outer, other.outer), round: larger(self.round, other.round) }
    }
}

/// The join of two times is their least upper bound: it is not before
/// either, and it is at or before every time that is not before either.
pub proof fn lemma_join_is_least_upper_bound(a: Time, b: Time, c: Time)
    ensures
        a.le(a.join(b)),
        b.le(a.join(b)),
        a.le(c) && b.le(c) <==> a.join(b).le(c),
{
}

/// The later of two times.
pub open spec fn larger(a: u64, b: u64) -> u64 {
    if a >= b { a } else { b }
}

/// The earlier of two times.
pub open spec fn smaller(a: u64, b: u64) -> u64 {
    if a <= b { a } else { b }
}

/// The time that `time` becomes once it is advanced to `frontier`: itself
/// where the frontier is empty; else the earliest of the times that it
/// becomes when it is moved up to each time of the frontier in turn.
pub open spec fn advanced(time: u64, frontier: Seq<u64>) -> u64
    decreases frontier.len(),
{
    if frontier.len() == 0 {
        time
    } else if frontier.len() == 1 {
        larger(time, frontier[0])
    } else {
        smaller(advanced(time, frontier.drop_last()), larger(time, frontier.last()))
    }
}

/// `Lattice::advance_by` of differential-dataflow, on `u64` times.
///
/// Trusted: that the call leaves the time as it is for an empty frontier,
/// and else joins it with the first time of the frontier and meets the
/// result with its join with each further one, where on `u64` the join of
/// two times is the larger and their meet the smaller.
#[verifier::external_body]
pub(crate) fn advance_by(time: u64, frontier: &Vec<u64>) -> (forwarded: u64)
    ensures
        forwarded == advanced(time, frontier@),
{
    let mut forwarded = time;
    forwarded.advance_by(&frontier[..]);
    forwarded
}

/// `Lattice::join` of differential-dataflow, on the `Product<u64, u64>` of
/// timely that a time of the nested scope stands for.
///
/// Trusted: that the join of two products is the product of the joins of
/// their parts, and that on `u64` the join of two times is the larger.
#[verifier::external_body]
pub(crate) fn least_upper_bound(a: Time, b: Time) -> (lub: Time)
    ensures
        lub == a.join(b),
{
    let lub = Product::new(a.outer, a.round).join(&Product::new(b.outer, b.round));
    Time { outer: lub.outer, round: lub.inner }
}

/// The least time of a frontier that is not empty.
pub open spec fn least(frontier: Seq<u64>) -> u64
    decreases frontier.len(),
{
    if frontier.len() <= 1 {
        frontier[0]
    } else {
        smaller(least(frontier.drop_last()), frontier.last())
    }
}

/// Advancing to a frontier that is not empty gives the time itself or the
/// least time of the frontier, whichever is later.
pub proof fn lemma_advanced_to_least(time: u64, frontier: Seq<u64>)
    requires
        frontier.len() > 0,
    ensures
        advanced(time, frontier) == larger(time, least(frontier)),
    decreases frontier.len(),
{
    if frontier.len() > 1 {
        lemma_advanced_to_least(time, frontier.drop_last());
    }
}

/// Advancing never goes back, and a time that was advanced to a frontier
/// stays where it is when it is advanced to that frontier again.
pub proof fn lemma_advanced_once(time: u64, frontier: Seq<u64>)
    ensures
        advanced(time, frontier) >= time,
        advanced(advanced(time, frontier), frontier) == advanced(time, frontier),
{
    if frontier.len() > 0 {
        lemma_advanced_to_least(time, frontier);
        lemma_advanced_to_least(advanced(time, frontier), frontier);
    }
}

} // verus!
