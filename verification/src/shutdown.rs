use vstd::prelude::*;

verus! {

/// An operator that a compilation has installed in a scope and that holds
/// resources until it is released.
#[derive(Debug, PartialEq, Eq)]
pub struct Resource {
    /// The name under which the operator was installed.
    pub label: String,
    /// Whether the operator has given up its resources.
    pub released: bool,
}

pub struct ResourceModel {
    pub label: Seq<char>,
    pub released: bool,
}

impl DeepView for Resource {
    type V = ResourceModel;

    open spec fn deep_view(&self) -> ResourceModel {
        ResourceModel { label: self.label@, released: self.released }
    }
}

/// The computation scope that plans are compiled into: the operators
/// installed so far, each found by its position.
#[derive(Debug, PartialEq, Eq)]
pub struct Scope {
    pub resources: Vec<Resource>,
}

impl DeepView for Scope {
    type V = Seq<ResourceModel>;

    open spec fn deep_view(&self) -> Seq<ResourceModel> {
        self.resources.deep_view()
    }
}

/// The token that releases one operator of a scope.
#[derive(Debug, PartialEq, Eq)]
pub struct ShutdownButton {
    pub resource: usize,
}

/// The tokens for all operators installed while compiling one plan.
#[derive(Debug, PartialEq, Eq)]
pub struct ShutdownHandle {
    shutdown_buttons: Vec<ShutdownButton>,
}

/// Whether one of the positions in `covered` is `position`.
pub open spec fn reaches(covered: Seq<usize>, position: int) -> bool {
    exists|k: int| 0 <= k < covered.len() && #[trigger] covered[k] == position
}

/// The operators of `scope` after those at the positions in `covered` have
/// been released.
pub open spec fn pressed(scope: Seq<ResourceModel>, covered: Seq<usize>) -> Seq<
    ResourceModel,
> {
    Seq::new(
        scope.len(),
        |i: int|
            ResourceModel {
                label: scope[i].label,
                released: scope[i].released || reaches(covered, i),
            },
    )
}

/// A freshly installed operator named `label`.
pub open spec fn live(label: Seq<char>) -> ResourceModel {
    ResourceModel { label, released: false }
}

/// The positions `from`, `from + 1`, .., `from + count - 1`.
pub open spec fn positions(from: int, count: nat) -> Seq<usize> {
    Seq::new(count, |i: int| (from + i) as usize)
}

impl Scope {
    pub fn new() -> (scope: Scope)
        ensures
            scope.deep_view() == Seq::<ResourceModel>::empty(),
    {
        let scope = Scope { resources: Vec::new() };
        assert(scope.deep_view() =~= Seq::<ResourceModel>::empty());
        scope
    }

    /// Installs an operator named `label` and hands out the token that
    /// releases it.
    pub fn install(&mut self, label: String) -> (button: ShutdownButton)
        ensures
            final(self).deep_view() == old(self).deep_view().push(live(label@)),
            button.resource == old(self).deep_view().len(),
    {
        let resource = self.resources.len();
        self.resources.push(Resource { label, released: false });
        assert(self.deep_view() =~= old(self).deep_view().push(live(label@)));
        ShutdownButton { resource }
    }

    /// Removes every operator installed at position `mark` or later.
    pub(crate) fn rewind(&mut self, mark: usize)
        requires
            mark <= old(self).deep_view().len(),
        ensures
            final(self).deep_view() == old(self).deep_view().take(mark as int),
    {
        self.resources.truncate(mark);
        assert(self.deep_view() =~= old(self).deep_view().take(mark as int));
    }

    /// The number of operators installed so far.
    pub fn len(&self) -> (n: usize)
        ensures
            n == self.deep_view().len(),
    {
        self.resources.len()
    }
}

impl ShutdownHandle {
    /// The positions of the operators that this handle releases, in the
    /// order in which their tokens were added.
    pub closed spec fn covers(&self) -> Seq<usize> {
        Seq::new(self.shutdown_buttons@.len(), |i: int| self.shutdown_buttons@[i].resource)
    }

    /// A handle that releases nothing.
    pub fn empty() -> (handle: ShutdownHandle)
        ensures
            handle.covers() == Seq::<usize>::empty(),
    {
        let handle = ShutdownHandle { shutdown_buttons: Vec::new() };
        assert(handle.covers() =~= Seq::<usize>::empty());
        handle
    }

    /// A handle that releases the one operator of `button`.
    pub fn from_button(button: ShutdownButton) -> (handle: ShutdownHandle)
        ensures
            handle.covers() == seq![button.resource],
    {
        let mut shutdown_buttons: Vec<ShutdownButton> = Vec::new();
        shutdown_buttons.push(button);
        let handle = ShutdownHandle { shutdown_buttons };
        assert(handle.covers() =~= seq![button.resource]);
        handle
    }

    /// Adds one token.
    pub fn add_button(&mut self, button: ShutdownButton)
        ensures
            final(self).covers() == old(self).covers().push(button.resource),
    {
        self.shutdown_buttons.push(button);
        assert(self.covers() =~= old(self).covers().push(button.resource));
    }

    /// Takes over every token of `other`, behind those already held.
    pub fn merge_with(&mut self, other: ShutdownHandle)
        ensures
            final(self).covers() == old(self).covers() + other.covers(),
    {
        let ghost taken = other.covers();
        let mut other = other;
        self.shutdown_buttons.append(&mut other.shutdown_buttons);
        assert(self.covers() =~= old(self).covers() + taken);
    }

    /// Releases every operator that the handle covers, and no other.
    /// A token for a position that `scope` does not have releases nothing.
    pub fn press(self, scope: &mut Scope)
        ensures
            final(scope).deep_view() == pressed(old(scope).deep_view(), self.covers()),
    {
        let n = self.shutdown_buttons.len();
        let mut k: usize = 0;
        while k < n
            invariant
                n == self.shutdown_buttons@.len(),
                k <= n,
                scope.deep_view() == pressed(old(scope).deep_view(), self.covers().take(k as int)),
            decreases n - k,
        {
            let position = self.shutdown_buttons[k].resource;
            let ghost before = scope.deep_view();
            if position < scope.resources.len() {
                scope.resources[position].released = true;
            }
            proof {
                let shorter = self.covers().take(k as int);
                let longer = self.covers().take(k + 1);
                assert(longer =~= shorter.push(position));
                assert forall|i: int| 0 <= i < before.len() implies (reaches(longer, i) <==> (
                reaches(shorter, i) || i == position)) by {
                    if reaches(longer, i) {
                        let j = choose|j: int| 0 <= j < longer.len() && #[trigger] longer[j] == i;
                        if j < k {
                            assert(shorter[j] == i);
                        }
                    }
                    if reaches(shorter, i) {
                        let j = choose|j: int|
                            0 <= j < shorter.len() && #[trigger] shorter[j] == i;
                        assert(longer[j] == i);
                    }
                    if i == position {
                        assert(longer[k as int] == i);
                    }
                }
                assert(scope.deep_view().len() == before.len());
                assert forall|i: int| 0 <= i < before.len() implies scope.deep_view()[i]
                    == pressed(old(scope).deep_view(), longer)[i] by {
                    assert(before[i] == pressed(old(scope).deep_view(), shorter)[i]);
                    if i == position {
                        assert(scope.deep_view()[i].label == before[i].label);
                        assert(scope.deep_view()[i].released);
                    } else {
                        assert(scope.deep_view()[i] == before[i]);
                    }
                }
                assert(scope.deep_view() =~= pressed(old(scope).deep_view(), longer));
            }
            k += 1;
        }
        proof {
            assert(self.covers().take(n as int) =~= self.covers());
        }
    }
}

/// Merging is associative: three handles cover the same operators, in the
/// same order, however the merges are grouped.
pub proof fn lemma_merge_associative(a: Seq<usize>, b: Seq<usize>, c: Seq<usize>)
    ensures
        (a + b) + c == a + (b + c),
{
    assert((a + b) + c =~= a + (b + c));
}

/// A merged handle covers each operator as often as the two handles
/// together: merging loses no token and doubles none.
pub proof fn lemma_merge_covers_both(a: Seq<usize>, b: Seq<usize>)
    ensures
        (a + b).to_multiset() == a.to_multiset().add(b.to_multiset()),
        forall|position: int| reaches(a + b, position) <==> reaches(a, position) || reaches(b, position),
{
    vstd::seq_lib::lemma_multiset_commutative(a, b);
    assert forall|position: int| reaches(a + b, position) <==> reaches(a, position) || reaches(
        b,
        position,
    ) by {
        if reaches(a + b, position) {
            let k = choose|k: int| 0 <= k < (a + b).len() && #[trigger] (a + b)[k] == position;
            if k < a.len() {
                assert(a[k] == position);
            } else {
                assert(b[k - a.len()] == position);
            }
        }
        if reaches(a, position) {
            let k = choose|k: int| 0 <= k < a.len() && #[trigger] a[k] == position;
            assert((a + b)[k] == position);
        }
        if reaches(b, position) {
            let k = choose|k: int| 0 <= k < b.len() && #[trigger] b[k] == position;
            assert((a + b)[a.len() + k] == position);
        }
    }
}

/// Merging is commutative in what is covered: either way round each
/// operator is covered as often, and pressing releases the same operators.
pub proof fn lemma_merge_commutative(scope: Seq<ResourceModel>, a: Seq<usize>, b: Seq<usize>)
    ensures
        (a + b).to_multiset() == (b + a).to_multiset(),
        pressed(scope, a + b) == pressed(scope, b + a),
{
    vstd::seq_lib::lemma_seq_union_to_multiset_commutative(a, b);
    lemma_merge_covers_both(a, b);
    lemma_merge_covers_both(b, a);
    assert forall|i: int| 0 <= i < scope.len() implies pressed(scope, a + b)[i] == pressed(
        scope,
        b + a,
    )[i] by {
        assert(reaches(a + b, i) <==> reaches(a, i) || reaches(b, i));
        assert(reaches(b + a, i) <==> reaches(b, i) || reaches(a, i));
    }
    assert(pressed(scope, a + b) =~= pressed(scope, b + a));
}

/// Pressing a merged handle releases the union of what the two handles
/// cover: it leaves the scope as pressing one and then the other does.
pub proof fn lemma_press_merged(scope: Seq<ResourceModel>, a: Seq<usize>, b: Seq<usize>)
    ensures
        pressed(scope, a + b) == pressed(pressed(scope, a), b),
{
    lemma_merge_covers_both(a, b);
    assert forall|i: int| 0 <= i < scope.len() implies pressed(scope, a + b)[i] == pressed(
        pressed(scope, a),
        b,
    )[i] by {
        assert(reaches(a + b, i) <==> reaches(a, i) || reaches(b, i));
    }
    assert(pressed(scope, a + b) =~= pressed(pressed(scope, a), b));
}

/// Pressing the handle that any number of handles were merged into
/// releases an operator if and only if one of them covers it, and covers
/// each operator as often as all of them together.
pub proof fn lemma_press_all(scope: Seq<ResourceModel>, handles: Seq<Seq<usize>>)
    ensures
        forall|position: int|
            reaches(handles.flatten(), position) <==> exists|h: int|
                0 <= h < handles.len() && reaches(#[trigger] handles[h], position),
        forall|position: int|
            0 <= position < scope.len() ==> ((#[trigger] pressed(
                scope,
                handles.flatten(),
            )[position]).released <==> scope[position].released || exists|h: int|
                0 <= h < handles.len() && reaches(#[trigger] handles[h], position)),
    decreases handles.len(),
{
    if handles.len() == 0 {
        assert(handles.flatten() =~= Seq::<usize>::empty());
        assert forall|position: int| !reaches(handles.flatten(), position) by {}
    } else {
        let earlier = handles.drop_last();
        let last = handles.last();
        lemma_press_all(scope, earlier);
        assert(earlier.push(last) =~= handles);
        earlier.lemma_flatten_push(last);
        assert(handles.flatten() == earlier.flatten() + last);
        lemma_merge_covers_both(earlier.flatten(), last);
        assert forall|position: int|
            reaches(handles.flatten(), position) <==> exists|h: int|
                0 <= h < handles.len() && reaches(#[trigger] handles[h], position) by {
            assert(reaches(handles.flatten(), position) <==> reaches(earlier.flatten(), position)
                || reaches(last, position));
            assert(reaches(earlier.flatten(), position) <==> exists|h: int|
                0 <= h < earlier.len() && reaches(#[trigger] earlier[h], position));
            if reaches(last, position) {
                assert(reaches(handles[handles.len() - 1], position));
            }
            if reaches(earlier.flatten(), position) {
                let h = choose|h: int|
                    0 <= h < earlier.len() && reaches(#[trigger] earlier[h], position);
                assert(reaches(handles[h], position));
            }
            if exists|h: int| 0 <= h < handles.len() && reaches(#[trigger] handles[h], position) {
                let h = choose|h: int|
                    0 <= h < handles.len() && reaches(#[trigger] handles[h], position);
                if h < earlier.len() {
                    assert(reaches(earlier[h], position));
                } else {
                    assert(handles[h] == last);
                }
            }
        }
    }
}

/// Handles that cover no operator twice and share none cover, once they
/// are merged, each of their operators exactly once.
pub proof fn lemma_merge_once(a: Seq<usize>, b: Seq<usize>)
    requires
        a.no_duplicates(),
        b.no_duplicates(),
        forall|i: int, j: int| 0 <= i < a.len() && 0 <= j < b.len() ==> a[i] != b[j],
    ensures
        (a + b).no_duplicates(),
        forall|position: usize|
            (a + b).contains(position) ==> (a + b).to_multiset().count(position) == 1,
{
    assert((a + b).no_duplicates());
    (a + b).lemma_multiset_has_no_duplicates();
    assert forall|position: usize| (a + b).contains(position) implies (a + b).to_multiset().count(
        position,
    ) == 1 by {
        (a + b).to_multiset_ensures();
    }
}

/// The handles of two compilations into one scope, one after the other,
/// share no operator, and neither covers one twice.
pub proof fn lemma_positions_apart(from: int, first: nat, second: nat)
    requires
        0 <= from,
        from + first + second <= usize::MAX + 1,
    ensures
        positions(from, first).no_duplicates(),
        positions(from + first, second).no_duplicates(),
        forall|i: int, j: int|
            0 <= i < first && 0 <= j < second ==> #[trigger] positions(from, first)[i]
                != #[trigger] positions(from + first, second)[j],
{
}

} // verus!
