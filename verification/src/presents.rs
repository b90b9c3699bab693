//! The present-processing protocol: an unordered bag of presents, a chain
//! kept in ascending order, and the servants' role-alternation loop with its
//! decentralized termination rule.
//!
//! The protocol moves every present `1..=n` from the bag into the chain
//! (transfer) and from the front of the chain to the thank-you counter
//! (finalize). A servant stops only after seeing its own target container
//! empty and then the complementary container empty as well.

use vstd::prelude::*;
use vstd::multiset::Multiset;
use rand::seq::SliceRandom;

verus! {

broadcast use
    vstd::seq_lib::group_to_multiset_ensures,
    vstd::multiset::group_multiset_axioms;

// ---------------------------------------------------------------------------
// The presents themselves
// ---------------------------------------------------------------------------

/// The presents `1..=n`, as a sequence in their initial numbered order.
pub open spec fn present_run(n: nat) -> Seq<usize> {
    Seq::new(n, |i: int| (i + 1) as usize)
}

/// The presents `1..=n`, as the multiset both containers draw from.
pub open spec fn all_presents(n: nat) -> Multiset<usize> {
    present_run(n).to_multiset()
}

/// Each identifier in `1..=n` occurs exactly once among all presents, and no
/// other identifier occurs at all.
pub proof fn lemma_all_presents_count(n: nat, v: usize)
    requires
        n <= usize::MAX,
    ensures
        all_presents(n).count(v) == if 1 <= v <= n { 1nat } else { 0nat },
    decreases n,
{
    if n == 0 {
        assert(present_run(0) =~= Seq::<usize>::empty());
    } else {
        lemma_all_presents_count((n - 1) as nat, v);
        assert(present_run(n) =~= present_run((n - 1) as nat).push(n as usize));
    }
}

/// There are `n` presents in all.
pub proof fn lemma_all_presents_len(n: nat)
    ensures
        all_presents(n).len() == n,
{
    assert(present_run(n).len() == n);
}

// ---------------------------------------------------------------------------
// Source pool: the large bag
// ---------------------------------------------------------------------------

/// The unordered bag of presents not yet merged into the chain.
pub struct SourcePool {
    items: Vec<usize>,
}

impl View for SourcePool {
    type V = Seq<usize>;

    closed spec fn view(&self) -> Seq<usize> {
        self.items@
    }
}

/// Relies on rand's `SliceRandom::shuffle` (a Fisher-Yates pass that only
/// swaps elements of the slice in place) with the generator from `rand::rng`:
/// the elements are rearranged, none added or removed.
#[verifier::external_body]
fn shuffle_presents(items: &mut Vec<usize>)
    ensures
        final(items)@.to_multiset() == old(items)@.to_multiset(),
        final(items)@.len() == old(items)@.len(),
{
    items.shuffle(&mut rand::rng());
}

impl SourcePool {
    /// Fill the bag with the presents `1..=n` in a uniformly randomized
    /// order.
    pub fn new_randomized(n: usize) -> (pool: SourcePool)
        ensures
            pool@.to_multiset() == all_presents(n as nat),
            pool@.len() == n,
    {
        let mut items: Vec<usize> = Vec::new();
        let mut next: usize = 0;
        while next < n
            invariant
                next <= n,
                items@ == present_run(next as nat),
            decreases n - next,
        {
            next += 1;
            items.push(next);
            proof {
                assert(items@ =~= present_run(next as nat));
            }
        }
        shuffle_presents(&mut items);
        SourcePool { items }
    }

    /// Remove and return an arbitrary present, or none if the bag is empty.
    pub fn try_take(&mut self) -> (taken: Option<usize>)
        ensures
            old(self)@.len() > 0 ==> {
                &&& taken == Some(old(self)@.last())
                &&& final(self)@ == old(self)@.drop_last()
                &&& old(self)@.to_multiset()
                    == final(self)@.to_multiset().insert(old(self)@.last())
            },
            old(self)@.len() == 0 ==> taken is None && final(self)@ == old(self)@,
    {
        let taken = self.items.pop();
        proof {
            if old(self)@.len() > 0 {
                assert(old(self)@ =~= final(self)@.push(old(self)@.last()));
            }
        }
        taken
    }

    /// A snapshot of the bag's emptiness; it may change right after the call.
    pub fn is_empty(&self) -> (empty: bool)
        ensures
            empty == (self@.len() == 0),
    {
        self.items.is_empty()
    }

    /// How many presents are still in the bag.
    pub fn len(&self) -> (n: usize)
        ensures
            n == self@.len(),
    {
        self.items.len()
    }
}

// ---------------------------------------------------------------------------
// Ordered sequence: the chain of presents
// ---------------------------------------------------------------------------

/// The chain is ascending: no element is smaller than one before it.
pub open spec fn sorted(s: Seq<usize>) -> bool {
    forall|i: int, j: int| 0 <= i < j < s.len() ==> s[i] <= s[j]
}

/// Strictly ascending order, as the chain exhibits once its presents are
/// known to be distinct.
pub open spec fn strictly_sorted(s: Seq<usize>) -> bool {
    forall|i: int, j: int| 0 <= i < j < s.len() ==> s[i] < s[j]
}

/// Where a new present belongs: the index of the first element strictly
/// greater than `present`, or the length if no such element exists.
pub open spec fn insertion_point(s: Seq<usize>, present: usize) -> int
    decreases s.len(),
{
    if s.len() == 0 {
        0
    } else if present < s[0] {
        0
    } else {
        1 + insertion_point(s.drop_first(), present)
    }
}

proof fn lemma_insertion_point_bounds(s: Seq<usize>, present: usize)
    ensures
        0 <= insertion_point(s, present) <= s.len(),
        forall|k: int| 0 <= k < insertion_point(s, present) ==> s[k] <= present,
        insertion_point(s, present) < s.len() ==> present < s[insertion_point(s, present)],
    decreases s.len(),
{
    if s.len() == 0 {
    } else if present < s[0] {
    } else {
        lemma_insertion_point_bounds(s.drop_first(), present);
        let p = insertion_point(s, present);
        assert forall|k: int| 0 <= k < p implies s[k] <= present by {
            if k > 0 {
                assert(s.drop_first()[k - 1] == s[k]);
            }
        }
    }
}

/// The insertion point is the unique position whose left neighbours are all
/// at most the present and whose right neighbour, if any, is greater.
proof fn lemma_insertion_point_unique(s: Seq<usize>, present: usize, p: int)
    requires
        0 <= p <= s.len(),
        forall|k: int| 0 <= k < p ==> s[k] <= present,
        p < s.len() ==> present < s[p],
    ensures
        p == insertion_point(s, present),
{
    lemma_insertion_point_bounds(s, present);
    let q = insertion_point(s, present);
    if p < q {
        assert(s[p] <= present);
    } else if q < p {
        assert(s[q] <= present);
    }
}

/// Splice a present into an already sorted chain, immediately before the
/// first element strictly greater than it, scanning from the front.
pub fn add_present_to_chain(chain: &mut Vec<usize>, present: usize)
    requires
        sorted(old(chain)@),
    ensures
        final(chain)@ == old(chain)@.insert(insertion_point(old(chain)@, present), present),
        final(chain)@.to_multiset() == old(chain)@.to_multiset().insert(present),
        sorted(final(chain)@),
{
    proof {
        lemma_insertion_point_bounds(chain@, present);
    }
    let ghost orig = chain@;
    let mut index: usize = 0;
    while index < chain.len() && chain[index] <= present
        invariant
            0 <= index <= chain.len(),
            chain@ == orig,
            forall|k: int| 0 <= k < index ==> chain@[k] <= present,
        decreases chain.len() - index,
    {
        index += 1;
    }
    proof {
        lemma_insertion_point_unique(orig, present, index as int);
    }
    chain.insert(index, present);
    proof {
        vstd::seq_lib::to_multiset_insert(orig, index as int, present);
        assert(sorted(chain@)) by {
            lemma_insertion_point_bounds(orig, present);
        }
    }
}

/// The chain of presents, kept in ascending order between lock releases.
pub struct OrderedSequence {
    items: Vec<usize>,
}

impl View for OrderedSequence {
    type V = Seq<usize>;

    closed spec fn view(&self) -> Seq<usize> {
        self.items@
    }
}

impl OrderedSequence {
    /// The chain is sorted at every observable instant.
    #[verifier::type_invariant]
    closed spec fn inv(self) -> bool {
        sorted(self.items@)
    }

    /// An empty chain.
    pub fn new() -> (chain: OrderedSequence)
        ensures
            chain@ == Seq::<usize>::empty(),
    {
        OrderedSequence { items: Vec::new() }
    }

    /// Merge a present into the chain at its sorted position.
    pub fn insert_sorted(&mut self, present: usize)
        ensures
            sorted(old(self)@),
            final(self)@ == old(self)@.insert(insertion_point(old(self)@, present), present),
            final(self)@.to_multiset() == old(self)@.to_multiset().insert(present),
            final(self)@.len() == old(self)@.len() + 1,
            sorted(final(self)@),
    {
        proof {
            use_type_invariant(&*self);
        }
        let mut items: Vec<usize> = Vec::new();
        core::mem::swap(&mut items, &mut self.items);
        add_present_to_chain(&mut items, present);
        core::mem::swap(&mut items, &mut self.items);
        proof {
            lemma_insertion_point_bounds(old(self)@, present);
        }
    }

    /// Remove and return the smallest present, or none if the chain is
    /// empty.
    pub fn take_front(&mut self) -> (front: Option<usize>)
        ensures
            sorted(old(self)@),
            old(self)@.len() > 0 ==> {
                &&& front == Some(old(self)@.first())
                &&& final(self)@ == old(self)@.drop_first()
                &&& old(self)@.to_multiset()
                    == final(self)@.to_multiset().insert(old(self)@.first())
                &&& forall|k: int| 0 <= k < old(self)@.len() ==> old(self)@.first() <= old(self)@[k]
            },
            old(self)@.len() == 0 ==> front is None && final(self)@ == old(self)@,
    {
        proof {
            use_type_invariant(&*self);
        }
        if self.items.len() == 0 {
            None
        } else {
            let mut items: Vec<usize> = Vec::new();
            core::mem::swap(&mut items, &mut self.items);
            let front = items.remove(0);
            core::mem::swap(&mut items, &mut self.items);
            proof {
                let orig = old(self)@;
                assert(final(self)@ =~= orig.drop_first());
                assert(orig =~= final(self)@.insert(0, front));
                vstd::seq_lib::to_multiset_insert(final(self)@, 0, front);
            }
            Some(front)
        }
    }

    /// Whether a present with the given identifier is on the chain; a linear
    /// scan under shared access.
    pub fn contains(&self, present_id: usize) -> (found: bool)
        ensures
            found == self@.contains(present_id),
    {
        let mut index: usize = 0;
        while index < self.items.len()
            invariant
                0 <= index <= self@.len(),
                forall|k: int| 0 <= k < index ==> self@[k] != present_id,
            decreases self@.len() - index,
        {
            if self.items[index] == present_id {
                return true;
            }
            index += 1;
        }
        false
    }

    /// A snapshot of the chain's emptiness; it may change right after the
    /// call.
    pub fn is_empty(&self) -> (empty: bool)
        ensures
            empty == (self@.len() == 0),
    {
        self.items.is_empty()
    }

    /// How many presents are on the chain.
    pub fn len(&self) -> (n: usize)
        ensures
            n == self@.len(),
    {
        self.items.len()
    }
}

// ---------------------------------------------------------------------------
// Servant roles and the termination rule
// ---------------------------------------------------------------------------

/// What a servant does next; each servant alternates between the first two
/// roles, the third is an auxiliary membership query.
#[derive(Clone, Copy, PartialEq, Eq, Structural, Debug)]
pub enum ServantAction {
    /// Take a present from the bag and add it to the chain in the correct
    /// location.
    AddPresentToChain,
    /// Remove the front present from the chain and write a thank you card
    /// for it.
    WriteThankYouCard,
    /// Check whether the present with the given identifier is on the chain.
    CheckIfPresentOnChain(usize),
}

/// How one step of a servant's loop ended.
#[derive(Clone, Copy, PartialEq, Eq, Structural, Debug)]
pub enum StepResult {
    /// A present was moved; the servant toggles to its other role.
    DidWork,
    /// Both containers were observed empty: the servant's job is done.
    Finished,
    /// The servant's own target was empty but the complementary container
    /// was not: some present is still in flight, so the servant must retry
    /// the same role.
    MustWait,
}

/// The role a servant takes after completing a step: the two working roles
/// toggle unconditionally, the membership query falls back to transferring.
pub fn next_action(current: ServantAction) -> (next: ServantAction)
    ensures
        next == (match current {
            ServantAction::AddPresentToChain => ServantAction::WriteThankYouCard,
            ServantAction::WriteThankYouCard => ServantAction::AddPresentToChain,
            ServantAction::CheckIfPresentOnChain(_) => ServantAction::AddPresentToChain,
        }),
{
    match current {
        ServantAction::AddPresentToChain => ServantAction::WriteThankYouCard,
        ServantAction::WriteThankYouCard => ServantAction::AddPresentToChain,
        ServantAction::CheckIfPresentOnChain(_) => ServantAction::AddPresentToChain,
    }
}

/// The termination rule of the protocol: a servant that found its own target
/// container empty stops exactly when the complementary container was also
/// observed empty, and otherwise retries the same role.
pub fn resolve_empty_probe(complement_empty: bool) -> (result: StepResult)
    ensures
        result == (if complement_empty { StepResult::Finished } else { StepResult::MustWait }),
{
    if complement_empty {
        StepResult::Finished
    } else {
        StepResult::MustWait
    }
}

// ---------------------------------------------------------------------------
// The whole system, and the protocol's laws
// ---------------------------------------------------------------------------

/// The shared state of a run: the bag, the chain, the thank-you counter, and
/// (as a ghost record) the multiset of presents already finished.
pub struct PresentSystem {
    pub pool: SourcePool,
    pub chain: OrderedSequence,
    pub counter: usize,
    pub total: usize,
    pub finished: Ghost<Multiset<usize>>,
}

impl PresentSystem {
    /// The state invariant: every present of `1..=total` is in exactly one
    /// of bag, chain or finished record; the counter counts the finished
    /// presents; the chain is sorted.
    pub open spec fn wf(self) -> bool {
        &&& self.pool@.to_multiset().add(self.chain@.to_multiset()).add(self.finished@)
            == all_presents(self.total as nat)
        &&& self.counter == self.finished@.len()
        &&& sorted(self.chain@)
    }

    /// Set up a run: the bag holds `1..=n` in randomized order, the chain is
    /// empty and nothing is finished.
    pub fn new(n: usize) -> (sys: PresentSystem)
        ensures
            sys.wf(),
            sys.total == n,
            sys.counter == 0,
            sys.pool@.len() == n,
            sys.chain@.len() == 0,
            sys.finished@ == Multiset::<usize>::empty(),
    {
        let pool = SourcePool::new_randomized(n);
        let chain = OrderedSequence::new();
        let sys = PresentSystem {
            pool,
            chain,
            counter: 0,
            total: n,
            finished: Ghost(Multiset::empty()),
        };
        proof {
            assert(sys.chain@.to_multiset() =~= Multiset::<usize>::empty());
            assert(sys.pool@.to_multiset().add(sys.chain@.to_multiset()).add(sys.finished@)
                =~= all_presents(n as nat));
        }
        sys
    }

    /// One transfer step: try to take a present from the bag; on success
    /// merge it into the chain, otherwise apply the termination rule to a
    /// snapshot of the chain's emptiness.
    pub fn transfer_step(&mut self) -> (result: StepResult)
        requires
            old(self).wf(),
        ensures
            final(self).wf(),
            final(self).total == old(self).total,
            final(self).counter == old(self).counter,
            final(self).finished == old(self).finished,
            (match result {
                StepResult::DidWork => {
                    &&& old(self).pool@.len() > 0
                    &&& final(self).pool@ == old(self).pool@.drop_last()
                    &&& final(self).chain@.to_multiset()
                        == old(self).chain@.to_multiset().insert(old(self).pool@.last())
                    &&& final(self).chain@.len() == old(self).chain@.len() + 1
                },
                StepResult::Finished => {
                    &&& old(self).pool@.len() == 0
                    &&& old(self).chain@.len() == 0
                    &&& final(self).pool@ == old(self).pool@
                    &&& final(self).chain@ == old(self).chain@
                },
                StepResult::MustWait => {
                    &&& old(self).pool@.len() == 0
                    &&& old(self).chain@.len() > 0
                    &&& final(self).pool@ == old(self).pool@
                    &&& final(self).chain@ == old(self).chain@
                },
            }),
    {
        let taken = self.pool.try_take();
        match taken {
            Some(present) => {
                self.chain.insert_sorted(present);
                proof {
                    let lhs = self.pool@.to_multiset().add(self.chain@.to_multiset()).add(
                        self.finished@,
                    );
                    let rhs = all_presents(old(self).total as nat);
                    assert forall|v: usize| lhs.count(v) == rhs.count(v) by {
                        assert(old(self).pool@.to_multiset().count(v) == self.pool@.to_multiset().count(v)
                            + if v == present { 1int } else { 0int });
                        assert(self.chain@.to_multiset().count(v) == old(self).chain@.to_multiset().count(v)
                            + if v == present { 1int } else { 0int });
                    }
                    assert(lhs =~= rhs);
                }
                StepResult::DidWork
            },
            None => {
                let chain_empty = self.chain.is_empty();
                resolve_empty_probe(chain_empty)
            },
        }
    }

    /// One finalize step: try to take the front present off the chain; on
    /// success count it as finished, otherwise apply the termination rule to
    /// a snapshot of the bag's emptiness.
    pub fn finalize_step(&mut self) -> (result: StepResult)
        requires
            old(self).wf(),
        ensures
            final(self).wf(),
            final(self).total == old(self).total,
            final(self).pool@ == old(self).pool@,
            (match result {
                StepResult::DidWork => {
                    &&& old(self).chain@.len() > 0
                    &&& final(self).chain@ == old(self).chain@.drop_first()
                    &&& final(self).counter == old(self).counter + 1
                    &&& final(self).finished@
                        == old(self).finished@.insert(old(self).chain@.first())
                },
                StepResult::Finished => {
                    &&& old(self).chain@.len() == 0
                    &&& old(self).pool@.len() == 0
                    &&& final(self).chain@ == old(self).chain@
                    &&& final(self).counter == old(self).counter
                    &&& final(self).finished == old(self).finished
                },
                StepResult::MustWait => {
                    &&& old(self).chain@.len() == 0
                    &&& old(self).pool@.len() > 0
                    &&& final(self).chain@ == old(self).chain@
                    &&& final(self).counter == old(self).counter
                    &&& final(self).finished == old(self).finished
                },
            }),
    {
        let front = self.chain.take_front();
        match front {
            Some(present) => {
                proof {
                    lemma_conservation(*old(self));
                }
                self.counter = self.counter + 1;
                self.finished = Ghost(self.finished@.insert(present));
                proof {
                    let lhs = self.pool@.to_multiset().add(self.chain@.to_multiset()).add(
                        self.finished@,
                    );
                    let rhs = all_presents(old(self).total as nat);
                    assert forall|v: usize| lhs.count(v) == rhs.count(v) by {
                        assert(old(self).chain@.to_multiset().count(v) == self.chain@.to_multiset().count(v)
                            + if v == present { 1int } else { 0int });
                        assert(self.finished@.count(v) == old(self).finished@.count(v)
                            + if v == present { 1int } else { 0int });
                    }
                    assert(lhs =~= rhs);
                }
                StepResult::DidWork
            },
            None => {
                let pool_empty = self.pool.is_empty();
                resolve_empty_probe(pool_empty)
            },
        }
    }
}

/// Conservation: in every reachable state, the presents in the bag, on the
/// chain and already counted add up to the whole party.
pub proof fn lemma_conservation(sys: PresentSystem)
    requires
        sys.wf(),
    ensures
        sys.pool@.len() + sys.chain@.len() + sys.counter == sys.total,
{
    lemma_all_presents_len(sys.total as nat);
}

/// No duplication, no loss: each present of `1..=total` sits in exactly one
/// of bag, chain and finished record, and nothing else is anywhere.
pub proof fn lemma_exclusive_location(sys: PresentSystem, v: usize)
    requires
        sys.wf(),
    ensures
        sys.pool@.to_multiset().count(v) + sys.chain@.to_multiset().count(v)
            + sys.finished@.count(v) == if 1 <= v <= sys.total { 1int } else { 0int },
{
    lemma_all_presents_count(sys.total as nat, v);
}

/// Sortedness, strictly: because the presents are distinct, the chain is in
/// strictly ascending order in every reachable state.
pub proof fn lemma_chain_strictly_sorted(sys: PresentSystem)
    requires
        sys.wf(),
    ensures
        strictly_sorted(sys.chain@),
{
    assert forall|v: usize| sys.chain@.to_multiset().contains(v)
        implies sys.chain@.to_multiset().count(v) == 1 by {
        lemma_exclusive_location(sys, v);
    }
    sys.chain@.lemma_multiset_has_no_duplicates_conv();
    assert forall|i: int, j: int| 0 <= i < j < sys.chain@.len()
        implies sys.chain@[i] < sys.chain@[j] by {
        assert(sys.chain@[i] <= sys.chain@[j]);
        assert(sys.chain@[i] != sys.chain@[j]);
    }
}

/// Soundness of termination detection: a servant that has observed both
/// containers empty may conclude that every present has been finished and
/// the counter has reached the total.
pub proof fn lemma_termination_sound(sys: PresentSystem)
    requires
        sys.wf(),
        sys.pool@.len() == 0,
        sys.chain@.len() == 0,
    ensures
        sys.counter == sys.total,
        sys.finished@ == all_presents(sys.total as nat),
{
    lemma_conservation(sys);
    assert(sys.finished@ =~= all_presents(sys.total as nat)) by {
        assert(sys.pool@.to_multiset().len() == 0);
        assert(sys.chain@.to_multiset().len() == 0);
    }
}

// ---------------------------------------------------------------------------
// Presents in flight between the two locks of a step
// ---------------------------------------------------------------------------

/// A snapshot of the shared state at an arbitrary instant, counting also the
/// presents that have left one container but not yet entered the next: they
/// are held only in some servant's hands, between the two lock acquisitions
/// of a step. The two containers are locked independently, so such instants
/// are observable by the other servants.
pub struct FlightView {
    pub bag: Multiset<usize>,
    pub chain: Multiset<usize>,
    pub in_hand: Multiset<usize>,
    pub finished: Multiset<usize>,
}

/// Conservation refined to every instant, not only to synchronization
/// points: the bag, the chain, the servants' hands and the finished record
/// together hold each present exactly once.
pub open spec fn conserved(v: FlightView, total: nat) -> bool {
    v.bag.add(v.chain).add(v.in_hand).add(v.finished) == all_presents(total)
}

/// A transfer step in its two halves: the present leaves the bag under the
/// bag's lock and joins the chain under the chain's lock; refined
/// conservation holds before, between and after.
pub proof fn lemma_transfer_halves_conserve(
    pre: FlightView,
    mid: FlightView,
    post: FlightView,
    total: nat,
    p: usize,
)
    requires
        conserved(pre, total),
        pre.bag.count(p) > 0,
        mid == (FlightView { bag: pre.bag.remove(p), in_hand: pre.in_hand.insert(p), ..pre }),
        post == (FlightView { in_hand: mid.in_hand.remove(p), chain: mid.chain.insert(p), ..mid }),
    ensures
        conserved(mid, total),
        conserved(post, total),
{
    assert(mid.bag.add(mid.chain).add(mid.in_hand).add(mid.finished) =~= all_presents(total));
    assert(post.bag.add(post.chain).add(post.in_hand).add(post.finished) =~= all_presents(total));
}

/// A finalize step in its two halves: the present leaves the chain's front
/// under the chain's lock and is counted afterwards; refined conservation
/// holds before, between and after.
pub proof fn lemma_finalize_halves_conserve(
    pre: FlightView,
    mid: FlightView,
    post: FlightView,
    total: nat,
    p: usize,
)
    requires
        conserved(pre, total),
        pre.chain.count(p) > 0,
        mid == (FlightView { chain: pre.chain.remove(p), in_hand: pre.in_hand.insert(p), ..pre }),
        post == (FlightView {
            in_hand: mid.in_hand.remove(p),
            finished: mid.finished.insert(p),
            ..mid
        }),
    ensures
        conserved(mid, total),
        conserved(post, total),
{
    assert(mid.bag.add(mid.chain).add(mid.in_hand).add(mid.finished) =~= all_presents(total));
    assert(post.bag.add(post.chain).add(post.in_hand).add(post.finished) =~= all_presents(total));
}

/// Soundness of the both-empty observation at an arbitrary instant: it
/// proves the job done exactly when no servant holds a present in its hands
/// at that instant.
pub proof fn lemma_idle_observation_sound(v: FlightView, total: nat)
    requires
        conserved(v, total),
        v.bag.len() == 0,
        v.chain.len() == 0,
        v.in_hand.len() == 0,
    ensures
        v.finished == all_presents(total),
{
    assert(v.finished =~= all_presents(total));
}

/// The hazard itself: without the idleness premise the observation is not
/// sound. Both containers can be empty at an instant when a present is still
/// in a servant's hands, so the job is not done.
pub proof fn lemma_observation_unsound_in_flight()
    ensures
        exists|v: FlightView|
            {
                &&& #[trigger] conserved(v, 1)
                &&& v.bag.len() == 0
                &&& v.chain.len() == 0
                &&& v.finished != all_presents(1)
            },
{
    let v = FlightView {
        bag: Multiset::empty(),
        chain: Multiset::empty(),
        in_hand: Multiset::empty().insert(1usize),
        finished: Multiset::empty(),
    };
    lemma_all_presents_count(1, 1usize);
    assert(conserved(v, 1)) by {
        assert(v.bag.add(v.chain).add(v.in_hand).add(v.finished) =~= all_presents(1));
    }
    assert(v.finished.count(1usize) == 0);
    assert(v.finished != all_presents(1));
}

/// A full sequential run: one servant alternating its two roles processes
/// every present and stops by its own termination rule; the loop is proved
/// to terminate.
pub fn run_single_servant(n: usize) -> (sys: PresentSystem)
    ensures
        sys.wf(),
        sys.total == n,
        sys.counter == n,
        sys.pool@.len() == 0,
        sys.chain@.len() == 0,
        sys.finished@ == all_presents(n as nat),
{
    let mut sys = PresentSystem::new(n);
    let mut role = ServantAction::AddPresentToChain;
    loop
        invariant
            sys.wf(),
            sys.total == n,
            role is AddPresentToChain || role is WriteThankYouCard,
            role is AddPresentToChain ==> sys.chain@.len() == 0,
            role is WriteThankYouCard ==> sys.chain@.len() == 1,
        ensures
            sys.wf(),
            sys.total == n,
            sys.pool@.len() == 0,
            sys.chain@.len() == 0,
        decreases 2 * sys.pool@.len() + sys.chain@.len(),
    {
        match role {
            ServantAction::AddPresentToChain => {
                match sys.transfer_step() {
                    StepResult::DidWork => {
                        role = next_action(role);
                    },
                    StepResult::Finished => {
                        break;
                    },
                    StepResult::MustWait => {
                        proof {
                            assert(false);
                        }
                        break;
                    },
                }
            },
            ServantAction::WriteThankYouCard => {
                match sys.finalize_step() {
                    StepResult::DidWork => {
                        role = next_action(role);
                    },
                    StepResult::Finished => {
                        break;
                    },
                    StepResult::MustWait => {
                        proof {
                            assert(false);
                        }
                        break;
                    },
                }
            },
            ServantAction::CheckIfPresentOnChain(_) => {
                proof {
                    assert(false);
                }
                break;
            },
        }
    }
    proof {
        lemma_termination_sound(sys);
    }
    sys
}

} // verus!
