//! Rebuilding a state that the cache no longer has.
//!
//! The state at a block is rebuilt from the nearest ancestor whose state the
//! cache still yields: the walk goes from the block to its parent, and on, until
//! it meets such an ancestor, and the blocks passed are then applied to that
//! state, the oldest first.  Each state so made is filed in the cache.
//!
//! Reading the block store and applying a block are the caller's to do.  What is
//! decided here is what to ask for next, given what came back: a [`Step`] says
//! so, and [`Multiverse::advance`] leads from one step and an [`Event`] to the
//! next step.
use crate::chain::HeaderId;
use crate::chain::Ledger;
use crate::entry::EntryView;
use crate::entry::Ref;
use crate::entry::RefView;
use crate::multiverse::Multiverse;
use vstd::prelude::*;

verus! {

/// Why a reconstruction ends without a state.
#[derive(Clone, Copy, Debug, PartialEq, Eq, Structural)]
pub enum ReconstructionError {
    /// The block store failed, or does not have a block that it was asked for.
    StoreError,
    /// The walk came to the parent of the first block without meeting a state:
    /// there is nothing to start from.
    InitialStateUnreconstructible,
    /// A block could not be applied to the state of its parent.
    StateTransitionFailed,
}

/// What came back from the work that a [`Step`] asked for.
pub enum Event {
    /// The store names the parent of the block that the walk stands at.
    BlockInfo { parent_id: HeaderId },
    /// The block was fetched and applied, and this state is the result.
    Applied(Ledger),
    /// The store failed, or does not have the block.
    StoreFailed,
    /// The block could not be applied.
    TransitionFailed,
}

/// Where a reconstruction stands, and with that what is to be done next.
pub enum Step {
    /// The store is to name the parent of `cur`.  `to_apply` holds the blocks
    /// passed so far, the block asked for first.
    Walk { cur: HeaderId, to_apply: Vec<HeaderId> },
    /// The last block of `to_apply` is to be fetched and applied to the state
    /// that `seed` pins.
    Replay { seed: Ref<Ledger>, to_apply: Vec<HeaderId> },
    /// The state asked for.
    Done(Ref<Ledger>),
    Failed(ReconstructionError),
}

/// A [`Step`] as contracts read it.
pub enum StepView {
    Walk { cur: HeaderId, to_apply: Seq<HeaderId> },
    Replay { seed: RefView<Ledger>, to_apply: Seq<HeaderId> },
    Done(RefView<Ledger>),
    Failed(ReconstructionError),
}

impl View for Step {
    type V = StepView;

    open spec fn view(&self) -> StepView {
        match self {
            Step::Walk { cur, to_apply } => StepView::Walk { cur: *cur, to_apply: to_apply@ },
            Step::Replay { seed, to_apply } => StepView::Replay { seed: seed@, to_apply: to_apply@ },
            Step::Done(pin) => StepView::Done(pin@),
            Step::Failed(error) => StepView::Failed(*error),
        }
    }
}

/// The pin that a lookup yields, as contracts read it.
pub open spec fn shown(hit: Option<Ref<Ledger>>) -> Option<RefView<Ledger>> {
    match hit {
        Some(pin) => Some(pin@),
        None => None,
    }
}

/// Whether looking `k` up in `table` can yield `hit`: a pin on the state that
/// the table has for `k`, or nothing where the table has no retained entry for
/// `k`.
pub open spec fn may_yield(
    table: Map<HeaderId, EntryView<Ledger>>,
    k: HeaderId,
    hit: Option<RefView<Ledger>>,
) -> bool {
    match hit {
        Some(pin) => table.contains_key(k) && pin == (RefView { id: k, state: table[k].state }),
        None => !(table.contains_key(k) && table[k].retained),
    }
}

/// The step of a walk that stands at `cur`, has passed `to_apply`, and got
/// `hit` when it looked `cur` up.
///
/// A state found for the block asked for is the answer.  Otherwise the walk
/// fails at the sentinel that stands for "no parent", starts to replay at a
/// block whose state was found, and goes on to the parent of any other block.
pub open spec fn located(
    cur: HeaderId,
    to_apply: Seq<HeaderId>,
    hit: Option<RefView<Ledger>>,
) -> StepView {
    if to_apply.len() == 0 && hit is Some {
        StepView::Done(hit->0)
    } else if cur.is_zero() {
        StepView::Failed(ReconstructionError::InitialStateUnreconstructible)
    } else if hit is Some {
        StepView::Replay { seed: hit->0, to_apply }
    } else {
        StepView::Walk { cur, to_apply }
    }
}

/// The step after a replay step whose last block was applied, where `pin` pins
/// the state that came of it: the end, where that was the only block left, and
/// else a replay of the blocks before it upon that state.
pub open spec fn replayed(step: StepView, pin: RefView<Ledger>) -> StepView {
    match step {
        StepView::Replay { seed, to_apply } => {
            if to_apply.len() <= 1 {
                StepView::Done(pin)
            } else {
                StepView::Replay { seed: pin, to_apply: to_apply.drop_last() }
            }
        },
        _ => step,
    }
}

impl Step {
    /// The step of a walk that stands at `cur`, has passed `to_apply`, and got
    /// `hit` when it looked `cur` up.
    pub fn locate(cur: HeaderId, to_apply: Vec<HeaderId>, hit: Option<Ref<Ledger>>) -> (step: Step)
        ensures
            step@ == located(cur, to_apply@, shown(hit)),
    {
        match hit {
            Some(pin) => {
                if to_apply.len() == 0 {
                    Step::Done(pin)
                } else if cur == HeaderId::zero_hash() {
                    Step::Failed(ReconstructionError::InitialStateUnreconstructible)
                } else {
                    Step::Replay { seed: pin, to_apply }
                }
            },
            None => {
                if cur == HeaderId::zero_hash() {
                    Step::Failed(ReconstructionError::InitialStateUnreconstructible)
                } else {
                    Step::Walk { cur, to_apply }
                }
            },
        }
    }
}

impl Multiverse<Ledger> {
    /// The first step towards the state at block `k`: the state itself where
    /// the cache yields it, and else the start of a walk from `k`.
    pub fn reconstruct(&self, k: HeaderId) -> (step: Step)
        requires
            self.wf(),
        ensures
            exists|hit: Option<RefView<Ledger>>|
                may_yield(self@, k, hit) && step@ == located(k, Seq::empty(), hit),
            self@.contains_key(k) && self@[k].retained ==> step@ == StepView::Done(
                RefView { id: k, state: self@[k].state },
            ),
            !self@.contains_key(k) ==> step@ == located(k, Seq::empty(), None),
    {
        let hit = self.get_ref(&k);
        proof {
            assert(may_yield(self@, k, shown(hit)));
        }
        Step::locate(k, Vec::new(), hit)
    }

    /// The step after `step`, where `event` came back from the work that `step`
    /// asked for.
    ///
    /// A walk that learns the parent of its block goes on from the parent; a
    /// replay that gets the state after its block files that state under the
    /// block, and goes on from it, or ends with it where no block is left.  A
    /// failure of the store or of the application ends the reconstruction, and
    /// what was filed until then stays.  An event that does not answer what the
    /// step asked for leaves the step as it is.
    pub fn advance(&mut self, step: Step, event: Event) -> (next: Step)
        requires
            old(self).wf(),
        ensures
            final(self).wf(),
            match (step@, event) {
                (StepView::Walk { cur, to_apply }, Event::BlockInfo { parent_id }) => {
                    &&& final(self)@ == old(self)@
                    &&& exists|hit: Option<RefView<Ledger>>|
                        may_yield(old(self)@, parent_id, hit) && next@ == located(
                            parent_id,
                            to_apply.push(cur),
                            hit,
                        )
                },
                (StepView::Walk { .. }, Event::StoreFailed) => {
                    &&& final(self)@ == old(self)@
                    &&& next@ == StepView::Failed(ReconstructionError::StoreError)
                },
                (StepView::Replay { seed, to_apply }, Event::Applied(state)) => {
                    if to_apply.len() == 0 {
                        &&& final(self)@ == old(self)@
                        &&& next@ == StepView::Done(seed)
                    } else {
                        &&& final(self)@ == old(self)@.insert(
                            to_apply.last(),
                            EntryView { length: state.chain_length, retained: true, state },
                        )
                        &&& next@ == replayed(step@, RefView { id: to_apply.last(), state })
                    }
                },
                (StepView::Replay { .. }, Event::StoreFailed) => {
                    &&& final(self)@ == old(self)@
                    &&& next@ == StepView::Failed(ReconstructionError::StoreError)
                },
                (StepView::Replay { .. }, Event::TransitionFailed) => {
                    &&& final(self)@ == old(self)@
                    &&& next@ == StepView::Failed(ReconstructionError::StateTransitionFailed)
                },
                _ => {
                    &&& final(self)@ == old(self)@
                    &&& next@ == step@
                },
            },
    {
        match step {
            Step::Walk { cur, to_apply } => {
                match event {
                    Event::BlockInfo { parent_id } => {
                        let mut passed: Vec<HeaderId> = to_apply;
                        passed.push(cur);
                        let hit = self.get_ref(&parent_id);
                        proof {
                            assert(may_yield(self@, parent_id, shown(hit)));
                        }
                        Step::locate(parent_id, passed, hit)
                    },
                    Event::StoreFailed => Step::Failed(ReconstructionError::StoreError),
                    _ => Step::Walk { cur, to_apply },
                }
            },
            Step::Replay { seed, to_apply } => {
                match event {
                    Event::Applied(state) => {
                        let mut left: Vec<HeaderId> = to_apply;
                        match left.pop() {
                            Some(block) => {
                                let pin = self.add(block, state);
                                if left.len() == 0 {
                                    Step::Done(pin)
                                } else {
                                    Step::Replay { seed: pin, to_apply: left }
                                }
                            },
                            None => Step::Done(seed),
                        }
                    },
                    Event::StoreFailed => Step::Failed(ReconstructionError::StoreError),
                    Event::TransitionFailed => Step::Failed(
                        ReconstructionError::StateTransitionFailed,
                    ),
                    _ => Step::Replay { seed, to_apply },
                }
            },
            Step::Done(pin) => Step::Done(pin),
            Step::Failed(error) => Step::Failed(error),
        }
    }
}

/// The state at `block`, which stands `height` blocks above the first block
/// of its chain: what `apply` makes of the state at the parent and of the
/// block, and `genesis` at the first block.
pub open spec fn state_at(
    block: HeaderId,
    height: nat,
    genesis: Ledger,
    parent: spec_fn(HeaderId) -> HeaderId,
    apply: spec_fn(Ledger, HeaderId) -> Ledger,
) -> Ledger
    decreases height,
{
    if height == 0 {
        genesis
    } else {
        apply(state_at(parent(block), (height - 1) as nat, genesis, parent, apply), block)
    }
}

/// Where a replay ends when every block is fetched and applied: the step that
/// follows when each block of `to_apply` in turn, the last first, brings what
/// `apply` makes of the seed's state and of that block.
pub open spec fn finished(step: StepView, apply: spec_fn(Ledger, HeaderId) -> Ledger) -> StepView
    decreases
        (match step {
            StepView::Replay { seed, to_apply } => to_apply.len(),
            _ => 0,
        }),
{
    match step {
        StepView::Replay { seed, to_apply } => if to_apply.len() == 0 {
            step
        } else {
            let block = to_apply.last();
            finished(replayed(step, RefView { id: block, state: apply(seed.state, block) }), apply)
        },
        _ => step,
    }
}

/// Whether `to_apply` is what a walk from its first block passes on its way to
/// `seed`: each block is followed by its parent, and `seed` is the parent of the
/// last.
pub open spec fn leads_to(
    to_apply: Seq<HeaderId>,
    seed: HeaderId,
    parent: spec_fn(HeaderId) -> HeaderId,
) -> bool {
    &&& to_apply.len() > 0
    &&& forall|i: int| 0 <= i < to_apply.len() - 1 ==> to_apply[i + 1] == parent(#[trigger] to_apply[i])
    &&& seed == parent(to_apply.last())
}

/// A walk passes each block on the way to its parent, and the block asked for
/// stays the first of those passed.
pub proof fn lemma_walk_leads_on(
    cur: HeaderId,
    to_apply: Seq<HeaderId>,
    parent: spec_fn(HeaderId) -> HeaderId,
)
    requires
        to_apply.len() > 0 ==> leads_to(to_apply, cur, parent),
    ensures
        leads_to(to_apply.push(cur), parent(cur), parent),
        to_apply.push(cur)[0] == (if to_apply.len() == 0 {
            cur
        } else {
            to_apply[0]
        }),
{
    let passed = to_apply.push(cur);
    assert forall|i: int| 0 <= i < passed.len() - 1 implies passed[i + 1] == parent(
        #[trigger] passed[i],
    ) by {
        if i < to_apply.len() - 1 {
            assert(passed[i] == to_apply[i]);
            assert(passed[i + 1] == to_apply[i + 1]);
        }
    }
}

/// Reconstruction is correct.  Let the seed pin the state at its block, which
/// stands `height` blocks above the first, and let `to_apply` lead from the
/// block asked for to the seed.  A replay in which every block is applied then
/// ends with a pin on the block asked for, and the state that it pins is the
/// state at that block: what applying every block of the chain in order makes
/// of the genesis state.
pub proof fn lemma_reconstruction_correct(
    seed: RefView<Ledger>,
    to_apply: Seq<HeaderId>,
    height: nat,
    genesis: Ledger,
    parent: spec_fn(HeaderId) -> HeaderId,
    apply: spec_fn(Ledger, HeaderId) -> Ledger,
)
    requires
        leads_to(to_apply, seed.id, parent),
        seed.state == state_at(seed.id, height, genesis, parent, apply),
    ensures
        finished(StepView::Replay { seed, to_apply }, apply) == StepView::Done(
            RefView {
                id: to_apply[0],
                state: state_at(to_apply[0], height + to_apply.len(), genesis, parent, apply),
            },
        ),
    decreases to_apply.len(),
{
    let block = to_apply.last();
    let step = StepView::Replay { seed, to_apply };
    let pin = RefView { id: block, state: apply(seed.state, block) };
    assert(parent(block) == seed.id);
    assert(pin.state == state_at(block, (height + 1) as nat, genesis, parent, apply));
    assert(finished(step, apply) == finished(replayed(step, pin), apply));
    if to_apply.len() > 1 {
        let rest = to_apply.drop_last();
        assert(rest.last() == to_apply[to_apply.len() - 2]);
        assert forall|i: int| 0 <= i < rest.len() - 1 implies rest[i + 1] == parent(
            #[trigger] rest[i],
        ) by {
            assert(rest[i] == to_apply[i]);
            assert(rest[i + 1] == to_apply[i + 1]);
        }
        lemma_reconstruction_correct(pin, rest, (height + 1) as nat, genesis, parent, apply);
        assert(rest[0] == to_apply[0]);
        assert(replayed(step, pin) == StepView::Replay { seed: pin, to_apply: rest });
        assert(height + 1 + rest.len() == height + to_apply.len());
    } else {
        assert(replayed(step, pin) == StepView::Done(pin));
        assert(block == to_apply[0]);
    }
}

/// Where the genesis state has chain length 0 and every block applied adds one
/// to the chain length, the state at a block has the height of the block as its
/// chain length.
pub proof fn lemma_state_at_height(
    block: HeaderId,
    height: nat,
    genesis: Ledger,
    parent: spec_fn(HeaderId) -> HeaderId,
    apply: spec_fn(Ledger, HeaderId) -> Ledger,
)
    requires
        height <= u32::MAX,
        genesis.chain_length.0 == 0,
        forall|state: Ledger, b: HeaderId|
            state.chain_length.0 < u32::MAX ==> (#[trigger] apply(state, b)).chain_length.0
                == state.chain_length.0 + 1,
    ensures
        state_at(block, height, genesis, parent, apply).chain_length.0 == height,
    decreases height,
{
    if height > 0 {
        let below = (height - 1) as nat;
        lemma_state_at_height(parent(block), below, genesis, parent, apply);
        let before = state_at(parent(block), below, genesis, parent, apply);
        assert(state_at(block, height, genesis, parent, apply) == apply(before, block));
    }
}

} // verus!
