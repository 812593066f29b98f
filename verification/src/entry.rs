//! Cache entries and the handles that pin a state.
//!
//! A state is shared: the cache holds one handle to it, and every [`Ref`] that a
//! caller keeps holds another.  An entry is either *retained*, and then the cache
//! keeps the state whoever else does, or *collectable*, and then the state counts
//! as present only while somebody besides the cache holds it.
use crate::chain::ChainLength;
use crate::chain::HeaderId;
use std::sync::Arc;
use vstd::prelude::*;

verus! {

/// `Arc::strong_count`: the number of handles that share the state behind
/// `handle`.  The handle passed in is one of them, so the count is at least one;
/// nothing more is known of it here, since the other handles are the callers' to
/// keep or drop.
#[verifier::external_body]
fn holders<State>(handle: &Arc<State>) -> (count: usize)
    ensures
        count >= 1,
{
    Arc::strong_count(handle)
}

/// What the cache holds for one block, as contracts read it.
pub struct EntryView<State> {
    /// The chain length under which the state is filed.
    pub length: ChainLength,
    /// Whether the cache keeps the state whoever else holds it.
    pub retained: bool,
    pub state: State,
}

impl<State> EntryView<State> {
    /// The same entry, held only as long as somebody else holds the state.
    pub open spec fn demoted(self) -> EntryView<State> {
        EntryView { length: self.length, retained: false, state: self.state }
    }
}

/// What a pin handle is, as contracts read it.
pub struct RefView<State> {
    pub id: HeaderId,
    pub state: State,
}

/// A block identifier together with a handle to the state at that block.  While
/// a `Ref` lives, the state it holds is not reclaimed.
pub struct Ref<State> {
    hash: HeaderId,
    state: Arc<State>,
}

impl<State> View for Ref<State> {
    type V = RefView<State>;

    closed spec fn view(&self) -> RefView<State> {
        RefView { id: self.hash, state: *self.state }
    }
}

impl<State> Clone for Ref<State> {
    fn clone(&self) -> (copy: Self)
        ensures
            copy@ == self@,
    {
        Ref { hash: self.hash, state: self.state.clone() }
    }
}

impl<State> Ref<State> {
    pub fn new(hash: HeaderId, state: Arc<State>) -> (pin: Self)
        ensures
            pin@ == (RefView { id: hash, state: *state }),
    {
        Ref { hash, state }
    }

    /// The block whose state this handle pins.
    pub fn id(&self) -> (id: &HeaderId)
        ensures
            *id == self@.id,
    {
        &self.hash
    }

    /// The pinned state.
    pub fn state(&self) -> (state: &State)
        ensures
            *state == self@.state,
    {
        &self.state
    }

    /// One more handle to the pinned state.
    pub fn state_arc(&self) -> (state: Arc<State>)
        ensures
            *state == self@.state,
    {
        self.state.clone()
    }
}

/// The cache's own handle to a state.
pub enum GcEntry<State> {
    /// The cache keeps the state.
    Retained(Arc<State>),
    /// The state counts as present only while a handle besides this one exists.
    Collectable(Arc<State>),
}

impl<State> GcEntry<State> {
    /// The state that this entry holds.
    pub open spec fn state(&self) -> State {
        match self {
            GcEntry::Retained(handle) => **handle,
            GcEntry::Collectable(handle) => **handle,
        }
    }

    /// What `get` yields when `holders` handles to the state exist, the entry's
    /// own among them.
    pub open spec fn yields(&self, holders: int) -> Option<State> {
        if self is Retained || holders > 1 {
            Some(self.state())
        } else {
            None
        }
    }

    /// Whether an entry is swept once it is collectable and `holders` handles to
    /// its state exist, the entry's own among them.
    pub open spec fn unheld(holders: int) -> bool {
        holders <= 1
    }

    /// A handle to the state where `holders` handles to it exist, the entry's own
    /// among them: always for a retained entry, and for a collectable one if
    /// another handle is among them.
    pub fn get_with(&self, holders: usize) -> (grip: Option<Arc<State>>)
        ensures
            grip is Some <==> self.yields(holders as int) is Some,
            grip matches Some(handle) ==> *handle == self.state(),
    {
        match self {
            GcEntry::Retained(handle) => Some(handle.clone()),
            GcEntry::Collectable(handle) => {
                if holders > 1 {
                    Some(handle.clone())
                } else {
                    None
                }
            },
        }
    }

    /// A handle to the state, if the entry is retained or somebody else holds the
    /// state.
    pub fn get(&self) -> (grip: Option<Arc<State>>)
        ensures
            self is Retained ==> grip is Some,
            grip matches Some(handle) ==> *handle == self.state(),
    {
        match self {
            GcEntry::Retained(handle) => Some(handle.clone()),
            GcEntry::Collectable(handle) => {
                let count: usize = holders(handle);
                self.get_with(count)
            },
        }
    }

    /// Makes the entry collectable, and says whether it is to be swept where
    /// `holders` handles to its state exist, the entry's own among them.
    pub fn collect_with(&mut self, holders: usize) -> (swept: bool)
        ensures
            *final(self) is Collectable,
            final(self).state() == old(self).state(),
            swept == Self::unheld(holders as int),
    {
        if let GcEntry::Retained(handle) = self {
            let demoted: Arc<State> = handle.clone();
            *self = GcEntry::Collectable(demoted);
        }
        holders <= 1
    }

    /// Makes the entry collectable, and says whether nobody but the cache holds
    /// its state.
    pub fn collect(&mut self) -> (swept: bool)
        ensures
            *final(self) is Collectable,
            final(self).state() == old(self).state(),
    {
        let count: usize = match self {
            GcEntry::Retained(handle) => holders(handle),
            GcEntry::Collectable(handle) => holders(handle),
        };
        self.collect_with(count)
    }
}

} // verus!
