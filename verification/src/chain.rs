//! Block identifiers, chain lengths, block dates, and the chain state as the
//! cache reads it.
use vstd::prelude::*;

verus! {

/// The position of a block in its chain: 0 for the genesis block, and one more
/// than its parent's for every other block.
#[derive(Clone, Copy, Debug, PartialEq, Eq, Structural, Hash)]
pub struct ChainLength(pub u32);

impl ChainLength {
    /// The length `n` blocks before this one, where the chain is that long.
    pub fn nth_ancestor(&self, n: u32) -> (ancestor: Option<ChainLength>)
        ensures
            n <= self.0 ==> ancestor == Some(ChainLength((self.0 - n) as u32)),
            n > self.0 ==> ancestor is None,
    {
        if n <= self.0 {
            Some(ChainLength(self.0 - n))
        } else {
            None
        }
    }
}

/// The identity of a block: a 256-bit content hash, held as its upper and lower
/// half.  The hash of all zeros stands for "no parent".
#[derive(Clone, Copy, Debug, PartialEq, Eq, Structural, Hash)]
pub struct HeaderId {
    pub hi: u128,
    pub lo: u128,
}

impl HeaderId {
    /// The two halves as a pair, the form under which the cache files an id.
    pub open spec fn key(self) -> (u128, u128) {
        (self.hi, self.lo)
    }

    /// Whether this is the sentinel that stands for "no parent".
    pub open spec fn is_zero(self) -> bool {
        self.hi == 0 && self.lo == 0
    }

    pub fn new(hi: u128, lo: u128) -> (id: HeaderId)
        ensures
            id.hi == hi,
            id.lo == lo,
    {
        HeaderId { hi, lo }
    }

    /// The sentinel that a block without a parent names as its parent.
    pub fn zero_hash() -> (id: HeaderId)
        ensures
            id.is_zero(),
    {
        HeaderId { hi: 0, lo: 0 }
    }

    pub fn to_key(&self) -> (k: (u128, u128))
        ensures
            k == self.key(),
    {
        (self.hi, self.lo)
    }
}

/// Two ids with the same halves are the same id.
pub proof fn lemma_key_injective(a: HeaderId, b: HeaderId)
    requires
        a.key() == b.key(),
    ensures
        a == b,
{
}

/// The time slot of a block: an epoch, and a slot within the epoch.
#[derive(Clone, Copy, Debug, PartialEq, Eq, Structural, Hash)]
pub struct BlockDate {
    pub epoch: u32,
    pub slot_id: u32,
}

impl BlockDate {
    /// The first slot of the first epoch.
    pub fn first() -> (date: BlockDate)
        ensures
            date == (BlockDate { epoch: 0, slot_id: 0 }),
    {
        BlockDate { epoch: 0, slot_id: 0 }
    }
}

/// Where a block stands: its id, its date, and its chain length.
#[derive(Clone, Copy)]
pub struct HeaderDesc {
    pub id: HeaderId,
    pub date: BlockDate,
    pub height: ChainLength,
}

/// A chain state as the cache reads it: the position that the chain has
/// reached.  Of that the cache looks at the chain length alone.
#[derive(Clone, Copy, Debug, PartialEq, Eq, Structural)]
pub struct Ledger {
    pub chain_length: ChainLength,
    pub date: BlockDate,
}

impl Ledger {
    pub fn new(chain_length: ChainLength, date: BlockDate) -> (state: Ledger)
        ensures
            state.chain_length == chain_length,
            state.date == date,
    {
        Ledger { chain_length, date }
    }

    /// The length of the chain whose blocks produced this state.
    pub fn chain_length(&self) -> (length: ChainLength)
        ensures
            length == self.chain_length,
    {
        self.chain_length
    }
}

} // verus!
