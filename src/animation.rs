//! Resource locks that keep animations which touch the same things apart.
use vstd::prelude::*;

verus! {

/// The claims of one animation, as bit sets: the low half of each word
/// holds board locations, the high half unit ids.
#[derive(Clone, Copy)]
pub struct AnimLock {
    pub require: u128,
    pub reserve: u128,
}

/// Something an animation can claim, as a set of lock bits.
pub trait Lock {
    spec fn lock_bits(&self) -> u128;

    fn to_lock(self) -> (r: u128)
        ensures
            r == self.lock_bits(),
    ;
}

/// The lock bit of a unit id: one of the high 64 bits.
pub open spec fn id_bit(id: u64) -> u128 {
    (1u128 << ((id % 64) + 64) as u128) as u128
}

pub fn pack_id(id: u64) -> (r: u128)
    ensures
        r == id_bit(id),
{
    let s = ((id % 64) + 64) as u128;
    1u128 << s
}

impl Lock for u64 {
    open spec fn lock_bits(&self) -> u128 {
        id_bit(*self)
    }

    fn to_lock(self) -> (r: u128) {
        pack_id(self)
    }
}

impl AnimLock {
    pub fn empty() -> (r: AnimLock)
        ensures
            r.require == 0,
            r.reserve == 0,
    {
        AnimLock { require: 0, reserve: 0 }
    }

    /// A lock that reads `locs`.
    pub fn requiring<L: Lock>(locs: L) -> (r: AnimLock)
        ensures
            r.require == locs.lock_bits(),
            r.reserve == 0,
    {
        let r = AnimLock::empty().require(locs);
        proof {
            let b = locs.lock_bits();
            assert(0u128 | b == b) by (bit_vector);
        }
        r
    }

    /// A lock that takes `locs` for itself.
    pub fn reserves<L: Lock>(locs: L) -> (r: AnimLock)
        ensures
            r.require == locs.lock_bits(),
            r.reserve == locs.lock_bits(),
    {
        let r = AnimLock::empty().reserve(locs);
        proof {
            let b = locs.lock_bits();
            assert(0u128 | b == b) by (bit_vector);
        }
        r
    }

    /// Whether the two locks claim the same resource: one reserves what the
    /// other requires.
    pub fn overlaps(&self, other: AnimLock) -> (r: bool)
        ensures
            r == ((self.require & other.reserve) != 0 || (self.reserve & other.require) != 0),
    {
        (self.require & other.reserve > 0) || (self.reserve & other.require > 0)
    }

    pub fn merge(&self, other: AnimLock) -> (r: AnimLock)
        ensures
            r.require == self.require | other.require,
            r.reserve == self.reserve | other.reserve,
    {
        AnimLock { require: self.require | other.require, reserve: self.reserve | other.reserve }
    }

    /// A lock that claims everything.
    pub fn full() -> (r: AnimLock)
        ensures
            r.require == u128::MAX,
            r.reserve == u128::MAX,
    {
        AnimLock { require: u128::MAX, reserve: u128::MAX }
    }

    pub fn require<L: Lock>(self, req: L) -> (r: AnimLock)
        ensures
            r.require == self.require | req.lock_bits(),
            r.reserve == self.reserve,
    {
        let mut s = self;
        s.require = s.require | req.to_lock();
        s
    }

    pub fn reserve<L: Lock>(self, reserve: L) -> (r: AnimLock)
        ensures
            r.require == self.require | reserve.lock_bits(),
            r.reserve == self.reserve | reserve.lock_bits(),
    {
        let mut s = self;
        let l = reserve.to_lock();
        s.require = s.require | l;
        s.reserve = s.reserve | l;
        s
    }
}

} // verus!
