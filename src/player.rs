//! Player identities: a fixed pool of 1024 ids tracked in a bitset, and the
//! player records keyed by id.
use vstd::prelude::*;

use std::collections::HashMap;

verus! {

broadcast use {vstd::array::group_array_axioms, vstd::std_specs::hash::group_hash_axioms};

/// A player's identity.
pub type PlayerId = u16;

/// The id of no player.
pub const INVALID_PLAYER_ID: PlayerId = 65535;

/// How many players can exist at once; ids run from 0 below this.
pub const MAX_PLAYERS: u16 = 1024;

/// A network endpoint: an IPv4 or IPv6 address and a port.
#[derive(Clone, Copy, Debug, PartialEq, Eq, Structural, Hash)]
pub struct PeerAddr {
    /// The address; an IPv4 address occupies the low 32 bits.
    pub ip: u128,
    pub port: u16,
    pub v6: bool,
}

/// A logged-in player.
pub struct Player {
    pub id: PlayerId,
    pub name: String,
    pub addr: PeerAddr,
}

impl Player {
    /// Player `id` at `addr`, with an empty name.
    pub fn new(addr: PeerAddr, id: PlayerId) -> (r: Player)
        ensures
            r.id == id,
            r.addr == addr,
            r.name@ == Seq::<char>::empty(),
    {
        Player { id, name: String::new(), addr }
    }
}

/// Bit `c` of `x`.
pub open spec fn bit(x: u64, c: u64) -> bool {
    x & (1u64 << c) != 0
}

proof fn lemma_bit_set(x: u64, b: u64, c: u64)
    requires
        b < 64,
        c < 64,
    ensures
        bit(x | (1u64 << b), c) == (bit(x, c) || b == c),
{
    assert(((x | (1u64 << b)) & (1u64 << c) != 0) == ((x & (1u64 << c) != 0) || b == c))
        by (bit_vector)
        requires
            b < 64,
            c < 64,
    ;
}

proof fn lemma_bit_clear(x: u64, b: u64, c: u64)
    requires
        b < 64,
        c < 64,
    ensures
        bit(x & !(1u64 << b), c) == (bit(x, c) && b != c),
{
    assert(((x & !(1u64 << b)) & (1u64 << c) != 0) == ((x & (1u64 << c) != 0) && b != c))
        by (bit_vector)
        requires
            b < 64,
            c < 64,
    ;
}

proof fn lemma_bit_zero(c: u64)
    requires
        c < 64,
    ensures
        !bit(0u64, c),
{
    assert(0u64 & (1u64 << c) == 0) by (bit_vector);
}

/// `r` is what allocating from `before` yields and `after` the set it
/// leaves: the lowest free id, now taken; or nothing, the pool being full.
pub open spec fn allocation(before: PidSet, after: PidSet, r: Option<u16>) -> bool {
    match r {
        Some(p) => {
            &&& p < 1024
            &&& !before.is_set(p as int)
            &&& forall|q: int| 0 <= q < p ==> before.is_set(q)
            &&& forall|i: int| #[trigger] after.is_set(i) == (before.is_set(i) || i == p)
        },
        None => {
            &&& forall|q: int| 0 <= q < 1024 ==> before.is_set(q)
            &&& after == before
        },
    }
}

/// With every id taken but `freed`, an allocation yields `freed` and the
/// allocation after it yields nothing: a freed id is reused exactly once.
pub proof fn lemma_freed_id_reused_once(
    s0: PidSet,
    s1: PidSet,
    r1: Option<u16>,
    s2: PidSet,
    r2: Option<u16>,
    freed: u16,
)
    requires
        freed < 1024,
        forall|q: int| 0 <= q < 1024 ==> (s0.is_set(q) <==> q != freed),
        allocation(s0, s1, r1),
        allocation(s1, s2, r2),
    ensures
        r1 == Some(freed),
        r2 is None,
{
    assert(!s0.is_set(freed as int));
    match r1 {
        Some(p) => {
            assert(p == freed);
        },
        None => {},
    }
    match r2 {
        Some(p) => {
            assert(s1.is_set(p as int));
        },
        None => {},
    }
}

/// A 1024-bit set of allocated player ids, 64 to a word.
pub struct PidSet {
    bits: [u64; 16],
}

impl PidSet {
    /// Whether id `id` is allocated.
    pub closed spec fn is_set(&self, id: int) -> bool {
        0 <= id < 1024 && bit(self.bits@[id / 64], (id % 64) as u64)
    }

    /// A set with no id allocated.
    pub fn new() -> (r: PidSet)
        ensures
            forall|i: int| !r.is_set(i),
    {
        let r = PidSet { bits: [0u64; 16] };
        assert forall|i: int| !r.is_set(i) by {
            if 0 <= i < 1024 {
                lemma_bit_zero((i % 64) as u64);
            }
        }
        r
    }

    /// Marks `id` allocated; an id outside the pool is ignored.
    pub fn set(&mut self, id: u16)
        ensures
            forall|i: int| #[trigger] final(self).is_set(i) == (old(self).is_set(i) || (i == id && id < 1024)),
    {
        if id >= MAX_PLAYERS {
            return;
        }
        let a = (id / 64) as usize;
        let b = (id % 64) as u64;
        let w = self.bits[a];
        self.bits[a] = w | (1u64 << b);
        assert forall|i: int| #[trigger] self.is_set(i) == (old(self).is_set(i) || (i == id && id < 1024)) by {
            if 0 <= i < 1024 && i / 64 == a as int {
                lemma_bit_set(w, b, (i % 64) as u64);
            }
        }
    }

    /// Marks `id` free; an id outside the pool is ignored.
    pub fn clear(&mut self, id: u16)
        ensures
            forall|i: int| #[trigger] final(self).is_set(i) == (old(self).is_set(i) && i != id),
    {
        if id >= MAX_PLAYERS {
            return;
        }
        let a = (id / 64) as usize;
        let b = (id % 64) as u64;
        let w = self.bits[a];
        self.bits[a] = w & !(1u64 << b);
        assert forall|i: int| #[trigger] self.is_set(i) == (old(self).is_set(i) && i != id) by {
            if 0 <= i < 1024 && i / 64 == a as int {
                lemma_bit_clear(w, b, (i % 64) as u64);
            }
        }
    }

    /// Whether `id` counts as taken: allocated, or outside the pool.
    pub fn test(&self, id: u16) -> (r: bool)
        ensures
            r == (id >= 1024 || self.is_set(id as int)),
    {
        if id >= MAX_PLAYERS {
            return true;
        }
        let a = (id / 64) as usize;
        let b = (id % 64) as u64;
        self.bits[a] & (1u64 << b) != 0
    }

    /// Allocates and returns the lowest free id; nothing when all 1024 are
    /// taken.
    pub fn get_and_set_free_pid(&mut self) -> (r: Option<u16>)
        ensures
            allocation(*old(self), *final(self), r),
    {
        let mut i: u16 = 0;
        while i < MAX_PLAYERS
            invariant
                *self == *old(self),
                i <= 1024,
                forall|q: int| 0 <= q < i ==> old(self).is_set(q),
            decreases 1024 - i,
        {
            if !self.test(i) {
                self.set(i);
                return Some(i);
            }
            i = i + 1;
        }
        None
    }
}

/// The players and the pool their ids come from.
pub struct PlayerManager {
    pub players: HashMap<PlayerId, Player>,
    pub pidset: PidSet,
}

impl PlayerManager {
    /// Whether id `id` is allocated.
    pub open spec fn allocated(&self, id: int) -> bool {
        self.pidset.is_set(id)
    }

    /// Exactly the allocated ids have records, each filed under its own id.
    pub open spec fn wf(&self) -> bool {
        &&& forall|id: PlayerId| #[trigger] self.players@.contains_key(id) <==> self.allocated(id as int)
        &&& forall|id: PlayerId| #[trigger] self.players@.contains_key(id) ==> self.players@[id].id == id
        &&& forall|i: int| #[trigger] self.allocated(i) ==> 0 <= i < 1024
    }

    /// A registry with no players.
    pub fn new() -> (r: PlayerManager)
        ensures
            r.wf(),
            r.players@ == Map::<PlayerId, Player>::empty(),
    {
        let r = PlayerManager { players: HashMap::new(), pidset: PidSet::new() };
        r
    }

    /// The player with id `id`, if there is one.
    pub fn get_player_by_id(&self, id: PlayerId) -> (r: Option<&Player>)
        requires
            self.wf(),
        ensures
            r is Some <==> self.players@.contains_key(id),
            r matches Some(p) ==> *p == self.players@[id],
    {
        if !self.pidset.test(id) {
            return None;
        }
        self.players.get(&id)
    }

    /// Creates a player at `addr` named `name` under the lowest free id and
    /// returns that id; nothing when all 1024 ids are taken.
    pub fn create_player(&mut self, addr: PeerAddr, name: String) -> (r: Option<PlayerId>)
        requires
            old(self).wf(),
        ensures
            final(self).wf(),
            match r {
                Some(p) => {
                    &&& p < 1024
                    &&& !old(self).players@.contains_key(p)
                    &&& forall|q: PlayerId| q < p ==> old(self).players@.contains_key(q)
                    &&& final(self).players@.contains_key(p)
                    &&& final(self).players@[p].id == p
                    &&& final(self).players@[p].addr == addr
                    &&& final(self).players@[p].name == name
                    &&& final(self).players@.remove(p) == old(self).players@
                },
                None => {
                    &&& forall|q: PlayerId| q < 1024 ==> old(self).players@.contains_key(q)
                    &&& final(self).players@ == old(self).players@
                },
            },
    {
        match self.pidset.get_and_set_free_pid() {
            Some(pid) => {
                let player = Player { id: pid, name, addr };
                self.players.insert(pid, player);
                assert(self.players@.remove(pid) =~= old(self).players@);
                assert forall|q: PlayerId| q < pid implies old(self).players@.contains_key(q) by {
                    assert(old(self).allocated(q as int));
                }
                Some(pid)
            },
            None => {
                assert forall|q: PlayerId| q < 1024 implies old(self).players@.contains_key(q) by {
                    assert(old(self).allocated(q as int));
                }
                None
            },
        }
    }

    /// Removes player `pid` and frees its id.
    pub fn remove_player(&mut self, pid: PlayerId)
        requires
            old(self).wf(),
        ensures
            final(self).wf(),
            final(self).players@ == old(self).players@.remove(pid),
    {
        self.players.remove(&pid);
        self.pidset.clear(pid);
        assert(self.players@ =~= old(self).players@.remove(pid));
    }
}

} // verus!
