//! Committees of validators, their stake, and the quorum among them.

use crate::ids::{same_field, Address};
use crate::ordered::{distinct_keys, has_key, lemma_position, lemma_set_insert, lookup, set_insert};
use vstd::prelude::*;

verus! {

/// A set of addresses, in the order in which they were put in.
#[derive(Debug)]
pub struct AddressSet {
    items: Vec<Address>,
}

impl View for AddressSet {
    type V = Seq<Address>;

    closed spec fn view(&self) -> Seq<Address> {
        self.items@
    }
}

impl AddressSet {
    /// No address occurs twice.
    #[verifier::type_invariant]
    spec fn inv(self) -> bool {
        self.items@.no_duplicates()
    }

    /// Returns an empty set.
    pub fn new() -> (r: Self)
        ensures
            r@ == Seq::<Address>::empty(),
    {
        AddressSet { items: Vec::new() }
    }

    /// Returns `true` if the address is in the set.
    pub fn contains(&self, address: Address) -> (r: bool)
        ensures
            r == self@.contains(address),
    {
        let mut i: usize = 0;
        while i < self.items.len()
            invariant
                i <= self.items.len(),
                forall|j: int| 0 <= j < i ==> self.items@[j] != address,
            decreases self.items.len() - i,
        {
            if same_field(self.items[i], address) {
                return true;
            }
            i += 1;
        }
        false
    }

    /// Puts the address into the set.
    pub fn insert(&mut self, address: Address)
        ensures
            final(self)@ == set_insert(old(self)@, address),
    {
        proof {
            use_type_invariant(&*self);
            lemma_set_insert(self.items@, address);
        }
        if !self.contains(address) {
            let mut items: Vec<Address> = Vec::new();
            std::mem::swap(&mut self.items, &mut items);
            items.push(address);
            self.items = items;
        }
    }
}

/// The stake of all members together.
pub open spec fn stake_sum(members: Seq<(Address, u64)>) -> int
    decreases members.len(),
{
    if members.len() == 0 {
        0
    } else {
        stake_sum(members.drop_last()) + members.last().1
    }
}

/// The larger the committee, the larger its stake.
proof fn lemma_stake_sum_monotonic(members: Seq<(Address, u64)>, n: int)
    requires
        0 <= n <= members.len(),
    ensures
        0 <= stake_sum(members.take(n)) <= stake_sum(members),
    decreases members.len() - n,
{
    if n == members.len() {
        assert(members.take(n) =~= members);
        lemma_stake_sum_nonnegative(members);
    } else {
        lemma_stake_sum_monotonic(members, n + 1);
        lemma_stake_sum_nonnegative(members.take(n));
        assert(members.take(n + 1).drop_last() =~= members.take(n));
    }
}

proof fn lemma_stake_sum_nonnegative(members: Seq<(Address, u64)>)
    ensures
        0 <= stake_sum(members),
    decreases members.len(),
{
    if members.len() > 0 {
        lemma_stake_sum_nonnegative(members.drop_last());
    }
}

/// `x`, or the largest `u64` if `x` is above it.
pub open spec fn saturate(x: int) -> int {
    if x > u64::MAX {
        u64::MAX as int
    } else {
        x
    }
}

/// What a committee says.
#[verifier::ext_equal]
pub struct CommitteeModel {
    /// The round in which the committee starts.
    pub starting_round: u64,
    /// The members, each with its stake.
    pub members: Seq<(Address, u64)>,
}

impl CommitteeModel {
    /// Whether the address is a member.
    pub open spec fn is_member(self, address: Address) -> bool {
        has_key(self.members, address)
    }

    /// The stake of the address: nothing for one that is no member.
    pub open spec fn stake(self, address: Address) -> int {
        match lookup(self.members, address) {
            Some(stake) => stake as int,
            None => 0,
        }
    }

    /// The stake of the given addresses together.
    pub open spec fn combined_stake(self, addresses: Seq<Address>) -> int
        decreases addresses.len(),
    {
        if addresses.len() == 0 {
            0
        } else {
            self.combined_stake(addresses.drop_last()) + self.stake(addresses.last())
        }
    }

    /// The stake that a quorum takes: above two thirds of the whole.
    pub open spec fn quorum_threshold(self) -> int {
        saturate(2 * stake_sum(self.members)) / 3 + 1
    }

    /// Whether the given addresses have the stake that a quorum takes.
    pub open spec fn quorum_reached(self, addresses: Seq<Address>) -> bool {
        saturate(self.combined_stake(addresses)) >= self.quorum_threshold()
    }
}

/// A committee: the round in which it starts, and its members with their stake.
#[derive(Debug)]
pub struct Committee {
    starting_round: u64,
    members: Vec<(Address, u64)>,
    total_stake: u64,
}

impl View for Committee {
    type V = CommitteeModel;

    closed spec fn view(&self) -> CommitteeModel {
        CommitteeModel { starting_round: self.starting_round, members: self.members@ }
    }
}

impl Committee {
    /// No member occurs twice, and the total stake is that of the members.
    #[verifier::type_invariant]
    spec fn inv(self) -> bool {
        distinct_keys(self.members@) && self.total_stake == stake_sum(self.members@)
    }

    /// Returns the position of the given member, or the number of members if it is not there.
    fn find(members: &Vec<(Address, u64)>, address: Address) -> (r: usize)
        ensures
            r <= members.len(),
            r == members.len() <==> !has_key(members@, address),
            r < members.len() ==> members@[r as int].0 == address,
    {
        let mut i: usize = 0;
        while i < members.len()
            invariant
                i <= members.len(),
                forall|j: int| 0 <= j < i ==> (#[trigger] members@[j]).0 != address,
            decreases members.len() - i,
        {
            if same_field(members[i].0, address) {
                return i;
            }
            i += 1;
        }
        i
    }

    /// Returns the committee of the given members, unless one occurs twice or the stake
    /// of all together is above the largest `u64`.
    pub fn new(starting_round: u64, members: Vec<(Address, u64)>) -> (r: Option<Self>)
        ensures
            match r {
                Some(c) => {
                    &&& c@ == (CommitteeModel { starting_round, members: members@ })
                    &&& distinct_keys(members@)
                    &&& stake_sum(members@) <= u64::MAX
                },
                None => !distinct_keys(members@) || stake_sum(members@) > u64::MAX,
            },
    {
        let mut total_stake: u64 = 0;
        let mut checked: Vec<(Address, u64)> = Vec::new();
        let mut i: usize = 0;
        while i < members.len()
            invariant
                i <= members.len(),
                checked@ =~= members@.take(i as int),
                distinct_keys(checked@),
                total_stake == stake_sum(checked@),
            decreases members.len() - i,
        {
            let member = members[i];
            let found = Self::find(&checked, member.0);
            if found < checked.len() {
                assert(members@[found as int].0 == members@[i as int].0);
                return None;
            }
            proof {
                assert(members@.take(i + 1).drop_last() =~= members@.take(i as int));
                lemma_stake_sum_monotonic(members@, i + 1);
                assert(stake_sum(members@.take(i + 1)) == total_stake + member.1);
            }
            match total_stake.checked_add(member.1) {
                Some(sum) => {
                    total_stake = sum;
                },
                None => {
                    return None;
                },
            }
            let ghost before = checked@;
            checked.push(member);
            proof {
                assert(checked@.drop_last() =~= before);
                assert forall|a: int, b: int|
                    0 <= a < checked@.len() && 0 <= b < checked@.len() && a != b implies (#[trigger] checked@[a]).0 != (
                #[trigger] checked@[b]).0 by {
                    if a < before.len() {
                        assert(before[a].0 == checked@[a].0);
                    }
                    if b < before.len() {
                        assert(before[b].0 == checked@[b].0);
                    }
                }
            }
            i += 1;
        }
        assert(checked@ =~= members@);
        Some(Committee { starting_round, members, total_stake })
    }

    /// Returns the round in which the committee starts.
    pub fn starting_round(&self) -> (r: u64)
        ensures
            r == self@.starting_round,
    {
        self.starting_round
    }

    /// Returns the number of members.
    pub fn num_members(&self) -> (r: usize)
        ensures
            r == self@.members.len(),
    {
        self.members.len()
    }

    /// Returns `true` if the address is a member.
    pub fn is_committee_member(&self, address: Address) -> (r: bool)
        ensures
            r == self@.is_member(address),
    {
        Self::find(&self.members, address) < self.members.len()
    }

    /// Returns the stake of the address: nothing for one that is no member.
    pub fn get_stake(&self, address: Address) -> (r: u64)
        ensures
            r == self@.stake(address),
    {
        proof {
            use_type_invariant(self);
        }
        let i = Self::find(&self.members, address);
        if i < self.members.len() {
            proof {
                lemma_position(self.members@, i as int);
            }
            self.members[i].1
        } else {
            0
        }
    }

    /// Returns the stake that a quorum takes.
    pub fn quorum_threshold(&self) -> (r: u64)
        ensures
            r == self@.quorum_threshold(),
    {
        proof {
            use_type_invariant(self);
            lemma_stake_sum_nonnegative(self.members@);
        }
        let doubled: u64 = self.total_stake.saturating_add(self.total_stake);
        doubled / 3 + 1
    }

    /// Returns `true` if the given addresses have the stake that a quorum takes.
    pub fn is_quorum_threshold_reached(&self, addresses: &AddressSet) -> (r: bool)
        ensures
            r == self@.quorum_reached(addresses@),
    {
        let mut stake: u64 = 0;
        let mut i: usize = 0;
        while i < addresses.items.len()
            invariant
                i <= addresses.items.len(),
                stake == saturate(self@.combined_stake(addresses@.take(i as int))),
                0 <= self@.combined_stake(addresses@.take(i as int)),
            decreases addresses.items.len() - i,
        {
            assert(addresses@.take(i + 1).drop_last() =~= addresses@.take(i as int));
            stake = stake.saturating_add(self.get_stake(addresses.items[i]));
            i += 1;
        }
        assert(addresses@.take(i as int) =~= addresses@);
        stake >= self.quorum_threshold()
    }
}

} // verus!
