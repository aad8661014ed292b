use vstd::prelude::*;
use crate::block::{AuthorityIndex, Round};

verus! {

/// The stake of the authorities marked in `marks`, over the first `k` authorities.
pub open spec fn weight(stakes: Seq<u64>, marks: Seq<bool>, k: int) -> nat
    decreases k,
{
    if k <= 0 {
        0
    } else {
        weight(stakes, marks, k - 1) + if marks[k - 1] {
            stakes[k - 1] as nat
        } else {
            0nat
        }
    }
}

/// The stake of the first `k` authorities.
pub open spec fn stake_sum(stakes: Seq<u64>, k: int) -> nat
    decreases k,
{
    if k <= 0 {
        0
    } else {
        stake_sum(stakes, k - 1) + stakes[k - 1] as nat
    }
}

pub proof fn lemma_weight_bounded(stakes: Seq<u64>, marks: Seq<bool>, k: int)
    ensures
        weight(stakes, marks, k) <= stake_sum(stakes, k),
    decreases k,
{
    if k > 0 {
        lemma_weight_bounded(stakes, marks, k - 1);
    }
}

pub proof fn lemma_stake_sum_monotone(stakes: Seq<u64>, j: int, k: int)
    requires
        j <= k,
    ensures
        stake_sum(stakes, j) <= stake_sum(stakes, k),
    decreases k - j,
{
    if j < k {
        lemma_stake_sum_monotone(stakes, j, k - 1);
    }
}

/// The validators of an epoch, indexed by `AuthorityIndex`, with their stake.
pub struct Committee {
    pub stakes: Vec<u64>,
}

impl Committee {
    pub open spec fn size(&self) -> nat {
        self.stakes@.len()
    }

    pub open spec fn total(&self) -> nat {
        stake_sum(self.stakes@, self.stakes@.len() as int)
    }

    /// The stake of a quorum: more than two thirds of the total.
    pub open spec fn quorum(&self) -> nat {
        2 * self.total() / 3 + 1
    }

    pub open spec fn wf(&self) -> bool {
        &&& self.stakes@.len() > 0
        &&& self.stakes@.len() <= u32::MAX
        &&& self.total() <= u64::MAX
    }

    /// The stake that `marks` selects.
    pub open spec fn marked(&self, marks: Seq<bool>) -> nat {
        weight(self.stakes@, marks, self.stakes@.len() as int)
    }

    /// A committee of the given stakes; `None` when it is empty, too large to
    /// index by `AuthorityIndex`, or its total stake does not fit in a `u64`.
    pub fn new(stakes: Vec<u64>) -> (r: Option<Committee>)
        ensures
            match r {
                Some(c) => c.stakes@ == stakes@ && c.wf(),
                None => !(Committee { stakes }).wf(),
            },
    {
        if stakes.len() == 0 || stakes.len() > u32::MAX as usize {
            return None;
        }
        let mut sum: u64 = 0;
        let mut i: usize = 0;
        while i < stakes.len()
            invariant
                i <= stakes.len(),
                sum == stake_sum(stakes@, i as int),
            decreases stakes.len() - i,
        {
            match sum.checked_add(stakes[i]) {
                Some(s) => {
                    sum = s;
                },
                None => {
                    proof {
                        lemma_stake_sum_monotone(stakes@, i + 1, stakes@.len() as int);
                    }
                    return None;
                },
            }
            i = i + 1;
        }
        Some(Committee { stakes })
    }

    pub fn size_of(&self) -> (r: usize)
        ensures
            r == self.size(),
    {
        self.stakes.len()
    }

    pub fn total_stake(&self) -> (r: u64)
        requires
            self.wf(),
        ensures
            r == self.total(),
    {
        let mut sum: u64 = 0;
        let mut i: usize = 0;
        while i < self.stakes.len()
            invariant
                self.wf(),
                i <= self.stakes.len(),
                sum == stake_sum(self.stakes@, i as int),
            decreases self.stakes.len() - i,
        {
            proof {
                lemma_stake_sum_monotone(self.stakes@, i + 1, self.stakes@.len() as int);
            }
            sum = sum + self.stakes[i];
            i = i + 1;
        }
        sum
    }

    pub fn quorum_threshold(&self) -> (r: u64)
        requires
            self.wf(),
        ensures
            r == self.quorum(),
    {
        let total = self.total_stake();
        let q = (total as u128) * 2 / 3 + 1;
        q as u64
    }

    /// The stake of the authorities that `marks` selects.
    pub fn marked_stake(&self, marks: &Vec<bool>) -> (r: u64)
        requires
            self.wf(),
            marks@.len() == self.size(),
        ensures
            r == self.marked(marks@),
    {
        let mut sum: u64 = 0;
        let mut i: usize = 0;
        while i < self.stakes.len()
            invariant
                self.wf(),
                marks@.len() == self.size(),
                i <= self.stakes.len(),
                sum == weight(self.stakes@, marks@, i as int),
            decreases self.stakes.len() - i,
        {
            proof {
                lemma_weight_bounded(self.stakes@, marks@, i + 1);
                lemma_stake_sum_monotone(self.stakes@, i + 1, self.stakes@.len() as int);
            }
            if marks[i] {
                sum = sum + self.stakes[i];
            }
            i = i + 1;
        }
        sum
    }

    /// Whether the authorities that `marks` selects hold a quorum of stake.
    pub fn reaches_quorum(&self, marks: &Vec<bool>) -> (r: bool)
        requires
            self.wf(),
            marks@.len() == self.size(),
        ensures
            r == (self.marked(marks@) >= self.quorum()),
    {
        self.marked_stake(marks) >= self.quorum_threshold()
    }
}

/// Maps a round and a seat to the authority that leads it: the sequence of
/// `leaders` is walked in rotation, each seat one step ahead of the previous.
pub struct LeaderSchedule {
    pub leaders: Vec<AuthorityIndex>,
}

impl LeaderSchedule {
    pub open spec fn wf(&self) -> bool {
        self.leaders@.len() > 0
    }

    pub open spec fn leader(&self, round: Round, leader_offset: usize) -> AuthorityIndex {
        self.leaders@[((round as int + leader_offset as int) % (self.leaders@.len() as int))]
    }

    pub fn new(leaders: Vec<AuthorityIndex>) -> (r: LeaderSchedule)
        ensures
            r.leaders@ == leaders@,
    {
        LeaderSchedule { leaders }
    }

    /// The authority that leads `round` at seat `leader_offset`.
    pub fn elect_leader(&self, round: Round, leader_offset: usize) -> (r: AuthorityIndex)
        requires
            self.wf(),
        ensures
            r == self.leader(round, leader_offset),
    {
        let n = self.leaders.len() as u128;
        let i = ((round as u128) + (leader_offset as u128)) % n;
        self.leaders[i as usize]
    }
}

} // verus!
