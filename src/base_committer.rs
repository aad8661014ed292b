use vstd::prelude::*;
use crate::block::{Block, BlockView, Decision, LeaderStatus, Round, Slot, StatusView, GENESIS_ROUND};
use crate::committee::LeaderSchedule;
use crate::dag_state::DagState;

verus! {

/// The shortest wave that leaves a round for votes and a round for certificates.
pub const MINIMUM_WAVE_LENGTH: Round = 3;

/// The wave length a committer is built with unless told otherwise.
pub const DEFAULT_WAVE_LENGTH: Round = 3;

/// The coordinates of one channel of the commit rule.
#[derive(Clone, Copy, Debug, PartialEq, Eq, Structural)]
pub struct BaseCommitterOptions {
    /// The number of rounds of a wave.
    pub wave_length: Round,
    /// The pipeline stage: the round of each wave at which this channel elects.
    pub round_offset: Round,
    /// The seat of this channel among the leaders of a round.
    pub leader_offset: usize,
}

/// The status views of a sequence of pending decisions.
pub open spec fn statuses(pending: Seq<(LeaderStatus, Decision)>) -> Seq<StatusView> {
    pending.map_values(|e: (LeaderStatus, Decision)| e.0@)
}

/// One channel of the commit rule, for a single pipeline stage and seat.
#[derive(Clone, Copy, Debug, PartialEq, Eq, Structural)]
pub struct BaseCommitter {
    pub options: BaseCommitterOptions,
}

impl BaseCommitter {
    pub open spec fn wf(&self) -> bool {
        &&& self.options.wave_length >= MINIMUM_WAVE_LENGTH
        &&& self.options.round_offset < self.options.wave_length
    }

    pub open spec fn elects(&self, round: Round) -> bool {
        round % self.options.wave_length == self.options.round_offset
    }

    /// The slot this channel elects at `round`, if any.
    pub open spec fn leader_at(&self, schedule: LeaderSchedule, round: Round) -> Option<Slot> {
        if self.elects(round) {
            Some(Slot { round, authority: schedule.leader(round, self.options.leader_offset) })
        } else {
            None
        }
    }

    /// The round whose blocks decide the leader at `slot` directly.
    pub open spec fn decision_round(&self, slot: Slot) -> int {
        slot.round + self.options.wave_length - 1
    }

    /// The direct rule. Undecided at genesis and until the DAG reaches the
    /// decision round. Skip when a quorum of the voting round does not reference
    /// the leader, so no certificate can ever form. Commit when the slot holds a
    /// single block and a quorum of the decision round certifies it.
    pub open spec fn direct_decision(&self, dag: DagState, slot: Slot) -> StatusView {
        if slot.round == GENESIS_ROUND {
            StatusView::Undecided(slot)
        } else if (dag.highest_round() as int) < self.decision_round(slot) {
            StatusView::Undecided(slot)
        } else if dag.committee.marked(dag.blame_marks(slot.round + 1, slot.authority)) >= dag.committee.quorum() {
            StatusView::Skip(slot)
        } else {
            match dag.leader_block(slot) {
                Some(b) => if dag.committee.marked(dag.certificate_marks(slot, self.decision_round(slot)))
                    >= dag.committee.quorum() {
                    StatusView::Commit(b)
                } else {
                    StatusView::Undecided(slot)
                },
                None => StatusView::Undecided(slot),
            }
        }
    }

    /// The verdict on `slot` that a committed anchor implies: commit the block at
    /// the slot when the anchor's ancestry holds it, else skip the slot.
    pub open spec fn anchor_decision(dag: DagState, slot: Slot, anchor: BlockView) -> StatusView {
        match dag.leader_block(slot) {
            Some(b) => if dag.reaches(anchor, slot.round as int, slot.authority as int) {
                StatusView::Commit(b)
            } else {
                StatusView::Skip(slot)
            },
            None => StatusView::Skip(slot),
        }
    }

    /// The indirect rule over the first `k` entries of `anchors`, the nearest
    /// anchor last. Entries at or below the slot's round are passed over; the
    /// nearest higher entry that is not skipped decides: a commit through its
    /// ancestry, an undecided one not at all.
    pub open spec fn indirect_decision(dag: DagState, slot: Slot, anchors: Seq<StatusView>, k: int) -> StatusView
        decreases k,
    {
        if k <= 0 || slot.round == GENESIS_ROUND {
            StatusView::Undecided(slot)
        } else {
            let st = anchors[k - 1];
            if st.round() <= slot.round {
                Self::indirect_decision(dag, slot, anchors, k - 1)
            } else {
                match st {
                    StatusView::Commit(a) => Self::anchor_decision(dag, slot, a),
                    StatusView::Skip(_) => Self::indirect_decision(dag, slot, anchors, k - 1),
                    StatusView::Undecided(_) => StatusView::Undecided(slot),
                }
            }
        }
    }

    pub fn new(options: BaseCommitterOptions) -> (c: BaseCommitter)
        ensures
            c.options == options,
    {
        BaseCommitter { options }
    }

    /// The slot this channel elects at `round`: one exactly at the rounds of its
    /// pipeline stage, led by the schedule's authority for its seat.
    pub fn elect_leader(&self, schedule: &LeaderSchedule, round: Round) -> (r: Option<Slot>)
        requires
            self.wf(),
            schedule.wf(),
        ensures
            r == self.leader_at(*schedule, round),
    {
        if round % self.options.wave_length == self.options.round_offset {
            Some(Slot::new(round, schedule.elect_leader(round, self.options.leader_offset)))
        } else {
            None
        }
    }

    pub fn try_direct_decide(&self, dag: &DagState, slot: Slot) -> (r: LeaderStatus)
        requires
            self.wf(),
            dag.wf(),
        ensures
            r@ == self.direct_decision(*dag, slot),
    {
        if slot.round == GENESIS_ROUND {
            return LeaderStatus::Undecided(slot);
        }
        let highest = dag.highest_accepted_round();
        let decision: u64 = slot.round as u64 + self.options.wave_length as u64 - 1;
        if (highest as u64) < decision {
            return LeaderStatus::Undecided(slot);
        }
        let decision = decision as Round;
        let blame = dag.blame_marks_of(slot.round + 1, slot.authority);
        if dag.committee.reaches_quorum(&blame) {
            return LeaderStatus::Skip(slot);
        }
        match dag.leader_block_index(slot) {
            Some(i) => {
                let certificates = dag.certificate_marks_of(slot, decision);
                if dag.committee.reaches_quorum(&certificates) {
                    LeaderStatus::Commit(dag.blocks[i].clone())
                } else {
                    LeaderStatus::Undecided(slot)
                }
            },
            None => LeaderStatus::Undecided(slot),
        }
    }

    fn decide_from_anchor(&self, dag: &DagState, slot: Slot, anchor: &Block) -> (r: LeaderStatus)
        requires
            dag.wf(),
            slot.round < anchor.round,
            slot.authority < dag.n(),
        ensures
            r@ == Self::anchor_decision(*dag, slot, anchor@),
    {
        match dag.leader_block_index(slot) {
            Some(i) => {
                let reached = dag.reach_marks(anchor, slot.round);
                if reached[slot.authority as usize] {
                    LeaderStatus::Commit(dag.blocks[i].clone())
                } else {
                    LeaderStatus::Skip(slot)
                }
            },
            None => LeaderStatus::Skip(slot),
        }
    }

    /// The indirect rule against the already-processed leaders in `pending`,
    /// ordered from the highest round to the nearest.
    pub fn try_indirect_decide(&self, dag: &DagState, slot: Slot, pending: &Vec<(LeaderStatus, Decision)>) -> (r: LeaderStatus)
        requires
            dag.wf(),
            slot.authority < dag.n(),
        ensures
            r@ == Self::indirect_decision(*dag, slot, statuses(pending@), pending@.len() as int),
    {
        let ghost anchors = statuses(pending@);
        if slot.round == GENESIS_ROUND {
            return LeaderStatus::Undecided(slot);
        }
        let mut k: usize = pending.len();
        while k > 0
            invariant
                k <= pending@.len(),
                dag.wf(),
                slot.authority < dag.n(),
                anchors == statuses(pending@),
                slot.round != GENESIS_ROUND,
                Self::indirect_decision(*dag, slot, anchors, pending@.len() as int)
                    == Self::indirect_decision(*dag, slot, anchors, k as int),
            decreases k,
        {
            let st = &pending[k - 1].0;
            assert(anchors[k - 1] == st@);
            if st.round() > slot.round {
                match st {
                    LeaderStatus::Commit(a) => {
                        return self.decide_from_anchor(dag, slot, a);
                    },
                    LeaderStatus::Skip(_) => {},
                    LeaderStatus::Undecided(_) => {
                        return LeaderStatus::Undecided(slot);
                    },
                }
            }
            k = k - 1;
        }
        LeaderStatus::Undecided(slot)
    }
}

} // verus!
