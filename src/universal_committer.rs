use vstd::prelude::*;
use crate::base_committer::{statuses, BaseCommitter};
use crate::base_committer::{BaseCommitterOptions, DEFAULT_WAVE_LENGTH, MINIMUM_WAVE_LENGTH};
use crate::block::{
    AuthorityIndex, DecidedLeader, DecidedView, Decision, LeaderStatus, Round, Slot, StatusView, TrustedCommit,
    GENESIS_ROUND,
};
use crate::committee::LeaderSchedule;
use crate::dag_state::{lookup, DagState};

verus! {

/// The views of a sequence of pending decisions.
pub open spec fn pending_view(pending: Seq<(LeaderStatus, Decision)>) -> Seq<(StatusView, Decision)> {
    pending.map_values(|e: (LeaderStatus, Decision)| (e.0@, e.1))
}

/// The views of a sequence of decided leaders with their provenance.
pub open spec fn decided_view(out: Seq<(DecidedLeader, Decision)>) -> Seq<(DecidedView, Decision)> {
    out.map_values(|e: (DecidedLeader, Decision)| (e.0@, e.1))
}

pub open spec fn leaders_view(out: Seq<DecidedLeader>) -> Seq<DecidedView> {
    out.map_values(|d: DecidedLeader| d@)
}

pub open spec fn anchors(pending: Seq<(StatusView, Decision)>) -> Seq<StatusView> {
    pending.map_values(|e: (StatusView, Decision)| e.0)
}

/// The highest round worth deciding: a leader needs two rounds above it.
pub open spec fn top_round(dag: DagState) -> int {
    if dag.highest_round() >= 2 {
        dag.highest_round() - 2
    } else {
        0
    }
}

/// The longest decided prefix of `pending` (processing order: lowest round
/// last), genesis entries left out, from entry `k - 1` down to the first.
pub open spec fn emitted(pending: Seq<(StatusView, Decision)>, k: int) -> Seq<(DecidedView, Decision)>
    decreases k,
{
    if k <= 0 {
        Seq::empty()
    } else {
        let e = pending[k - 1];
        if e.0.round() == GENESIS_ROUND {
            emitted(pending, k - 1)
        } else {
            match e.0.decided() {
                Some(d) => seq![(d, e.1)] + emitted(pending, k - 1),
                None => Seq::empty(),
            }
        }
    }
}

/// Why the synced commits cannot be installed.
#[derive(Clone, Copy, Debug, PartialEq, Eq, Structural)]
pub enum SyncError {
    /// The first commit not yet applied is not the next one in line.
    Gap { expected: u64, found: u64 },
    /// A commit to install names a leader block the DAG does not hold.
    MissingLeaderBlock(Slot),
}

/// The number of leading commits of `q` that are already applied.
pub open spec fn applied_prefix(q: Seq<TrustedCommit>, last_commit_index: u64) -> int
    decreases q.len(),
{
    if q.len() == 0 {
        0
    } else if q[0].index <= last_commit_index {
        1 + applied_prefix(q.drop_first(), last_commit_index)
    } else {
        0
    }
}

pub proof fn lemma_applied_prefix_bounds(q: Seq<TrustedCommit>, last_commit_index: u64)
    ensures
        0 <= applied_prefix(q, last_commit_index) <= q.len(),
        applied_prefix(q, last_commit_index) < q.len() ==> q[applied_prefix(q, last_commit_index)].index
            > last_commit_index,
        forall|k: int| 0 <= k < applied_prefix(q, last_commit_index) ==> q[k].index <= last_commit_index,
    decreases q.len(),
{
    if q.len() > 0 && q[0].index <= last_commit_index {
        let rest = q.drop_first();
        lemma_applied_prefix_bounds(rest, last_commit_index);
        assert forall|k: int| 0 <= k < applied_prefix(q, last_commit_index) implies q[k].index <= last_commit_index by {
            if k > 0 {
                assert(q[k] == rest[k - 1]);
            }
        }
    }
}

/// The leader block that a synced commit names.
pub open spec fn resolve(dag: DagState, c: TrustedCommit) -> Option<crate::block::BlockView> {
    lookup(dag.blocks@, c.leader, c.leader_digest)
}

/// Drives a list of base committers over a DAG snapshot: multiple leaders per
/// round, pipelined waves, or both.
pub struct UniversalCommitter {
    pub leader_schedule: LeaderSchedule,
    pub committers: Vec<BaseCommitter>,
    pub number_of_leaders: usize,
}

impl UniversalCommitter {
    pub open spec fn wf(&self) -> bool {
        &&& self.leader_schedule.wf()
        &&& forall|i: int| 0 <= i < self.committers@.len() ==> (#[trigger] self.committers@[i]).wf()
    }

    /// No two committers elect the same round.
    pub open spec fn one_leader_per_round(&self) -> bool {
        forall|i: int, j: int, r: Round|
            0 <= i < self.committers@.len() && 0 <= j < self.committers@.len() && i != j
                && #[trigger] self.committers@[i].elects(r) ==> !#[trigger] self.committers@[j].elects(r)
    }

    /// Every leader of the schedule belongs to the committee of `dag`.
    pub open spec fn fits(&self, dag: DagState) -> bool {
        forall|i: int|
            0 <= i < self.leader_schedule.leaders@.len() ==> (#[trigger] self.leader_schedule.leaders@[i]) < dag.n()
    }

    /// Whether the committers are well formed and the schedule names only
    /// members of the committee of `dag`.
    pub fn is_valid_for(&self, dag: &DagState) -> (r: bool)
        ensures
            r == (self.wf() && self.fits(*dag)),
    {
        if self.leader_schedule.leaders.len() == 0 {
            return false;
        }
        let mut i: usize = 0;
        while i < self.committers.len()
            invariant
                i <= self.committers@.len(),
                forall|k: int| 0 <= k < i ==> (#[trigger] self.committers@[k]).wf(),
            decreases self.committers.len() - i,
        {
            let o = self.committers[i].options;
            if o.wave_length < MINIMUM_WAVE_LENGTH || o.round_offset >= o.wave_length {
                return false;
            }
            i = i + 1;
        }
        let n = dag.committee.size_of();
        let mut j: usize = 0;
        while j < self.leader_schedule.leaders.len()
            invariant
                n == dag.n(),
                j <= self.leader_schedule.leaders@.len(),
                forall|k: int| 0 <= k < j ==> (#[trigger] self.leader_schedule.leaders@[k]) < n,
            decreases self.leader_schedule.leaders.len() - j,
        {
            if self.leader_schedule.leaders[j] as usize >= n {
                return false;
            }
            j = j + 1;
        }
        true
    }

    /// With one leader per round the round of the last decision is not revisited.
    pub open spec fn first_round(&self, last_decided: Slot) -> int {
        if self.number_of_leaders == 1 {
            last_decided.round + 1
        } else {
            last_decided.round as int
        }
    }

    /// One slot: the direct rule, and the indirect rule only where the direct
    /// rule leaves the slot undecided.
    pub open spec fn step(dag: DagState, c: BaseCommitter, slot: Slot, pending: Seq<(StatusView, Decision)>) -> (StatusView, Decision) {
        let d = c.direct_decision(dag, slot);
        if d.is_decided() {
            (d, Decision::Direct)
        } else {
            (BaseCommitter::indirect_decision(dag, slot, anchors(pending), pending.len() as int), Decision::Indirect)
        }
    }

    /// The pending decisions of a pass that has reached round `r`, about to try
    /// committer `c - 1`; rounds go down to `first`, committers in reverse, and
    /// the pass ends early on reaching `last_decided`.
    pub open spec fn run(
        &self,
        dag: DagState,
        last_decided: Slot,
        first: int,
        r: int,
        c: int,
        pending: Seq<(StatusView, Decision)>,
    ) -> Seq<(StatusView, Decision)>
        decreases r - first + 1, c,
    {
        if r < first || r < 0 {
            pending
        } else if c <= 0 {
            self.run(dag, last_decided, first, r - 1, self.committers@.len() as int, pending)
        } else {
            let cm = self.committers@[c - 1];
            match cm.leader_at(self.leader_schedule, r as Round) {
                None => self.run(dag, last_decided, first, r, c - 1, pending),
                Some(slot) => if slot == last_decided {
                    pending
                } else {
                    self.run(dag, last_decided, first, r, c - 1, pending.push(Self::step(dag, cm, slot, pending)))
                },
            }
        }
    }

    /// The pending decisions of a whole pass after `last_decided`.
    pub open spec fn pending_of(&self, dag: DagState, last_decided: Slot) -> Seq<(StatusView, Decision)> {
        self.run(
            dag,
            last_decided,
            self.first_round(last_decided),
            top_round(dag),
            self.committers@.len() as int,
            Seq::empty(),
        )
    }

    /// What a pass after `last_decided` decides, with provenance, in commit order.
    pub open spec fn decisions(&self, dag: DagState, last_decided: Slot) -> Seq<(DecidedView, Decision)> {
        let p = self.pending_of(dag, last_decided);
        emitted(p, p.len() as int)
    }

    /// What a pass after `last_decided` decides, in commit order.
    pub open spec fn decided(&self, dag: DagState, last_decided: Slot) -> Seq<DecidedView> {
        self.decisions(dag, last_decided).map_values(|e: (DecidedView, Decision)| e.0)
    }

    /// The authorities the committers elect at `round`, over the first `k`
    /// committers in construction order.
    pub open spec fn leaders_upto(&self, round: Round, k: int) -> Seq<AuthorityIndex>
        decreases k,
    {
        if k <= 0 {
            Seq::empty()
        } else {
            let prev = self.leaders_upto(round, k - 1);
            match self.committers@[k - 1].leader_at(self.leader_schedule, round) {
                Some(slot) => prev.push(slot.authority),
                None => prev,
            }
        }
    }

    /// The leaders of `round`, by seat priority; empty when no committer elects there.
    pub fn get_leaders(&self, round: Round) -> (r: Vec<AuthorityIndex>)
        requires
            self.wf(),
        ensures
            r@ == self.leaders_upto(round, self.committers@.len() as int),
    {
        let mut out: Vec<AuthorityIndex> = Vec::new();
        let mut i: usize = 0;
        while i < self.committers.len()
            invariant
                self.wf(),
                i <= self.committers@.len(),
                out@ == self.leaders_upto(round, i as int),
            decreases self.committers.len() - i,
        {
            let cm = self.committers[i];
            assert(cm.wf());
            match cm.elect_leader(&self.leader_schedule, round) {
                Some(slot) => out.push(slot.authority),
                None => {},
            }
            i = i + 1;
        }
        out
    }

    /// Installs externally authenticated commits during catch-up. Commits the
    /// DAG already applied are dropped from the front of `synced`; the next one
    /// must follow the last applied commit, else the gap is reported. Up to
    /// `budget` commits are then resolved to their leader blocks and removed
    /// from `synced`. On an error `synced` is left as it was. Without garbage
    /// collection nothing is done.
    pub fn try_decide_synced(&self, dag: &DagState, synced: &mut Vec<TrustedCommit>, budget: usize) -> (r: Result<
        Vec<DecidedLeader>,
        SyncError,
    >)
        requires
            budget > 0,
        ensures
            ({
                let q = old(synced)@;
                let last = dag.last_commit_index;
                let s = applied_prefix(q, last);
                let t = if q.len() - s >= budget {
                    budget as int
                } else {
                    q.len() - s
                };
                if !dag.gc_enabled {
                    r is Ok && r->Ok_0@.len() == 0 && final(synced)@ == q
                } else if s == q.len() {
                    r is Ok && r->Ok_0@.len() == 0 && final(synced)@.len() == 0
                } else if q[s].index != last + 1 {
                    r == Err::<Vec<DecidedLeader>, SyncError>(SyncError::Gap { expected: (last + 1) as u64, found: q[s].index })
                        && final(synced)@ == q
                } else if forall|i: int| s <= i < s + t ==> (#[trigger] resolve(*dag, q[i])) is Some {
                    &&& r is Ok
                    &&& leaders_view(r->Ok_0@) == Seq::new(
                        t as nat,
                        |i: int| DecidedView::Commit(resolve(*dag, q[s + i])->Some_0),
                    )
                    &&& final(synced)@ == q.subrange(s + t, q.len() as int)
                } else {
                    &&& final(synced)@ == q
                    &&& exists|i: int|
                        #![trigger q[i]]
                        s <= i < s + t && resolve(*dag, q[i]) is None && (forall|k: int|
                            s <= k < i ==> (#[trigger] resolve(*dag, q[k])) is Some) && r
                            == Err::<Vec<DecidedLeader>, SyncError>(SyncError::MissingLeaderBlock(q[i].leader))
                }
            }),
    {
        let ghost q = synced@;
        if !dag.gc_enabled {
            return Ok(Vec::new());
        }
        let last = dag.last_commit_index;
        proof {
            lemma_applied_prefix_bounds(q, last);
        }
        let mut s: usize = 0;
        proof {
            assert(q.skip(0) =~= q);
        }
        while s < synced.len() && synced[s].index <= last
            invariant
                synced@ == q,
                s <= q.len(),
                applied_prefix(q, last) == s + applied_prefix(q.skip(s as int), last),
            decreases q.len() - s,
        {
            proof {
                assert(q.skip(s as int).drop_first() =~= q.skip(s + 1));
            }
            s = s + 1;
        }
        proof {
            if s < q.len() {
                assert(q.skip(s as int)[0] == q[s as int]);
            } else {
                assert(q.skip(s as int).len() == 0);
            }
            assert(applied_prefix(q, last) == s);
        }
        if s == synced.len() {
            synced.clear();
            return Ok(Vec::new());
        }
        let head = synced[s].index;
        if head != last + 1 {
            return Err(SyncError::Gap { expected: last + 1, found: head });
        }
        let avail = synced.len() - s;
        let take = if avail >= budget {
            budget
        } else {
            avail
        };
        let mut out: Vec<DecidedLeader> = Vec::new();
        let mut missing: Option<Slot> = None;
        let mut i: usize = 0;
        while i < take && missing.is_none()
            invariant
                synced@ == q,
                synced.len() == q.len(),
                dag.gc_enabled,
                last == dag.last_commit_index,
                applied_prefix(q, last) == s,
                s < q.len(),
                q[s as int].index == last + 1,
                take as int == (if q.len() - s >= budget { budget as int } else { q.len() - s }),
                s + take <= q.len(),
                i <= take,
                out@.len() == i,
                forall|k: int| 0 <= k < i ==> out@[k]@ == DecidedView::Commit(resolve(*dag, q[s + k])->Some_0),
                forall|k: int| s <= k < s + i ==> (#[trigger] resolve(*dag, q[k])) is Some,
                match missing {
                    Some(slot) => i < take && resolve(*dag, q[s + i]) is None && slot == q[s + i].leader,
                    None => true,
                },
            decreases take - i, if missing is None { 1int } else { 0int },
        {
            let c = synced[s + i];
            match dag.get_block(c.leader, c.leader_digest) {
                Some(b) => {
                    out.push(DecidedLeader::Commit(b));
                    i = i + 1;
                },
                None => {
                    missing = Some(c.leader);
                },
            }
        }
        match missing {
            Some(slot) => {
                proof {
                    let w = s + i;
                    assert(s <= w < s + take && resolve(*dag, q[w]) is None && (forall|k: int|
                        s <= k < w ==> (#[trigger] resolve(*dag, q[k])) is Some));
                    assert(!(forall|k: int| s <= k < s + take ==> (#[trigger] resolve(*dag, q[k])) is Some));
                }
                return Err(SyncError::MissingLeaderBlock(slot));
            },
            None => {},
        }
        let rest = synced.split_off(s + take);
        *synced = rest;
        proof {
            assert(leaders_view(out@) =~= Seq::new(
                take as nat,
                |i: int| DecidedView::Commit(resolve(*dag, q[s + i])->Some_0),
            ));
        }
        Ok(out)
    }

    /// Decides as much of the DAG after `last_decided` as it can, returning each
    /// decided leader with the rule that decided it. The result depends on the
    /// arguments alone, so a repeated call returns the same.
    pub fn try_decide_with_decisions(&self, dag: &DagState, last_decided: Slot) -> (r: Vec<(DecidedLeader, Decision)>)
        requires
            self.wf(),
            dag.wf(),
            self.fits(*dag),
        ensures
            decided_view(r@) == self.decisions(*dag, last_decided),
    {
        let ghost first = self.first_round(last_decided);
        let highest = dag.highest_accepted_round();
        let top: Round = if highest >= 2 {
            highest - 2
        } else {
            0
        };
        let first_round: u64 = if self.number_of_leaders == 1 {
            last_decided.round as u64 + 1
        } else {
            last_decided.round as u64
        };
        let ghost target = self.pending_of(*dag, last_decided);
        let mut pending: Vec<(LeaderStatus, Decision)> = Vec::new();
        let mut done = false;
        let mut next: u64 = top as u64 + 1;
        proof {
            assert(pending_view(pending@) =~= Seq::<(StatusView, Decision)>::empty());
        }
        while next > first_round && !done
            invariant
                self.wf(),
                dag.wf(),
                self.fits(*dag),
                first == first_round,
                next <= top as u64 + 1,
                target == self.pending_of(*dag, last_decided),
                !done ==> target == self.run(
                    *dag,
                    last_decided,
                    first,
                    next - 1,
                    self.committers@.len() as int,
                    pending_view(pending@),
                ),
                done ==> target == pending_view(pending@),
            decreases next,
        {
            let round: Round = (next - 1) as Round;
            let mut c: usize = self.committers.len();
            while c > 0 && !done
                invariant
                    self.wf(),
                    dag.wf(),
                    self.fits(*dag),
                    first == first_round,
                    round as int == next - 1,
                    next > first_round,
                    c <= self.committers@.len(),
                    !done ==> target == self.run(*dag, last_decided, first, round as int, c as int, pending_view(pending@)),
                    done ==> target == pending_view(pending@),
                decreases c,
            {
                let cm = self.committers[c - 1];
                assert(cm.wf());
                match cm.elect_leader(&self.leader_schedule, round) {
                    None => {},
                    Some(slot) => {
                        if slot == last_decided {
                            done = true;
                        } else {
                            let ghost pv = pending_view(pending@);
                            proof {
                                let n = self.leader_schedule.leaders@.len() as int;
                                let i = (round as int + cm.options.leader_offset as int) % n;
                                assert(self.leader_schedule.leaders@[i] < dag.n());
                            }
                            let status = cm.try_direct_decide(dag, slot);
                            if status.is_decided() {
                                pending.push((status, Decision::Direct));
                            } else {
                                proof {
                                    assert(statuses(pending@) =~= anchors(pv));
                                }
                                let indirect = cm.try_indirect_decide(dag, slot, &pending);
                                pending.push((indirect, Decision::Indirect));
                            }
                            proof {
                                assert(pending_view(pending@) =~= pv.push(Self::step(*dag, cm, slot, pv)));
                            }
                        }
                    },
                }
                c = c - 1;
            }
            next = next - 1;
        }
        // The decided sequence is the longest decided prefix, lowest round first.
        let ghost full = pending_view(pending@);
        let mut out: Vec<(DecidedLeader, Decision)> = Vec::new();
        let mut stop = false;
        proof {
            assert(full.take(full.len() as int) =~= full);
            assert(decided_view(out@) + emitted(full, full.len() as int) =~= emitted(full, full.len() as int));
        }
        while pending.len() > 0 && !stop
            invariant
                full == target,
                pending@.len() <= full.len(),
                pending_view(pending@) == full.take(pending@.len() as int),
                !stop ==> emitted(full, full.len() as int) == decided_view(out@) + emitted(full, pending@.len() as int),
                stop ==> emitted(full, full.len() as int) == decided_view(out@),
            decreases pending@.len(),
        {
            let ghost k = pending@.len() as int;
            let ghost before = decided_view(out@);
            let entry = pending.pop();
            proof {
                assert(pending_view(pending@) =~= full.take(k - 1));
            }
            match entry {
                Some((status, decision)) => {
                    assert(full[k - 1] == (status@, decision)) by {
                        assert(full.take(k)[k - 1] == full[k - 1]);
                    }
                    if status.round() != GENESIS_ROUND {
                        match status.into_decided_leader() {
                            Some(d) => {
                                out.push((d, decision));
                                proof {
                                    assert(decided_view(out@) =~= before.push((d@, decision)));
                                    assert(before.push((d@, decision)) + emitted(full, k - 1) =~= before + (
                                    seq![(d@, decision)] + emitted(full, k - 1)));
                                }
                            },
                            None => {
                                stop = true;
                                proof {
                                    assert(before + Seq::<(DecidedView, Decision)>::empty() =~= before);
                                }
                            },
                        }
                    }
                },
                None => {},
            }
        }
        proof {
            if !stop {
                assert(decided_view(out@) + Seq::<(DecidedView, Decision)>::empty() =~= decided_view(out@));
            }
        }
        out
    }

    /// Decides as much of the DAG after `last_decided` as it can: the decided
    /// leaders in commit order.
    pub fn try_decide(&self, dag: &DagState, last_decided: Slot) -> (r: Vec<DecidedLeader>)
        requires
            self.wf(),
            dag.wf(),
            self.fits(*dag),
        ensures
            leaders_view(r@) == self.decided(*dag, last_decided),
    {
        let all = self.try_decide_with_decisions(dag, last_decided);
        let mut out: Vec<DecidedLeader> = Vec::new();
        let mut i: usize = 0;
        while i < all.len()
            invariant
                i <= all.len(),
                out@.len() == i,
                forall|k: int| 0 <= k < i ==> out@[k]@ == all@[k].0@,
            decreases all.len() - i,
        {
            let d = all[i].0.clone();
            out.push(d);
            i = i + 1;
        }
        proof {
            assert(leaders_view(out@) =~= decided_view(all@).map_values(|e: (DecidedView, Decision)| e.0));
        }
        out
    }
}

/// Assembles a universal committer: by default one leader per round and no
/// pipeline, with waves of `DEFAULT_WAVE_LENGTH` rounds.
pub struct UniversalCommitterBuilder {
    pub leader_schedule: LeaderSchedule,
    pub wave_length: Round,
    pub number_of_leaders: usize,
    pub pipeline: bool,
}

impl UniversalCommitterBuilder {
    /// The number of pipeline stages: one per round of a wave when pipelined.
    pub open spec fn stages(&self) -> int {
        if self.pipeline {
            self.wave_length as int
        } else {
            1
        }
    }

    pub fn new(leader_schedule: LeaderSchedule) -> (b: UniversalCommitterBuilder)
        ensures
            b.leader_schedule == leader_schedule,
            b.wave_length == DEFAULT_WAVE_LENGTH,
            b.number_of_leaders == 1,
            !b.pipeline,
    {
        UniversalCommitterBuilder { leader_schedule, wave_length: DEFAULT_WAVE_LENGTH, number_of_leaders: 1, pipeline: false }
    }

    pub fn with_wave_length(self, wave_length: Round) -> (b: UniversalCommitterBuilder)
        requires
            wave_length >= MINIMUM_WAVE_LENGTH,
        ensures
            b == (UniversalCommitterBuilder { wave_length, ..self }),
    {
        UniversalCommitterBuilder { wave_length, ..self }
    }

    pub fn with_number_of_leaders(self, number_of_leaders: usize) -> (b: UniversalCommitterBuilder)
        ensures
            b == (UniversalCommitterBuilder { number_of_leaders, ..self }),
    {
        UniversalCommitterBuilder { number_of_leaders, ..self }
    }

    pub fn with_pipeline(self, pipeline: bool) -> (b: UniversalCommitterBuilder)
        ensures
            b == (UniversalCommitterBuilder { pipeline, ..self }),
    {
        UniversalCommitterBuilder { pipeline, ..self }
    }

    /// One base committer per pipeline stage and seat, stage-major: the
    /// committer of stage `r0` and seat `l` stands at `r0 * L + l`.
    pub fn build(self) -> (c: UniversalCommitter)
        requires
            self.leader_schedule.wf(),
            self.wave_length >= MINIMUM_WAVE_LENGTH,
        ensures
            c.wf(),
            c.leader_schedule == self.leader_schedule,
            c.number_of_leaders == self.number_of_leaders,
            c.committers@.len() == self.stages() * self.number_of_leaders,
            self.number_of_leaders == 1 ==> c.one_leader_per_round(),
            forall|r0: int, l: int|
                0 <= r0 < self.stages() && 0 <= l < self.number_of_leaders ==> (#[trigger] c.committers@[r0
                    * self.number_of_leaders + l]).options == (BaseCommitterOptions {
                    wave_length: self.wave_length,
                    round_offset: r0 as Round,
                    leader_offset: l as usize,
                }),
    {
        let stages: Round = if self.pipeline {
            self.wave_length
        } else {
            1
        };
        let n = self.number_of_leaders;
        let w = self.wave_length;
        let mut committers: Vec<BaseCommitter> = Vec::new();
        let mut r0: Round = 0;
        while r0 < stages
            invariant
                stages == self.stages(),
                n == self.number_of_leaders,
                w == self.wave_length,
                w >= MINIMUM_WAVE_LENGTH,
                stages <= w,
                r0 <= stages,
                committers@.len() == r0 * n,
                forall|i: int| 0 <= i < committers@.len() ==> (#[trigger] committers@[i]).wf() && committers@[i].options.wave_length == w,
                forall|a: int, l: int|
                    0 <= a < r0 && 0 <= l < n ==> (#[trigger] committers@[a * n + l]).options == (BaseCommitterOptions {
                        wave_length: w,
                        round_offset: a as Round,
                        leader_offset: l as usize,
                    }),
            decreases stages - r0,
        {
            let mut l: usize = 0;
            while l < n
                invariant
                    stages == self.stages(),
                    n == self.number_of_leaders,
                    w == self.wave_length,
                    w >= MINIMUM_WAVE_LENGTH,
                    stages <= w,
                    r0 < stages,
                    l <= n,
                    committers@.len() == r0 * n + l,
                    forall|i: int| 0 <= i < committers@.len() ==> (#[trigger] committers@[i]).wf() && committers@[i].options.wave_length == w,
                    forall|a: int, m: int|
                        0 <= a < r0 && 0 <= m < n ==> (#[trigger] committers@[a * n + m]).options == (BaseCommitterOptions {
                            wave_length: w,
                            round_offset: a as Round,
                            leader_offset: m as usize,
                        }),
                    forall|m: int|
                        0 <= m < l ==> (#[trigger] committers@[r0 * n + m]).options == (BaseCommitterOptions {
                            wave_length: w,
                            round_offset: r0,
                            leader_offset: m as usize,
                        }),
                decreases n - l,
            {
                let ghost before = committers@;
                committers.push(BaseCommitter::new(BaseCommitterOptions { wave_length: w, round_offset: r0, leader_offset: l }));
                proof {
                    assert forall|a: int, m: int| 0 <= a < r0 && 0 <= m < n implies (#[trigger] committers@[a * n + m]).options
                        == (BaseCommitterOptions { wave_length: w, round_offset: a as Round, leader_offset: m as usize }) by {
                        assert(a * n + m < (a + 1) * n) by (nonlinear_arith)
                            requires m < n;
                        assert((a + 1) * n <= r0 * n) by (nonlinear_arith)
                            requires a + 1 <= r0, n >= 0;
                        assert(committers@[a * n + m] == before[a * n + m]);
                    }
                    assert forall|m: int| 0 <= m < l + 1 implies (#[trigger] committers@[r0 * n + m]).options
                        == (BaseCommitterOptions { wave_length: w, round_offset: r0, leader_offset: m as usize }) by {
                        if m < l {
                            assert(committers@[r0 * n + m] == before[r0 * n + m]);
                        }
                    }
                }
                l = l + 1;
            }
            proof {
                assert((r0 + 1) * n == r0 * n + n) by (nonlinear_arith);
            }
            r0 = r0 + 1;
        }
        let c = UniversalCommitter { leader_schedule: self.leader_schedule, committers, number_of_leaders: n };
        proof {
            if n == 1 {
                assert forall|i: int| 0 <= i < c.committers@.len() implies (#[trigger] c.committers@[i]).options.round_offset == i by {
                    assert(i * n + 0 == i);
                    assert(c.committers@[i * n + 0].options.round_offset == i as Round);
                }
            }
        }
        c
    }
}

} // verus!
