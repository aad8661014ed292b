use consensus_core::base_committer::{BaseCommitter, BaseCommitterOptions, DEFAULT_WAVE_LENGTH};
use consensus_core::block::{Block, Decision, LeaderStatus, Slot};
use consensus_core::committee::{Committee, LeaderSchedule};
use consensus_core::dag_state::DagState;
use consensus_core::universal_committer::UniversalCommitterBuilder;

fn full_dag(rounds: u32) -> DagState {
    let mut blocks = Vec::new();
    for r in 1..=rounds {
        for a in 0..4u32 {
            blocks.push(Block::new(r, a, r as u64 * 10 + a as u64, vec![0, 1, 2, 3]));
        }
    }
    DagState::new(Committee::new(vec![1, 1, 1, 1]).unwrap(), blocks, 0, true)
}

fn base(round_offset: u32, leader_offset: usize) -> BaseCommitter {
    BaseCommitter::new(BaseCommitterOptions { wave_length: 3, round_offset, leader_offset })
}

#[test]
fn quorum_thresholds() {
    assert_eq!(Committee::new(vec![1, 1, 1, 1]).unwrap().quorum_threshold(), 3);
    assert_eq!(Committee::new(vec![1; 7]).unwrap().quorum_threshold(), 5);
    assert_eq!(Committee::new(vec![10, 20, 30]).unwrap().total_stake(), 60);
    assert!(Committee::new(vec![]).is_none());
    assert!(Committee::new(vec![u64::MAX, 1]).is_none());
}

#[test]
fn schedule_rotates() {
    let s = LeaderSchedule::new(vec![0, 1, 2, 3]);
    assert_eq!(s.elect_leader(1, 0), 1);
    assert_eq!(s.elect_leader(5, 2), 3);
}

#[test]
fn elect_leader_follows_stage() {
    let s = LeaderSchedule::new(vec![0, 1, 2, 3]);
    assert_eq!(base(0, 0).elect_leader(&s, 3), Some(Slot::new(3, 3)));
    assert_eq!(base(0, 0).elect_leader(&s, 4), None);
    assert_eq!(base(1, 1).elect_leader(&s, 4), Some(Slot::new(4, 1)));
}

#[test]
fn direct_rule_outcomes() {
    let dag = full_dag(5);
    let c = base(0, 0);
    assert!(matches!(c.try_direct_decide(&dag, Slot::new(3, 3)), LeaderStatus::Commit(b) if b.round == 3 && b.author == 3));
    assert_eq!(c.try_direct_decide(&dag, Slot::new(4, 0)), LeaderStatus::Undecided(Slot::new(4, 0)));
    assert_eq!(c.try_direct_decide(&dag, Slot::new(0, 0)), LeaderStatus::Undecided(Slot::new(0, 0)));
}

#[test]
fn direct_rule_skips_blamed_leader() {
    let mut blocks = Vec::new();
    for r in 1..=4u32 {
        for a in 0..4u32 {
            let parents = if r == 3 { vec![0, 1, 3] } else { vec![0, 1, 2, 3] };
            blocks.push(Block::new(r, a, r as u64 * 10 + a as u64, parents));
        }
    }
    let dag = DagState::new(Committee::new(vec![1, 1, 1, 1]).unwrap(), blocks, 0, true);
    assert_eq!(base(2, 0).try_direct_decide(&dag, Slot::new(2, 2)), LeaderStatus::Skip(Slot::new(2, 2)));
}

#[test]
fn indirect_rule_uses_nearest_anchor() {
    let dag = full_dag(5);
    let c = base(0, 0);
    let anchor = Block::new(3, 3, 33, vec![0, 1, 2, 3]);
    let pending = vec![(LeaderStatus::Commit(anchor), Decision::Direct)];
    assert!(matches!(c.try_indirect_decide(&dag, Slot::new(2, 2), &pending), LeaderStatus::Commit(b) if b.round == 2 && b.author == 2));
    let undecided = vec![(LeaderStatus::Undecided(Slot::new(3, 3)), Decision::Indirect)];
    assert_eq!(c.try_indirect_decide(&dag, Slot::new(2, 2), &undecided), LeaderStatus::Undecided(Slot::new(2, 2)));
    assert_eq!(c.try_indirect_decide(&dag, Slot::new(2, 2), &vec![]), LeaderStatus::Undecided(Slot::new(2, 2)));
}

#[test]
fn builder_layout() {
    let b = UniversalCommitterBuilder::new(LeaderSchedule::new(vec![0, 1, 2, 3]));
    assert_eq!(b.wave_length, DEFAULT_WAVE_LENGTH);
    assert_eq!(b.number_of_leaders, 1);
    assert!(!b.pipeline);
    let c = b.with_number_of_leaders(2).with_pipeline(true).build();
    assert_eq!(c.committers.len(), 6);
    assert_eq!(c.committers[3].options, BaseCommitterOptions { wave_length: 3, round_offset: 1, leader_offset: 1 });
}

#[test]
fn highest_round_and_lookup() {
    let dag = full_dag(4);
    assert_eq!(dag.highest_accepted_round(), 4);
    assert!(dag.get_block(Slot::new(2, 1), 21).is_some());
    assert!(dag.get_block(Slot::new(2, 1), 22).is_none());
}

#[test]
fn validity_checks() {
    let dag = full_dag(3);
    assert!(dag.is_well_formed());
    let bad = DagState::new(
        Committee::new(vec![1, 1, 1, 1]).unwrap(),
        vec![Block::new(1, 0, 10, vec![0, 7])],
        0,
        true,
    );
    assert!(!bad.is_well_formed());
    let c = UniversalCommitterBuilder::new(LeaderSchedule::new(vec![0, 1, 2, 3])).build();
    assert!(c.is_valid_for(&dag));
    let outside = UniversalCommitterBuilder::new(LeaderSchedule::new(vec![0, 9])).build();
    assert!(!outside.is_valid_for(&dag));
}
