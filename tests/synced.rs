use consensus_core::block::{Block, DecidedLeader, Slot, TrustedCommit};
use consensus_core::committee::{Committee, LeaderSchedule};
use consensus_core::dag_state::DagState;
use consensus_core::universal_committer::{SyncError, UniversalCommitter, UniversalCommitterBuilder};

fn digest(round: u32, author: u32) -> u64 {
    (round as u64) * 10 + author as u64
}

fn dag(last_commit_index: u64, gc_enabled: bool) -> DagState {
    let mut blocks = Vec::new();
    for r in 1..=5u32 {
        for a in 0..4u32 {
            blocks.push(Block::new(r, a, digest(r, a), vec![0, 1, 2, 3]));
        }
    }
    DagState::new(Committee::new(vec![1, 1, 1, 1]).unwrap(), blocks, last_commit_index, gc_enabled)
}

fn committer() -> UniversalCommitter {
    UniversalCommitterBuilder::new(LeaderSchedule::new(vec![0, 1, 2, 3])).build()
}

/// Commit `index` leads with the block of round `index - 10`.
fn trusted(index: u64) -> TrustedCommit {
    let round = (index - 8) as u32;
    let author = round % 4;
    TrustedCommit::new(index, Slot::new(round, author), digest(round, author))
}

fn leader(index: u64) -> DecidedLeader {
    let round = (index - 8) as u32;
    let author = round % 4;
    DecidedLeader::Commit(Block::new(round, author, digest(round, author), vec![0, 1, 2, 3]))
}

#[test]
fn synced_happy_path() {
    let dag = dag(10, true);
    let mut queue: Vec<TrustedCommit> = (9..=13).map(trusted).collect();
    let out = committer().try_decide_synced(&dag, &mut queue, 3).unwrap();
    assert_eq!(out, vec![leader(11), leader(12), leader(13)]);
    assert!(queue.is_empty());
}

#[test]
fn synced_gap_is_rejected() {
    let dag = dag(10, true);
    let mut queue: Vec<TrustedCommit> = (12..=13).map(trusted).collect();
    let before = queue.clone();
    let r = committer().try_decide_synced(&dag, &mut queue, 3);
    assert_eq!(r, Err(SyncError::Gap { expected: 11, found: 12 }));
    assert_eq!(queue, before);
}

#[test]
fn synced_budget_leaves_remainder() {
    let dag = dag(10, true);
    let mut queue: Vec<TrustedCommit> = (11..=13).map(trusted).collect();
    let out = committer().try_decide_synced(&dag, &mut queue, 2).unwrap();
    assert_eq!(out, vec![leader(11), leader(12)]);
    assert_eq!(queue, vec![trusted(13)]);
}

#[test]
fn synced_all_applied_drains_queue() {
    let dag = dag(10, true);
    let mut queue: Vec<TrustedCommit> = (8..=10).map(trusted).collect();
    let out = committer().try_decide_synced(&dag, &mut queue, 5).unwrap();
    assert!(out.is_empty());
    assert!(queue.is_empty());
}

#[test]
fn synced_without_gc_does_nothing() {
    let dag = dag(10, false);
    let mut queue: Vec<TrustedCommit> = (11..=12).map(trusted).collect();
    let out = committer().try_decide_synced(&dag, &mut queue, 5).unwrap();
    assert!(out.is_empty());
    assert_eq!(queue.len(), 2);
}

#[test]
fn synced_missing_leader_block() {
    let dag = dag(10, true);
    let absent = TrustedCommit::new(12, Slot::new(4, 0), 12345);
    let mut queue = vec![trusted(11), absent, trusted(13)];
    let before = queue.clone();
    let r = committer().try_decide_synced(&dag, &mut queue, 3);
    assert_eq!(r, Err(SyncError::MissingLeaderBlock(Slot::new(4, 0))));
    assert_eq!(queue, before);
}
