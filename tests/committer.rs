use consensus_core::block::{Block, DecidedLeader, Decision, Slot};
use consensus_core::committee::{Committee, LeaderSchedule};
use consensus_core::dag_state::DagState;
use consensus_core::universal_committer::{UniversalCommitter, UniversalCommitterBuilder};

const A: u32 = 0;
const B: u32 = 1;
const C: u32 = 2;
const D: u32 = 3;

fn digest(round: u32, author: u32) -> u64 {
    (round as u64) * 10 + author as u64
}

fn block(round: u32, author: u32, parents: &[u32]) -> Block {
    Block::new(round, author, digest(round, author), parents.to_vec())
}

/// Every authority at every round of `1..=rounds`, each referencing all four.
fn full_rounds(rounds: u32) -> Vec<Block> {
    let mut blocks = Vec::new();
    for r in 1..=rounds {
        for a in [A, B, C, D] {
            blocks.push(block(r, a, &[A, B, C, D]));
        }
    }
    blocks
}

fn dag(blocks: Vec<Block>) -> DagState {
    DagState::new(Committee::new(vec![1, 1, 1, 1]).unwrap(), blocks, 0, true)
}

fn committer(leaders: usize, pipeline: bool) -> UniversalCommitter {
    UniversalCommitterBuilder::new(LeaderSchedule::new(vec![A, B, C, D]))
        .with_number_of_leaders(leaders)
        .with_pipeline(pipeline)
        .build()
}

fn commit(round: u32, author: u32) -> DecidedLeader {
    DecidedLeader::Commit(block(round, author, &[A, B, C, D]))
}

#[test]
fn single_leader_direct_commit() {
    let dag = dag(full_rounds(5));
    let c = committer(1, true);
    let out = c.try_decide(&dag, Slot::new(0, A));
    assert_eq!(out, vec![commit(1, B), commit(2, C), commit(3, D)]);
}

#[test]
fn unpipelined_commits_wave_leaders_only() {
    let dag = dag(full_rounds(5));
    let c = committer(1, false);
    let out = c.try_decide(&dag, Slot::new(0, A));
    assert_eq!(out, vec![commit(3, D)]);
}

#[test]
fn skip_missing_leader() {
    let mut blocks = Vec::new();
    for r in 1..=5u32 {
        for a in [A, B, C, D] {
            if r == 2 && a == C {
                continue;
            }
            let parents: &[u32] = if r == 3 { &[A, B, D] } else { &[A, B, C, D] };
            blocks.push(block(r, a, parents));
        }
    }
    let dag = dag(blocks);
    let c = committer(1, true);
    let out = c.try_decide(&dag, Slot::new(0, A));
    assert_eq!(out.len(), 3);
    assert_eq!(out[0], DecidedLeader::Commit(block(1, B, &[A, B, C, D])));
    assert_eq!(out[1], DecidedLeader::Skip(Slot::new(2, C)));
    assert_eq!(out[2], DecidedLeader::Commit(block(3, D, &[A, B, D])));
}

#[test]
fn indirect_decision() {
    let mut blocks = Vec::new();
    for r in 1..=7u32 {
        for a in [A, B, C, D] {
            let parents: &[u32] = if r == 3 && (a == A || a == B) { &[A, B, D] } else { &[A, B, C, D] };
            blocks.push(block(r, a, parents));
        }
    }
    let dag = dag(blocks);
    let c = committer(1, true);
    let out = c.try_decide_with_decisions(&dag, Slot::new(0, A));
    assert_eq!(out.len(), 5);
    assert_eq!(out[0], (commit(1, B), Decision::Direct));
    assert_eq!(out[1], (commit(2, C), Decision::Indirect));
    assert_eq!(out[2], (commit(3, D), Decision::Direct));
    assert_eq!(out[3], (commit(4, A), Decision::Direct));
    assert_eq!(out[4], (commit(5, B), Decision::Direct));
}

#[test]
fn pipelined_single_leader() {
    let dag = dag(full_rounds(6));
    let c = committer(1, true);
    let out = c.try_decide(&dag, Slot::new(0, A));
    assert_eq!(out, vec![commit(1, B), commit(2, C), commit(3, D), commit(4, A)]);
}

#[test]
fn multi_leader_round() {
    let dag = dag(full_rounds(3));
    let c = committer(2, true);
    let out = c.try_decide(&dag, Slot::new(0, A));
    // Seat 0 of round 1 is B, seat 1 is C; a round commits in seat order.
    assert_eq!(out, vec![commit(1, B), commit(1, C)]);
}

#[test]
fn repeated_pass_returns_same() {
    let dag = dag(full_rounds(6));
    let c = committer(1, true);
    let first = c.try_decide(&dag, Slot::new(0, A));
    let second = c.try_decide(&dag, Slot::new(0, A));
    assert_eq!(first, second);
}

#[test]
fn resumed_pass_after_last_output_is_empty() {
    let dag = dag(full_rounds(6));
    let c = committer(1, true);
    let out = c.try_decide(&dag, Slot::new(0, A));
    let last = out.last().unwrap().slot();
    assert_eq!(last, Slot::new(4, A));
    assert!(c.try_decide(&dag, last).is_empty());
}

#[test]
fn resumed_pass_on_extended_dag_continues() {
    let c = committer(1, true);
    let small = dag(full_rounds(5));
    let big = dag(full_rounds(7));
    let first = c.try_decide(&small, Slot::new(0, A));
    let rest = c.try_decide(&big, first.last().unwrap().slot());
    let mut joined = first.clone();
    joined.extend(rest);
    assert_eq!(joined, c.try_decide(&big, Slot::new(0, A)));
}

#[test]
fn dag_not_advanced_decides_nothing() {
    let dag = dag(full_rounds(2));
    let c = committer(1, true);
    assert!(c.try_decide(&dag, Slot::new(0, A)).is_empty());
}

#[test]
fn equivocating_leader_is_not_committed() {
    let mut blocks = full_rounds(5);
    blocks.push(Block::new(1, B, 999, vec![A, B, C, D]));
    let dag = dag(blocks);
    let c = committer(1, true);
    // No single block leads round 1: the direct rule cannot commit it, and the
    // committed anchor of round 2 settles it as skipped.
    let out = c.try_decide_with_decisions(&dag, Slot::new(0, A));
    assert_eq!(out.len(), 3);
    assert_eq!(out[0], (DecidedLeader::Skip(Slot::new(1, B)), Decision::Indirect));
    assert_eq!(out[1], (commit(2, C), Decision::Direct));
    assert_eq!(out[2], (commit(3, D), Decision::Direct));
}

#[test]
fn get_leaders_by_seat() {
    let c = committer(2, true);
    assert_eq!(c.get_leaders(1), vec![B, C]);
    assert_eq!(c.get_leaders(4), vec![A, B]);
    let plain = committer(1, false);
    assert_eq!(plain.get_leaders(3), vec![D]);
    assert!(plain.get_leaders(4).is_empty());
}
