use vstd::prelude::*;
use crate::base_committer::BaseCommitter;
use crate::block::{Block, DecidedView, Decision, Round, Slot, StatusView, GENESIS_ROUND};
use crate::dag_state::{at_slot, DagState};
use crate::universal_committer::{anchors, emitted, top_round, UniversalCommitter};

verus! {

/// Pending decisions in processing order: rounds never go up.
pub open spec fn descending(p: Seq<(StatusView, Decision)>) -> bool {
    forall|i: int, j: int| 0 <= i < j < p.len() ==> (#[trigger] p[i]).0.round() >= (#[trigger] p[j]).0.round()
}

/// Decided leaders in commit order: rounds never go down.
pub open spec fn ascending(out: Seq<DecidedView>) -> bool {
    forall|i: int, j: int| 0 <= i < j < out.len() ==> (#[trigger] out[i]).slot().round <= (#[trigger] out[j]).slot().round
}

pub proof fn lemma_at_slot_members(blocks: Seq<Block>, slot: Slot)
    ensures
        forall|i: int| 0 <= i < at_slot(blocks, slot).len() ==> (#[trigger] at_slot(blocks, slot)[i]).slot() == slot,
    decreases blocks.len(),
{
    if blocks.len() > 0 {
        let rest = at_slot(blocks.drop_last(), slot);
        lemma_at_slot_members(blocks.drop_last(), slot);
        assert forall|i: int| 0 <= i < at_slot(blocks, slot).len() implies (#[trigger] at_slot(blocks, slot)[i]).slot()
            == slot by {
            if i < rest.len() {
                assert(at_slot(blocks, slot)[i] == rest[i]);
            }
        }
    }
}

/// Both rules speak of the slot they were asked about.
pub proof fn lemma_rules_keep_slot(c: BaseCommitter, dag: DagState, slot: Slot, a: Seq<StatusView>, k: int)
    ensures
        c.direct_decision(dag, slot).slot() == slot,
        BaseCommitter::indirect_decision(dag, slot, a, k).slot() == slot,
    decreases k,
{
    lemma_at_slot_members(dag.blocks@, slot);
    if k > 0 {
        lemma_rules_keep_slot(c, dag, slot, a, k - 1);
    }
}

proof fn lemma_run_descending(
    u: UniversalCommitter,
    dag: DagState,
    last_decided: Slot,
    first: int,
    r: int,
    c: int,
    pending: Seq<(StatusView, Decision)>,
)
    requires
        r <= u32::MAX,
        descending(pending),
        forall|i: int| 0 <= i < pending.len() ==> (#[trigger] pending[i]).0.round() >= r,
    ensures
        descending(u.run(dag, last_decided, first, r, c, pending)),
    decreases r - first + 1, c,
{
    if r < first || r < 0 {
    } else if c <= 0 {
        lemma_run_descending(u, dag, last_decided, first, r - 1, u.committers@.len() as int, pending);
    } else {
        let cm = u.committers@[c - 1];
        match cm.leader_at(u.leader_schedule, r as Round) {
            None => {
                lemma_run_descending(u, dag, last_decided, first, r, c - 1, pending);
            },
            Some(slot) => {
                if slot != last_decided {
                    let e = UniversalCommitter::step(dag, cm, slot, pending);
                    lemma_rules_keep_slot(cm, dag, slot, anchors(pending), pending.len() as int);
                    let next = pending.push(e);
                    assert(e.0.round() == r);
                    assert(descending(next)) by {
                        assert forall|i: int, j: int| 0 <= i < j < next.len() implies (#[trigger] next[i]).0.round()
                            >= (#[trigger] next[j]).0.round() by {
                            if j == pending.len() {
                                assert(next[i] == pending[i]);
                            } else {
                                assert(next[i] == pending[i] && next[j] == pending[j]);
                            }
                        }
                    }
                    assert forall|i: int| 0 <= i < next.len() implies (#[trigger] next[i]).0.round() >= r by {
                        if i < pending.len() {
                            assert(next[i] == pending[i]);
                        }
                    }
                    lemma_run_descending(u, dag, last_decided, first, r, c - 1, next);
                }
            },
        }
    }
}

proof fn lemma_emitted_ascending(p: Seq<(StatusView, Decision)>, k: int)
    requires
        descending(p),
        0 <= k <= p.len(),
    ensures
        ascending(emitted(p, k).map_values(|e: (DecidedView, Decision)| e.0)),
        forall|i: int|
            0 <= i < emitted(p, k).len() ==> (#[trigger] emitted(p, k)[i]).0.slot().round != GENESIS_ROUND,
        k > 0 ==> forall|i: int|
            0 <= i < emitted(p, k).len() ==> (#[trigger] emitted(p, k)[i]).0.slot().round >= p[k - 1].0.round(),
    decreases k,
{
    if k > 0 {
        lemma_emitted_ascending(p, k - 1);
        let e = p[k - 1];
        let rest = emitted(p, k - 1);
        if k > 1 {
            assert(p[k - 2].0.round() >= p[k - 1].0.round());
        }
        if e.0.round() != GENESIS_ROUND {
            match e.0.decided() {
                Some(d) => {
                    let out = seq![(d, e.1)] + rest;
                    assert(d.slot() == e.0.slot());
                    assert(out == emitted(p, k));
                    let v = out.map_values(|x: (DecidedView, Decision)| x.0);
                    assert forall|i: int, j: int| 0 <= i < j < v.len() implies (#[trigger] v[i]).slot().round
                        <= (#[trigger] v[j]).slot().round by {
                        let rv = rest.map_values(|x: (DecidedView, Decision)| x.0);
                        assert(v[j] == rest[j - 1].0);
                        assert(rv[j - 1] == rest[j - 1].0);
                        if i > 0 {
                            assert(v[i] == rest[i - 1].0);
                            assert(rv[i - 1] == rest[i - 1].0);
                        } else {
                            assert(k > 1);
                            assert(rest[j - 1].0.slot().round >= p[k - 2].0.round());
                        }
                    }
                    assert forall|i: int| 0 <= i < out.len() implies (#[trigger] out[i]).0.slot().round != GENESIS_ROUND
                        && out[i].0.slot().round >= p[k - 1].0.round() by {
                        if i > 0 {
                            assert(out[i] == rest[i - 1]);
                        }
                    }
                },
                None => {},
            }
        }
    }
}

/// A decision pass never returns the genesis round, and returns its leaders
/// with rounds that never go down.
pub proof fn lemma_decided_ordered(u: UniversalCommitter, dag: DagState, last_decided: Slot)
    ensures
        ascending(u.decided(dag, last_decided)),
        forall|i: int|
            0 <= i < u.decided(dag, last_decided).len() ==> (#[trigger] u.decided(dag, last_decided)[i]).slot().round
                != GENESIS_ROUND,
{
    let p = u.pending_of(dag, last_decided);
    assert(top_round(dag) <= u32::MAX);
    lemma_run_descending(
        u,
        dag,
        last_decided,
        u.first_round(last_decided),
        top_round(dag),
        u.committers@.len() as int,
        Seq::empty(),
    );
    lemma_emitted_ascending(p, p.len() as int);
    let e = emitted(p, p.len() as int);
    assert forall|i: int| 0 <= i < u.decided(dag, last_decided).len() implies (#[trigger] u.decided(dag, last_decided)[i]).slot().round
        != GENESIS_ROUND by {
        assert(u.decided(dag, last_decided)[i] == e[i].0);
    }
}

proof fn lemma_run_extends(
    u: UniversalCommitter,
    dag: DagState,
    ld: Slot,
    first: int,
    r: int,
    c: int,
    pending: Seq<(StatusView, Decision)>,
)
    ensures
        pending.len() <= u.run(dag, ld, first, r, c, pending).len(),
        u.run(dag, ld, first, r, c, pending).take(pending.len() as int) == pending,
    decreases r - first + 1, c,
{
    if r < first || r < 0 {
        assert(pending.take(pending.len() as int) =~= pending);
    } else if c <= 0 {
        lemma_run_extends(u, dag, ld, first, r - 1, u.committers@.len() as int, pending);
    } else {
        let cm = u.committers@[c - 1];
        match cm.leader_at(u.leader_schedule, r as Round) {
            None => {
                lemma_run_extends(u, dag, ld, first, r, c - 1, pending);
            },
            Some(slot) => {
                if slot == ld {
                    assert(pending.take(pending.len() as int) =~= pending);
                } else {
                    let next = pending.push(UniversalCommitter::step(dag, cm, slot, pending));
                    lemma_run_extends(u, dag, ld, first, r, c - 1, next);
                    let out = u.run(dag, ld, first, r, c, pending);
                    assert(out.take(next.len() as int) == next);
                    assert(out.take(pending.len() as int) =~= next.take(pending.len() as int));
                    assert(next.take(pending.len() as int) =~= pending);
                }
            },
        }
    }
}

/// Below `first`, the slot a pass stops at is never met, so which one it is
/// does not matter.
proof fn lemma_run_ignores_stop(
    u: UniversalCommitter,
    dag: DagState,
    ld1: Slot,
    ld2: Slot,
    first: int,
    r: int,
    c: int,
    pending: Seq<(StatusView, Decision)>,
)
    requires
        r <= u32::MAX,
        ld1.round < first,
        ld2.round < first,
    ensures
        u.run(dag, ld1, first, r, c, pending) == u.run(dag, ld2, first, r, c, pending),
    decreases r - first + 1, c,
{
    if r < first || r < 0 {
    } else if c <= 0 {
        lemma_run_ignores_stop(u, dag, ld1, ld2, first, r - 1, u.committers@.len() as int, pending);
    } else {
        let cm = u.committers@[c - 1];
        match cm.leader_at(u.leader_schedule, r as Round) {
            None => {
                lemma_run_ignores_stop(u, dag, ld1, ld2, first, r, c - 1, pending);
            },
            Some(slot) => {
                let next = pending.push(UniversalCommitter::step(dag, cm, slot, pending));
                lemma_run_ignores_stop(u, dag, ld1, ld2, first, r, c - 1, next);
            },
        }
    }
}

/// A pass down to `low` is the pass down to `high` continued below it.
proof fn lemma_run_split(
    u: UniversalCommitter,
    dag: DagState,
    ld: Slot,
    low: int,
    high: int,
    r: int,
    c: int,
    pending: Seq<(StatusView, Decision)>,
)
    requires
        r <= u32::MAX,
        0 <= low <= high,
        ld.round < low,
        r >= high - 1,
        r == high - 1 ==> c == u.committers@.len(),
    ensures
        u.run(dag, ld, low, r, c, pending) == u.run(
            dag,
            ld,
            low,
            high - 1,
            u.committers@.len() as int,
            u.run(dag, ld, high, r, c, pending),
        ),
    decreases r - high + 1, c,
{
    if r < high {
    } else if c <= 0 {
        lemma_run_split(u, dag, ld, low, high, r - 1, u.committers@.len() as int, pending);
    } else {
        let cm = u.committers@[c - 1];
        match cm.leader_at(u.leader_schedule, r as Round) {
            None => {
                lemma_run_split(u, dag, ld, low, high, r, c - 1, pending);
            },
            Some(slot) => {
                let next = pending.push(UniversalCommitter::step(dag, cm, slot, pending));
                lemma_run_split(u, dag, ld, low, high, r, c - 1, next);
            },
        }
    }
}

/// With one leader per round, a pass resumed after a later slot builds the
/// same pending decisions as a pass after an earlier slot, as far as it goes:
/// its pending sequence is a prefix of the earlier pass's.
pub proof fn lemma_resumed_pass_is_prefix(u: UniversalCommitter, dag: DagState, earlier: Slot, later: Slot)
    requires
        u.number_of_leaders == 1,
        earlier.round <= later.round,
    ensures
        u.pending_of(dag, later).len() <= u.pending_of(dag, earlier).len(),
        u.pending_of(dag, earlier).take(u.pending_of(dag, later).len() as int) == u.pending_of(dag, later),
{
    let n = u.committers@.len() as int;
    let top = top_round(dag);
    let low = earlier.round + 1;
    let high = later.round + 1;
    let e: Seq<(StatusView, Decision)> = Seq::empty();
    assert(top <= u32::MAX);
    lemma_run_ignores_stop(u, dag, later, earlier, high, top, n, e);
    let resumed = u.run(dag, earlier, high, top, n, e);
    if top >= high - 1 {
        lemma_run_split(u, dag, earlier, low, high, top, n, e);
        lemma_run_extends(u, dag, earlier, low, high - 1, n, resumed);
    } else {
        assert(resumed == e);
        assert(u.pending_of(dag, earlier).take(0) =~= e);
    }
}

/// Pending decisions in processing order: rounds strictly go down.
pub open spec fn strictly_descending(p: Seq<(StatusView, Decision)>) -> bool {
    forall|i: int, j: int| 0 <= i < j < p.len() ==> (#[trigger] p[i]).0.round() > (#[trigger] p[j]).0.round()
}

proof fn lemma_run_strict(
    u: UniversalCommitter,
    dag: DagState,
    ld: Slot,
    first: int,
    r: int,
    c: int,
    pending: Seq<(StatusView, Decision)>,
)
    requires
        u.one_leader_per_round(),
        r <= u32::MAX,
        0 <= c <= u.committers@.len(),
        strictly_descending(pending),
        forall|i: int| 0 <= i < pending.len() ==> (#[trigger] pending[i]).0.round() >= r,
        (exists|i: int| 0 <= i < pending.len() && (#[trigger] pending[i]).0.round() == r) ==> forall|j: int|
            0 <= j < c ==> !(#[trigger] u.committers@[j]).elects(r as Round),
    ensures
        strictly_descending(u.run(dag, ld, first, r, c, pending)),
        forall|i: int|
            pending.len() <= i < u.run(dag, ld, first, r, c, pending).len() ==> first <= (#[trigger] u.run(
                dag,
                ld,
                first,
                r,
                c,
                pending,
            )[i]).0.round() <= r,
    decreases r - first + 1, c,
{
    if r < first || r < 0 {
    } else if c <= 0 {
        lemma_run_strict(u, dag, ld, first, r - 1, u.committers@.len() as int, pending);
    } else {
        let cm = u.committers@[c - 1];
        match cm.leader_at(u.leader_schedule, r as Round) {
            None => {
                lemma_run_strict(u, dag, ld, first, r, c - 1, pending);
            },
            Some(slot) => {
                if slot != ld {
                    let e = UniversalCommitter::step(dag, cm, slot, pending);
                    lemma_rules_keep_slot(cm, dag, slot, anchors(pending), pending.len() as int);
                    let next = pending.push(e);
                    assert(e.0.round() == r);
                    assert forall|i: int| 0 <= i < pending.len() implies (#[trigger] pending[i]).0.round() > r by {
                        if pending[i].0.round() == r {
                            assert(!u.committers@[c - 1].elects(r as Round));
                        }
                    }
                    assert(strictly_descending(next)) by {
                        assert forall|i: int, j: int| 0 <= i < j < next.len() implies (#[trigger] next[i]).0.round()
                            > (#[trigger] next[j]).0.round() by {
                            assert(next[i] == pending[i]);
                            if j < pending.len() {
                                assert(next[j] == pending[j]);
                            }
                        }
                    }
                    assert forall|i: int| 0 <= i < next.len() implies (#[trigger] next[i]).0.round() >= r by {
                        if i < pending.len() {
                            assert(next[i] == pending[i]);
                        }
                    }
                    assert forall|j: int| 0 <= j < c - 1 implies !(#[trigger] u.committers@[j]).elects(r as Round) by {
                        assert(u.committers@[c - 1].elects(r as Round));
                    }
                    lemma_run_strict(u, dag, ld, first, r, c - 1, next);
                    lemma_run_extends(u, dag, ld, first, r, c - 1, next);
                    let out = u.run(dag, ld, first, r, c, pending);
                    assert(out[pending.len() as int] == out.take(next.len() as int)[pending.len() as int]);
                }
            },
        }
    }
}

proof fn lemma_emitted_take(p: Seq<(StatusView, Decision)>, m: int, k: int)
    requires
        0 <= k <= m <= p.len(),
    ensures
        emitted(p, k) == emitted(p.take(m), k),
    decreases k,
{
    if k > 0 {
        lemma_emitted_take(p, m, k - 1);
        assert(p.take(m)[k - 1] == p[k - 1]);
    }
}

proof fn lemma_emitted_last(p: Seq<(StatusView, Decision)>, k: int)
    requires
        0 <= k <= p.len(),
        emitted(p, k).len() > 0,
    ensures
        exists|i: int|
            0 <= i < k && p[i].0.decided() == Some(emitted(p, k).last().0) && emitted(p, i).len() == 0,
    decreases k,
{
    let e = p[k - 1];
    if e.0.round() == GENESIS_ROUND {
        lemma_emitted_last(p, k - 1);
    } else {
        let rest = emitted(p, k - 1);
        let d = e.0.decided()->Some_0;
        let out = seq![(d, e.1)] + rest;
        if rest.len() == 0 {
            assert(out.last() == (d, e.1));
        } else {
            assert(out.last() == rest.last());
            lemma_emitted_last(p, k - 1);
        }
    }
}

/// With one leader per round and no round elected twice, a pass resumed after
/// the last leader that a pass returned, on the same DAG, returns nothing.
pub proof fn lemma_resume_after_last_is_empty(u: UniversalCommitter, dag: DagState, from: Slot)
    requires
        u.number_of_leaders == 1,
        u.one_leader_per_round(),
        u.decided(dag, from).len() > 0,
    ensures
        u.decided(dag, u.decided(dag, from).last().slot()).len() == 0,
{
    let n = u.committers@.len() as int;
    let top = top_round(dag);
    let low = from.round + 1;
    let e: Seq<(StatusView, Decision)> = Seq::empty();
    assert(top <= u32::MAX);
    let p1 = u.pending_of(dag, from);
    lemma_run_strict(u, dag, from, low, top, n, e);
    let out = emitted(p1, p1.len() as int);
    assert(out.len() > 0);
    lemma_emitted_last(p1, p1.len() as int);
    let i = choose|i: int|
        0 <= i < p1.len() && p1[i].0.decided() == Some(out.last().0) && emitted(p1, i).len() == 0;
    let last = u.decided(dag, from).last().slot();
    assert(u.decided(dag, from).last() == out.last().0);
    assert(last == p1[i].0.slot());
    let high = last.round + 1;
    assert(low <= last.round <= top);
    lemma_run_ignores_stop(u, dag, last, from, high, top, n, e);
    let resumed = u.run(dag, from, high, top, n, e);
    lemma_run_split(u, dag, from, low, high, top, n, e);
    lemma_run_extends(u, dag, from, low, high - 1, n, resumed);
    lemma_run_strict(u, dag, from, high, top, n, e);
    lemma_run_strict(u, dag, from, low, high - 1, n, resumed);
    let m = resumed.len() as int;
    if i < m {
        assert(p1[i] == resumed[i]);
    }
    if i > m {
        assert(p1[m].0.round() > p1[i].0.round());
    }
    assert(i == m);
    lemma_emitted_take(p1, m, m);
    assert(p1.take(m) == resumed);
    assert(u.pending_of(dag, last) == resumed);
}

proof fn lemma_emitted_strict(p: Seq<(StatusView, Decision)>, k: int)
    requires
        strictly_descending(p),
        0 <= k <= p.len(),
    ensures
        forall|i: int, j: int|
            0 <= i < j < emitted(p, k).len() ==> (#[trigger] emitted(p, k)[i]).0.slot().round
                < (#[trigger] emitted(p, k)[j]).0.slot().round,
        k > 0 ==> forall|i: int|
            0 <= i < emitted(p, k).len() ==> (#[trigger] emitted(p, k)[i]).0.slot().round >= p[k - 1].0.round(),
        k > 1 ==> forall|i: int|
            0 <= i < emitted(p, k - 1).len() ==> (#[trigger] emitted(p, k - 1)[i]).0.slot().round > p[k - 1].0.round(),
    decreases k,
{
    if k > 0 {
        lemma_emitted_strict(p, k - 1);
        let e = p[k - 1];
        let rest = emitted(p, k - 1);
        if k > 1 {
            assert(p[k - 2].0.round() > p[k - 1].0.round());
        }
        if e.0.round() != GENESIS_ROUND {
            match e.0.decided() {
                Some(d) => {
                    let out = seq![(d, e.1)] + rest;
                    assert(d.slot() == e.0.slot());
                    assert(out == emitted(p, k));
                    assert forall|i: int, j: int| 0 <= i < j < out.len() implies (#[trigger] out[i]).0.slot().round
                        < (#[trigger] out[j]).0.slot().round by {
                        assert(out[j] == rest[j - 1]);
                        if i > 0 {
                            assert(out[i] == rest[i - 1]);
                        }
                    }
                    assert forall|i: int| 0 <= i < out.len() implies (#[trigger] out[i]).0.slot().round >= p[k
                        - 1].0.round() by {
                        if i > 0 {
                            assert(out[i] == rest[i - 1]);
                        }
                    }
                },
                None => {},
            }
        }
    }
}

/// When no round is elected by two committers, a decision pass returns its
/// leaders with strictly ascending rounds.
pub proof fn lemma_decided_strictly_ascending(u: UniversalCommitter, dag: DagState, last_decided: Slot)
    requires
        u.one_leader_per_round(),
    ensures
        forall|i: int, j: int|
            0 <= i < j < u.decided(dag, last_decided).len() ==> (#[trigger] u.decided(dag, last_decided)[i]).slot().round
                < (#[trigger] u.decided(dag, last_decided)[j]).slot().round,
{
    let p = u.pending_of(dag, last_decided);
    assert(top_round(dag) <= u32::MAX);
    lemma_run_strict(
        u,
        dag,
        last_decided,
        u.first_round(last_decided),
        top_round(dag),
        u.committers@.len() as int,
        Seq::empty(),
    );
    lemma_emitted_strict(p, p.len() as int);
    let e = emitted(p, p.len() as int);
    let out = u.decided(dag, last_decided);
    assert forall|i: int, j: int| 0 <= i < j < out.len() implies (#[trigger] out[i]).slot().round
        < (#[trigger] out[j]).slot().round by {
        assert(out[i] == e[i].0 && out[j] == e[j].0);
    }
}

/// The indirect rule is consulted only for a slot the direct rule leaves
/// undecided; a direct verdict is kept as it is.
pub proof fn lemma_direct_before_indirect(dag: DagState, c: BaseCommitter, slot: Slot, pending: Seq<(StatusView, Decision)>)
    ensures
        c.direct_decision(dag, slot).is_decided() ==> UniversalCommitter::step(dag, c, slot, pending) == (
        c.direct_decision(dag, slot), Decision::Direct),
        !c.direct_decision(dag, slot).is_decided() ==> UniversalCommitter::step(dag, c, slot, pending) == (
        BaseCommitter::indirect_decision(dag, slot, anchors(pending), pending.len() as int), Decision::Indirect),
{
}

/// A decision pass is a function of the committer, the DAG snapshot and the
/// last decided slot: two passes on the same arguments return the same leaders.
pub proof fn lemma_decide_idempotent(
    u: UniversalCommitter,
    dag: DagState,
    last_decided: Slot,
    first: Seq<DecidedView>,
    second: Seq<DecidedView>,
)
    requires
        first == u.decided(dag, last_decided),
        second == u.decided(dag, last_decided),
    ensures
        first == second,
{
}

} // verus!
